pub mod arrow;
pub mod diagonal;
pub mod dispatch;
pub mod entropic;
pub mod german_whisper;
pub mod killer;
pub mod king;
pub mod knight;
pub mod kropki;
pub mod nabner;
pub mod quadruple;
pub mod region_sum;
pub mod renban;
pub mod shaded;
pub mod thermometer;
pub mod util;
pub mod xv;
