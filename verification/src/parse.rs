use vstd::prelude::*;

use crate::strings::{bytes_of, lists_eq_ignore_case};
use crate::variant::arrow::Arrow;
use crate::variant::diagonal::Diagonal;
use crate::variant::dispatch::SudokuVariant;
use crate::variant::entropic::Entropic;
use crate::variant::german_whisper::GermanWhisper;
use crate::variant::killer::KillerCage;
use crate::variant::king::King;
use crate::variant::knight::Knight;
use crate::variant::kropki::KropkiDot;
use crate::variant::nabner::Nabner;
use crate::variant::quadruple::QuadrupleCircle;
use crate::variant::region_sum::RegionSum;
use crate::variant::renban::Renban;
use crate::variant::shaded::{Shaded, Shape};
use crate::variant::thermometer::Thermometer;
use crate::variant::util::{pos_list_distinct, pos_list_wf};
use crate::variant::xv::XVDot;
use crate::grid::SudokuGrid;

verus! {

/// Whether a byte is an ASCII space or tab.
fn is_space(b: u8) -> (r: bool) {
    b == 32 || b == 9 || b == 13 || b == 10
}

/// A copy of `v[from..to]`.
fn slice_bytes(v: &Vec<u8>, from: usize, to: usize) -> (r: Vec<u8>)
    requires
        from <= to <= v@.len(),
    ensures
        r@ == v@.subrange(from as int, to as int),
{
    let mut out: Vec<u8> = Vec::new();
    let mut i: usize = from;
    while i < to
        invariant
            from <= i <= to <= v@.len(),
            out@ == v@.subrange(from as int, i as int),
        decreases to - i,
    {
        out.push(v[i]);
        i += 1;
        proof {
            assert(out@ =~= v@.subrange(from as int, i as int));
        }
    }
    out
}

/// `v` without leading and trailing whitespace.
fn trim_bytes(v: &Vec<u8>) -> (r: Vec<u8>) {
    let mut from: usize = 0;
    while from < v.len() && is_space(v[from])
        invariant
            0 <= from <= v@.len(),
        decreases v@.len() - from,
    {
        from += 1;
    }
    let mut to: usize = v.len();
    while to > from && is_space(v[to - 1])
        invariant
            from <= to <= v@.len(),
        decreases to,
    {
        to -= 1;
    }
    slice_bytes(v, from, to)
}

/// The positions of every colon in `v`.
fn colon_positions(v: &Vec<u8>) -> (r: Vec<usize>)
    ensures
        forall|k: int| 0 <= k < r@.len() ==> #[trigger] r@[k] < v@.len(),
{
    let mut out: Vec<usize> = Vec::new();
    let mut i: usize = 0;
    while i < v.len()
        invariant
            0 <= i <= v@.len(),
            forall|k: int| 0 <= k < out@.len() ==> #[trigger] out@[k] < v@.len(),
        decreases v@.len() - i,
    {
        if v[i] == 58 {
            out.push(i);
        }
        i += 1;
    }
    out
}

/// Parse an unsigned decimal number from `v[i..]`, returning the value
/// (capped at 1000) and the index after the digits; the first byte must be a
/// digit.
fn scan_number(v: &Vec<u8>, i: usize) -> (r: Option<(usize, usize)>)
    requires
        i <= v@.len(),
    ensures
        r matches Some(p) ==> i < p.1 <= v@.len() && p.0 <= 1000,
{
    let mut j = i;
    let mut val: usize = 0;
    while j < v.len() && v[j] >= 48 && v[j] <= 57
        invariant
            i <= j <= v@.len(),
            val <= 1000,
        decreases v@.len() - j,
    {
        if val < 1000 {
            val = val * 10 + ((v[j] - 48) as usize);
            if val > 1000 {
                val = 1000;
            }
        }
        j += 1;
    }
    if j == i {
        None
    } else {
        Some((val, j))
    }
}

/// Extract every `(row, col)` pair written in the text, scanning over any
/// other characters. The list is rejected unless it holds between 1 and 81
/// pairwise distinct in-range positions.
pub fn parse_positions(data: &str) -> (r: Option<Vec<(usize, usize)>>)
    ensures
        r matches Some(v) ==> pos_list_wf(v@) && pos_list_distinct(v@) && 1 <= v@.len() <= 81,
{
    let bytes = bytes_of(data);
    parse_positions_bytes(&bytes)
}

/// The byte-level worker behind [`parse_positions`].
fn parse_positions_bytes(bytes: &Vec<u8>) -> (r: Option<Vec<(usize, usize)>>)
    ensures
        r matches Some(v) ==> pos_list_wf(v@) && pos_list_distinct(v@) && 1 <= v@.len() <= 81,
{
    let mut out: Vec<(usize, usize)> = Vec::new();
    let n = bytes.len();
    let mut i: usize = 0;
    while i < n
        invariant
            0 <= i <= n,
            n == bytes@.len(),
            pos_list_wf(out@),
            pos_list_distinct(out@),
            out@.len() <= 81,
        decreases n - i,
    {
        let mut matched = false;
        if bytes[i] == 40 {
            // An opening parenthesis: try to read "row , col )".
            match scan_number(bytes, i + 1) {
                Some((row, j1)) => {
                    if j1 < n && bytes[j1] == 44 {
                        let mut j2 = j1 + 1;
                        while j2 < n && is_space(bytes[j2])
                            invariant
                                j1 < j2 <= n,
                                i < j1,
                                n == bytes@.len(),
                            decreases n - j2,
                        {
                            j2 += 1;
                        }
                        match scan_number(bytes, j2) {
                            Some((col, j3)) => {
                                if j3 < n && bytes[j3] == 41 {
                                    if row > 8 || col > 8 || out.len() >= 81 {
                                        return None;
                                    }
                                    // A repeated cell makes the constraint malformed.
                                    if crate::variant::util::contains_pos(&out, row, col) {
                                        return None;
                                    }
                                    let ghost prev = out@;
                                    out.push((row, col));
                                    proof {
                                        assert forall|a: int, b: int|
                                            0 <= a < b < out@.len() implies out@[a] != out@[b] by {
                                            if b < out@.len() - 1 {
                                                assert(prev[a] != prev[b]);
                                            } else {
                                                assert(out@[b] == (row, col));
                                                assert(prev[a] == out@[a]);
                                                assert(!prev.contains((row, col)));
                                                if out@[a] == (row, col) {
                                                    assert(prev.contains((row, col)));
                                                }
                                            }
                                        }
                                    }
                                    matched = true;
                                    i = j3 + 1;
                                }
                            },
                            None => {},
                        }
                    }
                },
                None => {},
            }
        }
        if !matched {
            i += 1;
        }
    }
    if out.len() == 0 {
        return None;
    }
    Some(out)
}

/// Parse an unsigned number out of a whole trimmed byte string.
fn parse_full_number(v: &Vec<u8>) -> (r: Option<usize>)
    ensures
        r matches Some(x) ==> x <= 1000,
{
    let t = trim_bytes(v);
    if t.len() == 0 {
        return None;
    }
    match scan_number(&t, 0) {
        Some((val, j)) => {
            if j == t.len() {
                Some(val)
            } else {
                None
            }
        },
        None => None,
    }
}

/// Whether the trimmed text equals the word, ignoring ASCII letter case.
fn word_is(v: &Vec<u8>, w: &str) -> (r: bool) {
    let t = trim_bytes(v);
    let wb = bytes_of(w);
    lists_eq_ignore_case(&t, &wb)
}

impl KillerCage {
    /// Parse "(cells...): sum" into a killer cage; the sum must lie in 1..=45.
    pub fn parse(data: &str) -> (r: Option<SudokuVariant>)
        ensures
            r matches Some(v) ==> v.wf(),
    {
        let bytes = bytes_of(data);
        Self::parse_bytes(&bytes)
    }

    /// The byte-level worker behind `parse`.
    fn parse_bytes(bytes: &Vec<u8>) -> (r: Option<SudokuVariant>)
        ensures
            r matches Some(v) ==> v.wf(),
    {
        let colons = colon_positions(bytes);
        if colons.len() != 1 {
            return None;
        }
        let cut = colons[0];
        if cut >= bytes.len() {
            return None;
        }
        let head = slice_bytes(bytes, 0, cut);
        let tail = slice_bytes(bytes, cut + 1, bytes.len());
        let cells = match parse_positions_bytes(&head) {
            Some(c) => c,
            None => {
                return None;
            },
        };
        let sum = match parse_full_number(&tail) {
            Some(s) => s,
            None => {
                return None;
            },
        };
        if sum < 1 || sum > 45 {
            return None;
        }
        Some(SudokuVariant::Killer(KillerCage::new(cells, sum as u8)))
    }
}

impl Diagonal {
    /// Parse "positive" or "negative" into a main diagonal.
    pub fn parse(data: &str) -> (r: Option<SudokuVariant>)
        ensures
            r matches Some(v) ==> v.wf(),
    {
        let bytes = bytes_of(data);
        Self::parse_bytes(&bytes)
    }

    /// The byte-level worker behind `parse`.
    fn parse_bytes(bytes: &Vec<u8>) -> (r: Option<SudokuVariant>)
        ensures
            r matches Some(v) ==> v.wf(),
    {
        if word_is(bytes, "positive") {
            Some(SudokuVariant::Diagonal(Diagonal::new(true)))
        } else if word_is(bytes, "negative") {
            Some(SudokuVariant::Diagonal(Diagonal::new(false)))
        } else {
            None
        }
    }
}

impl Thermometer {
    /// Parse "(cells...)" into a thermometer, bulb first.
    pub fn parse(data: &str) -> (r: Option<SudokuVariant>)
        ensures
            r matches Some(v) ==> v.wf(),
    {
        let bytes = bytes_of(data);
        Self::parse_bytes(&bytes)
    }

    /// The byte-level worker behind `parse`.
    fn parse_bytes(bytes: &Vec<u8>) -> (r: Option<SudokuVariant>)
        ensures
            r matches Some(v) ==> v.wf(),
    {
        let positions = match parse_positions_bytes(bytes) {
            Some(p) => p,
            None => {
                return None;
            },
        };
        Some(SudokuVariant::Thermometer(Thermometer::new(positions)))
    }
}


impl KropkiDot {
    /// Parse "(a), (b) : white|black" into a Kropki dot.
    pub fn parse(data: &str) -> (r: Option<SudokuVariant>)
        ensures
            r matches Some(v) ==> v.wf(),
    {
        let bytes = bytes_of(data);
        Self::parse_bytes(&bytes)
    }

    /// The byte-level worker behind `parse`.
    fn parse_bytes(bytes: &Vec<u8>) -> (r: Option<SudokuVariant>)
        ensures
            r matches Some(v) ==> v.wf(),
    {
        let colons = colon_positions(bytes);
        if colons.len() != 1 {
            return None;
        }
        let cut = colons[0];
        if cut >= bytes.len() {
            return None;
        }
        let head = slice_bytes(bytes, 0, cut);
        let tail = slice_bytes(bytes, cut + 1, bytes.len());
        let cells = match parse_positions_bytes(&head) {
            Some(c) => c,
            None => {
                return None;
            },
        };
        if cells.len() != 2 {
            return None;
        }
        if word_is(&tail, "white") {
            Some(SudokuVariant::Kropki(KropkiDot::new(cells, "white")))
        } else if word_is(&tail, "black") {
            Some(SudokuVariant::Kropki(KropkiDot::new(cells, "black")))
        } else {
            None
        }
    }
}

impl XVDot {
    /// Parse "(a), (b) : x|v" into an XV dot.
    pub fn parse(data: &str) -> (r: Option<SudokuVariant>)
        ensures
            r matches Some(v) ==> v.wf(),
    {
        let bytes = bytes_of(data);
        Self::parse_bytes(&bytes)
    }

    /// The byte-level worker behind `parse`.
    fn parse_bytes(bytes: &Vec<u8>) -> (r: Option<SudokuVariant>)
        ensures
            r matches Some(v) ==> v.wf(),
    {
        let colons = colon_positions(bytes);
        if colons.len() != 1 {
            return None;
        }
        let cut = colons[0];
        if cut >= bytes.len() {
            return None;
        }
        let head = slice_bytes(bytes, 0, cut);
        let tail = slice_bytes(bytes, cut + 1, bytes.len());
        let cells = match parse_positions_bytes(&head) {
            Some(c) => c,
            None => {
                return None;
            },
        };
        if cells.len() != 2 {
            return None;
        }
        if word_is(&tail, "x") {
            Some(SudokuVariant::XVDot(XVDot::new(cells, "x")))
        } else if word_is(&tail, "v") {
            Some(SudokuVariant::XVDot(XVDot::new(cells, "v")))
        } else {
            None
        }
    }
}

impl QuadrupleCircle {
    /// Parse "(four cells) : d1,d2,.." into a quadruple circle.
    pub fn parse(data: &str, is_anti: bool) -> (r: Option<SudokuVariant>)
        ensures
            r matches Some(v) ==> v.wf(),
    {
        let bytes = bytes_of(data);
        Self::parse_bytes(&bytes, is_anti)
    }

    /// The byte-level worker behind `parse`.
    fn parse_bytes(bytes: &Vec<u8>, is_anti: bool) -> (r: Option<SudokuVariant>)
        ensures
            r matches Some(v) ==> v.wf(),
    {
        let colons = colon_positions(bytes);
        if colons.len() != 1 {
            return None;
        }
        let cut = colons[0];
        if cut >= bytes.len() {
            return None;
        }
        let head = slice_bytes(bytes, 0, cut);
        let tail = slice_bytes(bytes, cut + 1, bytes.len());
        let cells = match parse_positions_bytes(&head) {
            Some(c) => c,
            None => {
                return None;
            },
        };
        if cells.len() != 4 {
            return None;
        }
        // The required digits, separated by commas.
        let mut required: Vec<u8> = Vec::new();
        let mut start: usize = 0;
        let tn = tail.len();
        let mut i: usize = 0;
        while i < tn
            invariant
                0 <= start <= i <= tn,
                tn == tail@.len(),
            decreases tn - i,
        {
            if tail[i] == 44 {
                let piece = slice_bytes(&tail, start, i);
                match parse_full_number(&piece) {
                    Some(x) => {
                        if x < 1 || x > 9 {
                            return None;
                        }
                        required.push(x as u8);
                    },
                    None => {
                        return None;
                    },
                }
                start = i + 1;
            }
            i += 1;
        }
        let last_piece = slice_bytes(&tail, start, tn);
        match parse_full_number(&last_piece) {
            Some(x) => {
                if x < 1 || x > 9 {
                    return None;
                }
                required.push(x as u8);
            },
            None => {
                return None;
            },
        }
        if required.len() == 0 || required.len() > 4 {
            return None;
        }
        Some(SudokuVariant::QuadrupleCircles(QuadrupleCircle::new(cells, required, is_anti)))
    }
}

impl Renban {
    /// Parse "(cells...)" into a renban line.
    pub fn parse(data: &str) -> (r: Option<SudokuVariant>)
        ensures
            r matches Some(v) ==> v.wf(),
    {
        let bytes = bytes_of(data);
        Self::parse_bytes(&bytes)
    }

    /// The byte-level worker behind `parse`.
    fn parse_bytes(bytes: &Vec<u8>) -> (r: Option<SudokuVariant>)
        ensures
            r matches Some(v) ==> v.wf(),
    {
        let positions = match parse_positions_bytes(bytes) {
            Some(p) => p,
            None => {
                return None;
            },
        };
        Some(SudokuVariant::Renban(Renban::new(positions)))
    }
}


impl Entropic {
    /// Parse "(cells...)" into an entropic line.
    pub fn parse(data: &str) -> (r: Option<SudokuVariant>)
        ensures
            r matches Some(v) ==> v.wf(),
    {
        let bytes = bytes_of(data);
        Self::parse_bytes(&bytes)
    }

    /// The byte-level worker behind `parse`.
    fn parse_bytes(bytes: &Vec<u8>) -> (r: Option<SudokuVariant>)
        ensures
            r matches Some(v) ==> v.wf(),
    {
        let positions = match parse_positions_bytes(bytes) {
            Some(p) => p,
            None => {
                return None;
            },
        };
        Some(SudokuVariant::Entropic(Entropic::new(positions)))
    }
}


impl Arrow {
    /// Parse "(head)(shaft...)" into an arrow.
    pub fn parse(data: &str) -> (r: Option<SudokuVariant>)
        ensures
            r matches Some(v) ==> v.wf(),
    {
        let bytes = bytes_of(data);
        Self::parse_bytes(&bytes)
    }

    /// The byte-level worker behind `parse`.
    fn parse_bytes(bytes: &Vec<u8>) -> (r: Option<SudokuVariant>)
        ensures
            r matches Some(v) ==> v.wf(),
    {
        let positions = match parse_positions_bytes(bytes) {
            Some(p) => p,
            None => {
                return None;
            },
        };
        Some(SudokuVariant::Arrow(Arrow::new(positions)))
    }
}


impl RegionSum {
    /// Parse "(cells...)" into a region-sum line.
    pub fn parse(data: &str) -> (r: Option<SudokuVariant>)
        ensures
            r matches Some(v) ==> v.wf(),
    {
        let bytes = bytes_of(data);
        Self::parse_bytes(&bytes)
    }

    /// The byte-level worker behind `parse`.
    fn parse_bytes(bytes: &Vec<u8>) -> (r: Option<SudokuVariant>)
        ensures
            r matches Some(v) ==> v.wf(),
    {
        let positions = match parse_positions_bytes(bytes) {
            Some(p) => p,
            None => {
                return None;
            },
        };
        Some(SudokuVariant::RegionSum(RegionSum::new(positions)))
    }
}


impl GermanWhisper {
    /// Parse "(cells...)" or "(cells...) : circular" into a whisper line.
    pub fn parse(data: &str) -> (r: Option<SudokuVariant>)
        ensures
            r matches Some(v) ==> v.wf(),
    {
        let bytes = bytes_of(data);
        Self::parse_bytes(&bytes)
    }

    /// The byte-level worker behind `parse`.
    fn parse_bytes(bytes: &Vec<u8>) -> (r: Option<SudokuVariant>)
        ensures
            r matches Some(v) ==> v.wf(),
    {
        let colons = colon_positions(bytes);
        if colons.len() == 0 {
            let positions = match parse_positions_bytes(&bytes) {
                Some(p) => p,
                None => {
                    return None;
                },
            };
            return Some(SudokuVariant::GermanWhisper(GermanWhisper::new(positions, false)));
        }
        if colons.len() != 1 {
            return None;
        }
        let cut = colons[0];
        if cut >= bytes.len() {
            return None;
        }
        let head = slice_bytes(bytes, 0, cut);
        let tail = slice_bytes(bytes, cut + 1, bytes.len());
        if !word_is(&tail, "circular") {
            return None;
        }
        let positions = match parse_positions_bytes(&head) {
            Some(p) => p,
            None => {
                return None;
            },
        };
        Some(SudokuVariant::GermanWhisper(GermanWhisper::new(positions, true)))
    }
}

impl Shaded {
    /// Parse "(cell): circle|square" into a shaded cell.
    pub fn parse(data: &str) -> (r: Option<SudokuVariant>)
        ensures
            r matches Some(v) ==> v.wf(),
    {
        let bytes = bytes_of(data);
        Self::parse_bytes(&bytes)
    }

    /// The byte-level worker behind `parse`.
    fn parse_bytes(bytes: &Vec<u8>) -> (r: Option<SudokuVariant>)
        ensures
            r matches Some(v) ==> v.wf(),
    {
        let colons = colon_positions(bytes);
        if colons.len() != 1 {
            return None;
        }
        let cut = colons[0];
        if cut >= bytes.len() {
            return None;
        }
        let head = slice_bytes(bytes, 0, cut);
        let tail = slice_bytes(bytes, cut + 1, bytes.len());
        let cells = match parse_positions_bytes(&head) {
            Some(c) => c,
            None => {
                return None;
            },
        };
        if cells.len() != 1 {
            return None;
        }
        proof {
            assert(crate::variant::util::pos_wf(cells@[0]));
        }
        let shape = if word_is(&tail, "circle") {
            Shape::Circle
        } else if word_is(&tail, "square") {
            Shape::Square
        } else {
            return None;
        };
        Some(SudokuVariant::Shaded(Shaded::new(cells[0], shape)))
    }
}

impl King {
    /// Parse the king constraint; it takes no payload.
    pub fn parse(_data: &str) -> (r: Option<SudokuVariant>)
        ensures
            r matches Some(v) ==> v.wf(),
    {
        Some(SudokuVariant::King(King::new()))
    }

    /// The byte-level worker behind `parse`.
    fn parse_bytes(_bytes: &Vec<u8>) -> (r: Option<SudokuVariant>)
        ensures
            r matches Some(v) ==> v.wf(),
    {
        Some(SudokuVariant::King(King::new()))
    }
}

impl Knight {
    /// Parse the knight constraint; it takes no payload.
    pub fn parse(_data: &str) -> (r: Option<SudokuVariant>)
        ensures
            r matches Some(v) ==> v.wf(),
    {
        Some(SudokuVariant::Knight(Knight::new()))
    }

    /// The byte-level worker behind `parse`.
    fn parse_bytes(_bytes: &Vec<u8>) -> (r: Option<SudokuVariant>)
        ensures
            r matches Some(v) ==> v.wf(),
    {
        Some(SudokuVariant::Knight(Knight::new()))
    }
}

impl SudokuVariant {
    /// Parse one variant line of the form "type : payload"; the type word is
    /// matched ignoring letter case.
    pub fn parse(line: &str) -> (r: Option<SudokuVariant>)
        ensures
            r matches Some(v) ==> v.wf(),
    {
        let bytes = bytes_of(line);
        SudokuVariant::parse_line_bytes(&bytes)
    }

    /// The byte-level worker behind `parse`.
    pub(crate) fn parse_line_bytes(bytes0: &Vec<u8>) -> (r: Option<SudokuVariant>)
        ensures
            r matches Some(v) ==> v.wf(),
    {
        let bytes = trim_bytes(bytes0);
        if bytes.len() == 0 {
            return None;
        }
        let colons = colon_positions(&bytes);
        if colons.len() == 0 {
            return None;
        }
        let cut = colons[0];
        if cut >= bytes.len() {
            return None;
        }
        let head = slice_bytes(&bytes, 0, cut);
        let tail0 = slice_bytes(&bytes, cut + 1, bytes.len());
        let tail = trim_bytes(&tail0);
        if word_is(&head, "killer") {
            KillerCage::parse_bytes(&tail)
        } else if word_is(&head, "diagonal") {
            Diagonal::parse_bytes(&tail)
        } else if word_is(&head, "thermometer") {
            Thermometer::parse_bytes(&tail)
        } else if word_is(&head, "kropki") {
            KropkiDot::parse_bytes(&tail)
        } else if word_is(&head, "quadruple") {
            QuadrupleCircle::parse_bytes(&tail, false)
        } else if word_is(&head, "anti quadruple") {
            QuadrupleCircle::parse_bytes(&tail, true)
        } else if word_is(&head, "renban") {
            Renban::parse_bytes(&tail)
        } else if word_is(&head, "entropic") {
            Entropic::parse_bytes(&tail)
        } else if word_is(&head, "arrow") {
            Arrow::parse_bytes(&tail)
        } else if word_is(&head, "region sum") {
            RegionSum::parse_bytes(&tail)
        } else if word_is(&head, "xv") {
            XVDot::parse_bytes(&tail)
        } else if word_is(&head, "german whisper") {
            GermanWhisper::parse_bytes(&tail)
        } else if word_is(&head, "shaded") {
            Shaded::parse_bytes(&tail)
        } else if word_is(&head, "knight") {
            Knight::parse_bytes(&tail)
        } else if word_is(&head, "king") {
            King::parse_bytes(&tail)
        } else if word_is(&head, "nabner") {
            Nabner::parse_bytes(&tail)
        } else {
            None
        }
    }
}

impl Nabner {
    /// Parse "(cells...)" into a nabner line.
    pub fn parse(data: &str) -> (r: Option<SudokuVariant>)
        ensures
            r matches Some(v) ==> v.wf(),
    {
        let bytes = bytes_of(data);
        Self::parse_bytes(&bytes)
    }

    /// The byte-level worker behind `parse`.
    fn parse_bytes(bytes: &Vec<u8>) -> (r: Option<SudokuVariant>)
        ensures
            r matches Some(v) ==> v.wf(),
    {
        let positions = match parse_positions_bytes(bytes) {
            Some(p) => p,
            None => {
                return None;
            },
        };
        Some(SudokuVariant::Nabner(Nabner::new(positions)))
    }
}


/// Parse a whole puzzle text: nine grid rows of the characters 1..=9 and
/// `.`, then any number of variant lines, stopped by a line "solution:".
/// A malformed row or variant line makes the whole text unparseable.
pub fn parse_puzzle(text: &str) -> (r: Option<SudokuGrid>)
    ensures
        r matches Some(g) ==> g.wf(),
{
    let bytes = bytes_of(text);
    // Cut the text into lines.
    let mut lines: Vec<Vec<u8>> = Vec::new();
    let mut start: usize = 0;
    let n = bytes.len();
    let mut i: usize = 0;
    while i < n
        invariant
            0 <= start <= i <= n,
            n == bytes@.len(),
        decreases n - i,
    {
        if bytes[i] == 10 {
            let line = slice_bytes(&bytes, start, i);
            lines.push(trim_bytes(&line));
            start = i + 1;
        }
        i += 1;
    }
    let last_line = slice_bytes(&bytes, start, n);
    lines.push(trim_bytes(&last_line));
    if lines.len() < 9 {
        return None;
    }
    let mut grid = SudokuGrid::empty();
    let mut row: usize = 0;
    while row < 9
        invariant
            grid.wf(),
            0 <= row <= 9,
            lines@.len() >= 9,
        decreases 9 - row,
    {
        let line = &lines[row];
        if line.len() != 9 {
            return None;
        }
        let mut col: usize = 0;
        while col < 9
            invariant
                grid.wf(),
                row < 9,
                0 <= col <= 9,
                line@.len() == 9,
            decreases 9 - col,
        {
            let b = line[col];
            if b >= 49 && b <= 57 {
                let res = grid.set_cell(row, col, b - 48);
                if res.is_err() {
                    return None;
                }
            } else if b != 46 {
                return None;
            }
            col += 1;
        }
        row += 1;
    }
    // Variant lines.
    let mut li: usize = 9;
    while li < lines.len()
        invariant
            grid.wf(),
            9 <= li <= lines@.len(),
        decreases lines@.len() - li,
    {
        let line = &lines[li];
        if line.len() == 0 {
            li += 1;
            continue ;
        }
        if word_is(line, "solution:") {
            return Some(grid);
        }
        match SudokuVariant::parse_line_bytes(line) {
            Some(v) => {
                grid.add_variant(v);
            },
            None => {
                return None;
            },
        }
        li += 1;
    }
    Some(grid)
}

} // verus!
