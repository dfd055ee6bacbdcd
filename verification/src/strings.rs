use vstd::prelude::*;
use vstd::string::StrSliceExecFns;
use vstd::string::StringSliceAdditionalSpecFns;

verus! {

/// The ASCII lower-case image of a byte.
pub open spec fn lower_byte(b: u8) -> u8 {
    if 65 <= b <= 90 {
        (b + 32) as u8
    } else {
        b
    }
}

/// The ASCII lower-case image of a byte string.
pub open spec fn lower_bytes(s: Seq<u8>) -> Seq<u8> {
    s.map_values(|b: u8| lower_byte(b))
}

/// The ASCII lower-case image of a byte, computed.
pub fn lower_byte_exec(b: u8) -> (r: u8)
    ensures
        r == lower_byte(b),
{
    if b >= 65 && b <= 90 {
        b + 32
    } else {
        b
    }
}

/// The UTF-8 bytes of the string, copied out.
pub fn bytes_of(s: &str) -> (r: Vec<u8>)
    ensures
        r@ == s.spec_bytes(),
{
    s.as_bytes_vec()
}

/// Whether the two strings hold the same bytes up to ASCII letter case.
pub fn eq_ignore_case(s: &str, t: &str) -> (b: bool)
    ensures
        b == (lower_bytes(s.spec_bytes()) == lower_bytes(t.spec_bytes())),
{
    let sb = s.as_bytes_vec();
    let tb = t.as_bytes_vec();
    lists_eq_ignore_case(&sb, &tb)
}

/// Whether the two byte lists are equal up to ASCII letter case.
pub fn lists_eq_ignore_case(sb: &Vec<u8>, tb: &Vec<u8>) -> (b: bool)
    ensures
        b == (lower_bytes(sb@) == lower_bytes(tb@)),
{
    if sb.len() != tb.len() {
        proof {
            assert(lower_bytes(sb@).len() == sb@.len());
            assert(lower_bytes(tb@).len() == tb@.len());
        }
        return false;
    }
    let mut i: usize = 0;
    while i < sb.len()
        invariant
            sb@.len() == tb@.len(),
            0 <= i <= sb@.len(),
            forall|k: int| 0 <= k < i ==> lower_bytes(sb@)[k] == lower_bytes(tb@)[k],
        decreases sb@.len() - i,
    {
        let x = lower_byte_exec(sb[i]);
        let y = lower_byte_exec(tb[i]);
        proof {
            assert(lower_bytes(sb@)[i as int] == lower_byte(sb@[i as int]));
            assert(lower_bytes(tb@)[i as int] == lower_byte(tb@[i as int]));
        }
        if x != y {
            proof {
                assert(lower_bytes(sb@) != lower_bytes(tb@)) by {
                    assert(lower_bytes(sb@)[i as int] != lower_bytes(tb@)[i as int]);
                }
            }
            return false;
        }
        i += 1;
    }
    proof {
        assert(lower_bytes(sb@) =~= lower_bytes(tb@));
    }
    true
}

} // verus!
