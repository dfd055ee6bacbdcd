use vstd::prelude::*;

verus! {

/// A digit of the puzzle: 1 through 9. Zero stands for an empty cell.
pub open spec fn is_digit(d: u8) -> bool {
    1 <= d && d <= 9
}

/// Candidate lists are kept strictly ascending, so they hold no duplicates.
pub open spec fn strictly_sorted(s: Seq<u8>) -> bool {
    forall|i: int, j: int| 0 <= i < j < s.len() ==> s[i] < s[j]
}

/// Every element of the sequence is a digit 1..=9.
pub open spec fn all_digits(s: Seq<u8>) -> bool {
    forall|i: int| 0 <= i < s.len() ==> is_digit(s[i])
}

/// Well-formed candidate list: strictly ascending digits 1..=9.
pub open spec fn wf_digits(s: Seq<u8>) -> bool {
    strictly_sorted(s) && all_digits(s)
}

/// `s` with every occurrence of `d` removed, order kept.
pub open spec fn removed(s: Seq<u8>, d: u8) -> Seq<u8>
    decreases s.len(),
{
    if s.len() == 0 {
        Seq::empty()
    } else if s.last() == d {
        removed(s.drop_last(), d)
    } else {
        removed(s.drop_last(), d).push(s.last())
    }
}

/// The elements of `s` that also occur in `t`, order kept.
pub open spec fn kept(s: Seq<u8>, t: Seq<u8>) -> Seq<u8>
    decreases s.len(),
{
    if s.len() == 0 {
        Seq::empty()
    } else if t.contains(s.last()) {
        kept(s.drop_last(), t).push(s.last())
    } else {
        kept(s.drop_last(), t)
    }
}

/// The sum of the elements of `s`, as a mathematical integer.
pub open spec fn sum_of(s: Seq<u8>) -> int
    decreases s.len(),
{
    if s.len() == 0 {
        0
    } else {
        sum_of(s.drop_last()) + s.last()
    }
}

/// Membership in a pushed sequence splits into the old membership and the new element.
pub proof fn lemma_push_contains(q: Seq<u8>, e: u8)
    ensures
        forall|x: u8|
            #![trigger q.push(e).contains(x)]
            #![trigger q.contains(x)]
            q.push(e).contains(x) <==> (q.contains(x) || x == e),
{
    assert forall|x: u8| q.push(e).contains(x) implies (q.contains(x) || x == e) by {
        let i = choose|i: int| 0 <= i < q.push(e).len() && q.push(e)[i] == x;
        if i < q.len() {
            assert(q[i] == x);
        }
    }
    assert forall|x: u8| (q.contains(x) || x == e) implies q.push(e).contains(x) by {
        if q.contains(x) {
            let i = choose|i: int| 0 <= i < q.len() && q[i] == x;
            assert(q.push(e)[i] == x);
        } else {
            assert(q.push(e)[q.len() as int] == x);
        }
    }
}

/// Membership in a nonempty sequence splits into the front part and the last element.
pub proof fn lemma_unlast_contains(s: Seq<u8>)
    requires
        s.len() > 0,
    ensures
        forall|x: u8| s.contains(x) <==> (s.drop_last().contains(x) || x == s.last()),
{
    let head = s.drop_last();
    assert forall|x: u8| s.contains(x) implies (head.contains(x) || x == s.last()) by {
        let i = choose|i: int| 0 <= i < s.len() && s[i] == x;
        if i < s.len() - 1 {
            assert(head[i] == x);
        }
    }
    assert forall|x: u8| (head.contains(x) || x == s.last()) implies s.contains(x) by {
        if head.contains(x) {
            let i = choose|i: int| 0 <= i < head.len() && head[i] == x;
            assert(s[i] == x);
        } else {
            assert(s[s.len() - 1] == x);
        }
    }
}

/// Removing a digit keeps the list sorted and removes exactly that digit.
pub proof fn lemma_removed_props(s: Seq<u8>, d: u8)
    ensures
        strictly_sorted(s) ==> strictly_sorted(removed(s, d)),
        forall|x: u8| removed(s, d).contains(x) <==> (s.contains(x) && x != d),
        removed(s, d).len() <= s.len(),
        all_digits(s) ==> all_digits(removed(s, d)),
    decreases s.len(),
{
    if s.len() == 0 {
        assert(forall|x: u8| !s.contains(x));
        assert(forall|x: u8| !removed(s, d).contains(x));
    } else {
        let head = s.drop_last();
        let last = s.last();
        lemma_removed_props(head, d);
        lemma_unlast_contains(s);
        assert(strictly_sorted(s) ==> strictly_sorted(head));
        assert(all_digits(s) ==> all_digits(head));
        if last == d {
            assert(removed(s, d) == removed(head, d));
            assert forall|x: u8| removed(s, d).contains(x) <==> (s.contains(x) && x != d) by {
                assert(removed(head, d).contains(x) <==> (head.contains(x) && x != d));
            }
        } else {
            let r = removed(head, d).push(last);
            assert(removed(s, d) == r);
            lemma_push_contains(removed(head, d), last);
            assert forall|x: u8| removed(s, d).contains(x) <==> (s.contains(x) && x != d) by {
                assert(r.contains(x) <==> (removed(head, d).contains(x) || x == last));
            }
            if strictly_sorted(s) {
                assert forall|i: int, j: int| 0 <= i < j < r.len() implies r[i] < r[j] by {
                    if j < r.len() - 1 {
                        assert(removed(head, d)[i] < removed(head, d)[j]);
                    } else {
                        assert(removed(head, d)[i] == r[i]);
                        assert(removed(head, d).contains(r[i]));
                        assert(head.contains(r[i]));
                        let k = choose|k: int| 0 <= k < head.len() && head[k] == r[i];
                        assert(s[k] < s[s.len() - 1]);
                    }
                }
            }
            if all_digits(s) {
                assert forall|i: int| 0 <= i < r.len() implies is_digit(r[i]) by {
                    if i < r.len() - 1 {
                        assert(removed(head, d)[i] == r[i]);
                        assert(removed(head, d).contains(r[i]));
                        assert(head.contains(r[i]));
                    }
                }
            }
        }
    }
}

/// Keeping only the digits of `t` keeps the list sorted and intersects the memberships.
pub proof fn lemma_kept_props(s: Seq<u8>, t: Seq<u8>)
    ensures
        strictly_sorted(s) ==> strictly_sorted(kept(s, t)),
        forall|x: u8| kept(s, t).contains(x) <==> (s.contains(x) && t.contains(x)),
        kept(s, t).len() <= s.len(),
        all_digits(s) ==> all_digits(kept(s, t)),
    decreases s.len(),
{
    if s.len() == 0 {
        assert(forall|x: u8| !s.contains(x));
        assert(forall|x: u8| !kept(s, t).contains(x));
    } else {
        let head = s.drop_last();
        let last = s.last();
        lemma_kept_props(head, t);
        lemma_unlast_contains(s);
        assert(strictly_sorted(s) ==> strictly_sorted(head));
        assert(all_digits(s) ==> all_digits(head));
        if !t.contains(last) {
            assert(kept(s, t) == kept(head, t));
            assert forall|x: u8| kept(s, t).contains(x) <==> (s.contains(x) && t.contains(x)) by {
                assert(kept(head, t).contains(x) <==> (head.contains(x) && t.contains(x)));
            }
        } else {
            let r = kept(head, t).push(last);
            assert(kept(s, t) == r);
            lemma_push_contains(kept(head, t), last);
            assert forall|x: u8| kept(s, t).contains(x) <==> (s.contains(x) && t.contains(x)) by {
                assert(r.contains(x) <==> (kept(head, t).contains(x) || x == last));
            }
            if strictly_sorted(s) {
                assert forall|i: int, j: int| 0 <= i < j < r.len() implies r[i] < r[j] by {
                    if j < r.len() - 1 {
                        assert(kept(head, t)[i] < kept(head, t)[j]);
                    } else {
                        assert(kept(head, t)[i] == r[i]);
                        assert(kept(head, t).contains(r[i]));
                        assert(head.contains(r[i]));
                        let k = choose|k: int| 0 <= k < head.len() && head[k] == r[i];
                        assert(s[k] < s[s.len() - 1]);
                    }
                }
            }
            if all_digits(s) {
                assert forall|i: int| 0 <= i < r.len() implies is_digit(r[i]) by {
                    if i < r.len() - 1 {
                        assert(kept(head, t)[i] == r[i]);
                        assert(kept(head, t).contains(r[i]));
                        assert(head.contains(r[i]));
                    }
                }
            }
        }
    }
}

/// Removing an absent digit changes nothing.
pub proof fn lemma_removed_noop(s: Seq<u8>, d: u8)
    requires
        !s.contains(d),
    ensures
        removed(s, d) == s,
    decreases s.len(),
{
    if s.len() > 0 {
        let head = s.drop_last();
        assert(s[s.len() - 1] == s.last());
        assert(s.last() != d);
        assert forall|x: u8| head.contains(x) implies s.contains(x) by {
            let i = choose|i: int| 0 <= i < head.len() && head[i] == x;
            assert(s[i] == x);
        }
        lemma_removed_noop(head, d);
        assert(removed(s, d) == head.push(s.last()));
        assert(head.push(s.last()) =~= s);
    } else {
        assert(removed(s, d) =~= s);
    }
}

/// A strictly ascending list of digits has at most nine entries.
pub proof fn lemma_wf_digits_len(s: Seq<u8>)
    requires
        wf_digits(s),
    ensures
        s.len() <= 9,
{
    if s.len() > 9 {
        assert forall|i: int| 0 <= i < s.len() implies #[trigger] s[i] >= s[0] + i by {
            lemma_sorted_gap(s, i);
        }
        assert(s[9] >= s[0] + 9);
    }
}

proof fn lemma_sorted_gap(s: Seq<u8>, i: int)
    requires
        strictly_sorted(s),
        0 <= i < s.len(),
    ensures
        s[i] >= s[0] + i,
    decreases i,
{
    if i > 0 {
        lemma_sorted_gap(s, i - 1);
    }
}

/// The sum of a sequence of digits lies between its length and nine times it.
pub proof fn lemma_sum_bounds(s: Seq<u8>)
    requires
        all_digits(s),
    ensures
        s.len() <= sum_of(s) <= 9 * s.len(),
    decreases s.len(),
{
    if s.len() > 0 {
        let head = s.drop_last();
        assert(all_digits(head));
        lemma_sum_bounds(head);
        assert(is_digit(s[s.len() - 1]));
    }
}

/// Whether `d` occurs in the list.
pub fn contains_digit(v: &Vec<u8>, d: u8) -> (r: bool)
    ensures
        r == v@.contains(d),
{
    let mut i: usize = 0;
    while i < v.len()
        invariant
            0 <= i <= v@.len(),
            forall|k: int| 0 <= k < i ==> v@[k] != d,
        decreases v@.len() - i,
    {
        if v[i] == d {
            return true;
        }
        i += 1;
    }
    false
}

/// A copy of `v` with every occurrence of `d` removed.
pub fn remove_digit(v: &Vec<u8>, d: u8) -> (r: Vec<u8>)
    ensures
        r@ == removed(v@, d),
{
    let mut out: Vec<u8> = Vec::new();
    let mut i: usize = 0;
    while i < v.len()
        invariant
            0 <= i <= v@.len(),
            out@ == removed(v@.subrange(0, i as int), d),
        decreases v@.len() - i,
    {
        proof {
            assert(v@.subrange(0, i + 1).drop_last() =~= v@.subrange(0, i as int));
            assert(v@.subrange(0, i + 1).last() == v@[i as int]);
        }
        if v[i] != d {
            out.push(v[i]);
        }
        i += 1;
    }
    proof {
        assert(v@.subrange(0, v@.len() as int) =~= v@);
    }
    out
}

/// A copy of `v` keeping only the digits that occur in `allowed`.
pub fn keep_digits(v: &Vec<u8>, allowed: &Vec<u8>) -> (r: Vec<u8>)
    ensures
        r@ == kept(v@, allowed@),
{
    let mut out: Vec<u8> = Vec::new();
    let mut i: usize = 0;
    while i < v.len()
        invariant
            0 <= i <= v@.len(),
            out@ == kept(v@.subrange(0, i as int), allowed@),
        decreases v@.len() - i,
    {
        proof {
            assert(v@.subrange(0, i + 1).drop_last() =~= v@.subrange(0, i as int));
            assert(v@.subrange(0, i + 1).last() == v@[i as int]);
        }
        if contains_digit(allowed, v[i]) {
            out.push(v[i]);
        }
        i += 1;
    }
    proof {
        assert(v@.subrange(0, v@.len() as int) =~= v@);
    }
    out
}

/// The digits `lo..=hi`, ascending.
pub fn range_digits(lo: u8, hi: u8) -> (r: Vec<u8>)
    requires
        1 <= lo,
        hi <= 9,
    ensures
        wf_digits(r@),
        forall|d: u8| r@.contains(d) <==> lo <= d <= hi,
        r@.len() == if lo <= hi {
            hi - lo + 1
        } else {
            0
        },
        forall|k: int| 0 <= k < r@.len() ==> r@[k] == lo + k,
{
    let mut out: Vec<u8> = Vec::new();
    if lo > hi {
        proof {
            assert(forall|x: u8| !out@.contains(x));
        }
        return out;
    }
    let mut d: u8 = lo;
    while d <= hi
        invariant
            1 <= lo <= hi,
            hi <= 9,
            lo <= d <= hi + 1,
            out@.len() == d - lo,
            forall|k: int| 0 <= k < out@.len() ==> out@[k] == lo + k,
        decreases 10 - d,
    {
        out.push(d);
        d += 1;
    }
    proof {
        assert forall|x: u8| out@.contains(x) implies lo <= x <= hi by {
            let i = choose|i: int| 0 <= i < out@.len() && out@[i] == x;
        }
        assert forall|x: u8| lo <= x <= hi implies out@.contains(x) by {
            assert(out@[x - lo] == x);
        }
    }
    out
}

/// All nine digits, ascending: the candidates of a fresh, unconstrained cell.
pub fn all_possibilities() -> (r: Vec<u8>)
    ensures
        wf_digits(r@),
        forall|d: u8| r@.contains(d) <==> is_digit(d),
        r@.len() == 9,
        forall|k: int| 0 <= k < 9 ==> r@[k] == 1 + k,
{
    range_digits(1, 9)
}

/// A fresh copy of the list.
pub fn copy_digits(v: &Vec<u8>) -> (r: Vec<u8>)
    ensures
        r@ == v@,
{
    let mut out: Vec<u8> = Vec::new();
    let mut i: usize = 0;
    while i < v.len()
        invariant
            0 <= i <= v@.len(),
            out@ == v@.subrange(0, i as int),
        decreases v@.len() - i,
    {
        out.push(v[i]);
        i += 1;
        proof {
            assert(out@ =~= v@.subrange(0, i as int));
        }
    }
    proof {
        assert(v@.subrange(0, v@.len() as int) =~= v@);
    }
    out
}

/// The sum of the digits in `v`.
pub fn sum_digits(v: &Vec<u8>) -> (s: u32)
    requires
        v@.len() <= 1000,
    ensures
        s == sum_of(v@),
{
    let mut s: u32 = 0;
    let mut i: usize = 0;
    while i < v.len()
        invariant
            0 <= i <= v@.len(),
            v@.len() <= 1000,
            s == sum_of(v@.subrange(0, i as int)),
            s <= 255 * i,
        decreases v@.len() - i,
    {
        proof {
            assert(v@.subrange(0, i + 1).drop_last() =~= v@.subrange(0, i as int));
            assert(v@.subrange(0, i + 1).last() == v@[i as int]);
        }
        s += v[i] as u32;
        i += 1;
    }
    proof {
        assert(v@.subrange(0, v@.len() as int) =~= v@);
    }
    s
}

} // verus!
