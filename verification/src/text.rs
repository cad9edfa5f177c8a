//! Character-level helpers for path-like strings.

use vstd::prelude::*;

verus! {

/// Index of the first `sep` in `s`, or `s.len()` where there is none.
pub open spec fn first_sep(s: Seq<char>, sep: char) -> nat
    decreases s.len(),
{
    if s.len() == 0 || s[0] == sep {
        0
    } else {
        1 + first_sep(s.skip(1), sep)
    }
}

/// The pieces of `s` between occurrences of `sep`. There is always at least
/// one piece; an empty `s` has the single empty piece.
pub open spec fn split(s: Seq<char>, sep: char) -> Seq<Seq<char>>
    decreases s.len(),
{
    let i = first_sep(s, sep);
    if i >= s.len() {
        seq![s]
    } else {
        seq![s.take(i as int)].add(split(s.skip(i as int + 1), sep))
    }
}

/// The pieces of `s` that a list of index pairs cuts out.
pub open spec fn pieces(s: Seq<char>, bounds: Seq<(usize, usize)>) -> Seq<Seq<char>> {
    bounds.map_values(|b: (usize, usize)| s.subrange(b.0 as int, b.1 as int))
}

/// Whether every pair of `bounds` lies inside a sequence of length `len`.
pub open spec fn bounds_within(bounds: Seq<(usize, usize)>, len: nat) -> bool {
    forall|j: int| 0 <= j < bounds.len() ==> (#[trigger] bounds[j]).0 <= bounds[j].1 <= len
}

/// `first_sep` is `k` where the first `k` items are not `sep` and the item
/// at `k`, if there is one, is.
pub proof fn lemma_first_sep(s: Seq<char>, sep: char, k: int)
    requires
        0 <= k <= s.len(),
        forall|j: int| 0 <= j < k ==> s[j] != sep,
        k == s.len() || s[k] == sep,
    ensures
        first_sep(s, sep) == k,
    decreases k,
{
    if k > 0 {
        let t = s.skip(1);
        assert forall|j: int| 0 <= j < k - 1 implies t[j] != sep by {
            assert(t[j] == s[j + 1]);
        }
        lemma_first_sep(t, sep, k - 1);
    }
}

/// Collects the characters of `s` in order.
pub fn chars_of(s: &str) -> (out: Vec<char>)
    ensures
        out@ == s@,
{
    let mut out: Vec<char> = Vec::new();
    let chars = s.chars();
    for c in it: chars
        invariant
            it.seq() == s@,
            out@ == s@.take(it.index() as int),
    {
        out.push(c);
        assert(s@.take(it.index() + 1) == s@.take(it.index() as int).push(c));
    }
    assert(s@.take(s@.len() as int) == s@);
    out
}

/// Cuts `s` at every `sep` and returns, for each piece, where it starts and
/// where it ends.
pub fn split_bounds(s: &Vec<char>, sep: char) -> (bounds: Vec<(usize, usize)>)
    ensures
        bounds_within(bounds@, s@.len()),
        pieces(s@, bounds@) == split(s@, sep),
{
    let n: usize = s.len();
    let mut bounds: Vec<(usize, usize)> = Vec::new();
    let mut start: usize = 0;
    let mut i: usize = 0;
    assert(s@.skip(0) == s@);
    assert(pieces(s@, bounds@) + split(s@.skip(0), sep) == split(s@, sep));
    while i < n
        invariant
            n == s@.len(),
            start <= i <= n,
            bounds_within(bounds@, s@.len()),
            forall|j: int| start <= j < i ==> s@[j] != sep,
            pieces(s@, bounds@) + split(s@.skip(start as int), sep) == split(s@, sep),
        decreases n - i,
    {
        if s[i] == sep {
            proof {
                let rest = s@.skip(start as int);
                assert forall|j: int| 0 <= j < i - start implies rest[j] != sep by {
                    assert(rest[j] == s@[start + j]);
                }
                lemma_first_sep(rest, sep, i - start);
                assert(rest.take(i - start) == s@.subrange(start as int, i as int));
                assert(rest.skip(i - start + 1) == s@.skip(i + 1));
                assert(pieces(s@, bounds@.push((start, i))) == pieces(s@, bounds@).push(
                    s@.subrange(start as int, i as int),
                ));
                assert(pieces(s@, bounds@).push(s@.subrange(start as int, i as int)) + split(
                    s@.skip(i + 1),
                    sep,
                ) == pieces(s@, bounds@) + split(rest, sep));
            }
            bounds.push((start, i));
            start = i + 1;
        }
        i = i + 1;
    }
    proof {
        let rest = s@.skip(start as int);
        assert forall|j: int| 0 <= j < n - start implies rest[j] != sep by {
            assert(rest[j] == s@[start + j]);
        }
        lemma_first_sep(rest, sep, n - start);
        assert(rest == s@.subrange(start as int, n as int));
        assert(pieces(s@, bounds@.push((start, n))) == pieces(s@, bounds@).push(
            s@.subrange(start as int, n as int),
        ));
        assert(pieces(s@, bounds@).push(rest) == pieces(s@, bounds@) + split(rest, sep));
    }
    bounds.push((start, n));
    bounds
}

} // verus!
