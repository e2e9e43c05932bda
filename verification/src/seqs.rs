//! Searching in lists of points, and dropping marked entries from a list.

use vstd::prelude::*;
use crate::point::Point;

verus! {

/// `i` is the first index at which `s` holds `p`.
pub open spec fn is_first_index(s: Seq<Point>, p: Point, i: int) -> bool {
    &&& 0 <= i < s.len()
    &&& s[i] == p
    &&& forall|j: int| 0 <= j < i ==> s[j] != p
}

/// The first index at which a sequence holds a point is
/// `Seq::index_of_first`.
pub proof fn lemma_first_index(s: Seq<Point>, p: Point, i: int)
    requires
        is_first_index(s, p, i),
    ensures
        s.index_of_first(p) == Some(i),
        s.contains(p),
{
    s.index_of_first_ensures(p);
    assert(s.contains(p));
}

/// A sequence that holds `p` nowhere has no first index of it.
pub proof fn lemma_no_index(s: Seq<Point>, p: Point)
    requires
        forall|j: int| 0 <= j < s.len() ==> s[j] != p,
    ensures
        s.index_of_first(p) is None,
        !s.contains(p),
{
    s.index_of_first_ensures(p);
}

/// What `Seq::index_of_first` says of its result.
pub proof fn lemma_index_of_first(s: Seq<Point>, p: Point)
    ensures
        match s.index_of_first(p) {
            Some(i) => is_first_index(s, p, i),
            None => !s.contains(p),
        },
        s.index_of_first(p) is Some <==> s.contains(p),
{
    s.index_of_first_ensures(p);
}

/// The first index at which `v` holds `p`.
pub fn position(v: &Vec<Point>, p: &Point) -> (r: Option<usize>)
    ensures
        match r {
            Some(i) => v@.index_of_first(*p) == Some(i as int) && i < v.len() && v[i as int] == *p,
            None => v@.index_of_first(*p) is None,
        },
        r is Some <==> v@.contains(*p),
{
    let mut i: usize = 0;
    while i < v.len()
        invariant
            i <= v.len(),
            forall|j: int| 0 <= j < i ==> v@[j] != *p,
        decreases v.len() - i,
    {
        if v[i] == *p {
            proof {
                lemma_first_index(v@, *p, i as int);
            }
            return Some(i);
        }
        i += 1;
    }
    proof {
        lemma_no_index(v@, *p);
    }
    None
}

/// Whether `v` holds `p`.
pub fn holds(v: &Vec<Point>, p: &Point) -> (b: bool)
    ensures
        b == v@.contains(*p),
{
    position(v, p).is_some()
}

/// The entries of `s` below index `upto` whose index is not in `marked`, in
/// their order.
pub open spec fn retain_unmarked<T>(s: Seq<T>, marked: Set<int>, upto: int) -> Seq<T>
    decreases upto,
{
    if upto <= 0 {
        Seq::empty()
    } else if marked.contains(upto - 1) {
        retain_unmarked(s, marked, upto - 1)
    } else {
        retain_unmarked(s, marked, upto - 1).push(s[upto - 1])
    }
}

/// How many indices below `upto` are in `marked`.
pub open spec fn count_marked(marked: Set<int>, upto: int) -> int
    decreases upto,
{
    if upto <= 0 {
        0
    } else if marked.contains(upto - 1) {
        count_marked(marked, upto - 1) + 1
    } else {
        count_marked(marked, upto - 1)
    }
}

/// Dropping the marked entries shortens a sequence by the number of marks,
/// and every entry that is left stood unmarked in the sequence.
pub proof fn lemma_retain_unmarked<T>(s: Seq<T>, marked: Set<int>, upto: int)
    requires
        0 <= upto <= s.len(),
    ensures
        retain_unmarked(s, marked, upto).len() == upto - count_marked(marked, upto),
        0 <= count_marked(marked, upto) <= upto,
        forall|k: int|
            0 <= k < retain_unmarked(s, marked, upto).len() ==> exists|i: int|
                0 <= i < upto && !marked.contains(i) && s[i] == #[trigger] retain_unmarked(
                    s,
                    marked,
                    upto,
                )[k],
        forall|i: int|
            0 <= i < upto && !marked.contains(i) ==> retain_unmarked(s, marked, upto).contains(
                #[trigger] s[i],
            ),
    decreases upto,
{
    if upto > 0 {
        lemma_retain_unmarked(s, marked, upto - 1);
        let prev = retain_unmarked(s, marked, upto - 1);
        let cur = retain_unmarked(s, marked, upto);
        assert forall|k: int| 0 <= k < cur.len() implies exists|i: int|
            0 <= i < upto && !marked.contains(i) && s[i] == #[trigger] cur[k] by {
            if k < prev.len() {
                let i = choose|i: int| 0 <= i < upto - 1 && !marked.contains(i) && s[i] == prev[k];
                assert(cur[k] == prev[k]);
                assert(0 <= i < upto && !marked.contains(i) && s[i] == cur[k]);
            } else {
                assert(!marked.contains(upto - 1));
                assert(cur[k] == s[upto - 1]);
            }
        }
        assert forall|i: int| 0 <= i < upto && !marked.contains(i) implies cur.contains(
            #[trigger] s[i],
        ) by {
            if i < upto - 1 {
                assert(prev.contains(s[i]));
                let k = choose|k: int| 0 <= k < prev.len() && prev[k] == s[i];
                assert(cur[k] == s[i]);
            } else {
                assert(cur[cur.len() - 1] == s[i]);
            }
        }
    }
}

} // verus!
