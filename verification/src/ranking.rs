//! The ranking order on store entries: weight descending, then non-hidden
//! before hidden, then lexicographic on the path.  Distinct keys are always
//! strictly ordered, so the ranked sequence of a store is unique.

use vstd::prelude::*;

use crate::document::entry_views;
use crate::text::has_hidden_marker;
use crate::text::is_hidden;
use crate::text::lemma_text_lt_irrefl;
use crate::text::lemma_text_lt_total;
use crate::text::lemma_text_lt_trans;
use crate::text::str_lt;
use crate::text::text_lt;

verus! {

/// No two entries carry the same key.
pub open spec fn distinct_keys(es: Seq<(Seq<char>, u32)>) -> bool {
    forall|i: int, j: int| 0 <= i < j < es.len() ==> (#[trigger] es[i]).0 != (#[trigger] es[j]).0
}

/// The strict ranking order: higher weight first; among equal weights,
/// non-hidden paths before hidden ones; among those, lexicographic order.
pub open spec fn rank_before(a: (Seq<char>, u32), b: (Seq<char>, u32)) -> bool {
    ||| a.1 > b.1
    ||| (a.1 == b.1 && !is_hidden(a.0) && is_hidden(b.0))
    ||| (a.1 == b.1 && is_hidden(a.0) == is_hidden(b.0) && text_lt(a.0, b.0))
}

/// The reflexive ranking order.
pub open spec fn rank_le(a: (Seq<char>, u32), b: (Seq<char>, u32)) -> bool {
    rank_before(a, b) || a == b
}

/// Any two entries are ranked one way or the other.
pub proof fn lemma_rank_total(a: (Seq<char>, u32), b: (Seq<char>, u32))
    ensures
        rank_before(a, b) || rank_before(b, a) || a == b,
{
    if a.1 == b.1 && is_hidden(a.0) == is_hidden(b.0) {
        lemma_text_lt_total(a.0, b.0);
    }
}

/// An entry is never ranked before itself.
pub proof fn lemma_rank_irrefl(a: (Seq<char>, u32))
    ensures
        !rank_before(a, a),
{
    lemma_text_lt_irrefl(a.0);
}

/// The ranking order is transitive.
pub proof fn lemma_rank_le_trans(a: (Seq<char>, u32), b: (Seq<char>, u32), c: (Seq<char>, u32))
    requires
        rank_le(a, b),
        rank_le(b, c),
    ensures
        rank_le(a, c),
{
    if a == b || b == c {
    } else {
        if a.1 == b.1 && b.1 == c.1 {
            if is_hidden(a.0) == is_hidden(b.0) && is_hidden(b.0) == is_hidden(c.0) {
                lemma_text_lt_trans(a.0, b.0, c.0);
            }
        }
    }
}

/// Decides the strict ranking order on two owned entries.
fn entry_before(a: &(String, u32), b: &(String, u32)) -> (r: bool)
    ensures
        r == rank_before((a.0@, a.1), (b.0@, b.1)),
{
    if a.1 > b.1 {
        true
    } else if a.1 < b.1 {
        false
    } else {
        let ah = has_hidden_marker(a.0.as_str());
        let bh = has_hidden_marker(b.0.as_str());
        if !ah && bh {
            true
        } else if ah && !bh {
            false
        } else {
            str_lt(a.0.as_str(), b.0.as_str())
        }
    }
}

/// Inserting an element adds exactly that element to the contents.
proof fn lemma_insert_contains<T>(s: Seq<T>, j: int, e: T, x: T)
    requires
        0 <= j <= s.len(),
    ensures
        s.insert(j, e).contains(x) <==> s.contains(x) || x == e,
{
    s.insert_ensures(j, e);
    if s.insert(j, e).contains(x) {
        let m = choose|m: int| 0 <= m < s.insert(j, e).len() && s.insert(j, e)[m] == x;
        if m < j {
            assert(s[m] == x);
        } else if m > j {
            assert(s.insert(j, e)[(m - 1) + 1] == s[m - 1]);
            assert(s[m - 1] == x);
        }
        assert(s.contains(x) || x == e);
    }
    if x == e {
        assert(s.insert(j, e)[j] == x);
        assert(s.insert(j, e).contains(x));
    } else if s.contains(x) {
        let m = choose|m: int| 0 <= m < s.len() && s[m] == x;
        if m < j {
            assert(s.insert(j, e)[m] == x);
        } else {
            assert(s.insert(j, e)[m + 1] == x);
        }
        assert(s.insert(j, e).contains(x));
    }
}

/// Sorts the entries by the ranking order.  Keys must be pairwise distinct,
/// and stay so; the result holds exactly the entries of the input.
pub fn sort_entries(entries: &Vec<(String, u32)>) -> (r: Vec<(String, u32)>)
    requires
        distinct_keys(entry_views(entries@)),
    ensures
        r@.len() == entries@.len(),
        distinct_keys(entry_views(r@)),
        forall|e: (Seq<char>, u32)|
            entry_views(r@).contains(e) <==> entry_views(entries@).contains(e),
        forall|i: int, j: int|
            0 <= i < j < r@.len() ==> rank_le(entry_views(r@)[i], entry_views(r@)[j]),
{
    let ghost all = entry_views(entries@);
    let mut out: Vec<(String, u32)> = Vec::new();
    let n = entries.len();
    let mut i: usize = 0;
    while i < n
        invariant
            i <= n,
            n == entries@.len(),
            out@.len() == i,
            all == entry_views(entries@),
            distinct_keys(all),
            forall|e: (Seq<char>, u32)|
                entry_views(out@).contains(e) <==> all.subrange(0, i as int).contains(e),
            distinct_keys(entry_views(out@)),
            forall|x: int, y: int|
                0 <= x < y < out@.len() ==> rank_le(entry_views(out@)[x], entry_views(out@)[y]),
        decreases n - i,
    {
        let ghost prev = entry_views(out@);
        let ghost old_vec = out@;
        let pair: &(String, u32) = &entries[i];
        let e = (pair.0.clone(), pair.1);
        let ghost ev = (e.0@, e.1);
        proof {
            assert(ev == all[i as int]);
            assert(all.subrange(0, i as int + 1) =~= all.subrange(0, i as int).push(ev));
            // The key of the new entry is not among the keys already placed.
            assert forall|m: int| 0 <= m < prev.len() implies (#[trigger] prev[m]).0 != ev.0 by {
                assert(prev.contains(prev[m]));
                let q = choose|q: int| 0 <= q < i && all.subrange(0, i as int)[q] == prev[m];
                assert(all[q] == prev[m]);
                assert(all[q].0 != all[i as int].0);
            }
        }
        let mut j: usize = 0;
        loop
            invariant
                j <= out@.len(),
                out@.len() == i,
                prev == entry_views(out@),
                ev == (e.0@, e.1),
                forall|m: int| 0 <= m < j ==> rank_before(#[trigger] prev[m], ev),
            ensures
                j <= out@.len(),
                forall|m: int| 0 <= m < j ==> rank_before(#[trigger] prev[m], ev),
                j < out@.len() ==> !rank_before(prev[j as int], ev),
            decreases out@.len() - j,
        {
            if j == out.len() {
                break ;
            }
            let here: &(String, u32) = &out[j];
            let goes_before = entry_before(here, &e);
            proof {
                assert(*here == out@[j as int]);
                assert(goes_before == rank_before(prev[j as int], ev));
            }
            if !goes_before {
                break ;
            }
            j = j + 1;
        }
        proof {
            if j < out@.len() {
                lemma_rank_total(prev[j as int], ev);
                assert(rank_le(ev, prev[j as int]));
            }
        }
        out.insert(j, e);
        proof {
            old_vec.insert_ensures(j as int, e);
            prev.insert_ensures(j as int, ev);
            let cur = entry_views(out@);
            assert forall|m: int| 0 <= m < cur.len() implies #[trigger] cur[m] == prev.insert(
                j as int,
                ev,
            )[m] by {
                if m < j {
                    assert(out@[m] == old_vec[m]);
                } else if m == j {
                    assert(out@[m] == e);
                } else {
                    assert(out@[(m - 1) + 1] == old_vec[m - 1]);
                    assert(prev.insert(j as int, ev)[(m - 1) + 1] == prev[m - 1]);
                }
            }
            assert(cur =~= prev.insert(j as int, ev));
            // Contents: exactly the first i + 1 input entries.
            assert forall|x: (Seq<char>, u32)|
                cur.contains(x) <==> all.subrange(0, i as int + 1).contains(x) by {
                lemma_insert_contains(prev, j as int, ev, x);
                lemma_insert_contains(all.subrange(0, i as int), i as int, ev, x);
                assert(all.subrange(0, i as int).insert(i as int, ev) =~= all.subrange(
                    0,
                    i as int + 1,
                ));
                assert(cur.contains(x) <==> prev.contains(x) || x == ev);
                assert(all.subrange(0, i as int).insert(i as int, ev).contains(x)
                    <==> all.subrange(0, i as int).contains(x) || x == ev);
                assert(all.subrange(0, i as int + 1).contains(x) <==> all.subrange(
                    0,
                    i as int,
                ).contains(x) || x == ev);
            }
            // Keys stay pairwise distinct.
            assert forall|x: int, y: int| 0 <= x < y < cur.len() implies (#[trigger] cur[x]).0 != (
            #[trigger] cur[y]).0 by {
                if y < j {
                    assert(cur[x] == prev[x] && cur[y] == prev[y]);
                } else if y == j {
                    assert(cur[x] == prev[x] && cur[y] == ev);
                } else if x < j {
                    assert(cur[x] == prev[x] && cur[y] == prev[y - 1]);
                } else if x == j {
                    assert(cur[x] == ev && cur[y] == prev[y - 1]);
                } else {
                    assert(cur[x] == prev[x - 1] && cur[y] == prev[y - 1]);
                }
            }
            // Order: the new entry stands between its neighbours.
            assert forall|x: int, y: int| 0 <= x < y < cur.len() implies rank_le(
                #[trigger] cur[x],
                #[trigger] cur[y],
            ) by {
                if x < j && y == j {
                    assert(cur[x] == prev[x]);
                    assert(rank_before(prev[x], ev));
                } else if x == j {
                    assert(cur[y] == prev[y - 1]);
                    assert(rank_le(ev, prev[j as int]));
                    if y - 1 > j {
                        assert(rank_le(prev[j as int], prev[y - 1]));
                    }
                    lemma_rank_le_trans(ev, prev[j as int], prev[y - 1]);
                } else if x < j && y > j {
                    assert(cur[x] == prev[x] && cur[y] == prev[y - 1]);
                    if x < y - 1 {
                        assert(rank_le(prev[x], prev[y - 1]));
                    }
                } else if x > j {
                    assert(cur[x] == prev[x - 1] && cur[y] == prev[y - 1]);
                } else {
                    assert(cur[x] == prev[x] && cur[y] == prev[y]);
                }
            }
        }
        i = i + 1;
    }
    proof {
        assert(all.subrange(0, n as int) =~= all);
    }
    out
}

} // verus!
