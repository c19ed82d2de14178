//! The store: a mapping from paths to weights, owned by one invocation.
//! Its view is the abstract `Map` from path characters to weights; every
//! mutation states exactly how the new map relates to the old one.  The store
//! is loaded from and rendered to the persisted document format.

use vstd::prelude::*;

use crate::document::decode_document;
use crate::document::document_of;
use crate::document::encode_document;
use crate::document::entries_line_safe;
use crate::document::entry_views;
use crate::document::lemma_document_round_trip;
use crate::document::parse_document;
use crate::errors::RenhancdError;
use crate::ranking::distinct_keys;
use crate::ranking::lemma_rank_irrefl;
use crate::ranking::rank_before;
use crate::ranking::rank_le;
use crate::ranking::sort_entries;
use crate::text::str_equal;

verus! {

/// The mapping encoded by an entry sequence; later entries would win, but a
/// well-formed store never holds two entries with one key.
pub open spec fn map_of(es: Seq<(Seq<char>, u32)>) -> Map<Seq<char>, u32>
    decreases es.len(),
{
    if es.len() == 0 {
        Map::empty()
    } else {
        map_of(es.drop_last()).insert(es.last().0, es.last().1)
    }
}

/// A key is in the mapping exactly when some entry carries it.
pub proof fn lemma_map_of_contains(es: Seq<(Seq<char>, u32)>, k: Seq<char>)
    ensures
        map_of(es).contains_key(k) <==> exists|i: int|
            0 <= i < es.len() && (#[trigger] es[i]).0 == k,
    decreases es.len(),
{
    if es.len() > 0 {
        lemma_map_of_contains(es.drop_last(), k);
        if map_of(es).contains_key(k) {
            if es.last().0 == k {
                assert((es[es.len() - 1]).0 == k);
            } else {
                let i = choose|i: int|
                    0 <= i < es.drop_last().len() && (#[trigger] es.drop_last()[i]).0 == k;
                assert((es[i]).0 == k);
            }
        }
        if exists|i: int| 0 <= i < es.len() && (#[trigger] es[i]).0 == k {
            let i = choose|i: int| 0 <= i < es.len() && (#[trigger] es[i]).0 == k;
            if i < es.len() - 1 {
                assert((es.drop_last()[i]).0 == k);
            }
            assert(map_of(es).contains_key(k));
        }
    }
}

/// In a well-formed sequence, each entry's key maps to that entry's weight.
pub proof fn lemma_map_of_index(es: Seq<(Seq<char>, u32)>, i: int)
    requires
        distinct_keys(es),
        0 <= i < es.len(),
    ensures
        map_of(es).contains_key(es[i].0),
        map_of(es)[es[i].0] == es[i].1,
    decreases es.len(),
{
    if i == es.len() - 1 {
        assert(es.last() == es[i]);
    } else {
        assert(distinct_keys(es.drop_last())) by {
            assert(forall|x: int|
                0 <= x < es.drop_last().len() ==> #[trigger] es.drop_last()[x] == es[x]);
        }
        assert(es.drop_last()[i] == es[i]);
        lemma_map_of_index(es.drop_last(), i);
        assert(es.last().0 != es[i].0);
    }
}

/// Appending an entry inserts its key.
pub proof fn lemma_map_of_push(es: Seq<(Seq<char>, u32)>, k: Seq<char>, w: u32)
    ensures
        map_of(es.push((k, w))) == map_of(es).insert(k, w),
{
    assert(es.push((k, w)).drop_last() =~= es);
    assert(es.push((k, w)).last() == (k, w));
}

/// Removing the entry at an index removes its key.
pub proof fn lemma_map_of_remove(es: Seq<(Seq<char>, u32)>, i: int)
    requires
        distinct_keys(es),
        0 <= i < es.len(),
    ensures
        map_of(es.remove(i)) == map_of(es).remove(es[i].0),
    decreases es.len(),
{
    es.remove_ensures(i);
    assert(distinct_keys(es.drop_last())) by {
        assert(forall|x: int|
            0 <= x < es.drop_last().len() ==> #[trigger] es.drop_last()[x] == es[x]);
    }
    if i == es.len() - 1 {
        assert(es.remove(i) =~= es.drop_last());
        lemma_map_of_contains(es.drop_last(), es[i].0);
        assert(!map_of(es.drop_last()).contains_key(es[i].0)) by {
            if exists|m: int| 0 <= m < es.drop_last().len() && (#[trigger] es.drop_last()[m]).0
                == es[i].0 {
                let m = choose|m: int|
                    0 <= m < es.drop_last().len() && (#[trigger] es.drop_last()[m]).0 == es[i].0;
                assert((es[m]).0 == es[i].0);
                assert(false);
            }
        }
        assert(map_of(es).remove(es[i].0) =~= map_of(es.drop_last()));
    } else {
        assert(es.remove(i).len() == es.len() - 1);
        assert(es.remove(i).last() == es.last()) by {
            assert(es.remove(i)[es.len() - 2] == es[es.len() - 1]);
        }
        assert(es.remove(i).drop_last() =~= es.drop_last().remove(i)) by {
            es.drop_last().remove_ensures(i);
            assert(forall|x: int|
                0 <= x < es.remove(i).drop_last().len() ==> #[trigger] es.remove(i).drop_last()[x]
                    == es.remove(i)[x]);
        }
        assert(es.drop_last()[i] == es[i]);
        lemma_map_of_remove(es.drop_last(), i);
        assert(es.last().0 != es[i].0);
        assert(map_of(es.remove(i)) == map_of(es.drop_last().remove(i)).insert(
            es.last().0,
            es.last().1,
        ));
        assert(map_of(es.remove(i)) =~= map_of(es).remove(es[i].0));
    }
}

/// The store: a path-to-weight mapping bound to the location of its
/// persisted document.
pub struct Database {
    filename: String,
    data: Vec<(String, u32)>,
}

impl View for Database {
    type V = Map<Seq<char>, u32>;

    open spec fn view(&self) -> Map<Seq<char>, u32> {
        map_of(self.entries())
    }
}

impl Database {
    /// The entries in their storage order.
    pub closed spec fn entries(&self) -> Seq<(Seq<char>, u32)> {
        entry_views(self.data@)
    }

    /// A store is well-formed when no path occurs twice.
    pub open spec fn wf(&self) -> bool {
        distinct_keys(self.entries())
    }

    /// The location of the persisted document this store is bound to.
    pub closed spec fn location(&self) -> Seq<char> {
        self.filename@
    }

    /// The index of the entry carrying `path`, if any.
    fn find_index(&self, path: &str) -> (r: Option<usize>)
        ensures
            match r {
                Some(i) => i < self.entries().len() && self.entries()[i as int].0 == path@,
                None => forall|i: int|
                    0 <= i < self.entries().len() ==> (#[trigger] self.entries()[i]).0 != path@,
            },
    {
        let n = self.data.len();
        let mut i: usize = 0;
        while i < n
            invariant
                i <= n,
                n == self.data@.len(),
                forall|m: int| 0 <= m < i ==> (#[trigger] self.entries()[m]).0 != path@,
            decreases n - i,
        {
            let pair: &(String, u32) = &self.data[i];
            if str_equal(pair.0.as_str(), path) {
                proof {
                    assert(self.entries()[i as int].0 == path@);
                }
                return Some(i);
            }
            proof {
                assert(self.entries()[i as int].0 == pair.0@);
            }
            i = i + 1;
        }
        None
    }

    /// Loads a store bound to `filename`.  With no document (`content` is
    /// `None`) the store starts empty; a document is accepted exactly when it
    /// is the rendering of entries with pairwise distinct paths.
    pub fn new(filename: &str, content: Option<&str>) -> (r: Result<Database, RenhancdError>)
        ensures
            match r {
                Ok(db) => {
                    &&& db.wf()
                    &&& db.location() == filename@
                    &&& match content {
                        None => db@ == Map::<Seq<char>, u32>::empty() && db.entries()
                            == Seq::<(Seq<char>, u32)>::empty(),
                        Some(c) => parse_document(c@) == Some(db.entries()),
                    }
                },
                Err(e) => {
                    &&& e == RenhancdError::LoadError
                    &&& match content {
                        None => false,
                        Some(c) => match parse_document(c@) {
                            None => true,
                            Some(es) => !distinct_keys(es),
                        },
                    }
                },
            },
    {
        match content {
            None => {
                let db = Database { filename: filename.to_owned(), data: Vec::new() };
                proof {
                    assert(db.entries() =~= Seq::<(Seq<char>, u32)>::empty());
                    assert(db@ =~= Map::<Seq<char>, u32>::empty());
                }
                Ok(db)
            },
            Some(text) => match decode_document(text) {
                None => Err(RenhancdError::LoadError),
                Some(entries) => {
                    if entries_distinct(&entries) {
                        Ok(Database { filename: filename.to_owned(), data: entries })
                    } else {
                        Err(RenhancdError::LoadError)
                    }
                },
            },
        }
    }

    /// The weight of `path`, or nothing when the path is not tracked.
    pub fn get(&self, path: &str) -> (r: Option<u32>)
        requires
            self.wf(),
        ensures
            r == (if self@.contains_key(path@) {
                Some(self@[path@])
            } else {
                None::<u32>
            }),
    {
        proof {
            lemma_map_of_contains(self.entries(), path@);
        }
        match self.find_index(path) {
            Some(i) => {
                proof {
                    lemma_map_of_index(self.entries(), i as int);
                }
                let pair: &(String, u32) = &self.data[i];
                Some(pair.1)
            },
            None => None,
        }
    }

    /// Adds `path` at `weight` only if it is absent; an existing entry is
    /// never overwritten.
    pub fn insert(&mut self, path: String, weight: u32) -> (r: bool)
        requires
            old(self).wf(),
        ensures
            final(self).wf(),
            final(self).location() == old(self).location(),
            r == !old(self)@.contains_key(path@),
            r ==> final(self)@ == old(self)@.insert(path@, weight) && final(self).entries() == old(
                self,
            ).entries().push((path@, weight)),
            !r ==> *final(self) == *old(self),
    {
        proof {
            lemma_map_of_contains(self.entries(), path@);
        }
        match self.find_index(path.as_str()) {
            Some(_) => false,
            None => {
                let ghost prev = self.entries();
                proof {
                    lemma_map_of_push(prev, path@, weight);
                }
                self.data.push((path, weight));
                proof {
                    assert(self.entries() =~= prev.push((self.data@.last().0@, weight)));
                    assert forall|x: int, y: int|
                        0 <= x < y < self.entries().len() implies (#[trigger] self.entries()[x]).0
                        != (#[trigger] self.entries()[y]).0 by {
                        if y == self.entries().len() - 1 {
                            assert(self.entries()[x] == prev[x]);
                        }
                    }
                }
                true
            },
        }
    }

    /// Sets the weight of `path` only if it is already present; a new entry
    /// is never created.
    pub fn update(&mut self, path: String, weight: u32) -> (r: bool)
        requires
            old(self).wf(),
        ensures
            final(self).wf(),
            final(self).location() == old(self).location(),
            r == old(self)@.contains_key(path@),
            r ==> final(self)@ == old(self)@.insert(path@, weight),
            !r ==> *final(self) == *old(self),
    {
        proof {
            lemma_map_of_contains(self.entries(), path@);
        }
        match self.find_index(path.as_str()) {
            Some(i) => {
                let ghost prev = self.entries();
                proof {
                    lemma_map_of_remove(prev, i as int);
                }
                let _ = self.data.remove(i);
                let ghost mid = self.entries();
                proof {
                    prev.remove_ensures(i as int);
                    assert(mid =~= prev.remove(i as int));
                    assert(distinct_keys(mid));
                    lemma_map_of_push(mid, path@, weight);
                }
                self.data.push((path, weight));
                proof {
                    assert(self.entries() =~= mid.push((self.data@.last().0@, weight)));
                    lemma_map_of_contains(mid, path@);
                    assert(!map_of(mid).contains_key(path@)) by {
                        if exists|m: int| 0 <= m < mid.len() && (#[trigger] mid[m]).0 == path@ {
                            let m = choose|m: int|
                                0 <= m < mid.len() && (#[trigger] mid[m]).0 == path@;
                            if m < i {
                                assert(prev[m].0 == path@);
                            } else {
                                assert(prev[m + 1].0 == path@);
                            }
                            assert(false);
                        }
                    }
                    assert forall|x: int, y: int|
                        0 <= x < y < self.entries().len() implies (#[trigger] self.entries()[x]).0
                        != (#[trigger] self.entries()[y]).0 by {
                        if y == self.entries().len() - 1 {
                            assert(self.entries()[x] == mid[x]);
                            assert(mid.contains(mid[x]));
                        }
                    }
                    assert(self@ =~= old(self)@.insert(path@, weight));
                }
                true
            },
            None => false,
        }
    }

    /// Removes `path` if present; an absent path leaves the store unchanged.
    pub fn delete(&mut self, path: &str) -> (r: bool)
        requires
            old(self).wf(),
        ensures
            final(self).wf(),
            final(self).location() == old(self).location(),
            r == old(self)@.contains_key(path@),
            r ==> final(self)@ == old(self)@.remove(path@),
            !r ==> *final(self) == *old(self),
    {
        proof {
            lemma_map_of_contains(self.entries(), path@);
        }
        match self.find_index(path) {
            Some(i) => {
                let ghost prev = self.entries();
                proof {
                    lemma_map_of_remove(prev, i as int);
                }
                let _ = self.data.remove(i);
                proof {
                    prev.remove_ensures(i as int);
                    assert(self.entries() =~= prev.remove(i as int));
                    assert(distinct_keys(self.entries()));
                }
                true
            },
            None => false,
        }
    }

    /// Raises the weight of `path` by one; fails when the path is unknown.
    pub fn increment(&mut self, path: &str) -> (r: Result<u32, RenhancdError>)
        requires
            old(self).wf(),
            old(self)@.contains_key(path@) ==> old(self)@[path@] < u32::MAX,
        ensures
            final(self).wf(),
            final(self).location() == old(self).location(),
            match r {
                Ok(w) => {
                    &&& old(self)@.contains_key(path@)
                    &&& w == old(self)@[path@] + 1
                    &&& final(self)@ == old(self)@.insert(path@, w)
                },
                Err(e) => {
                    &&& e == RenhancdError::PathNotFound
                    &&& !old(self)@.contains_key(path@)
                    &&& *final(self) == *old(self)
                },
            },
    {
        match self.get(path) {
            Some(w) => {
                let updated = self.update(path.to_owned(), w + 1);
                assert(updated);
                Ok(w + 1)
            },
            None => Err(RenhancdError::PathNotFound),
        }
    }

    /// The paths in rank order: weight descending, non-hidden before hidden
    /// among equal weights, then lexicographic.
    pub fn ordered_keys(&self) -> (r: Vec<String>)
        requires
            self.wf(),
        ensures
            r@.len() == self.entries().len(),
            forall|m: int| 0 <= m < r@.len() ==> self@.contains_key((#[trigger] r@[m])@),
            forall|k: Seq<char>|
                self@.contains_key(k) ==> exists|m: int| 0 <= m < r@.len() && (#[trigger] r@[m])@
                    == k,
            forall|x: int, y: int|
                0 <= x < y < r@.len() ==> rank_before(
                    (r@[x]@, self@[r@[x]@]),
                    (r@[y]@, self@[r@[y]@]),
                ),
    {
        let sorted = sort_entries(&self.data);
        let ghost sv = entry_views(sorted@);
        let ghost all = self.entries();
        let n = sorted.len();
        let mut out: Vec<String> = Vec::new();
        let mut m: usize = 0;
        while m < n
            invariant
                m <= n,
                n == sorted@.len(),
                sv == entry_views(sorted@),
                all == self.entries(),
                self.wf(),
                sv.len() == all.len(),
                distinct_keys(sv),
                forall|e: (Seq<char>, u32)| sv.contains(e) <==> all.contains(e),
                forall|x: int, y: int| 0 <= x < y < sv.len() ==> rank_le(sv[x], sv[y]),
                out@.len() == m,
                forall|t: int| 0 <= t < m ==> (#[trigger] out@[t])@ == sv[t].0,
            decreases n - m,
        {
            let pair: &(String, u32) = &sorted[m];
            out.push(pair.0.clone());
            proof {
                assert(out@.last()@ == sv[m as int].0);
            }
            m = m + 1;
        }
        proof {
            // Each ranked entry is an entry of the store, so its key maps to
            // its weight.
            assert forall|t: int| 0 <= t < n implies self@.contains_key(#[trigger] sv[t].0)
                && self@[sv[t].0] == sv[t].1 by {
                assert(sv.contains(sv[t]));
                assert(all.contains(sv[t]));
                let q = choose|q: int| 0 <= q < all.len() && all[q] == sv[t];
                lemma_map_of_index(all, q);
            }
            assert forall|k: Seq<char>| self@.contains_key(k) implies exists|t: int|
                0 <= t < out@.len() && (#[trigger] out@[t])@ == k by {
                lemma_map_of_contains(all, k);
                let q = choose|q: int| 0 <= q < all.len() && (#[trigger] all[q]).0 == k;
                assert(all.contains(all[q]));
                assert(sv.contains(all[q]));
                let t = choose|t: int| 0 <= t < sv.len() && sv[t] == all[q];
                assert(out@[t]@ == k);
            }
            assert forall|x: int, y: int| 0 <= x < y < out@.len() implies rank_before(
                ((#[trigger] out@[x])@, self@[out@[x]@]),
                ((#[trigger] out@[y])@, self@[out@[y]@]),
            ) by {
                assert(out@.len() == sv.len());
                assert(rank_le(sv[x], sv[y]));
                assert(sv[x].0 != sv[y].0);
                if sv[x] == sv[y] {
                    assert(false);
                }
                lemma_rank_irrefl(sv[x]);
                assert(rank_before(sv[x], sv[y]));
                assert(out@[x]@ == sv[x].0 && out@[y]@ == sv[y].0);
            }
        }
        out
    }

    /// Renders the store as its persisted document text.
    pub fn to_document(&self) -> (r: String)
        ensures
            r@ == document_of(self.entries()),
    {
        encode_document(&self.data)
    }
}

/// Whether the keys of the entries are pairwise distinct.
fn entries_distinct(entries: &Vec<(String, u32)>) -> (r: bool)
    ensures
        r == distinct_keys(entry_views(entries@)),
{
    let ghost views = entry_views(entries@);
    let n = entries.len();
    let mut i: usize = 0;
    while i < n
        invariant
            i <= n,
            n == entries@.len(),
            views == entry_views(entries@),
            forall|x: int, y: int|
                0 <= x < y < i ==> (#[trigger] views[x]).0 != (#[trigger] views[y]).0,
        decreases n - i,
    {
        let mut j: usize = 0;
        while j < i
            invariant
                j <= i < n,
                n == entries@.len(),
                views == entry_views(entries@),
                forall|x: int| 0 <= x < j ==> (#[trigger] views[x]).0 != views[i as int].0,
            decreases i - j,
        {
            let a: &(String, u32) = &entries[j];
            let b: &(String, u32) = &entries[i];
            if str_equal(a.0.as_str(), b.0.as_str()) {
                proof {
                    assert(views[j as int].0 == views[i as int].0);
                }
                return false;
            }
            j = j + 1;
        }
        i = i + 1;
    }
    true
}

/// Writing a well-formed store to its document and reading the document back
/// yields exactly the same entries, hence an identical path-to-weight
/// mapping.  Keys must fit on one line, that is, contain no newline.
pub proof fn lemma_save_load_round_trip(db: Database)
    requires
        db.wf(),
        entries_line_safe(db.entries()),
    ensures
        parse_document(document_of(db.entries())) == Some(db.entries()),
        distinct_keys(db.entries()),
{
    lemma_document_round_trip(db.entries());
}

} // verus!
