//! Reconciliation: before any command runs, the store is aligned with the
//! set of directories that currently exist.  Stale paths are deleted, new
//! directories enter at weight zero, and every directory that stays tracked
//! keeps its weight.  A ranked path is always deletable, so deleting a stale
//! entry cannot fail: that inconsistency is ruled out by proof.

use vstd::prelude::*;

use crate::database::Database;
use crate::ranking::lemma_rank_irrefl;
use crate::text::contains_text;
use crate::text::vec_contains;

verus! {

/// Aligns the store with the live directory set.
pub fn update_database(db: &mut Database, directories: &Vec<String>)
    requires
        old(db).wf(),
    ensures
        final(db).wf(),
        final(db).location() == old(db).location(),
        forall|k: Seq<char>| final(db)@.contains_key(k) <==> contains_text(directories@, k),
        forall|k: Seq<char>|
            #[trigger] final(db)@.contains_key(k) ==> final(db)@[k] == (if old(
                db,
            )@.contains_key(k) {
                old(db)@[k]
            } else {
                0u32
            }),
{
    let keys = db.ordered_keys();
    proof {
        assert forall|x: int, y: int| 0 <= x < y < keys@.len() implies (#[trigger] keys@[x])@ != (
        #[trigger] keys@[y])@ by {
            if keys@[x]@ == keys@[y]@ {
                lemma_rank_irrefl((keys@[x]@, db@[keys@[x]@]));
            }
        }
    }
    let n = keys.len();
    let mut i: usize = 0;
    while i < n
        invariant
            i <= n,
            n == keys@.len(),
            db.wf(),
            db.location() == old(db).location(),
            forall|m: int| 0 <= m < n ==> old(db)@.contains_key((#[trigger] keys@[m])@),
            forall|k: Seq<char>|
                old(db)@.contains_key(k) ==> exists|m: int|
                    0 <= m < n && (#[trigger] keys@[m])@ == k,
            forall|x: int, y: int|
                0 <= x < y < n ==> (#[trigger] keys@[x])@ != (#[trigger] keys@[y])@,
            forall|k: Seq<char>|
                #[trigger] db@.contains_key(k) <==> (old(db)@.contains_key(k) && ((exists|m: int|
                    i <= m < n && (#[trigger] keys@[m])@ == k) || contains_text(
                    directories@,
                    k,
                ))),
            forall|k: Seq<char>| #[trigger] db@.contains_key(k) ==> db@[k] == old(db)@[k],
        decreases n - i,
    {
        let key: &String = &keys[i];
        let ghost kv = key@;
        proof {
            assert(kv == keys@[i as int]@);
        }
        let live = vec_contains(directories, key.as_str());
        let ghost before = db@;
        if !live {
            let deleted = db.delete(key.as_str());
            proof {
                assert(before.contains_key(kv)) by {
                    assert(old(db)@.contains_key(kv));
                    assert(i <= i < n && keys@[i as int]@ == kv);
                }
                assert(deleted);
                assert forall|k: Seq<char>| #[trigger] db@.contains_key(k) <==> (old(
                    db,
                )@.contains_key(k) && ((exists|m: int|
                    i + 1 <= m < n && (#[trigger] keys@[m])@ == k) || contains_text(
                    directories@,
                    k,
                ))) by {
                    if k == kv {
                        assert(!db@.contains_key(k));
                        if exists|m: int| i + 1 <= m < n && (#[trigger] keys@[m])@ == k {
                            let m = choose|m: int|
                                i + 1 <= m < n && (#[trigger] keys@[m])@ == k;
                            assert(keys@[i as int]@ != keys@[m]@);
                            assert(false);
                        }
                    } else {
                        assert(db@.contains_key(k) == before.contains_key(k));
                        if exists|m: int| i <= m < n && (#[trigger] keys@[m])@ == k {
                            let m = choose|m: int| i <= m < n && (#[trigger] keys@[m])@ == k;
                            if m == i {
                                assert(false);
                            }
                            assert(i + 1 <= m < n && keys@[m]@ == k);
                        }
                    }
                }
            }
        } else {
            proof {
                assert forall|k: Seq<char>| #[trigger] db@.contains_key(k) <==> (old(
                    db,
                )@.contains_key(k) && ((exists|m: int|
                    i + 1 <= m < n && (#[trigger] keys@[m])@ == k) || contains_text(
                    directories@,
                    k,
                ))) by {
                    if k == kv {
                        assert(contains_text(directories@, k));
                    } else {
                        if exists|m: int| i <= m < n && (#[trigger] keys@[m])@ == k {
                            let m = choose|m: int| i <= m < n && (#[trigger] keys@[m])@ == k;
                            if m == i {
                                assert(false);
                            }
                            assert(i + 1 <= m < n && keys@[m]@ == k);
                        }
                    }
                }
            }
        }
        i = i + 1;
    }
    let dn = directories.len();
    let mut j: usize = 0;
    while j < dn
        invariant
            j <= dn,
            dn == directories@.len(),
            db.wf(),
            db.location() == old(db).location(),
            forall|k: Seq<char>|
                #[trigger] db@.contains_key(k) <==> ((old(db)@.contains_key(k) && contains_text(
                    directories@,
                    k,
                )) || (exists|m: int| 0 <= m < j && (#[trigger] directories@[m])@ == k)),
            forall|k: Seq<char>|
                #[trigger] db@.contains_key(k) ==> db@[k] == (if old(db)@.contains_key(k) {
                    old(db)@[k]
                } else {
                    0u32
                }),
        decreases dn - j,
    {
        let dir: &String = &directories[j];
        let ghost dv = dir@;
        let ghost before = db@;
        let _ = db.insert(dir.clone(), 0);
        proof {
            assert(contains_text(directories@, dv)) by {
                assert(0 <= j < directories@.len() && directories@[j as int]@ == dv);
            }
            assert forall|k: Seq<char>| #[trigger] db@.contains_key(k) <==> ((old(
                db,
            )@.contains_key(k) && contains_text(directories@, k)) || (exists|m: int|
                0 <= m < j + 1 && (#[trigger] directories@[m])@ == k)) by {
                if k == dv {
                    assert(db@.contains_key(k));
                    assert(directories@[j as int]@ == k);
                } else {
                    assert(db@.contains_key(k) == before.contains_key(k));
                    if exists|m: int| 0 <= m < j + 1 && (#[trigger] directories@[m])@ == k {
                        let m = choose|m: int|
                            0 <= m < j + 1 && (#[trigger] directories@[m])@ == k;
                        assert(m < j);
                    }
                }
            }
            assert forall|k: Seq<char>| #[trigger] db@.contains_key(k) implies db@[k] == (if old(
                db,
            )@.contains_key(k) {
                old(db)@[k]
            } else {
                0u32
            }) by {
                if k == dv && !before.contains_key(dv) {
                    assert(db@[k] == 0u32);
                    assert(!old(db)@.contains_key(k));
                }
            }
        }
        j = j + 1;
    }
    proof {
        assert forall|k: Seq<char>| db@.contains_key(k) <==> contains_text(
            directories@,
            k,
        ) by {
            if contains_text(directories@, k) {
                let m = choose|m: int|
                    0 <= m < directories@.len() && (#[trigger] directories@[m])@ == k;
                assert(0 <= m < dn && directories@[m]@ == k);
            }
        }
    }
}

} // verus!
