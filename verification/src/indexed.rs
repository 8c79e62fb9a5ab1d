//! Indexed list reconciliation: position is identity.
//!
//! For each position, the previous output is kept when the item at that
//! position is unchanged; a changed or new position is mapped fresh under a
//! new scope, and the old scope of a changed or dropped position is
//! disposed.  There is no cross-position reuse.

use vstd::prelude::*;

use crate::datum::Datum;
use crate::runtime::track_model;
use crate::runtime::CompModel;
use crate::runtime::Runtime;
use crate::runtime::StateHandle;

verus! {

/// Position `i` keeps its previous output: the old sequence has an equal
/// item at the same position.
pub open spec fn keeps<T: Datum>(a: Seq<T>, b: Seq<T>, i: int) -> bool {
    0 <= i < b.len() && i < a.len() && a[i].veq(&b[i])
}

/// The state of an indexed mapping over a tracked sequence: the source
/// handle, the per-item mapping function, and the previous items, outputs
/// and per-position scopes.
pub struct IndexedState<T, U, F> {
    list: StateHandle,
    map_fn: F,
    items: Vec<T>,
    mapped: Vec<U>,
    scopes: Vec<usize>,
}

impl<T: Datum, U: Datum, F: Fn(&T) -> U> IndexedState<T, U, F> {
    /// The handle of the source sequence.
    pub closed spec fn list_spec(&self) -> StateHandle {
        self.list
    }

    /// The mapping function.
    pub closed spec fn fn_spec(&self) -> F {
        self.map_fn
    }

    /// The baseline items of the last update.
    pub closed spec fn items_spec(&self) -> Seq<T> {
        self.items@
    }

    /// The outputs of the last update.
    pub closed spec fn mapped_spec(&self) -> Seq<U> {
        self.mapped@
    }

    /// The per-position scopes of the last update.
    pub closed spec fn scopes_spec(&self) -> Seq<usize> {
        self.scopes@
    }

    /// Well-formedness against a runtime: the three parallel arrays agree
    /// and every recorded scope and the source cell exist.
    pub open spec fn wf(&self, m: crate::runtime::Model<Vec<T>>) -> bool {
        &&& self.items_spec().len() == self.mapped_spec().len()
        &&& self.items_spec().len() == self.scopes_spec().len()
        &&& crate::runtime::ids_below(self.scopes_spec(), m.scopes.len() as int)
        &&& (self.list_spec().id as int) < m.sigs.len()
    }

    /// Reads the source sequence (a tracked read) and rebuilds the outputs
    /// by position: an unchanged position keeps its output and scope; a
    /// changed or new position is mapped fresh under a new scope; the scope
    /// of every changed or dropped position is disposed.  Returns a
    /// duplicate of the new outputs.  Re-feeding an unchanged sequence
    /// keeps every position: no output moves, no scope is created or
    /// disposed.
    pub fn update(&mut self, rt: &mut Runtime<Vec<T>>) -> (out: Vec<U>)
        requires
            old(self).wf(old(rt)@),
            old(rt).inv(),
            forall|t: &T| call_requires(old(self).fn_spec(), (t,)),
        ensures
            final(rt).inv(),
            final(self).wf(final(rt)@),
            final(self).list_spec() == old(self).list_spec(),
            final(self).fn_spec() == old(self).fn_spec(),
            final(rt)@.sigs.len() == old(rt)@.sigs.len(),
            final(rt)@.comps.len() == old(rt)@.comps.len(),
            final(rt)@.frames == old(rt)@.frames,
            final(rt)@.stack == old(rt)@.stack,
            forall|s: int|
                0 <= s < old(rt)@.sigs.len() ==> (#[trigger] final(rt)@.sigs[s]).value == old(
                    rt,
                )@.sigs[s].value,
            ({
                let b = old(rt)@.sigs[old(self).list_spec().id as int].value@;
                &&& final(self).items_spec().len() == b.len()
                &&& forall|i: int| 0 <= i < b.len() ==> (#[trigger] b[i]).veq(
                    &final(self).items_spec()[i],
                )
            }),
            final(self).mapped_spec().len() == final(self).items_spec().len(),
            final(self).scopes_spec().len() == final(self).items_spec().len(),
            forall|i: int|
                #![trigger keeps(old(self).items_spec(), final(self).items_spec(), i)]
                0 <= i < final(self).items_spec().len() ==> (if keeps(
                    old(self).items_spec(),
                    final(self).items_spec(),
                    i,
                ) {
                    final(self).mapped_spec()[i] == old(self).mapped_spec()[i]
                        && final(self).scopes_spec()[i] == old(self).scopes_spec()[i]
                } else {
                    call_ensures(
                        old(self).fn_spec(),
                        (&final(self).items_spec()[i],),
                        final(self).mapped_spec()[i],
                    ) && final(self).scopes_spec()[i] >= old(rt)@.scopes.len()
                }),
            ({
                let b = old(rt)@.sigs[old(self).list_spec().id as int].value@;
                (old(self).items_spec().len() == b.len() && (forall|k: int|
                    0 <= k < b.len() ==> (#[trigger] old(self).items_spec()[k]).veq(&b[k])))
                    ==> final(self).mapped_spec() == old(self).mapped_spec()
                        && final(self).scopes_spec() == old(self).scopes_spec()
                        && final(rt)@.scopes == old(rt)@.scopes
            }),
            forall|j: int|
                #![trigger old(self).scopes_spec()[j]]
                0 <= j < old(self).items_spec().len() && !keeps(
                    old(self).items_spec(),
                    final(self).items_spec(),
                    j,
                ) ==> !final(rt)@.scopes[old(self).scopes_spec()[j] as int].alive,
            ({
                let after_read = track_model(old(rt)@, old(self).list_spec().id as int);
                &&& forall|s: int|
                    0 <= s < old(rt)@.sigs.len() ==> (#[trigger] final(rt)@.sigs[s]).read_active
                        == after_read.sigs[s].read_active
                &&& forall|d: int|
                    0 <= d < old(rt)@.comps.len() ==> ((#[trigger] final(rt)@.comps[d])
                        == after_read.comps[d] || final(rt)@.comps[d] == (CompModel {
                        deps: Seq::<usize>::empty(),
                        alive: false,
                        ..after_read.comps[d]
                    }))
                &&& forall|s: int, d: int|
                    0 <= s < old(rt)@.sigs.len() && 0 <= d < old(rt)@.comps.len()
                        ==> #[trigger] final(rt)@.sigs[s].subs.contains(d as usize) == (
                    after_read.sigs[s].subs.contains(d as usize) && final(rt)@.comps[d]
                        == after_read.comps[d])
            }),
            out@.len() == final(self).mapped_spec().len(),
            forall|i: int|
                0 <= i < out@.len() ==> (#[trigger] final(self).mapped_spec()[i]).veq(&out@[i]),
    {
        let ghost items0 = self.items@;
        let ghost mm0 = self.mapped@;
        let ghost sc0 = self.scopes@;
        let ghost b = old(rt)@.sigs[self.list.id as int].value@;

        let new_items = self.list.get(rt);
        let ghost m1 = rt@;
        proof {
            assert(m1.scopes == old(rt)@.scopes);
        }
        let old_n: usize = self.items.len();
        let bn: usize = new_items.len();

        // wrap the previous outputs so they can be moved out one by one
        let mut rev: Vec<Option<U>> = Vec::new();
        while self.mapped.len() > 0
            invariant
                rev@.len() + self.mapped@.len() == mm0.len(),
                self.mapped@ == mm0.subrange(0, mm0.len() - rev@.len()),
                forall|t: int|
                    0 <= t < rev@.len() ==> (#[trigger] rev@[t]) == Some(mm0[mm0.len() - 1 - t]),
                self.items@ == items0,
                self.scopes@ == sc0,
                self.list == old(self).list,
                self.map_fn == old(self).map_fn,
            decreases self.mapped@.len(),
        {
            let x = self.mapped.pop();
            rev.push(x);
            proof {
                assert(self.mapped@ =~= mm0.subrange(0, mm0.len() - rev@.len()));
            }
        }

        let mut new_mapped: Vec<U> = Vec::new();
        let mut new_scopes: Vec<usize> = Vec::new();
        let mut i: usize = 0;
        while i < bn
            invariant
                rt.inv(),
                i <= bn,
                old_n == items0.len(),
                bn == new_items@.len(),
                mm0.len() == old_n,
                sc0.len() == old_n,
                crate::runtime::ids_below(sc0, m1.scopes.len() as int),
                rt@.sigs == m1.sigs,
                rt@.comps == m1.comps,
                rt@.stack == m1.stack,
                rt@.frames == m1.frames,
                rt@.scopes.len() >= m1.scopes.len(),
                (forall|ii: int| 0 <= ii < bn ==> keeps(items0, new_items@, ii)) ==> rt@.scopes
                    == m1.scopes,
                rev@.len() == old_n,
                forall|t: int|
                    0 <= t < old_n ==> (#[trigger] rev@[t]) == (if old_n - 1 - t < i && keeps(
                        items0,
                        new_items@,
                        old_n - 1 - t,
                    ) {
                        None
                    } else {
                        Some(mm0[old_n - 1 - t])
                    }),
                new_mapped@.len() == i,
                new_scopes@.len() == i,
                crate::runtime::ids_below(new_scopes@, rt@.scopes.len() as int),
                forall|ii: int|
                    #![trigger keeps(items0, new_items@, ii)]
                    0 <= ii < i ==> (if keeps(items0, new_items@, ii) {
                        new_mapped@[ii] == mm0[ii] && new_scopes@[ii] == sc0[ii]
                    } else {
                        call_ensures(old(self).fn_spec(), (&new_items@[ii],), new_mapped@[ii])
                            && new_scopes@[ii] >= m1.scopes.len()
                    }),
                self.items@ == items0,
                self.scopes@ == sc0,
                self.list == old(self).list,
                self.map_fn == old(self).map_fn,
                forall|tt: &T| call_requires(old(self).fn_spec(), (tt,)),
            decreases bn - i,
        {
            let keep = if i < old_n {
                self.items[i].eq_check(&new_items[i])
            } else {
                false
            };
            proof {
                assert(keep == keeps(items0, new_items@, i as int));
            }
            if keep {
                proof {
                    assert(rev@[(old_n - 1 - i) as int] == Some(mm0[i as int]));
                }
                let taken = crate::keyed::take_slot(&mut rev, old_n - 1 - i);
                let u = match taken {
                    Some(u) => u,
                    None => vstd::pervasive::unreached(),
                };
                new_mapped.push(u);
                new_scopes.push(self.scopes[i]);
            } else {
                proof {
                    assert(self.map_fn == old(self).fn_spec());
                }
                let u = (self.map_fn)(&new_items[i]);
                let sc = rt.new_scope(None);
                new_mapped.push(u);
                new_scopes.push(sc);
                proof {
                    assert(!(forall|ii: int| 0 <= ii < bn ==> keeps(items0, new_items@, ii))) by {
                        assert(!keeps(items0, new_items@, i as int));
                    }
                }
            }
            i = i + 1;
        }

        // dispose the scopes of the changed and dropped positions
        let mut used: Vec<bool> = Vec::new();
        let mut jd: usize = 0;
        while jd < old_n
            invariant
                jd <= old_n,
                old_n == items0.len(),
                bn == new_items@.len(),
                used@.len() == jd,
                forall|j: int| 0 <= j < jd ==> (#[trigger] used@[j]) == keeps(items0, new_items@, j),
                self.items@ == items0,
                self.scopes@ == sc0,
                self.list == old(self).list,
                self.map_fn == old(self).map_fn,
            decreases old_n - jd,
        {
            let keep = if jd < bn {
                self.items[jd].eq_check(&new_items[jd])
            } else {
                false
            };
            proof {
                assert(keep == keeps(items0, new_items@, jd as int));
            }
            used.push(keep);
            jd = jd + 1;
        }
        let ghost m2 = rt@;
        proof {
            assert(m1 == track_model(old(rt)@, old(self).list_spec().id as int));
            assert forall|t: int|
                0 <= t < sc0.len() implies (#[trigger] sc0[t]) < m2.scopes.len() as int by {
                assert(sc0[t] < m1.scopes.len() as int);
            }
        }
        rt.dispose_unused(&self.scopes, &used);
        proof {
            assert forall|j: int|
                0 <= j < old_n && !keeps(items0, new_items@, j) implies !rt@.scopes[
                sc0[j] as int
            ].alive by {
                assert(!used@[j]);
            }
            if old_n == bn && (forall|ii: int| 0 <= ii < bn ==> keeps(items0, new_items@, ii)) {
                assert forall|jj: int| 0 <= jj < used@.len() implies #[trigger] used@[jj] by {
                    assert(keeps(items0, new_items@, jj));
                }
                assert(rt@.scopes == m2.scopes);
            }
        }

        // install the new baseline
        self.items = new_items;
        self.mapped = new_mapped;
        self.scopes = new_scopes;

        let out = self.mapped.dup();

        proof {
            if items0.len() == b.len() && (forall|k: int|
                0 <= k < b.len() ==> (#[trigger] items0[k]).veq(&b[k])) {
                assert forall|k: int|
                    0 <= k < items0.len() implies keeps(items0, self.items@, k) by {
                    assert(b[k].veq(&self.items@[k]));
                    items0[k].lemma_veq_trans(&b[k], &self.items@[k]);
                }
                assert(self.mapped@.len() == mm0.len());
                assert forall|ii: int| 0 <= ii < mm0.len() implies (#[trigger] self.mapped@[ii])
                    == mm0[ii] by {
                    assert(keeps(items0, self.items@, ii));
                }
                assert forall|ii: int| 0 <= ii < sc0.len() implies (#[trigger] self.scopes@[ii])
                    == sc0[ii] by {
                    assert(keeps(items0, self.items@, ii));
                }
                assert(self.mapped@ =~= mm0);
                assert(self.scopes@ =~= sc0);
                assert(m2.scopes == m1.scopes);
                assert(rt@.scopes == m2.scopes);
            }
        }
        out
    }
}

/// Creates an indexed mapping of the sequence behind `list` through
/// `map_fn`: the returned state starts from an empty baseline, so its first
/// update maps every item fresh; from then on each update keeps unchanged
/// positions untouched.
pub fn map_indexed<T: Datum, U: Datum, F: Fn(&T) -> U>(list: StateHandle, map_fn: F) -> (r:
    IndexedState<T, U, F>)
    ensures
        r.list_spec() == list,
        r.fn_spec() == map_fn,
        r.items_spec().len() == 0,
        r.mapped_spec().len() == 0,
        r.scopes_spec().len() == 0,
{
    IndexedState { list, map_fn, items: Vec::new(), mapped: Vec::new(), scopes: Vec::new() }
}

} // verus!
