//! The reactive runtime: an arena of value cells, computation records, the
//! context stack and the pending-notification frames.
//!
//! Cells and computations are addressed by stable indices instead of shared
//! pointers, and the computation that is currently running is carried by an
//! explicit context stack inside the runtime, so every operation of the
//! engine is an auditable transition on one piece of state.  The abstract
//! content of that state is the [`Model`]; every contract below speaks about
//! the model of the runtime before and after the call.

use vstd::prelude::*;

use crate::datum::Datum;

verus! {

/// The recoverable failures of the engine.
#[derive(Clone, Copy, PartialEq, Eq, Structural, Debug)]
pub enum RxError {
    /// A cell was written while a computation that read it was still running:
    /// the write would re-enter the read in progress, so it is rejected.
    ReentrantMutation,
    /// Notification propagation exceeded its step budget; the dependency
    /// graph almost certainly notifies itself in a cycle.
    PropagationOverflow,
    /// A computation was created from a slot for which its source declines
    /// to produce a value.
    NoDerivation,
}

/// When a recomputed derived value notifies the subscribers of its cell.
#[derive(Clone, Copy, PartialEq, Eq, Structural, Debug)]
pub enum NotifyRule {
    /// Every recomputation overwrites and notifies (a memo).
    Always,
    /// The value is stored, but subscribers are only notified when the new
    /// value differs from the stored one (a selector).
    WhenChanged,
}

/// A handle to read a cell of a runtime.  The index is stable for the life
/// of the runtime; treat it as opaque.
#[derive(Clone, Copy, PartialEq, Eq, Structural, Debug)]
pub struct StateHandle {
    /// Arena index of the cell.
    pub id: usize,
}

/// State that can be set: a cell handle together with the right to write it.
#[derive(Clone, Copy, PartialEq, Eq, Structural, Debug)]
pub struct Signal {
    /// The read handle of the cell.
    pub handle: StateHandle,
}

/// Abstract content of one value cell.
#[verifier::ext_equal]
pub struct SigModel<V> {
    /// The stored value.
    pub value: V,
    /// Subscribed computations, in subscription order, without duplicates.
    pub subs: Seq<usize>,
    /// Whether the currently running computation has read this cell.
    pub read_active: bool,
}

/// Abstract content of one computation record.
#[verifier::ext_equal]
pub struct CompModel {
    /// The cells read during the last run, in order of first read.
    pub deps: Seq<usize>,
    /// The cell that receives the derived value, once it exists.
    pub out: Option<usize>,
    /// Whether a recomputation notifies the output cell's subscribers.
    pub rule: NotifyRule,
    /// Which derivation of the caller's source this computation runs.
    pub slot: usize,
    /// Cleared when the owning scope is disposed.
    pub alive: bool,
}

/// One pending notification: a snapshot of a subscriber list and the cursor
/// of the next subscriber to run.
#[verifier::ext_equal]
pub struct FrameModel {
    /// The snapshot, taken when the write happened.
    pub comps: Seq<usize>,
    /// Index of the next entry of `comps` to run.
    pub next: int,
}

/// Abstract content of one disposal scope.
#[verifier::ext_equal]
pub struct ScopeModel {
    /// The scope this one was created under, if any; always a smaller index.
    pub parent: Option<usize>,
    /// The computations owned by this scope.
    pub comps: Seq<usize>,
    /// Cleared when the scope or an ancestor is disposed.
    pub alive: bool,
}

/// The abstract state of a whole runtime.
#[verifier::ext_equal]
pub struct Model<V> {
    /// The value cells.
    pub sigs: Seq<SigModel<V>>,
    /// The computation records.
    pub comps: Seq<CompModel>,
    /// The context stack: the computation currently running, if any.
    pub stack: Seq<usize>,
    /// Pending notifications, deepest last.
    pub frames: Seq<FrameModel>,
    /// The disposal scopes.
    pub scopes: Seq<ScopeModel>,
}

/// All entries are below `n`.
pub open spec fn ids_below(s: Seq<usize>, n: int) -> bool {
    forall|i: int| 0 <= i < s.len() ==> (#[trigger] s[i]) < n
}

/// No entry occurs twice.
pub open spec fn distinct_ids(s: Seq<usize>) -> bool {
    forall|i: int, j: int| 0 <= i < j < s.len() ==> s[i] != s[j]
}

/// `s` with the (unique) occurrence of `c` removed, order kept.
pub open spec fn remove_id(s: Seq<usize>, c: usize) -> Seq<usize> {
    if s.contains(c) {
        s.remove(s.index_of(c))
    } else {
        s
    }
}

/// Well-formedness of one cell: subscribers are valid, deduplicated
/// computation indices, and a read-in-progress mark can only be held while
/// the computation on the stack has the cell among its dependencies.
pub open spec fn sig_ok<V>(m: Model<V>, s: int) -> bool {
    &&& ids_below(m.sigs[s].subs, m.comps.len() as int)
    &&& distinct_ids(m.sigs[s].subs)
    &&& (m.sigs[s].read_active ==> m.stack.len() == 1 && m.comps[m.stack[0] as int].deps.contains(
        s as usize,
    ))
}

/// Well-formedness of one computation: dependencies are valid, deduplicated
/// cell indices and the output cell, if set, exists.
pub open spec fn comp_ok<V>(m: Model<V>, c: int) -> bool {
    &&& ids_below(m.comps[c].deps, m.sigs.len() as int)
    &&& distinct_ids(m.comps[c].deps)
    &&& (m.comps[c].out matches Some(o) ==> (o as int) < m.sigs.len())
}

/// The dependency edges are two-sided: a computation that is not running
/// sits in a cell's subscriber list exactly when the cell is among its
/// recorded dependencies, and a running computation is subscribed nowhere
/// (it re-subscribes when its run ends).
pub open spec fn coherent_at<V>(m: Model<V>, s: int, c: int) -> bool {
    m.sigs[s].subs.contains(c as usize) <==> (!m.stack.contains(c as usize) && m.comps[c].deps.contains(
        s as usize,
    ))
}

/// Well-formedness of one scope: the parent was created earlier and the
/// owned computations exist.
pub open spec fn scope_ok<V>(m: Model<V>, x: int) -> bool {
    &&& (m.scopes[x].parent matches Some(p) ==> (p as int) < x)
    &&& ids_below(m.scopes[x].comps, m.comps.len() as int)
}

/// Well-formedness of one pending frame.
pub open spec fn frame_ok<V>(m: Model<V>, f: int) -> bool {
    &&& ids_below(m.frames[f].comps, m.comps.len() as int)
    &&& 0 <= m.frames[f].next <= m.frames[f].comps.len()
}

/// The runtime invariant, at the model level.
pub open spec fn inv_model<V>(m: Model<V>) -> bool {
    &&& m.sigs.len() <= usize::MAX as int
    &&& m.comps.len() <= usize::MAX as int
    &&& m.frames.len() <= usize::MAX as int
    &&& m.scopes.len() <= usize::MAX as int
    &&& forall|s: int| 0 <= s < m.sigs.len() ==> #[trigger] sig_ok(m, s)
    &&& forall|c: int| 0 <= c < m.comps.len() ==> #[trigger] comp_ok(m, c)
    &&& m.stack.len() <= 1
    &&& ids_below(m.stack, m.comps.len() as int)
    &&& forall|s: int, c: int|
        0 <= s < m.sigs.len() && 0 <= c < m.comps.len() ==> #[trigger] coherent_at(m, s, c)
    &&& forall|x: int| 0 <= x < m.scopes.len() ==> #[trigger] scope_ok(m, x)
    &&& forall|f: int| 0 <= f < m.frames.len() ==> #[trigger] frame_ok(m, f)
}

/// Removing an id from a duplicate-free list keeps every other member and
/// the discipline of the list, and removes the id for good.
pub proof fn lemma_remove_id(sub: Seq<usize>, c: usize, n: int)
    requires
        distinct_ids(sub),
    ensures
        !remove_id(sub, c).contains(c),
        forall|x: usize| x != c ==> remove_id(sub, c).contains(x) == sub.contains(x),
        distinct_ids(remove_id(sub, c)),
        ids_below(sub, n) ==> ids_below(remove_id(sub, c), n),
        remove_id(sub, c).len() <= sub.len(),
{
    if sub.contains(c) {
        let k = sub.index_of(c);
        assert(0 <= k < sub.len() && sub[k] == c);
        sub.remove_ensures(k);
        let r = sub.remove(k);
        assert forall|i: int| 0 <= i < r.len() implies #[trigger] r[i] != c by {
            if i < k {
                assert(r[i] == sub[i]);
            } else {
                assert(r[i] == sub[i + 1]);
            }
        }
        if r.contains(c) {
            let i = r.index_of(c);
            assert(r[i] == c);
            assert(false);
        }
        assert forall|x: usize| x != c && sub.contains(x) implies r.contains(x) by {
            let i = sub.index_of(x);
            if i < k {
                assert(r[i] == x);
                assert(r.contains(x));
            } else {
                assert(i != k);
                assert(r[i - 1] == sub[i]);
                assert(r.contains(x));
            }
        }
        assert forall|x: usize| x != c && r.contains(x) implies sub.contains(x) by {
            let i = r.index_of(x);
            if i < k {
                assert(sub[i] == x);
            } else {
                assert(sub[i + 1] == x);
            }
        }
        assert forall|i: int, j: int| 0 <= i < j < r.len() implies r[i] != r[j] by {
            let i0: int = if i < k {
                i
            } else {
                i + 1
            };
            let j0: int = if j < k {
                j
            } else {
                j + 1
            };
            assert(r[i] == sub[i0]);
            assert(r[j] == sub[j0]);
        }
        if ids_below(sub, n) {
            assert forall|i: int| 0 <= i < r.len() implies (#[trigger] r[i]) < n by {
                if i < k {
                    assert(r[i] == sub[i]);
                } else {
                    assert(r[i] == sub[i + 1]);
                }
            }
        }
    }
}

/// The state change shared by ending a dependency edge set: the computation
/// leaves every subscriber list and its recorded dependencies are cleared.
pub open spec fn detach_model<V>(m: Model<V>, c: usize) -> Model<V> {
    Model {
        sigs: Seq::new(
            m.sigs.len(),
            |s: int| SigModel { subs: remove_id(m.sigs[s].subs, c), ..m.sigs[s] },
        ),
        comps: m.comps.update(c as int, CompModel { deps: Seq::empty(), ..m.comps[c as int] }),
        ..m
    }
}

/// The transition of starting a run: unsubscribe from every previously
/// recorded dependency, clear the record, and push it on the context stack.
pub open spec fn begin_run_model<V>(m: Model<V>, c: usize) -> Model<V> {
    Model { stack: m.stack.push(c), ..detach_model(m, c) }
}

/// The transition of retiring a computation on disposal: detach it and mark
/// it dead.
pub open spec fn retire_model<V>(m: Model<V>, c: usize) -> Model<V> {
    let d = detach_model(m, c);
    Model {
        comps: d.comps.update(c as int, CompModel { alive: false, ..d.comps[c as int] }),
        ..d
    }
}

/// The transition of ending a run: the computation is popped from the stack
/// and subscribes to exactly the cells its run read; every read-in-progress
/// mark is cleared.
pub open spec fn end_run_model<V>(m: Model<V>, c: usize) -> Model<V> {
    Model {
        sigs: Seq::new(
            m.sigs.len(),
            |s: int|
                SigModel {
                    subs: if m.comps[c as int].deps.contains(s as usize) {
                        m.sigs[s].subs.push(c)
                    } else {
                        m.sigs[s].subs
                    },
                    read_active: false,
                    ..m.sigs[s]
                },
        ),
        stack: m.stack.drop_last(),
        ..m
    }
}

/// The transition of a successful write: the value is replaced and, when the
/// cell has subscribers, a snapshot of them is queued as a new deepest
/// pending frame.  Nothing else moves.
pub open spec fn store_model<V>(m: Model<V>, s: int, v: V) -> Model<V> {
    Model {
        sigs: m.sigs.update(s, SigModel { value: v, ..m.sigs[s] }),
        frames: if m.sigs[s].subs.len() > 0 {
            m.frames.push(FrameModel { comps: m.sigs[s].subs, next: 0 })
        } else {
            m.frames
        },
        ..m
    }
}

/// The transition of a tracked read: with no computation running, nothing
/// changes; otherwise the cell joins the running computation's dependencies
/// (once) and is marked as read in progress.
pub open spec fn track_model<V>(m: Model<V>, s: int) -> Model<V> {
    if m.stack.len() == 0 {
        m
    } else {
        let c = m.stack[0] as int;
        let deps = m.comps[c].deps;
        Model {
            comps: m.comps.update(
                c,
                CompModel {
                    deps: if deps.contains(s as usize) {
                        deps
                    } else {
                        deps.push(s as usize)
                    },
                    ..m.comps[c]
                },
            ),
            sigs: m.sigs.update(s, SigModel { read_active: true, ..m.sigs[s] }),
            ..m
        }
    }
}

struct SigRec<V> {
    value: V,
    subs: Vec<usize>,
    read_active: bool,
}

impl<V> View for SigRec<V> {
    type V = SigModel<V>;

    closed spec fn view(&self) -> SigModel<V> {
        SigModel { value: self.value, subs: self.subs@, read_active: self.read_active }
    }
}

struct CompRec {
    deps: Vec<usize>,
    out: Option<usize>,
    rule: NotifyRule,
    slot: usize,
    alive: bool,
}

impl View for CompRec {
    type V = CompModel;

    closed spec fn view(&self) -> CompModel {
        CompModel {
            deps: self.deps@,
            out: self.out,
            rule: self.rule,
            slot: self.slot,
            alive: self.alive,
        }
    }
}

struct FrameRec {
    comps: Vec<usize>,
    next: usize,
}

impl View for FrameRec {
    type V = FrameModel;

    closed spec fn view(&self) -> FrameModel {
        FrameModel { comps: self.comps@, next: self.next as int }
    }
}

struct ScopeRec {
    parent: Option<usize>,
    comps: Vec<usize>,
    alive: bool,
}

impl View for ScopeRec {
    type V = ScopeModel;

    closed spec fn view(&self) -> ScopeModel {
        ScopeModel { parent: self.parent, comps: self.comps@, alive: self.alive }
    }
}

/// The reactive runtime.  All cells, computations, scopes and pending
/// notifications of one reactive world live here; see the crate root for the
/// operations on it.
pub struct Runtime<V> {
    sigs: Vec<SigRec<V>>,
    comps: Vec<CompRec>,
    stack: Vec<usize>,
    frames: Vec<FrameRec>,
    scopes: Vec<ScopeRec>,
}

impl<V> View for Runtime<V> {
    type V = Model<V>;

    closed spec fn view(&self) -> Model<V> {
        Model {
            sigs: self.sigs@.map_values(|r: SigRec<V>| r@),
            comps: self.comps@.map_values(|r: CompRec| r@),
            stack: self.stack@,
            frames: self.frames@.map_values(|r: FrameRec| r@),
            scopes: self.scopes@.map_values(|r: ScopeRec| r@),
        }
    }
}

/// An owned copy of a list of indices.
fn copy_ids(v: &Vec<usize>) -> (r: Vec<usize>)
    ensures
        r@ == v@,
{
    let n: usize = v.len();
    let mut r: Vec<usize> = Vec::new();
    let mut i: usize = 0;
    while i < n
        invariant
            n == v@.len(),
            i <= n,
            r@ == v@.subrange(0, i as int),
        decreases n - i,
    {
        r.push(v[i]);
        i = i + 1;
    }
    assert(r@ == v@.subrange(0, n as int));
    assert(v@.subrange(0, n as int) =~= v@);
    r
}

impl<V> Runtime<V> {
    /// The runtime invariant; every public operation preserves it.
    pub open spec fn inv(&self) -> bool {
        inv_model(self@)
    }

    /// An empty runtime: no cells, no computations, nothing running.
    pub fn new() -> (rt: Runtime<V>)
        ensures
            rt.inv(),
            rt@.sigs.len() == 0,
            rt@.comps.len() == 0,
            rt@.stack.len() == 0,
            rt@.frames.len() == 0,
            rt@.scopes.len() == 0,
    {
        Runtime {
            sigs: Vec::new(),
            comps: Vec::new(),
            stack: Vec::new(),
            frames: Vec::new(),
            scopes: Vec::new(),
        }
    }

    /// Allocates a fresh cell holding `value`, with no subscribers.
    pub(crate) fn raw_new_signal(&mut self, value: V) -> (s: usize)
        requires
            old(self).inv(),
        ensures
            final(self).inv(),
            s == old(self)@.sigs.len(),
            final(self)@ == (Model {
                sigs: old(self)@.sigs.push(
                    SigModel { value, subs: Seq::empty(), read_active: false },
                ),
                ..old(self)@
            }),
    {
        let s = self.sigs.len();
        self.sigs.push(SigRec { value, subs: Vec::new(), read_active: false });
        proof {
            vstd::std_specs::vec::axiom_spec_len(&self.sigs);
            assert(self@.sigs =~= old(self)@.sigs.push(
                SigModel { value, subs: Seq::empty(), read_active: false },
            ));
            assert(self@ =~= (Model {
                sigs: old(self)@.sigs.push(
                    SigModel { value, subs: Seq::empty(), read_active: false },
                ),
                ..old(self)@
            }));
            assert forall|t: int| 0 <= t < self@.sigs.len() implies #[trigger] sig_ok(
                self@,
                t,
            ) by {
                if t < old(self)@.sigs.len() {
                    assert(sig_ok(old(self)@, t));
                }
            }
            assert forall|c: int| 0 <= c < self@.comps.len() implies #[trigger] comp_ok(
                self@,
                c,
            ) by {
                assert(comp_ok(old(self)@, c));
            }
            assert forall|t: int, c: int|
                0 <= t < self@.sigs.len() && 0 <= c < self@.comps.len() implies #[trigger] coherent_at(
                self@,
                t,
                c,
            ) by {
                if t < old(self)@.sigs.len() {
                    assert(coherent_at(old(self)@, t, c));
                } else {
                    assert(comp_ok(old(self)@, c));
                    assert(ids_below(old(self)@.comps[c].deps, old(self)@.sigs.len() as int));
                    if old(self)@.comps[c].deps.contains(t as usize) {
                        let k = old(self)@.comps[c].deps.index_of(t as usize);
                        assert(old(self)@.comps[c].deps[k] < old(self)@.sigs.len());
                    }
                }
            }
            assert forall|x: int| 0 <= x < self@.scopes.len() implies #[trigger] scope_ok(
                self@,
                x,
            ) by {
                assert(scope_ok(old(self)@, x));
            }
            assert forall|f: int| 0 <= f < self@.frames.len() implies #[trigger] frame_ok(
                self@,
                f,
            ) by {
                assert(frame_ok(old(self)@, f));
            }
        }
        s
    }

    /// Reads the stored value of cell `s` without touching anything.
    pub(crate) fn raw_peek(&self, s: usize) -> (r: &V)
        requires
            (s as int) < self@.sigs.len(),
        ensures
            *r == self@.sigs[s as int].value,
    {
        &self.sigs[s].value
    }

    /// A successful write: replaces the value of `s` and queues a snapshot of
    /// its subscribers; rejected while a running computation is reading `s`.
    pub(crate) fn store(&mut self, s: usize, v: V) -> (r: Result<(), RxError>)
        requires
            old(self).inv(),
            (s as int) < old(self)@.sigs.len(),
        ensures
            final(self).inv(),
            (r == Err::<(), RxError>(RxError::ReentrantMutation)) == old(
                self,
            )@.sigs[s as int].read_active,
            r is Err ==> final(self)@ == old(self)@ && r == Err::<(), RxError>(
                RxError::ReentrantMutation,
            ),
            r is Ok ==> final(self)@ == store_model(old(self)@, s as int, v),
    {
        if self.sigs[s].read_active {
            return Err(RxError::ReentrantMutation);
        }
        let has_subs = self.sigs[s].subs.len() > 0;
        if has_subs {
            let snap = copy_ids(&self.sigs[s].subs);
            self.frames.push(FrameRec { comps: snap, next: 0 });
        }
        let rec = &mut self.sigs[s];
        rec.value = v;
        proof {
            vstd::std_specs::vec::axiom_spec_len(&self.frames);
            let m0 = old(self)@;
            let m1 = store_model(m0, s as int, v);
            assert(self@.sigs =~= m1.sigs);
            assert(self@.frames =~= m1.frames);
            assert(self@ =~= m1);
            assert forall|t: int| 0 <= t < m1.sigs.len() implies #[trigger] sig_ok(m1, t) by {
                assert(sig_ok(m0, t));
            }
            assert forall|c: int| 0 <= c < m1.comps.len() implies #[trigger] comp_ok(m1, c) by {
                assert(comp_ok(m0, c));
            }
            assert forall|t: int, c: int|
                0 <= t < m1.sigs.len() && 0 <= c < m1.comps.len() implies #[trigger] coherent_at(
                m1,
                t,
                c,
            ) by {
                assert(coherent_at(m0, t, c));
            }
            assert forall|x: int| 0 <= x < m1.scopes.len() implies #[trigger] scope_ok(m1, x) by {
                assert(scope_ok(m0, x));
            }
            assert forall|f: int| 0 <= f < m1.frames.len() implies #[trigger] frame_ok(m1, f) by {
                if f < m0.frames.len() {
                    assert(frame_ok(m0, f));
                } else {
                    assert(sig_ok(m0, s as int));
                }
            }
        }
        Ok(())
    }

    /// Registers cell `s` as a dependency of the computation that is
    /// currently running, if any, and marks the read as in progress.
    pub(crate) fn raw_track(&mut self, s: usize)
        requires
            old(self).inv(),
            (s as int) < old(self)@.sigs.len(),
        ensures
            final(self).inv(),
            final(self)@ == track_model(old(self)@, s as int),
    {
        if self.stack.len() == 0 {
            return ;
        }
        let c = self.stack[0];
        let mut found = false;
        let n: usize = self.comps[c].deps.len();
        let mut i: usize = 0;
        while i < n
            invariant
                (c as int) < self@.comps.len(),
                n == self@.comps[c as int].deps.len(),
                i <= n,
                found == exists|k: int| 0 <= k < i && self@.comps[c as int].deps[k] == s,
            decreases n - i,
        {
            if self.comps[c].deps[i] == s {
                found = true;
            }
            i = i + 1;
        }
        proof {
            assert(found == self@.comps[c as int].deps.contains(s));
        }
        if !found {
            let crec = &mut self.comps[c];
            crec.deps.push(s);
        }
        let rec = &mut self.sigs[s];
        rec.read_active = true;
        proof {
            let m0 = old(self)@;
            let m1 = track_model(m0, s as int);
            assert(self@.sigs =~= m1.sigs);
            assert(self@.comps =~= m1.comps);
            assert(self@ =~= m1);
            assert(sig_ok(m0, s as int));
            assert(comp_ok(m0, c as int));
            assert forall|t: int| 0 <= t < m1.sigs.len() implies #[trigger] sig_ok(m1, t) by {
                assert(sig_ok(m0, t));
                if m1.sigs[t].read_active {
                    let d0 = m0.comps[c as int].deps;
                    let d1 = m1.comps[c as int].deps;
                    if t == s as int {
                        if d0.contains(s) {
                            assert(d1.contains(s));
                        } else {
                            assert(d1[d0.len() as int] == s);
                            assert(d1.contains(s));
                        }
                    } else {
                        assert(m0.sigs[t].read_active);
                        assert(d0.contains(t as usize));
                        let k = d0.index_of(t as usize);
                        assert(d1[k] == t as usize);
                        assert(d1.contains(t as usize));
                    }
                }
            }
            assert forall|d: int| 0 <= d < m1.comps.len() implies #[trigger] comp_ok(m1, d) by {
                assert(comp_ok(m0, d));
                if d == c as int && !m0.comps[c as int].deps.contains(s) {
                    let dd = m1.comps[d].deps;
                    assert forall|i1: int, j1: int| 0 <= i1 < j1 < dd.len() implies dd[i1]
                        != dd[j1] by {
                        if j1 == dd.len() - 1 {
                            assert(m0.comps[d].deps.contains(dd[i1]));
                        }
                    }
                    assert(distinct_ids(dd));
                }
            }
            assert forall|t: int, d: int|
                0 <= t < m1.sigs.len() && 0 <= d < m1.comps.len() implies #[trigger] coherent_at(
                m1,
                t,
                d,
            ) by {
                assert(coherent_at(m0, t, d));
                assert(m0.stack.contains(c));
                if d == c as int {
                    assert(!m0.sigs[t].subs.contains(c));
                    if m1.comps[d].deps.contains(t as usize) {
                        assert(m1.stack.contains(c));
                    }
                }
            }
            assert forall|x: int| 0 <= x < m1.scopes.len() implies #[trigger] scope_ok(m1, x) by {
                assert(scope_ok(m0, x));
            }
            assert forall|f: int| 0 <= f < m1.frames.len() implies #[trigger] frame_ok(m1, f) by {
                assert(frame_ok(m0, f));
            }
        }
    }
}

/// Removes the (unique) occurrence of `c` from a duplicate-free list,
/// keeping the order of the rest.
fn remove_one(v: &mut Vec<usize>, c: usize)
    requires
        distinct_ids(old(v)@),
    ensures
        final(v)@ == remove_id(old(v)@, c),
{
    let n: usize = v.len();
    let mut i: usize = 0;
    let mut at: Option<usize> = None;
    while i < n
        invariant
            n == v@.len(),
            i <= n,
            match at {
                Some(k) => k < i && v@[k as int] == c,
                None => forall|j: int| 0 <= j < i ==> v@[j] != c,
            },
        decreases n - i,
    {
        if v[i] == c {
            if at.is_none() {
                at = Some(i);
            }
        }
        i = i + 1;
    }
    match at {
        None => {
            proof {
                if old(v)@.contains(c) {
                    let j = old(v)@.index_of(c);
                    assert(old(v)@[j] == c);
                    assert(false);
                }
            }
        },
        Some(k) => {
            proof {
                assert(old(v)@.contains(c));
                let j = old(v)@.index_of(c);
                assert(old(v)@[j] == c);
                if j != k as int {
                    assert(old(v)@[k as int] == old(v)@[j]);
                    assert(false);
                }
            }
            v.remove(k);
        },
    }
}

impl<V> Runtime<V> {
    /// Removes computation `c` from the subscriber list of every cell it
    /// depends on and clears its dependency record: the first half of the
    /// re-run protocol, also used when a scope retires its computations.
    fn detach_comp(&mut self, c: usize)
        requires
            old(self).inv(),
            (c as int) < old(self)@.comps.len(),
            !old(self)@.stack.contains(c),
        ensures
            final(self).inv(),
            final(self)@ == detach_model(old(self)@, c),
    {
        let ghost m0 = self@;
        let ndeps: usize = self.comps[c].deps.len();
        let mut i: usize = 0;
        proof {
            assert(comp_ok(m0, c as int));
        }
        while i < ndeps
            invariant
                inv_model(m0),
                (c as int) < m0.comps.len(),
                !m0.stack.contains(c),
                ndeps == m0.comps[c as int].deps.len(),
                i <= ndeps,
                self@.comps == m0.comps,
                self@.stack == m0.stack,
                self@.frames == m0.frames,
                self@.scopes == m0.scopes,
                self@.sigs.len() == m0.sigs.len(),
                forall|s: int|
                    0 <= s < m0.sigs.len() ==> {
                        &&& (#[trigger] self@.sigs[s]).value == m0.sigs[s].value
                        &&& self@.sigs[s].read_active == m0.sigs[s].read_active
                        &&& self@.sigs[s].subs == (if m0.comps[c as int].deps.subrange(
                            0,
                            i as int,
                        ).contains(s as usize) {
                            remove_id(m0.sigs[s].subs, c)
                        } else {
                            m0.sigs[s].subs
                        })
                    },
            decreases ndeps - i,
        {
            let ghost prev = self@;
            let s = self.comps[c].deps[i];
            proof {
                assert(comp_ok(m0, c as int));
                assert(s == m0.comps[c as int].deps[i as int]);
                assert(m0.comps[c as int].deps[i as int] < m0.sigs.len() as int);
                assert forall|j: int|
                    0 <= j < i implies m0.comps[c as int].deps.subrange(0, i as int)[j] != s by {
                    assert(m0.comps[c as int].deps[j] != m0.comps[c as int].deps[i as int]);
                }
                if m0.comps[c as int].deps.subrange(0, i as int).contains(s) {
                    let j = m0.comps[c as int].deps.subrange(0, i as int).index_of(s);
                    assert(false);
                }
                assert(prev.sigs[s as int].subs == m0.sigs[s as int].subs);
                assert(sig_ok(m0, s as int));
            }
            let rec = &mut self.sigs[s];
            remove_one(&mut rec.subs, c);
            i = i + 1;
            proof {
                assert(self.sigs@.len() == prev.sigs.len());
                assert forall|t: int|
                    0 <= t < prev.sigs.len() && t != s as int implies self@.sigs[t] == #[trigger] prev.sigs[t] by {
                    assert(self.sigs@[t]@ == prev.sigs[t]);
                }
                assert(self@.sigs[s as int].value == prev.sigs[s as int].value);
                assert(self@.sigs[s as int].read_active == prev.sigs[s as int].read_active);
                assert(self@.sigs[s as int].subs == remove_id(prev.sigs[s as int].subs, c));
                assert(self@.comps == prev.comps) by {
                    assert(self@.comps =~= prev.comps);
                }
                assert(self@.stack =~= prev.stack);
                assert(self@.frames =~= prev.frames);
                assert(self@.scopes =~= prev.scopes);
                let pre = m0.comps[c as int].deps.subrange(0, i - 1);
                let now = m0.comps[c as int].deps.subrange(0, i as int);
                assert(now =~= pre.push(s));
                assert(now[i - 1] == s);
                assert forall|t: int|
                    0 <= t < m0.sigs.len() implies {
                    &&& (#[trigger] self@.sigs[t]).value == m0.sigs[t].value
                    &&& self@.sigs[t].read_active == m0.sigs[t].read_active
                    &&& self@.sigs[t].subs == (if m0.comps[c as int].deps.subrange(
                        0,
                        i as int,
                    ).contains(t as usize) {
                        remove_id(m0.sigs[t].subs, c)
                    } else {
                        m0.sigs[t].subs
                    })
                } by {
                    assert(prev.sigs[t].value == m0.sigs[t].value);
                    if t == s as int {
                        assert(now.contains(s));
                    } else {
                        assert(self@.sigs[t] == prev.sigs[t]);
                        assert(now.contains(t as usize) == pre.contains(t as usize)) by {
                            if now.contains(t as usize) {
                                let j = now.index_of(t as usize);
                                assert(now[j] == t as usize);
                                if j < i - 1 {
                                    assert(pre[j] == t as usize);
                                } else {
                                    assert(now[j] == s);
                                }
                            }
                            if pre.contains(t as usize) {
                                let j = pre.index_of(t as usize);
                                assert(now[j] == t as usize);
                            }
                        }
                    }
                }
            }
        }
        let crec = &mut self.comps[c];
        crec.deps.clear();
        proof {
            let m1 = detach_model(m0, c);
            assert forall|s: int| 0 <= s < m0.sigs.len() implies self@.sigs[s] =~= m1.sigs[s] by {
                assert(coherent_at(m0, s, c as int));
                if !m0.comps[c as int].deps.contains(s as usize) {
                    assert(!m0.sigs[s].subs.contains(c));
                    assert(sig_ok(m0, s as int));
                    assert(remove_id(m0.sigs[s].subs, c) == m0.sigs[s].subs);
                } else {
                    let j = m0.comps[c as int].deps.index_of(s as usize);
                    assert(m0.comps[c as int].deps.subrange(0, ndeps as int) =~= m0.comps[
                        c as int
                    ].deps);
                    assert(m0.comps[c as int].deps.subrange(0, ndeps as int).contains(s as usize));
                }
            }
            assert(self@.sigs =~= m1.sigs);
            assert(self@.comps =~= m1.comps);
            assert(self@ =~= m1);
            // the invariant survives
            assert forall|s: int| 0 <= s < m1.sigs.len() implies #[trigger] sig_ok(m1, s) by {
                assert(sig_ok(m0, s));
                lemma_remove_id(m0.sigs[s].subs, c, m0.comps.len() as int);
                if m1.sigs[s].read_active {
                    let top = m0.stack[0] as int;
                    assert(m0.comps[top].deps.contains(s as usize));
                    assert(m0.stack.contains(m0.stack[0]));
                    assert(top != c as int);
                    assert(m1.comps[top].deps.contains(s as usize));
                }
            }
            assert forall|d: int| 0 <= d < m1.comps.len() implies #[trigger] comp_ok(m1, d) by {
                assert(comp_ok(m0, d));
            }
            assert forall|s: int, d: int|
                0 <= s < m1.sigs.len() && 0 <= d < m1.comps.len() implies #[trigger] coherent_at(
                m1,
                s,
                d,
            ) by {
                assert(coherent_at(m0, s, d));
                assert(sig_ok(m0, s));
                lemma_remove_id(m0.sigs[s].subs, c, m0.comps.len() as int);
                assert(m1.sigs[s].subs == remove_id(m0.sigs[s].subs, c));
                assert(m1.stack == m0.stack);
                if d == c as int {
                    assert(!m1.sigs[s].subs.contains(c));
                    assert(m1.comps[d].deps == Seq::<usize>::empty());
                    if m1.comps[d].deps.contains(s as usize) {
                        let j = choose|j: int|
                            0 <= j < m1.comps[d].deps.len() && m1.comps[d].deps[j] == s as usize;
                        assert(false);
                    }
                } else {
                    assert((d as usize) != c);
                    assert(m1.sigs[s].subs.contains(d as usize) == m0.sigs[s].subs.contains(
                        d as usize,
                    ));
                    assert(m1.comps[d] == m0.comps[d]);
                }
            }
            assert forall|x: int| 0 <= x < m1.scopes.len() implies #[trigger] scope_ok(m1, x) by {
                assert(scope_ok(m0, x));
            }
            assert forall|f: int| 0 <= f < m1.frames.len() implies #[trigger] frame_ok(m1, f) by {
                assert(frame_ok(m0, f));
            }
        }
    }

    /// Starts a run of computation `c`: unsubscribe from all previously
    /// recorded dependencies, clear the record, push it on the context stack.
    pub(crate) fn begin_run(&mut self, c: usize)
        requires
            old(self).inv(),
            old(self)@.stack.len() == 0,
            (c as int) < old(self)@.comps.len(),
        ensures
            final(self).inv(),
            final(self)@ == begin_run_model(old(self)@, c),
    {
        proof {
            if old(self)@.stack.contains(c) {
                let j = old(self)@.stack.index_of(c);
                assert(false);
            }
        }
        self.detach_comp(c);
        let ghost m1 = self@;
        self.stack.push(c);
        proof {
            let m2 = begin_run_model(old(self)@, c);
            assert(self@.stack =~= m2.stack);
            assert(self@ =~= m2);
            assert forall|s: int| 0 <= s < m2.sigs.len() implies #[trigger] sig_ok(m2, s) by {
                assert(sig_ok(m1, s));
                assert(!m1.sigs[s].read_active);
            }
            assert forall|d: int| 0 <= d < m2.comps.len() implies #[trigger] comp_ok(m2, d) by {
                assert(comp_ok(m1, d));
            }
            assert forall|s: int, d: int|
                0 <= s < m2.sigs.len() && 0 <= d < m2.comps.len() implies #[trigger] coherent_at(
                m2,
                s,
                d,
            ) by {
                assert(coherent_at(m1, s, d));
                assert(sig_ok(m1, s));
                assert(sig_ok(old(self)@, s));
                lemma_remove_id(old(self)@.sigs[s].subs, c, old(self)@.comps.len() as int);
                if d == c as int {
                    assert(!m2.sigs[s].subs.contains(c));
                    assert(m2.stack.contains(c)) by {
                        assert(m2.stack[0] == c);
                    }
                } else {
                    assert((d as usize) != c);
                    assert(m2.stack.contains(d as usize) == m1.stack.contains(d as usize)) by {
                        if m2.stack.contains(d as usize) {
                            let j = choose|j: int|
                                0 <= j < m2.stack.len() && m2.stack[j] == d as usize;
                            assert(m2.stack[0] == c);
                            assert(false);
                        }
                        if m1.stack.contains(d as usize) {
                            let j = choose|j: int|
                                0 <= j < m1.stack.len() && m1.stack[j] == d as usize;
                            assert(false);
                        }
                    }
                }
            }
            assert forall|x: int| 0 <= x < m2.scopes.len() implies #[trigger] scope_ok(m2, x) by {
                assert(scope_ok(m1, x));
            }
            assert forall|f: int| 0 <= f < m2.frames.len() implies #[trigger] frame_ok(m2, f) by {
                assert(frame_ok(m1, f));
            }
        }
    }

    /// Ends a run of computation `c`: pop it from the context stack,
    /// subscribe it to every cell the run read, clear the read marks.
    pub(crate) fn end_run(&mut self, c: usize)
        requires
            old(self).inv(),
            old(self)@.stack == seq![c],
        ensures
            final(self).inv(),
            final(self)@ == end_run_model(old(self)@, c),
    {
        let ghost m0 = self@;
        proof {
            assert(m0.stack[0] == c);
            assert((c as int) < m0.comps.len()) by {
                assert(m0.stack[0] < m0.comps.len() as int);
            }
            assert(comp_ok(m0, c as int));
            assert(m0.stack.contains(c));
        }
        self.stack.pop();
        let ndeps: usize = self.comps[c].deps.len();
        let mut i: usize = 0;
        proof {
            assert(self@.stack =~= m0.stack.drop_last());
        }
        while i < ndeps
            invariant
                inv_model(m0),
                m0.stack == seq![c],
                (c as int) < m0.comps.len(),
                ndeps == m0.comps[c as int].deps.len(),
                i <= ndeps,
                self@.comps == m0.comps,
                self@.stack == m0.stack.drop_last(),
                self@.frames == m0.frames,
                self@.scopes == m0.scopes,
                self@.sigs.len() == m0.sigs.len(),
                forall|s: int|
                    0 <= s < m0.sigs.len() ==> {
                        &&& (#[trigger] self@.sigs[s]).value == m0.sigs[s].value
                        &&& self@.sigs[s].subs == (if m0.comps[c as int].deps.subrange(
                            0,
                            i as int,
                        ).contains(s as usize) {
                            m0.sigs[s].subs.push(c)
                        } else {
                            m0.sigs[s].subs
                        })
                        &&& self@.sigs[s].read_active == (if m0.comps[c as int].deps.subrange(
                            0,
                            i as int,
                        ).contains(s as usize) {
                            false
                        } else {
                            m0.sigs[s].read_active
                        })
                    },
            decreases ndeps - i,
        {
            let ghost prev = self@;
            let s = self.comps[c].deps[i];
            proof {
                assert(comp_ok(m0, c as int));
                assert(s == m0.comps[c as int].deps[i as int]);
                assert(m0.comps[c as int].deps[i as int] < m0.sigs.len() as int);
            }
            let rec = &mut self.sigs[s];
            rec.subs.push(c);
            rec.read_active = false;
            i = i + 1;
            proof {
                assert(self.sigs@.len() == prev.sigs.len());
                assert forall|t: int|
                    0 <= t < prev.sigs.len() && t != s as int implies self@.sigs[t] == #[trigger] prev.sigs[t] by {
                    assert(self.sigs@[t]@ == prev.sigs[t]);
                }
                assert(self@.sigs[s as int].value == prev.sigs[s as int].value);
                assert(self@.sigs[s as int].read_active == false);
                assert(self@.sigs[s as int].subs == prev.sigs[s as int].subs.push(c));
                assert(self@.comps =~= prev.comps);
                assert(self@.stack =~= prev.stack);
                assert(self@.frames =~= prev.frames);
                assert(self@.scopes =~= prev.scopes);
                let pre = m0.comps[c as int].deps.subrange(0, i - 1);
                let now = m0.comps[c as int].deps.subrange(0, i as int);
                assert(now =~= pre.push(s));
                assert(s == m0.comps[c as int].deps[i - 1]);
                assert(now[i - 1] == s);
                assert forall|j: int|
                    0 <= j < i - 1 implies (#[trigger] pre[j]) != s by {
                    assert(m0.comps[c as int].deps[j] != m0.comps[c as int].deps[i - 1]);
                }
                if pre.contains(s) {
                    let j = pre.index_of(s);
                    assert(false);
                }
                assert forall|t: int|
                    0 <= t < m0.sigs.len() implies {
                    &&& (#[trigger] self@.sigs[t]).value == m0.sigs[t].value
                    &&& self@.sigs[t].subs == (if now.contains(t as usize) {
                        m0.sigs[t].subs.push(c)
                    } else {
                        m0.sigs[t].subs
                    })
                    &&& self@.sigs[t].read_active == (if now.contains(t as usize) {
                        false
                    } else {
                        m0.sigs[t].read_active
                    })
                } by {
                    assert(prev.sigs[t].value == m0.sigs[t].value);
                    if t == s as int {
                        assert(now.contains(s));
                    } else {
                        assert(self@.sigs[t] == prev.sigs[t]);
                        assert(now.contains(t as usize) == pre.contains(t as usize)) by {
                            if now.contains(t as usize) {
                                let j = now.index_of(t as usize);
                                assert(now[j] == t as usize);
                                if j < i - 1 {
                                    assert(pre[j] == t as usize);
                                } else {
                                    assert(now[j] == s);
                                }
                            }
                            if pre.contains(t as usize) {
                                let j = pre.index_of(t as usize);
                                assert(now[j] == t as usize);
                            }
                        }
                    }
                }
            }
        }
        proof {
            let m2 = end_run_model(m0, c);
            assert(m0.comps[c as int].deps.subrange(0, ndeps as int) =~= m0.comps[c as int].deps);
            assert forall|s: int| 0 <= s < m0.sigs.len() implies self@.sigs[s] =~= m2.sigs[s] by {
                assert(sig_ok(m0, s));
                if !m0.comps[c as int].deps.contains(s as usize) {
                    assert(!m0.sigs[s].read_active);
                }
            }
            assert(self@.sigs =~= m2.sigs);
            assert(self@ =~= m2);
            assert forall|s: int| 0 <= s < m2.sigs.len() implies #[trigger] sig_ok(m2, s) by {
                assert(sig_ok(m0, s));
                assert(coherent_at(m0, s, c as int));
                assert(!m0.sigs[s].subs.contains(c));
                let sub2 = m2.sigs[s].subs;
                if m0.comps[c as int].deps.contains(s as usize) {
                    assert(sub2 == m0.sigs[s].subs.push(c));
                    assert forall|i1: int, j1: int| 0 <= i1 < j1 < sub2.len() implies sub2[i1]
                        != sub2[j1] by {
                        if j1 == sub2.len() - 1 {
                            assert(m0.sigs[s].subs.contains(sub2[i1])) by {
                                assert(m0.sigs[s].subs[i1] == sub2[i1]);
                            }
                        }
                    }
                    assert(distinct_ids(sub2));
                    assert forall|i1: int| 0 <= i1 < sub2.len() implies (#[trigger] sub2[i1])
                        < m2.comps.len() as int by {
                        if i1 < sub2.len() - 1 {
                            assert(sub2[i1] == m0.sigs[s].subs[i1]);
                        }
                    }
                }
            }
            assert forall|d: int| 0 <= d < m2.comps.len() implies #[trigger] comp_ok(m2, d) by {
                assert(comp_ok(m0, d));
            }
            assert forall|s: int, d: int|
                0 <= s < m2.sigs.len() && 0 <= d < m2.comps.len() implies #[trigger] coherent_at(
                m2,
                s,
                d,
            ) by {
                assert(coherent_at(m0, s, d));
                assert(sig_ok(m0, s));
                assert(m2.stack.len() == 0);
                assert(!m2.stack.contains(d as usize)) by {
                    if m2.stack.contains(d as usize) {
                        let j = choose|j: int|
                            0 <= j < m2.stack.len() && m2.stack[j] == d as usize;
                        assert(false);
                    }
                }
                if d == c as int {
                    if m0.comps[c as int].deps.contains(s as usize) {
                        assert(m2.sigs[s].subs[m2.sigs[s].subs.len() - 1] == c);
                        assert(m2.sigs[s].subs.contains(c));
                    } else {
                        assert(!m0.sigs[s].subs.contains(c));
                        assert(m2.sigs[s].subs == m0.sigs[s].subs);
                    }
                } else {
                    assert(!m0.stack.contains(d as usize)) by {
                        if m0.stack.contains(d as usize) {
                            let j = choose|j: int|
                                0 <= j < m0.stack.len() && m0.stack[j] == d as usize;
                            assert(m0.stack[j] == c);
                            assert(false);
                        }
                    }
                    assert(m2.sigs[s].subs.contains(d as usize) == m0.sigs[s].subs.contains(
                        d as usize,
                    )) by {
                        let sub0 = m0.sigs[s].subs;
                        if m0.comps[c as int].deps.contains(s as usize) {
                            assert(m2.sigs[s].subs == sub0.push(c));
                            if sub0.contains(d as usize) {
                                let j = sub0.index_of(d as usize);
                                assert(m2.sigs[s].subs[j] == d as usize);
                            }
                            if m2.sigs[s].subs.contains(d as usize) {
                                let j = m2.sigs[s].subs.index_of(d as usize);
                                if j < sub0.len() {
                                    assert(sub0[j] == d as usize);
                                } else {
                                    assert(m2.sigs[s].subs[j] == c);
                                }
                            }
                        }
                    }
                }
            }
            assert forall|x: int| 0 <= x < m2.scopes.len() implies #[trigger] scope_ok(m2, x) by {
                assert(scope_ok(m0, x));
            }
            assert forall|f: int| 0 <= f < m2.frames.len() implies #[trigger] frame_ok(m2, f) by {
                assert(frame_ok(m0, f));
            }
        }
    }
}

/// `x` lies in the subtree of disposal scope `root`: it is `root` itself or
/// its chain of parents passes through `root`.
pub open spec fn scope_within<V>(m: Model<V>, x: int, root: int) -> bool
    decreases x,
{
    if x == root {
        true
    } else if 0 <= x < m.scopes.len() {
        match m.scopes[x].parent {
            Some(p) => {
                if (p as int) < x {
                    scope_within(m, p as int, root)
                } else {
                    false
                }
            },
            None => false,
        }
    } else {
        false
    }
}

/// Computation `c` is owned by some scope in the subtree of `root`.
pub open spec fn retired_by<V>(m: Model<V>, root: int, c: usize) -> bool {
    exists|x: int|
        0 <= x < m.scopes.len() && #[trigger] scope_within(m, x, root) && m.scopes[x].comps.contains(
            c,
        )
}

/// Scope containment only looks at the parent chain, so it is stable under
/// every change that keeps the parents.
pub proof fn lemma_scope_within_stable<V, W>(m1: Model<V>, m2: Model<W>, x: int, root: int)
    requires
        m1.scopes.len() == m2.scopes.len(),
        forall|y: int|
            0 <= y < m1.scopes.len() ==> (#[trigger] m2.scopes[y]).parent == m1.scopes[y].parent,
    ensures
        scope_within(m1, x, root) == scope_within(m2, x, root),
    decreases x,
{
    if x != root && 0 <= x < m1.scopes.len() {
        match m1.scopes[x].parent {
            Some(p) => {
                if (p as int) < x {
                    lemma_scope_within_stable(m1, m2, p as int, root);
                }
            },
            None => {},
        }
    }
}

/// A scope inside the subtree of `root` was created no earlier than `root`.
pub proof fn lemma_scope_within_ge<V>(m: Model<V>, x: int, root: int)
    requires
        scope_within(m, x, root),
    ensures
        x >= root,
    decreases x,
{
    if x != root && 0 <= x < m.scopes.len() {
        match m.scopes[x].parent {
            Some(p) => {
                if (p as int) < x {
                    lemma_scope_within_ge(m, p as int, root);
                }
            },
            None => {},
        }
    }
}

/// One step of working off the pending notification frames.
pub(crate) enum PendStep {
    /// Nothing is pending.
    Idle,
    /// Bookkeeping only (an exhausted frame was dropped, or a dead or
    /// skipped entry was passed over); ask again.
    Skip,
    /// This computation is next: re-run it.
    Run(usize),
}

impl<V> Runtime<V> {
    /// Allocates a computation record with no dependencies and no output
    /// cell yet.
    pub(crate) fn new_comp(&mut self, rule: NotifyRule, slot: usize) -> (c: usize)
        requires
            old(self).inv(),
        ensures
            final(self).inv(),
            c == old(self)@.comps.len(),
            final(self)@ == (Model {
                comps: old(self)@.comps.push(
                    CompModel { deps: Seq::empty(), out: None, rule, slot, alive: true },
                ),
                ..old(self)@
            }),
    {
        let c = self.comps.len();
        self.comps.push(CompRec { deps: Vec::new(), out: None, rule, slot, alive: true });
        proof {
            vstd::std_specs::vec::axiom_spec_len(&self.comps);
            let m0 = old(self)@;
            let m1 = self@;
            assert(m1.comps =~= m0.comps.push(
                CompModel { deps: Seq::empty(), out: None, rule, slot, alive: true },
            ));
            assert(m1 =~= (Model {
                comps: m0.comps.push(
                    CompModel { deps: Seq::empty(), out: None, rule, slot, alive: true },
                ),
                ..m0
            }));
            assert forall|s: int| 0 <= s < m1.sigs.len() implies #[trigger] sig_ok(m1, s) by {
                assert(sig_ok(m0, s));
            }
            assert forall|d: int| 0 <= d < m1.comps.len() implies #[trigger] comp_ok(m1, d) by {
                if d < m0.comps.len() {
                    assert(comp_ok(m0, d));
                }
            }
            assert forall|s: int, d: int|
                0 <= s < m1.sigs.len() && 0 <= d < m1.comps.len() implies #[trigger] coherent_at(
                m1,
                s,
                d,
            ) by {
                if d < m0.comps.len() {
                    assert(coherent_at(m0, s, d));
                } else {
                    assert(sig_ok(m0, s));
                    if m1.sigs[s].subs.contains(d as usize) {
                        let j = choose|j: int|
                            0 <= j < m1.sigs[s].subs.len() && m1.sigs[s].subs[j] == d as usize;
                        assert(m0.sigs[s].subs[j] < m0.comps.len() as int);
                        assert(false);
                    }
                    assert(m1.comps[d].deps == Seq::<usize>::empty());
                    if m1.comps[d].deps.contains(s as usize) {
                        let j = choose|j: int|
                            0 <= j < m1.comps[d].deps.len() && m1.comps[d].deps[j] == s as usize;
                        assert(false);
                    }
                }
            }
            assert forall|x: int| 0 <= x < m1.scopes.len() implies #[trigger] scope_ok(m1, x) by {
                assert(scope_ok(m0, x));
            }
            assert forall|f: int| 0 <= f < m1.frames.len() implies #[trigger] frame_ok(m1, f) by {
                assert(frame_ok(m0, f));
            }
        }
        c
    }

    /// Points computation `c` at its output cell.
    pub(crate) fn set_comp_out(&mut self, c: usize, o: usize)
        requires
            old(self).inv(),
            (c as int) < old(self)@.comps.len(),
            (o as int) < old(self)@.sigs.len(),
        ensures
            final(self).inv(),
            final(self)@ == (Model {
                comps: old(self)@.comps.update(
                    c as int,
                    CompModel { out: Some(o), ..old(self)@.comps[c as int] },
                ),
                ..old(self)@
            }),
    {
        let crec = &mut self.comps[c];
        crec.out = Some(o);
        proof {
            let m0 = old(self)@;
            let m1 = self@;
            assert(m1.comps =~= m0.comps.update(
                c as int,
                CompModel { out: Some(o), ..m0.comps[c as int] },
            ));
            assert(m1 =~= (Model {
                comps: m0.comps.update(c as int, CompModel { out: Some(o), ..m0.comps[c as int] }),
                ..m0
            }));
            assert forall|s: int| 0 <= s < m1.sigs.len() implies #[trigger] sig_ok(m1, s) by {
                assert(sig_ok(m0, s));
            }
            assert forall|d: int| 0 <= d < m1.comps.len() implies #[trigger] comp_ok(m1, d) by {
                assert(comp_ok(m0, d));
            }
            assert forall|s: int, d: int|
                0 <= s < m1.sigs.len() && 0 <= d < m1.comps.len() implies #[trigger] coherent_at(
                m1,
                s,
                d,
            ) by {
                assert(coherent_at(m0, s, d));
            }
            assert forall|x: int| 0 <= x < m1.scopes.len() implies #[trigger] scope_ok(m1, x) by {
                assert(scope_ok(m0, x));
            }
            assert forall|f: int| 0 <= f < m1.frames.len() implies #[trigger] frame_ok(m1, f) by {
                assert(frame_ok(m0, f));
            }
        }
    }

    /// The derivation slot recorded for computation `c`.
    pub(crate) fn comp_slot(&self, c: usize) -> (r: usize)
        requires
            (c as int) < self@.comps.len(),
        ensures
            r == self@.comps[c as int].slot,
    {
        self.comps[c].slot
    }

    /// Advances the pending-notification cursor by one step, deepest frame
    /// first.  Only the frames change: an exhausted deepest frame is dropped,
    /// a dead entry is passed over, and otherwise the cursor's entry of the
    /// deepest frame is handed out as `Run` with the cursor moved past it —
    /// so every snapshot entry is handed out at most once, in snapshot order.
    pub(crate) fn pending_step(&mut self) -> (r: PendStep)
        requires
            old(self).inv(),
        ensures
            final(self).inv(),
            final(self)@.sigs == old(self)@.sigs,
            final(self)@.comps == old(self)@.comps,
            final(self)@.stack == old(self)@.stack,
            final(self)@.scopes == old(self)@.scopes,
            r is Idle ==> final(self)@ == old(self)@ && old(self)@.frames.len() == 0,
            old(self)@.frames.len() == 0 ==> r is Idle,
            old(self)@.frames.len() > 0 ==> ({
                let top = old(self)@.frames.len() - 1;
                let fr = old(self)@.frames[top];
                if fr.next == fr.comps.len() {
                    r is Skip && final(self)@.frames == old(self)@.frames.drop_last()
                } else {
                    let c = fr.comps[fr.next];
                    &&& final(self)@.frames == old(self)@.frames.update(
                        top,
                        FrameModel { next: fr.next + 1, ..fr },
                    )
                    &&& (old(self)@.comps[c as int].alive ==> r == PendStep::Run(c))
                    &&& (!old(self)@.comps[c as int].alive ==> r is Skip)
                }
            }),
            r matches PendStep::Run(c) ==> (c as int) < final(self)@.comps.len()
                && final(self)@.comps[c as int].alive,
    {
        let nf = self.frames.len();
        if nf == 0 {
            return PendStep::Idle;
        }
        let top = nf - 1;
        proof {
            assert(frame_ok(self@, top as int));
        }
        let fnext = self.frames[top].next;
        let flen = self.frames[top].comps.len();
        if fnext >= flen {
            self.frames.pop();
            proof {
                let m0 = old(self)@;
                let m1 = self@;
                assert(m1.frames =~= m0.frames.drop_last());
                assert(m1 =~= (Model { frames: m0.frames.drop_last(), ..m0 }));
                assert forall|s: int| 0 <= s < m1.sigs.len() implies #[trigger] sig_ok(m1, s) by {
                    assert(sig_ok(m0, s));
                }
                assert forall|d: int| 0 <= d < m1.comps.len() implies #[trigger] comp_ok(
                    m1,
                    d,
                ) by {
                    assert(comp_ok(m0, d));
                }
                assert forall|s: int, d: int|
                    0 <= s < m1.sigs.len() && 0 <= d
                        < m1.comps.len() implies #[trigger] coherent_at(m1, s, d) by {
                    assert(coherent_at(m0, s, d));
                }
                assert forall|x: int| 0 <= x < m1.scopes.len() implies #[trigger] scope_ok(
                    m1,
                    x,
                ) by {
                    assert(scope_ok(m0, x));
                }
                assert forall|f: int| 0 <= f < m1.frames.len() implies #[trigger] frame_ok(
                    m1,
                    f,
                ) by {
                    assert(frame_ok(m0, f));
                    assert(m1.frames[f] == m0.frames[f]);
                }
            }
            return PendStep::Skip;
        }
        let c = self.frames[top].comps[fnext];
        let frec = &mut self.frames[top];
        frec.next = fnext + 1;
        proof {
            let m0 = old(self)@;
            let m1 = self@;
            assert(m0.frames[top as int].comps[fnext as int] < m0.comps.len() as int);
            assert(m1.frames =~= m0.frames.update(
                top as int,
                FrameModel { next: fnext + 1 as int, ..m0.frames[top as int] },
            ));
            assert forall|s: int| 0 <= s < m1.sigs.len() implies #[trigger] sig_ok(m1, s) by {
                assert(sig_ok(m0, s));
            }
            assert forall|d: int| 0 <= d < m1.comps.len() implies #[trigger] comp_ok(m1, d) by {
                assert(comp_ok(m0, d));
            }
            assert forall|s: int, d: int|
                0 <= s < m1.sigs.len() && 0 <= d < m1.comps.len() implies #[trigger] coherent_at(
                m1,
                s,
                d,
            ) by {
                assert(coherent_at(m0, s, d));
            }
            assert forall|x: int| 0 <= x < m1.scopes.len() implies #[trigger] scope_ok(m1, x) by {
                assert(scope_ok(m0, x));
            }
            assert forall|f: int| 0 <= f < m1.frames.len() implies #[trigger] frame_ok(m1, f) by {
                assert(frame_ok(m0, f));
            }
        }
        if !self.comps[c].alive {
            return PendStep::Skip;
        }
        PendStep::Run(c)
    }

    /// Allocates a fresh scope, as a child of `parent` when one is given.
    pub fn new_scope(&mut self, parent: Option<usize>) -> (x: usize)
        requires
            old(self).inv(),
            parent matches Some(p) ==> (p as int) < old(self)@.scopes.len(),
        ensures
            final(self).inv(),
            x == old(self)@.scopes.len(),
            final(self)@ == (Model {
                scopes: old(self)@.scopes.push(
                    ScopeModel { parent, comps: Seq::empty(), alive: true },
                ),
                ..old(self)@
            }),
    {
        let x = self.scopes.len();
        self.scopes.push(ScopeRec { parent, comps: Vec::new(), alive: true });
        proof {
            vstd::std_specs::vec::axiom_spec_len(&self.scopes);
            let m0 = old(self)@;
            let m1 = self@;
            assert(m1.scopes =~= m0.scopes.push(
                ScopeModel { parent, comps: Seq::empty(), alive: true },
            ));
            assert(m1 =~= (Model {
                scopes: m0.scopes.push(ScopeModel { parent, comps: Seq::empty(), alive: true }),
                ..m0
            }));
            assert forall|s: int| 0 <= s < m1.sigs.len() implies #[trigger] sig_ok(m1, s) by {
                assert(sig_ok(m0, s));
            }
            assert forall|d: int| 0 <= d < m1.comps.len() implies #[trigger] comp_ok(m1, d) by {
                assert(comp_ok(m0, d));
            }
            assert forall|s: int, d: int|
                0 <= s < m1.sigs.len() && 0 <= d < m1.comps.len() implies #[trigger] coherent_at(
                m1,
                s,
                d,
            ) by {
                assert(coherent_at(m0, s, d));
            }
            assert forall|y: int| 0 <= y < m1.scopes.len() implies #[trigger] scope_ok(m1, y) by {
                if y < m0.scopes.len() {
                    assert(scope_ok(m0, y));
                } else {
                    assert(m1.scopes[y].comps == Seq::<usize>::empty());
                }
            }
            assert forall|f: int| 0 <= f < m1.frames.len() implies #[trigger] frame_ok(m1, f) by {
                assert(frame_ok(m0, f));
            }
        }
        x
    }

    /// Records computation `c` as owned by scope `x`.
    pub(crate) fn scope_add_comp(&mut self, x: usize, c: usize)
        requires
            old(self).inv(),
            (x as int) < old(self)@.scopes.len(),
            (c as int) < old(self)@.comps.len(),
        ensures
            final(self).inv(),
            final(self)@ == (Model {
                scopes: old(self)@.scopes.update(
                    x as int,
                    ScopeModel {
                        comps: old(self)@.scopes[x as int].comps.push(c),
                        ..old(self)@.scopes[x as int]
                    },
                ),
                ..old(self)@
            }),
    {
        let xr = &mut self.scopes[x];
        xr.comps.push(c);
        proof {
            let m0 = old(self)@;
            let m1 = self@;
            assert(m1.scopes =~= m0.scopes.update(
                x as int,
                ScopeModel { comps: m0.scopes[x as int].comps.push(c), ..m0.scopes[x as int] },
            ));
            assert(m1 =~= (Model {
                scopes: m0.scopes.update(
                    x as int,
                    ScopeModel { comps: m0.scopes[x as int].comps.push(c), ..m0.scopes[x as int] },
                ),
                ..m0
            }));
            assert forall|s: int| 0 <= s < m1.sigs.len() implies #[trigger] sig_ok(m1, s) by {
                assert(sig_ok(m0, s));
            }
            assert forall|d: int| 0 <= d < m1.comps.len() implies #[trigger] comp_ok(m1, d) by {
                assert(comp_ok(m0, d));
            }
            assert forall|s: int, d: int|
                0 <= s < m1.sigs.len() && 0 <= d < m1.comps.len() implies #[trigger] coherent_at(
                m1,
                s,
                d,
            ) by {
                assert(coherent_at(m0, s, d));
            }
            assert forall|y: int| 0 <= y < m1.scopes.len() implies #[trigger] scope_ok(m1, y) by {
                assert(scope_ok(m0, y));
                if y == x as int {
                    let cc = m1.scopes[y].comps;
                    assert forall|j: int| 0 <= j < cc.len() implies (#[trigger] cc[j])
                        < m1.comps.len() as int by {
                        if j < cc.len() - 1 {
                            assert(m0.scopes[y].comps[j] == cc[j]);
                        }
                    }
                }
            }
            assert forall|f: int| 0 <= f < m1.frames.len() implies #[trigger] frame_ok(m1, f) by {
                assert(frame_ok(m0, f));
            }
        }
    }

    /// Detaches computation `c` and marks it dead: scope disposal uses this
    /// for every owned computation.
    pub(crate) fn retire_comp(&mut self, c: usize)
        requires
            old(self).inv(),
            (c as int) < old(self)@.comps.len(),
            !old(self)@.stack.contains(c),
        ensures
            final(self).inv(),
            final(self)@ == retire_model(old(self)@, c),
    {
        self.detach_comp(c);
        let ghost m1 = self@;
        let crec = &mut self.comps[c];
        crec.alive = false;
        proof {
            let m2 = retire_model(old(self)@, c);
            assert(self@.comps =~= m2.comps);
            assert(self@ =~= m2);
            assert forall|s: int| 0 <= s < m2.sigs.len() implies #[trigger] sig_ok(m2, s) by {
                assert(sig_ok(m1, s));
            }
            assert forall|d: int| 0 <= d < m2.comps.len() implies #[trigger] comp_ok(m2, d) by {
                assert(comp_ok(m1, d));
            }
            assert forall|s: int, d: int|
                0 <= s < m2.sigs.len() && 0 <= d < m2.comps.len() implies #[trigger] coherent_at(
                m2,
                s,
                d,
            ) by {
                assert(coherent_at(m1, s, d));
            }
            assert forall|x: int| 0 <= x < m2.scopes.len() implies #[trigger] scope_ok(m2, x) by {
                assert(scope_ok(m1, x));
            }
            assert forall|f: int| 0 <= f < m2.frames.len() implies #[trigger] frame_ok(m2, f) by {
                assert(frame_ok(m1, f));
            }
        }
    }

    /// Disposes, one by one, the scope of every position whose `used` mark
    /// is clear.  Beyond the per-scope effects, the whole sweep keeps every
    /// value, read mark, frame and the stack; each computation record is
    /// either untouched or retired; and a computation keeps exactly its old
    /// subscriptions unless it was retired, in which case it has none.
    pub(crate) fn dispose_unused(&mut self, scopes: &Vec<usize>, used: &Vec<bool>)
        requires
            old(self).inv(),
            scopes@.len() == used@.len(),
            ids_below(scopes@, old(self)@.scopes.len() as int),
        ensures
            final(self).inv(),
            final(self)@.stack == old(self)@.stack,
            final(self)@.frames == old(self)@.frames,
            final(self)@.sigs.len() == old(self)@.sigs.len(),
            final(self)@.comps.len() == old(self)@.comps.len(),
            final(self)@.scopes.len() == old(self)@.scopes.len(),
            forall|s: int|
                0 <= s < old(self)@.sigs.len() ==> (#[trigger] final(self)@.sigs[s]).value == old(
                    self,
                )@.sigs[s].value && final(self)@.sigs[s].read_active == old(
                    self,
                )@.sigs[s].read_active,
            (forall|jj: int| 0 <= jj < used@.len() ==> #[trigger] used@[jj]) ==> final(self)@.scopes
                == old(self)@.scopes,
            forall|jj: int|
                0 <= jj < used@.len() && !(#[trigger] used@[jj]) ==> !final(self)@.scopes[
                    scopes@[jj] as int
                ].alive,
            forall|d: int|
                0 <= d < old(self)@.comps.len() ==> ((#[trigger] final(self)@.comps[d]) == old(
                    self,
                )@.comps[d] || final(self)@.comps[d] == (CompModel {
                    deps: Seq::<usize>::empty(),
                    alive: false,
                    ..old(self)@.comps[d]
                })),
            forall|s: int, d: int|
                0 <= s < old(self)@.sigs.len() && 0 <= d < old(self)@.comps.len()
                    ==> #[trigger] final(self)@.sigs[s].subs.contains(d as usize) == (old(
                    self,
                )@.sigs[s].subs.contains(d as usize) && final(self)@.comps[d] == old(
                    self,
                )@.comps[d]),
    {
        let ghost m = self@;
        let n: usize = scopes.len();
        let mut jd: usize = 0;
        while jd < n
            invariant
                self.inv(),
                inv_model(m),
                jd <= n,
                n == scopes@.len(),
                n == used@.len(),
                ids_below(scopes@, m.scopes.len() as int),
                self@.stack == m.stack,
                self@.frames == m.frames,
                self@.sigs.len() == m.sigs.len(),
                self@.comps.len() == m.comps.len(),
                self@.scopes.len() == m.scopes.len(),
                forall|s: int|
                    0 <= s < m.sigs.len() ==> (#[trigger] self@.sigs[s]).value == m.sigs[s].value
                        && self@.sigs[s].read_active == m.sigs[s].read_active,
                (forall|jj: int| 0 <= jj < n ==> #[trigger] used@[jj]) ==> self@.scopes == m.scopes,
                forall|jj: int|
                    0 <= jj < jd && !(#[trigger] used@[jj]) ==> !self@.scopes[
                        scopes@[jj] as int
                    ].alive,
                forall|d: int|
                    0 <= d < m.comps.len() ==> ((#[trigger] self@.comps[d]) == m.comps[d]
                        || self@.comps[d] == (CompModel {
                        deps: Seq::<usize>::empty(),
                        alive: false,
                        ..m.comps[d]
                    })),
                forall|s: int, d: int|
                    0 <= s < m.sigs.len() && 0 <= d < m.comps.len()
                        ==> #[trigger] self@.sigs[s].subs.contains(d as usize) == (m.sigs[
                        s
                    ].subs.contains(d as usize) && self@.comps[d] == m.comps[d]),
            decreases n - jd,
        {
            if !used[jd] {
                let ghost prev = self@;
                let root = scopes[jd];
                self.dispose_scope(root);
                proof {
                    assert(!(forall|jj: int| 0 <= jj < n ==> #[trigger] used@[jj])) by {
                        assert(!used@[jd as int]);
                    }
                    assert(scope_within(self@, scopes@[jd as int] as int, root as int));
                    // the record sweep composes
                    assert forall|d: int|
                        0 <= d < m.comps.len() implies ((#[trigger] self@.comps[d]) == m.comps[d]
                        || self@.comps[d] == (CompModel {
                        deps: Seq::<usize>::empty(),
                        alive: false,
                        ..m.comps[d]
                    })) by {
                        if retired_by(prev, root as int, d as usize) && !prev.stack.contains(
                            d as usize,
                        ) {
                            assert(self@.comps[d] == (CompModel {
                                deps: Seq::<usize>::empty(),
                                alive: false,
                                ..prev.comps[d]
                            }));
                            if prev.comps[d] == m.comps[d] {
                            } else {
                                assert(prev.comps[d] == (CompModel {
                                    deps: Seq::<usize>::empty(),
                                    alive: false,
                                    ..m.comps[d]
                                }));
                                assert(self@.comps[d] =~= (CompModel {
                                    deps: Seq::<usize>::empty(),
                                    alive: false,
                                    ..m.comps[d]
                                }));
                            }
                        } else {
                            assert(self@.comps[d] == prev.comps[d]);
                        }
                    }
                    // the subscription sweep composes
                    assert forall|s: int, d: int|
                        0 <= s < m.sigs.len() && 0 <= d
                            < m.comps.len() implies #[trigger] self@.sigs[s].subs.contains(
                        d as usize,
                    ) == (m.sigs[s].subs.contains(d as usize) && self@.comps[d] == m.comps[d]) by {
                        assert(prev.sigs[s].subs.contains(d as usize) == (m.sigs[s].subs.contains(
                            d as usize,
                        ) && prev.comps[d] == m.comps[d]));
                        if retired_by(prev, root as int, d as usize) && !prev.stack.contains(
                            d as usize,
                        ) {
                            assert(!self@.sigs[s].subs.contains(d as usize));
                            if self@.comps[d] == m.comps[d] {
                                // then the retired record already looked retired in `m`
                                assert(m.comps[d].deps =~= Seq::<usize>::empty());
                                assert(coherent_at(m, s, d));
                                if m.comps[d].deps.contains(s as usize) {
                                    let j = choose|j: int|
                                        0 <= j < m.comps[d].deps.len() && m.comps[d].deps[j]
                                            == s as usize;
                                    assert(false);
                                }
                                assert(!m.sigs[s].subs.contains(d as usize));
                            }
                        } else {
                            assert(self@.sigs[s].subs.contains(d as usize) == prev.sigs[
                                s
                            ].subs.contains(d as usize));
                            assert(self@.comps[d] == prev.comps[d]);
                        }
                    }
                }
            }
            jd = jd + 1;
        }
    }

    /// Decides scope containment by walking the parent chain.
    fn within_check(&self, x: usize, root: usize) -> (r: bool)
        requires
            self.inv(),
            (x as int) < self@.scopes.len(),
        ensures
            r == scope_within(self@, x as int, root as int),
    {
        let mut cur = x;
        loop
            invariant
                self.inv(),
                (cur as int) < self@.scopes.len(),
                scope_within(self@, x as int, root as int) == scope_within(
                    self@,
                    cur as int,
                    root as int,
                ),
            decreases cur,
        {
            if cur == root {
                return true;
            }
            proof {
                assert(scope_ok(self@, cur as int));
            }
            match self.scopes[cur].parent {
                None => {
                    return false;
                },
                Some(p) => {
                    proof {
                        assert(self@.scopes[cur as int].parent == Some(p));
                        assert((p as int) < cur as int);
                    }
                    cur = p;
                },
            }
        }
    }
}

/// The transition of applying a recomputed derived value to the output cell
/// of computation `c`: without an output cell nothing happens; a
/// when-changed computation (a selector) whose new value equals the stored
/// one stores it without queueing a notification; everything else is a
/// plain write of the output cell.
pub open spec fn apply_result_model<V: Datum>(m: Model<V>, c: usize, v: V) -> Model<V> {
    match m.comps[c as int].out {
        None => m,
        Some(o) => {
            if m.comps[c as int].rule == NotifyRule::WhenChanged && m.sigs[o as int].value.veq(
                &v,
            ) {
                Model { sigs: m.sigs.update(o as int, SigModel { value: v, ..m.sigs[o as int] }), ..m }
            } else {
                store_model(m, o as int, v)
            }
        },
    }
}

impl<V: Datum> Runtime<V> {
    /// Applies a recomputed derived value to the output cell of computation
    /// `c`.  A memo always stores and notifies; a selector always stores but
    /// leaves its subscribers alone when the new value equals the stored one.
    pub(crate) fn apply_result(&mut self, c: usize, v: V)
        requires
            old(self).inv(),
            old(self)@.stack.len() == 0,
            (c as int) < old(self)@.comps.len(),
        ensures
            final(self).inv(),
            final(self)@.stack == old(self)@.stack,
            final(self)@ == apply_result_model(old(self)@, c, v),
    {
        let out_opt = self.comps[c].out;
        let o = match out_opt {
            None => {
                return ;
            },
            Some(o) => o,
        };
        proof {
            assert(comp_ok(self@, c as int));
        }
        let quiet = match self.comps[c].rule {
            NotifyRule::Always => false,
            NotifyRule::WhenChanged => self.sigs[o].value.eq_check(&v),
        };
        if quiet {
            let rec = &mut self.sigs[o];
            rec.value = v;
            proof {
                let m0 = old(self)@;
                let m1 = self@;
                assert(m1.sigs =~= m0.sigs.update(
                    o as int,
                    SigModel { value: v, ..m0.sigs[o as int] },
                ));
                assert(m1 =~= (Model {
                    sigs: m0.sigs.update(o as int, SigModel { value: v, ..m0.sigs[o as int] }),
                    ..m0
                }));
                assert forall|s: int| 0 <= s < m1.sigs.len() implies #[trigger] sig_ok(m1, s) by {
                    assert(sig_ok(m0, s));
                }
                assert forall|d: int| 0 <= d < m1.comps.len() implies #[trigger] comp_ok(
                    m1,
                    d,
                ) by {
                    assert(comp_ok(m0, d));
                }
                assert forall|s: int, d: int|
                    0 <= s < m1.sigs.len() && 0 <= d
                        < m1.comps.len() implies #[trigger] coherent_at(m1, s, d) by {
                    assert(coherent_at(m0, s, d));
                }
                assert forall|x: int| 0 <= x < m1.scopes.len() implies #[trigger] scope_ok(
                    m1,
                    x,
                ) by {
                    assert(scope_ok(m0, x));
                }
                assert forall|f: int| 0 <= f < m1.frames.len() implies #[trigger] frame_ok(
                    m1,
                    f,
                ) by {
                    assert(frame_ok(m0, f));
                }
            }
        } else {
            proof {
                assert(sig_ok(self@, o as int));
                assert(!self@.sigs[o as int].read_active);
            }
            let res = self.store(o, v);
            proof {
                assert(res is Ok);
            }
        }
    }
}

impl<V> Runtime<V> {
    /// Disposes the subtree of scope `root`: every scope within it stops
    /// being alive, and every computation owned by one of them is detached
    /// from all its dependencies, cleared and marked dead, so it can never be
    /// notified again.  Values, read marks, pending frames and the context
    /// stack are untouched; a computation that is currently running is left
    /// for its own run to finish.
    pub fn dispose_scope(&mut self, root: usize)
        requires
            old(self).inv(),
            (root as int) < old(self)@.scopes.len(),
        ensures
            final(self).inv(),
            final(self)@.stack == old(self)@.stack,
            final(self)@.frames == old(self)@.frames,
            final(self)@.sigs.len() == old(self)@.sigs.len(),
            final(self)@.comps.len() == old(self)@.comps.len(),
            final(self)@.scopes.len() == old(self)@.scopes.len(),
            forall|s: int|
                0 <= s < old(self)@.sigs.len() ==> (#[trigger] final(self)@.sigs[s]).value == old(
                    self,
                )@.sigs[s].value && final(self)@.sigs[s].read_active == old(
                    self,
                )@.sigs[s].read_active,
            forall|x: int|
                0 <= x < old(self)@.scopes.len() ==> {
                    &&& (#[trigger] final(self)@.scopes[x]).parent == old(self)@.scopes[x].parent
                    &&& final(self)@.scopes[x].comps == old(self)@.scopes[x].comps
                    &&& final(self)@.scopes[x].alive == (old(self)@.scopes[x].alive
                        && !scope_within(old(self)@, x, root as int))
                },
            forall|d: usize|
                (d as int) < old(self)@.comps.len() && #[trigger] retired_by(
                    old(self)@,
                    root as int,
                    d,
                ) && !old(self)@.stack.contains(d) ==> final(self)@.comps[d as int] == (CompModel {
                    deps: Seq::<usize>::empty(),
                    alive: false,
                    ..old(self)@.comps[d as int]
                }),
            forall|d: usize|
                (d as int) < old(self)@.comps.len() && !#[trigger] retired_by(
                    old(self)@,
                    root as int,
                    d,
                ) ==> final(self)@.comps[d as int] == old(self)@.comps[d as int],
            forall|d: usize|
                (d as int) < old(self)@.comps.len() && old(self)@.stack.contains(d)
                    ==> #[trigger] final(self)@.comps[d as int] == old(self)@.comps[d as int],
            forall|s: int, d: usize|
                0 <= s < old(self)@.sigs.len() && (d as int) < old(self)@.comps.len()
                    ==> #[trigger] final(self)@.sigs[s].subs.contains(d) == (old(
                    self,
                )@.sigs[s].subs.contains(d) && !(retired_by(old(self)@, root as int, d) && !old(
                    self,
                )@.stack.contains(d))),
    {
        let ghost m0 = self@;
        let nsc: usize = self.scopes.len();
        let mut victims: Vec<usize> = Vec::new();
        let mut x: usize = root;
        while x < nsc
            invariant
                inv_model(m0),
                self.inv(),
                root <= x <= nsc,
                nsc == m0.scopes.len(),
                (root as int) < m0.scopes.len(),
                self@.sigs == m0.sigs,
                self@.comps == m0.comps,
                self@.stack == m0.stack,
                self@.frames == m0.frames,
                self@.scopes.len() == m0.scopes.len(),
                forall|y: int|
                    0 <= y < m0.scopes.len() ==> {
                        &&& (#[trigger] self@.scopes[y]).parent == m0.scopes[y].parent
                        &&& self@.scopes[y].comps == m0.scopes[y].comps
                        &&& self@.scopes[y].alive == (m0.scopes[y].alive && !(root <= y < x
                            && scope_within(m0, y, root as int)))
                    },
                forall|d: usize|
                    #[trigger] victims@.contains(d) <==> exists|y: int|
                        root <= y < x && #[trigger] scope_within(m0, y, root as int)
                            && m0.scopes[y].comps.contains(d),
                ids_below(victims@, m0.comps.len() as int),
            decreases nsc - x,
        {
            let ghost vprev = victims@;
            proof {
                lemma_scope_within_stable(self@, m0, x as int, root as int);
            }
            let within = self.within_check(x, root);
            let ghost mentry = self@;
            if within {
                let xr = &mut self.scopes[x];
                xr.alive = false;
                proof {
                    assert(self@.scopes =~= mentry.scopes.update(
                        x as int,
                        ScopeModel { alive: false, ..mentry.scopes[x as int] },
                    ));
                    assert(self@ =~= (Model {
                        scopes: mentry.scopes.update(
                            x as int,
                            ScopeModel { alive: false, ..mentry.scopes[x as int] },
                        ),
                        ..mentry
                    }));
                    assert forall|s: int| 0 <= s < self@.sigs.len() implies #[trigger] sig_ok(
                        self@,
                        s,
                    ) by {
                        assert(sig_ok(mentry, s));
                    }
                    assert forall|d: int| 0 <= d < self@.comps.len() implies #[trigger] comp_ok(
                        self@,
                        d,
                    ) by {
                        assert(comp_ok(mentry, d));
                    }
                    assert forall|s: int, d: int|
                        0 <= s < self@.sigs.len() && 0 <= d
                            < self@.comps.len() implies #[trigger] coherent_at(self@, s, d) by {
                        assert(coherent_at(mentry, s, d));
                    }
                    assert forall|y: int| 0 <= y < self@.scopes.len() implies #[trigger] scope_ok(
                        self@,
                        y,
                    ) by {
                        assert(scope_ok(mentry, y));
                    }
                    assert forall|f: int| 0 <= f < self@.frames.len() implies #[trigger] frame_ok(
                        self@,
                        f,
                    ) by {
                        assert(frame_ok(mentry, f));
                    }
                }
                let nk: usize = self.scopes[x].comps.len();
                let mut k: usize = 0;
                while k < nk
                    invariant
                        inv_model(m0),
                        self.inv(),
                        root <= x < nsc,
                        nsc == m0.scopes.len(),
                        nk == m0.scopes[x as int].comps.len(),
                        k <= nk,
                        scope_within(m0, x as int, root as int),
                        self@.sigs == m0.sigs,
                        self@.comps == m0.comps,
                        self@.stack == m0.stack,
                        self@.frames == m0.frames,
                        self@.scopes.len() == m0.scopes.len(),
                        forall|y: int|
                            0 <= y < m0.scopes.len() ==> {
                                &&& (#[trigger] self@.scopes[y]).parent == m0.scopes[y].parent
                                &&& self@.scopes[y].comps == m0.scopes[y].comps
                                &&& self@.scopes[y].alive == (m0.scopes[y].alive && !((root <= y < x
                                    && scope_within(m0, y, root as int)) || y == x as int))
                            },
                        victims@ == vprev + m0.scopes[x as int].comps.subrange(0, k as int),
                        forall|d: usize|
                            #[trigger] vprev.contains(d) <==> exists|y: int|
                                root <= y < x && #[trigger] scope_within(m0, y, root as int)
                                    && m0.scopes[y].comps.contains(d),
                        ids_below(victims@, m0.comps.len() as int),
                    decreases nk - k,
                {
                    proof {
                        assert(self@.scopes[x as int] == self.scopes@[x as int]@);
                        assert(self@.scopes[x as int].comps == self.scopes@[x as int].comps@);
                    }
                    let cid = self.scopes[x].comps[k];
                    proof {
                        assert(scope_ok(m0, x as int));
                        assert(cid == m0.scopes[x as int].comps[k as int]);
                        assert(m0.scopes[x as int].comps[k as int] < m0.comps.len() as int);
                    }
                    victims.push(cid);
                    k = k + 1;
                    proof {
                        assert(victims@ =~= vprev + m0.scopes[x as int].comps.subrange(
                            0,
                            k as int,
                        ));
                    }
                }
                proof {
                    assert(m0.scopes[x as int].comps.subrange(0, nk as int) =~= m0.scopes[
                        x as int
                    ].comps);
                }
            }
            x = x + 1;
            proof {
                assert forall|d: usize| #[trigger] victims@.contains(d) <==> exists|y: int|
                    root <= y < x && #[trigger] scope_within(m0, y, root as int) && m0.scopes[
                    y
                ].comps.contains(d) by {
                    if within {
                        if victims@.contains(d) {
                            if vprev.contains(d) {
                                let y = choose|y: int|
                                    root <= y < x - 1 && #[trigger] scope_within(
                                        m0,
                                        y,
                                        root as int,
                                    ) && m0.scopes[y].comps.contains(d);
                                assert(scope_within(m0, y, root as int));
                            } else {
                                let j = choose|j: int|
                                    0 <= j < victims@.len() && victims@[j] == d;
                                assert(victims@ == vprev + m0.scopes[x - 1].comps);
                                assert(m0.scopes[x - 1].comps[j - vprev.len()] == d);
                                assert(m0.scopes[x - 1].comps.contains(d));
                                assert(scope_within(m0, x - 1, root as int));
                            }
                        } else {
                            if exists|y: int|
                                root <= y < x && #[trigger] scope_within(m0, y, root as int)
                                    && m0.scopes[y].comps.contains(d) {
                                let y = choose|y: int|
                                    root <= y < x && #[trigger] scope_within(m0, y, root as int)
                                        && m0.scopes[y].comps.contains(d);
                                if y < x - 1 {
                                    assert(vprev.contains(d));
                                    assert(vprev[vprev.index_of(d)] == d);
                                    assert(victims@ == vprev + m0.scopes[x - 1].comps);
                                    assert(victims@[vprev.index_of(d)] == d);
                                    assert(victims@.contains(d));
                                    assert(false);
                                } else {
                                    let j = m0.scopes[y].comps.index_of(d);
                                    assert(victims@ == vprev + m0.scopes[x - 1].comps);
                                    assert(victims@[vprev.len() + j] == d);
                                    assert(victims@.contains(d));
                                    assert(false);
                                }
                            }
                        }
                    } else {
                        if victims@.contains(d) {
                            let y = choose|y: int|
                                root <= y < x - 1 && #[trigger] scope_within(m0, y, root as int)
                                    && m0.scopes[y].comps.contains(d);
                            assert(scope_within(m0, y, root as int));
                        } else {
                            if exists|y: int|
                                root <= y < x && #[trigger] scope_within(m0, y, root as int)
                                    && m0.scopes[y].comps.contains(d) {
                                let y = choose|y: int|
                                    root <= y < x && #[trigger] scope_within(m0, y, root as int)
                                        && m0.scopes[y].comps.contains(d);
                                assert(y != x - 1);
                                assert(false);
                            }
                        }
                    }
                }
            }
        }
        // every collected computation leaves the graph
        let ghost mmid = self@;
        proof {
            assert forall|d: usize| #[trigger] victims@.contains(d) <==> retired_by(
                m0,
                root as int,
                d,
            ) by {
                if victims@.contains(d) {
                    let y = choose|y: int|
                        root <= y < nsc && #[trigger] scope_within(m0, y, root as int)
                            && m0.scopes[y].comps.contains(d);
                    assert(retired_by(m0, root as int, d));
                }
                if retired_by(m0, root as int, d) {
                    let y = choose|y: int|
                        0 <= y < m0.scopes.len() && #[trigger] scope_within(m0, y, root as int)
                            && m0.scopes[y].comps.contains(d);
                    lemma_scope_within_ge(m0, y, root as int);
                }
            }
        }
        let nv: usize = victims.len();
        let mut k: usize = 0;
        while k < nv
            invariant
                inv_model(m0),
                inv_model(mmid),
                self.inv(),
                nv == victims@.len(),
                k <= nv,
                ids_below(victims@, m0.comps.len() as int),
                mmid.sigs == m0.sigs,
                mmid.comps == m0.comps,
                mmid.stack == m0.stack,
                mmid.frames == m0.frames,
                self@.stack == mmid.stack,
                self@.frames == mmid.frames,
                self@.scopes == mmid.scopes,
                self@.sigs.len() == mmid.sigs.len(),
                self@.comps.len() == mmid.comps.len(),
                forall|s: int|
                    0 <= s < mmid.sigs.len() ==> (#[trigger] self@.sigs[s]).value
                        == mmid.sigs[s].value && self@.sigs[s].read_active
                        == mmid.sigs[s].read_active,
                forall|d: usize|
                    (d as int) < mmid.comps.len() ==> #[trigger] self@.comps[d as int] == (if (
                    victims@.subrange(0, k as int).contains(d) && !mmid.stack.contains(d)) {
                        CompModel { deps: Seq::empty(), alive: false, ..mmid.comps[d as int] }
                    } else {
                        mmid.comps[d as int]
                    }),
                forall|s: int, d: usize|
                    0 <= s < mmid.sigs.len() && (d as int) < mmid.comps.len()
                        ==> #[trigger] self@.sigs[s].subs.contains(d) == (mmid.sigs[s].subs.contains(
                        d,
                    ) && !(victims@.subrange(0, k as int).contains(d) && !mmid.stack.contains(d))),
            decreases nv - k,
        {
            let cid = victims[k];
            let ghost prev = self@;
            proof {
                assert(victims@[k as int] < m0.comps.len() as int);
            }
            let on_stack = if self.stack.len() > 0 {
                self.stack[0] == cid
            } else {
                false
            };
            proof {
                assert(on_stack == mmid.stack.contains(cid)) by {
                    assert(self@.stack == mmid.stack);
                    if mmid.stack.contains(cid) {
                        let j = choose|j: int|
                            0 <= j < mmid.stack.len() && mmid.stack[j] == cid;
                        assert(j == 0);
                    }
                    if mmid.stack.len() > 0 {
                        assert(mmid.stack.contains(mmid.stack[0]));
                    }
                }
            }
            if !on_stack {
                self.retire_comp(cid);
            }
            k = k + 1;
            proof {
                let vpre = victims@.subrange(0, k - 1);
                let vnow = victims@.subrange(0, k as int);
                assert(vnow =~= vpre.push(cid));
                assert(vnow[k - 1] == cid);
                assert forall|d: usize|
                    (d as int) < mmid.comps.len() implies #[trigger] self@.comps[d as int] == (if (
                vnow.contains(d) && !mmid.stack.contains(d)) {
                    CompModel { deps: Seq::empty(), alive: false, ..mmid.comps[d as int] }
                } else {
                    mmid.comps[d as int]
                }) by {
                    assert(vnow.contains(d) == (vpre.contains(d) || d == cid)) by {
                        if vnow.contains(d) {
                            let j = choose|j: int| 0 <= j < vnow.len() && vnow[j] == d;
                            if j < k - 1 {
                                assert(vpre[j] == d);
                            }
                        }
                        if vpre.contains(d) {
                            let j = choose|j: int| 0 <= j < vpre.len() && vpre[j] == d;
                            assert(vnow[j] == d);
                        }
                    }
                    if !on_stack {
                        assert(prev.comps[d as int] == (if (vpre.contains(d)
                            && !mmid.stack.contains(d)) {
                            CompModel { deps: Seq::empty(), alive: false, ..mmid.comps[d as int] }
                        } else {
                            mmid.comps[d as int]
                        }));
                    }
                }
                assert forall|s: int, d: usize|
                    0 <= s < mmid.sigs.len() && (d as int)
                        < mmid.comps.len() implies #[trigger] self@.sigs[s].subs.contains(d) == (
                mmid.sigs[s].subs.contains(d) && !(vnow.contains(d) && !mmid.stack.contains(
                    d,
                ))) by {
                    assert(vnow.contains(d) == (vpre.contains(d) || d == cid)) by {
                        if vnow.contains(d) {
                            let j = choose|j: int| 0 <= j < vnow.len() && vnow[j] == d;
                            if j < k - 1 {
                                assert(vpre[j] == d);
                            }
                        }
                        if vpre.contains(d) {
                            let j = choose|j: int| 0 <= j < vpre.len() && vpre[j] == d;
                            assert(vnow[j] == d);
                        }
                    }
                    assert(prev.sigs[s].subs.contains(d) == (mmid.sigs[s].subs.contains(d) && !(
                    vpre.contains(d) && !mmid.stack.contains(d))));
                    if !on_stack {
                        assert(self@.sigs[s].subs == remove_id(prev.sigs[s].subs, cid));
                        assert(sig_ok(prev, s));
                        lemma_remove_id(prev.sigs[s].subs, cid, prev.comps.len() as int);
                        if d == cid {
                            assert(!self@.sigs[s].subs.contains(cid));
                        } else {
                            assert(self@.sigs[s].subs.contains(d) == prev.sigs[s].subs.contains(
                                d,
                            ));
                        }
                    } else {
                        assert(self@.sigs[s].subs == prev.sigs[s].subs);
                    }
                }
                assert forall|s: int|
                    0 <= s < mmid.sigs.len() implies (#[trigger] self@.sigs[s]).value
                    == mmid.sigs[s].value && self@.sigs[s].read_active
                    == mmid.sigs[s].read_active by {
                    if !on_stack {
                        assert(self@.sigs[s].value == prev.sigs[s].value);
                    }
                }
            }
        }
        proof {
            assert(victims@.subrange(0, nv as int) =~= victims@);
            lemma_scope_within_stable(mmid, m0, root as int, root as int);
            assert forall|y: int|
                0 <= y < m0.scopes.len() implies {
                &&& (#[trigger] final(self)@.scopes[y]).parent == m0.scopes[y].parent
                &&& final(self)@.scopes[y].comps == m0.scopes[y].comps
                &&& final(self)@.scopes[y].alive == (m0.scopes[y].alive && !scope_within(
                    m0,
                    y,
                    root as int,
                ))
            } by {
                if scope_within(m0, y, root as int) {
                    lemma_scope_within_ge(m0, y, root as int);
                }
            }
        }
    }
}

impl<V> Runtime<V> {
    /// Writes cell `s`: the value is replaced and a snapshot of the cell's
    /// subscribers is queued as a pending notification, delivered by the
    /// propagation that is driving the current run, or by the next `set`.
    /// The write is rejected when a running computation is reading `s`: that
    /// would be a re-entrant mutation of a cell mid-read.
    pub fn write(&mut self, s: StateHandle, v: V) -> (r: Result<(), RxError>)
        requires
            old(self).inv(),
            (s.id as int) < old(self)@.sigs.len(),
        ensures
            final(self).inv(),
            (r == Err::<(), RxError>(RxError::ReentrantMutation)) == old(
                self,
            )@.sigs[s.id as int].read_active,
            r is Err ==> final(self)@ == old(self)@ && r == Err::<(), RxError>(
                RxError::ReentrantMutation,
            ),
            r is Ok ==> final(self)@ == store_model(old(self)@, s.id as int, v),
    {
        self.store(s.id, v)
    }

    /// How many notification frames are queued.
    pub(crate) fn frame_count(&self) -> (r: usize)
        ensures
            r == self@.frames.len(),
    {
        self.frames.len()
    }

    /// Reverses the order of the frames queued at position `base` and later:
    /// the engine queues the writes of one run newest-last but must deliver
    /// them oldest-first, and the pending cursor takes the deepest frame, so
    /// the block a run queued is flipped once when the run ends.
    pub(crate) fn reverse_frames_from(&mut self, base: usize)
        requires
            old(self).inv(),
            base <= old(self)@.frames.len(),
        ensures
            final(self).inv(),
            final(self)@.sigs == old(self)@.sigs,
            final(self)@.comps == old(self)@.comps,
            final(self)@.stack == old(self)@.stack,
            final(self)@.scopes == old(self)@.scopes,
            final(self)@.frames.len() == old(self)@.frames.len(),
            forall|f: int|
                0 <= f < base ==> (#[trigger] final(self)@.frames[f]) == old(self)@.frames[f],
            forall|f: int|
                base <= f < old(self)@.frames.len() ==> (#[trigger] final(self)@.frames[f])
                    == old(self)@.frames[old(self)@.frames.len() - 1 - f + base],
    {
        let ghost fr0 = self@.frames;
        let n: usize = self.frames.len();
        let mut tail: Vec<FrameRec> = Vec::new();
        while self.frames.len() > base
            invariant
                base <= self.frames.len(),
                self.frames@.len() + tail@.len() == n,
                n == fr0.len(),
                self@.frames == fr0.subrange(0, self.frames@.len() as int),
                forall|t: int|
                    0 <= t < tail@.len() ==> (#[trigger] tail@[t]@) == fr0[n - 1 - t],
                self@.sigs == old(self)@.sigs,
                self@.comps == old(self)@.comps,
                self@.stack == old(self)@.stack,
                self@.scopes == old(self)@.scopes,
            decreases self.frames@.len(),
        {
            let ghost prev_tail = tail@;
            let ghost prev_model = self@.frames;
            let ghost prev_len = self.frames@.len();
            let fr = self.frames.pop();
            match fr {
                Some(fr) => {
                    proof {
                        assert(fr@ == prev_model[prev_len - 1]);
                        assert(prev_model[prev_len - 1] == fr0[prev_len - 1]);
                    }
                    tail.push(fr);
                },
                None => {
                    proof {
                        assert(false);
                    }
                },
            }
            proof {
                assert(self@.frames =~= fr0.subrange(0, self.frames@.len() as int));
                assert forall|t: int|
                    0 <= t < tail@.len() implies (#[trigger] tail@[t]@) == fr0[n - 1 - t] by {
                    if t < prev_tail.len() {
                        assert(tail@[t] == prev_tail[t]);
                        assert(prev_tail[t]@ == fr0[n - 1 - t]);
                    } else {
                        assert(t == prev_tail.len());
                        assert(prev_tail.len() + prev_len == n);
                    }
                }
            }
        }
        let ghost consumed0 = n - base;
        while tail.len() > 0
            invariant
                n == fr0.len(),
                base <= n,
                tail@.len() <= n - base,
                self.frames@.len() == n - tail@.len(),
                forall|t: int|
                    0 <= t < tail@.len() ==> (#[trigger] tail@[t]@) == fr0[n - 1 - ((n - base
                        - tail@.len()) + t)],
                forall|f: int| 0 <= f < base ==> (#[trigger] self@.frames[f]) == fr0[f],
                forall|f: int|
                    base <= f < self@.frames.len() ==> (#[trigger] self@.frames[f]) == fr0[n - 1 - f
                        + base],
                self@.sigs == old(self)@.sigs,
                self@.comps == old(self)@.comps,
                self@.stack == old(self)@.stack,
                self@.scopes == old(self)@.scopes,
            decreases tail@.len(),
        {
            let ghost prev_tail = tail@;
            let ghost prev_frames = self@.frames;
            let fr = tail.remove(0);
            proof {
                assert(fr@ == prev_tail[0]@);
                assert(prev_tail[0]@ == fr0[n - 1 - (n - base - prev_tail.len())]);
            }
            self.frames.push(fr);
            proof {
                assert(self@.frames =~= prev_frames.push(fr@));
                assert forall|t: int|
                    0 <= t < tail@.len() implies (#[trigger] tail@[t]@) == fr0[n - 1 - ((n - base
                        - tail@.len()) + t)] by {
                    assert(tail@[t] == prev_tail[t + 1]);
                    assert(prev_tail[t + 1]@ == fr0[n - 1 - ((n - base - prev_tail.len()) + t
                        + 1)]);
                }
                assert forall|f: int|
                    0 <= f < base implies (#[trigger] self@.frames[f]) == fr0[f] by {
                    assert(self@.frames[f] == prev_frames[f]);
                }
                assert forall|f: int|
                    base <= f < self@.frames.len() implies (#[trigger] self@.frames[f]) == fr0[n - 1
                        - f + base] by {
                    if f < prev_frames.len() {
                        assert(self@.frames[f] == prev_frames[f]);
                    } else {
                        assert(self@.frames[f] == fr@);
                        assert(f == prev_frames.len());
                        assert(prev_frames.len() == n - prev_tail.len());
                    }
                }
            }
        }
        proof {
            let m1 = self@;
            assert forall|f: int| 0 <= f < m1.frames.len() implies #[trigger] frame_ok(m1, f) by {
                if f < base {
                    assert(m1.frames[f] == fr0[f]);
                } else {
                    assert(m1.frames[f] == fr0[n - 1 - f + base]);
                }
                assert(frame_ok(old(self)@, if f < base {
                    f
                } else {
                    n - 1 - f + base
                }));
            }
            assert forall|s: int| 0 <= s < m1.sigs.len() implies #[trigger] sig_ok(m1, s) by {
                assert(sig_ok(old(self)@, s));
            }
            assert forall|d: int| 0 <= d < m1.comps.len() implies #[trigger] comp_ok(m1, d) by {
                assert(comp_ok(old(self)@, d));
            }
            assert forall|s: int, d: int|
                0 <= s < m1.sigs.len() && 0 <= d < m1.comps.len() implies #[trigger] coherent_at(
                m1,
                s,
                d,
            ) by {
                assert(coherent_at(old(self)@, s, d));
            }
            assert forall|x: int| 0 <= x < m1.scopes.len() implies #[trigger] scope_ok(m1, x) by {
                assert(scope_ok(old(self)@, x));
            }
        }
    }

    /// How many scopes this runtime has allocated.
    pub fn scope_count(&self) -> (r: usize)
        ensures
            r == self@.scopes.len(),
    {
        self.scopes.len()
    }
}

impl StateHandle {
    /// Reads the current value.  If a computation is running, it becomes a
    /// subscriber of this cell (no-op when already subscribed by identity).
    /// Never mutates the value.
    pub fn get<V: Datum>(&self, rt: &mut Runtime<V>) -> (r: V)
        requires
            old(rt).inv(),
            (self.id as int) < old(rt)@.sigs.len(),
        ensures
            final(rt).inv(),
            final(rt)@ == track_model(old(rt)@, self.id as int),
            old(rt)@.sigs[self.id as int].value.veq(&r),
    {
        rt.raw_track(self.id);
        proof {
            assert(rt@.sigs[self.id as int].value == old(rt)@.sigs[self.id as int].value);
        }
        rt.raw_peek(self.id).dup()
    }

    /// Reads the current value without registering a dependency, even when a
    /// computation is running.
    pub fn get_untracked<V: Datum>(&self, rt: &Runtime<V>) -> (r: V)
        requires
            (self.id as int) < rt@.sigs.len(),
        ensures
            rt@.sigs[self.id as int].value.veq(&r),
    {
        rt.raw_peek(self.id).dup()
    }
}

} // verus!
