//! Computation scheduling: creating tracked computations and propagating
//! notifications to them.
//!
//! The runtime stores no code.  The re-run bodies of the computations live
//! with the caller, behind the [`Derivations`] trait, addressed by slot
//! number.  The engine decides which slot must recompute and when; the
//! caller's `derive` produces the value.  Everything around the `derive`
//! calls — the two-phase re-run protocol, the snapshot iteration, the
//! store-and-notify decision, the balance of the context stack around every
//! run — is verified.

use vstd::prelude::*;

use crate::datum::Datum;
use crate::runtime::{
    end_run_model, inv_model, retire_model, store_model, CompModel, Model, NotifyRule, PendStep,
    Runtime, RxError, SigModel, StateHandle, Signal,
};

verus! {

/// How many propagation steps a single `set` may take before the engine
/// concludes that the dependency graph notifies itself in a cycle and fails
/// with [`RxError::PropagationOverflow`] instead of looping.
pub const PROPAGATION_FUEL: usize = 100000;

/// The derivation bodies of a reactive world.
///
/// An implementation dispatches on `slot` and computes the value of that
/// derivation, reading cells through `rt` (tracked reads through
/// [`StateHandle::get`] register the dependencies of the run).  It may
/// decline a slot by returning `None`.
///
/// The promised clauses hold of any implementation that touches the runtime
/// only through its public operations, each called within its precondition:
/// every such operation preserves the invariant, leaves the context stack as
/// it found it, only appends to the queued notification frames, never
/// removes a cell or a computation record, and never changes the fixed
/// fields (output cell, notify rule, slot) of an existing record.  An
/// implementation must not replace or swap out the runtime it is handed.
pub trait Derivations<V> {
    /// Computes derivation `slot` against the current state of `rt`.
    fn derive(&mut self, rt: &mut Runtime<V>, slot: usize) -> (r: Option<V>)
        requires
            old(rt).inv(),
        ensures
            final(rt).inv(),
            final(rt)@.stack == old(rt)@.stack,
            old(rt)@.sigs.len() <= final(rt)@.sigs.len(),
            old(rt)@.comps.len() <= final(rt)@.comps.len(),
            old(rt)@.frames.len() <= final(rt)@.frames.len(),
            forall|f: int|
                0 <= f < old(rt)@.frames.len() ==> (#[trigger] final(rt)@.frames[f])
                    == old(rt)@.frames[f],
            forall|c: int|
                0 <= c < old(rt)@.comps.len() ==> ((#[trigger] final(rt)@.comps[c]).out
                    == old(rt)@.comps[c].out && final(rt)@.comps[c].rule == old(rt)@.comps[c].rule
                    && final(rt)@.comps[c].slot == old(rt)@.comps[c].slot),
    ;
}

/// The empty source: it declines every slot.  A runtime whose cells are only
/// ever written directly needs nothing more.
impl<V> Derivations<V> for () {
    fn derive(&mut self, rt: &mut Runtime<V>, slot: usize) -> (r: Option<V>) {
        None
    }
}

/// Works off every pending notification frame, re-running each live
/// subscriber of each snapshot in snapshot order (each handed out exactly
/// once by the frame cursor); a run's derived value is stored through its
/// output cell, notifying in turn.  Delivery is depth first and in write
/// order: the frames one run queues are processed — each to completion,
/// children first — before the frame that triggered the run resumes, oldest
/// write first among them.  Consumes one unit of fuel per step; when the
/// fuel runs out with frames still pending, the propagation is cut short
/// with an error rather than looping through a notification cycle.
pub fn propagate<V: Datum, B: Derivations<V>>(
    rt: &mut Runtime<V>,
    bodies: &mut B,
    fuel: usize,
) -> (r: Result<(), RxError>)
    requires
        old(rt).inv(),
        old(rt)@.stack.len() == 0,
    ensures
        final(rt).inv(),
        final(rt)@.stack.len() == 0,
        r is Ok ==> final(rt)@.frames.len() == 0,
        old(rt)@.frames.len() == 0 ==> r is Ok && final(rt)@ == old(rt)@,
        r is Err ==> r == Err::<(), RxError>(RxError::PropagationOverflow),
{
    let mut fuel = fuel;
    loop
        invariant
            rt.inv(),
            rt@.stack.len() == 0,
            old(rt)@.frames.len() == 0 ==> rt@ == old(rt)@,
        decreases fuel,
    {
        let step = rt.pending_step();
        match step {
            PendStep::Idle => {
                return Ok(());
            },
            PendStep::Skip => {
                if fuel == 0 {
                    return Err(RxError::PropagationOverflow);
                }
                fuel = fuel - 1;
            },
            PendStep::Run(c) => {
                if fuel == 0 {
                    return Err(RxError::PropagationOverflow);
                }
                fuel = fuel - 1;
                let base = rt.frame_count();
                let slot = rt.comp_slot(c);
                rt.begin_run(c);
                proof {
                    assert(rt@.stack =~= seq![c]);
                    assert(rt@.frames.len() == base);
                }
                let v = bodies.derive(rt, slot);
                proof {
                    assert(rt@.stack == seq![c]);
                    assert(rt@.frames.len() >= base);
                }
                rt.end_run(c);
                match v {
                    None => {},
                    Some(val) => {
                        rt.apply_result(c, val);
                    },
                }
                proof {
                    assert(rt@.frames.len() >= base);
                }
                // deliver this run's writes oldest first
                rt.reverse_frames_from(base);
            },
        }
    }
}

/// What creating a tracked computation with an output cell guarantees on
/// success, in terms of the states before (`pre`) and after (`post`): the
/// fresh record `c = pre.comps.len()` exists, carries `rule` and `slot` and
/// is wired to the fresh cell `h` — the newest cell, created with no
/// subscribers and no read in progress — and, up to pending-frame ordering
/// and scope bookkeeping, `post` is exactly one completed run of `c` from
/// some mid-run state (so, by the runtime invariant's coherence, `c` is
/// subscribed to precisely the cells that run recorded) followed by that
/// wiring.
pub open spec fn created_ok<V>(
    pre: Model<V>,
    post: Model<V>,
    h: StateHandle,
    rule: NotifyRule,
    slot: usize,
) -> bool {
    let c = pre.comps.len() as int;
    &&& post.comps.len() > pre.comps.len()
    &&& post.sigs.len() > pre.sigs.len()
    &&& (h.id as int) == post.sigs.len() - 1
    &&& post.comps[c].out == Some(h.id)
    &&& post.comps[c].rule == rule
    &&& post.comps[c].slot == slot
    &&& post.sigs[h.id as int].subs == Seq::<usize>::empty()
    &&& post.sigs[h.id as int].read_active == false
    &&& exists|mid: Model<V>|
        #![trigger end_run_model(mid, c as usize)]
        {
            &&& inv_model(mid)
            &&& mid.stack == seq![c as usize]
            &&& ({
                let after = end_run_model(mid, c as usize);
                let with_cell = Model {
                    sigs: after.sigs.push(post.sigs[h.id as int]),
                    ..after
                };
                let wired = Model {
                    comps: with_cell.comps.update(
                        c,
                        CompModel { out: Some(h.id), ..with_cell.comps[c] },
                    ),
                    ..with_cell
                };
                post == Model { frames: post.frames, scopes: post.scopes, ..wired }
            })
        }
}

/// What a declined creation guarantees: the fresh record was run once and
/// retired — dead, with no dependencies and subscribed nowhere — and, up to
/// pending-frame ordering, the state is exactly that run followed by the
/// retirement.
pub open spec fn created_err<V>(pre: Model<V>, post: Model<V>) -> bool {
    let c = pre.comps.len() as int;
    &&& post.comps.len() > pre.comps.len()
    &&& post.comps[c].alive == false
    &&& post.comps[c].deps == Seq::<usize>::empty()
    &&& forall|s: int|
        0 <= s < post.sigs.len() ==> !(#[trigger] post.sigs[s]).subs.contains(c as usize)
    &&& exists|mid: Model<V>|
        #![trigger end_run_model(mid, c as usize)]
        {
            &&& inv_model(mid)
            &&& mid.stack == seq![c as usize]
            &&& post == (Model {
                frames: post.frames,
                ..retire_model(end_run_model(mid, c as usize), c as usize)
            })
        }
}

/// What creating a plain effect guarantees: the fresh record `c` exists,
/// carries `slot`, has no output cell, and, up to pending-frame ordering,
/// the state is exactly one completed run of `c` from some mid-run state —
/// so `c` is subscribed to precisely the cells that run recorded.
pub open spec fn effect_created<V>(pre: Model<V>, post: Model<V>, slot: usize) -> bool {
    let c = pre.comps.len() as int;
    &&& post.comps.len() > pre.comps.len()
    &&& post.comps[c].out is None
    &&& post.comps[c].slot == slot
    &&& exists|mid: Model<V>|
        #![trigger end_run_model(mid, c as usize)]
        {
            &&& inv_model(mid)
            &&& mid.stack == seq![c as usize]
            &&& post == (Model { frames: post.frames, ..end_run_model(mid, c as usize) })
        }
}

/// Creates a memoized value from some signals, with an explicit comparison
/// rule and an optional owning scope.  The derivation runs once, immediately,
/// to compute the initial value and discover the dependencies; the value
/// lives in a fresh cell, readable (and trackable) through the returned
/// handle.  On every later notification the derivation reruns and the new
/// value is applied under `rule`.  Fails only when `bodies` declines the
/// slot.
pub fn create_selector_with<V: Datum, B: Derivations<V>>(
    rt: &mut Runtime<V>,
    bodies: &mut B,
    slot: usize,
    rule: NotifyRule,
    owner: Option<usize>,
) -> (r: Result<StateHandle, RxError>)
    requires
        old(rt).inv(),
        old(rt)@.stack.len() == 0,
    ensures
        final(rt).inv(),
        final(rt)@.stack.len() == 0,
        final(rt)@.comps.len() > old(rt)@.comps.len(),
        r matches Ok(h) ==> created_ok(old(rt)@, final(rt)@, h, rule, slot),
        r is Err ==> r == Err::<StateHandle, RxError>(RxError::NoDerivation) && created_err(
            old(rt)@,
            final(rt)@,
        ),
{
    let base = rt.frame_count();
    let c = rt.new_comp(rule, slot);
    rt.begin_run(c);
    proof {
        assert(rt@.stack =~= seq![c]);
        assert(rt@.frames.len() == base);
    }
    let v = bodies.derive(rt, slot);
    let ghost mid = rt@;
    proof {
        assert(mid.stack == seq![c]);
        assert(mid.comps[c as int].rule == rule);
        assert(mid.comps[c as int].slot == slot);
        assert(mid.comps[c as int].out is None);
    }
    rt.end_run(c);
    match v {
        None => {
            rt.retire_comp(c);
            let ghost retired = rt@;
            rt.reverse_frames_from(base);
            proof {
                assert(retired == retire_model(end_run_model(mid, c), c));
                assert(rt@ =~= (Model { frames: rt@.frames, ..retired }));
                let cc = old(rt)@.comps.len() as int;
                assert(cc == c as int);
                assert(rt@.comps[cc].alive == false);
                assert(rt@.comps[cc].deps =~= Seq::<usize>::empty());
                assert forall|s: int|
                    0 <= s < rt@.sigs.len() implies !(#[trigger] rt@.sigs[s]).subs.contains(
                    c,
                ) by {
                    assert(crate::runtime::coherent_at(rt@, s, cc));
                    if rt@.comps[cc].deps.contains(s as usize) {
                        let j = choose|j: int|
                            0 <= j < rt@.comps[cc].deps.len() && rt@.comps[cc].deps[j]
                                == s as usize;
                        assert(false);
                    }
                }
                assert(created_err(old(rt)@, rt@));
            }
            Err(RxError::NoDerivation)
        },
        Some(val) => {
            let ghost after = rt@;
            let o = rt.raw_new_signal(val);
            let ghost cell = rt@.sigs[o as int];
            rt.set_comp_out(c, o);
            match owner {
                Some(x) => {
                    if x < rt.scope_count() {
                        rt.scope_add_comp(x, c);
                    }
                },
                None => {},
            }
            rt.reverse_frames_from(base);
            proof {
                let h = StateHandle { id: o };
                let cc = old(rt)@.comps.len() as int;
                assert(cc == c as int);
                assert(after == end_run_model(mid, c));
                assert(rt@.sigs[h.id as int] == cell);
                assert(cell == (SigModel {
                    value: cell.value,
                    subs: Seq::<usize>::empty(),
                    read_active: false,
                }));
                let with_cell = Model { sigs: after.sigs.push(rt@.sigs[h.id as int]), ..after };
                let wired = Model {
                    comps: with_cell.comps.update(
                        cc,
                        CompModel { out: Some(h.id), ..with_cell.comps[cc] },
                    ),
                    ..with_cell
                };
                assert(rt@.sigs =~= wired.sigs);
                assert(rt@.comps =~= wired.comps);
                assert(rt@ =~= (Model { frames: rt@.frames, scopes: rt@.scopes, ..wired }));
                assert(created_ok(old(rt)@, rt@, h, rule, slot));
            }
            Ok(StateHandle { id: o })
        },
    }
}

/// Registers a computation and immediately runs it once to discover its
/// dependencies, subscribing it to everything it read; purely side-effecting
/// (an effect's work is what its body does, usually writes through
/// [`Runtime::write`]).  The computation has no output cell, so its derived
/// value, if any, goes nowhere.
pub fn create_effect<V: Datum, B: Derivations<V>>(rt: &mut Runtime<V>, bodies: &mut B, slot: usize)
    requires
        old(rt).inv(),
        old(rt)@.stack.len() == 0,
    ensures
        final(rt).inv(),
        final(rt)@.stack.len() == 0,
        effect_created(old(rt)@, final(rt)@, slot),
{
    let base = rt.frame_count();
    let c = rt.new_comp(NotifyRule::Always, slot);
    rt.begin_run(c);
    proof {
        assert(rt@.stack =~= seq![c]);
        assert(rt@.frames.len() == base);
    }
    let _ = bodies.derive(rt, slot);
    let ghost mid = rt@;
    rt.end_run(c);
    let ghost done = rt@;
    rt.reverse_frames_from(base);
    proof {
        assert(mid.stack == seq![c]);
        assert(done == end_run_model(mid, c));
        assert(rt@ =~= (Model { frames: rt@.frames, ..done }));
        let cc = old(rt)@.comps.len() as int;
        assert(cc == c as int);
        assert(rt@.comps[cc].out is None);
        assert(rt@.comps[cc].slot == slot);
        assert(effect_created(old(rt)@, rt@, slot));
    }
}

/// Creates a memoized value from some signals: the derivation reruns on
/// every upstream notification, and each recomputation overwrites the memo's
/// cell and notifies its subscribers unconditionally.
pub fn create_memo<V: Datum, B: Derivations<V>>(
    rt: &mut Runtime<V>,
    bodies: &mut B,
    slot: usize,
) -> (r: Result<StateHandle, RxError>)
    requires
        old(rt).inv(),
        old(rt)@.stack.len() == 0,
    ensures
        final(rt).inv(),
        final(rt)@.stack.len() == 0,
        final(rt)@.comps.len() > old(rt)@.comps.len(),
        r matches Ok(h) ==> created_ok(old(rt)@, final(rt)@, h, NotifyRule::Always, slot),
        r is Err ==> r == Err::<StateHandle, RxError>(RxError::NoDerivation) && created_err(
            old(rt)@,
            final(rt)@,
        ),
{
    create_selector_with(rt, bodies, slot, NotifyRule::Always, None)
}

/// As [`create_memo`], but a recomputation that yields a value equal to the
/// stored one (in the sense of [`Datum::veq`]) is stored without notifying
/// the memo's subscribers.
pub fn create_selector<V: Datum, B: Derivations<V>>(
    rt: &mut Runtime<V>,
    bodies: &mut B,
    slot: usize,
) -> (r: Result<StateHandle, RxError>)
    requires
        old(rt).inv(),
        old(rt)@.stack.len() == 0,
    ensures
        final(rt).inv(),
        final(rt)@.stack.len() == 0,
        final(rt)@.comps.len() > old(rt)@.comps.len(),
        r matches Ok(h) ==> created_ok(old(rt)@, final(rt)@, h, NotifyRule::WhenChanged, slot),
        r is Err ==> r == Err::<StateHandle, RxError>(RxError::NoDerivation) && created_err(
            old(rt)@,
            final(rt)@,
        ),
{
    create_selector_with(rt, bodies, slot, NotifyRule::WhenChanged, None)
}

impl Signal {
    /// Creates a fresh signal holding `value`.
    pub fn new<V>(rt: &mut Runtime<V>, value: V) -> (sig: Signal)
        requires
            old(rt).inv(),
        ensures
            final(rt).inv(),
            sig.handle.id == old(rt)@.sigs.len(),
            final(rt)@ == (Model {
                sigs: old(rt)@.sigs.push(
                    SigModel { value, subs: Seq::empty(), read_active: false },
                ),
                ..old(rt)@
            }),
    {
        Signal { handle: StateHandle { id: rt.raw_new_signal(value) } }
    }

    /// Sets the current value of the signal and synchronously notifies, in
    /// subscription order and depth first, every computation that depends on
    /// it.  This is exactly [`Runtime::write`] — whose contract pins the
    /// stored value and the queued snapshot of the subscribers before any
    /// delivery begins — followed by [`propagate`], which works the snapshot
    /// off through the exact cursor of the pending frames.  With no
    /// subscriber and nothing pending, the effect is exactly one stored
    /// value.  The only failure is a notification cycle running out of
    /// fuel.
    pub fn set<V: Datum, B: Derivations<V>>(
        &self,
        rt: &mut Runtime<V>,
        bodies: &mut B,
        value: V,
    ) -> (r: Result<(), RxError>)
        requires
            old(rt).inv(),
            old(rt)@.stack.len() == 0,
            (self.handle.id as int) < old(rt)@.sigs.len(),
        ensures
            final(rt).inv(),
            final(rt)@.stack.len() == 0,
            r is Ok ==> final(rt)@.frames.len() == 0,
            (old(rt)@.sigs[self.handle.id as int].subs.len() == 0 && old(rt)@.frames.len() == 0)
                ==> r is Ok && final(rt)@ == store_model(
                old(rt)@,
                self.handle.id as int,
                value,
            ),
            r is Err ==> r == Err::<(), RxError>(RxError::PropagationOverflow),
    {
        proof {
            assert(crate::runtime::sig_ok(old(rt)@, self.handle.id as int));
        }
        let res = rt.write(self.handle, value);
        match res {
            // a rejected write needs a read in progress, and nothing is running
            Err(_) => vstd::pervasive::unreached(),
            Ok(()) => propagate(rt, bodies, PROPAGATION_FUEL),
        }
    }

    /// The [`StateHandle`] associated with this signal.
    pub fn handle(&self) -> (h: StateHandle)
        ensures
            h == self.handle,
    {
        self.handle
    }

    /// Converts this signal into its underlying handle.
    pub fn into_handle(self) -> (h: StateHandle)
        ensures
            h == self.handle,
    {
        self.handle
    }

    /// Reads the current value, registering the running computation, if any,
    /// as a subscriber.
    pub fn get<V: Datum>(&self, rt: &mut Runtime<V>) -> (r: V)
        requires
            old(rt).inv(),
            (self.handle.id as int) < old(rt)@.sigs.len(),
        ensures
            final(rt).inv(),
            final(rt)@ == crate::runtime::track_model(old(rt)@, self.handle.id as int),
            old(rt)@.sigs[self.handle.id as int].value.veq(&r),
    {
        self.handle.get(rt)
    }

    /// Reads the current value without registering a dependency.
    pub fn get_untracked<V: Datum>(&self, rt: &Runtime<V>) -> (r: V)
        requires
            (self.handle.id as int) < rt@.sigs.len(),
        ensures
            rt@.sigs[self.handle.id as int].value.veq(&r),
    {
        self.handle.get_untracked(rt)
    }
}

} // verus!
