use maple_core::create_effect;
use maple_core::create_memo;
use maple_core::create_selector;
use maple_core::Derivations;
use maple_core::Runtime;
use maple_core::RxError;
use maple_core::Signal;
use maple_core::StateHandle;

/// Derivation bodies used by the memo tests, dispatched by slot.
struct Bodies {
    state: StateHandle,
    counter: Option<Signal>,
    double: Option<StateHandle>,
    condition: Option<StateHandle>,
    state2: Option<StateHandle>,
    own_out: Option<StateHandle>,
    target: Option<Signal>,
    rejected_writes: usize,
}

impl Bodies {
    fn new(state: StateHandle) -> Bodies {
        Bodies {
            state,
            counter: None,
            double: None,
            condition: None,
            state2: None,
            own_out: None,
            target: None,
            rejected_writes: 0,
        }
    }

    fn bump_counter(&mut self, rt: &mut Runtime<i32>) {
        if let Some(counter) = self.counter {
            let c = counter.get_untracked(rt);
            rt.write(counter.handle(), c + 1).unwrap();
        }
    }
}

const DOUBLE: usize = 0;
const DOUBLE_COUNTED: usize = 1;
const QUADRUPLE: usize = 2;
const DOUBLE_UNTRACKED: usize = 3;
const OBSERVE_DOUBLE: usize = 4;
const CONDITIONAL: usize = 5;
const SELF_FEEDING: usize = 6;
const REENTRANT: usize = 7;
const EFFECT_DOUBLE: usize = 8;
const EFFECT_COUNT_ONCE: usize = 9;

impl Derivations<i32> for Bodies {
    fn derive(&mut self, rt: &mut Runtime<i32>, slot: usize) -> Option<i32> {
        match slot {
            DOUBLE => Some(self.state.get(rt) * 2),
            DOUBLE_COUNTED => {
                self.bump_counter(rt);
                Some(self.state.get(rt) * 2)
            }
            QUADRUPLE => {
                let double = self.double?;
                Some(double.get(rt) * 2)
            }
            DOUBLE_UNTRACKED => Some(self.state.get_untracked(rt) * 2),
            OBSERVE_DOUBLE => {
                self.bump_counter(rt);
                let double = self.double?;
                Some(double.get(rt))
            }
            CONDITIONAL => {
                self.bump_counter(rt);
                let condition = self.condition?;
                let state2 = self.state2?;
                if condition.get(rt) != 0 {
                    Some(self.state.get(rt))
                } else {
                    Some(state2.get(rt))
                }
            }
            SELF_FEEDING => {
                let _ = self.state.get(rt);
                match self.own_out {
                    None => Some(0),
                    Some(out) => Some(out.get(rt) + 1),
                }
            }
            REENTRANT => {
                let v = self.state.get(rt);
                let r = rt.write(self.state, v + 1);
                assert!(matches!(r, Err(RxError::ReentrantMutation)));
                self.rejected_writes += 1;
                Some(v)
            }
            EFFECT_DOUBLE => {
                let v = self.state.get(rt);
                let target = self.target?;
                rt.write(target.handle(), v * 2).unwrap();
                None
            }
            EFFECT_COUNT_ONCE => {
                self.bump_counter(rt);
                // read twice, but subscribe once
                self.state.get(rt);
                self.state.get(rt);
                None
            }
            _ => None,
        }
    }
}

#[test]
fn signals() {
    let mut rt: Runtime<i32> = Runtime::new();
    let state = Signal::new(&mut rt, 0);
    assert_eq!(state.get(&mut rt), 0);

    state.set(&mut rt, &mut (), 1).unwrap();
    assert_eq!(state.get(&mut rt), 1);
}

#[test]
fn signal_composition() {
    let mut rt: Runtime<i32> = Runtime::new();
    let state = Signal::new(&mut rt, 0);

    let double = |rt: &mut Runtime<i32>| state.get(rt) * 2;

    assert_eq!(double(&mut rt), 0);

    state.set(&mut rt, &mut (), 1).unwrap();
    assert_eq!(double(&mut rt), 2);
}

#[test]
fn memo() {
    let mut rt: Runtime<i32> = Runtime::new();
    let state = Signal::new(&mut rt, 0);

    let mut bodies = Bodies::new(state.handle());
    let double = create_memo(&mut rt, &mut bodies, DOUBLE).unwrap();
    assert_eq!(double.get(&mut rt), 0);

    state.set(&mut rt, &mut bodies, 1).unwrap();
    assert_eq!(double.get(&mut rt), 2);

    state.set(&mut rt, &mut bodies, 2).unwrap();
    assert_eq!(double.get(&mut rt), 4);
}

/// Make sure value is memoized rather than executed on demand.
#[test]
fn memo_only_run_once() {
    let mut rt: Runtime<i32> = Runtime::new();
    let state = Signal::new(&mut rt, 0);
    let counter = Signal::new(&mut rt, 0);

    let mut bodies = Bodies::new(state.handle());
    bodies.counter = Some(counter);
    let double = create_memo(&mut rt, &mut bodies, DOUBLE_COUNTED).unwrap();
    assert_eq!(counter.get(&mut rt), 1); // once for calculating initial derived state

    state.set(&mut rt, &mut bodies, 2).unwrap();
    assert_eq!(counter.get(&mut rt), 2);
    assert_eq!(double.get(&mut rt), 4);
    assert_eq!(counter.get(&mut rt), 2); // should still be 2 after access
}

#[test]
fn dependency_on_memo() {
    let mut rt: Runtime<i32> = Runtime::new();
    let state = Signal::new(&mut rt, 0);

    let mut bodies = Bodies::new(state.handle());
    let double = create_memo(&mut rt, &mut bodies, DOUBLE).unwrap();
    bodies.double = Some(double);
    let quadruple = create_memo(&mut rt, &mut bodies, QUADRUPLE).unwrap();

    assert_eq!(quadruple.get(&mut rt), 0);

    state.set(&mut rt, &mut bodies, 1).unwrap();
    assert_eq!(quadruple.get(&mut rt), 4);
}

#[test]
fn untracked_memo() {
    let mut rt: Runtime<i32> = Runtime::new();
    let state = Signal::new(&mut rt, 1);

    let mut bodies = Bodies::new(state.handle());
    let double = create_memo(&mut rt, &mut bodies, DOUBLE_UNTRACKED).unwrap();

    assert_eq!(double.get(&mut rt), 2);

    state.set(&mut rt, &mut bodies, 2).unwrap();
    assert_eq!(double.get(&mut rt), 2); // double value should still be old value because state was untracked
}

#[test]
fn selector() {
    let mut rt: Runtime<i32> = Runtime::new();
    let state = Signal::new(&mut rt, 0);
    let counter = Signal::new(&mut rt, 0);

    let mut bodies = Bodies::new(state.handle());
    bodies.counter = Some(counter);
    let double = create_selector(&mut rt, &mut bodies, DOUBLE).unwrap();
    bodies.double = Some(double);
    let _observer = create_memo(&mut rt, &mut bodies, OBSERVE_DOUBLE).unwrap();

    assert_eq!(double.get(&mut rt), 0);
    assert_eq!(counter.get(&mut rt), 1);

    state.set(&mut rt, &mut bodies, 0).unwrap();
    assert_eq!(double.get(&mut rt), 0);
    assert_eq!(counter.get(&mut rt), 1); // equal recomputation must not re-run the observer

    state.set(&mut rt, &mut bodies, 2).unwrap();
    assert_eq!(double.get(&mut rt), 4);
    assert_eq!(counter.get(&mut rt), 2);
}

#[test]
fn effects() {
    let mut rt: Runtime<i32> = Runtime::new();
    let state = Signal::new(&mut rt, 0);
    let double = Signal::new(&mut rt, -1);

    let mut bodies = Bodies::new(state.handle());
    bodies.target = Some(double);
    create_effect(&mut rt, &mut bodies, EFFECT_DOUBLE);
    assert_eq!(double.get(&mut rt), 0); // calling create_effect should call the effect at least once

    state.set(&mut rt, &mut bodies, 1).unwrap();
    assert_eq!(double.get(&mut rt), 2);
    state.set(&mut rt, &mut bodies, 2).unwrap();
    assert_eq!(double.get(&mut rt), 4);
}

#[test]
fn effect_should_subscribe_once() {
    let mut rt: Runtime<i32> = Runtime::new();
    let state = Signal::new(&mut rt, 0);
    let counter = Signal::new(&mut rt, 0);

    let mut bodies = Bodies::new(state.handle());
    bodies.counter = Some(counter);
    create_effect(&mut rt, &mut bodies, EFFECT_COUNT_ONCE);

    assert_eq!(counter.get(&mut rt), 1);

    state.set(&mut rt, &mut bodies, 1).unwrap();
    assert_eq!(counter.get(&mut rt), 2);
}

#[test]
fn effect_should_recreate_dependencies() {
    let mut rt: Runtime<i32> = Runtime::new();
    let condition = Signal::new(&mut rt, 1);
    let state1 = Signal::new(&mut rt, 0);
    let state2 = Signal::new(&mut rt, 1);
    let counter = Signal::new(&mut rt, 0);

    let mut bodies = Bodies::new(state1.handle());
    bodies.counter = Some(counter);
    bodies.condition = Some(condition.handle());
    bodies.state2 = Some(state2.handle());
    create_effect(&mut rt, &mut bodies, CONDITIONAL);

    assert_eq!(counter.get(&mut rt), 1);

    state1.set(&mut rt, &mut bodies, 1).unwrap();
    assert_eq!(counter.get(&mut rt), 2);

    state2.set(&mut rt, &mut bodies, 1).unwrap();
    assert_eq!(counter.get(&mut rt), 2); // not tracked

    condition.set(&mut rt, &mut bodies, 0).unwrap();
    assert_eq!(counter.get(&mut rt), 3);

    state1.set(&mut rt, &mut bodies, 2).unwrap();
    assert_eq!(counter.get(&mut rt), 3); // not tracked

    state2.set(&mut rt, &mut bodies, 2).unwrap();
    assert_eq!(counter.get(&mut rt), 4); // tracked after condition.set
}

#[test]
fn last_write_wins() {
    let mut rt: Runtime<i32> = Runtime::new();
    let state = Signal::new(&mut rt, 7);
    state.set(&mut rt, &mut (), 1).unwrap();
    state.set(&mut rt, &mut (), 2).unwrap();
    state.set(&mut rt, &mut (), 3).unwrap();
    assert_eq!(state.get(&mut rt), 3);
    assert_eq!(state.get_untracked(&rt), 3);
}

#[test]
fn reentrant_write_rejected() {
    let mut rt: Runtime<i32> = Runtime::new();
    let state = Signal::new(&mut rt, 5);

    let mut bodies = Bodies::new(state.handle());
    // the initial run already reads the cell and then tries to write it
    let _memo = create_memo(&mut rt, &mut bodies, REENTRANT).unwrap();
    assert_eq!(bodies.rejected_writes, 1);

    state.set(&mut rt, &mut bodies, 9).unwrap();
    assert_eq!(bodies.rejected_writes, 2);
    assert_eq!(state.get(&mut rt), 9); // the rejected write changed nothing
}

#[test]
fn cyclic_notification_overflows() {
    let mut rt: Runtime<i32> = Runtime::new();
    let state = Signal::new(&mut rt, 0);

    let mut bodies = Bodies::new(state.handle());
    let own = create_memo(&mut rt, &mut bodies, SELF_FEEDING).unwrap();
    bodies.own_out = Some(own);

    // reruns subscribe the memo to its own output: the propagation is cut
    // short instead of looping forever
    let r = state.set(&mut rt, &mut bodies, 1);
    assert_eq!(r, Err(RxError::PropagationOverflow));
}

#[test]
fn missing_derivation_is_an_error() {
    let mut rt: Runtime<i32> = Runtime::new();
    let r = create_memo(&mut rt, &mut (), 0);
    assert_eq!(r, Err(RxError::NoDerivation));
}

#[test]
fn disposed_scope_stops_reacting() {
    let mut rt: Runtime<i32> = Runtime::new();
    let state = Signal::new(&mut rt, 0);

    let mut bodies = Bodies::new(state.handle());
    let sc = rt.new_scope(None);
    let double = maple_core::create_selector_with(
        &mut rt,
        &mut bodies,
        DOUBLE,
        maple_core::NotifyRule::Always,
        Some(sc),
    )
    .unwrap();

    state.set(&mut rt, &mut bodies, 1).unwrap();
    assert_eq!(double.get(&mut rt), 2);

    rt.dispose_scope(sc);

    state.set(&mut rt, &mut bodies, 5).unwrap();
    assert_eq!(double.get(&mut rt), 2); // the memo is dead: no recomputation
}

#[test]
fn into_handle_reads_the_same_cell() {
    let mut rt: Runtime<i32> = Runtime::new();
    let state = Signal::new(&mut rt, 3);
    let h = state.into_handle();
    assert_eq!(h.get(&mut rt), 3);
}

/// A run that writes two signals has their subscriber chains delivered in
/// write order, each chain completing before the next write's chain starts.
struct OrderBodies {
    trigger_cell: StateHandle,
    first: Signal,
    second: Signal,
    log: Vec<usize>,
}

impl Derivations<i32> for OrderBodies {
    fn derive(&mut self, rt: &mut Runtime<i32>, slot: usize) -> Option<i32> {
        match slot {
            0 => {
                // the driver: writes first, then second
                let _ = self.trigger_cell.get(rt);
                let f = self.first.get_untracked(rt);
                let s = self.second.get_untracked(rt);
                rt.write(self.first.handle(), f + 1).unwrap();
                rt.write(self.second.handle(), s + 1).unwrap();
                None
            }
            1 => {
                self.log.push(1);
                Some(self.first.get(rt))
            }
            2 => {
                self.log.push(2);
                Some(self.second.get(rt))
            }
            _ => None,
        }
    }
}

#[test]
fn sibling_writes_notify_in_write_order() {
    let mut rt: Runtime<i32> = Runtime::new();
    let trigger_cell = Signal::new(&mut rt, 0);
    let first = Signal::new(&mut rt, 10);
    let second = Signal::new(&mut rt, 20);

    let mut bodies = OrderBodies {
        trigger_cell: trigger_cell.handle(),
        first,
        second,
        log: Vec::new(),
    };
    let _watch_first = create_memo(&mut rt, &mut bodies, 1).unwrap();
    let _watch_second = create_memo(&mut rt, &mut bodies, 2).unwrap();
    create_effect(&mut rt, &mut bodies, 0);
    // deliver what the driver's first run queued, then start observing
    maple_core::propagate(&mut rt, &mut bodies, maple_core::PROPAGATION_FUEL).unwrap();
    bodies.log.clear();

    trigger_cell.set(&mut rt, &mut bodies, 1).unwrap();
    assert_eq!(bodies.log, vec![1, 2]); // first's chain before second's
}
