use std::cell::Cell;

use maple_core::map_indexed;
use maple_core::map_keyed;
use maple_core::Runtime;
use maple_core::Signal;

#[test]
fn keyed() {
    let mut rt: Runtime<Vec<i32>> = Runtime::new();
    let a = Signal::new(&mut rt, vec![1, 2, 3]);
    let mut mapped = map_keyed(a.handle(), |x: &i32| *x * 2);
    assert_eq!(mapped.update(&mut rt), vec![2, 4, 6]);

    a.set(&mut rt, &mut (), vec![1, 2, 3, 4]).unwrap();
    assert_eq!(mapped.update(&mut rt), vec![2, 4, 6, 8]);

    a.set(&mut rt, &mut (), vec![2, 2, 3, 4]).unwrap();
    assert_eq!(mapped.update(&mut rt), vec![4, 4, 6, 8]);
}

/// Test fast path for clearing Vec.
#[test]
fn keyed_clear() {
    let mut rt: Runtime<Vec<i32>> = Runtime::new();
    let a = Signal::new(&mut rt, vec![1, 2, 3]);
    let mut mapped = map_keyed(a.handle(), |x: &i32| *x * 2);

    a.set(&mut rt, &mut (), Vec::new()).unwrap();
    assert_eq!(mapped.update(&mut rt), Vec::new());
}

/// Test that using keyed mapping will reuse previous computations.
#[test]
fn keyed_use_previous_computation() {
    let mut rt: Runtime<Vec<i32>> = Runtime::new();
    let a = Signal::new(&mut rt, vec![1, 2, 3]);
    let counter = Cell::new(0);
    let mut mapped = map_keyed(a.handle(), |_: &i32| {
        counter.set(counter.get() + 1);
        counter.get()
    });
    assert_eq!(mapped.update(&mut rt), vec![1, 2, 3]);

    a.set(&mut rt, &mut (), vec![1, 2]).unwrap();
    assert_eq!(mapped.update(&mut rt), vec![1, 2]);

    a.set(&mut rt, &mut (), vec![1, 2, 4]).unwrap();
    assert_eq!(mapped.update(&mut rt), vec![1, 2, 4]);

    a.set(&mut rt, &mut (), vec![1, 2, 3, 4]).unwrap();
    assert_eq!(mapped.update(&mut rt), vec![1, 2, 5, 4]);
}

/// An unchanged sequence reuses every output: nothing is remapped.
#[test]
fn keyed_noop_update_reuses_everything() {
    let mut rt: Runtime<Vec<i32>> = Runtime::new();
    let a = Signal::new(&mut rt, vec![1, 2, 3]);
    let counter = Cell::new(0);
    let mut mapped = map_keyed(a.handle(), |_: &i32| {
        counter.set(counter.get() + 1);
        counter.get()
    });
    assert_eq!(mapped.update(&mut rt), vec![1, 2, 3]);

    a.set(&mut rt, &mut (), vec![1, 2, 3]).unwrap();
    assert_eq!(mapped.update(&mut rt), vec![1, 2, 3]);
    assert_eq!(counter.get(), 3); // no fresh mapping happened
}

/// Appending keeps the existing entries untouched and maps only the new one.
#[test]
fn keyed_append_reuses_prefix() {
    let mut rt: Runtime<Vec<i32>> = Runtime::new();
    let a = Signal::new(&mut rt, vec![1, 2, 3]);
    let counter = Cell::new(0);
    let mut mapped = map_keyed(a.handle(), |_: &i32| {
        counter.set(counter.get() + 1);
        counter.get()
    });
    assert_eq!(mapped.update(&mut rt), vec![1, 2, 3]);

    a.set(&mut rt, &mut (), vec![1, 2, 3, 4]).unwrap();
    assert_eq!(mapped.update(&mut rt), vec![1, 2, 3, 4]);
    assert_eq!(counter.get(), 4); // exactly one fresh mapping
}

/// Reordering moves outputs instead of remapping them.
#[test]
fn keyed_permutation_moves_outputs() {
    let mut rt: Runtime<Vec<i32>> = Runtime::new();
    let a = Signal::new(&mut rt, vec![1, 2, 3]);
    let counter = Cell::new(0);
    let mut mapped = map_keyed(a.handle(), |_: &i32| {
        counter.set(counter.get() + 1);
        counter.get()
    });
    assert_eq!(mapped.update(&mut rt), vec![1, 2, 3]);

    a.set(&mut rt, &mut (), vec![3, 1, 2]).unwrap();
    assert_eq!(mapped.update(&mut rt), vec![3, 1, 2]);
    assert_eq!(counter.get(), 3); // moved, not recomputed
}

#[test]
fn indexed() {
    let mut rt: Runtime<Vec<i32>> = Runtime::new();
    let a = Signal::new(&mut rt, vec![1, 2, 3]);
    let mut mapped = map_indexed(a.handle(), |x: &i32| *x * 2);
    assert_eq!(mapped.update(&mut rt), vec![2, 4, 6]);

    a.set(&mut rt, &mut (), vec![1, 2, 3, 4]).unwrap();
    assert_eq!(mapped.update(&mut rt), vec![2, 4, 6, 8]);

    a.set(&mut rt, &mut (), vec![2, 2, 3, 4]).unwrap();
    assert_eq!(mapped.update(&mut rt), vec![4, 4, 6, 8]);
}

/// Test fast path for clearing Vec.
#[test]
fn indexed_clear() {
    let mut rt: Runtime<Vec<i32>> = Runtime::new();
    let a = Signal::new(&mut rt, vec![1, 2, 3]);
    let mut mapped = map_indexed(a.handle(), |x: &i32| *x * 2);

    a.set(&mut rt, &mut (), Vec::new()).unwrap();
    assert_eq!(mapped.update(&mut rt), Vec::new());
}

/// Test that using indexed mapping will reuse previous computations.
#[test]
fn indexed_use_previous_computation() {
    let mut rt: Runtime<Vec<i32>> = Runtime::new();
    let a = Signal::new(&mut rt, vec![1, 2, 3]);
    let counter = Cell::new(0);
    let mut mapped = map_indexed(a.handle(), |_: &i32| {
        counter.set(counter.get() + 1);
        counter.get()
    });
    assert_eq!(mapped.update(&mut rt), vec![1, 2, 3]);

    a.set(&mut rt, &mut (), vec![1, 2]).unwrap();
    assert_eq!(mapped.update(&mut rt), vec![1, 2]);

    a.set(&mut rt, &mut (), vec![1, 2, 4]).unwrap();
    assert_eq!(mapped.update(&mut rt), vec![1, 2, 4]);

    a.set(&mut rt, &mut (), vec![1, 3, 4]).unwrap();
    assert_eq!(mapped.update(&mut rt), vec![1, 5, 4]);
}

/// Vectors are values too: a signal can hold one, and reading returns an
/// equal vector.
#[test]
fn vector_signals() {
    let mut rt: Runtime<Vec<i32>> = Runtime::new();
    let state = Signal::new(&mut rt, vec![1, 2]);
    assert_eq!(state.get(&mut rt), vec![1, 2]);

    state.set(&mut rt, &mut (), vec![7, 8, 9]).unwrap();
    assert_eq!(state.get(&mut rt), vec![7, 8, 9]);
}

/// Per-element vector equality drives a selector: a freshly allocated but
/// equal vector does not re-notify.
struct VecBodies {
    state: maple_core::StateHandle,
    runs: usize,
    sel: Option<maple_core::StateHandle>,
}

impl maple_core::Derivations<Vec<i32>> for VecBodies {
    fn derive(&mut self, rt: &mut Runtime<Vec<i32>>, slot: usize) -> Option<Vec<i32>> {
        match slot {
            0 => Some(self.state.get(rt)),
            1 => {
                self.runs += 1;
                let sel = self.sel?;
                Some(sel.get(rt))
            }
            _ => None,
        }
    }
}

#[test]
fn vector_selector_suppresses_equal_content() {
    let mut rt: Runtime<Vec<i32>> = Runtime::new();
    let state = Signal::new(&mut rt, vec![1, 2]);

    let mut bodies = VecBodies { state: state.handle(), runs: 0, sel: None };
    let sel = maple_core::create_selector(&mut rt, &mut bodies, 0).unwrap();
    bodies.sel = Some(sel);
    let _observer = maple_core::create_memo(&mut rt, &mut bodies, 1).unwrap();
    assert_eq!(bodies.runs, 1);

    state.set(&mut rt, &mut bodies, vec![1, 2]).unwrap(); // equal content, fresh vector
    assert_eq!(bodies.runs, 1);

    state.set(&mut rt, &mut bodies, vec![1, 3]).unwrap();
    assert_eq!(bodies.runs, 2);
    assert_eq!(sel.get(&mut rt), vec![1, 3]);
}

/// Reading a mapped list inside an effect subscribes the effect to the list:
/// a list write re-runs it.
fn double_item(x: &i32) -> i32 {
    *x * 2
}

struct ReactBodies {
    mapped: maple_core::IndexedState<i32, i32, fn(&i32) -> i32>,
    runs: usize,
    last: Vec<i32>,
}

impl maple_core::Derivations<Vec<i32>> for ReactBodies {
    fn derive(&mut self, rt: &mut Runtime<Vec<i32>>, slot: usize) -> Option<Vec<i32>> {
        match slot {
            0 => {
                self.runs += 1;
                self.last = self.mapped.update(rt); // subscribe to the list
                None
            }
            _ => None,
        }
    }
}

#[test]
fn indexed_react() {
    let mut rt: Runtime<Vec<i32>> = Runtime::new();
    let a = Signal::new(&mut rt, vec![1, 2, 3]);

    let mut bodies = ReactBodies {
        mapped: map_indexed(a.handle(), double_item as fn(&i32) -> i32),
        runs: 0,
        last: Vec::new(),
    };
    maple_core::create_effect(&mut rt, &mut bodies, 0);

    assert_eq!(bodies.runs, 1);
    assert_eq!(bodies.last, vec![2, 4, 6]);

    a.set(&mut rt, &mut bodies, vec![1, 2, 3, 4]).unwrap();
    assert_eq!(bodies.runs, 2);
    assert_eq!(bodies.last, vec![2, 4, 6, 8]);
}
