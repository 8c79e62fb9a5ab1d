//! A fine-grained reactive dependency-tracking engine.
//!
//! Signals hold values inside an explicit [`runtime::Runtime`]; tracked
//! computations rediscover their dependencies on every run; memos and
//! selectors expose derived values as signals of their own; and the keyed
//! and indexed list reconcilers diff a sequence against its previous state,
//! reusing per-item outputs and disposal scopes wherever possible.

pub mod datum;
pub mod indexed;
pub mod keyed;
pub mod laws;
pub mod memo;
pub mod runtime;

pub use datum::Datum;
pub use indexed::map_indexed;
pub use indexed::IndexedState;
pub use keyed::map_keyed;
pub use keyed::KeyedState;
pub use memo::create_effect;
pub use memo::create_memo;
pub use memo::create_selector;
pub use memo::create_selector_with;
pub use memo::propagate;
pub use memo::PROPAGATION_FUEL;
pub use memo::Derivations;
pub use runtime::NotifyRule;
pub use runtime::Runtime;
pub use runtime::RxError;
pub use runtime::Signal;
pub use runtime::StateHandle;
