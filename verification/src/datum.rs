//! The value discipline for everything a cell can hold.
//!
//! The engine stores, hands out and compares values of a single type per
//! runtime.  [`Datum`] says what it needs from that type: a specification of
//! value equality, an executable decision procedure for it, and a way to
//! duplicate a value without help from the verifier-opaque `Clone` machinery.

use vstd::prelude::*;

verus! {

/// A value that a cell can hold: comparable and duplicable, with the meaning
/// of both pinned down in specifications.
pub trait Datum: Sized {
    /// What equality of two values means in every contract of this crate.
    spec fn veq(&self, other: &Self) -> bool;

    /// Value equality is reflexive.
    proof fn lemma_veq_refl(&self)
        ensures
            self.veq(self),
    ;

    /// Value equality is symmetric.
    proof fn lemma_veq_sym(&self, other: &Self)
        ensures
            self.veq(other) == other.veq(self),
    ;

    /// Value equality is transitive.
    proof fn lemma_veq_trans(&self, mid: &Self, last: &Self)
        requires
            self.veq(mid),
            mid.veq(last),
        ensures
            self.veq(last),
    ;

    /// Decides [`Datum::veq`].
    fn eq_check(&self, other: &Self) -> (r: bool)
        ensures
            r == self.veq(other),
    ;

    /// An owned duplicate of the value.
    fn dup(&self) -> (r: Self)
        ensures
            self.veq(&r),
    ;
}

impl Datum for i32 {
    open spec fn veq(&self, other: &Self) -> bool {
        self == other
    }

    proof fn lemma_veq_refl(&self) {
    }

    proof fn lemma_veq_sym(&self, other: &Self) {
    }

    proof fn lemma_veq_trans(&self, mid: &Self, last: &Self) {
    }

    fn eq_check(&self, other: &Self) -> (r: bool) {
        *self == *other
    }

    fn dup(&self) -> (r: Self) {
        *self
    }
}

impl Datum for i64 {
    open spec fn veq(&self, other: &Self) -> bool {
        self == other
    }

    proof fn lemma_veq_refl(&self) {
    }

    proof fn lemma_veq_sym(&self, other: &Self) {
    }

    proof fn lemma_veq_trans(&self, mid: &Self, last: &Self) {
    }

    fn eq_check(&self, other: &Self) -> (r: bool) {
        *self == *other
    }

    fn dup(&self) -> (r: Self) {
        *self
    }
}

impl Datum for u32 {
    open spec fn veq(&self, other: &Self) -> bool {
        self == other
    }

    proof fn lemma_veq_refl(&self) {
    }

    proof fn lemma_veq_sym(&self, other: &Self) {
    }

    proof fn lemma_veq_trans(&self, mid: &Self, last: &Self) {
    }

    fn eq_check(&self, other: &Self) -> (r: bool) {
        *self == *other
    }

    fn dup(&self) -> (r: Self) {
        *self
    }
}

impl Datum for u64 {
    open spec fn veq(&self, other: &Self) -> bool {
        self == other
    }

    proof fn lemma_veq_refl(&self) {
    }

    proof fn lemma_veq_sym(&self, other: &Self) {
    }

    proof fn lemma_veq_trans(&self, mid: &Self, last: &Self) {
    }

    fn eq_check(&self, other: &Self) -> (r: bool) {
        *self == *other
    }

    fn dup(&self) -> (r: Self) {
        *self
    }
}

impl Datum for usize {
    open spec fn veq(&self, other: &Self) -> bool {
        self == other
    }

    proof fn lemma_veq_refl(&self) {
    }

    proof fn lemma_veq_sym(&self, other: &Self) {
    }

    proof fn lemma_veq_trans(&self, mid: &Self, last: &Self) {
    }

    fn eq_check(&self, other: &Self) -> (r: bool) {
        *self == *other
    }

    fn dup(&self) -> (r: Self) {
        *self
    }
}

impl Datum for bool {
    open spec fn veq(&self, other: &Self) -> bool {
        self == other
    }

    proof fn lemma_veq_refl(&self) {
    }

    proof fn lemma_veq_sym(&self, other: &Self) {
    }

    proof fn lemma_veq_trans(&self, mid: &Self, last: &Self) {
    }

    fn eq_check(&self, other: &Self) -> (r: bool) {
        *self == *other
    }

    fn dup(&self) -> (r: Self) {
        *self
    }
}

impl<T: Datum> Datum for Vec<T> {
    open spec fn veq(&self, other: &Self) -> bool {
        &&& self@.len() == other@.len()
        &&& forall|i: int| 0 <= i < self@.len() ==> #[trigger] self@[i].veq(&other@[i])
    }

    proof fn lemma_veq_refl(&self) {
        assert forall|i: int| 0 <= i < self@.len() implies #[trigger] self@[i].veq(&self@[i]) by {
            self@[i].lemma_veq_refl();
        }
    }

    proof fn lemma_veq_sym(&self, other: &Self) {
        if self.veq(other) {
            assert forall|i: int| 0 <= i < other@.len() implies #[trigger] other@[i].veq(
                &self@[i],
            ) by {
                assert(self@[i].veq(&other@[i]));
                self@[i].lemma_veq_sym(&other@[i]);
            }
        }
        if other.veq(self) {
            assert forall|i: int| 0 <= i < self@.len() implies #[trigger] self@[i].veq(
                &other@[i],
            ) by {
                assert(other@[i].veq(&self@[i]));
                self@[i].lemma_veq_sym(&other@[i]);
            }
        }
    }

    proof fn lemma_veq_trans(&self, mid: &Self, last: &Self) {
        assert forall|i: int| 0 <= i < self@.len() implies #[trigger] self@[i].veq(&last@[i]) by {
            assert(self@[i].veq(&mid@[i]));
            assert(mid@[i].veq(&last@[i]));
            self@[i].lemma_veq_trans(&mid@[i], &last@[i]);
        }
    }

    fn eq_check(&self, other: &Self) -> (r: bool) {
        if self.len() != other.len() {
            return false;
        }
        let n: usize = self.len();
        let mut i: usize = 0;
        while i < n
            invariant
                n == self@.len(),
                n == other@.len(),
                i <= n,
                forall|k: int| 0 <= k < i ==> #[trigger] self@[k].veq(&other@[k]),
            decreases n - i,
        {
            if !self[i].eq_check(&other[i]) {
                return false;
            }
            i = i + 1;
        }
        true
    }

    fn dup(&self) -> (r: Self) {
        let n: usize = self.len();
        let mut r: Vec<T> = Vec::new();
        let mut i: usize = 0;
        while i < n
            invariant
                n == self@.len(),
                i <= n,
                r@.len() == i,
                forall|k: int| 0 <= k < i ==> #[trigger] self@[k].veq(&r@[k]),
            decreases n - i,
        {
            r.push(self[i].dup());
            i = i + 1;
        }
        r
    }
}

} // verus!
