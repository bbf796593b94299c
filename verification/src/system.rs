//! The capacity-bounded container: an operator together with an optional
//! declared spin count, which every inserted key must respect.

use vstd::prelude::*;

use crate::error::StruqtureError;
use crate::operator::{
    spec_add_term, spec_contains, spec_set_term, spec_spins, spec_value, DecoherenceOperator,
    KeyView,
};
use crate::product::DecoherenceProduct;

verus! {

/// Whether a key stays below a declared spin bound: every index it names
/// is smaller than the bound. An unbounded container accepts every key.
pub open spec fn spec_key_fits(k: KeyView, bound: Option<usize>) -> bool {
    match bound {
        Option::None => true,
        Option::Some(b) => k.len() > 0 ==> k[k.len() - 1].0 < b,
    }
}

/// An operator with an optional declared spin count. Every mutating call
/// checks the inserted key against the bound and fails without touching the
/// container when the key names a spin at or above it.
#[derive(Clone, Debug, PartialEq)]
pub struct DecoherenceSystem {
    pub number_spins: Option<usize>,
    pub operator: DecoherenceOperator,
}

impl DecoherenceSystem {
    /// The container invariant: the inner operator is well formed and every
    /// stored key respects the declared bound.
    pub open spec fn wf(&self) -> bool {
        &&& self.operator.wf()
        &&& forall|i: int|
            0 <= i < self.operator@.len() ==> spec_key_fits(
                (#[trigger] self.operator@[i]).0,
                self.number_spins,
            )
    }

    /// A new, empty system with the given optional spin bound.
    pub fn new(number_spins: Option<usize>) -> (r: Self)
        ensures
            r.wf(),
            r.number_spins == number_spins,
            r.operator@.len() == 0,
    {
        DecoherenceSystem { number_spins, operator: DecoherenceOperator::new() }
    }

    /// The spin count of the system: the declared bound where one was
    /// given, otherwise what the stored terms currently touch.
    pub fn number_spins(&self) -> (r: usize)
        requires
            self.wf(),
            forall|i: int|
                0 <= i < self.operator@.len() && (#[trigger] self.operator@[i]).0.len() > 0
                    ==> self.operator@[i].0[self.operator@[i].0.len() - 1].0 < usize::MAX,
        ensures
            self.number_spins is Some ==> r == self.number_spins->0,
            self.number_spins is None ==> r == spec_spins(self.operator@),
    {
        match self.number_spins {
            Some(b) => b,
            None => self.operator.current_number_spins(),
        }
    }

    /// Check one key against the bound; the error names the offending index
    /// and the declared spin count.
    fn check_key(&self, key: &DecoherenceProduct) -> (r: Result<(), StruqtureError>)
        ensures
            spec_key_fits(key@, self.number_spins) ==> r == Ok::<(), StruqtureError>(()),
            !spec_key_fits(key@, self.number_spins) ==> r == Err::<(), StruqtureError>(
                StruqtureError::CapacityViolation {
                    index: key@[key@.len() - 1].0,
                    number_spins: self.number_spins->0,
                },
            ),
    {
        if let Some(b) = self.number_spins {
            if key.items.len() > 0 {
                let last = key.items[key.items.len() - 1].0;
                if last >= b {
                    return Err(
                        StruqtureError::CapacityViolation { index: last, number_spins: b },
                    );
                }
            }
        }
        Ok(())
    }

    /// Overwrite the entry for `key`, as the unbounded operator does, after
    /// checking the key against the declared bound: a key at or above it
    /// fails with `CapacityViolation` and the container is left unchanged.
    pub fn set(&mut self, key: DecoherenceProduct, value: qoqo_calculator::CalculatorComplex) -> (r:
        Result<Option<qoqo_calculator::CalculatorComplex>, StruqtureError>)
        requires
            old(self).wf(),
            key.wf(),
        ensures
            final(self).wf(),
            final(self).number_spins == old(self).number_spins,
            !spec_key_fits(key@, old(self).number_spins) ==> *final(self) == *old(self) && r
                == Err::<Option<qoqo_calculator::CalculatorComplex>, StruqtureError>(
                StruqtureError::CapacityViolation {
                    index: key@[key@.len() - 1].0,
                    number_spins: old(self).number_spins->0,
                },
            ),
            spec_key_fits(key@, old(self).number_spins) ==> {
                &&& final(self).operator@ == spec_set_term(old(self).operator@, key@, value)
                &&& spec_contains(old(self).operator@, key@) ==> r == Ok::<
                    _,
                    StruqtureError,
                >(Some(spec_value(old(self).operator@, key@)))
                &&& !spec_contains(old(self).operator@, key@) ==> r == Ok::<
                    _,
                    StruqtureError,
                >(Option::<qoqo_calculator::CalculatorComplex>::None)
            },
    {
        if let Err(e) = self.check_key(&key) {
            return Err(e);
        }
        let ghost saved = self.operator@;
        let ghost kview = key@;
        let r = self.operator.set(key, value);
        proof {
            crate::operator::lemma_set_term_props(saved, kview, value);
            assert forall|i: int| 0 <= i < self.operator@.len() implies spec_key_fits(
                (#[trigger] self.operator@[i]).0,
                self.number_spins,
            ) by {
                crate::operator::lemma_key_index_unique(self.operator@, i);
                let k = self.operator@[i].0;
                if k != kview {
                    assert(spec_contains(saved, k));
                    let j = crate::operator::key_index(saved, k);
                    assert(saved[j].0 == k);
                }
            }
        }
        r
    }

    /// Merge `value` into the entry for `key`, as the unbounded operator
    /// does, after checking the key against the declared bound: a key at or
    /// above it fails with `CapacityViolation` and the container is left
    /// unchanged.
    pub fn add_operator_product(
        &mut self,
        key: DecoherenceProduct,
        value: qoqo_calculator::CalculatorComplex,
    ) -> (r: Result<(), StruqtureError>)
        requires
            old(self).wf(),
            key.wf(),
        ensures
            final(self).wf(),
            final(self).number_spins == old(self).number_spins,
            !spec_key_fits(key@, old(self).number_spins) ==> *final(self) == *old(self) && r
                == Err::<(), StruqtureError>(
                StruqtureError::CapacityViolation {
                    index: key@[key@.len() - 1].0,
                    number_spins: old(self).number_spins->0,
                },
            ),
            spec_key_fits(key@, old(self).number_spins) ==> final(self).operator@
                == spec_add_term(old(self).operator@, key@, value) && r == Ok::<
                (),
                StruqtureError,
            >(()),
    {
        if let Err(e) = self.check_key(&key) {
            return Err(e);
        }
        let ghost saved = self.operator@;
        let ghost kview = key@;
        let r = self.operator.add_operator_product(key, value);
        proof {
            crate::operator::lemma_add_term_props(saved, kview, value);
            assert forall|i: int| 0 <= i < self.operator@.len() implies spec_key_fits(
                (#[trigger] self.operator@[i]).0,
                self.number_spins,
            ) by {
                crate::operator::lemma_key_index_unique(self.operator@, i);
                let k = self.operator@[i].0;
                if k != kview {
                    assert(spec_contains(saved, k));
                    let j = crate::operator::key_index(saved, k);
                    assert(saved[j].0 == k);
                }
            }
        }
        r
    }

    /// The coefficient stored for `key`, or the zero coefficient when no
    /// entry is stored — a lookup never fails, also on an out-of-bound key.
    pub fn get(&self, key: &DecoherenceProduct) -> (r: qoqo_calculator::CalculatorComplex)
        requires
            self.wf(),
        ensures
            spec_contains(self.operator@, key@) ==> r == spec_value(self.operator@, key@),
            !spec_contains(self.operator@, key@) ==> crate::coefficient::cc_is_zero(r),
    {
        self.operator.get(key)
    }

    /// Remove the entry for `key`, returning its coefficient if one was
    /// stored.
    pub fn remove(&mut self, key: &DecoherenceProduct) -> (r: Option<
        qoqo_calculator::CalculatorComplex,
    >)
        requires
            old(self).wf(),
        ensures
            final(self).wf(),
            final(self).number_spins == old(self).number_spins,
            !spec_contains(final(self).operator@, key@),
            spec_contains(old(self).operator@, key@) ==> r == Some(
                spec_value(old(self).operator@, key@),
            ),
            !spec_contains(old(self).operator@, key@) ==> r == Option::<
                qoqo_calculator::CalculatorComplex,
            >::None && final(self).operator@ == old(self).operator@,
    {
        let ghost saved = self.operator@;
        let ghost kview = key@;
        let r = self.operator.remove(key);
        proof {
            assert forall|i: int| 0 <= i < self.operator@.len() implies spec_key_fits(
                (#[trigger] self.operator@[i]).0,
                self.number_spins,
            ) by {
                crate::operator::lemma_key_index_unique(self.operator@, i);
                let k = self.operator@[i].0;
                if k != kview {
                    assert(spec_contains(saved, k));
                    let j = crate::operator::key_index(saved, k);
                    assert(saved[j].0 == k);
                }
            }
        }
        r
    }

    /// The number of stored entries.
    pub fn len(&self) -> (r: usize)
        ensures
            r == self.operator@.len(),
    {
        self.operator.len()
    }

    /// True when no entry is stored.
    pub fn is_empty(&self) -> (r: bool)
        ensures
            r == (self.operator@.len() == 0),
    {
        self.operator.is_empty()
    }
}

} // verus!
