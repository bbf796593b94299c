//! The capacity-bounded Lindblad noise container: a noise operator together
//! with an optional declared spin count, which both products of every
//! inserted dissipator key must respect.

use vstd::prelude::*;

use crate::error::StruqtureError;
use crate::noise::{
    spec_noise_contains, spec_noise_value, DecoherenceLindbladNoiseOperator, NoiseKeyView,
};
use crate::product::DecoherenceProduct;
use crate::system::spec_key_fits;

verus! {

/// Whether both sides of a dissipator key stay below a declared spin
/// bound. An unbounded container accepts every key.
pub open spec fn spec_noise_key_fits(k: NoiseKeyView, bound: Option<usize>) -> bool {
    spec_key_fits(k.0, bound) && spec_key_fits(k.1, bound)
}

/// A noise operator with an optional declared spin count. Every mutating
/// call checks both products of the inserted key against the bound and
/// fails without touching the container when either names a spin at or
/// above it.
#[derive(Clone, Debug, PartialEq)]
pub struct DecoherenceLindbladNoiseSystem {
    pub number_spins: Option<usize>,
    pub operator: DecoherenceLindbladNoiseOperator,
}

impl DecoherenceLindbladNoiseSystem {
    /// The container invariant: the inner noise operator is well formed and
    /// every stored key respects the declared bound.
    pub open spec fn wf(&self) -> bool {
        &&& self.operator.wf()
        &&& forall|i: int|
            0 <= i < self.operator@.len() ==> spec_noise_key_fits(
                (#[trigger] self.operator@[i]).0,
                self.number_spins,
            )
    }

    /// A new, empty noise system with the given optional spin bound.
    pub fn new(number_spins: Option<usize>) -> (r: Self)
        ensures
            r.wf(),
            r.number_spins == number_spins,
            r.operator@.len() == 0,
    {
        DecoherenceLindbladNoiseSystem {
            number_spins,
            operator: DecoherenceLindbladNoiseOperator::new(),
        }
    }

    /// Check one dissipator key against the bound; the error names the
    /// first offending index and the declared spin count.
    fn check_key(&self, left: &DecoherenceProduct, right: &DecoherenceProduct) -> (r: Result<
        (),
        StruqtureError,
    >)
        ensures
            spec_noise_key_fits((left@, right@), self.number_spins) ==> r == Ok::<
                (),
                StruqtureError,
            >(()),
            !spec_noise_key_fits((left@, right@), self.number_spins) ==> r is Err
                && r->Err_0 is CapacityViolation,
    {
        if let Some(b) = self.number_spins {
            if left.items.len() > 0 {
                let last = left.items[left.items.len() - 1].0;
                if last >= b {
                    return Err(
                        StruqtureError::CapacityViolation { index: last, number_spins: b },
                    );
                }
            }
            if right.items.len() > 0 {
                let last = right.items[right.items.len() - 1].0;
                if last >= b {
                    return Err(
                        StruqtureError::CapacityViolation { index: last, number_spins: b },
                    );
                }
            }
        }
        Ok(())
    }

    /// Merge `value` into the entry for the dissipator `(left, right)`, as
    /// the unbounded noise operator does, after checking both products
    /// against the declared bound: a key at or above it fails with
    /// `CapacityViolation` and the container is left unchanged.
    pub fn add_operator_product(
        &mut self,
        left: DecoherenceProduct,
        right: DecoherenceProduct,
        value: qoqo_calculator::CalculatorComplex,
    ) -> (r: Result<(), StruqtureError>)
        requires
            old(self).wf(),
            left.wf(),
            right.wf(),
        ensures
            final(self).wf(),
            final(self).number_spins == old(self).number_spins,
            !spec_noise_key_fits((left@, right@), old(self).number_spins) ==> *final(self)
                == *old(self) && r is Err && r->Err_0 is CapacityViolation,
            spec_noise_key_fits((left@, right@), old(self).number_spins) ==> r == Ok::<
                (),
                StruqtureError,
            >(()) && ({
                let merged = if spec_noise_contains(old(self).operator@, (left@, right@)) {
                    crate::coefficient::cc_add(
                        spec_noise_value(old(self).operator@, (left@, right@)),
                        value,
                    )
                } else {
                    value
                };
                &&& !crate::coefficient::cc_is_zero(merged) ==> spec_noise_contains(
                    final(self).operator@,
                    (left@, right@),
                ) && spec_noise_value(final(self).operator@, (left@, right@)) == merged
                &&& crate::coefficient::cc_is_zero(merged) ==> !spec_noise_contains(
                    final(self).operator@,
                    (left@, right@),
                )
            }),
            forall|k: NoiseKeyView|
                k != (left@, right@) ==> #[trigger] spec_noise_contains(final(self).operator@, k)
                    == spec_noise_contains(old(self).operator@, k),
            forall|k: NoiseKeyView|
                k != (left@, right@) && spec_noise_contains(old(self).operator@, k)
                    ==> #[trigger] spec_noise_value(final(self).operator@, k)
                    == spec_noise_value(old(self).operator@, k),
    {
        if let Err(e) = self.check_key(&left, &right) {
            return Err(e);
        }
        let ghost saved = self.operator@;
        let ghost kview: NoiseKeyView = (left@, right@);
        let r = self.operator.add_operator_product(left, right, value);
        proof {
            assert forall|i: int| 0 <= i < self.operator@.len() implies spec_noise_key_fits(
                (#[trigger] self.operator@[i]).0,
                self.number_spins,
            ) by {
                crate::noise::lemma_noise_key_index_unique(self.operator@, i);
                let k = self.operator@[i].0;
                if k != kview {
                    assert(spec_noise_contains(saved, k));
                    let j = crate::noise::noise_key_index(saved, k);
                    assert(saved[j].0 == k);
                }
            }
        }
        r
    }

    /// The coefficient stored for the dissipator `(left, right)`, or the
    /// zero coefficient when no entry is stored — a lookup never fails.
    pub fn get(&self, left: &DecoherenceProduct, right: &DecoherenceProduct) -> (r:
        qoqo_calculator::CalculatorComplex)
        requires
            self.wf(),
        ensures
            spec_noise_contains(self.operator@, (left@, right@)) ==> r == spec_noise_value(
                self.operator@,
                (left@, right@),
            ),
            !spec_noise_contains(self.operator@, (left@, right@))
                ==> crate::coefficient::cc_is_zero(r),
    {
        self.operator.get(left, right)
    }

    /// The number of stored dissipator entries.
    pub fn len(&self) -> (r: usize)
        ensures
            r == self.operator@.len(),
    {
        self.operator.len()
    }

    /// True when no entry is stored.
    pub fn is_empty(&self) -> (r: bool)
        ensures
            r == (self.operator@.len() == 0),
    {
        self.operator.is_empty()
    }
}

} // verus!
