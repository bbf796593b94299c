//! The Lindblad noise container: a sparse map from ordered pairs of
//! product keys to complex coefficients.
//!
//! A pair `(left, right)` stands for one dissipator term `L_left rho
//! L_right^dagger`. The container follows the same rules as the plain
//! operator: entries in ascending pair order, unique keys, no exactly-zero
//! coefficient stored, merge with exact cancellation.

use vstd::prelude::*;

use crate::coefficient::{
    cc_add, cc_add_exec, cc_conj, cc_conj_exec, cc_is_zero, cc_is_zero_exec, cc_neg, cc_neg_exec,
    cc_zero_exec,
};
use crate::error::StruqtureError;
use crate::operator::KeyView;
use crate::product::{
    lemma_items_lt_asym, lemma_items_lt_connex, lemma_items_lt_irrefl, lemma_items_lt_trans,
    spec_items_lt, wf_items, DecoherenceProduct,
};

verus! {

/// The view of a dissipator key: the two product views, left and right.
pub type NoiseKeyView = (KeyView, KeyView);

/// The view of a noise operator: its entries in ascending pair order.
pub type NoiseTermsView = Seq<(NoiseKeyView, qoqo_calculator::CalculatorComplex)>;

/// The order on dissipator keys: by left product, then right product.
pub open spec fn spec_noise_lt(a: NoiseKeyView, b: NoiseKeyView) -> bool {
    spec_items_lt(a.0, b.0) || (a.0 == b.0 && spec_items_lt(a.1, b.1))
}

/// The pair order is irreflexive.
pub proof fn lemma_noise_lt_irrefl(a: NoiseKeyView)
    ensures
        !spec_noise_lt(a, a),
{
    lemma_items_lt_irrefl(a.0);
    lemma_items_lt_irrefl(a.1);
}

/// The pair order is total.
pub proof fn lemma_noise_lt_connex(a: NoiseKeyView, b: NoiseKeyView)
    ensures
        a == b || spec_noise_lt(a, b) || spec_noise_lt(b, a),
{
    lemma_items_lt_connex(a.0, b.0);
    lemma_items_lt_connex(a.1, b.1);
}

/// The pair order is transitive.
pub proof fn lemma_noise_lt_trans(a: NoiseKeyView, b: NoiseKeyView, c: NoiseKeyView)
    requires
        spec_noise_lt(a, b),
        spec_noise_lt(b, c),
    ensures
        spec_noise_lt(a, c),
{
    if a.0 == b.0 && b.0 == c.0 {
        lemma_items_lt_irrefl(a.0);
        lemma_items_lt_trans(a.1, b.1, c.1);
    } else if a.0 == b.0 {
    } else if b.0 == c.0 {
    } else {
        lemma_items_lt_trans(a.0, b.0, c.0);
    }
}

/// The pair order is asymmetric.
pub proof fn lemma_noise_lt_asym(a: NoiseKeyView, b: NoiseKeyView)
    requires
        spec_noise_lt(a, b),
    ensures
        !spec_noise_lt(b, a),
{
    lemma_items_lt_irrefl(a.0);
    lemma_items_lt_irrefl(b.0);
    if a.0 == b.0 {
        lemma_items_lt_asym(a.1, b.1);
    } else {
        lemma_items_lt_asym(a.0, b.0);
    }
}

/// The container invariant over a noise view: canonical products on both
/// sides, strictly ascending pair order, no exactly-zero coefficient.
pub open spec fn wf_noise_view(s: NoiseTermsView) -> bool {
    &&& forall|i: int|
        0 <= i < s.len() ==> wf_items((#[trigger] s[i]).0.0) && wf_items(s[i].0.1)
    &&& forall|i: int, j: int|
        0 <= i < j < s.len() ==> spec_noise_lt((#[trigger] s[i]).0, (#[trigger] s[j]).0)
    &&& forall|i: int| 0 <= i < s.len() ==> !cc_is_zero((#[trigger] s[i]).1)
}

/// Whether the view holds an entry for pair key `k`.
pub open spec fn spec_noise_contains(s: NoiseTermsView, k: NoiseKeyView) -> bool {
    exists|i: int| 0 <= i < s.len() && (#[trigger] s[i]).0 == k
}

/// The position of pair key `k` in the view (meaningful when present).
pub open spec fn noise_key_index(s: NoiseTermsView, k: NoiseKeyView) -> int {
    choose|i: int| 0 <= i < s.len() && (#[trigger] s[i]).0 == k
}

/// The coefficient stored for pair key `k` (meaningful when present).
pub open spec fn spec_noise_value(s: NoiseTermsView, k: NoiseKeyView) -> qoqo_calculator::CalculatorComplex {
    s[noise_key_index(s, k)].1
}

/// In a well-formed noise view, the position of a present key is unique.
pub proof fn lemma_noise_key_index_unique(s: NoiseTermsView, i: int)
    requires
        wf_noise_view(s),
        0 <= i < s.len(),
    ensures
        noise_key_index(s, s[i].0) == i,
        spec_noise_contains(s, s[i].0),
        spec_noise_value(s, s[i].0) == s[i].1,
{
    assert(spec_noise_contains(s, s[i].0));
    let j = noise_key_index(s, s[i].0);
    if j != i {
        lemma_noise_lt_irrefl(s[i].0);
    }
}

/// Removing position `pos` from a well-formed noise view: the key there
/// vanishes and every other key keeps its coefficient.
pub proof fn lemma_noise_remove_pointwise(s: NoiseTermsView, pos: int)
    requires
        wf_noise_view(s),
        0 <= pos < s.len(),
    ensures
        wf_noise_view(s.remove(pos)),
        !spec_noise_contains(s.remove(pos), s[pos].0),
        forall|k: NoiseKeyView|
            k != s[pos].0 ==> #[trigger] spec_noise_contains(s.remove(pos), k)
                == spec_noise_contains(s, k),
        forall|k: NoiseKeyView|
            k != s[pos].0 && spec_noise_contains(s, k) ==> #[trigger] spec_noise_value(
                s.remove(pos),
                k,
            ) == spec_noise_value(s, k),
{
    let v = s.remove(pos);
    assert(forall|i: int| 0 <= i < pos ==> #[trigger] v[i] == s[i]);
    assert(forall|i: int| pos <= i < v.len() ==> #[trigger] v[i] == s[i + 1]);
    assert forall|i: int| 0 <= i < v.len() implies (#[trigger] v[i]).0 != s[pos].0 by {
        lemma_noise_lt_irrefl(s[pos].0);
    }
    assert forall|k: NoiseKeyView| k != s[pos].0 implies #[trigger] spec_noise_contains(v, k)
        == spec_noise_contains(s, k) by {
        if spec_noise_contains(s, k) {
            let i = noise_key_index(s, k);
            if i < pos {
                assert(v[i].0 == k);
            } else {
                assert(i > pos);
                assert(v[i - 1].0 == k);
            }
        }
        if spec_noise_contains(v, k) {
            let i = noise_key_index(v, k);
            if i < pos {
                assert(s[i].0 == k);
            } else {
                assert(s[i + 1].0 == k);
            }
        }
    }
    assert forall|k: NoiseKeyView| k != s[pos].0 && spec_noise_contains(s, k)
        implies #[trigger] spec_noise_value(v, k) == spec_noise_value(s, k) by {
        let i = noise_key_index(s, k);
        lemma_noise_key_index_unique(s, i);
        if i < pos {
            lemma_noise_key_index_unique(v, i);
        } else {
            lemma_noise_key_index_unique(v, i - 1);
        }
    }
}

/// Inserting `(k, c)` at the position where every earlier key is below `k`
/// and every later key above it: the view stays well formed, `k` now maps
/// to `c`, and every other key keeps its coefficient.
pub proof fn lemma_noise_insert_pointwise(
    s: NoiseTermsView,
    pos: int,
    k: NoiseKeyView,
    c: qoqo_calculator::CalculatorComplex,
)
    requires
        wf_noise_view(s),
        wf_items(k.0),
        wf_items(k.1),
        !cc_is_zero(c),
        0 <= pos <= s.len(),
        forall|i: int| 0 <= i < pos ==> spec_noise_lt((#[trigger] s[i]).0, k),
        forall|i: int| pos <= i < s.len() ==> spec_noise_lt(k, (#[trigger] s[i]).0),
    ensures
        wf_noise_view(s.insert(pos, (k, c))),
        spec_noise_contains(s.insert(pos, (k, c)), k),
        spec_noise_value(s.insert(pos, (k, c)), k) == c,
        forall|k2: NoiseKeyView|
            k2 != k ==> #[trigger] spec_noise_contains(s.insert(pos, (k, c)), k2)
                == spec_noise_contains(s, k2),
        forall|k2: NoiseKeyView|
            k2 != k && spec_noise_contains(s, k2) ==> #[trigger] spec_noise_value(
                s.insert(pos, (k, c)),
                k2,
            ) == spec_noise_value(s, k2),
{
    let v = s.insert(pos, (k, c));
    assert(forall|i: int| 0 <= i < pos ==> #[trigger] v[i] == s[i]);
    assert(v[pos] == (k, c));
    assert(forall|i: int| pos < i < v.len() ==> #[trigger] v[i] == s[i - 1]);
    assert forall|i: int, j: int| 0 <= i < j < v.len() implies spec_noise_lt(
        (#[trigger] v[i]).0,
        (#[trigger] v[j]).0,
    ) by {
        if i < pos && j > pos {
            lemma_noise_lt_trans(s[i].0, k, s[j - 1].0);
        }
    }
    lemma_noise_key_index_unique(v, pos);
    assert forall|k2: NoiseKeyView| k2 != k implies #[trigger] spec_noise_contains(v, k2)
        == spec_noise_contains(s, k2) by {
        if spec_noise_contains(s, k2) {
            let i = noise_key_index(s, k2);
            if i < pos {
                assert(v[i].0 == k2);
            } else {
                assert(v[i + 1].0 == k2);
            }
        }
        if spec_noise_contains(v, k2) {
            let i = noise_key_index(v, k2);
            if i < pos {
                assert(s[i].0 == k2);
            } else {
                assert(i > pos);
                assert(s[i - 1].0 == k2);
            }
        }
    }
    assert forall|k2: NoiseKeyView| k2 != k && spec_noise_contains(s, k2)
        implies #[trigger] spec_noise_value(v, k2) == spec_noise_value(s, k2) by {
        let i = noise_key_index(s, k2);
        lemma_noise_key_index_unique(s, i);
        if i < pos {
            lemma_noise_key_index_unique(v, i);
        } else {
            lemma_noise_key_index_unique(v, i + 1);
        }
    }
}

/// A sparse sum of Lindblad dissipator terms: ordered pairs of product
/// keys with complex coefficients, under the same storage rules as the
/// plain operator.
#[derive(Clone, Debug, PartialEq)]
pub struct DecoherenceLindbladNoiseOperator {
    pub terms: Vec<((DecoherenceProduct, DecoherenceProduct), qoqo_calculator::CalculatorComplex)>,
}

/// The view of a list of stored noise terms.
pub open spec fn noise_terms_view(
    v: Seq<((DecoherenceProduct, DecoherenceProduct), qoqo_calculator::CalculatorComplex)>,
) -> NoiseTermsView {
    Seq::new(v.len(), |i: int| (((v[i]).0.0@, (v[i]).0.1@), (v[i]).1))
}

impl View for DecoherenceLindbladNoiseOperator {
    type V = NoiseTermsView;

    open spec fn view(&self) -> NoiseTermsView {
        noise_terms_view(self.terms@)
    }
}

impl DecoherenceLindbladNoiseOperator {
    /// The container invariant.
    pub open spec fn wf(&self) -> bool {
        wf_noise_view(self@)
    }

    /// A new, empty noise operator.
    pub fn new() -> (r: Self)
        ensures
            r@ == Seq::<(NoiseKeyView, qoqo_calculator::CalculatorComplex)>::empty(),
            r.wf(),
    {
        let r = DecoherenceLindbladNoiseOperator { terms: Vec::new() };
        proof {
            assert(r@ =~= Seq::<(NoiseKeyView, qoqo_calculator::CalculatorComplex)>::empty());
        }
        r
    }

    /// The number of stored dissipator entries.
    pub fn len(&self) -> (r: usize)
        ensures
            r == self@.len(),
    {
        self.terms.len()
    }

    /// True when no entry is stored.
    pub fn is_empty(&self) -> (r: bool)
        ensures
            r == (self@.len() == 0),
    {
        self.terms.len() == 0
    }

    /// Compare two pair keys in the pair order.
    fn pair_lt(
        a0: &DecoherenceProduct,
        a1: &DecoherenceProduct,
        b0: &DecoherenceProduct,
        b1: &DecoherenceProduct,
    ) -> (r: bool)
        ensures
            r == spec_noise_lt((a0@, a1@), (b0@, b1@)),
    {
        if a0.lt(b0) {
            true
        } else if a0.key_eq(b0) {
            a1.lt(b1)
        } else {
            false
        }
    }

    /// Locate a pair key: the number of stored keys below it, and whether
    /// it is stored at that position.
    fn find(&self, left: &DecoherenceProduct, right: &DecoherenceProduct) -> (r: (usize, bool))
        requires
            self.wf(),
        ensures
            r.0 <= self@.len(),
            forall|i: int|
                0 <= i < r.0 ==> spec_noise_lt((#[trigger] self@[i]).0, (left@, right@)),
            r.1 ==> r.0 < self@.len() && self@[r.0 as int].0 == (left@, right@),
            !r.1 ==> forall|i: int|
                r.0 <= i < self@.len() ==> spec_noise_lt((left@, right@), (#[trigger] self@[i]).0),
            r.1 == spec_noise_contains(self@, (left@, right@)),
            r.1 ==> r.0 == noise_key_index(self@, (left@, right@)),
    {
        let ghost key: NoiseKeyView = (left@, right@);
        let mut i: usize = 0;
        while i < self.terms.len() && Self::pair_lt(
            &self.terms[i].0.0,
            &self.terms[i].0.1,
            left,
            right,
        )
            invariant
                self.wf(),
                key == (left@, right@),
                i <= self.terms.len(),
                forall|j: int| 0 <= j < i ==> spec_noise_lt((#[trigger] self@[j]).0, key),
            decreases self.terms.len() - i,
        {
            i = i + 1;
        }
        if i < self.terms.len() && self.terms[i].0.0.key_eq(left) && self.terms[i].0.1.key_eq(
            right,
        ) {
            proof {
                lemma_noise_key_index_unique(self@, i as int);
            }
            (i, true)
        } else {
            proof {
                assert forall|j: int| i <= j < self@.len() implies spec_noise_lt(
                    key,
                    (#[trigger] self@[j]).0,
                ) by {
                    if j == i {
                        lemma_noise_lt_connex(key, self@[j].0);
                    } else {
                        lemma_noise_lt_connex(key, self@[i as int].0);
                        lemma_noise_lt_trans(key, self@[i as int].0, self@[j].0);
                    }
                }
                assert forall|j: int| 0 <= j < self@.len() implies (#[trigger] self@[j]).0 != key
                    by {
                    lemma_noise_lt_irrefl(key);
                }
                assert(!spec_noise_contains(self@, key));
            }
            (i, false)
        }
    }

    /// The coefficient stored for the dissipator `(left, right)`, or the
    /// zero coefficient when no entry is stored — a lookup never fails.
    pub fn get(&self, left: &DecoherenceProduct, right: &DecoherenceProduct) -> (r:
        qoqo_calculator::CalculatorComplex)
        requires
            self.wf(),
        ensures
            spec_noise_contains(self@, (left@, right@)) ==> r == spec_noise_value(
                self@,
                (left@, right@),
            ),
            !spec_noise_contains(self@, (left@, right@)) ==> cc_is_zero(r),
    {
        let (pos, found) = self.find(left, right);
        if found {
            self.terms[pos].1.clone()
        } else {
            cc_zero_exec()
        }
    }

    /// Remove the entry for the dissipator `(left, right)`, returning its
    /// coefficient if one was stored.
    pub fn remove(&mut self, left: &DecoherenceProduct, right: &DecoherenceProduct) -> (r: Option<
        qoqo_calculator::CalculatorComplex,
    >)
        requires
            old(self).wf(),
        ensures
            final(self).wf(),
            !spec_noise_contains(final(self)@, (left@, right@)),
            forall|k: NoiseKeyView|
                k != (left@, right@) ==> #[trigger] spec_noise_contains(final(self)@, k)
                    == spec_noise_contains(old(self)@, k),
            forall|k: NoiseKeyView|
                k != (left@, right@) && spec_noise_contains(old(self)@, k)
                    ==> #[trigger] spec_noise_value(final(self)@, k) == spec_noise_value(
                    old(self)@,
                    k,
                ),
            spec_noise_contains(old(self)@, (left@, right@)) ==> r == Some(
                spec_noise_value(old(self)@, (left@, right@)),
            ) && final(self)@.len() == old(self)@.len() - 1,
            !spec_noise_contains(old(self)@, (left@, right@)) ==> r == Option::<
                qoqo_calculator::CalculatorComplex,
            >::None && final(self)@ == old(self)@,
    {
        let (pos, found) = self.find(left, right);
        if found {
            proof {
                lemma_noise_remove_pointwise(self@, pos as int);
            }
            let (_, c) = self.terms.remove(pos);
            proof {
                assert(final(self)@ =~= old(self)@.remove(pos as int));
            }
            Some(c)
        } else {
            None
        }
    }

    /// Overwrite the entry for the dissipator `(left, right)` with
    /// coefficient `value`: a non-zero value is stored, an exactly-zero
    /// value clears the entry. Returns the previously stored coefficient,
    /// if any; on this unbounded container the call always succeeds.
    pub fn set(
        &mut self,
        left: DecoherenceProduct,
        right: DecoherenceProduct,
        value: qoqo_calculator::CalculatorComplex,
    ) -> (r: Result<Option<qoqo_calculator::CalculatorComplex>, StruqtureError>)
        requires
            old(self).wf(),
            left.wf(),
            right.wf(),
        ensures
            final(self).wf(),
            !cc_is_zero(value) ==> spec_noise_contains(final(self)@, (left@, right@))
                && spec_noise_value(final(self)@, (left@, right@)) == value,
            cc_is_zero(value) ==> !spec_noise_contains(final(self)@, (left@, right@)),
            forall|k: NoiseKeyView|
                k != (left@, right@) ==> #[trigger] spec_noise_contains(final(self)@, k)
                    == spec_noise_contains(old(self)@, k),
            forall|k: NoiseKeyView|
                k != (left@, right@) && spec_noise_contains(old(self)@, k)
                    ==> #[trigger] spec_noise_value(final(self)@, k) == spec_noise_value(
                    old(self)@,
                    k,
                ),
            spec_noise_contains(old(self)@, (left@, right@)) ==> r == Ok::<_, StruqtureError>(
                Some(spec_noise_value(old(self)@, (left@, right@))),
            ),
            !spec_noise_contains(old(self)@, (left@, right@)) ==> r == Ok::<_, StruqtureError>(
                Option::<qoqo_calculator::CalculatorComplex>::None,
            ),
    {
        let (pos, found) = self.find(&left, &right);
        let old_value: Option<qoqo_calculator::CalculatorComplex> = if found {
            let c = self.terms[pos].1.clone();
            proof {
                lemma_noise_remove_pointwise(self@, pos as int);
            }
            let _ = self.terms.remove(pos);
            proof {
                assert(self@ =~= old(self)@.remove(pos as int));
            }
            Some(c)
        } else {
            None
        };
        proof {
            assert forall|i: int| pos <= i < self@.len() implies spec_noise_lt(
                (left@, right@),
                (#[trigger] self@[i]).0,
            ) by {
                if found {
                    assert(self@[i] == old(self)@[i + 1]);
                } else {
                    assert(self@[i] == old(self)@[i]);
                }
            }
        }
        if !cc_is_zero_exec(&value) {
            let ghost mid = self@;
            proof {
                lemma_noise_insert_pointwise(self@, pos as int, (left@, right@), value);
            }
            self.terms.insert(pos, ((left, right), value));
            proof {
                assert(self@ =~= mid.insert(pos as int, ((left@, right@), value)));
            }
        }
        Ok(old_value)
    }

    /// Merge `value` into the entry for the dissipator `(left, right)`:
    /// absent keys are inserted, present keys have their coefficients
    /// summed, and a merged coefficient that is exactly zero removes the
    /// entry. On this unbounded container the call always succeeds.
    pub fn add_operator_product(
        &mut self,
        left: DecoherenceProduct,
        right: DecoherenceProduct,
        value: qoqo_calculator::CalculatorComplex,
    ) -> (r: Result<(), StruqtureError>)
        requires
            old(self).wf(),
            left.wf(),
            right.wf(),
        ensures
            final(self).wf(),
            r == Ok::<(), StruqtureError>(()),
            ({
                let merged = if spec_noise_contains(old(self)@, (left@, right@)) {
                    cc_add(spec_noise_value(old(self)@, (left@, right@)), value)
                } else {
                    value
                };
                &&& !cc_is_zero(merged) ==> spec_noise_contains(final(self)@, (left@, right@))
                    && spec_noise_value(final(self)@, (left@, right@)) == merged
                &&& cc_is_zero(merged) ==> !spec_noise_contains(final(self)@, (left@, right@))
            }),
            forall|k: NoiseKeyView|
                k != (left@, right@) ==> #[trigger] spec_noise_contains(final(self)@, k)
                    == spec_noise_contains(old(self)@, k),
            forall|k: NoiseKeyView|
                k != (left@, right@) && spec_noise_contains(old(self)@, k)
                    ==> #[trigger] spec_noise_value(final(self)@, k) == spec_noise_value(
                    old(self)@,
                    k,
                ),
    {
        let (pos, found) = self.find(&left, &right);
        let sum: qoqo_calculator::CalculatorComplex = if found {
            proof {
                lemma_noise_key_index_unique(old(self)@, pos as int);
            }
            let s = cc_add_exec(&self.terms[pos].1, &value);
            proof {
                lemma_noise_remove_pointwise(self@, pos as int);
            }
            let _ = self.terms.remove(pos);
            proof {
                assert(self@ =~= old(self)@.remove(pos as int));
            }
            s
        } else {
            value
        };
        proof {
            assert forall|i: int| pos <= i < self@.len() implies spec_noise_lt(
                (left@, right@),
                (#[trigger] self@[i]).0,
            ) by {
                if found {
                    assert(self@[i] == old(self)@[i + 1]);
                } else {
                    assert(self@[i] == old(self)@[i]);
                }
            }
        }
        if !cc_is_zero_exec(&sum) {
            let ghost mid = self@;
            proof {
                lemma_noise_insert_pointwise(self@, pos as int, (left@, right@), sum);
            }
            self.terms.insert(pos, ((left, right), sum));
            proof {
                assert(self@ =~= mid.insert(pos as int, ((left@, right@), sum)));
            }
        }
        Ok(())
    }

    /// The stored entries, in ascending pair order: each dissipator pair
    /// beside its coefficient.
    pub fn to_pairs(&self) -> (r: Vec<
        ((DecoherenceProduct, DecoherenceProduct), qoqo_calculator::CalculatorComplex),
    >)
        ensures
            r@.len() == self@.len(),
            forall|i: int|
                0 <= i < r@.len() ==> ((#[trigger] r@[i]).0.0@ == self@[i].0.0 && r@[i].0.1@
                    == self@[i].0.1 && r@[i].1 == self@[i].1),
    {
        let mut out: Vec<
            ((DecoherenceProduct, DecoherenceProduct), qoqo_calculator::CalculatorComplex),
        > = Vec::new();
        let mut i: usize = 0;
        while i < self.terms.len()
            invariant
                i <= self.terms.len(),
                out@.len() == i,
                forall|j: int|
                    0 <= j < i ==> ((#[trigger] out@[j]).0.0@ == self@[j].0.0 && out@[j].0.1@
                        == self@[j].0.1 && out@[j].1 == self@[j].1),
            decreases self.terms.len() - i,
        {
            let pair = (self.terms[i].0.0.duplicate(), self.terms[i].0.1.duplicate());
            out.push((pair, self.terms[i].1.clone()));
            i = i + 1;
        }
        out
    }

    /// Negate every coefficient; the dissipator keys are untouched.
    pub fn neg(&self) -> (r: Self)
        requires
            self.wf(),
        ensures
            r.wf(),
            r@.len() == self@.len(),
            forall|i: int|
                0 <= i < self@.len() ==> (#[trigger] r@[i]).0 == self@[i].0 && r@[i].1 == cc_neg(
                    self@[i].1,
                ),
    {
        let mut out: Vec<
            ((DecoherenceProduct, DecoherenceProduct), qoqo_calculator::CalculatorComplex),
        > = Vec::new();
        let mut i: usize = 0;
        while i < self.terms.len()
            invariant
                self.wf(),
                i <= self.terms.len(),
                out@.len() == i,
                forall|j: int|
                    0 <= j < i ==> ((#[trigger] out@[j]).0.0@ == self@[j].0.0 && out@[j].0.1@
                        == self@[j].0.1 && out@[j].1 == cc_neg(self@[j].1)),
                forall|j: int| 0 <= j < i ==> !cc_is_zero((#[trigger] out@[j]).1),
            decreases self.terms.len() - i,
        {
            proof {
                assert(!cc_is_zero(self@[i as int].1));
            }
            let pair = (self.terms[i].0.0.duplicate(), self.terms[i].0.1.duplicate());
            let c = cc_neg_exec(&self.terms[i].1);
            out.push((pair, c));
            i = i + 1;
            proof {
                let j = i as int - 1;
                assert(self@[j] == ((self.terms@[j].0.0@, self.terms@[j].0.1@), self.terms@[j].1));
            }
        }
        let r = DecoherenceLindbladNoiseOperator { terms: out };
        proof {
            assert forall|j: int| 0 <= j < r@.len() implies (#[trigger] r@[j]).0 == self@[j].0
                && r@[j].1 == cc_neg(self@[j].1) by {
                assert(r@[j] == ((out@[j].0.0@, out@[j].0.1@), out@[j].1));
                assert(self@[j] == ((self.terms@[j].0.0@, self.terms@[j].0.1@), self.terms@[j].1));
            }
            assert(forall|j: int| 0 <= j < r@.len() ==> (#[trigger] r@[j]).0 == self@[j].0);
        }
        r
    }
}


impl DecoherenceLindbladNoiseOperator {
    /// Merge every entry of `other` into this noise operator, entry by
    /// entry, with the merge-add semantics of
    /// [`Self::add_operator_product`]: a key of `other` ends up holding its
    /// merged coefficient (or vanishes when that is exactly zero), every
    /// other key is untouched.
    pub fn extend(&mut self, other: &Self)
        requires
            old(self).wf(),
            other.wf(),
        ensures
            final(self).wf(),
            forall|k: NoiseKeyView|
                #[trigger] spec_noise_contains(other@, k) ==> ({
                    let merged = if spec_noise_contains(old(self)@, k) {
                        cc_add(spec_noise_value(old(self)@, k), spec_noise_value(other@, k))
                    } else {
                        spec_noise_value(other@, k)
                    };
                    &&& !cc_is_zero(merged) ==> spec_noise_contains(final(self)@, k)
                        && spec_noise_value(final(self)@, k) == merged
                    &&& cc_is_zero(merged) ==> !spec_noise_contains(final(self)@, k)
                }),
            forall|k: NoiseKeyView|
                !spec_noise_contains(other@, k) ==> #[trigger] spec_noise_contains(
                    final(self)@,
                    k,
                ) == spec_noise_contains(old(self)@, k),
            forall|k: NoiseKeyView|
                !spec_noise_contains(other@, k) && spec_noise_contains(old(self)@, k)
                    ==> #[trigger] spec_noise_value(final(self)@, k) == spec_noise_value(
                    old(self)@,
                    k,
                ),
    {
        let mut i: usize = 0;
        while i < other.terms.len()
            invariant
                self.wf(),
                other.wf(),
                i <= other.terms.len(),
                forall|k: NoiseKeyView|
                    #[trigger] spec_noise_contains(other@, k) && noise_key_index(other@, k) < i
                        ==> ({
                        let merged = if spec_noise_contains(old(self)@, k) {
                            cc_add(spec_noise_value(old(self)@, k), spec_noise_value(other@, k))
                        } else {
                            spec_noise_value(other@, k)
                        };
                        &&& !cc_is_zero(merged) ==> spec_noise_contains(self@, k)
                            && spec_noise_value(self@, k) == merged
                        &&& cc_is_zero(merged) ==> !spec_noise_contains(self@, k)
                    }),
                forall|k: NoiseKeyView|
                    !(spec_noise_contains(other@, k) && noise_key_index(other@, k) < i)
                        ==> #[trigger] spec_noise_contains(self@, k) == spec_noise_contains(
                        old(self)@,
                        k,
                    ),
                forall|k: NoiseKeyView|
                    !(spec_noise_contains(other@, k) && noise_key_index(other@, k) < i)
                        && spec_noise_contains(old(self)@, k) ==> #[trigger] spec_noise_value(
                        self@,
                        k,
                    ) == spec_noise_value(old(self)@, k),
            decreases other.terms.len() - i,
        {
            proof {
                lemma_noise_key_index_unique(other@, i as int);
                assert(wf_items(other@[i as int].0.0));
                assert(wf_items(other@[i as int].0.1));
            }
            let ghost ki: NoiseKeyView = other@[i as int].0;
            let left = other.terms[i].0.0.duplicate();
            let right = other.terms[i].0.1.duplicate();
            let c = other.terms[i].1.clone();
            let _ = self.add_operator_product(left, right, c);
            i = i + 1;
            proof {
                assert forall|k: NoiseKeyView|
                    #[trigger] spec_noise_contains(other@, k) && noise_key_index(other@, k) < i
                        implies ({
                        let merged = if spec_noise_contains(old(self)@, k) {
                            cc_add(spec_noise_value(old(self)@, k), spec_noise_value(other@, k))
                        } else {
                            spec_noise_value(other@, k)
                        };
                        &&& !cc_is_zero(merged) ==> spec_noise_contains(self@, k)
                            && spec_noise_value(self@, k) == merged
                        &&& cc_is_zero(merged) ==> !spec_noise_contains(self@, k)
                    }) by {
                    let j = noise_key_index(other@, k);
                    lemma_noise_key_index_unique(other@, j);
                    if j == i - 1 {
                        assert(k == ki);
                        assert(spec_noise_value(other@, k) == other@[i - 1].1);
                    } else {
                        assert(k != ki) by {
                            lemma_noise_lt_irrefl(k);
                        }
                    }
                }
            }
        }
        proof {
            assert forall|k: NoiseKeyView| #[trigger] spec_noise_contains(other@, k)
                implies noise_key_index(other@, k) < i by {
                let j = noise_key_index(other@, k);
            }
        }
    }

    /// The sum of two noise operators: entry-wise merge, with exactly-zero
    /// merged coefficients cancelled away.
    pub fn add(self, other: Self) -> (r: Self)
        requires
            self.wf(),
            other.wf(),
        ensures
            r.wf(),
            forall|k: NoiseKeyView|
                #[trigger] spec_noise_contains(other@, k) ==> ({
                    let merged = if spec_noise_contains(self@, k) {
                        cc_add(spec_noise_value(self@, k), spec_noise_value(other@, k))
                    } else {
                        spec_noise_value(other@, k)
                    };
                    &&& !cc_is_zero(merged) ==> spec_noise_contains(r@, k) && spec_noise_value(
                        r@,
                        k,
                    ) == merged
                    &&& cc_is_zero(merged) ==> !spec_noise_contains(r@, k)
                }),
            forall|k: NoiseKeyView|
                !spec_noise_contains(other@, k) ==> #[trigger] spec_noise_contains(r@, k)
                    == spec_noise_contains(self@, k),
            forall|k: NoiseKeyView|
                !spec_noise_contains(other@, k) && spec_noise_contains(self@, k)
                    ==> #[trigger] spec_noise_value(r@, k) == spec_noise_value(self@, k),
    {
        let mut acc = self;
        acc.extend(&other);
        acc
    }

    /// The difference of two noise operators: entry-wise merge of the
    /// negation of `other`, with exactly-zero merged coefficients cancelled
    /// away.
    pub fn sub(self, other: Self) -> (r: Self)
        requires
            self.wf(),
            other.wf(),
        ensures
            r.wf(),
            forall|k: NoiseKeyView|
                #[trigger] spec_noise_contains(other@, k) ==> ({
                    let merged = if spec_noise_contains(self@, k) {
                        cc_add(spec_noise_value(self@, k), cc_neg(spec_noise_value(other@, k)))
                    } else {
                        cc_neg(spec_noise_value(other@, k))
                    };
                    &&& !cc_is_zero(merged) ==> spec_noise_contains(r@, k) && spec_noise_value(
                        r@,
                        k,
                    ) == merged
                    &&& cc_is_zero(merged) ==> !spec_noise_contains(r@, k)
                }),
            forall|k: NoiseKeyView|
                !spec_noise_contains(other@, k) ==> #[trigger] spec_noise_contains(r@, k)
                    == spec_noise_contains(self@, k),
            forall|k: NoiseKeyView|
                !spec_noise_contains(other@, k) && spec_noise_contains(self@, k)
                    ==> #[trigger] spec_noise_value(r@, k) == spec_noise_value(self@, k),
    {
        let negated = other.neg();
        proof {
            assert forall|k: NoiseKeyView| #[trigger] spec_noise_contains(negated@, k)
                == spec_noise_contains(other@, k) by {
                if spec_noise_contains(other@, k) {
                    let j = noise_key_index(other@, k);
                    assert(negated@[j].0 == k);
                }
                if spec_noise_contains(negated@, k) {
                    let j = noise_key_index(negated@, k);
                    assert(other@[j].0 == k);
                }
            }
            assert forall|k: NoiseKeyView| #[trigger] spec_noise_contains(other@, k)
                implies spec_noise_value(negated@, k) == cc_neg(spec_noise_value(other@, k)) by {
                let j = noise_key_index(other@, k);
                lemma_noise_key_index_unique(other@, j);
                lemma_noise_key_index_unique(negated@, j);
            }
        }
        let ghost self0 = self@;
        let mut acc = self;
        acc.extend(&negated);
        proof {
            assert forall|k: NoiseKeyView| #[trigger] spec_noise_contains(other@, k) implies ({
                let merged = if spec_noise_contains(self0, k) {
                    cc_add(spec_noise_value(self0, k), cc_neg(spec_noise_value(other@, k)))
                } else {
                    cc_neg(spec_noise_value(other@, k))
                };
                &&& !cc_is_zero(merged) ==> spec_noise_contains(acc@, k) && spec_noise_value(
                    acc@,
                    k,
                ) == merged
                &&& cc_is_zero(merged) ==> !spec_noise_contains(acc@, k)
            }) by {
                assert(spec_noise_contains(negated@, k));
                assert(spec_noise_value(negated@, k) == cc_neg(spec_noise_value(other@, k)));
            }
        }
        acc
    }
}



impl DecoherenceLindbladNoiseOperator {
    /// Hermitian conjugation of the noise map: the dissipator term built
    /// from the pair `(left, right)` turns into the one built from
    /// `(right, left)`, with the coefficient conjugated.
    pub fn hermitian_conjugate(&self) -> (r: Self)
        requires
            self.wf(),
        ensures
            r.wf(),
            forall|k: NoiseKeyView|
                #[trigger] spec_noise_contains(r@, k) == spec_noise_contains(self@, (k.1, k.0)),
            forall|k: NoiseKeyView|
                spec_noise_contains(self@, (k.1, k.0)) ==> #[trigger] spec_noise_value(r@, k)
                    == cc_conj(spec_noise_value(self@, (k.1, k.0))),
    {
        let mut acc = DecoherenceLindbladNoiseOperator::new();
        let mut i: usize = 0;
        while i < self.terms.len()
            invariant
                self.wf(),
                acc.wf(),
                i <= self.terms.len(),
                forall|j: int|
                    0 <= j < i ==> spec_noise_contains(
                        acc@,
                        ((#[trigger] self@[j]).0.1, self@[j].0.0),
                    ) && spec_noise_value(acc@, (self@[j].0.1, self@[j].0.0)) == cc_conj(
                        self@[j].1,
                    ),
                forall|k: NoiseKeyView|
                    #[trigger] spec_noise_contains(acc@, k) ==> spec_noise_contains(
                        self@,
                        (k.1, k.0),
                    ) && noise_key_index(self@, (k.1, k.0)) < i,
            decreases self.terms.len() - i,
        {
            proof {
                lemma_noise_key_index_unique(self@, i as int);
                assert(wf_items(self@[i as int].0.0));
                assert(wf_items(self@[i as int].0.1));
                assert(!cc_is_zero(self@[i as int].1));
            }
            let ghost orig: NoiseKeyView = self@[i as int].0;
            let ghost swapped: NoiseKeyView = (orig.1, orig.0);
            let left = self.terms[i].0.1.duplicate();
            let right = self.terms[i].0.0.duplicate();
            let c = cc_conj_exec(&self.terms[i].1);
            proof {
                if spec_noise_contains(acc@, swapped) {
                    assert(spec_noise_contains(self@, (swapped.1, swapped.0)));
                    assert((swapped.1, swapped.0) == orig);
                    assert(noise_key_index(self@, orig) < i);
                }
                assert(!spec_noise_contains(acc@, swapped));
            }
            let ghost before = acc@;
            let _ = acc.add_operator_product(left, right, c);
            i = i + 1;
            proof {
                assert(spec_noise_contains(acc@, swapped));
                assert(spec_noise_value(acc@, swapped) == cc_conj(self@[i - 1].1));
                assert forall|j: int|
                    0 <= j < i implies spec_noise_contains(
                        acc@,
                        ((#[trigger] self@[j]).0.1, self@[j].0.0),
                    ) && spec_noise_value(acc@, (self@[j].0.1, self@[j].0.0)) == cc_conj(
                        self@[j].1,
                    ) by {
                    if j < i - 1 {
                        let kj: NoiseKeyView = (self@[j].0.1, self@[j].0.0);
                        assert(kj != swapped) by {
                            if kj == swapped {
                                assert(self@[j].0 == orig);
                                lemma_noise_key_index_unique(self@, j);
                                lemma_noise_key_index_unique(self@, i - 1);
                            }
                        }
                    }
                }
                assert forall|k: NoiseKeyView| #[trigger] spec_noise_contains(acc@, k)
                    implies spec_noise_contains(self@, (k.1, k.0)) && noise_key_index(
                    self@,
                    (k.1, k.0),
                ) < i by {
                    if k != swapped {
                        assert(spec_noise_contains(before, k));
                    } else {
                        assert((k.1, k.0) == orig);
                        lemma_noise_key_index_unique(self@, i - 1);
                    }
                }
            }
        }
        proof {
            assert forall|k: NoiseKeyView|
                #[trigger] spec_noise_contains(acc@, k) == spec_noise_contains(
                    self@,
                    (k.1, k.0),
                ) by {
                if spec_noise_contains(self@, (k.1, k.0)) {
                    let j = noise_key_index(self@, (k.1, k.0));
                    lemma_noise_key_index_unique(self@, j);
                    assert(spec_noise_contains(acc@, (self@[j].0.1, self@[j].0.0)));
                    assert((self@[j].0.1, self@[j].0.0) == k);
                }
            }
            assert forall|k: NoiseKeyView| spec_noise_contains(self@, (k.1, k.0))
                implies #[trigger] spec_noise_value(acc@, k) == cc_conj(
                spec_noise_value(self@, (k.1, k.0)),
            ) by {
                let j = noise_key_index(self@, (k.1, k.0));
                lemma_noise_key_index_unique(self@, j);
                assert(spec_noise_value(acc@, (self@[j].0.1, self@[j].0.0)) == cc_conj(
                    self@[j].1,
                ));
                assert((self@[j].0.1, self@[j].0.0) == k);
            }
        }
        acc
    }
}


} // verus!
