//! Algebraic laws of the container and the product algebra, stated and
//! proved over the same spec functions the public contracts use.

use vstd::prelude::*;

use crate::coefficient::{cc_add, cc_is_zero};
use crate::operator::{
    key_index, lemma_add_term_props, lemma_canonical_unique, lemma_extend_pointwise,
    lemma_key_index_unique, lemma_set_term_props, spec_add_term, spec_contains,
    spec_extend_terms, spec_merge_value, spec_set_term, spec_value, wf_view, KeyView, TermsView,
};
use crate::product::{
    spec_sym_mul, wf_items, Sign, SingleDecoherenceOperator,
};

verus! {

/// Idempotence of storage: overwriting the entry for `k` with `c` twice
/// leaves exactly the state that one overwrite leaves, and a non-zero `c`
/// is then stored for `k` exactly once.
pub proof fn lemma_set_idempotent(s: TermsView, k: KeyView, c: qoqo_calculator::CalculatorComplex)
    ensures
        wf_view(s) && wf_items(k) ==> spec_set_term(spec_set_term(s, k, c), k, c)
            == spec_set_term(s, k, c),
        wf_view(s) && wf_items(k) && !cc_is_zero(c) ==> spec_contains(spec_set_term(s, k, c), k)
            && spec_value(spec_set_term(s, k, c), k) == c,
{
    if wf_view(s) && wf_items(k) {
        let s1 = spec_set_term(s, k, c);
        lemma_set_term_props(s, k, c);
        lemma_set_term_props(s1, k, c);
        lemma_canonical_unique(spec_set_term(s1, k, c), s1);
    }
}

/// Zero-cancellation: merging a fresh coefficient into an absent key and
/// then a second coefficient whose sum with the first is exactly zero
/// restores the original state — no entry for `k` remains, and the entry
/// count drops back.
pub proof fn lemma_add_term_cancels(
    s: TermsView,
    k: KeyView,
    c1: qoqo_calculator::CalculatorComplex,
    c2: qoqo_calculator::CalculatorComplex,
)
    requires
        wf_view(s),
        wf_items(k),
        !spec_contains(s, k),
        !cc_is_zero(c1),
        cc_is_zero(cc_add(c1, c2)),
    ensures
        spec_add_term(spec_add_term(s, k, c1), k, c2) == s,
        !spec_contains(spec_add_term(spec_add_term(s, k, c1), k, c2), k),
{
    let s1 = spec_add_term(s, k, c1);
    lemma_add_term_props(s, k, c1);
    assert(spec_merge_value(s, k, c1) == c1);
    assert(spec_contains(s1, k) && spec_value(s1, k) == c1);
    lemma_add_term_props(s1, k, c2);
    assert(spec_merge_value(s1, k, c2) == cc_add(c1, c2));
    let s2 = spec_add_term(s1, k, c2);
    assert(!spec_contains(s2, k));
    lemma_canonical_unique(s2, s);
}

/// Recombination of a partition: merging the two halves that
/// `separate_into_n_terms` produces gives back exactly the operator they
/// were split from. `n` is the spin count the first half was selected by.
pub proof fn lemma_separate_recombine(s: TermsView, sep: TermsView, rem: TermsView, n: usize)
    requires
        wf_view(s),
        wf_view(sep),
        wf_view(rem),
        forall|j: int|
            0 <= j < s.len() && (#[trigger] s[j]).0.len() == n ==> spec_contains(sep, s[j].0)
                && spec_value(sep, s[j].0) == s[j].1,
        forall|j: int|
            0 <= j < s.len() && (#[trigger] s[j]).0.len() != n ==> spec_contains(rem, s[j].0)
                && spec_value(rem, s[j].0) == s[j].1,
        forall|k: KeyView|
            #[trigger] spec_contains(sep, k) ==> spec_contains(s, k) && k.len() == n,
        forall|k: KeyView|
            #[trigger] spec_contains(rem, k) ==> spec_contains(s, k) && k.len() != n,
    ensures
        spec_extend_terms(sep, rem) == s,
{
    lemma_extend_pointwise(sep, rem);
    let r = spec_extend_terms(sep, rem);
    assert forall|k: KeyView| #[trigger] spec_contains(r, k) == spec_contains(s, k) by {
        if spec_contains(rem, k) {
            let i = key_index(s, k);
            lemma_key_index_unique(rem, key_index(rem, k));
            assert(!spec_contains(sep, k));
            assert(spec_merge_value(sep, k, spec_value(rem, k)) == spec_value(rem, k));
            let j = key_index(rem, k);
            assert(!cc_is_zero(rem[j].1));
            assert(spec_contains(r, k));
        } else {
            assert(spec_contains(r, k) == spec_contains(sep, k));
            if !spec_contains(sep, k) && spec_contains(s, k) {
                let j = key_index(s, k);
                assert(s[j].0 == k);
                if s[j].0.len() == n {
                    assert(spec_contains(sep, s[j].0));
                } else {
                    assert(spec_contains(rem, s[j].0));
                }
            }
        }
    }
    assert forall|k: KeyView| #[trigger] spec_contains(r, k) implies spec_value(r, k)
        == spec_value(s, k) by {
        let i = key_index(s, k);
        lemma_key_index_unique(s, i);
        if spec_contains(rem, k) {
            lemma_key_index_unique(rem, key_index(rem, k));
            assert(!spec_contains(sep, k));
            assert(spec_merge_value(sep, k, spec_value(rem, k)) == spec_value(rem, k));
            assert(spec_value(rem, k) == s[i].1) by {
                if s[i].0.len() == n {
                    assert(spec_contains(sep, s[i].0));
                } else {
                    assert(spec_value(rem, s[i].0) == s[i].1);
                }
            }
        } else {
            assert(spec_value(r, k) == spec_value(sep, k));
            assert(s[i].0.len() == n) by {
                if s[i].0.len() != n {
                    assert(spec_contains(rem, s[i].0));
                }
            }
            assert(spec_value(sep, s[i].0) == s[i].1);
        }
    }
    lemma_canonical_unique(r, s);
}

/// The single-spin products the decoherence symbol set realizes: X and Z
/// square to the identity with a positive sign, iY squares to the identity
/// with a negative sign (iY is not Hermitian-normalized to I), and the
/// off-diagonal products cycle through the set with the signs of the Pauli
/// algebra, e.g. Z * X = iY.
pub proof fn lemma_pauli_table()
    ensures
        spec_sym_mul(SingleDecoherenceOperator::X, SingleDecoherenceOperator::X) == (
            SingleDecoherenceOperator::Identity,
            Sign::Positive,
        ),
        spec_sym_mul(SingleDecoherenceOperator::Z, SingleDecoherenceOperator::Z) == (
            SingleDecoherenceOperator::Identity,
            Sign::Positive,
        ),
        spec_sym_mul(SingleDecoherenceOperator::IY, SingleDecoherenceOperator::IY) == (
            SingleDecoherenceOperator::Identity,
            Sign::Negative,
        ),
        spec_sym_mul(SingleDecoherenceOperator::Z, SingleDecoherenceOperator::X) == (
            SingleDecoherenceOperator::IY,
            Sign::Positive,
        ),
        spec_sym_mul(SingleDecoherenceOperator::X, SingleDecoherenceOperator::Z) == (
            SingleDecoherenceOperator::IY,
            Sign::Negative,
        ),
        spec_sym_mul(SingleDecoherenceOperator::IY, SingleDecoherenceOperator::X) == (
            SingleDecoherenceOperator::Z,
            Sign::Positive,
        ),
        spec_sym_mul(SingleDecoherenceOperator::X, SingleDecoherenceOperator::IY) == (
            SingleDecoherenceOperator::Z,
            Sign::Negative,
        ),
        spec_sym_mul(SingleDecoherenceOperator::Z, SingleDecoherenceOperator::IY) == (
            SingleDecoherenceOperator::X,
            Sign::Positive,
        ),
        spec_sym_mul(SingleDecoherenceOperator::IY, SingleDecoherenceOperator::Z) == (
            SingleDecoherenceOperator::X,
            Sign::Negative,
        ),
        forall|a: SingleDecoherenceOperator|
            spec_sym_mul(SingleDecoherenceOperator::Identity, a) == (a, Sign::Positive)
                && spec_sym_mul(a, SingleDecoherenceOperator::Identity) == (a, Sign::Positive),
{
    assert forall|a: SingleDecoherenceOperator|
        spec_sym_mul(SingleDecoherenceOperator::Identity, a) == (a, Sign::Positive)
            && spec_sym_mul(a, SingleDecoherenceOperator::Identity) == (a, Sign::Positive) by {
        match a {
            SingleDecoherenceOperator::Identity => {},
            SingleDecoherenceOperator::X => {},
            SingleDecoherenceOperator::IY => {},
            SingleDecoherenceOperator::Z => {},
        }
    }
}

} // verus!

