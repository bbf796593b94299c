//! The sparse operator container: a map from canonical product keys to
//! complex coefficients.
//!
//! Entries are kept in ascending key order, keys are unique, and no entry
//! ever holds a coefficient that is exactly zero; merging two entries with
//! the same key sums their coefficients, and a sum that is exactly zero
//! removes the entry.

use vstd::prelude::*;

use crate::coefficient::{
    cc_add, cc_add_exec, cc_is_zero, cc_is_zero_exec, cc_mul, cc_mul_exec, cc_neg, cc_neg_exec,
    cc_conj, cc_conj_exec, cc_zero_exec,
};
use crate::error::StruqtureError;
use crate::product::{
    lemma_items_lt_asym, lemma_items_lt_connex, lemma_items_lt_irrefl, lemma_items_lt_trans,
    spec_items_lt, wf_items, DecoherenceProduct, SingleDecoherenceOperator,
};

verus! {

/// The view of one product key: its canonical entry list.
pub type KeyView = Seq<(usize, SingleDecoherenceOperator)>;

/// The view of an operator: its entries in ascending key order.
pub type TermsView = Seq<(KeyView, qoqo_calculator::CalculatorComplex)>;

/// The view of a list of stored terms: each product replaced by its
/// canonical entry list.
pub open spec fn terms_view(
    v: Seq<(DecoherenceProduct, qoqo_calculator::CalculatorComplex)>,
) -> TermsView {
    Seq::new(v.len(), |i: int| ((v[i]).0@, v[i].1))
}

/// The container invariant over a view: canonical keys, strictly ascending
/// key order (hence unique keys), and no exactly-zero coefficient stored.
pub open spec fn wf_view(s: TermsView) -> bool {
    &&& forall|i: int| 0 <= i < s.len() ==> wf_items((#[trigger] s[i]).0)
    &&& forall|i: int, j: int|
        0 <= i < j < s.len() ==> spec_items_lt((#[trigger] s[i]).0, (#[trigger] s[j]).0)
    &&& forall|i: int| 0 <= i < s.len() ==> !cc_is_zero((#[trigger] s[i]).1)
}

/// Whether the view holds an entry for key `k`.
pub open spec fn spec_contains(s: TermsView, k: KeyView) -> bool {
    exists|i: int| 0 <= i < s.len() && (#[trigger] s[i]).0 == k
}

/// The position of key `k` in the view (meaningful when present).
pub open spec fn key_index(s: TermsView, k: KeyView) -> int {
    choose|i: int| 0 <= i < s.len() && (#[trigger] s[i]).0 == k
}

/// The coefficient stored for key `k` (meaningful when present).
pub open spec fn spec_value(s: TermsView, k: KeyView) -> qoqo_calculator::CalculatorComplex {
    s[key_index(s, k)].1
}

/// In a well-formed view, the position of a present key is unique.
pub proof fn lemma_key_index_unique(s: TermsView, i: int)
    requires
        wf_view(s),
        0 <= i < s.len(),
    ensures
        key_index(s, s[i].0) == i,
        spec_contains(s, s[i].0),
        spec_value(s, s[i].0) == s[i].1,
{
    assert(spec_contains(s, s[i].0));
    let j = key_index(s, s[i].0);
    if j != i {
        if i < j {
            lemma_items_lt_irrefl(s[i].0);
        } else {
            lemma_items_lt_irrefl(s[i].0);
        }
    }
}

/// Removing position `pos` from a well-formed view: the key there vanishes
/// and every other key keeps its coefficient.
pub proof fn lemma_remove_pointwise(s: TermsView, pos: int)
    requires
        wf_view(s),
        0 <= pos < s.len(),
    ensures
        wf_view(s.remove(pos)),
        !spec_contains(s.remove(pos), s[pos].0),
        forall|k: KeyView|
            k != s[pos].0 ==> #[trigger] spec_contains(s.remove(pos), k) == spec_contains(s, k),
        forall|k: KeyView|
            k != s[pos].0 && spec_contains(s, k) ==> #[trigger] spec_value(s.remove(pos), k)
                == spec_value(s, k),
{
    let v = s.remove(pos);
    assert(forall|i: int| 0 <= i < pos ==> #[trigger] v[i] == s[i]);
    assert(forall|i: int| pos <= i < v.len() ==> #[trigger] v[i] == s[i + 1]);
    assert forall|i: int| 0 <= i < v.len() implies (#[trigger] v[i]).0 != s[pos].0 by {
        if i < pos {
            lemma_items_lt_irrefl(s[pos].0);
        } else {
            lemma_items_lt_irrefl(s[pos].0);
        }
    }
    assert forall|k: KeyView| k != s[pos].0 implies #[trigger] spec_contains(v, k)
        == spec_contains(s, k) by {
        if spec_contains(s, k) {
            let i = key_index(s, k);
            if i < pos {
                assert(v[i].0 == k);
            } else {
                assert(i > pos);
                assert(v[i - 1].0 == k);
            }
        }
        if spec_contains(v, k) {
            let i = key_index(v, k);
            if i < pos {
                assert(s[i].0 == k);
            } else {
                assert(s[i + 1].0 == k);
            }
        }
    }
    assert forall|k: KeyView| k != s[pos].0 && spec_contains(s, k) implies #[trigger] spec_value(
        v,
        k,
    ) == spec_value(s, k) by {
        let i = key_index(s, k);
        lemma_key_index_unique(s, i);
        if i < pos {
            lemma_key_index_unique(v, i);
        } else {
            lemma_key_index_unique(v, i - 1);
        }
    }
}

/// Inserting `(k, c)` at the position where every earlier key is below `k`
/// and every later key above it: the view stays well formed, `k` now maps to
/// `c`, and every other key keeps its coefficient.
pub proof fn lemma_insert_pointwise(
    s: TermsView,
    pos: int,
    k: KeyView,
    c: qoqo_calculator::CalculatorComplex,
)
    requires
        wf_view(s),
        wf_items(k),
        !cc_is_zero(c),
        0 <= pos <= s.len(),
        forall|i: int| 0 <= i < pos ==> spec_items_lt((#[trigger] s[i]).0, k),
        forall|i: int| pos <= i < s.len() ==> spec_items_lt(k, (#[trigger] s[i]).0),
    ensures
        wf_view(s.insert(pos, (k, c))),
        spec_contains(s.insert(pos, (k, c)), k),
        spec_value(s.insert(pos, (k, c)), k) == c,
        forall|k2: KeyView|
            k2 != k ==> #[trigger] spec_contains(s.insert(pos, (k, c)), k2) == spec_contains(
                s,
                k2,
            ),
        forall|k2: KeyView|
            k2 != k && spec_contains(s, k2) ==> #[trigger] spec_value(s.insert(pos, (k, c)), k2)
                == spec_value(s, k2),
{
    let v = s.insert(pos, (k, c));
    assert(forall|i: int| 0 <= i < pos ==> #[trigger] v[i] == s[i]);
    assert(v[pos] == (k, c));
    assert(forall|i: int| pos < i < v.len() ==> #[trigger] v[i] == s[i - 1]);
    assert forall|i: int, j: int| 0 <= i < j < v.len() implies spec_items_lt(
        (#[trigger] v[i]).0,
        (#[trigger] v[j]).0,
    ) by {
        if i < pos && j > pos {
            lemma_items_lt_trans(s[i].0, k, s[j - 1].0);
        }
    }
    lemma_key_index_unique(v, pos);
    assert forall|k2: KeyView| k2 != k implies #[trigger] spec_contains(v, k2) == spec_contains(
        s,
        k2,
    ) by {
        if spec_contains(s, k2) {
            let i = key_index(s, k2);
            if i < pos {
                assert(v[i].0 == k2);
            } else {
                assert(v[i + 1].0 == k2);
            }
        }
        if spec_contains(v, k2) {
            let i = key_index(v, k2);
            if i < pos {
                assert(s[i].0 == k2);
            } else {
                assert(i > pos);
                assert(s[i - 1].0 == k2);
            }
        }
    }
    assert forall|k2: KeyView| k2 != k && spec_contains(s, k2) implies #[trigger] spec_value(
        v,
        k2,
    ) == spec_value(s, k2) by {
        let i = key_index(s, k2);
        lemma_key_index_unique(s, i);
        if i < pos {
            lemma_key_index_unique(v, i);
        } else {
            lemma_key_index_unique(v, i + 1);
        }
    }
}

/// Every key of `s` lies strictly above `kb` in the key order.
pub open spec fn keys_above(s: TermsView, kb: KeyView) -> bool {
    forall|i: int| 0 <= i < s.len() ==> spec_items_lt(kb, (#[trigger] s[i]).0)
}

/// The coefficient that merging `c` into the entry for `k` produces: the
/// stored coefficient plus `c` when an entry exists, `c` itself otherwise.
pub open spec fn spec_merge_value(
    s: TermsView,
    k: KeyView,
    c: qoqo_calculator::CalculatorComplex,
) -> qoqo_calculator::CalculatorComplex {
    if spec_contains(s, k) {
        cc_add(spec_value(s, k), c)
    } else {
        c
    }
}

/// The merge-add transition on a sorted view: add `c` into the entry for
/// `k`, inserting, replacing, or — when the merged coefficient is exactly
/// zero — removing the entry.
pub open spec fn spec_add_term(
    s: TermsView,
    k: KeyView,
    c: qoqo_calculator::CalculatorComplex,
) -> TermsView
    decreases s.len(),
{
    if s.len() == 0 {
        if cc_is_zero(c) {
            Seq::empty()
        } else {
            seq![(k, c)]
        }
    } else if spec_items_lt(s[0].0, k) {
        seq![s[0]] + spec_add_term(s.skip(1), k, c)
    } else if s[0].0 == k {
        let m = cc_add(s[0].1, c);
        if cc_is_zero(m) {
            s.skip(1)
        } else {
            seq![(k, m)] + s.skip(1)
        }
    } else {
        if cc_is_zero(c) {
            s
        } else {
            seq![(k, c)] + s
        }
    }
}

/// Splitting a sorted view at its head: `k` is stored iff it is the head
/// key or stored in the tail, and coefficients pass through.
pub proof fn lemma_contains_tail(s: TermsView, k: KeyView)
    requires
        wf_view(s),
        s.len() > 0,
    ensures
        spec_contains(s, k) == (s[0].0 == k || spec_contains(s.skip(1), k)),
        spec_contains(s.skip(1), k) ==> s[0].0 != k,
        s[0].0 == k ==> spec_value(s, k) == s[0].1,
        s[0].0 != k && spec_contains(s, k) ==> spec_value(s, k) == spec_value(s.skip(1), k),
        wf_view(s.skip(1)),
{
    let t = s.skip(1);
    assert(forall|i: int| 0 <= i < t.len() ==> #[trigger] t[i] == s[i + 1]);
    if spec_contains(s, k) {
        let i = key_index(s, k);
        lemma_key_index_unique(s, i);
        if i > 0 {
            assert(t[i - 1].0 == k);
            assert(spec_contains(t, k));
            lemma_key_index_unique(t, i - 1);
        }
    }
    if spec_contains(t, k) {
        let i = key_index(t, k);
        assert(s[i + 1].0 == k);
        if s[0].0 == k {
            lemma_items_lt_irrefl(k);
        }
    }
    if s[0].0 == k {
        lemma_key_index_unique(s, 0);
    }
}

/// The merge-add transition never introduces a key below both `kb` and the
/// merged key.
pub proof fn lemma_add_term_keys_above(
    s: TermsView,
    k: KeyView,
    c: qoqo_calculator::CalculatorComplex,
    kb: KeyView,
)
    requires
        keys_above(s, kb),
        spec_items_lt(kb, k),
    ensures
        keys_above(spec_add_term(s, k, c), kb),
    decreases s.len(),
{
    let r = spec_add_term(s, k, c);
    if s.len() == 0 {
    } else {
        let t = s.skip(1);
        assert(forall|i: int| 0 <= i < t.len() ==> #[trigger] t[i] == s[i + 1]);
        assert(keys_above(t, kb));
        if spec_items_lt(s[0].0, k) {
            lemma_add_term_keys_above(t, k, c, kb);
            let rr = spec_add_term(t, k, c);
            assert(r == seq![s[0]] + rr);
            assert(forall|i: int| 1 <= i < r.len() ==> #[trigger] r[i] == rr[i - 1]);
            assert(r[0] == s[0]);
        } else if s[0].0 == k {
            let m = cc_add(s[0].1, c);
            if cc_is_zero(m) {
                assert(r == t);
            } else {
                assert(r == seq![(k, m)] + t);
                assert(forall|i: int| 1 <= i < r.len() ==> #[trigger] r[i] == t[i - 1]);
                assert(r[0] == (k, m));
            }
        } else {
            if cc_is_zero(c) {
            } else {
                assert(r == seq![(k, c)] + s);
                assert(forall|i: int| 1 <= i < r.len() ==> #[trigger] r[i] == s[i - 1]);
                assert(r[0] == (k, c));
            }
        }
    }
}

/// The merge-add transition behaves pointwise as a map update: the merged
/// key holds the merged coefficient (or vanishes when that is exactly
/// zero), every other key is untouched, and the view stays well formed.
pub proof fn lemma_add_term_props(s: TermsView, k: KeyView, c: qoqo_calculator::CalculatorComplex)
    requires
        wf_view(s),
        wf_items(k),
    ensures
        wf_view(spec_add_term(s, k, c)),
        !cc_is_zero(spec_merge_value(s, k, c)) ==> spec_contains(spec_add_term(s, k, c), k)
            && spec_value(spec_add_term(s, k, c), k) == spec_merge_value(s, k, c),
        cc_is_zero(spec_merge_value(s, k, c)) ==> !spec_contains(spec_add_term(s, k, c), k),
        forall|k2: KeyView|
            k2 != k ==> #[trigger] spec_contains(spec_add_term(s, k, c), k2) == spec_contains(
                s,
                k2,
            ),
        forall|k2: KeyView|
            k2 != k && spec_contains(s, k2) ==> #[trigger] spec_value(spec_add_term(s, k, c), k2)
                == spec_value(s, k2),
    decreases s.len(),
{
    let r = spec_add_term(s, k, c);
    if s.len() == 0 {
        if !cc_is_zero(c) {
            lemma_key_index_unique(r, 0);
            assert forall|k2: KeyView| k2 != k implies #[trigger] spec_contains(r, k2)
                == spec_contains(s, k2) by {
                if spec_contains(r, k2) {
                    let i = key_index(r, k2);
                    assert(r[i].0 == k);
                }
            }
        }
    } else if spec_items_lt(s[0].0, k) {
        lemma_contains_tail(s, k);
        lemma_add_term_props(s.skip(1), k, c);
        let rr = spec_add_term(s.skip(1), k, c);
        assert(r == seq![s[0]] + rr);
        assert(r[0] == s[0]);
        assert(forall|i: int| 0 <= i < rr.len() ==> #[trigger] r[i + 1] == rr[i]);
        assert(forall|i: int| 1 <= i < r.len() ==> #[trigger] r[i] == rr[i - 1]);
        // the tail keys of s all lie above s[0].0, so the merged tail does too
        assert(forall|i: int|
            0 <= i < s.skip(1).len() ==> #[trigger] s.skip(1)[i] == s[i + 1]);
        assert(keys_above(s.skip(1), s[0].0));
        lemma_add_term_keys_above(s.skip(1), k, c, s[0].0);
        assert(keys_above(rr, s[0].0));
        assert(wf_view(r)) by {
            assert(forall|i: int, j: int|
                0 <= i < j < r.len() && i >= 1 ==> spec_items_lt(
                    (#[trigger] r[i]).0,
                    (#[trigger] r[j]).0,
                ));
            assert(forall|j: int| 1 <= j < r.len() ==> spec_items_lt(r[0].0, (#[trigger] r[j]).0));
        }
        // the head key is preserved and distinct from k
        lemma_items_lt_irrefl(k);
        lemma_key_index_unique(r, 0);
        assert(spec_contains(s, k) == spec_contains(s.skip(1), k));
        assert(spec_merge_value(s, k, c) == spec_merge_value(s.skip(1), k, c));
        assert(r.skip(1) =~= rr);
        assert forall|k2: KeyView| true implies (#[trigger] spec_contains(r, k2) == (r[0].0 == k2
            || spec_contains(rr, k2))) by {
            lemma_contains_tail(r, k2);
        }
        if !cc_is_zero(spec_merge_value(s, k, c)) {
            assert(spec_contains(rr, k));
            assert(spec_contains(r, k));
            lemma_contains_tail(r, k);
        }
        assert forall|k2: KeyView| k2 != k implies #[trigger] spec_contains(r, k2)
            == spec_contains(s, k2) by {
            lemma_contains_tail(r, k2);
            lemma_contains_tail(s, k2);
        }
        assert forall|k2: KeyView| k2 != k && spec_contains(s, k2) implies #[trigger] spec_value(
            r,
            k2,
        ) == spec_value(s, k2) by {
            lemma_contains_tail(r, k2);
            lemma_contains_tail(s, k2);
        }
    } else if s[0].0 == k {
        lemma_contains_tail(s, k);
        let m = cc_add(s[0].1, c);
        assert(spec_merge_value(s, k, c) == m);
        let t = s.skip(1);
        assert(forall|i: int| 0 <= i < t.len() ==> #[trigger] t[i] == s[i + 1]);
        assert(keys_above(t, k));
        if cc_is_zero(m) {
            assert(r == t);
            if spec_contains(t, k) {
                lemma_contains_tail(s, k);
            }
            assert forall|k2: KeyView| k2 != k implies #[trigger] spec_contains(r, k2)
                == spec_contains(s, k2) by {
                lemma_contains_tail(s, k2);
            }
            assert forall|k2: KeyView| k2 != k && spec_contains(s, k2)
                implies #[trigger] spec_value(r, k2) == spec_value(s, k2) by {
                lemma_contains_tail(s, k2);
            }
        } else {
            assert(r == seq![(k, m)] + t);
            assert(r[0] == (k, m));
            assert(forall|i: int| 1 <= i < r.len() ==> #[trigger] r[i] == t[i - 1]);
            assert(wf_view(r));
            lemma_key_index_unique(r, 0);
            assert(r.skip(1) =~= t);
            assert forall|k2: KeyView| k2 != k implies #[trigger] spec_contains(r, k2)
                == spec_contains(s, k2) by {
                lemma_contains_tail(r, k2);
                lemma_contains_tail(s, k2);
            }
            assert forall|k2: KeyView| k2 != k && spec_contains(s, k2)
                implies #[trigger] spec_value(r, k2) == spec_value(s, k2) by {
                lemma_contains_tail(r, k2);
                lemma_contains_tail(s, k2);
            }
        }
    } else {
        lemma_items_lt_connex(k, s[0].0);
        assert(spec_items_lt(k, s[0].0));
        assert forall|i: int| 0 <= i < s.len() implies spec_items_lt(k, (#[trigger] s[i]).0) by {
            if i > 0 {
                lemma_items_lt_trans(k, s[0].0, s[i].0);
            }
        }
        if spec_contains(s, k) {
            let i = key_index(s, k);
            lemma_items_lt_irrefl(k);
        }
        assert(!spec_contains(s, k));
        if cc_is_zero(c) {
        } else {
            assert(r == seq![(k, c)] + s);
            assert(r[0] == (k, c));
            assert(forall|i: int| 1 <= i < r.len() ==> #[trigger] r[i] == s[i - 1]);
            assert(wf_view(r));
            lemma_key_index_unique(r, 0);
            assert forall|k2: KeyView| k2 != k implies #[trigger] spec_contains(r, k2)
                == spec_contains(s, k2) by {
                lemma_contains_tail(r, k2);
                assert(r.skip(1) =~= s);
            }
            assert forall|k2: KeyView| k2 != k && spec_contains(s, k2)
                implies #[trigger] spec_value(r, k2) == spec_value(s, k2) by {
                lemma_contains_tail(r, k2);
                assert(r.skip(1) =~= s);
            }
        }
    }
}

/// The overwrite transition on a sorted view: store `c` for `k`, replacing
/// any existing entry; an exactly-zero `c` clears the entry instead.
pub open spec fn spec_set_term(
    s: TermsView,
    k: KeyView,
    c: qoqo_calculator::CalculatorComplex,
) -> TermsView
    decreases s.len(),
{
    if s.len() == 0 {
        if cc_is_zero(c) {
            Seq::empty()
        } else {
            seq![(k, c)]
        }
    } else if spec_items_lt(s[0].0, k) {
        seq![s[0]] + spec_set_term(s.skip(1), k, c)
    } else if s[0].0 == k {
        if cc_is_zero(c) {
            s.skip(1)
        } else {
            seq![(k, c)] + s.skip(1)
        }
    } else {
        if cc_is_zero(c) {
            s
        } else {
            seq![(k, c)] + s
        }
    }
}

/// The overwrite transition behaves pointwise as a map update: `k` holds
/// `c` afterwards (or vanishes when `c` is exactly zero) and every other
/// key is untouched.
pub proof fn lemma_set_term_props(s: TermsView, k: KeyView, c: qoqo_calculator::CalculatorComplex)
    requires
        wf_view(s),
        wf_items(k),
    ensures
        wf_view(spec_set_term(s, k, c)),
        !cc_is_zero(c) ==> spec_contains(spec_set_term(s, k, c), k) && spec_value(
            spec_set_term(s, k, c),
            k,
        ) == c,
        cc_is_zero(c) ==> !spec_contains(spec_set_term(s, k, c), k),
        forall|k2: KeyView|
            k2 != k ==> #[trigger] spec_contains(spec_set_term(s, k, c), k2) == spec_contains(
                s,
                k2,
            ),
        forall|k2: KeyView|
            k2 != k && spec_contains(s, k2) ==> #[trigger] spec_value(spec_set_term(s, k, c), k2)
                == spec_value(s, k2),
    decreases s.len(),
{
    let r = spec_set_term(s, k, c);
    if s.len() == 0 {
        if !cc_is_zero(c) {
            lemma_key_index_unique(r, 0);
            assert forall|k2: KeyView| k2 != k implies #[trigger] spec_contains(r, k2)
                == spec_contains(s, k2) by {
                if spec_contains(r, k2) {
                    let i = key_index(r, k2);
                    assert(r[i].0 == k);
                }
            }
        }
    } else if spec_items_lt(s[0].0, k) {
        lemma_contains_tail(s, k);
        lemma_set_term_props(s.skip(1), k, c);
        let rr = spec_set_term(s.skip(1), k, c);
        assert(r == seq![s[0]] + rr);
        assert(r[0] == s[0]);
        assert(forall|i: int| 1 <= i < r.len() ==> #[trigger] r[i] == rr[i - 1]);
        assert(forall|i: int|
            0 <= i < s.skip(1).len() ==> #[trigger] s.skip(1)[i] == s[i + 1]);
        assert(keys_above(s.skip(1), s[0].0));
        lemma_set_term_keys_above(s.skip(1), k, c, s[0].0);
        assert(keys_above(rr, s[0].0));
        assert(wf_view(r)) by {
            assert(forall|i: int, j: int|
                0 <= i < j < r.len() && i >= 1 ==> spec_items_lt(
                    (#[trigger] r[i]).0,
                    (#[trigger] r[j]).0,
                ));
            assert(forall|j: int| 1 <= j < r.len() ==> spec_items_lt(r[0].0, (#[trigger] r[j]).0));
        }
        lemma_items_lt_irrefl(k);
        lemma_key_index_unique(r, 0);
        assert(r.skip(1) =~= rr);
        if !cc_is_zero(c) {
            assert(spec_contains(rr, k));
            lemma_contains_tail(r, k);
        } else {
            lemma_contains_tail(r, k);
        }
        assert forall|k2: KeyView| k2 != k implies #[trigger] spec_contains(r, k2)
            == spec_contains(s, k2) by {
            lemma_contains_tail(r, k2);
            lemma_contains_tail(s, k2);
        }
        assert forall|k2: KeyView| k2 != k && spec_contains(s, k2) implies #[trigger] spec_value(
            r,
            k2,
        ) == spec_value(s, k2) by {
            lemma_contains_tail(r, k2);
            lemma_contains_tail(s, k2);
        }
    } else if s[0].0 == k {
        lemma_contains_tail(s, k);
        let t = s.skip(1);
        assert(forall|i: int| 0 <= i < t.len() ==> #[trigger] t[i] == s[i + 1]);
        assert(keys_above(t, k));
        if cc_is_zero(c) {
            assert(r == t);
            assert forall|k2: KeyView| k2 != k implies #[trigger] spec_contains(r, k2)
                == spec_contains(s, k2) by {
                lemma_contains_tail(s, k2);
            }
            assert forall|k2: KeyView| k2 != k && spec_contains(s, k2)
                implies #[trigger] spec_value(r, k2) == spec_value(s, k2) by {
                lemma_contains_tail(s, k2);
            }
        } else {
            assert(r == seq![(k, c)] + t);
            assert(r[0] == (k, c));
            assert(forall|i: int| 1 <= i < r.len() ==> #[trigger] r[i] == t[i - 1]);
            assert(wf_view(r));
            lemma_key_index_unique(r, 0);
            assert(r.skip(1) =~= t);
            assert forall|k2: KeyView| k2 != k implies #[trigger] spec_contains(r, k2)
                == spec_contains(s, k2) by {
                lemma_contains_tail(r, k2);
                lemma_contains_tail(s, k2);
            }
            assert forall|k2: KeyView| k2 != k && spec_contains(s, k2)
                implies #[trigger] spec_value(r, k2) == spec_value(s, k2) by {
                lemma_contains_tail(r, k2);
                lemma_contains_tail(s, k2);
            }
        }
    } else {
        lemma_items_lt_connex(k, s[0].0);
        assert(spec_items_lt(k, s[0].0));
        assert forall|i: int| 0 <= i < s.len() implies spec_items_lt(k, (#[trigger] s[i]).0) by {
            if i > 0 {
                lemma_items_lt_trans(k, s[0].0, s[i].0);
            }
        }
        if spec_contains(s, k) {
            let i = key_index(s, k);
            lemma_items_lt_irrefl(k);
        }
        assert(!spec_contains(s, k));
        if cc_is_zero(c) {
        } else {
            assert(r == seq![(k, c)] + s);
            assert(r[0] == (k, c));
            assert(forall|i: int| 1 <= i < r.len() ==> #[trigger] r[i] == s[i - 1]);
            assert(wf_view(r));
            lemma_key_index_unique(r, 0);
            assert(r.skip(1) =~= s);
            assert forall|k2: KeyView| k2 != k implies #[trigger] spec_contains(r, k2)
                == spec_contains(s, k2) by {
                lemma_contains_tail(r, k2);
            }
            assert forall|k2: KeyView| k2 != k && spec_contains(s, k2)
                implies #[trigger] spec_value(r, k2) == spec_value(s, k2) by {
                lemma_contains_tail(r, k2);
            }
        }
    }
}

/// The overwrite transition never introduces a key below both `kb` and the
/// stored key.
pub proof fn lemma_set_term_keys_above(
    s: TermsView,
    k: KeyView,
    c: qoqo_calculator::CalculatorComplex,
    kb: KeyView,
)
    requires
        keys_above(s, kb),
        spec_items_lt(kb, k),
    ensures
        keys_above(spec_set_term(s, k, c), kb),
    decreases s.len(),
{
    let r = spec_set_term(s, k, c);
    if s.len() == 0 {
    } else {
        let t = s.skip(1);
        assert(forall|i: int| 0 <= i < t.len() ==> #[trigger] t[i] == s[i + 1]);
        assert(keys_above(t, kb));
        if spec_items_lt(s[0].0, k) {
            lemma_set_term_keys_above(t, k, c, kb);
            let rr = spec_set_term(t, k, c);
            assert(r == seq![s[0]] + rr);
            assert(forall|i: int| 1 <= i < r.len() ==> #[trigger] r[i] == rr[i - 1]);
            assert(r[0] == s[0]);
        } else if s[0].0 == k {
            if cc_is_zero(c) {
                assert(r == t);
            } else {
                assert(r == seq![(k, c)] + t);
                assert(forall|i: int| 1 <= i < r.len() ==> #[trigger] r[i] == t[i - 1]);
                assert(r[0] == (k, c));
            }
        } else {
            if cc_is_zero(c) {
            } else {
                assert(r == seq![(k, c)] + s);
                assert(forall|i: int| 1 <= i < r.len() ==> #[trigger] r[i] == s[i - 1]);
                assert(r[0] == (k, c));
            }
        }
    }
}

/// Canonicity: two well-formed views that store the same keys with the same
/// coefficients are the same sequence.
pub proof fn lemma_canonical_unique(a: TermsView, b: TermsView)
    requires
        wf_view(a),
        wf_view(b),
        forall|k: KeyView| #[trigger] spec_contains(a, k) == spec_contains(b, k),
        forall|k: KeyView|
            #[trigger] spec_contains(a, k) ==> spec_value(a, k) == spec_value(b, k),
    ensures
        a == b,
    decreases a.len(),
{
    if a.len() == 0 {
        if b.len() > 0 {
            lemma_key_index_unique(b, 0);
            assert(spec_contains(b, b[0].0));
            assert(!spec_contains(a, b[0].0));
            assert(false);
        }
        assert(a =~= b);
    } else if b.len() == 0 {
        lemma_key_index_unique(a, 0);
        assert(spec_contains(a, a[0].0));
    } else {
        lemma_key_index_unique(a, 0);
        lemma_key_index_unique(b, 0);
        assert(spec_contains(b, a[0].0));
        let ia = key_index(b, a[0].0);
        assert(b[ia].0 == a[0].0);
        assert(spec_contains(a, b[0].0));
        let ja = key_index(a, b[0].0);
        assert(a[ja].0 == b[0].0);
        if ia > 0 && ja > 0 {
            lemma_items_lt_asym(b[0].0, b[ia].0);
        }
        assert(a[0].0 == b[0].0);
        assert(a[0].1 == spec_value(a, a[0].0));
        assert(a[0] == b[0]);
        lemma_contains_tail(a, a[0].0);
        lemma_contains_tail(b, b[0].0);
        assert forall|k: KeyView| #[trigger] spec_contains(a.skip(1), k) == spec_contains(
            b.skip(1),
            k,
        ) by {
            lemma_contains_tail(a, k);
            lemma_contains_tail(b, k);
        }
        assert forall|k: KeyView| #[trigger] spec_contains(a.skip(1), k) implies spec_value(
            a.skip(1),
            k,
        ) == spec_value(b.skip(1), k) by {
            lemma_contains_tail(a, k);
            lemma_contains_tail(b, k);
        }
        lemma_canonical_unique(a.skip(1), b.skip(1));
        assert(a =~= seq![a[0]] + a.skip(1));
        assert(b =~= seq![b[0]] + b.skip(1));
    }
}

/// A sparse sum of decoherence-product terms with complex coefficients.
///
/// Entries are kept in ascending key order with unique keys, and no entry
/// holds a coefficient that is exactly zero.
#[derive(Clone, Debug, PartialEq)]
pub struct DecoherenceOperator {
    pub terms: Vec<(DecoherenceProduct, qoqo_calculator::CalculatorComplex)>,
}

impl View for DecoherenceOperator {
    type V = TermsView;

    open spec fn view(&self) -> TermsView {
        terms_view(self.terms@)
    }
}

impl DecoherenceOperator {
    /// The container invariant.
    pub open spec fn wf(&self) -> bool {
        wf_view(self@)
    }

    /// A new, empty operator.
    pub fn new() -> (r: Self)
        ensures
            r@ == Seq::<(KeyView, qoqo_calculator::CalculatorComplex)>::empty(),
            r.wf(),
    {
        let r = DecoherenceOperator { terms: Vec::new() };
        proof {
            assert(r@ =~= Seq::<(KeyView, qoqo_calculator::CalculatorComplex)>::empty());
        }
        r
    }

    /// A new, empty operator with room reserved for `capacity` entries. The
    /// reservation is an allocation hint only.
    pub fn with_capacity(capacity: usize) -> (r: Self)
        ensures
            r@ == Seq::<(KeyView, qoqo_calculator::CalculatorComplex)>::empty(),
            r.wf(),
    {
        let _ = capacity;
        Self::new()
    }

    /// An empty operator shaped like this one: with room for `capacity`
    /// entries when a hint is given, plain otherwise.
    pub fn empty_clone(&self, capacity: Option<usize>) -> (r: Self)
        ensures
            r@ == Seq::<(KeyView, qoqo_calculator::CalculatorComplex)>::empty(),
            r.wf(),
    {
        match capacity {
            Some(n) => Self::with_capacity(n),
            None => Self::new(),
        }
    }

    /// The number of stored entries.
    pub fn len(&self) -> (r: usize)
        ensures
            r == self@.len(),
    {
        self.terms.len()
    }

    /// True when no entry is stored.
    pub fn is_empty(&self) -> (r: bool)
        ensures
            r == (self@.len() == 0),
    {
        self.terms.len() == 0
    }

    /// Locate `key`: the number of stored keys below it, and whether it is
    /// stored at that position.
    fn find(&self, key: &DecoherenceProduct) -> (r: (usize, bool))
        requires
            self.wf(),
        ensures
            r.0 <= self@.len(),
            forall|i: int| 0 <= i < r.0 ==> spec_items_lt((#[trigger] self@[i]).0, key@),
            r.1 ==> r.0 < self@.len() && self@[r.0 as int].0 == key@,
            !r.1 ==> forall|i: int|
                r.0 <= i < self@.len() ==> spec_items_lt(key@, (#[trigger] self@[i]).0),
            r.1 == spec_contains(self@, key@),
            r.1 ==> r.0 == key_index(self@, key@),
    {
        let mut i: usize = 0;
        while i < self.terms.len() && self.terms[i].0.lt(key)
            invariant
                self.wf(),
                i <= self.terms.len(),
                forall|j: int| 0 <= j < i ==> spec_items_lt((#[trigger] self@[j]).0, key@),
            decreases self.terms.len() - i,
        {
            i = i + 1;
        }
        if i < self.terms.len() && self.terms[i].0.key_eq(key) {
            proof {
                lemma_key_index_unique(self@, i as int);
            }
            (i, true)
        } else {
            proof {
                assert forall|j: int| i <= j < self@.len() implies spec_items_lt(
                    key@,
                    (#[trigger] self@[j]).0,
                ) by {
                    if j == i {
                        lemma_items_lt_connex(key@, self@[j].0);
                    } else {
                        lemma_items_lt_connex(key@, self@[i as int].0);
                        lemma_items_lt_trans(key@, self@[i as int].0, self@[j].0);
                    }
                }
                assert forall|j: int| 0 <= j < self@.len() implies (#[trigger] self@[j]).0 != key@
                    by {
                    if j < i {
                        lemma_items_lt_irrefl(key@);
                    } else {
                        lemma_items_lt_irrefl(key@);
                    }
                }
                assert(!spec_contains(self@, key@));
            }
            (i, false)
        }
    }

    /// The coefficient stored for `key`, or the zero coefficient when no
    /// entry is stored — a lookup never fails.
    pub fn get(&self, key: &DecoherenceProduct) -> (r: qoqo_calculator::CalculatorComplex)
        requires
            self.wf(),
        ensures
            spec_contains(self@, key@) ==> r == spec_value(self@, key@),
            !spec_contains(self@, key@) ==> cc_is_zero(r),
    {
        let (pos, found) = self.find(key);
        if found {
            self.terms[pos].1.clone()
        } else {
            cc_zero_exec()
        }
    }

    /// Remove the entry for `key`, returning its coefficient if one was
    /// stored.
    pub fn remove(&mut self, key: &DecoherenceProduct) -> (r: Option<
        qoqo_calculator::CalculatorComplex,
    >)
        requires
            old(self).wf(),
        ensures
            final(self).wf(),
            !spec_contains(final(self)@, key@),
            forall|k: KeyView|
                k != key@ ==> #[trigger] spec_contains(final(self)@, k) == spec_contains(
                    old(self)@,
                    k,
                ),
            forall|k: KeyView|
                k != key@ && spec_contains(old(self)@, k) ==> #[trigger] spec_value(
                    final(self)@,
                    k,
                ) == spec_value(old(self)@, k),
            spec_contains(old(self)@, key@) ==> r == Some(spec_value(old(self)@, key@))
                && final(self)@.len() == old(self)@.len() - 1,
            !spec_contains(old(self)@, key@) ==> r == Option::<
                qoqo_calculator::CalculatorComplex,
            >::None && final(self)@ == old(self)@,
    {
        let (pos, found) = self.find(key);
        if found {
            proof {
                lemma_remove_pointwise(self@, pos as int);
            }
            let (_, c) = self.terms.remove(pos);
            proof {
                assert(final(self)@ =~= old(self)@.remove(pos as int));
            }
            Some(c)
        } else {
            None
        }
    }

    /// Overwrite the entry for `key` with coefficient `value`: a non-zero
    /// value is stored, an exactly-zero value clears the entry. Returns the
    /// previously stored coefficient, if any. On this unbounded container
    /// the call always succeeds.
    pub fn set(&mut self, key: DecoherenceProduct, value: qoqo_calculator::CalculatorComplex) -> (r:
        Result<Option<qoqo_calculator::CalculatorComplex>, StruqtureError>)
        requires
            old(self).wf(),
            key.wf(),
        ensures
            final(self).wf(),
            !cc_is_zero(value) ==> spec_contains(final(self)@, key@) && spec_value(
                final(self)@,
                key@,
            ) == value,
            cc_is_zero(value) ==> !spec_contains(final(self)@, key@),
            forall|k: KeyView|
                k != key@ ==> #[trigger] spec_contains(final(self)@, k) == spec_contains(
                    old(self)@,
                    k,
                ),
            forall|k: KeyView|
                k != key@ && spec_contains(old(self)@, k) ==> #[trigger] spec_value(
                    final(self)@,
                    k,
                ) == spec_value(old(self)@, k),
            spec_contains(old(self)@, key@) ==> r == Ok::<_, StruqtureError>(
                Some(spec_value(old(self)@, key@)),
            ),
            !spec_contains(old(self)@, key@) ==> r == Ok::<_, StruqtureError>(
                Option::<qoqo_calculator::CalculatorComplex>::None,
            ),
            final(self)@ == spec_set_term(old(self)@, key@, value),
    {
        proof {
            lemma_set_term_props(old(self)@, key@, value);
        }
        let (pos, found) = self.find(&key);
        let old_value: Option<qoqo_calculator::CalculatorComplex> = if found {
            let c = self.terms[pos].1.clone();
            proof {
                lemma_remove_pointwise(self@, pos as int);
            }
            let _ = self.terms.remove(pos);
            proof {
                assert(self@ =~= old(self)@.remove(pos as int));
            }
            Some(c)
        } else {
            None
        };
        proof {
            assert forall|i: int| 0 <= i < pos ==> spec_items_lt(
                (#[trigger] self@[i]).0,
                key@,
            ) by {}
            assert forall|i: int| pos <= i < self@.len() implies spec_items_lt(
                key@,
                (#[trigger] self@[i]).0,
            ) by {
                if found {
                    assert(self@[i] == old(self)@[i + 1]);
                } else {
                    assert(self@[i] == old(self)@[i]);
                }
            }
        }
        if !cc_is_zero_exec(&value) {
            let ghost mid = self@;
            proof {
                lemma_insert_pointwise(self@, pos as int, key@, value);
            }
            self.terms.insert(pos, (key, value));
            proof {
                assert(self@ =~= mid.insert(pos as int, (key@, value)));
            }
        }
        proof {
            lemma_canonical_unique(self@, spec_set_term(old(self)@, key@, value));
        }
        Ok(old_value)
    }
}


impl DecoherenceOperator {
    /// Merge `value` into the entry for `key`: absent keys are inserted,
    /// present keys have their coefficients summed, and a merged coefficient
    /// that is exactly zero removes the entry. On this unbounded container
    /// the call always succeeds.
    pub fn add_operator_product(
        &mut self,
        key: DecoherenceProduct,
        value: qoqo_calculator::CalculatorComplex,
    ) -> (r: Result<(), StruqtureError>)
        requires
            old(self).wf(),
            key.wf(),
        ensures
            final(self).wf(),
            final(self)@ == spec_add_term(old(self)@, key@, value),
            r == Ok::<(), StruqtureError>(()),
    {
        proof {
            lemma_add_term_props(old(self)@, key@, value);
        }
        let (pos, found) = self.find(&key);
        let ghost merged: qoqo_calculator::CalculatorComplex = spec_merge_value(
            old(self)@,
            key@,
            value,
        );
        let sum: qoqo_calculator::CalculatorComplex = if found {
            proof {
                lemma_key_index_unique(old(self)@, pos as int);
            }
            let s = cc_add_exec(&self.terms[pos].1, &value);
            proof {
                lemma_remove_pointwise(self@, pos as int);
            }
            let _ = self.terms.remove(pos);
            proof {
                assert(self@ =~= old(self)@.remove(pos as int));
            }
            s
        } else {
            value
        };
        proof {
            assert(sum == merged);
            assert forall|i: int| pos <= i < self@.len() implies spec_items_lt(
                key@,
                (#[trigger] self@[i]).0,
            ) by {
                if found {
                    assert(self@[i] == old(self)@[i + 1]);
                } else {
                    assert(self@[i] == old(self)@[i]);
                }
            }
        }
        if !cc_is_zero_exec(&sum) {
            let ghost mid = self@;
            proof {
                lemma_insert_pointwise(self@, pos as int, key@, sum);
            }
            self.terms.insert(pos, (key, sum));
            proof {
                assert(self@ =~= mid.insert(pos as int, (key@, sum)));
            }
        }
        proof {
            lemma_canonical_unique(self@, spec_add_term(old(self)@, key@, value));
        }
        Ok(())
    }

    /// The stored keys, in ascending key order.
    pub fn keys(&self) -> (r: Vec<DecoherenceProduct>)
        ensures
            r@.len() == self@.len(),
            forall|i: int| 0 <= i < r@.len() ==> (#[trigger] r@[i])@ == self@[i].0,
    {
        let mut out: Vec<DecoherenceProduct> = Vec::new();
        let mut i: usize = 0;
        while i < self.terms.len()
            invariant
                i <= self.terms.len(),
                out@.len() == i,
                forall|j: int| 0 <= j < i ==> (#[trigger] out@[j])@ == self@[j].0,
            decreases self.terms.len() - i,
        {
            out.push(self.terms[i].0.duplicate());
            i = i + 1;
        }
        out
    }

    /// The stored coefficients, in ascending key order.
    pub fn values(&self) -> (r: Vec<qoqo_calculator::CalculatorComplex>)
        ensures
            r@.len() == self@.len(),
            forall|i: int| 0 <= i < r@.len() ==> #[trigger] r@[i] == self@[i].1,
    {
        let mut out: Vec<qoqo_calculator::CalculatorComplex> = Vec::new();
        let mut i: usize = 0;
        while i < self.terms.len()
            invariant
                i <= self.terms.len(),
                out@.len() == i,
                forall|j: int| 0 <= j < i ==> #[trigger] out@[j] == self@[j].1,
            decreases self.terms.len() - i,
        {
            out.push(self.terms[i].1.clone());
            i = i + 1;
        }
        out
    }

    /// The stored entries, in ascending key order: the bulk-export form.
    pub fn to_pairs(&self) -> (r: Vec<(DecoherenceProduct, qoqo_calculator::CalculatorComplex)>)
        ensures
            r@.len() == self@.len(),
            forall|i: int|
                0 <= i < r@.len() ==> ((#[trigger] r@[i]).0@ == self@[i].0 && r@[i].1
                    == self@[i].1),
    {
        let mut out: Vec<(DecoherenceProduct, qoqo_calculator::CalculatorComplex)> = Vec::new();
        let mut i: usize = 0;
        while i < self.terms.len()
            invariant
                i <= self.terms.len(),
                out@.len() == i,
                forall|j: int|
                    0 <= j < i ==> ((#[trigger] out@[j]).0@ == self@[j].0 && out@[j].1
                        == self@[j].1),
            decreases self.terms.len() - i,
        {
            out.push((self.terms[i].0.duplicate(), self.terms[i].1.clone()));
            i = i + 1;
        }
        out
    }
}

/// The spin count one key asks for: its largest named index plus one.
pub open spec fn spec_key_spins(k: KeyView) -> int {
    if k.len() == 0 {
        0
    } else {
        k[k.len() - 1].0 + 1
    }
}

/// The spin count a view asks for: the largest over its keys.
pub open spec fn spec_spins(s: TermsView) -> int
    decreases s.len(),
{
    if s.len() == 0 {
        0
    } else {
        let rest = spec_spins(s.skip(1));
        if spec_key_spins(s[0].0) >= rest {
            spec_key_spins(s[0].0)
        } else {
            rest
        }
    }
}

impl DecoherenceOperator {
    /// The number of spins the stored terms currently touch: the largest
    /// spin index named by any key, plus one.
    pub fn current_number_spins(&self) -> (r: usize)
        requires
            self.wf(),
            forall|i: int|
                0 <= i < self@.len() && (#[trigger] self@[i]).0.len() > 0 ==> self@[i].0[self@[i].0.len()
                    - 1].0 < usize::MAX,
        ensures
            r == spec_spins(self@),
    {
        let mut best: usize = 0;
        let mut i: usize = self.terms.len();
        proof {
            assert(self@.skip(self@.len() as int) =~= Seq::<(
                KeyView,
                qoqo_calculator::CalculatorComplex,
            )>::empty());
        }
        while i > 0
            invariant
                self.wf(),
                i <= self.terms.len(),
                forall|j: int|
                    0 <= j < self@.len() && (#[trigger] self@[j]).0.len() > 0 ==> self@[j].0[self@[j].0.len()
                        - 1].0 < usize::MAX,
                best == spec_spins(self@.skip(i as int)),
            decreases i,
        {
            i = i - 1;
            let ghost pre = self@.skip(i as int);
            proof {
                assert(pre[0] == self@[i as int]);
                assert(pre.skip(1) =~= self@.skip(i as int + 1));
            }
            let key = &self.terms[i].0;
            let n = key.current_number_spins();
            if n > best {
                best = n;
            }
        }
        proof {
            assert(self@.skip(0) =~= self@);
        }
        best
    }

    /// Same as [`Self::current_number_spins`]: the spin count of an
    /// unbounded operator is what its terms touch.
    pub fn number_spins(&self) -> (r: usize)
        requires
            self.wf(),
            forall|i: int|
                0 <= i < self@.len() && (#[trigger] self@[i]).0.len() > 0 ==> self@[i].0[self@[i].0.len()
                    - 1].0 < usize::MAX,
        ensures
            r == spec_spins(self@),
    {
        self.current_number_spins()
    }
}



/// The coefficient of a term of the Hermitian conjugate: the conjugated
/// coefficient, negated once when the key carries an odd number of iY
/// entries.
pub open spec fn spec_conj_value(
    k: KeyView,
    c: qoqo_calculator::CalculatorComplex,
) -> qoqo_calculator::CalculatorComplex {
    if crate::product::spec_conj_sign(k) == crate::product::Sign::Negative {
        cc_neg(cc_conj(c))
    } else {
        cc_conj(c)
    }
}

impl DecoherenceOperator {
    /// Negate every coefficient; the keys are untouched.
    pub fn neg(&self) -> (r: Self)
        requires
            self.wf(),
        ensures
            r.wf(),
            r@.len() == self@.len(),
            forall|i: int|
                0 <= i < self@.len() ==> (#[trigger] r@[i]).0 == self@[i].0 && r@[i].1 == cc_neg(
                    self@[i].1,
                ),
    {
        let mut out: Vec<(DecoherenceProduct, qoqo_calculator::CalculatorComplex)> = Vec::new();
        let mut i: usize = 0;
        while i < self.terms.len()
            invariant
                self.wf(),
                i <= self.terms.len(),
                out@.len() == i,
                forall|j: int|
                    0 <= j < i ==> (#[trigger] out@[j]).0@ == self@[j].0 && out@[j].1 == cc_neg(
                        self@[j].1,
                    ),
                forall|j: int| 0 <= j < i ==> !cc_is_zero((#[trigger] out@[j]).1),
            decreases self.terms.len() - i,
        {
            proof {
                assert(!cc_is_zero(self@[i as int].1));
            }
            let key = self.terms[i].0.duplicate();
            let c = cc_neg_exec(&self.terms[i].1);
            out.push((key, c));
            i = i + 1;
        }
        let r = DecoherenceOperator { terms: out };
        proof {
            assert(forall|j: int| 0 <= j < r@.len() ==> (#[trigger] r@[j]).0 == self@[j].0);
        }
        r
    }

    /// Hermitian conjugation: every coefficient is conjugated, and negated
    /// once more where the key carries an odd number of iY entries; the keys
    /// themselves are self-adjoint and stay as they are.
    pub fn hermitian_conjugate(&self) -> (r: Self)
        requires
            self.wf(),
        ensures
            r.wf(),
            r@.len() == self@.len(),
            forall|i: int|
                0 <= i < self@.len() ==> (#[trigger] r@[i]).0 == self@[i].0 && r@[i].1
                    == spec_conj_value(self@[i].0, self@[i].1),
    {
        let mut out: Vec<(DecoherenceProduct, qoqo_calculator::CalculatorComplex)> = Vec::new();
        let mut i: usize = 0;
        while i < self.terms.len()
            invariant
                self.wf(),
                i <= self.terms.len(),
                out@.len() == i,
                forall|j: int|
                    0 <= j < i ==> (#[trigger] out@[j]).0@ == self@[j].0 && out@[j].1
                        == spec_conj_value(self@[j].0, self@[j].1),
                forall|j: int| 0 <= j < i ==> !cc_is_zero((#[trigger] out@[j]).1),
            decreases self.terms.len() - i,
        {
            proof {
                assert(wf_items(self@[i as int].0));
                assert(!cc_is_zero(self@[i as int].1));
            }
            let (key, sign) = self.terms[i].0.hermitian_conjugate();
            let c = cc_conj_exec(&self.terms[i].1);
            let c = match sign {
                crate::product::Sign::Negative => cc_neg_exec(&c),
                crate::product::Sign::Positive => c,
            };
            out.push((key, c));
            i = i + 1;
        }
        let r = DecoherenceOperator { terms: out };
        proof {
            assert(forall|j: int| 0 <= j < r@.len() ==> (#[trigger] r@[j]).0 == self@[j].0);
        }
        r
    }

    /// Multiply every coefficient by the scalar `value`, dropping any entry
    /// whose scaled coefficient is exactly zero.
    pub fn scale(&self, value: &qoqo_calculator::CalculatorComplex) -> (r: Self)
        requires
            self.wf(),
        ensures
            r.wf(),
            forall|j: int|
                0 <= j < self@.len() && !cc_is_zero(cc_mul((#[trigger] self@[j]).1, *value))
                    ==> spec_contains(r@, self@[j].0) && spec_value(r@, self@[j].0) == cc_mul(
                    self@[j].1,
                    *value,
                ),
            forall|j: int|
                0 <= j < self@.len() && cc_is_zero(cc_mul((#[trigger] self@[j]).1, *value))
                    ==> !spec_contains(r@, self@[j].0),
            forall|k: KeyView| #[trigger] spec_contains(r@, k) ==> spec_contains(self@, k),
    {
        let mut out: Vec<(DecoherenceProduct, qoqo_calculator::CalculatorComplex)> = Vec::new();
        let mut i: usize = 0;
        proof {
            assert(terms_view(out@).len() == 0);
        }
        while i < self.terms.len()
            invariant
                self.wf(),
                i <= self.terms.len(),
                wf_view(terms_view(out@)),
                forall|j: int, i2: int|
                    0 <= j < out@.len() && i <= i2 < self@.len() ==> spec_items_lt(
                        (#[trigger] out@[j]).0@,
                        (#[trigger] self@[i2]).0,
                    ),
                forall|j: int|
                    0 <= j < i && !cc_is_zero(cc_mul((#[trigger] self@[j]).1, *value))
                        ==> spec_contains(
                        terms_view(out@),
                        self@[j].0,
                    ) && spec_value(
                        terms_view(out@),
                        self@[j].0,
                    ) == cc_mul(self@[j].1, *value),
                forall|j: int|
                    0 <= j < i && cc_is_zero(cc_mul((#[trigger] self@[j]).1, *value))
                        ==> !spec_contains(
                        terms_view(out@),
                        self@[j].0,
                    ),
                forall|k: KeyView|
                    #[trigger] spec_contains(
                        terms_view(out@),
                        k,
                    ) ==> spec_contains(self@, k),
            decreases self.terms.len() - i,
        {
            let ghost ov = terms_view(out@);
            let c = cc_mul_exec(&self.terms[i].1, value);
            if !cc_is_zero_exec(&c) {
                let key = self.terms[i].0.duplicate();
                proof {
                    lemma_insert_pointwise(ov, ov.len() as int, key@, c);
                    lemma_key_index_unique(self@, i as int);
                    assert forall|j: int| 0 <= j < i implies (#[trigger] self@[j]).0
                        != self@[i as int].0 by {
                        lemma_items_lt_irrefl(self@[j].0);
                    }
                }
                out.push((key, c));
                proof {
                    let nv = terms_view(out@);
                    assert(nv =~= ov.insert(ov.len() as int, (self@[i as int].0, c)));
                }
            } else {
                proof {
                    lemma_key_index_unique(self@, i as int);
                    if spec_contains(ov, self@[i as int].0) {
                        let j = key_index(ov, self@[i as int].0);
                        lemma_items_lt_irrefl(self@[i as int].0);
                    }
                }
            }
            i = i + 1;
        }
        let r = DecoherenceOperator { terms: out };
        proof {
            assert(r@ =~= terms_view(out@));
            assert forall|j: int|
                0 <= j < self@.len() && cc_is_zero(cc_mul((#[trigger] self@[j]).1, *value))
                    implies !spec_contains(r@, self@[j].0) by {}
        }
        r
    }
}



/// Entry-wise merging of a whole view: fold the merge-add transition over
/// its entries in order.
pub open spec fn spec_extend_terms(s: TermsView, ps: TermsView) -> TermsView
    decreases ps.len(),
{
    if ps.len() == 0 {
        s
    } else {
        spec_extend_terms(spec_add_term(s, ps[0].0, ps[0].1), ps.skip(1))
    }
}

/// The same view with every coefficient negated.
pub open spec fn spec_neg_terms(s: TermsView) -> TermsView {
    Seq::new(s.len(), |i: int| (s[i].0, cc_neg(s[i].1)))
}

/// Additivity of entry-wise merging, stated pointwise: a key of `ps` ends
/// up holding its merged coefficient (or vanishes when that is exactly
/// zero), and a key absent from `ps` is untouched.
pub proof fn lemma_extend_pointwise(s: TermsView, ps: TermsView)
    requires
        wf_view(s),
        wf_view(ps),
    ensures
        wf_view(spec_extend_terms(s, ps)),
        forall|k: KeyView|
            #[trigger] spec_contains(ps, k) && !cc_is_zero(
                spec_merge_value(s, k, spec_value(ps, k)),
            ) ==> spec_contains(spec_extend_terms(s, ps), k) && spec_value(
                spec_extend_terms(s, ps),
                k,
            ) == spec_merge_value(s, k, spec_value(ps, k)),
        forall|k: KeyView|
            #[trigger] spec_contains(ps, k) && cc_is_zero(
                spec_merge_value(s, k, spec_value(ps, k)),
            ) ==> !spec_contains(spec_extend_terms(s, ps), k),
        forall|k: KeyView|
            !spec_contains(ps, k) ==> #[trigger] spec_contains(spec_extend_terms(s, ps), k)
                == spec_contains(s, k),
        forall|k: KeyView|
            !spec_contains(ps, k) && spec_contains(s, k) ==> #[trigger] spec_value(
                spec_extend_terms(s, ps),
                k,
            ) == spec_value(s, k),
    decreases ps.len(),
{
    if ps.len() == 0 {
    } else {
        let k0 = ps[0].0;
        let c0 = ps[0].1;
        let s1 = spec_add_term(s, k0, c0);
        lemma_add_term_props(s, k0, c0);
        lemma_contains_tail(ps, k0);
        lemma_key_index_unique(ps, 0);
        lemma_extend_pointwise(s1, ps.skip(1));
        let r = spec_extend_terms(s, ps);
        assert(r == spec_extend_terms(s1, ps.skip(1)));
        assert(!spec_contains(ps.skip(1), k0));
        assert(spec_value(ps, k0) == c0);
        assert forall|k: KeyView|
            #[trigger] spec_contains(ps, k) && !cc_is_zero(
                spec_merge_value(s, k, spec_value(ps, k)),
            ) implies spec_contains(r, k) && spec_value(r, k) == spec_merge_value(
            s,
            k,
            spec_value(ps, k),
        ) by {
            lemma_contains_tail(ps, k);
            if k == k0 {
                assert(spec_merge_value(s, k, spec_value(ps, k)) == spec_merge_value(s, k0, c0));
            } else {
                assert(spec_contains(ps.skip(1), k));
                assert(spec_value(ps.skip(1), k) == spec_value(ps, k));
                assert(spec_merge_value(s1, k, spec_value(ps, k)) == spec_merge_value(
                    s,
                    k,
                    spec_value(ps, k),
                ));
            }
        }
        assert forall|k: KeyView|
            #[trigger] spec_contains(ps, k) && cc_is_zero(
                spec_merge_value(s, k, spec_value(ps, k)),
            ) implies !spec_contains(r, k) by {
            lemma_contains_tail(ps, k);
            if k == k0 {
            } else {
                assert(spec_contains(ps.skip(1), k));
                assert(spec_value(ps.skip(1), k) == spec_value(ps, k));
            }
        }
        assert forall|k: KeyView| !spec_contains(ps, k) implies #[trigger] spec_contains(r, k)
            == spec_contains(s, k) by {
            lemma_contains_tail(ps, k);
        }
        assert forall|k: KeyView| !spec_contains(ps, k) && spec_contains(s, k)
            implies #[trigger] spec_value(r, k) == spec_value(s, k) by {
            lemma_contains_tail(ps, k);
        }
    }
}

impl DecoherenceOperator {
    /// Merge every entry of `other` into this operator, entry by entry, with
    /// the merge-add semantics of [`Self::add_operator_product`].
    pub fn extend(&mut self, other: &Self)
        requires
            old(self).wf(),
            other.wf(),
        ensures
            final(self).wf(),
            final(self)@ == spec_extend_terms(old(self)@, other@),
    {
        let mut i: usize = 0;
        proof {
            assert(other@.skip(0) =~= other@);
        }
        while i < other.terms.len()
            invariant
                self.wf(),
                other.wf(),
                i <= other.terms.len(),
                spec_extend_terms(old(self)@, other@) == spec_extend_terms(
                    self@,
                    other@.skip(i as int),
                ),
            decreases other.terms.len() - i,
        {
            proof {
                assert(other@.skip(i as int)[0] == other@[i as int]);
                assert(other@.skip(i as int).skip(1) =~= other@.skip(i as int + 1));
                assert(wf_items(other@[i as int].0));
            }
            let key = other.terms[i].0.duplicate();
            let c = other.terms[i].1.clone();
            let _ = self.add_operator_product(key, c);
            i = i + 1;
        }
        proof {
            assert(other@.skip(i as int).len() == 0);
        }
    }

    /// The sum of two operators: entry-wise merge, with exactly-zero merged
    /// coefficients cancelled away.
    pub fn add(self, other: Self) -> (r: Self)
        requires
            self.wf(),
            other.wf(),
        ensures
            r.wf(),
            r@ == spec_extend_terms(self@, other@),
    {
        let mut acc = self;
        acc.extend(&other);
        acc
    }

    /// The difference of two operators: entry-wise merge of the negation of
    /// `other`, with exactly-zero merged coefficients cancelled away.
    pub fn sub(self, other: Self) -> (r: Self)
        requires
            self.wf(),
            other.wf(),
        ensures
            r.wf(),
            r@ == spec_extend_terms(self@, spec_neg_terms(other@)),
    {
        let negated = other.neg();
        proof {
            assert(negated@ =~= spec_neg_terms(other@));
        }
        let mut acc = self;
        acc.extend(&negated);
        acc
    }
}

/// The coefficient one cross term contributes: the product of the two
/// coefficients, negated when the product of the two keys carries a
/// negative sign.
pub open spec fn spec_term_coeff(
    c1: qoqo_calculator::CalculatorComplex,
    c2: qoqo_calculator::CalculatorComplex,
    sg: crate::product::Sign,
) -> qoqo_calculator::CalculatorComplex {
    if sg == crate::product::Sign::Negative {
        cc_neg(cc_mul(c1, c2))
    } else {
        cc_mul(c1, c2)
    }
}

/// Merge into `acc` the cross terms of one left entry `(k1, c1)` against
/// every entry of `bs`, in order.
pub open spec fn spec_row_fold(
    acc: TermsView,
    k1: KeyView,
    c1: qoqo_calculator::CalculatorComplex,
    bs: TermsView,
) -> TermsView
    decreases bs.len(),
{
    if bs.len() == 0 {
        acc
    } else {
        spec_row_fold(
            spec_add_term(
                acc,
                crate::product::spec_mul_items(k1, bs[0].0).0,
                spec_term_coeff(c1, bs[0].1, crate::product::spec_mul_items(k1, bs[0].0).1),
            ),
            k1,
            c1,
            bs.skip(1),
        )
    }
}

/// Merge into `acc` every cross term of `as_` against `bs`, row by row.
pub open spec fn spec_mul_fold(acc: TermsView, as_: TermsView, bs: TermsView) -> TermsView
    decreases as_.len(),
{
    if as_.len() == 0 {
        acc
    } else {
        spec_mul_fold(spec_row_fold(acc, as_[0].0, as_[0].1, bs), as_.skip(1), bs)
    }
}

impl DecoherenceOperator {
    /// The operator product: every pair of entries multiplies into the cross
    /// term of their key product, with the accumulated sign folded into the
    /// coefficient, merged with exact cancellation.
    pub fn mul(&self, other: &Self) -> (r: Self)
        requires
            self.wf(),
            other.wf(),
        ensures
            r.wf(),
            r@ == spec_mul_fold(Seq::empty(), self@, other@),
    {
        let mut acc = DecoherenceOperator::new();
        let mut i: usize = 0;
        proof {
            assert(self@.skip(0) =~= self@);
        }
        while i < self.terms.len()
            invariant
                self.wf(),
                other.wf(),
                acc.wf(),
                i <= self.terms.len(),
                spec_mul_fold(Seq::empty(), self@, other@) == spec_mul_fold(
                    acc@,
                    self@.skip(i as int),
                    other@,
                ),
            decreases self.terms.len() - i,
        {
            proof {
                assert(self@.skip(i as int)[0] == self@[i as int]);
                assert(self@.skip(i as int).skip(1) =~= self@.skip(i as int + 1));
                assert(wf_items(self@[i as int].0));
                assert(other@.skip(0) =~= other@);
            }
            let ghost row_start = acc@;
            let ghost k1 = self@[i as int].0;
            let ghost c1 = self@[i as int].1;
            let mut j: usize = 0;
            while j < other.terms.len()
                invariant
                    self.wf(),
                    other.wf(),
                    acc.wf(),
                    i < self.terms.len(),
                    j <= other.terms.len(),
                    k1 == self@[i as int].0,
                    c1 == self@[i as int].1,
                    spec_row_fold(row_start, k1, c1, other@) == spec_row_fold(
                        acc@,
                        k1,
                        c1,
                        other@.skip(j as int),
                    ),
                decreases other.terms.len() - j,
            {
                proof {
                    assert(other@.skip(j as int)[0] == other@[j as int]);
                    assert(other@.skip(j as int).skip(1) =~= other@.skip(j as int + 1));
                    assert(wf_items(other@[j as int].0));
                }
                let (prod, sign) = DecoherenceProduct::multiply(
                    &self.terms[i].0,
                    &other.terms[j].0,
                );
                let c = cc_mul_exec(&self.terms[i].1, &other.terms[j].1);
                let c = match sign {
                    crate::product::Sign::Negative => cc_neg_exec(&c),
                    crate::product::Sign::Positive => c,
                };
                let _ = acc.add_operator_product(prod, c);
                j = j + 1;
            }
            proof {
                assert(other@.skip(j as int).len() == 0);
                assert(spec_row_fold(row_start, k1, c1, other@) == acc@);
            }
            i = i + 1;
        }
        proof {
            assert(self@.skip(i as int).len() == 0);
        }
        acc
    }

    /// Split this operator in two: the entries whose key touches exactly
    /// `number_spins` distinct spin indices, and the remainder. Every entry
    /// lands in exactly one part, in its original key order; on this
    /// unbounded container the call always succeeds.
    pub fn separate_into_n_terms(&self, number_spins: usize) -> (r: Result<
        (Self, Self),
        StruqtureError,
    >)
        requires
            self.wf(),
        ensures
            r.is_ok(),
            ({
                let (sep, rem) = r.unwrap();
                &&& sep.wf()
                &&& rem.wf()
                &&& sep@.len() + rem@.len() == self@.len()
                &&& forall|j: int|
                    0 <= j < self@.len() && (#[trigger] self@[j]).0.len() == number_spins
                        ==> spec_contains(sep@, self@[j].0) && spec_value(sep@, self@[j].0)
                        == self@[j].1
                &&& forall|j: int|
                    0 <= j < self@.len() && (#[trigger] self@[j]).0.len() != number_spins
                        ==> spec_contains(rem@, self@[j].0) && spec_value(rem@, self@[j].0)
                        == self@[j].1
                &&& forall|k: KeyView|
                    #[trigger] spec_contains(sep@, k) ==> spec_contains(self@, k) && k.len()
                        == number_spins
                &&& forall|k: KeyView|
                    #[trigger] spec_contains(rem@, k) ==> spec_contains(self@, k) && k.len()
                        != number_spins
            }),
    {
        let mut sep: Vec<(DecoherenceProduct, qoqo_calculator::CalculatorComplex)> = Vec::new();
        let mut rem: Vec<(DecoherenceProduct, qoqo_calculator::CalculatorComplex)> = Vec::new();
        let mut i: usize = 0;
        proof {
            assert(terms_view(sep@).len() == 0);
            assert(terms_view(rem@).len() == 0);
        }
        while i < self.terms.len()
            invariant
                self.wf(),
                i <= self.terms.len(),
                sep@.len() + rem@.len() == i,
                wf_view(terms_view(sep@)),
                wf_view(terms_view(rem@)),
                forall|j: int, i2: int|
                    0 <= j < sep@.len() && i <= i2 < self@.len() ==> spec_items_lt(
                        (#[trigger] sep@[j]).0@,
                        (#[trigger] self@[i2]).0,
                    ),
                forall|j: int, i2: int|
                    0 <= j < rem@.len() && i <= i2 < self@.len() ==> spec_items_lt(
                        (#[trigger] rem@[j]).0@,
                        (#[trigger] self@[i2]).0,
                    ),
                forall|j: int|
                    0 <= j < i && (#[trigger] self@[j]).0.len() == number_spins ==> spec_contains(
                        terms_view(sep@),
                        self@[j].0,
                    ) && spec_value(terms_view(sep@), self@[j].0) == self@[j].1,
                forall|j: int|
                    0 <= j < i && (#[trigger] self@[j]).0.len() != number_spins ==> spec_contains(
                        terms_view(rem@),
                        self@[j].0,
                    ) && spec_value(terms_view(rem@), self@[j].0) == self@[j].1,
                forall|k: KeyView|
                    #[trigger] spec_contains(terms_view(sep@), k) ==> spec_contains(self@, k)
                        && k.len() == number_spins,
                forall|k: KeyView|
                    #[trigger] spec_contains(terms_view(rem@), k) ==> spec_contains(self@, k)
                        && k.len() != number_spins,
            decreases self.terms.len() - i,
        {
            let key = self.terms[i].0.duplicate();
            let c = self.terms[i].1.clone();
            proof {
                lemma_key_index_unique(self@, i as int);
                assert forall|j: int| 0 <= j < i implies (#[trigger] self@[j]).0
                    != self@[i as int].0 by {
                    lemma_items_lt_irrefl(self@[j].0);
                }
            }
            if key.len() == number_spins {
                let ghost ov = terms_view(sep@);
                proof {
                    lemma_insert_pointwise(ov, ov.len() as int, key@, c);
                }
                sep.push((key, c));
                proof {
                    assert(terms_view(sep@) =~= ov.insert(ov.len() as int, (self@[i as int].0, c)));
                }
            } else {
                let ghost ov = terms_view(rem@);
                proof {
                    lemma_insert_pointwise(ov, ov.len() as int, key@, c);
                }
                rem.push((key, c));
                proof {
                    assert(terms_view(rem@) =~= ov.insert(ov.len() as int, (self@[i as int].0, c)));
                }
            }
            i = i + 1;
        }
        Ok((DecoherenceOperator { terms: sep }, DecoherenceOperator { terms: rem }))
    }
}



impl DecoherenceOperator {
    /// Build an operator from an ordered list of entries: each pair is
    /// merged in with the merge-add semantics of
    /// [`Self::add_operator_product`], in order. This is the bulk-import
    /// form matching [`Self::to_pairs`].
    pub fn from_pairs(pairs: Vec<(DecoherenceProduct, qoqo_calculator::CalculatorComplex)>) -> (r:
        Self)
        requires
            forall|i: int| 0 <= i < pairs@.len() ==> (#[trigger] pairs@[i]).0.wf(),
        ensures
            r.wf(),
            r@ == spec_extend_terms(Seq::empty(), terms_view(pairs@)),
    {
        let ghost ps = terms_view(pairs@);
        let mut acc = DecoherenceOperator::new();
        let mut i: usize = 0;
        proof {
            assert(ps.skip(0) =~= ps);
        }
        while i < pairs.len()
            invariant
                i <= pairs.len(),
                acc.wf(),
                ps == terms_view(pairs@),
                forall|j: int| 0 <= j < pairs@.len() ==> (#[trigger] pairs@[j]).0.wf(),
                spec_extend_terms(Seq::empty(), ps) == spec_extend_terms(
                    acc@,
                    ps.skip(i as int),
                ),
            decreases pairs.len() - i,
        {
            proof {
                assert(ps.skip(i as int)[0] == ps[i as int]);
                assert(ps.skip(i as int).skip(1) =~= ps.skip(i as int + 1));
            }
            let key = pairs[i].0.duplicate();
            let c = pairs[i].1.clone();
            let _ = acc.add_operator_product(key, c);
            i = i + 1;
        }
        proof {
            assert(ps.skip(i as int).len() == 0);
        }
        acc
    }
}



impl Default for DecoherenceOperator {
    /// The empty operator.
    fn default() -> (r: Self)
        ensures
            r@.len() == 0,
            r.wf(),
    {
        Self::new()
    }
}

impl DecoherenceOperator {
    /// Multiply every coefficient by the real scalar `value`, dropping any
    /// entry whose scaled coefficient is exactly zero.
    pub fn scale_real(&self, value: qoqo_calculator::CalculatorFloat) -> (r: Self)
        requires
            self.wf(),
        ensures
            r.wf(),
            forall|j: int|
                0 <= j < self@.len() && !cc_is_zero(
                    cc_mul((#[trigger] self@[j]).1, crate::coefficient::cc_of_float(value)),
                ) ==> spec_contains(r@, self@[j].0) && spec_value(r@, self@[j].0) == cc_mul(
                    self@[j].1,
                    crate::coefficient::cc_of_float(value),
                ),
            forall|j: int|
                0 <= j < self@.len() && cc_is_zero(
                    cc_mul((#[trigger] self@[j]).1, crate::coefficient::cc_of_float(value)),
                ) ==> !spec_contains(r@, self@[j].0),
            forall|k: KeyView| #[trigger] spec_contains(r@, k) ==> spec_contains(self@, k),
    {
        let scalar = crate::coefficient::cc_of_float_exec(value);
        self.scale(&scalar)
    }
}


} // verus!
