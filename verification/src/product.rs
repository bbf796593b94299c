//! Canonical product keys over indexed single-spin decoherence symbols.
//!
//! A [`DecoherenceProduct`] is a tensor-product term: an ordered sequence of
//! `(spin index, symbol)` pairs with strictly increasing indices and no
//! stored identity symbols. Two products multiply index by index through the
//! single-spin table, accumulating a sign prefactor of +1 or -1.

use vstd::prelude::*;

verus! {

/// A single-spin decoherence symbol. The set {I, X, iY, Z} is closed under
/// multiplication up to a sign, which makes every stored key Hermitian up to
/// a real prefactor.
#[derive(Clone, Copy, Debug, PartialEq, Eq, PartialOrd, Ord, Hash, Structural)]
pub enum SingleDecoherenceOperator {
    Identity,
    X,
    IY,
    Z,
}

/// Sign prefactor accumulated when two products are multiplied: the symbol
/// set {I, X, iY, Z} multiplies into itself with a phase of +1 or -1 only.
#[derive(Clone, Copy, Debug, PartialEq, Eq, Structural)]
pub enum Sign {
    Positive,
    Negative,
}

impl Sign {
    /// Combine two sign prefactors.
    pub fn times(self, other: Sign) -> (r: Sign)
        ensures
            r == spec_sign_times(self, other),
    {
        match (self, other) {
            (Sign::Positive, Sign::Positive) => Sign::Positive,
            (Sign::Positive, Sign::Negative) => Sign::Negative,
            (Sign::Negative, Sign::Positive) => Sign::Negative,
            (Sign::Negative, Sign::Negative) => Sign::Positive,
        }
    }
}

/// Product of two sign prefactors.
pub open spec fn spec_sign_times(a: Sign, b: Sign) -> Sign {
    if a == b {
        Sign::Positive
    } else {
        Sign::Negative
    }
}

/// Single-spin multiplication table: `spec_sym_mul(a, b)` is the symbol and
/// sign of `a * b` on one spin, with iY standing for the matrix i*Y.
pub open spec fn spec_sym_mul(a: SingleDecoherenceOperator, b: SingleDecoherenceOperator) -> (
    SingleDecoherenceOperator,
    Sign,
) {
    match (a, b) {
        (SingleDecoherenceOperator::Identity, other) => (other, Sign::Positive),
        (other, SingleDecoherenceOperator::Identity) => (other, Sign::Positive),
        (SingleDecoherenceOperator::X, SingleDecoherenceOperator::X) => (
            SingleDecoherenceOperator::Identity,
            Sign::Positive,
        ),
        (SingleDecoherenceOperator::X, SingleDecoherenceOperator::IY) => (
            SingleDecoherenceOperator::Z,
            Sign::Negative,
        ),
        (SingleDecoherenceOperator::X, SingleDecoherenceOperator::Z) => (
            SingleDecoherenceOperator::IY,
            Sign::Negative,
        ),
        (SingleDecoherenceOperator::IY, SingleDecoherenceOperator::X) => (
            SingleDecoherenceOperator::Z,
            Sign::Positive,
        ),
        (SingleDecoherenceOperator::IY, SingleDecoherenceOperator::IY) => (
            SingleDecoherenceOperator::Identity,
            Sign::Negative,
        ),
        (SingleDecoherenceOperator::IY, SingleDecoherenceOperator::Z) => (
            SingleDecoherenceOperator::X,
            Sign::Negative,
        ),
        (SingleDecoherenceOperator::Z, SingleDecoherenceOperator::X) => (
            SingleDecoherenceOperator::IY,
            Sign::Positive,
        ),
        (SingleDecoherenceOperator::Z, SingleDecoherenceOperator::IY) => (
            SingleDecoherenceOperator::X,
            Sign::Positive,
        ),
        (SingleDecoherenceOperator::Z, SingleDecoherenceOperator::Z) => (
            SingleDecoherenceOperator::Identity,
            Sign::Positive,
        ),
    }
}

/// Multiply two single-spin symbols acting on the same spin index.
pub fn sym_mul(a: SingleDecoherenceOperator, b: SingleDecoherenceOperator) -> (r: (
    SingleDecoherenceOperator,
    Sign,
))
    ensures
        r == spec_sym_mul(a, b),
{
    match (a, b) {
        (SingleDecoherenceOperator::Identity, other) => (other, Sign::Positive),
        (other, SingleDecoherenceOperator::Identity) => (other, Sign::Positive),
        (SingleDecoherenceOperator::X, SingleDecoherenceOperator::X) => (
            SingleDecoherenceOperator::Identity,
            Sign::Positive,
        ),
        (SingleDecoherenceOperator::X, SingleDecoherenceOperator::IY) => (
            SingleDecoherenceOperator::Z,
            Sign::Negative,
        ),
        (SingleDecoherenceOperator::X, SingleDecoherenceOperator::Z) => (
            SingleDecoherenceOperator::IY,
            Sign::Negative,
        ),
        (SingleDecoherenceOperator::IY, SingleDecoherenceOperator::X) => (
            SingleDecoherenceOperator::Z,
            Sign::Positive,
        ),
        (SingleDecoherenceOperator::IY, SingleDecoherenceOperator::IY) => (
            SingleDecoherenceOperator::Identity,
            Sign::Negative,
        ),
        (SingleDecoherenceOperator::IY, SingleDecoherenceOperator::Z) => (
            SingleDecoherenceOperator::X,
            Sign::Negative,
        ),
        (SingleDecoherenceOperator::Z, SingleDecoherenceOperator::X) => (
            SingleDecoherenceOperator::IY,
            Sign::Positive,
        ),
        (SingleDecoherenceOperator::Z, SingleDecoherenceOperator::IY) => (
            SingleDecoherenceOperator::X,
            Sign::Positive,
        ),
        (SingleDecoherenceOperator::Z, SingleDecoherenceOperator::Z) => (
            SingleDecoherenceOperator::Identity,
            Sign::Positive,
        ),
    }
}

/// The canonical entry list of a product: indices strictly increasing, no
/// identity symbol stored.
pub open spec fn wf_items(s: Seq<(usize, SingleDecoherenceOperator)>) -> bool {
    &&& forall|i: int, j: int| 0 <= i < j < s.len() ==> (#[trigger] s[i]).0 < (#[trigger] s[j]).0
    &&& forall|i: int|
        0 <= i < s.len() ==> (#[trigger] s[i]).1 != SingleDecoherenceOperator::Identity
}

/// The symbol a canonical entry list applies to spin `idx`; identity where no
/// entry names `idx`.
pub open spec fn spec_symbol_at(s: Seq<(usize, SingleDecoherenceOperator)>, idx: usize) -> SingleDecoherenceOperator
    decreases s.len(),
{
    if s.len() == 0 {
        SingleDecoherenceOperator::Identity
    } else if s[0].0 == idx {
        s[0].1
    } else {
        spec_symbol_at(s.skip(1), idx)
    }
}

/// Canonical insertion: place `sym` at `idx`, replacing an existing entry,
/// keeping the list sorted, and storing no identity.
pub open spec fn spec_set_symbol(
    s: Seq<(usize, SingleDecoherenceOperator)>,
    idx: usize,
    sym: SingleDecoherenceOperator,
) -> Seq<(usize, SingleDecoherenceOperator)>
    decreases s.len(),
{
    if s.len() == 0 {
        if sym == SingleDecoherenceOperator::Identity {
            Seq::empty()
        } else {
            seq![(idx, sym)]
        }
    } else if s[0].0 < idx {
        seq![s[0]] + spec_set_symbol(s.skip(1), idx, sym)
    } else if s[0].0 == idx {
        if sym == SingleDecoherenceOperator::Identity {
            s.skip(1)
        } else {
            seq![(idx, sym)] + s.skip(1)
        }
    } else {
        if sym == SingleDecoherenceOperator::Identity {
            s
        } else {
            seq![(idx, sym)] + s
        }
    }
}

/// Every index named in `s` is at least `m`.
pub open spec fn all_indices_ge(s: Seq<(usize, SingleDecoherenceOperator)>, m: usize) -> bool {
    forall|i: int| 0 <= i < s.len() ==> m <= (#[trigger] s[i]).0
}

/// Index-by-index product of two canonical entry lists: entries present on
/// one side only are copied; entries sharing an index go through the
/// single-spin table, identity results are dropped, and the signs multiply.
pub open spec fn spec_mul_items(
    a: Seq<(usize, SingleDecoherenceOperator)>,
    b: Seq<(usize, SingleDecoherenceOperator)>,
) -> (Seq<(usize, SingleDecoherenceOperator)>, Sign)
    decreases a.len() + b.len(),
{
    if a.len() == 0 {
        (b, Sign::Positive)
    } else if b.len() == 0 {
        (a, Sign::Positive)
    } else if a[0].0 < b[0].0 {
        let r = spec_mul_items(a.skip(1), b);
        (seq![a[0]] + r.0, r.1)
    } else if b[0].0 < a[0].0 {
        let r = spec_mul_items(a, b.skip(1));
        (seq![b[0]] + r.0, r.1)
    } else {
        let m = spec_sym_mul(a[0].1, b[0].1);
        let r = spec_mul_items(a.skip(1), b.skip(1));
        if m.0 == SingleDecoherenceOperator::Identity {
            (r.0, spec_sign_times(m.1, r.1))
        } else {
            (seq![(a[0].0, m.0)] + r.0, spec_sign_times(m.1, r.1))
        }
    }
}

/// Rank of a symbol in the total order of symbols.
pub open spec fn sym_rank(s: SingleDecoherenceOperator) -> int {
    match s {
        SingleDecoherenceOperator::Identity => 0,
        SingleDecoherenceOperator::X => 1,
        SingleDecoherenceOperator::IY => 2,
        SingleDecoherenceOperator::Z => 3,
    }
}

/// Order on single entries: by index, then by symbol rank.
pub open spec fn spec_pair_lt(
    a: (usize, SingleDecoherenceOperator),
    b: (usize, SingleDecoherenceOperator),
) -> bool {
    a.0 < b.0 || (a.0 == b.0 && sym_rank(a.1) < sym_rank(b.1))
}

/// The total order on canonical entry lists: lexicographic over entries,
/// with a shorter list preceding every proper extension of it.
pub open spec fn spec_items_lt(
    a: Seq<(usize, SingleDecoherenceOperator)>,
    b: Seq<(usize, SingleDecoherenceOperator)>,
) -> bool
    decreases a.len() + b.len(),
{
    if b.len() == 0 {
        false
    } else if a.len() == 0 {
        true
    } else {
        spec_pair_lt(a[0], b[0]) || (a[0] == b[0] && spec_items_lt(a.skip(1), b.skip(1)))
    }
}

/// The order is irreflexive.
pub proof fn lemma_items_lt_irrefl(a: Seq<(usize, SingleDecoherenceOperator)>)
    ensures
        !spec_items_lt(a, a),
    decreases a.len(),
{
    if a.len() > 0 {
        lemma_items_lt_irrefl(a.skip(1));
    }
}

/// The order is total: two distinct lists compare one way or the other.
pub proof fn lemma_items_lt_connex(
    a: Seq<(usize, SingleDecoherenceOperator)>,
    b: Seq<(usize, SingleDecoherenceOperator)>,
)
    ensures
        a == b || spec_items_lt(a, b) || spec_items_lt(b, a),
    decreases a.len() + b.len(),
{
    if a.len() == 0 || b.len() == 0 {
        if a.len() == 0 && b.len() == 0 {
            assert(a =~= b);
        }
    } else if a[0] == b[0] {
        lemma_items_lt_connex(a.skip(1), b.skip(1));
        if a.skip(1) == b.skip(1) {
            assert(a =~= seq![a[0]] + a.skip(1));
            assert(b =~= seq![b[0]] + b.skip(1));
        }
    } else {
        assert(spec_pair_lt(a[0], b[0]) || spec_pair_lt(b[0], a[0]));
    }
}

/// The order is transitive.
pub proof fn lemma_items_lt_trans(
    a: Seq<(usize, SingleDecoherenceOperator)>,
    b: Seq<(usize, SingleDecoherenceOperator)>,
    c: Seq<(usize, SingleDecoherenceOperator)>,
)
    requires
        spec_items_lt(a, b),
        spec_items_lt(b, c),
    ensures
        spec_items_lt(a, c),
    decreases a.len() + b.len() + c.len(),
{
    if a.len() == 0 || b.len() == 0 || c.len() == 0 {
    } else if a[0] == b[0] && b[0] == c[0] {
        lemma_items_lt_trans(a.skip(1), b.skip(1), c.skip(1));
    }
}

/// The order is asymmetric.
pub proof fn lemma_items_lt_asym(
    a: Seq<(usize, SingleDecoherenceOperator)>,
    b: Seq<(usize, SingleDecoherenceOperator)>,
)
    requires
        spec_items_lt(a, b),
    ensures
        !spec_items_lt(b, a),
    decreases a.len() + b.len(),
{
    if a.len() > 0 && b.len() > 0 && a[0] == b[0] {
        lemma_items_lt_asym(a.skip(1), b.skip(1));
    }
}

/// A canonical tensor-product key: an ordered list of `(index, symbol)`
/// entries, strictly increasing in index, with no identity entries.
#[derive(Clone, Debug, PartialEq, Eq, PartialOrd, Ord, Hash)]
pub struct DecoherenceProduct {
    pub items: Vec<(usize, SingleDecoherenceOperator)>,
}

impl View for DecoherenceProduct {
    type V = Seq<(usize, SingleDecoherenceOperator)>;

    open spec fn view(&self) -> Seq<(usize, SingleDecoherenceOperator)> {
        self.items@
    }
}

impl DecoherenceProduct {
    /// The canonical-form invariant of a product key.
    pub open spec fn wf(&self) -> bool {
        wf_items(self@)
    }

    /// The identity product, acting on no spin.
    pub fn new() -> (r: Self)
        ensures
            r@ == Seq::<(usize, SingleDecoherenceOperator)>::empty(),
            r.wf(),
    {
        let r = DecoherenceProduct { items: Vec::new() };
        proof {
            assert(r@ =~= Seq::<(usize, SingleDecoherenceOperator)>::empty());
        }
        r
    }

    /// The entries of this product, in ascending index order.
    pub fn entries(&self) -> (r: Vec<(usize, SingleDecoherenceOperator)>)
        ensures
            r@ == self@,
    {
        let mut out: Vec<(usize, SingleDecoherenceOperator)> = Vec::new();
        let mut i: usize = 0;
        while i < self.items.len()
            invariant
                i <= self.items.len(),
                out@ == self@.take(i as int),
            decreases self.items.len() - i,
        {
            out.push(self.items[i]);
            i = i + 1;
            proof {
                assert(out@ =~= self@.take(i as int));
            }
        }
        proof {
            assert(out@ =~= self@);
        }
        out
    }

    /// Number of entries in the product.
    pub fn len(&self) -> (r: usize)
        ensures
            r == self@.len(),
    {
        self.items.len()
    }

    /// True when the product is the identity.
    pub fn is_identity(&self) -> (r: bool)
        ensures
            r == (self@.len() == 0),
    {
        self.items.len() == 0
    }

    /// The smallest spin count that covers every index this product touches:
    /// largest named index plus one, zero for the identity product.
    pub fn current_number_spins(&self) -> (r: usize)
        requires
            self.wf(),
            self@.len() > 0 ==> self@[self@.len() - 1].0 < usize::MAX,
        ensures
            self@.len() == 0 ==> r == 0,
            self@.len() > 0 ==> r == self@[self@.len() - 1].0 + 1,
    {
        if self.items.len() == 0 {
            0
        } else {
            self.items[self.items.len() - 1].0 + 1
        }
    }

    /// The symbol this product applies to spin `idx` (identity if absent).
    pub fn get(&self, idx: usize) -> (r: SingleDecoherenceOperator)
        requires
            self.wf(),
        ensures
            r == spec_symbol_at(self@, idx),
    {
        let mut i: usize = 0;
        proof {
            assert(self@.skip(0) =~= self@);
        }
        while i < self.items.len()
            invariant
                self.wf(),
                i <= self.items.len(),
                spec_symbol_at(self@, idx) == spec_symbol_at(self@.skip(i as int), idx),
                forall|k: int| 0 <= k < i ==> (#[trigger] self@[k]).0 != idx,
            decreases self.items.len() - i,
        {
            let (j, s) = self.items[i];
            proof {
                lemma_symbol_at_skip(self@, i as int, idx);
            }
            if j == idx {
                proof {
                    assert(spec_symbol_at(self@.skip(i as int), idx) == s);
                }
                return s;
            }
            i = i + 1;
        }
        proof {
            assert(self@.skip(i as int).len() == 0);
        }
        SingleDecoherenceOperator::Identity
    }
}

impl DecoherenceProduct {
    /// An independent copy of this product.
    pub fn duplicate(&self) -> (r: Self)
        ensures
            r@ == self@,
    {
        DecoherenceProduct { items: self.entries() }
    }

    /// Compare two products in the total key order.
    pub fn lt(&self, other: &Self) -> (r: bool)
        ensures
            r == spec_items_lt(self@, other@),
    {
        let mut i: usize = 0;
        proof {
            assert(self@.skip(0) =~= self@);
            assert(other@.skip(0) =~= other@);
        }
        loop
            invariant
                i <= self.items.len(),
                i <= other.items.len(),
                spec_items_lt(self@, other@) == spec_items_lt(
                    self@.skip(i as int),
                    other@.skip(i as int),
                ),
            decreases self.items.len() - i,
        {
            if i >= self.items.len() || i >= other.items.len() {
                proof {
                    if i >= self.items.len() && i >= other.items.len() {
                        assert(self@.skip(i as int).len() == 0);
                        assert(other@.skip(i as int).len() == 0);
                    }
                }
                return self.items.len() < other.items.len();
            }
            let pa = self.items[i];
            let pb = other.items[i];
            proof {
                assert(self@.skip(i as int)[0] == self@[i as int]);
                assert(other@.skip(i as int)[0] == other@[i as int]);
                assert(self@.skip(i as int).skip(1) =~= self@.skip(i as int + 1));
                assert(other@.skip(i as int).skip(1) =~= other@.skip(i as int + 1));
            }
            if pa.0 < pb.0 {
                return true;
            } else if pb.0 < pa.0 {
                return false;
            } else {
                let ra = sym_rank_exec(pa.1);
                let rb = sym_rank_exec(pb.1);
                if ra < rb {
                    return true;
                } else if rb < ra {
                    return false;
                } else {
                    proof {
                        assert(sym_rank(pa.1) == sym_rank(pb.1));
                        assert(pa.1 == pb.1);
                    }
                    i = i + 1;
                }
            }
        }
    }

    /// Structural equality of two products.
    pub fn key_eq(&self, other: &Self) -> (r: bool)
        ensures
            r == (self@ == other@),
    {
        if self.items.len() != other.items.len() {
            return false;
        }
        let mut i: usize = 0;
        while i < self.items.len()
            invariant
                self.items.len() == other.items.len(),
                i <= self.items.len(),
                forall|k: int| 0 <= k < i ==> self@[k] == other@[k],
            decreases self.items.len() - i,
        {
            let pa = self.items[i];
            let pb = other.items[i];
            if pa.0 != pb.0 {
                return false;
            }
            if !sym_eq(pa.1, pb.1) {
                return false;
            }
            i = i + 1;
        }
        proof {
            assert(self@ =~= other@);
        }
        true
    }

    /// Set the symbol this product applies to spin `index`, replacing any
    /// existing entry there; the identity symbol clears the entry.
    pub fn set_pauli(self, index: usize, sym: SingleDecoherenceOperator) -> (r: Self)
        requires
            self.wf(),
        ensures
            r@ == spec_set_symbol(self@, index, sym),
            r.wf(),
    {
        proof {
            lemma_set_symbol_wf(self@, index, sym);
        }
        let ghost full = self@;
        let mut out: Vec<(usize, SingleDecoherenceOperator)> = Vec::new();
        let mut i: usize = 0;
        proof {
            assert(full.skip(0) =~= full);
            assert(out@ =~= Seq::<(usize, SingleDecoherenceOperator)>::empty());
        }
        while i < self.items.len() && self.items[i].0 < index
            invariant
                self.wf(),
                full == self@,
                i <= self.items.len(),
                spec_set_symbol(full, index, sym) == out@ + spec_set_symbol(
                    full.skip(i as int),
                    index,
                    sym,
                ),
            decreases self.items.len() - i,
        {
            proof {
                assert(full.skip(i as int)[0] == full[i as int]);
                assert(full.skip(i as int).skip(1) =~= full.skip(i as int + 1));
            }
            out.push(self.items[i]);
            i = i + 1;
        }
        let ghost rest = full.skip(i as int);
        let ghost mid = out@;
        proof {
            if i < self.items.len() {
                assert(rest[0] == full[i as int]);
                assert(rest.skip(1) =~= full.skip(i as int + 1));
            } else {
                assert(rest.len() == 0);
            }
        }
        if i < self.items.len() && self.items[i].0 == index {
            i = i + 1;
        }
        match sym {
            SingleDecoherenceOperator::Identity => {},
            s => {
                out.push((index, s));
            },
        }
        proof {
            if sym == SingleDecoherenceOperator::Identity {
                if rest.len() == 0 {
                    assert(spec_set_symbol(rest, index, sym) =~= full.skip(i as int));
                } else if rest[0].0 == index {
                    assert(spec_set_symbol(rest, index, sym) == rest.skip(1));
                } else {
                    assert(spec_set_symbol(rest, index, sym) == rest);
                }
                assert(out@ + full.skip(i as int) =~= mid + spec_set_symbol(rest, index, sym));
            } else {
                if rest.len() == 0 {
                    assert(spec_set_symbol(rest, index, sym) == seq![(index, sym)]);
                } else if rest[0].0 == index {
                    assert(spec_set_symbol(rest, index, sym) == seq![(index, sym)] + rest.skip(1));
                } else {
                    assert(spec_set_symbol(rest, index, sym) == seq![(index, sym)] + rest);
                }
                assert(out@ + full.skip(i as int) =~= mid + spec_set_symbol(rest, index, sym));
            }
            assert(out@ + full.skip(i as int) =~= spec_set_symbol(full, index, sym));
        }
        while i < self.items.len()
            invariant
                self.wf(),
                full == self@,
                i <= self.items.len(),
                spec_set_symbol(full, index, sym) == out@ + full.skip(i as int),
            decreases self.items.len() - i,
        {
            proof {
                assert(full.skip(i as int)[0] == full[i as int]);
                assert(full.skip(i as int).skip(1) =~= full.skip(i as int + 1));
                assert(full.skip(i as int) =~= seq![full[i as int]] + full.skip(i as int + 1));
            }
            out.push(self.items[i]);
            i = i + 1;
        }
        proof {
            assert(full.skip(i as int).len() == 0);
            assert(out@ =~= out@ + full.skip(i as int));
        }
        DecoherenceProduct { items: out }
    }

    /// Apply the X symbol to spin `index`.
    pub fn x(self, index: usize) -> (r: Self)
        requires
            self.wf(),
        ensures
            r@ == spec_set_symbol(self@, index, SingleDecoherenceOperator::X),
            r.wf(),
    {
        self.set_pauli(index, SingleDecoherenceOperator::X)
    }

    /// Apply the iY symbol to spin `index`.
    pub fn iy(self, index: usize) -> (r: Self)
        requires
            self.wf(),
        ensures
            r@ == spec_set_symbol(self@, index, SingleDecoherenceOperator::IY),
            r.wf(),
    {
        self.set_pauli(index, SingleDecoherenceOperator::IY)
    }

    /// Apply the Z symbol to spin `index`.
    pub fn z(self, index: usize) -> (r: Self)
        requires
            self.wf(),
        ensures
            r@ == spec_set_symbol(self@, index, SingleDecoherenceOperator::Z),
            r.wf(),
    {
        self.set_pauli(index, SingleDecoherenceOperator::Z)
    }
}

impl DecoherenceProduct {
    /// Multiply two products: entries sharing an index go through the
    /// single-spin table and identity results are dropped; entries on one
    /// side only are copied. The returned sign is the accumulated prefactor.
    pub fn multiply(left: &Self, right: &Self) -> (r: (Self, Sign))
        requires
            left.wf(),
            right.wf(),
        ensures
            r.0@ == spec_mul_items(left@, right@).0,
            r.1 == spec_mul_items(left@, right@).1,
            r.0.wf(),
    {
        proof {
            lemma_mul_items_wf(left@, right@);
        }
        let mut out: Vec<(usize, SingleDecoherenceOperator)> = Vec::new();
        let mut sign = Sign::Positive;
        let mut i: usize = 0;
        let mut j: usize = 0;
        proof {
            assert(left@.skip(0) =~= left@);
            assert(right@.skip(0) =~= right@);
            assert(out@ =~= Seq::<(usize, SingleDecoherenceOperator)>::empty());
        }
        while i < left.items.len() && j < right.items.len()
            invariant
                left.wf(),
                right.wf(),
                i <= left.items.len(),
                j <= right.items.len(),
                spec_mul_items(left@, right@).0 == out@ + spec_mul_items(
                    left@.skip(i as int),
                    right@.skip(j as int),
                ).0,
                spec_mul_items(left@, right@).1 == spec_sign_times(
                    sign,
                    spec_mul_items(left@.skip(i as int), right@.skip(j as int)).1,
                ),
            decreases left.items.len() - i + right.items.len() - j,
        {
            let pa = left.items[i];
            let pb = right.items[j];
            proof {
                assert(left@.skip(i as int)[0] == left@[i as int]);
                assert(right@.skip(j as int)[0] == right@[j as int]);
                assert(left@.skip(i as int).skip(1) =~= left@.skip(i as int + 1));
                assert(right@.skip(j as int).skip(1) =~= right@.skip(j as int + 1));
            }
            let ghost ra = left@.skip(i as int);
            let ghost rb = right@.skip(j as int);
            if pa.0 < pb.0 {
                out.push(pa);
                i = i + 1;
                proof {
                    assert(out@ + spec_mul_items(ra.skip(1), rb).0 =~= (out@.take(out@.len() - 1)
                        + seq![pa]) + spec_mul_items(ra.skip(1), rb).0);
                    assert(spec_mul_items(left@, right@).0 == out@ + spec_mul_items(
                        left@.skip(i as int),
                        right@.skip(j as int),
                    ).0);
                }
            } else if pb.0 < pa.0 {
                out.push(pb);
                j = j + 1;
                proof {
                    assert(spec_mul_items(left@, right@).0 == out@ + spec_mul_items(
                        left@.skip(i as int),
                        right@.skip(j as int),
                    ).0);
                }
            } else {
                let (s, sg) = sym_mul(pa.1, pb.1);
                let ghost old_sign = sign;
                sign = sign.times(sg);
                match s {
                    SingleDecoherenceOperator::Identity => {},
                    other => {
                        out.push((pa.0, other));
                    },
                }
                i = i + 1;
                j = j + 1;
                proof {
                    let rem = spec_mul_items(ra.skip(1), rb.skip(1));
                    assert(spec_mul_items(ra, rb).1 == spec_sign_times(sg, rem.1));
                    assert(spec_sign_times(old_sign, spec_sign_times(sg, rem.1))
                        == spec_sign_times(spec_sign_times(old_sign, sg), rem.1));
                    assert(spec_mul_items(left@, right@).0 == out@ + spec_mul_items(
                        left@.skip(i as int),
                        right@.skip(j as int),
                    ).0);
                }
            }
        }
        while i < left.items.len()
            invariant
                left.wf(),
                right.wf(),
                i <= left.items.len(),
                j == right.items.len() || i == left.items.len(),
                j <= right.items.len(),
                spec_mul_items(left@, right@).0 == out@ + spec_mul_items(
                    left@.skip(i as int),
                    right@.skip(j as int),
                ).0,
                spec_mul_items(left@, right@).1 == spec_sign_times(
                    sign,
                    spec_mul_items(left@.skip(i as int), right@.skip(j as int)).1,
                ),
            decreases left.items.len() - i,
        {
            proof {
                assert(right@.skip(j as int).len() == 0);
                assert(left@.skip(i as int)[0] == left@[i as int]);
                assert(left@.skip(i as int) =~= seq![left@[i as int]] + left@.skip(i as int + 1));
            }
            out.push(left.items[i]);
            i = i + 1;
            proof {
                assert(spec_mul_items(left@, right@).0 == out@ + spec_mul_items(
                    left@.skip(i as int),
                    right@.skip(j as int),
                ).0);
            }
        }
        while j < right.items.len()
            invariant
                left.wf(),
                right.wf(),
                i == left.items.len(),
                j <= right.items.len(),
                spec_mul_items(left@, right@).0 == out@ + spec_mul_items(
                    left@.skip(i as int),
                    right@.skip(j as int),
                ).0,
                spec_mul_items(left@, right@).1 == spec_sign_times(
                    sign,
                    spec_mul_items(left@.skip(i as int), right@.skip(j as int)).1,
                ),
            decreases right.items.len() - j,
        {
            proof {
                assert(left@.skip(i as int).len() == 0);
                assert(right@.skip(j as int)[0] == right@[j as int]);
                assert(right@.skip(j as int) =~= seq![right@[j as int]] + right@.skip(
                    j as int + 1,
                ));
            }
            out.push(right.items[j]);
            j = j + 1;
            proof {
                assert(spec_mul_items(left@, right@).0 == out@ + spec_mul_items(
                    left@.skip(i as int),
                    right@.skip(j as int),
                ).0);
            }
        }
        proof {
            assert(left@.skip(i as int).len() == 0);
            assert(right@.skip(j as int).len() == 0);
            assert(out@ =~= out@ + spec_mul_items(left@.skip(i as int), right@.skip(j as int)).0);
        }
        (DecoherenceProduct { items: out }, sign)
    }

    /// Hermitian conjugation: X, Z and the identity are self-adjoint, while
    /// (iY)^dagger = -iY, so the conjugate is the same key with a sign that
    /// flips once per iY entry.
    pub fn hermitian_conjugate(&self) -> (r: (Self, Sign))
        requires
            self.wf(),
        ensures
            r.0@ == self@,
            r.0.wf(),
            r.1 == spec_conj_sign(self@),
    {
        let mut sign = Sign::Positive;
        let mut i: usize = 0;
        proof {
            assert(self@.skip(0) =~= self@);
        }
        while i < self.items.len()
            invariant
                i <= self.items.len(),
                spec_conj_sign(self@) == spec_sign_times(sign, spec_conj_sign(self@.skip(i as int))),
            decreases self.items.len() - i,
        {
            proof {
                assert(self@.skip(i as int)[0] == self@[i as int]);
                assert(self@.skip(i as int).skip(1) =~= self@.skip(i as int + 1));
            }
            let sym = self.items[i].1;
            let flip = match sym {
                SingleDecoherenceOperator::IY => Sign::Negative,
                _ => Sign::Positive,
            };
            sign = sign.times(flip);
            i = i + 1;
        }
        proof {
            assert(self@.skip(i as int).len() == 0);
        }
        (self.duplicate(), sign)
    }
}

/// Sign of the Hermitian conjugate of a canonical entry list: one flip per
/// iY entry.
pub open spec fn spec_conj_sign(s: Seq<(usize, SingleDecoherenceOperator)>) -> Sign
    decreases s.len(),
{
    if s.len() == 0 {
        Sign::Positive
    } else {
        spec_sign_times(
            if s[0].1 == SingleDecoherenceOperator::IY {
                Sign::Negative
            } else {
                Sign::Positive
            },
            spec_conj_sign(s.skip(1)),
        )
    }
}

/// The product of two canonical entry lists is canonical, and every index in
/// it already occurs in one of the factors' index ranges.
pub proof fn lemma_mul_items_wf(
    a: Seq<(usize, SingleDecoherenceOperator)>,
    b: Seq<(usize, SingleDecoherenceOperator)>,
)
    requires
        wf_items(a),
        wf_items(b),
    ensures
        wf_items(spec_mul_items(a, b).0),
        forall|m: usize|
            all_indices_ge(a, m) && all_indices_ge(b, m) ==> #[trigger] all_indices_ge(
                spec_mul_items(a, b).0,
                m,
            ),
    decreases a.len() + b.len(),
{
    let r = spec_mul_items(a, b).0;
    if a.len() == 0 || b.len() == 0 {
    } else {
        assert(forall|i: int| 0 <= i < a.skip(1).len() ==> (#[trigger] a.skip(1)[i]) == a[i + 1]);
        assert(forall|i: int| 0 <= i < b.skip(1).len() ==> (#[trigger] b.skip(1)[i]) == b[i + 1]);
        if a[0].0 < b[0].0 {
            lemma_mul_items_wf(a.skip(1), b);
            let rr = spec_mul_items(a.skip(1), b).0;
            assert(all_indices_ge(a.skip(1), (a[0].0 + 1) as usize));
            assert(all_indices_ge(b, (a[0].0 + 1) as usize));
            assert(all_indices_ge(rr, (a[0].0 + 1) as usize));
            assert(forall|j: int| 1 <= j < r.len() ==> (#[trigger] r[j]) == rr[j - 1]);
        } else if b[0].0 < a[0].0 {
            lemma_mul_items_wf(a, b.skip(1));
            let rr = spec_mul_items(a, b.skip(1)).0;
            assert(all_indices_ge(a, (b[0].0 + 1) as usize));
            assert(all_indices_ge(b.skip(1), (b[0].0 + 1) as usize));
            assert(all_indices_ge(rr, (b[0].0 + 1) as usize));
            assert(forall|j: int| 1 <= j < r.len() ==> (#[trigger] r[j]) == rr[j - 1]);
        } else {
            lemma_mul_items_wf(a.skip(1), b.skip(1));
            let rr = spec_mul_items(a.skip(1), b.skip(1)).0;
            let m = spec_sym_mul(a[0].1, b[0].1);
            assert(all_indices_ge(a.skip(1), (a[0].0 + 1) as usize));
            assert(all_indices_ge(b.skip(1), (a[0].0 + 1) as usize));
            assert(all_indices_ge(rr, (a[0].0 + 1) as usize));
            if m.0 != SingleDecoherenceOperator::Identity {
                assert(forall|j: int| 1 <= j < r.len() ==> (#[trigger] r[j]) == rr[j - 1]);
            }
        }
    }
}

/// The single-spin table is symbol-symmetric: `a * b` and `b * a` give the
/// same resulting symbol, differing at most in sign.
pub proof fn lemma_sym_mul_symmetric(a: SingleDecoherenceOperator, b: SingleDecoherenceOperator)
    ensures
        spec_sym_mul(a, b).0 == spec_sym_mul(b, a).0,
{
}

/// Products commute up to sign: multiplying in either order yields the same
/// canonical key; only the accumulated sign prefactor may differ.
pub proof fn lemma_mul_items_commute_key(
    a: Seq<(usize, SingleDecoherenceOperator)>,
    b: Seq<(usize, SingleDecoherenceOperator)>,
)
    ensures
        spec_mul_items(a, b).0 == spec_mul_items(b, a).0,
    decreases a.len() + b.len(),
{
    if a.len() == 0 || b.len() == 0 {
    } else if a[0].0 < b[0].0 {
        lemma_mul_items_commute_key(a.skip(1), b);
    } else if b[0].0 < a[0].0 {
        lemma_mul_items_commute_key(a, b.skip(1));
    } else {
        lemma_sym_mul_symmetric(a[0].1, b[0].1);
        lemma_mul_items_commute_key(a.skip(1), b.skip(1));
    }
}

/// Rank of a symbol, as executable code.
pub fn sym_rank_exec(s: SingleDecoherenceOperator) -> (r: u8)
    ensures
        r as int == sym_rank(s),
{
    match s {
        SingleDecoherenceOperator::Identity => 0,
        SingleDecoherenceOperator::X => 1,
        SingleDecoherenceOperator::IY => 2,
        SingleDecoherenceOperator::Z => 3,
    }
}

/// Equality of two symbols.
pub fn sym_eq(a: SingleDecoherenceOperator, b: SingleDecoherenceOperator) -> (r: bool)
    ensures
        r == (a == b),
{
    a == b
}

/// Canonical insertion preserves the canonical-form invariant, and never
/// introduces an index below both the target and every existing index.
pub proof fn lemma_set_symbol_wf(
    s: Seq<(usize, SingleDecoherenceOperator)>,
    idx: usize,
    sym: SingleDecoherenceOperator,
)
    requires
        wf_items(s),
    ensures
        wf_items(spec_set_symbol(s, idx, sym)),
        forall|m: usize|
            all_indices_ge(s, m) && m <= idx ==> #[trigger] all_indices_ge(
                spec_set_symbol(s, idx, sym),
                m,
            ),
    decreases s.len(),
{
    let r = spec_set_symbol(s, idx, sym);
    if s.len() == 0 {
    } else if s[0].0 < idx {
        assert(forall|i: int| 0 <= i < s.skip(1).len() ==> (#[trigger] s.skip(1)[i]) == s[i + 1]);
        lemma_set_symbol_wf(s.skip(1), idx, sym);
        let rr = spec_set_symbol(s.skip(1), idx, sym);
        assert(all_indices_ge(s.skip(1), (s[0].0 + 1) as usize));
        assert(all_indices_ge(rr, (s[0].0 + 1) as usize));
        assert(r == seq![s[0]] + rr);
        assert(forall|i: int, j: int| 0 <= i < j < r.len() ==> (#[trigger] r[i]).0 < (#[trigger] r[j]).0) by {
            assert(forall|j: int| 1 <= j < r.len() ==> (#[trigger] r[j]) == rr[j - 1]);
        }
    } else if s[0].0 == idx {
        assert(forall|i: int| 0 <= i < s.skip(1).len() ==> (#[trigger] s.skip(1)[i]) == s[i + 1]);
        assert(all_indices_ge(s.skip(1), (s[0].0 + 1) as usize));
    } else {
        assert(forall|i: int| 0 <= i < s.len() ==> idx < (#[trigger] s[i]).0);
    }
}

/// Unfolding step for `spec_symbol_at`: when the head of the suffix is not
/// `idx`, the lookup passes to the next suffix.
proof fn lemma_symbol_at_skip(s: Seq<(usize, SingleDecoherenceOperator)>, i: int, idx: usize)
    requires
        0 <= i < s.len(),
    ensures
        s[i].0 == idx ==> spec_symbol_at(s.skip(i), idx) == s[i].1,
        s[i].0 != idx ==> spec_symbol_at(s.skip(i), idx) == spec_symbol_at(s.skip(i + 1), idx),
{
    assert(s.skip(i)[0] == s[i]);
    assert(s.skip(i).skip(1) =~= s.skip(i + 1));
}

} // verus!
