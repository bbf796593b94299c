//! Conversion of an operator into a sparse coordinate-format matrix.
//!
//! An operator over `d` spins acts on the computational basis of dimension
//! `2^d`. Each product key acts on a basis column independently per spin:
//! X and iY flip the addressed bit, Z and iY contribute a sign depending on
//! it. Entries of different keys that land on the same row of a column are
//! summed; the coefficients stay opaque complex values.

use vstd::prelude::*;

use crate::coefficient::{cc_add, cc_neg, cc_neg_exec};
use crate::error::StruqtureError;
use crate::operator::{DecoherenceOperator, TermsView};
use crate::product::{
    spec_sign_times, wf_items, DecoherenceProduct, Sign, SingleDecoherenceOperator,
};

verus! {

/// Whether a symbol flips the basis bit it addresses.
pub open spec fn spec_flips(sym: SingleDecoherenceOperator) -> bool {
    sym == SingleDecoherenceOperator::X || sym == SingleDecoherenceOperator::IY
}

/// The sign a symbol contributes on a basis bit `b`: Z is negative on a set
/// bit, iY is negative on a clear one (iY maps the 0 state to minus the 1
/// state), X and the identity contribute nothing.
pub open spec fn spec_entry_sign(sym: SingleDecoherenceOperator, b: bool) -> Sign {
    match sym {
        SingleDecoherenceOperator::Z => if b {
            Sign::Negative
        } else {
            Sign::Positive
        },
        SingleDecoherenceOperator::IY => if b {
            Sign::Positive
        } else {
            Sign::Negative
        },
        _ => Sign::Positive,
    }
}

/// The action of a product key on a basis column: the row it maps the
/// column to, and the accumulated sign. Entries addressing a bit at or
/// beyond the machine's range act as the identity; the converter never
/// reaches them.
pub open spec fn spec_action(
    items: Seq<(usize, SingleDecoherenceOperator)>,
    col: u64,
) -> (u64, Sign)
    decreases items.len(),
{
    if items.len() == 0 {
        (col, Sign::Positive)
    } else {
        let rest = spec_action(items.skip(1), col);
        let idx = items[0].0;
        if idx >= 64 {
            rest
        } else {
            let b = ((col >> (idx as u64)) & 1) == 1;
            let row = if spec_flips(items[0].1) {
                rest.0 ^ (1u64 << (idx as u64))
            } else {
                rest.0
            };
            (row, spec_sign_times(spec_entry_sign(items[0].1, b), rest.1))
        }
    }
}

/// The largest spin index an operator view names, or -1 for no entry at
/// all (keys are canonical, so each key's largest index is its last).
pub open spec fn spec_max_index(s: TermsView) -> int
    decreases s.len(),
{
    if s.len() == 0 {
        -1
    } else {
        let rest = spec_max_index(s.skip(1));
        let own: int = if s[0].0.len() == 0 {
            -1
        } else {
            s[0].0[s[0].0.len() - 1].0 as int
        };
        if own >= rest {
            own
        } else {
            rest
        }
    }
}

/// A row-indexed column of matrix entries: rows strictly ascending.
pub open spec fn rows_wf(s: Seq<(u64, qoqo_calculator::CalculatorComplex)>) -> bool {
    forall|i: int, j: int| 0 <= i < j < s.len() ==> (#[trigger] s[i]).0 < (#[trigger] s[j]).0
}

/// Merge one matrix entry into a sorted column: a present row has the new
/// value added onto it, an absent row is inserted in order. Zero values are
/// kept; a matrix entry is what the sum produced.
pub open spec fn spec_rows_add(
    s: Seq<(u64, qoqo_calculator::CalculatorComplex)>,
    row: u64,
    c: qoqo_calculator::CalculatorComplex,
) -> Seq<(u64, qoqo_calculator::CalculatorComplex)>
    decreases s.len(),
{
    if s.len() == 0 {
        seq![(row, c)]
    } else if s[0].0 < row {
        seq![s[0]] + spec_rows_add(s.skip(1), row, c)
    } else if s[0].0 == row {
        seq![(row, cc_add(s[0].1, c))] + s.skip(1)
    } else {
        seq![(row, c)] + s
    }
}

/// Merging keeps the column sorted and introduces no row below both the
/// merged row and every existing row.
pub proof fn lemma_rows_add_wf(
    s: Seq<(u64, qoqo_calculator::CalculatorComplex)>,
    row: u64,
    c: qoqo_calculator::CalculatorComplex,
)
    requires
        rows_wf(s),
    ensures
        rows_wf(spec_rows_add(s, row, c)),
    decreases s.len(),
{
    let r = spec_rows_add(s, row, c);
    if s.len() == 0 {
    } else {
        assert(forall|i: int|
            0 <= i < s.skip(1).len() ==> #[trigger] s.skip(1)[i] == s[i + 1]);
        if s[0].0 < row {
            lemma_rows_add_wf(s.skip(1), row, c);
            let rr = spec_rows_add(s.skip(1), row, c);
            assert(r == seq![s[0]] + rr);
            assert(forall|i: int| 1 <= i < r.len() ==> #[trigger] r[i] == rr[i - 1]);
            assert(forall|i: int|
                0 <= i < s.skip(1).len() ==> s[0].0 + 1 <= (#[trigger] s.skip(1)[i]).0);
            lemma_rows_add_ge(s.skip(1), row, c, (s[0].0 + 1) as u64);
            assert(forall|i: int| 0 <= i < rr.len() ==> s[0].0 + 1 <= (#[trigger] rr[i]).0);
        } else if s[0].0 == row {
            assert(r == seq![(row, cc_add(s[0].1, c))] + s.skip(1));
            assert(forall|i: int| 1 <= i < r.len() ==> #[trigger] r[i] == s[i]);
        } else {
            assert(r == seq![(row, c)] + s);
            assert(forall|i: int| 1 <= i < r.len() ==> #[trigger] r[i] == s[i - 1]);
        }
    }
}

/// Merging never introduces a row below both the merged row and every
/// existing row.
pub proof fn lemma_rows_add_ge(
    s: Seq<(u64, qoqo_calculator::CalculatorComplex)>,
    row: u64,
    c: qoqo_calculator::CalculatorComplex,
    m: u64,
)
    requires
        m <= row,
        forall|i: int| 0 <= i < s.len() ==> m <= (#[trigger] s[i]).0,
    ensures
        forall|i: int|
            0 <= i < spec_rows_add(s, row, c).len() ==> m <= (#[trigger] spec_rows_add(
                s,
                row,
                c,
            )[i]).0,
    decreases s.len(),
{
    let r = spec_rows_add(s, row, c);
    if s.len() == 0 {
    } else {
        assert(forall|i: int|
            0 <= i < s.skip(1).len() ==> #[trigger] s.skip(1)[i] == s[i + 1]);
        if s[0].0 < row {
            lemma_rows_add_ge(s.skip(1), row, c, m);
            let rr = spec_rows_add(s.skip(1), row, c);
            assert(r == seq![s[0]] + rr);
            assert(forall|i: int| 1 <= i < r.len() ==> #[trigger] r[i] == rr[i - 1]);
        } else if s[0].0 == row {
            assert(forall|i: int| 1 <= i < r.len() ==> #[trigger] r[i] == s[i]);
        } else {
            assert(forall|i: int| 1 <= i < r.len() ==> #[trigger] r[i] == s[i - 1]);
        }
    }
}

/// The merged entries of one basis column: fold every term's action on the
/// column into a sorted row list.
pub open spec fn spec_column_from(
    acc: Seq<(u64, qoqo_calculator::CalculatorComplex)>,
    terms: TermsView,
    col: u64,
) -> Seq<(u64, qoqo_calculator::CalculatorComplex)>
    decreases terms.len(),
{
    if terms.len() == 0 {
        acc
    } else {
        let act = spec_action(terms[0].0, col);
        let v = if act.1 == Sign::Negative {
            cc_neg(terms[0].1)
        } else {
            terms[0].1
        };
        spec_column_from(spec_rows_add(acc, act.0, v), terms.skip(1), col)
    }
}

/// The coordinate entries of a whole matrix, column by column from `col`
/// up to the dimension `2^d`: each column's merged entries with the column
/// index attached, in row order within the column.
pub open spec fn spec_coo_from(terms: TermsView, d: u64, col: u64) -> Seq<
    (u64, u64, qoqo_calculator::CalculatorComplex),
>
    decreases (1u64 << d) - col,
    when d < 64 && col <= (1u64 << d)
{
    if col >= (1u64 << d) {
        Seq::empty()
    } else {
        let entries = spec_column_from(Seq::empty(), terms, col);
        Seq::new(entries.len(), |i: int| (entries[i].0, col, entries[i].1)) + spec_coo_from(
            terms,
            d,
            (col + 1) as u64,
        )
    }
}

/// Merge one matrix entry into a sorted column, in place.
fn rows_add(
    out: &mut Vec<(u64, qoqo_calculator::CalculatorComplex)>,
    row: u64,
    c: qoqo_calculator::CalculatorComplex,
)
    requires
        rows_wf(old(out)@),
    ensures
        final(out)@ == spec_rows_add(old(out)@, row, c),
        rows_wf(final(out)@),
{
    proof {
        lemma_rows_add_wf(old(out)@, row, c);
    }
    let ghost full = old(out)@;
    let mut pos: usize = 0;
    proof {
        assert(full.skip(0) =~= full);
    }
    while pos < out.len() && out[pos].0 < row
        invariant
            full == out@,
            pos <= out@.len(),
            spec_rows_add(full, row, c) == full.take(pos as int) + spec_rows_add(
                full.skip(pos as int),
                row,
                c,
            ),
        decreases out.len() - pos,
    {
        proof {
            assert(full.skip(pos as int)[0] == full[pos as int]);
            assert(full.skip(pos as int).skip(1) =~= full.skip(pos as int + 1));
            assert(full.take(pos as int).push(full[pos as int]) =~= full.take(pos as int + 1));
            assert(full.take(pos as int + 1) + spec_rows_add(full.skip(pos as int + 1), row, c)
                =~= full.take(pos as int) + (seq![full[pos as int]] + spec_rows_add(
                full.skip(pos as int + 1),
                row,
                c,
            )));
        }
        pos = pos + 1;
    }
    let ghost rest = full.skip(pos as int);
    if pos < out.len() && out[pos].0 == row {
        proof {
            assert(rest[0] == full[pos as int]);
            assert(rest.skip(1) =~= full.skip(pos as int + 1));
        }
        let merged = crate::coefficient::cc_add_exec(&out[pos].1, &c);
        let _ = out.remove(pos);
        out.insert(pos, (row, merged));
        proof {
            assert(out@ =~= full.take(pos as int) + (seq![(row, cc_add(full[pos as int].1, c))]
                + full.skip(pos as int + 1)));
            assert(out@ =~= spec_rows_add(full, row, c));
        }
    } else {
        proof {
            if pos < out.len() {
                assert(rest[0] == full[pos as int]);
                assert(row < rest[0].0);
            } else {
                assert(rest.len() == 0);
            }
        }
        out.insert(pos, (row, c));
        proof {
            assert(out@ =~= full.take(pos as int) + (seq![(row, c)] + full.skip(pos as int)));
            if rest.len() == 0 {
                assert(seq![(row, c)] + rest =~= seq![(row, c)]);
            }
            assert(out@ =~= spec_rows_add(full, row, c));
        }
    }
}

impl DecoherenceProduct {
    /// The action of this product on one basis column: the row it maps the
    /// column to, and the accumulated sign.
    pub fn act_on_basis(&self, col: u64, d: u64) -> (r: (u64, Sign))
        requires
            self.wf(),
            d < 64,
            col < (1u64 << d),
            forall|i: int| 0 <= i < self@.len() ==> (#[trigger] self@[i]).0 < d,
        ensures
            r == spec_action(self@, col),
            r.0 < (1u64 << d),
    {
        let mut row: u64 = col;
        let mut sign = Sign::Positive;
        let mut i: usize = self.items.len();
        proof {
            assert(self@.skip(self@.len() as int) =~= Seq::<(
                usize,
                SingleDecoherenceOperator,
            )>::empty());
        }
        while i > 0
            invariant
                self.wf(),
                d < 64,
                col < (1u64 << d),
                forall|j: int| 0 <= j < self@.len() ==> (#[trigger] self@[j]).0 < d,
                i <= self@.len(),
                (row, sign) == spec_action(self@.skip(i as int), col),
                row < (1u64 << d),
            decreases i,
        {
            i = i - 1;
            proof {
                assert(self@.skip(i as int)[0] == self@[i as int]);
                assert(self@.skip(i as int).skip(1) =~= self@.skip(i as int + 1));
            }
            let (idx, sym) = self.items[i];
            let idxu = idx as u64;
            let b = ((col >> idxu) & 1) == 1;
            let flip = match sym {
                SingleDecoherenceOperator::X => true,
                SingleDecoherenceOperator::IY => true,
                _ => false,
            };
            let step_sign = match sym {
                SingleDecoherenceOperator::Z => if b {
                    Sign::Negative
                } else {
                    Sign::Positive
                },
                SingleDecoherenceOperator::IY => if b {
                    Sign::Positive
                } else {
                    Sign::Negative
                },
                _ => Sign::Positive,
            };
            if flip {
                proof {
                    let r2 = row;
                    assert(r2 < (1u64 << d) && idxu < d && d < 64 ==> (r2 ^ (1u64 << idxu)) < (
                    1u64 << d)) by (bit_vector);
                }
                row = row ^ (1u64 << idxu);
            }
            sign = step_sign.times(sign);
        }
        proof {
            assert(self@.skip(0) =~= self@);
        }
        (row, sign)
    }
}

impl DecoherenceOperator {
    /// The largest spin index any stored key names, or none for the empty
    /// operator.
    pub fn max_index(&self) -> (r: Option<usize>)
        requires
            self.wf(),
        ensures
            match r {
                Option::Some(m) => m as int == spec_max_index(self@),
                Option::None => spec_max_index(self@) == -1,
            },
    {
        let mut best: Option<usize> = None;
        let mut i: usize = self.terms.len();
        proof {
            assert(self@.skip(self@.len() as int) =~= Seq::<(
                crate::operator::KeyView,
                qoqo_calculator::CalculatorComplex,
            )>::empty());
        }
        while i > 0
            invariant
                self.wf(),
                i <= self.terms.len(),
                match best {
                    Option::Some(m) => m as int == spec_max_index(self@.skip(i as int)),
                    Option::None => spec_max_index(self@.skip(i as int)) == -1,
                },
            decreases i,
        {
            i = i - 1;
            proof {
                assert(self@.skip(i as int)[0] == self@[i as int]);
                assert(self@.skip(i as int).skip(1) =~= self@.skip(i as int + 1));
            }
            let key = &self.terms[i].0;
            if key.items.len() > 0 {
                let own = key.items[key.items.len() - 1].0;
                best = match best {
                    Some(m) => if own >= m {
                        Some(own)
                    } else {
                        Some(m)
                    },
                    None => Some(own),
                };
            }
        }
        proof {
            assert(self@.skip(0) =~= self@);
        }
        best
    }

    /// The merged matrix entries of one basis column: each stored term's
    /// action on the column, entries landing on the same row summed, in row
    /// order.
    fn matrix_column(&self, col: u64, d: u64) -> (r: Vec<
        (u64, qoqo_calculator::CalculatorComplex),
    >)
        requires
            self.wf(),
            d < 64,
            col < (1u64 << d),
            spec_max_index(self@) < d,
        ensures
            r@ == spec_column_from(Seq::empty(), self@, col),
    {
        let mut out: Vec<(u64, qoqo_calculator::CalculatorComplex)> = Vec::new();
        let mut i: usize = 0;
        proof {
            assert(self@.skip(0) =~= self@);
            assert(out@ =~= Seq::<(u64, qoqo_calculator::CalculatorComplex)>::empty());
        }
        while i < self.terms.len()
            invariant
                self.wf(),
                d < 64,
                col < (1u64 << d),
                spec_max_index(self@) < d,
                i <= self.terms.len(),
                rows_wf(out@),
                spec_column_from(Seq::empty(), self@, col) == spec_column_from(
                    out@,
                    self@.skip(i as int),
                    col,
                ),
            decreases self.terms.len() - i,
        {
            proof {
                assert(self@.skip(i as int)[0] == self@[i as int]);
                assert(self@.skip(i as int).skip(1) =~= self@.skip(i as int + 1));
                lemma_max_index_bounds(self@, i as int);
            }
            let (row, sign) = self.terms[i].0.act_on_basis(col, d);
            let v = match sign {
                Sign::Negative => cc_neg_exec(&self.terms[i].1),
                Sign::Positive => self.terms[i].1.clone(),
            };
            rows_add(&mut out, row, v);
            i = i + 1;
        }
        proof {
            assert(self@.skip(i as int).len() == 0);
        }
        out
    }

    /// The sparse coordinate matrix of this operator on `number_spins`
    /// spins: values beside their row and column indices, column by column,
    /// each column's entries merged by row. An operator naming a spin at or
    /// beyond `number_spins` does not fit that basis and is rejected with a
    /// dimension error naming the declared and the needed spin count.
    pub fn sparse_matrix_coo(&self, number_spins: usize) -> (r: Result<
        (Vec<qoqo_calculator::CalculatorComplex>, (Vec<u64>, Vec<u64>)),
        StruqtureError,
    >)
        requires
            self.wf(),
            number_spins < 64,
            spec_max_index(self@) < usize::MAX,
        ensures
            spec_max_index(self@) >= number_spins ==> r == Err::<
                (Vec<qoqo_calculator::CalculatorComplex>, (Vec<u64>, Vec<u64>)),
                StruqtureError,
            >(
                StruqtureError::DimensionMismatch {
                    expected: (spec_max_index(self@) + 1) as usize,
                    found: number_spins,
                },
            ),
            spec_max_index(self@) < number_spins ==> {
                let flat = spec_coo_from(self@, number_spins as u64, 0);
                &&& r is Ok
                &&& r->Ok_0.0@.len() == flat.len()
                &&& r->Ok_0.1.0@.len() == flat.len()
                &&& r->Ok_0.1.1@.len() == flat.len()
                &&& forall|i: int|
                    0 <= i < flat.len() ==> (#[trigger] r->Ok_0.0@[i]) == flat[i].2
                        && r->Ok_0.1.0@[i] == flat[i].0 && r->Ok_0.1.1@[i] == flat[i].1
            },
    {
        let d = number_spins as u64;
        if let Some(m) = self.max_index() {
            if m >= number_spins {
                return Err(
                    StruqtureError::DimensionMismatch {
                        expected: m + 1,
                        found: number_spins,
                    },
                );
            }
        }
        let dim: u64 = 1u64 << d;
        proof {
            let dd = d;
            assert(dd < 64 ==> (1u64 << dd) >= 1) by (bit_vector);
        }
        let mut values: Vec<qoqo_calculator::CalculatorComplex> = Vec::new();
        let mut rows: Vec<u64> = Vec::new();
        let mut cols: Vec<u64> = Vec::new();
        let mut col: u64 = 0;
        let ghost flat = spec_coo_from(self@, d, 0);
        while col < dim
            invariant
                self.wf(),
                d < 64,
                d == number_spins as u64,
                dim == (1u64 << d),
                spec_max_index(self@) < d,
                col <= dim,
                flat == spec_coo_from(self@, d, 0),
                values@.len() == rows@.len() && rows@.len() == cols@.len(),
                flat =~= Seq::new(
                    values@.len(),
                    |i: int| (rows@[i], cols@[i], values@[i]),
                ) + spec_coo_from(self@, d, col),
            decreases dim - col,
        {
            let entries = self.matrix_column(col, d);
            let ghost v0 = values@;
            let ghost r0 = rows@;
            let ghost c0 = cols@;
            let mut j: usize = 0;
            while j < entries.len()
                invariant
                    j <= entries.len(),
                    v0.len() == r0.len() && r0.len() == c0.len(),
                    values@.len() == v0.len() + j,
                    rows@.len() == r0.len() + j,
                    cols@.len() == c0.len() + j,
                    forall|t: int| 0 <= t < v0.len() ==> #[trigger] values@[t] == v0[t],
                    forall|t: int| 0 <= t < r0.len() ==> #[trigger] rows@[t] == r0[t],
                    forall|t: int| 0 <= t < c0.len() ==> #[trigger] cols@[t] == c0[t],
                    forall|t: int|
                        0 <= t < j ==> #[trigger] values@[v0.len() + t] == entries@[t].1
                            && rows@[r0.len() + t] == entries@[t].0 && cols@[c0.len() + t]
                            == col,
                decreases entries.len() - j,
            {
                values.push(entries[j].1.clone());
                rows.push(entries[j].0);
                cols.push(col);
                j = j + 1;
            }
            col = col + 1;
            proof {
                let prevmap = Seq::new(v0.len(), |i: int| (r0[i], c0[i], v0[i]));
                let colseq = Seq::new(
                    entries@.len(),
                    |i: int| (entries@[i].0, (col - 1) as u64, entries@[i].1),
                );
                assert(spec_coo_from(self@, d, (col - 1) as u64) == colseq + spec_coo_from(
                    self@,
                    d,
                    col,
                ));
                assert(prevmap =~= Seq::new(v0.len(), |i: int| (r0[i], c0[i], v0[i])));
                assert(flat =~= prevmap + spec_coo_from(self@, d, (col - 1) as u64));
                let curmap = Seq::new(
                    values@.len(),
                    |i: int| (rows@[i], cols@[i], values@[i]),
                );
                assert(curmap =~= prevmap + colseq) by {
                    assert forall|i: int| 0 <= i < curmap.len() implies curmap[i] == (prevmap
                        + colseq)[i] by {
                        if i < v0.len() {
                            assert(values@[i] == v0[i]);
                            assert(rows@[i] == r0[i]);
                            assert(cols@[i] == c0[i]);
                        } else {
                            let t = i - v0.len();
                            assert(values@[v0.len() + t] == entries@[t].1);
                            assert(rows@[r0.len() + t] == entries@[t].0);
                            assert(cols@[c0.len() + t] == (col - 1) as u64);
                        }
                    }
                }
                assert(flat =~= curmap + spec_coo_from(self@, d, col));
            }
        }
        proof {
            assert(spec_coo_from(self@, d, col) =~= Seq::<(
                u64,
                u64,
                qoqo_calculator::CalculatorComplex,
            )>::empty());
            assert(flat =~= Seq::new(values@.len(), |i: int| (rows@[i], cols@[i], values@[i])));
        }
        Ok((values, (rows, cols)))
    }
}

/// In a well-formed view, every index of every key is at most the view's
/// largest index.
pub proof fn lemma_max_index_bounds(s: TermsView, t: int)
    requires
        0 <= t < s.len(),
    ensures
        forall|i: int|
            0 <= i < s[t].0.len() && wf_items(s[t].0) ==> (#[trigger] s[t].0[i]).0 as int
                <= spec_max_index(s),
    decreases s.len(),
{
    assert(forall|i: int| 0 <= i < s.skip(1).len() ==> #[trigger] s.skip(1)[i] == s[i + 1]);
    if t == 0 {
        assert forall|i: int| 0 <= i < s[0].0.len() && wf_items(s[0].0) implies (
        #[trigger] s[0].0[i]).0 as int <= spec_max_index(s) by {
            let k = s[0].0;
            if i < k.len() - 1 {
                assert(k[i].0 < k[k.len() - 1].0);
            }
        }
    } else {
        lemma_max_index_bounds(s.skip(1), t - 1);
        assert(s.skip(1)[t - 1] == s[t]);
    }
}

} // verus!
