//! The schema-level content of the two persisted encodings.
//!
//! The readable form writes each key as its token text; the compact form
//! writes each key as its `(index, symbol)` entries. Both carry the
//! coefficients through unchanged beside a `(major, minor)` schema version
//! stamp, and a decoder rejects data stamped with a major version above the
//! library's own before looking at any entry.

use vstd::prelude::*;

use crate::coefficient::{cc_is_zero, cc_text, cc_text_exec};
use crate::error::StruqtureError;
use crate::operator::{
    spec_add_term, wf_view, DecoherenceOperator, KeyView, TermsView,
};
use crate::product::{
    spec_items_lt, spec_set_symbol, wf_items, DecoherenceProduct, SingleDecoherenceOperator,
};
use crate::token::{spec_parse_token, spec_product_token, lemma_token_round_trip};

verus! {

/// The schema major version this library writes and the newest it reads.
pub const SCHEMA_MAJOR_VERSION: u32 = 1;

/// The schema minor version this library writes.
pub const SCHEMA_MINOR_VERSION: u32 = 0;

/// The library version string.
pub fn current_version() -> (r: String)
    ensures
        r@ == "1.0.0"@,
{
    proof {
        reveal_strlit("1.0.0");
    }
    let mut s = String::new();
    s.append("1.0.0");
    proof {
        assert(s@ =~= "1.0.0"@);
    }
    s
}

/// The oldest library version able to read what this library writes.
pub fn min_supported_version() -> (r: String)
    ensures
        r@ == "1.0.0"@,
{
    current_version()
}

/// Accept a schema version stamp: data is readable exactly when its major
/// version does not exceed this library's.
pub fn check_version(major: u32, minor: u32) -> (r: Result<(), StruqtureError>)
    ensures
        major <= SCHEMA_MAJOR_VERSION ==> r == Ok::<(), StruqtureError>(()),
        major > SCHEMA_MAJOR_VERSION ==> r == Err::<(), StruqtureError>(
            StruqtureError::UnsupportedSchemaVersion { major },
        ),
{
    let _ = minor;
    if major > SCHEMA_MAJOR_VERSION {
        Err(StruqtureError::UnsupportedSchemaVersion { major })
    } else {
        Ok(())
    }
}

/// The readable form of a view: each key as its token text, coefficients
/// unchanged, in key order.
pub open spec fn spec_readable_of(s: TermsView) -> Seq<(Seq<char>, qoqo_calculator::CalculatorComplex)> {
    Seq::new(s.len(), |i: int| (spec_product_token(s[i].0), s[i].1))
}

/// Decode readable entries onto an accumulator view: parse each token and
/// fold the pair in with merge-add semantics; fail on the first token that
/// does not parse.
pub open spec fn spec_readable_decode(
    acc: TermsView,
    pairs: Seq<(Seq<char>, qoqo_calculator::CalculatorComplex)>,
) -> Option<TermsView>
    decreases pairs.len(),
{
    if pairs.len() == 0 {
        Some(acc)
    } else {
        match spec_parse_token(pairs[0].0) {
            None => None,
            Some(k) => spec_readable_decode(spec_add_term(acc, k, pairs[0].1), pairs.skip(1)),
        }
    }
}

/// Merging a key above every stored key appends the entry.
pub proof fn lemma_add_term_append(s: TermsView, k: KeyView, c: qoqo_calculator::CalculatorComplex)
    requires
        !cc_is_zero(c),
        forall|i: int| 0 <= i < s.len() ==> spec_items_lt((#[trigger] s[i]).0, k),
    ensures
        spec_add_term(s, k, c) == s.push((k, c)),
    decreases s.len(),
{
    if s.len() == 0 {
        assert(spec_add_term(s, k, c) =~= s.push((k, c)));
    } else {
        assert(forall|i: int|
            0 <= i < s.skip(1).len() ==> #[trigger] s.skip(1)[i] == s[i + 1]);
        lemma_add_term_append(s.skip(1), k, c);
        assert(spec_add_term(s, k, c) =~= s.push((k, c)));
    }
}

/// Decoding the readable form of a well-formed view onto a smaller prefix
/// rebuilds exactly the whole view.
pub proof fn lemma_readable_decode_terms(acc: TermsView, rest: TermsView)
    requires
        wf_view(acc + rest),
    ensures
        spec_readable_decode(acc, spec_readable_of(rest)) == Some(acc + rest),
    decreases rest.len(),
{
    let whole = acc + rest;
    if rest.len() == 0 {
        assert(acc + rest =~= acc);
    } else {
        let k = rest[0].0;
        let c = rest[0].1;
        assert(whole[acc.len() as int] == rest[0]);
        assert(wf_items(k));
        assert(!cc_is_zero(c));
        lemma_token_round_trip(k);
        assert(spec_parse_token(spec_product_token(k)) == Some(k));
        assert forall|i: int| 0 <= i < acc.len() implies spec_items_lt(
            (#[trigger] acc[i]).0,
            k,
        ) by {
            assert(whole[i] == acc[i]);
        }
        lemma_add_term_append(acc, k, c);
        let acc2 = acc.push((k, c));
        assert(acc2 =~= acc + seq![rest[0]]);
        assert(acc2 + rest.skip(1) =~= whole);
        lemma_readable_decode_terms(acc2, rest.skip(1));
        assert(spec_readable_of(rest).skip(1) =~= spec_readable_of(rest.skip(1)));
        assert(spec_readable_of(rest)[0] == (spec_product_token(k), c));
    }
}

/// Round trip of the readable form: decoding what a well-formed view
/// encodes gives back exactly that view.
pub proof fn lemma_readable_round_trip(s: TermsView)
    requires
        wf_view(s),
    ensures
        spec_readable_decode(Seq::empty(), spec_readable_of(s)) == Some(s),
{
    assert(Seq::<(KeyView, qoqo_calculator::CalculatorComplex)>::empty() + s =~= s);
    lemma_readable_decode_terms(Seq::empty(), s);
}

impl DecoherenceOperator {
    /// The readable encoding of this operator: each entry as its token text
    /// beside its coefficient, in key order. The version stamp written next
    /// to it is [`SCHEMA_MAJOR_VERSION`], [`SCHEMA_MINOR_VERSION`].
    pub fn readable_encode(&self) -> (r: Vec<(String, qoqo_calculator::CalculatorComplex)>)
        ensures
            r@.len() == self@.len(),
            forall|i: int|
                0 <= i < r@.len() ==> (#[trigger] r@[i]).0@ == spec_product_token(self@[i].0)
                    && r@[i].1 == self@[i].1,
    {
        let mut out: Vec<(String, qoqo_calculator::CalculatorComplex)> = Vec::new();
        let mut i: usize = 0;
        while i < self.terms.len()
            invariant
                i <= self.terms.len(),
                out@.len() == i,
                forall|j: int|
                    0 <= j < i ==> (#[trigger] out@[j]).0@ == spec_product_token(self@[j].0)
                        && out@[j].1 == self@[j].1,
            decreases self.terms.len() - i,
        {
            let token = self.terms[i].0.to_token();
            let c = self.terms[i].1.clone();
            out.push((token, c));
            i = i + 1;
        }
        out
    }

    /// Decode a readable encoding stamped `(major, minor)`. Data stamped
    /// with a major version above this library's is rejected before any
    /// entry is read; afterwards each token is parsed and merged in, and the
    /// first malformed token aborts the decode.
    pub fn readable_decode(
        items: &Vec<(String, qoqo_calculator::CalculatorComplex)>,
        major: u32,
        minor: u32,
    ) -> (r: Result<DecoherenceOperator, StruqtureError>)
        ensures
            major > SCHEMA_MAJOR_VERSION ==> r == Err::<DecoherenceOperator, _>(
                StruqtureError::UnsupportedSchemaVersion { major },
            ),
            major <= SCHEMA_MAJOR_VERSION ==> {
                let decoded = spec_readable_decode(
                    Seq::empty(),
                    Seq::new(items@.len(), |i: int| (items@[i].0@, items@[i].1)),
                );
                &&& decoded is Some ==> r is Ok && r->Ok_0.wf() && Some(r->Ok_0@) == decoded
                &&& decoded is None ==> r is Err && r->Err_0 is MalformedToken
            },
    {
        if let Err(e) = check_version(major, minor) {
            return Err(e);
        }
        let ghost pairs = Seq::new(items@.len(), |i: int| (items@[i].0@, items@[i].1));
        let mut acc = DecoherenceOperator::new();
        let mut i: usize = 0;
        proof {
            assert(pairs.skip(0) =~= pairs);
        }
        while i < items.len()
            invariant
                i <= items.len(),
                acc.wf(),
                major <= SCHEMA_MAJOR_VERSION,
                pairs == Seq::new(items@.len(), |j: int| (items@[j].0@, items@[j].1)),
                spec_readable_decode(Seq::empty(), pairs) == spec_readable_decode(
                    acc@,
                    pairs.skip(i as int),
                ),
            decreases items.len() - i,
        {
            proof {
                assert(pairs.skip(i as int)[0] == pairs[i as int]);
                assert(pairs.skip(i as int).skip(1) =~= pairs.skip(i as int + 1));
            }
            let key = match DecoherenceProduct::parse_token(items[i].0.as_str()) {
                Ok(k) => k,
                Err(e) => {
                    return Err(e);
                },
            };
            let c = items[i].1.clone();
            let _ = acc.add_operator_product(key, c);
            i = i + 1;
        }
        proof {
            assert(pairs.skip(i as int).len() == 0);
        }
        Ok(acc)
    }
}


/// Build a canonical entry list by folding `(index, symbol)` pairs into an
/// accumulator by canonical insertion; later pairs for an index overwrite
/// earlier ones.
pub open spec fn spec_entries_to_product(
    entries: Seq<(usize, SingleDecoherenceOperator)>,
    acc: Seq<(usize, SingleDecoherenceOperator)>,
) -> Seq<(usize, SingleDecoherenceOperator)>
    decreases entries.len(),
{
    if entries.len() == 0 {
        acc
    } else {
        spec_entries_to_product(
            entries.skip(1),
            spec_set_symbol(acc, entries[0].0, entries[0].1),
        )
    }
}

/// The compact form of a view: each key as its entry list, coefficients
/// unchanged, in key order.
pub open spec fn spec_compact_of(s: TermsView) -> Seq<
    (Seq<(usize, SingleDecoherenceOperator)>, qoqo_calculator::CalculatorComplex),
> {
    Seq::new(s.len(), |i: int| (s[i].0, s[i].1))
}

/// Decode compact entries onto an accumulator view: rebuild each key from
/// its entry list and fold the pair in with merge-add semantics. Every
/// entry list decodes, so the fold is total.
pub open spec fn spec_compact_decode(
    acc: TermsView,
    pairs: Seq<(Seq<(usize, SingleDecoherenceOperator)>, qoqo_calculator::CalculatorComplex)>,
) -> TermsView
    decreases pairs.len(),
{
    if pairs.len() == 0 {
        acc
    } else {
        spec_compact_decode(
            spec_add_term(acc, spec_entries_to_product(pairs[0].0, Seq::empty()), pairs[0].1),
            pairs.skip(1),
        )
    }
}

/// Folding the entries of a canonical list into a canonical prefix below
/// them rebuilds their concatenation.
pub proof fn lemma_entries_rebuild(
    acc: Seq<(usize, SingleDecoherenceOperator)>,
    rest: Seq<(usize, SingleDecoherenceOperator)>,
)
    requires
        wf_items(acc),
        wf_items(rest),
        forall|i: int, j: int|
            0 <= i < acc.len() && 0 <= j < rest.len() ==> (#[trigger] acc[i]).0 < (
            #[trigger] rest[j]).0,
    ensures
        spec_entries_to_product(rest, acc) == acc + rest,
    decreases rest.len(),
{
    if rest.len() == 0 {
        assert(acc + rest =~= acc);
    } else {
        crate::token::lemma_set_symbol_append(acc, rest[0].0, rest[0].1);
        let acc2 = acc + seq![rest[0]];
        assert(forall|i: int|
            0 <= i < rest.skip(1).len() ==> #[trigger] rest.skip(1)[i] == rest[i + 1]);
        assert(wf_items(acc2));
        assert(forall|i: int, j: int|
            0 <= i < acc2.len() && 0 <= j < rest.skip(1).len() ==> (#[trigger] acc2[i]).0 < (
            #[trigger] rest.skip(1)[j]).0);
        lemma_entries_rebuild(acc2, rest.skip(1));
        assert(acc2 + rest.skip(1) =~= acc + rest);
    }
}

/// Decoding the compact form of a well-formed view onto a smaller prefix
/// rebuilds exactly the whole view.
pub proof fn lemma_compact_decode_terms(acc: TermsView, rest: TermsView)
    requires
        wf_view(acc + rest),
    ensures
        spec_compact_decode(acc, spec_compact_of(rest)) == acc + rest,
    decreases rest.len(),
{
    let whole = acc + rest;
    if rest.len() == 0 {
        assert(acc + rest =~= acc);
    } else {
        let k = rest[0].0;
        let c = rest[0].1;
        assert(whole[acc.len() as int] == rest[0]);
        assert(wf_items(k));
        assert(!cc_is_zero(c));
        assert(Seq::<(usize, SingleDecoherenceOperator)>::empty() + k =~= k);
        lemma_entries_rebuild(Seq::empty(), k);
        assert(spec_entries_to_product(k, Seq::empty()) == k);
        assert forall|i: int| 0 <= i < acc.len() implies spec_items_lt(
            (#[trigger] acc[i]).0,
            k,
        ) by {
            assert(whole[i] == acc[i]);
        }
        lemma_add_term_append(acc, k, c);
        let acc2 = acc.push((k, c));
        assert(acc2 =~= acc + seq![rest[0]]);
        assert(acc2 + rest.skip(1) =~= whole);
        lemma_compact_decode_terms(acc2, rest.skip(1));
        assert(spec_compact_of(rest).skip(1) =~= spec_compact_of(rest.skip(1)));
        assert(spec_compact_of(rest)[0] == (k, c));
    }
}

/// Round trip of the compact form: decoding what a well-formed view
/// encodes gives back exactly that view.
pub proof fn lemma_compact_round_trip(s: TermsView)
    requires
        wf_view(s),
    ensures
        spec_compact_decode(Seq::empty(), spec_compact_of(s)) == s,
{
    assert(Seq::<(KeyView, qoqo_calculator::CalculatorComplex)>::empty() + s =~= s);
    lemma_compact_decode_terms(Seq::empty(), s);
}

impl DecoherenceOperator {
    /// The compact encoding of this operator: each entry as its
    /// `(index, symbol)` list beside its coefficient, in key order. The
    /// version stamp written next to it is [`SCHEMA_MAJOR_VERSION`],
    /// [`SCHEMA_MINOR_VERSION`].
    pub fn compact_encode(&self) -> (r: Vec<
        (Vec<(usize, SingleDecoherenceOperator)>, qoqo_calculator::CalculatorComplex),
    >)
        ensures
            r@.len() == self@.len(),
            forall|i: int|
                0 <= i < r@.len() ==> (#[trigger] r@[i]).0@ == self@[i].0 && r@[i].1
                    == self@[i].1,
    {
        let mut out: Vec<(Vec<(usize, SingleDecoherenceOperator)>, qoqo_calculator::CalculatorComplex)> =
            Vec::new();
        let mut i: usize = 0;
        while i < self.terms.len()
            invariant
                i <= self.terms.len(),
                out@.len() == i,
                forall|j: int|
                    0 <= j < i ==> (#[trigger] out@[j]).0@ == self@[j].0 && out@[j].1
                        == self@[j].1,
            decreases self.terms.len() - i,
        {
            let entries = self.terms[i].0.entries();
            let c = self.terms[i].1.clone();
            out.push((entries, c));
            i = i + 1;
        }
        out
    }

    /// Decode a compact encoding stamped `(major, minor)`. Data stamped
    /// with a major version above this library's is rejected before any
    /// entry is read; every entry list itself decodes, later symbols for an
    /// index overwriting earlier ones.
    pub fn compact_decode(
        items: &Vec<(Vec<(usize, SingleDecoherenceOperator)>, qoqo_calculator::CalculatorComplex)>,
        major: u32,
        minor: u32,
    ) -> (r: Result<DecoherenceOperator, StruqtureError>)
        ensures
            major > SCHEMA_MAJOR_VERSION ==> r == Err::<DecoherenceOperator, _>(
                StruqtureError::UnsupportedSchemaVersion { major },
            ),
            major <= SCHEMA_MAJOR_VERSION ==> r is Ok && r->Ok_0.wf() && r->Ok_0@
                == spec_compact_decode(
                Seq::empty(),
                Seq::new(items@.len(), |i: int| (items@[i].0@, items@[i].1)),
            ),
    {
        if let Err(e) = check_version(major, minor) {
            return Err(e);
        }
        let ghost pairs = Seq::new(items@.len(), |i: int| (items@[i].0@, items@[i].1));
        let mut acc = DecoherenceOperator::new();
        let mut i: usize = 0;
        proof {
            assert(pairs.skip(0) =~= pairs);
        }
        while i < items.len()
            invariant
                i <= items.len(),
                acc.wf(),
                pairs == Seq::new(items@.len(), |j: int| (items@[j].0@, items@[j].1)),
                spec_compact_decode(Seq::empty(), pairs) == spec_compact_decode(
                    acc@,
                    pairs.skip(i as int),
                ),
            decreases items.len() - i,
        {
            proof {
                assert(pairs.skip(i as int)[0] == pairs[i as int]);
                assert(pairs.skip(i as int).skip(1) =~= pairs.skip(i as int + 1));
            }
            let entry_list = &items[i].0;
            let mut key = DecoherenceProduct::new();
            let mut j: usize = 0;
            proof {
                assert(entry_list@.skip(0) =~= entry_list@);
            }
            while j < entry_list.len()
                invariant
                    j <= entry_list.len(),
                    key.wf(),
                    spec_entries_to_product(entry_list@, Seq::empty())
                        == spec_entries_to_product(entry_list@.skip(j as int), key@),
                decreases entry_list.len() - j,
            {
                proof {
                    assert(entry_list@.skip(j as int)[0] == entry_list@[j as int]);
                    assert(entry_list@.skip(j as int).skip(1) =~= entry_list@.skip(j as int + 1));
                }
                let (idx, sym) = entry_list[j];
                key = key.set_pauli(idx, sym);
                j = j + 1;
            }
            proof {
                assert(entry_list@.skip(j as int).len() == 0);
                assert(key@ == spec_entries_to_product(pairs[i as int].0, Seq::empty()));
            }
            let c = items[i].1.clone();
            let _ = acc.add_operator_product(key, c);
            i = i + 1;
        }
        proof {
            assert(pairs.skip(i as int).len() == 0);
        }
        Ok(acc)
    }
}



/// The display text of one entry: the key token, a colon and space, the
/// coefficient text, a comma and line break.
pub open spec fn spec_display_entries(s: TermsView) -> Seq<char>
    decreases s.len(),
{
    if s.len() == 0 {
        Seq::empty()
    } else {
        spec_product_token(s[0].0) + seq![':', ' '] + cc_text(s[0].1) + seq![',', '\n']
            + spec_display_entries(s.skip(1))
    }
}

/// The display text of an operator: the type name, an opening brace and
/// line break, each entry on its own line in key order, a closing brace.
pub open spec fn spec_display(s: TermsView) -> Seq<char> {
    seq![
        'D', 'e', 'c', 'o', 'h', 'e', 'r', 'e', 'n', 'c', 'e', 'O', 'p', 'e', 'r', 'a', 't', 'o',
        'r', '{', '\n',
    ] + spec_display_entries(s) + seq!['}']
}

impl DecoherenceOperator {
    /// The display text of this operator: one line per entry, in key order,
    /// each as `<token>: <coefficient>,` inside a named brace pair.
    pub fn to_display_string(&self) -> (r: String)
        ensures
            r@ == spec_display(self@),
    {
        let mut out = String::new();
        proof {
            reveal_strlit("DecoherenceOperator{\n");
            reveal_strlit(": ");
            reveal_strlit(",\n");
            reveal_strlit("}");
        }
        out.append("DecoherenceOperator{\n");
        let ghost header = out@;
        proof {
            assert(header =~= seq![
                'D', 'e', 'c', 'o', 'h', 'e', 'r', 'e', 'n', 'c', 'e', 'O', 'p', 'e', 'r', 'a',
                't', 'o', 'r', '{', '\n',
            ]);
            assert(self@.skip(0) =~= self@);
            assert(out@ + spec_display_entries(self@) =~= header + spec_display_entries(self@));
        }
        let mut i: usize = 0;
        while i < self.terms.len()
            invariant
                i <= self.terms.len(),
                header == seq![
                    'D', 'e', 'c', 'o', 'h', 'e', 'r', 'e', 'n', 'c', 'e', 'O', 'p', 'e', 'r',
                    'a', 't', 'o', 'r', '{', '\n',
                ],
                header + spec_display_entries(self@) == out@ + spec_display_entries(
                    self@.skip(i as int),
                ),
            decreases self.terms.len() - i,
        {
            proof {
                reveal_strlit(": ");
                reveal_strlit(",\n");
                assert(self@.skip(i as int)[0] == self@[i as int]);
                assert(self@.skip(i as int).skip(1) =~= self@.skip(i as int + 1));
            }
            let token = self.terms[i].0.to_token();
            out.append(token.as_str());
            out.append(": ");
            let ctext = cc_text_exec(&self.terms[i].1);
            out.append(ctext.as_str());
            out.append(",\n");
            i = i + 1;
            proof {
                assert(": "@ =~= seq![':', ' ']);
                assert(",\n"@ =~= seq![',', '\n']);
                assert(header + spec_display_entries(self@) =~= out@ + spec_display_entries(
                    self@.skip(i as int),
                ));
            }
        }
        proof {
            reveal_strlit("}");
            assert(spec_display_entries(self@.skip(i as int)) =~= Seq::<char>::empty());
        }
        out.append("}");
        proof {
            assert("}"@ =~= seq!['}']);
            assert(out@ =~= spec_display(self@));
        }
        out
    }
}


} // verus!
