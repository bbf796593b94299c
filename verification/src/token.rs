//! The readable token form of a product key.
//!
//! A product is written as its entries in ascending index order, each as the
//! decimal index followed by the symbol letter (`I`, `X`, `iY`, `Z`), e.g.
//! `"0Z1X"`; the identity product is written `"I"`.

use vstd::prelude::*;

use crate::error::StruqtureError;
use crate::product::{
    spec_set_symbol, wf_items, DecoherenceProduct, SingleDecoherenceOperator,
};

verus! {

/// The decimal digit character for `d`.
pub open spec fn digit_char(d: int) -> char {
    if d == 0 {
        '0'
    } else if d == 1 {
        '1'
    } else if d == 2 {
        '2'
    } else if d == 3 {
        '3'
    } else if d == 4 {
        '4'
    } else if d == 5 {
        '5'
    } else if d == 6 {
        '6'
    } else if d == 7 {
        '7'
    } else if d == 8 {
        '8'
    } else {
        '9'
    }
}

/// Whether `c` is a decimal digit character.
pub open spec fn is_digit(c: char) -> bool {
    c == '0' || c == '1' || c == '2' || c == '3' || c == '4' || c == '5' || c == '6' || c == '7'
        || c == '8' || c == '9'
}

/// The value of a decimal digit character.
pub open spec fn digit_val(c: char) -> int {
    if c == '0' {
        0
    } else if c == '1' {
        1
    } else if c == '2' {
        2
    } else if c == '3' {
        3
    } else if c == '4' {
        4
    } else if c == '5' {
        5
    } else if c == '6' {
        6
    } else if c == '7' {
        7
    } else if c == '8' {
        8
    } else {
        9
    }
}

/// The decimal digit string of a non-negative number, most significant
/// digit first.
pub open spec fn spec_dec_digits(n: int) -> Seq<char>
    decreases n,
    when n >= 0
{
    if n < 10 {
        seq![digit_char(n)]
    } else {
        spec_dec_digits(n / 10).push(digit_char(n % 10))
    }
}

/// The letters of one symbol.
pub open spec fn sym_letters(s: SingleDecoherenceOperator) -> Seq<char> {
    match s {
        SingleDecoherenceOperator::Identity => seq!['I'],
        SingleDecoherenceOperator::X => seq!['X'],
        SingleDecoherenceOperator::IY => seq!['i', 'Y'],
        SingleDecoherenceOperator::Z => seq!['Z'],
    }
}

/// The token text of an entry list: each entry as its decimal index
/// followed by its symbol letters.
pub open spec fn spec_token_entries(items: Seq<(usize, SingleDecoherenceOperator)>) -> Seq<char>
    decreases items.len(),
{
    if items.len() == 0 {
        Seq::empty()
    } else {
        spec_dec_digits(items[0].0 as int) + sym_letters(items[0].1) + spec_token_entries(
            items.skip(1),
        )
    }
}

/// The token text of a product: its entries, or `"I"` for the identity
/// product.
pub open spec fn spec_product_token(items: Seq<(usize, SingleDecoherenceOperator)>) -> Seq<char> {
    if items.len() == 0 {
        seq!['I']
    } else {
        spec_token_entries(items)
    }
}

/// Append one decimal digit character to a string.
fn push_digit(out: &mut String, d: u8)
    requires
        d < 10,
    ensures
        final(out)@ == old(out)@ + seq![digit_char(d as int)],
{
    proof {
        reveal_strlit("0");
        reveal_strlit("1");
        reveal_strlit("2");
        reveal_strlit("3");
        reveal_strlit("4");
        reveal_strlit("5");
        reveal_strlit("6");
        reveal_strlit("7");
        reveal_strlit("8");
        reveal_strlit("9");
    }
    match d {
        0 => out.append("0"),
        1 => out.append("1"),
        2 => out.append("2"),
        3 => out.append("3"),
        4 => out.append("4"),
        5 => out.append("5"),
        6 => out.append("6"),
        7 => out.append("7"),
        8 => out.append("8"),
        _ => out.append("9"),
    }
    proof {
        assert(final(out)@ =~= old(out)@ + seq![digit_char(d as int)]);
    }
}

/// Append the decimal digits of `n` to a string, most significant first.
fn push_decimal(out: &mut String, n: usize)
    ensures
        final(out)@ == old(out)@ + spec_dec_digits(n as int),
    decreases n,
{
    if n < 10 {
        push_digit(out, n as u8);
    } else {
        push_decimal(out, n / 10);
        push_digit(out, (n % 10) as u8);
        proof {
            assert(final(out)@ =~= old(out)@ + spec_dec_digits(n as int));
        }
    }
}

/// Append the letters of one symbol to a string.
fn push_symbol(out: &mut String, s: SingleDecoherenceOperator)
    ensures
        final(out)@ == old(out)@ + sym_letters(s),
{
    proof {
        reveal_strlit("I");
        reveal_strlit("X");
        reveal_strlit("iY");
        reveal_strlit("Z");
    }
    match s {
        SingleDecoherenceOperator::Identity => out.append("I"),
        SingleDecoherenceOperator::X => out.append("X"),
        SingleDecoherenceOperator::IY => out.append("iY"),
        SingleDecoherenceOperator::Z => out.append("Z"),
    }
    proof {
        assert(final(out)@ =~= old(out)@ + sym_letters(s));
    }
}

impl DecoherenceProduct {
    /// The readable token of this product, e.g. `"0Z1X"`; the identity
    /// product reads `"I"`.
    pub fn to_token(&self) -> (r: String)
        ensures
            r@ == spec_product_token(self@),
    {
        let mut out = String::new();
        if self.items.len() == 0 {
            proof {
                reveal_strlit("I");
            }
            out.append("I");
            proof {
                assert(out@ =~= spec_product_token(self@));
            }
            return out;
        }
        let mut i: usize = 0;
        proof {
            assert(self@.skip(0) =~= self@);
            assert(out@ + spec_token_entries(self@) =~= spec_token_entries(self@));
        }
        while i < self.items.len()
            invariant
                i <= self.items.len(),
                spec_token_entries(self@) == out@ + spec_token_entries(self@.skip(i as int)),
            decreases self.items.len() - i,
        {
            proof {
                assert(self@.skip(i as int)[0] == self@[i as int]);
                assert(self@.skip(i as int).skip(1) =~= self@.skip(i as int + 1));
            }
            let (idx, sym) = self.items[i];
            push_decimal(&mut out, idx);
            push_symbol(&mut out, sym);
            i = i + 1;
            proof {
                assert(spec_token_entries(self@) =~= out@ + spec_token_entries(
                    self@.skip(i as int),
                ));
            }
        }
        proof {
            assert(spec_token_entries(self@.skip(i as int)) =~= Seq::<char>::empty());
            assert(out@ =~= spec_token_entries(self@));
        }
        out
    }
}


/// Powers of ten.
pub open spec fn pow10(l: int) -> int
    decreases l,
    when l >= 0
{
    if l <= 0 {
        1
    } else {
        10 * pow10(l - 1)
    }
}

/// Consume a run of decimal digits starting at `i`, accumulating onto
/// `acc`; fails when the value would not fit in `usize`.
pub open spec fn spec_take_num(s: Seq<char>, i: int, acc: int) -> Option<(int, int)>
    decreases s.len() - i,
    when 0 <= i <= s.len()
{
    if i < s.len() && is_digit(s[i]) {
        let v = acc * 10 + digit_val(s[i]);
        if v > usize::MAX as int {
            None
        } else {
            spec_take_num(s, i + 1, v)
        }
    } else {
        Some((acc, i))
    }
}

/// Read one symbol at position `j`: a single letter `I`, `X` or `Z`, or the
/// two letters `iY`.
pub open spec fn spec_take_sym(s: Seq<char>, j: int) -> Option<(SingleDecoherenceOperator, int)> {
    if 0 <= j < s.len() {
        if s[j] == 'I' {
            Some((SingleDecoherenceOperator::Identity, j + 1))
        } else if s[j] == 'X' {
            Some((SingleDecoherenceOperator::X, j + 1))
        } else if s[j] == 'Z' {
            Some((SingleDecoherenceOperator::Z, j + 1))
        } else if s[j] == 'i' && j + 1 < s.len() && s[j + 1] == 'Y' {
            Some((SingleDecoherenceOperator::IY, j + 2))
        } else {
            None
        }
    } else {
        None
    }
}

/// Consuming digits moves the position forward and keeps the value
/// non-negative.
pub proof fn lemma_take_num_end(s: Seq<char>, i: int, acc: int)
    requires
        0 <= i <= s.len(),
        0 <= acc,
    ensures
        spec_take_num(s, i, acc) is Some ==> {
            let (n, j) = spec_take_num(s, i, acc)->Some_0;
            &&& i <= j <= s.len()
            &&& 0 <= n
            &&& (i < s.len() && is_digit(s[i]) ==> j >= i + 1)
        },
    decreases s.len() - i,
{
    if i < s.len() && is_digit(s[i]) {
        let v = acc * 10 + digit_val(s[i]);
        if v <= usize::MAX as int {
            lemma_take_num_end(s, i + 1, v);
        }
    }
}

/// Parse entry after entry from position `i`, folding each parsed
/// `(index, symbol)` into `acc` by canonical insertion.
pub open spec fn spec_parse_at(
    s: Seq<char>,
    i: int,
    acc: Seq<(usize, SingleDecoherenceOperator)>,
) -> Option<Seq<(usize, SingleDecoherenceOperator)>>
    decreases s.len() - i,
    when 0 <= i <= s.len()
    via spec_parse_at_dec
{
    if i >= s.len() {
        Some(acc)
    } else if !is_digit(s[i]) {
        None
    } else {
        match spec_take_num(s, i, 0) {
            None => None,
            Some((n, j)) => match spec_take_sym(s, j) {
                None => None,
                Some((sym, j2)) => spec_parse_at(s, j2, spec_set_symbol(acc, n as usize, sym)),
            },
        }
    }
}

#[via_fn]
proof fn spec_parse_at_dec(s: Seq<char>, i: int, acc: Seq<(usize, SingleDecoherenceOperator)>) {
    if 0 <= i < s.len() {
        lemma_take_num_end(s, i, 0);
    }
}

/// Parse a whole product token: `"I"` is the identity product, anything
/// else is a run of entries.
pub open spec fn spec_parse_token(s: Seq<char>) -> Option<
    Seq<(usize, SingleDecoherenceOperator)>,
> {
    if s.len() == 1 && s[0] == 'I' {
        Some(Seq::empty())
    } else {
        spec_parse_at(s, 0, Seq::empty())
    }
}

/// The decimal digit value of a character, or none.
fn digit_of(c: char) -> (r: Option<u8>)
    ensures
        is_digit(c) ==> r == Some(digit_val(c) as u8),
        !is_digit(c) ==> r is None,
{
    match c {
        '0' => Some(0),
        '1' => Some(1),
        '2' => Some(2),
        '3' => Some(3),
        '4' => Some(4),
        '5' => Some(5),
        '6' => Some(6),
        '7' => Some(7),
        '8' => Some(8),
        '9' => Some(9),
        _ => None,
    }
}

impl DecoherenceProduct {
    /// Parse a readable product token, e.g. `"0Z1X"` or `"I"`. Entries may
    /// come in any order and later entries for an index overwrite earlier
    /// ones; the result is canonical. A text that does not follow the
    /// grammar, or an index that does not fit the machine, is rejected with
    /// the offending token.
    pub fn parse_token(s: &str) -> (r: Result<DecoherenceProduct, StruqtureError>)
        ensures
            spec_parse_token(s@) is Some ==> r is Ok && r->Ok_0.wf() && Some(r->Ok_0@)
                == spec_parse_token(s@),
            spec_parse_token(s@) is None ==> r is Err && match r->Err_0 {
                StruqtureError::MalformedToken { token } => token@ == s@,
                _ => false,
            },
    {
        let n = s.unicode_len();
        if n == 1 && s.get_char(0) == 'I' {
            return Ok(DecoherenceProduct::new());
        }
        let mut acc = DecoherenceProduct::new();
        let mut i: usize = 0;
        while i < n
            invariant
                n == s@.len(),
                i <= n,
                acc.wf(),
                !(s@.len() == 1 && s@[0] == 'I'),
                spec_parse_at(s@, 0, Seq::empty()) == spec_parse_at(s@, i as int, acc@),
            decreases n - i,
        {
            let c = s.get_char(i);
            let d = match digit_of(c) {
                Some(d) => d,
                None => {
                    return Err(StruqtureError::MalformedToken { token: s.to_owned() });
                },
            };
            // consume the digit run into a value
            let mut val: usize = 0;
            let mut j: usize = i;
            let mut overflow = false;
            while j < n
                invariant_except_break
                    n == s@.len(),
                    i <= j <= n,
                    !overflow,
                    spec_take_num(s@, i as int, 0) == spec_take_num(s@, j as int, val as int),
                ensures
                    i <= j <= n,
                    overflow ==> spec_take_num(s@, i as int, 0) is None,
                    !overflow ==> spec_take_num(s@, i as int, 0) == Some((val as int, j as int)),
                decreases n - j,
            {
                let c2 = s.get_char(j);
                match digit_of(c2) {
                    None => {
                        proof {
                            assert(spec_take_num(s@, j as int, val as int) == Some((
                                val as int,
                                j as int,
                            )));
                        }
                        break ;
                    },
                    Some(d2) => {
                        if val > usize::MAX / 10 || (val == usize::MAX / 10 && d2 as usize
                            > usize::MAX % 10) {
                            proof {
                                assert((val as int) * 10 + digit_val(s@[j as int])
                                    > usize::MAX as int) by (nonlinear_arith)
                                    requires
                                        val as int > usize::MAX as int / 10 || (val as int
                                            == usize::MAX as int / 10 && digit_val(s@[j as int])
                                            > usize::MAX as int % 10),
                                        digit_val(s@[j as int]) == d2 as int,
                                        usize::MAX as int == 10 * (usize::MAX as int / 10)
                                            + usize::MAX as int % 10,
                                        0 <= d2 < 10,
                                ;
                                assert(spec_take_num(s@, j as int, val as int) is None);
                            }
                            overflow = true;
                            break ;
                        } else {
                            proof {
                                assert((val as int) * 10 + digit_val(s@[j as int])
                                    <= usize::MAX as int) by (nonlinear_arith)
                                    requires
                                        !(val as int > usize::MAX as int / 10) && !(val as int
                                            == usize::MAX as int / 10 && digit_val(s@[j as int])
                                            > usize::MAX as int % 10),
                                        digit_val(s@[j as int]) == d2 as int,
                                        usize::MAX as int == 10 * (usize::MAX as int / 10)
                                            + usize::MAX as int % 10,
                                        0 <= d2 < 10,
                                        0 <= val,
                                ;
                            }
                            val = val * 10 + d2 as usize;
                            j = j + 1;
                        }
                    },
                }
            }
            if overflow {
                return Err(StruqtureError::MalformedToken { token: s.to_owned() });
            }
            proof {
                assert(spec_take_num(s@, i as int, 0) == Some((val as int, j as int)));
            }
            // read the symbol letters
            if j >= n {
                return Err(StruqtureError::MalformedToken { token: s.to_owned() });
            }
            let cs = s.get_char(j);
            let (sym, j2): (SingleDecoherenceOperator, usize) = if cs == 'I' {
                (SingleDecoherenceOperator::Identity, j + 1)
            } else if cs == 'X' {
                (SingleDecoherenceOperator::X, j + 1)
            } else if cs == 'Z' {
                (SingleDecoherenceOperator::Z, j + 1)
            } else if cs == 'i' && j + 1 < n && s.get_char(j + 1) == 'Y' {
                (SingleDecoherenceOperator::IY, j + 2)
            } else {
                return Err(StruqtureError::MalformedToken { token: s.to_owned() });
            };
            proof {
                assert(spec_take_sym(s@, j as int) == Some((sym, j2 as int)));
            }
            acc = acc.set_pauli(val, sym);
            i = j2;
        }
        Ok(acc)
    }
}



/// Powers of ten are positive.
pub proof fn lemma_pow10_pos(l: int)
    requires
        l >= 0,
    ensures
        pow10(l) >= 1,
    decreases l,
{
    if l > 0 {
        lemma_pow10_pos(l - 1);
    }
}

/// The decimal digit string is non-empty and made of digit characters.
pub proof fn lemma_dec_digits_shape(n: int)
    requires
        n >= 0,
    ensures
        spec_dec_digits(n).len() >= 1,
        forall|i: int|
            0 <= i < spec_dec_digits(n).len() ==> is_digit(#[trigger] spec_dec_digits(n)[i]),
    decreases n,
{
    if n < 10 {
    } else {
        lemma_dec_digits_shape(n / 10);
    }
}

/// Reading the digit string of `n` from position `p` carries the
/// accumulator over it: the position moves past the digits and the value
/// becomes the accumulator shifted by the digit count, plus `n`.
pub proof fn lemma_take_num_digits(s: Seq<char>, p: int, acc: int, n: int)
    requires
        0 <= p,
        n >= 0,
        acc >= 0,
        p + spec_dec_digits(n).len() <= s.len(),
        s.subrange(p, p + spec_dec_digits(n).len() as int) == spec_dec_digits(n),
        acc * pow10(spec_dec_digits(n).len() as int) + n <= usize::MAX as int,
    ensures
        spec_take_num(s, p, acc) == spec_take_num(
            s,
            p + spec_dec_digits(n).len() as int,
            acc * pow10(spec_dec_digits(n).len() as int) + n,
        ),
    decreases n,
{
    let ds = spec_dec_digits(n);
    let ll = ds.len() as int;
    lemma_dec_digits_shape(n);
    if n < 10 {
        assert(ll == 1);
        assert(s[p] == digit_char(n)) by {
            assert(s.subrange(p, p + ll)[0] == s[p + 0]);
            assert(ds[0] == digit_char(n));
        }
        assert(digit_val(s[p]) == n);
        assert(pow10(0) == 1);
        assert(pow10(1) == 10 * pow10(0));
        assert(acc * 10 + n <= usize::MAX as int);
        assert(spec_take_num(s, p, acc) == spec_take_num(s, p + 1, acc * 10 + n));
    } else {
        let ds0 = spec_dec_digits(n / 10);
        let l0 = ds0.len() as int;
        assert(ds == ds0.push(digit_char(n % 10)));
        assert(ll == l0 + 1);
        assert(s.subrange(p, p + l0) =~= ds0) by {
            assert forall|i: int| 0 <= i < l0 implies #[trigger] s.subrange(p, p + l0)[i]
                == ds0[i] by {
                assert(s.subrange(p, p + l0)[i] == s[p + i]);
                assert(s.subrange(p, p + ll)[i] == s[p + i]);
                assert(ds[i] == ds0[i]);
            }
        }
        lemma_pow10_pos(l0);
        let mid = acc * pow10(l0) + n / 10;
        assert(pow10(l0 + 1) == 10 * pow10(l0));
        assert(mid * 10 + n % 10 == acc * pow10(ll) + n) by (nonlinear_arith)
            requires
                mid == acc * pow10(l0) + n / 10,
                pow10(ll) == 10 * pow10(l0),
                n == 10 * (n / 10) + n % 10,
                ll == l0 + 1,
        ;
        assert(mid >= 0) by (nonlinear_arith)
            requires
                acc >= 0,
                pow10(l0) >= 1,
                n >= 10,
                mid == acc * pow10(l0) + n / 10,
        ;
        assert(mid <= usize::MAX as int) by (nonlinear_arith)
            requires
                mid >= 0,
                0 <= n % 10,
                mid * 10 + n % 10 <= usize::MAX as int,
        ;
        lemma_take_num_digits(s, p, acc, n / 10);
        assert(s[p + l0] == digit_char(n % 10)) by {
            assert(s.subrange(p, p + ll)[l0] == s[p + l0]);
            assert(ds[l0] == digit_char(n % 10));
        }
        assert(is_digit(s[p + l0]) && digit_val(s[p + l0]) == n % 10);
        assert(spec_take_num(s, p + l0, mid) == spec_take_num(s, p + l0 + 1, mid * 10 + n % 10));
    }
}

/// Inserting a symbol above every stored index appends it at the end.
pub proof fn lemma_set_symbol_append(
    items: Seq<(usize, SingleDecoherenceOperator)>,
    idx: usize,
    sym: SingleDecoherenceOperator,
)
    requires
        sym != SingleDecoherenceOperator::Identity,
        forall|i: int| 0 <= i < items.len() ==> (#[trigger] items[i]).0 < idx,
    ensures
        spec_set_symbol(items, idx, sym) == items + seq![(idx, sym)],
    decreases items.len(),
{
    if items.len() == 0 {
        assert(spec_set_symbol(items, idx, sym) =~= items + seq![(idx, sym)]);
    } else {
        assert(forall|i: int|
            0 <= i < items.skip(1).len() ==> #[trigger] items.skip(1)[i] == items[i + 1]);
        lemma_set_symbol_append(items.skip(1), idx, sym);
        assert(spec_set_symbol(items, idx, sym) =~= items + seq![(idx, sym)]);
    }
}

/// Parsing the printed entries of a canonical product from position `p`
/// extends the accumulator by exactly those entries.
pub proof fn lemma_parse_entries(
    s: Seq<char>,
    p: int,
    acc: Seq<(usize, SingleDecoherenceOperator)>,
    items: Seq<(usize, SingleDecoherenceOperator)>,
)
    requires
        0 <= p <= s.len(),
        s.subrange(p, s.len() as int) == spec_token_entries(items),
        wf_items(acc),
        wf_items(items),
        forall|i: int, j: int|
            0 <= i < acc.len() && 0 <= j < items.len() ==> (#[trigger] acc[i]).0 < (
            #[trigger] items[j]).0,
    ensures
        spec_parse_at(s, p, acc) == Some(acc + items),
    decreases items.len(),
{
    if items.len() == 0 {
        assert(spec_token_entries(items).len() == 0);
        assert(p == s.len());
        assert(acc + items =~= acc);
    } else {
        let head = items[0];
        let idx = head.0;
        let sym = head.1;
        let ds = spec_dec_digits(idx as int);
        let ll = ds.len() as int;
        let lets = sym_letters(sym);
        let tail_text = spec_token_entries(items.skip(1));
        assert(s.subrange(p, s.len() as int) == ds + lets + tail_text);
        lemma_dec_digits_shape(idx as int);
        assert(s.len() - p == ll + lets.len() + tail_text.len());
        assert(s.subrange(p, p + ll) =~= ds) by {
            assert forall|i: int| 0 <= i < ll implies #[trigger] s.subrange(p, p + ll)[i]
                == ds[i] by {
                assert(s.subrange(p, p + ll)[i] == s[p + i]);
                assert(s.subrange(p, s.len() as int)[i] == s[p + i]);
                assert((ds + lets + tail_text)[i] == ds[i]) by {
                    assert((ds + lets)[i] == ds[i]);
                }
            }
        }
        assert(s[p] == ds[0]) by {
            assert(s.subrange(p, p + ll)[0] == s[p + 0]);
        }
        assert(is_digit(s[p]));
        assert(0 * pow10(ll) == 0) by (nonlinear_arith);
        lemma_take_num_digits(s, p, 0, idx as int);
        assert(spec_take_num(s, p, 0) == spec_take_num(s, p + ll, idx as int));
        let q = p + ll;
        assert(s[q] == lets[0]) by {
            assert(s.subrange(p, s.len() as int)[ll] == s[p + ll]);
            assert((ds + lets + tail_text)[ll] == lets[0]) by {
                assert((ds + lets)[ll] == lets[0]);
            }
        }
        if lets.len() == 2 {
            assert(s[q + 1] == lets[1]) by {
                assert(s.subrange(p, s.len() as int)[ll + 1] == s[p + ll + 1]);
                assert((ds + lets + tail_text)[ll + 1] == lets[1]) by {
                    assert((ds + lets)[ll + 1] == lets[1]);
                }
            }
        }
        assert(sym != SingleDecoherenceOperator::Identity);
        let q2 = q + lets.len() as int;
        match sym {
            SingleDecoherenceOperator::Identity => {},
            SingleDecoherenceOperator::X => {
                assert(s[q] == 'X');
                assert(!is_digit(s[q]));
                assert(spec_take_num(s, q, idx as int) == Some((idx as int, q)));
                assert(spec_take_sym(s, q) == Some((sym, q2)));
            },
            SingleDecoherenceOperator::Z => {
                assert(s[q] == 'Z');
                assert(!is_digit(s[q]));
                assert(spec_take_num(s, q, idx as int) == Some((idx as int, q)));
                assert(spec_take_sym(s, q) == Some((sym, q2)));
            },
            SingleDecoherenceOperator::IY => {
                assert(s[q] == 'i');
                assert(s[q + 1] == 'Y');
                assert(!is_digit(s[q]));
                assert(spec_take_num(s, q, idx as int) == Some((idx as int, q)));
                assert(spec_take_sym(s, q) == Some((sym, q2)));
            },
        }
        assert(spec_parse_at(s, p, acc) == spec_parse_at(s, q2, spec_set_symbol(acc, idx, sym)));
        lemma_set_symbol_append(acc, idx, sym);
        let acc2 = acc + seq![(idx, sym)];
        assert(spec_set_symbol(acc, idx, sym) == acc2);
        assert(s.subrange(q2, s.len() as int) =~= tail_text) by {
            assert forall|i: int| 0 <= i < tail_text.len() implies #[trigger] s.subrange(
                q2,
                s.len() as int,
            )[i] == tail_text[i] by {
                assert(s.subrange(q2, s.len() as int)[i] == s[q2 + i]);
                assert(s.subrange(p, s.len() as int)[ll + lets.len() + i] == s[p + ll
                    + lets.len() + i]);
                assert((ds + lets + tail_text)[ll + lets.len() + i] == tail_text[i]);
            }
        }
        assert(forall|i: int|
            0 <= i < items.skip(1).len() ==> #[trigger] items.skip(1)[i] == items[i + 1]);
        assert(wf_items(acc2));
        assert(wf_items(items.skip(1)));
        assert(forall|i: int, j: int|
            0 <= i < acc2.len() && 0 <= j < items.skip(1).len() ==> (#[trigger] acc2[i]).0 < (
            #[trigger] items.skip(1)[j]).0);
        lemma_parse_entries(s, q2, acc2, items.skip(1));
        assert(acc2 + items.skip(1) =~= acc + items);
    }
}

/// Round trip: printing a canonical product and parsing the text back
/// yields exactly the product again.
pub proof fn lemma_token_round_trip(items: Seq<(usize, SingleDecoherenceOperator)>)
    requires
        wf_items(items),
    ensures
        spec_parse_token(spec_product_token(items)) == Some(items),
{
    let t = spec_product_token(items);
    if items.len() == 0 {
        assert(t == seq!['I']);
        assert(t.len() == 1 && t[0] == 'I');
        assert(spec_parse_token(t) == Some(Seq::<(usize, SingleDecoherenceOperator)>::empty()));
        assert(items =~= Seq::<(usize, SingleDecoherenceOperator)>::empty());
    } else {
        assert(t == spec_token_entries(items));
        lemma_dec_digits_shape(items[0].0 as int);
        let ds = spec_dec_digits(items[0].0 as int);
        assert(t[0] == ds[0]) by {
            assert(t == ds + sym_letters(items[0].1) + spec_token_entries(items.skip(1)));
        }
        assert(is_digit(t[0]));
        assert(!(t.len() == 1 && t[0] == 'I'));
        assert(t.subrange(0, t.len() as int) =~= t);
        lemma_parse_entries(t, 0, Seq::empty(), items);
        assert(Seq::<(usize, SingleDecoherenceOperator)>::empty() + items =~= items);
    }
}


} // verus!
