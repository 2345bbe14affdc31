use vstd::prelude::*;

use crate::text::{
    chars_to_string, is_digit_char, is_digit_exec, is_name_char, is_name_char_exec,
    is_name_start_char, is_name_start_exec, is_space_char, is_space_exec, subrange_vec,
};
use crate::store::StateStore;
use crate::values::{
    same_value, same_variant, spec_bool_chars, value_lt, AbstractValue, SystemStateVar,
};

verus! {

// ---------------------------------------------------------------------------
// Tokens
// ---------------------------------------------------------------------------

/// A comparison operator of the condition grammar.
#[derive(Clone, Copy, PartialEq, Eq, Structural, Debug)]
pub enum CmpOp {
    CmpEq,
    CmpNe,
    CmpLt,
    CmpLe,
    CmpGt,
    CmpGe,
}

/// A lexical token of the condition grammar.
#[derive(Debug)]
pub enum Token {
    Ident(String),
    Marker(String),
    StrTok(String),
    IntTok(i64),
    BoolTok(bool),
    Op(CmpOp),
    AndAnd,
    OrOr,
    Bang,
    LParen,
    RParen,
}

/// Mathematical model of a `Token`.
pub enum TokenModel {
    Ident(Seq<char>),
    Marker(Seq<char>),
    StrTok(Seq<char>),
    IntTok(int),
    BoolTok(bool),
    Op(CmpOp),
    AndAnd,
    OrOr,
    Bang,
    LParen,
    RParen,
}

impl View for Token {
    type V = TokenModel;

    open spec fn view(&self) -> TokenModel {
        match self {
            Token::Ident(s) => TokenModel::Ident(s@),
            Token::Marker(s) => TokenModel::Marker(s@),
            Token::StrTok(s) => TokenModel::StrTok(s@),
            Token::IntTok(i) => TokenModel::IntTok(*i as int),
            Token::BoolTok(b) => TokenModel::BoolTok(*b),
            Token::Op(o) => TokenModel::Op(*o),
            Token::AndAnd => TokenModel::AndAnd,
            Token::OrOr => TokenModel::OrOr,
            Token::Bang => TokenModel::Bang,
            Token::LParen => TokenModel::LParen,
            Token::RParen => TokenModel::RParen,
        }
    }
}

impl DeepView for Token {
    type V = TokenModel;

    open spec fn deep_view(&self) -> TokenModel {
        self.view()
    }
}

// ---------------------------------------------------------------------------
// Lexical scanning: prefix lengths and digit values
// ---------------------------------------------------------------------------

/// The number of leading variable-name characters.
pub open spec fn name_len(s: Seq<char>) -> int
    decreases s.len(),
{
    if s.len() > 0 && is_name_char(s[0]) {
        1 + name_len(s.skip(1))
    } else {
        0
    }
}

/// The number of leading decimal digits.
pub open spec fn digit_len(s: Seq<char>) -> int
    decreases s.len(),
{
    if s.len() > 0 && is_digit_char(s[0]) {
        1 + digit_len(s.skip(1))
    } else {
        0
    }
}

/// The number of leading characters that are not a double quote.
pub open spec fn quote_len(s: Seq<char>) -> int
    decreases s.len(),
{
    if s.len() > 0 && s[0] != '"' {
        1 + quote_len(s.skip(1))
    } else {
        0
    }
}

pub proof fn lemma_name_len_bound(s: Seq<char>)
    ensures
        0 <= name_len(s) <= s.len(),
        forall|j: int| 0 <= j < name_len(s) ==> is_name_char(s[j]),
    decreases s.len(),
{
    if s.len() > 0 && is_name_char(s[0]) {
        lemma_name_len_bound(s.skip(1));
        assert forall|j: int| 0 <= j < name_len(s) implies is_name_char(s[j]) by {
            if j > 0 {
                assert(s.skip(1)[j - 1] == s[j]);
                assert(is_name_char(s.skip(1)[j - 1]));
            }
        }
    }
}

pub proof fn lemma_digit_len_bound(s: Seq<char>)
    ensures
        0 <= digit_len(s) <= s.len(),
        forall|j: int| 0 <= j < digit_len(s) ==> is_digit_char(s[j]),
    decreases s.len(),
{
    if s.len() > 0 && is_digit_char(s[0]) {
        lemma_digit_len_bound(s.skip(1));
        assert forall|j: int| 0 <= j < digit_len(s) implies is_digit_char(s[j]) by {
            if j > 0 {
                assert(s.skip(1)[j - 1] == s[j]);
                assert(is_digit_char(s.skip(1)[j - 1]));
            }
        }
    }
}

pub proof fn lemma_quote_len_bound(s: Seq<char>)
    ensures
        0 <= quote_len(s) <= s.len(),
        quote_len(s) < s.len() ==> s[quote_len(s)] == '"',
    decreases s.len(),
{
    if s.len() > 0 && s[0] != '"' {
        lemma_quote_len_bound(s.skip(1));
    }
}

/// The value of a sequence of decimal digits, most significant first.
pub open spec fn spec_digits_val(s: Seq<char>) -> int
    decreases s.len(),
{
    if s.len() == 0 {
        0
    } else {
        spec_digits_val(s.drop_last()) * 10 + (s.last() as int - 48)
    }
}

pub open spec fn pow10(n: nat) -> int
    decreases n,
{
    if n == 0 {
        1int
    } else {
        10 * pow10((n - 1) as nat)
    }
}

pub(crate) fn scan_name_len(v: &Vec<char>, j: usize) -> (r: usize)
    requires
        j <= v@.len(),
    ensures
        r == name_len(v@.skip(j as int)),
        j + r <= v@.len(),
    decreases v@.len() - j,
{
    if j == v.len() {
        proof {
            assert(v@.skip(j as int).len() == 0);
        }
        0
    } else if is_name_char_exec(v[j]) {
        proof {
            assert(v@.skip(j as int)[0] == v@[j as int]);
            assert(v@.skip(j as int).skip(1) =~= v@.skip(j + 1));
        }
        let rest = scan_name_len(v, j + 1);
        1 + rest
    } else {
        proof {
            assert(v@.skip(j as int)[0] == v@[j as int]);
        }
        0
    }
}

fn scan_digit_len(v: &Vec<char>, j: usize) -> (r: usize)
    requires
        j <= v@.len(),
    ensures
        r == digit_len(v@.skip(j as int)),
        j + r <= v@.len(),
    decreases v@.len() - j,
{
    if j == v.len() {
        proof {
            assert(v@.skip(j as int).len() == 0);
        }
        0
    } else if is_digit_exec(v[j]) {
        proof {
            assert(v@.skip(j as int)[0] == v@[j as int]);
            assert(v@.skip(j as int).skip(1) =~= v@.skip(j + 1));
        }
        let rest = scan_digit_len(v, j + 1);
        1 + rest
    } else {
        proof {
            assert(v@.skip(j as int)[0] == v@[j as int]);
        }
        0
    }
}

fn scan_quote_len(v: &Vec<char>, j: usize) -> (r: usize)
    requires
        j <= v@.len(),
    ensures
        r == quote_len(v@.skip(j as int)),
        j + r <= v@.len(),
    decreases v@.len() - j,
{
    if j == v.len() {
        proof {
            assert(v@.skip(j as int).len() == 0);
        }
        0
    } else if v[j] != '"' {
        proof {
            assert(v@.skip(j as int)[0] == v@[j as int]);
            assert(v@.skip(j as int).skip(1) =~= v@.skip(j + 1));
        }
        let rest = scan_quote_len(v, j + 1);
        1 + rest
    } else {
        proof {
            assert(v@.skip(j as int)[0] == v@[j as int]);
        }
        0
    }
}

fn digits_to_u64(v: &Vec<char>, from: usize, dl: usize) -> (r: u64)
    requires
        from + dl <= v@.len(),
        dl <= 18,
        forall|j: int| 0 <= j < dl ==> is_digit_char(#[trigger] v@[from + j]),
    ensures
        r as int == spec_digits_val(v@.subrange(from as int, from + dl)),
        r < 1000000000000000000u64,
{
    let vn = v.len();
    let mut acc: u64 = 0;
    let mut j: usize = 0;
    while j < dl
        invariant
            j <= dl,
            dl <= 18,
            vn == v@.len(),
            from + dl <= vn,
            forall|k: int| 0 <= k < dl ==> is_digit_char(#[trigger] v@[from + k]),
            acc as int == spec_digits_val(v@.subrange(from as int, from + j)),
            (acc as int) < pow10(j as nat),
        decreases dl - j,
    {
        let c = v[from + j];
        proof {
            assert(is_digit_char(v@[from + j]));
        }
        let d: u64 = ((c as u32) - 48) as u64;
        proof {
            lemma_pow10_bounds(j as nat, 17);
            assert(d <= 9);
            assert(pow10((j + 1) as nat) == 10 * pow10(j as nat));
            assert((acc as int) * 10 + 9 < pow10((j + 1) as nat));
            lemma_pow10_bounds((j + 1) as nat, 18);
            assert(v@.subrange(from as int, from + j + 1).drop_last() =~= v@.subrange(
                from as int,
                from + j,
            ));
            assert(v@.subrange(from as int, from + j + 1).last() == v@[from + j]);
        }
        acc = acc * 10 + d;
        j = j + 1;
    }
    proof {
        lemma_pow10_bounds(dl as nat, 18);
    }
    acc
}

/// `pow10` is positive and monotone, and `pow10(18)` is the literal bound
/// used by the tokenizer's integer-literal limit.
proof fn lemma_pow10_pos(a: nat)
    requires
        a <= 18,
    ensures
        1 <= pow10(a),
        pow10(18) == 1000000000000000000int,
    decreases a,
{
    reveal_with_fuel(pow10, 20);
    if a > 0 {
        lemma_pow10_pos((a - 1) as nat);
    }
}

proof fn lemma_pow10_bounds(a: nat, b: nat)
    requires
        a <= b <= 18,
    ensures
        1 <= pow10(a) <= pow10(b),
        pow10(18) == 1000000000000000000int,
    decreases b - a,
{
    lemma_pow10_pos(a);
    if a < b {
        lemma_pow10_bounds(a, (b - 1) as nat);
        lemma_pow10_pos((b - 1) as nat);
        assert(pow10(b) == 10 * pow10((b - 1) as nat));
    }
}

// ---------------------------------------------------------------------------
// The tokenizer
// ---------------------------------------------------------------------------

/// Prepends a token to a tokenization result, propagating failure.
pub open spec fn cons_tok(t: TokenModel, rest: Option<Seq<TokenModel>>) -> Option<
    Seq<TokenModel>,
> {
    match rest {
        Some(r) => Some(seq![t] + r),
        None => None,
    }
}

/// The token sequence of `s`, or `None` when `s` is not lexically valid.
/// Integer literals are limited to 18 digits.
pub open spec fn spec_tokenize(s: Seq<char>) -> Option<Seq<TokenModel>>
    decreases s.len(),
    via spec_tokenize_dec
{
    if s.len() == 0 {
        Some(Seq::empty())
    } else {
        let c = s[0];
        if is_space_char(c) {
            spec_tokenize(s.skip(1))
        } else if c == '(' {
            cons_tok(TokenModel::LParen, spec_tokenize(s.skip(1)))
        } else if c == ')' {
            cons_tok(TokenModel::RParen, spec_tokenize(s.skip(1)))
        } else if c == '&' {
            if s.len() >= 2 && s[1] == '&' {
                cons_tok(TokenModel::AndAnd, spec_tokenize(s.skip(2)))
            } else {
                None
            }
        } else if c == '|' {
            if s.len() >= 2 && s[1] == '|' {
                cons_tok(TokenModel::OrOr, spec_tokenize(s.skip(2)))
            } else {
                None
            }
        } else if c == '!' {
            if s.len() >= 2 && s[1] == '=' {
                cons_tok(TokenModel::Op(CmpOp::CmpNe), spec_tokenize(s.skip(2)))
            } else {
                cons_tok(TokenModel::Bang, spec_tokenize(s.skip(1)))
            }
        } else if c == '=' {
            if s.len() >= 2 && s[1] == '=' {
                cons_tok(TokenModel::Op(CmpOp::CmpEq), spec_tokenize(s.skip(2)))
            } else {
                None
            }
        } else if c == '<' {
            if s.len() >= 2 && s[1] == '=' {
                cons_tok(TokenModel::Op(CmpOp::CmpLe), spec_tokenize(s.skip(2)))
            } else {
                cons_tok(TokenModel::Op(CmpOp::CmpLt), spec_tokenize(s.skip(1)))
            }
        } else if c == '>' {
            if s.len() >= 2 && s[1] == '=' {
                cons_tok(TokenModel::Op(CmpOp::CmpGe), spec_tokenize(s.skip(2)))
            } else {
                cons_tok(TokenModel::Op(CmpOp::CmpGt), spec_tokenize(s.skip(1)))
            }
        } else if c == '"' {
            let ql = quote_len(s.skip(1));
            if 1 + ql < s.len() {
                cons_tok(TokenModel::StrTok(s.subrange(1, 1 + ql)), spec_tokenize(s.skip(2 + ql)))
            } else {
                None
            }
        } else if c == '$' {
            if s.len() >= 2 && s[1] == ':' {
                let nl = name_len(s.skip(2));
                if nl == 0 {
                    None
                } else {
                    cons_tok(
                        TokenModel::Marker(s.subrange(2, 2 + nl)),
                        spec_tokenize(s.skip(2 + nl)),
                    )
                }
            } else {
                None
            }
        } else if is_digit_char(c) {
            let dl = digit_len(s);
            if dl > 18 {
                None
            } else {
                cons_tok(
                    TokenModel::IntTok(spec_digits_val(s.take(dl))),
                    spec_tokenize(s.skip(dl)),
                )
            }
        } else if c == '-' && s.len() >= 2 && is_digit_char(s[1]) {
            let dl = digit_len(s.skip(1));
            if dl > 18 {
                None
            } else {
                cons_tok(
                    TokenModel::IntTok(-spec_digits_val(s.subrange(1, 1 + dl))),
                    spec_tokenize(s.skip(1 + dl)),
                )
            }
        } else if is_name_start_char(c) {
            let nl = name_len(s);
            let w = s.take(nl);
            if w == spec_bool_chars(true) {
                cons_tok(TokenModel::BoolTok(true), spec_tokenize(s.skip(nl)))
            } else if w == spec_bool_chars(false) {
                cons_tok(TokenModel::BoolTok(false), spec_tokenize(s.skip(nl)))
            } else {
                cons_tok(TokenModel::Ident(w), spec_tokenize(s.skip(nl)))
            }
        } else {
            None
        }
    }
}

#[via_fn]
proof fn spec_tokenize_dec(s: Seq<char>) {
    if s.len() > 0 {
        let c = s[0];
        if c == '"' {
            lemma_quote_len_bound(s.skip(1));
        } else if c == '$' && s.len() >= 2 && s[1] == ':' {
            lemma_name_len_bound(s.skip(2));
        } else if is_digit_char(c) {
            lemma_digit_len_bound(s);
            lemma_digit_len_bound(s.skip(1));
            assert(digit_len(s) >= 1);
        } else if c == '-' && s.len() >= 2 && is_digit_char(s[1]) {
            lemma_digit_len_bound(s.skip(1));
        } else if is_name_start_char(c) {
            lemma_name_len_bound(s);
            lemma_name_len_bound(s.skip(1));
            assert(name_len(s) >= 1);
        }
    }
}

/// Combined accumulator form used by the tokenizer loop.
pub open spec fn toks_then(pre: Seq<TokenModel>, rest: Option<Seq<TokenModel>>) -> Option<
    Seq<TokenModel>,
> {
    match rest {
        Some(r) => Some(pre + r),
        None => None,
    }
}

/// Splits `v` into tokens; agrees exactly with `spec_tokenize`.
pub fn tokenize(v: &Vec<char>) -> (r: Result<Vec<Token>, String>)
    ensures
        match r {
            Ok(toks) => spec_tokenize(v@) == Some(toks.deep_view()),
            Err(_) => spec_tokenize(v@) is None,
        },
{
    let n = v.len();
    let mut acc: Vec<Token> = Vec::new();
    let mut i: usize = 0;
    proof {
        assert(v@.skip(0) =~= v@);
        assert(acc.deep_view() =~~= Seq::<TokenModel>::empty());
    }
    while i < n
        invariant
            i <= n,
            n == v@.len(),
            spec_tokenize(v@) == toks_then(acc.deep_view(), spec_tokenize(v@.skip(i as int))),
        decreases n - i,
    {
        let ghost pre = acc.deep_view();
        let ghost s = v@.skip(i as int);
        proof {
            assert(s[0] == v@[i as int]);
            assert(s.len() == n - i);
            if i + 1 <= n {
                assert(s.skip(1) =~= v@.skip(i + 1));
            }
            if i + 2 <= n {
                assert(s.skip(2) =~= v@.skip(i + 2));
            }
        }
        let c = v[i];
        let step: usize;
        if is_space_exec(c) {
            i = i + 1;
            continue ;
        } else if c == '(' {
            acc.push(Token::LParen);
            step = 1;
        } else if c == ')' {
            acc.push(Token::RParen);
            step = 1;
        } else if c == '&' {
            if i + 1 < n && v[i + 1] == '&' {
                proof {
                    assert(s[1] == v@[i + 1]);
                }
                acc.push(Token::AndAnd);
                step = 2;
            } else {
                return Err(stray_symbol_msg());
            }
        } else if c == '|' {
            if i + 1 < n && v[i + 1] == '|' {
                proof {
                    assert(s[1] == v@[i + 1]);
                }
                acc.push(Token::OrOr);
                step = 2;
            } else {
                return Err(stray_symbol_msg());
            }
        } else if c == '!' {
            if i + 1 < n && v[i + 1] == '=' {
                proof {
                    assert(s[1] == v@[i + 1]);
                }
                acc.push(Token::Op(CmpOp::CmpNe));
                step = 2;
            } else {
                proof {
                    if i + 1 < n {
                        assert(s[1] == v@[i + 1]);
                    }
                }
                acc.push(Token::Bang);
                step = 1;
            }
        } else if c == '=' {
            if i + 1 < n && v[i + 1] == '=' {
                proof {
                    assert(s[1] == v@[i + 1]);
                }
                acc.push(Token::Op(CmpOp::CmpEq));
                step = 2;
            } else {
                return Err(stray_symbol_msg());
            }
        } else if c == '<' {
            if i + 1 < n && v[i + 1] == '=' {
                proof {
                    assert(s[1] == v@[i + 1]);
                }
                acc.push(Token::Op(CmpOp::CmpLe));
                step = 2;
            } else {
                proof {
                    if i + 1 < n {
                        assert(s[1] == v@[i + 1]);
                    }
                }
                acc.push(Token::Op(CmpOp::CmpLt));
                step = 1;
            }
        } else if c == '>' {
            if i + 1 < n && v[i + 1] == '=' {
                proof {
                    assert(s[1] == v@[i + 1]);
                }
                acc.push(Token::Op(CmpOp::CmpGe));
                step = 2;
            } else {
                proof {
                    if i + 1 < n {
                        assert(s[1] == v@[i + 1]);
                    }
                }
                acc.push(Token::Op(CmpOp::CmpGt));
                step = 1;
            }
        } else if c == '"' {
            let ql = scan_quote_len(v, i + 1);
            proof {
                assert(v@.skip(i + 1) =~= s.skip(1));
            }
            if i + 1 + ql < n {
                let w = subrange_vec(v, i + 1, i + 1 + ql);
                proof {
                    assert(w@ =~= s.subrange(1, 1 + ql));
                }
                let tok_str = chars_to_string(&w);
                acc.push(Token::StrTok(tok_str));
                step = 2 + ql;
            } else {
                return Err(unterminated_msg());
            }
        } else if c == '$' {
            if i + 1 < n && v[i + 1] == ':' {
                proof {
                    assert(s[1] == v@[i + 1]);
                }
                let nl = scan_name_len(v, i + 2);
                proof {
                    assert(v@.skip(i + 2) =~= s.skip(2));
                }
                if nl == 0 {
                    return Err(stray_symbol_msg());
                } else {
                    let w = subrange_vec(v, i + 2, i + 2 + nl);
                    proof {
                        assert(w@ =~= s.subrange(2, 2 + nl));
                    }
                    let name = chars_to_string(&w);
                    acc.push(Token::Marker(name));
                    step = 2 + nl;
                }
            } else {
                proof {
                    if i + 1 < n {
                        assert(s[1] == v@[i + 1]);
                    }
                }
                return Err(stray_symbol_msg());
            }
        } else if is_digit_exec(c) {
            let dl = scan_digit_len(v, i);
            proof {
                assert(v@.skip(i as int) =~= s);
                assert(is_digit_char(s[0]));
                lemma_digit_len_bound(s.skip(1));
                assert(dl >= 1);
            }
            if dl > 18 {
                return Err(literal_too_large_msg());
            }
            proof {
                lemma_digit_len_bound(s);
                assert forall|j: int| 0 <= j < dl implies is_digit_char(#[trigger] v@[i + j]) by {
                    assert(s[j] == v@[i + j]);
                    assert(is_digit_char(s[j]));
                }
            }
            let val = digits_to_u64(v, i, dl);
            proof {
                assert(v@.subrange(i as int, i + dl) =~= s.take(dl as int));
            }
            acc.push(Token::IntTok(val as i64));
            step = dl;
        } else if c == '-' && i + 1 < n && is_digit_exec(v[i + 1]) {
            proof {
                assert(s[1] == v@[i + 1]);
            }
            let dl = scan_digit_len(v, i + 1);
            proof {
                assert(v@.skip(i + 1) =~= s.skip(1));
                lemma_digit_len_bound(s.skip(1));
            }
            if dl > 18 {
                return Err(literal_too_large_msg());
            }
            proof {
                assert forall|j: int| 0 <= j < dl implies is_digit_char(
                    #[trigger] v@[i + 1 + j],
                ) by {
                    assert(s.skip(1)[j] == v@[i + 1 + j]);
                    assert(is_digit_char(s.skip(1)[j]));
                }
            }
            let val = digits_to_u64(v, i + 1, dl);
            proof {
                assert(v@.subrange(i + 1, i + 1 + dl) =~= s.subrange(1, 1 + dl));
                assert(s.skip(1).take(dl as int) =~= s.subrange(1, 1 + dl));
            }
            acc.push(Token::IntTok(-(val as i64)));
            step = 1 + dl;
        } else if is_name_start_exec(c) {
            let nl = scan_name_len(v, i);
            proof {
                assert(v@.skip(i as int) =~= s);
                assert(is_name_char(s[0]));
                lemma_name_len_bound(s.skip(1));
                assert(nl >= 1);
            }
            let w = subrange_vec(v, i, i + nl);
            proof {
                assert(w@ =~= s.take(nl as int));
            }
            let is_true_kw = w.len() == 4 && w[0] == 't' && w[1] == 'r' && w[2] == 'u' && w[3]
                == 'e';
            let is_false_kw = w.len() == 5 && w[0] == 'f' && w[1] == 'a' && w[2] == 'l' && w[3]
                == 's' && w[4] == 'e';
            proof {
                assert(is_true_kw == (w@ =~= spec_bool_chars(true)));
                assert(is_false_kw == (w@ =~= spec_bool_chars(false)));
            }
            if is_true_kw {
                acc.push(Token::BoolTok(true));
            } else if is_false_kw {
                acc.push(Token::BoolTok(false));
            } else {
                let name = chars_to_string(&w);
                acc.push(Token::Ident(name));
            }
            step = nl;
        } else {
            return Err(stray_symbol_msg());
        }
        proof {
            assert(v@.skip(i + step) =~= s.skip(step as int));
            assert(acc.deep_view() =~~= pre.push(acc@.last().deep_view()));
            assert forall|rest: Seq<TokenModel>, t: TokenModel|
                toks_then(pre, cons_tok(t, Some(rest))) == toks_then(
                    pre.push(t),
                    Some(rest),
                ) by {
                assert(pre + (seq![t] + rest) =~= pre.push(t) + rest);
            }
        }
        i = i + step;
    }
    proof {
        assert(v@.skip(n as int).len() == 0);
        assert(spec_tokenize(v@.skip(n as int)) == Some(Seq::<TokenModel>::empty()));
        assert(acc.deep_view() + Seq::<TokenModel>::empty() =~= acc.deep_view());
    }
    Ok(acc)
}

// ---------------------------------------------------------------------------
// The abstract syntax of conditions
// ---------------------------------------------------------------------------

/// A parsed boolean condition over state variables.
#[derive(Debug)]
pub enum CondExpr {
    /// A comparison between a variable's current value and a literal.
    Cmp(String, CmpOp, SystemStateVar),
    /// `$:name`: true exactly when `name` changed this tick.
    Marker(String),
    Not(Box<CondExpr>),
    And(Box<CondExpr>, Box<CondExpr>),
    Or(Box<CondExpr>, Box<CondExpr>),
}

/// Mathematical model of a `CondExpr`.
pub enum ExprModel {
    Cmp(Seq<char>, CmpOp, AbstractValue),
    Marker(Seq<char>),
    Not(Box<ExprModel>),
    And(Box<ExprModel>, Box<ExprModel>),
    Or(Box<ExprModel>, Box<ExprModel>),
}

/// The model of a condition, recursively over its structure.
pub open spec fn expr_model(e: CondExpr) -> ExprModel
    decreases e,
{
    match e {
        CondExpr::Cmp(var, op, lit) => ExprModel::Cmp(var@, op, lit@),
        CondExpr::Marker(nm) => ExprModel::Marker(nm@),
        CondExpr::Not(e1) => ExprModel::Not(Box::new(expr_model(*e1))),
        CondExpr::And(a, b) => ExprModel::And(
            Box::new(expr_model(*a)),
            Box::new(expr_model(*b)),
        ),
        CondExpr::Or(a, b) => ExprModel::Or(Box::new(expr_model(*a)), Box::new(expr_model(*b))),
    }
}

impl View for CondExpr {
    type V = ExprModel;

    open spec fn view(&self) -> ExprModel {
        expr_model(*self)
    }
}

// ---------------------------------------------------------------------------
// The parser
// ---------------------------------------------------------------------------

/// The value a literal token stands for, if the token is a literal.
pub open spec fn lit_of_token(t: TokenModel) -> Option<AbstractValue> {
    match t {
        TokenModel::StrTok(s) => Some(AbstractValue::Str(s)),
        TokenModel::IntTok(i) => Some(AbstractValue::Int(i)),
        TokenModel::BoolTok(b) => Some(AbstractValue::Bool(b)),
        _ => None,
    }
}

/// Fuel that always suffices for a token sequence of length `n`:
/// the recursive descent burns at most four steps per token plus a constant.
pub open spec fn parse_fuel(n: int) -> nat {
    (4 * n + 8) as nat
}

/// `expr := conjunct ('||' expr)?`
pub open spec fn spec_parse_or(toks: Seq<TokenModel>, pos: int, fuel: nat) -> Option<
    (ExprModel, int),
>
    decreases fuel,
{
    if fuel == 0 {
        None
    } else {
        match spec_parse_and(toks, pos, (fuel - 1) as nat) {
            None => None,
            Some((e1, p1)) => {
                if p1 < toks.len() && toks[p1] is OrOr {
                    match spec_parse_or(toks, p1 + 1, (fuel - 1) as nat) {
                        None => None,
                        Some((e2, p2)) => Some(
                            (ExprModel::Or(Box::new(e1), Box::new(e2)), p2),
                        ),
                    }
                } else {
                    Some((e1, p1))
                }
            },
        }
    }
}

/// `conjunct := negation ('&&' conjunct)?`
pub open spec fn spec_parse_and(toks: Seq<TokenModel>, pos: int, fuel: nat) -> Option<
    (ExprModel, int),
>
    decreases fuel,
{
    if fuel == 0 {
        None
    } else {
        match spec_parse_unary(toks, pos, (fuel - 1) as nat) {
            None => None,
            Some((e1, p1)) => {
                if p1 < toks.len() && toks[p1] is AndAnd {
                    match spec_parse_and(toks, p1 + 1, (fuel - 1) as nat) {
                        None => None,
                        Some((e2, p2)) => Some(
                            (ExprModel::And(Box::new(e1), Box::new(e2)), p2),
                        ),
                    }
                } else {
                    Some((e1, p1))
                }
            },
        }
    }
}

/// `negation := '!' negation | primary`
pub open spec fn spec_parse_unary(toks: Seq<TokenModel>, pos: int, fuel: nat) -> Option<
    (ExprModel, int),
>
    decreases fuel,
{
    if fuel == 0 {
        None
    } else if pos < toks.len() && toks[pos] is Bang {
        match spec_parse_unary(toks, pos + 1, (fuel - 1) as nat) {
            None => None,
            Some((e, p)) => Some((ExprModel::Not(Box::new(e)), p)),
        }
    } else {
        spec_parse_primary(toks, pos, (fuel - 1) as nat)
    }
}

/// `primary := '(' expr ')' | '$:'name | name cmp-op literal`
pub open spec fn spec_parse_primary(toks: Seq<TokenModel>, pos: int, fuel: nat) -> Option<
    (ExprModel, int),
>
    decreases fuel,
{
    if fuel == 0 {
        None
    } else if pos >= toks.len() {
        None
    } else {
        match toks[pos] {
            TokenModel::LParen => match spec_parse_or(toks, pos + 1, (fuel - 1) as nat) {
                None => None,
                Some((e, p)) => if p < toks.len() && toks[p] is RParen {
                    Some((e, p + 1))
                } else {
                    None
                },
            },
            TokenModel::Marker(nm) => Some((ExprModel::Marker(nm), pos + 1)),
            TokenModel::Ident(vn) => if pos + 2 < toks.len() {
                match (toks[pos + 1], lit_of_token(toks[pos + 2])) {
                    (TokenModel::Op(op), Some(lv)) => Some(
                        (ExprModel::Cmp(vn, op, lv), pos + 3),
                    ),
                    _ => None,
                }
            } else {
                None
            },
            _ => None,
        }
    }
}

/// The condition denoted by a whole token sequence: the parse must consume
/// every token.
pub open spec fn spec_parse_expr(toks: Seq<TokenModel>) -> Option<ExprModel> {
    match spec_parse_or(toks, 0, parse_fuel(toks.len() as int)) {
        Some((e, p)) => if p == toks.len() {
            Some(e)
        } else {
            None
        },
        None => None,
    }
}

/// The condition denoted by a character sequence, through tokenizing
/// and parsing; `None` when the text is not a valid condition.
pub open spec fn spec_expr_of(s: Seq<char>) -> Option<ExprModel> {
    match spec_tokenize(s) {
        Some(toks) => spec_parse_expr(toks),
        None => None,
    }
}

fn parse_or(toks: &Vec<Token>, pos: usize, fuel: u128) -> (r: Result<(CondExpr, usize), String>)
    requires
        pos <= toks@.len(),
    ensures
        match r {
            Ok(ep) => spec_parse_or(toks.deep_view(), pos as int, fuel as nat) == Some(
                (ep.0@, ep.1 as int),
            ) && ep.1 <= toks@.len(),
            Err(_) => spec_parse_or(toks.deep_view(), pos as int, fuel as nat) is None,
        },
    decreases fuel,
{
    if fuel == 0 {
        return Err(syntax_error_msg());
    }
    let (e1, p1) = match parse_and(toks, pos, fuel - 1) {
        Ok(ep) => ep,
        Err(m) => {
            return Err(m);
        },
    };
    if p1 < toks.len() && matches!(&toks[p1], Token::OrOr) {
        proof {
            assert(toks.deep_view()[p1 as int] == toks@[p1 as int].deep_view());
        }
        match parse_or(toks, p1 + 1, fuel - 1) {
            Ok((e2, p2)) => Ok((CondExpr::Or(Box::new(e1), Box::new(e2)), p2)),
            Err(m) => Err(m),
        }
    } else {
        proof {
            if p1 < toks@.len() {
                assert(toks.deep_view()[p1 as int] == toks@[p1 as int].deep_view());
            }
        }
        Ok((e1, p1))
    }
}

fn parse_and(toks: &Vec<Token>, pos: usize, fuel: u128) -> (r: Result<(CondExpr, usize), String>)
    requires
        pos <= toks@.len(),
    ensures
        match r {
            Ok(ep) => spec_parse_and(toks.deep_view(), pos as int, fuel as nat) == Some(
                (ep.0@, ep.1 as int),
            ) && ep.1 <= toks@.len(),
            Err(_) => spec_parse_and(toks.deep_view(), pos as int, fuel as nat) is None,
        },
    decreases fuel,
{
    if fuel == 0 {
        return Err(syntax_error_msg());
    }
    let (e1, p1) = match parse_unary(toks, pos, fuel - 1) {
        Ok(ep) => ep,
        Err(m) => {
            return Err(m);
        },
    };
    if p1 < toks.len() && matches!(&toks[p1], Token::AndAnd) {
        proof {
            assert(toks.deep_view()[p1 as int] == toks@[p1 as int].deep_view());
        }
        match parse_and(toks, p1 + 1, fuel - 1) {
            Ok((e2, p2)) => Ok((CondExpr::And(Box::new(e1), Box::new(e2)), p2)),
            Err(m) => Err(m),
        }
    } else {
        proof {
            if p1 < toks@.len() {
                assert(toks.deep_view()[p1 as int] == toks@[p1 as int].deep_view());
            }
        }
        Ok((e1, p1))
    }
}

fn parse_unary(toks: &Vec<Token>, pos: usize, fuel: u128) -> (r: Result<(CondExpr, usize), String>)
    requires
        pos <= toks@.len(),
    ensures
        match r {
            Ok(ep) => spec_parse_unary(toks.deep_view(), pos as int, fuel as nat) == Some(
                (ep.0@, ep.1 as int),
            ) && ep.1 <= toks@.len(),
            Err(_) => spec_parse_unary(toks.deep_view(), pos as int, fuel as nat) is None,
        },
    decreases fuel,
{
    if fuel == 0 {
        return Err(syntax_error_msg());
    }
    if pos < toks.len() && matches!(&toks[pos], Token::Bang) {
        proof {
            assert(toks.deep_view()[pos as int] == toks@[pos as int].deep_view());
        }
        match parse_unary(toks, pos + 1, fuel - 1) {
            Ok((e, p)) => Ok((CondExpr::Not(Box::new(e)), p)),
            Err(m) => Err(m),
        }
    } else {
        proof {
            if pos < toks@.len() {
                assert(toks.deep_view()[pos as int] == toks@[pos as int].deep_view());
            }
        }
        parse_primary(toks, pos, fuel - 1)
    }
}

fn parse_primary(toks: &Vec<Token>, pos: usize, fuel: u128) -> (r: Result<
    (CondExpr, usize),
    String,
>)
    requires
        pos <= toks@.len(),
    ensures
        match r {
            Ok(ep) => spec_parse_primary(toks.deep_view(), pos as int, fuel as nat) == Some(
                (ep.0@, ep.1 as int),
            ) && ep.1 <= toks@.len(),
            Err(_) => spec_parse_primary(toks.deep_view(), pos as int, fuel as nat) is None,
        },
    decreases fuel,
{
    if fuel == 0 {
        return Err(syntax_error_msg());
    }
    if pos >= toks.len() {
        return Err(syntax_error_msg());
    }
    proof {
        assert(toks.deep_view()[pos as int] == toks@[pos as int].deep_view());
    }
    match &toks[pos] {
        Token::LParen => {
            match parse_or(toks, pos + 1, fuel - 1) {
                Ok((e, p)) => {
                    if p < toks.len() && matches!(&toks[p], Token::RParen) {
                        proof {
                            assert(toks.deep_view()[p as int] == toks@[p as int].deep_view());
                        }
                        Ok((e, p + 1))
                    } else {
                        proof {
                            if p < toks@.len() {
                                assert(toks.deep_view()[p as int]
                                    == toks@[p as int].deep_view());
                            }
                        }
                        Err(syntax_error_msg())
                    }
                },
                Err(m) => Err(m),
            }
        },
        Token::Marker(nm) => Ok((CondExpr::Marker(nm.clone()), pos + 1)),
        Token::Ident(vn) => {
            if toks.len() - pos > 2 {
                proof {
                    assert(toks.deep_view()[pos + 1] == toks@[pos + 1].deep_view());
                    assert(toks.deep_view()[pos + 2] == toks@[pos + 2].deep_view());
                }
                let op: CmpOp = match &toks[pos + 1] {
                    Token::Op(o) => *o,
                    _ => {
                        return Err(syntax_error_msg());
                    },
                };
                let lit: SystemStateVar = match &toks[pos + 2] {
                    Token::StrTok(s) => SystemStateVar::Str(s.clone()),
                    Token::IntTok(i) => SystemStateVar::Int(*i),
                    Token::BoolTok(b) => SystemStateVar::Bool(*b),
                    _ => {
                        return Err(syntax_error_msg());
                    },
                };
                Ok((CondExpr::Cmp(vn.clone(), op, lit), pos + 3))
            } else {
                Err(syntax_error_msg())
            }
        },
        _ => Err(syntax_error_msg()),
    }
}

/// Parses a whole token sequence as one condition; agrees exactly with
/// `spec_parse_expr`.
pub fn parse_expr(toks: &Vec<Token>) -> (r: Result<CondExpr, String>)
    ensures
        match r {
            Ok(e) => spec_parse_expr(toks.deep_view()) == Some(e@),
            Err(_) => spec_parse_expr(toks.deep_view()) is None,
        },
{
    let n = toks.len();
    let fuel: u128 = 4 * (n as u128) + 8;
    proof {
        assert(toks.deep_view().len() == toks@.len());
    }
    match parse_or(toks, 0, fuel) {
        Ok((e, p)) => {
            if p == n {
                Ok(e)
            } else {
                Err(syntax_error_msg())
            }
        },
        Err(m) => Err(m),
    }
}

// ---------------------------------------------------------------------------
// Evaluation
// ---------------------------------------------------------------------------

/// The truth value of one comparison. Values of different variants
/// compare as false under every operator.
pub open spec fn spec_compare(op: CmpOp, a: AbstractValue, b: AbstractValue) -> bool {
    match op {
        CmpOp::CmpEq => same_value(a, b),
        CmpOp::CmpNe => same_variant(a, b) && !same_value(a, b),
        CmpOp::CmpLt => value_lt(a, b),
        CmpOp::CmpLe => value_lt(a, b) || same_value(a, b),
        CmpOp::CmpGt => value_lt(b, a),
        CmpOp::CmpGe => value_lt(b, a) || same_value(a, b),
    }
}

/// The truth value of a condition against the full current state and
/// the keys changed this tick: `None` when a referenced variable is
/// unknown. A change marker `$:name` is true exactly when `name` is
/// among the changed keys.
pub open spec fn spec_eval(
    e: ExprModel,
    st: Map<Seq<char>, AbstractValue>,
    changed: Seq<Seq<char>>,
) -> Option<bool>
    decreases e,
{
    match e {
        ExprModel::Cmp(var, op, lit) => if st.dom().contains(var) {
            Some(spec_compare(op, st[var], lit))
        } else {
            None
        },
        ExprModel::Marker(nm) => Some(changed.contains(nm)),
        ExprModel::Not(e1) => match spec_eval(*e1, st, changed) {
            Some(b) => Some(!b),
            None => None,
        },
        ExprModel::And(a, b) => match (spec_eval(*a, st, changed), spec_eval(*b, st, changed)) {
            (Some(x), Some(y)) => Some(x && y),
            _ => None,
        },
        ExprModel::Or(a, b) => match (spec_eval(*a, st, changed), spec_eval(*b, st, changed)) {
            (Some(x), Some(y)) => Some(x || y),
            _ => None,
        },
    }
}

/// Decides `spec_compare`.
pub fn compare_values(op: CmpOp, a: &SystemStateVar, b: &SystemStateVar) -> (r: bool)
    ensures
        r == spec_compare(op, a@, b@),
{
    match op {
        CmpOp::CmpEq => a.value_eq(b),
        CmpOp::CmpNe => same_variant_exec(a, b) && !a.value_eq(b),
        CmpOp::CmpLt => a.value_lt_exec(b),
        CmpOp::CmpLe => a.value_lt_exec(b) || a.value_eq(b),
        CmpOp::CmpGt => b.value_lt_exec(a),
        CmpOp::CmpGe => b.value_lt_exec(a) || a.value_eq(b),
    }
}

/// Decides `same_variant` on the models.
pub fn same_variant_exec(a: &SystemStateVar, b: &SystemStateVar) -> (r: bool)
    ensures
        r == same_variant(a@, b@),
{
    match (a, b) {
        (SystemStateVar::Str(_), SystemStateVar::Str(_)) => true,
        (SystemStateVar::Bool(_), SystemStateVar::Bool(_)) => true,
        (SystemStateVar::Int(_), SystemStateVar::Int(_)) => true,
        _ => false,
    }
}

/// Decides membership of a string among a vector of strings, by view.
pub fn vec_contains_string(ks: &Vec<String>, x: &String) -> (r: bool)
    ensures
        r == ks.deep_view().contains(x@),
{
    let n = ks.len();
    let mut i: usize = 0;
    while i < n
        invariant
            i <= n,
            n == ks@.len(),
            forall|j: int| 0 <= j < i ==> ks.deep_view()[j] != x@,
        decreases n - i,
    {
        if String::eq(&ks[i], x) {
            proof {
                assert(ks.deep_view()[i as int] == x@);
            }
            return true;
        }
        proof {
            assert(ks.deep_view()[i as int] == ks@[i as int]@);
        }
        i = i + 1;
    }
    proof {
        assert(forall|j: int| 0 <= j < ks.deep_view().len() ==> ks.deep_view()[j] != x@);
    }
    false
}

/// Evaluates a condition; agrees exactly with `spec_eval` over the
/// store's map and the changed-key views.
pub fn eval_expr(e: &CondExpr, state: &StateStore, changed: &Vec<String>) -> (r: Result<
    bool,
    String,
>)
    requires
        state.wf(),
    ensures
        match r {
            Ok(b) => spec_eval(e@, state@, changed.deep_view()) == Some(b),
            Err(_) => spec_eval(e@, state@, changed.deep_view()) is None,
        },
    decreases *e,
{
    match e {
        CondExpr::Cmp(var, op, lit) => {
            match state.get(var) {
                Some(v) => Ok(compare_values(*op, v, lit)),
                None => Err(unknown_variable_msg()),
            }
        },
        CondExpr::Marker(nm) => Ok(vec_contains_string(changed, nm)),
        CondExpr::Not(e1) => {
            match eval_expr(e1, state, changed) {
                Ok(b) => Ok(!b),
                Err(m) => Err(m),
            }
        },
        CondExpr::And(a, b) => {
            let ra = eval_expr(a, state, changed);
            let rb = eval_expr(b, state, changed);
            match (ra, rb) {
                (Ok(x), Ok(y)) => Ok(x && y),
                (Err(m), _) => Err(m),
                (_, Err(m)) => Err(m),
            }
        },
        CondExpr::Or(a, b) => {
            let ra = eval_expr(a, state, changed);
            let rb = eval_expr(b, state, changed);
            match (ra, rb) {
                (Ok(x), Ok(y)) => Ok(x || y),
                (Err(m), _) => Err(m),
                (_, Err(m)) => Err(m),
            }
        },
    }
}

fn unknown_variable_msg() -> String {
    String::from_str("condition: unknown variable")
}

// ---------------------------------------------------------------------------
// Dependent variables
// ---------------------------------------------------------------------------

/// The set of variable names a condition depends on: every name in a
/// comparison or a change marker.
pub open spec fn expr_vars(e: ExprModel) -> Set<Seq<char>>
    decreases e,
{
    match e {
        ExprModel::Cmp(var, _, _) => Set::empty().insert(var),
        ExprModel::Marker(nm) => Set::empty().insert(nm),
        ExprModel::Not(e1) => expr_vars(*e1),
        ExprModel::And(a, b) => expr_vars(*a).union(expr_vars(*b)),
        ExprModel::Or(a, b) => expr_vars(*a).union(expr_vars(*b)),
    }
}

/// Pairwise-distinct string views.
pub open spec fn strs_no_dup(ks: Seq<Seq<char>>) -> bool {
    forall|i: int, j: int| 0 <= i < j < ks.len() ==> ks[i] != ks[j]
}

fn collect_vars(e: &CondExpr, out: &mut Vec<String>)
    requires
        strs_no_dup(old(out).deep_view()),
    ensures
        strs_no_dup(final(out).deep_view()),
        forall|x: Seq<char>| #[trigger] final(out).deep_view().contains(x) <==> (old(
            out,
        ).deep_view().contains(x) || expr_vars(e@).contains(x)),
    decreases *e,
{
    match e {
        CondExpr::Cmp(var, _, _) => {
            push_if_new(out, var);
        },
        CondExpr::Marker(nm) => {
            push_if_new(out, nm);
        },
        CondExpr::Not(e1) => {
            collect_vars(e1, out);
        },
        CondExpr::And(a, b) => {
            collect_vars(a, out);
            collect_vars(b, out);
        },
        CondExpr::Or(a, b) => {
            collect_vars(a, out);
            collect_vars(b, out);
        },
    }
}

fn push_if_new(out: &mut Vec<String>, x: &String)
    requires
        strs_no_dup(old(out).deep_view()),
    ensures
        strs_no_dup(final(out).deep_view()),
        forall|y: Seq<char>| #[trigger] final(out).deep_view().contains(y) <==> (old(
            out,
        ).deep_view().contains(y) || y == x@),
    decreases 0int,
{
    if !vec_contains_string(out, x) {
        let ghost pre = out.deep_view();
        let copy = x.clone();
        out.push(copy);
        proof {
            assert(out.deep_view() =~~= pre.push(x@));
            assert forall|y: Seq<char>| #[trigger] out.deep_view().contains(y) <==> (
            pre.contains(y) || y == x@) by {
                if out.deep_view().contains(y) {
                    let j = choose|j: int|
                        0 <= j < out.deep_view().len() && out.deep_view()[j] == y;
                    if j < pre.len() {
                        assert(pre[j] == y);
                    }
                }
                if pre.contains(y) {
                    let j = choose|j: int| 0 <= j < pre.len() && pre[j] == y;
                    assert(out.deep_view()[j] == y);
                }
                if y == x@ {
                    assert(out.deep_view()[pre.len() as int] == y);
                }
            }
        }
    }
}

/// Collects the distinct variable names a condition depends on.
pub fn vars_of_expr(e: &CondExpr) -> (r: Vec<String>)
    ensures
        strs_no_dup(r.deep_view()),
        forall|x: Seq<char>| #[trigger] r.deep_view().contains(x) <==> expr_vars(e@).contains(
            x,
        ),
{
    let mut out: Vec<String> = Vec::new();
    proof {
        assert(out.deep_view() =~~= Seq::<Seq<char>>::empty());
    }
    collect_vars(e, &mut out);
    out
}

fn syntax_error_msg() -> String {
    String::from_str("condition: syntax error")
}

fn stray_symbol_msg() -> String {
    String::from_str("condition: unexpected symbol")
}

fn unterminated_msg() -> String {
    String::from_str("condition: unterminated string literal")
}

fn literal_too_large_msg() -> String {
    String::from_str("condition: integer literal too large")
}

} // verus!
