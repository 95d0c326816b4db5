use vstd::prelude::*;

use crate::error::CompileError;
use crate::token::{Token, TokenV, Type};

verus! {

/// Whether a character has the Unicode Alphabetic property, as the host
/// classifies it.
pub uninterp spec fn alphabetic(c: char) -> bool;

/// Whether a character has one of the Unicode numeric properties, as the
/// host classifies it.
pub uninterp spec fn numeric(c: char) -> bool;

/// Whether a character has the Unicode White_Space property, as the host
/// classifies it.
pub uninterp spec fn white_space(c: char) -> bool;

/// Relies on char::is_alphabetic: the Unicode Alphabetic property, which
/// among the characters below code point 128 holds of exactly the
/// letters.
#[verifier::external_body]
fn char_is_alphabetic(c: char) -> (r: bool)
    ensures
        r == alphabetic(c),
        (c as u32) < 128 ==> (r <==> (('a' as u32) <= (c as u32) <= ('z' as u32) || ('A' as u32)
            <= (c as u32) <= ('Z' as u32))),
{
    c.is_alphabetic()
}

/// Relies on char::is_numeric: the Unicode numeric character properties,
/// which among the characters below code point 128 hold of exactly the
/// decimal digits.
#[verifier::external_body]
fn char_is_numeric(c: char) -> (r: bool)
    ensures
        r == numeric(c),
        (c as u32) < 128 ==> (r <==> ('0' as u32) <= (c as u32) <= ('9' as u32)),
{
    c.is_numeric()
}

/// Relies on char::is_alphanumeric, documented as the disjunction of
/// char::is_alphabetic and char::is_numeric.
#[verifier::external_body]
fn char_is_alphanumeric(c: char) -> (r: bool)
    ensures
        r == (alphabetic(c) || numeric(c)),
{
    c.is_alphanumeric()
}

/// Relies on char::is_whitespace: the Unicode White_Space property, which
/// among the characters below code point 128 holds of exactly the space,
/// the tab, and the line, vertical-tab, form-feed and carriage-return
/// controls.
#[verifier::external_body]
fn char_is_whitespace(c: char) -> (r: bool)
    ensures
        r == white_space(c),
        (c as u32) < 128 ==> (r <==> (c == ' ' || c == '\t' || c == '\n' || c == '\r' || c
            == '\u{b}' || c == '\u{c}')),
{
    c.is_whitespace()
}

/// A character that may continue an identifier or a callee name.
pub open spec fn ident_char(c: char) -> bool {
    alphabetic(c) || numeric(c) || c == '_'
}

/// The end of the run of identifier characters starting at `i`.
pub open spec fn run_end(s: Seq<char>, i: int) -> int
    decreases s.len() - i
        when 0 <= i <= s.len()
{
    if i < s.len() && ident_char(s[i]) {
        run_end(s, i + 1)
    } else {
        i
    }
}

pub proof fn lemma_run_end_bounds(s: Seq<char>, i: int)
    requires
        0 <= i <= s.len(),
    ensures
        i <= run_end(s, i) <= s.len(),
    decreases s.len() - i,
{
    if i < s.len() && ident_char(s[i]) {
        lemma_run_end_bounds(s, i + 1);
    }
}

/// The end of the run of numeric characters starting at `i`.
pub open spec fn num_end(s: Seq<char>, i: int) -> int
    decreases s.len() - i
        when 0 <= i <= s.len()
{
    if i < s.len() && numeric(s[i]) {
        num_end(s, i + 1)
    } else {
        i
    }
}

pub proof fn lemma_num_end_bounds(s: Seq<char>, i: int)
    requires
        0 <= i <= s.len(),
    ensures
        i <= num_end(s, i) <= s.len(),
    decreases s.len() - i,
{
    if i < s.len() && numeric(s[i]) {
        lemma_num_end_bounds(s, i + 1);
    }
}

/// A decimal digit as source text.
pub open spec fn is_dec_digit(c: char) -> bool {
    ('0' as u32) <= (c as u32) <= ('9' as u32)
}

/// The value of one decimal digit.
pub open spec fn digit_val(c: char) -> nat {
    ((c as u32) - ('0' as u32)) as nat
}

pub open spec fn all_dec_digits(s: Seq<char>) -> bool {
    forall|k: int| 0 <= k < s.len() ==> is_dec_digit(#[trigger] s[k])
}

/// The numeric value of a run of decimal digits read in base ten.
pub open spec fn digits_val(s: Seq<char>) -> nat
    decreases s.len(),
{
    if s.len() == 0 {
        0
    } else {
        digits_val(s.drop_last()) * 10 + digit_val(s.last())
    }
}

/// Reading more digits never decreases the value: a prefix of a run is
/// worth at most the whole run.
pub proof fn lemma_digits_val_prefix(s: Seq<char>, k: int)
    requires
        0 <= k <= s.len(),
    ensures
        digits_val(s.subrange(0, k)) <= digits_val(s),
    decreases s.len(),
{
    if k < s.len() {
        lemma_digits_val_prefix(s.drop_last(), k);
        assert(s.drop_last().subrange(0, k) =~= s.subrange(0, k));
        assert(digits_val(s.drop_last()) * 10 >= digits_val(s.drop_last()));
    } else {
        assert(s.subrange(0, k) =~= s);
    }
}

/// Prefix one token to the outcome of lexing the rest of the source.
pub open spec fn lex_cons(t: TokenV, rest: Result<Seq<TokenV>, CompileError>) -> Result<
    Seq<TokenV>,
    CompileError,
> {
    match rest {
        Ok(ts) => Ok(seq![t] + ts),
        Err(e) => Err(e),
    }
}

/// The tokens of the source text from position `i` on. One character is
/// examined at a time: the single-character symbols map directly to
/// their tokens; `@` collects the following identifier characters as a
/// callee name (possibly empty); a letter or underscore starts an
/// identifier-like run, classified as a keyword or a generic identifier;
/// a numeric character starts a numeric run, which must consist of
/// decimal digits and fit in 32 unsigned bits; whitespace is skipped;
/// anything else is an unsupported character.
pub open spec fn spec_tokenize_from(s: Seq<char>, i: int) -> Result<Seq<TokenV>, CompileError>
    decreases s.len() - i
        when 0 <= i <= s.len()
{
    if i >= s.len() {
        Ok(Seq::empty())
    } else {
        proof {
            lemma_run_end_bounds(s, i + 1);
            lemma_num_end_bounds(s, i + 1);
        }
        let c = s[i];
        if c == '+' {
            lex_cons(TokenV::Add, spec_tokenize_from(s, i + 1))
        } else if c == '-' {
            lex_cons(TokenV::Sub, spec_tokenize_from(s, i + 1))
        } else if c == '*' {
            lex_cons(TokenV::Mul, spec_tokenize_from(s, i + 1))
        } else if c == '/' {
            lex_cons(TokenV::Div, spec_tokenize_from(s, i + 1))
        } else if c == '=' {
            lex_cons(TokenV::Assign, spec_tokenize_from(s, i + 1))
        } else if c == ';' {
            lex_cons(TokenV::Eot, spec_tokenize_from(s, i + 1))
        } else if c == '@' {
            let j = run_end(s, i + 1);
            lex_cons(TokenV::FuncCall(s.subrange(i + 1, j)), spec_tokenize_from(s, j))
        } else if alphabetic(c) || c == '_' {
            let j = run_end(s, i + 1);
            let word = s.subrange(i, j);
            let tok = if word == "function"@ {
                TokenV::Func
            } else if word == "sys"@ {
                TokenV::SysCall
            } else if word == "int"@ {
                TokenV::Type(Type::Int)
            } else {
                TokenV::Ident(word)
            };
            lex_cons(tok, spec_tokenize_from(s, j))
        } else if numeric(c) {
            let j = num_end(s, i + 1);
            let run = s.subrange(i, j);
            if !all_dec_digits(run) {
                Err(CompileError::UnsupportedCharacter)
            } else if digits_val(run) > u32::MAX {
                Err(CompileError::IntegerOverflow)
            } else {
                lex_cons(TokenV::Int(digits_val(run) as u32), spec_tokenize_from(s, j))
            }
        } else if white_space(c) {
            spec_tokenize_from(s, i + 1)
        } else {
            Err(CompileError::UnsupportedCharacter)
        }
    }
}

/// The tokens of a whole source text, or the first lexical error.
pub open spec fn spec_tokenize(s: Seq<char>) -> Result<Seq<TokenV>, CompileError> {
    spec_tokenize_from(s, 0)
}

/// The mathematical image of the lexer's result.
pub open spec fn lex_output(r: Result<Vec<Token>, CompileError>) -> Result<
    Seq<TokenV>,
    CompileError,
> {
    match r {
        Ok(v) => Ok(v.deep_view()),
        Err(e) => Err(e),
    }
}

/// Tokens already produced, followed by the outcome of lexing the rest.
pub open spec fn lex_combine(done: Seq<TokenV>, rest: Result<Seq<TokenV>, CompileError>) -> Result<
    Seq<TokenV>,
    CompileError,
> {
    match rest {
        Ok(ts) => Ok(done + ts),
        Err(e) => Err(e),
    }
}

proof fn lemma_lex_step(done: Seq<TokenV>, t: TokenV, rest: Result<Seq<TokenV>, CompileError>)
    ensures
        lex_combine(done, lex_cons(t, rest)) == lex_combine(done.push(t), rest),
{
    match rest {
        Ok(ts) => {
            assert(done + (seq![t] + ts) =~= done.push(t) + ts);
        },
        Err(_) => {},
    }
}

/// Scan to the end of the run of identifier characters starting at
/// `from`.
fn scan_run(source: &str, from: usize) -> (j: usize)
    requires
        from <= source@.len(),
    ensures
        from <= j <= source@.len(),
        j as int == run_end(source@, from as int),
{
    let n = source.unicode_len();
    let mut j = from;
    while j < n
        invariant
            from <= j <= n,
            n == source@.len(),
            run_end(source@, from as int) == run_end(source@, j as int),
        decreases n - j,
    {
        let c = source.get_char(j);
        if !(char_is_alphanumeric(c) || c == '_') {
            return j;
        }
        j += 1;
    }
    j
}

/// Scan to the end of the run of numeric characters starting at `from`.
fn scan_num(source: &str, from: usize) -> (j: usize)
    requires
        from <= source@.len(),
    ensures
        from <= j <= source@.len(),
        j as int == num_end(source@, from as int),
{
    let n = source.unicode_len();
    let mut j = from;
    while j < n
        invariant
            from <= j <= n,
            n == source@.len(),
            num_end(source@, from as int) == num_end(source@, j as int),
        decreases n - j,
    {
        let c = source.get_char(j);
        if !char_is_numeric(c) {
            return j;
        }
        j += 1;
    }
    j
}

/// Lexical analysis: scan the source text left to right, one pass and no
/// backtracking, producing the token sequence or the first lexical
/// error. The result is exactly `spec_tokenize` of the source.
#[verifier::loop_isolation(false)]
pub fn tokenize(source: &str) -> (r: Result<Vec<Token>, CompileError>)
    ensures
        lex_output(r) == spec_tokenize(source@),
{
    let ghost s = source@;
    let n = source.unicode_len();
    let mut tokens: Vec<Token> = Vec::new();
    let mut i: usize = 0;
    proof {
        assert(tokens.deep_view() =~= Seq::<TokenV>::empty());
        match spec_tokenize_from(s, 0) {
            Ok(ts) => {
                assert(Seq::<TokenV>::empty() + ts =~= ts);
            },
            Err(_) => {},
        }
    }
    while i < n
        invariant
            i <= n,
            n == s.len(),
            s == source@,
            spec_tokenize(s) == lex_combine(tokens.deep_view(), spec_tokenize_from(s, i as int)),
        decreases n - i,
    {
        let ghost done0 = tokens.deep_view();
        proof {
            lemma_run_end_bounds(s, i + 1);
            lemma_num_end_bounds(s, i + 1);
        }
        let c = source.get_char(i);
        if c == '+' {
            tokens.push(Token::Add);
            proof {
                assert(tokens.deep_view() =~= done0.push(TokenV::Add));
                lemma_lex_step(done0, TokenV::Add, spec_tokenize_from(s, i as int + 1));
            }
            i += 1;
        } else if c == '-' {
            tokens.push(Token::Sub);
            proof {
                assert(tokens.deep_view() =~= done0.push(TokenV::Sub));
                lemma_lex_step(done0, TokenV::Sub, spec_tokenize_from(s, i as int + 1));
            }
            i += 1;
        } else if c == '*' {
            tokens.push(Token::Mul);
            proof {
                assert(tokens.deep_view() =~= done0.push(TokenV::Mul));
                lemma_lex_step(done0, TokenV::Mul, spec_tokenize_from(s, i as int + 1));
            }
            i += 1;
        } else if c == '/' {
            tokens.push(Token::Div);
            proof {
                assert(tokens.deep_view() =~= done0.push(TokenV::Div));
                lemma_lex_step(done0, TokenV::Div, spec_tokenize_from(s, i as int + 1));
            }
            i += 1;
        } else if c == '=' {
            tokens.push(Token::Assign);
            proof {
                assert(tokens.deep_view() =~= done0.push(TokenV::Assign));
                lemma_lex_step(done0, TokenV::Assign, spec_tokenize_from(s, i as int + 1));
            }
            i += 1;
        } else if c == ';' {
            tokens.push(Token::Eot);
            proof {
                assert(tokens.deep_view() =~= done0.push(TokenV::Eot));
                lemma_lex_step(done0, TokenV::Eot, spec_tokenize_from(s, i as int + 1));
            }
            i += 1;
        } else if c == '@' {
            let j = scan_run(source, i + 1);
            let name = source.substring_char(i + 1, j).to_owned();
            let ghost tv = TokenV::FuncCall(s.subrange(i as int + 1, j as int));
            tokens.push(Token::FuncCall(name));
            proof {
                assert(tokens.deep_view() =~= done0.push(tv));
                lemma_lex_step(done0, tv, spec_tokenize_from(s, j as int));
            }
            i = j;
        } else if char_is_alphabetic(c) || c == '_' {
            let j = scan_run(source, i + 1);
            let word = source.substring_char(i, j).to_owned();
            let tok: Token = if word.eq(&"function".to_owned()) {
                Token::Func
            } else if word.eq(&"sys".to_owned()) {
                Token::SysCall
            } else if word.eq(&"int".to_owned()) {
                Token::Type(Type::Int)
            } else {
                Token::Ident(word)
            };
            let ghost tv = tok.deep_view();
            tokens.push(tok);
            proof {
                assert(tokens.deep_view() =~= done0.push(tv));
                lemma_lex_step(done0, tv, spec_tokenize_from(s, j as int));
            }
            i = j;
        } else if char_is_numeric(c) {
            let j = scan_num(source, i + 1);
            let ghost run = s.subrange(i as int, j as int);
            // every character of the run must be a decimal digit
            let mut k = i;
            while k < j
                invariant
                    i <= k <= j <= n,
                    n == s.len(),
                    s == source@,
                    forall|t: int| i <= t < k ==> is_dec_digit(#[trigger] s[t]),
                decreases j - k,
            {
                let ck = source.get_char(k);
                let u = ck as u32;
                if !(('0' as u32) <= u && u <= ('9' as u32)) {
                    proof {
                        assert(run[k as int - i as int] == s[k as int]);
                        assert(!is_dec_digit(run[k as int - i as int]));
                        assert(!all_dec_digits(run));
                    }
                    return Err(CompileError::UnsupportedCharacter);
                }
                k += 1;
            }
            proof {
                assert forall|t: int| 0 <= t < run.len() implies is_dec_digit(#[trigger] run[t]) by {
                    assert(run[t] == s[t + i as int]);
                }
            }
            // read the value, aborting as soon as it leaves the 32-bit range
            let mut val: u64 = 0;
            let mut k2 = i;
            proof {
                assert(s.subrange(i as int, i as int) =~= Seq::<char>::empty());
            }
            while k2 < j
                invariant
                    i <= k2 <= j <= n,
                    n == s.len(),
                    s == source@,
                    all_dec_digits(run),
                    run == s.subrange(i as int, j as int),
                    val == digits_val(s.subrange(i as int, k2 as int)),
                    val <= u32::MAX,
                decreases j - k2,
            {
                let ck = source.get_char(k2);
                proof {
                    assert(run[k2 - i as int] == s[k2 as int]);
                    assert(is_dec_digit(s[k2 as int]));
                }
                let d = (ck as u32 - '0' as u32) as u64;
                val = val * 10 + d;
                proof {
                    let pre = s.subrange(i as int, k2 as int);
                    let ext = s.subrange(i as int, k2 as int + 1);
                    assert(ext.drop_last() =~= pre);
                    assert(ext.last() == s[k2 as int]);
                    assert(digits_val(ext) == digits_val(pre) * 10 + digit_val(s[k2 as int]));
                }
                if val > (u32::MAX as u64) {
                    proof {
                        let ext = s.subrange(i as int, k2 as int + 1);
                        assert(ext =~= run.subrange(0, k2 as int - i as int + 1));
                        lemma_digits_val_prefix(run, k2 as int - i as int + 1);
                        assert(digits_val(run) > u32::MAX);
                        assert(spec_tokenize_from(s, i as int) == Err::<
                            Seq<TokenV>,
                            CompileError,
                        >(CompileError::IntegerOverflow));
                    }
                    return Err(CompileError::IntegerOverflow);
                }
                k2 += 1;
            }
            proof {
                assert(s.subrange(i as int, k2 as int) =~= run);
            }
            let ghost tv = TokenV::Int(digits_val(run) as u32);
            tokens.push(Token::Int(val as u32));
            proof {
                assert(tokens.deep_view() =~= done0.push(tv));
                lemma_lex_step(done0, tv, spec_tokenize_from(s, j as int));
            }
            i = j;
        } else if char_is_whitespace(c) {
            i += 1;
        } else {
            return Err(CompileError::UnsupportedCharacter);
        }
    }
    proof {
        match spec_tokenize_from(s, i as int) {
            Ok(ts) => {
                assert(tokens.deep_view() + ts =~= tokens.deep_view());
            },
            Err(_) => {},
        }
    }
    Ok(tokens)
}

} // verus!
