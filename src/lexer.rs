use vstd::prelude::*;

use crate::token::{Function, FormulaError, Lexeme, Operator, Token};

verus! {

/// Whether `c` has Unicode's Alphabetic property.
pub uninterp spec fn alphabetic(c: char) -> bool;

/// Relies on `char::is_alphabetic`: true exactly for characters with the
/// Unicode Alphabetic property.
#[verifier::external_body]
fn is_alphabetic(c: char) -> (r: bool)
    ensures
        r == alphabetic(c),
{
    c.is_alphabetic()
}

pub open spec fn is_digit(c: char) -> bool {
    '0' <= c && c <= '9'
}

pub open spec fn is_space(c: char) -> bool {
    c == ' ' || c == '\t'
}

/// Number of consecutive ASCII digits of `s` from position `i`.
pub open spec fn digit_run(s: Seq<char>, i: int) -> nat
    decreases s.len() - i,
{
    if 0 <= i < s.len() && is_digit(s[i]) {
        1 + digit_run(s, i + 1)
    } else {
        0
    }
}

/// Number of consecutive spaces and tabs of `s` from position `i`.
pub open spec fn space_run(s: Seq<char>, i: int) -> nat
    decreases s.len() - i,
{
    if 0 <= i < s.len() && is_space(s[i]) {
        1 + space_run(s, i + 1)
    } else {
        0
    }
}

/// Length of the mantissa of a number literal at `i`: digits with an optional
/// fraction (`12`, `12.`, `12.5`), or a dot and digits (`.5`); zero if none.
pub open spec fn mantissa_len(s: Seq<char>, i: int) -> nat {
    let d = digit_run(s, i);
    if d > 0 {
        if i + d < s.len() && s[i + d] == '.' {
            d + 1 + digit_run(s, i + d + 1)
        } else {
            d
        }
    } else if 0 <= i < s.len() && s[i] == '.' && digit_run(s, i + 1) > 0 {
        1 + digit_run(s, i + 1)
    } else {
        0
    }
}

/// The number literal at `i`: `Ok(None)` when there is none, its length when
/// there is one, and `ParseError` when an exponent mark (`e` or `E`) after
/// the mantissa is not followed by an optionally signed run of digits.
pub open spec fn number_at(s: Seq<char>, i: int) -> Result<Option<nat>, FormulaError> {
    let m = mantissa_len(s, i);
    if m == 0 {
        Ok(None)
    } else {
        let j = i + m;
        if j < s.len() && (s[j] == 'e' || s[j] == 'E') {
            let k = if j + 1 < s.len() && (s[j + 1] == '+' || s[j + 1] == '-') {
                j + 2
            } else {
                j + 1
            };
            let e = digit_run(s, k);
            if e > 0 {
                Ok(Some((k + e - i) as nat))
            } else {
                Err(FormulaError::ParseError)
            }
        } else {
            Ok(Some(m))
        }
    }
}

pub open spec fn word_at(s: Seq<char>, i: int, w: Seq<char>) -> bool {
    0 <= i && i + w.len() <= s.len() && s.subrange(i, i + w.len()) == w
}

/// The function keyword at `i`, tried in a fixed order, with its length.
pub open spec fn function_at(s: Seq<char>, i: int) -> Option<(Function, nat)> {
    if word_at(s, i, seq!['c', 'o', 's']) {
        Some((Function::Cos, 3))
    } else if word_at(s, i, seq!['s', 'i', 'n']) {
        Some((Function::Sin, 3))
    } else if word_at(s, i, seq!['s', 'q', 'r', 't']) {
        Some((Function::Sqrt, 4))
    } else if word_at(s, i, seq!['l', 'n']) {
        Some((Function::Ln, 2))
    } else if word_at(s, i, seq!['l', 'o', 'g']) {
        Some((Function::Ln, 3))
    } else if word_at(s, i, seq!['t', 'a', 'n']) {
        Some((Function::Tan, 3))
    } else if word_at(s, i, seq!['s', 'e', 'n']) {
        Some((Function::Sin, 3))
    } else if word_at(s, i, seq!['u']) {
        Some((Function::Step, 1))
    } else if word_at(s, i, seq!['e', 'x', 'p']) {
        Some((Function::Exp, 3))
    } else {
        None
    }
}

pub open spec fn operator_of(c: char) -> Option<Operator> {
    if c == '+' {
        Some(Operator::Addition)
    } else if c == '-' {
        Some(Operator::Subtraction)
    } else if c == '*' {
        Some(Operator::Multiplication)
    } else if c == '/' {
        Some(Operator::Division)
    } else if c == '^' {
        Some(Operator::Exponentiation)
    } else {
        None
    }
}

/// The token that starts at position `i` of `s`, with its length, where
/// `letter` says whether `s[i]` is a letter. Tried in this order: function
/// keyword, bracket, operator, letter (a variable), number literal, run of
/// blanks. `Ok(None)` when none of them starts there, or `i` is outside `s`.
pub open spec fn token_with(s: Seq<char>, i: int, letter: bool) -> Result<
    Option<(Lexeme, nat)>,
    FormulaError,
> {
    if i < 0 || i >= s.len() {
        Ok(None)
    } else {
        match function_at(s, i) {
        Some((f, n)) => Ok(Some((Lexeme::Function(f), n))),
        None => {
            let c = s[i];
            if c == '(' {
                Ok(Some((Lexeme::OpeningBracket, 1)))
            } else if c == ')' {
                Ok(Some((Lexeme::ClosingBracket, 1)))
            } else if operator_of(c) is Some {
                Ok(Some((Lexeme::Operator(operator_of(c)->0), 1)))
            } else if letter {
                Ok(Some((Lexeme::Variable(c), 1)))
            } else {
                match number_at(s, i) {
                    Err(e) => Err(e),
                    Ok(Some(n)) => Ok(Some((Lexeme::Value(s.subrange(i, i + n)), n))),
                    Ok(None) => if space_run(s, i) > 0 {
                        Ok(Some((Lexeme::Whitespace, space_run(s, i))))
                    } else {
                        Ok(None)
                    },
                }
            }
        },
        }
    }
}

/// The token that starts at position `i` of `s`, letters being the
/// characters with Unicode's Alphabetic property.
pub open spec fn token_at(s: Seq<char>, i: int) -> Result<Option<(Lexeme, nat)>, FormulaError> {
    token_with(s, i, 0 <= i < s.len() && alphabetic(s[i]))
}

pub proof fn lemma_digit_run_bound(s: Seq<char>, i: int)
    requires
        0 <= i,
    ensures
        i + digit_run(s, i) <= s.len() || digit_run(s, i) == 0,
    decreases s.len() - i,
{
    if 0 <= i < s.len() && is_digit(s[i]) {
        lemma_digit_run_bound(s, i + 1);
    }
}

pub proof fn lemma_space_run_bound(s: Seq<char>, i: int)
    requires
        0 <= i,
    ensures
        i + space_run(s, i) <= s.len() || space_run(s, i) == 0,
    decreases s.len() - i,
{
    if 0 <= i < s.len() && is_space(s[i]) {
        lemma_space_run_bound(s, i + 1);
    }
}

/// A token found at `i` is not empty and lies within `s`.
pub proof fn lemma_token_at_bound(s: Seq<char>, i: int)
    requires
        0 <= i < s.len(),
    ensures
        token_at(s, i) matches Ok(Some((t, n))) ==> 0 < n && i + n <= s.len(),
{
    lemma_token_with_bound(s, i, alphabetic(s[i]));
}

pub proof fn lemma_token_with_bound(s: Seq<char>, i: int, letter: bool)
    requires
        0 <= i < s.len(),
    ensures
        token_with(s, i, letter) matches Ok(Some((t, n))) ==> 0 < n && i + n <= s.len(),
{
    lemma_digit_run_bound(s, i);
    let d = digit_run(s, i);
    lemma_digit_run_bound(s, i + d + 1);
    lemma_digit_run_bound(s, i + 1);
    lemma_space_run_bound(s, i);
    let m = mantissa_len(s, i);
    let j = i + m;
    lemma_digit_run_bound(s, j + 1);
    lemma_digit_run_bound(s, j + 2);
}

/// The tokens of `s` from position `i` on, or the first error met.
pub open spec fn lex_from(s: Seq<char>, i: int) -> Result<Seq<Lexeme>, FormulaError>
    decreases s.len() - i,
{
    if i < 0 || i >= s.len() {
        Ok(seq![])
    } else {
        proof {
            lemma_token_at_bound(s, i);
        }
        match token_at(s, i) {
            Err(e) => Err(e),
            Ok(None) => Err(FormulaError::InvalidCharacter),
            Ok(Some((t, n))) => match lex_from(s, i + n) {
                Ok(rest) => Ok(seq![t] + rest),
                Err(e) => Err(e),
            },
        }
    }
}

/// The tokens of a whole formula.
pub open spec fn lex(s: Seq<char>) -> Result<Seq<Lexeme>, FormulaError> {
    lex_from(s, 0)
}


/// The view of each token.
pub open spec fn lexemes(v: Seq<Token>) -> Seq<Lexeme> {
    v.map_values(|t: Token| t@)
}

/// `p` in front of the tokens of `r`, or the error of `r`.
pub open spec fn prepend<T>(p: Seq<T>, r: Result<Seq<T>, FormulaError>) -> Result<Seq<T>, FormulaError> {
    match r {
        Ok(q) => Ok(p + q),
        Err(e) => Err(e),
    }
}

pub proof fn lemma_prepend_push<T>(p: Seq<T>, x: T, r: Result<Seq<T>, FormulaError>)
    ensures
        prepend(p, prepend(seq![x], r)) == prepend(p.push(x), r),
{
    if let Ok(q) = r {
        assert(p + (seq![x] + q) =~= p.push(x) + q);
    }
}

fn digits_from(s: &Vec<char>, i: usize) -> (r: usize)
    ensures
        r == digit_run(s@, i as int),
{
    let mut j = i;
    while j < s.len() && '0' <= s[j] && s[j] <= '9'
        invariant
            i <= j,
            j == i || j <= s.len(),
            digit_run(s@, i as int) == (j - i) + digit_run(s@, j as int),
        decreases s.len() - j,
    {
        j = j + 1;
    }
    j - i
}

fn spaces_from(s: &Vec<char>, i: usize) -> (r: usize)
    ensures
        r == space_run(s@, i as int),
{
    let mut j = i;
    while j < s.len() && (s[j] == ' ' || s[j] == '\t')
        invariant
            i <= j,
            j == i || j <= s.len(),
            space_run(s@, i as int) == (j - i) + space_run(s@, j as int),
        decreases s.len() - j,
    {
        j = j + 1;
    }
    j - i
}

fn has_word(s: &Vec<char>, i: usize, w: &[char]) -> (r: bool)
    ensures
        r == word_at(s@, i as int, w@),
{
    if i > s.len() || w.len() > s.len() - i {
        return false;
    }
    let mut k: usize = 0;
    while k < w.len()
        invariant
            k <= w.len(),
            i + w.len() <= s.len(),
            forall|m: int| 0 <= m < k ==> s@[i + m] == w@[m],
        decreases w.len() - k,
    {
        if s[i + k] != w[k] {
            assert(s@.subrange(i as int, i + w.len())[k as int] != w@[k as int]);
            return false;
        }
        k = k + 1;
    }
    assert(s@.subrange(i as int, i + w.len()) =~= w@);
    true
}

fn function_from(s: &Vec<char>, i: usize) -> (r: Option<(Function, usize)>)
    ensures
        match function_at(s@, i as int) {
            Some((f, n)) => r == Some((f, n as usize)),
            None => r is None,
        },
{
    let cos = ['c', 'o', 's'];
    let sin = ['s', 'i', 'n'];
    let sqrt = ['s', 'q', 'r', 't'];
    let ln = ['l', 'n'];
    let log = ['l', 'o', 'g'];
    let tan = ['t', 'a', 'n'];
    let sen = ['s', 'e', 'n'];
    let u = ['u'];
    let exp = ['e', 'x', 'p'];
    assert(cos@ == seq!['c', 'o', 's']);
    assert(sin@ == seq!['s', 'i', 'n']);
    assert(sqrt@ == seq!['s', 'q', 'r', 't']);
    assert(ln@ == seq!['l', 'n']);
    assert(log@ == seq!['l', 'o', 'g']);
    assert(tan@ == seq!['t', 'a', 'n']);
    assert(sen@ == seq!['s', 'e', 'n']);
    assert(u@ == seq!['u']);
    assert(exp@ == seq!['e', 'x', 'p']);
    if has_word(s, i, &cos) {
        Some((Function::Cos, 3))
    } else if has_word(s, i, &sin) {
        Some((Function::Sin, 3))
    } else if has_word(s, i, &sqrt) {
        Some((Function::Sqrt, 4))
    } else if has_word(s, i, &ln) {
        Some((Function::Ln, 2))
    } else if has_word(s, i, &log) {
        Some((Function::Ln, 3))
    } else if has_word(s, i, &tan) {
        Some((Function::Tan, 3))
    } else if has_word(s, i, &sen) {
        Some((Function::Sin, 3))
    } else if has_word(s, i, &u) {
        Some((Function::Step, 1))
    } else if has_word(s, i, &exp) {
        Some((Function::Exp, 3))
    } else {
        None
    }
}

fn number_from(s: &Vec<char>, i: usize) -> (r: Result<Option<usize>, FormulaError>)
    requires
        i < s.len(),
    ensures
        match number_at(s@, i as int) {
            Ok(Some(n)) => r == Ok::<Option<usize>, FormulaError>(Some(n as usize)) && i + n <= s.len(),
            Ok(None) => r == Ok::<Option<usize>, FormulaError>(None),
            Err(e) => r == Err::<Option<usize>, FormulaError>(e),
        },
{
    proof {
        lemma_digit_run_bound(s@, i as int);
        lemma_digit_run_bound(s@, i + 1);
    }
    let d = digits_from(s, i);
    let m: usize = if d > 0 {
        if i + d < s.len() && s[i + d] == '.' {
            proof {
                lemma_digit_run_bound(s@, i + d + 1);
            }
            d + 1 + digits_from(s, i + d + 1)
        } else {
            d
        }
    } else if s[i] == '.' {
        let f = digits_from(s, i + 1);
        if f > 0 {
            1 + f
        } else {
            0
        }
    } else {
        0
    };
    assert(m == mantissa_len(s@, i as int));
    if m == 0 {
        return Ok(None);
    }
    let j = i + m;
    if j < s.len() && (s[j] == 'e' || s[j] == 'E') {
        let k = if j + 1 < s.len() && (s[j + 1] == '+' || s[j + 1] == '-') {
            j + 2
        } else {
            j + 1
        };
        proof {
            lemma_digit_run_bound(s@, k as int);
        }
        let e = digits_from(s, k);
        if e > 0 {
            Ok(Some(k + e - i))
        } else {
            Err(FormulaError::ParseError)
        }
    } else {
        Ok(Some(m))
    }
}

fn text_between(s: &Vec<char>, lo: usize, hi: usize) -> (r: Vec<char>)
    requires
        lo <= hi <= s.len(),
    ensures
        r@ == s@.subrange(lo as int, hi as int),
{
    let mut text: Vec<char> = Vec::new();
    let mut k = lo;
    while k < hi
        invariant
            lo <= k <= hi <= s.len(),
            text@ == s@.subrange(lo as int, k as int),
        decreases hi - k,
    {
        text.push(s[k]);
        k = k + 1;
        assert(text@ =~= s@.subrange(lo as int, k as int));
    }
    text
}

fn operator_from(c: char) -> (r: Option<Operator>)
    ensures
        r == operator_of(c),
{
    if c == '+' {
        Some(Operator::Addition)
    } else if c == '-' {
        Some(Operator::Subtraction)
    } else if c == '*' {
        Some(Operator::Multiplication)
    } else if c == '/' {
        Some(Operator::Division)
    } else if c == '^' {
        Some(Operator::Exponentiation)
    } else {
        None
    }
}

/// `r` is the token and length of `spec`, or its error.
pub open spec fn scanned_as(
    r: Result<Option<(Token, usize)>, FormulaError>,
    spec: Result<Option<(Lexeme, nat)>, FormulaError>,
) -> bool {
    match spec {
        Err(e) => r matches Err(e2) && e2 == e,
        Ok(None) => r matches Ok(None),
        Ok(Some((t, n))) => r matches Ok(Some((tok, m))) && tok@ == t && m == n,
    }
}

/// Reads the token that starts at position `i`.
fn token_from(s: &Vec<char>, i: usize) -> (r: Result<Option<(Token, usize)>, FormulaError>)
    requires
        i < s.len(),
    ensures
        scanned_as(r, token_at(s@, i as int)),
{
    let letter = is_alphabetic(s[i]);
    scan_token(s, i, letter)
}

/// Reads the token that starts at position `at` of `text`, given whether the
/// character there is a letter (which would make it a variable).
pub fn scan_token(text: &Vec<char>, at: usize, letter: bool) -> (r: Result<
    Option<(Token, usize)>,
    FormulaError,
>)
    ensures
        scanned_as(r, token_with(text@, at as int, letter)),
{
    let s = text;
    let i = at;
    if i >= s.len() {
        return Ok(None);
    }
    proof {
        lemma_token_with_bound(s@, i as int, letter);
    }
    if let Some((f, n)) = function_from(s, i) {
        return Ok(Some((Token::Function(f), n)));
    }
    let c = s[i];
    if c == '(' {
        Ok(Some((Token::OpeningBracket, 1)))
    } else if c == ')' {
        Ok(Some((Token::ClosingBracket, 1)))
    } else if let Some(op) = operator_from(c) {
        Ok(Some((Token::Operator(op), 1)))
    } else if letter {
        Ok(Some((Token::Variable(c), 1)))
    } else {
        match number_from(s, i) {
            Err(e) => Err(e),
            Ok(Some(n)) => Ok(Some((Token::Value(text_between(s, i, i + n)), n))),
            Ok(None) => {
                let w = spaces_from(s, i);
                if w > 0 {
                    Ok(Some((Token::Whitespace, w)))
                } else {
                    Ok(None)
                }
            },
        }
    }
}

/// Splits a formula into tokens.
pub fn tokenize(s: &Vec<char>) -> (r: Result<Vec<Token>, FormulaError>)
    ensures
        match lex(s@) {
            Ok(ts) => r matches Ok(v) && lexemes(v@) == ts,
            Err(e) => r matches Err(e2) && e2 == e,
        },
{
    let mut tokens: Vec<Token> = Vec::new();
    let mut i: usize = 0;
    while i < s.len()
        invariant
            i <= s.len(),
            lex(s@) == prepend(lexemes(tokens@), lex_from(s@, i as int)),
        decreases s.len() - i,
    {
        proof {
            lemma_token_at_bound(s@, i as int);
        }
        match token_from(s, i) {
            Err(e) => {
                return Err(e);
            },
            Ok(None) => {
                return Err(FormulaError::InvalidCharacter);
            },
            Ok(Some((t, n))) => {
                proof {
                    lemma_prepend_push(lexemes(tokens@), t@, lex_from(s@, i + n));
                }
                let ghost before = tokens@;
                let ghost lexeme = t@;
                tokens.push(t);
                assert(lexemes(tokens@) =~= lexemes(before).push(lexeme));
                i = i + n;
            },
        }
    }
    proof {
        assert(lexemes(tokens@) + seq![] =~= lexemes(tokens@));
    }
    Ok(tokens)
}

} // verus!
