//! The grammar of the language, as spec functions over the characters of
//! the input.
//!
//! An expression is, after optional whitespace and highest priority first:
//! a number (an optional sign and one or more digits), `#t` or `#f`, one of
//! the operators `+ - * /`, a symbol (a letter, then letters, digits, `_`,
//! `-` or `>`; never a reserved word), `(define <symbol> <expr>)`,
//! `(lambda (<expr>*) <expr>)`, or an application `(<expr> <expr>*)`.
//! Whitespace may stand around every sub-expression and parenthesis; it is
//! needed only to part two adjacent words or numbers. Each parser gives the
//! position after what it read, or the position where it failed.

use vstd::prelude::*;

use crate::syntax::{Atom, BuiltinOp, Term};

verus! {

pub open spec fn is_space(c: char) -> bool {
    c == ' ' || c == '\t' || c == '\n' || c == '\r'
}

pub open spec fn is_digit(c: char) -> bool {
    '0' <= c <= '9'
}

pub open spec fn is_letter(c: char) -> bool {
    ('a' <= c <= 'z') || ('A' <= c <= 'Z')
}

/// A character that may continue a symbol.
pub open spec fn is_symbol_char(c: char) -> bool {
    is_letter(c) || is_digit(c) || c == '_' || c == '-' || c == '>'
}

/// The first position at or after `i` that does not hold whitespace.
pub open spec fn skip_space(s: Seq<char>, i: int) -> int
    decreases s.len() - i,
{
    if 0 <= i < s.len() && is_space(s[i]) {
        skip_space(s, i + 1)
    } else {
        i
    }
}

/// The first position at or after `i` that does not hold a digit.
pub open spec fn digits_end(s: Seq<char>, i: int) -> int
    decreases s.len() - i,
{
    if 0 <= i < s.len() && is_digit(s[i]) {
        digits_end(s, i + 1)
    } else {
        i
    }
}

/// The first position at or after `i` that does not hold a symbol character.
pub open spec fn word_end(s: Seq<char>, i: int) -> int
    decreases s.len() - i,
{
    if 0 <= i < s.len() && is_symbol_char(s[i]) {
        word_end(s, i + 1)
    } else {
        i
    }
}

/// Skipping whitespace stays within the input and passes only whitespace.
pub proof fn lemma_skip_space(s: Seq<char>, i: int)
    requires
        0 <= i <= s.len(),
    ensures
        i <= skip_space(s, i) <= s.len(),
        forall|j: int| i <= j < skip_space(s, i) ==> is_space(#[trigger] s[j]),
        skip_space(s, i) < s.len() ==> !is_space(s[skip_space(s, i)]),
    decreases s.len() - i,
{
    if i < s.len() && is_space(s[i]) {
        lemma_skip_space(s, i + 1);
    }
}

/// A run of digits stays within the input and holds only digits.
pub proof fn lemma_digits_end(s: Seq<char>, i: int)
    requires
        0 <= i <= s.len(),
    ensures
        i <= digits_end(s, i) <= s.len(),
        forall|j: int| i <= j < digits_end(s, i) ==> is_digit(#[trigger] s[j]),
        digits_end(s, i) < s.len() ==> !is_digit(s[digits_end(s, i)]),
    decreases s.len() - i,
{
    if i < s.len() && is_digit(s[i]) {
        lemma_digits_end(s, i + 1);
    }
}

/// A word stays within the input and holds only symbol characters.
pub proof fn lemma_word_end(s: Seq<char>, i: int)
    requires
        0 <= i <= s.len(),
    ensures
        i <= word_end(s, i) <= s.len(),
        forall|j: int| i <= j < word_end(s, i) ==> is_symbol_char(#[trigger] s[j]),
        word_end(s, i) < s.len() ==> !is_symbol_char(s[word_end(s, i)]),
    decreases s.len() - i,
{
    if i < s.len() && is_symbol_char(s[i]) {
        lemma_word_end(s, i + 1);
    }
}

/// The value of a decimal digit.
pub open spec fn digit_value(c: char) -> int {
    (c as u32) as int - ('0' as u32) as int
}

/// The value of a sequence of decimal digits, most significant first.
pub open spec fn decimal(d: Seq<char>) -> int
    decreases d.len(),
{
    if d.len() == 0 {
        0
    } else {
        decimal(d.drop_last()) * 10 + digit_value(d.last())
    }
}

/// Whether a number starts at `i`: a digit, or a sign followed by a digit.
pub open spec fn starts_number(s: Seq<char>, i: int) -> bool {
    0 <= i < s.len() && (is_digit(s[i]) || ((s[i] == '+' || s[i] == '-') && i + 1 < s.len()
        && is_digit(s[i + 1])))
}

/// The signed decimal number at `i`. One outside the range of `i32` is an
/// error at its start.
pub open spec fn number_at(s: Seq<char>, i: int) -> Result<(int, Atom), int> {
    if !starts_number(s, i) {
        Err(i)
    } else {
        let j = if is_digit(s[i]) {
            i
        } else {
            i + 1
        };
        let k = digits_end(s, j);
        let magnitude = decimal(s.subrange(j, k));
        let v = if s[i] == '-' {
            -magnitude
        } else {
            magnitude
        };
        if i32::MIN <= v <= i32::MAX {
            Ok((k, Atom::Num(v as i32)))
        } else {
            Err(i)
        }
    }
}

/// `#t` or `#f` at `i`.
pub open spec fn bool_at(s: Seq<char>, i: int) -> Result<(int, Atom), int> {
    if 0 <= i && i + 1 < s.len() && s[i] == '#' && s[i + 1] == 't' {
        Ok((i + 2, Atom::Boolean(true)))
    } else if 0 <= i && i + 1 < s.len() && s[i] == '#' && s[i + 1] == 'f' {
        Ok((i + 2, Atom::Boolean(false)))
    } else {
        Err(i)
    }
}

/// One of the operators `+ - * /` at `i`.
pub open spec fn operator_at(s: Seq<char>, i: int) -> Result<(int, Atom), int> {
    if 0 <= i < s.len() && s[i] == '+' {
        Ok((i + 1, Atom::Operater(BuiltinOp::Plus)))
    } else if 0 <= i < s.len() && s[i] == '-' {
        Ok((i + 1, Atom::Operater(BuiltinOp::Minus)))
    } else if 0 <= i < s.len() && s[i] == '*' {
        Ok((i + 1, Atom::Operater(BuiltinOp::Times)))
    } else if 0 <= i < s.len() && s[i] == '/' {
        Ok((i + 1, Atom::Operater(BuiltinOp::Divide)))
    } else {
        Err(i)
    }
}

/// A self-evaluating atom at `i`: a number, else a boolean, else an operator.
pub open spec fn self_eval_at(s: Seq<char>, i: int) -> Result<(int, Atom), int> {
    if starts_number(s, i) {
        number_at(s, i)
    } else if 0 <= i < s.len() && s[i] == '#' {
        bool_at(s, i)
    } else {
        operator_at(s, i)
    }
}

/// A prefix of a digit sequence is worth no more than the whole.
pub proof fn lemma_decimal_grows(d: Seq<char>, n: int)
    requires
        0 <= n <= d.len(),
        forall|j: int| 0 <= j < d.len() ==> is_digit(#[trigger] d[j]),
    ensures
        0 <= decimal(d.subrange(0, n)) <= decimal(d),
    decreases d.len(),
{
    if d.len() > 0 {
        if n == d.len() {
            lemma_decimal_grows(d.drop_last(), 0);
            assert(d.subrange(0, n) =~= d);
        } else {
            lemma_decimal_grows(d.drop_last(), n);
            assert(d.drop_last().subrange(0, n) =~= d.subrange(0, n));
        }
    }
}

/// The keyword of a definition.
pub open spec fn define_word() -> Seq<char> {
    seq!['d', 'e', 'f', 'i', 'n', 'e']
}

/// The keyword of a procedure literal.
pub open spec fn lambda_word() -> Seq<char> {
    seq!['l', 'a', 'm', 'b', 'd', 'a']
}

/// The words that cannot be symbols.
pub open spec fn reserved(w: Seq<char>) -> bool {
    ||| w == define_word()
    ||| w == lambda_word()
    ||| w == seq!['i', 'f']
    ||| w == seq!['#', 't']
    ||| w == seq!['#', 'f']
}

/// The name of the symbol at `i`.
pub open spec fn symbol_name_at(s: Seq<char>, i: int) -> Result<(int, Seq<char>), int> {
    if 0 <= i < s.len() && is_letter(s[i]) && !reserved(s.subrange(i, word_end(s, i))) {
        Ok((word_end(s, i), s.subrange(i, word_end(s, i))))
    } else {
        Err(i)
    }
}

/// The symbol at `i`.
pub open spec fn symbol_at(s: Seq<char>, i: int) -> Result<(int, Term), int> {
    match symbol_name_at(s, i) {
        Ok((k, name)) => Ok((k, Term::Symbol(name))),
        Err(e) => Err(e),
    }
}

/// The self-evaluating atom at `i`, as an expression.
pub open spec fn self_eval_term_at(s: Seq<char>, i: int) -> Result<(int, Term), int> {
    match self_eval_at(s, i) {
        Ok((k, a)) => Ok((k, Term::SelfEvaluation(a))),
        Err(e) => Err(e),
    }
}

/// The word that follows the opening parenthesis at `i`, if one does.
pub open spec fn head_word(s: Seq<char>, i: int) -> Seq<char> {
    let p = skip_space(s, i + 1);
    if 0 <= p < s.len() && is_letter(s[p]) {
        s.subrange(p, word_end(s, p))
    } else {
        Seq::empty()
    }
}

/// Whether a parse that started at `i` and stopped at `k` consumed input.
/// Every successful parse does (`lemma_expr_advances`); the grammar tests it
/// anyway, which makes its descent visibly well founded.
pub open spec fn advances(s: Seq<char>, i: int, k: int) -> bool {
    i < k <= s.len()
}

/// An expression after optional whitespace at `i`: the position after it and
/// its model, or the position where parsing failed.
pub open spec fn expr_at(s: Seq<char>, i: int) -> Result<(int, Term), int>
    decreases s.len() - i, 2nat,
{
    if !(0 <= i <= s.len()) {
        Err(i)
    } else {
        let p = skip_space(s, i);
        proof {
            lemma_skip_space(s, i);
        }
        if p == s.len() {
            Err(p)
        } else if s[p] == '(' {
            if head_word(s, p) == define_word() {
                define_at(s, p)
            } else if head_word(s, p) == lambda_word() {
                lambda_at(s, p)
            } else {
                procedure_at(s, p)
            }
        } else if is_letter(s[p]) {
            symbol_at(s, p)
        } else {
            self_eval_term_at(s, p)
        }
    }
}

/// Expressions up to and including a closing parenthesis, from `i`.
pub open spec fn items_at(s: Seq<char>, i: int) -> Result<(int, Seq<Term>), int>
    decreases s.len() - i, 3nat,
{
    if !(0 <= i <= s.len()) {
        Err(i)
    } else {
        let p = skip_space(s, i);
        proof {
            lemma_skip_space(s, i);
        }
        if p == s.len() {
            Err(p)
        } else if s[p] == ')' {
            Ok((p + 1, Seq::empty()))
        } else {
            match expr_at(s, p) {
                Err(e) => Err(e),
                Ok((k, t)) => {
                    if !advances(s, p, k) {
                        Err(k)
                    } else {
                        match items_at(s, k) {
                            Ok((m, ts)) => Ok((m, seq![t] + ts)),
                            Err(e) => Err(e),
                        }
                    }
                },
            }
        }
    }
}

/// An application `(<expr> <expr>*)` whose parenthesis is at `i`.
pub open spec fn procedure_at(s: Seq<char>, i: int) -> Result<(int, Term), int>
    decreases s.len() - i, 1nat,
{
    if !(0 <= i < s.len() && s[i] == '(') {
        Err(i)
    } else {
        match expr_at(s, i + 1) {
            Err(e) => Err(e),
            Ok((k, head)) => {
                if !advances(s, i, k) {
                    Err(k)
                } else {
                    match items_at(s, k) {
                        Ok((m, args)) => Ok((m, Term::Procedure(Box::new(head), args))),
                        Err(e) => Err(e),
                    }
                }
            },
        }
    }
}

/// The position after the keyword `w` that follows the parenthesis at `i`,
/// or where it is missing.
pub open spec fn keyword_at(s: Seq<char>, i: int, w: Seq<char>) -> Result<int, int> {
    if !(0 <= i < s.len() && s[i] == '(') {
        Err(i)
    } else {
        let p = skip_space(s, i + 1);
        if 0 <= p < s.len() && is_letter(s[p]) && s.subrange(p, word_end(s, p)) == w {
            Ok(word_end(s, p))
        } else {
            Err(p)
        }
    }
}

/// A closing parenthesis after optional whitespace at `i`.
pub open spec fn close_at(s: Seq<char>, i: int) -> Result<int, int> {
    let c = skip_space(s, i);
    if 0 <= c < s.len() && s[c] == ')' {
        Ok(c + 1)
    } else {
        Err(c)
    }
}

/// `(define <symbol> <expr>)` whose parenthesis is at `i`.
pub open spec fn define_at(s: Seq<char>, i: int) -> Result<(int, Term), int>
    decreases s.len() - i, 1nat,
{
    match keyword_at(s, i, define_word()) {
        Err(e) => Err(e),
        Ok(q) => {
            proof {
                lemma_keyword_at(s, i, define_word());
                lemma_skip_space(s, q);
            }
            match symbol_name_at(s, skip_space(s, q)) {
                Err(e) => Err(e),
                Ok((n, name)) => {
                    proof {
                        lemma_word_end(s, skip_space(s, q));
                    }
                    match expr_at(s, n) {
                        Err(e) => Err(e),
                        Ok((k, value)) => match close_at(s, k) {
                            Ok(m) => Ok((m, Term::Define(name, Box::new(value)))),
                            Err(e) => Err(e),
                        },
                    }
                },
            }
        },
    }
}

/// `(lambda (<expr>*) <expr>)` whose parenthesis is at `i`.
pub open spec fn lambda_at(s: Seq<char>, i: int) -> Result<(int, Term), int>
    decreases s.len() - i, 1nat,
{
    match keyword_at(s, i, lambda_word()) {
        Err(e) => Err(e),
        Ok(q) => {
            let r = skip_space(s, q);
            proof {
                lemma_keyword_at(s, i, lambda_word());
                lemma_skip_space(s, q);
            }
            if !(r < s.len() && s[r] == '(') {
                Err(r)
            } else {
                match items_at(s, r + 1) {
                    Err(e) => Err(e),
                    Ok((k, params)) => {
                        if !advances(s, i, k) {
                            Err(k)
                        } else {
                            match expr_at(s, k) {
                                Err(e) => Err(e),
                                Ok((m, body)) => match close_at(s, m) {
                                    Ok(c) => Ok((c, Term::Lambda(params, Box::new(body)))),
                                    Err(e) => Err(e),
                                },
                            }
                        }
                    },
                }
            }
        },
    }
}

/// A keyword that is found lies after its parenthesis and within the input.
pub proof fn lemma_keyword_at(s: Seq<char>, i: int, w: Seq<char>)
    ensures
        keyword_at(s, i, w) matches Ok(q) ==> i < q <= s.len(),
{
    if 0 <= i < s.len() && s[i] == '(' {
        let p = skip_space(s, i + 1);
        lemma_skip_space(s, i + 1);
        if 0 <= p < s.len() && is_letter(s[p]) {
            lemma_word_end(s, p);
        }
    }
}

/// A closing parenthesis that is found lies within the input.
proof fn lemma_close_at(s: Seq<char>, i: int)
    requires
        0 <= i <= s.len(),
    ensures
        close_at(s, i) matches Ok(m) ==> i < m <= s.len(),
{
    lemma_skip_space(s, i);
}

/// Every atom that is read consumes input.
proof fn lemma_atoms_advance(s: Seq<char>, i: int)
    requires
        0 <= i < s.len(),
    ensures
        symbol_at(s, i) matches Ok((k, _)) ==> i < k <= s.len(),
        self_eval_term_at(s, i) matches Ok((k, _)) ==> i < k <= s.len(),
{
    lemma_word_end(s, i);
    lemma_word_end(s, i + 1);
    lemma_digits_end(s, i);
    lemma_digits_end(s, i + 1);
}

/// Every successful parse of an expression consumes input, so the tests of
/// `advances` in the grammar always pass.
pub proof fn lemma_expr_advances(s: Seq<char>, i: int)
    requires
        0 <= i <= s.len(),
    ensures
        expr_at(s, i) matches Ok((k, _)) ==> i < k <= s.len(),
    decreases s.len() - i, 2nat,
{
    let p = skip_space(s, i);
    lemma_skip_space(s, i);
    if p < s.len() {
        if s[p] == '(' {
            lemma_define_advances(s, p);
            lemma_lambda_advances(s, p);
            lemma_procedure_advances(s, p);
        } else {
            lemma_atoms_advance(s, p);
        }
    }
}

/// Every successful parse of a list consumes input.
pub proof fn lemma_items_advance(s: Seq<char>, i: int)
    requires
        0 <= i <= s.len(),
    ensures
        items_at(s, i) matches Ok((k, _)) ==> i < k <= s.len(),
    decreases s.len() - i, 3nat,
{
    let p = skip_space(s, i);
    lemma_skip_space(s, i);
    if p < s.len() && s[p] != ')' {
        lemma_expr_advances(s, p);
        if let Ok((k, _)) = expr_at(s, p) {
            if advances(s, p, k) {
                lemma_items_advance(s, k);
            }
        }
    }
}

/// Every application that is read consumes input.
proof fn lemma_procedure_advances(s: Seq<char>, i: int)
    requires
        0 <= i < s.len(),
    ensures
        procedure_at(s, i) matches Ok((k, _)) ==> i < k <= s.len(),
    decreases s.len() - i, 1nat,
{
    if s[i] == '(' {
        lemma_expr_advances(s, i + 1);
        if let Ok((k, _)) = expr_at(s, i + 1) {
            if advances(s, i, k) {
                lemma_items_advance(s, k);
            }
        }
    }
}

/// Every `define` form that is read consumes input.
proof fn lemma_define_advances(s: Seq<char>, i: int)
    requires
        0 <= i < s.len(),
    ensures
        define_at(s, i) matches Ok((k, _)) ==> i < k <= s.len(),
    decreases s.len() - i, 1nat,
{
    lemma_keyword_at(s, i, define_word());
    if let Ok(q) = keyword_at(s, i, define_word()) {
        let n0 = skip_space(s, q);
        lemma_skip_space(s, q);
        if let Ok((n, _)) = symbol_name_at(s, n0) {
            lemma_word_end(s, n0);
            lemma_expr_advances(s, n);
            if let Ok((k, _)) = expr_at(s, n) {
                lemma_close_at(s, k);
            }
        }
    }
}

/// Every `lambda` form that is read consumes input.
proof fn lemma_lambda_advances(s: Seq<char>, i: int)
    requires
        0 <= i < s.len(),
    ensures
        lambda_at(s, i) matches Ok((k, _)) ==> i < k <= s.len(),
    decreases s.len() - i, 1nat,
{
    lemma_keyword_at(s, i, lambda_word());
    if let Ok(q) = keyword_at(s, i, lambda_word()) {
        let r = skip_space(s, q);
        lemma_skip_space(s, q);
        if r < s.len() && s[r] == '(' {
            lemma_items_advance(s, r + 1);
            if let Ok((k, _)) = items_at(s, r + 1) {
                if advances(s, i, k) {
                    lemma_expr_advances(s, k);
                    if let Ok((m, _)) = expr_at(s, k) {
                        lemma_close_at(s, m);
                    }
                }
            }
        }
    }
}

/// Where the digits of a numeral start: after its sign, if it has one.
pub open spec fn numeral_start(s: Seq<char>) -> int {
    if s.len() > 0 && (s[0] == '+' || s[0] == '-') {
        1
    } else {
        0
    }
}

/// An optional sign followed by one or more digits, and nothing else.
pub open spec fn is_numeral(s: Seq<char>) -> bool {
    &&& numeral_start(s) < s.len()
    &&& forall|j: int| numeral_start(s) <= j < s.len() ==> is_digit(#[trigger] s[j])
}

/// The signed decimal value of a numeral.
pub open spec fn numeral_value(s: Seq<char>) -> int {
    let magnitude = decimal(s.subrange(numeral_start(s), s.len() as int));
    if s[0] == '-' {
        -magnitude
    } else {
        magnitude
    }
}

/// A numeral whose value fits in `i32` parses, consuming all of it, to the
/// number it spells.
pub proof fn lemma_numeral_parses(s: Seq<char>)
    requires
        is_numeral(s),
        i32::MIN <= numeral_value(s) <= i32::MAX,
    ensures
        number_at(s, 0) == Ok::<(int, Atom), int>((s.len() as int, Atom::Num(numeral_value(s) as i32))),
        expr_at(s, 0) == Ok::<(int, Term), int>(
            (s.len() as int, Term::SelfEvaluation(Atom::Num(numeral_value(s) as i32))),
        ),
{
    let start = numeral_start(s);
    lemma_digits_end(s, start);
    assert(digits_end(s, start) == s.len());
    assert(!is_space(s[0]));
    assert(skip_space(s, 0) == 0);
}

} // verus!
