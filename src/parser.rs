//! The parser: from text to an expression tree. Each parser reads the
//! characters of its input and reports exactly the outcome that the grammar
//! gives.

use vstd::prelude::*;

use crate::grammar::{
    bool_at, close_at, decimal, define_at, define_word, digit_value, digits_end, expr_at,
    head_word, is_digit, is_letter, items_at, keyword_at, lambda_at, lambda_word,
    lemma_decimal_grows, lemma_digits_end, lemma_skip_space, lemma_word_end, number_at,
    operator_at, procedure_at, reserved, self_eval_at, self_eval_term_at, skip_space,
    starts_number, symbol_at, symbol_name_at, word_end,
};
pub use crate::syntax::{Atom, BuiltinOp, Expr};
use crate::syntax::{terms_of, Term};

verus! {

/// The first position at or after `i` that does not hold whitespace.
fn skip_space_at(s: &Vec<char>, i: usize) -> (r: usize)
    requires
        i <= s.len(),
    ensures
        r == skip_space(s@, i as int),
{
    let mut p = i;
    while p < s.len() && (s[p] == ' ' || s[p] == '\t' || s[p] == '\n' || s[p] == '\r')
        invariant
            i <= p <= s.len(),
            skip_space(s@, i as int) == skip_space(s@, p as int),
        decreases s.len() - p,
    {
        p = p + 1;
    }
    p
}

/// The first position at or after `i` that does not hold a digit.
fn digits_end_at(s: &Vec<char>, i: usize) -> (r: usize)
    requires
        i <= s.len(),
    ensures
        r == digits_end(s@, i as int),
{
    let mut p = i;
    while p < s.len() && '0' <= s[p] && s[p] <= '9'
        invariant
            i <= p <= s.len(),
            digits_end(s@, i as int) == digits_end(s@, p as int),
        decreases s.len() - p,
    {
        p = p + 1;
    }
    p
}

/// Whether position `i` holds a letter.
fn letter_at(s: &Vec<char>, i: usize) -> (r: bool)
    ensures
        r == (i < s.len() && is_letter(s@[i as int])),
{
    i < s.len() && (('a' <= s[i] && s[i] <= 'z') || ('A' <= s[i] && s[i] <= 'Z'))
}

/// The first position at or after `i` that does not hold a symbol character.
fn word_end_at(s: &Vec<char>, i: usize) -> (r: usize)
    requires
        i <= s.len(),
    ensures
        r == word_end(s@, i as int),
{
    let mut p = i;
    while p < s.len() && (letter_at(s, p) || ('0' <= s[p] && s[p] <= '9') || s[p] == '_' || s[p]
        == '-' || s[p] == '>')
        invariant
            i <= p <= s.len(),
            word_end(s@, i as int) == word_end(s@, p as int),
        decreases s.len() - p,
    {
        p = p + 1;
    }
    p
}

/// The model of an atom parser's outcome.
pub open spec fn atom_res(r: Result<(usize, Atom), usize>) -> Result<(int, Atom), int> {
    match r {
        Ok((k, a)) => Ok((k as int, a)),
        Err(p) => Err(p as int),
    }
}

/// Reads the signed decimal number at `i`, accumulating its value with
/// checked arithmetic so that a number too large for `i32` is an error.
fn number_at_pos(s: &Vec<char>, i: usize) -> (r: Result<(usize, Atom), usize>)
    requires
        i <= s.len(),
    ensures
        atom_res(r) == number_at(s@, i as int),
        r matches Ok((k, _)) ==> i < k <= s.len(),
        r matches Err(p) ==> p <= s.len(),
{
    let digit_first = i < s.len() && '0' <= s[i] && s[i] <= '9';
    let signed = i < s.len() && i + 1 < s.len() && (s[i] == '+' || s[i] == '-') && '0' <= s[i + 1] && s[i + 1]
        <= '9';
    if !digit_first && !signed {
        return Err(i);
    }
    let negative = s[i] == '-';
    let j = if digit_first {
        i
    } else {
        i + 1
    };
    let k = digits_end_at(s, j);
    proof {
        lemma_digits_end(s@, j as int);
    }
    let ghost digits = s@.subrange(j as int, k as int);
    let mut acc: i32 = 0;
    let mut p = j;
    while p < k
        invariant
            j <= p <= k <= s.len(),
            i < s.len(),
            starts_number(s@, i as int),
            negative == (s@[i as int] == '-'),
            j as int == (if is_digit(s@[i as int]) { i as int } else { i + 1 }),
            k == digits_end(s@, j as int),
            digits == s@.subrange(j as int, k as int),
            forall|q: int| j <= q < k ==> is_digit(#[trigger] s@[q]),
            negative ==> acc == -decimal(s@.subrange(j as int, p as int)),
            !negative ==> acc == decimal(s@.subrange(j as int, p as int)),
        decreases k - p,
    {
        let ghost next = s@.subrange(j as int, p + 1);
        assert(next.drop_last() =~= s@.subrange(j as int, p as int));
        let d = ((s[p] as u32) - ('0' as u32)) as i32;
        assert(d == digit_value(s@[p as int]));
        proof {
            lemma_decimal_grows(digits, p + 1 - j);
            assert(digits.subrange(0, p + 1 - j) =~= next);
            lemma_decimal_grows(digits, p - j);
            assert(digits.subrange(0, p - j) =~= next.drop_last());
        }
        let stepped = match acc.checked_mul(10) {
            Some(t) => if negative {
                t.checked_sub(d)
            } else {
                t.checked_add(d)
            },
            None => None,
        };
        match stepped {
            Some(v) => acc = v,
            None => {
                assert(negative ==> -decimal(next) < i32::MIN);
                assert(!negative ==> decimal(next) > i32::MAX);
                return Err(i);
            },
        }
        p = p + 1;
    }
    Ok((k, Atom::Num(acc)))
}

/// Reads `#t` or `#f` at `i`.
fn bool_at_pos(s: &Vec<char>, i: usize) -> (r: Result<(usize, Atom), usize>)
    requires
        i <= s.len(),
    ensures
        atom_res(r) == bool_at(s@, i as int),
        r matches Ok((k, _)) ==> i < k <= s.len(),
        r matches Err(p) ==> p <= s.len(),
{
    if i < s.len() && i + 1 < s.len() && s[i] == '#' && s[i + 1] == 't' {
        Ok((i + 2, Atom::Boolean(true)))
    } else if i < s.len() && i + 1 < s.len() && s[i] == '#' && s[i + 1] == 'f' {
        Ok((i + 2, Atom::Boolean(false)))
    } else {
        Err(i)
    }
}

/// Reads an operator at `i`.
fn operator_at_pos(s: &Vec<char>, i: usize) -> (r: Result<(usize, Atom), usize>)
    requires
        i <= s.len(),
    ensures
        atom_res(r) == operator_at(s@, i as int),
        r matches Ok((k, _)) ==> i < k <= s.len(),
        r matches Err(p) ==> p <= s.len(),
{
    if i >= s.len() {
        return Err(i);
    }
    let c = s[i];
    if c == '+' {
        Ok((i + 1, Atom::Operater(BuiltinOp::Plus)))
    } else if c == '-' {
        Ok((i + 1, Atom::Operater(BuiltinOp::Minus)))
    } else if c == '*' {
        Ok((i + 1, Atom::Operater(BuiltinOp::Times)))
    } else if c == '/' {
        Ok((i + 1, Atom::Operater(BuiltinOp::Divide)))
    } else {
        Err(i)
    }
}

/// Reads a number, boolean or operator at `i`.
fn self_eval_at_pos(s: &Vec<char>, i: usize) -> (r: Result<(usize, Atom), usize>)
    requires
        i <= s.len(),
    ensures
        atom_res(r) == self_eval_at(s@, i as int),
        r matches Ok((k, _)) ==> i < k <= s.len(),
        r matches Err(p) ==> p <= s.len(),
{
    let digit_first = i < s.len() && '0' <= s[i] && s[i] <= '9';
    let signed = i < s.len() && i + 1 < s.len() && (s[i] == '+' || s[i] == '-') && '0' <= s[i + 1] && s[i + 1]
        <= '9';
    if digit_first || signed {
        number_at_pos(s, i)
    } else if i < s.len() && s[i] == '#' {
        bool_at_pos(s, i)
    } else {
        operator_at_pos(s, i)
    }
}

/// The model of an expression parser's outcome.
pub open spec fn term_res(r: Result<(usize, Expr), usize>) -> Result<(int, Term), int> {
    match r {
        Ok((k, e)) => Ok((k as int, e@)),
        Err(p) => Err(p as int),
    }
}

/// The model of the outcome of parsing a list of expressions.
pub open spec fn terms_res(r: Result<(usize, Vec<Expr>), usize>) -> Result<(int, Seq<Term>), int> {
    match r {
        Ok((k, es)) => Ok((k as int, terms_of(es@))),
        Err(p) => Err(p as int),
    }
}

/// `done` followed by what `r` parsed.
pub open spec fn after_items(done: Seq<Term>, r: Result<(int, Seq<Term>), int>) -> Result<
    (int, Seq<Term>),
    int,
> {
    match r {
        Ok((k, ts)) => Ok((k, done + ts)),
        Err(p) => Err(p),
    }
}

/// Whether `s[start..end]` is the word `w`.
fn word_is(s: &Vec<char>, start: usize, end: usize, w: &[char]) -> (r: bool)
    requires
        start <= end <= s.len(),
    ensures
        r == (s@.subrange(start as int, end as int) == w@),
{
    if end - start != w.len() {
        return false;
    }
    let mut j: usize = 0;
    while j < w.len()
        invariant
            end - start == w@.len(),
            start <= end <= s.len(),
            j <= w@.len(),
            forall|q: int| 0 <= q < j ==> s@[start + q] == w@[q],
        decreases w.len() - j,
    {
        if s[start + j] != w[j] {
            assert(s@.subrange(start as int, end as int)[j as int] != w@[j as int]);
            return false;
        }
        j = j + 1;
    }
    assert(s@.subrange(start as int, end as int) =~= w@);
    true
}

/// Whether `s[start..end]` is a reserved word.
fn is_reserved(s: &Vec<char>, start: usize, end: usize) -> (r: bool)
    requires
        start <= end <= s.len(),
    ensures
        r == reserved(s@.subrange(start as int, end as int)),
{
    proof {
        assert(['i', 'f']@ =~= seq!['i', 'f']);
        assert(['#', 't']@ =~= seq!['#', 't']);
        assert(['#', 'f']@ =~= seq!['#', 'f']);
        assert(['d', 'e', 'f', 'i', 'n', 'e']@ =~= define_word());
        assert(['l', 'a', 'm', 'b', 'd', 'a']@ =~= lambda_word());
    }
    word_is(s, start, end, &['d', 'e', 'f', 'i', 'n', 'e']) || word_is(
        s,
        start,
        end,
        &['l', 'a', 'm', 'b', 'd', 'a'],
    ) || word_is(s, start, end, &['i', 'f']) || word_is(s, start, end, &['#', 't']) || word_is(
        s,
        start,
        end,
        &['#', 'f'],
    )
}

/// Reads the name of the symbol at `i`.
fn symbol_name_at_pos(input: &str, s: &Vec<char>, i: usize) -> (r: Result<(usize, String), usize>)
    requires
        s@ == input@,
        i <= s.len(),
    ensures
        match r {
            Ok((k, name)) => symbol_name_at(s@, i as int) == Ok::<(int, Seq<char>), int>(
                (k as int, name@),
            ),
            Err(p) => symbol_name_at(s@, i as int) == Err::<(int, Seq<char>), int>(p as int),
        },
{
    if !letter_at(s, i) {
        return Err(i);
    }
    let k = word_end_at(s, i);
    proof {
        lemma_word_end(s@, i as int);
    }
    if is_reserved(s, i, k) {
        return Err(i);
    }
    let name = input.substring_char(i, k).to_owned();
    Ok((k, name))
}

/// Reads the parenthesis at `i` and the keyword `w` after it.
fn keyword_at_pos(s: &Vec<char>, i: usize, w: &[char]) -> (r: Result<usize, usize>)
    requires
        i <= s.len(),
    ensures
        match r {
            Ok(q) => keyword_at(s@, i as int, w@) == Ok::<int, int>(q as int) && i < q <= s.len(),
            Err(p) => keyword_at(s@, i as int, w@) == Err::<int, int>(p as int) && p <= s.len(),
        },
{
    if !(i < s.len() && s[i] == '(') {
        return Err(i);
    }
    let p = skip_space_at(s, i + 1);
    proof {
        lemma_skip_space(s@, i + 1);
    }
    if !letter_at(s, p) {
        return Err(p);
    }
    let q = word_end_at(s, p);
    proof {
        lemma_word_end(s@, p as int);
    }
    if word_is(s, p, q, w) {
        Ok(q)
    } else {
        Err(p)
    }
}

/// Whether the word after the parenthesis at `i` is `w`.
fn head_word_is(s: &Vec<char>, i: usize, w: &[char]) -> (r: bool)
    requires
        i < s.len(),
        w@.len() > 0,
    ensures
        r == (head_word(s@, i as int) == w@),
{
    let p = skip_space_at(s, i + 1);
    proof {
        lemma_skip_space(s@, i + 1);
    }
    if !letter_at(s, p) {
        assert(head_word(s@, i as int).len() == 0);
        return false;
    }
    let q = word_end_at(s, p);
    proof {
        lemma_word_end(s@, p as int);
    }
    word_is(s, p, q, w)
}

/// Reads a closing parenthesis after optional whitespace.
fn close_at_pos(s: &Vec<char>, i: usize) -> (r: Result<usize, usize>)
    requires
        i <= s.len(),
    ensures
        match r {
            Ok(m) => close_at(s@, i as int) == Ok::<int, int>(m as int) && i < m <= s.len(),
            Err(p) => close_at(s@, i as int) == Err::<int, int>(p as int) && p <= s.len(),
        },
{
    let c = skip_space_at(s, i);
    proof {
        lemma_skip_space(s@, i as int);
    }
    if c < s.len() && s[c] == ')' {
        Ok(c + 1)
    } else {
        Err(c)
    }
}

/// Reads an expression after optional whitespace at `i`.
fn expr_at_pos(input: &str, s: &Vec<char>, i: usize) -> (r: Result<(usize, Expr), usize>)
    requires
        s@ == input@,
        i <= s.len(),
    ensures
        term_res(r) == expr_at(s@, i as int),
        r matches Ok((k, _)) ==> i < k <= s.len(),
        r matches Err(p) ==> p <= s.len(),
    decreases s.len() - i, 2nat,
{
    let p = skip_space_at(s, i);
    proof {
        lemma_skip_space(s@, i as int);
    }
    if p == s.len() {
        return Err(p);
    }
    if s[p] == '(' {
        proof {
            assert(['d', 'e', 'f', 'i', 'n', 'e']@ =~= define_word());
            assert(['l', 'a', 'm', 'b', 'd', 'a']@ =~= lambda_word());
        }
        if head_word_is(s, p, &['d', 'e', 'f', 'i', 'n', 'e']) {
            define_at_pos(input, s, p)
        } else if head_word_is(s, p, &['l', 'a', 'm', 'b', 'd', 'a']) {
            lambda_at_pos(input, s, p)
        } else {
            procedure_at_pos(input, s, p)
        }
    } else if letter_at(s, p) {
        symbol_at_pos(input, s, p)
    } else {
        self_eval_term_at_pos(s, p)
    }
}

/// Reads expressions up to and including a closing parenthesis.
fn items_at_pos(input: &str, s: &Vec<char>, i: usize) -> (r: Result<(usize, Vec<Expr>), usize>)
    requires
        s@ == input@,
        i <= s.len(),
    ensures
        terms_res(r) == items_at(s@, i as int),
        r matches Ok((k, _)) ==> i < k <= s.len(),
        r matches Err(p) ==> p <= s.len(),
    decreases s.len() - i, 3nat,
{
    let mut items: Vec<Expr> = Vec::new();
    let mut p = i;
    assert(terms_of(items@) =~= Seq::<Term>::empty());
    assert(after_items(Seq::empty(), items_at(s@, i as int)) == items_at(s@, i as int)) by {
        match items_at(s@, i as int) {
            Ok((k, ts)) => {
                assert(Seq::<Term>::empty() + ts =~= ts);
            },
            Err(_) => {},
        }
    }
    loop
        invariant
            s@ == input@,
            i <= p <= s.len(),
            items_at(s@, i as int) == after_items(terms_of(items@), items_at(s@, p as int)),
        decreases s.len() - p,
    {
        let q = skip_space_at(s, p);
        proof {
            lemma_skip_space(s@, p as int);
        }
        if q == s.len() {
            return Err(q);
        }
        if s[q] == ')' {
            proof {
                assert(terms_of(items@) + Seq::<Term>::empty() =~= terms_of(items@));
            }
            return Ok((q + 1, items));
        }
        match expr_at_pos(input, s, q) {
            Err(e) => return Err(e),
            Ok((k, t)) => {
                let ghost before = items@;
                let ghost done = terms_of(items@);
                let ghost tt = t@;
                items.push(t);
                proof {
                    assert(items@.drop_last() =~= before);
                    assert(terms_of(items@) == done.push(tt));
                    match items_at(s@, k as int) {
                        Ok((m, ts)) => {
                            assert(done + (seq![tt] + ts) =~= done.push(tt) + ts);
                        },
                        Err(_) => {},
                    }
                }
                p = k;
            },
        }
    }
}

/// Reads an application whose parenthesis is at `i`.
fn procedure_at_pos(input: &str, s: &Vec<char>, i: usize) -> (r: Result<(usize, Expr), usize>)
    requires
        s@ == input@,
        i <= s.len(),
    ensures
        term_res(r) == procedure_at(s@, i as int),
        r matches Ok((k, _)) ==> i < k <= s.len(),
        r matches Err(p) ==> p <= s.len(),
    decreases s.len() - i, 1nat,
{
    if !(i < s.len() && s[i] == '(') {
        return Err(i);
    }
    let (k, head) = match expr_at_pos(input, s, i + 1) {
        Ok(parsed) => parsed,
        Err(e) => return Err(e),
    };
    let (m, args) = match items_at_pos(input, s, k) {
        Ok(parsed) => parsed,
        Err(e) => return Err(e),
    };
    Ok((m, Expr::Procedure(Box::new(head), args)))
}

/// Reads a `define` form whose parenthesis is at `i`.
fn define_at_pos(input: &str, s: &Vec<char>, i: usize) -> (r: Result<(usize, Expr), usize>)
    requires
        s@ == input@,
        i <= s.len(),
    ensures
        term_res(r) == define_at(s@, i as int),
        r matches Ok((k, _)) ==> i < k <= s.len(),
        r matches Err(p) ==> p <= s.len(),
    decreases s.len() - i, 1nat,
{
    proof {
        assert(['d', 'e', 'f', 'i', 'n', 'e']@ =~= define_word());
    }
    let q = match keyword_at_pos(s, i, &['d', 'e', 'f', 'i', 'n', 'e']) {
        Ok(q) => q,
        Err(e) => return Err(e),
    };
    let n0 = skip_space_at(s, q);
    proof {
        lemma_skip_space(s@, q as int);
    }
    let (n, name) = match symbol_name_at_pos(input, s, n0) {
        Ok(parsed) => parsed,
        Err(e) => return Err(e),
    };
    proof {
        lemma_word_end(s@, n0 as int);
    }
    let (k, value) = match expr_at_pos(input, s, n) {
        Ok(parsed) => parsed,
        Err(e) => return Err(e),
    };
    let m = match close_at_pos(s, k) {
        Ok(m) => m,
        Err(e) => return Err(e),
    };
    Ok((m, Expr::Define(name, Box::new(value))))
}

/// Reads a `lambda` form whose parenthesis is at `i`.
fn lambda_at_pos(input: &str, s: &Vec<char>, i: usize) -> (r: Result<(usize, Expr), usize>)
    requires
        s@ == input@,
        i <= s.len(),
    ensures
        term_res(r) == lambda_at(s@, i as int),
        r matches Ok((k, _)) ==> i < k <= s.len(),
        r matches Err(p) ==> p <= s.len(),
    decreases s.len() - i, 1nat,
{
    proof {
        assert(['l', 'a', 'm', 'b', 'd', 'a']@ =~= lambda_word());
    }
    let q = match keyword_at_pos(s, i, &['l', 'a', 'm', 'b', 'd', 'a']) {
        Ok(q) => q,
        Err(e) => return Err(e),
    };
    let r = skip_space_at(s, q);
    proof {
        lemma_skip_space(s@, q as int);
    }
    if !(r < s.len() && s[r] == '(') {
        return Err(r);
    }
    let (k, params) = match items_at_pos(input, s, r + 1) {
        Ok(parsed) => parsed,
        Err(e) => return Err(e),
    };
    let (m, body) = match expr_at_pos(input, s, k) {
        Ok(parsed) => parsed,
        Err(e) => return Err(e),
    };
    let c = match close_at_pos(s, m) {
        Ok(c) => c,
        Err(e) => return Err(e),
    };
    Ok((c, Expr::Lambda(params, Box::new(body))))
}

/// Reads the symbol at `i`.
fn symbol_at_pos(input: &str, s: &Vec<char>, i: usize) -> (r: Result<(usize, Expr), usize>)
    requires
        s@ == input@,
        i <= s.len(),
    ensures
        term_res(r) == symbol_at(s@, i as int),
        r matches Ok((k, _)) ==> i < k <= s.len(),
        r matches Err(p) ==> p <= s.len(),
{
    match symbol_name_at_pos(input, s, i) {
        Ok((k, name)) => {
            proof {
                lemma_word_end(s@, i as int);
            }
            Ok((k, Expr::Symbol(name)))
        },
        Err(e) => Err(e),
    }
}

/// Reads a number, boolean or operator at `i`, as an expression.
fn self_eval_term_at_pos(s: &Vec<char>, i: usize) -> (r: Result<(usize, Expr), usize>)
    requires
        i <= s.len(),
    ensures
        term_res(r) == self_eval_term_at(s@, i as int),
        r matches Ok((k, _)) ==> i < k <= s.len(),
        r matches Err(p) ==> p <= s.len(),
{
    match self_eval_at_pos(s, i) {
        Ok((k, a)) => Ok((k, Expr::SelfEvaluation(a))),
        Err(e) => Err(e),
    }
}

/// The characters of `input`, in order.
fn chars_of(input: &str) -> (r: Vec<char>)
    ensures
        r@ == input@,
{
    let mut r: Vec<char> = Vec::new();
    for c in it: input.chars()
        invariant
            it.seq() == input@,
            r@ == input@.subrange(0, it.index() as int),
    {
        r.push(c);
    }
    assert(r@ =~= input@);
    r
}

/// A failed parse: the input from the position where parsing failed.
#[derive(Debug, PartialEq)]
pub struct ParseError<'a> {
    pub remaining: &'a str,
}

/// Whether `r` reports, on `input`, the outcome `spec` of an atom parser.
pub open spec fn parsed_atom<'a>(
    input: &'a str,
    spec: Result<(int, Atom), int>,
    r: Result<(&'a str, Atom), ParseError<'a>>,
) -> bool {
    match (spec, r) {
        (Ok((k, a)), Ok((rest, b))) => rest@ == input@.subrange(k, input@.len() as int) && b == a,
        (Err(p), Err(e)) => e.remaining@ == input@.subrange(p, input@.len() as int),
        _ => false,
    }
}

/// Whether `r` reports, on `input`, the outcome `spec` of an expression
/// parser.
pub open spec fn parsed_expr<'a>(
    input: &'a str,
    spec: Result<(int, Term), int>,
    r: Result<(&'a str, Expr), ParseError<'a>>,
) -> bool {
    match (spec, r) {
        (Ok((k, t)), Ok((rest, e))) => rest@ == input@.subrange(k, input@.len() as int) && e@ == t,
        (Err(p), Err(e)) => e.remaining@ == input@.subrange(p, input@.len() as int),
        _ => false,
    }
}

/// Reports the outcome of an atom parser in terms of `input`.
fn finish_atom<'a>(input: &'a str, r: Result<(usize, Atom), usize>) -> (out: Result<
    (&'a str, Atom),
    ParseError<'a>,
>)
    requires
        match r {
            Ok((k, _)) => k <= input@.len(),
            Err(p) => p <= input@.len(),
        },
    ensures
        parsed_atom(input, atom_res(r), out),
{
    let n = input.unicode_len();
    match r {
        Ok((k, a)) => Ok((input.substring_char(k, n), a)),
        Err(p) => Err(ParseError { remaining: input.substring_char(p, n) }),
    }
}

/// Reports the outcome of an expression parser in terms of `input`.
fn finish_expr<'a>(input: &'a str, r: Result<(usize, Expr), usize>) -> (out: Result<
    (&'a str, Expr),
    ParseError<'a>,
>)
    requires
        match r {
            Ok((k, _)) => k <= input@.len(),
            Err(p) => p <= input@.len(),
        },
    ensures
        parsed_expr(input, term_res(r), out),
{
    let n = input.unicode_len();
    match r {
        Ok((k, e)) => Ok((input.substring_char(k, n), e)),
        Err(p) => Err(ParseError { remaining: input.substring_char(p, n) }),
    }
}

/// Parses a signed decimal number at the start of `input`.
pub fn parse_number(input: &str) -> (r: Result<(&str, Atom), ParseError>)
    ensures
        parsed_atom(input, number_at(input@, 0), r),
{
    let s = chars_of(input);
    finish_atom(input, number_at_pos(&s, 0))
}

/// Parses `#t` or `#f` at the start of `input`.
pub fn parse_bool(input: &str) -> (r: Result<(&str, Atom), ParseError>)
    ensures
        parsed_atom(input, bool_at(input@, 0), r),
{
    let s = chars_of(input);
    finish_atom(input, bool_at_pos(&s, 0))
}

/// Parses one of the operators `+ - * /` at the start of `input`.
pub fn parse_operater(input: &str) -> (r: Result<(&str, Atom), ParseError>)
    ensures
        parsed_atom(input, operator_at(input@, 0), r),
{
    let s = chars_of(input);
    finish_atom(input, operator_at_pos(&s, 0))
}

/// Parses a symbol at the start of `input`.
pub fn parse_symbol(input: &str) -> (r: Result<(&str, Expr), ParseError>)
    ensures
        parsed_expr(input, symbol_at(input@, 0), r),
{
    let s = chars_of(input);
    finish_expr(input, symbol_at_pos(input, &s, 0))
}

/// Parses a number, boolean or operator at the start of `input`.
pub fn parse_selfeval(input: &str) -> (r: Result<(&str, Expr), ParseError>)
    ensures
        parsed_expr(input, self_eval_term_at(input@, 0), r),
{
    let s = chars_of(input);
    finish_expr(input, self_eval_term_at_pos(&s, 0))
}

/// Parses `(define <symbol> <expr>)` at the start of `input`.
pub fn parse_define(input: &str) -> (r: Result<(&str, Expr), ParseError>)
    ensures
        parsed_expr(input, define_at(input@, 0), r),
{
    let s = chars_of(input);
    finish_expr(input, define_at_pos(input, &s, 0))
}

/// Parses an application `(<expr> <expr>*)` at the start of `input`.
pub fn parse_procedure(input: &str) -> (r: Result<(&str, Expr), ParseError>)
    ensures
        parsed_expr(input, procedure_at(input@, 0), r),
{
    let s = chars_of(input);
    finish_expr(input, procedure_at_pos(input, &s, 0))
}

/// Parses `(lambda (<expr>*) <expr>)` at the start of `input`.
pub fn parse_lambda(input: &str) -> (r: Result<(&str, Expr), ParseError>)
    ensures
        parsed_expr(input, lambda_at(input@, 0), r),
{
    let s = chars_of(input);
    finish_expr(input, lambda_at_pos(input, &s, 0))
}

/// Parses one expression, after optional whitespace, at the start of
/// `input`: the input that follows it and the expression.
pub fn parse_expr(input: &str) -> (r: Result<(&str, Expr), ParseError>)
    ensures
        parsed_expr(input, expr_at(input@, 0), r),
{
    let s = chars_of(input);
    finish_expr(input, expr_at_pos(input, &s, 0))
}

} // verus!
