//! The commands: their syntax tree and their grammar.
//!
//! ```text
//! statement  := assignment | conversion
//! assignment := identifier '=' sum
//! conversion := sum ('>>' identifier)?
//! sum        := term (('+' | '-') term)*
//! term       := unary (('*' | '/') unary)*
//! unary      := '-'* atom
//! atom       := integer identifier? | '(' sum ')' | identifier
//! ```
//!
//! An integer is `0` or a digit other than `0` followed by digits. An
//! identifier is a letter or `_` followed by letters, digits and `_`, or the
//! single character `$`. White space may stand before and after every token.

use vstd::prelude::*;
use crate::operator::Operator;
use crate::text::{lemma_skip_space_bounds, skip_space, text_between};

verus! {

/// A command as a tree.
#[derive(Debug)]
pub enum Expr<'src> {
    /// A number, written in decimal digits, and the unit behind it.
    Num(&'src str, Option<&'src str>),
    /// A variable; `$` is the result of the last command.
    Var(&'src str),
    Neg(Box<Expr<'src>>),
    Binary(Operator, Box<Expr<'src>>, Box<Expr<'src>>),
    Assign { name: &'src str, rhs: Box<Expr<'src>> },
    /// A conversion to the unit named, or the expression as it is.
    To(Box<Expr<'src>>, Option<&'src str>),
}

/// A command as the contracts see it.
pub enum ExprView {
    Num(Seq<char>, Option<Seq<char>>),
    Var(Seq<char>),
    Neg(Box<ExprView>),
    Binary(Operator, Box<ExprView>, Box<ExprView>),
    Assign { name: Seq<char>, rhs: Box<ExprView> },
    To(Box<ExprView>, Option<Seq<char>>),
}

pub open spec fn optional_text(text: Option<&str>) -> Option<Seq<char>> {
    match text {
        Some(t) => Some(t@),
        None => None,
    }
}

impl<'src> Expr<'src> {
    pub open spec fn shown(self) -> ExprView
        decreases self,
    {
        match self {
            Expr::Num(digits, unit) => ExprView::Num(digits@, optional_text(unit)),
            Expr::Var(name) => ExprView::Var(name@),
            Expr::Neg(inner) => ExprView::Neg(Box::new(inner.shown())),
            Expr::Binary(operator, left, right) => ExprView::Binary(
                operator,
                Box::new(left.shown()),
                Box::new(right.shown()),
            ),
            Expr::Assign { name, rhs } => ExprView::Assign { name: name@, rhs: Box::new(rhs.shown()) },
            Expr::To(inner, unit) => ExprView::To(Box::new(inner.shown()), optional_text(unit)),
        }
    }
}

impl<'src> View for Expr<'src> {
    type V = ExprView;

    open spec fn view(&self) -> ExprView {
        self.shown()
    }
}

pub open spec fn is_digit(b: u8) -> bool {
    0x30 <= b <= 0x39
}

pub open spec fn starts_name(b: u8) -> bool {
    (0x41 <= b <= 0x5A) || (0x61 <= b <= 0x7A) || b == 0x5F
}

pub open spec fn continues_name(b: u8) -> bool {
    starts_name(b) || is_digit(b)
}

/// The end of the digits that start at `i`.
pub open spec fn digits_end(s: Seq<u8>, i: int) -> int
    decreases s.len() - i,
{
    if 0 <= i < s.len() && is_digit(s[i]) {
        digits_end(s, i + 1)
    } else {
        i
    }
}

/// The end of the integer that starts at `i`, or `i` where none starts.
pub open spec fn integer_end(s: Seq<u8>, i: int) -> int {
    if 0 <= i < s.len() && s[i] == 0x30 {
        i + 1
    } else if 0 <= i < s.len() && is_digit(s[i]) {
        digits_end(s, i + 1)
    } else {
        i
    }
}

/// The end of the letters, digits and `_` that start at `i`.
pub open spec fn name_end(s: Seq<u8>, i: int) -> int
    decreases s.len() - i,
{
    if 0 <= i < s.len() && continues_name(s[i]) {
        name_end(s, i + 1)
    } else {
        i
    }
}

/// The end of the identifier that starts at `i`, or `i` where none starts.
pub open spec fn identifier_end(s: Seq<u8>, i: int) -> int {
    if 0 <= i < s.len() && starts_name(s[i]) {
        name_end(s, i + 1)
    } else if 0 <= i < s.len() && s[i] == 0x24 {
        i + 1
    } else {
        i
    }
}

/// What reading a part of a command gives: the tree and the position after
/// it and the white space behind it, or the position where reading stopped.
pub enum Parsed {
    Done { expr: ExprView, next: int },
    Stuck { at: int },
}

/// `next` lies after `i` and within a text of length `len`.
pub open spec fn advances(i: int, next: int, len: nat) -> bool {
    i < next <= len
}

pub open spec fn atom(s: Seq<u8>, i: int) -> Parsed
    decreases s.len() - i, 0int,
{
    let j = skip_space(s, i);
    let k = integer_end(s, j);
    if k > j {
        let u = skip_space(s, k);
        let v = identifier_end(s, u);
        if v > u {
            Parsed::Done {
                expr: ExprView::Num(text_between(s, j, k), Some(text_between(s, u, v))),
                next: skip_space(s, v),
            }
        } else {
            Parsed::Done { expr: ExprView::Num(text_between(s, j, k), None), next: u }
        }
    } else if 0 <= i <= j < s.len() && s[j] == 0x28 {
        match sum(s, j + 1) {
            Parsed::Done { expr, next } => if 0 <= next < s.len() && s[next] == 0x29 {
                Parsed::Done { expr, next: skip_space(s, next + 1) }
            } else {
                Parsed::Stuck { at: next }
            },
            Parsed::Stuck { at } => Parsed::Stuck { at },
        }
    } else {
        let v = identifier_end(s, j);
        if v > j {
            Parsed::Done { expr: ExprView::Var(text_between(s, j, v)), next: skip_space(s, v) }
        } else {
            Parsed::Stuck { at: j }
        }
    }
}

pub open spec fn unary(s: Seq<u8>, i: int) -> Parsed
    decreases s.len() - i, 1int,
{
    let j = skip_space(s, i);
    if 0 <= i <= j < s.len() && s[j] == 0x2D {
        match unary(s, j + 1) {
            Parsed::Done { expr, next } => Parsed::Done { expr: ExprView::Neg(Box::new(expr)), next },
            Parsed::Stuck { at } => Parsed::Stuck { at },
        }
    } else {
        atom(s, i)
    }
}

/// The operator of a term that the byte stands for.
pub open spec fn term_operator(b: u8) -> Option<Operator> {
    if b == 0x2A {
        Some(Operator::Multiply)
    } else if b == 0x2F {
        Some(Operator::Divide)
    } else {
        None
    }
}

/// The operator of a sum that the byte stands for.
pub open spec fn sum_operator(b: u8) -> Option<Operator> {
    if b == 0x2B {
        Some(Operator::Add)
    } else if b == 0x2D {
        Some(Operator::Subtract)
    } else {
        None
    }
}

/// The rest of a term whose left part is read: operators and operands as
/// long as an operator follows, taken from the left.
///
/// The operand always ends after the operator (`lemma_unary_in_order`), so
/// the test on `advances` never fails; it is there to show that the reading
/// comes to an end.
pub open spec fn term_rest(s: Seq<u8>, i: int, left: ExprView) -> Parsed
    decreases s.len() - i, 2int,
{
    if 0 <= i < s.len() && term_operator(s[i]) is Some {
        match unary(s, i + 1) {
            Parsed::Done { expr, next } => if advances(i, next, s.len()) {
                term_rest(
                    s,
                    next,
                    ExprView::Binary(term_operator(s[i])->0, Box::new(left), Box::new(expr)),
                )
            } else {
                Parsed::Stuck { at: i }
            },
            Parsed::Stuck { at } => Parsed::Stuck { at },
        }
    } else {
        Parsed::Done { expr: left, next: i }
    }
}

pub open spec fn term(s: Seq<u8>, i: int) -> Parsed
    decreases s.len() - i, 3int,
{
    match unary(s, i) {
        Parsed::Done { expr, next } => if advances(i, next, s.len()) {
            term_rest(s, next, expr)
        } else {
            Parsed::Stuck { at: i }
        },
        Parsed::Stuck { at } => Parsed::Stuck { at },
    }
}

/// The rest of a sum whose left part is read; as for a term, the test on
/// `advances` never fails.
pub open spec fn sum_rest(s: Seq<u8>, i: int, left: ExprView) -> Parsed
    decreases s.len() - i, 4int,
{
    if 0 <= i < s.len() && sum_operator(s[i]) is Some {
        match term(s, i + 1) {
            Parsed::Done { expr, next } => if advances(i, next, s.len()) {
                sum_rest(
                    s,
                    next,
                    ExprView::Binary(sum_operator(s[i])->0, Box::new(left), Box::new(expr)),
                )
            } else {
                Parsed::Stuck { at: i }
            },
            Parsed::Stuck { at } => Parsed::Stuck { at },
        }
    } else {
        Parsed::Done { expr: left, next: i }
    }
}

pub open spec fn sum(s: Seq<u8>, i: int) -> Parsed
    decreases s.len() - i, 5int,
{
    match term(s, i) {
        Parsed::Done { expr, next } => if advances(i, next, s.len()) {
            sum_rest(s, next, expr)
        } else {
            Parsed::Stuck { at: i }
        },
        Parsed::Stuck { at } => Parsed::Stuck { at },
    }
}

/// A whole statement, read from the start of `s`.
///
/// A name followed by `=` starts an assignment. Everything else is a sum,
/// which `>>` and the name of a unit may follow; after a single `>` reading
/// stops behind it, where the second `>` is missing.
pub open spec fn statement(s: Seq<u8>) -> Parsed {
    let j = skip_space(s, 0);
    let v = identifier_end(s, j);
    let w = skip_space(s, v);
    if v > j && 0 <= w < s.len() && s[w] == 0x3D {
        match sum(s, w + 1) {
            Parsed::Done { expr, next } => Parsed::Done {
                expr: ExprView::Assign { name: text_between(s, j, v), rhs: Box::new(expr) },
                next,
            },
            Parsed::Stuck { at } => Parsed::Stuck { at },
        }
    } else {
        match sum(s, 0) {
            Parsed::Done { expr, next } => if 0 <= next < s.len() && s[next] == 0x3E {
                if next + 1 < s.len() && s[next + 1] == 0x3E {
                    let u = skip_space(s, next + 2);
                    let v = identifier_end(s, u);
                    if v > u {
                        Parsed::Done {
                            expr: ExprView::To(Box::new(expr), Some(text_between(s, u, v))),
                            next: skip_space(s, v),
                        }
                    } else {
                        Parsed::Stuck { at: u }
                    }
                } else {
                    Parsed::Stuck { at: next + 1 }
                }
            } else {
                Parsed::Done { expr: ExprView::To(Box::new(expr), None), next }
            },
            Parsed::Stuck { at } => Parsed::Stuck { at },
        }
    }
}

/// The tree of the command that the bytes `s` write, or the position of the
/// first byte that cannot be read: a statement must fill the whole text.
#[verifier::opaque]
pub open spec fn parse(s: Seq<u8>) -> Result<ExprView, int> {
    match statement(s) {
        Parsed::Done { expr, next } => if next == s.len() {
            Ok(expr)
        } else {
            Err(next)
        },
        Parsed::Stuck { at } => Err(at),
    }
}

/// The tree holds no assignment and no conversion: it is made of numbers,
/// variables, negations and operators alone.
pub open spec fn plain(expr: ExprView) -> bool
    decreases expr,
{
    match expr {
        ExprView::Num(_, _) => true,
        ExprView::Var(_) => true,
        ExprView::Neg(inner) => plain(*inner),
        ExprView::Binary(_, left, right) => plain(*left) && plain(*right),
        ExprView::Assign { .. } => false,
        ExprView::To(_, _) => false,
    }
}

/// The tree is that of a statement: an assignment of a plain tree, or a
/// plain tree with or without a conversion.
pub open spec fn is_statement(expr: ExprView) -> bool {
    match expr {
        ExprView::Assign { rhs, .. } => plain(*rhs),
        ExprView::To(inner, _) => plain(*inner),
        _ => false,
    }
}

/// Where a reading that starts at `i` ends: after `i` where it gave a tree,
/// which is plain, and within the text either way.
pub open spec fn in_order(reading: Parsed, i: int, len: nat) -> bool {
    match reading {
        Parsed::Done { expr, next } => advances(i, next, len) && plain(expr),
        Parsed::Stuck { at } => i <= at <= len,
    }
}

/// Where the rest of a term or of a sum ends: at `i` or after it, with a
/// plain tree where the left part was plain.
pub open spec fn in_order_from(reading: Parsed, i: int, len: nat, left: ExprView) -> bool {
    match reading {
        Parsed::Done { expr, next } => i <= next <= len && (plain(left) ==> plain(expr)),
        Parsed::Stuck { at } => i <= at <= len,
    }
}

pub proof fn lemma_digits_end_bounds(s: Seq<u8>, i: int)
    requires
        0 <= i <= s.len(),
    ensures
        i <= digits_end(s, i) <= s.len(),
    decreases s.len() - i,
{
    if i < s.len() && is_digit(s[i]) {
        lemma_digits_end_bounds(s, i + 1);
    }
}

pub proof fn lemma_name_end_bounds(s: Seq<u8>, i: int)
    requires
        0 <= i <= s.len(),
    ensures
        i <= name_end(s, i) <= s.len(),
    decreases s.len() - i,
{
    if i < s.len() && continues_name(s[i]) {
        lemma_name_end_bounds(s, i + 1);
    }
}

/// Every part of the grammar reads forward: an atom, a negation, a term and
/// a sum end after their start, so the rest of a term or of a sum is always
/// read from a later position. None of them holds an assignment or a
/// conversion.
pub proof fn lemma_atom_in_order(s: Seq<u8>, i: int)
    requires
        0 <= i <= s.len(),
    ensures
        in_order(atom(s, i), i, s.len()),
    decreases s.len() - i, 0int,
{
    let j = skip_space(s, i);
    lemma_skip_space_bounds(s, i);
    let k = integer_end(s, j);
    if j < s.len() && is_digit(s[j]) && s[j] != 0x30 {
        lemma_digits_end_bounds(s, j + 1);
    }
    if k > j {
        let u = skip_space(s, k);
        lemma_skip_space_bounds(s, k);
        let v = identifier_end(s, u);
        if u < s.len() && starts_name(s[u]) {
            lemma_name_end_bounds(s, u + 1);
        }
        lemma_skip_space_bounds(s, v);
    } else if j < s.len() && s[j] == 0x28 {
        lemma_sum_in_order(s, j + 1);
        match sum(s, j + 1) {
            Parsed::Done { next, .. } => {
                lemma_skip_space_bounds(s, next + 1);
            },
            Parsed::Stuck { .. } => {},
        }
    } else {
        let v = identifier_end(s, j);
        if j < s.len() && starts_name(s[j]) {
            lemma_name_end_bounds(s, j + 1);
        }
        lemma_skip_space_bounds(s, v);
    }
}

pub proof fn lemma_unary_in_order(s: Seq<u8>, i: int)
    requires
        0 <= i <= s.len(),
    ensures
        in_order(unary(s, i), i, s.len()),
    decreases s.len() - i, 1int,
{
    let j = skip_space(s, i);
    lemma_skip_space_bounds(s, i);
    if j < s.len() && s[j] == 0x2D {
        lemma_unary_in_order(s, j + 1);
    } else {
        lemma_atom_in_order(s, i);
    }
}

pub proof fn lemma_term_rest_in_order(s: Seq<u8>, i: int, left: ExprView)
    requires
        0 <= i <= s.len(),
    ensures
        in_order_from(term_rest(s, i, left), i, s.len(), left),
    decreases s.len() - i, 2int,
{
    if i < s.len() && term_operator(s[i]) is Some {
        lemma_unary_in_order(s, i + 1);
        match unary(s, i + 1) {
            Parsed::Done { expr, next } => {
                lemma_term_rest_in_order(
                    s,
                    next,
                    ExprView::Binary(term_operator(s[i])->0, Box::new(left), Box::new(expr)),
                );
            },
            Parsed::Stuck { .. } => {},
        }
    }
}

pub proof fn lemma_term_in_order(s: Seq<u8>, i: int)
    requires
        0 <= i <= s.len(),
    ensures
        in_order(term(s, i), i, s.len()),
    decreases s.len() - i, 3int,
{
    lemma_unary_in_order(s, i);
    match unary(s, i) {
        Parsed::Done { expr, next } => {
            lemma_term_rest_in_order(s, next, expr);
        },
        Parsed::Stuck { .. } => {},
    }
}

pub proof fn lemma_sum_rest_in_order(s: Seq<u8>, i: int, left: ExprView)
    requires
        0 <= i <= s.len(),
    ensures
        in_order_from(sum_rest(s, i, left), i, s.len(), left),
    decreases s.len() - i, 4int,
{
    if i < s.len() && sum_operator(s[i]) is Some {
        lemma_term_in_order(s, i + 1);
        match term(s, i + 1) {
            Parsed::Done { expr, next } => {
                lemma_sum_rest_in_order(
                    s,
                    next,
                    ExprView::Binary(sum_operator(s[i])->0, Box::new(left), Box::new(expr)),
                );
            },
            Parsed::Stuck { .. } => {},
        }
    }
}

pub proof fn lemma_sum_in_order(s: Seq<u8>, i: int)
    requires
        0 <= i <= s.len(),
    ensures
        in_order(sum(s, i), i, s.len()),
    decreases s.len() - i, 5int,
{
    lemma_term_in_order(s, i);
    match term(s, i) {
        Parsed::Done { expr, next } => {
            lemma_sum_rest_in_order(s, next, expr);
        },
        Parsed::Stuck { .. } => {},
    }
}

/// Where a command cannot be read, the position that is reported lies within
/// the command or at its end. Where it can be read, its tree is that of a
/// statement: an assignment stands at the top or nowhere.
pub proof fn lemma_parse_position(s: Seq<u8>)
    ensures
        parse(s) is Err ==> 0 <= parse(s)->Err_0 <= s.len(),
        parse(s) is Ok ==> is_statement(parse(s)->Ok_0),
{
    reveal(parse);
    lemma_skip_space_bounds(s, 0);
    let j = skip_space(s, 0);
    let v = identifier_end(s, j);
    if j < s.len() && starts_name(s[j]) {
        lemma_name_end_bounds(s, j + 1);
    }
    lemma_skip_space_bounds(s, v);
    let w = skip_space(s, v);
    if v > j && 0 <= w < s.len() && s[w] == 0x3D {
        lemma_sum_in_order(s, w + 1);
    } else {
        lemma_sum_in_order(s, 0);
        match sum(s, 0) {
            Parsed::Done { next, .. } => {
                if next + 1 < s.len() && s[next] == 0x3E && s[next + 1] == 0x3E {
                    lemma_skip_space_bounds(s, next + 2);
                    let u = skip_space(s, next + 2);
                    if u < s.len() && starts_name(s[u]) {
                        lemma_name_end_bounds(s, u + 1);
                    }
                    lemma_skip_space_bounds(s, identifier_end(s, u));
                }
            },
            Parsed::Stuck { .. } => {},
        }
    }
}

} // verus!
