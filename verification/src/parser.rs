//! Reading a command into its tree.

use vstd::prelude::*;
use vstd::string::StringSliceAdditionalSpecFns;
use vstd::utf8::{encode_utf8_valid_utf8, is_char_boundary_start_end_of_seq, valid_utf8};
use crate::operator::Operator;
use crate::syntax::{advances, atom, continues_name, digits_end, identifier_end, integer_end, is_digit, name_end, parse, starts_name, statement, sum, sum_operator, sum_rest, term, term_operator, term_rest, unary, Expr, Parsed};
use crate::text::{boundary, lemma_boundary_next, skip_space_from, slice};

verus! {

/// What reading a part of a command gives: the tree and the position after
/// it, or the position where reading stopped.
pub type Reading<'src> = Result<(Expr<'src>, usize), usize>;

pub open spec fn reading_view<'src>(reading: Reading<'src>) -> Parsed {
    match reading {
        Ok((expr, next)) => Parsed::Done { expr: expr@, next: next as int },
        Err(at) => Parsed::Stuck { at: at as int },
    }
}

/// A reading that starts at `i` ends at a boundary of `s`, and after `i` where
/// it gave a tree.
pub open spec fn sound<'src>(reading: Reading<'src>, s: Seq<u8>, i: int) -> bool {
    match reading {
        Ok((_, next)) => advances(i, next as int, s.len()) && boundary(s, next as int),
        Err(at) => i <= at <= s.len() && boundary(s, at as int),
    }
}

fn byte_is_digit(b: u8) -> (yes: bool)
    ensures
        yes == is_digit(b),
{
    0x30 <= b && b <= 0x39
}

fn byte_starts_name(b: u8) -> (yes: bool)
    ensures
        yes == starts_name(b),
{
    (0x41 <= b && b <= 0x5A) || (0x61 <= b && b <= 0x7A) || b == 0x5F
}

fn byte_continues_name(b: u8) -> (yes: bool)
    ensures
        yes == continues_name(b),
{
    byte_starts_name(b) || byte_is_digit(b)
}

/// The end of the digits that start at byte `i`.
fn read_digits_end(src: &str, i: usize) -> (k: usize)
    requires
        i <= src.spec_bytes().len(),
        boundary(src.spec_bytes(), i as int),
    ensures
        k == digits_end(src.spec_bytes(), i as int),
        i <= k <= src.spec_bytes().len(),
        boundary(src.spec_bytes(), k as int),
{
    let bytes = src.as_bytes();
    let ghost s = src.spec_bytes();
    let mut k: usize = i;
    proof {
        encode_utf8_valid_utf8(src@);
    }
    while k < bytes.len() && byte_is_digit(bytes[k])
        invariant
            bytes@ == s,
            s == src.spec_bytes(),
            valid_utf8(s),
            i <= k <= s.len(),
            boundary(s, k as int),
            digits_end(s, i as int) == digits_end(s, k as int),
        decreases s.len() - k,
    {
        proof {
            lemma_boundary_next(s, k as int);
        }
        k = k + 1;
    }
    k
}

/// The end of the letters, digits and `_` that start at byte `i`.
fn read_name_end(src: &str, i: usize) -> (k: usize)
    requires
        i <= src.spec_bytes().len(),
        boundary(src.spec_bytes(), i as int),
    ensures
        k == name_end(src.spec_bytes(), i as int),
        i <= k <= src.spec_bytes().len(),
        boundary(src.spec_bytes(), k as int),
{
    let bytes = src.as_bytes();
    let ghost s = src.spec_bytes();
    let mut k: usize = i;
    proof {
        encode_utf8_valid_utf8(src@);
    }
    while k < bytes.len() && byte_continues_name(bytes[k])
        invariant
            bytes@ == s,
            s == src.spec_bytes(),
            valid_utf8(s),
            i <= k <= s.len(),
            boundary(s, k as int),
            name_end(s, i as int) == name_end(s, k as int),
        decreases s.len() - k,
    {
        proof {
            lemma_boundary_next(s, k as int);
        }
        k = k + 1;
    }
    k
}

/// The end of the integer that starts at byte `i`, or `i` where none starts.
fn read_integer_end(src: &str, i: usize) -> (k: usize)
    requires
        i <= src.spec_bytes().len(),
        boundary(src.spec_bytes(), i as int),
    ensures
        k == integer_end(src.spec_bytes(), i as int),
        i <= k <= src.spec_bytes().len(),
        boundary(src.spec_bytes(), k as int),
{
    let bytes = src.as_bytes();
    if i >= bytes.len() || !byte_is_digit(bytes[i]) {
        return i;
    }
    proof {
        encode_utf8_valid_utf8(src@);
        lemma_boundary_next(src.spec_bytes(), i as int);
    }
    if bytes[i] == 0x30 {
        i + 1
    } else {
        read_digits_end(src, i + 1)
    }
}

/// The end of the identifier that starts at byte `i`, or `i` where none starts.
fn read_identifier_end(src: &str, i: usize) -> (k: usize)
    requires
        i <= src.spec_bytes().len(),
        boundary(src.spec_bytes(), i as int),
    ensures
        k == identifier_end(src.spec_bytes(), i as int),
        i <= k <= src.spec_bytes().len(),
        boundary(src.spec_bytes(), k as int),
{
    let bytes = src.as_bytes();
    if i >= bytes.len() {
        return i;
    }
    proof {
        encode_utf8_valid_utf8(src@);
        lemma_boundary_next(src.spec_bytes(), i as int);
    }
    if byte_starts_name(bytes[i]) {
        read_name_end(src, i + 1)
    } else if bytes[i] == 0x24 {
        i + 1
    } else {
        i
    }
}

fn parse_atom<'src>(src: &'src str, i: usize) -> (reading: Reading<'src>)
    requires
        i <= src.spec_bytes().len(),
        boundary(src.spec_bytes(), i as int),
    ensures
        reading_view(reading) == atom(src.spec_bytes(), i as int),
        sound(reading, src.spec_bytes(), i as int),
    decreases src.spec_bytes().len() - i, 0int,
{
    let bytes = src.as_bytes();
    let ghost s = src.spec_bytes();
    proof {
        encode_utf8_valid_utf8(src@);
    }
    let j = skip_space_from(src, i);
    let k = read_integer_end(src, j);
    if k > j {
        let digits = slice(src, j, k);
        let u = skip_space_from(src, k);
        let v = read_identifier_end(src, u);
        if v > u {
            let unit = slice(src, u, v);
            let next = skip_space_from(src, v);
            Ok((Expr::Num(digits, Some(unit)), next))
        } else {
            Ok((Expr::Num(digits, None), u))
        }
    } else if j < bytes.len() && bytes[j] == 0x28 {
        proof {
            lemma_boundary_next(s, j as int);
        }
        match parse_sum(src, j + 1) {
            Ok((expr, next)) => {
                if next < bytes.len() && bytes[next] == 0x29 {
                    proof {
                        lemma_boundary_next(s, next as int);
                    }
                    let after = skip_space_from(src, next + 1);
                    Ok((expr, after))
                } else {
                    Err(next)
                }
            },
            Err(at) => Err(at),
        }
    } else {
        let v = read_identifier_end(src, j);
        if v > j {
            let name = slice(src, j, v);
            let next = skip_space_from(src, v);
            Ok((Expr::Var(name), next))
        } else {
            Err(j)
        }
    }
}

fn parse_unary<'src>(src: &'src str, i: usize) -> (reading: Reading<'src>)
    requires
        i <= src.spec_bytes().len(),
        boundary(src.spec_bytes(), i as int),
    ensures
        reading_view(reading) == unary(src.spec_bytes(), i as int),
        sound(reading, src.spec_bytes(), i as int),
    decreases src.spec_bytes().len() - i, 1int,
{
    let bytes = src.as_bytes();
    let ghost s = src.spec_bytes();
    let j = skip_space_from(src, i);
    if j < bytes.len() && bytes[j] == 0x2D {
        proof {
            encode_utf8_valid_utf8(src@);
            lemma_boundary_next(s, j as int);
        }
        match parse_unary(src, j + 1) {
            Ok((expr, next)) => Ok((Expr::Neg(Box::new(expr)), next)),
            Err(at) => Err(at),
        }
    } else {
        parse_atom(src, i)
    }
}

fn read_term_operator(b: u8) -> (operator: Option<Operator>)
    ensures
        operator == term_operator(b),
{
    if b == 0x2A {
        Some(Operator::Multiply)
    } else if b == 0x2F {
        Some(Operator::Divide)
    } else {
        None
    }
}

fn read_sum_operator(b: u8) -> (operator: Option<Operator>)
    ensures
        operator == sum_operator(b),
{
    if b == 0x2B {
        Some(Operator::Add)
    } else if b == 0x2D {
        Some(Operator::Subtract)
    } else {
        None
    }
}

fn parse_term<'src>(src: &'src str, i: usize) -> (reading: Reading<'src>)
    requires
        i <= src.spec_bytes().len(),
        boundary(src.spec_bytes(), i as int),
    ensures
        reading_view(reading) == term(src.spec_bytes(), i as int),
        sound(reading, src.spec_bytes(), i as int),
    decreases src.spec_bytes().len() - i, 3int,
{
    let bytes = src.as_bytes();
    let ghost s = src.spec_bytes();
    let (mut left, mut at) = match parse_unary(src, i) {
        Ok(read) => read,
        Err(at) => {
            return Err(at);
        },
    };
    proof {
        encode_utf8_valid_utf8(src@);
    }
    loop
        invariant
            bytes@ == s,
            s == src.spec_bytes(),
            valid_utf8(s),
            advances(i as int, at as int, s.len()),
            boundary(s, at as int),
            term(s, i as int) == term_rest(s, at as int, left@),
        decreases s.len() - at,
    {
        if at >= bytes.len() {
            return Ok((left, at));
        }
        let operator = match read_term_operator(bytes[at]) {
            Some(operator) => operator,
            None => {
                return Ok((left, at));
            },
        };
        proof {
            lemma_boundary_next(s, at as int);
        }
        match parse_unary(src, at + 1) {
            Ok((right, next)) => {
                left = Expr::Binary(operator, Box::new(left), Box::new(right));
                at = next;
            },
            Err(stuck) => {
                return Err(stuck);
            },
        }
    }
}

fn parse_sum<'src>(src: &'src str, i: usize) -> (reading: Reading<'src>)
    requires
        i <= src.spec_bytes().len(),
        boundary(src.spec_bytes(), i as int),
    ensures
        reading_view(reading) == sum(src.spec_bytes(), i as int),
        sound(reading, src.spec_bytes(), i as int),
    decreases src.spec_bytes().len() - i, 5int,
{
    let bytes = src.as_bytes();
    let ghost s = src.spec_bytes();
    let (mut left, mut at) = match parse_term(src, i) {
        Ok(read) => read,
        Err(at) => {
            return Err(at);
        },
    };
    proof {
        encode_utf8_valid_utf8(src@);
    }
    loop
        invariant
            bytes@ == s,
            s == src.spec_bytes(),
            valid_utf8(s),
            advances(i as int, at as int, s.len()),
            boundary(s, at as int),
            sum(s, i as int) == sum_rest(s, at as int, left@),
        decreases s.len() - at,
    {
        if at >= bytes.len() {
            return Ok((left, at));
        }
        let operator = match read_sum_operator(bytes[at]) {
            Some(operator) => operator,
            None => {
                return Ok((left, at));
            },
        };
        proof {
            lemma_boundary_next(s, at as int);
        }
        match parse_term(src, at + 1) {
            Ok((right, next)) => {
                left = Expr::Binary(operator, Box::new(left), Box::new(right));
                at = next;
            },
            Err(stuck) => {
                return Err(stuck);
            },
        }
    }
}

fn parse_statement<'src>(src: &'src str) -> (reading: Reading<'src>)
    ensures
        reading_view(reading) == statement(src.spec_bytes()),
        match reading {
            Ok((_, next)) => next <= src.spec_bytes().len() && boundary(
                src.spec_bytes(),
                next as int,
            ),
            Err(at) => at <= src.spec_bytes().len() && boundary(src.spec_bytes(), at as int),
        },
{
    let bytes = src.as_bytes();
    let ghost s = src.spec_bytes();
    proof {
        encode_utf8_valid_utf8(src@);
        is_char_boundary_start_end_of_seq(s);
    }
    let j = skip_space_from(src, 0);
    let v = read_identifier_end(src, j);
    let w = skip_space_from(src, v);
    if v > j && w < bytes.len() && bytes[w] == 0x3D {
        proof {
            lemma_boundary_next(s, w as int);
        }
        let name = slice(src, j, v);
        match parse_sum(src, w + 1) {
            Ok((expr, next)) => Ok((Expr::Assign { name, rhs: Box::new(expr) }, next)),
            Err(at) => Err(at),
        }
    } else {
        match parse_sum(src, 0) {
            Ok((expr, next)) => {
                if next < bytes.len() && bytes[next] == 0x3E {
                    proof {
                        lemma_boundary_next(s, next as int);
                    }
                    if next + 1 < bytes.len() && bytes[next + 1] == 0x3E {
                        proof {
                            lemma_boundary_next(s, next as int + 1);
                        }
                        let u = skip_space_from(src, next + 2);
                        let v = read_identifier_end(src, u);
                        if v > u {
                            let unit = slice(src, u, v);
                            let after = skip_space_from(src, v);
                            Ok((Expr::To(Box::new(expr), Some(unit)), after))
                        } else {
                            Err(u)
                        }
                    } else {
                        Err(next + 1)
                    }
                } else {
                    Ok((Expr::To(Box::new(expr), None), next))
                }
            },
            Err(at) => Err(at),
        }
    }
}

/// Reads a command. Where it cannot be read, the position is returned of
/// the first byte that fits nowhere: the length of the command where the
/// command ends too early.
pub fn parse_command<'src>(src: &'src str) -> (outcome: Result<Expr<'src>, usize>)
    ensures
        match outcome {
            Ok(expr) => parse(src.spec_bytes()) == Ok::<_, int>(expr@),
            Err(at) => parse(src.spec_bytes()) == Err::<crate::syntax::ExprView, _>(at as int)
                && at <= src.spec_bytes().len() && boundary(src.spec_bytes(), at as int),
        },
{
    proof {
        reveal(parse);
    }
    match parse_statement(src) {
        Ok((expr, next)) => {
            if next == src.as_bytes().len() {
                Ok(expr)
            } else {
                Err(next)
            }
        },
        Err(at) => Err(at),
    }
}

} // verus!
