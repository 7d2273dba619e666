//! The expression parser: a hand-rolled descent over the input characters
//! with the grammar's exact precedence and absorption rules.
//!
//! Precedence, loosest first: implication, disjunction, conjunction, then
//! negation, variables and parenthesized groups. Parsing goes left to right:
//! one atom, then repeated attempts — implication, disjunction, conjunction,
//! negation, in that order — to extend the accumulated expression until the
//! input is exhausted. A conjunction binds only a following atom; a
//! disjunction may absorb one following conjunction; an implication absorbs
//! the richest construct available on its right. Whitespace is allowed
//! around every operator and parenthesis.

use vstd::prelude::*;

use crate::errors::{Error, ErrorKind};
use crate::expression::{binary, not, BinaryOperator, Expression, ExpressionView};

verus! {

/// ASCII whitespace accepted around operators.
pub open spec fn is_space(c: char) -> bool {
    c == ' ' || c == '\t' || c == '\n' || c == '\r'
}

/// An ASCII letter, which may start an identifier.
pub open spec fn is_alpha(c: char) -> bool {
    (65 <= c as u32 && c as u32 <= 90) || (97 <= c as u32 && c as u32 <= 122)
}

/// A letter, digit or underscore, which may continue an identifier.
pub open spec fn is_ident_char(c: char) -> bool {
    is_alpha(c) || (48 <= c as u32 && c as u32 <= 57) || c == '_'
}

/// The number of whitespace characters at `pos`.
pub open spec fn ws_count(s: Seq<char>, pos: int) -> nat
    decreases s.len() - pos,
{
    if 0 <= pos < s.len() && is_space(s[pos]) {
        1 + ws_count(s, pos + 1)
    } else {
        0
    }
}

/// The position after the whitespace at `pos`.
pub open spec fn ws_end(s: Seq<char>, pos: int) -> int {
    pos + ws_count(s, pos)
}

/// The number of identifier-continuation characters at `pos`.
pub open spec fn ident_count(s: Seq<char>, pos: int) -> nat
    decreases s.len() - pos,
{
    if 0 <= pos < s.len() && is_ident_char(s[pos]) {
        1 + ident_count(s, pos + 1)
    } else {
        0
    }
}

/// Whitespace never runs past the end of the input.
pub proof fn lemma_ws_count_le(s: Seq<char>, pos: int)
    ensures
        pos <= s.len() ==> ws_count(s, pos) <= s.len() - pos,
        pos > s.len() ==> ws_count(s, pos) == 0,
        pos <= s.len() ==> pos <= ws_end(s, pos) <= s.len(),
    decreases s.len() - pos,
{
    if 0 <= pos < s.len() && is_space(s[pos]) {
        lemma_ws_count_le(s, pos + 1);
    }
}

/// An identifier never runs past the end of the input.
pub proof fn lemma_ident_count_le(s: Seq<char>, pos: int)
    ensures
        pos <= s.len() ==> ident_count(s, pos) <= s.len() - pos,
        pos > s.len() ==> ident_count(s, pos) == 0,
    decreases s.len() - pos,
{
    if 0 <= pos < s.len() && is_ident_char(s[pos]) {
        lemma_ident_count_le(s, pos + 1);
    }
}

/// Ambient bounds for the whitespace skipper.
pub broadcast proof fn lemma_ws_auto(s: Seq<char>, pos: int)
    ensures
        pos <= #[trigger] ws_end(s, pos),
        pos <= s.len() ==> ws_end(s, pos) <= s.len(),
{
    lemma_ws_count_le(s, pos);
}

/// Ambient bounds for the identifier scanner.
pub broadcast proof fn lemma_ident_auto(s: Seq<char>, pos: int)
    ensures
        pos <= s.len() ==> pos + #[trigger] ident_count(s, pos) <= s.len(),
{
    lemma_ident_count_le(s, pos);
}

/// Parses an identifier: a letter, then letters, digits or underscores.
pub open spec fn p_value(s: Seq<char>, pos: int) -> Option<(int, ExpressionView)> {
    if 0 <= pos < s.len() && is_alpha(s[pos]) {
        let pend = pos + 1 + ident_count(s, pos + 1);
        Some((pend, ExpressionView::Atomic(s.subrange(pos, pend))))
    } else {
        None
    }
}

/// Parses an atom: an identifier, a negated atom, or a parenthesized group.
pub open spec fn p_lhs(s: Seq<char>, pos: int) -> Option<(int, ExpressionView)>
    decreases s.len() - pos, 3int,
    via p_lhs_dec
{
    if p_value(s, pos) is Some {
        p_value(s, pos)
    } else if 0 <= pos < s.len() && s[pos] == '!' {
        match p_lhs(s, pos + 1) {
            Some((p, v)) => Some((p, ExpressionView::Not(Box::new(v)))),
            None => None,
        }
    } else if 0 <= pos < s.len() && s[pos] == '(' {
        p_paren(s, pos)
    } else {
        None
    }
}

/// Parses a parenthesized group: an atom, at least one operator extension,
/// at most one more when the close paren does not follow at once, then the
/// close paren.
pub open spec fn p_paren(s: Seq<char>, pos: int) -> Option<(int, ExpressionView)>
    decreases s.len() - pos, 2int,
    via p_paren_dec
{
    if !(0 <= pos < s.len() && s[pos] == '(') {
        None
    } else {
        let pw = ws_end(s, pos + 1);
        match p_lhs(s, pw) {
            None => None,
            Some((pl, atom)) => {
                // A successful sub-parse always lands past the open paren and
                // inside the input; the guard keeps the recursion measure
                // meaningful without appeal to that fact.
                if pl <= pos + 1 || pl > s.len() {
                    None
                } else {
                    let p1 = ws_end(s, pl);
                    match p_step(s, atom, p1) {
                        None => None,
                        Some((p2r, expr)) => {
                            if p2r <= pos + 1 || p2r > s.len() {
                                None
                            } else {
                                let p2 = ws_end(s, p2r);
                                if p2 < s.len() && s[p2] == ')' {
                                    Some((p2 + 1, expr))
                                } else {
                                    match p_step(s, expr, p2) {
                                        None => None,
                                        Some((p3r, e3)) => {
                                            let pout = ws_end(s, p3r);
                                            if pout < s.len() && s[pout] == ')' {
                                                Some((pout + 1, e3))
                                            } else {
                                                None
                                            }
                                        },
                                    }
                                }
                            }
                        },
                    }
                }
            },
        }
    }
}

/// One operator extension of `prev`: an implication, a disjunction, a
/// conjunction, or — discarding `prev` — a fresh negated atom, tried in that
/// order.
pub open spec fn p_step(s: Seq<char>, prev: ExpressionView, pos: int) -> Option<
    (int, ExpressionView),
>
    decreases s.len() - pos, 4int,
    via p_step_dec
{
    if p_imp_step(s, prev, pos) is Some {
        p_imp_step(s, prev, pos)
    } else if p_or_step(s, prev, pos) is Some {
        p_or_step(s, prev, pos)
    } else if p_and_step(s, prev, pos) is Some {
        p_and_step(s, prev, pos)
    } else if 0 <= pos < s.len() && s[pos] == '!' {
        match p_lhs(s, pos + 1) {
            Some((p, v)) => Some((p, ExpressionView::Not(Box::new(v)))),
            None => None,
        }
    } else {
        None
    }
}

/// An implication extension: `=>` and then the richest right-hand construct
/// available — a conjunction pair, a disjunction pair, or an atom.
pub open spec fn p_imp_step(s: Seq<char>, prev: ExpressionView, pos: int) -> Option<
    (int, ExpressionView),
>
    decreases s.len() - pos, 1int,
    via p_imp_step_dec
{
    let pw = ws_end(s, pos);
    if pw + 1 < s.len() && s[pw] == '=' && s[pw + 1] == '>' {
        let pr = ws_end(s, pw + 2);
        let rhs = if p_complete_and(s, pr) is Some {
            p_complete_and(s, pr)
        } else if p_complete_or(s, pr) is Some {
            p_complete_or(s, pr)
        } else {
            p_lhs(s, pr)
        };
        match rhs {
            Some((p, v)) => Some(
                (
                    p,
                    ExpressionView::Binary {
                        left: Box::new(prev),
                        operator: BinaryOperator::Implication,
                        right: Box::new(v),
                    },
                ),
            ),
            None => None,
        }
    } else {
        None
    }
}

/// A disjunction extension: `|` and then a conjunction pair if present, else
/// an atom.
pub open spec fn p_or_step(s: Seq<char>, prev: ExpressionView, pos: int) -> Option<
    (int, ExpressionView),
>
    decreases s.len() - pos, 1int,
    via p_or_step_dec
{
    let pw = ws_end(s, pos);
    if pw < s.len() && s[pw] == '|' {
        let pr = ws_end(s, pw + 1);
        let rhs = if p_complete_and(s, pr) is Some {
            p_complete_and(s, pr)
        } else {
            p_lhs(s, pr)
        };
        match rhs {
            Some((p, v)) => Some(
                (
                    p,
                    ExpressionView::Binary {
                        left: Box::new(prev),
                        operator: BinaryOperator::Or,
                        right: Box::new(v),
                    },
                ),
            ),
            None => None,
        }
    } else {
        None
    }
}

/// A conjunction extension: `&` and then an atom.
pub open spec fn p_and_step(s: Seq<char>, prev: ExpressionView, pos: int) -> Option<
    (int, ExpressionView),
>
    decreases s.len() - pos, 1int,
    via p_and_step_dec
{
    let pw = ws_end(s, pos);
    if pw < s.len() && s[pw] == '&' {
        let pr = ws_end(s, pw + 1);
        match p_lhs(s, pr) {
            Some((p, v)) => Some(
                (
                    p,
                    ExpressionView::Binary {
                        left: Box::new(prev),
                        operator: BinaryOperator::And,
                        right: Box::new(v),
                    },
                ),
            ),
            None => None,
        }
    } else {
        None
    }
}

/// An identifier immediately extended by one conjunction.
pub open spec fn p_complete_and(s: Seq<char>, pos: int) -> Option<(int, ExpressionView)>
    decreases s.len() - pos, 2int,
    via p_complete_and_dec
{
    match p_value(s, pos) {
        None => None,
        Some((pv, atom)) => p_and_step(s, atom, pv),
    }
}

/// An identifier immediately extended by one disjunction.
pub open spec fn p_complete_or(s: Seq<char>, pos: int) -> Option<(int, ExpressionView)>
    decreases s.len() - pos, 2int,
    via p_complete_or_dec
{
    match p_value(s, pos) {
        None => None,
        Some((pv, atom)) => p_or_step(s, atom, pv),
    }
}

/// Repeated operator extensions until the input is exhausted; if an
/// extension succeeds but the rest cannot be parsed, the whole loop fails.
pub open spec fn p_loop(s: Seq<char>, prev: ExpressionView, pos: int) -> Option<
    (int, ExpressionView),
>
    decreases s.len() - pos, 5int,
    via p_loop_dec
{
    match p_step(s, prev, pos) {
        None => None,
        Some((p1, newv)) => {
            if p1 >= s.len() {
                Some((p1, newv))
            } else if p1 <= pos {
                // A successful extension always advances; the guard keeps the
                // recursion measure meaningful without appeal to that fact.
                None
            } else {
                p_loop(s, newv, p1)
            }
        },
    }
}


#[via_fn]
proof fn p_lhs_dec(s: Seq<char>, pos: int) {
    broadcast use lemma_ws_auto, lemma_ident_auto;

}

#[via_fn]
proof fn p_paren_dec(s: Seq<char>, pos: int) {
    broadcast use lemma_ws_auto, lemma_ident_auto;

}

#[via_fn]
proof fn p_step_dec(s: Seq<char>, prev: ExpressionView, pos: int) {
    broadcast use lemma_ws_auto, lemma_ident_auto;

}

#[via_fn]
proof fn p_imp_step_dec(s: Seq<char>, prev: ExpressionView, pos: int) {
    broadcast use lemma_ws_auto, lemma_ident_auto;

}

#[via_fn]
proof fn p_or_step_dec(s: Seq<char>, prev: ExpressionView, pos: int) {
    broadcast use lemma_ws_auto, lemma_ident_auto;

}

#[via_fn]
proof fn p_and_step_dec(s: Seq<char>, prev: ExpressionView, pos: int) {
    broadcast use lemma_ws_auto, lemma_ident_auto;

}

#[via_fn]
proof fn p_complete_and_dec(s: Seq<char>, pos: int) {
    broadcast use lemma_ws_auto, lemma_ident_auto;

}

#[via_fn]
proof fn p_complete_or_dec(s: Seq<char>, pos: int) {
    broadcast use lemma_ws_auto, lemma_ident_auto;

}

#[via_fn]
proof fn p_loop_dec(s: Seq<char>, prev: ExpressionView, pos: int) {
    broadcast use lemma_ws_auto, lemma_ident_auto;

}

/// The parse of a whole input: an atom, then the extension loop, falling
/// back to the bare atom when no extension chain fits; the input must be
/// fully consumed.
pub open spec fn parse_spec(s: Seq<char>) -> Option<ExpressionView> {
    match p_lhs(s, 0) {
        None => None,
        Some((pl, atom)) => match p_loop(s, atom, pl) {
            Some((p, v)) => if p == s.len() {
                Some(v)
            } else {
                None
            },
            None => if pl == s.len() {
                Some(atom)
            } else {
                None
            },
        },
    }
}

/// Where the offending remaining input starts when the parse fails.
pub open spec fn parse_err_pos(s: Seq<char>) -> int {
    match p_lhs(s, 0) {
        None => 0,
        Some((pl, atom)) => match p_loop(s, atom, pl) {
            Some((p, _)) => p,
            None => pl,
        },
    }
}


/// Skips the whitespace at `pos`.
fn ws_skip(chars: &Vec<char>, pos: usize) -> (r: usize)
    requires
        pos <= chars@.len(),
    ensures
        r == ws_end(chars@, pos as int),
        pos <= r <= chars@.len(),
{
    let n = chars.len();
    let mut i: usize = pos;
    while i < n
        invariant
            n == chars@.len(),
            pos <= i <= n,
            ws_end(chars@, pos as int) == ws_end(chars@, i as int),
        decreases n - i,
    {
        let c = chars[i];
        if !(c == ' ' || c == '\t' || c == '\n' || c == '\r') {
            proof {
                assert(ws_count(chars@, i as int) == 0);
            }
            return i;
        }
        i = i + 1;
    }
    proof {
        assert(ws_count(chars@, i as int) == 0);
    }
    i
}

/// Parses an identifier into a variable leaf.
fn parse_value(chars: &Vec<char>, pos: usize) -> (r: Option<(usize, Expression)>)
    requires
        pos <= chars@.len(),
    ensures
        r matches Some(pe) ==> p_value(chars@, pos as int) == Some((pe.0 as int, pe.1@)) && pos
            < pe.0 <= chars@.len(),
        r is None ==> p_value(chars@, pos as int) is None,
{
    let n = chars.len();
    if pos >= n {
        return None;
    }
    let u = chars[pos] as u32;
    if !((65 <= u && u <= 90) || (97 <= u && u <= 122)) {
        proof {
            assert(!is_alpha(chars@[pos as int]));
        }
        return None;
    }
    let pend = ident_skip(chars, pos + 1);
    let mut name: Vec<char> = Vec::new();
    let mut k: usize = pos;
    while k < pend
        invariant
            pos <= k <= pend <= chars@.len(),
            name@ == chars@.subrange(pos as int, k as int),
        decreases pend - k,
    {
        name.push(chars[k]);
        proof {
            assert(name@ =~= chars@.subrange(pos as int, k + 1));
        }
        k = k + 1;
    }
    let text = crate::render::chars_to_string(&name);
    let e = Expression::Atomic(text);
    proof {
        assert(e@ == ExpressionView::Atomic(chars@.subrange(pos as int, pend as int)));
    }
    Some((pend, e))
}

/// Skips the identifier characters at `pos`.
fn ident_skip(chars: &Vec<char>, pos: usize) -> (r: usize)
    requires
        pos <= chars@.len(),
    ensures
        r == pos + ident_count(chars@, pos as int),
        pos <= r <= chars@.len(),
{
    let n = chars.len();
    let mut i: usize = pos;
    while i < n
        invariant
            n == chars@.len(),
            pos <= i <= n,
            pos + ident_count(chars@, pos as int) == i + ident_count(chars@, i as int),
        decreases n - i,
    {
        let c = chars[i];
        let v = c as u32;
        let is_ident = (65 <= v && v <= 90) || (97 <= v && v <= 122) || (48 <= v && v <= 57) || c
            == '_';
        proof {
            assert(is_ident == is_ident_char(chars@[i as int]));
        }
        if !is_ident {
            proof {
                assert(ident_count(chars@, i as int) == 0);
            }
            return i;
        }
        i = i + 1;
    }
    proof {
        assert(ident_count(chars@, i as int) == 0);
    }
    i
}

/// Parses an atom: an identifier, a negated atom, or a parenthesized group.
fn parse_lhs(chars: &Vec<char>, pos: usize) -> (r: Option<(usize, Expression)>)
    requires
        pos <= chars@.len(),
    ensures
        r matches Some(pe) ==> p_lhs(chars@, pos as int) == Some((pe.0 as int, pe.1@)) && pos
            < pe.0 <= chars@.len(),
        r is None ==> p_lhs(chars@, pos as int) is None,
    decreases chars@.len() - pos, 3int,
{
    if let Some((p, e)) = parse_value(chars, pos) {
        return Some((p, e));
    }
    let n = chars.len();
    if pos < n && chars[pos] == '!' {
        match parse_lhs(chars, pos + 1) {
            Some((p, e)) => {
                return Some((p, not(e)));
            },
            None => {
                return None;
            },
        }
    }
    if pos < n && chars[pos] == '(' {
        return parse_paren(chars, pos);
    }
    None
}

/// Parses a parenthesized group.
fn parse_paren(chars: &Vec<char>, pos: usize) -> (r: Option<(usize, Expression)>)
    requires
        pos < chars@.len(),
        chars@[pos as int] == '(',
    ensures
        r matches Some(pe) ==> p_paren(chars@, pos as int) == Some((pe.0 as int, pe.1@)) && pos
            < pe.0 <= chars@.len(),
        r is None ==> p_paren(chars@, pos as int) is None,
    decreases chars@.len() - pos, 2int,
{
    let n = chars.len();
    let pw = ws_skip(chars, pos + 1);
    let (pl, atom) = match parse_lhs(chars, pw) {
        Some(x) => x,
        None => {
            return None;
        },
    };
    let p1 = ws_skip(chars, pl);
    let (p2r, expr) = match parse_step(chars, &atom, p1) {
        Some(x) => x,
        None => {
            return None;
        },
    };
    let p2 = ws_skip(chars, p2r);
    if p2 < chars.len() && chars[p2] == ')' {
        return Some((p2 + 1, expr));
    }
    let (p3r, e3) = match parse_step(chars, &expr, p2) {
        Some(x) => x,
        None => {
            return None;
        },
    };
    let pout = ws_skip(chars, p3r);
    if pout < chars.len() && chars[pout] == ')' {
        return Some((pout + 1, e3));
    }
    None
}

/// One operator extension of `prev`.
fn parse_step(chars: &Vec<char>, prev: &Expression, pos: usize) -> (r: Option<(usize, Expression)>)
    requires
        pos <= chars@.len(),
    ensures
        r matches Some(pe) ==> p_step(chars@, prev@, pos as int) == Some((pe.0 as int, pe.1@))
            && pos < pe.0 <= chars@.len(),
        r is None ==> p_step(chars@, prev@, pos as int) is None,
    decreases chars@.len() - pos, 4int,
{
    if let Some((p, e)) = parse_imp_step(chars, prev, pos) {
        return Some((p, e));
    }
    if let Some((p, e)) = parse_or_step(chars, prev, pos) {
        return Some((p, e));
    }
    if let Some((p, e)) = parse_and_step(chars, prev, pos) {
        return Some((p, e));
    }
    let n = chars.len();
    if pos < n && chars[pos] == '!' {
        match parse_lhs(chars, pos + 1) {
            Some((p, e)) => {
                return Some((p, not(e)));
            },
            None => {
                return None;
            },
        }
    }
    None
}

/// An implication extension of `prev`.
fn parse_imp_step(chars: &Vec<char>, prev: &Expression, pos: usize) -> (r: Option<
    (usize, Expression),
>)
    requires
        pos <= chars@.len(),
    ensures
        r matches Some(pe) ==> p_imp_step(chars@, prev@, pos as int) == Some(
            (pe.0 as int, pe.1@),
        ) && pos < pe.0 <= chars@.len(),
        r is None ==> p_imp_step(chars@, prev@, pos as int) is None,
    decreases chars@.len() - pos, 1int,
{
    let n = chars.len();
    let pw = ws_skip(chars, pos);
    if !(pw < n && chars[pw] == '=' && pw + 1 < n && chars[pw + 1] == '>') {
        return None;
    }
    let pr = ws_skip(chars, pw + 2);
    let rhs = match parse_complete_and(chars, pr) {
        Some(x) => Some(x),
        None => match parse_complete_or(chars, pr) {
            Some(x) => Some(x),
            None => parse_lhs(chars, pr),
        },
    };
    match rhs {
        Some((p, v)) => Some((p, binary(prev.clone(), BinaryOperator::Implication, v))),
        None => None,
    }
}

/// A disjunction extension of `prev`.
fn parse_or_step(chars: &Vec<char>, prev: &Expression, pos: usize) -> (r: Option<
    (usize, Expression),
>)
    requires
        pos <= chars@.len(),
    ensures
        r matches Some(pe) ==> p_or_step(chars@, prev@, pos as int) == Some((pe.0 as int, pe.1@))
            && pos < pe.0 <= chars@.len(),
        r is None ==> p_or_step(chars@, prev@, pos as int) is None,
    decreases chars@.len() - pos, 1int,
{
    let n = chars.len();
    let pw = ws_skip(chars, pos);
    if !(pw < n && chars[pw] == '|') {
        return None;
    }
    let pr = ws_skip(chars, pw + 1);
    let rhs = match parse_complete_and(chars, pr) {
        Some(x) => Some(x),
        None => parse_lhs(chars, pr),
    };
    match rhs {
        Some((p, v)) => Some((p, binary(prev.clone(), BinaryOperator::Or, v))),
        None => None,
    }
}

/// A conjunction extension of `prev`.
fn parse_and_step(chars: &Vec<char>, prev: &Expression, pos: usize) -> (r: Option<
    (usize, Expression),
>)
    requires
        pos <= chars@.len(),
    ensures
        r matches Some(pe) ==> p_and_step(chars@, prev@, pos as int) == Some(
            (pe.0 as int, pe.1@),
        ) && pos < pe.0 <= chars@.len(),
        r is None ==> p_and_step(chars@, prev@, pos as int) is None,
    decreases chars@.len() - pos, 1int,
{
    let n = chars.len();
    let pw = ws_skip(chars, pos);
    if !(pw < n && chars[pw] == '&') {
        return None;
    }
    let pr = ws_skip(chars, pw + 1);
    match parse_lhs(chars, pr) {
        Some((p, v)) => Some((p, binary(prev.clone(), BinaryOperator::And, v))),
        None => None,
    }
}

/// An identifier immediately extended by one conjunction.
fn parse_complete_and(chars: &Vec<char>, pos: usize) -> (r: Option<(usize, Expression)>)
    requires
        pos <= chars@.len(),
    ensures
        r matches Some(pe) ==> p_complete_and(chars@, pos as int) == Some((pe.0 as int, pe.1@))
            && pos < pe.0 <= chars@.len(),
        r is None ==> p_complete_and(chars@, pos as int) is None,
    decreases chars@.len() - pos, 2int,
{
    match parse_value(chars, pos) {
        None => None,
        Some((pv, atom)) => parse_and_step(chars, &atom, pv),
    }
}

/// An identifier immediately extended by one disjunction.
fn parse_complete_or(chars: &Vec<char>, pos: usize) -> (r: Option<(usize, Expression)>)
    requires
        pos <= chars@.len(),
    ensures
        r matches Some(pe) ==> p_complete_or(chars@, pos as int) == Some((pe.0 as int, pe.1@))
            && pos < pe.0 <= chars@.len(),
        r is None ==> p_complete_or(chars@, pos as int) is None,
    decreases chars@.len() - pos, 2int,
{
    match parse_value(chars, pos) {
        None => None,
        Some((pv, atom)) => parse_or_step(chars, &atom, pv),
    }
}

/// Repeated operator extensions until the input is exhausted.
fn parse_loop(chars: &Vec<char>, prev: &Expression, pos: usize) -> (r: Option<(usize, Expression)>)
    requires
        pos <= chars@.len(),
    ensures
        r matches Some(pe) ==> p_loop(chars@, prev@, pos as int) == Some((pe.0 as int, pe.1@))
            && pos < pe.0 <= chars@.len(),
        r is None ==> p_loop(chars@, prev@, pos as int) is None,
    decreases chars@.len() - pos, 5int,
{
    match parse_step(chars, prev, pos) {
        None => None,
        Some((p1, newv)) => {
            if p1 >= chars.len() {
                Some((p1, newv))
            } else {
                parse_loop(chars, &newv, p1)
            }
        },
    }
}

/// The characters of a string, in order.
fn str_to_chars(input: &str) -> (r: Vec<char>)
    ensures
        r@ == input@,
{
    let n = input.unicode_len();
    let mut out: Vec<char> = Vec::new();
    let mut i: usize = 0;
    while i < n
        invariant
            n == input@.len(),
            0 <= i <= n,
            out@ == input@.subrange(0, i as int),
        decreases n - i,
    {
        out.push(input.get_char(i));
        proof {
            assert(out@ =~= input@.subrange(0, i + 1));
        }
        i = i + 1;
    }
    proof {
        assert(out@ =~= input@);
    }
    out
}

/// The characters from `pos` on, as a string.
fn suffix_string(chars: &Vec<char>, pos: usize) -> (r: String)
    requires
        pos <= chars@.len(),
    ensures
        r@ == chars@.subrange(pos as int, chars@.len() as int),
{
    let mut tail: Vec<char> = Vec::new();
    let mut k: usize = pos;
    while k < chars.len()
        invariant
            pos <= k <= chars@.len(),
            tail@ == chars@.subrange(pos as int, k as int),
        decreases chars@.len() - k,
    {
        tail.push(chars[k]);
        proof {
            assert(tail@ =~= chars@.subrange(pos as int, k + 1));
        }
        k = k + 1;
    }
    crate::render::chars_to_string(&tail)
}

/// Parses a textual expression. The whole input must be consumed; a failure
/// carries the offending remaining input and the invalid-expression kind.
pub fn parse_expression(input: &str) -> (r: Result<Expression, Error>)
    ensures
        r matches Ok(e) ==> parse_spec(input@) == Some(e@),
        parse_spec(input@) is Some ==> r is Ok,
        r matches Err(err) ==> parse_spec(input@) is None && err.kind
            == ErrorKind::InvalidExpression && err.message@ == input@.subrange(
            parse_err_pos(input@),
            input@.len() as int,
        ),
{
    let chars = str_to_chars(input);
    let (pl, atom) = match parse_lhs(&chars, 0) {
        Some(x) => x,
        None => {
            let message = suffix_string(&chars, 0);
            return Err(Error::new(message, ErrorKind::InvalidExpression));
        },
    };
    match parse_loop(&chars, &atom, pl) {
        Some((p, v)) => {
            if p == chars.len() {
                Ok(v)
            } else {
                let message = suffix_string(&chars, p);
                Err(Error::new(message, ErrorKind::InvalidExpression))
            }
        },
        None => {
            if pl == chars.len() {
                Ok(atom)
            } else {
                let message = suffix_string(&chars, pl);
                Err(Error::new(message, ErrorKind::InvalidExpression))
            }
        },
    }
}

impl Expression {
    /// Parses a textual expression, as [`parse_expression`] does.
    pub fn try_from(value: &str) -> (r: Result<Expression, Error>)
        ensures
            r matches Ok(e) ==> parse_spec(value@) == Some(e@),
            parse_spec(value@) is Some ==> r is Ok,
            r matches Err(err) ==> parse_spec(value@) is None && err.kind
                == ErrorKind::InvalidExpression,
    {
        parse_expression(value)
    }
}


/// A well-formed variable name: a letter, then letters, digits or
/// underscores.
pub open spec fn valid_identifier(n: Seq<char>) -> bool {
    n.len() >= 1 && is_alpha(n[0]) && forall|i: int| 1 <= i < n.len() ==> is_ident_char(n[i])
}

/// A scan over identifier characters runs to the end of the input.
proof fn lemma_ident_full(s: Seq<char>, pos: int)
    requires
        0 <= pos <= s.len(),
        forall|i: int| pos <= i < s.len() ==> is_ident_char(s[i]),
    ensures
        ident_count(s, pos) == s.len() - pos,
    decreases s.len() - pos,
{
    if pos < s.len() {
        lemma_ident_full(s, pos + 1);
    }
}

/// Round trip on variable leaves: the rendering of a variable is exactly its
/// name, and parsing that name gives the variable back, so re-rendering
/// yields the same string.
pub proof fn lemma_atomic_round_trip(n: Seq<char>)
    requires
        valid_identifier(n),
    ensures
        crate::render::render_of(ExpressionView::Atomic(n)) == n,
        parse_spec(crate::render::render_of(ExpressionView::Atomic(n))) == Some(
            ExpressionView::Atomic(n),
        ),
{
    assert(crate::render::render_of(ExpressionView::Atomic(n)) == n);
    assert(is_ident_char(n[0]));
    lemma_ident_full(n, 1);
    assert(p_value(n, 0) == Some((n.len() as int, ExpressionView::Atomic(n.subrange(0, n.len() as int)))));
    assert(n.subrange(0, n.len() as int) =~= n);
    assert(p_lhs(n, 0) == Some((n.len() as int, ExpressionView::Atomic(n))));
    let atom = ExpressionView::Atomic(n);
    let len = n.len() as int;
    assert(ws_count(n, len) == 0);
    assert(p_imp_step(n, atom, len) is None);
    assert(p_or_step(n, atom, len) is None);
    assert(p_and_step(n, atom, len) is None);
    assert(p_step(n, atom, len) is None);
    assert(p_loop(n, atom, len) is None);
    assert(parse_spec(n) == Some(atom));
}

} // verus!
