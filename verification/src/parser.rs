//! Parsing of statements and expressions.
//!
//! The surface syntax: a statement is `let NAME = EXPR` or a bare
//! expression; an expression combines atomics with `+` (union) and `-`
//! (difference), left-associative at one precedence, with parentheses.
//! An atomic is an identifier, a v4 CIDR (`1.2.3.4/8`) or a v6 CIDR
//! (`2001:da8::1/32`). The parser is a recursive descent over the ASCII
//! bytes of the input; every block it yields carries a prefix length
//! within its family's width.

use vstd::prelude::*;
use vstd::string::StrSliceExecFns;
use crate::data::{V4, V6};
use crate::bitstring::pow2_u128;
use vstd::arithmetic::power2::pow2;

verus! {

/// A parsed statement: a binding or a bare expression.
#[derive(Debug, PartialEq, Eq)]
pub enum Stmt {
    LetIn { ident: String, val: Box<Expr> },
    Expr(Expr),
}

/// A parsed expression tree; addition is union, subtraction difference.
#[derive(Debug, PartialEq, Eq)]
pub enum Expr {
    Addition(Box<Expr>, Box<Expr>),
    Subtraction(Box<Expr>, Box<Expr>),
    Atomic(Atomic),
}

/// A leaf of the expression tree.
#[derive(Debug, PartialEq, Eq)]
pub enum Atomic {
    Ident(String),
    V4(V4),
    V6(V6),
}

/// Errors parsing can raise.
#[derive(Debug, PartialEq, Eq)]
pub enum ParseError {
    /// The input does not follow the grammar.
    Syntax,
    /// A v4 octet does not fit in one byte.
    V4Octet,
    /// A v4 prefix length is over 32.
    V4Len,
    /// A v6 address spells more than one `::`.
    V6DoubleColon,
    /// A v6 address has too many groups, or too few without a `::`.
    V6Groups,
    /// A v6 prefix length is over 128.
    V6Len,
}

/// Every CIDR leaf keeps its prefix length within its family's width.
pub open spec fn expr_wf(e: Expr) -> bool
    decreases e,
{
    match e {
        Expr::Atomic(a) => match a {
            Atomic::Ident(_) => true,
            Atomic::V4(v) => v.1 <= 32,
            Atomic::V6(v) => v.1 <= 128,
        },
        Expr::Addition(l, r) => expr_wf(*l) && expr_wf(*r),
        Expr::Subtraction(l, r) => expr_wf(*l) && expr_wf(*r),
    }
}

/// Statement-level well-formedness of the CIDR leaves.
pub open spec fn stmt_wf(s: Stmt) -> bool {
    match s {
        Stmt::LetIn { ident, val } => expr_wf(*val),
        Stmt::Expr(e) => expr_wf(e),
    }
}

/// Character classes of the grammar, over ASCII bytes.
pub open spec fn is_space_b(c: u8) -> bool {
    c == 32 || c == 9 || c == 13
}

pub open spec fn is_digit_b(c: u8) -> bool {
    48 <= c <= 57
}

pub open spec fn is_hex_b(c: u8) -> bool {
    is_digit_b(c) || 97 <= c <= 102 || 65 <= c <= 70
}

pub open spec fn is_ident_start_b(c: u8) -> bool {
    97 <= c <= 122 || 65 <= c <= 90 || c == 95
}

pub open spec fn is_ident_char_b(c: u8) -> bool {
    is_ident_start_b(c) || is_digit_b(c)
}

/// First position at or after `i` (up to `end`) whose byte fails `blank`.
pub open spec fn spec_skip_ws(s: Seq<u8>, i: int, end: int) -> int
    decreases end - i,
{
    if i < end && is_space_b(s[i]) {
        spec_skip_ws(s, i + 1, end)
    } else {
        i
    }
}

/// End of the run of decimal digits starting at `i`.
pub open spec fn spec_digits_end(s: Seq<u8>, i: int, end: int) -> int
    decreases end - i,
{
    if i < end && is_digit_b(s[i]) {
        spec_digits_end(s, i + 1, end)
    } else {
        i
    }
}

/// End of the run of hex digits starting at `i`.
pub open spec fn spec_hex_end(s: Seq<u8>, i: int, end: int) -> int
    decreases end - i,
{
    if i < end && is_hex_b(s[i]) {
        spec_hex_end(s, i + 1, end)
    } else {
        i
    }
}

/// End of the run of identifier characters starting at `i`.
pub open spec fn spec_ident_char_end(s: Seq<u8>, i: int, end: int) -> int
    decreases end - i,
{
    if i < end && is_ident_char_b(s[i]) {
        spec_ident_char_end(s, i + 1, end)
    } else {
        i
    }
}

/// End of a v6 address token (hex digits and colons) starting at `i`.
pub open spec fn spec_v6_token_end(s: Seq<u8>, i: int, end: int) -> int
    decreases end - i,
{
    if i < end && (is_hex_b(s[i]) || s[i] == 58) {
        spec_v6_token_end(s, i + 1, end)
    } else {
        i
    }
}

/// The scanners never step backwards, and never past `end`.
proof fn lemma_scan_bounds(s: Seq<u8>, i: int, end: int)
    ensures
        i <= spec_skip_ws(s, i, end),
        i <= spec_digits_end(s, i, end),
        i <= spec_hex_end(s, i, end),
        i <= spec_ident_char_end(s, i, end),
        i <= spec_v6_token_end(s, i, end),
        i <= end ==> spec_skip_ws(s, i, end) <= end,
        i <= end ==> spec_digits_end(s, i, end) <= end,
        i <= end ==> spec_hex_end(s, i, end) <= end,
        i <= end ==> spec_ident_char_end(s, i, end) <= end,
        i <= end ==> spec_v6_token_end(s, i, end) <= end,
    decreases end - i,
{
    if i < end {
        lemma_scan_bounds(s, i + 1, end);
    }
}

/// A statement as mathematics: names are their characters.
pub ghost enum SStmt {
    LetIn(Seq<char>, SExpr),
    Expr(SExpr),
}

/// An expression tree as mathematics.
pub ghost enum SExpr {
    Addition(Box<SExpr>, Box<SExpr>),
    Subtraction(Box<SExpr>, Box<SExpr>),
    Atomic(SAtomic),
}

/// A leaf as mathematics.
pub ghost enum SAtomic {
    Ident(Seq<char>),
    V4(V4),
    V6(V6),
}

/// The mathematical reading of a parsed expression.
pub open spec fn expr_view(e: Expr) -> SExpr
    decreases e,
{
    match e {
        Expr::Addition(l, r) => SExpr::Addition(Box::new(expr_view(*l)), Box::new(expr_view(*r))),
        Expr::Subtraction(l, r) => SExpr::Subtraction(
            Box::new(expr_view(*l)),
            Box::new(expr_view(*r)),
        ),
        Expr::Atomic(a) => SExpr::Atomic(
            match a {
                Atomic::Ident(s) => SAtomic::Ident(s@),
                Atomic::V4(v) => SAtomic::V4(v),
                Atomic::V6(v) => SAtomic::V6(v),
            },
        ),
    }
}

/// The mathematical reading of a parsed statement.
pub open spec fn stmt_view(s: Stmt) -> SStmt {
    match s {
        Stmt::LetIn { ident, val } => SStmt::LetIn(ident@, expr_view(*val)),
        Stmt::Expr(e) => SStmt::Expr(expr_view(e)),
    }
}

/// Relies on `String::from_utf8`: ASCII bytes decode to the characters
/// with the same code points. The input is kept ASCII, so the decode
/// cannot fail.
#[verifier::external_body]
fn ascii_to_string(b: Vec<u8>) -> (r: String)
    requires
        forall|i: int| 0 <= i < b@.len() ==> b@[i] < 128,
    ensures
        r@ == b@.map(|i: int, c: u8| c as char),
{
    String::from_utf8(b).unwrap_or_default()
}

fn is_space(c: u8) -> (r: bool)
    ensures
        r == is_space_b(c),
{
    c == 32u8 || c == 9u8 || c == 13u8
}

fn is_digit(c: u8) -> (r: bool)
    ensures
        r == is_digit_b(c),
{
    48u8 <= c && c <= 57u8
}

fn is_hex_digit(c: u8) -> (r: bool)
    ensures
        r == is_hex_b(c),
{
    (48u8 <= c && c <= 57u8) || (97u8 <= c && c <= 102u8) || (65u8 <= c && c <= 70u8)
}

fn is_ident_start(c: u8) -> (r: bool)
    ensures
        r == is_ident_start_b(c),
{
    (97u8 <= c && c <= 122u8) || (65u8 <= c && c <= 90u8) || c == 95u8
}

fn is_ident_char(c: u8) -> (r: bool)
    ensures
        r == is_ident_char_b(c),
{
    is_ident_start(c) || is_digit(c)
}

/// First position at or after `i` (up to `end`) holding a non-blank.
fn skip_ws(b: &Vec<u8>, i: usize, end: usize) -> (r: usize)
    requires
        i <= end <= b@.len(),
    ensures
        i <= r <= end,
        r == spec_skip_ws(b@, i as int, end as int),
{
    let mut j = i;
    while j < end
        invariant
            i <= j <= end <= b@.len(),
            spec_skip_ws(b@, i as int, end as int) == spec_skip_ws(b@, j as int, end as int),
        decreases end - j,
    {
        if !is_space(b[j]) {
            return j;
        }
        j = j + 1;
    }
    j
}

/// Length of the run of decimal digits starting at `i`.
fn scan_digits(b: &Vec<u8>, i: usize, end: usize) -> (r: usize)
    requires
        i <= end <= b@.len(),
    ensures
        i <= r <= end,
        r == spec_digits_end(b@, i as int, end as int),
{
    let mut j = i;
    while j < end
        invariant
            i <= j <= end <= b@.len(),
            spec_digits_end(b@, i as int, end as int) == spec_digits_end(b@, j as int, end as int),
        decreases end - j,
    {
        if !is_digit(b[j]) {
            return j;
        }
        j = j + 1;
    }
    j
}

/// The v4 atomic, read mathematically: `None` when the dotted-quad
/// shape `d+.d+.d+.d+/d+` is absent at `i`; otherwise the block the
/// digits spell (each octet one byte, the length at most 32) or the
/// out-of-range error, together with the token's end.
pub open spec fn spec_v4(s: Seq<u8>, i: int, end: int) -> Option<(Result<V4, ParseError>, int)> {
    let e1 = spec_digits_end(s, i, end);
    let s2 = e1 + 1;
    let e2 = spec_digits_end(s, s2, end);
    let s3 = e2 + 1;
    let e3 = spec_digits_end(s, s3, end);
    let s4 = e3 + 1;
    let e4 = spec_digits_end(s, s4, end);
    let s5 = e4 + 1;
    let e5 = spec_digits_end(s, s5, end);
    if e1 == i || e1 >= end || s[e1] != 46 || e2 == s2 || e2 >= end || s[e2] != 46 || e3 == s3
        || e3 >= end || s[e3] != 46 || e4 == s4 || e4 >= end || s[e4] != 47 || e5 == s5 {
        None
    } else {
        let o1 = dec_bytes_val(s.subrange(i, e1));
        let o2 = dec_bytes_val(s.subrange(s2, e2));
        let o3 = dec_bytes_val(s.subrange(s3, e3));
        let o4 = dec_bytes_val(s.subrange(s4, e4));
        let len = dec_bytes_val(s.subrange(s5, e5));
        if e1 - i > 3 || o1 > 255 || e2 - s2 > 3 || o2 > 255 || e3 - s3 > 3 || o3 > 255 || e4 - s4
            > 3 || o4 > 255 {
            Some((Err(ParseError::V4Octet), e5))
        } else if e5 - s5 > 2 || len > 32 {
            Some((Err(ParseError::V4Len), e5))
        } else {
            Some((Ok(V4((((o1 * 256 + o2) * 256 + o3) * 256 + o4) as u32, len as u8)), e5))
        }
    }
}

/// Try the dotted-quad shape `d+.d+.d+.d+/d+` at `i`: absent shape
/// decides nothing; a matching shape commits, to the block or to an
/// out-of-range error.
fn parse_v4_at(b: &Vec<u8>, i: usize, end: usize) -> (r: Option<(Result<V4, ParseError>, usize)>)
    requires
        i <= end <= b@.len(),
    ensures
        match r {
            Some((res, j)) => i < j <= end && (res matches Ok(v) ==> v.1 <= 32)
                && spec_v4(b@, i as int, end as int) == Some((res, j as int)),
            None => spec_v4(b@, i as int, end as int) is None,
        },
{
    // The shape: four digit runs joined by dots, a slash, a digit run.
    let e1 = scan_digits(b, i, end);
    if e1 == i || e1 >= end || b[e1] != 46u8 {
        return None;
    }
    let s2 = e1 + 1;
    let e2 = scan_digits(b, s2, end);
    if e2 == s2 || e2 >= end || b[e2] != 46u8 {
        return None;
    }
    let s3 = e2 + 1;
    let e3 = scan_digits(b, s3, end);
    if e3 == s3 || e3 >= end || b[e3] != 46u8 {
        return None;
    }
    let s4 = e3 + 1;
    let e4 = scan_digits(b, s4, end);
    if e4 == s4 || e4 >= end || b[e4] != 47u8 {
        return None;
    }
    let s5 = e4 + 1;
    let e5 = scan_digits(b, s5, end);
    if e5 == s5 {
        return None;
    }
    // The values: octets one byte each, the length at most 32.
    if e1 - i > 3 {
        return Some((Err(ParseError::V4Octet), e5));
    }
    let o1 = dec_value_checked(b, i, e1);
    if o1 > 255 {
        return Some((Err(ParseError::V4Octet), e5));
    }
    if e2 - s2 > 3 {
        return Some((Err(ParseError::V4Octet), e5));
    }
    let o2 = dec_value_checked(b, s2, e2);
    if o2 > 255 {
        return Some((Err(ParseError::V4Octet), e5));
    }
    if e3 - s3 > 3 {
        return Some((Err(ParseError::V4Octet), e5));
    }
    let o3 = dec_value_checked(b, s3, e3);
    if o3 > 255 {
        return Some((Err(ParseError::V4Octet), e5));
    }
    if e4 - s4 > 3 {
        return Some((Err(ParseError::V4Octet), e5));
    }
    let o4 = dec_value_checked(b, s4, e4);
    if o4 > 255 {
        return Some((Err(ParseError::V4Octet), e5));
    }
    if e5 - s5 > 2 {
        return Some((Err(ParseError::V4Len), e5));
    }
    let len = dec_value_checked(b, s5, e5);
    if len > 32 {
        return Some((Err(ParseError::V4Len), e5));
    }
    let collected: u32 = ((o1 * 256 + o2) * 256 + o3) * 256 + o4;
    Some((Ok(V4(collected, len as u8)), e5))
}

/// The number a run of decimal digit bytes spells, highest first; a
/// byte that is no digit counts as zero.
pub open spec fn dec_bytes_val(s: Seq<u8>) -> nat
    decreases s.len(),
{
    if s.len() == 0 {
        0
    } else {
        10 * dec_bytes_val(s.drop_last()) + (if 48 <= s.last() <= 57 {
            (s.last() - 48) as nat
        } else {
            0nat
        })
    }
}

/// Value of a short decimal digit run.
fn dec_value_checked(b: &Vec<u8>, i: usize, j: usize) -> (r: u32)
    requires
        i <= j <= b@.len(),
        j - i <= 3,
    ensures
        r <= 999,
        r == dec_bytes_val(b@.subrange(i as int, j as int)),
{
    let mut v: u32 = 0;
    let mut k = i;
    proof {
        assert(b@.subrange(i as int, i as int) =~= Seq::<u8>::empty());
    }
    while k < j
        invariant
            i <= k <= j <= b@.len(),
            j - i <= 3,
            v == dec_bytes_val(b@.subrange(i as int, k as int)),
            v < (if k - i == 0 {
                1u32
            } else if k - i == 1 {
                10u32
            } else if k - i == 2 {
                100u32
            } else {
                1000u32
            }),
        decreases j - k,
    {
        let c = b[k];
        let d: u32 = if 48u8 <= c && c <= 57u8 {
            (c - 48u8) as u32
        } else {
            0
        };
        v = v * 10 + d;
        proof {
            assert(b@.subrange(i as int, k + 1).drop_last() =~= b@.subrange(i as int, k as int));
            assert(b@.subrange(i as int, k + 1).last() == b@[k as int]);
        }
        k = k + 1;
    }
    v
}

/// The value a hex digit byte spells; anything else counts as zero.
pub open spec fn hex_digit_val(c: u8) -> nat {
    if is_digit_b(c) {
        (c - 48) as nat
    } else if 97 <= c <= 102 {
        (c - 87) as nat
    } else if 65 <= c <= 70 {
        (c - 55) as nat
    } else {
        0
    }
}

/// The number a run of hex digit bytes spells, highest first.
pub open spec fn hex_bytes_val(s: Seq<u8>) -> nat
    decreases s.len(),
{
    if s.len() == 0 {
        0
    } else {
        16 * hex_bytes_val(s.drop_last()) + hex_digit_val(s.last())
    }
}

/// Value of a hex digit, for bytes that passed `is_hex_digit`.
fn hex_digit_value(c: u8) -> (r: u32)
    ensures
        r < 16,
        r == hex_digit_val(c),
{
    if 48u8 <= c && c <= 57u8 {
        (c - 48u8) as u32
    } else if 97u8 <= c && c <= 102u8 {
        (c - 97u8) as u32 + 10
    } else if 65u8 <= c && c <= 70u8 {
        (c - 65u8) as u32 + 10
    } else {
        0
    }
}

/// The colon-separated hex groups of `s[pos..end]`, folded onto an
/// accumulator of `cnt` groups already read: each group shifts the
/// value up by one 16-bit place, so the result is the big-endian
/// packing of all the groups, together with their count. A ninth group
/// is a group-count error; an empty or five-digit group, or a stray
/// byte, is a syntax error.
pub open spec fn spec_v6_half_loop(s: Seq<u8>, pos: int, end: int, acc: nat, cnt: nat) -> Result<
    (nat, nat),
    ParseError,
>
    decreases end - pos,
    via spec_v6_half_loop_dec
{
    let j = spec_hex_end(s, pos, end);
    if j == pos {
        Err(ParseError::Syntax)
    } else if j - pos > 4 {
        Err(ParseError::Syntax)
    } else if cnt >= 8 {
        Err(ParseError::V6Groups)
    } else {
        let acc2 = acc * 0x10000 + hex_bytes_val(s.subrange(pos, j));
        if j < end && s[j] == 58 {
            if j + 1 == end {
                Err(ParseError::Syntax)
            } else {
                spec_v6_half_loop(s, j + 1, end, acc2, cnt + 1)
            }
        } else if j != end {
            Err(ParseError::Syntax)
        } else {
            Ok((acc2, cnt + 1))
        }
    }
}

#[via_fn]
proof fn spec_v6_half_loop_dec(s: Seq<u8>, pos: int, end: int, acc: nat, cnt: nat) {
    lemma_scan_bounds(s, pos, end);
}

/// One half of a v6 address: empty is zero groups; otherwise the
/// big-endian packing of the groups with their count.
pub open spec fn spec_v6_half(s: Seq<u8>, i: int, end: int) -> Result<(nat, nat), ParseError> {
    if i == end {
        Ok((0, 0))
    } else {
        spec_v6_half_loop(s, i, end, 0, 0)
    }
}

/// One half of a v6 address (the side of a `::`): colon-separated hex
/// groups. Yields the accumulated value and the group count, or a
/// syntax error for an empty or oversized group.
fn process_v6_half(b: &Vec<u8>, i: usize, end: usize) -> (r: Result<(u128, u8), ParseError>)
    requires
        i <= end <= b@.len(),
    ensures
        match r {
            Ok(p) => p.1 <= 8 && p.0 < pow2((16 * p.1) as nat) && spec_v6_half(
                b@,
                i as int,
                end as int,
            ) == Ok::<(nat, nat), ParseError>((p.0 as nat, p.1 as nat)),
            Err(e) => spec_v6_half(b@, i as int, end as int) == Err::<(nat, nat), ParseError>(e),
        },
{
    if i == end {
        proof {
            vstd::arithmetic::power2::lemma2_to64();
        }
        return Ok((0, 0));
    }
    let mut cnt: u8 = 0;
    let mut result: u128 = 0;
    let mut pos = i;
    proof {
        vstd::arithmetic::power2::lemma2_to64();
    }
    loop
        invariant_except_break
            spec_v6_half(b@, i as int, end as int) == spec_v6_half_loop(
                b@,
                pos as int,
                end as int,
                result as nat,
                cnt as nat,
            ),
        invariant
            i < end,
            i <= pos <= end <= b@.len(),
            cnt <= 8,
            result < pow2((16 * cnt) as nat),
        ensures
            i <= pos <= end <= b@.len(),
            cnt <= 8,
            result < pow2((16 * cnt) as nat),
            spec_v6_half(b@, i as int, end as int) == (if pos != end {
                Err::<(nat, nat), ParseError>(ParseError::Syntax)
            } else {
                Ok::<(nat, nat), ParseError>((result as nat, cnt as nat))
            }),
        decreases end - pos + 1,
    {
        // One group of one to four hex digits.
        let mut j = pos;
        while j < end
            invariant
                pos <= j <= end <= b@.len(),
                spec_hex_end(b@, pos as int, end as int) == spec_hex_end(b@, j as int, end as int),
            ensures
                pos <= j <= end,
                spec_hex_end(b@, pos as int, end as int) == spec_hex_end(b@, j as int, end as int),
                j == end || !is_hex_b(b@[j as int]),
            decreases end - j,
        {
            if !is_hex_digit(b[j]) {
                break ;
            }
            j = j + 1;
        }
        proof {
            assert(j == spec_hex_end(b@, pos as int, end as int));
        }
        if j == pos {
            return Err(ParseError::Syntax);
        }
        if j - pos > 4 {
            return Err(ParseError::Syntax);
        }
        if cnt == 8 {
            return Err(ParseError::V6Groups);
        }
        let mut g: u32 = 0;
        let mut k = pos;
        proof {
            assert(b@.subrange(pos as int, pos as int) =~= Seq::<u8>::empty());
        }
        while k < j
            invariant
                pos <= k <= j <= b@.len(),
                j - pos <= 4,
                g == hex_bytes_val(b@.subrange(pos as int, k as int)),
                g < (if k - pos == 0 {
                    1u32
                } else if k - pos == 1 {
                    0x10u32
                } else if k - pos == 2 {
                    0x100u32
                } else if k - pos == 3 {
                    0x1000u32
                } else {
                    0x10000u32
                }),
            decreases j - k,
        {
            let d = hex_digit_value(b[k]);
            proof {
                assert(b@.subrange(pos as int, k + 1).drop_last() =~= b@.subrange(
                    pos as int,
                    k as int,
                ));
                assert(b@.subrange(pos as int, k + 1).last() == b@[k as int]);
            }
            g = g * 16 + d;
            k = k + 1;
        }
        proof {
            vstd::arithmetic::power2::lemma_pow2_adds((16 * cnt) as nat, 16);
            vstd::arithmetic::power2::lemma2_to64();
            assert(result * 0x10000 + g < pow2((16 * (cnt + 1)) as nat)) by (nonlinear_arith)
                requires
                    result < pow2((16 * cnt) as nat),
                    g < 0x10000,
                    pow2((16 * (cnt + 1)) as nat) == pow2((16 * cnt) as nat) * 0x10000,
            ;
            crate::bitstring::lemma_pow2_le((16 * (cnt + 1)) as nat, 128);
            crate::bitstring::pow2_128_fact();
        }
        result = result * 0x10000 + (g as u128);
        cnt = cnt + 1;
        pos = j;
        if pos < end && b[pos] == 58u8 {
            pos = pos + 1;
            if pos == end {
                return Err(ParseError::Syntax);
            }
        } else {
            break ;
        }
    }
    if pos != end {
        return Err(ParseError::Syntax);
    }
    Ok((result, cnt))
}

/// Does `s[i..j]` hold a colon?
pub open spec fn spec_has_colon(s: Seq<u8>, i: int, j: int) -> bool {
    exists|t: int| i <= t < j && s[t] == 58
}

/// The first `::` at or after `p`, strictly inside `s[..hi]`.
pub open spec fn spec_find_dc(s: Seq<u8>, p: int, hi: int) -> Option<int>
    decreases hi - p,
{
    if p + 1 >= hi {
        None
    } else if s[p] == 58 && s[p + 1] == 58 {
        Some(p)
    } else {
        spec_find_dc(s, p + 1, hi)
    }
}

/// The v6 atomic, read mathematically: `None` when no hex-and-colon
/// token with at least one colon, a slash and a digit run stands at
/// `i`; otherwise the block the groups spell around at most one `::`
/// (the halves packed big-endian, the second aligned to the low end),
/// or the first out-of-range error.
pub open spec fn spec_v6(s: Seq<u8>, i: int, end: int) -> Option<(Result<V6, ParseError>, int)> {
    let tok = spec_v6_token_end(s, i, end);
    if tok == i || !spec_has_colon(s, i, tok) || tok >= end || s[tok] != 47 {
        None
    } else {
        let s5 = tok + 1;
        let lj = spec_digits_end(s, s5, end);
        if lj == s5 {
            None
        } else if lj - s5 > 3 {
            Some((Err(ParseError::V6Len), lj))
        } else {
            let len = dec_bytes_val(s.subrange(s5, lj));
            if len > 128 {
                Some((Err(ParseError::V6Len), lj))
            } else {
                match spec_find_dc(s, i, tok) {
                    Some(dc) => if spec_find_dc(s, dc + 2, tok) is Some {
                        Some((Err(ParseError::V6DoubleColon), lj))
                    } else {
                        match spec_v6_half(s, i, dc) {
                            Err(e) => Some((Err(e), lj)),
                            Ok((v1, c1)) => match spec_v6_half(s, dc + 2, tok) {
                                Err(e) => Some((Err(e), lj)),
                                Ok((v2, c2)) => if c1 + c2 > 8 {
                                    Some((Err(ParseError::V6Groups), lj))
                                } else {
                                    let addr = v1 * pow2((16 * (8 - c1)) as nat) + v2;
                                    Some((Ok(V6(addr as u128, len as u8)), lj))
                                },
                            },
                        }
                    },
                    None => match spec_v6_half(s, i, tok) {
                        Err(e) => Some((Err(e), lj)),
                        Ok((v1, c1)) => if c1 != 8 {
                            Some((Err(ParseError::V6Groups), lj))
                        } else {
                            Some((Ok(V6(v1 as u128, len as u8)), lj))
                        },
                    },
                }
            }
        }
    }
}

/// Try the v6 shape (hex groups and colons, then `/d+`) at `i`. `None`
/// means the shape is absent; `Some(Err(..))` means it matched but the
/// groups or the length are out of range.
fn parse_v6_at(b: &Vec<u8>, i: usize, end: usize) -> (r: Option<(Result<V6, ParseError>, usize)>)
    requires
        i <= end <= b@.len(),
    ensures
        match r {
            Some((res, j)) => i < j <= end && (res matches Ok(v) ==> v.1 <= 128) && spec_v6(
                b@,
                i as int,
                end as int,
            ) == Some((res, j as int)),
            None => spec_v6(b@, i as int, end as int) is None,
        },
{
    // The address token: hex digits and colons.
    let mut j = i;
    let mut saw_colon = false;
    while j < end
        invariant
            i <= j <= end <= b@.len(),
            spec_v6_token_end(b@, i as int, end as int) == spec_v6_token_end(
                b@,
                j as int,
                end as int,
            ),
            saw_colon == spec_has_colon(b@, i as int, j as int),
        ensures
            i <= j <= end,
            j == spec_v6_token_end(b@, i as int, end as int),
            saw_colon == spec_has_colon(b@, i as int, j as int),
        decreases end - j,
    {
        let c = b[j];
        if c == 58u8 {
            saw_colon = true;
            proof {
                assert(spec_has_colon(b@, i as int, j + 1));
            }
            j = j + 1;
        } else if is_hex_digit(c) {
            proof {
                assert(spec_has_colon(b@, i as int, j + 1) == spec_has_colon(
                    b@,
                    i as int,
                    j as int,
                )) by {
                    if spec_has_colon(b@, i as int, j + 1) {
                        let t = choose|t: int| i <= t < j + 1 && b@[t] == 58;
                        assert(t < j);
                    }
                }
            }
            j = j + 1;
        } else {
            break ;
        }
    }
    if !saw_colon || j == i {
        return None;
    }
    if j >= end || b[j] != 47u8 {
        return None;
    }
    let slash = j;
    let lj = scan_digits(b, slash + 1, end);
    if lj == slash + 1 {
        return None;
    }
    if lj - (slash + 1) > 3 {
        return Some((Err(ParseError::V6Len), lj));
    }
    let len = dec_value_checked(b, slash + 1, lj);
    if len > 128 {
        return Some((Err(ParseError::V6Len), lj));
    }
    // Split the address at one `::`, if present.
    let mut dc: usize = slash;
    let mut have_dc = false;
    let mut p = i;
    while p + 1 < slash
        invariant
            i <= p <= slash <= b@.len(),
            i <= dc <= slash,
            i < slash < lj <= end <= b@.len(),
            slash == spec_v6_token_end(b@, i as int, end as int),
            spec_has_colon(b@, i as int, slash as int),
            i < slash < end,
            b@[slash as int] == 47,
            lj == spec_digits_end(b@, slash as int + 1, end as int),
            slash + 1 < lj <= end,
            lj - (slash + 1) <= 3,
            len == dec_bytes_val(b@.subrange(slash as int + 1, lj as int)),
            len <= 128,
            have_dc ==> dc + 2 <= slash,
            !have_dc ==> spec_find_dc(b@, i as int, slash as int) == spec_find_dc(
                b@,
                p as int,
                slash as int,
            ),
            have_dc ==> spec_find_dc(b@, i as int, slash as int) == Some(dc as int)
                && spec_find_dc(b@, (dc + 2) as int, slash as int) == spec_find_dc(
                b@,
                p as int,
                slash as int,
            ),
        ensures
            i <= p <= slash,
            i < slash < lj <= end <= b@.len(),
            slash == spec_v6_token_end(b@, i as int, end as int),
            spec_has_colon(b@, i as int, slash as int),
            i < slash < end,
            b@[slash as int] == 47,
            lj == spec_digits_end(b@, slash as int + 1, end as int),
            slash + 1 < lj <= end,
            lj - (slash + 1) <= 3,
            len == dec_bytes_val(b@.subrange(slash as int + 1, lj as int)),
            len <= 128,
            !have_dc ==> spec_find_dc(b@, i as int, slash as int) is None,
            have_dc ==> spec_find_dc(b@, i as int, slash as int) == Some(dc as int)
                && spec_find_dc(b@, (dc + 2) as int, slash as int) is None,
            have_dc ==> dc + 2 <= slash,
            i <= dc <= slash,
        decreases slash - p,
    {
        if b[p] == 58u8 && b[p + 1] == 58u8 {
            if have_dc {
                proof {
                    assert(spec_find_dc(b@, p as int, slash as int) == Some(p as int));
                }
                return Some((Err(ParseError::V6DoubleColon), lj));
            }
            have_dc = true;
            dc = p;
            p = p + 2;
        } else {
            p = p + 1;
        }
    }
    let addr: u128;
    if have_dc {
        let first = match process_v6_half(b, i, dc) {
            Ok(h) => h,
            Err(e) => {
                return Some((Err(e), lj));
            },
        };
        let second = match process_v6_half(b, dc + 2, slash) {
            Ok(h) => h,
            Err(e) => {
                return Some((Err(e), lj));
            },
        };
        if first.1 + second.1 > 8 {
            return Some((Err(ParseError::V6Groups), lj));
        }
        let first_shifter: usize = 8 - (first.1 as usize);
        let collected: u128;
        if first_shifter == 8 {
            // The first half is empty: nothing to place in the high
            // groups.
            collected = 0;
            proof {
                vstd::arithmetic::power2::lemma2_to64();
                assert(first.0 == 0);
                assert(collected as nat == (first.0 as nat) * pow2((16 * first_shifter) as nat))
                    by (nonlinear_arith)
                    requires
                        collected == 0,
                        first.0 == 0,
                ;
            }
        } else {
            let m = pow2_u128(first_shifter * 16);
            proof {
                vstd::arithmetic::power2::lemma_pow2_pos((16 * first_shifter) as nat);
                vstd::arithmetic::power2::lemma_pow2_adds(
                    (16 * first.1) as nat,
                    (16 * first_shifter) as nat,
                );
                crate::bitstring::pow2_128_fact();
                crate::bitstring::lemma_pow2_le((16 * first.1 + 16 * first_shifter) as nat, 128);
                assert(first.0 * pow2((16 * first_shifter) as nat) < pow2(
                    (16 * first.1 + 16 * first_shifter) as nat,
                )) by (nonlinear_arith)
                    requires
                        first.0 < pow2((16 * first.1) as nat),
                        pow2((16 * first.1 + 16 * first_shifter) as nat) == pow2(
                            (16 * first.1) as nat,
                        ) * pow2((16 * first_shifter) as nat),
                        pow2((16 * first_shifter) as nat) > 0,
                ;
            }
            collected = first.0 * m;
            proof {
                assert(collected as nat == (first.0 as nat) * pow2((16 * first_shifter) as nat));
            }
        }
        proof {
            crate::bitstring::pow2_128_fact();
            vstd::arithmetic::power2::lemma2_to64();
            vstd::arithmetic::power2::lemma_pow2_pos((16 * first_shifter) as nat);
            crate::bitstring::lemma_pow2_le((16 * second.1) as nat, (16 * first_shifter) as nat);
            assert(pow2((16 * first.1) as nat) * pow2((16 * first_shifter) as nat) == pow2(128))
                by {
                vstd::arithmetic::power2::lemma_pow2_adds(
                    (16 * first.1) as nat,
                    (16 * first_shifter) as nat,
                );
            }
            assert((first.0 as nat) * pow2((16 * first_shifter) as nat) + second.0 < pow2(128))
                by (nonlinear_arith)
                requires
                    first.0 < pow2((16 * first.1) as nat),
                    second.0 < pow2((16 * first_shifter) as nat),
                    pow2((16 * first_shifter) as nat) > 0,
                    pow2((16 * first.1) as nat) * pow2((16 * first_shifter) as nat) <= pow2(128),
            ;
        }
        addr = collected + second.0;
        proof {
            assert(16 * (8 - first.1 as int) == 16 * first_shifter);
            assert(addr as nat == (first.0 as nat) * pow2((16 * (8 - first.1 as int)) as nat)
                + second.0 as nat);
        }
    } else {
        let first = match process_v6_half(b, i, slash) {
            Ok(h) => h,
            Err(e) => {
                return Some((Err(e), lj));
            },
        };
        if first.1 != 8 {
            return Some((Err(ParseError::V6Groups), lj));
        }
        addr = first.0;
    }
    Some((Ok(V6(addr, len as u8)), lj))
}

/// The identifier at `i`, read mathematically: `None` unless an
/// identifier-start byte stands there; otherwise the characters of the
/// maximal identifier run and its end.
pub open spec fn spec_ident(s: Seq<u8>, i: int, end: int) -> Option<(Seq<char>, int)> {
    if i >= end || !is_ident_start_b(s[i]) {
        None
    } else {
        let j = spec_ident_char_end(s, i + 1, end);
        Some((Seq::new((j - i) as nat, |t: int| s[i + t] as char), j))
    }
}

/// Scan an identifier at `i`.
fn parse_ident_at(b: &Vec<u8>, i: usize, end: usize) -> (r: Option<(String, usize)>)
    requires
        i <= end <= b@.len(),
        forall|t: int| 0 <= t < b@.len() ==> b@[t] < 128,
    ensures
        match r {
            Some((nm, j)) => i < j <= end && spec_ident(b@, i as int, end as int) == Some(
                (nm@, j as int),
            ),
            None => spec_ident(b@, i as int, end as int) is None,
        },
{
    if i >= end || !is_ident_start(b[i]) {
        return None;
    }
    let mut j = i + 1;
    while j < end
        invariant
            i < j <= end <= b@.len(),
            spec_ident_char_end(b@, i as int + 1, end as int) == spec_ident_char_end(
                b@,
                j as int,
                end as int,
            ),
        ensures
            i < j <= end,
            j == spec_ident_char_end(b@, i as int + 1, end as int),
        decreases end - j,
    {
        if !is_ident_char(b[j]) {
            break ;
        }
        j = j + 1;
    }
    let mut name: Vec<u8> = Vec::new();
    let mut k = i;
    while k < j
        invariant
            i <= k <= j <= b@.len(),
            forall|t: int| 0 <= t < b@.len() ==> b@[t] < 128,
            forall|t: int| 0 <= t < name@.len() ==> name@[t] < 128,
            name@ == b@.subrange(i as int, k as int),
        decreases j - k,
    {
        proof {
            assert(b@.subrange(i as int, k + 1) =~= b@.subrange(i as int, k as int).push(
                b@[k as int],
            ));
        }
        name.push(b[k]);
        k = k + 1;
    }
    let out = ascii_to_string(name);
    proof {
        assert(out@ =~= Seq::new((j - i) as nat, |t: int| b@[i + t] as char));
    }
    Some((out, j))
}

/// One atomic, read mathematically: a parenthesized expression, a
/// CIDR block, or a name, after leading blanks.
pub open spec fn spec_atomic(s: Seq<u8>, i: int, end: int) -> Result<(SExpr, int), ParseError>
    decreases end - i, 0int,
    via spec_atomic_dec
{
    let p = spec_skip_ws(s, i, end);
    if p >= end {
        Err(ParseError::Syntax)
    } else if s[p] == 40 {
        match spec_expr(s, p + 1, end) {
            Err(e) => Err(e),
            Ok((e, j)) => if j < end && s[j] == 41 {
                Ok((e, j + 1))
            } else {
                Err(ParseError::Syntax)
            },
        }
    } else {
        match spec_v4(s, p, end) {
            Some((Ok(v), j)) => Ok((SExpr::Atomic(SAtomic::V4(v)), j)),
            Some((Err(e), j)) => Err(e),
            None => match spec_v6(s, p, end) {
                Some((Ok(v), j)) => Ok((SExpr::Atomic(SAtomic::V6(v)), j)),
                Some((Err(e), j)) => Err(e),
                None => match spec_ident(s, p, end) {
                    Some((nm, j)) => Ok((SExpr::Atomic(SAtomic::Ident(nm)), j)),
                    None => Err(ParseError::Syntax),
                },
            },
        }
    }
}

#[via_fn]
proof fn spec_atomic_dec(s: Seq<u8>, i: int, end: int) {
    lemma_scan_bounds(s, i, end);
}

/// The operator chain after a first atomic: fold `+` and `-` onto the
/// accumulator, left-associatively, until no operator follows.
pub open spec fn spec_expr_tail(s: Seq<u8>, acc: SExpr, pos: int, end: int) -> Result<
    (SExpr, int),
    ParseError,
>
    decreases end - pos, 1int,
    via spec_expr_tail_dec
{
    let k = spec_skip_ws(s, pos, end);
    if k >= end {
        Ok((acc, end))
    } else if s[k] != 43 && s[k] != 45 {
        Ok((acc, k))
    } else {
        match spec_atomic(s, k + 1, end) {
            Err(e) => Err(e),
            // An atomic always lands inside the input, past its start;
            // the branch only keeps the recursion well-founded.
            Ok((rhs, j)) => if j <= pos || j > end {
                Err(ParseError::Syntax)
            } else {
                spec_expr_tail(
                    s,
                    if s[k] == 43 {
                        SExpr::Addition(Box::new(acc), Box::new(rhs))
                    } else {
                        SExpr::Subtraction(Box::new(acc), Box::new(rhs))
                    },
                    j,
                    end,
                )
            },
        }
    }
}

#[via_fn]
proof fn spec_expr_tail_dec(s: Seq<u8>, acc: SExpr, pos: int, end: int) {
    lemma_scan_bounds(s, pos, end);
}

/// An expression, read mathematically: a first atomic, then the
/// left-associative operator chain.
pub open spec fn spec_expr(s: Seq<u8>, i: int, end: int) -> Result<(SExpr, int), ParseError>
    decreases end - i, 2int,
{
    match spec_atomic(s, i, end) {
        Err(e) => Err(e),
        // An atomic always lands inside the input; the branch only
        // keeps the recursion well-founded.
        Ok((first, pos)) => if pos < i || pos > end {
            Err(ParseError::Syntax)
        } else {
            spec_expr_tail(s, first, pos, end)
        },
    }
}

/// A whole-range expression statement.
pub open spec fn spec_stmt_expr(s: Seq<u8>, i: int, end: int) -> Result<SStmt, ParseError> {
    match spec_expr(s, i, end) {
        Err(e) => Err(e),
        Ok((e, j)) => if j != end {
            Err(ParseError::Syntax)
        } else {
            Ok(SStmt::Expr(e))
        },
    }
}

/// A statement, read mathematically: `let NAME = EXPR` where that shape
/// holds, a whole-range expression otherwise.
pub open spec fn spec_stmt(s: Seq<u8>, i: int, end: int) -> Result<SStmt, ParseError> {
    let p = spec_skip_ws(s, i, end);
    if end - p >= 3 && s[p] == 108 && s[p + 1] == 101 && s[p + 2] == 116 {
        match spec_ident(s, spec_skip_ws(s, p + 3, end), end) {
            Some((nm, j)) => {
                let q = spec_skip_ws(s, j, end);
                if q < end && s[q] == 61 {
                    match spec_expr(s, q + 1, end) {
                        Err(e) => Err(e),
                        Ok((e, j2)) => if j2 != end {
                            Err(ParseError::Syntax)
                        } else {
                            Ok(SStmt::LetIn(nm, e))
                        },
                    }
                } else {
                    spec_stmt_expr(s, i, end)
                }
            },
            None => spec_stmt_expr(s, i, end),
        }
    } else {
        spec_stmt_expr(s, i, end)
    }
}

/// Parse one atomic: a parenthesized expression, a CIDR, or a name.
fn parse_atomic(b: &Vec<u8>, i: usize, end: usize) -> (r: Result<(Expr, usize), ParseError>)
    requires
        i <= end <= b@.len(),
        forall|t: int| 0 <= t < b@.len() ==> b@[t] < 128,
    ensures
        match r {
            Ok((e, j)) => i < j <= end && expr_wf(e) && spec_atomic(b@, i as int, end as int)
                == Ok::<(SExpr, int), ParseError>((expr_view(e), j as int)),
            Err(er) => spec_atomic(b@, i as int, end as int) == Err::<
                (SExpr, int),
                ParseError,
            >(er),
        },
    decreases end - i, 0int,
{
    let p = skip_ws(b, i, end);
    if p >= end {
        return Err(ParseError::Syntax);
    }
    if b[p] == 40u8 {
        let (e, j) = match parse_expr(b, p + 1, end) {
            Ok(x) => x,
            Err(er) => {
                return Err(er);
            },
        };
        if j < end && b[j] == 41u8 {
            return Ok((e, j + 1));
        }
        return Err(ParseError::Syntax);
    }
    match parse_v4_at(b, p, end) {
        Some((res, j)) => {
            match res {
                Ok(v) => {
                    return Ok((Expr::Atomic(Atomic::V4(v)), j));
                },
                Err(e) => {
                    return Err(e);
                },
            }
        },
        None => {},
    }
    match parse_v6_at(b, p, end) {
        Some((res, j)) => {
            match res {
                Ok(v) => {
                    return Ok((Expr::Atomic(Atomic::V6(v)), j));
                },
                Err(e) => {
                    return Err(e);
                },
            }
        },
        None => {},
    }
    match parse_ident_at(b, p, end) {
        Some((name, j)) => Ok((Expr::Atomic(Atomic::Ident(name)), j)),
        None => Err(ParseError::Syntax),
    }
}

/// Parse a chain of atomics joined by `+` and `-`, left-associative.
/// Returns the expression and the position of the first byte it could
/// not consume (`end` if none).
fn parse_expr(b: &Vec<u8>, i: usize, end: usize) -> (r: Result<(Expr, usize), ParseError>)
    requires
        i <= end <= b@.len(),
        forall|t: int| 0 <= t < b@.len() ==> b@[t] < 128,
    ensures
        match r {
            Ok((e, j)) => i <= j <= end && expr_wf(e) && spec_expr(b@, i as int, end as int)
                == Ok::<(SExpr, int), ParseError>((expr_view(e), j as int)),
            Err(er) => spec_expr(b@, i as int, end as int) == Err::<(SExpr, int), ParseError>(er),
        },
    decreases end - i, 1int,
{
    let (first, mut pos) = match parse_atomic(b, i, end) {
        Ok(x) => x,
        Err(e) => {
            return Err(e);
        },
    };
    let mut collected = first;
    loop
        invariant_except_break
            spec_expr(b@, i as int, end as int) == spec_expr_tail(
                b@,
                expr_view(collected),
                pos as int,
                end as int,
            ),
        invariant
            i <= pos <= end <= b@.len(),
            forall|t: int| 0 <= t < b@.len() ==> b@[t] < 128,
            expr_wf(collected),
        ensures
            i <= pos <= end,
            expr_wf(collected),
            spec_expr(b@, i as int, end as int) == Ok::<(SExpr, int), ParseError>(
                (expr_view(collected), pos as int),
            ),
        decreases end - pos,
    {
        let k = skip_ws(b, pos, end);
        if k >= end {
            pos = end;
            break ;
        }
        let op = b[k];
        if op != 43u8 && op != 45u8 {
            pos = k;
            break ;
        }
        let (rhs, j) = match parse_atomic(b, k + 1, end) {
            Ok(x) => x,
            Err(e) => {
                return Err(e);
            },
        };
        if op == 43u8 {
            collected = Expr::Addition(Box::new(collected), Box::new(rhs));
        } else {
            collected = Expr::Subtraction(Box::new(collected), Box::new(rhs));
        }
        pos = j;
    }
    Ok((collected, pos))
}

/// Parse one statement from the byte range `i..end`.
fn parse_stmt_bytes(b: &Vec<u8>, i: usize, end: usize) -> (r: Result<Stmt, ParseError>)
    requires
        i <= end <= b@.len(),
        forall|t: int| 0 <= t < b@.len() ==> b@[t] < 128,
    ensures
        match r {
            Ok(st) => stmt_wf(st) && spec_stmt(b@, i as int, end as int) == Ok::<
                SStmt,
                ParseError,
            >(stmt_view(st)),
            Err(e) => spec_stmt(b@, i as int, end as int) == Err::<SStmt, ParseError>(e),
        },
{
    let p = skip_ws(b, i, end);
    // A binding starts with the keyword `let`.
    if end - p >= 3 && b[p] == 108u8 && b[p + 1] == 101u8 && b[p + 2] == 116u8 {
        match parse_ident_at(b, skip_ws(b, p + 3, end), end) {
            Some((name, j)) => {
                let q = skip_ws(b, j, end);
                if q < end && b[q] == 61u8 {
                    let (e, j2) = match parse_expr(b, q + 1, end) {
                        Ok(x) => x,
                        Err(er) => {
                            return Err(er);
                        },
                    };
                    if j2 != end {
                        return Err(ParseError::Syntax);
                    }
                    return Ok(Stmt::LetIn { ident: name, val: Box::new(e) });
                }
            },
            None => {},
        }
    }
    let (e, j) = match parse_expr(b, i, end) {
        Ok(x) => x,
        Err(er) => {
            return Err(er);
        },
    };
    if j != end {
        return Err(ParseError::Syntax);
    }
    Ok(Stmt::Expr(e))
}

/// True when the range holds nothing but blanks.
fn is_blank(b: &Vec<u8>, i: usize, end: usize) -> (r: bool)
    requires
        i <= end <= b@.len(),
    ensures
        r == spec_blank(b@, i as int, end as int),
{
    skip_ws(b, i, end) == end
}

/// The code points of a text, for reading it byte by byte.
pub open spec fn ascii_bytes(s: Seq<char>) -> Seq<u8> {
    s.map(|i: int, c: char| c as u8)
}

/// One line of input, read mathematically: its statement, or a syntax
/// error for input that is not ASCII.
pub open spec fn spec_parse_single(sc: Seq<char>) -> Result<SStmt, ParseError> {
    if !vstd::utf8::is_ascii_chars(sc) {
        Err(ParseError::Syntax)
    } else {
        spec_stmt(ascii_bytes(sc), 0, sc.len() as int)
    }
}

/// Parse a single statement from one line of input.
pub fn parse_single(input: &str) -> (r: Result<Stmt, ParseError>)
    ensures
        match r {
            Ok(st) => stmt_wf(st) && spec_parse_single(input@) == Ok::<SStmt, ParseError>(
                stmt_view(st),
            ),
            Err(e) => spec_parse_single(input@) == Err::<SStmt, ParseError>(e),
        },
{
    if !input.is_ascii() {
        return Err(ParseError::Syntax);
    }
    let b = input.as_bytes_vec();
    proof {
        vstd::string::is_ascii_spec_bytes(input);
        assert(b@ =~= ascii_bytes(input@));
    }
    let n = b.len();
    parse_stmt_bytes(&b, 0, n)
}

/// Nothing but blanks in `s[i..end]`.
pub open spec fn spec_blank(s: Seq<u8>, i: int, end: int) -> bool {
    spec_skip_ws(s, i, end) == end
}

/// A script, read mathematically: the statements of the non-blank
/// lines, in source order; the first malformed line's error otherwise.
/// `start` is the current line's beginning, `pos` the read position.
pub open spec fn spec_parse_lines(s: Seq<u8>, start: int, pos: int, n: int) -> Result<
    Seq<SStmt>,
    ParseError,
>
    decreases n - pos,
{
    if pos >= n {
        if spec_blank(s, start, n) {
            Ok(Seq::empty())
        } else {
            match spec_stmt(s, start, n) {
                Err(e) => Err(e),
                Ok(st) => Ok(seq![st]),
            }
        }
    } else if s[pos] == 10 {
        if spec_blank(s, start, pos) {
            spec_parse_lines(s, pos + 1, pos + 1, n)
        } else {
            match spec_stmt(s, start, pos) {
                Err(e) => Err(e),
                Ok(st) => match spec_parse_lines(s, pos + 1, pos + 1, n) {
                    Err(e) => Err(e),
                    Ok(rest) => Ok(seq![st] + rest),
                },
            }
        }
    } else {
        spec_parse_lines(s, start, pos + 1, n)
    }
}

/// A whole input, read mathematically.
pub open spec fn spec_parse(sc: Seq<char>) -> Result<Seq<SStmt>, ParseError> {
    if !vstd::utf8::is_ascii_chars(sc) {
        Err(ParseError::Syntax)
    } else {
        spec_parse_lines(ascii_bytes(sc), 0, 0, sc.len() as int)
    }
}

/// Parse a script: one statement per non-blank line, in order.
#[verifier::rlimit(60)]
pub fn parse(input: &str) -> (r: Result<Vec<Stmt>, ParseError>)
    ensures
        match r {
            Ok(stmts) => (forall|i: int|
                0 <= i < stmts@.len() ==> stmt_wf(#[trigger] stmts@[i])) && spec_parse(input@)
                == Ok::<Seq<SStmt>, ParseError>(
                stmts@.map(|k: int, st: Stmt| stmt_view(st)),
            ),
            Err(e) => spec_parse(input@) == Err::<Seq<SStmt>, ParseError>(e),
        },
{
    if !input.is_ascii() {
        return Err(ParseError::Syntax);
    }
    let b = input.as_bytes_vec();
    proof {
        vstd::string::is_ascii_spec_bytes(input);
        assert(b@ =~= ascii_bytes(input@));
    }
    let n = b.len();
    let mut out: Vec<Stmt> = Vec::new();
    let mut start: usize = 0;
    let mut pos: usize = 0;
    while pos < n
        invariant
            start <= pos <= n,
            n == b@.len(),
            n == input@.len(),
            vstd::utf8::is_ascii_chars(input@),
            b@ == ascii_bytes(input@),
            forall|t: int| 0 <= t < b@.len() ==> b@[t] < 128,
            forall|i: int| 0 <= i < out@.len() ==> stmt_wf(#[trigger] out@[i]),
            ({
                let views = out@.map(|k: int, st: Stmt| stmt_view(st));
                spec_parse_lines(b@, 0, 0, n as int) == (match spec_parse_lines(
                    b@,
                    start as int,
                    pos as int,
                    n as int,
                ) {
                    Ok(rest) => Ok::<Seq<SStmt>, ParseError>(views + rest),
                    Err(e) => Err::<Seq<SStmt>, ParseError>(e),
                })
            }),
        decreases n - pos,
    {
        if b[pos] == 10u8 {
            if !is_blank(&b, start, pos) {
                proof {
                    assert(spec_parse_lines(b@, start as int, pos as int, n as int) == (
                    match spec_stmt(b@, start as int, pos as int) {
                        Err(e) => Err::<Seq<SStmt>, ParseError>(e),
                        Ok(st) => match spec_parse_lines(b@, pos + 1, pos + 1, n as int) {
                            Err(e) => Err::<Seq<SStmt>, ParseError>(e),
                            Ok(rest) => Ok::<Seq<SStmt>, ParseError>(seq![st] + rest),
                        },
                    }));
                }
                match parse_stmt_bytes(&b, start, pos) {
                    Ok(s) => {
                        let ghost stv = stmt_view(s);
                        let ghost oldviews = out@.map(|k: int, st: Stmt| stmt_view(st));
                        out.push(s);
                        proof {
                            assert(out@.map(|k: int, st: Stmt| stmt_view(st)) =~= oldviews.push(
                                stv,
                            ));
                            match spec_parse_lines(b@, pos + 1, pos + 1, n as int) {
                                Ok(rest) => {
                                    assert(oldviews + (seq![stv] + rest) =~= oldviews.push(stv)
                                        + rest);
                                },
                                Err(e) => {},
                            }
                        }
                    },
                    Err(e) => {
                        return Err(e);
                    },
                }
            }
            start = pos + 1;
        }
        pos = pos + 1;
    }
    if !is_blank(&b, start, n) {
        match parse_stmt_bytes(&b, start, n) {
            Ok(s) => {
                let ghost stv = stmt_view(s);
                let ghost oldviews = out@.map(|k: int, st: Stmt| stmt_view(st));
                out.push(s);
                proof {
                    assert(out@.map(|k: int, st: Stmt| stmt_view(st)) =~= oldviews.push(stv));
                    assert(oldviews + seq![stv] =~= oldviews.push(stv));
                }
            },
            Err(e) => {
                return Err(e);
            },
        }
    } else {
        proof {
            let views = out@.map(|k: int, st: Stmt| stmt_view(st));
            assert(views + Seq::<SStmt>::empty() =~= views);
        }
    }
    Ok(out)
}

} // verus!
