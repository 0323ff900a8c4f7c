//! Values, the statement evaluator, and display.
//!
//! A [`Value`] is unit or an address set of one family; its meaning is
//! the ghost [`SVal`], a set of bit strings per family. Evaluation of
//! parsed statements is pinned down by the spec functions
//! [`spec_eval_expr`], [`spec_eval_stmt`] and [`spec_eval_prog`], and
//! the executable evaluator is proved to follow them.

use vstd::prelude::*;
use vstd::arithmetic::power2::pow2;
use crate::trie::{SetNode, construct_set_node};
use crate::walker::SetWalker;
use crate::data::{V4, V6, v4_text, v6_text};
use crate::parser::{Stmt, Expr, Atomic, expr_wf, stmt_wf};
use crate::scope::Scope;
use crate::bitstring::{bits_val, addr_bit, lemma_bits_val_bound, lemma_pow2_le};

verus! {

/// The result of evaluating an expression: nothing, or one set per
/// address family.
#[derive(Debug)]
pub enum Value {
    Unit,
    V4Set(SetNode<32>),
    V6Set(SetNode<128>),
}

/// Errors evaluation can raise.
#[derive(Debug, PartialEq, Eq)]
pub enum EvalError {
    /// A binary operation mixed a v4 set with a v6 set.
    FamilyMismatch,
    /// An identifier was not bound in the scope.
    UnboundIdentifier(String),
}

/// The mathematical reading of a value: a set of fixed-width bit
/// strings, tagged with its family.
pub ghost enum SVal {
    Unit,
    S4(Set<Seq<bool>>),
    S6(Set<Seq<bool>>),
}

/// The mathematical reading of an evaluation error.
pub ghost enum SErr {
    Mismatch,
    Unbound(Seq<char>),
}

/// The address set of a trie node: the bit strings of its width that it
/// contains.
pub open spec fn node_sem<const MAX_DEPTH: usize>(n: SetNode<MAX_DEPTH>) -> Set<Seq<bool>> {
    Set::new(|a: Seq<bool>| a.len() == MAX_DEPTH - n.depth && n.in_set(a))
}

/// The set a CIDR block `(addr, len)` denotes in a family of width `w`:
/// all `w`-bit strings whose first `len` bits follow `addr`.
pub open spec fn cidr_sem(addr: u128, len: nat, w: nat) -> Set<Seq<bool>> {
    Set::new(
        |a: Seq<bool>|
            a.len() == w && (forall|j: int|
                0 <= j < len ==> a[j] == addr_bit(addr, (w - 1 - j) as nat)),
    )
}

/// What a value means.
pub open spec fn sval_of(v: Value) -> SVal {
    match v {
        Value::Unit => SVal::Unit,
        Value::V4Set(s) => SVal::S4(node_sem(s)),
        Value::V6Set(s) => SVal::S6(node_sem(s)),
    }
}

/// What an error value means.
pub open spec fn err_of(e: EvalError) -> SErr {
    match e {
        EvalError::FamilyMismatch => SErr::Mismatch,
        EvalError::UnboundIdentifier(s) => SErr::Unbound(s@),
    }
}

/// Union at the semantic level; mixing families fails.
pub open spec fn sval_union(a: SVal, b: SVal) -> Result<SVal, SErr> {
    match (a, b) {
        (SVal::S4(x), SVal::S4(y)) => Ok(SVal::S4(x.union(y))),
        (SVal::S6(x), SVal::S6(y)) => Ok(SVal::S6(x.union(y))),
        _ => Err(SErr::Mismatch),
    }
}

/// Difference at the semantic level; mixing families fails.
pub open spec fn sval_subtract(a: SVal, b: SVal) -> Result<SVal, SErr> {
    match (a, b) {
        (SVal::S4(x), SVal::S4(y)) => Ok(SVal::S4(x.difference(y))),
        (SVal::S6(x), SVal::S6(y)) => Ok(SVal::S6(x.difference(y))),
        _ => Err(SErr::Mismatch),
    }
}

impl Value {
    /// A well-formed value holds a canonical trie rooted at depth 0.
    pub open spec fn wf(self) -> bool {
        match self {
            Value::Unit => true,
            Value::V4Set(s) => s.inv() && s.depth == 0,
            Value::V6Set(s) => s.inv() && s.depth == 0,
        }
    }

    /// Both operands belong to the same family (unit passes).
    pub fn is_same_len(&self, ano: &Value) -> (r: bool)
        ensures
            r == !(sval_union(sval_of(*self), sval_of(*ano)) is Err && !(self is Unit) && !(
            ano is Unit)),
    {
        match (self, ano) {
            (Value::V4Set(_), Value::V6Set(_)) | (Value::V6Set(_), Value::V4Set(_)) => false,
            _ => true,
        }
    }

    /// Union of two set values of the same family.
    pub fn union(&self, ano: &Value) -> (res: Result<Value, EvalError>)
        requires
            self.wf(),
            ano.wf(),
            !(self is Unit),
            !(ano is Unit),
        ensures
            match sval_union(sval_of(*self), sval_of(*ano)) {
                Ok(sv) => res matches Ok(v) && v.wf() && !(v is Unit) && sval_of(v) == sv,
                Err(se) => res matches Err(e) && err_of(e) == se,
            },
    {
        match (self, ano) {
            (Value::V4Set(l), Value::V4Set(r)) => {
                let u = l.union(r);
                proof {
                    assert(node_sem(u) =~= node_sem(*l).union(node_sem(*r)));
                }
                Ok(Value::V4Set(u))
            },
            (Value::V6Set(l), Value::V6Set(r)) => {
                let u = l.union(r);
                proof {
                    assert(node_sem(u) =~= node_sem(*l).union(node_sem(*r)));
                }
                Ok(Value::V6Set(u))
            },
            _ => Err(EvalError::FamilyMismatch),
        }
    }

    /// Difference of two set values of the same family.
    pub fn subtract(&self, ano: &Value) -> (res: Result<Value, EvalError>)
        requires
            self.wf(),
            ano.wf(),
            !(self is Unit),
            !(ano is Unit),
        ensures
            match sval_subtract(sval_of(*self), sval_of(*ano)) {
                Ok(sv) => res matches Ok(v) && v.wf() && !(v is Unit) && sval_of(v) == sv,
                Err(se) => res matches Err(e) && err_of(e) == se,
            },
    {
        match (self, ano) {
            (Value::V4Set(l), Value::V4Set(r)) => {
                let u = l.subtract(r);
                proof {
                    assert(node_sem(u) =~= node_sem(*l).difference(node_sem(*r)));
                }
                Ok(Value::V4Set(u))
            },
            (Value::V6Set(l), Value::V6Set(r)) => {
                let u = l.subtract(r);
                proof {
                    assert(node_sem(u) =~= node_sem(*l).difference(node_sem(*r)));
                }
                Ok(Value::V6Set(u))
            },
            _ => Err(EvalError::FamilyMismatch),
        }
    }
}

impl Clone for Value {
    fn clone(&self) -> (res: Self)
        ensures
            res == *self,
    {
        match self {
            Value::Unit => Value::Unit,
            Value::V4Set(s) => Value::V4Set(s.clone()),
            Value::V6Set(s) => Value::V6Set(s.clone()),
        }
    }
}

impl Scope {
    /// The scope read at the semantic level.
    pub open spec fn sem(self) -> Map<Seq<char>, SVal> {
        self@.map_values(|v: Value| sval_of(v))
    }
}

/// Evaluation of an expression against a semantic scope.
pub open spec fn spec_eval_expr(e: Expr, m: Map<Seq<char>, SVal>) -> Result<SVal, SErr>
    decreases e,
{
    match e {
        Expr::Atomic(a) => match a {
            Atomic::Ident(i) => if m.contains_key(i@) {
                Ok(m[i@])
            } else {
                Err(SErr::Unbound(i@))
            },
            Atomic::V4(v) => Ok(SVal::S4(cidr_sem(v.0 as u128, v.1 as nat, 32))),
            Atomic::V6(v) => Ok(SVal::S6(cidr_sem(v.0, v.1 as nat, 128))),
        },
        Expr::Addition(l, r) => match spec_eval_expr(*l, m) {
            Err(e) => Err(e),
            Ok(lv) => match spec_eval_expr(*r, m) {
                Err(e) => Err(e),
                Ok(rv) => sval_union(lv, rv),
            },
        },
        Expr::Subtraction(l, r) => match spec_eval_expr(*l, m) {
            Err(e) => Err(e),
            Ok(lv) => match spec_eval_expr(*r, m) {
                Err(e) => Err(e),
                Ok(rv) => sval_subtract(lv, rv),
            },
        },
    }
}

/// Evaluation of one statement: the value produced and the scope that
/// results. A let-binding yields unit and extends the scope; a bare
/// expression yields its value and leaves the scope as it was.
pub open spec fn spec_eval_stmt(s: Stmt, m: Map<Seq<char>, SVal>) -> Result<
    (SVal, Map<Seq<char>, SVal>),
    SErr,
> {
    match s {
        Stmt::LetIn { ident, val } => match spec_eval_expr(*val, m) {
            Ok(sv) => Ok((SVal::Unit, m.insert(ident@, sv))),
            Err(e) => Err(e),
        },
        Stmt::Expr(e) => match spec_eval_expr(e, m) {
            Ok(sv) => Ok((sv, m)),
            Err(e) => Err(e),
        },
    }
}

/// Evaluation of a whole program, statement by statement in order.
pub open spec fn spec_eval_prog(stmts: Seq<Stmt>, m: Map<Seq<char>, SVal>) -> Result<
    Seq<SVal>,
    SErr,
>
    decreases stmts.len(),
{
    if stmts.len() == 0 {
        Ok(Seq::empty())
    } else {
        match spec_eval_stmt(stmts[0], m) {
            Err(e) => Err(e),
            Ok((sv, m2)) => match spec_eval_prog(stmts.skip(1), m2) {
                Err(e) => Err(e),
                Ok(rest) => Ok(seq![sv] + rest),
            },
        }
    }
}

/// Evaluate an expression in a scope.
fn eval_expr(expr: &Expr, s: &Scope) -> (res: Result<Value, EvalError>)
    requires
        s.wf(),
        expr_wf(*expr),
    ensures
        match spec_eval_expr(*expr, s.sem()) {
            Ok(sv) => res matches Ok(v) && v.wf() && !(v is Unit) && sval_of(v) == sv,
            Err(se) => res matches Err(e) && err_of(e) == se,
        },
    decreases *expr,
{
    match expr {
        Expr::Addition(lhs, rhs) => {
            let lv = match eval_expr(&**lhs, s) {
                Ok(v) => v,
                Err(e) => {
                    return Err(e);
                },
            };
            let rv = match eval_expr(&**rhs, s) {
                Ok(v) => v,
                Err(e) => {
                    return Err(e);
                },
            };
            lv.union(&rv)
        },
        Expr::Subtraction(lhs, rhs) => {
            let lv = match eval_expr(&**lhs, s) {
                Ok(v) => v,
                Err(e) => {
                    return Err(e);
                },
            };
            let rv = match eval_expr(&**rhs, s) {
                Ok(v) => v,
                Err(e) => {
                    return Err(e);
                },
            };
            lv.subtract(&rv)
        },
        Expr::Atomic(a) => match a {
            Atomic::Ident(i) => {
                let lookup = s.get(i.as_str());
                match lookup {
                    Some(v) => {
                        proof {
                            assert(s.sem().contains_key(i@));
                            assert(s.sem()[i@] == sval_of(s@[i@]));
                        }
                        Ok(v.clone())
                    },
                    None => Err(EvalError::UnboundIdentifier(i.clone())),
                }
            },
            Atomic::V4(v) => {
                let n = construct_set_node::<32>(v.0 as u128, v.1 as usize, 0);
                proof {
                    assert(node_sem(n) =~= cidr_sem(v.0 as u128, v.1 as nat, 32));
                }
                Ok(Value::V4Set(n))
            },
            Atomic::V6(v) => {
                let n = construct_set_node::<128>(v.0, v.1 as usize, 0);
                proof {
                    assert(node_sem(n) =~= cidr_sem(v.0, v.1 as nat, 128));
                }
                Ok(Value::V6Set(n))
            },
        },
    }
}

/// Evaluate one statement, producing a value and the scope to carry on
/// with. On an error the caller's scope stands unchanged.
pub fn eval_stmt(stmt: &Stmt, s: Scope) -> (res: Result<(Value, Scope), EvalError>)
    requires
        s.wf(),
        stmt_wf(*stmt),
    ensures
        match spec_eval_stmt(*stmt, s.sem()) {
            Ok((sv, m2)) => res matches Ok(p) && p.0.wf() && sval_of(p.0) == sv && p.1.wf()
                && p.1.sem() == m2,
            Err(se) => res matches Err(e) && err_of(e) == se,
        },
{
    match stmt {
        Stmt::LetIn { ident, val } => {
            let val_evaled = match eval_expr(&**val, &s) {
                Ok(v) => v,
                Err(e) => {
                    return Err(e);
                },
            };
            let ghost sv = sval_of(val_evaled);
            let s2 = s.bind(ident.as_str(), val_evaled);
            proof {
                assert(s2.sem() =~= s.sem().insert(ident@, sv));
            }
            Ok((Value::Unit, s2))
        },
        Stmt::Expr(e) => {
            match eval_expr(e, &s) {
                Ok(v) => Ok((v, s)),
                Err(e) => Err(e),
            }
        },
    }
}

/// Evaluate a program from the empty scope, collecting one value per
/// statement.
pub fn eval(stmts: &Vec<Stmt>) -> (res: Result<Vec<Value>, EvalError>)
    requires
        forall|i: int| 0 <= i < stmts@.len() ==> stmt_wf(#[trigger] stmts@[i]),
    ensures
        match spec_eval_prog(stmts@, Map::<Seq<char>, SVal>::empty()) {
            Ok(svs) => res matches Ok(vs) && vs@.len() == svs.len() && (forall|i: int|
                0 <= i < svs.len() ==> sval_of(#[trigger] vs@[i]) == svs[i] && vs@[i].wf()),
            Err(se) => res matches Err(e) && err_of(e) == se,
        },
{
    let mut scope = Scope::default();
    let mut output: Vec<Value> = Vec::with_capacity(stmts.len());
    let mut i: usize = 0;
    proof {
        assert(stmts@.skip(0) =~= stmts@);
        assert(scope.sem() =~= Map::<Seq<char>, SVal>::empty());
    }
    while i < stmts.len()
        invariant
            i <= stmts@.len(),
            forall|j: int| 0 <= j < stmts@.len() ==> stmt_wf(#[trigger] stmts@[j]),
            scope.wf(),
            output@.len() == i,
            forall|j: int| 0 <= j < i ==> (#[trigger] output@[j]).wf(),
            ({
                let whole = spec_eval_prog(stmts@, Map::<Seq<char>, SVal>::empty());
                match spec_eval_prog(stmts@.skip(i as int), scope.sem()) {
                    Ok(rest) => whole matches Ok(full) && full == output@.map_values(
                        |v: Value| sval_of(v),
                    ) + rest,
                    Err(e) => whole == Err::<Seq<SVal>, SErr>(e),
                }
            }),
        decreases stmts@.len() - i,
    {
        let stmt = &stmts[i];
        let ghost m = scope.sem();
        let ghost tail = stmts@.skip(i as int);
        proof {
            assert(tail[0] == stmts@[i as int]);
            assert(tail.skip(1) =~= stmts@.skip(i + 1));
        }
        match eval_stmt(stmt, scope) {
            Ok((v, s2)) => {
                let ghost svsnap = sval_of(v);
                scope = s2;
                output.push(v);
                proof {
                    assert(output@.map_values(|x: Value| sval_of(x)) =~= output@.drop_last()
                        .map_values(|x: Value| sval_of(x)).push(svsnap));
                    match spec_eval_prog(stmts@.skip(i + 1), scope.sem()) {
                        Ok(rest) => {
                            assert(output@.drop_last().map_values(|x: Value| sval_of(x)).push(
                                svsnap,
                            ) + rest =~= output@.drop_last().map_values(|x: Value| sval_of(x)) + (
                            seq![svsnap] + rest));
                        },
                        Err(e) => {},
                    }
                }
            },
            Err(e) => {
                proof {
                    assert(spec_eval_prog(tail, m) is Err);
                }
                return Err(e);
            },
        }
        i = i + 1;
    }
    proof {
        assert(stmts@.skip(i as int) =~= Seq::<Stmt>::empty());
        match spec_eval_prog(stmts@.skip(i as int), scope.sem()) {
            Ok(rest) => {
                assert(output@.map_values(|v: Value| sval_of(v)) + rest =~= output@.map_values(
                    |v: Value| sval_of(v),
                ));
            },
            Err(e) => {},
        }
    }
    Ok(output)
}

/// The value of a block's bits, shifted into the high end of a width-`w`
/// address.
pub open spec fn block_val(b: Seq<bool>, w: nat) -> nat {
    bits_val(b) * pow2((w - b.len()) as nat)
}

/// The text lines a value prints as: one canonical block per line, in
/// enumeration order.
pub open spec fn value_lines(v: Value) -> Seq<Seq<char>> {
    match v {
        Value::Unit => Seq::empty(),
        Value::V4Set(s) => s.spec_blocks(Seq::<bool>::empty()).map(
            |i: int, b: Seq<bool>| v4_text(block_val(b, 32), b.len()),
        ),
        Value::V6Set(s) => s.spec_blocks(Seq::<bool>::empty()).map(
            |i: int, b: Seq<bool>| v6_text(block_val(b, 128), b.len()),
        ),
    }
}

/// A block of width at most `w` has a value below `2^w` once shifted.
proof fn lemma_block_val_bound(b: Seq<bool>, w: nat)
    requires
        b.len() <= w,
    ensures
        block_val(b, w) < pow2(w),
{
    lemma_bits_val_bound(b);
    vstd::arithmetic::power2::lemma_pow2_adds(b.len(), (w - b.len()) as nat);
    vstd::arithmetic::power2::lemma_pow2_pos((w - b.len()) as nat);
    assert(bits_val(b) * pow2((w - b.len()) as nat) < pow2(b.len()) * pow2((w - b.len()) as nat))
        by (nonlinear_arith)
        requires
            bits_val(b) < pow2(b.len()),
            pow2((w - b.len()) as nat) > 0,
    ;
}

/// Render every block of a value, one line per block.
pub fn format(v: &Value) -> (res: Vec<String>)
    requires
        v.wf(),
    ensures
        res@.len() == value_lines(*v).len(),
        forall|i: int| 0 <= i < res@.len() ==> (#[trigger] res@[i])@ == value_lines(*v)[i],
{
    match v {
        Value::Unit => Vec::new(),
        Value::V4Set(s) => {
            let ghost blocks = s.spec_blocks(Seq::<bool>::empty());
            let ghost lines = value_lines(*v);
            proof {
                assert(*v == Value::V4Set(*s));
                assert(forall|i: int|
                    0 <= i < blocks.len() ==> #[trigger] lines[i] == v4_text(
                        block_val(blocks[i], 32),
                        blocks[i].len(),
                    ));
            }
            let mut w = SetWalker::<32>::new(s);
            let mut out: Vec<String> = Vec::new();
            loop
                invariant
                    w.wf(),
                    out@.len() <= blocks.len(),
                    w.remaining() == blocks.skip(out@.len() as int),
                    lines == value_lines(*v),
                    lines.len() == blocks.len(),
                    forall|i: int|
                        0 <= i < blocks.len() ==> #[trigger] lines[i] == v4_text(
                            block_val(blocks[i], 32),
                            blocks[i].len(),
                        ),
                    forall|i: int| 0 <= i < out@.len() ==> (#[trigger] out@[i])@ == lines[i],
                ensures
                    out@.len() == blocks.len(),
                    forall|i: int| 0 <= i < out@.len() ==> (#[trigger] out@[i])@ == lines[i],
                decreases w.remaining().len(),
            {
                let ghost k = out@.len() as int;
                match w.next() {
                    None => {
                        proof {
                            assert(blocks.skip(k).len() == 0);
                        }
                        break ;
                    },
                    Some((a, l)) => {
                        let ghost b = blocks.skip(k).first();
                        proof {
                            assert(b == blocks[k]);
                            assert(blocks.skip(k).drop_first() =~= blocks.skip(k + 1));
                            lemma_block_val_bound(b, 32);
                            vstd::arithmetic::power2::lemma2_to64();
                            lemma_pow2_le(b.len(), 32);
                            assert(a as nat == block_val(b, 32));
                            assert(lines[k] == v4_text(block_val(b, 32), b.len()));
                        }
                        let v4 = V4(a as u32, l as u8);
                        proof {
                            assert(v4.0 as nat == block_val(b, 32));
                            assert(v4.1 as nat == b.len());
                        }
                        let line = v4.to_string();
                        proof {
                            assert(line@ == lines[k]);
                        }
                        out.push(line);
                    },
                }
            }
            out
        },
        Value::V6Set(s) => {
            let ghost blocks = s.spec_blocks(Seq::<bool>::empty());
            let ghost lines = value_lines(*v);
            proof {
                assert(*v == Value::V6Set(*s));
                assert(forall|i: int|
                    0 <= i < blocks.len() ==> #[trigger] lines[i] == v6_text(
                        block_val(blocks[i], 128),
                        blocks[i].len(),
                    ));
            }
            let mut w = SetWalker::<128>::new(s);
            let mut out: Vec<String> = Vec::new();
            loop
                invariant
                    w.wf(),
                    out@.len() <= blocks.len(),
                    w.remaining() == blocks.skip(out@.len() as int),
                    lines == value_lines(*v),
                    lines.len() == blocks.len(),
                    forall|i: int|
                        0 <= i < blocks.len() ==> #[trigger] lines[i] == v6_text(
                            block_val(blocks[i], 128),
                            blocks[i].len(),
                        ),
                    forall|i: int| 0 <= i < out@.len() ==> (#[trigger] out@[i])@ == lines[i],
                ensures
                    out@.len() == blocks.len(),
                    forall|i: int| 0 <= i < out@.len() ==> (#[trigger] out@[i])@ == lines[i],
                decreases w.remaining().len(),
            {
                let ghost k = out@.len() as int;
                match w.next() {
                    None => {
                        proof {
                            assert(blocks.skip(k).len() == 0);
                        }
                        break ;
                    },
                    Some((a, l)) => {
                        let ghost b = blocks.skip(k).first();
                        proof {
                            assert(b == blocks[k]);
                            assert(blocks.skip(k).drop_first() =~= blocks.skip(k + 1));
                            lemma_block_val_bound(b, 128);
                            lemma_pow2_le(b.len(), 128);
                            assert(a as nat == block_val(b, 128));
                            assert(lines[k] == v6_text(block_val(b, 128), b.len()));
                        }
                        let v6 = V6(a, l as u8);
                        proof {
                            assert(v6.0 as nat == block_val(b, 128));
                            assert(v6.1 as nat == b.len());
                        }
                        let line = v6.to_string();
                        proof {
                            assert(line@ == lines[k]);
                        }
                        out.push(line);
                    },
                }
            }
            out
        },
    }
}

} // verus!
