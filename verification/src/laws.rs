//! The algebra of canonical tries.
//!
//! Canonical form makes the representation unique: two canonical tries
//! over the same family with the same members are the same value
//! ([`lemma_canonical_unique`]). The set-algebra laws then follow for
//! the executable operations, whose contracts pin their results down to
//! exactly these member sets.

use vstd::prelude::*;
use vstd::arithmetic::power2::pow2;
use crate::trie::{SetNode, cidr_path};
use crate::bitstring::{addr_bits, lemma_lex_lt, lemma_addr_bits_prefix_val};
use crate::eval::block_val;
use crate::data::{dec_rep, digit_char};
use crate::parser::{dec_bytes_val, ascii_bytes};

verus! {

/// `b` names the block of all addresses extending it; `full` is one of
/// them when `b` is its prefix.
pub open spec fn block_covers(b: Seq<bool>, full: Seq<bool>) -> bool {
    b.len() <= full.len() && full.take(b.len() as int) == b
}

/// The order the enumeration promises: smaller left-aligned prefix
/// value first; on equal values the shorter prefix first.
pub open spec fn block_lt(x: Seq<bool>, y: Seq<bool>, w: nat) -> bool {
    block_val(x, w) < block_val(y, w) || (block_val(x, w) == block_val(y, w) && x.len() < y.len())
}

/// A canonical, non-empty subtree holds some address.
proof fn lemma_nonempty_witness<const MAX_DEPTH: usize>(n: SetNode<MAX_DEPTH>)
    requires
        n.inv(),
        !n.is_empty_node(),
    ensures
        exists|a: Seq<bool>| a.len() == MAX_DEPTH - n.depth && n.in_set(a),
    decreases MAX_DEPTH - n.depth,
{
    if n.covered {
        let a = Seq::new((MAX_DEPTH - n.depth) as nat, |i: int| false);
        assert(a.len() == MAX_DEPTH - n.depth && n.in_set(a));
    } else if n.left is Some {
        let c = *n.left->Some_0;
        lemma_nonempty_witness(c);
        let w = choose|a: Seq<bool>| a.len() == MAX_DEPTH - c.depth && c.in_set(a);
        let a = seq![false] + w;
        assert(a.skip(1) =~= w);
        assert(a.len() == MAX_DEPTH - n.depth && n.in_set(a));
    } else {
        let c = *n.right->Some_0;
        lemma_nonempty_witness(c);
        let w = choose|a: Seq<bool>| a.len() == MAX_DEPTH - c.depth && c.in_set(a);
        let a = seq![true] + w;
        assert(a.skip(1) =~= w);
        assert(a.len() == MAX_DEPTH - n.depth && n.in_set(a));
    }
}

/// A canonical, uncovered subtree misses some address.
proof fn lemma_uncovered_witness<const MAX_DEPTH: usize>(n: SetNode<MAX_DEPTH>)
    requires
        n.inv(),
        !n.covered,
    ensures
        exists|a: Seq<bool>| a.len() == MAX_DEPTH - n.depth && !n.in_set(a),
    decreases MAX_DEPTH - n.depth,
{
    if n.depth == MAX_DEPTH {
        let a = Seq::<bool>::empty();
        assert(a.len() == MAX_DEPTH - n.depth && !n.in_set(a));
    } else if n.left is None {
        let a = seq![false] + Seq::new((MAX_DEPTH - n.depth - 1) as nat, |i: int| false);
        assert(a.len() == MAX_DEPTH - n.depth && !n.in_set(a));
    } else if !n.left->Some_0.covered {
        let c = *n.left->Some_0;
        lemma_uncovered_witness(c);
        let w = choose|a: Seq<bool>| a.len() == MAX_DEPTH - c.depth && !c.in_set(a);
        let a = seq![false] + w;
        assert(a.skip(1) =~= w);
        assert(a.len() == MAX_DEPTH - n.depth && !n.in_set(a));
    } else if n.right is None {
        // The left child is covered, so by compression the right child
        // cannot be covered too; here it is absent.
        let a = seq![true] + Seq::new((MAX_DEPTH - n.depth - 1) as nat, |i: int| false);
        assert(a.len() == MAX_DEPTH - n.depth && !n.in_set(a));
    } else {
        let c = *n.right->Some_0;
        assert(!c.covered);
        lemma_uncovered_witness(c);
        let w = choose|a: Seq<bool>| a.len() == MAX_DEPTH - c.depth && !c.in_set(a);
        let a = seq![true] + w;
        assert(a.skip(1) =~= w);
        assert(a.len() == MAX_DEPTH - n.depth && !n.in_set(a));
    }
}

/// Canonical form is a normal form: two canonical tries of one family,
/// rooted at the same depth, with the same members, are equal values.
pub proof fn lemma_canonical_unique<const MAX_DEPTH: usize>(
    n1: SetNode<MAX_DEPTH>,
    n2: SetNode<MAX_DEPTH>,
)
    requires
        n1.inv(),
        n2.inv(),
        n1.depth == n2.depth,
        forall|a: Seq<bool>|
            a.len() == MAX_DEPTH - n1.depth ==> (n1.in_set(a) <==> n2.in_set(a)),
    ensures
        n1 == n2,
    decreases MAX_DEPTH - n1.depth,
{
    if n1.covered || n2.covered {
        if !n1.covered {
            lemma_uncovered_witness(n1);
            let w = choose|a: Seq<bool>| a.len() == MAX_DEPTH - n1.depth && !n1.in_set(a);
            assert(n2.in_set(w));
            assert(false);
        }
        if !n2.covered {
            lemma_uncovered_witness(n2);
            let w = choose|a: Seq<bool>| a.len() == MAX_DEPTH - n2.depth && !n2.in_set(a);
            assert(n1.in_set(w));
            assert(false);
        }
        assert(n1 == n2);
    } else {
        // Child slots are present on both sides or on neither.
        let d = n1.depth;
        if n1.left is Some && n2.left is None {
            let c = *n1.left->Some_0;
            lemma_nonempty_witness(c);
            let w = choose|a: Seq<bool>| a.len() == MAX_DEPTH - c.depth && c.in_set(a);
            let a = seq![false] + w;
            assert(a.skip(1) =~= w);
            assert(n1.in_set(a) && !n2.in_set(a) && a.len() == MAX_DEPTH - d);
            assert(false);
        }
        if n2.left is Some && n1.left is None {
            let c = *n2.left->Some_0;
            lemma_nonempty_witness(c);
            let w = choose|a: Seq<bool>| a.len() == MAX_DEPTH - c.depth && c.in_set(a);
            let a = seq![false] + w;
            assert(a.skip(1) =~= w);
            assert(n2.in_set(a) && !n1.in_set(a) && a.len() == MAX_DEPTH - d);
            assert(false);
        }
        if n1.right is Some && n2.right is None {
            let c = *n1.right->Some_0;
            lemma_nonempty_witness(c);
            let w = choose|a: Seq<bool>| a.len() == MAX_DEPTH - c.depth && c.in_set(a);
            let a = seq![true] + w;
            assert(a.skip(1) =~= w);
            assert(n1.in_set(a) && !n2.in_set(a) && a.len() == MAX_DEPTH - d);
            assert(false);
        }
        if n2.right is Some && n1.right is None {
            let c = *n2.right->Some_0;
            lemma_nonempty_witness(c);
            let w = choose|a: Seq<bool>| a.len() == MAX_DEPTH - c.depth && c.in_set(a);
            let a = seq![true] + w;
            assert(a.skip(1) =~= w);
            assert(n2.in_set(a) && !n1.in_set(a) && a.len() == MAX_DEPTH - d);
            assert(false);
        }
        if n1.left is Some {
            let c1 = *n1.left->Some_0;
            let c2 = *n2.left->Some_0;
            assert forall|a: Seq<bool>| a.len() == MAX_DEPTH - c1.depth implies (c1.in_set(a)
                <==> c2.in_set(a)) by {
                let x = seq![false] + a;
                assert(x.skip(1) =~= a);
                assert(x.len() == MAX_DEPTH - d);
                assert(n1.in_set(x) <==> n2.in_set(x));
            }
            lemma_canonical_unique(c1, c2);
        }
        if n1.right is Some {
            let c1 = *n1.right->Some_0;
            let c2 = *n2.right->Some_0;
            assert forall|a: Seq<bool>| a.len() == MAX_DEPTH - c1.depth implies (c1.in_set(a)
                <==> c2.in_set(a)) by {
                let x = seq![true] + a;
                assert(x.skip(1) =~= a);
                assert(x.len() == MAX_DEPTH - d);
                assert(n1.in_set(x) <==> n2.in_set(x));
            }
            lemma_canonical_unique(c1, c2);
        }
        assert(n1 == n2);
    }
}

/// Joining a set with itself changes nothing: a canonical tree whose
/// members are `a`'s joined with `a`'s is `a` itself.
pub proof fn lemma_union_self<const MAX_DEPTH: usize>(a: SetNode<MAX_DEPTH>, u: SetNode<MAX_DEPTH>)
    requires
        a.inv(),
        u.inv(),
        u.depth == a.depth,
        forall|x: Seq<bool>|
            x.len() == MAX_DEPTH - a.depth ==> (u.in_set(x) <==> (a.in_set(x) || a.in_set(x))),
    ensures
        u == a,
{
    lemma_canonical_unique(u, a);
}

/// Joining the empty set changes nothing.
pub proof fn lemma_union_empty<const MAX_DEPTH: usize>(
    a: SetNode<MAX_DEPTH>,
    e: SetNode<MAX_DEPTH>,
    u: SetNode<MAX_DEPTH>,
)
    requires
        a.inv(),
        e.inv(),
        e.is_empty_node(),
        u.inv(),
        e.depth == a.depth,
        u.depth == a.depth,
        forall|x: Seq<bool>|
            x.len() == MAX_DEPTH - a.depth ==> (u.in_set(x) <==> (a.in_set(x) || e.in_set(x))),
    ensures
        u == a,
{
    lemma_canonical_unique(u, a);
}

/// Union is commutative: both orders give the same tree.
pub proof fn lemma_union_commutes<const MAX_DEPTH: usize>(
    a: SetNode<MAX_DEPTH>,
    b: SetNode<MAX_DEPTH>,
    u1: SetNode<MAX_DEPTH>,
    u2: SetNode<MAX_DEPTH>,
)
    requires
        a.inv(),
        b.inv(),
        u1.inv(),
        u2.inv(),
        b.depth == a.depth,
        u1.depth == a.depth,
        u2.depth == a.depth,
        forall|x: Seq<bool>|
            x.len() == MAX_DEPTH - a.depth ==> (u1.in_set(x) <==> (a.in_set(x) || b.in_set(x))),
        forall|x: Seq<bool>|
            x.len() == MAX_DEPTH - a.depth ==> (u2.in_set(x) <==> (b.in_set(x) || a.in_set(x))),
    ensures
        u1 == u2,
{
    lemma_canonical_unique(u1, u2);
}

/// Two sibling half-spaces collapse to their parent: a canonical tree
/// that holds every address of its range is the covered node itself.
pub proof fn lemma_full_collapses<const MAX_DEPTH: usize>(u: SetNode<MAX_DEPTH>)
    requires
        u.inv(),
        forall|x: Seq<bool>| x.len() == MAX_DEPTH - u.depth ==> u.in_set(x),
    ensures
        u == (SetNode::<MAX_DEPTH> { depth: u.depth, covered: true, left: None, right: None }),
{
    let c = SetNode::<MAX_DEPTH> { depth: u.depth, covered: true, left: None, right: None };
    lemma_canonical_unique(u, c);
}

/// Taking a set away from itself leaves the empty tree.
pub proof fn lemma_subtract_self<const MAX_DEPTH: usize>(
    a: SetNode<MAX_DEPTH>,
    d: SetNode<MAX_DEPTH>,
)
    requires
        a.inv(),
        d.inv(),
        d.depth == a.depth,
        forall|x: Seq<bool>|
            x.len() == MAX_DEPTH - a.depth ==> (d.in_set(x) <==> (a.in_set(x) && !a.in_set(x))),
    ensures
        d.is_empty_node(),
{
    let e = SetNode::<MAX_DEPTH> { depth: a.depth, covered: false, left: None, right: None };
    lemma_canonical_unique(d, e);
}

/// Taking the empty set away changes nothing.
pub proof fn lemma_subtract_empty<const MAX_DEPTH: usize>(
    a: SetNode<MAX_DEPTH>,
    e: SetNode<MAX_DEPTH>,
    d: SetNode<MAX_DEPTH>,
)
    requires
        a.inv(),
        e.inv(),
        e.is_empty_node(),
        d.inv(),
        e.depth == a.depth,
        d.depth == a.depth,
        forall|x: Seq<bool>|
            x.len() == MAX_DEPTH - a.depth ==> (d.in_set(x) <==> (a.in_set(x) && !e.in_set(x))),
    ensures
        d == a,
{
    lemma_canonical_unique(d, a);
}

/// Taking anything away from the empty set leaves it empty.
pub proof fn lemma_empty_subtract<const MAX_DEPTH: usize>(
    e: SetNode<MAX_DEPTH>,
    b: SetNode<MAX_DEPTH>,
    d: SetNode<MAX_DEPTH>,
)
    requires
        e.inv(),
        e.is_empty_node(),
        b.inv(),
        d.inv(),
        b.depth == e.depth,
        d.depth == e.depth,
        forall|x: Seq<bool>|
            x.len() == MAX_DEPTH - e.depth ==> (d.in_set(x) <==> (e.in_set(x) && !b.in_set(x))),
    ensures
        d.is_empty_node(),
{
    lemma_canonical_unique(d, e);
}

/// A difference never holds an address its minuend lacks.
pub proof fn lemma_subtract_subset<const MAX_DEPTH: usize>(
    a: SetNode<MAX_DEPTH>,
    b: SetNode<MAX_DEPTH>,
    d: SetNode<MAX_DEPTH>,
)
    requires
        forall|x: Seq<bool>|
            x.len() == MAX_DEPTH - a.depth ==> (d.in_set(x) <==> (a.in_set(x) && !b.in_set(x))),
    ensures
        forall|x: Seq<bool>|
            x.len() == MAX_DEPTH - a.depth ==> (d.in_set(x) ==> a.in_set(x)),
{
}

} // verus!

verus! {

/// Every enumerated block extends the path that led to the subtree and
/// stays within the family's width.
pub proof fn lemma_blocks_shape<const MAX_DEPTH: usize>(n: SetNode<MAX_DEPTH>, pfx: Seq<bool>)
    requires
        n.inv(),
        pfx.len() == n.depth,
    ensures
        forall|i: int|
            0 <= i < n.spec_blocks(pfx).len() ==> ((#[trigger] n.spec_blocks(pfx)[i]).len()
                <= MAX_DEPTH && n.spec_blocks(pfx)[i].len() >= pfx.len() && n.spec_blocks(pfx)[i]
                .take(pfx.len() as int) == pfx),
    decreases MAX_DEPTH - n.depth,
{
    let blocks = n.spec_blocks(pfx);
    if n.covered {
        assert(blocks[0].take(pfx.len() as int) =~= pfx);
    } else if n.depth == MAX_DEPTH {
        assert(blocks =~= Seq::<Seq<bool>>::empty());
    } else {
        let ln = if n.left is Some {
            let l = *n.left->Some_0;
            l.spec_blocks(pfx.push(false))
        } else {
            Seq::<Seq<bool>>::empty()
        };
        let rn = if n.right is Some {
            let r = *n.right->Some_0;
            r.spec_blocks(pfx.push(true))
        } else {
            Seq::<Seq<bool>>::empty()
        };
        if n.left is Some {
            let l = *n.left->Some_0;
            lemma_blocks_shape(l, pfx.push(false));
        }
        if n.right is Some {
            let r = *n.right->Some_0;
            lemma_blocks_shape(r, pfx.push(true));
        }
        assert forall|i: int| 0 <= i < blocks.len() implies ((#[trigger] blocks[i]).len()
            <= MAX_DEPTH && blocks[i].len() >= pfx.len() && blocks[i].take(pfx.len() as int)
            == pfx) by {
            let b = blocks[i];
            if i < ln.len() {
                assert(b == ln[i]);
                assert(b.take(pfx.len() as int + 1) == pfx.push(false));
                assert(b.take(pfx.len() as int) =~= b.take(pfx.len() as int + 1).take(pfx.len() as int));
                assert(pfx.push(false).take(pfx.len() as int) =~= pfx);
            } else {
                assert(b == rn[i - ln.len()]);
                assert(b.take(pfx.len() as int + 1) == pfx.push(true));
                assert(b.take(pfx.len() as int) =~= b.take(pfx.len() as int + 1).take(pfx.len() as int));
                assert(pfx.push(true).take(pfx.len() as int) =~= pfx);
            }
        }
    }
}

/// The enumeration is sound and complete: an address lies in the set
/// exactly when one of the enumerated blocks is a prefix of it.
pub proof fn lemma_enumeration_semantics<const MAX_DEPTH: usize>(
    n: SetNode<MAX_DEPTH>,
    pfx: Seq<bool>,
    a: Seq<bool>,
)
    requires
        n.inv(),
        pfx.len() == n.depth,
        a.len() == MAX_DEPTH - n.depth,
    ensures
        n.in_set(a) <==> exists|i: int|
            0 <= i < n.spec_blocks(pfx).len() && block_covers(#[trigger] n.spec_blocks(pfx)[i], pfx + a),
    decreases MAX_DEPTH - n.depth,
{
    let blocks = n.spec_blocks(pfx);
    let full = pfx + a;
    if n.covered {
        assert(full.take(pfx.len() as int) =~= pfx);
        assert(block_covers(blocks[0], full));
    } else if n.depth == MAX_DEPTH {
        assert(blocks =~= Seq::<Seq<bool>>::empty());
        assert(!n.in_set(a));
    } else {
        let d = pfx.len() as int;
        let ln = if n.left is Some {
            let l = *n.left->Some_0;
            l.spec_blocks(pfx.push(false))
        } else {
            Seq::<Seq<bool>>::empty()
        };
        let rn = if n.right is Some {
            let r = *n.right->Some_0;
            r.spec_blocks(pfx.push(true))
        } else {
            Seq::<Seq<bool>>::empty()
        };
        let tail = a.skip(1);
        assert(pfx.push(a[0]) + tail =~= full);
        if n.left is Some {
            let l = *n.left->Some_0;
            lemma_blocks_shape(l, pfx.push(false));
        }
        if n.right is Some {
            let r = *n.right->Some_0;
            lemma_blocks_shape(r, pfx.push(true));
        }
        // Forward: a member is covered by a block of its own side.
        if n.in_set(a) {
            if !a[0] {
                let l = *n.left->Some_0;
                lemma_enumeration_semantics(l, pfx.push(false), tail);
                let i = choose|i: int|
                    0 <= i < ln.len() && block_covers(#[trigger] ln[i], pfx.push(false) + tail);
                assert(blocks[i] == ln[i]);
                assert(block_covers(blocks[i], full));
            } else {
                let r = *n.right->Some_0;
                lemma_enumeration_semantics(r, pfx.push(true), tail);
                let i = choose|i: int|
                    0 <= i < rn.len() && block_covers(#[trigger] rn[i], pfx.push(true) + tail);
                assert(blocks[ln.len() + i] == rn[i]);
                assert(block_covers(blocks[ln.len() + i], full));
            }
        }
        // Backward: a covering block pins the branch bit, and its side
        // already contains the address.
        if exists|i: int| 0 <= i < blocks.len() && block_covers(#[trigger] blocks[i], full) {
            let i = choose|i: int| 0 <= i < blocks.len() && block_covers(#[trigger] blocks[i], full);
            let b = blocks[i];
            if i < ln.len() {
                assert(b == ln[i]);
                assert(b.take(d + 1) == pfx.push(false));
                assert(full.take(b.len() as int).take(d + 1) =~= full.take(d + 1));
                assert(full[d] == b[d]);
                assert(a[0] == false);
                let l = *n.left->Some_0;
                lemma_enumeration_semantics(l, pfx.push(false), tail);
                assert(block_covers(ln[i], pfx.push(false) + tail));
                assert(l.in_set(tail));
            } else {
                assert(b == rn[i - ln.len()]);
                assert(b.take(d + 1) == pfx.push(true));
                assert(full.take(b.len() as int).take(d + 1) =~= full.take(d + 1));
                assert(full[d] == b[d]);
                assert(a[0] == true);
                let r = *n.right->Some_0;
                lemma_enumeration_semantics(r, pfx.push(true), tail);
                assert(block_covers(rn[i - ln.len()], pfx.push(true) + tail));
                assert(r.in_set(tail));
            }
            assert(n.in_set(a));
        }
    }
}

/// The enumeration is strictly increasing: earlier blocks are smaller
/// under the left-aligned prefix order.
pub proof fn lemma_enumeration_ordered<const MAX_DEPTH: usize>(n: SetNode<MAX_DEPTH>, pfx: Seq<bool>)
    requires
        n.inv(),
        pfx.len() == n.depth,
    ensures
        forall|i: int, j: int|
            0 <= i < j < n.spec_blocks(pfx).len() ==> block_lt(
                #[trigger] n.spec_blocks(pfx)[i],
                #[trigger] n.spec_blocks(pfx)[j],
                MAX_DEPTH as nat,
            ),
    decreases MAX_DEPTH - n.depth,
{
    let blocks = n.spec_blocks(pfx);
    if n.covered {
    } else if n.depth == MAX_DEPTH {
        assert(blocks =~= Seq::<Seq<bool>>::empty());
    } else {
        let d = pfx.len() as int;
        let ln = if n.left is Some {
            let l = *n.left->Some_0;
            l.spec_blocks(pfx.push(false))
        } else {
            Seq::<Seq<bool>>::empty()
        };
        let rn = if n.right is Some {
            let r = *n.right->Some_0;
            r.spec_blocks(pfx.push(true))
        } else {
            Seq::<Seq<bool>>::empty()
        };
        if n.left is Some {
            let l = *n.left->Some_0;
            lemma_blocks_shape(l, pfx.push(false));
            lemma_enumeration_ordered(l, pfx.push(false));
        }
        if n.right is Some {
            let r = *n.right->Some_0;
            lemma_blocks_shape(r, pfx.push(true));
            lemma_enumeration_ordered(r, pfx.push(true));
        }
        assert forall|i: int, j: int| 0 <= i < j < blocks.len() implies block_lt(
            #[trigger] blocks[i],
            #[trigger] blocks[j],
            MAX_DEPTH as nat,
        ) by {
            if i < ln.len() && j >= ln.len() {
                let x = blocks[i];
                let y = blocks[j];
                assert(x == ln[i]);
                assert(y == rn[j - ln.len()]);
                assert(x.take(d + 1) == pfx.push(false));
                assert(y.take(d + 1) == pfx.push(true));
                assert(x[d] == false) by {
                    assert(x.take(d + 1)[d] == x[d]);
                }
                assert(y[d] == true) by {
                    assert(y.take(d + 1)[d] == y[d]);
                }
                assert(x.take(d) =~= x.take(d + 1).take(d));
                assert(y.take(d) =~= y.take(d + 1).take(d));
                assert(x.take(d) =~= y.take(d));
                lemma_lex_lt(x, y, d as nat, MAX_DEPTH as nat);
            } else if i >= ln.len() {
                assert(blocks[i] == rn[i - ln.len()]);
                assert(blocks[j] == rn[j - ln.len()]);
            } else if j < ln.len() {
                assert(blocks[i] == ln[i]);
                assert(blocks[j] == ln[j]);
            }
        }
    }
}

} // verus!

verus! {

/// Round trip on an atomic block: the one block a CIDR spine yields is
/// the prefix itself, and its left-aligned value is the masked address.
/// With the spine's contract this says that building a tree from
/// `(addr, len)` and enumerating it gives back exactly `(addr, len)`,
/// up to the masking of the bits below the prefix.
pub proof fn lemma_atomic_round_trip<const MAX_DEPTH: usize>(addr: u128, len: nat)
    requires
        len <= MAX_DEPTH <= 128,
        addr < pow2(MAX_DEPTH as nat),
    ensures
        ({
            let b = cidr_path::<MAX_DEPTH>(addr, len, 0);
            b.len() == len && block_val(b, MAX_DEPTH as nat) == addr as nat - (addr as nat % pow2(
                (MAX_DEPTH - len) as nat,
            ))
        }),
{
    let w = MAX_DEPTH as nat;
    let b = cidr_path::<MAX_DEPTH>(addr, len, 0);
    assert(b =~= addr_bits(addr, w).take(len as int));
    lemma_addr_bits_prefix_val(addr, w, len);
    let d = pow2((w - len) as nat);
    vstd::arithmetic::power2::lemma_pow2_pos((w - len) as nat);
    vstd::arithmetic::power2::lemma_pow2_adds(len, (w - len) as nat);
    let q = addr as nat / d;
    // The quotient already fits in `len` bits, so the reduction by
    // `2^len` changes nothing.
    assert(q < pow2(len)) by (nonlinear_arith)
        requires
            addr < pow2(len) * d,
            d > 0,
            q == addr as nat / d,
    ;
    vstd::arithmetic::div_mod::lemma_small_mod(q, pow2(len));
    // Left-aligning the quotient recovers the masked address.
    vstd::arithmetic::div_mod::lemma_fundamental_div_mod(addr as int, d as int);
    assert(q * d == addr as nat - (addr as nat % d)) by (nonlinear_arith)
        requires
            addr as int == d * (addr as int / d as int) + (addr as int % d as int),
            d > 0,
            q == addr as nat / d,
    ;
}

} // verus!

verus! {

/// One piece of the formatter round trip: a number rendered in decimal
/// is read back as itself by the parser's digit semantics.
pub proof fn lemma_dec_text_round_trip(n: nat)
    ensures
        dec_bytes_val(ascii_bytes(dec_rep(n))) == n,
    decreases n,
{
    if n < 10 {
        let s = ascii_bytes(dec_rep(n));
        assert(s =~= seq![digit_char(n) as u8]);
        assert(s.drop_last() =~= Seq::<u8>::empty());
        assert(dec_bytes_val(Seq::<u8>::empty()) == 0);
        assert(48 <= digit_char(n) as u8 <= 57 && (digit_char(n) as u8 - 48) == n);
        assert(s.len() == 1);
        assert(dec_bytes_val(s) == 10 * dec_bytes_val(s.drop_last()) + (if 48 <= s.last() <= 57 {
            (s.last() - 48) as nat
        } else {
            0nat
        }));
    } else {
        lemma_dec_text_round_trip(n / 10);
        let s = ascii_bytes(dec_rep(n));
        let p = ascii_bytes(dec_rep(n / 10));
        assert(s =~= p.push(digit_char(n % 10) as u8));
        assert(s.drop_last() =~= p);
        assert(s.last() == digit_char(n % 10) as u8);
        assert(48 <= digit_char(n % 10) as u8 <= 57 && (digit_char(n % 10) as u8 - 48) == n % 10);
        assert(s.len() > 0);
        assert(dec_bytes_val(s) == 10 * dec_bytes_val(s.drop_last()) + (if 48 <= s.last() <= 57 {
            (s.last() - 48) as nat
        } else {
            0nat
        }));
        assert(dec_bytes_val(s) == 10 * (n / 10) + n % 10);
    }
}

} // verus!

verus! {

/// Semantic equivalence through enumeration, union side: the blocks of
/// a canonical tree whose members join `a`'s and `b`'s cover exactly
/// the addresses of `a` joined with those of `b`.
pub proof fn lemma_union_enumeration<const MAX_DEPTH: usize>(
    a: SetNode<MAX_DEPTH>,
    b: SetNode<MAX_DEPTH>,
    u: SetNode<MAX_DEPTH>,
)
    requires
        a.inv(),
        b.inv(),
        u.inv(),
        a.depth == 0,
        b.depth == 0,
        u.depth == 0,
        forall|x: Seq<bool>|
            x.len() == MAX_DEPTH ==> (u.in_set(x) <==> (a.in_set(x) || b.in_set(x))),
    ensures
        forall|x: Seq<bool>|
            x.len() == MAX_DEPTH ==> ((exists|i: int|
                0 <= i < u.spec_blocks(Seq::<bool>::empty()).len() && block_covers(
                    #[trigger] u.spec_blocks(Seq::<bool>::empty())[i],
                    x,
                )) <==> (a.in_set(x) || b.in_set(x))),
{
    assert forall|x: Seq<bool>| x.len() == MAX_DEPTH implies ((exists|i: int|
        0 <= i < u.spec_blocks(Seq::<bool>::empty()).len() && block_covers(
            #[trigger] u.spec_blocks(Seq::<bool>::empty())[i],
            x,
        )) <==> (a.in_set(x) || b.in_set(x))) by {
        lemma_enumeration_semantics(u, Seq::<bool>::empty(), x);
        assert(Seq::<bool>::empty() + x =~= x);
    }
}

/// Semantic equivalence through enumeration, difference side.
pub proof fn lemma_subtract_enumeration<const MAX_DEPTH: usize>(
    a: SetNode<MAX_DEPTH>,
    b: SetNode<MAX_DEPTH>,
    d: SetNode<MAX_DEPTH>,
)
    requires
        a.inv(),
        b.inv(),
        d.inv(),
        a.depth == 0,
        b.depth == 0,
        d.depth == 0,
        forall|x: Seq<bool>|
            x.len() == MAX_DEPTH ==> (d.in_set(x) <==> (a.in_set(x) && !b.in_set(x))),
    ensures
        forall|x: Seq<bool>|
            x.len() == MAX_DEPTH ==> ((exists|i: int|
                0 <= i < d.spec_blocks(Seq::<bool>::empty()).len() && block_covers(
                    #[trigger] d.spec_blocks(Seq::<bool>::empty())[i],
                    x,
                )) <==> (a.in_set(x) && !b.in_set(x))),
{
    assert forall|x: Seq<bool>| x.len() == MAX_DEPTH implies ((exists|i: int|
        0 <= i < d.spec_blocks(Seq::<bool>::empty()).len() && block_covers(
            #[trigger] d.spec_blocks(Seq::<bool>::empty())[i],
            x,
        )) <==> (a.in_set(x) && !b.in_set(x))) by {
        lemma_enumeration_semantics(d, Seq::<bool>::empty(), x);
        assert(Seq::<bool>::empty() + x =~= x);
    }
}

} // verus!
