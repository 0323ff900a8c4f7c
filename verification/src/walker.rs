//! Lazy enumeration of a trie's canonical blocks.
//!
//! A [`SetWalker`] performs a pre-order traversal with an explicit stack
//! of frames. Each frame remembers how many branches of its node were
//! already inspected (0, 1 or 2); the frames below the top spell out the
//! path to the current node, one bit each. The walker's model is
//! [`SetWalker::remaining`], the sequence of blocks it has yet to emit.

use vstd::prelude::*;
use vstd::arithmetic::power2::pow2;
use crate::trie::SetNode;
use crate::bitstring::{bits_val, lemma_bits_val_push, lemma_bits_val_bound, pow2_128_fact};

verus! {

/// One traversal frame: a node and how many of its branches were taken.
pub struct SetWalkerFrame<'a, const MAX_DEPTH: usize> {
    pub node: &'a SetNode<MAX_DEPTH>,
    pub inspected_branches: usize,
}

/// Iterator over a trie's canonical blocks; the stack top is the node
/// under inspection, and an empty stack is the terminal state.
pub struct SetWalker<'a, const MAX_DEPTH: usize> {
    pub stack: Vec<SetWalkerFrame<'a, MAX_DEPTH>>,
}

/// The path bits that the frames of `s` spell out, one per frame: a
/// frame that took its left branch contributes 0, right contributes 1.
pub open spec fn path_bits<'a, const MAX_DEPTH: usize>(
    s: Seq<SetWalkerFrame<'a, MAX_DEPTH>>,
) -> Seq<bool> {
    Seq::new(s.len(), |j: int| s[j].inspected_branches == 2)
}

/// What one frame still has to emit, given the path `pfx` to its node:
/// everything below it if nothing was inspected yet, the right subtree
/// if only the left was, nothing otherwise.
pub open spec fn frame_rem<'a, const MAX_DEPTH: usize>(
    f: SetWalkerFrame<'a, MAX_DEPTH>,
    pfx: Seq<bool>,
) -> Seq<Seq<bool>> {
    if f.inspected_branches == 0 {
        (*f.node).spec_blocks(pfx)
    } else if f.inspected_branches == 1 {
        match (*f.node).right {
            Some(r) => r.spec_blocks(pfx.push(true)),
            None => Seq::empty(),
        }
    } else {
        Seq::empty()
    }
}

/// Everything the whole stack still has to emit, top frame first.
pub open spec fn stack_rem<'a, const MAX_DEPTH: usize>(
    s: Seq<SetWalkerFrame<'a, MAX_DEPTH>>,
) -> Seq<Seq<bool>>
    decreases s.len(),
{
    if s.len() == 0 {
        Seq::empty()
    } else {
        frame_rem(s.last(), path_bits(s.drop_last())) + stack_rem(s.drop_last())
    }
}

/// Nodes of a subtree, for the traversal's progress measure.
pub open spec fn node_size<const MAX_DEPTH: usize>(n: SetNode<MAX_DEPTH>) -> nat
    decreases n,
{
    1 + (match n.left {
        Some(l) => node_size(*l),
        None => 0,
    }) + (match n.right {
        Some(r) => node_size(*r),
        None => 0,
    })
}

/// Progress measure of one frame: work left in its uninspected subtrees
/// plus the steps its own counter still takes.
pub open spec fn frame_pot<'a, const MAX_DEPTH: usize>(f: SetWalkerFrame<'a, MAX_DEPTH>) -> nat {
    let ls = match (*f.node).left {
        Some(l) => node_size(*l),
        None => 0,
    };
    let rs = match (*f.node).right {
        Some(r) => node_size(*r),
        None => 0,
    };
    if f.inspected_branches == 0 {
        3 * (ls + rs) + 3
    } else if f.inspected_branches == 1 {
        3 * rs + 2
    } else {
        1
    }
}

/// Progress measure of the whole stack; every step lowers it.
pub open spec fn stack_pot<'a, const MAX_DEPTH: usize>(
    s: Seq<SetWalkerFrame<'a, MAX_DEPTH>>,
) -> nat
    decreases s.len(),
{
    if s.len() == 0 {
        0
    } else {
        stack_pot(s.drop_last()) + frame_pot(s.last())
    }
}

/// Frame `j + 1` holds the child that frame `j`'s counter points past.
pub open spec fn child_link<'a, const MAX_DEPTH: usize>(
    f: SetWalkerFrame<'a, MAX_DEPTH>,
    g: SetWalkerFrame<'a, MAX_DEPTH>,
) -> bool {
    if f.inspected_branches == 1 {
        match (*f.node).left {
            Some(l) => *g.node == *l,
            None => false,
        }
    } else {
        match (*f.node).right {
            Some(r) => *g.node == *r,
            None => false,
        }
    }
}

/// Stack well-formedness: canonical nodes at their depths, counters in
/// range (only the top may still be at 0), consecutive frames linked.
pub open spec fn stack_wf<'a, const MAX_DEPTH: usize>(
    s: Seq<SetWalkerFrame<'a, MAX_DEPTH>>,
) -> bool {
    &&& forall|j: int| 0 <= j < s.len() ==> (*#[trigger] s[j].node).inv()
    &&& forall|j: int| 0 <= j < s.len() ==> (*#[trigger] s[j].node).depth == j
    &&& forall|j: int|
        0 <= j < s.len() - 1 ==> 1 <= #[trigger] s[j].inspected_branches <= 2
    &&& (s.len() > 0 ==> s.last().inspected_branches <= 2)
    &&& forall|j: int| 0 <= j < s.len() - 1 ==> child_link(#[trigger] s[j], s[j + 1])
}

/// Pushing a frame adds its own remainder in front and its own potential
/// on top; the lower frames are untouched.
proof fn lemma_stack_push<'a, const MAX_DEPTH: usize>(
    s: Seq<SetWalkerFrame<'a, MAX_DEPTH>>,
    f: SetWalkerFrame<'a, MAX_DEPTH>,
)
    ensures
        stack_rem(s.push(f)) == frame_rem(f, path_bits(s)) + stack_rem(s),
        stack_pot(s.push(f)) == stack_pot(s) + frame_pot(f),
{
    assert(s.push(f).drop_last() =~= s);
    assert(s.push(f).last() == f);
}

impl<'a, const MAX_DEPTH: usize> SetWalker<'a, MAX_DEPTH> {
    /// The walker's stack is sound and the family fits the block values.
    pub open spec fn wf(self) -> bool {
        &&& stack_wf(self.stack@)
        &&& MAX_DEPTH <= 128
    }

    /// The blocks this walker has yet to emit, in emission order.
    pub open spec fn remaining(self) -> Seq<Seq<bool>> {
        stack_rem(self.stack@)
    }

    /// The walker sits on a covered node it has not yet emitted.
    pub open spec fn ready(self) -> bool {
        &&& self.stack@.len() > 0
        &&& (*self.stack@.last().node).covered
        &&& self.stack@.last().inspected_branches == 0
    }

    /// Start a traversal at the root of a canonical trie.
    pub fn new(n: &'a SetNode<MAX_DEPTH>) -> (res: Self)
        requires
            n.inv(),
            n.depth == 0,
            MAX_DEPTH <= 128,
        ensures
            res.wf(),
            res.remaining() == n.spec_blocks(Seq::<bool>::empty()),
            // The initial stack is exactly one frame on the root, with
            // nothing inspected yet.
            res.stack@.len() == 1,
            res.stack@[0].node == n,
            res.stack@[0].inspected_branches == 0,
    {
        let mut s = Self { stack: Vec::with_capacity(MAX_DEPTH + 1) };
        s.stack.push(SetWalkerFrame { node: n, inspected_branches: 0 });
        proof {
            let st = s.stack@;
            assert(st.len() == 1);
            assert(st.drop_last() =~= Seq::<SetWalkerFrame<'a, MAX_DEPTH>>::empty());
            assert(path_bits(st.drop_last()) =~= Seq::<bool>::empty());
            assert(stack_rem(st) == frame_rem(st.last(), path_bits(st.drop_last())) + stack_rem(
                st.drop_last(),
            ));
            assert(stack_rem(st.drop_last()) =~= Seq::<Seq<bool>>::empty());
            assert(st.last().inspected_branches == 0);
            assert(*st.last().node == *n);
            assert(frame_rem(st.last(), path_bits(st.drop_last())) == n.spec_blocks(
                Seq::<bool>::empty(),
            ));
            assert(stack_rem(st) =~= n.spec_blocks(Seq::<bool>::empty()));
        }
        s
    }

    /// One transition of the traversal machine: descend left, descend
    /// right, or pop, following the top frame's counter.
    fn step(&mut self)
        requires
            old(self).wf(),
        ensures
            final(self).wf(),
            old(self).stack@.len() == 0 ==> *final(self) == *old(self),
            old(self).stack@.len() > 0 ==> stack_pot(final(self).stack@) < stack_pot(
                old(self).stack@,
            ),
            old(self).ready() ==> final(self).remaining() == old(self).remaining().drop_first(),
            !old(self).ready() ==> final(self).remaining() == old(self).remaining(),
            // The transition table: the frames below the top never move,
            // the top's counter steps 0 -> 1 -> 2 -> popped, descending
            // into the matching child (one level deeper) when there is
            // one, so the stack grows or shrinks by at most one frame.
            old(self).stack@.len() > 0 ==> ({
                let os = old(self).stack@;
                let fs = final(self).stack@;
                let t = os.last();
                let m = os.len() - 1;
                &&& (forall|j: int| 0 <= j < m ==> fs[j] == os[j])
                &&& (if t.inspected_branches == 0 {
                    &&& fs[m].node == t.node
                    &&& fs[m].inspected_branches == 1
                    &&& (match (*t.node).left {
                        Some(l) => fs.len() == m + 2 && *fs[m + 1].node == *l && (*fs[m
                            + 1].node).depth == (*t.node).depth + 1 && fs[m
                            + 1].inspected_branches == 0,
                        None => fs.len() == m + 1,
                    })
                } else if t.inspected_branches == 1 {
                    &&& fs[m].node == t.node
                    &&& fs[m].inspected_branches == 2
                    &&& (match (*t.node).right {
                        Some(r) => fs.len() == m + 2 && *fs[m + 1].node == *r && (*fs[m
                            + 1].node).depth == (*t.node).depth + 1 && fs[m
                            + 1].inspected_branches == 0,
                        None => fs.len() == m + 1,
                    })
                } else {
                    fs == os.drop_last()
                })
            }),
    {
        let n = self.stack.len();
        if n == 0 {
            return ;
        }
        let ghost s0 = self.stack@;
        let ghost low = s0.drop_last();
        let ghost pfx = path_bits(low);
        let mut top = self.stack.pop().unwrap();
        let node = top.node;
        proof {
            assert(self.stack@ =~= low);
        }
        if top.inspected_branches == 0 {
            top.inspected_branches = 1;
            let ghost topv = top;
            self.stack.push(top);
            proof {
                lemma_stack_push(low, topv);
                assert(path_bits(low.push(topv)) =~= pfx.push(false));
            }
            match &node.left {
                Some(cur) => {
                    let newf = SetWalkerFrame { node: &**cur, inspected_branches: 0 };
                    let ghost newfv = newf;
                    self.stack.push(newf);
                    proof {
                        lemma_stack_push(low.push(topv), newfv);
                        let st = self.stack@;
                        assert(st =~= low.push(topv).push(newfv));
                        assert forall|j: int| 0 <= j < st.len() - 1 implies child_link(
                            #[trigger] st[j],
                            st[j + 1],
                        ) by {
                            if j < low.len() - 1 {
                                assert(child_link(s0[j], s0[j + 1]));
                            } else if j == low.len() - 1 && j >= 0 {
                                assert(child_link(s0[j], s0[j + 1]));
                            }
                        }
                    }
                },
                None => {
                    proof {
                        assert((*node).spec_blocks(pfx) =~= frame_rem(topv, pfx) + (
                        if (*node).covered {
                            seq![pfx]
                        } else {
                            Seq::<Seq<bool>>::empty()
                        }));
                    }
                },
            }
        } else if top.inspected_branches == 1 {
            top.inspected_branches = 2;
            let ghost topv = top;
            self.stack.push(top);
            proof {
                lemma_stack_push(low, topv);
                assert(path_bits(low.push(topv)) =~= pfx.push(true));
            }
            match &node.right {
                Some(cur) => {
                    let newf = SetWalkerFrame { node: &**cur, inspected_branches: 0 };
                    let ghost newfv = newf;
                    self.stack.push(newf);
                    proof {
                        lemma_stack_push(low.push(topv), newfv);
                        let st = self.stack@;
                        assert(st =~= low.push(topv).push(newfv));
                        assert forall|j: int| 0 <= j < st.len() - 1 implies child_link(
                            #[trigger] st[j],
                            st[j + 1],
                        ) by {
                            if j < low.len() - 1 {
                                assert(child_link(s0[j], s0[j + 1]));
                            }
                        }
                    }
                },
                None => {},
            }
        } else {
            // Counter exhausted: the frame is done, leave it popped.
        }
    }

    /// Emit the next canonical block as `(prefix, length)`: the prefix is
    /// shifted into the high bits of the family's width, low bits zero.
    pub fn next(&mut self) -> (res: Option<(u128, usize)>)
        requires
            old(self).wf(),
        ensures
            final(self).wf(),
            old(self).remaining().len() == 0 ==> (res is None && final(self).remaining().len()
                == 0),
            old(self).remaining().len() > 0 ==> ({
                let b = old(self).remaining().first();
                &&& res matches Some(p) && p.1 == b.len() && p.1 <= MAX_DEPTH && p.0 == bits_val(
                    b,
                ) * pow2((MAX_DEPTH - b.len()) as nat)
                &&& final(self).remaining() == old(self).remaining().drop_first()
            }),
    {
        let ghost rem0 = stack_rem(old(self).stack@);
        // Walk until the stack empties or its top is an unvisited
        // covered node.
        loop
            invariant
                self.wf(),
                stack_rem(self.stack@) == rem0,
            ensures
                self.wf(),
                stack_rem(self.stack@) == rem0,
                self.stack@.len() == 0 || (self.ready()),
            decreases stack_pot(self.stack@),
        {
            let n = self.stack.len();
            if n == 0 {
                break ;
            }
            let covered = self.stack[n - 1].node.covered;
            let insp = self.stack[n - 1].inspected_branches;
            if covered && insp == 0 {
                break ;
            }
            self.step();
        }
        let n = self.stack.len();
        if n == 0 {
            return None;
        }
        // The top is a covered node: the frames below it spell the block.
        let ghost low = self.stack@.drop_last();
        let ghost pfx = path_bits(low);
        proof {
            assert(stack_rem(self.stack@) == frame_rem(self.stack@.last(), pfx) + stack_rem(low));
            assert(frame_rem(self.stack@.last(), pfx) =~= seq![pfx]);
            assert(rem0.first() == pfx);
            assert(pfx.len() == n - 1);
            assert((*self.stack@[n - 1].node).depth == n - 1);
            assert(n - 1 <= MAX_DEPTH);
            vstd::arithmetic::power2::lemma2_to64();
        }
        let len: usize = n - 1;
        let mut addr: u128 = 0;
        let mut j: usize = 0;
        while j < len
            invariant
                self.wf(),
                j <= len,
                len == n - 1 < n == self.stack@.len(),
                len <= MAX_DEPTH <= 128,
                low == self.stack@.drop_last(),
                pfx == path_bits(low),
                addr == bits_val(pfx.take(j as int)),
                addr < pow2(j as nat),
            decreases len - j,
        {
            let b: usize = self.stack[j].inspected_branches - 1;
            proof {
                assert(1 <= self.stack@[j as int].inspected_branches <= 2);
                assert(pfx[j as int] == (self.stack@[j as int].inspected_branches == 2));
                assert(low[j as int] == self.stack@[j as int]);
                lemma_bits_val_push(pfx.take(j as int), pfx[j as int]);
                assert(pfx.take(j as int).push(pfx[j as int]) =~= pfx.take(j + 1));
                vstd::arithmetic::power2::lemma_pow2_unfold((j + 1) as nat);
                crate::bitstring::lemma_pow2_le((j + 1) as nat, 128);
                pow2_128_fact();
            }
            addr = addr * 2 + (b as u128);
            j = j + 1;
        }
        proof {
            assert(pfx.take(len as int) =~= pfx);
            lemma_bits_val_bound(pfx);
        }
        // Shift the prefix into the high bits of the family's width.
        let mut k: usize = 0;
        while k < MAX_DEPTH - len
            invariant
                self.wf(),
                k <= MAX_DEPTH - len,
                len <= MAX_DEPTH <= 128,
                addr == bits_val(pfx) * pow2(k as nat),
                addr < pow2((len + k) as nat),
            decreases MAX_DEPTH - len - k,
        {
            proof {
                vstd::arithmetic::power2::lemma_pow2_unfold((len + k + 1) as nat);
                vstd::arithmetic::power2::lemma_pow2_unfold((k + 1) as nat);
                crate::bitstring::lemma_pow2_le((len + k + 1) as nat, 128);
                pow2_128_fact();
                assert(bits_val(pfx) * pow2((k + 1) as nat) == 2 * (bits_val(pfx) * pow2(
                    k as nat,
                ))) by (nonlinear_arith)
                    requires
                        pow2((k + 1) as nat) == 2 * pow2(k as nat),
                ;
            }
            addr = addr * 2;
            k = k + 1;
        }
        // Leave the covered node behind.
        proof {
            assert(self.ready());
        }
        self.step();
        Some((addr, len))
    }
}

} // verus!
