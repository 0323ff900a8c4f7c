//! Compressed binary trie over one address family.
//!
//! A `SetNode<MAX_DEPTH>` at depth `d` stands for a set of bit strings of
//! length `MAX_DEPTH - d` (the address bits below the node). The model is
//! the membership predicate [`SetNode::in_set`]; the canonical-form
//! invariant is [`SetNode::inv`].

use vstd::prelude::*;
use vstd::arithmetic::power2::pow2;
use std::rc::Rc;
use crate::bitstring::{addr_bit, lemma_u128_and_one};
use vstd::bits::lemma_u128_shr_is_div;

verus! {

/// One node of the compressed binary trie.
///
/// `covered` means the node stands for every address below it; children
/// hang off path bit 0 (`left`) or 1 (`right`) and sit one level deeper.
/// Nodes are immutable and shared through `Rc`.
#[derive(Debug)]
pub struct SetNode<const MAX_DEPTH: usize> {
    pub depth: usize,
    pub covered: bool,
    pub left: Option<Rc<SetNode<MAX_DEPTH>>>,
    pub right: Option<Rc<SetNode<MAX_DEPTH>>>,
}

/// Membership lifted to a child slot: an absent child holds nothing.
pub open spec fn opt_in_set<const MAX_DEPTH: usize>(
    o: Option<Rc<SetNode<MAX_DEPTH>>>,
    a: Seq<bool>,
) -> bool {
    match o {
        Some(n) => n.in_set(a),
        None => false,
    }
}

/// Well-formedness of a child slot at depth `d`: an absent child is fine;
/// a present one is canonical, non-empty and sits at depth `d`.
pub open spec fn opt_wf<const MAX_DEPTH: usize>(
    o: Option<Rc<SetNode<MAX_DEPTH>>>,
    d: int,
) -> bool {
    match o {
        Some(n) => n.depth == d && !n.is_empty_node() && n.inv(),
        None => true,
    }
}

impl<const MAX_DEPTH: usize> SetNode<MAX_DEPTH> {
    /// An empty node: no cover, no children. Only a whole tree's root may
    /// look like this; a parent slot holds `None` instead.
    pub open spec fn is_empty_node(self) -> bool {
        !self.covered && self.left is None && self.right is None
    }

    /// Canonical-form invariant: a covered node has no children, a node at
    /// full depth is covered, children sit one level deeper, subtrees are
    /// never empty, and two covered siblings never stand uncollapsed.
    pub open spec fn inv(self) -> bool
        decreases self,
    {
        &&& self.depth <= MAX_DEPTH
        &&& (self.covered ==> self.left is None && self.right is None)
        &&& (self.depth == MAX_DEPTH ==> (self.covered || self.is_empty_node()))
        &&& (match self.left {
            Some(l) => l.depth == self.depth + 1 && !l.is_empty_node() && l.inv(),
            None => true,
        })
        &&& (match self.right {
            Some(r) => r.depth == self.depth + 1 && !r.is_empty_node() && r.inv(),
            None => true,
        })
        &&& (match (self.left, self.right) {
            (Some(l), Some(r)) => !(l.covered && r.covered),
            _ => true,
        })
    }

    /// Membership: does the bit string `a` (the address bits below this
    /// node's depth, highest first) belong to the set of this subtree?
    pub open spec fn in_set(self, a: Seq<bool>) -> bool
        decreases self,
    {
        if self.covered {
            true
        } else if a.len() == 0 {
            false
        } else if !a[0] {
            match self.left {
                Some(l) => l.in_set(a.skip(1)),
                None => false,
            }
        } else {
            match self.right {
                Some(r) => r.in_set(a.skip(1)),
                None => false,
            }
        }
    }

    /// The canonical blocks of this subtree: the path of every covered
    /// node, in pre-order (left before right), each extending `pfx`, the
    /// path that led to this node.
    pub open spec fn spec_blocks(self, pfx: Seq<bool>) -> Seq<Seq<bool>>
        decreases self,
    {
        if self.covered {
            seq![pfx]
        } else {
            (match self.left {
                Some(l) => l.spec_blocks(pfx.push(false)),
                None => Seq::empty(),
            }) + (match self.right {
                Some(r) => r.spec_blocks(pfx.push(true)),
                None => Seq::empty(),
            })
        }
    }

    /// True exactly when this node is the empty set's representation.
    pub fn is_empty(&self) -> (r: bool)
        ensures
            r == self.is_empty_node(),
    {
        !self.covered && self.left.is_none() && self.right.is_none()
    }

    /// Executable check of the canonical-form invariant I1-I5.
    pub fn is_canonical(&self) -> (r: bool)
        ensures
            r == self.inv(),
        decreases *self,
    {
        if self.depth > MAX_DEPTH {
            return false;
        }
        if self.covered && (self.left.is_some() || self.right.is_some()) {
            return false;
        }
        if self.depth == MAX_DEPTH && !self.covered && !self.is_empty() {
            return false;
        }
        match &self.left {
            Some(l) => {
                if l.depth != self.depth + 1 || l.is_empty() || !l.is_canonical() {
                    return false;
                }
            },
            None => {},
        }
        match &self.right {
            Some(r) => {
                if r.depth != self.depth + 1 || r.is_empty() || !r.is_canonical() {
                    return false;
                }
            },
            None => {},
        }
        match (&self.left, &self.right) {
            (Some(l), Some(r)) => {
                if l.covered && r.covered {
                    return false;
                }
            },
            _ => {},
        }
        true
    }

    /// Union of two same-depth canonical tries, in canonical form.
    pub fn union(&self, ano: &SetNode<MAX_DEPTH>) -> (res: SetNode<MAX_DEPTH>)
        requires
            self.inv(),
            ano.inv(),
            ano.depth == self.depth,
        ensures
            res.inv(),
            res.depth == self.depth,
            (res.is_empty_node() <==> (self.is_empty_node() && ano.is_empty_node())),
            forall|a: Seq<bool>|
                a.len() == MAX_DEPTH - self.depth ==> (res.in_set(a) <==> (self.in_set(a)
                    || ano.in_set(a))),
        decreases MAX_DEPTH - self.depth, 0int,
    {
        if self.covered || ano.covered {
            return SetNode { depth: self.depth, covered: true, left: None, right: None };
        }
        if self.is_empty() && ano.is_empty() {
            return SetNode { depth: self.depth, covered: false, left: None, right: None };
        }
        // Neither side is covered and one of them has a child, so this
        // depth is strictly above the leaves.
        assert(self.depth < MAX_DEPTH);
        let ghost cd = self.depth + 1 as int;
        let left = union_option(&self.left, &ano.left, Ghost(cd));
        let right = union_option(&self.right, &ano.right, Ghost(cd));
        let lcov = match &left {
            Some(l) => l.covered,
            None => false,
        };
        let rcov = match &right {
            Some(r) => r.covered,
            None => false,
        };
        proof {
            assert forall|a: Seq<bool>| a.len() == MAX_DEPTH - self.depth implies (opt_in_set(
                if !a[0] { left } else { right },
                a.skip(1),
            ) <==> (self.in_set(a) || ano.in_set(a))) by {
                assert(a.skip(1).len() == MAX_DEPTH - cd);
            }
        }
        if lcov && rcov {
            return SetNode { depth: self.depth, covered: true, left: None, right: None };
        }
        SetNode { depth: self.depth, covered: false, left, right }
    }

    /// Difference of two same-depth canonical tries, in canonical form.
    /// The result may be the empty node; a caller that fills a child slot
    /// promotes it to `None`.
    pub fn subtract(&self, ano: &SetNode<MAX_DEPTH>) -> (res: SetNode<MAX_DEPTH>)
        requires
            self.inv(),
            ano.inv(),
            ano.depth == self.depth,
        ensures
            res.inv(),
            res.depth == self.depth,
            forall|a: Seq<bool>|
                a.len() == MAX_DEPTH - self.depth ==> (res.in_set(a) <==> (self.in_set(a)
                    && !ano.in_set(a))),
        decreases MAX_DEPTH - self.depth, 0int,
    {
        if self.is_empty() || ano.covered {
            return SetNode { depth: self.depth, covered: false, left: None, right: None };
        }
        if ano.is_empty() {
            return self.clone();
        }
        // `ano` is neither covered nor empty, so it has a child and this
        // depth is strictly above the leaves.
        assert(self.depth < MAX_DEPTH);
        let ghost cd = self.depth + 1 as int;
        let full: Option<Rc<SetNode<MAX_DEPTH>>>;
        let left_src: &Option<Rc<SetNode<MAX_DEPTH>>>;
        let right_src: &Option<Rc<SetNode<MAX_DEPTH>>>;
        if self.covered {
            // A covered node subtracts through virtual full children.
            full = Some(
                Rc::new(
                    SetNode { depth: self.depth + 1, covered: true, left: None, right: None },
                ),
            );
            left_src = &full;
            right_src = &full;
        } else {
            left_src = &self.left;
            right_src = &self.right;
        }
        let left = subtract_option(left_src, &ano.left, Ghost(cd));
        let right = subtract_option(right_src, &ano.right, Ghost(cd));
        let lcov = match &left {
            Some(l) => l.covered,
            None => false,
        };
        let rcov = match &right {
            Some(r) => r.covered,
            None => false,
        };
        proof {
            assert forall|a: Seq<bool>| a.len() == MAX_DEPTH - self.depth implies (opt_in_set(
                if !a[0] { left } else { right },
                a.skip(1),
            ) <==> (self.in_set(a) && !ano.in_set(a))) by {
                assert(a.skip(1).len() == MAX_DEPTH - cd);
            }
        }
        if lcov && rcov {
            return SetNode { depth: self.depth, covered: true, left: None, right: None };
        }
        SetNode { depth: self.depth, covered: false, left, right }
    }
}

impl<const MAX_DEPTH: usize> Clone for SetNode<MAX_DEPTH> {
    fn clone(&self) -> (res: Self)
        ensures
            res == *self,
    {
        SetNode {
            depth: self.depth,
            covered: self.covered,
            left: clone_child(&self.left),
            right: clone_child(&self.right),
        }
    }
}

/// Relies on `Option::clone` over `Rc::clone`: cloning an `Rc` handle
/// yields a handle to the very same node.
#[verifier::external_body]
fn clone_child<const MAX_DEPTH: usize>(c: &Option<Rc<SetNode<MAX_DEPTH>>>) -> (res: Option<
    Rc<SetNode<MAX_DEPTH>>,
>)
    ensures
        res == *c,
{
    c.clone()
}

/// Union over child slots; an absent slot is the empty set.
fn union_option<const MAX_DEPTH: usize>(
    lhs: &Option<Rc<SetNode<MAX_DEPTH>>>,
    rhs: &Option<Rc<SetNode<MAX_DEPTH>>>,
    depth: Ghost<int>,
) -> (res: Option<Rc<SetNode<MAX_DEPTH>>>)
    requires
        0 <= depth@ <= MAX_DEPTH,
        opt_wf(*lhs, depth@),
        opt_wf(*rhs, depth@),
    ensures
        opt_wf(res, depth@),
        (res is None <==> (lhs is None && rhs is None)),
        forall|a: Seq<bool>|
            a.len() == MAX_DEPTH - depth@ ==> (opt_in_set(res, a) <==> (opt_in_set(*lhs, a)
                || opt_in_set(*rhs, a))),
    decreases MAX_DEPTH - depth@, 1int,
{
    match (lhs, rhs) {
        (None, r) => clone_child(r),
        (l, None) => clone_child(l),
        (Some(l), Some(r)) => Some(Rc::new((&**l).union(&**r))),
    }
}

/// Difference over child slots; an absent minuend slot stays absent, an
/// absent subtrahend slot takes nothing away, and an empty result is
/// promoted to an absent slot.
fn subtract_option<const MAX_DEPTH: usize>(
    lhs: &Option<Rc<SetNode<MAX_DEPTH>>>,
    rhs: &Option<Rc<SetNode<MAX_DEPTH>>>,
    depth: Ghost<int>,
) -> (res: Option<Rc<SetNode<MAX_DEPTH>>>)
    requires
        0 <= depth@ <= MAX_DEPTH,
        opt_wf(*lhs, depth@),
        opt_wf(*rhs, depth@),
    ensures
        opt_wf(res, depth@),
        lhs is None ==> res is None,
        forall|a: Seq<bool>|
            a.len() == MAX_DEPTH - depth@ ==> (opt_in_set(res, a) <==> (opt_in_set(*lhs, a)
                && !opt_in_set(*rhs, a))),
    decreases MAX_DEPTH - depth@, 1int,
{
    match (lhs, rhs) {
        (None, _) => None,
        (l, None) => clone_child(l),
        (Some(l), Some(r)) => {
            let raw = (&**l).subtract(&**r);
            // Subtraction may leave the empty set behind.
            if !raw.covered && raw.left.is_none() && raw.right.is_none() {
                None
            } else {
                Some(Rc::new(raw))
            }
        },
    }
}

} // verus!

verus! {

/// The branch bits a CIDR block `(addr, len)` dictates between `depth`
/// and `len`, highest first.
pub open spec fn cidr_path<const MAX_DEPTH: usize>(addr: u128, len: nat, depth: nat) -> Seq<bool> {
    Seq::new((len - depth) as nat, |j: int| addr_bit(addr, (MAX_DEPTH - depth - 1 - j) as nat))
}

/// Build the spine of a CIDR block `(addr, len)` from `depth` down: each
/// level follows one address bit, and the node at `len` is covered.
pub fn construct_set_node<const MAX_DEPTH: usize>(addr: u128, len: usize, depth: usize) -> (res:
    SetNode<MAX_DEPTH>)
    requires
        depth <= len <= MAX_DEPTH,
        MAX_DEPTH <= 128,
    ensures
        res.inv(),
        res.depth == depth,
        !res.is_empty_node(),
        forall|a: Seq<bool>|
            a.len() == MAX_DEPTH - depth ==> (res.in_set(a) <==> (forall|j: int|
                0 <= j < len - depth ==> a[j] == addr_bit(
                    addr,
                    (MAX_DEPTH - depth - 1 - j) as nat,
                ))),
        forall|pfx: Seq<bool>| #![trigger res.spec_blocks(pfx)]
            res.spec_blocks(pfx) =~= seq![pfx + cidr_path::<MAX_DEPTH>(addr, len as nat, depth as nat)],
    decreases len - depth,
{
    if depth == len {
        let res = SetNode { depth, covered: true, left: None, right: None };
        proof {
            assert forall|pfx: Seq<bool>| #![trigger res.spec_blocks(pfx)]
                res.spec_blocks(pfx) =~= seq![pfx + cidr_path::<MAX_DEPTH>(addr, len as nat, depth as nat)] by {
                assert(pfx + cidr_path::<MAX_DEPTH>(addr, len as nat, depth as nat) =~= pfx);
            }
        }
        return res;
    }
    let sh: usize = MAX_DEPTH - depth - 1;
    let child = Rc::new(construct_set_node(addr, len, depth + 1));
    let bit_is_one = ((addr >> (sh as u128)) & 1) == 1;
    proof {
        lemma_u128_shr_is_div(addr, sh as u128);
        lemma_u128_and_one(addr >> (sh as u128));
        assert(bit_is_one == addr_bit(addr, sh as nat));
    }
    let res = if !bit_is_one {
        SetNode { depth, covered: false, left: Some(child), right: None }
    } else {
        SetNode { depth, covered: false, left: None, right: Some(child) }
    };
    proof {
        let b = bit_is_one;
        let cpath = cidr_path::<MAX_DEPTH>(addr, len as nat, (depth + 1) as nat);
        let fpath = cidr_path::<MAX_DEPTH>(addr, len as nat, depth as nat);
        assert(fpath =~= seq![b] + cpath);
        assert forall|a: Seq<bool>| a.len() == MAX_DEPTH - depth implies (res.in_set(a) <==> (
        forall|j: int| 0 <= j < len - depth ==> a[j] == addr_bit(
            addr,
            (MAX_DEPTH - depth - 1 - j) as nat,
        ))) by {
            let t = a.skip(1);
            assert(t.len() == MAX_DEPTH - (depth + 1));
            if a[0] == b {
                assert(res.in_set(a) == (*child).in_set(t));
                if (*child).in_set(t) {
                    assert forall|j: int| 0 <= j < len - depth implies a[j] == addr_bit(
                        addr,
                        (MAX_DEPTH - depth - 1 - j) as nat,
                    ) by {
                        if j > 0 {
                            assert(t[j - 1] == addr_bit(addr, (MAX_DEPTH - depth - 2 - (j - 1)) as nat));
                            assert(a[j] == t[j - 1]);
                        }
                    }
                } else {
                    let j0 = choose|j: int|
                        0 <= j < len - (depth + 1) && t[j] != addr_bit(
                            addr,
                            (MAX_DEPTH - depth - 2 - j) as nat,
                        );
                    assert(a[j0 + 1] == t[j0]);
                    assert(!(a[j0 + 1] == addr_bit(addr, (MAX_DEPTH - depth - 1 - (j0 + 1)) as nat)));
                }
            } else {
                assert(!res.in_set(a));
                assert(a[0] != addr_bit(addr, (MAX_DEPTH - depth - 1 - 0) as nat));
            }
        }
        assert forall|pfx: Seq<bool>| #![trigger res.spec_blocks(pfx)]
            res.spec_blocks(pfx) =~= seq![pfx + fpath] by {
            let cb = (*child).spec_blocks(pfx.push(b));
            assert(cb =~= seq![pfx.push(b) + cpath]);
            assert(res.spec_blocks(pfx) =~= cb);
            assert(pfx.push(b) + cpath =~= pfx + fpath);
        }
    }
    res
}

} // verus!
