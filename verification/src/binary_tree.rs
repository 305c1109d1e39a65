//! Binary tree as an algebraic data type: depth, mirror image, traversals.
use vstd::prelude::*;

verus! {

#[derive(Debug, PartialEq, Eq)]
pub enum Tree {
    Empty,
    Node { value: i32, left: Box<Tree>, right: Box<Tree> },
}

/// Depth: the number of nodes on the longest root-to-leaf path.
pub open spec fn depth(t: Tree) -> nat
    decreases t,
{
    match t {
        Tree::Empty => 0,
        Tree::Node { left, right, .. } => {
            let l = depth(*left);
            let r = depth(*right);
            1 + if l >= r {
                l
            } else {
                r
            }
        },
    }
}

/// Number of nodes.
pub open spec fn size(t: Tree) -> nat
    decreases t,
{
    match t {
        Tree::Empty => 0,
        Tree::Node { left, right, .. } => 1 + size(*left) + size(*right),
    }
}

/// The mirror image: every node's children swapped.
pub open spec fn mirror(t: Tree) -> Tree
    decreases t,
{
    match t {
        Tree::Empty => Tree::Empty,
        Tree::Node { value, left, right } => Tree::Node {
            value,
            left: Box::new(mirror(*right)),
            right: Box::new(mirror(*left)),
        },
    }
}

pub open spec fn pre(t: Tree) -> Seq<i32>
    decreases t,
{
    match t {
        Tree::Empty => Seq::empty(),
        Tree::Node { value, left, right } => seq![value] + pre(*left) + pre(*right),
    }
}

pub open spec fn ino(t: Tree) -> Seq<i32>
    decreases t,
{
    match t {
        Tree::Empty => Seq::empty(),
        Tree::Node { value, left, right } => ino(*left) + seq![value] + ino(*right),
    }
}

pub open spec fn post(t: Tree) -> Seq<i32>
    decreases t,
{
    match t {
        Tree::Empty => Seq::empty(),
        Tree::Node { value, left, right } => post(*left) + post(*right) + seq![value],
    }
}

proof fn lemma_depth_le_size(t: Tree)
    ensures
        depth(t) <= size(t),
    decreases t,
{
    if let Tree::Node { left, right, .. } = t {
        lemma_depth_le_size(*left);
        lemma_depth_le_size(*right);
    }
}

impl Tree {
    /// Number of nodes on the longest root-to-leaf path.
    pub fn max_depth(&self) -> (r: usize)
        requires
            size(*self) <= usize::MAX,
        ensures
            r == depth(*self),
        decreases *self,
    {
        proof {
            lemma_depth_le_size(*self);
        }
        match self {
            Tree::Empty => 0,
            Tree::Node { left, right, .. } => {
                let l = left.max_depth();
                let r = right.max_depth();
                1 + if l >= r {
                    l
                } else {
                    r
                }
            },
        }
    }

    /// Replace the tree by its mirror image.
    pub fn invert(&mut self)
        ensures
            *final(self) == mirror(*old(self)),
        decreases *old(self),
    {
        match self {
            Tree::Empty => {},
            Tree::Node { left, right, .. } => {
                left.invert();
                right.invert();
                std::mem::swap(left, right);
            },
        }
    }

    pub fn preorder(&self) -> (r: Vec<i32>)
        ensures
            r@ == pre(*self),
    {
        let mut out = Vec::new();
        self.collect_preorder(&mut out);
        assert(out@ =~= pre(*self));
        out
    }

    pub fn inorder(&self) -> (r: Vec<i32>)
        ensures
            r@ == ino(*self),
    {
        let mut out = Vec::new();
        self.collect_inorder(&mut out);
        assert(out@ =~= ino(*self));
        out
    }

    pub fn postorder(&self) -> (r: Vec<i32>)
        ensures
            r@ == post(*self),
    {
        let mut out = Vec::new();
        self.collect_postorder(&mut out);
        assert(out@ =~= post(*self));
        out
    }

    fn collect_preorder(&self, out: &mut Vec<i32>)
        ensures
            final(out)@ == old(out)@ + pre(*self),
        decreases *self,
    {
        match self {
            Tree::Empty => {
                assert(old(out)@ + pre(*self) =~= old(out)@);
            },
            Tree::Node { value, left, right } => {
                out.push(*value);
                left.collect_preorder(out);
                right.collect_preorder(out);
                assert(final(out)@ =~= old(out)@ + pre(*self));
            },
        }
    }

    fn collect_inorder(&self, out: &mut Vec<i32>)
        ensures
            final(out)@ == old(out)@ + ino(*self),
        decreases *self,
    {
        match self {
            Tree::Empty => {
                assert(old(out)@ + ino(*self) =~= old(out)@);
            },
            Tree::Node { value, left, right } => {
                left.collect_inorder(out);
                out.push(*value);
                right.collect_inorder(out);
                assert(final(out)@ =~= old(out)@ + ino(*self));
            },
        }
    }

    fn collect_postorder(&self, out: &mut Vec<i32>)
        ensures
            final(out)@ == old(out)@ + post(*self),
        decreases *self,
    {
        match self {
            Tree::Empty => {
                assert(old(out)@ + post(*self) =~= old(out)@);
            },
            Tree::Node { value, left, right } => {
                left.collect_postorder(out);
                right.collect_postorder(out);
                out.push(*value);
                assert(final(out)@ =~= old(out)@ + post(*self));
            },
        }
    }
}

/// Mirroring twice gives the tree back.
pub proof fn lemma_mirror_involutive(t: Tree)
    ensures
        mirror(mirror(t)) == t,
    decreases t,
{
    if let Tree::Node { value, left, right } = t {
        lemma_mirror_involutive(*left);
        lemma_mirror_involutive(*right);
    }
}

/// The in-order traversal of the mirror image is the reversed in-order
/// traversal.
pub proof fn lemma_mirror_inorder(t: Tree)
    ensures
        ino(mirror(t)) == ino(t).reverse(),
    decreases t,
{
    if let Tree::Node { value, left, right } = t {
        lemma_mirror_inorder(*left);
        lemma_mirror_inorder(*right);
        assert(ino(mirror(t)) =~= ino(t).reverse());
    } else {
        assert(ino(t).reverse() =~= Seq::<i32>::empty());
    }
}

/// Mirroring keeps the depth.
pub proof fn lemma_mirror_depth(t: Tree)
    ensures
        depth(mirror(t)) == depth(t),
    decreases t,
{
    if let Tree::Node { value, left, right } = t {
        lemma_mirror_depth(*left);
        lemma_mirror_depth(*right);
    }
}

/// The pre-order traversal of the mirror image is the reversed post-order
/// traversal.
pub proof fn lemma_mirror_preorder(t: Tree)
    ensures
        pre(mirror(t)) == post(t).reverse(),
    decreases t,
{
    if let Tree::Node { value, left, right } = t {
        lemma_mirror_preorder(*left);
        lemma_mirror_preorder(*right);
        assert(pre(mirror(t)) =~= post(t).reverse());
    } else {
        assert(post(t).reverse() =~= Seq::<i32>::empty());
    }
}

} // verus!
