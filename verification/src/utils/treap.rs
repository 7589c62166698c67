//! A persistent treap that holds a sequence: every operation leaves its
//! operands as they are and returns new trees that share what did not
//! change. A reversal is recorded at a node and carried out on the way down.
use std::sync::Arc;
use vstd::prelude::*;

verus! {

/// Whether the children of a node have to change places.
pub type NeedSwap = bool;

/// The side to which a split sends a node.
pub enum SplitTo {
    Left,
    Right,
}

/// The sequence `s`, turned round where `rev` holds.
pub open spec fn flip<T>(rev: bool, s: Seq<T>) -> Seq<T> {
    if rev {
        s.reverse()
    } else {
        s
    }
}

/// Turning a concatenation round turns its parts round and swaps them.
pub proof fn lemma_reverse_concat<T>(a: Seq<T>, b: Seq<T>)
    ensures
        (a + b).reverse() == b.reverse() + a.reverse(),
{
    assert((a + b).reverse() =~= b.reverse() + a.reverse());
}

/// Turning a sequence round twice gives it back.
pub proof fn lemma_reverse_twice<T>(a: Seq<T>)
    ensures
        a.reverse().reverse() == a,
        a.reverse().len() == a.len(),
{
    assert(a.reverse().reverse() =~= a);
}

/// What a node of a rope holds: an element, the number of elements of its
/// subtree, and whether its subtrees are still to be turned round.
pub struct RopeTreapData<T> {
    inner: T,
    num: usize,
    rev_tag: bool,
}

impl<T: Copy> Clone for RopeTreapData<T> {
    fn clone(&self) -> (r: Self)
        ensures
            r == *self,
    {
        Self { inner: self.inner, num: self.num, rev_tag: self.rev_tag }
    }
}

impl<T: Copy> Copy for RopeTreapData<T> {

}

impl<T: Copy> RopeTreapData<T> {
    /// The element.
    pub closed spec fn spec_inner(&self) -> T {
        self.inner
    }

    /// The number of elements of the subtree.
    pub closed spec fn spec_num(&self) -> nat {
        self.num as nat
    }

    /// The data of a single element.
    pub fn new(data: T) -> (r: Self)
        ensures
            r.spec_inner() == data,
            r.spec_num() == 1,
    {
        Self { inner: data, num: 1, rev_tag: false }
    }

    /// The element.
    pub fn get_inner(&self) -> (r: T)
        ensures
            r == self.spec_inner(),
    {
        self.inner
    }

    /// The element, by reference.
    pub fn inner_ref(&self) -> (r: &T)
        ensures
            *r == self.spec_inner(),
    {
        &self.inner
    }
}

impl<T: Copy> std::ops::Deref for RopeTreapData<T> {
    type Target = T;

    fn deref(&self) -> (r: &T)
        ensures
            *r == self.spec_inner(),
    {
        &self.inner
    }
}

/// A node of a treap.
pub struct TreapNode<T> {
    data: RopeTreapData<T>,
    height: u64,
    left: TreapTree<T>,
    right: TreapTree<T>,
}

/// A persistent treap: empty, or a shared root node.
pub struct TreapTree<T>(Option<Arc<TreapNode<T>>>);

impl<T: Copy> View for TreapTree<T> {
    type V = Seq<T>;

    closed spec fn view(&self) -> Seq<T>
        decreases self,
    {
        match self.0 {
            None => Seq::empty(),
            Some(n) => flip(n.data.rev_tag, n.left.view()) + seq![n.data.inner] + flip(
                n.data.rev_tag,
                n.right.view(),
            ),
        }
    }
}

impl<T: Copy> View for TreapNode<T> {
    type V = Seq<T>;

    closed spec fn view(&self) -> Seq<T> {
        flip(self.data.rev_tag, self.left.view()) + seq![self.data.inner] + flip(
            self.data.rev_tag,
            self.right.view(),
        )
    }
}

impl<T: Copy> TreapNode<T> {
    /// The priority of the node.
    pub closed spec fn spec_height(&self) -> int {
        self.height as int
    }

    /// The subtrees are sound, the count is right, and no child has a higher
    /// priority than the node.
    pub closed spec fn wf(&self) -> bool {
        &&& self.left.wf()
        &&& self.right.wf()
        &&& self.data.num == self.left.view().len() + self.right.view().len() + 1
        &&& self.left.top() <= self.height
        &&& self.right.top() <= self.height
    }

    /// A node of one element with the priority `height`.
    fn new(data: T, height: u64) -> (r: Self)
        ensures
            r.wf(),
            r@ == seq![data],
            r.spec_height() == height,
    {
        let r = Self {
            data: RopeTreapData::new(data),
            height,
            left: TreapTree(None),
            right: TreapTree(None),
        };
        assert(r@ =~= seq![data]);
        r
    }

    /// A node of one element whose priority `rng` gives.
    fn new_from_rng<R: FnOnce() -> u64>(data: T, rng: R) -> (r: Self)
        requires
            call_requires(rng, ()),
        ensures
            r.wf(),
            r@ == seq![data],
    {
        let height = rng();
        Self::new(data, height)
    }

    /// A copy of the node that shares its subtrees.
    fn duplicate(&self) -> (r: Self)
        ensures
            r == *self,
    {
        Self {
            data: self.data,
            height: self.height,
            left: self.left.duplicate(),
            right: self.right.duplicate(),
        }
    }

    /// Counts the elements anew from the subtrees.
    fn update(&mut self)
        requires
            old(self).left.wf(),
            old(self).right.wf(),
            old(self).left.view().len() + old(self).right.view().len() < usize::MAX,
            old(self).left.top() <= old(self).height,
            old(self).right.top() <= old(self).height,
        ensures
            final(self).wf(),
            final(self)@ == old(self)@,
            final(self).spec_height() == old(self).spec_height(),
    {
        let l = self.left.len();
        let r = self.right.len();
        self.data.num = l + r + 1;
    }

    /// Turns the sequence of the node round where `rev` holds: the children
    /// change places at once, and the subtrees are left to be turned later.
    fn add_tag(&mut self, rev: bool)
        requires
            old(self).wf(),
        ensures
            final(self).wf(),
            final(self)@ == flip(rev, old(self)@),
            final(self).spec_height() == old(self).spec_height(),
    {
        if rev {
            proof {
                let l = flip(self.data.rev_tag, self.left.view());
                let r = flip(self.data.rev_tag, self.right.view());
                lemma_reverse_concat(l + seq![self.data.inner], r);
                lemma_reverse_concat(l, seq![self.data.inner]);
                lemma_reverse_twice(self.left.view());
                lemma_reverse_twice(self.right.view());
                assert(seq![self.data.inner].reverse() =~= seq![self.data.inner]);
                assert(r.reverse() + (seq![self.data.inner] + l.reverse()) =~= r.reverse()
                    + seq![self.data.inner] + l.reverse());
            }
            self.data.rev_tag = !self.data.rev_tag;
            std::mem::swap(&mut self.left, &mut self.right);
        }
    }

    /// The left subtree, turned round where that is still to be done.
    pub fn get_left(&self) -> (r: TreapTree<T>)
        requires
            self.wf(),
        ensures
            r.wf(),
            r@.len() < self@.len(),
            r.top() <= self.spec_height(),
            exists|rest: Seq<T>| self@ == r@ + rest && #[trigger] rest.len() > 0,
            r@ == self.spec_left(),
    {
        proof {
            lemma_reverse_twice(self.left.view());
            lemma_reverse_twice(self.right.view());
            let rest = seq![self.data.inner] + flip(self.data.rev_tag, self.right.view());
            assert(self@ =~= flip(self.data.rev_tag, self.left.view()) + rest);
            assert(rest.len() > 0);
        }
        self.left.add_tag(self.data.rev_tag)
    }

    /// The right subtree, turned round where that is still to be done.
    pub fn get_right(&self) -> (r: TreapTree<T>)
        requires
            self.wf(),
        ensures
            r.wf(),
            r@.len() < self@.len(),
            r.top() <= self.spec_height(),
            r@ == self.spec_right(),
    {
        proof {
            lemma_reverse_twice(self.left.view());
            lemma_reverse_twice(self.right.view());
        }
        self.right.add_tag(self.data.rev_tag)
    }

    /// The sequence of the left subtree as the node presents it.
    pub closed spec fn spec_left(&self) -> Seq<T> {
        flip(self.data.rev_tag, self.left.view())
    }

    /// The sequence of the right subtree as the node presents it.
    pub closed spec fn spec_right(&self) -> Seq<T> {
        flip(self.data.rev_tag, self.right.view())
    }

    /// The element of the node.
    pub closed spec fn spec_item(&self) -> T {
        self.data.inner
    }

    /// What the node holds.
    pub closed spec fn spec_data(&self) -> RopeTreapData<T> {
        self.data
    }

    /// What the node holds.
    pub fn get_data(&self) -> (r: &RopeTreapData<T>)
        ensures
            *r == self.spec_data(),
    {
        &self.data
    }

    /// The sequence of a node is that of its left subtree, its element, and
    /// that of its right subtree.
    pub proof fn lemma_view_parts(&self)
        requires
            self.wf(),
        ensures
            self@ == self.spec_left() + seq![self.spec_item()] + self.spec_right(),
            self@.len() == self.spec_data().spec_num(),
            self@.len() <= usize::MAX,
    {
        lemma_reverse_twice(self.left.view());
        lemma_reverse_twice(self.right.view());
    }

    /// Replaces the left subtree; a reversal that is still to be done moves
    /// down into the right subtree first.
    fn set_left(&mut self, left: TreapTree<T>)
        requires
            old(self).wf(),
            left.wf(),
            left.top() <= old(self).spec_height(),
            left@.len() + old(self).spec_right().len() < usize::MAX,
        ensures
            final(self).wf(),
            final(self)@ == left@ + seq![old(self).spec_item()] + old(self).spec_right(),
            final(self).spec_height() == old(self).spec_height(),
    {
        proof {
            lemma_reverse_twice(self.right.view());
        }
        let pushed = self.right.add_tag(self.data.rev_tag);
        self.right = pushed;
        self.data.rev_tag = false;
        self.left = left;
        self.update();
    }

    /// Replaces the right subtree; a reversal that is still to be done moves
    /// down into the left subtree first.
    fn set_right(&mut self, right: TreapTree<T>)
        requires
            old(self).wf(),
            right.wf(),
            right.top() <= old(self).spec_height(),
            right@.len() + old(self).spec_left().len() < usize::MAX,
        ensures
            final(self).wf(),
            final(self)@ == old(self).spec_left() + seq![old(self).spec_item()] + right@,
            final(self).spec_height() == old(self).spec_height(),
    {
        proof {
            lemma_reverse_twice(self.left.view());
        }
        let pushed = self.left.add_tag(self.data.rev_tag);
        self.left = pushed;
        self.data.rev_tag = false;
        self.right = right;
        self.update();
    }
}

/// The side to which a split after `num` elements sends a node that has
/// `left_num` elements to its left: to the left where it is among them.
pub fn split_side(left_num: usize, num: usize) -> (r: SplitTo)
    ensures
        r is Left <==> num > left_num,
{
    if num > left_num {
        SplitTo::Left
    } else {
        SplitTo::Right
    }
}

impl<T: Copy> TreapTree<T> {
    /// The priority of the root, and -1 for the empty tree.
    pub closed spec fn top(&self) -> int {
        match self.0 {
            None => -1,
            Some(n) => n.height as int,
        }
    }

    /// Every node counts the elements of its subtree, and no child has a
    /// higher priority than its parent.
    pub closed spec fn wf(&self) -> bool
        decreases self,
    {
        match self.0 {
            None => true,
            Some(n) => {
                &&& n.left.wf()
                &&& n.right.wf()
                &&& n.data.num == n.left.view().len() + n.right.view().len() + 1
                &&& n.left.top() <= n.height
                &&& n.right.top() <= n.height
            },
        }
    }

    /// The empty tree.
    pub fn empty() -> (r: Self)
        ensures
            r.wf(),
            r@ == Seq::<T>::empty(),
            r.top() == -1,
    {
        TreapTree(None)
    }

    /// A handle on the same tree.
    pub fn duplicate(&self) -> (r: Self)
        ensures
            r == *self,
    {
        match &self.0 {
            None => TreapTree(None),
            Some(n) => TreapTree(Some(n.clone())),
        }
    }

    /// The tree of the node `node`.
    fn from_node(node: TreapNode<T>) -> (r: Self)
        requires
            node.wf(),
        ensures
            r.wf(),
            r@ == node@,
            r.top() == node.spec_height(),
    {
        TreapTree(Some(Arc::new(node)))
    }

    /// The tree of one element, with a random priority.
    pub fn new(data: T) -> (r: Self)
        ensures
            r.wf(),
            r@ == seq![data],
    {
        let height = random_height();
        Self::from_node(TreapNode::new(data, height))
    }

    /// The tree of one element whose priority `rng` gives.
    pub fn new_from_rng<R: FnOnce() -> u64>(data: T, rng: R) -> (r: Self)
        requires
            call_requires(rng, ()),
        ensures
            r.wf(),
            r@ == seq![data],
    {
        Self::from_node(TreapNode::new_from_rng(data, rng))
    }

    /// The data of the root, if there is one.
    pub fn root_data_ref(&self) -> (r: Option<&RopeTreapData<T>>)
        requires
            self.wf(),
        ensures
            r is Some <==> self@.len() > 0,
            r matches Some(d) ==> d.spec_num() == self@.len() && self@.contains(d.spec_inner()),
    {
        match &self.0 {
            None => None,
            Some(n) => {
                proof {
                    n.lemma_view_parts();
                    let i = n.spec_left().len() as int;
                    assert(self@[i] == n.data.inner);
                }
                Some(&n.data)
            },
        }
    }

    /// Whether the tree holds nothing.
    pub fn is_empty(&self) -> (r: bool)
        ensures
            r == (self@.len() == 0),
    {
        proof {
            match &self.0 {
                None => {},
                Some(n) => {
                    let l = flip(n.data.rev_tag, n.left.view());
                    let r = flip(n.data.rev_tag, n.right.view());
                    assert(self@ == l + seq![n.data.inner] + r);
                    assert((l + seq![n.data.inner] + r).len() > 0);
                },
            }
        }
        self.0.is_none()
    }

    /// The number of elements.
    pub fn len(&self) -> (r: usize)
        requires
            self.wf(),
        ensures
            r == self@.len(),
    {
        match &self.0 {
            None => 0,
            Some(n) => {
                proof {
                    lemma_reverse_twice(n.left.view());
                    lemma_reverse_twice(n.right.view());
                }
                n.data.num
            },
        }
    }

    /// The tree that holds the sequence turned round where `rev` holds, and
    /// the same sequence where it does not.
    pub fn add_tag(&self, rev: bool) -> (r: Self)
        requires
            self.wf(),
        ensures
            r.wf(),
            r@ == flip(rev, self@),
            r.top() == self.top(),
    {
        match &self.0 {
            None => {
                assert(Seq::<T>::empty().reverse() =~= Seq::<T>::empty());
                TreapTree(None)
            },
            Some(n) => {
                if rev {
                    let mut node = n.duplicate();
                    node.add_tag(rev);
                    Self::from_node(node)
                } else {
                    self.duplicate()
                }
            },
        }
    }

    /// The tree that holds the elements of `self` and then those of `other`.
    pub fn merge(&self, other: &Self) -> (r: Self)
        requires
            self.wf(),
            other.wf(),
            self@.len() + other@.len() <= usize::MAX,
        ensures
            r.wf(),
            r@ == self@ + other@,
            r.top() == (if self.top() > other.top() {
                self.top()
            } else {
                other.top()
            }),
        decreases self@.len() + other@.len(),
    {
        match (&self.0, &other.0) {
            (None, None) => {
                assert(self@ + other@ =~= Seq::<T>::empty());
                TreapTree(None)
            },
            (None, Some(_)) => {
                assert(self@ + other@ =~= other@);
                other.duplicate()
            },
            (Some(_), None) => {
                assert(self@ + other@ =~= self@);
                self.duplicate()
            },
            (Some(left), Some(right)) => {
                if left.height > right.height {
                    let mut u = left.duplicate();
                    proof {
                        u.lemma_view_parts();
                    }
                    let sub = u.get_right().merge(other);
                    u.set_right(sub);
                    proof {
                        let l = left.spec_left();
                        let x = seq![left.spec_item()];
                        assert(l + x + (left.spec_right() + other@) =~= (l + x + left.spec_right())
                            + other@);
                    }
                    Self::from_node(u)
                } else {
                    let mut v = right.duplicate();
                    proof {
                        v.lemma_view_parts();
                    }
                    let sub = self.merge(&v.get_left());
                    v.set_left(sub);
                    proof {
                        let r = right.spec_right();
                        let x = seq![right.spec_item()];
                        assert((self@ + right.spec_left()) + x + r =~= self@ + (right.spec_left()
                            + x + r));
                    }
                    Self::from_node(v)
                }
            },
        }
    }

    /// The tree of the first `num` elements and the tree of the rest; where
    /// there are fewer, the first holds them all.
    pub fn split(&self, num: usize) -> (r: (Self, Self))
        requires
            self.wf(),
        ensures
            r.0.wf(),
            r.1.wf(),
            r.0.top() <= self.top(),
            r.1.top() <= self.top(),
            num <= self@.len() ==> r.0@ == self@.take(num as int) && r.1@ == self@.skip(num as int),
            num > self@.len() ==> r.0@ == self@ && r.1@ == Seq::<T>::empty(),
        decreases self@.len(),
    {
        match &self.0 {
            None => {
                assert(self@.take(0) =~= self@);
                assert(self@.skip(0) =~= self@);
                (TreapTree(None), TreapTree(None))
            },
            Some(node_ref) => {
                let mut node = node_ref.duplicate();
                proof {
                    node.lemma_view_parts();
                }
                let ghost l = node.spec_left();
                let ghost x = seq![node.spec_item()];
                let ghost rr = node.spec_right();
                let left_num = node.get_left().len();
                match split_side(left_num, num) {
                    SplitTo::Left => {
                        let (a, b) = node.get_right().split(num - left_num - 1);
                        node.set_right(a);
                        proof {
                            let k = num - left_num - 1;
                            if k <= rr.len() {
                                assert((l + x + rr).take(num as int) =~= l + x + rr.take(k));
                                assert((l + x + rr).skip(num as int) =~= rr.skip(k));
                            } else {
                                assert(l + x + rr =~= self@);
                            }
                        }
                        (Self::from_node(node), b)
                    },
                    SplitTo::Right => {
                        let (a, b) = node.get_left().split(num);
                        node.set_left(b);
                        proof {
                            assert((l + x + rr).take(num as int) =~= l.take(num as int));
                            assert((l + x + rr).skip(num as int) =~= l.skip(num as int) + x + rr);
                        }
                        (a, Self::from_node(node))
                    },
                }
            },
        }
    }

    /// The data of the node that holds the element at `pos`, if there is
    /// one.
    pub fn query(&self, pos: usize) -> (r: Option<RopeTreapData<T>>)
        requires
            self.wf(),
        ensures
            r is Some <==> pos < self@.len(),
            r matches Some(d) ==> d.spec_inner() == self@[pos as int],
        decreases self@.len(),
    {
        match &self.0 {
            None => None,
            Some(node) => {
                proof {
                    node.lemma_view_parts();
                }
                let left = node.get_left();
                let left_num = left.len();
                if pos == left_num {
                    Some(node.data)
                } else if pos < left_num {
                    left.query(pos)
                } else {
                    node.get_right().query(pos - left_num - 1)
                }
            },
        }
    }

    /// Appends the elements in order to `out`.
    fn collect_into(&self, out: &mut Vec<T>)
        requires
            self.wf(),
        ensures
            final(out)@ == old(out)@ + self@,
        decreases self@.len(),
    {
        match &self.0 {
            None => {
                assert(out@ + self@ =~= out@);
            },
            Some(node) => {
                proof {
                    node.lemma_view_parts();
                }
                let ghost start = out@;
                node.get_left().collect_into(out);
                out.push(node.data.inner);
                node.get_right().collect_into(out);
                assert(out@ =~= start + self@);
            },
        }
    }

    /// The elements in order.
    pub fn for_each(&self) -> (r: Vec<T>)
        requires
            self.wf(),
        ensures
            r@ == self@,
    {
        let mut out: Vec<T> = Vec::new();
        self.collect_into(&mut out);
        assert(Seq::<T>::empty() + self@ =~= self@);
        out
    }
}

/// A random priority for a new node.
///
/// Calls `rand::random` for a `u64`. Nothing is claimed of the number: the
/// order of a rope does not depend on its priorities, only its shape does.
/// The generator behind the call seeds itself from the operating system and
/// panics where that source fails; nothing that is handed to this library
/// decides that.
#[verifier::external_body]
fn random_height() -> (r: u64) {
    rand::random()
}

} // verus!
