//! A persistent rope: an indexable sequence that can be split, merged and
//! turned round, each operation returning new ropes and leaving the old
//! ones as they were.
use crate::utils::treap::{lemma_reverse_twice, RopeTreapData, TreapTree};
use vstd::prelude::*;

verus! {

/// An element of a rope that carries no tag of its own.
pub struct RopeUntaggedInner<T>(pub T);

impl<T: Copy> Clone for RopeUntaggedInner<T> {
    fn clone(&self) -> (r: Self)
        ensures
            r == *self,
    {
        RopeUntaggedInner(self.0)
    }
}

impl<T: Copy> Copy for RopeUntaggedInner<T> {

}

impl<T: Copy> RopeUntaggedInner<T> {
    /// The value inside.
    pub fn into_inner(self) -> (r: T)
        ensures
            r == self.0,
    {
        self.0
    }
}

impl<T: Copy> std::ops::Deref for RopeUntaggedInner<T> {
    type Target = T;

    fn deref(&self) -> (r: &T)
        ensures
            *r == self.0,
    {
        &self.0
    }
}

impl<T: Copy> From<T> for RopeUntaggedInner<T> {
    fn from(value: T) -> (r: Self) {
        RopeUntaggedInner(value)
    }
}

impl<T: Copy> vstd::std_specs::convert::FromSpecImpl<T> for RopeUntaggedInner<T> {
    open spec fn obeys_from_spec() -> bool {
        true
    }

    open spec fn from_spec(v: T) -> Self {
        RopeUntaggedInner(v)
    }
}

/// What every rope offers.
pub trait RopeBase: Sized {
    /// The elements of the rope.
    type InnerRopeData: Copy;

    /// The sequence that the rope holds.
    spec fn seq(&self) -> Seq<Self::InnerRopeData>;

    /// The internal invariant of the rope.
    spec fn wf(&self) -> bool;

    /// The rope of one element.
    fn new(data: Self::InnerRopeData) -> (r: Self)
        ensures
            r.wf(),
            r.seq() == seq![data],
    ;

    /// The rope turned round.
    fn reverse(&self) -> (r: Self)
        requires
            self.wf(),
        ensures
            r.wf(),
            r.seq() == self.seq().reverse(),
    ;

    /// The rope of the first `num` elements and the rope of the rest; where
    /// there are fewer, the first holds them all.
    fn split(&self, num: usize) -> (r: (Self, Self))
        requires
            self.wf(),
        ensures
            r.0.wf(),
            r.1.wf(),
            num <= self.seq().len() ==> r.0.seq() == self.seq().take(num as int) && r.1.seq()
                == self.seq().skip(num as int),
            num > self.seq().len() ==> r.0.seq() == self.seq() && r.1.seq() == Seq::<
                Self::InnerRopeData,
            >::empty(),
    ;

    /// The rope of the elements of `self` and then those of `other`.
    fn merge(&self, other: &Self) -> (r: Self)
        requires
            self.wf(),
            other.wf(),
            self.seq().len() + other.seq().len() <= usize::MAX,
        ensures
            r.wf(),
            r.seq() == self.seq() + other.seq(),
    ;

    /// The element at the root of the tree, if the rope holds any.
    fn root_data_ref(&self) -> (r: Option<&Self::InnerRopeData>)
        requires
            self.wf(),
        ensures
            r is Some <==> self.seq().len() > 0,
            r matches Some(d) ==> self.seq().contains(*d),
    ;

    /// Whether the rope holds nothing.
    fn is_empty(&self) -> (r: bool)
        requires
            self.wf(),
        ensures
            r == (self.seq().len() == 0),
    ;

    /// The number of elements.
    fn len(&self) -> (r: usize)
        requires
            self.wf(),
        ensures
            r == self.seq().len(),
    ;

    /// The elements in order.
    fn for_each(&self) -> (r: Vec<Self::InnerRopeData>)
        requires
            self.wf(),
        ensures
            r@ == self.seq(),
    ;

    /// The rope with `data` put before the element at `pos`, or at the end
    /// where there is no such element.
    fn insert(&self, pos: usize, data: Self::InnerRopeData) -> (r: Self)
        requires
            self.wf(),
            self.seq().len() < usize::MAX,
        ensures
            r.wf(),
            r.seq() == self.seq().insert(
                if pos <= self.seq().len() {
                    pos as int
                } else {
                    self.seq().len() as int
                },
                data,
            ),
    ;

    /// The rope without the element at `pos`, and that element; where there
    /// is none, the rope as it is.
    fn remove(&self, pos: usize) -> (r: (Self, Option<Self::InnerRopeData>))
        requires
            self.wf(),
        ensures
            r.0.wf(),
            pos < self.seq().len() ==> r.0.seq() == self.seq().remove(pos as int) && r.1 == Some(
                self.seq()[pos as int],
            ),
            pos >= self.seq().len() ==> r.0.seq() == self.seq() && r.1 is None,
    ;

    /// The rope with `data` at its end.
    fn push_back(&self, data: Self::InnerRopeData) -> (r: Self)
        requires
            self.wf(),
            self.seq().len() < usize::MAX,
        ensures
            r.wf(),
            r.seq() == self.seq().push(data),
    ;

    /// The rope with `data` at its front.
    fn push_front(&self, data: Self::InnerRopeData) -> (r: Self)
        requires
            self.wf(),
            self.seq().len() < usize::MAX,
        ensures
            r.wf(),
            r.seq() == seq![data] + self.seq(),
    ;

    /// The element at `pos`, if there is one.
    fn get(&self, pos: usize) -> (r: Option<Self::InnerRopeData>)
        requires
            self.wf(),
        ensures
            r == (if pos < self.seq().len() {
                Some(self.seq()[pos as int])
            } else {
                None
            }),
    ;
}

/// What a rope on a treap offers besides: new nodes with a given priority,
/// and a lookup that walks down the tree without rebuilding it.
pub trait TreapBasedRopeBase: RopeBase {
    /// The rope of one element whose priority `rng` gives.
    fn new_from_rng<R: FnOnce() -> u64>(data: Self::InnerRopeData, rng: R) -> (r: Self)
        requires
            call_requires(rng, ()),
        ensures
            r.wf(),
            r.seq() == seq![data],
    ;

    /// As `insert`, with a new node whose priority `rng` gives.
    fn insert_from_rng<R: FnOnce() -> u64>(&self, pos: usize, data: Self::InnerRopeData, rng: R) -> (r:
        Self)
        requires
            self.wf(),
            self.seq().len() < usize::MAX,
            call_requires(rng, ()),
        ensures
            r.wf(),
            r.seq() == self.seq().insert(
                if pos <= self.seq().len() {
                    pos as int
                } else {
                    self.seq().len() as int
                },
                data,
            ),
    ;

    /// As `push_back`, with a new node whose priority `rng` gives.
    fn push_back_from_rng<R: FnOnce() -> u64>(&self, data: Self::InnerRopeData, rng: R) -> (r: Self)
        requires
            self.wf(),
            self.seq().len() < usize::MAX,
            call_requires(rng, ()),
        ensures
            r.wf(),
            r.seq() == self.seq().push(data),
    ;

    /// As `push_front`, with a new node whose priority `rng` gives.
    fn push_front_from_rng<R: FnOnce() -> u64>(&self, data: Self::InnerRopeData, rng: R) -> (r: Self)
        requires
            self.wf(),
            self.seq().len() < usize::MAX,
            call_requires(rng, ()),
        ensures
            r.wf(),
            r.seq() == seq![data] + self.seq(),
    ;

    /// The data of the node that holds the element at `pos`, if there is
    /// one.
    fn query(&self, pos: usize) -> (r: Option<RopeTreapData<Self::InnerRopeData>>)
        requires
            self.wf(),
        ensures
            r is Some <==> pos < self.seq().len(),
            r matches Some(d) ==> d.spec_inner() == self.seq()[pos as int],
    ;
}

/// A persistent rope on a treap.
pub struct Rope<Inner>(TreapTree<Inner>);

impl<Inner: Copy> View for Rope<Inner> {
    type V = Seq<Inner>;

    closed spec fn view(&self) -> Seq<Inner> {
        self.0@
    }
}

impl<Inner: Copy> Clone for Rope<Inner> {
    fn clone(&self) -> (r: Self)
        ensures
            r == *self,
    {
        Rope(self.0.duplicate())
    }
}

impl<Inner: Copy> Default for Rope<Inner> {
    fn default() -> (r: Self)
        ensures
            r.wf(),
            r.seq() == Seq::<Inner>::empty(),
    {
        Rope(TreapTree::empty())
    }
}

impl<Inner: Copy> Rope<Inner> {
    /// The rope that holds nothing.
    pub fn empty() -> (r: Self)
        ensures
            r.wf(),
            r.seq() == Seq::<Inner>::empty(),
    {
        Rope(TreapTree::empty())
    }

    /// The parts of a rope around a new element, put together.
    fn join3(left: &Self, middle: &Self, right: &Self) -> (r: Self)
        requires
            left.wf(),
            middle.wf(),
            right.wf(),
            left.seq().len() + middle.seq().len() + right.seq().len() <= usize::MAX,
        ensures
            r.wf(),
            r.seq() == left.seq() + middle.seq() + right.seq(),
    {
        left.merge(middle).merge(right)
    }
}

impl<Inner: Copy> RopeBase for Rope<Inner> {
    type InnerRopeData = Inner;

    closed spec fn seq(&self) -> Seq<Inner> {
        self.0@
    }

    closed spec fn wf(&self) -> bool {
        self.0.wf()
    }

    fn new(data: Inner) -> (r: Self) {
        Rope(TreapTree::new(data))
    }

    fn reverse(&self) -> (r: Self) {
        Rope(self.0.add_tag(true))
    }

    fn split(&self, num: usize) -> (r: (Self, Self)) {
        let (u, v) = self.0.split(num);
        (Rope(u), Rope(v))
    }

    fn merge(&self, other: &Self) -> (r: Self) {
        Rope(self.0.merge(&other.0))
    }

    fn root_data_ref(&self) -> (r: Option<&Inner>) {
        match self.0.root_data_ref() {
            Some(d) => Some(d.inner_ref()),
            None => None,
        }
    }

    fn is_empty(&self) -> (r: bool) {
        self.0.is_empty()
    }

    fn len(&self) -> (r: usize) {
        self.0.len()
    }

    fn for_each(&self) -> (r: Vec<Inner>) {
        self.0.for_each()
    }

    fn insert(&self, pos: usize, data: Inner) -> (r: Self) {
        let (left, right) = self.split(pos);
        let ghost s = self.seq();
        let ghost k = if pos <= s.len() {
            pos as int
        } else {
            s.len() as int
        };
        proof {
            assert(left.seq() + right.seq() =~= s);
            assert(s.insert(k, data) =~= left.seq() + seq![data] + right.seq());
        }
        Self::join3(&left, &Self::new(data), &right)
    }

    fn remove(&self, pos: usize) -> (r: (Self, Option<Inner>)) {
        if pos >= self.len() {
            return (self.clone(), None);
        }
        let (left, right) = self.split(pos);
        let (middle, right) = right.split(1);
        let ghost s = self.seq();
        proof {
            assert(middle.seq() =~= seq![s[pos as int]]);
            assert(s.remove(pos as int) =~= left.seq() + right.seq());
        }
        (left.merge(&right), middle.get(0))
    }

    fn push_back(&self, data: Inner) -> (r: Self) {
        let n = self.len();
        proof {
            assert(self.seq().insert(n as int, data) =~= self.seq().push(data));
        }
        self.insert(n, data)
    }

    fn push_front(&self, data: Inner) -> (r: Self) {
        proof {
            assert(self.seq().insert(0, data) =~= seq![data] + self.seq());
        }
        self.insert(0, data)
    }

    fn get(&self, pos: usize) -> (r: Option<Inner>) {
        let (_, rest) = self.split(pos);
        let (one, _) = rest.split(1);
        match one.root_data_ref() {
            Some(d) => {
                proof {
                    let s = self.seq();
                    assert(one.seq() =~= seq![s[pos as int]]);
                    let i = choose|i: int| 0 <= i < one.seq().len() && one.seq()[i] == *d;
                }
                Some(*d)
            },
            None => None,
        }
    }
}

impl<Inner: Copy> TreapBasedRopeBase for Rope<Inner> {
    fn new_from_rng<R: FnOnce() -> u64>(data: Inner, rng: R) -> (r: Self) {
        Rope(TreapTree::new_from_rng(data, rng))
    }

    fn insert_from_rng<R: FnOnce() -> u64>(&self, pos: usize, data: Inner, rng: R) -> (r: Self) {
        let (left, right) = self.split(pos);
        let ghost s = self.seq();
        let ghost k = if pos <= s.len() {
            pos as int
        } else {
            s.len() as int
        };
        proof {
            assert(left.seq() + right.seq() =~= s);
            assert(s.insert(k, data) =~= left.seq() + seq![data] + right.seq());
        }
        Self::join3(&left, &Self::new_from_rng(data, rng), &right)
    }

    fn push_back_from_rng<R: FnOnce() -> u64>(&self, data: Inner, rng: R) -> (r: Self) {
        let n = self.len();
        proof {
            assert(self.seq().insert(n as int, data) =~= self.seq().push(data));
        }
        self.insert_from_rng(n, data, rng)
    }

    fn push_front_from_rng<R: FnOnce() -> u64>(&self, data: Inner, rng: R) -> (r: Self) {
        proof {
            assert(self.seq().insert(0, data) =~= seq![data] + self.seq());
        }
        self.insert_from_rng(0, data, rng)
    }

    fn query(&self, pos: usize) -> (r: Option<RopeTreapData<Inner>>) {
        self.0.query(pos)
    }
}

/// A rope of plain values.
pub type UntaggedRope<T> = Rope<RopeUntaggedInner<T>>;

/// Splitting a sequence anywhere and putting the parts together gives the
/// sequence back.
pub proof fn lemma_split_merge<T>(s: Seq<T>, k: int)
    requires
        0 <= k,
    ensures
        k <= s.len() ==> s.take(k) + s.skip(k) == s,
        k > s.len() ==> s + Seq::<T>::empty() == s,
{
    if k <= s.len() {
        assert(s.take(k) + s.skip(k) =~= s);
    } else {
        assert(s + Seq::<T>::empty() =~= s);
    }
}

/// Turning a sequence round twice gives the sequence back.
pub proof fn lemma_reverse_reverse<T>(s: Seq<T>)
    ensures
        s.reverse().reverse() == s,
{
    lemma_reverse_twice(s);
}

/// Putting an element in at a position and taking out what stands there
/// gives the sequence back, and that element.
pub proof fn lemma_insert_remove<T>(s: Seq<T>, k: int, x: T)
    requires
        0 <= k <= s.len(),
    ensures
        s.insert(k, x).remove(k) == s,
        s.insert(k, x)[k] == x,
        k < s.insert(k, x).len(),
{
    assert(s.insert(k, x).remove(k) =~= s);
}

} // verus!
