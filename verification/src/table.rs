//! Transition tables: the per-state association from a symbol to the index of
//! the state it leads to, behind one contract and with several backends.
use std::collections::{BTreeMap, HashMap};
use std::marker::PhantomData;
use vstd::prelude::*;
use vstd::std_specs::btree::{into_iter, spec_btree_map_iter};
use vstd::std_specs::hash::spec_hash_map_iter;
use vstd::std_specs::iter::IteratorSpec;

verus! {

/// Index of a state in a node pool.
pub type GeneralSamNodeID = usize;

/// A sequence of `(symbol, target)` pairs lists exactly the associations of
/// `m`, each symbol once.
pub open spec fn entries_agree(s: Seq<(u32, usize)>, m: Map<u32, usize>) -> bool {
    &&& forall|i: int|
        0 <= i < s.len() ==> m.contains_key((#[trigger] s[i]).0) && m[s[i].0] == s[i].1
    &&& forall|k: u32|
        m.contains_key(k) ==> exists|i: int| 0 <= i < s.len() && (#[trigger] s[i]).0 == k
    &&& forall|i: int, j: int|
        0 <= i < j < s.len() ==> (#[trigger] s[i]).0 != (#[trigger] s[j]).0
}

/// The sequence `s` where it lists the associations of `m`, and some
/// sequence that lists them where it does not.
pub open spec fn listed(s: Seq<(u32, usize)>, m: Map<u32, usize>) -> Seq<(u32, usize)> {
    if entries_agree(s, m) {
        s
    } else {
        choose|t: Seq<(u32, usize)>| entries_agree(t, m)
    }
}

/// A finite map has a sequence that lists its associations.
pub proof fn lemma_listing_exists(m: Map<u32, usize>) -> (t: Seq<(u32, usize)>)
    requires
        m.dom().finite(),
    ensures
        entries_agree(t, m),
    decreases m.dom().len(),
{
    if m.dom().len() == 0 {
        let t = Seq::<(u32, usize)>::empty();
        assert forall|k: u32| m.contains_key(k) implies exists|i: int|
            0 <= i < t.len() && (#[trigger] t[i]).0 == k by {
            assert(m.dom().contains(k));
            vstd::set_lib::lemma_set_empty_equivalency_len(m.dom());
            assert(false);
        }
        t
    } else {
        let k = m.dom().choose();
        vstd::set::axiom_set_choose_len(m.dom());
        assert(m.dom().contains(k));
        let rest = m.remove(k);
        vstd::set::axiom_set_remove_len(m.dom(), k);
        assert(rest.dom() =~= m.dom().remove(k));
        let r = lemma_listing_exists(rest);
        let t = r.push((k, m[k]));
        assert forall|i: int| 0 <= i < t.len() implies m.contains_key((#[trigger] t[i]).0) && m[t[i].0]
            == t[i].1 by {
            if i < r.len() {
                assert(t[i] == r[i]);
                assert(rest.contains_key(r[i].0));
            }
        }
        assert forall|q: u32| m.contains_key(q) implies exists|i: int|
            0 <= i < t.len() && (#[trigger] t[i]).0 == q by {
            if q == k {
                assert(t[t.len() - 1].0 == q);
            } else {
                assert(rest.contains_key(q));
                let i = choose|i: int| 0 <= i < r.len() && (#[trigger] r[i]).0 == q;
                assert(t[i].0 == q);
            }
        }
        assert forall|i: int, j: int| 0 <= i < j < t.len() implies (#[trigger] t[i]).0 != (
        #[trigger] t[j]).0 by {
            assert(t[i] == r[i]);
            assert(rest.contains_key(r[i].0));
            if j < r.len() {
                assert(t[j] == r[j]);
            }
        }
        t
    }
}

/// What `listed` gives lists the associations of a finite map.
pub proof fn lemma_listed(s: Seq<(u32, usize)>, m: Map<u32, usize>)
    requires
        m.dom().finite(),
    ensures
        entries_agree(listed(s, m), m),
{
    if !entries_agree(s, m) {
        let t = lemma_listing_exists(m);
    }
}

/// The symbols of a sequence of pairs are pairwise distinct.
pub open spec fn distinct_keys(s: Seq<(u32, usize)>) -> bool {
    forall|i: int, j: int| 0 <= i < j < s.len() ==> (#[trigger] s[i]).0 != (#[trigger] s[j]).0
}

/// The map that a sequence of pairs describes; of two pairs with one symbol
/// the later one counts.
pub open spec fn map_of_pairs(s: Seq<(u32, usize)>) -> Map<u32, usize>
    decreases s.len(),
{
    if s.len() == 0 {
        Map::empty()
    } else {
        map_of_pairs(s.drop_last()).insert(s.last().0, s.last().1)
    }
}

/// The targets of a sequence of pairs, in order.
pub open spec fn targets_of(s: Seq<(u32, usize)>) -> Seq<usize> {
    Seq::new(s.len(), |i: int| s[i].1)
}

/// What a lookup of `key` in `m` gives.
pub open spec fn lookup(m: Map<u32, usize>, key: u32) -> Option<usize> {
    if m.contains_key(key) {
        Some(m[key])
    } else {
        None
    }
}

/// A read-only association from symbols to state indices.
pub trait TransitionTable: Sized {
    /// The association itself.
    spec fn trans_map(&self) -> Map<u32, usize>;

    /// The associations in the order in which `iter` walks them.
    spec fn entries(&self) -> Seq<(u32, usize)>;

    /// The internal invariant of the backend.
    spec fn wf(&self) -> bool;

    /// The size of the alphabet that this backend can hold: it takes the
    /// symbols below this number.
    spec fn alphabet_size() -> nat;

    /// The entries list the associations, each symbol once.
    proof fn lemma_entries(&self)
        requires
            self.wf(),
        ensures
            entries_agree(self.entries(), self.trans_map()),
    ;

    /// Builds a table from pairs with distinct symbols.
    fn from_kv_iter(pairs: &Vec<(u32, usize)>) -> (r: Self)
        requires
            distinct_keys(pairs@),
            forall|i: int| 0 <= i < pairs@.len() ==> (#[trigger] pairs@[i]).0 < Self::alphabet_size(),
        ensures
            r.wf(),
            r.trans_map() == map_of_pairs(pairs@),
    ;

    /// The target of `key`, if it has one.
    fn get(&self, key: &u32) -> (r: Option<usize>)
        requires
            self.wf(),
        ensures
            r == lookup(self.trans_map(), *key),
    ;

    /// All associations, in the backend's order.
    fn iter(&self) -> (r: Vec<(u32, usize)>)
        requires
            self.wf(),
        ensures
            r@ == self.entries(),
            entries_agree(r@, self.trans_map()),
    ;

    /// Whether `key` has a target.
    fn contains_key(&self, key: &u32) -> (r: bool)
        requires
            self.wf(),
        ensures
            r == self.trans_map().contains_key(*key),
    ;

    /// The targets alone, in the backend's order.
    fn transitions(&self) -> (r: Vec<usize>)
        requires
            self.wf(),
        ensures
            r@ == targets_of(self.entries()),
            entries_agree(self.entries(), self.trans_map()),
    ;
}

/// A table that can be built up one association at a time.
pub trait ConstructiveTransitionTable: TransitionTable {
    /// The empty table.
    fn empty() -> (r: Self)
        ensures
            r.wf(),
            r.trans_map() == Map::<u32, usize>::empty(),
    ;

    /// Associates `key` with `trans`, replacing an earlier target.
    fn insert(&mut self, key: u32, trans: GeneralSamNodeID)
        requires
            old(self).wf(),
            key < Self::alphabet_size(),
        ensures
            final(self).wf(),
            final(self).trans_map() == old(self).trans_map().insert(key, trans),
    ;

    /// A copy with the same associations.
    fn duplicate(&self) -> (r: Self)
        requires
            self.wf(),
        ensures
            r.wf(),
            r.trans_map() == self.trans_map(),
    ;
}

/// The ordered-tree backend.
pub type BTreeTransTable = BTreeMap<u32, GeneralSamNodeID>;

/// A copy of a sequence of pairs.
pub fn copy_pairs(pairs: &Vec<(u32, usize)>) -> (r: Vec<(u32, usize)>)
    ensures
        r@ == pairs@,
{
    let mut out: Vec<(u32, usize)> = Vec::new();
    let mut i: usize = 0;
    while i < pairs.len()
        invariant
            i <= pairs.len(),
            out@ == pairs@.take(i as int),
        decreases pairs.len() - i,
    {
        out.push(pairs[i]);
        i += 1;
        assert(out@ =~= pairs@.take(i as int));
    }
    assert(pairs@.take(i as int) =~= pairs@);
    out
}

/// Copies the targets out of a sequence of pairs.
pub fn targets_of_pairs(pairs: &Vec<(u32, usize)>) -> (r: Vec<usize>)
    ensures
        r@ == targets_of(pairs@),
{
    let mut out: Vec<usize> = Vec::new();
    let mut i: usize = 0;
    while i < pairs.len()
        invariant
            i <= pairs.len(),
            out@ == targets_of(pairs@.take(i as int)),
        decreases pairs.len() - i,
    {
        out.push(pairs[i].1);
        i += 1;
        assert(out@ =~= targets_of(pairs@.take(i as int)));
    }
    assert(pairs@.take(i as int) =~= pairs@);
    out
}

/// Inserts the pairs one after the other into an empty ordered tree.
fn btree_from_pairs(pairs: &Vec<(u32, usize)>) -> (r: BTreeMap<u32, usize>)
    ensures
        r@ == map_of_pairs(pairs@),
{
    let mut res: BTreeMap<u32, usize> = BTreeMap::new();
    let mut i: usize = 0;
    while i < pairs.len()
        invariant
            i <= pairs.len(),
            res@ == map_of_pairs(pairs@.take(i as int)),
        decreases pairs.len() - i,
    {
        let (k, v) = pairs[i];
        res.insert(k, v);
        i += 1;
        assert(pairs@.take(i as int).drop_last() =~= pairs@.take(i as int - 1));
    }
    assert(pairs@.take(i as int) =~= pairs@);
    res
}

/// Pairs read off a walk over a map, each association once, agree with it.
proof fn lemma_pairs_agree(g: Seq<(u32, usize)>, v: Seq<(&u32, &usize)>, m: Map<u32, usize>)
    requires
        v.no_duplicates(),
        v.len() == g.len(),
        forall|i: int| 0 <= i < g.len() ==> (#[trigger] g[i]) == (*v[i].0, *v[i].1),
        forall|i: int|
            0 <= i < v.len() ==> m.contains_key(*(#[trigger] v[i]).0) && m[*v[i].0] == *v[i].1,
        forall|k: u32| m.contains_key(k) ==> v.contains((&k, &m[k])),
    ensures
        entries_agree(g, m),
{
    assert forall|k: u32| m.contains_key(k) implies exists|i: int|
        0 <= i < g.len() && (#[trigger] g[i]).0 == k by {
        let p = (&k, &m[k]);
        assert(v.contains(p));
        let i = choose|i: int| 0 <= i < v.len() && v[i] == p;
        assert(g[i].0 == k);
    }
    assert forall|i: int, j: int| 0 <= i < j < g.len() implies (#[trigger] g[i]).0 != (
    #[trigger] g[j]).0 by {
        if g[i].0 == g[j].0 {
            assert(v[i] == v[j]);
        }
    }
}

impl TransitionTable for BTreeMap<u32, usize> {
    open spec fn trans_map(&self) -> Map<u32, usize> {
        self@
    }

    open spec fn entries(&self) -> Seq<(u32, usize)> {
        listed(into_iter(spec_btree_map_iter(self)), self@)
    }

    open spec fn wf(&self) -> bool {
        true
    }

    open spec fn alphabet_size() -> nat {
        0x1_0000_0000
    }

    proof fn lemma_entries(&self) {
        lemma_listed(into_iter(spec_btree_map_iter(self)), self@);
    }

    fn from_kv_iter(pairs: &Vec<(u32, usize)>) -> (r: Self) {
        btree_from_pairs(pairs)
    }

    fn get(&self, key: &u32) -> (r: Option<usize>) {
        match BTreeMap::get(self, key) {
            Some(v) => Some(*v),
            None => None,
        }
    }

    fn iter(&self) -> (r: Vec<(u32, usize)>) {
        let mut out: Vec<(u32, usize)> = Vec::new();
        let walk = BTreeMap::iter(self);
        let ghost v = walk.remaining();
        let ghost g = into_iter(spec_btree_map_iter(self));
        proof {
            lemma_pairs_agree(g, v, self@);
            assert(g == self.entries());
        }
        for kv in it: walk
            invariant
                it.seq() == v,
                out@.len() == it.index(),
                v.len() == g.len(),
                forall|i: int|
                    0 <= i < g.len() ==> (#[trigger] g[i]) == (*v[i].0, *v[i].1),
                forall|i: int| 0 <= i < out@.len() ==> (#[trigger] out@[i]) == g[i],
        {
            out.push((*kv.0, *kv.1));
        }
        assert(out@ =~= g);
        out
    }

    fn contains_key(&self, key: &u32) -> (r: bool) {
        BTreeMap::contains_key(self, key)
    }

    fn transitions(&self) -> (r: Vec<usize>) {
        let pairs = TransitionTable::iter(self);
        targets_of_pairs(&pairs)
    }
}

impl ConstructiveTransitionTable for BTreeMap<u32, usize> {
    fn empty() -> (r: Self) {
        BTreeMap::new()
    }

    fn insert(&mut self, key: u32, trans: GeneralSamNodeID) {
        BTreeMap::insert(self, key, trans);
    }

    fn duplicate(&self) -> (r: Self) {
        self.clone()
    }
}

/// The hash backend.
pub type HashTransTable = HashMap<u32, GeneralSamNodeID>;

impl TransitionTable for HashMap<u32, usize> {
    open spec fn trans_map(&self) -> Map<u32, usize> {
        self@
    }

    open spec fn entries(&self) -> Seq<(u32, usize)> {
        listed(vstd::std_specs::hash::into_iter(spec_hash_map_iter(self)), self@)
    }

    open spec fn wf(&self) -> bool {
        true
    }

    open spec fn alphabet_size() -> nat {
        0x1_0000_0000
    }

    proof fn lemma_entries(&self) {
        lemma_listed(vstd::std_specs::hash::into_iter(spec_hash_map_iter(self)), self@);
    }

    fn from_kv_iter(pairs: &Vec<(u32, usize)>) -> (r: Self) {
        let mut res: HashMap<u32, usize> = HashMap::new();
        let mut i: usize = 0;
        while i < pairs.len()
            invariant
                i <= pairs.len(),
                res@ == map_of_pairs(pairs@.take(i as int)),
            decreases pairs.len() - i,
        {
            let (k, v) = pairs[i];
            res.insert(k, v);
            i += 1;
            assert(pairs@.take(i as int).drop_last() =~= pairs@.take(i as int - 1));
        }
        assert(pairs@.take(i as int) =~= pairs@);
        res
    }

    fn get(&self, key: &u32) -> (r: Option<usize>) {
        match HashMap::get(self, key) {
            Some(v) => Some(*v),
            None => None,
        }
    }

    fn iter(&self) -> (r: Vec<(u32, usize)>) {
        let mut out: Vec<(u32, usize)> = Vec::new();
        let walk = HashMap::iter(self);
        let ghost v = walk.remaining();
        let ghost g = vstd::std_specs::hash::into_iter(spec_hash_map_iter(self));
        proof {
            lemma_pairs_agree(g, v, self@);
            assert(g == self.entries());
        }
        for kv in it: walk
            invariant
                it.seq() == v,
                out@.len() == it.index(),
                v.len() == g.len(),
                forall|i: int|
                    0 <= i < g.len() ==> (#[trigger] g[i]) == (*v[i].0, *v[i].1),
                forall|i: int| 0 <= i < out@.len() ==> (#[trigger] out@[i]) == g[i],
        {
            out.push((*kv.0, *kv.1));
        }
        assert(out@ =~= g);
        out
    }

    fn contains_key(&self, key: &u32) -> (r: bool) {
        HashMap::contains_key(self, key)
    }

    fn transitions(&self) -> (r: Vec<usize>) {
        let pairs = TransitionTable::iter(self);
        targets_of_pairs(&pairs)
    }
}

impl ConstructiveTransitionTable for HashMap<u32, usize> {
    fn empty() -> (r: Self) {
        HashMap::new()
    }

    fn insert(&mut self, key: u32, trans: GeneralSamNodeID) {
        HashMap::insert(self, key, trans);
    }

    fn duplicate(&self) -> (r: Self) {
        self.clone()
    }
}

/// The symbols of the pairs rise strictly.
pub open spec fn sorted_by_key(s: Seq<(u32, usize)>) -> bool {
    forall|i: int, j: int| 0 <= i < j < s.len() ==> (#[trigger] s[i]).0 < (#[trigger] s[j]).0
}

/// What the map of a sequence of pairs holds: the symbols of the pairs, and
/// for a symbol that occurs once the target that stands with it.
pub proof fn lemma_map_of_pairs(s: Seq<(u32, usize)>, k: u32)
    ensures
        map_of_pairs(s).contains_key(k) <==> exists|i: int| 0 <= i < s.len() && (#[trigger] s[i]).0 == k,
        distinct_keys(s) ==> forall|i: int|
            0 <= i < s.len() && (#[trigger] s[i]).0 == k ==> map_of_pairs(s)[k] == s[i].1,
    decreases s.len(),
{
    if s.len() > 0 {
        let d = s.drop_last();
        lemma_map_of_pairs(d, k);
        if map_of_pairs(s).contains_key(k) {
            if s.last().0 == k {
                assert(s[s.len() - 1].0 == k);
            } else {
                let i = choose|i: int| 0 <= i < d.len() && (#[trigger] d[i]).0 == k;
                assert(s[i].0 == k);
            }
        }
        if exists|i: int| 0 <= i < s.len() && (#[trigger] s[i]).0 == k {
            let i = choose|i: int| 0 <= i < s.len() && (#[trigger] s[i]).0 == k;
            if i < d.len() {
                assert(d[i].0 == k);
            }
        }
        if distinct_keys(s) {
            assert forall|i: int, j: int| 0 <= i < j < d.len() implies (#[trigger] d[i]).0 != (
            #[trigger] d[j]).0 by {
                assert(d[i] == s[i] && d[j] == s[j]);
            }
            assert forall|i: int| 0 <= i < s.len() && (#[trigger] s[i]).0 == k implies map_of_pairs(
                s,
            )[k] == s[i].1 by {
                if i < d.len() {
                    assert(d[i] == s[i]);
                    assert(s[i].0 != s[s.len() - 1].0);
                }
            }
        }
    }
}

/// A sequence of pairs with distinct symbols lists the associations of its
/// map.
pub proof fn lemma_pairs_are_entries(s: Seq<(u32, usize)>)
    requires
        distinct_keys(s),
    ensures
        entries_agree(s, map_of_pairs(s)),
{
    let m = map_of_pairs(s);
    assert forall|i: int| 0 <= i < s.len() implies m.contains_key((#[trigger] s[i]).0) && m[s[i].0]
        == s[i].1 by {
        lemma_map_of_pairs(s, s[i].0);
    }
    assert forall|k: u32| m.contains_key(k) implies exists|i: int|
        0 <= i < s.len() && (#[trigger] s[i]).0 == k by {
        lemma_map_of_pairs(s, k);
    }
}

/// Two sequences of pairs with distinct symbols that hold the same pairs
/// have the same map.
pub proof fn lemma_same_pairs_same_map(a: Seq<(u32, usize)>, b: Seq<(u32, usize)>)
    requires
        distinct_keys(a),
        distinct_keys(b),
        forall|i: int| 0 <= i < a.len() ==> b.contains(#[trigger] a[i]),
        forall|i: int| 0 <= i < b.len() ==> a.contains(#[trigger] b[i]),
    ensures
        map_of_pairs(a) == map_of_pairs(b),
{
    let ma = map_of_pairs(a);
    let mb = map_of_pairs(b);
    assert forall|k: u32| ma.contains_key(k) <==> mb.contains_key(k) by {
        lemma_map_of_pairs(a, k);
        lemma_map_of_pairs(b, k);
        if ma.contains_key(k) {
            let i = choose|i: int| 0 <= i < a.len() && (#[trigger] a[i]).0 == k;
            assert(b.contains(a[i]));
            let j = choose|j: int| 0 <= j < b.len() && b[j] == a[i];
            assert(b[j].0 == k);
        }
        if mb.contains_key(k) {
            let i = choose|i: int| 0 <= i < b.len() && (#[trigger] b[i]).0 == k;
            assert(a.contains(b[i]));
            let j = choose|j: int| 0 <= j < a.len() && a[j] == b[i];
            assert(a[j].0 == k);
        }
    }
    assert forall|k: u32| ma.contains_key(k) implies ma[k] == mb[k] by {
        lemma_map_of_pairs(a, k);
        lemma_map_of_pairs(b, k);
        let i = choose|i: int| 0 <= i < a.len() && (#[trigger] a[i]).0 == k;
        assert(b.contains(a[i]));
        let j = choose|j: int| 0 <= j < b.len() && b[j] == a[i];
        assert(b[j].0 == k);
    }
    assert(ma =~= mb);
}

/// Looks for `key` among pairs whose symbols rise, by halving the range: the
/// position of the pair with this symbol, if there is one.
pub fn bisect_unstable(container: &[(u32, usize)], key: &u32) -> (r: Option<usize>)
    requires
        sorted_by_key(container@),
    ensures
        r matches Some(i) ==> i < container@.len() && container@[i as int].0 == *key,
        r is None ==> forall|i: int| 0 <= i < container@.len() ==> (#[trigger] container@[i]).0 != *key,
{
    let mut lo: usize = 0;
    let mut hi: usize = container.len();
    while hi - lo > 0
        invariant
            lo <= hi <= container@.len(),
            sorted_by_key(container@),
            forall|i: int| 0 <= i < lo ==> (#[trigger] container@[i]).0 < *key,
            forall|i: int| hi <= i < container@.len() ==> (#[trigger] container@[i]).0 > *key,
        decreases hi - lo,
    {
        let mid = lo + (hi - lo) / 2;
        let probe = container[mid].0;
        if probe == *key {
            return Some(mid);
        } else if probe < *key {
            assert forall|i: int| 0 <= i < mid + 1 implies (#[trigger] container@[i]).0 < *key by {
                if i < mid {
                    assert(container@[i].0 < container@[mid as int].0);
                }
            }
            lo = mid + 1;
        } else {
            assert forall|i: int| mid <= i < container@.len() implies (#[trigger] container@[i]).0
                > *key by {
                if i > mid {
                    assert(container@[mid as int].0 < container@[i].0);
                }
            }
            hi = mid;
        }
    }
    None
}

/// The backend of a sorted array that is searched by halving.
pub struct BisectTable {
    inner: Vec<(u32, GeneralSamNodeID)>,
}

/// The sorted-array backend on a vector.
pub type VecBisectTable = BisectTable;

/// The sorted-array backend on a boxed slice.
pub type BoxBisectTable = BisectTable;

/// Sorts pairs with distinct symbols by their symbols.
pub fn sort_pairs(pairs: &Vec<(u32, usize)>) -> (sorted: Vec<(u32, usize)>)
    requires
        distinct_keys(pairs@),
    ensures
        sorted_by_key(sorted@),
        sorted@.len() == pairs@.len(),
        forall|i: int| 0 <= i < pairs@.len() ==> sorted@.contains(#[trigger] pairs@[i]),
        forall|i: int| 0 <= i < sorted@.len() ==> pairs@.contains(#[trigger] sorted@[i]),
{
    let mut sorted: Vec<(u32, usize)> = Vec::new();
    let mut i: usize = 0;
    while i < pairs.len()
        invariant
            i <= pairs@.len(),
            distinct_keys(pairs@),
            sorted@.len() == i,
            sorted_by_key(sorted@),
            forall|j: int| 0 <= j < i ==> sorted@.contains(#[trigger] pairs@[j]),
            forall|a: int|
                0 <= a < sorted@.len() ==> pairs@.take(i as int).contains(#[trigger] sorted@[a]),
        decreases pairs@.len() - i,
    {
        let x = pairs[i];
        let mut pos = sorted.len();
        while pos > 0 && sorted[pos - 1].0 > x.0
            invariant
                pos <= sorted@.len(),
                forall|a: int| pos <= a < sorted@.len() ==> (#[trigger] sorted@[a]).0 > x.0,
            decreases pos,
        {
            pos -= 1;
        }
        let ghost before = sorted@;
        sorted.insert(pos, x);
        proof {
            let after = sorted@;
            let p = pos as int;
            assert forall|a: int| 0 <= a < before.len() implies (#[trigger] before[a]).0 != x.0 by {
                assert(pairs@.take(i as int).contains(before[a]));
                let j = choose|j: int| 0 <= j < i && pairs@.take(i as int)[j] == before[a];
                assert(pairs@[j].0 != pairs@[i as int].0);
            }
            assert forall|a: int, b: int| 0 <= a < b < after.len() implies (#[trigger] after[a]).0 < (
            #[trigger] after[b]).0 by {
                let a0 = if a < p {
                    a
                } else {
                    a - 1
                };
                let b0 = if b < p {
                    b
                } else {
                    b - 1
                };
                if a == p {
                    assert(before[b0].0 > x.0);
                } else if b == p {
                    if p > 0 {
                        assert(before[p - 1].0 != x.0);
                        if a0 < p - 1 {
                            assert(before[a0].0 < before[p - 1].0);
                        }
                    }
                } else {
                    assert(before[a0].0 < before[b0].0);
                }
            }
            assert forall|j: int| 0 <= j < i + 1 implies after.contains(#[trigger] pairs@[j]) by {
                if j == i {
                    assert(after[p] == x);
                } else {
                    assert(before.contains(pairs@[j]));
                    let a = choose|a: int| 0 <= a < before.len() && before[a] == pairs@[j];
                    let a1 = if a < p {
                        a
                    } else {
                        a + 1
                    };
                    assert(after[a1] == pairs@[j]);
                }
            }
            assert forall|a: int| 0 <= a < after.len() implies pairs@.take(i as int + 1).contains(
                #[trigger] after[a],
            ) by {
                if a == p {
                    assert(pairs@.take(i as int + 1)[i as int] == x);
                } else {
                    let a0 = if a < p {
                        a
                    } else {
                        a - 1
                    };
                    assert(pairs@.take(i as int).contains(before[a0]));
                    let j = choose|j: int| 0 <= j < i && pairs@.take(i as int)[j] == before[a0];
                    assert(pairs@.take(i as int + 1)[j] == after[a]);
                }
            }
        }
        i += 1;
    }
    proof {
        assert(pairs@.take(i as int) =~= pairs@);
    }
    sorted
}

/// Pairs whose symbols rise have distinct symbols.
pub proof fn lemma_sorted_distinct(s: Seq<(u32, usize)>)
    requires
        sorted_by_key(s),
    ensures
        distinct_keys(s),
{
}

impl TransitionTable for BisectTable {
    closed spec fn trans_map(&self) -> Map<u32, usize> {
        map_of_pairs(self.inner@)
    }

    closed spec fn entries(&self) -> Seq<(u32, usize)> {
        self.inner@
    }

    closed spec fn wf(&self) -> bool {
        sorted_by_key(self.inner@)
    }

    open spec fn alphabet_size() -> nat {
        0x1_0000_0000
    }

    proof fn lemma_entries(&self) {
        lemma_sorted_distinct(self.inner@);
        lemma_pairs_are_entries(self.inner@);
    }

    fn from_kv_iter(pairs: &Vec<(u32, usize)>) -> (r: Self) {
        let inner = sort_pairs(pairs);
        proof {
            lemma_sorted_distinct(inner@);
            lemma_same_pairs_same_map(inner@, pairs@);
        }
        BisectTable { inner }
    }

    fn get(&self, key: &u32) -> (r: Option<usize>) {
        proof {
            lemma_sorted_distinct(self.inner@);
            lemma_map_of_pairs(self.inner@, *key);
        }
        match bisect_unstable(self.inner.as_slice(), key) {
            Some(i) => Some(self.inner[i].1),
            None => None,
        }
    }

    fn iter(&self) -> (r: Vec<(u32, usize)>) {
        proof {
            lemma_sorted_distinct(self.inner@);
            lemma_pairs_are_entries(self.inner@);
        }
        copy_pairs(&self.inner)
    }

    fn contains_key(&self, key: &u32) -> (r: bool) {
        self.get(key).is_some()
    }

    fn transitions(&self) -> (r: Vec<usize>) {
        proof {
            lemma_sorted_distinct(self.inner@);
            lemma_pairs_are_entries(self.inner@);
        }
        targets_of_pairs(&self.inner)
    }
}

/// A small alphabet: its symbols are the numbers below a power of two.
pub trait SmallAlphabet: Copy {
    /// The exponent of the size of the alphabet.
    spec fn spec_size_log_2() -> nat;

    /// The exponent of the size of the alphabet, at most 16.
    fn size_log_2() -> (r: usize)
        ensures
            r == Self::spec_size_log_2(),
            r <= 16,
    ;

    /// The number that stands for a symbol.
    spec fn spec_index(self) -> nat;

    /// The symbol that stands for `val`, taken modulo the size.
    fn from_usize(val: usize) -> (r: Self)
        ensures
            r.spec_index() == (val as nat) % pow2(Self::spec_size_log_2()),
    ;
}

/// Two to the power of `e`.
pub open spec fn pow2(e: nat) -> nat
    decreases e,
{
    if e == 0 {
        1
    } else {
        2 * pow2((e - 1) as nat)
    }
}

impl SmallAlphabet for bool {
    open spec fn spec_size_log_2() -> nat {
        1
    }

    fn size_log_2() -> (r: usize) {
        1
    }

    open spec fn spec_index(self) -> nat {
        if self {
            1
        } else {
            0
        }
    }

    fn from_usize(val: usize) -> (r: Self) {
        assert(pow2(1) == 2) by {
            assert(pow2(0) == 1);
        }
        val % 2 == 1
    }
}

impl SmallAlphabet for u8 {
    open spec fn spec_size_log_2() -> nat {
        8
    }

    fn size_log_2() -> (r: usize) {
        8
    }

    open spec fn spec_index(self) -> nat {
        self as nat
    }

    fn from_usize(val: usize) -> (r: Self) {
        assert(pow2(8) == 256) by {
            lemma_pow2_values();
        }
        (val % 256) as u8
    }
}

/// The first powers of two.
pub proof fn lemma_pow2_values()
    ensures
        pow2(0) == 1,
        pow2(1) == 2,
        pow2(8) == 256,
        pow2(16) == 65536,
{
    assert(pow2(0) == 1);
    assert(pow2(1) == 2);
    assert(pow2(2) == 4);
    assert(pow2(3) == 8);
    assert(pow2(4) == 16);
    assert(pow2(5) == 32);
    assert(pow2(6) == 64);
    assert(pow2(7) == 128);
    assert(pow2(8) == 256);
    assert(pow2(9) == 512);
    assert(pow2(10) == 1024);
    assert(pow2(11) == 2048);
    assert(pow2(12) == 4096);
    assert(pow2(13) == 8192);
    assert(pow2(14) == 16384);
    assert(pow2(15) == 32768);
    assert(pow2(16) == 65536);
}

/// A power of two with an exponent up to 16 is at most 65536.
pub proof fn lemma_pow2_bound(e: nat)
    requires
        e <= 16,
    ensures
        1 <= pow2(e) <= 65536,
    decreases 16 - e,
{
    lemma_pow2_values();
    if e < 16 {
        lemma_pow2_bound(e + 1);
    }
}

/// The backend of a small alphabet: one slot for every symbol.
pub struct WholeAlphabetTable<K: SmallAlphabet> {
    inner: Vec<Option<GeneralSamNodeID>>,
    phantom: PhantomData<K>,
}

/// The associations of the first `i` slots, in order.
pub open spec fn slots_entries(slots: Seq<Option<usize>>, i: int) -> Seq<(u32, usize)>
    decreases i,
{
    if i <= 0 {
        Seq::empty()
    } else {
        match slots[i - 1] {
            Some(v) => slots_entries(slots, i - 1).push(((i - 1) as u32, v)),
            None => slots_entries(slots, i - 1),
        }
    }
}

/// The association that the slots hold.
pub open spec fn slots_map(slots: Seq<Option<usize>>) -> Map<u32, usize> {
    Map::new(|k: u32| k < slots.len() && slots[k as int] is Some, |k: u32| slots[k as int]->0)
}

/// The associations of the first `i` slots are those of the symbols below
/// `i`, in rising order.
pub proof fn lemma_slots_entries(slots: Seq<Option<usize>>, i: int)
    requires
        0 <= i <= slots.len(),
        slots.len() <= 65536,
    ensures
        forall|a: int|
            0 <= a < slots_entries(slots, i).len() ==> (#[trigger] slots_entries(slots, i)[a]).0 < i
                && slots[slots_entries(slots, i)[a].0 as int] == Some(slots_entries(slots, i)[a].1),
        forall|k: int|
            0 <= k < i && (#[trigger] slots[k]) is Some ==> exists|a: int|
                0 <= a < slots_entries(slots, i).len() && (#[trigger] slots_entries(slots, i)[a]).0 == k,
        sorted_by_key(slots_entries(slots, i)),
        slots_entries(slots, i).len() <= i,
    decreases i,
{
    if i > 0 {
        lemma_slots_entries(slots, i - 1);
        let prev = slots_entries(slots, i - 1);
        let cur = slots_entries(slots, i);
        assert forall|k: int| 0 <= k < i && (#[trigger] slots[k]) is Some implies exists|a: int|
            0 <= a < cur.len() && (#[trigger] cur[a]).0 == k by {
            if k < i - 1 {
                let a = choose|a: int| 0 <= a < prev.len() && (#[trigger] prev[a]).0 == k;
                assert(cur[a] == prev[a]);
            } else {
                assert(cur[cur.len() - 1].0 == k);
            }
        }
        assert forall|a: int, b: int| 0 <= a < b < cur.len() implies (#[trigger] cur[a]).0 < (
        #[trigger] cur[b]).0 by {
            if b < prev.len() {
                assert(cur[a] == prev[a] && cur[b] == prev[b]);
            } else {
                assert(cur[a] == prev[a]);
            }
        }
        assert forall|a: int| 0 <= a < cur.len() implies (#[trigger] cur[a]).0 < i && slots[cur[a].0 as int]
            == Some(cur[a].1) by {
            if a < prev.len() {
                assert(cur[a] == prev[a]);
            }
        }
    }
}

impl<K: SmallAlphabet> TransitionTable for WholeAlphabetTable<K> {
    closed spec fn trans_map(&self) -> Map<u32, usize> {
        slots_map(self.inner@)
    }

    closed spec fn entries(&self) -> Seq<(u32, usize)> {
        slots_entries(self.inner@, self.inner@.len() as int)
    }

    closed spec fn wf(&self) -> bool {
        self.inner@.len() == pow2(K::spec_size_log_2()) && K::spec_size_log_2() <= 16
    }

    open spec fn alphabet_size() -> nat {
        pow2(K::spec_size_log_2())
    }

    proof fn lemma_entries(&self) {
        lemma_pow2_bound(K::spec_size_log_2());
        let n = self.inner@.len() as int;
        lemma_slots_entries(self.inner@, n);
        let e = slots_entries(self.inner@, n);
        lemma_sorted_distinct(e);
        assert forall|k: u32| self.trans_map().contains_key(k) implies exists|a: int|
            0 <= a < e.len() && (#[trigger] e[a]).0 == k by {
            assert(self.inner@[k as int] is Some);
        }
    }

    fn from_kv_iter(pairs: &Vec<(u32, usize)>) -> (r: Self) {
        let mut res = Self::empty();
        let mut i: usize = 0;
        while i < pairs.len()
            invariant
                i <= pairs.len(),
                res.wf(),
                res.trans_map() == map_of_pairs(pairs@.take(i as int)),
                forall|j: int| 0 <= j < pairs@.len() ==> (#[trigger] pairs@[j]).0 < Self::alphabet_size(),
            decreases pairs.len() - i,
        {
            let (k, v) = pairs[i];
            res.insert(k, v);
            i += 1;
            assert(pairs@.take(i as int).drop_last() =~= pairs@.take(i as int - 1));
        }
        assert(pairs@.take(i as int) =~= pairs@);
        res
    }

    fn get(&self, key: &u32) -> (r: Option<usize>) {
        proof {
            lemma_pow2_bound(K::spec_size_log_2());
        }
        let k = *key as usize;
        if k < self.inner.len() {
            self.inner[k]
        } else {
            None
        }
    }

    fn iter(&self) -> (r: Vec<(u32, usize)>) {
        let mut out: Vec<(u32, usize)> = Vec::new();
        let n = self.inner.len();
        proof {
            lemma_pow2_bound(K::spec_size_log_2());
        }
        let mut i: usize = 0;
        while i < n
            invariant
                i <= n,
                n == self.inner@.len(),
                n <= 65536,
                out@ == slots_entries(self.inner@, i as int),
            decreases n - i,
        {
            match self.inner[i] {
                Some(v) => {
                    out.push((i as u32, v));
                },
                None => {},
            }
            i += 1;
        }
        proof {
            lemma_slots_entries(self.inner@, n as int);
            lemma_sorted_distinct(out@);
            assert forall|k: u32| self.trans_map().contains_key(k) implies exists|a: int|
                0 <= a < out@.len() && (#[trigger] out@[a]).0 == k by {
                assert(self.inner@[k as int] is Some);
            }
        }
        out
    }

    fn contains_key(&self, key: &u32) -> (r: bool) {
        self.get(key).is_some()
    }

    fn transitions(&self) -> (r: Vec<usize>) {
        let pairs = self.iter();
        targets_of_pairs(&pairs)
    }
}

impl<K: SmallAlphabet> ConstructiveTransitionTable for WholeAlphabetTable<K> {
    fn empty() -> (r: Self) {
        let log = K::size_log_2();
        let mut inner: Vec<Option<usize>> = Vec::new();
        inner.push(None);
        let mut e: usize = 0;
        proof {
            lemma_pow2_values();
        }
        while e < log
            invariant
                e <= log <= 16,
                inner@.len() == pow2(e as nat),
                forall|i: int| 0 <= i < inner@.len() ==> (#[trigger] inner@[i]) is None,
            decreases log - e,
        {
            proof {
                lemma_pow2_bound(e as nat);
            }
            let len = inner.len();
            let mut j: usize = 0;
            while j < len
                invariant
                    j <= len,
                    len <= 65536,
                    inner@.len() == len + j,
                    forall|i: int| 0 <= i < inner@.len() ==> (#[trigger] inner@[i]) is None,
                decreases len - j,
            {
                inner.push(None);
                j += 1;
            }
            e += 1;
        }
        let r = WholeAlphabetTable { inner, phantom: PhantomData };
        assert(r.trans_map() =~= Map::<u32, usize>::empty());
        r
    }

    fn insert(&mut self, key: u32, trans: GeneralSamNodeID) {
        proof {
            lemma_pow2_bound(K::spec_size_log_2());
        }
        let ghost before = self.inner@;
        self.inner.set(key as usize, Some(trans));
        assert(self.trans_map() =~= old(self).trans_map().insert(key, trans));
    }

    fn duplicate(&self) -> (r: Self) {
        let mut inner: Vec<Option<usize>> = Vec::new();
        let mut i: usize = 0;
        while i < self.inner.len()
            invariant
                i <= self.inner@.len(),
                inner@ == self.inner@.take(i as int),
            decreases self.inner@.len() - i,
        {
            inner.push(self.inner[i]);
            i += 1;
            assert(inner@ =~= self.inner@.take(i as int));
        }
        assert(self.inner@.take(i as int) =~= self.inner@);
        WholeAlphabetTable { inner, phantom: PhantomData }
    }
}

/// The map of a sequence of pairs that lists the associations of `m` is
/// `m`.
pub proof fn lemma_entries_map(s: Seq<(u32, usize)>, m: Map<u32, usize>)
    requires
        entries_agree(s, m),
    ensures
        map_of_pairs(s) == m,
        distinct_keys(s),
{
    let ms = map_of_pairs(s);
    assert forall|k: u32| ms.contains_key(k) <==> m.contains_key(k) by {
        lemma_map_of_pairs(s, k);
        if ms.contains_key(k) {
            let i = choose|i: int| 0 <= i < s.len() && (#[trigger] s[i]).0 == k;
        }
    }
    assert forall|k: u32| ms.contains_key(k) implies ms[k] == m[k] by {
        lemma_map_of_pairs(s, k);
        let i = choose|i: int| 0 <= i < s.len() && (#[trigger] s[i]).0 == k;
    }
    assert(ms =~= m);
}

/// The table of another backend with the same associations.
pub fn convert_table<T: TransitionTable, N: TransitionTable>(table: &T) -> (r: N)
    requires
        table.wf(),
        forall|k: u32| table.trans_map().contains_key(k) ==> k < N::alphabet_size(),
    ensures
        r.wf(),
        r.trans_map() == table.trans_map(),
{
    let pairs = table.iter();
    proof {
        lemma_entries_map(pairs@, table.trans_map());
    }
    N::from_kv_iter(&pairs)
}

} // verus!
