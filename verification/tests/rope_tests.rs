use general_sam::utils::rope::{RopeBase, RopeUntaggedInner, TreapBasedRopeBase, UntaggedRope};

fn to_vec(p: UntaggedRope<char>) -> Vec<char> {
    let mut res = Vec::<char>::new();
    p.for_each().iter().for_each(|d: &RopeUntaggedInner<char>| res.push(**d));
    res
}

#[test]
fn utils_test_rope() {
    let rope = UntaggedRope::<char>::default();
    assert!(rope.get(0).is_none());
    assert!(rope.is_empty());
    assert_eq!(rope.len(), 0);

    let rope = rope.push_front('a'.into());
    assert!(rope.get(0).is_some_and(|x| *x == 'a'));
    assert!(!rope.is_empty());
    assert_eq!(rope.len(), 1);

    let rope = rope.push_front('b'.into());
    let rope = rope.push_back('c'.into());
    assert!(!rope.is_empty());
    assert_eq!(rope.len(), 3);
    assert!(rope.get(0).is_some_and(|x| *x == 'b'));
    assert!(rope.get(1).is_some_and(|x| *x == 'a'));
    assert!(rope.get(2).is_some_and(|x| *x == 'c'));
    assert!(rope.get(3).is_none());
    assert!(rope.query(0).is_some_and(|x| **x == 'b'));
    assert!(rope.query(1).is_some_and(|x| **x == 'a'));
    assert!(rope.query(2).is_some_and(|x| **x == 'c'));
    assert!(rope.query(3).is_none());

    let rope = rope.reverse();
    assert!(!rope.is_empty());
    assert_eq!(rope.len(), 3);
    assert!(rope.get(0).is_some_and(|x| *x == 'c'));
    assert!(rope.get(1).is_some_and(|x| *x == 'a'));
    assert!(rope.get(2).is_some_and(|x| *x == 'b'));
    assert!(rope.get(3).is_none());

    let (l, r) = rope.split(1);
    assert!(rope.get(0).is_some_and(|x| *x == 'c'));
    assert!(rope.get(1).is_some_and(|x| *x == 'a'));
    assert!(rope.get(2).is_some_and(|x| *x == 'b'));
    assert!(rope.get(3).is_none());
    assert!(l.get(0).is_some_and(|x| *x == 'c'));
    assert!(l.get(1).is_none());
    assert!(r.get(0).is_some_and(|x| *x == 'a'));
    assert!(r.get(1).is_some_and(|x| *x == 'b'));
    assert!(r.get(2).is_none());

    let reversed = rope.reverse();
    let v = to_vec(reversed);
    v.iter()
        .zip(['b', 'a', 'c'])
        .for_each(|(i, j)| assert_eq!(*i, j));

    let v = to_vec(rope);
    v.iter()
        .zip(['c', 'a', 'b'])
        .for_each(|(i, j)| assert_eq!(*i, j));

    let v = to_vec(l);
    v.iter().zip(['c']).for_each(|(i, j)| assert_eq!(*i, j));

    let v = to_vec(r);
    v.iter()
        .zip(['a', 'b'])
        .for_each(|(i, j)| assert_eq!(*i, j));
}

#[test]
fn rope_test_rope() {
    let rope = UntaggedRope::<char>::default();
    assert!(rope.get(0).is_none());

    let rope = rope.push_front('a'.into());
    assert!(rope.get(0).is_some_and(|x| *x == 'a'));

    let rope = rope.push_front('b'.into());
    let rope = rope.push_back('c'.into());
    assert!(rope.get(0).is_some_and(|x| *x == 'b'));
    assert!(rope.get(1).is_some_and(|x| *x == 'a'));
    assert!(rope.get(2).is_some_and(|x| *x == 'c'));
    assert!(rope.get(3).is_none());
    assert!(rope.query(0).is_some_and(|x| **x == 'b'));
    assert!(rope.query(1).is_some_and(|x| **x == 'a'));
    assert!(rope.query(2).is_some_and(|x| **x == 'c'));
    assert!(rope.query(3).is_none());

    let rope = rope.reverse();
    assert!(rope.get(0).is_some_and(|x| *x == 'c'));
    assert!(rope.get(1).is_some_and(|x| *x == 'a'));
    assert!(rope.get(2).is_some_and(|x| *x == 'b'));
    assert!(rope.get(3).is_none());

    let (l, r) = rope.split(1);
    assert!(rope.get(0).is_some_and(|x| *x == 'c'));
    assert!(rope.get(1).is_some_and(|x| *x == 'a'));
    assert!(rope.get(2).is_some_and(|x| *x == 'b'));
    assert!(rope.get(3).is_none());
    assert!(l.get(0).is_some_and(|x| *x == 'c'));
    assert!(l.get(1).is_none());
    assert!(r.get(0).is_some_and(|x| *x == 'a'));
    assert!(r.get(1).is_some_and(|x| *x == 'b'));
    assert!(r.get(2).is_none());

    let reversed = rope.reverse();
    let v = to_vec(reversed);
    v.iter()
        .zip(['b', 'a', 'c'])
        .for_each(|(i, j)| assert_eq!(*i, j));

    let v = to_vec(rope);
    v.iter()
        .zip(['c', 'a', 'b'])
        .for_each(|(i, j)| assert_eq!(*i, j));

    let v = to_vec(l);
    v.iter().zip(['c']).for_each(|(i, j)| assert_eq!(*i, j));

    let v = to_vec(r);
    v.iter()
        .zip(['a', 'b'])
        .for_each(|(i, j)| assert_eq!(*i, j));
}

#[test]
fn rope_split_then_merge_gives_the_rope_back() {
    let mut rope = UntaggedRope::<u32>::default();
    for i in 0..50u32 {
        rope = rope.push_back(RopeUntaggedInner(i));
    }
    for k in 0..=60usize {
        let (l, r) = rope.split(k);
        assert_eq!(l.len(), k.min(50));
        assert_eq!(r.len(), 50 - k.min(50));
        let back = l.merge(&r);
        let items: Vec<u32> = back.for_each().iter().map(|x| x.0).collect();
        assert_eq!(items, (0..50u32).collect::<Vec<u32>>());
    }
}

#[test]
fn rope_reverse_twice_is_identity() {
    let mut rope = UntaggedRope::<u32>::default();
    for i in 0..33u32 {
        rope = rope.push_front(RopeUntaggedInner(i));
    }
    let once: Vec<u32> = rope.reverse().for_each().iter().map(|x| x.0).collect();
    let twice: Vec<u32> = rope.reverse().reverse().for_each().iter().map(|x| x.0).collect();
    let plain: Vec<u32> = rope.for_each().iter().map(|x| x.0).collect();
    assert_eq!(once, (0..33u32).collect::<Vec<u32>>());
    assert_eq!(plain, (0..33u32).rev().collect::<Vec<u32>>());
    assert_eq!(twice, plain);
}

#[test]
fn rope_insert_then_remove_gives_the_rope_back() {
    let mut rope = UntaggedRope::<u32>::default();
    for i in 0..20u32 {
        rope = rope.push_back(RopeUntaggedInner(i));
    }
    for k in 0..=20usize {
        let bigger = rope.insert(k, RopeUntaggedInner(777));
        assert_eq!(bigger.len(), 21);
        assert_eq!(bigger.get(k).map(|x| x.0), Some(777));
        let (smaller, taken) = bigger.remove(k);
        assert_eq!(taken.map(|x| x.0), Some(777));
        let items: Vec<u32> = smaller.for_each().iter().map(|x| x.0).collect();
        assert_eq!(items, (0..20u32).collect::<Vec<u32>>());
    }
    let (same, nothing) = rope.remove(20);
    assert!(nothing.is_none());
    assert_eq!(same.len(), 20);
}

#[test]
fn rope_old_versions_stay_as_they_were() {
    let empty = UntaggedRope::<char>::default();
    let a = empty.push_front('a'.into());
    let ba = a.push_front('b'.into());
    let bac = ba.push_back('c'.into());
    let rev = bac.reverse();
    let (l, r) = rev.split(1);
    assert_eq!(to_vec(empty), Vec::<char>::new());
    assert_eq!(to_vec(a), vec!['a']);
    assert_eq!(to_vec(ba), vec!['b', 'a']);
    assert_eq!(to_vec(bac), vec!['b', 'a', 'c']);
    assert_eq!(to_vec(rev), vec!['c', 'a', 'b']);
    assert_eq!(to_vec(l), vec!['c']);
    assert_eq!(to_vec(r), vec!['a', 'b']);
}

#[test]
fn rope_with_given_priorities() {
    let rope = UntaggedRope::<u32>::new_from_rng(RopeUntaggedInner(1), || 5u64);
    let rope = rope.push_back_from_rng(RopeUntaggedInner(2), || 9u64);
    let rope = rope.push_front_from_rng(RopeUntaggedInner(0), || 1u64);
    let rope = rope.insert_from_rng(1, RopeUntaggedInner(7), || 9u64);
    let items: Vec<u32> = rope.for_each().iter().map(|x| x.0).collect();
    assert_eq!(items, vec![0, 7, 1, 2]);
    assert_eq!(rope.query(1).map(|d| d.get_inner().into_inner()), Some(7));
    assert!(rope.root_data_ref().is_some());
}
