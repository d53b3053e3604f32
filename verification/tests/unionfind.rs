use egg::{Id, UnionFind};

fn ids(us: impl IntoIterator<Item = usize>) -> Vec<Id> {
    us.into_iter().map(|u| u.into()).collect()
}

fn parents(uf: &UnionFind) -> Vec<Id> {
    (0..uf.size()).map(|i| uf.parent(Id::from(i))).collect()
}

fn singletons(n: usize) -> UnionFind {
    let mut uf = UnionFind::default();
    for _ in 0..n {
        uf.make_set();
    }
    uf
}

/// Joins the classes of `a` and `b` the way a caller has to: find first.
fn join(uf: &mut UnionFind, a: usize, b: usize) -> Id {
    let root1 = uf.find(Id::from(a));
    let root2 = uf.find(Id::from(b));
    uf.union(root1, root2)
}

#[test]
fn union_find() {
    let n = 10;
    let id = Id::from;

    let mut uf = UnionFind::default();
    for _ in 0..n {
        uf.make_set();
    }

    // test the initial condition of everyone in their own set
    assert_eq!(parents(&uf), ids(0..n));

    // build up one set
    uf.union(id(0), id(1));
    uf.union(id(0), id(2));
    uf.union(id(0), id(3));

    // build up another set
    uf.union(id(6), id(7));
    uf.union(id(6), id(8));
    uf.union(id(6), id(9));

    // this should compress all paths
    for i in 0..n {
        uf.find_mut(id(i));
    }

    // indexes:         0, 1, 2, 3, 4, 5, 6, 7, 8, 9
    let expected = vec![0, 0, 0, 0, 4, 5, 6, 6, 6, 6];
    assert_eq!(parents(&uf), ids(expected));
}

#[test]
fn default_has_no_elements() {
    let uf = UnionFind::default();
    assert_eq!(uf.size(), 0);
    assert_eq!(parents(&uf), ids(Vec::new()));
}

#[test]
fn make_set_hands_out_dense_ids() {
    let mut uf = UnionFind::default();
    for expected in 0..5 {
        assert_eq!(uf.size(), expected);
        let id = uf.make_set();
        assert_eq!(id, Id::from(expected));
        assert_eq!(usize::from(id), expected);
        assert_eq!(uf.size(), expected + 1);
    }
}

#[test]
fn make_set_makes_a_singleton() {
    let mut uf = singletons(3);
    join(&mut uf, 0, 1);
    let before = parents(&uf);
    let fresh = uf.make_set();
    assert_eq!(uf.parent(fresh), fresh);
    assert_eq!(uf.find(fresh), fresh);
    assert_eq!(parents(&uf)[..3], before[..]);
}

#[test]
fn find_of_a_singleton_is_itself() {
    let uf = singletons(4);
    for i in 0..4 {
        assert_eq!(uf.find(Id::from(i)), Id::from(i));
    }
}

#[test]
fn union_left_argument_survives() {
    let mut uf = singletons(2);
    let root = uf.union(Id::from(1), Id::from(0));
    assert_eq!(root, Id::from(1));
    assert_eq!(parents(&uf), ids(vec![1, 1]));
    assert_eq!(uf.find(Id::from(0)), Id::from(1));
    assert_eq!(uf.find(Id::from(1)), Id::from(1));
}

#[test]
fn union_of_a_root_with_itself_changes_nothing() {
    let mut uf = singletons(3);
    join(&mut uf, 0, 1);
    let before = parents(&uf);
    let root = uf.union(Id::from(0), Id::from(0));
    assert_eq!(root, Id::from(0));
    assert_eq!(parents(&uf), before);
}

#[test]
fn union_joins_only_the_two_classes() {
    let mut uf = singletons(6);
    join(&mut uf, 0, 1);
    join(&mut uf, 2, 3);
    join(&mut uf, 4, 5);
    let root = join(&mut uf, 1, 3);
    assert_eq!(root, Id::from(0));
    for i in 0..4 {
        assert_eq!(uf.find(Id::from(i)), Id::from(0));
    }
    assert_eq!(uf.find(Id::from(4)), Id::from(4));
    assert_eq!(uf.find(Id::from(5)), Id::from(4));
}

#[test]
fn find_changes_no_parent() {
    let mut uf = singletons(4);
    uf.union(Id::from(2), Id::from(3));
    uf.union(Id::from(1), Id::from(2));
    uf.union(Id::from(0), Id::from(1));
    assert_eq!(parents(&uf), ids(vec![0, 0, 1, 2]));
    assert_eq!(uf.find(Id::from(3)), Id::from(0));
    assert_eq!(parents(&uf), ids(vec![0, 0, 1, 2]));
}

#[test]
fn find_is_idempotent() {
    let mut uf = singletons(8);
    uf.union(Id::from(2), Id::from(3));
    uf.union(Id::from(1), Id::from(2));
    uf.union(Id::from(0), Id::from(1));
    uf.union(Id::from(5), Id::from(6));
    for i in 0..8 {
        let root = uf.find(Id::from(i));
        assert_eq!(uf.find(root), root);
        assert_eq!(uf.parent(root), root);
    }
}

#[test]
fn find_mut_points_the_whole_path_at_the_root() {
    let mut uf = singletons(6);
    uf.union(Id::from(3), Id::from(4));
    uf.union(Id::from(2), Id::from(3));
    uf.union(Id::from(1), Id::from(2));
    uf.union(Id::from(0), Id::from(1));
    uf.union(Id::from(4), Id::from(5));
    assert_eq!(parents(&uf), ids(vec![0, 0, 1, 2, 3, 4]));
    // The walk from 3 passes 3, 2, 1 and 0; 4 and 5 are not on it.
    assert_eq!(uf.find_mut(Id::from(3)), Id::from(0));
    assert_eq!(parents(&uf), ids(vec![0, 0, 0, 0, 3, 4]));
}

#[test]
fn find_mut_of_a_root_changes_nothing() {
    let mut uf = singletons(3);
    uf.union(Id::from(1), Id::from(2));
    uf.union(Id::from(0), Id::from(1));
    assert_eq!(uf.find_mut(Id::from(0)), Id::from(0));
    assert_eq!(parents(&uf), ids(vec![0, 0, 1]));
}

#[test]
fn find_mut_keeps_every_representative() {
    let mut uf = singletons(9);
    uf.union(Id::from(3), Id::from(4));
    uf.union(Id::from(2), Id::from(3));
    uf.union(Id::from(1), Id::from(2));
    uf.union(Id::from(7), Id::from(8));
    uf.union(Id::from(6), Id::from(7));
    let before: Vec<Id> = (0..9).map(|i| uf.find(Id::from(i))).collect();
    for i in 0..9 {
        assert_eq!(uf.find_mut(Id::from(i)), before[i]);
        let after: Vec<Id> = (0..9).map(|i| uf.find(Id::from(i))).collect();
        assert_eq!(after, before);
    }
    assert_eq!(uf.size(), 9);
}

#[test]
fn chain_of_unions_shares_one_root() {
    let mut uf = singletons(10);
    let pairs = [(0, 1), (2, 3), (1, 3), (4, 5), (6, 7), (5, 7), (3, 7), (8, 9)];
    for (k, &(a, b)) in pairs.iter().enumerate() {
        join(&mut uf, a, b);
        // Every pair joined so far is still together.
        for &(c, d) in &pairs[..=k] {
            assert_eq!(uf.find(Id::from(c)), uf.find(Id::from(d)));
        }
    }
    for i in 0..8 {
        assert_eq!(uf.find(Id::from(i)), Id::from(0));
    }
    assert_eq!(uf.find(Id::from(8)), Id::from(8));
    assert_eq!(uf.find(Id::from(9)), Id::from(8));
}

#[test]
fn partition_matches_a_table_of_labels() {
    let n = 200;
    let mut uf = singletons(n);
    let mut label: Vec<usize> = (0..n).collect();
    let mut state: u64 = 0x2545_f491_4f6c_dd1d;
    for round in 0..400 {
        state = state.wrapping_mul(6364136223846793005).wrapping_add(1442695040888963407);
        let a = (state >> 33) as usize % n;
        state = state.wrapping_mul(6364136223846793005).wrapping_add(1442695040888963407);
        let b = (state >> 33) as usize % n;
        if round % 3 == 0 {
            uf.find_mut(Id::from(a));
        } else {
            join(&mut uf, a, b);
            let (keep, drop) = (label[a], label[b]);
            for l in label.iter_mut() {
                if *l == drop {
                    *l = keep;
                }
            }
        }
        for i in 0..n {
            for j in [a, b] {
                let together = uf.find(Id::from(i)) == uf.find(Id::from(j));
                assert_eq!(together, label[i] == label[j]);
            }
        }
    }
}

#[test]
fn clone_is_a_separate_union_find() {
    let mut uf = singletons(3);
    uf.union(Id::from(0), Id::from(1));
    let copy = uf.clone();
    uf.union(Id::from(0), Id::from(2));
    assert_eq!(parents(&copy), ids(vec![0, 0, 2]));
    assert_eq!(parents(&uf), ids(vec![0, 0, 0]));
}

#[test]
fn from_parents_keeps_a_forest() {
    let uf = UnionFind::from_parents(ids(vec![0, 0, 1, 3, 3, 4])).expect("a forest");
    assert_eq!(uf.size(), 6);
    assert_eq!(parents(&uf), ids(vec![0, 0, 1, 3, 3, 4]));
    assert_eq!(uf.find(Id::from(2)), Id::from(0));
    assert_eq!(uf.find(Id::from(5)), Id::from(3));
}

#[test]
fn from_parents_of_nothing_is_empty() {
    let uf = UnionFind::from_parents(Vec::new()).expect("a forest");
    assert_eq!(uf.size(), 0);
}

#[test]
fn from_parents_returns_what_was_built() {
    let mut uf = singletons(7);
    uf.union(Id::from(2), Id::from(3));
    uf.union(Id::from(1), Id::from(2));
    uf.union(Id::from(5), Id::from(6));
    let again = UnionFind::from_parents(parents(&uf)).expect("a forest");
    assert_eq!(parents(&again), parents(&uf));
}

#[test]
fn from_parents_refuses_a_parent_out_of_range() {
    assert!(UnionFind::from_parents(ids(vec![0, 2])).is_none());
    assert!(UnionFind::from_parents(ids(vec![1])).is_none());
}

#[test]
fn from_parents_refuses_a_cycle() {
    assert!(UnionFind::from_parents(ids(vec![1, 0])).is_none());
    assert!(UnionFind::from_parents(ids(vec![0, 2, 3, 1])).is_none());
    assert!(UnionFind::from_parents(ids(vec![1, 2, 3, 4, 0])).is_none());
    // A tail that leads into a cycle.
    assert!(UnionFind::from_parents(ids(vec![1, 2, 1, 3])).is_none());
}

#[test]
fn from_parents_accepts_a_long_chain() {
    let n = 5000;
    let chain: Vec<usize> = (0..n).map(|i| if i == 0 { 0 } else { i - 1 }).collect();
    let uf = UnionFind::from_parents(ids(chain)).expect("a forest");
    assert_eq!(uf.find(Id::from(n - 1)), Id::from(0));
    let upward: Vec<usize> = (0..n).map(|i| if i == n - 1 { i } else { i + 1 }).collect();
    let uf = UnionFind::from_parents(ids(upward)).expect("a forest");
    assert_eq!(uf.find(Id::from(0)), Id::from(n - 1));
}
