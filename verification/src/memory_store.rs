//! A store in memory: branch nodes and leaves in two lists, in which the last
//! entry with a key is the one that counts.
//!
//! Every operation walks a list, so the store suits small trees; a large tree
//! wants a store with an index.

use crate::error::Error;
use crate::h256::H256;
use crate::pairs::{
    key_at, lemma_map_of_absent, lemma_map_of_last, lemma_map_of_overwrite, lemma_map_of_remove,
    map_of,
};
use crate::traits::{lookup, Store};
use crate::tree::{BranchKey, BranchNode};
use vstd::prelude::*;

verus! {

/// A key that can be compared for equality.
trait SameKey: Copy {
    /// Whether the two keys are equal.
    fn same(&self, other: &Self) -> (r: bool)
        ensures
            r == (*self == *other),
    ;
}

impl SameKey for H256 {
    fn same(&self, other: &H256) -> (r: bool) {
        self.is_same(other)
    }
}

impl SameKey for BranchKey {
    fn same(&self, other: &BranchKey) -> (r: bool) {
        self.height == other.height && self.node_key.is_same(&other.node_key)
    }
}

/// The index of the last entry with the key `k`, if there is one.
fn find_last<K: SameKey, T>(list: &Vec<(K, T)>, k: &K) -> (r: Option<usize>)
    ensures
        r matches Some(i) ==> key_at(list@, i as int, *k) && forall|j: int|
            i < j ==> !key_at(list@, j, *k),
        r is None ==> forall|j: int| !key_at(list@, j, *k),
{
    let mut i: usize = list.len();
    while i > 0
        invariant
            i <= list.len(),
            forall|j: int| i <= j ==> !key_at(list@, j, *k),
        decreases i,
    {
        i -= 1;
        if list[i].0.same(k) {
            return Some(i);
        }
    }
    None
}

/// What the list holds under `k`.
fn fetch<K: SameKey, T: Copy>(list: &Vec<(K, T)>, k: &K) -> (r: Option<T>)
    ensures
        r == lookup(map_of(list@), *k),
{
    match find_last(list, k) {
        Some(i) => {
            proof {
                lemma_map_of_last(list@, *k, i as int);
            }
            Some(list[i].1)
        },
        None => {
            proof {
                lemma_map_of_absent(list@, *k);
            }
            None
        },
    }
}

/// Puts `t` under `k`, in place of what the list held there.
fn put<K: SameKey, T>(list: &mut Vec<(K, T)>, k: K, t: T)
    ensures
        map_of(final(list)@) == map_of(old(list)@).insert(k, t),
{
    match find_last(list, &k) {
        Some(i) => {
            proof {
                lemma_map_of_overwrite(list@, i as int, k, t);
            }
            list.set(i, (k, t));
        },
        None => {
            list.push((k, t));
            proof {
                assert(list@.drop_last() =~= old(list)@);
            }
        },
    }
}

/// Takes out what the list holds under `k`.
fn take_out<K: SameKey, T>(list: &mut Vec<(K, T)>, k: &K)
    ensures
        map_of(final(list)@) == map_of(old(list)@).remove(*k),
{
    loop
        invariant
            map_of(list@).remove(*k) == map_of(old(list)@).remove(*k),
        decreases list@.len(),
    {
        match find_last(list, k) {
            Some(i) => {
                proof {
                    lemma_map_of_remove(list@, i as int, *k);
                }
                list.remove(i);
            },
            None => {
                proof {
                    lemma_map_of_absent(list@, *k);
                    assert(map_of(list@) =~= map_of(list@).remove(*k));
                }
                return;
            },
        }
    }
}

/// A store that keeps its records in memory.
pub struct MemoryStore<V> {
    branch_list: Vec<(BranchKey, BranchNode)>,
    leaf_list: Vec<(H256, V)>,
}

impl<V: Copy> MemoryStore<V> {
    /// A store without records.
    pub fn new() -> (store: Self)
        ensures
            store.branches() == Map::<BranchKey, BranchNode>::empty(),
            store.leaves() == Map::<H256, V>::empty(),
            store.reliable(),
    {
        MemoryStore { branch_list: Vec::new(), leaf_list: Vec::new() }
    }
}

impl<V: Copy> Store<V> for MemoryStore<V> {
    /// A store in memory never fails.
    open spec fn reliable(&self) -> bool {
        true
    }

    closed spec fn branches(&self) -> Map<BranchKey, BranchNode> {
        map_of(self.branch_list@)
    }

    closed spec fn leaves(&self) -> Map<H256, V> {
        map_of(self.leaf_list@)
    }

    fn get_branch(&self, branch_key: &BranchKey) -> (r: Result<Option<BranchNode>, Error>) {
        Ok(fetch(&self.branch_list, branch_key))
    }

    fn get_leaf(&self, leaf_key: &H256) -> (r: Result<Option<V>, Error>) {
        Ok(fetch(&self.leaf_list, leaf_key))
    }

    fn prefetch_branches(&self, branch_keys: &Vec<BranchKey>) -> (r: Result<
        Vec<Option<BranchNode>>,
        Error,
    >) {
        let mut found: Vec<Option<BranchNode>> = Vec::new();
        let mut i: usize = 0;
        while i < branch_keys.len()
            invariant
                i <= branch_keys.len(),
                found@.len() == i,
                forall|j: int|
                    0 <= j < i ==> #[trigger] found@[j] == lookup(
                        self.branches(),
                        branch_keys@[j],
                    ),
            decreases branch_keys.len() - i,
        {
            found.push(fetch(&self.branch_list, &branch_keys[i]));
            i += 1;
        }
        Ok(found)
    }

    fn insert_branch(&mut self, node_key: BranchKey, branch: BranchNode) -> (r: Result<(), Error>) {
        put(&mut self.branch_list, node_key, branch);
        Ok(())
    }

    fn insert_leaf(&mut self, leaf_key: H256, leaf: V) -> (r: Result<(), Error>) {
        put(&mut self.leaf_list, leaf_key, leaf);
        Ok(())
    }

    fn remove_branch(&mut self, node_key: &BranchKey) -> (r: Result<(), Error>) {
        take_out(&mut self.branch_list, node_key);
        Ok(())
    }

    fn remove_leaf(&mut self, leaf_key: &H256) -> (r: Result<(), Error>) {
        take_out(&mut self.leaf_list, leaf_key);
        Ok(())
    }
}

} // verus!
