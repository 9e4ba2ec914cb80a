//! A set of paths, told apart by their components.

use std::collections::HashMap;
use vstd::prelude::*;

use crate::path::{same_components, texts};

verus! {

/// Where the fingerprint of an empty text starts.
pub const FINGERPRINT_START: u64 = 0xcbf29ce484222325;

/// What a fingerprint is multiplied by for each byte.
pub const FINGERPRINT_FACTOR: u64 = 0x100000001b3;

/// The fingerprint `h` with one more byte mixed in.
pub open spec fn mixed(h: u64, byte: u8) -> u64 {
    (h ^ (byte as u64)).wrapping_mul(FINGERPRINT_FACTOR)
}

/// The fingerprint `h` with a whole text mixed in.
pub open spec fn mixed_text(h: u64, text: Seq<u8>) -> u64
    decreases text.len(),
{
    if text.len() == 0 {
        h
    } else {
        mixed(mixed_text(h, text.drop_last()), text.last())
    }
}

/// The fingerprint of a list of components.
pub open spec fn fingerprint(list: Seq<Seq<u8>>) -> u64
    decreases list.len(),
{
    if list.len() == 0 {
        FINGERPRINT_START
    } else {
        mixed(mixed_text(fingerprint(list.drop_last()), list.last()), 0)
    }
}

/// Whether `path` stands in a bucket.
pub open spec fn listed(bucket: Seq<Vec<Vec<u8>>>, path: Seq<Seq<u8>>) -> bool {
    exists|i: int| 0 <= i < bucket.len() && texts(#[trigger] bucket[i]@) == path
}

fn mix(h: u64, byte: u8) -> (res: u64)
    ensures
        res == mixed(h, byte),
{
    (h ^ (byte as u64)).wrapping_mul(FINGERPRINT_FACTOR)
}

fn mix_text(h: u64, text: &Vec<u8>) -> (res: u64)
    ensures
        res == mixed_text(h, text@),
{
    let mut res: u64 = h;
    let mut i: usize = 0;
    while i < text.len()
        invariant
            i <= text.len(),
            res == mixed_text(h, text@.take(i as int)),
        decreases text.len() - i,
    {
        res = mix(res, text[i]);
        assert(text@.take(i + 1).drop_last() =~= text@.take(i as int));
        i = i + 1;
    }
    assert(text@.take(i as int) =~= text@);
    res
}

fn fingerprint_of(list: &Vec<Vec<u8>>) -> (res: u64)
    ensures
        res == fingerprint(texts(list@)),
{
    let ghost all = texts(list@);
    let mut res: u64 = FINGERPRINT_START;
    let mut i: usize = 0;
    while i < list.len()
        invariant
            i <= list.len(),
            all == texts(list@),
            res == fingerprint(all.take(i as int)),
        decreases list.len() - i,
    {
        res = mix(mix_text(res, &list[i]), 0);
        assert(all.take(i + 1).drop_last() =~= all.take(i as int));
        assert(all.take(i + 1).last() == all[i as int]);
        i = i + 1;
    }
    assert(all.take(i as int) =~= all);
    res
}

/// A set of component lists, kept in buckets by fingerprint.
pub struct PathSet {
    buckets: HashMap<u64, Vec<Vec<Vec<u8>>>>,
}

impl View for PathSet {
    type V = Set<Seq<Seq<u8>>>;

    closed spec fn view(&self) -> Set<Seq<Seq<u8>>> {
        Set::new(
            |path: Seq<Seq<u8>>|
                self.buckets@.contains_key(fingerprint(path)) && listed(
                    self.buckets@[fingerprint(path)]@,
                    path,
                ),
        )
    }
}

impl PathSet {
    /// The empty set.
    pub fn new() -> (res: PathSet)
        ensures
            res@ == Set::<Seq<Seq<u8>>>::empty(),
    {
        let res = PathSet { buckets: HashMap::new() };
        assert(res@ =~= Set::<Seq<Seq<u8>>>::empty());
        res
    }

    /// Whether the path with the given components is in the set.
    pub fn contains(&self, path: &Vec<Vec<u8>>) -> (res: bool)
        ensures
            res == self@.contains(texts(path@)),
    {
        broadcast use vstd::std_specs::hash::group_hash_axioms;

        let key: u64 = fingerprint_of(path);
        match self.buckets.get(&key) {
            None => false,
            Some(bucket) => {
                let mut i: usize = 0;
                while i < bucket.len()
                    invariant
                        i <= bucket.len(),
                        key == fingerprint(texts(path@)),
                        self.buckets@.contains_key(key),
                        self.buckets@[key] == *bucket,
                        forall|j: int| 0 <= j < i ==> texts(#[trigger] bucket@[j]@) != texts(path@),
                    decreases bucket.len() - i,
                {
                    if same_components(&bucket[i], path) {
                        assert(texts(bucket@[i as int]@) == texts(path@));
                        return true;
                    }
                    i = i + 1;
                }
                false
            },
        }
    }

    /// Adds the path with the given components.
    pub fn insert(&mut self, path: Vec<Vec<u8>>)
        ensures
            final(self)@ == old(self)@.insert(texts(path@)),
    {
        broadcast use vstd::std_specs::hash::group_hash_axioms;

        let key: u64 = fingerprint_of(&path);
        let ghost before = self.buckets@;
        let ghost list = texts(path@);
        let mut bucket: Vec<Vec<Vec<u8>>> = match self.buckets.remove(&key) {
            Some(bucket) => bucket,
            None => Vec::new(),
        };
        let ghost was = bucket@;
        bucket.push(path);
        let ghost now = bucket@;
        self.buckets.insert(key, bucket);
        proof {
            let after = self.buckets@;
            assert(texts(now[was.len() as int]@) == list);
            assert forall|p: Seq<Seq<u8>>| old(self)@.insert(list).contains(p) <==> self@.contains(
                p,
            ) by {
                if fingerprint(p) == key {
                    assert(after[key]@ == now);
                    if listed(was, p) {
                        let i = choose|i: int| 0 <= i < was.len() && texts(#[trigger] was[i]@) == p;
                        assert(now[i] == was[i]);
                    }
                    if listed(now, p) {
                        let i = choose|i: int| 0 <= i < now.len() && texts(#[trigger] now[i]@) == p;
                        if i < was.len() {
                            assert(now[i] == was[i]);
                        }
                    }
                } else {
                    let print = fingerprint(p);
                    assert(after.contains_key(print) == before.contains_key(print));
                }
            }
            assert(self@ =~= old(self)@.insert(list));
        }
    }
}

} // verus!
