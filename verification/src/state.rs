//! The table of opened trees and the rule that turns a tree's key into the
//! address it is loaded from.
//!
//! The table decides; it does not load. A request is answered either with the
//! tree that is already there, or with the key and address to load, after
//! which the caller hands the loaded tree back for insertion.

use vstd::prelude::*;
use vstd::string::*;
use crate::error::PointsViewerError;

verus! {

/// Where the trees are kept: what stands before and after a key in an address.
#[derive(Clone)]
pub struct OctreeKeyParams {
    pub prefix: String,
    pub suffix: String,
}

/// Whether `s` ends in a separator.
pub open spec fn spec_ends_with_separator(s: Seq<char>) -> bool {
    s.len() > 0 && s.last() == '/'
}

/// Whether `s` starts with a separator.
pub open spec fn spec_starts_with_separator(s: Seq<char>) -> bool {
    s.len() > 0 && s.first() == '/'
}

/// The separator to put between `prefix` and `key`: none if the prefix ends
/// in one or the key starts with one.
pub open spec fn spec_join_after(prefix: Seq<char>, key: Seq<char>) -> Seq<char> {
    if spec_ends_with_separator(prefix) || spec_starts_with_separator(key) {
        Seq::empty()
    } else {
        seq!['/']
    }
}

/// The separator to put between `key` and `suffix`: none if the key ends in
/// one or the suffix starts with one.
pub open spec fn spec_join_before(key: Seq<char>, suffix: Seq<char>) -> Seq<char> {
    if spec_ends_with_separator(key) || spec_starts_with_separator(suffix) {
        Seq::empty()
    } else {
        seq!['/']
    }
}

/// What is kept of `prefix`: all of it, but for its last separator where the
/// key brings one of its own.
pub open spec fn spec_kept_prefix(prefix: Seq<char>, key: Seq<char>) -> Seq<char> {
    if spec_ends_with_separator(prefix) && spec_starts_with_separator(key) {
        prefix.drop_last()
    } else {
        prefix
    }
}

/// What is kept of `suffix`: all of it, but for its first separator where
/// the key brings one of its own.
pub open spec fn spec_kept_suffix(key: Seq<char>, suffix: Seq<char>) -> Seq<char> {
    if spec_ends_with_separator(key) && spec_starts_with_separator(suffix) {
        suffix.drop_first()
    } else {
        suffix
    }
}

/// Prefix, key and suffix with one separator at each joint: one is put in
/// where neither side has one, and one of the two is dropped where both
/// sides have one. The key itself is never changed.
pub open spec fn spec_address(prefix: Seq<char>, key: Seq<char>, suffix: Seq<char>) -> Seq<char> {
    spec_kept_prefix(prefix, key) + spec_join_after(prefix, key) + key + spec_join_before(key, suffix)
        + spec_kept_suffix(key, suffix)
}

/// What stands before the key in an address.
pub open spec fn spec_head(prefix: Seq<char>, key: Seq<char>) -> Seq<char> {
    spec_kept_prefix(prefix, key) + spec_join_after(prefix, key)
}

/// What stands after the key in an address.
pub open spec fn spec_tail(key: Seq<char>, suffix: Seq<char>) -> Seq<char> {
    spec_join_before(key, suffix) + spec_kept_suffix(key, suffix)
}

/// The key that stands for the tree named at start-up.
pub open spec fn spec_alias() -> Seq<char> {
    seq!['i', 'n', 'i', 't', '_', 'i', 'd']
}

/// An address is head, key and tail. At each joint there is a separator:
/// the head ends in one or the key starts with one, and the key ends in one
/// or the tail starts with one. There are not two, unless the prefix itself
/// ends in two or the suffix itself starts with two.
pub proof fn lemma_address_separators(prefix: Seq<char>, key: Seq<char>, suffix: Seq<char>)
    ensures
        spec_address(prefix, key, suffix) == spec_head(prefix, key) + key + spec_tail(key, suffix),
        spec_ends_with_separator(spec_head(prefix, key)) || spec_starts_with_separator(key),
        spec_ends_with_separator(key) || spec_starts_with_separator(spec_tail(key, suffix)),
        spec_ends_with_separator(spec_head(prefix, key)) && spec_starts_with_separator(key)
            ==> spec_ends_with_separator(prefix) && spec_ends_with_separator(prefix.drop_last()),
        spec_ends_with_separator(key) && spec_starts_with_separator(spec_tail(key, suffix))
            ==> spec_starts_with_separator(suffix) && spec_starts_with_separator(suffix.drop_first()),
{
    assert(spec_address(prefix, key, suffix) =~= spec_head(prefix, key) + key + spec_tail(key, suffix));
    assert(prefix + Seq::<char>::empty() =~= prefix);
    assert(prefix.drop_last() + Seq::<char>::empty() =~= prefix.drop_last());
    assert(Seq::<char>::empty() + suffix =~= suffix);
    assert(Seq::<char>::empty() + suffix.drop_first() =~= suffix.drop_first());
}

/// Whether `s` ends in a separator.
fn ends_with_separator(s: &str) -> (r: bool)
    ensures
        r == spec_ends_with_separator(s@),
{
    let n = s.unicode_len();
    n > 0 && s.get_char(n - 1) == '/'
}

/// Whether `s` starts with a separator.
fn starts_with_separator(s: &str) -> (r: bool)
    ensures
        r == spec_starts_with_separator(s@),
{
    let n = s.unicode_len();
    n > 0 && s.get_char(0) == '/'
}

impl OctreeKeyParams {
    /// The address of the tree with the given key: prefix, key and suffix
    /// with one separator at each joint. Where neither side of a joint has
    /// one, it is put in; where both have one, the prefix or suffix gives
    /// its own up.
    pub fn get_octree_address(&self, octree_key: &str) -> (r: Result<String, PointsViewerError>)
        ensures
            r is Ok,
            r.unwrap()@ == spec_address(self.prefix@, octree_key@, self.suffix@),
    {
        let prefix = self.prefix.as_str();
        let suffix = self.suffix.as_str();
        let prefix_ends = ends_with_separator(prefix);
        let key_starts = starts_with_separator(octree_key);
        let key_ends = ends_with_separator(octree_key);
        let suffix_starts = starts_with_separator(suffix);
        proof {
            reveal_strlit("/");
            assert("/"@ =~= seq!['/']);
        }
        let mut address = String::new();
        if prefix_ends && key_starts {
            let n = prefix.unicode_len();
            address.append(prefix.substring_char(0, n - 1));
        } else {
            address.append(prefix);
            if !prefix_ends && !key_starts {
                address.append("/");
            }
        }
        assert(address@ =~= spec_head(self.prefix@, octree_key@));
        address.append(octree_key);
        if key_ends && suffix_starts {
            let n = suffix.unicode_len();
            address.append(suffix.substring_char(1, n));
        } else {
            if !key_ends && !suffix_starts {
                address.append("/");
            }
            address.append(suffix);
        }
        assert(address@ =~= spec_address(self.prefix@, octree_key@, self.suffix@));
        Ok(address)
    }
}

/// The opened trees by key, and what is needed to open more.
pub struct AppState<T> {
    /// The opened trees, each key once. The table is a list searched from
    /// the front, so that what it holds under a text key is stated by its
    /// entries alone and not by how a key is hashed.
    pub octree_map: Vec<(String, T)>,
    /// Where the trees are kept.
    pub key_params: OctreeKeyParams,
    /// The key of the tree named at start-up.
    pub init_octree_id: String,
}

/// The answer to a request for a tree.
pub enum LoadStep<'a, T> {
    /// The tree is in the table.
    Cached(&'a T),
    /// The tree is not in the table: load it from `address` and insert it under `key`.
    Load { key: String, address: String },
}

impl<T> AppState<T> {
    /// No key occurs twice in the table.
    pub open spec fn wf(&self) -> bool {
        forall|i: int, j: int|
            0 <= i < j < self.octree_map@.len() ==> (#[trigger] self.octree_map@[i]).0@ != (
            #[trigger] self.octree_map@[j]).0@
    }

    /// The table holds a tree under `key`.
    pub open spec fn spec_has(&self, key: Seq<char>) -> bool {
        exists|i: int| 0 <= i < self.octree_map@.len() && (#[trigger] self.octree_map@[i]).0@ == key
    }

    /// The tree that the table holds under `key`.
    pub open spec fn spec_get(&self, key: Seq<char>) -> T {
        let i = choose|i: int| 0 <= i < self.octree_map@.len() && (#[trigger] self.octree_map@[i]).0@ == key;
        self.octree_map@[i].1
    }

    /// The table as a map from key to tree.
    pub open spec fn view(&self) -> Map<Seq<char>, T> {
        Map::new(|key: Seq<char>| self.spec_has(key), |key: Seq<char>| self.spec_get(key))
    }

    /// The key that a request means: the start-up key for the alias, else the
    /// requested key itself. The result is not resolved again.
    pub open spec fn spec_resolve(&self, octree_id: Seq<char>) -> Seq<char> {
        if octree_id == spec_alias() {
            self.init_octree_id@
        } else {
            octree_id
        }
    }

    /// An empty table. `map_size` is how many trees to make room for.
    pub fn new(map_size: usize, prefix: String, suffix: String, octree_id: String) -> (r: Self)
        ensures
            r.wf(),
            r@ == Map::<Seq<char>, T>::empty(),
            r.key_params.prefix@ == prefix@,
            r.key_params.suffix@ == suffix@,
            r.init_octree_id@ == octree_id@,
    {
        let r = AppState {
            octree_map: Vec::with_capacity(map_size),
            key_params: OctreeKeyParams { prefix, suffix },
            init_octree_id: octree_id,
        };
        assert(r@ =~= Map::<Seq<char>, T>::empty());
        r
    }

    /// The key that a request means.
    pub fn resolve_key(&self, octree_id: &str) -> (r: String)
        ensures
            r@ == self.spec_resolve(octree_id@),
    {
        let key = String::from_str(octree_id);
        let alias = String::from_str("init_id");
        proof {
            reveal_strlit("init_id");
            assert("init_id"@ =~= spec_alias());
        }
        if key == alias {
            self.init_octree_id.clone()
        } else {
            key
        }
    }

    /// Where `key` stands in the table, if it does.
    fn position(&self, key: &String) -> (r: Option<usize>)
        ensures
            match r {
                Some(i) => i < self.octree_map@.len() && self.octree_map@[i as int].0@ == key@,
                None => !self.spec_has(key@),
            },
    {
        let mut i: usize = 0;
        while i < self.octree_map.len()
            invariant
                i <= self.octree_map@.len(),
                forall|j: int| 0 <= j < i ==> (#[trigger] self.octree_map@[j]).0@ != key@,
            decreases self.octree_map@.len() - i,
        {
            if self.octree_map[i].0 == *key {
                return Some(i);
            }
            i = i + 1;
        }
        None
    }

    /// Answers a request for a tree. The alias is resolved first, once. If
    /// the table holds the resolved key, the answer is that tree; else it is
    /// the resolved key with the address to load it from. The table is not
    /// changed.
    pub fn load_octree(&self, octree_id: &str) -> (r: Result<LoadStep<'_, T>, PointsViewerError>)
        requires
            self.wf(),
        ensures
            r is Ok,
            match r.unwrap() {
                LoadStep::Cached(tree) => {
                    &&& self@.contains_key(self.spec_resolve(octree_id@))
                    &&& *tree == self@[self.spec_resolve(octree_id@)]
                },
                LoadStep::Load { key, address } => {
                    &&& !self@.contains_key(self.spec_resolve(octree_id@))
                    &&& key@ == self.spec_resolve(octree_id@)
                    &&& address@ == spec_address(self.key_params.prefix@, key@, self.key_params.suffix@)
                },
            },
    {
        let key = self.resolve_key(octree_id);
        match self.position(&key) {
            Some(i) => {
                assert(self.spec_has(key@));
                Ok(LoadStep::Cached(&self.octree_map[i].1))
            },
            None => {
                match self.key_params.get_octree_address(key.as_str()) {
                    Ok(address) => Ok(LoadStep::Load { key, address }),
                    Err(e) => Err(e),
                }
            },
        }
    }

    /// Puts a loaded tree into the table under `key`. A tree that was there
    /// under that key is replaced; nothing else changes.
    pub fn insert_octree(&mut self, key: String, tree: T)
        requires
            old(self).wf(),
        ensures
            final(self).wf(),
            final(self)@ == old(self)@.insert(key@, tree),
            final(self).key_params == old(self).key_params,
            final(self).init_octree_id == old(self).init_octree_id,
    {
        let ghost k = key@;
        match self.position(&key) {
            Some(i) => {
                self.octree_map.set(i, (key, tree));
            },
            None => {
                self.octree_map.push((key, tree));
            },
        }
        proof {
            let before = old(self);
            let after = self;
            assert forall|q: Seq<char>| after.spec_has(q) == (q == k || before.spec_has(q)) by {
                if after.spec_has(q) {
                    let i = choose|i: int| 0 <= i < after.octree_map@.len() && (#[trigger] after.octree_map@[i]).0@ == q;
                    if q != k {
                        assert(before.octree_map@[i].0@ == q);
                    }
                }
                if before.spec_has(q) && q != k {
                    let i = choose|i: int|
                        0 <= i < before.octree_map@.len() && (#[trigger] before.octree_map@[i]).0@ == q;
                    assert(after.octree_map@[i].0@ == q);
                }
                if q == k {
                    let i = if before.spec_has(k) {
                        choose|i: int| 0 <= i < before.octree_map@.len() && (#[trigger] before.octree_map@[i]).0@ == k
                    } else {
                        before.octree_map@.len() as int
                    };
                    assert(after.octree_map@[i].0@ == k);
                }
            }
            assert forall|q: Seq<char>| after.spec_has(q) implies after.spec_get(q) == (if q == k {
                tree
            } else {
                before.spec_get(q)
            }) by {
                let i = choose|i: int| 0 <= i < after.octree_map@.len() && (#[trigger] after.octree_map@[i]).0@ == q;
                if q != k {
                    let j = choose|j: int|
                        0 <= j < before.octree_map@.len() && (#[trigger] before.octree_map@[j]).0@ == q;
                    assert(before.octree_map@[i].0@ == q);
                    assert(after.octree_map@[j].0@ == q);
                    assert(i == j);
                } else {
                    let j = if before.spec_has(k) {
                        choose|j: int| 0 <= j < before.octree_map@.len() && (#[trigger] before.octree_map@[j]).0@ == k
                    } else {
                        before.octree_map@.len() as int
                    };
                    assert(after.octree_map@[j].0@ == k);
                    assert(i == j);
                }
            }
            assert(after@ =~= before@.insert(k, tree));
        }
    }
}

/// A request for the alias is answered as a request for the start-up key
/// itself: both mean the same key, and so the same tree or the same address.
pub proof fn lemma_alias_is_default<T>(state: AppState<T>)
    ensures
        state.spec_resolve(spec_alias()) == state.init_octree_id@,
        state.spec_resolve(spec_alias()) == state.spec_resolve(state.init_octree_id@),
        state@.contains_key(state.spec_resolve(spec_alias())) == state@.contains_key(
            state.spec_resolve(state.init_octree_id@),
        ),
        state@[state.spec_resolve(spec_alias())] == state@[state.spec_resolve(state.init_octree_id@)],
{
}

} // verus!
