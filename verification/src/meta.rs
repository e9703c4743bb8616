//! The description of one stored quadtree: which nodes hold data, the tile
//! size and the deepest level.

use vstd::prelude::*;
use fnv::FnvHashSet;
use crate::error::PointsViewerError;
use crate::node_id::NodeId;

verus! {

/// The version that is written today. The one before it is still read.
pub const CURRENT_VERSION: i32 = 3;

/// `fnv::FnvHasher`: the hasher of the node set. Nothing is said of it; it
/// only occurs in the set's type.
#[verifier::external_type_specification]
#[verifier::external_body]
pub struct ExFnvHasher(fnv::FnvHasher);

/// `std::hash::BuildHasherDefault`: makes the set's hashers. Nothing is said
/// of it; it only occurs in the set's type.
#[verifier::external_type_specification]
#[verifier::external_body]
#[verifier::reject_recursive_types(H)]
pub struct ExBuildHasherDefault<H>(std::hash::BuildHasherDefault<H>);

/// The (level, index) pairs that a set holds. The set is a `HashSet` of std
/// with the hasher of `fnv`; what its methods do to these pairs is stated
/// below and taken on trust.
pub uninterp spec fn node_keys(set: FnvHashSet<(u8, u64)>) -> Set<(u8, u64)>;

/// `FnvHashSet::default`: a new set holds nothing.
#[verifier::external_body]
fn key_set_new() -> (set: FnvHashSet<(u8, u64)>)
    ensures
        node_keys(set) == Set::<(u8, u64)>::empty(),
{
    FnvHashSet::default()
}

/// `HashSet::insert`: afterwards the set holds what it held, and `key`.
#[verifier::external_body]
fn key_set_insert(set: &mut FnvHashSet<(u8, u64)>, key: (u8, u64))
    ensures
        node_keys(*final(set)) == node_keys(*old(set)).insert(key),
{
    set.insert(key);
}

/// `HashSet::contains`: whether the set holds `key`.
#[verifier::external_body]
fn key_set_contains(set: &FnvHashSet<(u8, u64)>, key: (u8, u64)) -> (found: bool)
    ensures
        found == node_keys(*set).contains(key),
{
    set.contains(&key)
}

/// `HashSet::iter`, collected: every pair of the set once, in no stated order.
#[verifier::external_body]
fn key_set_items(set: &FnvHashSet<(u8, u64)>) -> (items: Vec<(u8, u64)>)
    ensures
        items@.no_duplicates(),
        items@.to_set() == node_keys(*set),
{
    set.iter().copied().collect()
}

/// `HashSet::clone`: the copy holds the same pairs.
#[verifier::external_body]
fn key_set_clone(set: &FnvHashSet<(u8, u64)>) -> (copy: FnvHashSet<(u8, u64)>)
    ensures
        node_keys(copy) == node_keys(*set),
{
    set.clone()
}

/// What is known of one stored quadtree. The tree's own extent is the unit
/// square of the grid in which node rectangles are measured.
#[derive(Debug)]
pub struct Meta {
    pub nodes: FnvHashSet<(u8, u64)>,
    pub tile_size: u32,
    pub deepest_level: u8,
}

/// The pairs of `entries`, each level cut to eight bits.
pub open spec fn spec_keys_of(entries: Seq<(u32, u64)>) -> Set<(u8, u64)> {
    Set::new(
        |key: (u8, u64)|
            exists|i: int|
                0 <= i < entries.len() && key == ((#[trigger] entries[i]).0 as u8, entries[i].1),
    )
}

/// Whether a pair names a valid node that is not deeper than `deepest_level`.
pub open spec fn spec_key_valid(key: (u8, u64), deepest_level: u8) -> bool {
    key.0 <= deepest_level && (NodeId { level: key.0, index: key.1 }).wf()
}

/// Whether a stored version can be read: the current one and the one before it.
pub open spec fn spec_version_supported(version: i32) -> bool {
    version == CURRENT_VERSION || version == CURRENT_VERSION - 1
}

impl Clone for Meta {
    /// A second description with the same nodes, tile size and deepest level.
    fn clone(&self) -> (r: Self)
        ensures
            node_keys(r.nodes) == node_keys(self.nodes),
            r.tile_size == self.tile_size,
            r.deepest_level == self.deepest_level,
    {
        Meta { nodes: key_set_clone(&self.nodes), tile_size: self.tile_size, deepest_level: self.deepest_level }
    }
}

impl Meta {
    /// The nodes that hold data.
    pub open spec fn node_set(&self) -> Set<NodeId> {
        Set::new(|id: NodeId| node_keys(self.nodes).contains((id.level, id.index)))
    }

    /// Every node that holds data is a valid node, not deeper than the
    /// deepest level.
    pub open spec fn wf(&self) -> bool {
        forall|key: (u8, u64)| #[trigger] node_keys(self.nodes).contains(key) ==> spec_key_valid(key, self.deepest_level)
    }

    /// Builds the description from the fields of a stored record: its
    /// version, its (level, index) pairs, the tile size and the deepest
    /// level. A version other than the current one or the one before it is
    /// refused. The pairs are taken as they are: the description is well
    /// formed exactly if each of them is a valid node within the deepest level.
    pub fn from_proto(version: i32, entries: &Vec<(u32, u64)>, tile_size: u32, deepest_level: u32) -> (r: Result<
        Meta,
        PointsViewerError,
    >)
        ensures
            !spec_version_supported(version) ==> r == Err::<Meta, PointsViewerError>(
                PointsViewerError::UnsupportedVersion,
            ),
            spec_version_supported(version) ==> r is Ok && node_keys(r.unwrap().nodes) == spec_keys_of(entries@)
                && r.unwrap().tile_size == tile_size && r.unwrap().deepest_level == deepest_level as u8,
            spec_version_supported(version) ==> (r.unwrap().wf() <==> forall|i: int|
                0 <= i < entries@.len() ==> spec_key_valid(
                    ((#[trigger] entries@[i]).0 as u8, entries@[i].1),
                    deepest_level as u8,
                )),
    {
        if version != CURRENT_VERSION && version != CURRENT_VERSION - 1 {
            return Err(PointsViewerError::UnsupportedVersion);
        }
        let mut nodes = key_set_new();
        let mut i: usize = 0;
        while i < entries.len()
            invariant
                i <= entries.len(),
                node_keys(nodes) == spec_keys_of(entries@.subrange(0, i as int)),
            decreases entries.len() - i,
        {
            let ghost before = entries@.subrange(0, i as int);
            let ghost after = entries@.subrange(0, i + 1);
            let key = (#[verifier::truncate] (entries[i].0 as u8), entries[i].1);
            key_set_insert(&mut nodes, key);
            proof {
                assert forall|k: (u8, u64)| spec_keys_of(after).contains(k) == spec_keys_of(before).insert(
                    key,
                ).contains(k) by {
                    if spec_keys_of(after).contains(k) {
                        let j = choose|j: int|
                            0 <= j < after.len() && k == ((#[trigger] after[j]).0 as u8, after[j].1);
                        if j < i {
                            assert(before[j] == after[j]);
                        }
                    }
                    if spec_keys_of(before).contains(k) {
                        let j = choose|j: int|
                            0 <= j < before.len() && k == ((#[trigger] before[j]).0 as u8, before[j].1);
                        assert(after[j] == before[j]);
                    }
                    if k == key {
                        assert(after[i as int] == entries@[i as int]);
                    }
                }
                assert(spec_keys_of(after) =~= spec_keys_of(before).insert(key));
            }
            i = i + 1;
        }
        proof {
            assert(entries@.subrange(0, i as int) =~= entries@);
            assert(spec_keys_of(Seq::<(u32, u64)>::empty()) =~= Set::<(u8, u64)>::empty());
        }
        let meta = Meta { nodes, tile_size, deepest_level: #[verifier::truncate] (deepest_level as u8) };
        proof {
            if meta.wf() {
                assert forall|i: int| 0 <= i < entries@.len() implies spec_key_valid(
                    ((#[trigger] entries@[i]).0 as u8, entries@[i].1),
                    deepest_level as u8,
                ) by {
                    let key = (entries@[i].0 as u8, entries@[i].1);
                    assert(spec_keys_of(entries@).contains(key));
                    assert(node_keys(meta.nodes).contains(key));
                }
            }
        }
        Ok(meta)
    }

    /// The fields of the record to store: the current version, every node
    /// once as a (level, index) pair, the tile size and the deepest level.
    pub fn to_proto(&self) -> (r: (i32, Vec<(u32, u64)>, u32, u32))
        ensures
            r.0 == CURRENT_VERSION,
            r.2 == self.tile_size,
            r.3 == self.deepest_level,
            r.1@.no_duplicates(),
            spec_keys_of(r.1@) == node_keys(self.nodes),
            forall|i: int| 0 <= i < r.1@.len() ==> (#[trigger] r.1@[i]).0 <= u8::MAX,
    {
        let items = key_set_items(&self.nodes);
        let mut entries: Vec<(u32, u64)> = Vec::new();
        let mut i: usize = 0;
        while i < items.len()
            invariant
                i <= items.len(),
                entries@.len() == i,
                forall|j: int| 0 <= j < i ==> #[trigger] entries@[j] == (items@[j].0 as u32, items@[j].1),
            decreases items.len() - i,
        {
            entries.push((items[i].0 as u32, items[i].1));
            i = i + 1;
        }
        proof {
            assert forall|a: int, b: int| 0 <= a < entries@.len() && 0 <= b < entries@.len() && a != b implies entries@[a]
                != entries@[b] by {
                assert(items@[a] != items@[b]);
            }
            assert forall|k: (u8, u64)| spec_keys_of(entries@).contains(k) == items@.to_set().contains(k) by {
                if spec_keys_of(entries@).contains(k) {
                    let j = choose|j: int|
                        0 <= j < entries@.len() && k == ((#[trigger] entries@[j]).0 as u8, entries@[j].1);
                    assert(items@[j] == k);
                }
                if items@.to_set().contains(k) {
                    let j = choose|j: int| 0 <= j < items@.len() && items@[j] == k;
                    assert(entries@[j] == (k.0 as u32, k.1));
                }
            }
            assert(spec_keys_of(entries@) =~= items@.to_set());
        }
        (CURRENT_VERSION, entries, self.tile_size, self.deepest_level as u32)
    }

    /// Whether `id` holds data.
    pub fn contains(&self, id: &NodeId) -> (found: bool)
        ensures
            found == self.node_set().contains(*id),
    {
        key_set_contains(&self.nodes, (id.level, id.index))
    }
}

} // verus!
