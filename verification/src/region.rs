//! The parts of a convex region that are not arithmetic on coordinates: how
//! the eight corners of a box-like solid give its edges and faces, how the
//! outcome of the axis tests is read, and how large the map is at a zoom level.

use vstd::prelude::*;
use vstd::arithmetic::power2::{pow2, lemma2_to64, lemma_pow2_unfold, lemma_pow2_strictly_increases};

verus! {

/// How a region lies to another solid: around it (or within it), partly
/// over it, or apart from it.
#[derive(Clone, Copy, Debug, PartialEq, Eq, Structural)]
pub enum Relation {
    In,
    Cross,
    Out,
}

/// Edge length of one map tile, in pixels.
pub const TILE_SIZE: u32 = 256;

/// The deepest zoom level of the map.
pub const MAX_ZOOM: u8 = 23;

/// Lower end of the elevations a map rectangle is extruded over, in metres:
/// below the lowest land on Earth.
pub const MIN_ELEVATION_M: i32 = -1000;

/// Upper end of the elevations a map rectangle is extruded over, in metres:
/// above the highest summit.
pub const MAX_ELEVATION_M: i32 = 9000;

/// The corners that each of the twelve edges runs between, as (from, to):
/// the lower ring, the upper ring, then the four uprights.
pub open spec fn spec_edge_ends() -> Seq<(usize, usize)> {
    seq![
        (0, 1),
        (1, 2),
        (2, 3),
        (3, 0),
        (4, 5),
        (5, 6),
        (6, 7),
        (7, 4),
        (0, 4),
        (1, 5),
        (2, 6),
        (3, 7),
    ]
}

/// The two edges whose cross product is the normal of each of the six
/// faces: the four sides, then the lower and the upper face. Which way a
/// normal points along its line is not fixed by this: a corner is tested
/// against the region's whole extent along the normal, at both ends.
pub open spec fn spec_face_edges() -> Seq<(usize, usize)> {
    seq![(0, 8), (1, 9), (2, 10), (3, 11), (1, 0), (5, 4)]
}

/// The side of the map at zoom level `zoom`, in pixels: the tile size
/// doubled once per level. None beyond `MAX_ZOOM`.
pub open spec fn spec_map_size(zoom: u8) -> Option<u32> {
    if zoom <= MAX_ZOOM {
        Some((TILE_SIZE * pow2(zoom as nat)) as u32)
    } else {
        None
    }
}

/// How two regions lie to each other, from the outcome of the tests: apart
/// if some axis separates them; else one in the other if either holds every
/// corner of the other; else partly over each other.
pub open spec fn spec_classify(separated: bool, encloses: bool, enclosed: bool) -> Relation {
    if separated {
        Relation::Out
    } else if encloses || enclosed {
        Relation::In
    } else {
        Relation::Cross
    }
}

/// The corners that edge `edge` (0 to 11) runs between.
pub fn edge_ends(edge: usize) -> (r: (usize, usize))
    requires
        edge < 12,
    ensures
        r == spec_edge_ends()[edge as int],
        r.0 < 8,
        r.1 < 8,
        r.0 != r.1,
{
    if edge < 4 {
        (edge, (edge + 1) % 4)
    } else if edge < 8 {
        (edge, 4 + (edge - 3) % 4)
    } else {
        (edge - 8, edge - 4)
    }
}

/// The two edges that span face `face` (0 to 5).
pub fn face_edges(face: usize) -> (r: (usize, usize))
    requires
        face < 6,
    ensures
        r == spec_face_edges()[face as int],
        r.0 < 12,
        r.1 < 12,
        r.0 != r.1,
{
    if face < 4 {
        (face, face + 8)
    } else if face == 4 {
        (1, 0)
    } else {
        (5, 4)
    }
}

/// The side of the map at zoom level `zoom`, in pixels.
pub fn map_size(zoom: u8) -> (r: Option<u32>)
    ensures
        r == spec_map_size(zoom),
        zoom <= MAX_ZOOM ==> r is Some && r.unwrap() == 256 * pow2(zoom as nat),
{
    if zoom > MAX_ZOOM {
        return None;
    }
    let mut size: u32 = TILE_SIZE;
    let mut i: u8 = 0;
    proof {
        lemma2_to64();
    }
    while i < zoom
        invariant
            i <= zoom <= MAX_ZOOM,
            size == 256 * pow2(i as nat),
        decreases zoom - i,
    {
        proof {
            lemma2_to64();
            lemma_pow2_unfold((i + 1) as nat);
            if i + 1 < 23 {
                lemma_pow2_strictly_increases((i + 1) as nat, 23);
            }
        }
        size = size * 2;
        i = i + 1;
    }
    Some(size)
}

/// Reads the outcome of the axis and corner tests.
pub fn classify(separated: bool, encloses: bool, enclosed: bool) -> (r: Relation)
    ensures
        r == spec_classify(separated, encloses, enclosed),
{
    if separated {
        Relation::Out
    } else if encloses || enclosed {
        Relation::In
    } else {
        Relation::Cross
    }
}

/// How many corners a solid has.
pub const CORNERS: usize = 8;

/// How many edges a region has.
pub const EDGES: usize = 12;

/// How many faces a region has.
pub const FACES: usize = 6;

/// A direction along which a region and another solid are compared: the
/// normal of one of the region's faces, the normal of one of the other
/// solid's faces, or the cross product of an edge of each.
#[derive(Clone, Copy, Debug, PartialEq, Eq, Structural)]
pub enum Axis {
    OwnFace(usize),
    OtherFace(usize),
    EdgePair(usize, usize),
}

/// What projecting both solids onto an axis shows. An axis is degenerate
/// when its two edges are close to parallel; it then decides nothing.
#[derive(Clone, Copy, Debug, PartialEq, Eq, Structural)]
pub enum Probe {
    Separated,
    Overlapping,
    Degenerate,
}

/// The axes that are tried against a solid with `other_faces` face normals
/// and `other_edges` edge directions.
pub open spec fn spec_candidate(axis: Axis, other_faces: usize, other_edges: usize) -> bool {
    match axis {
        Axis::OwnFace(i) => i < FACES,
        Axis::OtherFace(j) => j < other_faces,
        Axis::EdgePair(i, j) => i < EDGES && j < other_edges,
    }
}

/// `first` is tried before `second`: the region's faces come first, then
/// the other solid's faces, then the edge pairs row by row.
pub open spec fn spec_tried_before(first: Axis, second: Axis) -> bool {
    match (first, second) {
        (Axis::OwnFace(k), Axis::OwnFace(i)) => k < i,
        (Axis::OwnFace(_), _) => true,
        (Axis::OtherFace(k), Axis::OtherFace(j)) => k < j,
        (Axis::OtherFace(_), Axis::EdgePair(_, _)) => true,
        (Axis::EdgePair(k, l), Axis::EdgePair(i, j)) => k < i || (k == i && l < j),
        _ => false,
    }
}

/// The probe may find the solids separated along `axis`.
pub open spec fn spec_may_separate<F: Fn(Axis) -> Probe>(probe: F, axis: Axis) -> bool {
    probe.ensures((axis,), Probe::Separated)
}

/// The probe can only find the solids separated along `axis`.
pub open spec fn spec_must_separate<F: Fn(Axis) -> Probe>(probe: F, axis: Axis) -> bool {
    forall|p: Probe| #[trigger] probe.ensures((axis,), p) ==> p == Probe::Separated
}

/// The probe may find the solids not separated along `axis`.
pub open spec fn spec_may_overlap<F: Fn(Axis) -> Probe>(probe: F, axis: Axis) -> bool {
    exists|p: Probe| #[trigger] probe.ensures((axis,), p) && p != Probe::Separated
}

/// The test may find corner `corner` within the half-space of face `face`.
pub open spec fn spec_may_hold<G: Fn(usize, usize) -> bool>(holds: G, face: usize, corner: usize) -> bool {
    holds.ensures((face, corner), true)
}

/// The test may find corner `corner` outside the half-space of face `face`.
pub open spec fn spec_may_miss<G: Fn(usize, usize) -> bool>(holds: G, face: usize, corner: usize) -> bool {
    holds.ensures((face, corner), false)
}

/// Every corner may lie within every face's half-space.
pub open spec fn spec_may_hold_all<G: Fn(usize, usize) -> bool>(holds: G, faces: usize) -> bool {
    forall|face: usize, corner: usize| face < faces && corner < CORNERS ==> #[trigger] spec_may_hold(holds, face, corner)
}

/// Some corner may lie outside some face's half-space.
pub open spec fn spec_may_miss_one<G: Fn(usize, usize) -> bool>(holds: G, faces: usize) -> bool {
    exists|face: usize, corner: usize| face < faces && corner < CORNERS && #[trigger] spec_may_miss(holds, face, corner)
}

/// Looks for an axis along which the solids are separated. The region's
/// face normals are tried first, then the other solid's, then each pair of
/// edges; the search stops at the first axis that separates. If none is
/// returned, every candidate axis was tried and none separated.
pub fn find_separating_axis<F: Fn(Axis) -> Probe>(other_faces: usize, other_edges: usize, probe: &F) -> (r: Option<
    Axis,
>)
    requires
        forall|a: Axis| spec_candidate(a, other_faces, other_edges) ==> #[trigger] probe.requires((a,)),
    ensures
        match r {
            Some(a) => {
                &&& spec_candidate(a, other_faces, other_edges)
                &&& spec_may_separate(*probe, a)
                &&& forall|b: Axis|
                    spec_candidate(b, other_faces, other_edges) && spec_tried_before(b, a) ==> #[trigger] spec_may_overlap(
                        *probe,
                        b,
                    )
            },
            None => forall|a: Axis|
                spec_candidate(a, other_faces, other_edges) ==> #[trigger] spec_may_overlap(*probe, a),
        },
{
    let mut i: usize = 0;
    while i < FACES
        invariant
            i <= FACES,
            forall|a: Axis| spec_candidate(a, other_faces, other_edges) ==> #[trigger] probe.requires((a,)),
            forall|k: usize| k < i ==> #[trigger] spec_may_overlap(*probe, Axis::OwnFace(k)),
        decreases FACES - i,
    {
        let axis = Axis::OwnFace(i);
        assert(spec_candidate(axis, other_faces, other_edges));
        let found = probe(axis);
        if found == Probe::Separated {
            assert forall|b: Axis|
                spec_candidate(b, other_faces, other_edges) && spec_tried_before(
                    b,
                    axis,
                ) implies #[trigger] spec_may_overlap(*probe, b) by {
                match b {
                    Axis::OwnFace(k) => {
                        assert(spec_may_overlap(*probe, Axis::OwnFace(k)));
                    },
                    _ => {},
                }
            }
            return Some(axis);
        }
        i = i + 1;
    }
    let mut j: usize = 0;
    while j < other_faces
        invariant
            j <= other_faces,
            forall|a: Axis| spec_candidate(a, other_faces, other_edges) ==> #[trigger] probe.requires((a,)),
            forall|k: usize| k < FACES ==> #[trigger] spec_may_overlap(*probe, Axis::OwnFace(k)),
            forall|k: usize| k < j ==> #[trigger] spec_may_overlap(*probe, Axis::OtherFace(k)),
        decreases other_faces - j,
    {
        let axis = Axis::OtherFace(j);
        assert(spec_candidate(axis, other_faces, other_edges));
        let found = probe(axis);
        if found == Probe::Separated {
            assert forall|b: Axis|
                spec_candidate(b, other_faces, other_edges) && spec_tried_before(
                    b,
                    axis,
                ) implies #[trigger] spec_may_overlap(*probe, b) by {
                match b {
                    Axis::OwnFace(k) => {
                        assert(spec_may_overlap(*probe, Axis::OwnFace(k)));
                    },
                    Axis::OtherFace(k) => {
                        assert(spec_may_overlap(*probe, Axis::OtherFace(k)));
                    },
                    _ => {},
                }
            }
            return Some(axis);
        }
        j = j + 1;
    }
    let mut i: usize = 0;
    while i < EDGES
        invariant
            i <= EDGES,
            forall|a: Axis| spec_candidate(a, other_faces, other_edges) ==> #[trigger] probe.requires((a,)),
            forall|k: usize| k < FACES ==> #[trigger] spec_may_overlap(*probe, Axis::OwnFace(k)),
            forall|k: usize| k < other_faces ==> #[trigger] spec_may_overlap(*probe, Axis::OtherFace(k)),
            forall|k: usize, l: usize|
                k < i && l < other_edges ==> #[trigger] spec_may_overlap(*probe, Axis::EdgePair(k, l)),
        decreases EDGES - i,
    {
        let mut j: usize = 0;
        while j < other_edges
            invariant
                i < EDGES,
                j <= other_edges,
                forall|a: Axis| spec_candidate(a, other_faces, other_edges) ==> #[trigger] probe.requires((a,)),
                forall|k: usize| k < FACES ==> #[trigger] spec_may_overlap(*probe, Axis::OwnFace(k)),
                forall|k: usize| k < other_faces ==> #[trigger] spec_may_overlap(*probe, Axis::OtherFace(k)),
                forall|k: usize, l: usize|
                    k < i && l < other_edges ==> #[trigger] spec_may_overlap(*probe, Axis::EdgePair(k, l)),
                forall|l: usize| l < j ==> #[trigger] spec_may_overlap(*probe, Axis::EdgePair(i, l)),
            decreases other_edges - j,
        {
            let axis = Axis::EdgePair(i, j);
            assert(spec_candidate(axis, other_faces, other_edges));
            let found = probe(axis);
            if found == Probe::Separated {
                assert forall|b: Axis|
                    spec_candidate(b, other_faces, other_edges) && spec_tried_before(
                        b,
                        axis,
                    ) implies #[trigger] spec_may_overlap(*probe, b) by {
                    match b {
                        Axis::OwnFace(k) => {
                            assert(spec_may_overlap(*probe, Axis::OwnFace(k)));
                        },
                        Axis::OtherFace(k) => {
                            assert(spec_may_overlap(*probe, Axis::OtherFace(k)));
                        },
                        Axis::EdgePair(k, l) => {
                            assert(spec_may_overlap(*probe, Axis::EdgePair(k, l)));
                        },
                    }
                }
                return Some(axis);
            }
            j = j + 1;
        }
        i = i + 1;
    }
    assert forall|a: Axis| spec_candidate(a, other_faces, other_edges) implies #[trigger] spec_may_overlap(
        *probe,
        a,
    ) by {
        match a {
            Axis::OwnFace(k) => {
                assert(spec_may_overlap(*probe, Axis::OwnFace(k)));
            },
            Axis::OtherFace(k) => {
                assert(spec_may_overlap(*probe, Axis::OtherFace(k)));
            },
            Axis::EdgePair(k, l) => {
                assert(spec_may_overlap(*probe, Axis::EdgePair(k, l)));
            },
        }
    }
    None
}

/// Whether every one of the eight corners lies within the half-space of
/// every one of `faces` faces, by the test `holds(face, corner)`.
pub fn holds_all_corners<G: Fn(usize, usize) -> bool>(faces: usize, holds: &G) -> (r: bool)
    requires
        forall|face: usize, corner: usize| face < faces && corner < CORNERS ==> #[trigger] holds.requires((face, corner)),
    ensures
        r ==> spec_may_hold_all(*holds, faces),
        !r ==> spec_may_miss_one(*holds, faces),
{
    let mut face: usize = 0;
    while face < faces
        invariant
            face <= faces,
            forall|f: usize, c: usize| f < faces && c < CORNERS ==> #[trigger] holds.requires((f, c)),
            forall|f: usize, c: usize| f < face && c < CORNERS ==> #[trigger] spec_may_hold(*holds, f, c),
        decreases faces - face,
    {
        let mut corner: usize = 0;
        while corner < CORNERS
            invariant
                face < faces,
                corner <= CORNERS,
                forall|f: usize, c: usize| f < faces && c < CORNERS ==> #[trigger] holds.requires((f, c)),
                forall|f: usize, c: usize| f < face && c < CORNERS ==> #[trigger] spec_may_hold(*holds, f, c),
                forall|c: usize| c < corner ==> #[trigger] spec_may_hold(*holds, face, c),
            decreases CORNERS - corner,
        {
            if !holds(face, corner) {
                assert(spec_may_miss(*holds, face, corner));
                return false;
            }
            corner = corner + 1;
        }
        face = face + 1;
    }
    true
}

/// How another solid lies to a region. `Out` if some candidate axis
/// separates them. Else `In` if the region holds every corner of the other
/// solid, or the other solid every corner of the region. Else `Cross`.
///
/// `probe` projects both solids onto an axis; `own_holds(face, corner)`
/// tests a corner of the other solid against a face of the region, and
/// `other_holds(face, corner)` a corner of the region against a face of the
/// other solid.
pub fn relate<F: Fn(Axis) -> Probe, G: Fn(usize, usize) -> bool, H: Fn(usize, usize) -> bool>(
    other_faces: usize,
    other_edges: usize,
    probe: &F,
    own_holds: &G,
    other_holds: &H,
) -> (r: Relation)
    requires
        forall|a: Axis| spec_candidate(a, other_faces, other_edges) ==> #[trigger] probe.requires((a,)),
        forall|face: usize, corner: usize|
            face < FACES && corner < CORNERS ==> #[trigger] own_holds.requires((face, corner)),
        forall|face: usize, corner: usize|
            face < other_faces && corner < CORNERS ==> #[trigger] other_holds.requires((face, corner)),
    ensures
        r == Relation::Out ==> exists|a: Axis|
            spec_candidate(a, other_faces, other_edges) && #[trigger] spec_may_separate(*probe, a),
        r != Relation::Out ==> forall|a: Axis|
            spec_candidate(a, other_faces, other_edges) ==> #[trigger] spec_may_overlap(*probe, a),
        r == Relation::In ==> spec_may_hold_all(*own_holds, FACES) || spec_may_hold_all(*other_holds, other_faces),
        r == Relation::Cross ==> spec_may_miss_one(*own_holds, FACES) && spec_may_miss_one(*other_holds, other_faces),
        (exists|a: Axis| spec_candidate(a, other_faces, other_edges) && #[trigger] spec_must_separate(*probe, a)) ==> r
            == Relation::Out,
        (forall|a: Axis| spec_candidate(a, other_faces, other_edges) ==> !#[trigger] spec_may_separate(*probe, a))
            && (forall|face: usize, corner: usize|
            face < FACES && corner < CORNERS ==> !#[trigger] spec_may_miss(*own_holds, face, corner)) ==> r
            == Relation::In,
{
    match find_separating_axis(other_faces, other_edges, probe) {
        Some(axis) => {
            assert(spec_may_separate(*probe, axis));
            classify(true, false, false)
        },
        None => {
            assert forall|a: Axis| spec_candidate(a, other_faces, other_edges) implies !#[trigger] spec_must_separate(
                *probe,
                a,
            ) by {
                assert(spec_may_overlap(*probe, a));
            }
            let encloses = holds_all_corners(FACES, own_holds);
            let enclosed = if encloses {
                false
            } else {
                holds_all_corners(other_faces, other_holds)
            };
            classify(false, encloses, enclosed)
        },
    }
}

} // verus!
