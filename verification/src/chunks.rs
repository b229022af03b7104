use vstd::prelude::*;
use std::collections::VecDeque;

use crate::triangle::TriangleTriangleCmp;

verus! {

/// Triangle-list vertex indices of an icosphere subdivided `subdivisions` times,
/// as `hexasphere::shapes::IcoSphere` lays them out.
pub uninterp spec fn icosphere_triangle_indices(subdivisions: nat) -> Seq<u32>;

/// The triangle list of the unsubdivided icosahedron: the vertex indices of its
/// twenty faces, in order.
pub open spec fn icosahedron_triangle_list() -> Seq<u32> {
    seq![0u32, 2, 1, 0, 3, 2, 0, 4, 3, 0, 5, 4, 0, 1, 5, 5, 1, 6, 1, 2, 7, 2, 3, 8, 3, 4, 9, 4, 5, 10, 5, 6, 10, 1, 7, 6, 2, 8, 7, 3, 9, 8, 4, 10, 9, 10, 6, 11, 6, 7, 11, 7, 8, 11, 8, 9, 11, 9, 10, 11]
}

/// The twenty faces of the icosahedron as triples of vertex indices.
pub open spec fn icosahedron_face_table() -> Seq<[u32; 3]> {
    seq![
        [0u32, 2, 1],
        [0u32, 3, 2],
        [0u32, 4, 3],
        [0u32, 5, 4],
        [0u32, 1, 5],
        [5u32, 1, 6],
        [1u32, 2, 7],
        [2u32, 3, 8],
        [3u32, 4, 9],
        [4u32, 5, 10],
        [5u32, 6, 10],
        [1u32, 7, 6],
        [2u32, 8, 7],
        [3u32, 9, 8],
        [4u32, 10, 9],
        [10u32, 6, 11],
        [6u32, 7, 11],
        [7u32, 8, 11],
        [8u32, 9, 11],
        [9u32, 10, 11],
    ]
}

/// Calls `hexasphere::shapes::IcoSphere::new(subdivisions, ..)` (with no per-vertex
/// data) and `get_all_indices` on it. The result depends on `subdivisions` alone, which
/// the name states. Unsubdivided, the shape keeps the icosahedron's twenty faces and
/// `get_all_indices` lists the corners `a, b, c` of each face of the crate's fixed
/// table, in order: that is [`icosahedron_triangle_list`]. What a subdivided sphere's
/// list holds is left unsaid. The bound keeps the vertex buffer to a size that fits in
/// memory.
#[verifier::external_body]
fn icosphere_indices(subdivisions: usize) -> (indices: Vec<u32>)
    requires
        subdivisions <= 256,
    ensures
        indices@ == icosphere_triangle_indices(subdivisions as nat),
        subdivisions == 0 ==> indices@ == icosahedron_triangle_list(),
{
    hexasphere::shapes::IcoSphere::new(subdivisions, no_vertex_data).get_all_indices()
}

/// Per-vertex data of an icosphere whose vertices carry none.
fn no_vertex_data<P>(_point: P) {
}

/// Consecutive triples of a triangle list (a trailing partial triple is dropped).
pub open spec fn triangles_of(indices: Seq<u32>) -> Seq<[u32; 3]> {
    Seq::new(
        indices.len() / 3,
        |t: int| [indices[3 * t], indices[3 * t + 1], indices[3 * t + 2]],
    )
}

/// The faces of the base icosahedron, as triples of vertex indices.
pub fn icosahedron_faces() -> (faces: Vec<[u32; 3]>)
    ensures
        faces@ == triangles_of(icosphere_triangle_indices(0)),
        faces@ == icosahedron_face_table(),
{
    proof {
        lemma_icosahedron_faces();
    }
    let indices = icosphere_indices(0);
    let ghost spec_faces = triangles_of(indices@);
    let len = indices.len();
    let n = len / 3;
    let mut faces: Vec<[u32; 3]> = Vec::new();
    let mut t: usize = 0;
    while t < n
        invariant
            len == indices@.len(),
            n == indices@.len() / 3,
            t <= n,
            spec_faces == triangles_of(indices@),
            faces@ == spec_faces.subrange(0, t as int),
        decreases n - t,
    {
        assert(3 * t + 2 < indices@.len()) by (nonlinear_arith)
            requires t < n, n == indices@.len() / 3;
        faces.push([indices[3 * t], indices[3 * t + 1], indices[3 * t + 2]]);
        t = t + 1;
        assert(faces@ =~= spec_faces.subrange(0, t as int));
    }
    assert(spec_faces.subrange(0, n as int) =~= spec_faces);
    faces
}

/// The icosahedron's triangle list splits into its face table.
pub proof fn lemma_icosahedron_faces()
    ensures
        triangles_of(icosahedron_triangle_list()) == icosahedron_face_table(),
{
    let l = icosahedron_triangle_list();
    let f = icosahedron_face_table();
    let t = triangles_of(l);
    assert(l.len() == 60);
    assert forall|i: int| 0 <= i < 20 implies #[trigger] t[i] == f[i] by {
        assert(t[i] =~= f[i]);
    }
    assert(t =~= f);
}

/// Every face of the icosahedron shares an edge with exactly three others.
#[verifier::spinoff_prover]
pub proof fn lemma_icosahedron_three_siblings()
    ensures
        forall|i: int| 0 <= i < 20 ==> #[trigger] neighbours(icosahedron_face_table(), i).len() == 3,
{
    let f = icosahedron_face_table();
    assert(neighbours(f, 0).len() == 3) by {
        reveal_with_fuel(neighbours_before, 21);
    }
    assert(neighbours(f, 1).len() == 3) by {
        reveal_with_fuel(neighbours_before, 21);
    }
    assert(neighbours(f, 2).len() == 3) by {
        reveal_with_fuel(neighbours_before, 21);
    }
    assert(neighbours(f, 3).len() == 3) by {
        reveal_with_fuel(neighbours_before, 21);
    }
    assert(neighbours(f, 4).len() == 3) by {
        reveal_with_fuel(neighbours_before, 21);
    }
    assert(neighbours(f, 5).len() == 3) by {
        reveal_with_fuel(neighbours_before, 21);
    }
    assert(neighbours(f, 6).len() == 3) by {
        reveal_with_fuel(neighbours_before, 21);
    }
    assert(neighbours(f, 7).len() == 3) by {
        reveal_with_fuel(neighbours_before, 21);
    }
    assert(neighbours(f, 8).len() == 3) by {
        reveal_with_fuel(neighbours_before, 21);
    }
    assert(neighbours(f, 9).len() == 3) by {
        reveal_with_fuel(neighbours_before, 21);
    }
    assert(neighbours(f, 10).len() == 3) by {
        reveal_with_fuel(neighbours_before, 21);
    }
    assert(neighbours(f, 11).len() == 3) by {
        reveal_with_fuel(neighbours_before, 21);
    }
    assert(neighbours(f, 12).len() == 3) by {
        reveal_with_fuel(neighbours_before, 21);
    }
    assert(neighbours(f, 13).len() == 3) by {
        reveal_with_fuel(neighbours_before, 21);
    }
    assert(neighbours(f, 14).len() == 3) by {
        reveal_with_fuel(neighbours_before, 21);
    }
    assert(neighbours(f, 15).len() == 3) by {
        reveal_with_fuel(neighbours_before, 21);
    }
    assert(neighbours(f, 16).len() == 3) by {
        reveal_with_fuel(neighbours_before, 21);
    }
    assert(neighbours(f, 17).len() == 3) by {
        reveal_with_fuel(neighbours_before, 21);
    }
    assert(neighbours(f, 18).len() == 3) by {
        reveal_with_fuel(neighbours_before, 21);
    }
    assert(neighbours(f, 19).len() == 3) by {
        reveal_with_fuel(neighbours_before, 21);
    }
}

/// `v` is one of the three indices of `b`.
pub open spec fn in_face(v: u32, b: [u32; 3]) -> bool {
    v == b[0] || v == b[1] || v == b[2]
}

/// Number of distinct vertex indices two faces share (the size of the intersection
/// of their index sets).
pub open spec fn shared_count(a: [u32; 3], b: [u32; 3]) -> int {
    (if in_face(a[0], b) {
        1int
    } else {
        0
    }) + (if in_face(a[1], b) && a[1] != a[0] {
        1int
    } else {
        0
    }) + (if in_face(a[2], b) && a[2] != a[0] && a[2] != a[1] {
        1int
    } else {
        0
    })
}

/// Two faces are siblings when they share exactly two vertices, i.e. an edge.
pub open spec fn shares_edge(a: [u32; 3], b: [u32; 3]) -> bool {
    shared_count(a, b) == 2
}

/// The faces among `0..j` other than `i` that share an edge with face `i`, in order.
pub open spec fn neighbours_before(faces: Seq<[u32; 3]>, i: int, j: int) -> Seq<usize>
    decreases j,
{
    if j <= 0 {
        Seq::empty()
    } else {
        let p = neighbours_before(faces, i, j - 1);
        if j - 1 != i && shares_edge(faces[i], faces[j - 1]) {
            p.push((j - 1) as usize)
        } else {
            p
        }
    }
}

/// All faces that share an edge with face `i`, in order.
pub open spec fn neighbours(faces: Seq<[u32; 3]>, i: int) -> Seq<usize> {
    neighbours_before(faces, i, faces.len() as int)
}

/// Entry `k` of the sibling row of face `i`: its `k`-th neighbour, or `0` past the
/// last one (and for rows past the last face).
pub open spec fn sibling_entry(faces: Seq<[u32; 3]>, i: int, k: int) -> usize {
    if i < faces.len() && k < neighbours(faces, i).len() {
        neighbours(faces, i)[k]
    } else {
        0
    }
}

/// Sharing an edge does not depend on the order of the two faces.
pub proof fn lemma_shares_edge_symmetric(a: [u32; 3], b: [u32; 3])
    ensures
        shares_edge(a, b) == shares_edge(b, a),
{
}

/// `x` is among the neighbours of `i` below `j` exactly when it is below `j`, is not
/// `i`, and shares an edge with `i`; the list is strictly increasing.
proof fn lemma_neighbours_before_members(faces: Seq<[u32; 3]>, i: int, j: int)
    requires
        0 <= i < faces.len(),
        0 <= j <= faces.len(),
        faces.len() <= usize::MAX,
    ensures
        forall|x: int|
            0 <= x < faces.len() ==> (neighbours_before(faces, i, j).contains(x as usize) <==> (x
                < j && x != i && shares_edge(faces[i], faces[x]))),
        forall|k: int|
            0 <= k < neighbours_before(faces, i, j).len() ==> #[trigger] neighbours_before(
                faces,
                i,
                j,
            )[k] < j,
        forall|k1: int, k2: int|
            0 <= k1 < k2 < neighbours_before(faces, i, j).len() ==> #[trigger] neighbours_before(
                faces,
                i,
                j,
            )[k1] < #[trigger] neighbours_before(faces, i, j)[k2],
    decreases j,
{
    if j > 0 {
        lemma_neighbours_before_members(faces, i, j - 1);
        let p = neighbours_before(faces, i, j - 1);
        let q = neighbours_before(faces, i, j);
        assert forall|x: int| 0 <= x < faces.len() implies (q.contains(x as usize) <==> (x < j
            && x != i && shares_edge(faces[i], faces[x]))) by {
            if j - 1 != i && shares_edge(faces[i], faces[j - 1]) {
                assert(q == p.push((j - 1) as usize));
                if q.contains(x as usize) {
                    let k = choose|k: int| 0 <= k < q.len() && q[k] == x as usize;
                    if k < p.len() {
                        assert(p.contains(x as usize));
                    }
                }
                if x < j && x != i && shares_edge(faces[i], faces[x]) {
                    if x == j - 1 {
                        assert(q[q.len() - 1] == x as usize);
                    } else {
                        assert(p.contains(x as usize));
                        let k = choose|k: int| 0 <= k < p.len() && p[k] == x as usize;
                        assert(q[k] == x as usize);
                    }
                }
            }
        }
    }
}

/// Siblings are mutual: face `j` is a neighbour of face `i` exactly when `i` is a
/// neighbour of `j`.
pub proof fn lemma_siblings_symmetric(faces: Seq<[u32; 3]>, i: int, j: int)
    requires
        0 <= i < faces.len(),
        0 <= j < faces.len(),
        faces.len() <= usize::MAX,
    ensures
        neighbours(faces, i).contains(j as usize) <==> neighbours(faces, j).contains(i as usize),
{
    lemma_neighbours_before_members(faces, i, faces.len() as int);
    lemma_neighbours_before_members(faces, j, faces.len() as int);
    lemma_shares_edge_symmetric(faces[i], faces[j]);
}

/// The sibling table of the faces: row `i` lists, in order, the faces sharing an
/// edge with face `i`, padded with `0` (rows past the last face stay zero).
pub fn sibling_table(faces: &Vec<[u32; 3]>) -> (siblings: [[usize; 3]; 20])
    requires
        faces.len() <= 20,
        forall|i: int| 0 <= i < faces.len() ==> #[trigger] neighbours(faces@, i).len() <= 3,
    ensures
        forall|i: int, k: int|
            0 <= i < 20 && 0 <= k < 3 ==> siblings[i][k] == #[trigger] sibling_entry(faces@, i, k),
{
    let mut siblings = [[0usize; 3]; 20];
    let n = faces.len();
    let mut i: usize = 0;
    while i < n
        invariant
            n == faces.len(),
            n <= 20,
            i <= n,
            forall|i2: int| 0 <= i2 < faces.len() ==> #[trigger] neighbours(faces@, i2).len() <= 3,
            forall|i2: int, k: int|
                0 <= i2 < 20 && 0 <= k < 3 ==> siblings[i2][k] == (if i2 < i {
                    sibling_entry(faces@, i2, k)
                } else {
                    0
                }),
        decreases n - i,
    {
        let from = faces[i];
        let mut row = [0usize; 3];
        let mut offset: usize = 0;
        let mut j: usize = 0;
        while j < n
            invariant
                n == faces.len(),
                n <= 20,
                i < n,
                j <= n,
                from == faces@[i as int],
                neighbours(faces@, i as int).len() <= 3,
                offset == neighbours_before(faces@, i as int, j as int).len(),
                forall|k: int|
                    0 <= k < 3 ==> row[k] == (if k < offset {
                        neighbours_before(faces@, i as int, j as int)[k]
                    } else {
                        0
                    }),
            decreases n - j,
        {
            proof {
                lemma_neighbours_prefix_len(faces@, i as int, (j + 1) as int);
            }
            if i != j && shared(from, faces[j]) == 2 {
                row[offset] = j;
                offset = offset + 1;
            }
            j = j + 1;
        }
        siblings[i] = row;
        i = i + 1;
    }
    siblings
}

/// The neighbour list below `j` is no longer than the full one.
proof fn lemma_neighbours_prefix_len(faces: Seq<[u32; 3]>, i: int, j: int)
    requires
        0 <= j <= faces.len(),
    ensures
        neighbours_before(faces, i, j).len() <= neighbours(faces, i).len(),
    decreases faces.len() - j,
{
    if j < faces.len() {
        lemma_neighbours_prefix_len(faces, i, j + 1);
    }
}

/// Number of distinct vertex indices shared by two faces.
fn shared(a: [u32; 3], b: [u32; 3]) -> (n: u32)
    ensures
        n == shared_count(a, b),
{
    let mut n: u32 = 0;
    if a[0] == b[0] || a[0] == b[1] || a[0] == b[2] {
        n = n + 1;
    }
    if (a[1] == b[0] || a[1] == b[1] || a[1] == b[2]) && a[1] != a[0] {
        n = n + 1;
    }
    if (a[2] == b[0] || a[2] == b[1] || a[2] == b[2]) && a[2] != a[0] && a[2] != a[1] {
        n = n + 1;
    }
    n
}

/// The root of the chunk tree: the twenty chunks on the faces of the base
/// icosahedron (as entity ids) and, for each, the indices of its three siblings.
pub struct WorldRoot {
    /// Each chunk is one of the base Icosohedron faces
    root_chunks: [u64; 20],
    /// First index is from, inner indices are to; indices into `root_chunks`
    siblings: [[usize; 3]; 20],
}

impl WorldRoot {
    #[verifier::type_invariant]
    spec fn siblings_in_range(self) -> bool {
        forall|i: int, k: int| 0 <= i < 20 && 0 <= k < 3 ==> #[trigger] self.siblings[i][k] < 20
    }

    /// The root chunks.
    pub closed spec fn chunks(self) -> [u64; 20] {
        self.root_chunks
    }

    /// The sibling table.
    pub closed spec fn sibling_indices(self) -> [[usize; 3]; 20] {
        self.siblings
    }

    /// The root over the given chunks, one per face of `faces`, with their sibling
    /// table; `None` unless there are exactly twenty faces, each sharing an edge with
    /// at most three others.
    pub fn from_faces(root_chunks: [u64; 20], faces: &Vec<[u32; 3]>) -> (r: Option<WorldRoot>)
        ensures
            r is Some <==> (faces.len() == 20 && forall|i: int|
                0 <= i < 20 ==> #[trigger] neighbours(faces@, i).len() <= 3),
            r matches Some(w) ==> w.chunks() == root_chunks && forall|i: int, k: int|
                0 <= i < 20 && 0 <= k < 3 ==> w.sibling_indices()[i][k] == #[trigger] sibling_entry(
                    faces@,
                    i,
                    k,
                ),
    {
        if faces.len() != 20 {
            return None;
        }
        let mut i: usize = 0;
        while i < 20
            invariant
                faces.len() == 20,
                i <= 20,
                forall|i2: int| 0 <= i2 < i ==> #[trigger] neighbours(faces@, i2).len() <= 3,
            decreases 20 - i,
        {
            let count = neighbour_count(faces, i);
            if count > 3 {
                return None;
            }
            i = i + 1;
        }
        let siblings = sibling_table(faces);
        proof {
            assert forall|i: int, k: int| 0 <= i < 20 && 0 <= k < 3 implies #[trigger] siblings[i][k]
                < 20 by {
                assert(siblings[i][k] == sibling_entry(faces@, i, k));
                lemma_neighbours_before_members(faces@, i, 20);
                if k < neighbours(faces@, i).len() {
                    assert(neighbours(faces@, i)[k] < 20);
                }
            }
        }
        Some(WorldRoot { root_chunks, siblings })
    }

    /// The root over the given chunks, one per face of the icosahedron: row `i` of its
    /// sibling table lists the three faces sharing an edge with face `i`, in order.
    pub fn root(root_chunks: [u64; 20]) -> (w: WorldRoot)
        ensures
            w.chunks() == root_chunks,
            forall|i: int| 0 <= i < 20 ==> #[trigger] neighbours(icosahedron_face_table(), i).len() == 3,
            forall|i: int, k: int|
                0 <= i < 20 && 0 <= k < 3 ==> w.sibling_indices()[i][k] == #[trigger] neighbours(
                    icosahedron_face_table(),
                    i,
                )[k],
    {
        let faces = icosahedron_faces();
        proof {
            lemma_icosahedron_three_siblings();
        }
        let w = Self::from_faces(root_chunks, &faces).expect("the icosahedron has twenty faces");
        proof {
            assert forall|i: int, k: int| 0 <= i < 20 && 0 <= k < 3 implies w.sibling_indices()[i][k]
                == #[trigger] neighbours(icosahedron_face_table(), i)[k] by {
                assert(w.sibling_indices()[i][k] == sibling_entry(faces@, i, k));
            }
        }
        w
    }

    /// Gets the siblings of a root chunk: those of the first root chunk equal to
    /// `chunk`, or `None` when it is not a root chunk.
    pub fn get_siblings(&self, chunk: u64) -> (r: Option<[u64; 3]>)
        ensures
            r is Some <==> exists|i: int| 0 <= i < 20 && self.chunks()[i] == chunk,
            r matches Some(s) ==> exists|i: int|
                0 <= i < 20 && self.chunks()[i] == chunk && (forall|j: int|
                    0 <= j < i ==> self.chunks()[j] != chunk) && forall|k: int|
                    0 <= k < 3 ==> s[k] == self.chunks()[#[trigger] self.sibling_indices()[i][k] as int],
    {
        proof {
            use_type_invariant(self);
        }
        let mut i: usize = 0;
        while i < 20
            invariant
                i <= 20,
                forall|j: int| 0 <= j < i ==> self.root_chunks[j] != chunk,
            decreases 20 - i,
        {
            if self.root_chunks[i] == chunk {
                let row = self.siblings[i];
                proof {
                    use_type_invariant(self);
                    assert(self.siblings[i as int][0] < 20);
                    assert(self.siblings[i as int][1] < 20);
                    assert(self.siblings[i as int][2] < 20);
                    assert(self.chunks()[i as int] == chunk);
                }
                let s = [self.root_chunks[row[0]], self.root_chunks[row[1]], self.root_chunks[row[2]]];
                return Some(s);
            }
            i = i + 1;
        }
        None
    }
}

/// Number of faces sharing an edge with face `i`.
fn neighbour_count(faces: &Vec<[u32; 3]>, i: usize) -> (n: usize)
    requires
        i < faces.len(),
        faces.len() <= 20,
    ensures
        n == neighbours(faces@, i as int).len(),
{
    let mut n: usize = 0;
    let mut j: usize = 0;
    while j < faces.len()
        invariant
            i < faces.len(),
            faces.len() <= 20,
            j <= faces.len(),
            n == neighbours_before(faces@, i as int, j as int).len(),
            n <= j,
        decreases faces.len() - j,
    {
        if i != j && shared(faces[i], faces[j]) == 2 {
            n = n + 1;
        }
        j = j + 1;
    }
    n
}

/// Adds `e` to the list unless it is already there.
pub fn add_unique(list: &mut Vec<u64>, e: u64)
    ensures
        old(list)@.contains(e) ==> final(list)@ == old(list)@,
        !old(list)@.contains(e) ==> final(list)@ == old(list)@.push(e),
{
    let mut k: usize = 0;
    while k < list.len()
        invariant
            k <= list.len(),
            list@ == old(list)@,
            forall|j: int| 0 <= j < k ==> list@[j] != e,
        decreases list.len() - k,
    {
        if list[k] == e {
            return;
        }
        k = k + 1;
    }
    list.push(e);
}

/// A list without repeated entries stays so when an entry is added with [`add_unique`].
pub proof fn lemma_add_unique_keeps_distinct(list: Seq<u64>, e: u64)
    requires
        list.no_duplicates(),
    ensures
        (if list.contains(e) {
            list
        } else {
            list.push(e)
        }).no_duplicates(),
{
    if !list.contains(e) {
        let l2 = list.push(e);
        assert forall|i: int, j: int| 0 <= i < l2.len() && 0 <= j < l2.len() && i != j implies l2[i]
            != l2[j] by {
            if i == list.len() as int {
                assert(!list.contains(l2[j]) || l2[j] != e);
            } else if j == list.len() as int {
                assert(list[i] != e);
            }
        }
    }
}


/// Breadth-first search of the chunk tree for the chunks adjacent to one chunk (as
/// entity ids): candidates are taken from the front of a queue that starts with the
/// root chunks; an ancestor of the chunk has its children queued, an uncle is
/// recorded as adjacent and has its children (if any) queued, anything else is
/// dropped.
pub struct AdjacencySearch {
    queue: VecDeque<u64>,
    adjacent: Vec<u64>,
}

/// The queue after recording `relation` for a candidate with the given children.
pub open spec fn queue_after(
    pending: Seq<u64>,
    relation: TriangleTriangleCmp,
    children: Option<Seq<u64>>,
) -> Seq<u64> {
    match relation {
        TriangleTriangleCmp::Ancestor | TriangleTriangleCmp::Unc => match children {
            Some(c) => pending + c,
            None => pending,
        },
        _ => pending,
    }
}

/// The adjacent chunks after recording `relation` for `candidate`.
pub open spec fn found_after(found: Seq<u64>, candidate: u64, relation: TriangleTriangleCmp) -> Seq<
    u64,
> {
    match relation {
        TriangleTriangleCmp::Unc => found.push(candidate),
        _ => found,
    }
}

/// Only an uncle is ever found adjacent: recording it appends it to what was found,
/// and recording any other relation (the chunk itself, a sibling, an ancestor, an
/// unrelated chunk) leaves what was found as it was. The search descends only into
/// ancestors and uncles: for any other relation nothing is queued.
pub proof fn lemma_only_uncles_found(
    found: Seq<u64>,
    pending: Seq<u64>,
    candidate: u64,
    relation: TriangleTriangleCmp,
    children: Option<Seq<u64>>,
)
    ensures
        relation == TriangleTriangleCmp::Unc ==> found_after(found, candidate, relation)
            == found.push(candidate),
        relation != TriangleTriangleCmp::Unc ==> found_after(found, candidate, relation) == found,
        relation != TriangleTriangleCmp::Unc && relation != TriangleTriangleCmp::Ancestor
            ==> queue_after(pending, relation, children) == pending,
        queue_after(pending, relation, None) == pending,
{
}

impl AdjacencySearch {
    /// Candidates still to look at, front first.
    pub closed spec fn pending(&self) -> Seq<u64> {
        self.queue@
    }

    /// Chunks found adjacent so far, in the order found.
    pub closed spec fn found(&self) -> Seq<u64> {
        self.adjacent@
    }

    /// A search starting from the root chunks.
    pub fn new(roots: [u64; 20]) -> (s: Self)
        ensures
            s.pending() == roots@,
            s.found() == Seq::<u64>::empty(),
    {
        let mut queue: VecDeque<u64> = VecDeque::new();
        let mut i: usize = 0;
        while i < 20
            invariant
                i <= 20,
                queue@ == roots@.subrange(0, i as int),
            decreases 20 - i,
        {
            queue.push_back(roots[i]);
            i = i + 1;
            assert(queue@ =~= roots@.subrange(0, i as int));
        }
        assert(roots@.subrange(0, 20) =~= roots@);
        AdjacencySearch { queue, adjacent: Vec::new() }
    }

    /// Takes the next candidate from the front of the queue.
    pub fn next_candidate(&mut self) -> (c: Option<u64>)
        ensures
            match c {
                Some(x) => old(self).pending().len() > 0 && x == old(self).pending()[0]
                    && final(self).pending() == old(self).pending().subrange(
                    1,
                    old(self).pending().len() as int,
                ),
                None => old(self).pending().len() == 0 && final(self).pending() == old(
                    self,
                ).pending(),
            },
            final(self).found() == old(self).found(),
    {
        self.queue.pop_front()
    }

    /// Records how the chunk relates to `candidate`, whose children are given. An
    /// ancestor always has children.
    pub fn record(
        &mut self,
        candidate: u64,
        relation: TriangleTriangleCmp,
        children: Option<&Vec<u64>>,
    )
        requires
            relation == TriangleTriangleCmp::Ancestor ==> children is Some,
        ensures
            final(self).pending() == queue_after(
                old(self).pending(),
                relation,
                match children {
                    Some(c) => Some(c@),
                    None => None,
                },
            ),
            final(self).found() == found_after(old(self).found(), candidate, relation),
            relation == TriangleTriangleCmp::Unc ==> final(self).found() == old(self).found().push(
                candidate,
            ),
            relation != TriangleTriangleCmp::Unc ==> final(self).found() == old(self).found(),
    {
        match relation {
            TriangleTriangleCmp::Ancestor | TriangleTriangleCmp::Unc => {
                if let TriangleTriangleCmp::Unc = relation {
                    self.adjacent.push(candidate);
                }
                if let Some(c) = children {
                    let ghost start = self.queue@;
                    let ghost adj = self.adjacent@;
                    let mut k: usize = 0;
                    while k < c.len()
                        invariant
                            k <= c.len(),
                            self.adjacent@ == adj,
                            self.queue@ == start + c@.subrange(0, k as int),
                        decreases c.len() - k,
                    {
                        self.queue.push_back(c[k]);
                        k = k + 1;
                        assert(self.queue@ =~= start + c@.subrange(0, k as int));
                    }
                    assert(c@.subrange(0, c.len() as int) =~= c@);
                }
            },
            _ => {},
        }
    }

    /// The chunks found adjacent.
    pub fn into_adjacent(self) -> (v: Vec<u64>)
        ensures
            v@ == self.found(),
    {
        self.adjacent
    }
}

/// A chunk of the tree as plain data: whether it is shown, and the indices of its
/// children (in the list of all chunks).
pub struct ChunkNode {
    pub visible: bool,
    pub children: Vec<usize>,
}

/// Chunks are listed after their parents: every child index is past its parent's and
/// inside the list.
pub open spec fn children_after_parents(nodes: Seq<ChunkNode>) -> bool {
    forall|i: int, k: int|
        0 <= i < nodes.len() && 0 <= k < nodes[i].children@.len() ==> i
            < #[trigger] nodes[i].children@[k] < nodes.len()
}

/// Every index of `q` is inside the list.
pub open spec fn all_in_list(nodes: Seq<ChunkNode>, q: Seq<usize>) -> bool {
    forall|k: int| 0 <= k < q.len() ==> #[trigger] q[k] < nodes.len()
}

/// Number of chunks in the subtree at `i`, counting a shared subtree once per path.
pub open spec fn subtree_weight(nodes: Seq<ChunkNode>, i: int) -> nat
    decreases nodes.len() - i, nodes[i].children@.len() + 1,
{
    if 0 <= i < nodes.len() {
        1 + children_weight(nodes, i, nodes[i].children@)
    } else {
        1
    }
}

/// Sum of the subtree weights of the children `cs` of `parent` (a child that is not
/// past its parent, or not in the list, weighs one).
pub open spec fn children_weight(nodes: Seq<ChunkNode>, parent: int, cs: Seq<usize>) -> nat
    decreases nodes.len() - parent, cs.len(),
{
    if cs.len() == 0 {
        0
    } else {
        (if parent < cs[0] < nodes.len() {
            subtree_weight(nodes, cs[0] as int)
        } else {
            1
        }) + children_weight(nodes, parent, cs.drop_first())
    }
}

/// Sum of the subtree weights of the chunks in a queue.
pub open spec fn queue_weight(nodes: Seq<ChunkNode>, q: Seq<usize>) -> nat
    decreases q.len(),
{
    if q.len() == 0 {
        0
    } else {
        subtree_weight(nodes, q[0] as int) + queue_weight(nodes, q.drop_first())
    }
}

/// The weight of two queues one after the other is the sum of their weights.
pub proof fn lemma_queue_weight_append(nodes: Seq<ChunkNode>, a: Seq<usize>, b: Seq<usize>)
    ensures
        queue_weight(nodes, a + b) == queue_weight(nodes, a) + queue_weight(nodes, b),
    decreases a.len(),
{
    if a.len() > 0 {
        assert((a + b).drop_first() =~= a.drop_first() + b);
        lemma_queue_weight_append(nodes, a.drop_first(), b);
    } else {
        assert(a + b =~= b);
    }
}

/// Children past their parent weigh, as a queue, what they weigh as children.
pub proof fn lemma_children_as_queue(nodes: Seq<ChunkNode>, parent: int, cs: Seq<usize>)
    requires
        forall|k: int| 0 <= k < cs.len() ==> parent < #[trigger] cs[k] < nodes.len(),
    ensures
        queue_weight(nodes, cs) == children_weight(nodes, parent, cs),
    decreases cs.len(),
{
    if cs.len() > 0 {
        assert(parent < cs[0] < nodes.len());
        lemma_children_as_queue(nodes, parent, cs.drop_first());
    }
}

/// Handing out the visible chunks of the tree, breadth first from the queue `q`: a
/// hidden chunk is passed through to its children, a visible one is handed out (and
/// its subtree left alone).
pub open spec fn visible_walk(nodes: Seq<ChunkNode>, q: Seq<usize>) -> Seq<usize>
    decreases queue_weight(nodes, q),
    when children_after_parents(nodes) && all_in_list(nodes, q)
{
    if q.len() == 0 {
        Seq::empty()
    } else {
        let c = q[0];
        let rest = q.drop_first();
        if nodes[c as int].visible {
            seq![c] + visible_walk(nodes, rest)
        } else {
            let next = rest + nodes[c as int].children@;
            proof {
                lemma_queue_weight_append(nodes, rest, nodes[c as int].children@);
                lemma_children_as_queue(nodes, c as int, nodes[c as int].children@);
            }
            visible_walk(nodes, next)
        }
    }
}

/// The visible chunks below the queue `first`, breadth first: hidden chunks are passed
/// through to their children, visible ones are handed out.
pub fn visible_chunks(nodes: &Vec<ChunkNode>, first: &Vec<usize>) -> (visible: Vec<usize>)
    requires
        children_after_parents(nodes@),
        all_in_list(nodes@, first@),
    ensures
        visible@ == visible_walk(nodes@, first@),
{
    let mut queue: VecDeque<usize> = VecDeque::new();
    let mut k: usize = 0;
    while k < first.len()
        invariant
            k <= first.len(),
            queue@ == first@.subrange(0, k as int),
        decreases first.len() - k,
    {
        queue.push_back(first[k]);
        k = k + 1;
        assert(queue@ =~= first@.subrange(0, k as int));
    }
    assert(first@.subrange(0, first.len() as int) =~= first@);
    let mut out: Vec<usize> = Vec::new();
    loop
        invariant
            children_after_parents(nodes@),
            all_in_list(nodes@, queue@),
            out@ + visible_walk(nodes@, queue@) == visible_walk(nodes@, first@),
        decreases queue_weight(nodes@, queue@),
    {
        let ghost before = queue@;
        match queue.pop_front() {
            None => {
                assert(out@ + Seq::<usize>::empty() =~= out@);
                return out;
            },
            Some(c) => {
                let ghost rest = before.drop_first();
                assert(queue@ =~= rest);
                assert(c < nodes.len());
                if nodes[c].visible {
                    let ghost old_out = out@;
                    out.push(c);
                    assert(out@ + visible_walk(nodes@, rest) =~= old_out + (seq![c] + visible_walk(
                        nodes@,
                        rest,
                    )));
                } else {
                    let children = &nodes[c].children;
                    let mut j: usize = 0;
                    while j < children.len()
                        invariant
                            j <= children.len(),
                            children@ == nodes@[c as int].children@,
                            queue@ == rest + children@.subrange(0, j as int),
                        decreases children.len() - j,
                    {
                        queue.push_back(children[j]);
                        j = j + 1;
                        assert(queue@ =~= rest + children@.subrange(0, j as int));
                    }
                    assert(children@.subrange(0, children.len() as int) =~= children@);
                    proof {
                        lemma_queue_weight_append(nodes@, rest, children@);
                        lemma_children_as_queue(nodes@, c as int, children@);
                    }
                }
            },
        }
    }
}

/// The queue `s` weighs its last chunk plus the rest.
pub proof fn lemma_queue_weight_last(nodes: Seq<ChunkNode>, s: Seq<usize>)
    requires
        s.len() > 0,
    ensures
        queue_weight(nodes, s) == queue_weight(nodes, s.drop_last()) + subtree_weight(
            nodes,
            s.last() as int,
        ),
{
    let one = seq![s.last()];
    assert(s =~= s.drop_last() + one);
    lemma_queue_weight_append(nodes, s.drop_last(), one);
    assert(one.drop_first() =~= Seq::<usize>::empty());
    assert(queue_weight(nodes, one) == subtree_weight(nodes, one[0] as int) + queue_weight(
        nodes,
        one.drop_first(),
    ));
    assert(queue_weight(nodes, Seq::<usize>::empty()) == 0);
}

/// Hiding every chunk below the stack `stack`, last first: a chunk taken off the stack
/// is hidden and its children put on it.
pub open spec fn hide_below(nodes: Seq<ChunkNode>, stack: Seq<usize>, vis: Seq<bool>) -> Seq<bool>
    decreases queue_weight(nodes, stack),
    when children_after_parents(nodes) && all_in_list(nodes, stack)
{
    if stack.len() == 0 {
        vis
    } else {
        let c = stack.last();
        let cs = nodes[c as int].children@;
        proof {
            lemma_queue_weight_last(nodes, stack);
            lemma_queue_weight_append(nodes, stack.drop_last(), cs);
            lemma_children_as_queue(nodes, c as int, cs);
        }
        hide_below(nodes, stack.drop_last() + cs, vis.update(c as int, false))
    }
}

/// Level-of-detail visibility, breadth first from the queue `q`: a chunk far enough
/// away (`show`) is shown and everything below it hidden; a nearer chunk with children
/// is hidden and its children looked at in turn; a nearer chunk without children is
/// shown, as no finer one can stand in for it.
pub open spec fn lod_walk(nodes: Seq<ChunkNode>, show: Seq<bool>, q: Seq<usize>, vis: Seq<bool>) -> Seq<
    bool,
>
    decreases queue_weight(nodes, q),
    when children_after_parents(nodes) && all_in_list(nodes, q)
{
    if q.len() == 0 {
        vis
    } else {
        let c = q[0];
        let rest = q.drop_first();
        let cs = nodes[c as int].children@;
        if show[c as int] {
            lod_walk(nodes, show, rest, hide_below(nodes, cs, vis.update(c as int, true)))
        } else if cs.len() > 0 {
            proof {
                lemma_queue_weight_append(nodes, rest, cs);
                lemma_children_as_queue(nodes, c as int, cs);
            }
            lod_walk(nodes, show, rest + cs, vis.update(c as int, false))
        } else {
            lod_walk(nodes, show, rest, vis.update(c as int, true))
        }
    }
}

/// The visibility flags of the chunks, in order.
pub open spec fn visibilities(nodes: Seq<ChunkNode>) -> Seq<bool> {
    nodes.map_values(|n: ChunkNode| n.visible)
}

/// `c` is `a` or lies below it in the tree.
pub open spec fn in_subtree(nodes: Seq<ChunkNode>, a: int, c: int) -> bool
    decreases nodes.len() - a, nodes[a].children@.len() + 1,
{
    if 0 <= a < nodes.len() {
        a == c || in_children(nodes, a, nodes[a].children@, c)
    } else {
        a == c
    }
}

/// `c` lies in the subtree of one of the children `cs` of `parent`.
pub open spec fn in_children(nodes: Seq<ChunkNode>, parent: int, cs: Seq<usize>, c: int) -> bool
    decreases nodes.len() - parent, cs.len(),
{
    if cs.len() == 0 {
        false
    } else {
        (if parent < cs[0] < nodes.len() {
            in_subtree(nodes, cs[0] as int, c)
        } else {
            cs[0] == c
        }) || in_children(nodes, parent, cs.drop_first(), c)
    }
}

/// What lies below a child lies below its parent.
proof fn lemma_child_subtree(nodes: Seq<ChunkNode>, parent: int, cs: Seq<usize>, k: int, c: int)
    requires
        0 <= k < cs.len(),
        parent < cs[k] < nodes.len(),
        in_subtree(nodes, cs[k] as int, c),
    ensures
        in_children(nodes, parent, cs, c),
    decreases k,
{
    if k > 0 {
        lemma_child_subtree(nodes, parent, cs.drop_first(), k - 1, c);
    }
}

/// Hiding the subtrees of a stack leaves alone a chunk in none of them.
proof fn lemma_hide_below_keeps(nodes: Seq<ChunkNode>, stack: Seq<usize>, vis: Seq<bool>, c: usize)
    requires
        c < vis.len(),
        vis.len() == nodes.len(),
        children_after_parents(nodes),
        all_in_list(nodes, stack),
        forall|k: int| 0 <= k < stack.len() ==> !in_subtree(nodes, #[trigger] stack[k] as int, c as int),
    ensures
        hide_below(nodes, stack, vis)[c as int] == vis[c as int],
        hide_below(nodes, stack, vis).len() == vis.len(),
    decreases queue_weight(nodes, stack),
{
    if stack.len() > 0 {
        let y = stack.last();
        let cs = nodes[y as int].children@;
        let next = stack.drop_last() + cs;
        lemma_queue_weight_last(nodes, stack);
        lemma_queue_weight_append(nodes, stack.drop_last(), cs);
        lemma_children_as_queue(nodes, y as int, cs);
        assert(!in_subtree(nodes, stack[stack.len() - 1] as int, c as int));
        assert(y != c);
        assert(y < nodes.len());
        assert forall|k: int| 0 <= k < next.len() implies #[trigger] next[k] < nodes.len() by {
            if k < stack.len() - 1 {
                assert(next[k] == stack[k]);
            } else {
                assert(next[k] == cs[k - (stack.len() - 1)]);
            }
        }
        assert forall|k: int| 0 <= k < next.len() implies !in_subtree(nodes, #[trigger] next[k] as int, c as int) by {
            if k < stack.len() - 1 {
                assert(next[k] == stack[k]);
            } else {
                let j = k - (stack.len() - 1);
                assert(next[k] == cs[j]);
                if in_subtree(nodes, cs[j] as int, c as int) {
                    lemma_child_subtree(nodes, y as int, cs, j, c as int);
                    assert(false);
                }
            }
        }
        lemma_hide_below_keeps(nodes, next, vis.update(y as int, false), c);
    }
}

/// A chunk that is not far enough away and has no finer chunks below it is shown once
/// the walk reaches it, whatever its visibility before: if it is in the queue (or
/// already shown) and no other chunk of the queue has it below, the walk ends with it
/// visible.
pub proof fn lemma_near_leaf_shown(
    nodes: Seq<ChunkNode>,
    show: Seq<bool>,
    q: Seq<usize>,
    vis: Seq<bool>,
    c: usize,
)
    requires
        children_after_parents(nodes),
        all_in_list(nodes, q),
        show.len() == nodes.len(),
        vis.len() == nodes.len(),
        c < nodes.len(),
        !show[c as int],
        nodes[c as int].children@.len() == 0,
        q.contains(c) || vis[c as int],
        forall|k: int| 0 <= k < q.len() && in_subtree(nodes, #[trigger] q[k] as int, c as int) ==> q[k] == c,
    ensures
        lod_walk(nodes, show, q, vis)[c as int],
    decreases queue_weight(nodes, q),
{
    if q.len() > 0 {
        let x = q[0];
        let rest = q.drop_first();
        let cs = nodes[x as int].children@;
        assert(x < nodes.len());
        assert(all_in_list(nodes, rest)) by {
            assert forall|k: int| 0 <= k < rest.len() implies #[trigger] rest[k] < nodes.len() by {
                assert(rest[k] == q[k + 1]);
            }
        }
        assert forall|k: int| 0 <= k < rest.len() && in_subtree(nodes, #[trigger] rest[k] as int, c as int)
            implies rest[k] == c by {
            assert(rest[k] == q[k + 1]);
        }
        if q.contains(c) && x != c {
            let k = choose|k: int| 0 <= k < q.len() && q[k] == c;
            assert(k > 0);
            assert(rest[k - 1] == c);
        }
        if x == c {
            assert(!show[x as int] && cs.len() == 0);
            lemma_near_leaf_shown(nodes, show, rest, vis.update(c as int, true), c);
        } else {
            // x is not above c
            assert(!in_subtree(nodes, q[0] as int, c as int));
            assert forall|j: int| 0 <= j < cs.len() implies !in_subtree(nodes, #[trigger] cs[j] as int, c as int) by {
                if in_subtree(nodes, cs[j] as int, c as int) {
                    lemma_child_subtree(nodes, x as int, cs, j, c as int);
                }
            }
            assert(all_in_list(nodes, cs));
            if show[x as int] {
                let v1 = vis.update(x as int, true);
                lemma_hide_below_keeps(nodes, cs, v1, c);
                lemma_near_leaf_shown(nodes, show, rest, hide_below(nodes, cs, v1), c);
            } else if cs.len() > 0 {
                let next = rest + cs;
                lemma_queue_weight_append(nodes, rest, cs);
                lemma_children_as_queue(nodes, x as int, cs);
                assert forall|k: int| 0 <= k < next.len() implies #[trigger] next[k] < nodes.len() by {
                    if k < rest.len() {
                        assert(next[k] == rest[k]);
                    } else {
                        assert(next[k] == cs[k - rest.len()]);
                    }
                }
                assert forall|k: int| 0 <= k < next.len() && in_subtree(nodes, #[trigger] next[k] as int, c as int)
                    implies next[k] == c by {
                    if k < rest.len() {
                        assert(next[k] == rest[k]);
                    } else {
                        assert(next[k] == cs[k - rest.len()]);
                    }
                }
                if rest.contains(c) {
                    let k = choose|k: int| 0 <= k < rest.len() && rest[k] == c;
                    assert(next[k] == c);
                }
                lemma_near_leaf_shown(nodes, show, next, vis.update(x as int, false), c);
            } else {
                lemma_near_leaf_shown(nodes, show, rest, vis.update(x as int, true), c);
            }
        }
    }
}

/// Hides every chunk below the stack `stack` (see [`hide_below`]).
fn hide_subtrees(nodes: &Vec<ChunkNode>, stack: Vec<usize>, vis: &mut Vec<bool>)
    requires
        children_after_parents(nodes@),
        all_in_list(nodes@, stack@),
        old(vis).len() == nodes.len(),
    ensures
        final(vis)@ == hide_below(nodes@, stack@, old(vis)@),
        final(vis).len() == nodes.len(),
{
    let ghost target = hide_below(nodes@, stack@, vis@);
    let mut stack = stack;
    while stack.len() > 0
        invariant
            children_after_parents(nodes@),
            all_in_list(nodes@, stack@),
            vis.len() == nodes.len(),
            hide_below(nodes@, stack@, vis@) == target,
        decreases queue_weight(nodes@, stack@),
    {
        let ghost before = stack@;
        let c = stack.pop().unwrap();
        assert(stack@ =~= before.drop_last());
        assert(c == before[before.len() - 1]);
        assert(c < nodes.len());
        vis.set(c, false);
        let ghost rest = stack@;
        let children = &nodes[c].children;
        let mut j: usize = 0;
        while j < children.len()
            invariant
                j <= children.len(),
                children@ == nodes@[c as int].children@,
                stack@ == rest + children@.subrange(0, j as int),
            decreases children.len() - j,
        {
            stack.push(children[j]);
            j = j + 1;
            assert(stack@ =~= rest + children@.subrange(0, j as int));
        }
        assert(children@.subrange(0, children.len() as int) =~= children@);
        proof {
            lemma_queue_weight_last(nodes@, before);
            lemma_queue_weight_append(nodes@, rest, children@);
            lemma_children_as_queue(nodes@, c as int, children@);
        }
    }
}

/// New visibility of every chunk for the level of detail, given for each chunk whether
/// it is far enough away to be shown (`show`), walking breadth first from the roots:
/// see [`lod_walk`]. Chunks the walk does not reach keep their visibility.
pub fn lod_visibility(nodes: &Vec<ChunkNode>, show: &Vec<bool>, roots: &Vec<usize>) -> (visible:
    Vec<bool>)
    requires
        children_after_parents(nodes@),
        all_in_list(nodes@, roots@),
        show.len() == nodes.len(),
    ensures
        visible@ == lod_walk(nodes@, show@, roots@, visibilities(nodes@)),
{
    let mut vis: Vec<bool> = Vec::new();
    let mut i: usize = 0;
    while i < nodes.len()
        invariant
            i <= nodes.len(),
            vis@ == visibilities(nodes@).subrange(0, i as int),
        decreases nodes.len() - i,
    {
        vis.push(nodes[i].visible);
        i = i + 1;
        assert(vis@ =~= visibilities(nodes@).subrange(0, i as int));
    }
    assert(vis@ =~= visibilities(nodes@));
    let mut queue: VecDeque<usize> = VecDeque::new();
    let mut k: usize = 0;
    while k < roots.len()
        invariant
            k <= roots.len(),
            queue@ == roots@.subrange(0, k as int),
        decreases roots.len() - k,
    {
        queue.push_back(roots[k]);
        k = k + 1;
        assert(queue@ =~= roots@.subrange(0, k as int));
    }
    assert(roots@.subrange(0, roots.len() as int) =~= roots@);
    let ghost target = lod_walk(nodes@, show@, roots@, visibilities(nodes@));
    loop
        invariant
            children_after_parents(nodes@),
            all_in_list(nodes@, queue@),
            show.len() == nodes.len(),
            vis.len() == nodes.len(),
            lod_walk(nodes@, show@, queue@, vis@) == target,
            target == lod_walk(nodes@, show@, roots@, visibilities(nodes@)),
        decreases queue_weight(nodes@, queue@),
    {
        let ghost before = queue@;
        match queue.pop_front() {
            None => {
                assert(before.len() == 0);
                assert(lod_walk(nodes@, show@, before, vis@) == vis@);
                return vis;
            },
            Some(c) => {
                let ghost rest = before.drop_first();
                assert(queue@ =~= rest);
                assert(c < nodes.len());
                let children = &nodes[c].children;
                if show[c] {
                    vis.set(c, true);
                    hide_subtrees(nodes, children.clone(), &mut vis);
                } else if children.len() > 0 {
                    vis.set(c, false);
                    let mut j: usize = 0;
                    while j < children.len()
                        invariant
                            j <= children.len(),
                            children@ == nodes@[c as int].children@,
                            queue@ == rest + children@.subrange(0, j as int),
                        decreases children.len() - j,
                    {
                        queue.push_back(children[j]);
                        j = j + 1;
                        assert(queue@ =~= rest + children@.subrange(0, j as int));
                    }
                    assert(children@.subrange(0, children.len() as int) =~= children@);
                    proof {
                        lemma_queue_weight_append(nodes@, rest, children@);
                        lemma_children_as_queue(nodes@, c as int, children@);
                    }
                } else {
                    vis.set(c, true);
                }
            },
        }
    }
}

} // verus!
