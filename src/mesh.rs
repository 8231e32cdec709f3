use vstd::prelude::*;
use crate::direction::{shift, shifted};
use crate::grid::{ipos, Chunk};
use crate::merge::{
    available, chosen, greedy_quads, greedy_result, rect_cell, total_area, visible_face_count, Quad,
};

verus! {

/// The corner of the face plane of `q` that its vertices start from: the
/// origin cell's near corner, moved one unit along the normal for positive
/// directions so that the quad lies on the cell's far side.
pub open spec fn plane_origin(q: Quad) -> (int, int, int) {
    let d = q.direction;
    if d.is_positive_spec() {
        shifted(q.origin(), d.normal_axis_spec(), 1)
    } else {
        q.origin()
    }
}

/// Vertex `j` of `q`, in the fixed order origin, +width, +width+height, +height.
pub open spec fn corner(q: Quad, j: int) -> (int, int, int) {
    let d = q.direction;
    let b = plane_origin(q);
    if j == 0 {
        b
    } else if j == 1 {
        rect_cell(d, b, q.width as int, 0)
    } else if j == 2 {
        rect_cell(d, b, q.width as int, q.height as int)
    } else {
        rect_cell(d, b, 0, q.height as int)
    }
}

pub open spec fn quad_corners(q: Quad) -> Seq<(int, int, int)> {
    seq![corner(q, 0), corner(q, 1), corner(q, 2), corner(q, 3)]
}

pub open spec fn quad_normals(q: Quad) -> Seq<(i8, i8, i8)> {
    let m = q.direction.normal_spec();
    seq![m, m, m, m]
}

/// The two triangles of a quad whose first vertex has index `b`: (0, 1, 2) and
/// (2, 3, 0), read backwards where the direction flips the winding.
pub open spec fn quad_indices(q: Quad, b: int) -> Seq<int> {
    if q.direction.flips_winding_spec() {
        seq![b, b + 3, b + 2, b + 2, b + 1, b]
    } else {
        seq![b, b + 1, b + 2, b + 2, b + 3, b]
    }
}

pub open spec fn mesh_positions(qs: Seq<Quad>) -> Seq<(int, int, int)>
    decreases qs.len(),
{
    if qs.len() == 0 {
        seq![]
    } else {
        mesh_positions(qs.drop_last()) + quad_corners(qs.last())
    }
}

pub open spec fn mesh_normals(qs: Seq<Quad>) -> Seq<(i8, i8, i8)>
    decreases qs.len(),
{
    if qs.len() == 0 {
        seq![]
    } else {
        mesh_normals(qs.drop_last()) + quad_normals(qs.last())
    }
}

pub open spec fn mesh_indices(qs: Seq<Quad>) -> Seq<int>
    decreases qs.len(),
{
    if qs.len() == 0 {
        seq![]
    } else {
        mesh_indices(qs.drop_last()) + quad_indices(qs.last(), 4 * (qs.len() - 1))
    }
}

/// Whether the corner coordinates of `q` fit in `usize`.
pub open spec fn corners_fit(q: Quad) -> bool {
    &&& q.x + q.width + q.height + 1 <= usize::MAX
    &&& q.y + q.width + q.height + 1 <= usize::MAX
    &&& q.z + q.width + q.height + 1 <= usize::MAX
}

/// Vertex positions, per-vertex normals and triangle indices of a mesh, with
/// positions in voxel units.
pub struct MeshBuffers {
    pub positions: Vec<(usize, usize, usize)>,
    pub normals: Vec<(i8, i8, i8)>,
    pub indices: Vec<u32>,
}

impl MeshBuffers {
    pub open spec fn position_values(self) -> Seq<(int, int, int)> {
        self.positions@.map_values(|p: (usize, usize, usize)| ipos(p))
    }

    pub open spec fn index_values(self) -> Seq<int> {
        self.indices@.map_values(|i: u32| i as int)
    }

    /// Whether the buffers hold exactly the quads `qs`, in order.
    pub open spec fn holds(self, qs: Seq<Quad>) -> bool {
        &&& self.position_values() == mesh_positions(qs)
        &&& self.normals@ == mesh_normals(qs)
        &&& self.index_values() == mesh_indices(qs)
        &&& self.positions@.len() == 4 * qs.len()
    }

    /// Empty buffers.
    pub fn new() -> (r: MeshBuffers)
        ensures
            r.holds(seq![]),
    {
        let r = MeshBuffers { positions: Vec::new(), normals: Vec::new(), indices: Vec::new() };
        assert(r.position_values() =~= seq![]);
        assert(r.index_values() =~= seq![]);
        r
    }

    /// Appends the four vertices, four normals and six indices of `q`.
    pub fn push_quad(&mut self, q: &Quad)
        requires
            old(self).positions@.len() + 4 <= u32::MAX + 1,
            corners_fit(*q),
        ensures
            final(self).position_values() == old(self).position_values() + quad_corners(*q),
            final(self).normals@ == old(self).normals@ + quad_normals(*q),
            final(self).index_values() == old(self).index_values() + quad_indices(
                *q,
                old(self).positions@.len() as int,
            ),
            final(self).positions@.len() == old(self).positions@.len() + 4,
    {
        let d = q.direction;
        let origin = (q.x, q.y, q.z);
        let base_corner = if d.is_positive() {
            shift(origin, d.normal_axis(), 1)
        } else {
            origin
        };
        let wa = d.width_axis();
        let ha = d.height_axis();
        let c1 = shift(base_corner, wa, q.width);
        let c2 = shift(c1, ha, q.height);
        let c3 = shift(base_corner, ha, q.height);
        let b = self.positions.len() as u32;
        let ghost old_pos = self.position_values();
        let ghost old_idx = self.index_values();
        self.positions.push(base_corner);
        self.positions.push(c1);
        self.positions.push(c2);
        self.positions.push(c3);
        let m = d.normal();
        self.normals.push(m);
        self.normals.push(m);
        self.normals.push(m);
        self.normals.push(m);
        if d.flips_winding() {
            self.indices.push(b);
            self.indices.push(b + 3);
            self.indices.push(b + 2);
            self.indices.push(b + 2);
            self.indices.push(b + 1);
            self.indices.push(b);
        } else {
            self.indices.push(b);
            self.indices.push(b + 1);
            self.indices.push(b + 2);
            self.indices.push(b + 2);
            self.indices.push(b + 3);
            self.indices.push(b);
        }
        assert(self.position_values() =~= old_pos + quad_corners(*q));
        assert(self.normals@ =~= old(self).normals@ + quad_normals(*q));
        assert(self.index_values() =~= old_idx + quad_indices(*q, b as int));
    }
}


/// A chosen quad lies inside the grid.
pub proof fn lemma_chosen_in_grid(chunk: Chunk, prev: Seq<Quad>, q: Quad)
    requires
        chosen(chunk, prev, q),
    ensures
        q.x < chunk.side(),
        q.y < chunk.side(),
        q.z < chunk.side(),
        q.width <= chunk.side(),
        q.height <= chunk.side(),
{
    let d = q.direction;
    let o = q.origin();
    assert(available(chunk, prev, d, rect_cell(d, o, 0, 0)));
    assert(available(chunk, prev, d, rect_cell(d, o, q.width - 1, 0)));
    assert(available(chunk, prev, d, rect_cell(d, o, 0, q.height - 1)));
}

/// The buffers of the quads `quads`, appended in order.
pub fn assemble_mesh(quads: &Vec<Quad>) -> (r: MeshBuffers)
    requires
        4 * quads@.len() <= u32::MAX + 1,
        forall|i: int| 0 <= i < quads@.len() ==> corners_fit(#[trigger] quads@[i]),
    ensures
        r.holds(quads@),
{
    let mut mesh = MeshBuffers::new();
    let mut i: usize = 0;
    assert(quads@.take(0) =~= seq![]);
    while i < quads.len()
        invariant
            4 * quads@.len() <= u32::MAX + 1,
            forall|i: int| 0 <= i < quads@.len() ==> corners_fit(#[trigger] quads@[i]),
            i <= quads@.len(),
            mesh.holds(quads@.take(i as int)),
        decreases quads@.len() - i,
    {
        let q = &quads[i];
        mesh.push_quad(q);
        proof {
            let next = quads@.take(i + 1);
            assert(next.drop_last() =~= quads@.take(i as int));
            assert(next.last() == *q);
        }
        i += 1;
    }
    assert(quads@.take(quads@.len() as int) =~= quads@);
    mesh
}

/// Meshes `chunk`: the buffers hold the quads of the greedy pass, in the order
/// they are emitted. Indices are `u32`, so the grid is small enough that even
/// one quad per face, 24 vertices per cell, stays addressable.
pub fn greedy_mesh(chunk: &Chunk) -> (r: MeshBuffers)
    requires
        chunk.wf(),
        24 * (chunk.side() * chunk.side() * chunk.side()) <= u32::MAX + 1,
    ensures
        exists|qs: Seq<Quad>|
            greedy_result(*chunk, qs) && r.holds(qs) && total_area(qs) == visible_face_count(*chunk),
{
    let ghost n = chunk.side() as int;
    let quads = greedy_quads(chunk);
    proof {
        assert(n <= n * n * n) by (nonlinear_arith)
            requires
                n >= 0,
        ;
        assert forall|i: int| 0 <= i < quads@.len() implies corners_fit(#[trigger] quads@[i]) by {
            assert(chosen(*chunk, quads@.take(i), quads@[i]));
            lemma_chosen_in_grid(*chunk, quads@.take(i), quads@[i]);
        }
    }
    assemble_mesh(&quads)
}

/// Meshes `chunk` of any size: `None` exactly when its greedy quads have more
/// vertices than `u32` indices can address.
pub fn greedy_mesh_checked(chunk: &Chunk) -> (r: Option<MeshBuffers>)
    requires
        chunk.wf(),
    ensures
        exists|qs: Seq<Quad>|
            greedy_result(*chunk, qs) && match r {
                Some(m) => m.holds(qs) && total_area(qs) == visible_face_count(*chunk),
                None => 4 * qs.len() > u32::MAX + 1,
            },
{
    let ghost n = chunk.side() as int;
    let quads = greedy_quads(chunk);
    if quads.len() > 1073741824 {
        return None;
    }
    proof {
        chunk.lemma_volume_fits();
        assert(3 * n + 1 <= usize::MAX) by (nonlinear_arith)
            requires
                n >= 0,
                n * n * n <= usize::MAX,
                usize::MAX >= 4,
        ;
        assert forall|i: int| 0 <= i < quads@.len() implies corners_fit(#[trigger] quads@[i]) by {
            assert(chosen(*chunk, quads@.take(i), quads@[i]));
            lemma_chosen_in_grid(*chunk, quads@.take(i), quads@[i]);
        }
    }
    Some(assemble_mesh(&quads))
}

} // verus!
