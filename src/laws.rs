use vstd::prelude::*;
use crate::direction::{coord, Direction};
use crate::grid::{in_grid, lemma_scan_index_bounds, lemma_scan_index_injective, neighbour, scan_index, Chunk};
use crate::merge::{available, chosen, covers, greedy_result, in_rect, rect_cell, total_area, Quad};
use crate::mesh::{corner, mesh_indices, mesh_normals, MeshBuffers};

verus! {

/// A cell of a rectangle is the rectangle's cell at its offsets along the width
/// and height axes.
proof fn lemma_in_rect_is_rect_cell(d: Direction, o: (int, int, int), width: int, height: int, p: (int, int, int))
    requires
        in_rect(d, o, width, height, p),
    ensures
        p == rect_cell(
            d,
            o,
            coord(p, d.width_axis_spec()) - coord(o, d.width_axis_spec()),
            coord(p, d.height_axis_spec()) - coord(o, d.height_axis_spec()),
        ),
        0 <= coord(p, d.width_axis_spec()) - coord(o, d.width_axis_spec()) < width,
        0 <= coord(p, d.height_axis_spec()) - coord(o, d.height_axis_spec()) < height,
{
}

/// A face that quad `i` of a greedy pass covers was available when it was emitted.
proof fn lemma_covered_was_available(chunk: Chunk, qs: Seq<Quad>, i: int, d: Direction, p: (int, int, int))
    requires
        greedy_result(chunk, qs),
        0 <= i < qs.len(),
        covers(qs[i], d, p),
    ensures
        available(chunk, qs.take(i), d, p),
{
    let q = qs[i];
    lemma_in_rect_is_rect_cell(d, q.origin(), q.width as int, q.height as int, p);
    assert(chosen(chunk, qs.take(i), q));
    let w = coord(p, d.width_axis_spec()) - coord(q.origin(), d.width_axis_spec());
    let h = coord(p, d.height_axis_spec()) - coord(q.origin(), d.height_axis_spec());
    assert(available(chunk, qs.take(i), d, rect_cell(d, q.origin(), w, h)));
}

/// The quads of a greedy pass cover exactly the visible faces, and no face twice.
pub proof fn lemma_coverage_exact(chunk: Chunk, qs: Seq<Quad>, d: Direction, p: (int, int, int))
    requires
        greedy_result(chunk, qs),
    ensures
        chunk.visible_face(p, d) <==> exists|i: int| 0 <= i < qs.len() && covers(#[trigger] qs[i], d, p),
        forall|i: int, j: int|
            0 <= i < j < qs.len() ==> !(covers(#[trigger] qs[i], d, p) && covers(#[trigger] qs[j], d, p)),
{
    assert(!available(chunk, qs, d, p));
    if exists|i: int| 0 <= i < qs.len() && covers(#[trigger] qs[i], d, p) {
        let i = choose|i: int| 0 <= i < qs.len() && covers(#[trigger] qs[i], d, p);
        lemma_covered_was_available(chunk, qs, i, d, p);
    }
    assert forall|i: int, j: int|
        0 <= i < j < qs.len() implies !(covers(#[trigger] qs[i], d, p) && covers(#[trigger] qs[j], d, p)) by {
        if covers(qs[i], d, p) && covers(qs[j], d, p) {
            lemma_covered_was_available(chunk, qs, j, d, p);
            assert(qs.take(j)[i] == qs[i]);
        }
    }
}

/// A grid with no solid cell gives no quads, and so an empty mesh.
pub proof fn lemma_empty_grid(chunk: Chunk, qs: Seq<Quad>, m: MeshBuffers)
    requires
        chunk.wf(),
        forall|i: int| 0 <= i < chunk.cells().len() ==> #[trigger] chunk.cells()[i] == 0,
        greedy_result(chunk, qs),
        m.holds(qs),
    ensures
        qs.len() == 0,
        m.positions@.len() == 0,
        m.normals@.len() == 0,
        m.indices@.len() == 0,
{
    if qs.len() > 0 {
        let q = qs[0];
        assert(chosen(chunk, qs.take(0), q));
        let o = rect_cell(q.direction, q.origin(), 0, 0);
        assert(available(chunk, qs.take(0), q.direction, o));
        lemma_scan_index_bounds(chunk.side() as int, o);
        assert(false);
    }
    assert(mesh_normals(qs) == Seq::<(i8, i8, i8)>::empty());
    assert(mesh_indices(qs) == Seq::<int>::empty());
    assert(m.index_values().len() == m.indices@.len());
}

/// Each quad of two greedy passes over one grid agrees, given the same quads before it.
proof fn lemma_same_choice(chunk: Chunk, a: Seq<Quad>, b: Seq<Quad>, k: int)
    requires
        greedy_result(chunk, a),
        greedy_result(chunk, b),
        0 <= k < a.len(),
        0 <= k < b.len(),
        a.take(k) == b.take(k),
    ensures
        a[k] == b[k],
{
    let prev = a.take(k);
    let qa = a[k];
    let qb = b[k];
    let n = chunk.side() as int;
    assert(chosen(chunk, prev, qa));
    assert(chosen(chunk, b.take(k), qb));
    let oa = qa.origin();
    let ob = qb.origin();
    assert(available(chunk, prev, qa.direction, rect_cell(qa.direction, oa, 0, 0)));
    assert(available(chunk, prev, qb.direction, rect_cell(qb.direction, ob, 0, 0)));
    if qa.direction.index() < qb.direction.index() {
        assert forall|j: int| 0 <= j < b.len() implies !covers(#[trigger] b[j], qa.direction, oa) by {
            if j < k {
                assert(prev[j] == b[j]);
            } else if j > k {
                assert(b[k].direction.index() <= b[j].direction.index());
            }
        }
        assert(available(chunk, b, qa.direction, oa));
        assert(false);
    }
    if qb.direction.index() < qa.direction.index() {
        assert forall|j: int| 0 <= j < a.len() implies !covers(#[trigger] a[j], qb.direction, ob) by {
            if j < k {
                assert(prev[j] == a[j]);
            } else if j > k {
                assert(a[k].direction.index() <= a[j].direction.index());
            }
        }
        assert(available(chunk, a, qb.direction, ob));
        assert(false);
    }
    let d = qa.direction;
    assert(qb.direction == d);
    if scan_index(n, oa) != scan_index(n, ob) {
        assert(!available(chunk, prev, d, oa) || !available(chunk, prev, d, ob));
        assert(false);
    }
    lemma_scan_index_injective(n, oa, ob);
    let o = oa;
    if qa.width < qb.width {
        assert(available(chunk, prev, d, rect_cell(d, o, qa.width as int, 0)));
        assert(false);
    }
    if qb.width < qa.width {
        assert(available(chunk, prev, d, rect_cell(d, o, qb.width as int, 0)));
        assert(false);
    }
    if qa.height < qb.height {
        let w = choose|w: int|
            0 <= w < qa.width && !available(chunk, prev, d, #[trigger] rect_cell(d, o, w, qa.height as int));
        assert(available(chunk, prev, d, rect_cell(d, o, w, qa.height as int)));
        assert(false);
    }
    if qb.height < qa.height {
        let w = choose|w: int|
            0 <= w < qb.width && !available(chunk, prev, d, #[trigger] rect_cell(d, o, w, qb.height as int));
        assert(available(chunk, prev, d, rect_cell(d, o, w, qb.height as int)));
        assert(false);
    }
}

/// A greedy pass that stops after `a` has no further quad to emit.
proof fn lemma_no_quad_after_end(chunk: Chunk, a: Seq<Quad>, b: Seq<Quad>)
    requires
        greedy_result(chunk, a),
        greedy_result(chunk, b),
        a.len() <= b.len(),
        b.take(a.len() as int) == a,
    ensures
        a.len() == b.len(),
{
    if a.len() < b.len() {
        let k = a.len() as int;
        let q = b[k];
        assert(chosen(chunk, b.take(k), q));
        assert(available(chunk, a, q.direction, rect_cell(q.direction, q.origin(), 0, 0)));
    }
}

/// Two greedy passes over one grid agree on as many quads as both have.
proof fn lemma_common_prefix(chunk: Chunk, a: Seq<Quad>, b: Seq<Quad>, k: int)
    requires
        greedy_result(chunk, a),
        greedy_result(chunk, b),
        0 <= k <= a.len(),
        k <= b.len(),
        a.take(k) == b.take(k),
    ensures
        a.len() <= b.len() ==> a.take(a.len() as int) == b.take(a.len() as int),
        b.len() <= a.len() ==> a.take(b.len() as int) == b.take(b.len() as int),
    decreases a.len() - k,
{
    if k < a.len() && k < b.len() {
        lemma_same_choice(chunk, a, b, k);
        assert(a.take(k + 1) =~= a.take(k).push(a[k]));
        assert(b.take(k + 1) =~= b.take(k).push(b[k]));
        lemma_common_prefix(chunk, a, b, k + 1);
    }
}

/// A grid has one greedy quad sequence.
pub proof fn lemma_greedy_unique(chunk: Chunk, a: Seq<Quad>, b: Seq<Quad>)
    requires
        greedy_result(chunk, a),
        greedy_result(chunk, b),
    ensures
        a == b,
{
    assert(a.take(0) =~= b.take(0));
    lemma_common_prefix(chunk, a, b, 0);
    let k = if a.len() <= b.len() { a.len() as int } else { b.len() as int };
    if a.len() <= b.len() {
        assert(a.take(k) =~= a);
        lemma_no_quad_after_end(chunk, a, b);
    } else {
        assert(b.take(k) =~= b);
        lemma_no_quad_after_end(chunk, b, a);
    }
    assert(a.take(k) =~= a);
    assert(b.take(k) =~= b);
}

/// Meshing one grid twice gives the same quads in the same order, and so the
/// same buffers.
pub proof fn lemma_meshing_deterministic(chunk: Chunk, a: Seq<Quad>, b: Seq<Quad>, ma: MeshBuffers, mb: MeshBuffers)
    requires
        greedy_result(chunk, a),
        greedy_result(chunk, b),
        ma.holds(a),
        mb.holds(b),
    ensures
        a == b,
        ma.position_values() == mb.position_values(),
        ma.normals@ == mb.normals@,
        ma.index_values() == mb.index_values(),
{
    lemma_greedy_unique(chunk, a, b);
}

/// Every vertex of a quad lies on the plane between its cells and their
/// neighbours: one unit past the cells for positive directions, on their near
/// side otherwise.
pub proof fn lemma_vertices_on_face_plane(q: Quad, j: int)
    ensures
        coord(corner(q, j), q.direction.normal_axis_spec()) == coord(q.origin(), q.direction.normal_axis_spec())
            + if q.direction.is_positive_spec() { 1int } else { 0int },
{
}

/// Where every visible face of a grid faces its boundary, every vertex of the
/// greedy quads lies on the grid's boundary: at 0 or `n` along the normal.
pub proof fn lemma_flush_on_boundary(chunk: Chunk, qs: Seq<Quad>, i: int, j: int)
    requires
        greedy_result(chunk, qs),
        forall|p: (int, int, int), d: Direction|
            #[trigger] chunk.visible_face(p, d) ==> !in_grid(chunk.side() as int, neighbour(p, d)),
        0 <= i < qs.len(),
    ensures
        coord(corner(qs[i], j), qs[i].direction.normal_axis_spec()) == 0
            || coord(corner(qs[i], j), qs[i].direction.normal_axis_spec()) == chunk.side(),
{
    let q = qs[i];
    let d = q.direction;
    assert(chosen(chunk, qs.take(i), q));
    assert(available(chunk, qs.take(i), d, rect_cell(d, q.origin(), 0, 0)));
    assert(chunk.visible_face(q.origin(), d));
    lemma_vertices_on_face_plane(q, j);
}


/// The quads of an all-solid grid of side `n`: one `n` × `n` square per
/// direction, anchored at the first cell of that side in scan order.
pub open spec fn full_cube_quads(n: nat) -> Seq<Quad> {
    let s = n as usize;
    let m = (n - 1) as usize;
    seq![
        Quad { direction: Direction::PositiveX, x: m, y: 0, z: 0, width: s, height: s },
        Quad { direction: Direction::NegativeX, x: 0, y: 0, z: 0, width: s, height: s },
        Quad { direction: Direction::PositiveY, x: 0, y: m, z: 0, width: s, height: s },
        Quad { direction: Direction::NegativeY, x: 0, y: 0, z: 0, width: s, height: s },
        Quad { direction: Direction::PositiveZ, x: 0, y: 0, z: m, width: s, height: s },
        Quad { direction: Direction::NegativeZ, x: 0, y: 0, z: 0, width: s, height: s },
    ]
}

/// The coordinate along the normal of the cells whose faces in direction `d`
/// lie on the grid's boundary.
pub open spec fn boundary_layer(n: int, d: Direction) -> int {
    if d.is_positive_spec() {
        n - 1
    } else {
        0
    }
}

proof fn lemma_scan_index_monotone(n: int, p: (int, int, int), o: (int, int, int))
    requires
        n >= 0,
        0 <= o.0 <= p.0,
        0 <= o.1 <= p.1,
        0 <= o.2 <= p.2,
    ensures
        scan_index(n, o) <= scan_index(n, p),
{
    assert(o.0 * n + o.1 <= p.0 * n + p.1) by (nonlinear_arith)
        requires
            n >= 0,
            0 <= o.0 <= p.0,
            0 <= o.1 <= p.1,
    ;
    let a = o.0 * n + o.1;
    let b = p.0 * n + p.1;
    assert(a * n <= b * n) by (nonlinear_arith)
        requires
            n >= 0,
            a <= b,
    ;
}

/// In an all-solid grid the visible faces are those on the grid's boundary.
proof fn lemma_full_visible(chunk: Chunk, p: (int, int, int), d: Direction)
    requires
        chunk.wf(),
        forall|i: int| 0 <= i < chunk.cells().len() ==> #[trigger] chunk.cells()[i] != 0,
    ensures
        chunk.visible_face(p, d) == (in_grid(chunk.side() as int, p) && coord(p, d.normal_axis_spec())
            == boundary_layer(chunk.side() as int, d)),
{
    let n = chunk.side() as int;
    if in_grid(n, p) {
        lemma_scan_index_bounds(n, p);
    }
    if in_grid(n, neighbour(p, d)) {
        lemma_scan_index_bounds(n, neighbour(p, d));
    }
}

/// Before quad `i` of the full-cube sequence, every visible face of its
/// direction is still available.
proof fn lemma_full_prefix_available(chunk: Chunk, i: int, p: (int, int, int))
    requires
        0 <= i < 6,
    ensures
        available(chunk, full_cube_quads(chunk.side()).take(i), full_cube_quads(chunk.side())[i].direction, p)
            == chunk.visible_face(p, full_cube_quads(chunk.side())[i].direction),
{
    let qs = full_cube_quads(chunk.side());
    let prev = qs.take(i);
    assert forall|j: int| 0 <= j < prev.len() implies !covers(#[trigger] prev[j], qs[i].direction, p) by {
        assert(prev[j] == qs[j]);
    }
}

proof fn lemma_full_choice(chunk: Chunk, i: int)
    requires
        chunk.wf(),
        chunk.side() >= 1,
        forall|k: int| 0 <= k < chunk.cells().len() ==> #[trigger] chunk.cells()[k] != 0,
        0 <= i < 6,
    ensures
        chosen(chunk, full_cube_quads(chunk.side()).take(i), full_cube_quads(chunk.side())[i]),
{
    chunk.lemma_volume_fits();
    let n = chunk.side() as int;
    let qs = full_cube_quads(chunk.side());
    let prev = qs.take(i);
    let q = qs[i];
    let d = q.direction;
    let o = q.origin();
    assert(coord(o, d.normal_axis_spec()) == boundary_layer(n, d));
    assert(coord(o, d.width_axis_spec()) == 0);
    assert(coord(o, d.height_axis_spec()) == 0);
    assert(q.width == n && q.height == n);
    assert forall|w: int, h: int| 0 <= w < q.width && 0 <= h < q.height implies available(
        chunk,
        prev,
        d,
        #[trigger] rect_cell(d, o, w, h),
    ) by {
        lemma_full_prefix_available(chunk, i, rect_cell(d, o, w, h));
        lemma_full_visible(chunk, rect_cell(d, o, w, h), d);
    }
    assert forall|p: (int, int, int)|
        in_grid(n, p) && scan_index(n, p) < scan_index(n, o) implies !#[trigger] available(chunk, prev, d, p) by {
        lemma_full_prefix_available(chunk, i, p);
        lemma_full_visible(chunk, p, d);
        if chunk.visible_face(p, d) {
            lemma_scan_index_monotone(n, p, o);
        }
    }
    lemma_full_prefix_available(chunk, i, rect_cell(d, o, n, 0));
    lemma_full_visible(chunk, rect_cell(d, o, n, 0), d);
    lemma_full_prefix_available(chunk, i, rect_cell(d, o, 0, n));
    lemma_full_visible(chunk, rect_cell(d, o, 0, n), d);
    assert(!available(chunk, prev, d, rect_cell(d, o, 0, q.height as int)));
}

proof fn lemma_full_greedy(chunk: Chunk)
    requires
        chunk.wf(),
        chunk.side() >= 1,
        forall|k: int| 0 <= k < chunk.cells().len() ==> #[trigger] chunk.cells()[k] != 0,
    ensures
        greedy_result(chunk, full_cube_quads(chunk.side())),
{
    chunk.lemma_volume_fits();
    let n = chunk.side() as int;
    let qs = full_cube_quads(chunk.side());
    assert forall|i: int| 0 <= i < qs.len() implies chosen(chunk, qs.take(i), #[trigger] qs[i]) by {
        lemma_full_choice(chunk, i);
    }
    assert forall|d: Direction, p: (int, int, int)| !#[trigger] available(chunk, qs, d, p) by {
        lemma_full_visible(chunk, p, d);
        let q = qs[d.index()];
        assert(q.direction == d);
        if chunk.visible_face(p, d) {
            assert(covers(q, d, p));
        }
    }
}

/// An all-solid grid of side `n` shows exactly the faces on its boundary, and
/// the greedy pass covers them with six `n` × `n` quads, one per direction in
/// processing order.
pub proof fn lemma_full_cube(chunk: Chunk, qs: Seq<Quad>)
    requires
        chunk.wf(),
        chunk.side() >= 1,
        forall|k: int| 0 <= k < chunk.cells().len() ==> #[trigger] chunk.cells()[k] != 0,
        greedy_result(chunk, qs),
    ensures
        forall|p: (int, int, int), d: Direction|
            #[trigger] chunk.visible_face(p, d) == (in_grid(chunk.side() as int, p) && coord(
                p,
                d.normal_axis_spec(),
            ) == boundary_layer(chunk.side() as int, d)),
        qs == full_cube_quads(chunk.side()),
        qs.len() == 6,
        forall|i: int|
            0 <= i < 6 ==> (#[trigger] qs[i]).direction.index() == i && qs[i].width == chunk.side()
                && qs[i].height == chunk.side(),
{
    chunk.lemma_volume_fits();
    assert forall|p: (int, int, int), d: Direction|
        #[trigger] chunk.visible_face(p, d) == (in_grid(chunk.side() as int, p) && coord(p, d.normal_axis_spec())
            == boundary_layer(chunk.side() as int, d)) by {
        lemma_full_visible(chunk, p, d);
    }
    lemma_full_greedy(chunk);
    let full = full_cube_quads(chunk.side());
    lemma_greedy_unique(chunk, qs, full);
}

proof fn lemma_area_step(qs: Seq<Quad>, k: int)
    requires
        0 <= k < qs.len(),
    ensures
        total_area(qs.take(k + 1)) == total_area(qs.take(k)) + (qs[k].width as int) * (qs[k].height as int),
{
    assert(qs.take(k + 1).drop_last() =~= qs.take(k));
}

/// The six full-cube quads span `6·n²` unit faces.
pub proof fn lemma_full_cube_area(n: nat)
    requires
        n <= usize::MAX,
    ensures
        total_area(full_cube_quads(n)) == 6 * (n * n),
{
    let qs = full_cube_quads(n);
    assert forall|i: int| 0 <= i < 6 implies (#[trigger] qs[i]).width == n && qs[i].height == n by {}
    assert(total_area(qs.take(0)) == 0);
    lemma_area_step(qs, 0);
    lemma_area_step(qs, 1);
    lemma_area_step(qs, 2);
    lemma_area_step(qs, 3);
    lemma_area_step(qs, 4);
    lemma_area_step(qs, 5);
    assert(qs.take(6) =~= qs);
}

} // verus!
