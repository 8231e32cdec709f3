use vstd::prelude::*;
use crate::direction::{coord, shift, shifted, Direction};
use crate::grid::{
    in_grid, ipos, lemma_scan_index_bounds, lemma_scan_index_injective, scan_index,
    scan_position, Chunk,
};
use crate::laws::{lemma_coverage_exact, lemma_full_cube, lemma_full_cube_area};
use crate::queue::{count_true, lemma_scan_position_bounds, visible_flags, FaceFinder, FaceMask};

verus! {

/// A merged rectangle of coplanar faces pointing in `direction`, anchored at the
/// cell `(x, y, z)` and spanning `width` cells along the direction's width axis
/// and `height` cells along its height axis.
#[derive(Clone, Copy, Debug, PartialEq, Eq, Structural)]
pub struct Quad {
    pub direction: Direction,
    pub x: usize,
    pub y: usize,
    pub z: usize,
    pub width: usize,
    pub height: usize,
}

impl Quad {
    pub open spec fn origin(self) -> (int, int, int) {
        (self.x as int, self.y as int, self.z as int)
    }
}

/// The cell `w` steps along the width axis and `h` steps along the height axis from `o`.
pub open spec fn rect_cell(d: Direction, o: (int, int, int), w: int, h: int) -> (int, int, int) {
    shifted(shifted(o, d.width_axis_spec(), w), d.height_axis_spec(), h)
}

/// Whether `p` is one of the `width` × `height` cells of the rectangle anchored at `o`.
pub open spec fn in_rect(d: Direction, o: (int, int, int), width: int, height: int, p: (int, int, int)) -> bool {
    let wa = d.width_axis_spec();
    let ha = d.height_axis_spec();
    &&& coord(p, d.normal_axis_spec()) == coord(o, d.normal_axis_spec())
    &&& coord(o, wa) <= coord(p, wa) < coord(o, wa) + width
    &&& coord(o, ha) <= coord(p, ha) < coord(o, ha) + height
}

/// Whether quad `q` covers the face of cell `p` in direction `d`.
pub open spec fn covers(q: Quad, d: Direction, p: (int, int, int)) -> bool {
    q.direction == d && in_rect(d, q.origin(), q.width as int, q.height as int, p)
}

/// A face that is visible and that none of the quads in `prev` covers yet.
pub open spec fn available(chunk: Chunk, prev: Seq<Quad>, d: Direction, p: (int, int, int)) -> bool {
    &&& chunk.visible_face(p, d)
    &&& forall|j: int| 0 <= j < prev.len() ==> !covers(#[trigger] prev[j], d, p)
}

/// Whether `q` is the quad the greedy merger emits after the quads `prev`:
/// its origin is the first available face of its direction in scan order, its
/// first run is as wide as the available faces reach, and it grows by whole runs
/// for as long as every face of the next run is available.
pub open spec fn chosen(chunk: Chunk, prev: Seq<Quad>, q: Quad) -> bool {
    let d = q.direction;
    let o = q.origin();
    let n = chunk.side() as int;
    &&& q.width >= 1
    &&& q.height >= 1
    &&& forall|w: int, h: int|
        0 <= w < q.width && 0 <= h < q.height ==> available(chunk, prev, d, #[trigger] rect_cell(d, o, w, h))
    &&& forall|p: (int, int, int)|
        in_grid(n, p) && scan_index(n, p) < scan_index(n, o) ==> !#[trigger] available(chunk, prev, d, p)
    &&& !available(chunk, prev, d, rect_cell(d, o, q.width as int, 0))
    &&& exists|w: int| 0 <= w < q.width && !available(chunk, prev, d, #[trigger] rect_cell(d, o, w, q.height as int))
}

/// The quads of a greedy meshing pass over `chunk`, in the order they are emitted:
/// each one is the greedy choice after those before it, directions come in
/// processing order, and no visible face is left uncovered.
pub open spec fn greedy_result(chunk: Chunk, qs: Seq<Quad>) -> bool {
    &&& forall|i: int| 0 <= i < qs.len() ==> chosen(chunk, qs.take(i), #[trigger] qs[i])
    &&& forall|i: int, j: int|
        0 <= i < j < qs.len() ==> (#[trigger] qs[i]).direction.index() <= (#[trigger] qs[j]).direction.index()
    &&& forall|d: Direction, p: (int, int, int)| !#[trigger] available(chunk, qs, d, p)
}

/// The number of unit faces the quads `qs` span.
pub open spec fn total_area(qs: Seq<Quad>) -> int
    decreases qs.len(),
{
    if qs.len() == 0 {
        0
    } else {
        total_area(qs.drop_last()) + (qs.last().width as int) * (qs.last().height as int)
    }
}

/// The number of visible faces in the first `k` directions of processing order.
pub open spec fn visible_faces_in_first(chunk: Chunk, k: int) -> int
    decreases k,
{
    if k <= 0 {
        0
    } else {
        visible_faces_in_first(chunk, k - 1) + count_true(visible_flags(chunk, Direction::at(k - 1)))
    }
}

/// The number of visible faces of `chunk`, over all six directions.
pub open spec fn visible_face_count(chunk: Chunk) -> int {
    visible_faces_in_first(chunk, 6)
}

/// Whether every cell of the run `height` steps up from `origin`, `width` cells
/// long, is still queued and exposed. A run that reaches past the grid's edge
/// does not qualify. Only queued faces are tested, since the queue holds
/// exposed faces alone.
fn can_extend_row(
    chunk: &Chunk,
    mask: &FaceMask,
    d: Direction,
    origin: (usize, usize, usize),
    width: usize,
    height: usize,
) -> (r: bool)
    requires
        chunk.wf(),
        mask.wf(),
        mask.side() == chunk.side(),
        in_grid(chunk.side() as int, ipos(origin)),
        coord(ipos(origin), d.width_axis_spec()) + width <= usize::MAX,
        coord(ipos(origin), d.height_axis_spec()) + height <= usize::MAX,
        forall|p: (int, int, int)| #[trigger] mask.queued(p) ==> chunk.exposed(p, d),
    ensures
        r == forall|w: int|
            0 <= w < width ==> #[trigger] mask.queued(rect_cell(d, ipos(origin), w, height as int))
                && chunk.exposed(rect_cell(d, ipos(origin), w, height as int), d),
{
    let wa = d.width_axis();
    let ha = d.height_axis();
    proof {
        chunk.lemma_volume_fits();
    }
    let mut w: usize = 0;
    while w < width
        invariant
            chunk.wf(),
            mask.wf(),
            mask.side() == chunk.side(),
            in_grid(chunk.side() as int, ipos(origin)),
            coord(ipos(origin), d.width_axis_spec()) + width <= usize::MAX,
            coord(ipos(origin), d.height_axis_spec()) + height <= usize::MAX,
            forall|p: (int, int, int)| #[trigger] mask.queued(p) ==> chunk.exposed(p, d),
            wa == d.width_axis_spec(),
            ha == d.height_axis_spec(),
            w <= width,
            chunk.side() <= usize::MAX,
            forall|v: int|
                0 <= v < w ==> #[trigger] mask.queued(rect_cell(d, ipos(origin), v, height as int))
                    && chunk.exposed(rect_cell(d, ipos(origin), v, height as int), d),
        decreases width - w,
    {
        let along = shift(origin, wa, w);
        let p = shift(along, ha, height);
        assert(ipos(p) == rect_cell(d, ipos(origin), w as int, height as int));
        if !mask.is_queued(p) {
            return false;
        }
        assert(chunk.exposed(rect_cell(d, ipos(origin), w as int, height as int), d));
        assert forall|v: int| 0 <= v < w + 1 implies #[trigger] mask.queued(rect_cell(d, ipos(origin), v, height as int))
                    && chunk.exposed(rect_cell(d, ipos(origin), v, height as int), d) by {}
        w += 1;
    }
    true
}


/// Merges all queued faces of direction `d` into quads, appended to `quads`,
/// draining `mask`.
fn merge_direction(chunk: &Chunk, d: Direction, mask: &mut FaceMask, quads: &mut Vec<Quad>)
    requires
        chunk.wf(),
        old(mask).wf(),
        old(mask).side() == chunk.side(),
        forall|p: (int, int, int)| #[trigger] old(mask).queued(p) == available(*chunk, old(quads)@, d, p),
        forall|i: int|
            0 <= i < old(quads)@.len() ==> chosen(*chunk, old(quads)@.take(i), #[trigger] old(quads)@[i]),
    ensures
        final(quads)@.len() >= old(quads)@.len(),
        final(quads)@.len() - old(quads)@.len() <= chunk.side() * chunk.side() * chunk.side(),
        final(quads)@.take(old(quads)@.len() as int) == old(quads)@,
        forall|i: int|
            old(quads)@.len() <= i < final(quads)@.len() ==> (#[trigger] final(quads)@[i]).direction == d,
        forall|i: int|
            0 <= i < final(quads)@.len() ==> chosen(*chunk, final(quads)@.take(i), #[trigger] final(quads)@[i]),
        forall|p: (int, int, int)| !#[trigger] available(*chunk, final(quads)@, d, p),
        forall|e: Direction, p: (int, int, int)|
            e != d ==> #[trigger] available(*chunk, final(quads)@, e, p) == available(*chunk, old(quads)@, e, p),
        total_area(final(quads)@) == total_area(old(quads)@) + old(mask).queued_count(),
{
    let ghost base = quads@.len() as int;
    let ghost budget = total_area(quads@) + mask.queued_count();
    let ghost n = chunk.side() as int;
    let wa = d.width_axis();
    let ha = d.height_axis();
    proof {
        chunk.lemma_volume_fits();
    }
    let mut finder = FaceFinder::new();
    proof {
        assert forall|p: (int, int, int)|
            in_grid(n, p) && scan_index(n, p) < scan_index(n, finder.position()) implies !#[trigger] mask.queued(p) by {
            lemma_scan_index_bounds(n, p);
        }
    }
    loop
        invariant
            chunk.wf(),
            mask.wf(),
            mask.side() == chunk.side(),
            n == chunk.side(),
            chunk.side() <= usize::MAX,
            wa == d.width_axis_spec(),
            ha == d.height_axis_spec(),
            0 <= base <= quads@.len(),
            base == old(quads)@.len(),
            quads@.take(base) == old(quads)@,
            forall|i: int| base <= i < quads@.len() ==> (#[trigger] quads@[i]).direction == d,
            forall|i: int| 0 <= i < quads@.len() ==> chosen(*chunk, quads@.take(i), #[trigger] quads@[i]),
            forall|p: (int, int, int)| #[trigger] mask.queued(p) == available(*chunk, quads@, d, p),
            scan_position(n, finder.position()),
            forall|p: (int, int, int)|
                in_grid(n, p) && scan_index(n, p) < scan_index(n, finder.position()) ==> !#[trigger] mask.queued(p),
            quads@.len() - base <= scan_index(n, finder.position()) + if in_grid(n, finder.position())
                && !mask.queued(finder.position()) {
                1int
            } else {
                0int
            },
            forall|e: Direction, p: (int, int, int)|
                e != d ==> #[trigger] available(*chunk, quads@, e, p) == available(*chunk, old(quads)@, e, p),
            budget == total_area(old(quads)@) + old(mask).queued_count(),
            total_area(quads@) + mask.queued_count() == budget,
        ensures
            forall|p: (int, int, int)| !#[trigger] available(*chunk, quads@, d, p),
            total_area(quads@) == budget,
            quads@.len() - base <= n * n * n,
        decreases 2 * (n * n * n - scan_index(n, finder.position())) + if mask.queued(finder.position()) {
            1int
        } else {
            0int
        },
    {
        proof {
            lemma_scan_position_bounds(n, finder.position());
        }
        let ghost start = scan_index(n, finder.position());
        let ghost from = finder.position();
        let found = finder.next_face(mask);
        let seed = match found {
            None => {
                proof {
                    lemma_scan_position_bounds(n, finder.position());
                    if in_grid(n, from) {
                        lemma_scan_index_bounds(n, from);
                    }
                    assert forall|p: (int, int, int)| !#[trigger] available(*chunk, quads@, d, p) by {
                        if in_grid(n, p) {
                            assert(!mask.queued(p));
                        }
                    }
                    mask.lemma_drained();
                }
                break;
            },
            Some(seed) => seed,
        };
        let ghost prev = quads@;
        let ghost o = ipos(seed);
        proof {
            lemma_scan_position_bounds(n, finder.position());
            assert forall|p: (int, int, int)|
                in_grid(n, p) && scan_index(n, p) < scan_index(n, o) implies !#[trigger] available(
                *chunk,
                prev,
                d,
                p,
            ) by {
                assert(!mask.queued(p));
            }
        }
        let ghost c0 = mask.queued_count() as int;
        mask.consume(seed);
        // The queue was filled from the visibility test and the grid does not
        // change during the pass, so the seed is still exposed.
        assert(chunk.exposed(o, d));
        let mut width: usize = 1;
        let mut next = shift(seed, wa, 1);
        proof {
            assert forall|p: (int, int, int)| #[trigger]
                mask.queued(p) == (available(*chunk, prev, d, p) && !in_rect(d, o, 1, 1, p)) by {
                lemma_rect_unit(d, o, p);
            }
            assert(rect_cell(d, o, 0, 0) == o);
        }
        // A queued face is exposed, so testing the queue alone suffices.
        while mask.is_queued(next)
            invariant
                chunk.wf(),
                mask.wf(),
                mask.side() == chunk.side(),
                n == chunk.side(),
                chunk.side() <= usize::MAX,
                wa == d.width_axis_spec(),
                ha == d.height_axis_spec(),
                in_grid(n, o),
                o == ipos(seed),
                1 <= width,
                coord(o, wa) + width <= n,
                ipos(next) == rect_cell(d, o, width as int, 0),
                forall|p: (int, int, int)| #[trigger]
                    mask.queued(p) == (available(*chunk, prev, d, p) && !in_rect(d, o, width as int, 1, p)),
                forall|w: int| 0 <= w < width ==> available(*chunk, prev, d, #[trigger] rect_cell(d, o, w, 0)),
                mask.queued_count() + width == c0,
            decreases n - coord(o, wa) - width,
        {
            mask.consume(next);
            proof {
                assert forall|p: (int, int, int)| #[trigger]
                    mask.queued(p) == (available(*chunk, prev, d, p) && !in_rect(d, o, width + 1, 1, p)) by {
                    lemma_rect_grow_width(d, o, width as int, p);
                }
            }
            width += 1;
            next = shift(seed, wa, width);
        }
        proof {
            lemma_rect_cell_in(d, o, width as int, 1, width as int, 0);
        }
        let mut height: usize = 1;
        while can_extend_row(chunk, mask, d, seed, width, height)
            invariant
                chunk.wf(),
                mask.wf(),
                mask.side() == chunk.side(),
                n == chunk.side(),
                chunk.side() <= usize::MAX,
                wa == d.width_axis_spec(),
                ha == d.height_axis_spec(),
                in_grid(n, o),
                o == ipos(seed),
                1 <= width,
                1 <= height,
                coord(o, wa) + width <= n,
                coord(o, ha) + height <= n,
                forall|p: (int, int, int)| #[trigger]
                    mask.queued(p) == (available(*chunk, prev, d, p) && !in_rect(d, o, width as int, height as int, p)),
                forall|p: (int, int, int)| #[trigger] mask.queued(p) ==> chunk.exposed(p, d),
                forall|w: int, h: int|
                    0 <= w < width && 0 <= h < height ==> available(*chunk, prev, d, #[trigger] rect_cell(d, o, w, h)),
                mask.queued_count() + width * height == c0,
            decreases n - coord(o, ha) - height,
        {
            proof {
                assert(mask.queued(rect_cell(d, o, 0, height as int)));
            }
            let ghost row = rect_cell(d, o, 0, height as int);
            proof {
                lemma_rect_grow_height(d, o, width as int, height as int, o);
                assert forall|w: int| 0 <= w < width implies available(*chunk, prev, d, #[trigger] rect_cell(d, o, w, height as int)) by {
                    assert(mask.queued(rect_cell(d, o, w, height as int)));
                }
            }
            let mut w: usize = 0;
            while w < width
                invariant
                    chunk.wf(),
                    mask.wf(),
                    mask.side() == chunk.side(),
                    n == chunk.side(),
                    chunk.side() <= usize::MAX,
                    wa == d.width_axis_spec(),
                    ha == d.height_axis_spec(),
                    in_grid(n, o),
                    o == ipos(seed),
                    w <= width,
                    coord(o, wa) + width <= n,
                    coord(o, ha) + height < n,
                    row == rect_cell(d, o, 0, height as int),
                    forall|v: int| #[trigger] rect_cell(d, row, v, 0) == rect_cell(d, o, v, height as int),
                    forall|p: (int, int, int)| #[trigger]
                        mask.queued(p) == (available(*chunk, prev, d, p) && !in_rect(d, o, width as int, height as int, p)
                            && !in_rect(d, row, w as int, 1, p)),
                    forall|v: int|
                        0 <= v < width ==> available(*chunk, prev, d, #[trigger] rect_cell(d, o, v, height as int)),
                    forall|v: int|
                        w <= v < width ==> mask.queued(#[trigger] rect_cell(d, o, v, height as int)),
                    mask.queued_count() + width * height + w == c0,
                decreases width - w,
            {
                let along = shift(seed, wa, w);
                let cell = shift(along, ha, height);
                assert(ipos(cell) == rect_cell(d, o, w as int, height as int));
                mask.consume(cell);
                proof {
                    assert forall|p: (int, int, int)| #[trigger]
                        mask.queued(p) == (available(*chunk, prev, d, p) && !in_rect(d, o, width as int, height as int, p)
                            && !in_rect(d, row, w + 1, 1, p)) by {
                        lemma_rect_grow_width(d, row, w as int, p);
                    }
                    assert forall|v: int| w + 1 <= v < width implies mask.queued(#[trigger] rect_cell(d, o, v, height as int)) by {
                        lemma_rect_cell_in(d, o, width as int, height as int, v, height as int);
                        lemma_rect_cell_in(d, row, w as int, 1, v, 0);
                    }
                }
                w += 1;
            }
            proof {
                assert forall|p: (int, int, int)| #[trigger]
                    mask.queued(p) == (available(*chunk, prev, d, p) && !in_rect(d, o, width as int, height + 1, p)) by {
                    lemma_rect_grow_height(d, o, width as int, height as int, p);
                }
                assert(width * (height + 1) == width * height + width) by (nonlinear_arith);
            }
            height += 1;
        }
        proof {
            let w0 = choose|w: int|
                !(0 <= w < width ==> #[trigger] mask.queued(rect_cell(d, o, w, height as int))
                    && chunk.exposed(rect_cell(d, o, w, height as int), d));
            lemma_rect_cell_in(d, o, width as int, height as int, w0, height as int);
            assert(!available(*chunk, prev, d, rect_cell(d, o, w0, height as int)));
        }
        let q = Quad { direction: d, x: seed.0, y: seed.1, z: seed.2, width, height };
        assert(q.origin() == o);
        assert(forall|w: int, h: int|
            0 <= w < q.width && 0 <= h < q.height ==> available(*chunk, prev, d, #[trigger] rect_cell(d, o, w, h)));
        assert(forall|p: (int, int, int)|
            in_grid(n, p) && scan_index(n, p) < scan_index(n, o) ==> !#[trigger] available(*chunk, prev, d, p));
        assert(!available(*chunk, prev, d, rect_cell(d, o, q.width as int, 0)));
        assert(exists|w: int| 0 <= w < q.width && !available(*chunk, prev, d, #[trigger] rect_cell(d, o, w, q.height as int)));
        assert(chosen(*chunk, prev, q));
        quads.push(q);
        proof {
            assert(quads@ == prev.push(q));
            assert(quads@.drop_last() =~= prev);
            assert(quads@.take(prev.len() as int) =~= prev);
            assert forall|i: int| 0 <= i < prev.len() implies #[trigger] quads@.take(i) == prev.take(i) by {
                assert(quads@.take(i) =~= prev.take(i));
            }
            assert(quads@.take(base) =~= prev.take(base));
            assert forall|e: Direction, p: (int, int, int)|
                #[trigger] available(*chunk, quads@, e, p) == (available(*chunk, prev, e, p) && !covers(q, e, p)) by {
                lemma_available_push(*chunk, prev, q, e, p);
            }
            lemma_rect_cell_in(d, o, width as int, height as int, 0, 0);
            assert(rect_cell(d, o, 0, 0) == o);
            assert(!mask.queued(o));
            lemma_scan_index_bounds(n, o);
            if scan_index(n, o) == start {
                lemma_scan_position_bounds(n, from);
                if in_grid(n, from) {
                    lemma_scan_index_injective(n, o, from);
                }
            }
        }
    }
}

/// Runs the greedy merger over all six directions of `chunk`, returning the
/// quads in the order they are emitted. Each direction's faces are queued from
/// the visibility test just before its pass: the six queues share nothing and
/// the grid does not change, so this equals queuing all of them up front.
pub fn greedy_quads(chunk: &Chunk) -> (r: Vec<Quad>)
    requires
        chunk.wf(),
    ensures
        greedy_result(*chunk, r@),
        forall|d: Direction, p: (int, int, int)|
            #[trigger] chunk.visible_face(p, d) <==> exists|i: int| 0 <= i < r@.len() && covers(#[trigger] r@[i], d, p),
        forall|d: Direction, p: (int, int, int), i: int, j: int|
            #![trigger covers(r@[i], d, p), covers(r@[j], d, p)]
            0 <= i < j < r@.len() ==> !(covers(r@[i], d, p) && covers(r@[j], d, p)),
        r@.len() <= 6 * (chunk.side() * chunk.side() * chunk.side()),
        total_area(r@) == visible_face_count(*chunk),
        chunk.side() >= 1 && (forall|k: int| 0 <= k < chunk.cells().len() ==> #[trigger] chunk.cells()[k] != 0)
            ==> visible_face_count(*chunk) == 6 * (chunk.side() * chunk.side()),
{
    let ghost n = chunk.side() as int;
    let ghost cube = n * n * n;
    let mut quads: Vec<Quad> = Vec::new();
    let mut k: usize = 0;
    assert(total_area(quads@) == 0);
    while k < 6
        invariant
            chunk.wf(),
            n == chunk.side(),
            cube == n * n * n,
            k <= 6,
            forall|i: int| 0 <= i < quads@.len() ==> chosen(*chunk, quads@.take(i), #[trigger] quads@[i]),
            forall|i: int, j: int|
                0 <= i < j < quads@.len() ==> (#[trigger] quads@[i]).direction.index() <= (#[trigger] quads@[j]).direction.index(),
            forall|i: int| 0 <= i < quads@.len() ==> (#[trigger] quads@[i]).direction.index() < k,
            forall|e: Direction, p: (int, int, int)|
                e.index() < k ==> !#[trigger] available(*chunk, quads@, e, p),
            forall|e: Direction, p: (int, int, int)|
                e.index() >= k ==> #[trigger] available(*chunk, quads@, e, p) == chunk.visible_face(p, e),
            quads@.len() <= k * cube,
            total_area(quads@) == visible_faces_in_first(*chunk, k as int),
        decreases 6 - k,
    {
        let d = Direction::from_index(k);
        let mut mask = FaceMask::of_visible_faces(chunk, d);
        let ghost before = quads@;
        merge_direction(chunk, d, &mut mask, &mut quads);
        proof {
            assert forall|i: int| 0 <= i < quads@.len() implies (#[trigger] quads@[i]).direction.index() < k + 1 by {
                if i < before.len() {
                    assert(quads@[i] == quads@.take(before.len() as int)[i]);
                }
            }
            assert forall|i: int, j: int|
                0 <= i < j < quads@.len() implies (#[trigger] quads@[i]).direction.index() <= (#[trigger] quads@[j]).direction.index() by {
                if i < before.len() {
                    assert(quads@[i] == quads@.take(before.len() as int)[i]);
                    if j < before.len() {
                        assert(quads@[j] == quads@.take(before.len() as int)[j]);
                    }
                }
            }
            assert forall|e: Direction, p: (int, int, int)|
                e.index() < k + 1 implies !#[trigger] available(*chunk, quads@, e, p) by {
                if e != d {
                    assert(available(*chunk, quads@, e, p) == available(*chunk, before, e, p));
                }
            }
            assert(quads@.len() <= (k + 1) * cube) by (nonlinear_arith)
                requires
                    before.len() <= k * cube,
                    quads@.len() - before.len() <= cube,
            ;
        }
        k += 1;
    }
    proof {
        assert forall|d: Direction, p: (int, int, int)|
            #[trigger] chunk.visible_face(p, d) <==> exists|i: int| 0 <= i < quads@.len() && covers(#[trigger] quads@[i], d, p) by {
            lemma_coverage_exact(*chunk, quads@, d, p);
        }
        assert forall|d: Direction, p: (int, int, int), i: int, j: int|
            #![trigger covers(quads@[i], d, p), covers(quads@[j], d, p)]
            0 <= i < j < quads@.len() implies !(covers(quads@[i], d, p) && covers(quads@[j], d, p)) by {
            lemma_coverage_exact(*chunk, quads@, d, p);
        }
        if chunk.side() >= 1 && (forall|k: int| 0 <= k < chunk.cells().len() ==> #[trigger] chunk.cells()[k] != 0) {
            chunk.lemma_volume_fits();
            lemma_full_cube(*chunk, quads@);
            lemma_full_cube_area(chunk.side());
        }
    }
    quads
}

proof fn lemma_rect_unit(d: Direction, o: (int, int, int), p: (int, int, int))
    ensures
        in_rect(d, o, 1, 1, p) == (p == o),
{
}

proof fn lemma_rect_cell_in(d: Direction, o: (int, int, int), width: int, height: int, w: int, h: int)
    ensures
        in_rect(d, o, width, height, rect_cell(d, o, w, h)) == (0 <= w < width && 0 <= h < height),
{
}

proof fn lemma_rect_grow_width(d: Direction, o: (int, int, int), width: int, p: (int, int, int))
    requires
        width >= 0,
    ensures
        in_rect(d, o, width + 1, 1, p) == (in_rect(d, o, width, 1, p) || p == rect_cell(d, o, width, 0)),
{
}

proof fn lemma_rect_grow_height(d: Direction, o: (int, int, int), width: int, height: int, p: (int, int, int))
    requires
        height >= 0,
    ensures
        in_rect(d, o, width, height + 1, p) == (in_rect(d, o, width, height, p) || in_rect(
            d,
            rect_cell(d, o, 0, height),
            width,
            1,
            p,
        )),
        forall|w: int| #[trigger] rect_cell(d, rect_cell(d, o, 0, height), w, 0) == rect_cell(d, o, w, height),
{
}

proof fn lemma_available_push(chunk: Chunk, prev: Seq<Quad>, q: Quad, e: Direction, p: (int, int, int))
    ensures
        available(chunk, prev.push(q), e, p) == (available(chunk, prev, e, p) && !covers(q, e, p)),
{
    let next = prev.push(q);
    if available(chunk, prev, e, p) && !covers(q, e, p) {
        assert forall|j: int| 0 <= j < next.len() implies !covers(#[trigger] next[j], e, p) by {
            if j < prev.len() {
                assert(next[j] == prev[j]);
            }
        }
    }
    if available(chunk, next, e, p) {
        assert(next[prev.len() as int] == q);
        assert forall|j: int| 0 <= j < prev.len() implies !covers(#[trigger] prev[j], e, p) by {
            assert(next[j] == prev[j]);
        }
    }
}

} // verus!
