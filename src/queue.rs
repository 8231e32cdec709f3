use vstd::prelude::*;
use crate::direction::Direction;
use crate::grid::{
    advance, cell_index, cell_of, lemma_cell_of, face_visible, in_grid, ipos, lemma_scan_index_bounds,
    lemma_scan_index_injective, scan_index, scan_position, Chunk,
};

verus! {

/// The scan index of a scan position is at most `n`³.
pub proof fn lemma_scan_position_bounds(n: int, p: (int, int, int))
    requires
        n >= 0,
        scan_position(n, p),
    ensures
        0 <= scan_index(n, p) <= n * n * n,
        !in_grid(n, p) ==> scan_index(n, p) == n * n * n,
{
    if in_grid(n, p) {
        lemma_scan_index_bounds(n, p);
    } else {
        assert((n * n + 0) * n + 0 == n * n * n) by (nonlinear_arith);
    }
}

/// The number of set flags in `s`.
pub open spec fn count_true(s: Seq<bool>) -> nat
    decreases s.len(),
{
    if s.len() == 0 {
        0
    } else {
        count_true(s.drop_last()) + if s.last() { 1nat } else { 0nat }
    }
}

/// Clearing a set flag lowers the count by one.
pub proof fn lemma_count_true_clear(s: Seq<bool>, i: int)
    requires
        0 <= i < s.len(),
        s[i],
    ensures
        count_true(s.update(i, false)) + 1 == count_true(s),
    decreases s.len(),
{
    let t = s.update(i, false);
    if i == s.len() - 1 {
        assert(t.drop_last() =~= s.drop_last());
    } else {
        assert(t.drop_last() =~= s.drop_last().update(i, false));
        lemma_count_true_clear(s.drop_last(), i);
    }
}

/// A sequence with no set flag counts zero.
pub proof fn lemma_count_true_none(s: Seq<bool>)
    requires
        forall|i: int| 0 <= i < s.len() ==> !#[trigger] s[i],
    ensures
        count_true(s) == 0,
    decreases s.len(),
{
    if s.len() > 0 {
        lemma_count_true_none(s.drop_last());
    }
}

/// In scan order, whether each cell's face in direction `d` is visible.
pub open spec fn visible_flags(chunk: Chunk, d: Direction) -> Seq<bool> {
    let n = chunk.side() as int;
    Seq::new((n * n * n) as nat, |i: int| chunk.visible_face(cell_of(n, i), d))
}

/// The faces of one direction that still wait to be merged, one flag per cell.
pub struct FaceMask {
    size: usize,
    flags: Vec<bool>,
}

impl FaceMask {
    pub closed spec fn side(self) -> nat {
        self.size as nat
    }

    /// The flags in scan order.
    pub closed spec fn flags(self) -> Seq<bool> {
        self.flags@
    }

    pub open spec fn wf(self) -> bool {
        self.flags().len() == self.side() * self.side() * self.side()
    }

    /// How many faces are still queued.
    pub open spec fn queued_count(self) -> nat {
        count_true(self.flags())
    }

    /// A mask in which no face is queued counts zero.
    pub proof fn lemma_drained(self)
        requires
            self.wf(),
            forall|p: (int, int, int)| !#[trigger] self.queued(p),
        ensures
            self.queued_count() == 0,
    {
        let n = self.side() as int;
        assert forall|i: int| 0 <= i < self.flags().len() implies !#[trigger] self.flags()[i] by {
            lemma_cell_of(n, i);
            assert(!self.queued(cell_of(n, i)));
        }
        lemma_count_true_none(self.flags());
    }

    /// Whether the face of cell `p` is still queued; never for a cell outside the grid.
    pub open spec fn queued(self, p: (int, int, int)) -> bool {
        in_grid(self.side() as int, p) && self.flags()[scan_index(self.side() as int, p)]
    }

    /// The mask of the faces in direction `d` that are visible in `chunk`.
    pub fn of_visible_faces(chunk: &Chunk, d: Direction) -> (r: FaceMask)
        requires
            chunk.wf(),
        ensures
            r.wf(),
            r.side() == chunk.side(),
            r.flags() == visible_flags(*chunk, d),
            forall|p: (int, int, int)| #[trigger] r.queued(p) == chunk.visible_face(p, d),
    {
        let n = chunk.size();
        let ghost ni = n as int;
        proof {
            chunk.lemma_volume_fits();
        }
        let mut flags: Vec<bool> = Vec::new();
        let mut p: (usize, usize, usize) = (0, 0, 0);
        while p.0 < n
            invariant
                chunk.wf(),
                n == chunk.side(),
                ni == n,
                n * n * n <= usize::MAX,
                scan_position(ni, ipos(p)),
                flags@.len() == scan_index(ni, ipos(p)),
                forall|q: (int, int, int)|
                    in_grid(ni, q) && scan_index(ni, q) < flags@.len() ==> flags@[scan_index(ni, q)]
                        == chunk.visible_face(q, d),
            decreases n * n * n - scan_index(ni, ipos(p)),
        {
            proof {
                lemma_scan_position_bounds(ni, ipos(p));
            }
            let visible = chunk.is_solid(p.0, p.1, p.2) && face_visible(chunk, p, d);
            flags.push(visible);
            proof {
                assert forall|q: (int, int, int)|
                    in_grid(ni, q) && scan_index(ni, q) < flags@.len() implies flags@[scan_index(
                        ni,
                        q,
                    )] == chunk.visible_face(q, d) by {
                    if scan_index(ni, q) == scan_index(ni, ipos(p)) {
                        lemma_scan_index_injective(ni, q, ipos(p));
                    }
                }
            }
            p = advance(n, p);
            proof {
                lemma_scan_position_bounds(ni, ipos(p));
            }
        }
        proof {
            lemma_scan_position_bounds(ni, ipos(p));
        }
        let r = FaceMask { size: n, flags };
        assert forall|q: (int, int, int)| #[trigger] r.queued(q) == chunk.visible_face(q, d) by {
            if in_grid(ni, q) {
                lemma_scan_index_bounds(ni, q);
            }
        }
        assert forall|i: int| 0 <= i < ni * ni * ni implies r.flags()[i] == visible_flags(*chunk, d)[i] by {
            lemma_cell_of(ni, i);
        }
        assert(r.flags() =~= visible_flags(*chunk, d));
        r
    }

    /// Whether the face at `p` is still queued; false outside the grid.
    pub fn is_queued(&self, p: (usize, usize, usize)) -> (r: bool)
        requires
            self.wf(),
        ensures
            r == self.queued(ipos(p)),
    {
        if p.0 < self.size && p.1 < self.size && p.2 < self.size {
            proof {
                self.lemma_volume_fits();
            }
            self.flags[cell_index(self.size, p)]
        } else {
            false
        }
    }

    /// Takes the face at `p` out of the queue.
    pub fn consume(&mut self, p: (usize, usize, usize))
        requires
            old(self).wf(),
            in_grid(old(self).side() as int, ipos(p)),
        ensures
            final(self).wf(),
            final(self).side() == old(self).side(),
            final(self).flags() == old(self).flags().update(
                scan_index(old(self).side() as int, ipos(p)),
                false,
            ),
            forall|q: (int, int, int)| #[trigger]
                final(self).queued(q) == (old(self).queued(q) && q != ipos(p)),
            old(self).queued(ipos(p)) ==> final(self).queued_count() + 1 == old(self).queued_count(),
    {
        proof {
            self.lemma_volume_fits();
        }
        let i = cell_index(self.size, p);
        self.flags.set(i, false);
        proof {
            if old(self).queued(ipos(p)) {
                lemma_count_true_clear(old(self).flags(), i as int);
            }
            let n = self.side() as int;
            assert forall|q: (int, int, int)| #[trigger]
                self.queued(q) == (old(self).queued(q) && q != ipos(p)) by {
                if in_grid(n, q) {
                    lemma_scan_index_bounds(n, q);
                    if scan_index(n, q) == scan_index(n, ipos(p)) {
                        lemma_scan_index_injective(n, q, ipos(p));
                    }
                }
            }
        }
    }

    proof fn lemma_volume_fits(self)
        requires
            self.wf(),
        ensures
            self.side() * self.side() * self.side() <= usize::MAX,
    {
        assert(self.flags.len() == self.flags@.len());
    }
}

/// A cursor over a mask in scan order that only moves forward, so that all
/// seeds of one direction are found in one pass over the grid.
pub struct FaceFinder {
    next_face: (usize, usize, usize),
}

impl FaceFinder {
    /// The position the next search starts from.
    pub closed spec fn position(self) -> (int, int, int) {
        ipos(self.next_face)
    }

    /// A cursor at the first cell.
    pub fn new() -> (r: FaceFinder)
        ensures
            r.position() == (0int, 0int, 0int),
    {
        FaceFinder { next_face: (0, 0, 0) }
    }

    /// The first queued face at or after the cursor, in scan order. The cursor
    /// then rests on it, so the next search resumes from the last position
    /// examined.
    pub fn next_face(&mut self, mask: &FaceMask) -> (r: Option<(usize, usize, usize)>)
        requires
            mask.wf(),
            scan_position(mask.side() as int, old(self).position()),
        ensures
            scan_position(mask.side() as int, final(self).position()),
            ({
                let n = mask.side() as int;
                let start = scan_index(n, old(self).position());
                match r {
                    Some(p) => {
                        &&& in_grid(n, ipos(p))
                        &&& mask.queued(ipos(p))
                        &&& start <= scan_index(n, ipos(p))
                        &&& final(self).position() == ipos(p)
                        &&& forall|q: (int, int, int)|
                            in_grid(n, q) && start <= scan_index(n, q) < scan_index(n, ipos(p))
                                ==> !mask.queued(q)
                    },
                    None => {
                        &&& final(self).position() == (n, 0int, 0int)
                        &&& forall|q: (int, int, int)|
                            in_grid(n, q) && start <= scan_index(n, q) ==> !mask.queued(q)
                    },
                }
            }),
    {
        let n = mask.size;
        let ghost ni = n as int;
        let ghost start = scan_index(ni, self.position());
        proof {
            mask.lemma_volume_fits();
        }
        while self.next_face.0 < n
            invariant
                mask.wf(),
                n == mask.side(),
                ni == n,
                n * n * n <= usize::MAX,
                scan_position(ni, self.position()),
                start == scan_index(ni, old(self).position()),
                start <= scan_index(ni, self.position()),
                forall|q: (int, int, int)|
                    in_grid(ni, q) && start <= scan_index(ni, q) < scan_index(ni, self.position())
                        ==> !mask.queued(q),
            decreases n * n * n - scan_index(ni, self.position()),
        {
            proof {
                lemma_scan_position_bounds(ni, self.position());
            }
            let p = self.next_face;
            let queued = mask.flags[cell_index(n, p)];
            if queued {
                return Some(p);
            }
            self.next_face = advance(n, p);
            proof {
                assert forall|q: (int, int, int)|
                    in_grid(ni, q) && start <= scan_index(ni, q) < scan_index(ni, self.position())
                        implies !mask.queued(q) by {
                    if scan_index(ni, q) == scan_index(ni, ipos(p)) {
                        lemma_scan_index_injective(ni, q, ipos(p));
                    }
                }
                lemma_scan_position_bounds(ni, self.position());
            }
        }
        proof {
            lemma_scan_position_bounds(ni, self.position());
            assert forall|q: (int, int, int)| in_grid(ni, q) && start <= scan_index(ni, q) implies !mask.queued(q) by {
                lemma_scan_index_bounds(ni, q);
            }
        }
        None
    }
}

} // verus!
