use vstd::prelude::*;
use crate::direction::{shifted, Direction};
use vstd::arithmetic::div_mod::{lemma_div_pos_is_pos, lemma_fundamental_div_mod, lemma_mod_pos_bound};

verus! {

/// Position of cell `p` in scan order: lexicographic over (x, y, z), z fastest.
/// Cells are stored in this order.
pub open spec fn scan_index(n: int, p: (int, int, int)) -> int {
    (p.0 * n + p.1) * n + p.2
}

/// Whether `p` lies inside a grid of side `n`.
pub open spec fn in_grid(n: int, p: (int, int, int)) -> bool {
    0 <= p.0 < n && 0 <= p.1 < n && 0 <= p.2 < n
}

/// A scan position: a cell of the grid, or the end `(n, 0, 0)` just past the last one.
pub open spec fn scan_position(n: int, p: (int, int, int)) -> bool {
    in_grid(n, p) || p == (n, 0int, 0int)
}

pub open spec fn ipos(p: (usize, usize, usize)) -> (int, int, int) {
    (p.0 as int, p.1 as int, p.2 as int)
}

pub proof fn lemma_scan_index_bounds(n: int, p: (int, int, int))
    requires
        in_grid(n, p),
    ensures
        0 <= scan_index(n, p) < n * n * n,
{
    let a = p.0 * n + p.1;
    assert(0 <= a <= (n - 1) * n + (n - 1)) by (nonlinear_arith)
        requires
            a == p.0 * n + p.1,
            0 <= p.0 < n,
            0 <= p.1 < n,
    ;
    assert(0 <= a * n + p.2 < n * n * n) by (nonlinear_arith)
        requires
            0 <= a <= (n - 1) * n + (n - 1),
            0 <= p.2 < n,
    ;
}

proof fn lemma_digits_unique(n: int, a: int, b: int, c: int, d: int)
    requires
        0 <= b < n,
        0 <= d < n,
        a * n + b == c * n + d,
    ensures
        a == c,
        b == d,
{
    assert((a - c) * n == d - b) by (nonlinear_arith)
        requires
            a * n + b == c * n + d,
    ;
    if a > c {
        assert((a - c) * n >= n) by (nonlinear_arith)
            requires
                a - c >= 1,
                n > 0,
        ;
    } else if a < c {
        assert((c - a) * n >= n) by (nonlinear_arith)
            requires
                c - a >= 1,
                n > 0,
        ;
        assert((a - c) * n == -((c - a) * n)) by (nonlinear_arith);
    }
}

/// Distinct cells of the grid have distinct scan indices.
pub proof fn lemma_scan_index_injective(n: int, p: (int, int, int), q: (int, int, int))
    requires
        in_grid(n, p),
        in_grid(n, q),
        scan_index(n, p) == scan_index(n, q),
    ensures
        p == q,
{
    lemma_digits_unique(n, p.0 * n + p.1, p.2, q.0 * n + q.1, q.2);
    lemma_digits_unique(n, p.0, p.1, q.0, q.1);
}

/// The scan index of cell `p` of a grid of side `n`.
pub fn cell_index(n: usize, p: (usize, usize, usize)) -> (r: usize)
    requires
        in_grid(n as int, ipos(p)),
        n * n * n <= usize::MAX,
    ensures
        r == scan_index(n as int, ipos(p)),
        r < n * n * n,
{
    proof {
        lemma_scan_index_bounds(n as int, ipos(p));
        assert(p.0 * n + p.1 <= (p.0 * n + p.1) * n + p.2) by (nonlinear_arith)
            requires
                n > p.1,
                p.1 >= 0,
                p.0 >= 0,
                p.2 >= 0,
        ;
    }
    (p.0 * n + p.1) * n + p.2
}

/// The cell with scan index `i` in a grid of side `n`.
pub open spec fn cell_of(n: int, i: int) -> (int, int, int) {
    ((i / n) / n, (i / n) % n, i % n)
}

/// Each scan index below `n`³ belongs to a cell of the grid.
pub proof fn lemma_cell_of(n: int, i: int)
    requires
        0 <= i < n * n * n,
    ensures
        in_grid(n, cell_of(n, i)),
        scan_index(n, cell_of(n, i)) == i,
{
    if n <= 0 {
        assert(n * n * n <= 0) by (nonlinear_arith)
            requires
                n <= 0,
        ;
    }
    let q = i / n;
    lemma_fundamental_div_mod(i, n);
    lemma_fundamental_div_mod(q, n);
    lemma_mod_pos_bound(i, n);
    lemma_mod_pos_bound(q, n);
    lemma_div_pos_is_pos(i, n);
    lemma_div_pos_is_pos(q, n);
    let r = i % n;
    assert(q < n * n) by (nonlinear_arith)
        requires
            i == n * q + r,
            0 <= r < n,
            i < n * n * n,
            n > 0,
    ;
    let qq = q / n;
    let qr = q % n;
    assert(qq < n) by (nonlinear_arith)
        requires
            q == n * qq + qr,
            0 <= qr < n,
            q < n * n,
            n > 0,
    ;
    assert((qq * n + qr) * n + r == i) by (nonlinear_arith)
        requires
            i == n * q + r,
            q == n * qq + qr,
    ;
}

/// The scan position one step after `p`.
pub open spec fn next_scan(n: int, p: (int, int, int)) -> (int, int, int) {
    if p.2 + 1 < n {
        (p.0, p.1, p.2 + 1)
    } else if p.1 + 1 < n {
        (p.0, p.1 + 1, 0)
    } else {
        (p.0 + 1, 0, 0)
    }
}

/// The scan position one step after cell `p`.
pub fn advance(n: usize, p: (usize, usize, usize)) -> (r: (usize, usize, usize))
    requires
        in_grid(n as int, ipos(p)),
    ensures
        ipos(r) == next_scan(n as int, ipos(p)),
        scan_position(n as int, ipos(r)),
        scan_index(n as int, ipos(r)) == scan_index(n as int, ipos(p)) + 1,
{
    let ghost ni = n as int;
    if p.2 + 1 < n {
        (p.0, p.1, p.2 + 1)
    } else if p.1 + 1 < n {
        proof {
            assert((p.0 * ni + p.1 + 1) * ni == (p.0 * ni + p.1) * ni + ni) by (nonlinear_arith);
        }
        (p.0, p.1 + 1, 0)
    } else {
        proof {
            assert(((p.0 + 1) * ni) * ni == (p.0 * ni + (ni - 1)) * ni + (ni - 1) + 1)
                by (nonlinear_arith);
        }
        (p.0 + 1, 0, 0)
    }
}

/// The neighbouring cell of `p` across its face in direction `d`.
pub open spec fn neighbour(p: (int, int, int), d: Direction) -> (int, int, int) {
    shifted(p, d.normal_axis_spec(), if d.is_positive_spec() { 1 } else { -1 })
}

/// A dense cubic grid of material ids; 0 is empty, anything else solid.
pub struct Chunk {
    size: usize,
    voxels: Vec<u8>,
}

impl Chunk {
    pub closed spec fn side(self) -> nat {
        self.size as nat
    }

    /// The material ids in scan order.
    pub closed spec fn cells(self) -> Seq<u8> {
        self.voxels@
    }

    pub open spec fn wf(self) -> bool {
        self.cells().len() == self.side() * self.side() * self.side()
    }

    /// The material id at cell `p`.
    pub open spec fn material(self, p: (int, int, int)) -> u8 {
        self.cells()[scan_index(self.side() as int, p)]
    }

    pub open spec fn solid(self, p: (int, int, int)) -> bool {
        in_grid(self.side() as int, p) && self.material(p) != 0
    }

    /// Whether the face of `p` in direction `d` borders the grid's boundary or an empty cell.
    pub open spec fn exposed(self, p: (int, int, int), d: Direction) -> bool {
        !self.solid(neighbour(p, d))
    }

    /// A face that must appear in the mesh: a face of a solid cell that is exposed.
    pub open spec fn visible_face(self, p: (int, int, int), d: Direction) -> bool {
        self.solid(p) && self.exposed(p, d)
    }

    /// The cell count of a well-formed grid fits in `usize`.
    pub proof fn lemma_volume_fits(self)
        requires
            self.wf(),
        ensures
            self.side() * self.side() * self.side() <= usize::MAX,
            self.side() <= usize::MAX,
    {
        assert(self.voxels.len() == self.voxels@.len());
    }

    /// A grid of side `size` whose cells, in scan order, are `cells`;
    /// `None` when `cells` does not hold exactly `size`³ entries.
    pub fn from_cells(size: usize, cells: Vec<u8>) -> (r: Option<Chunk>)
        ensures
            match r {
                Some(c) => c.wf() && c.side() == size && c.cells() == cells@,
                None => cells@.len() != size * size * size,
            },
    {
        let len = cells.len();
        match size.checked_mul(size) {
            None => {
                proof {
                    assert(size * size * size >= size * size) by (nonlinear_arith)
                        requires
                            size * size > usize::MAX,
                    ;
                }
                None
            },
            Some(sq) => match sq.checked_mul(size) {
                None => None,
                Some(total) => {
                    if len == total {
                        assert(total == size * size * size);
                        Some(Chunk { size, voxels: cells })
                    } else {
                        None
                    }
                },
            },
        }
    }

    /// A grid of side `size` whose cell `i` in scan order is solid exactly
    /// when `bytes[i]` is odd: it holds `bytes[i] % 2`.
    pub fn from_random_bytes(size: usize, bytes: Vec<u8>) -> (r: Chunk)
        requires
            bytes@.len() == size * size * size,
        ensures
            r.wf(),
            r.side() == size,
            r.cells().len() == bytes@.len(),
            forall|i: int| 0 <= i < bytes@.len() ==> #[trigger] r.cells()[i] == bytes@[i] % 2,
    {
        let mut voxels: Vec<u8> = Vec::new();
        let mut i: usize = 0;
        while i < bytes.len()
            invariant
                i <= bytes@.len(),
                voxels@.len() == i,
                forall|k: int| 0 <= k < i ==> #[trigger] voxels@[k] == bytes@[k] % 2,
            decreases bytes@.len() - i,
        {
            voxels.push(bytes[i] % 2);
            i += 1;
        }
        Chunk { size, voxels }
    }

    /// A grid of side `size` whose cells are each 0 or 1, drawn at random.
    pub fn new(size: usize) -> (r: Chunk)
        requires
            size * size * size <= usize::MAX,
        ensures
            r.wf(),
            r.side() == size,
            forall|i: int| 0 <= i < r.cells().len() ==> #[trigger] r.cells()[i] <= 1,
    {
        proof {
            assert(size * size <= size * size * size || size == 0) by (nonlinear_arith);
        }
        let total: usize = size * size * size;
        let mut bytes: Vec<u8> = Vec::new();
        while bytes.len() < total
            invariant
                bytes@.len() <= total,
            decreases total - bytes@.len(),
        {
            bytes.push(random_byte());
        }
        Chunk::from_random_bytes(size, bytes)
    }

    pub fn size(&self) -> (r: usize)
        ensures
            r == self.side(),
    {
        self.size
    }

    /// The material id at `(x, y, z)`, or `None` outside the grid.
    pub fn get(&self, x: usize, y: usize, z: usize) -> (r: Option<u8>)
        requires
            self.wf(),
        ensures
            r == (if in_grid(self.side() as int, ipos((x, y, z))) {
                Some(self.material(ipos((x, y, z))))
            } else {
                None::<u8>
            }),
    {
        if x < self.size && y < self.size && z < self.size {
            proof {
                self.lemma_volume_fits();
            }
            Some(self.voxels[cell_index(self.size, (x, y, z))])
        } else {
            None
        }
    }

    /// Stores `material` at `(x, y, z)`; returns false, changing nothing, outside the grid.
    pub fn set(&mut self, x: usize, y: usize, z: usize, material: u8) -> (r: bool)
        requires
            old(self).wf(),
        ensures
            final(self).wf(),
            final(self).side() == old(self).side(),
            r == in_grid(old(self).side() as int, ipos((x, y, z))),
            r ==> final(self).cells() == old(self).cells().update(
                scan_index(old(self).side() as int, ipos((x, y, z))),
                material,
            ),
            !r ==> final(self).cells() == old(self).cells(),
    {
        if x < self.size && y < self.size && z < self.size {
            proof {
                self.lemma_volume_fits();
            }
            let i = cell_index(self.size, (x, y, z));
            self.voxels.set(i, material);
            true
        } else {
            false
        }
    }

    /// Whether the cell `(x, y, z)` holds a nonzero material.
    pub fn is_solid(&self, x: usize, y: usize, z: usize) -> (r: bool)
        requires
            self.wf(),
            in_grid(self.side() as int, ipos((x, y, z))),
        ensures
            r == self.solid(ipos((x, y, z))),
    {
        proof {
            self.lemma_volume_fits();
        }
        self.voxels[cell_index(self.size, (x, y, z))] != 0
    }
}

/// Whether the face of cell `p` in direction `d` is exposed: it lies on the
/// grid's boundary on that side, or the neighbouring cell there is empty.
pub fn face_visible(chunk: &Chunk, p: (usize, usize, usize), d: Direction) -> (r: bool)
    requires
        chunk.wf(),
        in_grid(chunk.side() as int, ipos(p)),
    ensures
        r == chunk.exposed(ipos(p), d),
{
    let n = chunk.size();
    match d {
        Direction::PositiveX => p.0 == n - 1 || !chunk.is_solid(p.0 + 1, p.1, p.2),
        Direction::NegativeX => p.0 == 0 || !chunk.is_solid(p.0 - 1, p.1, p.2),
        Direction::PositiveY => p.1 == n - 1 || !chunk.is_solid(p.0, p.1 + 1, p.2),
        Direction::NegativeY => p.1 == 0 || !chunk.is_solid(p.0, p.1 - 1, p.2),
        Direction::PositiveZ => p.2 == n - 1 || !chunk.is_solid(p.0, p.1, p.2 + 1),
        Direction::NegativeZ => p.2 == 0 || !chunk.is_solid(p.0, p.1, p.2 - 1),
    }
}

/// Relies on rand::random: a byte drawn from the thread-local generator.
/// Nothing is promised about its value.
#[verifier::external_body]
fn random_byte() -> u8 {
    rand::random::<u8>()
}

} // verus!
