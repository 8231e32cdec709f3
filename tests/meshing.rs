use greedy_voxels::direction::Direction;
use greedy_voxels::grid::{face_visible, Chunk};
use greedy_voxels::merge::{greedy_quads, Quad};
use greedy_voxels::mesh::{greedy_mesh, greedy_mesh_checked, MeshBuffers};
use greedy_voxels::queue::{FaceFinder, FaceMask};

fn cell(n: usize, x: usize, y: usize, z: usize) -> usize {
    (x * n + y) * n + z
}

fn chunk_of(n: usize, solid: &dyn Fn(usize, usize, usize) -> bool) -> Chunk {
    let mut cells = vec![0u8; n * n * n];
    for x in 0..n {
        for y in 0..n {
            for z in 0..n {
                if solid(x, y, z) {
                    cells[cell(n, x, y, z)] = 1;
                }
            }
        }
    }
    Chunk::from_cells(n, cells).unwrap()
}

fn pseudo_random_chunk(n: usize, seed: u64) -> Chunk {
    let mut state = seed;
    let mut cells = Vec::new();
    for _ in 0..n * n * n {
        state = state.wrapping_mul(6364136223846793005).wrapping_add(1442695040888963407);
        cells.push(((state >> 33) % 2) as u8);
    }
    Chunk::from_cells(n, cells).unwrap()
}

const ALL: [Direction; 6] = [
    Direction::PositiveX,
    Direction::NegativeX,
    Direction::PositiveY,
    Direction::NegativeY,
    Direction::PositiveZ,
    Direction::NegativeZ,
];

fn step(p: (usize, usize, usize), d: Direction) -> Option<(usize, usize, usize)> {
    let (x, y, z) = (p.0 as i64, p.1 as i64, p.2 as i64);
    let (a, b, c) = match d {
        Direction::PositiveX => (x + 1, y, z),
        Direction::NegativeX => (x - 1, y, z),
        Direction::PositiveY => (x, y + 1, z),
        Direction::NegativeY => (x, y - 1, z),
        Direction::PositiveZ => (x, y, z + 1),
        Direction::NegativeZ => (x, y, z - 1),
    };
    if a < 0 || b < 0 || c < 0 {
        None
    } else {
        Some((a as usize, b as usize, c as usize))
    }
}

/// The visible faces, enumerated directly from the cells.
fn visible_faces(chunk: &Chunk) -> Vec<(usize, usize, usize, Direction)> {
    let n = chunk.size();
    let mut out = Vec::new();
    for x in 0..n {
        for y in 0..n {
            for z in 0..n {
                if chunk.get(x, y, z) == Some(0) {
                    continue;
                }
                for d in ALL {
                    let open = match step((x, y, z), d) {
                        None => true,
                        Some((a, b, c)) => chunk.get(a, b, c).map_or(true, |m| m == 0),
                    };
                    if open {
                        out.push((x, y, z, d));
                    }
                }
            }
        }
    }
    out
}

/// The unit faces a quad covers.
fn unit_faces(q: &Quad) -> Vec<(usize, usize, usize, Direction)> {
    let mut out = Vec::new();
    for w in 0..q.width {
        for h in 0..q.height {
            let (x, y, z) = match q.direction {
                Direction::PositiveX | Direction::NegativeX => (q.x, q.y + h, q.z + w),
                Direction::PositiveY | Direction::NegativeY => (q.x + w, q.y, q.z + h),
                Direction::PositiveZ | Direction::NegativeZ => (q.x + w, q.y + h, q.z),
            };
            out.push((x, y, z, q.direction));
        }
    }
    out
}

fn assert_exact_cover(chunk: &Chunk) {
    let quads = greedy_quads(chunk);
    let mut covered: Vec<(usize, usize, usize, Direction)> = quads.iter().flat_map(unit_faces).collect();
    let total = covered.len();
    let mut expected = visible_faces(chunk);
    let key = |f: &(usize, usize, usize, Direction)| (f.0, f.1, f.2, f.3 as u8);
    covered.sort_by_key(key);
    covered.dedup();
    assert_eq!(covered.len(), total, "a face is covered twice");
    expected.sort_by_key(key);
    assert_eq!(covered, expected);
}

#[test]
fn full_cube_gives_six_full_squares() {
    let n = 3;
    let chunk = chunk_of(n, &|_, _, _| true);
    assert_eq!(visible_faces(&chunk).len(), 6 * n * n);
    let quads = greedy_quads(&chunk);
    let expected = vec![
        Quad { direction: Direction::PositiveX, x: 2, y: 0, z: 0, width: 3, height: 3 },
        Quad { direction: Direction::NegativeX, x: 0, y: 0, z: 0, width: 3, height: 3 },
        Quad { direction: Direction::PositiveY, x: 0, y: 2, z: 0, width: 3, height: 3 },
        Quad { direction: Direction::NegativeY, x: 0, y: 0, z: 0, width: 3, height: 3 },
        Quad { direction: Direction::PositiveZ, x: 0, y: 0, z: 2, width: 3, height: 3 },
        Quad { direction: Direction::NegativeZ, x: 0, y: 0, z: 0, width: 3, height: 3 },
    ];
    assert_eq!(quads, expected);
    let mesh = greedy_mesh(&chunk);
    assert_eq!(mesh.positions.len(), 24);
    assert_eq!(mesh.normals.len(), 24);
    assert_eq!(mesh.indices.len(), 36);
}

#[test]
fn single_voxel_gives_six_unit_quads() {
    let chunk = chunk_of(1, &|_, _, _| true);
    let quads = greedy_quads(&chunk);
    assert_eq!(quads.len(), 6);
    for (q, d) in quads.iter().zip(ALL) {
        assert_eq!(*q, Quad { direction: d, x: 0, y: 0, z: 0, width: 1, height: 1 });
    }
}

#[test]
fn empty_grid_gives_empty_mesh() {
    let chunk = chunk_of(4, &|_, _, _| false);
    assert!(greedy_quads(&chunk).is_empty());
    let mesh = greedy_mesh(&chunk);
    assert!(mesh.positions.is_empty());
    assert!(mesh.normals.is_empty());
    assert!(mesh.indices.is_empty());
}

#[test]
fn zero_sized_grid_gives_empty_mesh() {
    let chunk = Chunk::from_cells(0, Vec::new()).unwrap();
    let mesh = greedy_mesh(&chunk);
    assert!(mesh.positions.is_empty());
    assert!(mesh.indices.is_empty());
}

#[test]
fn quads_cover_visible_faces_exactly_on_random_grids() {
    for seed in 0..20u64 {
        assert_exact_cover(&pseudo_random_chunk(5, seed));
    }
    assert_exact_cover(&Chunk::new(6));
}

#[test]
fn quad_areas_sum_to_visible_face_count() {
    for seed in 100..110u64 {
        let chunk = pseudo_random_chunk(4, seed);
        let area: usize = greedy_quads(&chunk).iter().map(|q| q.width * q.height).sum();
        assert_eq!(area, visible_faces(&chunk).len());
    }
}

#[test]
fn single_hole_is_covered_exactly() {
    let chunk = chunk_of(2, &|x, y, z| (x, y, z) != (0, 0, 0));
    assert_eq!(visible_faces(&chunk).len(), 24);
    let quads = greedy_quads(&chunk);
    let area: usize = quads.iter().map(|q| q.width * q.height).sum();
    assert_eq!(area, 24);
    assert_exact_cover(&chunk);
}

#[test]
fn boundary_faces_are_flush_with_the_grid() {
    let n = 4;
    let mesh = greedy_mesh(&chunk_of(n, &|_, _, _| true));
    for (p, m) in mesh.positions.iter().zip(mesh.normals.iter()) {
        let along = if m.0 != 0 { p.0 } else if m.1 != 0 { p.1 } else { p.2 };
        assert!(along == 0 || along == n, "vertex {:?} normal {:?}", p, m);
    }
}

#[test]
fn inner_faces_lie_on_cell_boundaries() {
    let chunk = chunk_of(3, &|x, y, z| (x, y, z) == (1, 1, 1));
    let mesh = greedy_mesh(&chunk);
    assert_eq!(mesh.positions.len(), 24);
    for (p, m) in mesh.positions.iter().zip(mesh.normals.iter()) {
        let along = if m.0 != 0 { p.0 } else if m.1 != 0 { p.1 } else { p.2 };
        let sign = m.0 + m.1 + m.2;
        assert_eq!(along, if sign > 0 { 2 } else { 1 });
    }
}

#[test]
fn meshing_twice_gives_the_same_mesh() {
    let chunk = pseudo_random_chunk(6, 7);
    let a = greedy_mesh(&chunk);
    let b = greedy_mesh(&chunk);
    assert_eq!(a.positions, b.positions);
    assert_eq!(a.normals, b.normals);
    assert_eq!(a.indices, b.indices);
    assert_eq!(greedy_quads(&chunk), greedy_quads(&chunk));
}

#[test]
fn width_grows_before_height() {
    // An L in the z = 0 layer: (0,0,0), (1,0,0), (0,1,0).
    let chunk = chunk_of(2, &|x, y, z| z == 0 && (x, y) != (1, 1));
    let back: Vec<Quad> = greedy_quads(&chunk)
        .into_iter()
        .filter(|q| q.direction == Direction::NegativeZ)
        .collect();
    assert_eq!(
        back,
        vec![
            Quad { direction: Direction::NegativeZ, x: 0, y: 0, z: 0, width: 2, height: 1 },
            Quad { direction: Direction::NegativeZ, x: 0, y: 1, z: 0, width: 1, height: 1 },
        ]
    );
}

#[test]
fn quad_vertices_normals_and_flipped_indices() {
    let mut mesh = MeshBuffers::new();
    mesh.push_quad(&Quad { direction: Direction::NegativeX, x: 0, y: 0, z: 0, width: 1, height: 1 });
    mesh.push_quad(&Quad { direction: Direction::PositiveX, x: 0, y: 1, z: 2, width: 2, height: 3 });
    assert_eq!(
        mesh.positions,
        vec![(0, 0, 0), (0, 0, 1), (0, 1, 1), (0, 1, 0), (1, 1, 2), (1, 1, 4), (1, 4, 4), (1, 4, 2)]
    );
    assert_eq!(mesh.normals[..4], [(-1, 0, 0); 4]);
    assert_eq!(mesh.normals[4..], [(1, 0, 0); 4]);
    assert_eq!(mesh.indices, vec![0, 1, 2, 2, 3, 0, 4, 7, 6, 6, 5, 4]);
}

#[test]
fn winding_follows_outward_normal() {
    // The first triangle of each quad, crossed, points along its normal.
    let mesh = greedy_mesh(&chunk_of(2, &|_, _, _| true));
    for tri in mesh.indices.chunks(6) {
        let p = |i: u32| {
            let v = mesh.positions[i as usize];
            (v.0 as i64, v.1 as i64, v.2 as i64)
        };
        let (a, b, c) = (p(tri[0]), p(tri[1]), p(tri[2]));
        let u = (b.0 - a.0, b.1 - a.1, b.2 - a.2);
        let v = (c.0 - a.0, c.1 - a.1, c.2 - a.2);
        let cross = (u.1 * v.2 - u.2 * v.1, u.2 * v.0 - u.0 * v.2, u.0 * v.1 - u.1 * v.0);
        let m = mesh.normals[tri[0] as usize];
        let dot = cross.0 * m.0 as i64 + cross.1 * m.1 as i64 + cross.2 * m.2 as i64;
        assert!(dot > 0);
    }
}

#[test]
fn checked_meshing_agrees_with_greedy_mesh() {
    let solid = greedy_mesh_checked(&chunk_of(10, &|_, _, _| true)).unwrap();
    assert_eq!(solid.positions.len(), 24);
    assert_eq!(solid.indices.len(), 36);
    let chunk = pseudo_random_chunk(5, 3);
    let a = greedy_mesh_checked(&chunk).unwrap();
    let b = greedy_mesh(&chunk);
    assert_eq!(a.positions, b.positions);
    assert_eq!(a.normals, b.normals);
    assert_eq!(a.indices, b.indices);
}

#[test]
fn direction_data() {
    assert_eq!(Direction::from_index(0), Direction::PositiveX);
    assert_eq!(Direction::from_index(5), Direction::NegativeZ);
    assert_eq!(Direction::NegativeY.normal(), (0, -1, 0));
    assert!(Direction::PositiveY.flips_winding());
    assert!(!Direction::PositiveZ.flips_winding());
    assert!(Direction::PositiveZ.is_positive());
}

#[test]
fn from_cells_checks_length() {
    assert!(Chunk::from_cells(2, vec![0; 7]).is_none());
    assert!(Chunk::from_cells(2, vec![0; 9]).is_none());
    assert!(Chunk::from_cells(usize::MAX, vec![]).is_none());
    let chunk = Chunk::from_cells(2, vec![0, 1, 2, 3, 4, 5, 6, 7]).unwrap();
    assert_eq!(chunk.get(1, 0, 1), Some(5));
    assert_eq!(chunk.get(0, 1, 0), Some(2));
    assert_eq!(chunk.get(2, 0, 0), None);
}

#[test]
fn set_and_solidity() {
    let mut chunk = chunk_of(2, &|_, _, _| false);
    assert!(chunk.set(1, 1, 0, 9));
    assert!(!chunk.set(0, 2, 0, 9));
    assert_eq!(chunk.get(1, 1, 0), Some(9));
    assert!(chunk.is_solid(1, 1, 0));
    assert!(!chunk.is_solid(0, 0, 0));
}

#[test]
fn random_bytes_become_their_parity() {
    let chunk = Chunk::from_random_bytes(2, vec![0, 1, 2, 3, 254, 255, 7, 8]);
    assert_eq!(chunk.size(), 2);
    assert_eq!(chunk.get(0, 0, 0), Some(0));
    assert_eq!(chunk.get(0, 0, 1), Some(1));
    assert_eq!(chunk.get(0, 1, 0), Some(0));
    assert_eq!(chunk.get(0, 1, 1), Some(1));
    assert_eq!(chunk.get(1, 0, 0), Some(0));
    assert_eq!(chunk.get(1, 0, 1), Some(1));
    assert_eq!(chunk.get(1, 1, 0), Some(1));
    assert_eq!(chunk.get(1, 1, 1), Some(0));
}

#[test]
fn random_chunk_holds_zeros_and_ones() {
    let chunk = Chunk::new(5);
    assert_eq!(chunk.size(), 5);
    for x in 0..5 {
        for y in 0..5 {
            for z in 0..5 {
                assert!(chunk.get(x, y, z).unwrap() <= 1);
            }
        }
    }
}

#[test]
fn visibility_at_boundary_and_inside() {
    let chunk = chunk_of(3, &|x, _, _| x < 2);
    assert!(!face_visible(&chunk, (0, 1, 1), Direction::PositiveX));
    assert!(face_visible(&chunk, (1, 1, 1), Direction::PositiveX));
    assert!(face_visible(&chunk, (0, 1, 1), Direction::NegativeX));
    assert!(face_visible(&chunk, (1, 2, 1), Direction::PositiveY));
    assert!(!face_visible(&chunk, (1, 1, 1), Direction::PositiveY));
}

#[test]
fn finder_walks_queued_faces_in_scan_order() {
    let chunk = chunk_of(2, &|x, y, z| (x, y, z) == (0, 1, 1) || (x, y, z) == (1, 0, 0));
    let mut mask = FaceMask::of_visible_faces(&chunk, Direction::PositiveY);
    assert!(mask.is_queued((0, 1, 1)));
    assert!(!mask.is_queued((0, 0, 0)));
    assert!(!mask.is_queued((0, 2, 0)));
    let mut finder = FaceFinder::new();
    assert_eq!(finder.next_face(&mask), Some((0, 1, 1)));
    mask.consume((0, 1, 1));
    assert!(!mask.is_queued((0, 1, 1)));
    assert_eq!(finder.next_face(&mask), Some((1, 0, 0)));
    // Without consuming it, the same face is found again.
    assert_eq!(finder.next_face(&mask), Some((1, 0, 0)));
    mask.consume((1, 0, 0));
    assert_eq!(finder.next_face(&mask), None);
}
