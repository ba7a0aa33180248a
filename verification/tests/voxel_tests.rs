use voxel_q3::geom::{TriVertex, Triangle, Vec3i};
use voxel_q3::voxel::{VoxelError, VoxelMap, COLOR_SCALE, VISIBLE_BIT};

fn vert(x: i64, y: i64, z: i64, r: i64, g: i64, b: i64) -> TriVertex {
    TriVertex::new(Vec3i::new(x, y, z), Vec3i::new(r, g, b))
}

fn tri(a: TriVertex, b: TriVertex, c: TriVertex) -> Triangle {
    Triangle::new(a, b, c)
}

#[test]
fn empty_mesh_is_rejected() {
    let tris: Vec<Triangle> = Vec::new();
    let r = VoxelMap::new(&tris, 10);
    assert_eq!(r.err(), Some(VoxelError::EmptyInput));
}

#[test]
fn empty_input_message_text() {
    assert_eq!(VoxelError::EmptyInput.message(), "invalid triangle count");
}

#[test]
fn point_mesh_is_rejected() {
    let v = vert(5, 5, 5, 10, 10, 10);
    let tris = vec![tri(v, v, v)];
    let r = VoxelMap::new(&tris, 8);
    assert_eq!(r.err(), Some(VoxelError::ZeroExtent));
}

#[test]
fn single_triangle_color_is_channel_average() {
    // Vertex colors (255,0,0), (0,255,0), (0,0,255): each output channel
    // averages to 1/3, stored as numerator 255 over the 765 scale.
    let tris = vec![tri(
        vert(0, 0, 0, 255, 0, 0),
        vert(4, 0, 0, 0, 255, 0),
        vert(0, 4, 0, 0, 0, 255),
    )];
    let m = VoxelMap::new(&tris, 4).unwrap();
    assert!(m.voxels.len() >= 1);
    for v in &m.voxels {
        assert_eq!((v.color.x, v.color.y, v.color.z), (255, 255, 255));
        let f = v.color.x as f32 / COLOR_SCALE as f32;
        assert!((f - 1.0f32 / 3.0f32).abs() < 1e-6);
    }
}

#[test]
fn large_triangle_fills_center_and_spares_corners() {
    // One triangle spanning the whole bounding box, resolution 10: the
    // vertical center column is occupied, the upper corners outside the
    // triangle's footprint are not.
    let tris = vec![tri(
        vert(-50, -50, 0, 200, 200, 200),
        vert(50, -50, 0, 200, 200, 200),
        vert(0, 50, 0, 200, 200, 200),
    )];
    let m = VoxelMap::new(&tris, 10).unwrap();
    assert!(m.voxels.len() >= 1);
    assert!(m.voxels.iter().any(|v| v.position.x == 0));
    for v in &m.voxels {
        // The apex row reaches only cells near the center.
        assert!(
            !(v.position.y == 3 && (v.position.x >= 2 || v.position.x <= -3)),
            "voxel outside the footprint at {:?}",
            v.position
        );
    }
}

#[test]
fn state_grid_round_trips_to_voxel_positions() {
    let tris = vec![tri(
        vert(-50, -50, 0, 10, 20, 30),
        vert(50, -50, 0, 10, 20, 30),
        vert(0, 50, 0, 10, 20, 30),
    )];
    let res: u32 = 10;
    let m = VoxelMap::new(&tris, res).unwrap();
    let r = res as i64;
    assert_eq!(m.states.len(), ((r + 1) * (r + 1) * (r + 1)) as usize);
    // Every voxel's cell points back at it through the state grid.
    for (j, v) in m.voxels.iter().enumerate() {
        let x = v.position.x + r / 2;
        let y = v.position.y + r / 2;
        let z = v.position.z + r / 2;
        assert!(0 <= x && x < r && 0 <= y && y < r && 0 <= z && z < r);
        let idx = (z * r * r + y * r + x) as usize;
        let w = m.states[idx];
        assert_ne!(w & VISIBLE_BIT, 0);
        assert_eq!((w & !VISIBLE_BIT) as usize, j);
    }
    // And every visible state word denotes the voxel at that cell.
    let mut visible = 0usize;
    for z in 0..r {
        for y in 0..r {
            for x in 0..r {
                let w = m.states[(z * r * r + y * r + x) as usize];
                if w & VISIBLE_BIT != 0 {
                    visible += 1;
                    let v = &m.voxels[(w & !VISIBLE_BIT) as usize];
                    assert_eq!(
                        (v.position.x, v.position.y, v.position.z),
                        (x - r / 2, y - r / 2, z - r / 2)
                    );
                } else {
                    assert_eq!(w, 0);
                }
            }
        }
    }
    assert_eq!(visible, m.voxels.len());
}

#[test]
fn duplicate_hits_collapse_and_first_color_wins() {
    let red = tri(
        vert(0, 0, 0, 255, 0, 0),
        vert(8, 0, 0, 255, 0, 0),
        vert(0, 8, 0, 255, 0, 0),
    );
    let green = tri(
        vert(0, 0, 0, 0, 255, 0),
        vert(8, 0, 0, 0, 255, 0),
        vert(0, 8, 0, 0, 255, 0),
    );
    let alone = VoxelMap::new(&vec![red], 4).unwrap();
    let both = VoxelMap::new(&vec![red, green], 4).unwrap();
    // The second triangle claims exactly the cells the first already
    // claimed, so nothing is added and the first color is kept.
    assert_eq!(both.voxels.len(), alone.voxels.len());
    for v in &both.voxels {
        assert_eq!((v.color.x, v.color.y, v.color.z), (765, 0, 0));
    }
}

#[test]
fn voxel_positions_stay_in_centered_range() {
    let tris = vec![
        tri(
            vert(-33, -21, -7, 1, 2, 3),
            vert(40, -21, 12, 4, 5, 6),
            vert(3, 38, 25, 7, 8, 9),
        ),
        tri(
            vert(-33, 30, -7, 9, 8, 7),
            vert(40, 31, 12, 6, 5, 4),
            vert(3, -38, 25, 3, 2, 1),
        ),
    ];
    let res: u32 = 9;
    let m = VoxelMap::new(&tris, res).unwrap();
    let r = res as i64;
    assert!(m.voxels.len() >= 1);
    for v in &m.voxels {
        assert!(-r <= 2 * v.position.x && 2 * v.position.x < r);
        assert!(-r <= 2 * v.position.y && 2 * v.position.y < r);
        assert!(-r <= 2 * v.position.z && 2 * v.position.z < r);
    }
}

#[test]
fn voxels_are_sorted_and_unique_by_position() {
    let tris = vec![tri(
        vert(-10, -10, -10, 50, 60, 70),
        vert(10, -10, 10, 50, 60, 70),
        vert(0, 10, 0, 50, 60, 70),
    )];
    let m = VoxelMap::new(&tris, 6).unwrap();
    for w in m.voxels.windows(2) {
        let a = &w[0].position;
        let b = &w[1].position;
        assert!((a.x, a.y, a.z) < (b.x, b.y, b.z));
    }
}
