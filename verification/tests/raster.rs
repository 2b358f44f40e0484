use cnc_kernel::heightmap_from_mesh::{heightmap_from_mesh_rust, HeightmapGridRust, MeshRust};
use cnc_kernel::num::{SCALE, UNSET_HEIGHT};

#[test]
fn test_flat_triangle() {
    let positions = vec![
        0,
        0,
        5 * SCALE,
        2 * SCALE,
        0,
        5 * SCALE,
        0,
        2 * SCALE,
        5 * SCALE,
    ];
    let mesh = MeshRust { positions, indices: None };
    let grid = HeightmapGridRust {
        min_x: 0,
        max_x: SCALE,
        min_y: 0,
        max_y: SCALE,
        res_x: 2,
        res_y: 2,
    };
    let heightmap = heightmap_from_mesh_rust(&mesh, &grid);
    println!("heightmap: {:?}", heightmap);
    assert_eq!(heightmap.len(), 4);
    for (i, &z) in heightmap.iter().enumerate() {
        assert_eq!(z, 5 * SCALE, "cell {} was not set correctly (got {})", i, z);
    }
}

#[test]
fn indexed_mesh_rasterizes_like_implicit() {
    let positions = vec![
        0,
        0,
        5 * SCALE,
        2 * SCALE,
        0,
        5 * SCALE,
        0,
        2 * SCALE,
        5 * SCALE,
    ];
    let mesh = MeshRust { positions: positions.clone(), indices: Some(vec![0, 1, 2]) };
    let grid = HeightmapGridRust {
        min_x: 0,
        max_x: SCALE,
        min_y: 0,
        max_y: SCALE,
        res_x: 2,
        res_y: 2,
    };
    let a = heightmap_from_mesh_rust(&mesh, &grid);
    let b = heightmap_from_mesh_rust(&MeshRust { positions, indices: None }, &grid);
    assert_eq!(a, b);
}

#[test]
fn sloped_triangle_interpolates() {
    // heights 0 at (0,0), 4 at (4,0), 4 at (0,4): the sample at (1,1) on a
    // 5x5 grid of unit spacing interpolates to 2
    let positions = vec![
        0,
        0,
        0,
        4 * SCALE,
        0,
        4 * SCALE,
        0,
        4 * SCALE,
        4 * SCALE,
    ];
    let mesh = MeshRust { positions, indices: None };
    let grid = HeightmapGridRust {
        min_x: 0,
        max_x: 4 * SCALE,
        min_y: 0,
        max_y: 4 * SCALE,
        res_x: 5,
        res_y: 5,
    };
    let heightmap = heightmap_from_mesh_rust(&mesh, &grid);
    assert_eq!(heightmap[0], 0);
    assert_eq!(heightmap[1 * 5 + 1], 2 * SCALE);
    assert_eq!(heightmap[4 * 5], 4 * SCALE); // vertex (4, 0)
    // the corner opposite the hypotenuse is uncovered; the covered heights
    // differ, so it stays unset
    assert_eq!(heightmap[4 * 5 + 4], UNSET_HEIGHT);
}

#[test]
fn uniform_covered_cells_backfill_uncovered_ones() {
    // a small flat triangle near one corner of a wider grid: every covered
    // cell reads the same height, so the uncovered cells are backfilled
    let positions = vec![
        -SCALE,
        -SCALE,
        3 * SCALE,
        3 * SCALE / 2,
        -SCALE,
        3 * SCALE,
        -SCALE,
        3 * SCALE / 2,
        3 * SCALE,
    ];
    let mesh = MeshRust { positions, indices: None };
    let grid = HeightmapGridRust {
        min_x: 0,
        max_x: 2 * SCALE,
        min_y: 0,
        max_y: 2 * SCALE,
        res_x: 3,
        res_y: 3,
    };
    let heightmap = heightmap_from_mesh_rust(&mesh, &grid);
    for &z in heightmap.iter() {
        assert_eq!(z, 3 * SCALE);
    }
}

#[test]
fn empty_mesh_leaves_all_cells_unset() {
    let mesh = MeshRust { positions: vec![], indices: None };
    let grid = HeightmapGridRust {
        min_x: 0,
        max_x: 2 * SCALE,
        min_y: 0,
        max_y: 2 * SCALE,
        res_x: 3,
        res_y: 3,
    };
    let heightmap = heightmap_from_mesh_rust(&mesh, &grid);
    assert_eq!(heightmap, vec![UNSET_HEIGHT; 9]);
}

#[test]
fn higher_triangle_wins_per_cell() {
    // two coincident triangles at different heights: each cell keeps the
    // maximum
    let positions = vec![
        0,
        0,
        2 * SCALE,
        2 * SCALE,
        0,
        2 * SCALE,
        0,
        2 * SCALE,
        2 * SCALE,
        0,
        0,
        7 * SCALE,
        2 * SCALE,
        0,
        7 * SCALE,
        0,
        2 * SCALE,
        7 * SCALE,
    ];
    let mesh = MeshRust { positions, indices: None };
    let grid = HeightmapGridRust {
        min_x: 0,
        max_x: SCALE,
        min_y: 0,
        max_y: SCALE,
        res_x: 2,
        res_y: 2,
    };
    let heightmap = heightmap_from_mesh_rust(&mesh, &grid);
    for &z in heightmap.iter() {
        assert_eq!(z, 7 * SCALE);
    }
}
