use cnc_kernel::num::{SCALE, UNSET_HEIGHT};
use cnc_kernel::simulate_material_removal::{
    generate_safe_toolpath, generate_safe_toolpath_grid, simulate_material_removal, ShapeError,
    SimulateMaterialRemovalParams,
};
use cnc_kernel::tool::{ToolKind, ToolProfile};
use std::time::Instant;

fn params(nx: usize, ny: usize, kind: ToolKind, diameter: i64, tan_half_angle: i64)
    -> SimulateMaterialRemovalParams {
    SimulateMaterialRemovalParams {
        nx,
        ny,
        grid_size: SCALE,
        origin_x: 0,
        origin_y: 0,
        tool: ToolProfile { kind, diameter, tan_half_angle },
    }
}

#[test]
fn test_flat_endmill_removes_material() {
    let nx = 5;
    let ny = 5;
    let mut heightmap = vec![5 * SCALE; nx * ny];
    let toolpath = vec![2 * SCALE, 2 * SCALE, 2 * SCALE]; // single point
    let r = simulate_material_removal(
        &mut heightmap,
        params(nx, ny, ToolKind::Flat, SCALE, 0),
        &toolpath,
    );
    assert!(r.is_ok());
    assert_eq!(heightmap[2 * ny + 2], 2 * SCALE);
    assert_eq!(heightmap[0], 5 * SCALE);
}

#[test]
fn bench_rust_simulate_material_removal() {
    let nx = 500;
    let ny = 500;
    let mut heightmap = vec![50 * SCALE; nx * ny];
    let toolpath = vec![250 * SCALE, 250 * SCALE, 10 * SCALE]; // single point in center
    let start = Instant::now();
    let r = simulate_material_removal(
        &mut heightmap,
        params(nx, ny, ToolKind::Flat, 20 * SCALE, 0),
        &toolpath,
    );
    assert!(r.is_ok());
    let elapsed = start.elapsed();
    println!("simulate_material_removal 500x500, 20mm tool: {:?}", elapsed);
}

#[test]
fn test_tool_does_not_cut_below_heightmap() {
    // Tool: ball, diameter 2; a bump at the center of a low background.
    // Passing at the clearance height reported for the bump must not cut
    // below the bump's own height.
    let nx = 5;
    let ny = 5;
    let mut heightmap = vec![SCALE; nx * ny];
    heightmap[2 * ny + 2] = 5 * SCALE;
    let tool = ToolProfile { kind: ToolKind::Ball, diameter: 2 * SCALE, tan_half_angle: 0 };
    let safe = generate_safe_toolpath(
        &heightmap,
        nx,
        ny,
        SCALE,
        0,
        0,
        &tool,
        &vec![(2 * SCALE, 2 * SCALE)],
    )
    .unwrap();
    let toolpath = vec![2 * SCALE, 2 * SCALE, safe[0]];
    let r = simulate_material_removal(
        &mut heightmap,
        params(nx, ny, ToolKind::Ball, 2 * SCALE, 0),
        &toolpath,
    );
    assert!(r.is_ok());
    assert!(heightmap[2 * ny + 2] >= 5 * SCALE - SCALE, "Tool cut below the heightmap bump!");
}

#[test]
fn test_generate_safe_toolpath_ball_over_bump() {
    // Ball tool, diameter 2, over a bump at center
    let nx = 5;
    let ny = 5;
    let mut heightmap = vec![SCALE; nx * ny];
    heightmap[2 * ny + 2] = 5 * SCALE; // bump at center
    let tool = ToolProfile { kind: ToolKind::Ball, diameter: 2 * SCALE, tan_half_angle: 0 };
    let toolpath_xy = vec![(2 * SCALE, 2 * SCALE)];
    let safe_zs =
        generate_safe_toolpath(&heightmap, nx, ny, SCALE, 0, 0, &tool, &toolpath_xy).unwrap();
    // The safe Z should be at least bump height minus the tool radius
    let r = SCALE;
    assert!(safe_zs.len() == 1);
    assert!(safe_zs[0] >= 5 * SCALE - r, "Safe Z is too low: {}", safe_zs[0]);
}

#[test]
fn ball_tool_carves_spherical_profile() {
    // ball of radius 1 centered over a flat 5-high field at z=0: the center
    // cell drops to 0 and the cells one spacing away drop to exactly the
    // radius (r - sqrt(r^2 - r^2) = r).
    let nx = 5;
    let ny = 5;
    let mut heightmap = vec![5 * SCALE; nx * ny];
    let toolpath = vec![2 * SCALE, 2 * SCALE, 0];
    simulate_material_removal(
        &mut heightmap,
        params(nx, ny, ToolKind::Ball, 2 * SCALE, 0),
        &toolpath,
    )
    .unwrap();
    assert_eq!(heightmap[2 * ny + 2], 0);
    assert_eq!(heightmap[2 * ny + 3], SCALE);
    assert_eq!(heightmap[3 * ny + 2], SCALE);
    assert_eq!(heightmap[0], 5 * SCALE);
}

#[test]
fn vbit_tool_cuts_cone() {
    // v-bit with tan(half angle) = 1 (a 90 degree cone): one spacing from
    // the axis the surface sits one spacing above the tip.
    let nx = 5;
    let ny = 5;
    let mut heightmap = vec![5 * SCALE; nx * ny];
    let toolpath = vec![2 * SCALE, 2 * SCALE, 0];
    simulate_material_removal(
        &mut heightmap,
        params(nx, ny, ToolKind::VBit, 2 * SCALE, SCALE),
        &toolpath,
    )
    .unwrap();
    assert_eq!(heightmap[2 * ny + 2], 0);
    assert_eq!(heightmap[2 * ny + 3], SCALE);
    assert_eq!(heightmap[2 * ny + 1], SCALE);
    assert_eq!(heightmap[0], 5 * SCALE);
}

#[test]
fn degenerate_vbit_cuts_nothing() {
    let nx = 3;
    let ny = 3;
    let mut heightmap = vec![4 * SCALE; nx * ny];
    let toolpath = vec![SCALE, SCALE, 0];
    simulate_material_removal(
        &mut heightmap,
        params(nx, ny, ToolKind::VBit, 2 * SCALE, 0),
        &toolpath,
    )
    .unwrap();
    for i in 0..nx * ny {
        assert_eq!(heightmap[i], 4 * SCALE);
    }
}

#[test]
fn malformed_heightmap_is_rejected() {
    let mut heightmap = vec![SCALE; 24]; // not 5 * 5
    let toolpath = vec![0, 0, 0];
    let before = heightmap.clone();
    let r = simulate_material_removal(
        &mut heightmap,
        params(5, 5, ToolKind::Flat, SCALE, 0),
        &toolpath,
    );
    assert_eq!(r, Err(ShapeError::HeightmapLength));
    assert_eq!(heightmap, before);
}

#[test]
fn malformed_toolpath_is_rejected() {
    let mut heightmap = vec![SCALE; 25];
    let toolpath = vec![0, 0, 0, SCALE]; // length not a multiple of three
    let before = heightmap.clone();
    let r = simulate_material_removal(
        &mut heightmap,
        params(5, 5, ToolKind::Flat, SCALE, 0),
        &toolpath,
    );
    assert_eq!(r, Err(ShapeError::ToolpathLength));
    assert_eq!(heightmap, before);
}

#[test]
fn carving_is_monotonic_and_order_independent() {
    let nx = 6;
    let ny = 6;
    let before = vec![5 * SCALE; nx * ny];
    let pts = [
        (SCALE, SCALE, SCALE),
        (3 * SCALE, 2 * SCALE, 2 * SCALE),
        (2 * SCALE, 4 * SCALE, 0),
    ];
    let flat = |order: &[usize]| {
        let mut h = before.clone();
        let mut tp = Vec::new();
        for &i in order {
            tp.push(pts[i].0);
            tp.push(pts[i].1);
            tp.push(pts[i].2);
        }
        simulate_material_removal(&mut h, params(nx, ny, ToolKind::Ball, 3 * SCALE, 0), &tp)
            .unwrap();
        h
    };
    let a = flat(&[0, 1, 2]);
    let b = flat(&[2, 0, 1]);
    let c = flat(&[1, 2, 0]);
    assert_eq!(a, b);
    assert_eq!(a, c);
    for i in 0..nx * ny {
        assert!(a[i] <= before[i]);
    }
}

#[test]
fn far_cells_are_untouched() {
    let nx = 8;
    let ny = 8;
    let mut heightmap = vec![7 * SCALE; nx * ny];
    let toolpath = vec![SCALE, SCALE, 0];
    simulate_material_removal(
        &mut heightmap,
        params(nx, ny, ToolKind::Ball, 2 * SCALE, 0),
        &toolpath,
    )
    .unwrap();
    // every cell farther than radius + spacing from (1, 1) keeps its height
    for ix in 0..nx {
        for iy in 0..ny {
            let dx = ix as i64 - 1;
            let dy = iy as i64 - 1;
            if dx * dx + dy * dy > 4 {
                assert_eq!(heightmap[ix * ny + iy], 7 * SCALE);
            }
        }
    }
}

#[test]
fn safe_toolpath_off_grid_is_unset() {
    let heightmap = vec![SCALE; 9];
    let tool = ToolProfile { kind: ToolKind::Flat, diameter: SCALE, tan_half_angle: 0 };
    let safe = generate_safe_toolpath(
        &heightmap,
        3,
        3,
        SCALE,
        0,
        0,
        &tool,
        &vec![(100 * SCALE, 100 * SCALE)],
    )
    .unwrap();
    assert_eq!(safe, vec![UNSET_HEIGHT]);
}

#[test]
fn safe_toolpath_grid_supports_unequal_spacing() {
    // grid spacing 1 x 2; a flat tool sitting over the peak must clear it
    let nx = 3;
    let ny = 3;
    let mut heightmap = vec![SCALE; nx * ny];
    heightmap[1 * ny + 1] = 3 * SCALE;
    let tool = ToolProfile { kind: ToolKind::Flat, diameter: 2 * SCALE, tan_half_angle: 0 };
    let safe = generate_safe_toolpath_grid(
        &heightmap,
        nx,
        ny,
        SCALE,
        2 * SCALE,
        0,
        0,
        &tool,
        &vec![(SCALE, 2 * SCALE)],
    )
    .unwrap();
    assert_eq!(safe.len(), 1);
    assert_eq!(safe[0], 3 * SCALE);
}

#[test]
fn safe_toolpath_rejects_wrong_heightmap_length() {
    let heightmap = vec![SCALE; 8];
    let tool = ToolProfile { kind: ToolKind::Flat, diameter: SCALE, tan_half_angle: 0 };
    let r = generate_safe_toolpath(&heightmap, 3, 3, SCALE, 0, 0, &tool, &vec![(0, 0)]);
    assert_eq!(r, Err(ShapeError::HeightmapLength));
}
