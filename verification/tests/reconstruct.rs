use cnc_kernel::heightmap_to_solid_mesh::{create_heightmap_stock, heightmap_to_solid_mesh};
use cnc_kernel::num::SCALE;

#[test]
fn mesh_vertices_are_in_world_coordinates() {
    // width, height, grid_cells_x, grid_cells_y, initial_height, origin_x, origin_y
    let stock = create_heightmap_stock(
        10 * SCALE,
        10 * SCALE,
        11,
        11,
        5 * SCALE,
        -60 * SCALE,
        -50 * SCALE,
    );
    let min_z = 0;
    let mesh = heightmap_to_solid_mesh(&stock, min_z);
    // First top vertex should be at (-60, -50, 5)
    let pos = &mesh.positions;
    assert_eq!(pos[0], -60 * SCALE);
    assert_eq!(pos[1], -50 * SCALE);
    assert_eq!(pos[2], 5 * SCALE);
    // First bottom vertex should be at (-60, -50, min_z)
    let nxy = 11 * 11;
    assert_eq!(pos[nxy * 3 + 0], -60 * SCALE);
    assert_eq!(pos[nxy * 3 + 1], -50 * SCALE);
    assert_eq!(pos[nxy * 3 + 2], min_z);
}

#[test]
fn mesh_normals_point_up_for_flat_top() {
    let stock = create_heightmap_stock(10 * SCALE, 10 * SCALE, 11, 11, 5 * SCALE, 0, 0);
    let mesh = heightmap_to_solid_mesh(&stock, 0);
    let normals = &mesh.normals;
    let unit = SCALE as f64;
    assert!(normals[2] as f64 / unit > 0.9); // z component close to 1
    assert!((normals[0] as f64 / unit).abs() < 0.1); // x component close to 0
    assert!((normals[1] as f64 / unit).abs() < 0.1); // y component close to 0
}

#[test]
fn mesh_large_grid_does_not_panic() {
    let width = 100 * SCALE;
    let height = 100 * SCALE;
    let grid_cells_x = 2001;
    let grid_cells_y = 2001;
    let stock = create_heightmap_stock(width, height, grid_cells_x, grid_cells_y, 5 * SCALE, 0, 0);
    let min_z = 0;
    let mesh = heightmap_to_solid_mesh(&stock, min_z);
    let n_vertices = mesh.positions.len() / 3;
    assert!(n_vertices > 1_000_000);
    assert!(n_vertices < 20_000_000);
}

#[test]
fn stock_reports_heights_and_zero_off_grid() {
    let stock = create_heightmap_stock(4 * SCALE, 4 * SCALE, 5, 5, 3 * SCALE, 0, 0);
    assert_eq!(stock.grid_size_x, SCALE);
    assert_eq!(stock.grid_size_y, SCALE);
    assert_eq!(stock.get_height(2 * SCALE, 2 * SCALE), 3 * SCALE);
    // nearest-cell rounding
    assert_eq!(stock.get_height(2 * SCALE + SCALE / 4, 2 * SCALE), 3 * SCALE);
    // off the grid
    assert_eq!(stock.get_height(40 * SCALE, 0), 0);
    assert_eq!(stock.get_height(-40 * SCALE, 0), 0);
}

#[test]
fn solid_mesh_indices_are_valid_and_counted() {
    let stock = create_heightmap_stock(2 * SCALE, 2 * SCALE, 3, 3, SCALE, 0, 0);
    let mesh = heightmap_to_solid_mesh(&stock, 0);
    let n_verts = mesh.positions.len() / 3;
    assert_eq!(n_verts, 3 * 3 * 3);
    // 12 per interior cell (top and bottom), 12 per boundary segment pair
    assert_eq!(mesh.indices.len(), 12 * 4 + 12 * 2 + 12 * 2);
    for &i in mesh.indices.iter() {
        assert!((i as usize) < n_verts);
    }
    assert_eq!(mesh.normals.len(), mesh.positions.len());
}

#[test]
fn carved_stock_keeps_carved_top_heights() {
    let mut stock = create_heightmap_stock(4 * SCALE, 4 * SCALE, 5, 5, 5 * SCALE, 0, 0);
    stock.heights[2 * 5 + 2] = 2 * SCALE;
    let mesh = heightmap_to_solid_mesh(&stock, 0);
    let v = 2 * 5 + 2;
    assert_eq!(mesh.positions[3 * v + 2], 2 * SCALE);
    // its duplicated copy carries the same height
    let dup = 2 * 25 + v;
    assert_eq!(mesh.positions[3 * dup + 2], 2 * SCALE);
}
