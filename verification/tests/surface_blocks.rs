use minedesign::model::block_model::RenderableBlockIndices;
use minedesign::model::surface_blocks::{opaque_surface_block_count, UniformBlockGrid, MAX_UNIFORM_GRID_CELLS};

/// Every cell of a grid, in x-fastest order.
fn full_cells(dims: [usize; 3]) -> Vec<Option<[usize; 3]>> {
    let mut cells = Vec::new();
    for z in 0..dims[2] {
        for y in 0..dims[1] {
            for x in 0..dims[0] {
                cells.push(Some([x, y, z]));
            }
        }
    }
    cells
}

#[test]
fn from_dims_accepts_a_grid_within_the_limit() {
    let grid = UniformBlockGrid::from_dims([4, 3, 2]).unwrap();
    assert_eq!(grid.dims, [4, 3, 2]);
    assert_eq!(grid.cell_count(), 24);
}

#[test]
fn from_dims_rejects_too_many_cells() {
    assert!(UniformBlockGrid::from_dims([1 << 10, 1 << 10, 1 << 10]).is_none());
    assert!(UniformBlockGrid::from_dims([1 << 29, 1, 1]).is_some());
    assert_eq!(MAX_UNIFORM_GRID_CELLS, 1 << 29);
}

#[test]
fn from_dims_rejects_overflowing_products() {
    assert!(UniformBlockGrid::from_dims([usize::MAX, 2, 0]).is_none());
}

#[test]
fn linear_index_is_x_fastest() {
    let grid = UniformBlockGrid::from_dims([4, 3, 2]).unwrap();
    assert_eq!(grid.linear_index([0, 0, 0]), 0);
    assert_eq!(grid.linear_index([3, 0, 0]), 3);
    assert_eq!(grid.linear_index([1, 2, 0]), 9);
    assert_eq!(grid.linear_index([3, 2, 1]), 23);
}

#[test]
fn cell_coords_rejects_cells_outside() {
    let grid = UniformBlockGrid::from_dims([4, 3, 2]).unwrap();
    assert_eq!(grid.cell_coords([3, 2, 1]), Some([3, 2, 1]));
    assert_eq!(grid.cell_coords([4, 0, 0]), None);
    assert_eq!(grid.cell_coords([0, 0, 2]), None);
}

#[test]
fn dense_grid_counts_all_but_the_interior() {
    let grid = UniformBlockGrid::from_dims([3, 3, 3]).unwrap();
    let count = opaque_surface_block_count(&[], &RenderableBlockIndices::All(27), &grid);
    assert_eq!(count, Some(26));
    let grid = UniformBlockGrid::from_dims([4, 4, 3]).unwrap();
    let count = opaque_surface_block_count(&[], &RenderableBlockIndices::All(48), &grid);
    assert_eq!(count, Some(48 - 4));
}

#[test]
fn sparse_count_of_a_full_grid_matches_the_dense_count() {
    let dims = [4, 4, 3];
    let grid = UniformBlockGrid::from_dims(dims).unwrap();
    let cells = full_cells(dims);
    let renderable = RenderableBlockIndices::Explicit((0..48).collect());
    assert_eq!(opaque_surface_block_count(&cells, &renderable, &grid), Some(44));
}

#[test]
fn hollow_cube_has_no_hidden_block() {
    let dims = [3, 3, 3];
    let grid = UniformBlockGrid::from_dims(dims).unwrap();
    let cells = full_cells(dims);
    let renderable = RenderableBlockIndices::Explicit((0..27).filter(|&b| b != 13).collect());
    assert_eq!(opaque_surface_block_count(&cells, &renderable, &grid), Some(26));
}

#[test]
fn block_off_the_grid_gives_none() {
    let grid = UniformBlockGrid::from_dims([2, 2, 2]).unwrap();
    let cells = vec![Some([0, 0, 0]), Some([5, 0, 0])];
    let renderable = RenderableBlockIndices::Explicit(vec![0, 1]);
    assert_eq!(opaque_surface_block_count(&cells, &renderable, &grid), None);
}

#[test]
fn missing_or_unplaced_block_gives_none() {
    let grid = UniformBlockGrid::from_dims([2, 2, 2]).unwrap();
    let cells = vec![Some([0, 0, 0]), None];
    assert_eq!(opaque_surface_block_count(&cells, &RenderableBlockIndices::Explicit(vec![1]), &grid), None);
    assert_eq!(opaque_surface_block_count(&cells, &RenderableBlockIndices::Explicit(vec![2]), &grid), None);
    assert_eq!(opaque_surface_block_count(&cells, &RenderableBlockIndices::Explicit(vec![0]), &grid), Some(1));
}

#[test]
fn all_renderable_but_not_every_cell_counts_by_neighbours() {
    // A 3x3x3 grid with only 3 blocks in a row: none is boxed in.
    let grid = UniformBlockGrid::from_dims([3, 3, 3]).unwrap();
    let cells = vec![Some([0, 1, 1]), Some([1, 1, 1]), Some([2, 1, 1])];
    assert_eq!(opaque_surface_block_count(&cells, &RenderableBlockIndices::All(3), &grid), Some(3));
}
