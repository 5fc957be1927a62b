use minedesign::model::block_model::{categorical_variable, BlockVariable, RegularBlockBounds, RenderableBlockIndices};

fn grid(dims: [usize; 3], voxel: Option<[usize; 3]>) -> RegularBlockBounds {
    RegularBlockBounds::new(dims, voxel, dims[0] * dims[1] * dims[2]).unwrap()
}

#[test]
fn new_rejects_count_mismatch_with_message() {
    let err = RegularBlockBounds::new([2, 3, 4], None, 25).unwrap_err();
    assert_eq!(err, "regular block-grid dimensions imply 24 blocks, metadata reports 25");
}

#[test]
fn new_rejects_zero_dimension() {
    let err = RegularBlockBounds::new([2, 0, 4], None, 0).unwrap_err();
    assert_eq!(err, "regular block-grid dimensions imply 0 blocks, metadata reports 0");
}

#[test]
fn new_rejects_overflow() {
    let err = RegularBlockBounds::new([usize::MAX, 2, 1], None, 0).unwrap_err();
    assert_eq!(err, "regular block-grid dimensions overflow usize");
    let err = RegularBlockBounds::new([usize::MAX, 2, 0], None, 0).unwrap_err();
    assert_eq!(err, "regular block-grid dimensions overflow usize");
}

#[test]
fn new_rejects_zero_voxel() {
    let err = RegularBlockBounds::new([2, 2, 2], Some([1, 0, 1]), 8).unwrap_err();
    assert_eq!(err, "regular block-grid voxel dimensions must be non-zero");
}

#[test]
fn new_accepts_consistent_shape() {
    let g = RegularBlockBounds::new([2, 3, 4], Some([2, 2, 2]), 24).unwrap();
    assert_eq!(g.len, 24);
    assert_eq!(g.dims, [2, 3, 4]);
}

#[test]
fn plain_order_is_x_fastest() {
    let g = grid([2, 3, 4], None);
    assert_eq!(g.coords(0), Some([0, 0, 0]));
    assert_eq!(g.coords(1), Some([1, 0, 0]));
    assert_eq!(g.coords(2), Some([0, 1, 0]));
    assert_eq!(g.coords(6), Some([0, 0, 1]));
    assert_eq!(g.coords(23), Some([1, 2, 3]));
    assert_eq!(g.coords(24), None);
}

/// Storage position of a cell under tiled order, written out by hand.
fn tiled_index(dims: [usize; 3], v: [usize; 3], c: [usize; 3]) -> usize {
    let vz = c[2] / v[2];
    let depth = v[2].min(dims[2] - vz * v[2]);
    let vy = c[1] / v[1];
    let height = v[1].min(dims[1] - vy * v[1]);
    let vx = c[0] / v[0];
    let width = v[0].min(dims[0] - vx * v[0]);
    vz * dims[0] * dims[1] * v[2]
        + vy * dims[0] * v[1] * depth
        + vx * v[0] * height * depth
        + ((c[2] - vz * v[2]) * height + (c[1] - vy * v[1])) * width
        + (c[0] - vx * v[0])
}

#[test]
fn tiled_order_is_a_bijection_onto_the_grid() {
    let dims = [5, 3, 4];
    let voxel = [2, 2, 3];
    let g = grid(dims, Some(voxel));
    let mut seen = std::collections::HashSet::new();
    for index in 0..g.len {
        let c = g.coords(index).unwrap();
        assert!(c[0] < dims[0] && c[1] < dims[1] && c[2] < dims[2]);
        assert_eq!(tiled_index(dims, voxel, c), index);
        assert!(seen.insert(c));
    }
    assert_eq!(seen.len(), 60);
    assert_eq!(g.coords(60), None);
}

#[test]
fn tiled_order_first_tile_then_next() {
    let g = grid([4, 2, 1], Some([2, 2, 1]));
    let order: Vec<[usize; 3]> = (0..8).map(|i| g.coords(i).unwrap()).collect();
    assert_eq!(
        order,
        vec![[0, 0, 0], [1, 0, 0], [0, 1, 0], [1, 1, 0], [2, 0, 0], [3, 0, 0], [2, 1, 0], [3, 1, 0]]
    );
}

#[test]
fn tiled_order_with_oversized_tile_overflowing_is_none() {
    let g = grid([2, 2, 2], Some([1, 1, usize::MAX]));
    assert_eq!(g.coords(0), None);
}

#[test]
fn oversized_tiles_that_fit_behave_like_plain_order() {
    let g = grid([2, 2, 2], Some([8, 8, 8]));
    for i in 0..8 {
        let plain = grid([2, 2, 2], None).coords(i);
        assert_eq!(g.coords(i), plain);
    }
}

#[test]
fn renderable_all() {
    let all = RenderableBlockIndices::All(3);
    assert_eq!(all.len(), 3);
    assert_eq!(all.get(2), Some(2));
    assert_eq!(all.get(3), None);
    assert_eq!(all.iter(), vec![0, 1, 2]);
    assert!(all.is_all());
}

#[test]
fn renderable_explicit() {
    let some = RenderableBlockIndices::Explicit(vec![4, 9, 1]);
    assert_eq!(some.len(), 3);
    assert_eq!(some.get(1), Some(9));
    assert_eq!(some.get(3), None);
    assert_eq!(some.iter(), vec![4, 9, 1]);
    assert!(!some.is_all());
}

#[test]
fn categorical_types() {
    let v = |t: &str| BlockVariable {
        physical_type: t.to_string(),
        global: String::new(),
        default: String::new(),
        strings: Vec::new(),
    };
    assert!(categorical_variable(&v("namedbyte")));
    assert!(categorical_variable(&v("namedshort")));
    assert!(!categorical_variable(&v("float")));
    assert!(!categorical_variable(&v("NamedByte")));
    assert!(!categorical_variable(&v("")));
}
