use ndarray_layout::{ArrayLayout, Endian, IndexArg, SliceArg, TileArg};

#[test]
fn test_broadcast() {
    let layout = ArrayLayout::<3>::new(&[1, 5, 2], &[10, 2, 1], 0);
    let layout = layout.broadcast(0, 10);
    assert_eq!(layout.shape(), &[10, 5, 2]);
    assert_eq!(layout.strides(), &[0, 2, 1]);
    assert_eq!(layout.offset(), 0);
}

#[test]
fn index_test() {
    let layout = ArrayLayout::<3>::new(&[2, 3, 4], &[12, 4, 1], 0);
    let layout = layout.index(1, 2);
    assert_eq!(layout.shape(), &[2, 4]);
    assert_eq!(layout.strides(), &[12, 1]);
    assert_eq!(layout.offset(), 8);

    let layout = ArrayLayout::<3>::new(&[2, 3, 4], &[12, -4, 1], 20);
    let layout = layout.index(1, 2);
    assert_eq!(layout.shape(), &[2, 4]);
    assert_eq!(layout.strides(), &[12, 1]);
    assert_eq!(layout.offset(), 12);

    let layout = ArrayLayout::<3>::new(&[2, 3, 4], &[12, -4, 1], 20);
    let layout = layout.index_many(&[]);
    assert_eq!(layout.shape(), &[2, 3, 4]);
    assert_eq!(layout.strides(), &[12, -4, 1]);
    assert_eq!(layout.offset(), 20);

    let layout = ArrayLayout::<3>::new(&[2, 3, 4], &[12, -4, 1], 20);
    let layout = layout.index_many(&[
        IndexArg { axis: 0, index: 1 },
        IndexArg { axis: 1, index: 2 },
    ]);
    assert_eq!(layout.shape(), &[4]);
    assert_eq!(layout.strides(), &[1]);
    assert_eq!(layout.offset(), 24);
}

#[test]
fn test_slice() {
    let layout = ArrayLayout::<3>::new(&[2, 3, 4], &[12, 4, 1], 0).slice(1, 2, -1, 2);
    assert_eq!(layout.shape(), &[2, 2, 4]);
    assert_eq!(layout.strides(), &[12, -4, 1]);
    assert_eq!(layout.offset(), 8);

    let layout = ArrayLayout::<3>::new(&[2, 3, 4], &[12, 4, 1], 0).slice(1, 2, 0, 2);
    assert_eq!(layout.shape(), &[2, 2, 4]);
    assert_eq!(layout.strides(), &[12, 0, 1]);
    assert_eq!(layout.offset(), 8);

    let layout = ArrayLayout::<3>::new(&[2, 3, 4], &[12, 4, 1], 0).slice(1, 0, 1, 2);
    assert_eq!(layout.shape(), &[2, 2, 4]);
    assert_eq!(layout.strides(), &[12, 4, 1]);
    assert_eq!(layout.offset(), 0);

    let layout = ArrayLayout::<3>::new(&[2, 3, 4], &[12, 4, 1], 0).slice_many(&[
        SliceArg { axis: 1, start: 0, step: 1, len: 2 },
        SliceArg { axis: 2, start: 0, step: 1, len: 4 },
    ]);
    assert_eq!(layout.shape(), &[2, 2, 4]);
    assert_eq!(layout.strides(), &[12, 4, 1]);
    assert_eq!(layout.offset(), 0);
}

#[test]
fn test_split() {
    let layout = ArrayLayout::<3>::new(&[2, 3, 4], &[12, 4, 1], 0);
    let mut splits = layout.split(2, &[1, 3]);
    let layout = splits.next().unwrap();
    assert_eq!(layout.shape(), &[2, 3, 1]);
    assert_eq!(layout.strides(), &[12, 4, 1]);
    assert_eq!(layout.offset(), 0);
    let layout = splits.next().unwrap();
    assert_eq!(layout.shape(), &[2, 3, 3]);
    assert_eq!(layout.strides(), &[12, 4, 1]);
    assert_eq!(layout.offset(), 1);
}

#[test]
fn test_tile_be() {
    let layout = ArrayLayout::<3>::new(&[2, 3, 6], &[18, 6, 1], 0).tile_be(2, &[2, 3]);
    assert_eq!(layout.shape(), &[2, 3, 2, 3]);
    assert_eq!(layout.strides(), &[18, 6, 3, 1]);
    assert_eq!(layout.offset(), 0);
}

#[test]
fn test_tile_le() {
    let layout = ArrayLayout::<3>::new(&[2, 3, 6], &[18, 6, 1], 0).tile_le(2, &[2, 3]);
    assert_eq!(layout.shape(), &[2, 3, 2, 3]);
    assert_eq!(layout.strides(), &[18, 6, 1, 2]);
    assert_eq!(layout.offset(), 0);
}

#[test]
fn test_empty_tile() {
    let layout = ArrayLayout::<3>::new(&[2, 3, 6], &[18, 6, 1], 0).tile_many(&[]);
    assert_eq!(layout.shape(), &[2, 3, 6]);
    assert_eq!(layout.strides(), &[18, 6, 1]);
    assert_eq!(layout.offset(), 0);
}

#[test]
fn test_multiple_tiles() {
    let layout = ArrayLayout::<3>::new(&[2, 3, 6], &[18, 6, 1], 0).tile_many(&[
        TileArg { axis: 0, endian: Endian::BigEndian, tiles: &[2, 1] },
        TileArg { axis: 2, endian: Endian::BigEndian, tiles: &[2, 3] },
    ]);
    assert_eq!(layout.shape(), &[2, 1, 3, 2, 3]);
    assert_eq!(layout.strides(), &[18, 18, 6, 3, 1]);
    assert_eq!(layout.offset(), 0);
}

#[test]
fn test_transpose() {
    let layout = ArrayLayout::<3>::new(&[2, 3, 4], &[12, 4, 1], 0).transpose(&[1, 0]);
    assert_eq!(layout.shape(), &[3, 2, 4]);
    assert_eq!(layout.strides(), &[4, 12, 1]);
    assert_eq!(layout.offset(), 0);

    let layout = ArrayLayout::<3>::new(&[2, 3, 4], &[12, 4, 1], 0).transpose(&[2, 0]);
    assert_eq!(layout.shape(), &[4, 3, 2]);
    assert_eq!(layout.strides(), &[1, 4, 12]);
    assert_eq!(layout.offset(), 0);
}
