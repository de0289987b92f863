use ndarray_layout::{ArrayLayout, BroadcastArg, Endian, IndexArg, MergeArg};

#[test]
fn new_reports_inputs_inline_heap_and_scalar() {
    let inline = ArrayLayout::<4>::new(&[2, 3, 4], &[12, -4, 1], 20);
    assert_eq!(inline.shape(), &[2, 3, 4]);
    assert_eq!(inline.strides(), &[12, -4, 1]);
    assert_eq!(inline.offset(), 20);
    assert_eq!(inline.ndim(), 3);

    let heap = ArrayLayout::<2>::new(&[5, 6, 7, 8], &[-1, 2, -3, 4], -9);
    assert_eq!(heap.shape(), &[5, 6, 7, 8]);
    assert_eq!(heap.strides(), &[-1, 2, -3, 4]);
    assert_eq!(heap.offset(), -9);
    assert_eq!(heap.ndim(), 4);

    let scalar = ArrayLayout::<2>::new(&[], &[], 7);
    assert_eq!(scalar.shape(), &[] as &[usize]);
    assert_eq!(scalar.strides(), &[] as &[isize]);
    assert_eq!(scalar.offset(), 7);
    assert_eq!(scalar.ndim(), 0);
}

#[test]
fn contiguous_strides_follow_the_endian_rule() {
    let be = ArrayLayout::<4>::new_contiguous(&[2, 3, 4], Endian::BigEndian, 4);
    assert_eq!(be.strides(), &[48, 16, 4]);
    assert_eq!(be.offset(), 0);
    let le = ArrayLayout::<4>::new_contiguous(&[2, 3, 4], Endian::LittleEndian, 4);
    assert_eq!(le.strides(), &[4, 8, 24]);
    let heap = ArrayLayout::<1>::new_contiguous(&[5, 2, 3], Endian::BigEndian, 1);
    assert_eq!(heap.strides(), &[6, 3, 1]);
}

#[test]
fn element_offset_on_given_strides() {
    let layout = ArrayLayout::<4>::new(&[2, 3, 4], &[4, 8, 24], 0);
    assert_eq!(layout.element_offset(22, Endian::LittleEndian), 88);
    let layout = ArrayLayout::<4>::new(&[2, 3], &[3, -1], 10);
    // 5 -> coordinates (1, 2) big-endian: 10 + 1*3 + 2*(-1)
    assert_eq!(layout.element_offset(5, Endian::BigEndian), 11);
    let scalar = ArrayLayout::<4>::new(&[], &[], 3);
    assert_eq!(scalar.element_offset(0, Endian::LittleEndian), 3);
}

#[test]
fn data_range_with_negative_stride() {
    let layout = ArrayLayout::<4>::new(&[2, 3, 4], &[12, -4, 1], 20);
    assert_eq!(layout.data_range(), 12..=35);
}

#[test]
fn num_elements_edges() {
    assert_eq!(ArrayLayout::<4>::new(&[], &[], 0).num_elements(), 1);
    assert_eq!(ArrayLayout::<4>::new(&[3, 0, 5], &[1, 1, 1], 0).num_elements(), 0);
    assert_eq!(ArrayLayout::<1>::new(&[3, 2, 5], &[1, 1, 1], 0).num_elements(), 30);
}

#[test]
fn clone_equals_original_inline_and_heap() {
    let inline = ArrayLayout::<4>::new(&[2, 3], &[3, 1], 5);
    assert!(inline.clone() == inline);
    let heap = ArrayLayout::<1>::new(&[2, 3, 4], &[12, 4, 1], 0);
    assert!(heap.clone() == heap);
    assert!(heap != ArrayLayout::<1>::new(&[2, 3, 4], &[12, 4, 2], 0));
    assert!(heap != ArrayLayout::<1>::new(&[2, 3, 4], &[12, 4, 1], 1));
}

#[test]
fn inline_size_changes_keep_the_layout() {
    let layout = ArrayLayout::<4>::new(&[3, 4, 5], &[20, 5, 1], 2);
    let small = layout.to_inline_size::<2>();
    assert_eq!(small.shape(), &[3, 4, 5]);
    assert_eq!(small.strides(), &[20, 5, 1]);
    assert_eq!(small.offset(), 2);
    let back = small.to_inline_size::<4>();
    assert!(back == layout);
}

#[test]
fn merge_fails_on_empty_axis() {
    let layout = ArrayLayout::<3>::new(&[2, 0, 4], &[4, 4, 1], 0);
    assert!(layout.merge_be(0, 3).is_none());
    assert!(layout.merge_free(0, 2).is_none());
}

#[test]
fn merge_many_fuses_each_range() {
    let layout = ArrayLayout::<4>::new(&[2, 3, 4, 5], &[60, 20, 5, 1], 0);
    let merged = layout
        .merge_many(&[
            MergeArg { start: 0, len: 2, endian: Some(Endian::BigEndian) },
            MergeArg { start: 3, len: 1, endian: Some(Endian::BigEndian) },
        ])
        .unwrap();
    assert_eq!(merged.shape(), &[6, 4, 5]);
    assert_eq!(merged.strides(), &[20, 5, 1]);
    let merged = layout
        .merge_many(&[
            MergeArg { start: 0, len: 2, endian: Some(Endian::BigEndian) },
            MergeArg { start: 2, len: 2, endian: None },
        ])
        .unwrap();
    assert_eq!(merged.shape(), &[6, 20]);
    assert_eq!(merged.strides(), &[20, 1]);
}

#[test]
fn broadcast_many_repeats_an_axis_again() {
    let layout = ArrayLayout::<3>::new(&[1, 5, 1], &[10, 2, 1], 4);
    let layout = layout.broadcast_many(&[
        BroadcastArg { axis: 0, times: 3 },
        BroadcastArg { axis: 2, times: 2 },
        BroadcastArg { axis: 0, times: 7 },
    ]);
    assert_eq!(layout.shape(), &[7, 5, 2]);
    assert_eq!(layout.strides(), &[0, 2, 0]);
    assert_eq!(layout.offset(), 4);
}

#[test]
fn slice_clamps_and_rounds_up() {
    let layout = ArrayLayout::<3>::new(&[2, 3, 4], &[12, 4, 1], 0);
    let s = layout.slice(1, 10, -1, 5);
    assert_eq!(s.shape(), &[2, 3, 4]);
    assert_eq!(s.strides(), &[12, -4, 1]);
    assert_eq!(s.offset(), 8);
    let s = layout.slice(2, 1, 2, 5);
    assert_eq!(s.shape(), &[2, 3, 2]);
    assert_eq!(s.strides(), &[12, 4, 2]);
    assert_eq!(s.offset(), 1);
    let s = layout.slice(2, 3, -2, 5);
    assert_eq!(s.shape(), &[2, 3, 2]);
    assert_eq!(s.strides(), &[12, 4, -2]);
    assert_eq!(s.offset(), 3);
}

#[test]
fn split_ends_after_last_part() {
    let layout = ArrayLayout::<3>::new(&[6, 2], &[2, 1], 0);
    let mut parts = layout.split(0, &[2, 4]);
    let first = parts.next().unwrap();
    assert_eq!(first.shape(), &[2, 2]);
    assert_eq!(first.offset(), 0);
    let second = parts.next().unwrap();
    assert_eq!(second.shape(), &[4, 2]);
    assert_eq!(second.offset(), 4);
    assert!(parts.next().is_none());
}

#[test]
fn transforms_across_storage_kinds() {
    let heap = ArrayLayout::<2>::new(&[2, 3, 4, 5], &[60, 20, 5, 1], 0);
    let inline = heap.index_many(&[IndexArg { axis: 1, index: 1 }, IndexArg { axis: 3, index: 4 }]);
    assert_eq!(inline.shape(), &[2, 4]);
    assert_eq!(inline.strides(), &[60, 5]);
    assert_eq!(inline.offset(), 24);
    let tiled = inline.tile_le(1, &[2, 2]);
    assert_eq!(tiled.shape(), &[2, 2, 2]);
    assert_eq!(tiled.strides(), &[60, 5, 10]);
    let moved = heap.transpose(&[3, 1]);
    assert_eq!(moved.shape(), &[2, 5, 4, 3]);
    assert_eq!(moved.strides(), &[60, 1, 5, 20]);
}
