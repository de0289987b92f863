use ndarray_layout::{ArrayLayout, Endian};

#[test]
fn test_new() {
    let layout = ArrayLayout::<4>::new(&[2, 3, 4], &[12, -4, 1], 20);
    assert_eq!(layout.offset(), 20);
    assert_eq!(layout.shape(), &[2, 3, 4]);
    assert_eq!(layout.strides(), &[12, -4, 1]);
    assert_eq!(layout.ndim(), 3);
}

#[test]
fn test_new_different_length() {}

#[test]
fn test_new_contiguous_little_endian() {
    let layout = ArrayLayout::<4>::new_contiguous(&[2, 3, 4], Endian::LittleEndian, 4);
    assert_eq!(layout.offset(), 0);
    assert_eq!(layout.shape(), &[2, 3, 4]);
    assert_eq!(layout.strides(), &[4, 8, 24]);
}

#[test]
fn test_new_contiguous_big_endian() {
    let layout = ArrayLayout::<4>::new_contiguous(&[2, 3, 4], Endian::LittleEndian, 4);
    assert_eq!(layout.offset(), 0);
    assert_eq!(layout.shape(), &[2, 3, 4]);
    assert_eq!(layout.strides(), &[4, 8, 24]);
}

#[test]
fn test_num_elements() {
    let layout = ArrayLayout::<4>::new_contiguous(&[2, 3, 4], Endian::BigEndian, 20);
    assert_eq!(layout.num_elements(), 24);
}

#[test]
fn test_element_offset_little_endian() {
    let layout = ArrayLayout::<4>::new_contiguous(&[2, 3, 4], Endian::LittleEndian, 4);
    assert_eq!(layout.element_offset(22, Endian::LittleEndian), 88);
}

#[test]
fn test_element_offset_big_endian() {
    let layout = ArrayLayout::<4>::new_contiguous(&[2, 3, 4], Endian::BigEndian, 4);
    assert_eq!(layout.element_offset(22, Endian::BigEndian), 88);
}

#[test]
fn test_data_range_positive_strides() {
    let layout = ArrayLayout::<4>::new_contiguous(&[2, 3, 4], Endian::LittleEndian, 4);
    let range = layout.data_range();
    assert_eq!(range, 0..=92);
}

#[test]
fn test_data_range_mixed_strides() {
    let layout = ArrayLayout::<4>::new(&[2, 3, 4], &[12, -4, 0], 20);
    let range = layout.data_range();
    assert_eq!(range, 12..=32);
}

#[test]
fn test_clone_and_eq() {
    let layout1 = ArrayLayout::<4>::new(&[2, 3, 4], &[12, -4, 1], 20);
    let layout2 = layout1.clone();
    assert!(layout1.eq(&layout2));
}

#[test]
fn test_drop() {
    let layout = ArrayLayout::<4>::new(&[2, 3, 4], &[12, -4, 1], 20);
    drop(layout);
}
