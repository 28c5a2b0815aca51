use voxelshape_conv::geometry::AABox;
use voxelshape_conv::geometry::Axis;
use voxelshape_conv::geometry::Vec3;
use voxelshape_conv::geometry::bounding_box;
use voxelshape_conv::geometry::into_verts;

#[test]
fn aabox_from_keeps_corners() {
    let b = AABox::from(&vec![1, 2, 3], &vec![4, 5, 6]);
    assert_eq!(b, AABox(1, 2, 3, 4, 5, 6));
}

#[test]
fn vec3_from_keeps_components() {
    let v = Vec3::from(&vec![7, 8, 9]);
    assert_eq!(v, Vec3(7, 8, 9));
}

#[test]
fn axis_from_reads_all_names() {
    assert_eq!(Axis::from("x"), Axis::X);
    assert_eq!(Axis::from("X"), Axis::X);
    assert_eq!(Axis::from("y"), Axis::Y);
    assert_eq!(Axis::from("Y"), Axis::Y);
    assert_eq!(Axis::from("z"), Axis::Z);
    assert_eq!(Axis::from("Z"), Axis::Z);
}

#[test]
fn into_verts_fixed_order() {
    let verts = into_verts(AABox(0, 0, 0, 16, 16, 16));
    assert_eq!(
        verts,
        vec![
            Vec3(0, 0, 0),
            Vec3(16, 0, 0),
            Vec3(16, 16, 0),
            Vec3(0, 16, 0),
            Vec3(0, 0, 16),
            Vec3(16, 0, 16),
            Vec3(16, 16, 16),
            Vec3(0, 16, 16),
        ]
    );
}

#[test]
fn bounding_box_is_tight() {
    let verts = vec![Vec3(5, 1, 9), Vec3(2, 8, 3), Vec3(7, 4, 6)];
    assert_eq!(bounding_box(&verts), AABox(2, 1, 3, 7, 8, 9));
}

#[test]
fn bounding_box_of_one_point_is_degenerate() {
    let verts = vec![Vec3(4, 4, 4)];
    assert_eq!(bounding_box(&verts), AABox(4, 4, 4, 4, 4, 4));
}

#[test]
fn zero_rotation_identity() {
    // With no rotation anywhere, an element approximates to exactly the
    // componentwise min/max of its corners.
    let b = AABox::from(&vec![4, 5, 3], &vec![1, 2, 6]);
    let verts = into_verts(b);
    assert_eq!(bounding_box(&verts), AABox(1, 2, 3, 4, 5, 6));
}

#[test]
fn degenerate_element_keeps_zero_volume() {
    let b = AABox::from(&vec![8, 8, 8], &vec![8, 8, 8]);
    assert_eq!(bounding_box(&into_verts(b)), AABox(8, 8, 8, 8, 8, 8));
}
