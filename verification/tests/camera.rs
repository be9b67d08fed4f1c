use bevy_lite::camera::{face_index_to_name, CubemapLayout};

#[test]
fn cubemap_face_names() {
    let names: Vec<&str> = (0..7).map(face_index_to_name).collect();
    assert_eq!(names, ["+x", "-x", "+y", "-y", "+z", "-z", "invalid"]);
    assert_eq!(face_index_to_name(usize::MAX), "invalid");
}

#[test]
fn default_cubemap_layout_is_the_vertical_cross() {
    assert_eq!(CubemapLayout::default(), CubemapLayout::CrossVertical);
    assert_eq!(CubemapLayout::SequenceHorizontal as u32, 3);
}
