use vstd::prelude::*;

verus! {

/// Returns the name of the cubemap face with the given index: `+x`, `-x`, `+y`, `-y`, `+z`
/// and `-z` for the indices 0 to 5, and `invalid` for any other index.
pub fn face_index_to_name(face_index: usize) -> (name: &'static str)
    ensures
        face_index == 0 ==> name@ == "+x"@,
        face_index == 1 ==> name@ == "-x"@,
        face_index == 2 ==> name@ == "+y"@,
        face_index == 3 ==> name@ == "-y"@,
        face_index == 4 ==> name@ == "+z"@,
        face_index == 5 ==> name@ == "-z"@,
        face_index > 5 ==> name@ == "invalid"@,
{
    match face_index {
        0 => "+x",
        1 => "-x",
        2 => "+y",
        3 => "-y",
        4 => "+z",
        5 => "-z",
        _ => "invalid",
    }
}

/// Cubemap layout defines the order of images in a packed cubemap image.
#[derive(Clone, Copy, Debug, PartialEq, Eq, Structural)]
pub enum CubemapLayout {
    /// layout in a vertical cross format
    /// ```text
    ///    +y
    /// -x -z +x
    ///    -y
    ///    +z
    /// ```
    CrossVertical,
    /// layout in a horizontal cross format
    /// ```text
    ///    +y
    /// -x -z +x +z
    ///    -y
    /// ```
    CrossHorizontal,
    /// layout in a vertical sequence
    /// ```text
    ///   +x
    ///   -x
    ///   +y
    ///   -y
    ///   -z
    ///   +z
    /// ```
    SequenceVertical,
    /// layout in a horizontal sequence
    /// ```text
    /// +x -x +y -y -z +z
    /// ```
    SequenceHorizontal,
}

impl Default for CubemapLayout {
    /// The vertical cross layout.
    fn default() -> (layout: Self)
        ensures
            layout == CubemapLayout::CrossVertical,
    {
        CubemapLayout::CrossVertical
    }
}

} // verus!
