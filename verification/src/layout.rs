//! Byte sizes and buffer layouts handed to the graphics driver.

use vstd::prelude::*;

verus! {

/// Number of bytes that `len` tightly packed values of type `T` occupy.
pub open spec fn packed_size<T>(len: nat) -> nat {
    len * vstd::layout::size_of::<T>()
}

/// Size in bytes of the contents of `val`, as the signed size that the
/// driver's buffer upload takes.
///
/// A slice never spans more than `isize::MAX` bytes, which is what the
/// precondition says.
pub fn byte_size_of_array<T>(val: &[T]) -> (size: isize)
    requires
        packed_size::<T>(val@.len()) <= isize::MAX,
    ensures
        size == packed_size::<T>(val@.len()),
{
    let len = val.len();
    let elem = std::mem::size_of::<T>();
    let total = len * elem;
    total as isize
}


/// Size in bytes of one value of type `T`, as the 32-bit signed integer that
/// the driver's attribute calls take (wrapped into that range as a plain
/// integer cast does).
pub fn size_of<T>() -> (size: i32)
    ensures
        size == vstd::layout::size_of::<T>() as i32,
{
    std::mem::size_of::<T>() as i32
}

/// Byte offset of the `n`-th value in a tightly packed buffer of `T`, where
/// the size of `T` is first cast to `u32`.
///
/// The product must not overflow `u32`: the unchecked multiplication would
/// panic there.
pub fn offset<T>(n: u32) -> (bytes: u32)
    requires
        n * (vstd::layout::size_of::<T>() as u32) <= u32::MAX,
    ensures
        bytes == n * (vstd::layout::size_of::<T>() as u32),
{
    let elem = std::mem::size_of::<T>() as u32;
    n * elem
}

/// The binding point a buffer is uploaded to.
#[derive(Clone, Copy, PartialEq, Eq, Structural, Debug)]
pub enum BufferTarget {
    /// Per-vertex attribute data.
    Array,
    /// Indices of the vertices that form the triangles.
    ElementArray,
}

/// Which of the four input arrays a buffer is filled from.
#[derive(Clone, Copy, PartialEq, Eq, Structural, Debug)]
pub enum BufferSource {
    Vertices,
    Colors,
    Normals,
    Indices,
}

/// How the shader reads an attribute buffer: its location and the number of
/// floating-point components per vertex.
#[derive(Clone, Copy, PartialEq, Eq, Structural, Debug)]
pub struct AttributeLayout {
    pub location: u32,
    pub components: i32,
}

/// One buffer of a vertex array object: where its data comes from, where it
/// is bound, how many bytes are uploaded, and, for attribute data, how the
/// attribute pointer is configured and enabled.
#[derive(Clone, Copy, PartialEq, Eq, Structural, Debug)]
pub struct BufferUpload {
    pub source: BufferSource,
    pub target: BufferTarget,
    pub byte_size: isize,
    pub attribute: Option<AttributeLayout>,
}

/// The buffers of a vertex array object, in the order in which they are
/// generated, bound and filled: positions (3 components, location 0), colors
/// (4 components, location 1), normals (3 components, location 2), then the
/// index buffer, which has no attribute.
pub open spec fn vao_buffers(
    vertices_bytes: int,
    indices_bytes: int,
    colors_bytes: int,
    normals_bytes: int,
) -> Seq<BufferUpload> {
    seq![
        BufferUpload {
            source: BufferSource::Vertices,
            target: BufferTarget::Array,
            byte_size: vertices_bytes as isize,
            attribute: Some(AttributeLayout { location: 0, components: 3 }),
        },
        BufferUpload {
            source: BufferSource::Colors,
            target: BufferTarget::Array,
            byte_size: colors_bytes as isize,
            attribute: Some(AttributeLayout { location: 1, components: 4 }),
        },
        BufferUpload {
            source: BufferSource::Normals,
            target: BufferTarget::Array,
            byte_size: normals_bytes as isize,
            attribute: Some(AttributeLayout { location: 2, components: 3 }),
        },
        BufferUpload {
            source: BufferSource::Indices,
            target: BufferTarget::ElementArray,
            byte_size: indices_bytes as isize,
            attribute: None,
        },
    ]
}

/// The buffers to create for one mesh, given its vertex positions, triangle
/// indices, vertex colors and vertex normals.
pub fn vao_plan<F, I>(vertices: &[F], indices: &[I], colors: &[F], normals: &[F]) -> (plan: Vec<
    BufferUpload,
>)
    requires
        packed_size::<F>(vertices@.len()) <= isize::MAX,
        packed_size::<I>(indices@.len()) <= isize::MAX,
        packed_size::<F>(colors@.len()) <= isize::MAX,
        packed_size::<F>(normals@.len()) <= isize::MAX,
    ensures
        plan@ == vao_buffers(
            packed_size::<F>(vertices@.len()) as int,
            packed_size::<I>(indices@.len()) as int,
            packed_size::<F>(colors@.len()) as int,
            packed_size::<F>(normals@.len()) as int,
        ),
{
    let mut plan: Vec<BufferUpload> = Vec::new();
    plan.push(
        BufferUpload {
            source: BufferSource::Vertices,
            target: BufferTarget::Array,
            byte_size: byte_size_of_array(vertices),
            attribute: Some(AttributeLayout { location: 0, components: 3 }),
        },
    );
    plan.push(
        BufferUpload {
            source: BufferSource::Colors,
            target: BufferTarget::Array,
            byte_size: byte_size_of_array(colors),
            attribute: Some(AttributeLayout { location: 1, components: 4 }),
        },
    );
    plan.push(
        BufferUpload {
            source: BufferSource::Normals,
            target: BufferTarget::Array,
            byte_size: byte_size_of_array(normals),
            attribute: Some(AttributeLayout { location: 2, components: 3 }),
        },
    );
    plan.push(
        BufferUpload {
            source: BufferSource::Indices,
            target: BufferTarget::ElementArray,
            byte_size: byte_size_of_array(indices),
            attribute: None,
        },
    );
    assert(plan@ =~= vao_buffers(
        packed_size::<F>(vertices@.len()) as int,
        packed_size::<I>(indices@.len()) as int,
        packed_size::<F>(colors@.len()) as int,
        packed_size::<F>(normals@.len()) as int,
    ));
    plan
}

} // verus!
