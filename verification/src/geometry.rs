use vstd::prelude::*;

verus! {

// The shared quad geometry is a constant buffer: four corner positions, four
// texture coordinates, four upward normals and six triangle indices. All
// vertex components are -1.0, 0.0 or 1.0, written here directly as their
// little-endian IEEE 754 single-precision encodings so the buffer layout is
// fixed byte for byte.
/// Little-endian IEEE 754 encoding of 1.0f32 (0x3F800000).
pub open spec fn le_one() -> Seq<u8> {
    seq![0x00u8, 0x00u8, 0x80u8, 0x3fu8]
}

/// Little-endian IEEE 754 encoding of -1.0f32 (0xBF800000).
pub open spec fn le_neg_one() -> Seq<u8> {
    seq![0x00u8, 0x00u8, 0x80u8, 0xbfu8]
}

/// Little-endian IEEE 754 encoding of 0.0f32.
pub open spec fn le_zero() -> Seq<u8> {
    seq![0x00u8, 0x00u8, 0x00u8, 0x00u8]
}

/// The four quad corners, southwest, southeast, northeast, northwest, as
/// (x, y, z) with y up and the quad spanning -1..1 in x and z.
pub open spec fn positions_bytes() -> Seq<u8> {
    le_neg_one() + le_zero() + le_one() + le_one() + le_zero() + le_one() + le_one() + le_zero()
        + le_neg_one() + le_neg_one() + le_zero() + le_neg_one()
}

/// The matching texture coordinates of the four corners.
pub open spec fn uvs_bytes() -> Seq<u8> {
    le_zero() + le_zero() + le_one() + le_zero() + le_one() + le_one() + le_zero() + le_one()
}

/// All four normals point up.
pub open spec fn normals_bytes() -> Seq<u8> {
    le_zero() + le_one() + le_zero() + le_zero() + le_one() + le_zero() + le_zero() + le_one()
        + le_zero() + le_zero() + le_one() + le_zero()
}

/// Two triangles covering the quad, plus two bytes of padding to keep the
/// buffer four-byte aligned.
pub open spec fn indices_bytes() -> Seq<u8> {
    seq![0u8, 1u8, 2u8, 2u8, 3u8, 0u8, 0x00u8, 0x00u8]
}

/// The complete shared geometry buffer.
pub open spec fn geometry_buffer_bytes() -> Seq<u8> {
    positions_bytes() + uvs_bytes() + normals_bytes() + indices_bytes()
}

/// Append one four-byte little-endian group to the buffer.
fn push_word(v: &mut Vec<u8>, b0: u8, b1: u8, b2: u8, b3: u8)
    ensures
        final(v)@ == old(v)@ + seq![b0, b1, b2, b3],
{
    v.push(b0);
    v.push(b1);
    v.push(b2);
    v.push(b3);
    proof {
        assert(v@ =~= old(v)@ + seq![b0, b1, b2, b3]);
    }
}

/// Append the encoding of 1.0f32.
fn push_one(v: &mut Vec<u8>)
    ensures
        final(v)@ == old(v)@ + le_one(),
{
    push_word(v, 0x00, 0x00, 0x80, 0x3f);
}

/// Append the encoding of -1.0f32.
fn push_neg_one(v: &mut Vec<u8>)
    ensures
        final(v)@ == old(v)@ + le_neg_one(),
{
    push_word(v, 0x00, 0x00, 0x80, 0xbf);
}

/// Append the encoding of 0.0f32.
fn push_zero(v: &mut Vec<u8>)
    ensures
        final(v)@ == old(v)@ + le_zero(),
{
    push_word(v, 0x00, 0x00, 0x00, 0x00);
}

/// Build the shared geometry buffer: positions, texture coordinates and
/// normals of the unit maze quad, then the triangle indices and their
/// padding.
pub fn make_buffer() -> (r: Vec<u8>)
    ensures
        r@ == geometry_buffer_bytes(),
        r@.len() == 136,
{
    let mut result: Vec<u8> = Vec::new();

    // Positions: southwest, southeast, northeast, northwest.
    push_neg_one(&mut result);
    push_zero(&mut result);
    push_one(&mut result);
    push_one(&mut result);
    push_zero(&mut result);
    push_one(&mut result);
    push_one(&mut result);
    push_zero(&mut result);
    push_neg_one(&mut result);
    push_neg_one(&mut result);
    push_zero(&mut result);
    push_neg_one(&mut result);
    proof {
        assert(result@ =~= positions_bytes());
    }

    // Texture coordinates, one pair per corner.
    push_zero(&mut result);
    push_zero(&mut result);
    push_one(&mut result);
    push_zero(&mut result);
    push_one(&mut result);
    push_one(&mut result);
    push_zero(&mut result);
    push_one(&mut result);
    proof {
        assert(result@ =~= positions_bytes() + uvs_bytes());
    }

    // Normals, all pointing up.
    push_zero(&mut result);
    push_one(&mut result);
    push_zero(&mut result);
    push_zero(&mut result);
    push_one(&mut result);
    push_zero(&mut result);
    push_zero(&mut result);
    push_one(&mut result);
    push_zero(&mut result);
    push_zero(&mut result);
    push_one(&mut result);
    push_zero(&mut result);
    proof {
        assert(result@ =~= positions_bytes() + uvs_bytes() + normals_bytes());
    }

    // Indices of the two triangles, then two bytes of padding.
    result.push(0);
    result.push(1);
    result.push(2);
    result.push(2);
    result.push(3);
    result.push(0);
    result.push(0x00);
    result.push(0x00);
    proof {
        assert(result@ =~= geometry_buffer_bytes());
    }

    result
}

/// The byte size of the shared geometry buffer: 48 bytes of positions, 32 of
/// texture coordinates, 48 of normals and 8 of indices with padding.
pub fn get_buffer_size() -> (r: usize)
    ensures
        r == geometry_buffer_bytes().len(),
        r == 136,
{
    136
}

} // verus!
