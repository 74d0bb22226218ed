//! Byte-string helpers shared by the registry and the wire protocol.
use vstd::prelude::*;

verus! {

/// The views of a sequence of owned byte strings.
pub open spec fn byte_views(items: Seq<Vec<u8>>) -> Seq<Seq<u8>> {
    items.map_values(|item: Vec<u8>| item@)
}

/// Compares two byte strings.
pub fn bytes_equal(left: &[u8], right: &[u8]) -> (equal: bool)
    ensures
        equal == (left@ == right@),
{
    if left.len() != right.len() {
        return false;
    }
    let mut index: usize = 0;
    while index < left.len()
        invariant
            left@.len() == right@.len(),
            index <= left@.len(),
            forall|i: int| 0 <= i < index ==> left@[i] == right@[i],
        decreases left@.len() - index,
    {
        if left[index] != right[index] {
            return false;
        }
        index = index + 1;
    }
    assert(left@ =~= right@);
    true
}

/// Copies a byte string into a fresh vector.
pub fn copy_bytes(source: &[u8]) -> (copy: Vec<u8>)
    ensures
        copy@ == source@,
{
    vstd::slice::slice_to_vec(source)
}

/// The value of four bytes read as a big-endian unsigned integer.
pub open spec fn be_u32_value(b0: u8, b1: u8, b2: u8, b3: u8) -> int {
    b0 * 16777216 + b1 * 65536 + b2 * 256 + b3
}

/// The four big-endian bytes that encode `value`.
pub open spec fn be_u32_bytes(value: u32) -> Seq<u8> {
    seq![
        (value / 16777216) as u8,
        ((value / 65536) % 256) as u8,
        ((value / 256) % 256) as u8,
        (value % 256) as u8,
    ]
}

/// Reads a big-endian `u32` from the first four bytes of `bytes`.
pub fn read_be_u32(bytes: &[u8]) -> (value: u32)
    requires
        bytes@.len() >= 4,
    ensures
        value as int == be_u32_value(bytes@[0], bytes@[1], bytes@[2], bytes@[3]),
{
    let b0 = bytes[0] as u32;
    let b1 = bytes[1] as u32;
    let b2 = bytes[2] as u32;
    let b3 = bytes[3] as u32;
    ((b0 * 256 + b1) * 256 + b2) * 256 + b3
}

/// Writes `value` as four big-endian bytes.
pub fn write_be_u32(value: u32) -> (bytes: Vec<u8>)
    ensures
        bytes@ == be_u32_bytes(value),
{
    let b0 = (value / 16777216) as u8;
    let b1 = ((value / 65536) % 256) as u8;
    let b2 = ((value / 256) % 256) as u8;
    let b3 = (value % 256) as u8;
    let bytes = vec![b0, b1, b2, b3];
    assert(bytes@ =~= be_u32_bytes(value));
    bytes
}

/// Decoding the encoding of a value gives the value back.
pub proof fn lemma_be_u32_roundtrip(value: u32)
    ensures
        be_u32_value(
            be_u32_bytes(value)[0],
            be_u32_bytes(value)[1],
            be_u32_bytes(value)[2],
            be_u32_bytes(value)[3],
        ) == value as int,
{
    let v = value as int;
    assert(v == (v / 16777216) * 16777216 + ((v / 65536) % 256) * 65536 + ((v / 256) % 256) * 256
        + v % 256) by (nonlinear_arith)
        requires
            0 <= v < 4294967296,
    ;
}

} // verus!
