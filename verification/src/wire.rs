//! Reading integers and strings out of BTF data.
use vstd::prelude::*;
use vstd::slice::*;
use vstd::utf8::encode_utf8;
use vstd::utf8::valid_utf8;
use scroll::Pread;

verus! {

/// What the scroll crate reports when a read fails.
#[verifier::external_type_specification]
#[verifier::external_body]
pub struct ExScrollError(scroll::Error);

/// The 16-bit number whose bytes stand at `off`, in the given byte order.
pub open spec fn u16_at(data: Seq<u8>, off: int, little: bool) -> u16 {
    if little {
        (data[off] as int + 256 * (data[off + 1] as int)) as u16
    } else {
        (data[off + 1] as int + 256 * (data[off] as int)) as u16
    }
}

/// The 32-bit number whose bytes stand at `off`, in the given byte order.
pub open spec fn u32_at(data: Seq<u8>, off: int, little: bool) -> u32 {
    if little {
        (data[off] as int + 256 * (data[off + 1] as int) + 65536 * (data[off + 2] as int) + 16777216
            * (data[off + 3] as int)) as u32
    } else {
        (data[off + 3] as int + 256 * (data[off + 2] as int) + 65536 * (data[off + 1] as int)
            + 16777216 * (data[off] as int)) as u32
    }
}

/// The signed 32-bit number whose bytes stand at `off`: the two's
/// complement reading of the unsigned one.
pub open spec fn i32_at(data: Seq<u8>, off: int, little: bool) -> i32 {
    let u = u32_at(data, off, little);
    if u >= 0x8000_0000 {
        (u - 0x1_0000_0000) as i32
    } else {
        u as i32
    }
}

/// `pread_with::<u16>` of the scroll crate on a byte slice: reads two bytes
/// at `off` as a number in the given byte order. It fails exactly if fewer
/// than two bytes are left at `off`.
#[verifier::external_body]
pub(crate) fn read_u16(data: &[u8], off: usize, little: bool) -> (r: Result<u16, scroll::Error>)
    ensures
        r is Ok <==> off + 2 <= data@.len(),
        r matches Ok(v) ==> v == u16_at(data@, off as int, little),
{
    data.pread_with::<u16>(off, if little { scroll::LE } else { scroll::BE })
}

/// `pread_with::<u32>` of the scroll crate on a byte slice: reads four
/// bytes at `off` as a number in the given byte order. It fails exactly if
/// fewer than four bytes are left at `off`.
#[verifier::external_body]
pub(crate) fn read_u32(data: &[u8], off: usize, little: bool) -> (r: Result<u32, scroll::Error>)
    ensures
        r is Ok <==> off + 4 <= data@.len(),
        r matches Ok(v) ==> v == u32_at(data@, off as int, little),
{
    data.pread_with::<u32>(off, if little { scroll::LE } else { scroll::BE })
}

/// `pread_with::<i32>` of the scroll crate on a byte slice: reads four
/// bytes at `off` as a signed number in the given byte order. It fails
/// exactly if fewer than four bytes are left at `off`.
#[verifier::external_body]
pub(crate) fn read_i32(data: &[u8], off: usize, little: bool) -> (r: Result<i32, scroll::Error>)
    ensures
        r is Ok <==> off + 4 <= data@.len(),
        r matches Ok(v) ==> v == i32_at(data@, off as int, little),
{
    data.pread_with::<i32>(off, if little { scroll::LE } else { scroll::BE })
}

/// `std::str::from_utf8`: the text that the bytes are the UTF-8 encoding
/// of, if they are one.
#[verifier::external_body]
pub(crate) fn utf8_str(bytes: &[u8]) -> (r: Option<&str>)
    ensures
        r is Some <==> valid_utf8(bytes@),
        r matches Some(s) ==> encode_utf8(s@) == bytes@,
{
    std::str::from_utf8(bytes).ok()
}

/// Where the string that starts at `from` ends: the position of the first
/// zero byte at or after `from` and before `end`, or `end` if there is
/// none.
pub open spec fn string_end(data: Seq<u8>, from: int, end: int) -> int
    decreases end - from,
{
    if from >= end {
        end
    } else if data[from] == 0 {
        from
    } else {
        string_end(data, from + 1, end)
    }
}

/// The bytes of the string at offset `off` of the string section, which
/// lies from `start` up to `end`: none if the offset is outside the
/// section or no zero byte follows within it.
pub open spec fn string_bytes(data: Seq<u8>, start: int, end: int, off: u32) -> Option<Seq<u8>> {
    if start + off >= end || string_end(data, start + off, end) >= end {
        None
    } else {
        Some(data.subrange(start + off, string_end(data, start + off, end)))
    }
}

/// Whether there is a string at offset `off` of the string section, and it
/// is UTF-8.
pub open spec fn string_ok(data: Seq<u8>, start: int, end: int, off: u32) -> bool {
    string_bytes(data, start, end, off) matches Some(bytes) && valid_utf8(bytes)
}

/// Whether `text` is the string at offset `off` of the string section.
pub open spec fn string_is(text: Seq<char>, data: Seq<u8>, start: int, end: int, off: u32) -> bool {
    string_bytes(data, start, end, off) matches Some(bytes) && encode_utf8(text) == bytes
}

/// The position of the first zero byte at or after `from` and before
/// `end`, or `end`.
pub fn find_string_end(data: &[u8], from: usize, end: usize) -> (at: usize)
    requires
        from <= end <= data@.len(),
    ensures
        at == string_end(data@, from as int, end as int),
        from <= at <= end,
{
    let mut at: usize = from;
    while at < end && data[at] != 0
        invariant
            from <= at <= end <= data@.len(),
            string_end(data@, from as int, end as int) == string_end(data@, at as int, end as int),
        decreases end - at,
    {
        at += 1;
    }
    at
}

/// The string at offset `off` of the string section, which lies from
/// `start` up to `end`.
pub fn read_string(data: &[u8], start: usize, end: usize, off: u32) -> (r: Option<String>)
    requires
        start <= end <= data@.len(),
    ensures
        r is Some <==> string_ok(data@, start as int, end as int, off),
        r matches Some(s) ==> string_is(s@, data@, start as int, end as int, off),
{
    if off as usize >= end - start {
        return None;
    }
    let from: usize = start + off as usize;
    let to: usize = find_string_end(data, from, end);
    if to >= end {
        return None;
    }
    match utf8_str(slice_subrange(data, from, to)) {
        Some(text) => Some(text.to_owned()),
        None => None,
    }
}

} // verus!
