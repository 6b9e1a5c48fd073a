//! The guest's linear memory: a run of bytes that the host reads requests from
//! and writes results into, by offsets and lengths that the guest chose.

use vstd::prelude::*;
use vstd::utf8::*;

use crate::error::{HttpError, HttpErrorView};
use crate::text::bytes_to_str;

verus! {

/// Whether `count` bytes can be written at `at`. Writing no byte is possible
/// anywhere.
pub open spec fn writable(memory: Seq<u8>, at: int, count: int) -> bool {
    count == 0 || at + count <= memory.len()
}

/// The memory after `data` was written at `at`.
pub open spec fn written(memory: Seq<u8>, at: int, data: Seq<u8>) -> Seq<u8> {
    Seq::new(
        memory.len(),
        |i: int|
            if at <= i < at + data.len() {
                data[i - at]
            } else {
                memory[i]
            },
    )
}

/// What reading `len` bytes at `offset` gives.
pub open spec fn read_bytes(memory: Seq<u8>, offset: u32, len: u32) -> Result<
    Seq<u8>,
    HttpErrorView,
> {
    if offset + len <= u32::MAX && offset + len <= memory.len() {
        Ok(memory.subrange(offset as int, offset + len))
    } else {
        Err(HttpErrorView::BufferTooSmall)
    }
}

/// What reading a string of `len` bytes at `offset` gives.
pub open spec fn read_string(memory: Seq<u8>, offset: u32, len: u32) -> Result<
    Seq<char>,
    HttpErrorView,
> {
    match read_bytes(memory, offset, len) {
        Ok(bytes) => if valid_utf8(bytes) {
            Ok(decode_utf8(bytes))
        } else {
            Err(HttpErrorView::Utf8Error)
        },
        Err(error) => Err(error),
    }
}

/// The little-endian bytes of a 16-bit number.
pub open spec fn le_u16(x: u16) -> Seq<u8> {
    seq![(x % 256) as u8, (x / 256) as u8]
}

/// The little-endian bytes of a 32-bit number.
pub open spec fn le_u32(x: u32) -> Seq<u8> {
    seq![
        (x % 256) as u8,
        (x / 256 % 256) as u8,
        (x / 65536 % 256) as u8,
        (x / 16777216) as u8,
    ]
}

/// The number that little-endian bytes stand for.
pub open spec fn le_value(bytes: Seq<u8>) -> int
    decreases bytes.len(),
{
    if bytes.len() == 0 {
        0
    } else {
        bytes[0] + 256 * le_value(bytes.drop_first())
    }
}

/// Whether `count` bytes can be written at `at`.
pub fn can_write(memory: &[u8], at: u32, count: usize) -> (r: bool)
    ensures
        r == writable(memory@, at as int, count as int),
{
    count == 0 || (at as usize <= memory.len() && count <= memory.len() - at as usize)
}

/// Writes `data` into the memory, starting at `at`.
pub fn write_bytes(memory: &mut [u8], at: u32, data: &[u8])
    requires
        writable(old(memory)@, at as int, data@.len() as int),
    ensures
        final(memory)@ == written(old(memory)@, at as int, data@),
{
    let size: usize = memory.len();
    let mut i: usize = 0;
    while i < data.len()
        invariant
            i <= data@.len(),
            size == old(memory)@.len(),
            writable(old(memory)@, at as int, data@.len() as int),
            memory@ == written(old(memory)@, at as int, data@.take(i as int)),
        decreases data@.len() - i,
    {
        memory[at as usize + i] = data[i];
        i = i + 1;
    }
    assert(data@.take(i as int) == data@);
}

/// Writes a 16-bit number in little-endian order.
pub fn write_u16(memory: &mut [u8], at: u32, x: u16)
    requires
        at + 2 <= old(memory)@.len(),
    ensures
        final(memory)@ == written(old(memory)@, at as int, le_u16(x)),
{
    let bytes: [u8; 2] = [(x % 256) as u8, (x / 256) as u8];
    assert(bytes@ == le_u16(x));
    write_bytes(memory, at, &bytes);
}

/// Writes a 32-bit number in little-endian order.
pub fn write_u32(memory: &mut [u8], at: u32, x: u32)
    requires
        at + 4 <= old(memory)@.len(),
    ensures
        final(memory)@ == written(old(memory)@, at as int, le_u32(x)),
{
    let bytes: [u8; 4] = [
        (x % 256) as u8,
        (x / 256 % 256) as u8,
        (x / 65536 % 256) as u8,
        (x / 16777216) as u8,
    ];
    assert(bytes@ == le_u32(x));
    write_bytes(memory, at, &bytes);
}

/// Gets a slice of length `len` from the memory, starting at `offset`.
/// This returns [`HttpError::BufferTooSmall`] if the range does not lie within
/// the memory.
pub fn slice_from_memory(memory: &[u8], offset: u32, len: u32) -> (r: Result<Vec<u8>, HttpError>)
    ensures
        match r {
            Ok(bytes) => read_bytes(memory@, offset, len) == Ok::<Seq<u8>, HttpErrorView>(bytes@),
            Err(error) => read_bytes(memory@, offset, len) == Err::<Seq<u8>, HttpErrorView>(error@),
        },
{
    let required_memory_size: usize = match offset.checked_add(len) {
        Some(end) => end as usize,
        None => return Err(HttpError::BufferTooSmall),
    };
    if required_memory_size > memory.len() {
        return Err(HttpError::BufferTooSmall);
    }
    Ok(vstd::slice::slice_to_vec(vstd::slice::slice_subrange(memory, offset as usize, required_memory_size)))
}

/// Reads a string of byte length `len` from the memory, starting at `offset`.
pub fn string_from_memory(memory: &[u8], offset: u32, len: u32) -> (r: Result<String, HttpError>)
    ensures
        match r {
            Ok(text) => read_string(memory@, offset, len) == Ok::<Seq<char>, HttpErrorView>(text@),
            Err(error) => read_string(memory@, offset, len) == Err::<Seq<char>, HttpErrorView>(
                error@,
            ),
        },
{
    let slice = match slice_from_memory(memory, offset, len) {
        Ok(slice) => slice,
        Err(error) => return Err(error),
    };
    match bytes_to_str(&slice) {
        Ok(text) => Ok(text.to_owned()),
        Err(_) => Err(HttpError::Utf8Error),
    }
}

/// Reading a range back right after writing it gives what was written.
pub proof fn law_read_gives_back_write(memory: Seq<u8>, offset: u32, data: Seq<u8>)
    requires
        offset + data.len() <= u32::MAX,
        offset + data.len() <= memory.len(),
    ensures
        read_bytes(written(memory, offset as int, data), offset, data.len() as u32) == Ok::<
            Seq<u8>,
            HttpErrorView,
        >(data),
{
    assert(written(memory, offset as int, data).subrange(offset as int, offset + data.len())
        == data);
}

/// A write leaves the memory's size alone, and every byte outside of its range.
pub proof fn law_write_keeps_the_rest(memory: Seq<u8>, at: int, data: Seq<u8>, i: int)
    requires
        0 <= i < memory.len(),
        !(at <= i < at + data.len()),
    ensures
        written(memory, at, data).len() == memory.len(),
        written(memory, at, data)[i] == memory[i],
{
}

/// A read after a write elsewhere gives what it gave before.
pub proof fn law_disjoint_write_is_not_read(
    memory: Seq<u8>,
    at: int,
    data: Seq<u8>,
    offset: u32,
    len: u32,
)
    requires
        offset + len <= at || at + data.len() <= offset,
    ensures
        read_bytes(written(memory, at, data), offset, len) == read_bytes(memory, offset, len),
{
    if offset + len <= memory.len() {
        assert(written(memory, at, data).subrange(offset as int, offset + len) == memory.subrange(
            offset as int,
            offset + len,
        ));
    }
}

/// The bytes of a number stand for that number.
pub proof fn law_little_endian(x: u32, y: u16)
    ensures
        le_value(le_u32(x)) == x,
        le_value(le_u16(y)) == y,
{
    reveal_with_fuel(le_value, 5);
    let s = le_u32(x);
    let t = le_u16(y);
    assert(s.drop_first().drop_first().drop_first() == seq![s[3]]);
    assert(t.drop_first() == seq![t[1]]);
}

/// A write puts each byte of its data in its place, and changes nothing else.
pub proof fn law_write_is_exact(memory: Seq<u8>, at: int, data: Seq<u8>, i: int)
    requires
        0 <= i < memory.len(),
    ensures
        written(memory, at, data).len() == memory.len(),
        at <= i < at + data.len() ==> written(memory, at, data)[i] == data[i - at],
        i < at || at + data.len() <= i ==> written(memory, at, data)[i] == memory[i],
{
}

/// Bytes can be written exactly if the last of them has its place in the
/// memory.
pub proof fn law_writable_to_the_last_byte(memory: Seq<u8>, at: int, count: int)
    requires
        0 <= at,
        0 <= count,
    ensures
        writable(memory, at, count) <==> (count > 0 ==> at + count - 1 < memory.len()),
{
}

/// A read gives each byte of its range, all of them and in order. It is refused
/// exactly if the range does not end within the memory, or has no end that 32
/// bits can hold.
pub proof fn law_read_is_exact(memory: Seq<u8>, offset: u32, len: u32)
    ensures
        read_bytes(memory, offset, len) is Ok <==> offset + len <= 0xffff_ffff && offset + len
            <= memory.len(),
        read_bytes(memory, offset, len) matches Ok(bytes) ==> bytes.len() == len && forall|i: int|
            0 <= i < len ==> #[trigger] bytes[i] == memory[offset + i],
        read_bytes(memory, offset, len) matches Err(error) ==> error
            == HttpErrorView::BufferTooSmall,
{
}

/// A string is read exactly if the bytes in its range are the UTF-8 form of it.
/// A range that cannot be read is refused as such, and bytes that are no UTF-8
/// as these.
pub proof fn law_string_is_what_its_bytes_say(
    memory: Seq<u8>,
    offset: u32,
    len: u32,
    text: Seq<char>,
)
    ensures
        read_string(memory, offset, len) == Ok::<Seq<char>, HttpErrorView>(text) <==> read_bytes(
            memory,
            offset,
            len,
        ) == Ok::<Seq<u8>, HttpErrorView>(encode_utf8(text)),
        read_bytes(memory, offset, len) is Err ==> read_string(memory, offset, len) == Err::<
            Seq<char>,
            HttpErrorView,
        >(HttpErrorView::BufferTooSmall),
        read_bytes(memory, offset, len) matches Ok(bytes) ==> !valid_utf8(bytes) ==> read_string(
            memory,
            offset,
            len,
        ) == Err::<Seq<char>, HttpErrorView>(HttpErrorView::Utf8Error),
{
    encode_utf8_valid_utf8(text);
    encode_utf8_decode_utf8(text);
    if let Ok(bytes) = read_bytes(memory, offset, len) {
        if valid_utf8(bytes) {
            decode_utf8_encode_utf8(bytes);
        }
    }
}

/// The bytes of a number, the lowest first, weigh up to the number.
pub proof fn law_bytes_weigh_up(x: u32, y: u16)
    ensures
        le_u32(x).len() == 4,
        le_u32(x)[0] + 256 * le_u32(x)[1] + 65536 * le_u32(x)[2] + 16777216 * le_u32(x)[3] == x,
        le_u16(y).len() == 2,
        le_u16(y)[0] + 256 * le_u16(y)[1] == y,
{
}

} // verus!
