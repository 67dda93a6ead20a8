//! The container's signature and chunk grammar.
use vstd::prelude::*;
use crate::DecodeError;

verus! {

/// Header fields of the raster, as stored in its header chunk.
#[derive(Debug, Clone, Copy, PartialEq, Eq, Structural)]
pub struct RasterHeader {
    pub width: u32,
    pub height: u32,
    pub bit_depth: u8,
    pub color_type: u8,
    pub compression: u8,
    pub filter_method: u8,
    pub interlace: u8,
}

/// The header and the concatenated payload of all data chunks.
pub struct Container {
    pub header: RasterHeader,
    pub payload: Vec<u8>,
}

/// Offset of the first chunk after the header chunk.
pub const FIRST_CHUNK: usize = 33;

pub open spec fn signature() -> Seq<u8> {
    seq![137u8, 80, 78, 71, 13, 10, 26, 10]
}

pub open spec fn header_tag() -> Seq<u8> {
    seq![73u8, 72, 68, 82]
}

pub open spec fn data_tag() -> Seq<u8> {
    seq![73u8, 68, 65, 84]
}

pub open spec fn end_tag() -> Seq<u8> {
    seq![73u8, 69, 78, 68]
}

/// Big-endian 32-bit integer at `pos`.
pub open spec fn be_u32(b: Seq<u8>, pos: int) -> int {
    b[pos] * 16777216 + b[pos + 1] * 65536 + b[pos + 2] * 256 + b[pos + 3]
}

/// Whether the four bytes at `pos` are `tag`.
pub open spec fn tag_at(b: Seq<u8>, pos: int, tag: Seq<u8>) -> bool {
    b[pos] == tag[0] && b[pos + 1] == tag[1] && b[pos + 2] == tag[2] && b[pos + 3] == tag[3]
}

/// Reads chunk records from `pos` on, appending data payloads to `acc`,
/// until the end chunk.
pub open spec fn scan_chunks(b: Seq<u8>, pos: int, acc: Seq<u8>) -> Result<Seq<u8>, DecodeError>
    decreases b.len() - pos,
{
    if pos < 0 || b.len() < pos + 8 {
        Err(DecodeError::TruncatedError)
    } else {
        let len = be_u32(b, pos);
        let next = pos + 12 + len;
        if b.len() < next {
            Err(DecodeError::TruncatedError)
        } else if tag_at(b, pos + 4, end_tag()) {
            Ok(acc)
        } else if tag_at(b, pos + 4, data_tag()) {
            scan_chunks(b, next, acc + b.subrange(pos + 8, pos + 8 + len))
        } else {
            scan_chunks(b, next, acc)
        }
    }
}

/// The header fields stored from offset 16 on.
pub open spec fn header_of(b: Seq<u8>) -> RasterHeader {
    RasterHeader {
        width: be_u32(b, 16) as u32,
        height: be_u32(b, 20) as u32,
        bit_depth: b[24],
        color_type: b[25],
        compression: b[26],
        filter_method: b[27],
        interlace: b[28],
    }
}

/// Whether the header is one this decoder handles: 8-bit RGB or RGBA,
/// standard compression and filtering, no interlacing.
pub open spec fn supported(h: RasterHeader) -> bool {
    h.bit_depth == 8 && (h.color_type == 2 || h.color_type == 6) && h.compression == 0
        && h.filter_method == 0 && h.interlace == 0
}

/// What parsing the container bytes `b` gives: the header and the payload.
pub open spec fn parse_spec(b: Seq<u8>) -> Result<(RasterHeader, Seq<u8>), DecodeError> {
    if b.len() < 8 {
        Err(DecodeError::TruncatedError)
    } else if b.subrange(0, 8) != signature() {
        Err(DecodeError::FormatError)
    } else if b.len() < 16 {
        Err(DecodeError::TruncatedError)
    } else if !tag_at(b, 12, header_tag()) {
        Err(DecodeError::StructureError)
    } else if b.len() < FIRST_CHUNK {
        Err(DecodeError::TruncatedError)
    } else if be_u32(b, 8) != 13 || header_of(b).width == 0 || header_of(b).height == 0 {
        Err(DecodeError::FormatError)
    } else if !supported(header_of(b)) {
        Err(DecodeError::UnsupportedError)
    } else {
        match scan_chunks(b, FIRST_CHUNK as int, Seq::empty()) {
            Ok(p) => Ok((header_of(b), p)),
            Err(e) => Err(e),
        }
    }
}

fn read_be_u32(b: &Vec<u8>, pos: usize) -> (r: u32)
    requires
        pos + 4 <= b.len(),
    ensures
        r == be_u32(b@, pos as int),
{
    b[pos] as u32 * 16777216 + b[pos + 1] as u32 * 65536 + b[pos + 2] as u32 * 256
        + b[pos + 3] as u32
}

fn has_tag(b: &Vec<u8>, pos: usize, t0: u8, t1: u8, t2: u8, t3: u8) -> (r: bool)
    requires
        pos + 4 <= b.len(),
    ensures
        r == tag_at(b@, pos as int, seq![t0, t1, t2, t3]),
{
    b[pos] == t0 && b[pos + 1] == t1 && b[pos + 2] == t2 && b[pos + 3] == t3
}

/// Appends `src[start..end]` to `dst`.
pub fn append_range(dst: &mut Vec<u8>, src: &Vec<u8>, start: usize, end: usize)
    requires
        start <= end <= src@.len(),
    ensures
        final(dst)@ == old(dst)@ + src@.subrange(start as int, end as int),
{
    let mut i = start;
    while i < end
        invariant
            start <= i <= end <= src@.len(),
            dst@ == old(dst)@ + src@.subrange(start as int, i as int),
        decreases end - i,
    {
        dst.push(src[i]);
        i = i + 1;
        assert(dst@ =~= old(dst)@ + src@.subrange(start as int, i as int));
    }
}

/// Parses the signature, the header chunk and the chunk stream of `b`.
pub fn parse_container(b: &Vec<u8>) -> (r: Result<Container, DecodeError>)
    ensures
        r matches Ok(c) ==> parse_spec(b@) == Ok::<(RasterHeader, Seq<u8>), DecodeError>(
            (c.header, c.payload@),
        ),
        r matches Err(e) ==> parse_spec(b@) == Err::<(RasterHeader, Seq<u8>), DecodeError>(e),
{
    let n = b.len();
    if n < 8 {
        return Err(DecodeError::TruncatedError);
    }
    if !(b[0] == 137 && b[1] == 80 && b[2] == 78 && b[3] == 71 && b[4] == 13 && b[5] == 10 && b[6]
        == 26 && b[7] == 10) {
        assert(b@.subrange(0, 8)[0] == b@[0]);
        return Err(DecodeError::FormatError);
    }
    assert(b@.subrange(0, 8) =~= signature());
    if n < 16 {
        return Err(DecodeError::TruncatedError);
    }
    if !has_tag(b, 12, 73, 72, 68, 82) {
        return Err(DecodeError::StructureError);
    }
    if n < FIRST_CHUNK {
        return Err(DecodeError::TruncatedError);
    }
    let header = RasterHeader {
        width: read_be_u32(b, 16),
        height: read_be_u32(b, 20),
        bit_depth: b[24],
        color_type: b[25],
        compression: b[26],
        filter_method: b[27],
        interlace: b[28],
    };
    if read_be_u32(b, 8) != 13 || header.width == 0 || header.height == 0 {
        return Err(DecodeError::FormatError);
    }
    if !(header.bit_depth == 8 && (header.color_type == 2 || header.color_type == 6)
        && header.compression == 0 && header.filter_method == 0 && header.interlace == 0) {
        return Err(DecodeError::UnsupportedError);
    }
    let ghost whole = scan_chunks(b@, FIRST_CHUNK as int, Seq::empty());
    assert(parse_spec(b@) == match whole {
        Ok(p) => Ok((header_of(b@), p)),
        Err(e) => Err(e),
    });
    let mut payload: Vec<u8> = Vec::new();
    let mut pos: usize = FIRST_CHUNK;
    loop
        invariant
            n == b@.len(),
            parse_spec(b@) == match whole {
                Ok(p) => Ok((header_of(b@), p)),
                Err(e) => Err(e),
            },
            whole == scan_chunks(b@, FIRST_CHUNK as int, Seq::empty()),
            header == header_of(b@),
            pos <= n,
            scan_chunks(b@, pos as int, payload@) == scan_chunks(
                b@,
                FIRST_CHUNK as int,
                Seq::empty(),
            ),
        decreases n - pos,
    {
        if n - pos < 8 {
            return Err(DecodeError::TruncatedError);
        }
        let len = read_be_u32(b, pos) as usize;
        let rest = n - pos - 8;
        if rest < 4 || rest - 4 < len {
            return Err(DecodeError::TruncatedError);
        }
        let next = pos + 12 + len;
        if has_tag(b, pos + 4, 73, 69, 78, 68) {
            return Ok(Container { header, payload });
        }
        if has_tag(b, pos + 4, 73, 68, 65, 84) {
            append_range(&mut payload, b, pos + 8, pos + 8 + len);
        }
        pos = next;
    }
}

} // verus!
