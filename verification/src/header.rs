//! The BMP header codec: the fixed 52-byte prefix of a bitmap file, the
//! variable-length remainder up to the pixel-data offset, field accessors,
//! structural parsing, validation and serialization.

use vstd::prelude::*;

verus! {

/// Little-endian value of the two bytes of `s` at `i` and `i + 1`.
pub open spec fn le16(s: Seq<u8>, i: int) -> int {
    s[i] + 0x100 * s[i + 1]
}

/// Little-endian value of the four bytes of `s` starting at `i`.
pub open spec fn le32(s: Seq<u8>, i: int) -> int {
    s[i] + 0x100 * s[i + 1] + 0x1_0000 * s[i + 2] + 0x100_0000 * s[i + 3]
}

/// The four little-endian bytes starting at `i`, read as a two's-complement
/// signed 32-bit integer.
pub open spec fn le32_signed(s: Seq<u8>, i: int) -> int {
    if le32(s, i) < 0x8000_0000 {
        le32(s, i)
    } else {
        le32(s, i) - 0x1_0000_0000
    }
}

/// Reads an unsigned 16-bit little-endian value from `b` at `i`.
fn read_u16_le(b: &Vec<u8>, i: usize) -> (r: u16)
    requires
        i + 2 <= b.len(),
    ensures
        r == le16(b@, i as int),
{
    (b[i] as u16) + (b[i + 1] as u16) * 0x100
}

/// Reads an unsigned 32-bit little-endian value from `b` at `i`.
fn read_u32_le(b: &Vec<u8>, i: usize) -> (r: u32)
    requires
        i + 4 <= b.len(),
    ensures
        r == le32(b@, i as int),
{
    (b[i] as u32) + (b[i + 1] as u32) * 0x100 + (b[i + 2] as u32) * 0x1_0000
        + (b[i + 3] as u32) * 0x100_0000
}

/// Reads a signed 32-bit little-endian value from `b` at `i`.
fn read_i32_le(b: &Vec<u8>, i: usize) -> (r: i32)
    requires
        i + 4 <= b.len(),
    ensures
        r == le32_signed(b@, i as int),
{
    let u = read_u32_le(b, i);
    if u >= 0x8000_0000 {
        let d = 0xFFFF_FFFFu32 - u;
        -(d as i32) - 1
    } else {
        u as i32
    }
}

/// How a byte stream can fail to parse as a BMP header: too few bytes for
/// the fixed prefix, a wrong magic number, or a pixel-data offset that is
/// below the fixed prefix size or beyond the bytes available.
#[derive(Clone, Copy, Debug, PartialEq, Eq, Structural)]
pub enum ParseError {
    TruncatedHeader,
    BadMagic,
    BadOffset,
}

/// The file prefix of a BMP image up to the start of pixel data: the fixed
/// 52-byte header, and the raw remainder bytes between it and the pixel-data
/// offset (extended header fields and/or palette), never interpreted.
#[derive(Clone, Debug)]
pub struct BitmapImageHeader {
    pub header: Vec<u8>,
    pub remainder: Vec<u8>,
}

impl BitmapImageHeader {
    /// The fixed part has exactly its 52 required bytes.
    pub open spec fn fixed_wf(self) -> bool {
        self.header@.len() == FIXED_HEADER_LEN
    }

    /// The pixel-data offset field, at bytes 10..14.
    pub open spec fn spec_offset(self) -> int {
        le32(self.header@, 10)
    }

    /// The image width field, at bytes 18..22 (signed).
    pub open spec fn spec_width(self) -> int {
        le32_signed(self.header@, 18)
    }

    /// The image height field, at bytes 22..26 (signed).
    pub open spec fn spec_height(self) -> int {
        le32_signed(self.header@, 22)
    }

    /// The bits-per-pixel field, at bytes 28..30.
    pub open spec fn spec_bpp(self) -> int {
        le16(self.header@, 28)
    }

    /// The compression-method field, at bytes 30..34.
    pub open spec fn spec_compression(self) -> int {
        le32(self.header@, 30)
    }

    /// The colors-in-color-table field, at bytes 46..50.
    pub open spec fn spec_colors_in_color_table(self) -> int {
        le32(self.header@, 46)
    }

    /// Structural invariant: the fixed part is complete, the declared
    /// pixel-data offset does not point into it, and the remainder covers
    /// exactly the bytes from the fixed part to that offset.
    pub open spec fn wf(self) -> bool {
        &&& self.fixed_wf()
        &&& self.spec_offset() >= FIXED_HEADER_LEN
        &&& self.remainder@.len() == self.spec_offset() - FIXED_HEADER_LEN
    }

    /// The header describes the one supported pixel encoding: 24 bits per
    /// pixel, no compression, no palette.
    pub open spec fn spec_valid(self) -> bool {
        spec_valid_bytes(self.header@)
    }

    /// The pixel-data offset: where pixel bytes begin in the file.
    pub fn offset(&self) -> (r: usize)
        requires
            self.fixed_wf(),
        ensures
            r == self.spec_offset(),
    {
        read_u32_le(&self.header, 10) as usize
    }

    /// The image height in pixels, as declared (sign passed through).
    pub fn height(&self) -> (r: i32)
        requires
            self.fixed_wf(),
        ensures
            r == self.spec_height(),
    {
        read_i32_le(&self.header, 22)
    }

    /// The image width in pixels, as declared (sign passed through).
    pub fn width(&self) -> (r: i32)
        requires
            self.fixed_wf(),
        ensures
            r == self.spec_width(),
    {
        read_i32_le(&self.header, 18)
    }

    /// The declared bits per pixel.
    pub fn bpp(&self) -> (r: usize)
        requires
            self.fixed_wf(),
        ensures
            r == self.spec_bpp(),
    {
        read_u16_le(&self.header, 28) as usize
    }

    /// The declared compression method (0 means uncompressed).
    pub fn compression(&self) -> (r: usize)
        requires
            self.fixed_wf(),
        ensures
            r == self.spec_compression(),
    {
        read_u32_le(&self.header, 30) as usize
    }

    /// The declared number of colors in the color table (0 means none).
    pub fn colors_in_color_table(&self) -> (r: usize)
        requires
            self.fixed_wf(),
        ensures
            r == self.spec_colors_in_color_table(),
    {
        read_u32_le(&self.header, 46) as usize
    }

    /// Whether the header falls in the supported subset: 24 bits per pixel,
    /// uncompressed, and no color table. Anything else must be rejected
    /// before a single output byte is produced.
    pub fn validate(&self) -> (r: bool)
        requires
            self.fixed_wf(),
        ensures
            r == self.spec_valid(),
    {
        if self.bpp() != 24 {
            return false;
        }
        if self.compression() != 0 {
            return false;
        }
        if self.colors_in_color_table() > 0 {
            return false;
        }
        true
    }
}

/// Size in bytes of the fixed header prefix that is always read.
pub const FIXED_HEADER_LEN: usize = 52;

/// The supported pixel encoding, read off the fixed header bytes: 24 bits
/// per pixel, compression 0, and an empty color table.
pub open spec fn spec_valid_bytes(hdr: Seq<u8>) -> bool {
    &&& le16(hdr, 28) == 24
    &&& le32(hdr, 30) == 0
    &&& le32(hdr, 46) == 0
}

/// The two ASCII magic bytes `B`, `M` open every BMP file.
pub open spec fn spec_magic_ok(s: Seq<u8>) -> bool {
    s.len() >= 2 && s[0] == 0x42u8 && s[1] == 0x4du8
}

/// Structural parse of a byte stream into the (fixed header, remainder)
/// pair, or the first structural failure, checked in this order: enough
/// bytes for the fixed header, the magic, an offset not below the fixed
/// header size, enough bytes up to the offset.
pub open spec fn spec_parse(input: Seq<u8>) -> Result<(Seq<u8>, Seq<u8>), ParseError> {
    if input.len() < FIXED_HEADER_LEN {
        Err(ParseError::TruncatedHeader)
    } else if !spec_magic_ok(input) {
        Err(ParseError::BadMagic)
    } else if le32(input, 10) < FIXED_HEADER_LEN {
        Err(ParseError::BadOffset)
    } else if input.len() < le32(input, 10) {
        Err(ParseError::BadOffset)
    } else {
        Ok((input.subrange(0, FIXED_HEADER_LEN as int), input.subrange(FIXED_HEADER_LEN as int, le32(input, 10))))
    }
}

/// Copies `src[start..end]` into a fresh vector.
pub(crate) fn copy_range(src: &Vec<u8>, start: usize, end: usize) -> (r: Vec<u8>)
    requires
        start <= end <= src.len(),
    ensures
        r@ == src@.subrange(start as int, end as int),
{
    let mut r: Vec<u8> = Vec::new();
    let mut i: usize = start;
    while i < end
        invariant
            start <= i <= end <= src.len(),
            r@ == src@.subrange(start as int, i as int),
        decreases end - i,
    {
        r.push(src[i]);
        i = i + 1;
        assert(r@ =~= src@.subrange(start as int, i as int));
    }
    r
}

impl BitmapImageHeader {
    /// Structural parse only: no semantic validation. Succeeds exactly when
    /// `spec_parse` does, returning a well-formed header that holds the
    /// parsed bytes unchanged.
    pub fn parse(input: &Vec<u8>) -> (r: Result<BitmapImageHeader, ParseError>)
        ensures
            match r {
                Ok(h) => {
                    &&& spec_parse(input@) == Ok::<_, ParseError>((h.header@, h.remainder@))
                    &&& h.wf()
                    &&& spec_magic_ok(h.header@)
                },
                Err(e) => spec_parse(input@) == Err::<(Seq<u8>, Seq<u8>), _>(e),
            },
    {
        if input.len() < FIXED_HEADER_LEN {
            return Err(ParseError::TruncatedHeader);
        }
        if !(input[0] == 0x42u8 && input[1] == 0x4du8) {
            return Err(ParseError::BadMagic);
        }
        let offset = read_u32_le(input, 10) as usize;
        if offset < FIXED_HEADER_LEN {
            return Err(ParseError::BadOffset);
        }
        if input.len() < offset {
            return Err(ParseError::BadOffset);
        }
        let header = copy_range(input, 0, FIXED_HEADER_LEN);
        let remainder = copy_range(input, FIXED_HEADER_LEN, offset);
        let h = BitmapImageHeader { header, remainder };
        assert(le32(h.header@, 10) == le32(input@, 10));
        Ok(h)
    }

    /// Serializes the header: appends the 52 fixed bytes followed by the
    /// remainder, both unchanged, to `out`.
    pub fn write_to(&self, out: &mut Vec<u8>)
        ensures
            final(out)@ == old(out)@ + self.header@ + self.remainder@,
    {
        let mut i: usize = 0;
        while i < self.header.len()
            invariant
                i <= self.header.len(),
                out@ == old(out)@ + self.header@.subrange(0, i as int),
            decreases self.header.len() - i,
        {
            out.push(self.header[i]);
            i = i + 1;
            assert(out@ =~= old(out)@ + self.header@.subrange(0, i as int));
        }
        assert(out@ =~= old(out)@ + self.header@);
        let mut j: usize = 0;
        while j < self.remainder.len()
            invariant
                j <= self.remainder.len(),
                out@ == old(out)@ + self.header@ + self.remainder@.subrange(0, j as int),
            decreases self.remainder.len() - j,
        {
            out.push(self.remainder[j]);
            j = j + 1;
            assert(out@ =~= old(out)@ + self.header@ + self.remainder@.subrange(0, j as int));
        }
        assert(out@ =~= old(out)@ + self.header@ + self.remainder@);
    }
}

/// Parsing recovers a serialized header from the front of any stream: a
/// 52-byte fixed part with a good magic whose offset field spans exactly
/// the fixed part and the remainder parses back to that pair, whatever
/// bytes follow.
pub proof fn lemma_parse_prefix(hdr: Seq<u8>, rem: Seq<u8>, rest: Seq<u8>)
    requires
        hdr.len() == FIXED_HEADER_LEN,
        spec_magic_ok(hdr),
        le32(hdr, 10) == hdr.len() + rem.len(),
    ensures
        spec_parse(hdr + rem + rest) == Ok::<_, ParseError>((hdr, rem)),
{
    let s = hdr + rem + rest;
    assert(s[0] == hdr[0] && s[1] == hdr[1]);
    assert(le32(s, 10) == le32(hdr, 10));
    assert(s.subrange(0, FIXED_HEADER_LEN as int) =~= hdr);
    assert(s.subrange(FIXED_HEADER_LEN as int, le32(s, 10)) =~= rem);
}

/// Round trip of the header codec: serializing a well-formed header with a
/// good magic and parsing the result reproduces exactly the original
/// (fixed header, remainder) pair of byte sequences.
pub proof fn lemma_parse_serialize_round_trip(h: BitmapImageHeader)
    requires
        h.wf(),
        spec_magic_ok(h.header@),
    ensures
        spec_parse(h.header@ + h.remainder@) == Ok::<_, ParseError>((h.header@, h.remainder@)),
{
    let s = h.header@ + h.remainder@;
    assert(le32(s, 10) == le32(h.header@, 10));
    assert(s.subrange(0, FIXED_HEADER_LEN as int) =~= h.header@);
    assert(s.subrange(FIXED_HEADER_LEN as int, le32(s, 10)) =~= h.remainder@);
}

} // verus!
