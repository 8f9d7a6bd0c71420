//! PNG header interpretation: colour types, legal bit depths, the byte
//! layout an IHDR implies, header validation and a description of the
//! ancillary chunks.
use crate::png_chunks::{be_u32, chunk_offsets, is_idat, type_at, type_is};
pub use crate::png_chunks::{parse_ihdr, read_u32, Ihdr};
use crate::text::{dec, push_dec};
use vstd::prelude::*;
use vstd::string::StringSliceAdditionalSpecFns;

verus! {

// ---------------------------------------------------------------------------
// Chunks (cut only; CRC checking is the chunk layer's business)
// ---------------------------------------------------------------------------

/// A chunk's type and borrowed data.
pub struct Chunk<'a> {
    pub chunk_type: [u8; 4],
    pub data: &'a [u8],
}

impl<'a> Chunk<'a> {
    /// The type as text, or `????` when its bytes are not UTF-8.
    pub fn type_str(&self) -> (s: &str)
        ensures
            vstd::utf8::valid_utf8(self.chunk_type@) ==> s.spec_bytes() == self.chunk_type@,
            !vstd::utf8::valid_utf8(self.chunk_type@) ==> s@ == "????"@,
    {
        match crate::text::utf8_str(self.chunk_type.as_slice()) {
            Some(s) => s,
            None => "????",
        }
    }
}

/// Why a file cannot be cut into chunks.
pub enum ParseError {
    /// The file does not start with the PNG signature.
    BadSignature,
    /// Fewer than 12 bytes remain at `offset`.
    Truncated { offset: usize },
    /// A length field above 2^31-1.
    LengthTooLarge { offset: usize, length: u32 },
    /// Data and CRC would run past the end of the file.
    PastEnd { offset: usize, length: u32 },
}

pub open spec fn from_chunk_error(e: crate::png_chunks::ChunkError) -> ParseError {
    match e {
        crate::png_chunks::ChunkError::Truncated { offset, .. } => ParseError::Truncated { offset },
        crate::png_chunks::ChunkError::LengthTooLarge { offset, length } => ParseError::LengthTooLarge {
            offset,
            length,
        },
        crate::png_chunks::ChunkError::PastEnd { offset, length, .. } => ParseError::PastEnd {
            offset,
            length,
        },
        _ => ParseError::BadSignature,
    }
}

pub open spec fn chunk_at(bytes: Seq<u8>, c: Chunk, off: int) -> bool {
    &&& c.chunk_type@ == type_at(bytes, off)
    &&& c.data@ == bytes.subrange(off + 8, off + 8 + be_u32(bytes, off))
}

/// Checks the signature, then cuts the rest of the file into chunks.
pub fn parse_chunks(bytes: &[u8]) -> (res: Result<Vec<Chunk<'_>>, ParseError>)
    ensures
        !(bytes@.len() >= 8 && bytes@.subrange(0, 8) == crate::png_chunks::png_signature())
            ==> res == Err::<Vec<Chunk>, ParseError>(ParseError::BadSignature),
        bytes@.len() >= 8 && bytes@.subrange(0, 8) == crate::png_chunks::png_signature() ==> match chunk_offsets(
            bytes@,
            8,
        ) {
            Ok(offs) => res matches Ok(chunks) && chunks@.len() == offs.len() && forall|i: int|
                0 <= i < offs.len() ==> chunk_at(bytes@, #[trigger] chunks@[i], offs[i]),
            Err(e) => res == Err::<Vec<Chunk>, ParseError>(from_chunk_error(e)),
        },
{
    if !crate::png_chunks::has_png_signature(bytes) {
        return Err(ParseError::BadSignature);
    }
    let mut chunks: Vec<Chunk> = Vec::new();
    let mut pos: usize = 8;
    let ghost mut offs: Seq<int> = Seq::empty();
    while pos < bytes.len()
        invariant
            8 <= pos,
            bytes@.len() >= 8 && bytes@.subrange(0, 8) == crate::png_chunks::png_signature(),
            chunks@.len() == offs.len(),
            forall|i: int| 0 <= i < offs.len() ==> chunk_at(bytes@, #[trigger] chunks@[i], offs[i]),
            chunk_offsets(bytes@, 8) == (match chunk_offsets(bytes@, pos as int) {
                Ok(rest) => Ok(offs + rest),
                Err(e) => Err(e),
            }),
        decreases bytes@.len() - pos,
    {
        if bytes.len() - pos < 12 {
            return Err(ParseError::Truncated { offset: pos });
        }
        let length = read_u32(bytes, pos);
        if length > 0x7FFF_FFFF {
            return Err(ParseError::LengthTooLarge { offset: pos, length });
        }
        let data_start = pos + 8;
        let past_end = match data_start.checked_add(length as usize) {
            Some(data_end) => match data_end.checked_add(4) {
                Some(e) => e > bytes.len(),
                None => true,
            },
            None => true,
        };
        if past_end {
            return Err(ParseError::PastEnd { offset: pos, length });
        }
        let data_end = data_start + length as usize;
        let c = Chunk {
            chunk_type: [bytes[pos + 4], bytes[pos + 5], bytes[pos + 6], bytes[pos + 7]],
            data: &bytes[data_start..data_end],
        };
        proof {
            assert(c.chunk_type@ =~= type_at(bytes@, pos as int));
        }
        let ghost old_chunks = chunks@;
        chunks.push(c);
        proof {
            let old_offs = offs;
            offs = offs.push(pos as int);
            assert(offs + chunk_offsets(bytes@, data_end + 4)->Ok_0 =~= old_offs + (seq![
                pos as int,
            ] + chunk_offsets(bytes@, data_end + 4)->Ok_0));
            assert forall|i: int| 0 <= i < offs.len() implies chunk_at(
                bytes@,
                #[trigger] chunks@[i],
                offs[i],
            ) by {
                if i < old_offs.len() {
                    assert(chunks@[i] == old_chunks[i]);
                }
            }
        }
        pos = data_end + 4;
    }
    proof {
        assert(offs + Seq::<int>::empty() =~= offs);
    }
    Ok(chunks)
}

// ---------------------------------------------------------------------------
// Colour types
// ---------------------------------------------------------------------------

/// The five colour types of the format (codes 1 and 5 do not exist).
#[derive(Clone, Copy, PartialEq, Eq, Structural)]
pub enum ColorType {
    Grayscale,
    Rgb,
    Palette,
    GrayscaleAlpha,
    Rgba,
}

pub open spec fn color_from_code(v: u8) -> Option<ColorType> {
    if v == 0 {
        Some(ColorType::Grayscale)
    } else if v == 2 {
        Some(ColorType::Rgb)
    } else if v == 3 {
        Some(ColorType::Palette)
    } else if v == 4 {
        Some(ColorType::GrayscaleAlpha)
    } else if v == 6 {
        Some(ColorType::Rgba)
    } else {
        None
    }
}

pub open spec fn color_code(c: ColorType) -> u8 {
    match c {
        ColorType::Grayscale => 0,
        ColorType::Rgb => 2,
        ColorType::Palette => 3,
        ColorType::GrayscaleAlpha => 4,
        ColorType::Rgba => 6,
    }
}

pub open spec fn color_channels(c: ColorType) -> u32 {
    match c {
        ColorType::Grayscale | ColorType::Palette => 1,
        ColorType::Rgb => 3,
        ColorType::GrayscaleAlpha => 2,
        ColorType::Rgba => 4,
    }
}

/// The bit depths each colour type allows.
pub open spec fn color_depths(c: ColorType) -> Seq<u8> {
    match c {
        ColorType::Grayscale => seq![1u8, 2, 4, 8, 16],
        ColorType::Palette => seq![1u8, 2, 4, 8],
        _ => seq![8u8, 16],
    }
}

impl ColorType {
    /// The colour type of a code, if the code is defined.
    pub fn from_u8(v: u8) -> (r: Option<Self>)
        ensures
            r == color_from_code(v),
    {
        match v {
            0 => Some(ColorType::Grayscale),
            2 => Some(ColorType::Rgb),
            3 => Some(ColorType::Palette),
            4 => Some(ColorType::GrayscaleAlpha),
            6 => Some(ColorType::Rgba),
            _ => None,
        }
    }

    /// The code stored in IHDR.
    pub fn code(self) -> (r: u8)
        ensures
            r == color_code(self),
            color_from_code(r) == Some(self),
    {
        match self {
            ColorType::Grayscale => 0,
            ColorType::Rgb => 2,
            ColorType::Palette => 3,
            ColorType::GrayscaleAlpha => 4,
            ColorType::Rgba => 6,
        }
    }

    /// Human-readable name.
    pub fn name(self) -> (s: &'static str)
        ensures
            s@ == crate::png_chunks::color_type_text(color_code(self)),
    {
        match self {
            ColorType::Grayscale => "グレースケール",
            ColorType::Rgb => "トゥルーカラー RGB",
            ColorType::Palette => "パレット (インデックスカラー)",
            ColorType::GrayscaleAlpha => "グレースケール + アルファ",
            ColorType::Rgba => "トゥルーカラー + アルファ RGBA",
        }
    }

    /// Samples per pixel (a palette pixel is a single index).
    pub fn channels(self) -> (r: u32)
        ensures
            r == color_channels(self),
            crate::png_chunks::channel_count(color_code(self)) == Some(r),
    {
        match self {
            ColorType::Grayscale | ColorType::Palette => 1,
            ColorType::Rgb => 3,
            ColorType::GrayscaleAlpha => 2,
            ColorType::Rgba => 4,
        }
    }

    /// How one pixel's samples are laid out after inflating.
    pub fn channel_layout(self) -> (s: &'static str)
        ensures
            s@ == (match self {
                ColorType::Grayscale => "[gray]"@,
                ColorType::Rgb => "[R][G][B]"@,
                ColorType::Palette => "[index]"@,
                ColorType::GrayscaleAlpha => "[gray][A]"@,
                ColorType::Rgba => "[R][G][B][A]"@,
            }),
    {
        match self {
            ColorType::Grayscale => "[gray]",
            ColorType::Rgb => "[R][G][B]",
            ColorType::Palette => "[index]",
            ColorType::GrayscaleAlpha => "[gray][A]",
            ColorType::Rgba => "[R][G][B][A]",
        }
    }

    /// The bit depths this colour type allows: any of 1..16 for greyscale,
    /// up to 8 for palettes (at most 256 entries), 8 or 16 otherwise.
    pub fn allowed_depths(self) -> (r: Vec<u8>)
        ensures
            r@ == color_depths(self),
    {
        let r = match self {
            ColorType::Grayscale => vec![1u8, 2, 4, 8, 16],
            ColorType::Palette => vec![1u8, 2, 4, 8],
            _ => vec![8u8, 16],
        };
        proof {
            assert(r@ =~= color_depths(self));
        }
        r
    }

    /// Whether a PLTE chunk is required, optional or forbidden.
    pub fn plte_requirement(self) -> (s: &'static str)
        ensures
            s@ == (match self {
                ColorType::Palette => "必須"@,
                ColorType::Rgb | ColorType::Rgba => "任意 (推奨パレットとして使える)"@,
                _ => "禁止"@,
            }),
    {
        match self {
            ColorType::Palette => "必須",
            ColorType::Rgb | ColorType::Rgba => "任意 (推奨パレットとして使える)",
            ColorType::Grayscale | ColorType::GrayscaleAlpha => "禁止",
        }
    }
}

// ---------------------------------------------------------------------------
// Layout
// ---------------------------------------------------------------------------

/// The shape of the inflated image data that an IHDR implies.
pub struct Layout {
    pub color: ColorType,
    pub bit_depth: u8,
    /// Channels times bit depth.
    pub bits_per_pixel: u32,
    /// Byte distance to the "left" pixel used by filters: at least 1.
    pub filter_bpp: u32,
    /// Pixel bytes per row (without the filter-type byte).
    pub row_data_bytes: u64,
    /// 1 + `row_data_bytes`.
    pub bytes_per_row: u64,
    /// Unused bits at the end of every row.
    pub padding_bits: u64,
    /// Inflated size of a non-interlaced image.
    pub raw_size: u64,
}

/// Why a header does not describe a legal pixel format.
pub enum LayoutError {
    /// The colour type code is not defined.
    UnknownColorType(u8),
    /// The colour type does not allow this bit depth.
    BadDepth { color: ColorType, depth: u8 },
}

pub open spec fn ceil_div8(x: int) -> int {
    (x + 7) / 8
}

/// Under a legal colour type and depth, the inflated size fits in 64 bits.
pub open spec fn layout_fits(h: Ihdr) -> bool {
    match color_from_code(h.color_type) {
        Some(c) => color_depths(c).contains(h.bit_depth) ==> (1 + ceil_div8(
            h.width * (color_channels(c) * h.bit_depth),
        )) * h.height <= u64::MAX,
        None => true,
    }
}

/// The layout an IHDR implies, or why it has none.
pub open spec fn layout_of(h: Ihdr, l: Layout) -> bool {
    let bpp = color_channels(l.color) * h.bit_depth;
    let row_bits = h.width * bpp;
    let row_data = ceil_div8(row_bits);
    &&& color_from_code(h.color_type) == Some(l.color)
    &&& l.bit_depth == h.bit_depth
    &&& l.bits_per_pixel == bpp
    &&& l.filter_bpp == (if ceil_div8(bpp) >= 1 {
        ceil_div8(bpp)
    } else {
        1
    })
    &&& l.row_data_bytes == row_data
    &&& l.bytes_per_row == 1 + row_data
    &&& l.padding_bits == row_data * 8 - row_bits
    &&& l.raw_size == (1 + row_data) * h.height
}

/// Whether `layout_fits` holds: whether the inflated size of a header with
/// a legal colour type and depth fits in 64 bits.
pub fn layout_fits_check(ihdr: &Ihdr) -> (b: bool)
    ensures
        b == layout_fits(*ihdr),
{
    let color = match ColorType::from_u8(ihdr.color_type) {
        Some(c) => c,
        None => {
            return true;
        },
    };
    let depths = color.allowed_depths();
    let mut allowed = false;
    let mut k: usize = 0;
    while k < depths.len()
        invariant
            k <= depths@.len(),
            allowed <==> exists|j: int| 0 <= j < k && depths@[j] == ihdr.bit_depth,
        decreases depths@.len() - k,
    {
        if depths[k] == ihdr.bit_depth {
            allowed = true;
        }
        k = k + 1;
    }
    if !allowed {
        proof {
            assert(!color_depths(color).contains(ihdr.bit_depth));
        }
        return true;
    }
    proof {
        let j = choose|j: int| 0 <= j < k && depths@[j] == ihdr.bit_depth;
        assert(depths@[j] == ihdr.bit_depth);
        assert(color_depths(color).contains(ihdr.bit_depth));
    }
    let ch = color.channels();
    assert(ch * ihdr.bit_depth as u32 <= 64) by (nonlinear_arith)
        requires
            ch <= 4,
            ihdr.bit_depth <= 16,
    ;
    let bits_per_pixel: u32 = ch * ihdr.bit_depth as u32;
    assert(ihdr.width as u64 * bits_per_pixel as u64 <= 0xFFFF_FFFFu64 * 64) by (nonlinear_arith)
        requires
            bits_per_pixel <= 64,
    ;
    let row_bits: u64 = ihdr.width as u64 * bits_per_pixel as u64;
    let bytes_per_row: u64 = 1 + (row_bits + 7) / 8;
    match bytes_per_row.checked_mul(ihdr.height as u64) {
        Some(_) => true,
        None => false,
    }
}

impl Layout {
    /// Derives the layout; the colour type must exist and allow the depth.
    pub fn new(ihdr: &Ihdr) -> (r: Result<Self, LayoutError>)
        requires
            layout_fits(*ihdr),
        ensures
            match color_from_code(ihdr.color_type) {
                None => r matches Err(LayoutError::UnknownColorType(t)) && t == ihdr.color_type,
                Some(c) => if !color_depths(c).contains(ihdr.bit_depth) {
                    r matches Err(LayoutError::BadDepth { color, depth }) && color == c && depth
                        == ihdr.bit_depth
                } else {
                    r matches Ok(l) && layout_of(*ihdr, l)
                },
            },
    {
        let color = match ColorType::from_u8(ihdr.color_type) {
            Some(c) => c,
            None => return Err(LayoutError::UnknownColorType(ihdr.color_type)),
        };
        let depths = color.allowed_depths();
        let mut allowed = false;
        let mut k: usize = 0;
        while k < depths.len()
            invariant
                k <= depths@.len(),
                allowed <==> exists|j: int| 0 <= j < k && depths@[j] == ihdr.bit_depth,
            decreases depths@.len() - k,
        {
            if depths[k] == ihdr.bit_depth {
                allowed = true;
            }
            k = k + 1;
        }
        if !allowed {
            proof {
                assert(!color_depths(color).contains(ihdr.bit_depth));
            }
            return Err(LayoutError::BadDepth { color, depth: ihdr.bit_depth });
        }
        proof {
            let j = choose|j: int| 0 <= j < k && depths@[j] == ihdr.bit_depth;
            assert(depths@[j] == ihdr.bit_depth);
            assert(color_depths(color).contains(ihdr.bit_depth));
            assert(ihdr.bit_depth <= 16);
        }
        let ch = color.channels();
        assert(ch * ihdr.bit_depth as u32 <= 64) by (nonlinear_arith)
            requires
                ch <= 4,
                ihdr.bit_depth <= 16,
        ;
        let bits_per_pixel: u32 = ch * ihdr.bit_depth as u32;
        assert(ihdr.width as u64 * bits_per_pixel as u64 <= 0xFFFF_FFFFu64 * 64) by (nonlinear_arith)
            requires
                bits_per_pixel <= 64,
        ;
        let row_bits: u64 = ihdr.width as u64 * bits_per_pixel as u64;
        let row_data_bytes: u64 = (row_bits + 7) / 8;
        let bytes_per_row: u64 = 1 + row_data_bytes;
        let fb = (bits_per_pixel + 7) / 8;
        Ok(
            Layout {
                color,
                bit_depth: ihdr.bit_depth,
                bits_per_pixel,
                filter_bpp: if fb >= 1 {
                    fb
                } else {
                    1
                },
                row_data_bytes,
                bytes_per_row,
                padding_bits: row_data_bytes * 8 - row_bits,
                raw_size: bytes_per_row * ihdr.height as u64,
            },
        )
    }

    /// Pixels per byte for sub-byte depths; `None` from 8 bits per pixel up.
    pub fn pixels_per_byte(&self) -> (r: Option<u32>)
        requires
            self.bits_per_pixel > 0,
        ensures
            r == (if self.bits_per_pixel < 8 {
                Some((8u32 / self.bits_per_pixel) as u32)
            } else {
                None::<u32>
            }),
    {
        if self.bits_per_pixel < 8 {
            Some(8 / self.bits_per_pixel)
        } else {
            None
        }
    }
}

} // verus!

verus! {

// ---------------------------------------------------------------------------
// Header validation
// ---------------------------------------------------------------------------

/// A problem found when checking a header against the format's rules.
pub enum Problem {
    /// Width or height is 0 (both must be at least 1).
    ZeroDimension,
    /// A compression method other than 0.
    UnknownCompression(u8),
    /// A filter method other than 0.
    UnknownFilter(u8),
    /// An interlace method other than 0 or 1.
    UnknownInterlace(u8),
    /// Colour type 3 without a PLTE chunk.
    PaletteMissing,
    /// A PLTE chunk in a greyscale image.
    PaletteForbidden,
    /// A PLTE length that is not a multiple of 3.
    PaletteLength(usize),
    /// More palette entries than the bit depth can index.
    PaletteTooLarge { entries: usize, max: usize },
}

pub open spec fn is_plte(t: Seq<u8>) -> bool {
    type_is(t, 0x50, 0x4C, 0x54, 0x45)
}

/// Index of the first chunk, from `i` on, whose type bytes are `t`.
pub open spec fn first_type_from(cs: Seq<Chunk>, t: Seq<u8>, i: int) -> Option<int>
    decreases cs.len() - i,
{
    if i < 0 || i >= cs.len() {
        None
    } else if cs[i].chunk_type@ == t {
        Some(i)
    } else {
        first_type_from(cs, t, i + 1)
    }
}

proof fn lemma_first_type_from(cs: Seq<Chunk>, t: Seq<u8>, i: int)
    ensures
        first_type_from(cs, t, i) matches Some(k) ==> i <= k < cs.len() && cs[k].chunk_type@ == t,
    decreases cs.len() - i,
{
    if 0 <= i < cs.len() && cs[i].chunk_type@ != t {
        lemma_first_type_from(cs, t, i + 1);
    }
}

pub open spec fn opt_problem(cond: bool, p: Problem) -> Seq<Problem> {
    if cond {
        seq![p]
    } else {
        Seq::empty()
    }
}

/// The problems that do not depend on the palette's contents.
pub open spec fn base_problems(h: Ihdr, l: Layout, has_plte: bool) -> Seq<Problem> {
    opt_problem(h.width == 0 || h.height == 0, Problem::ZeroDimension) + opt_problem(
        h.compression != 0,
        Problem::UnknownCompression(h.compression),
    ) + opt_problem(h.filter != 0, Problem::UnknownFilter(h.filter)) + opt_problem(
        h.interlace > 1,
        Problem::UnknownInterlace(h.interlace),
    ) + opt_problem(l.color == ColorType::Palette && !has_plte, Problem::PaletteMissing)
        + opt_problem(
        (l.color == ColorType::Grayscale || l.color == ColorType::GrayscaleAlpha) && has_plte,
        Problem::PaletteForbidden,
    )
}

/// The problems with the palette itself.
pub open spec fn palette_problems(l: Layout, len: nat) -> Seq<Problem> {
    opt_problem(len % 3 != 0, Problem::PaletteLength(len as usize)) + opt_problem(
        l.color == ColorType::Palette && len / 3 > vstd::arithmetic::power2::pow2(
            l.bit_depth as nat,
        ),
        Problem::PaletteTooLarge {
            entries: (len / 3) as usize,
            max: vstd::arithmetic::power2::pow2(l.bit_depth as nat) as usize,
        },
    )
}

/// The problems, in the order they are reported.
pub open spec fn header_problems(h: Ihdr, l: Layout, plte: Option<Chunk>) -> Seq<Problem> {
    base_problems(h, l, plte is Some) + match plte {
        Some(p) => palette_problems(l, p.data@.len()),
        None => Seq::empty(),
    }
}

/// A palette is too large only when it has strictly more entries than the
/// bit depth can index: the problems of a header with a PLTE chunk include
/// `PaletteTooLarge` exactly when the image is paletted and the PLTE data
/// holds more than 2^depth three-byte entries. (So 256 entries at depth 8
/// are fine, 257 are not.)
pub proof fn palette_size_rule(h: Ihdr, l: Layout, p: Chunk)
    ensures
        (exists|k: int|
            0 <= k < header_problems(h, l, Some(p)).len() && #[trigger] header_problems(
                h,
                l,
                Some(p),
            )[k] is PaletteTooLarge) <==> (l.color == ColorType::Palette && p.data@.len() / 3
            > vstd::arithmetic::power2::pow2(l.bit_depth as nat)),
{
    let ps = header_problems(h, l, Some(p));
    let b = base_problems(h, l, true);
    let len = p.data@.len();
    let too = l.color == ColorType::Palette && len / 3 > vstd::arithmetic::power2::pow2(
        l.bit_depth as nat,
    );
    let pl = palette_problems(l, len);
    assert(ps == b + pl);
    assert forall|k: int| 0 <= k < b.len() implies !(#[trigger] b[k] is PaletteTooLarge) by {}
    let lenp = opt_problem(len % 3 != 0, Problem::PaletteLength(len as usize));
    assert(pl == lenp + opt_problem(
        too,
        Problem::PaletteTooLarge {
            entries: (len / 3) as usize,
            max: vstd::arithmetic::power2::pow2(l.bit_depth as nat) as usize,
        },
    ));
    if too {
        let k = (b.len() + lenp.len()) as int;
        assert(ps[k] is PaletteTooLarge);
    }
    assert forall|k: int| 0 <= k < ps.len() && #[trigger] ps[k] is PaletteTooLarge implies too by {
        if k < b.len() {
            assert(ps[k] == b[k]);
        } else if k < b.len() + lenp.len() {
            assert(ps[k] == lenp[k - b.len()]);
        } else {
            assert(ps[k] == opt_problem(
                too,
                Problem::PaletteTooLarge {
                    entries: (len / 3) as usize,
                    max: vstd::arithmetic::power2::pow2(l.bit_depth as nat) as usize,
                },
            )[k - b.len() - lenp.len()]);
        }
    }
}

/// The first PLTE chunk.
pub open spec fn plte_chunk(cs: Seq<Chunk>) -> Option<Chunk> {
    match first_type_from(cs, seq![0x50u8, 0x4C, 0x54, 0x45], 0) {
        Some(i) => Some(cs[i]),
        None => None,
    }
}

fn push_if(v: &mut Vec<Problem>, cond: bool, p: Problem)
    ensures
        final(v)@ == old(v)@ + opt_problem(cond, p),
{
    if cond {
        v.push(p);
    }
    assert(v@ =~= old(v)@ + opt_problem(cond, p));
}

/// Checks a header against the format's rules. Also returns, when there is a
/// PLTE chunk, its entry count and the largest count the bit depth can index.
pub fn validate_header(ihdr: &Ihdr, layout: &Layout, chunks: &[Chunk]) -> (r: (
    Vec<Problem>,
    Option<(usize, usize)>,
))
    requires
        layout.bit_depth <= 16,
    ensures
        r.0@ == header_problems(*ihdr, *layout, plte_chunk(chunks@)),
        r.1 == match plte_chunk(chunks@) {
            Some(p) => Some(
                (
                    (p.data@.len() / 3) as usize,
                    vstd::arithmetic::power2::pow2(layout.bit_depth as nat) as usize,
                ),
            ),
            None => None::<(usize, usize)>,
        },
{
    let plte_type: [u8; 4] = [0x50, 0x4C, 0x54, 0x45];
    assert(plte_type@ =~= seq![0x50u8, 0x4C, 0x54, 0x45]);
    let plte_index = find_type(chunks, plte_type);
    proof {
        lemma_first_type_from(chunks@, plte_type@, 0);
    }
    let mut problems = base_problem_list(ihdr, layout, plte_index.is_some());
    match plte_index {
        Some(i) => {
            let len = chunks[i].data.len();
            let (mut extra, info) = palette_problem_list(layout, len);
            let ghost base = problems@;
            problems.append(&mut extra);
            proof {
                assert(plte_chunk(chunks@) == Some(chunks@[i as int]));
                assert(problems@ =~= header_problems(*ihdr, *layout, plte_chunk(chunks@)));
            }
            (problems, Some(info))
        },
        None => {
            assert(problems@ =~= problems@ + Seq::<Problem>::empty());
            (problems, None)
        },
    }
}

fn base_problem_list(ihdr: &Ihdr, layout: &Layout, has_plte: bool) -> (v: Vec<Problem>)
    ensures
        v@ == base_problems(*ihdr, *layout, has_plte),
{
    let mut problems: Vec<Problem> = Vec::new();
    push_if(&mut problems, ihdr.width == 0 || ihdr.height == 0, Problem::ZeroDimension);
    push_if(&mut problems, ihdr.compression != 0, Problem::UnknownCompression(ihdr.compression));
    push_if(&mut problems, ihdr.filter != 0, Problem::UnknownFilter(ihdr.filter));
    push_if(&mut problems, ihdr.interlace > 1, Problem::UnknownInterlace(ihdr.interlace));
    let is_palette = match layout.color {
        ColorType::Palette => true,
        _ => false,
    };
    let is_gray = match layout.color {
        ColorType::Grayscale | ColorType::GrayscaleAlpha => true,
        _ => false,
    };
    push_if(&mut problems, is_palette && !has_plte, Problem::PaletteMissing);
    push_if(&mut problems, is_gray && has_plte, Problem::PaletteForbidden);
    assert(problems@ =~= base_problems(*ihdr, *layout, has_plte));
    problems
}

fn palette_problem_list(layout: &Layout, len: usize) -> (r: (Vec<Problem>, (usize, usize)))
    requires
        layout.bit_depth <= 16,
    ensures
        r.0@ == palette_problems(*layout, len as nat),
        r.1 == ((len / 3) as usize, vstd::arithmetic::power2::pow2(layout.bit_depth as nat) as usize),
{
    let entries = len / 3;
    proof {
        vstd::arithmetic::power2::lemma2_to64();
        vstd::arithmetic::power2::lemma_pow2_strictly_increases(layout.bit_depth as nat, 17);
        vstd::bits::lemma_usize_shl_is_mul(1, layout.bit_depth as usize);
    }
    let max: usize = 1usize << layout.bit_depth;
    let is_palette = match layout.color {
        ColorType::Palette => true,
        _ => false,
    };
    let mut problems: Vec<Problem> = Vec::new();
    push_if(&mut problems, len % 3 != 0, Problem::PaletteLength(len));
    push_if(&mut problems, is_palette && entries > max, Problem::PaletteTooLarge { entries, max });
    assert(problems@ =~= palette_problems(*layout, len as nat));
    (problems, (entries, max))
}

/// Index of the first chunk of the given type.
pub fn find_type(chunks: &[Chunk], chunk_type: [u8; 4]) -> (r: Option<usize>)
    ensures
        match first_type_from(chunks@, chunk_type@, 0) {
            Some(i) => r == Some(i as usize),
            None => r is None,
        },
{
    let mut i: usize = 0;
    while i < chunks.len()
        invariant
            i <= chunks@.len(),
            first_type_from(chunks@, chunk_type@, 0) == first_type_from(
                chunks@,
                chunk_type@,
                i as int,
            ),
        decreases chunks@.len() - i,
    {
        let t = chunks[i].chunk_type;
        if t[0] == chunk_type[0] && t[1] == chunk_type[1] && t[2] == chunk_type[2] && t[3]
            == chunk_type[3] {
            assert(t@ =~= chunk_type@);
            return Some(i);
        }
        assert(t@[0] != chunk_type@[0] || t@[1] != chunk_type@[1] || t@[2] != chunk_type@[2]
            || t@[3] != chunk_type@[3]);
        i = i + 1;
    }
    None
}

/// Whether the IDAT data lengths add up to at most `usize::MAX`.
pub fn idat_bytes_fit(chunks: &[Chunk]) -> (b: bool)
    ensures
        b == (idat_bytes(chunks@) <= usize::MAX),
{
    let mut total: usize = 0;
    let mut i: usize = 0;
    while i < chunks.len()
        invariant
            i <= chunks@.len(),
            total == idat_bytes(chunks@.take(i as int)),
        decreases chunks@.len() - i,
    {
        proof {
            assert(chunks@.take(i + 1).drop_last() =~= chunks@.take(i as int));
        }
        let t = chunks[i].chunk_type;
        if t[0] == 0x49 && t[1] == 0x44 && t[2] == 0x41 && t[3] == 0x54 {
            match total.checked_add(chunks[i].data.len()) {
                Some(n) => {
                    total = n;
                },
                None => {
                    proof {
                        lemma_idat_bytes_prefix(chunks@, i + 1);
                    }
                    return false;
                },
            }
        }
        i = i + 1;
    }
    assert(chunks@.take(i as int) =~= chunks@);
    true
}

proof fn lemma_idat_bytes_prefix(cs: Seq<Chunk>, k: int)
    requires
        0 <= k <= cs.len(),
    ensures
        idat_bytes(cs.take(k)) <= idat_bytes(cs),
    decreases cs.len() - k,
{
    if k < cs.len() {
        lemma_idat_bytes_prefix(cs, k + 1);
        assert(cs.take(k + 1).drop_last() =~= cs.take(k));
    } else {
        assert(cs.take(k) =~= cs);
    }
}

/// Total data bytes of the IDAT chunks (the compressed stream's length).
pub open spec fn idat_bytes(cs: Seq<Chunk>) -> nat
    decreases cs.len(),
{
    if cs.len() == 0 {
        0
    } else {
        idat_bytes(cs.drop_last()) + if is_idat(cs.last().chunk_type@) {
            cs.last().data@.len()
        } else {
            0nat
        }
    }
}

proof fn lemma_idat_bytes_monotone(cs: Seq<Chunk>, i: int)
    requires
        0 <= i <= cs.len(),
    ensures
        idat_bytes(cs.take(i)) <= idat_bytes(cs),
    decreases cs.len() - i,
{
    if i < cs.len() {
        lemma_idat_bytes_monotone(cs, i + 1);
        assert(cs.take(i + 1).drop_last() =~= cs.take(i));
    } else {
        assert(cs.take(i) =~= cs);
    }
}

/// Sum of the IDAT data lengths.
pub fn idat_total(chunks: &[Chunk]) -> (n: usize)
    requires
        idat_bytes(chunks@) <= usize::MAX,
    ensures
        n == idat_bytes(chunks@),
{
    let mut total: usize = 0;
    let mut i: usize = 0;
    while i < chunks.len()
        invariant
            i <= chunks@.len(),
            total == idat_bytes(chunks@.take(i as int)),
            idat_bytes(chunks@) <= usize::MAX,
        decreases chunks@.len() - i,
    {
        proof {
            assert(chunks@.take(i + 1).drop_last() =~= chunks@.take(i as int));
            lemma_idat_bytes_monotone(chunks@, i + 1);
        }
        let t = chunks[i].chunk_type;
        if t[0] == 0x49 && t[1] == 0x44 && t[2] == 0x41 && t[3] == 0x54 {
            total = total + chunks[i].data.len();
        }
        i = i + 1;
    }
    assert(chunks@.take(i as int) =~= chunks@);
    total
}

/// IHDR, IDAT and IEND carry the image itself; every other chunk is listed
/// as ancillary information.
pub fn is_structural(chunk_type: [u8; 4]) -> (b: bool)
    ensures
        b == (crate::png_chunks::is_ihdr(chunk_type@) || is_idat(chunk_type@)
            || crate::png_chunks::is_iend(chunk_type@)),
{
    let t = chunk_type;
    (t[0] == 0x49 && t[1] == 0x48 && t[2] == 0x44 && t[3] == 0x52) || (t[0] == 0x49 && t[1] == 0x44
        && t[2] == 0x41 && t[3] == 0x54) || (t[0] == 0x49 && t[1] == 0x45 && t[2] == 0x4E && t[3]
        == 0x44)
}

// ---------------------------------------------------------------------------
// Ancillary chunks
// ---------------------------------------------------------------------------

/// What an ancillary chunk says, as far as this header reader interprets it.
pub enum Description {
    /// PLTE: the number of RGB entries and the data length.
    Palette { entries: usize, bytes: usize },
    /// tRNS: its meaning under the image's colour type.
    Transparency(String),
    /// gAMA with 4 bytes: gamma times 100000.
    Gamma(u32),
    /// sRGB with 1 byte: the rendering intent and its name.
    Srgb { intent: u8, name: &'static str },
    /// pHYs with 9 bytes, unit 1: pixels per metre.
    PixelsPerMetre { x: u32, y: u32 },
    /// pHYs with 9 bytes, any other unit: only the aspect ratio.
    AspectRatio { x: u32, y: u32 },
    /// tEXt: the keyword before the 0 separator, read as Latin-1.
    Text(String),
    /// tEXt without the 0 separator.
    TextWithoutSeparator,
    /// Anything else: its length and the image's colour type code.
    Other { bytes: usize, color_type: u8 },
}

/// The sentence describing a chunk, for every kind of description whose
/// wording needs no fractional number (gamma and DPI do).
pub open spec fn sentence_of(d: Description) -> Option<Seq<char>> {
    match d {
        Description::Palette { entries, bytes } => Some(
            "パレット "@ + dec(entries as nat) + " 色 (3バイト×"@ + dec(entries as nat) + " = "@
                + dec(bytes as nat) + " バイト)"@,
        ),
        Description::Transparency(t) => Some(t@),
        Description::Gamma(_) => None,
        Description::Srgb { intent, name } => Some(
            "sRGB 色空間。レンダリング意図 "@ + dec(intent as nat) + " ("@ + name@ + ")"@,
        ),
        Description::PixelsPerMetre { .. } => None,
        Description::AspectRatio { x, y } => Some(
            "縦横比のみ "@ + dec(x as nat) + ":"@ + dec(y as nat) + " (単位未指定)"@,
        ),
        Description::Text(t) => Some("テキスト \""@ + t@ + "\""@),
        Description::TextWithoutSeparator => Some("テキスト (区切りの 0x00 がない)"@),
        Description::Other { bytes, color_type } => Some(
            dec(bytes as nat) + " バイト（このトピックでは未解釈。カラータイプ "@ + dec(
                color_type as nat,
            ) + " には影響しない）"@,
        ),
    }
}

impl Description {
    /// The sentence for this description, or `None` for gamma and physical
    /// resolution, whose wording carries a fractional number.
    pub fn sentence(&self) -> (s: Option<String>)
        ensures
            match (s, sentence_of(*self)) {
                (Some(a), Some(b)) => a@ == b,
                (None, None) => true,
                _ => false,
            },
    {
        match self {
            Description::Palette { entries, bytes } => {
                let mut s = String::from_str("パレット ");
                push_dec(&mut s, *entries as u64);
                s.append(" 色 (3バイト×");
                push_dec(&mut s, *entries as u64);
                s.append(" = ");
                push_dec(&mut s, *bytes as u64);
                s.append(" バイト)");
                Some(s)
            },
            Description::Transparency(t) => Some(t.clone()),
            Description::Gamma(_) => None,
            Description::Srgb { intent, name } => {
                let mut s = String::from_str("sRGB 色空間。レンダリング意図 ");
                push_dec(&mut s, *intent as u64);
                s.append(" (");
                s.append(name);
                s.append(")");
                Some(s)
            },
            Description::PixelsPerMetre { .. } => None,
            Description::AspectRatio { x, y } => {
                let mut s = String::from_str("縦横比のみ ");
                push_dec(&mut s, *x as u64);
                s.append(":");
                push_dec(&mut s, *y as u64);
                s.append(" (単位未指定)");
                Some(s)
            },
            Description::Text(t) => {
                let mut s = String::from_str("テキスト \"");
                s.append(t.as_str());
                s.append("\"");
                Some(s)
            },
            Description::TextWithoutSeparator => Some(
                String::from_str("テキスト (区切りの 0x00 がない)"),
            ),
            Description::Other { bytes, color_type } => {
                let mut s = String::new();
                push_dec(&mut s, *bytes as u64);
                s.append(" バイト（このトピックでは未解釈。カラータイプ ");
                push_dec(&mut s, *color_type as u64);
                s.append(" には影響しない）");
                Some(s)
            },
        }
    }
}

pub open spec fn trns_text(c: Chunk, l: Layout) -> Seq<char> {
    match l.color {
        ColorType::Palette => "パレット "@ + dec(c.data@.len()) + " エントリ分のアルファ値 (残りは不透明扱い)"@,
        ColorType::Grayscale => "この輝度値を透明として扱う (2バイト)"@,
        ColorType::Rgb => "この RGB 値を透明として扱う (2バイト×3)"@,
        _ => "⚠ すでにアルファチャンネルがあるので tRNS は禁止"@,
    }
}

/// The meaning of tRNS depends entirely on the colour type.
pub fn describe_trns(c: &Chunk, layout: &Layout) -> (s: String)
    ensures
        s@ == trns_text(*c, *layout),
{
    let mut s = String::new();
    match layout.color {
        ColorType::Palette => {
            s.append("パレット ");
            push_dec(&mut s, c.data.len() as u64);
            s.append(" エントリ分のアルファ値 (残りは不透明扱い)");
        },
        ColorType::Grayscale => {
            s.append("この輝度値を透明として扱う (2バイト)");
        },
        ColorType::Rgb => {
            s.append("この RGB 値を透明として扱う (2バイト×3)");
        },
        ColorType::GrayscaleAlpha | ColorType::Rgba => {
            s.append("⚠ すでにアルファチャンネルがあるので tRNS は禁止");
        },
    }
    assert(s@ =~= trns_text(*c, *layout));
    s
}

pub open spec fn intent_text(v: u8) -> Seq<char> {
    if v == 0 {
        "Perceptual"@
    } else if v == 1 {
        "Relative colorimetric"@
    } else if v == 2 {
        "Saturation"@
    } else if v == 3 {
        "Absolute colorimetric"@
    } else {
        "不明"@
    }
}

/// Name of an sRGB rendering intent.
pub fn rendering_intent_name(v: u8) -> (s: &'static str)
    ensures
        s@ == intent_text(v),
{
    match v {
        0 => "Perceptual",
        1 => "Relative colorimetric",
        2 => "Saturation",
        3 => "Absolute colorimetric",
        _ => "不明",
    }
}

/// Index of the first 0 byte.
pub open spec fn first_zero(d: Seq<u8>) -> Option<int> {
    if exists|i: int| 0 <= i < d.len() && d[i] == 0 {
        Some(choose|i: int| 0 <= i < d.len() && d[i] == 0 && forall|j: int| 0 <= j < i ==> d[j] != 0)
    } else {
        None
    }
}

/// Bytes read as Latin-1: each byte is the character with that code.
pub open spec fn latin1(d: Seq<u8>) -> Seq<char> {
    Seq::new(d.len(), |i: int| (d[i] as u32) as char)
}

pub open spec fn description_of(c: Chunk, h: Ihdr, l: Layout, d: Description) -> bool {
    let t = c.chunk_type@;
    let data = c.data@;
    if is_plte(t) {
        d == Description::Palette { entries: (data.len() / 3) as usize, bytes: data.len() as usize }
    } else if type_is(t, 0x74, 0x52, 0x4E, 0x53) {
        d matches Description::Transparency(s) && s@ == trns_text(c, l)
    } else if type_is(t, 0x67, 0x41, 0x4D, 0x41) && data.len() == 4 {
        d == Description::Gamma(be_u32(data, 0) as u32)
    } else if type_is(t, 0x73, 0x52, 0x47, 0x42) && data.len() == 1 {
        d matches Description::Srgb { intent, name } && intent == data[0] && name@ == intent_text(
            data[0],
        )
    } else if type_is(t, 0x70, 0x48, 0x59, 0x73) && data.len() == 9 {
        if data[8] == 1 {
            d == Description::PixelsPerMetre {
                x: be_u32(data, 0) as u32,
                y: be_u32(data, 4) as u32,
            }
        } else {
            d == Description::AspectRatio { x: be_u32(data, 0) as u32, y: be_u32(data, 4) as u32 }
        }
    } else if type_is(t, 0x74, 0x45, 0x58, 0x74) {
        match first_zero(data) {
            Some(sep) => d matches Description::Text(s) && s@ == latin1(data.subrange(0, sep)),
            None => d == Description::TextWithoutSeparator,
        }
    } else {
        d == Description::Other { bytes: data.len() as usize, color_type: h.color_type }
    }
}

/// Interprets an ancillary chunk in the light of the header.
pub fn describe(c: &Chunk, ihdr: &Ihdr, layout: &Layout) -> (d: Description)
    ensures
        description_of(*c, *ihdr, *layout, d),
{
    let t = c.chunk_type;
    let data = c.data;
    if t[0] == 0x50 && t[1] == 0x4C && t[2] == 0x54 && t[3] == 0x45 {
        Description::Palette { entries: data.len() / 3, bytes: data.len() }
    } else if t[0] == 0x74 && t[1] == 0x52 && t[2] == 0x4E && t[3] == 0x53 {
        Description::Transparency(describe_trns(c, layout))
    } else if t[0] == 0x67 && t[1] == 0x41 && t[2] == 0x4D && t[3] == 0x41 && data.len() == 4 {
        Description::Gamma(read_u32(data, 0))
    } else if t[0] == 0x73 && t[1] == 0x52 && t[2] == 0x47 && t[3] == 0x42 && data.len() == 1 {
        Description::Srgb { intent: data[0], name: rendering_intent_name(data[0]) }
    } else if t[0] == 0x70 && t[1] == 0x48 && t[2] == 0x59 && t[3] == 0x73 && data.len() == 9 {
        let x = read_u32(data, 0);
        let y = read_u32(data, 4);
        if data[8] == 1 {
            Description::PixelsPerMetre { x, y }
        } else {
            Description::AspectRatio { x, y }
        }
    } else if t[0] == 0x74 && t[1] == 0x45 && t[2] == 0x58 && t[3] == 0x74 {
        let mut i: usize = 0;
        while i < data.len() && data[i] != 0
            invariant
                i <= data@.len(),
                forall|j: int| 0 <= j < i ==> data@[j] != 0,
            decreases data@.len() - i,
        {
            i = i + 1;
        }
        if i == data.len() {
            Description::TextWithoutSeparator
        } else {
            let mut s = String::new();
            let mut k: usize = 0;
            while k < i
                invariant
                    k <= i,
                    i < data@.len(),
                    s@ == latin1(data@.subrange(0, k as int)),
                decreases i - k,
            {
                crate::text::push_char(&mut s, data[k] as char);
                k = k + 1;
                assert(s@ =~= latin1(data@.subrange(0, k as int)));
            }
            proof {
                let sep = choose|j: int|
                    0 <= j < data@.len() && data@[j] == 0 && forall|m: int|
                        0 <= m < j ==> data@[m] != 0;
                if sep < i {
                }
                if i < sep {
                }
                assert(sep == i);
            }
            Description::Text(s)
        }
    } else {
        Description::Other { bytes: data.len(), color_type: ihdr.color_type }
    }
}

} // verus!
