//! PNG chunk layer: signature check, cutting a file into chunks, CRC-32,
//! chunk-type property bits and the IHDR record.
use vstd::prelude::*;
use vstd::string::StringSliceAdditionalSpecFns;

verus! {

// ---------------------------------------------------------------------------
// Byte-level model
// ---------------------------------------------------------------------------

/// The eight signature bytes every PNG file starts with.
pub open spec fn png_signature() -> Seq<u8> {
    seq![0x89u8, 0x50u8, 0x4Eu8, 0x47u8, 0x0Du8, 0x0Au8, 0x1Au8, 0x0Au8]
}

/// Big-endian 32-bit value stored at `pos`.
pub open spec fn be_u32(s: Seq<u8>, pos: int) -> int {
    s[pos] * 16777216 + s[pos + 1] * 65536 + s[pos + 2] * 256 + s[pos + 3]
}

/// ASCII upper-case letter.
pub open spec fn is_upper(b: u8) -> bool {
    65 <= b <= 90
}

/// ASCII lower-case letter.
pub open spec fn is_lower(b: u8) -> bool {
    97 <= b <= 122
}

pub open spec fn type_is(t: Seq<u8>, a: u8, b: u8, c: u8, d: u8) -> bool {
    t.len() == 4 && t[0] == a && t[1] == b && t[2] == c && t[3] == d
}

pub open spec fn is_ihdr(t: Seq<u8>) -> bool {
    type_is(t, 0x49, 0x48, 0x44, 0x52)
}

pub open spec fn is_iend(t: Seq<u8>) -> bool {
    type_is(t, 0x49, 0x45, 0x4E, 0x44)
}

pub open spec fn is_idat(t: Seq<u8>) -> bool {
    type_is(t, 0x49, 0x44, 0x41, 0x54)
}

/// Whether `bytes` starts with the PNG signature.
pub fn has_png_signature(bytes: &[u8]) -> (ok: bool)
    ensures
        ok <==> bytes@.len() >= 8 && bytes@.subrange(0, 8) == png_signature(),
{
    if bytes.len() < 8 {
        return false;
    }
    let ok = bytes[0] == 0x89 && bytes[1] == 0x50 && bytes[2] == 0x4E && bytes[3] == 0x47
        && bytes[4] == 0x0D && bytes[5] == 0x0A && bytes[6] == 0x1A && bytes[7] == 0x0A;
    proof {
        if ok {
            assert(bytes@.subrange(0, 8) =~= png_signature());
        } else {
            if bytes@.subrange(0, 8) == png_signature() {
                assert(bytes@.subrange(0, 8)[0] == bytes@[0]);
                assert(bytes@.subrange(0, 8)[1] == bytes@[1]);
                assert(bytes@.subrange(0, 8)[2] == bytes@[2]);
                assert(bytes@.subrange(0, 8)[3] == bytes@[3]);
                assert(bytes@.subrange(0, 8)[4] == bytes@[4]);
                assert(bytes@.subrange(0, 8)[5] == bytes@[5]);
                assert(bytes@.subrange(0, 8)[6] == bytes@[6]);
                assert(bytes@.subrange(0, 8)[7] == bytes@[7]);
            }
        }
    }
    ok
}

/// Reads the big-endian `u32` at `pos`. All multi-byte PNG integers are
/// big-endian.
pub fn read_u32(bytes: &[u8], pos: usize) -> (v: u32)
    requires
        pos + 4 <= bytes@.len(),
    ensures
        v == be_u32(bytes@, pos as int),
{
    (bytes[pos] as u32) * 16777216 + (bytes[pos + 1] as u32) * 65536 + (bytes[pos + 2] as u32)
        * 256 + (bytes[pos + 3] as u32)
}

// ---------------------------------------------------------------------------
// CRC-32 (IEEE 802.3, reflected polynomial 0xEDB88320)
// ---------------------------------------------------------------------------

/// One bit of the reflected CRC-32 shift register.
pub open spec fn crc_step(c: u32) -> u32 {
    if c & 1 != 0 {
        0xEDB8_8320u32 ^ (c >> 1u32)
    } else {
        c >> 1u32
    }
}

/// Eight register steps: the effect of one byte.
pub open spec fn crc_step8(c: u32) -> u32 {
    crc_step(crc_step(crc_step(crc_step(crc_step(crc_step(crc_step(crc_step(c))))))))
}

/// The register after feeding one byte.
pub open spec fn crc_update(c: u32, b: u8) -> u32 {
    crc_step8(c ^ (b as u32))
}

/// The register after feeding `s`, starting from all ones.
pub open spec fn crc_register(s: Seq<u8>) -> u32
    decreases s.len(),
{
    if s.len() == 0 {
        0xFFFF_FFFFu32
    } else {
        crc_update(crc_register(s.drop_last()), s.last())
    }
}

/// CRC-32 of a byte sequence: the register, inverted.
pub open spec fn crc32_of(s: Seq<u8>) -> u32 {
    crc_register(s) ^ 0xFFFF_FFFFu32
}

/// The parts laid end to end.
pub open spec fn concat_parts(parts: Seq<Seq<u8>>) -> Seq<u8>
    decreases parts.len(),
{
    if parts.len() == 0 {
        Seq::empty()
    } else {
        concat_parts(parts.drop_last()) + parts.last()
    }
}

pub open spec fn part_views(parts: Seq<&[u8]>) -> Seq<Seq<u8>> {
    parts.map_values(|p: &[u8]| p@)
}

/// A table lookup for the low byte plus a shift gives the same register
/// as eight single-bit steps.
proof fn lemma_table_step(c: u32, b: u8)
    ensures
        crc_update(c, b) == crc_step8((c ^ (b as u32)) & 0xFFu32) ^ (c >> 8u32),
{
    let x: u32 = c ^ (b as u32);
    assert(crc_step8(x) == crc_step8(x & 0xFFu32) ^ (x >> 8u32)) by (bit_vector);
    assert((c ^ (b as u32)) >> 8u32 == c >> 8u32) by (bit_vector)
        requires
            b < 256,
    ;
}

/// The 256-entry table: entry `n` is the register after eight steps from `n`.
pub fn crc32_table() -> (table: [u32; 256])
    ensures
        forall|n: int| 0 <= n < 256 ==> #[trigger] table@[n] == crc_step8(n as u32),
{
    let mut table = [0u32; 256];
    let mut n: usize = 0;
    while n < 256
        invariant
            n <= 256,
            forall|k: int| 0 <= k < n ==> #[trigger] table@[k] == crc_step8(k as u32),
        decreases 256 - n,
    {
        let mut c: u32 = n as u32;
        let mut i: usize = 0;
        while i < 8
            invariant
                i <= 8,
                n < 256,
                c == (if i == 0 {
                    n as u32
                } else if i == 1 {
                    crc_step(n as u32)
                } else if i == 2 {
                    crc_step(crc_step(n as u32))
                } else if i == 3 {
                    crc_step(crc_step(crc_step(n as u32)))
                } else if i == 4 {
                    crc_step(crc_step(crc_step(crc_step(n as u32))))
                } else if i == 5 {
                    crc_step(crc_step(crc_step(crc_step(crc_step(n as u32)))))
                } else if i == 6 {
                    crc_step(crc_step(crc_step(crc_step(crc_step(crc_step(n as u32))))))
                } else if i == 7 {
                    crc_step(crc_step(crc_step(crc_step(crc_step(crc_step(crc_step(n as u32)))))))
                } else {
                    crc_step8(n as u32)
                }),
            decreases 8 - i,
        {
            c = if c & 1 != 0 {
                0xEDB8_8320u32 ^ (c >> 1u32)
            } else {
                c >> 1u32
            };
            i = i + 1;
        }
        table[n] = c;
        n = n + 1;
    }
    table
}

/// CRC-32 of the parts laid end to end (PNG takes it over type + data).
pub fn crc32(parts: &[&[u8]]) -> (crc: u32)
    ensures
        crc == crc32_of(concat_parts(part_views(parts@))),
{
    let table = crc32_table();
    let mut crc: u32 = 0xFFFF_FFFF;
    let mut i: usize = 0;
    while i < parts.len()
        invariant
            i <= parts@.len(),
            forall|n: int| 0 <= n < 256 ==> #[trigger] table@[n] == crc_step8(n as u32),
            crc == crc_register(concat_parts(part_views(parts@).take(i as int))),
        decreases parts@.len() - i,
    {
        let part: &[u8] = parts[i];
        let ghost before = concat_parts(part_views(parts@).take(i as int));
        let mut j: usize = 0;
        while j < part.len()
            invariant
                j <= part@.len(),
                forall|n: int| 0 <= n < 256 ==> #[trigger] table@[n] == crc_step8(n as u32),
                crc == crc_register(before + part@.take(j as int)),
            decreases part@.len() - j,
        {
            let byte = part[j];
            proof {
                lemma_table_step(crc, byte);
                let s = before + part@.take(j as int + 1);
                assert(s.drop_last() =~= before + part@.take(j as int));
                assert(s.last() == byte);
            }
            let idx: u32 = (crc ^ byte as u32) & 0xFF;
            assert(idx < 256) by (bit_vector)
                requires
                    idx == (crc ^ byte as u32) & 0xFF,
            ;
            crc = table[idx as usize] ^ (crc >> 8u32);
            j = j + 1;
        }
        proof {
            assert(part@.take(j as int) =~= part@);
            let pv = part_views(parts@);
            assert(pv.take(i as int + 1).drop_last() =~= pv.take(i as int));
            assert(pv.take(i as int + 1).last() == part@);
        }
        i = i + 1;
    }
    proof {
        assert(part_views(parts@).take(parts@.len() as int) =~= part_views(parts@));
    }
    crc ^ 0xFFFF_FFFF
}

// ---------------------------------------------------------------------------
// Chunks
// ---------------------------------------------------------------------------

/// One PNG chunk: length, type, data and stored CRC, as laid out in the file.
/// `data` borrows the file bytes.
pub struct Chunk<'a> {
    /// Offset of the chunk's length field from the start of the file.
    pub offset: usize,
    /// Length of the data part (type and CRC excluded).
    pub length: u32,
    /// Four ASCII letters; the case of each letter is a property bit.
    pub chunk_type: [u8; 4],
    pub data: &'a [u8],
    /// The CRC-32 recorded in the file.
    pub crc: u32,
}

/// Why a byte string is not a well-formed chunk sequence.
pub enum ChunkError {
    /// Fewer than the 12 bytes every chunk needs remain at `offset`.
    Truncated { offset: usize, remaining: usize },
    /// The length field exceeds 2^31-1, the format's upper bound.
    LengthTooLarge { offset: usize, length: u32 },
    /// The data and CRC would run past the end of the file.
    PastEnd { offset: usize, length: u32, remaining: usize },
    /// No chunk at all after the signature.
    NoChunks,
    /// The first chunk is not IHDR.
    FirstNotIhdr { chunk_type: [u8; 4] },
    /// The last chunk is not IEND.
    LastNotIend { chunk_type: [u8; 4] },
}

/// The offsets of the chunks found by walking from `pos` to the end of the
/// file, or the first structural error met on the way.
pub open spec fn chunk_offsets(bytes: Seq<u8>, pos: int) -> Result<Seq<int>, ChunkError>
    decreases bytes.len() - pos,
{
    if pos < 0 || pos >= bytes.len() {
        Ok(Seq::empty())
    } else if bytes.len() - pos < 12 {
        Err(ChunkError::Truncated { offset: pos as usize, remaining: (bytes.len() - pos) as usize })
    } else {
        let length = be_u32(bytes, pos);
        if length > 0x7FFF_FFFF {
            Err(ChunkError::LengthTooLarge { offset: pos as usize, length: length as u32 })
        } else if pos + 8 + length + 4 > bytes.len() {
            Err(
                ChunkError::PastEnd {
                    offset: pos as usize,
                    length: length as u32,
                    remaining: (bytes.len() - (pos + 8)) as usize,
                },
            )
        } else {
            match chunk_offsets(bytes, pos + 12 + length) {
                Ok(rest) => Ok(seq![pos] + rest),
                Err(e) => Err(e),
            }
        }
    }
}

/// The type bytes of the chunk at `off`.
pub open spec fn type_at(bytes: Seq<u8>, off: int) -> Seq<u8> {
    bytes.subrange(off + 4, off + 8)
}

/// What `parse_chunks` yields: the chunk offsets after the signature, provided
/// the file has at least one chunk, starts with IHDR and ends with IEND.
pub open spec fn parsed_offsets(bytes: Seq<u8>) -> Result<Seq<int>, ChunkError> {
    match chunk_offsets(bytes, 8) {
        Err(e) => Err(e),
        Ok(offs) => if offs.len() == 0 {
            Err(ChunkError::NoChunks)
        } else if !is_ihdr(type_at(bytes, offs[0])) {
            Err(ChunkError::FirstNotIhdr { chunk_type: array_from_seq4(type_at(bytes, offs[0])) })
        } else if !is_iend(type_at(bytes, offs.last())) {
            Err(ChunkError::LastNotIend { chunk_type: array_from_seq4(type_at(bytes, offs.last())) })
        } else {
            Ok(offs)
        },
    }
}

/// Equal errors, comparing the chunk types they carry by their bytes.
pub open spec fn same_error(a: ChunkError, b: ChunkError) -> bool {
    match (a, b) {
        (ChunkError::FirstNotIhdr { chunk_type: x }, ChunkError::FirstNotIhdr { chunk_type: y }) => x@
            == y@,
        (ChunkError::LastNotIend { chunk_type: x }, ChunkError::LastNotIend { chunk_type: y }) => x@
            == y@,
        _ => a == b,
    }
}

pub open spec fn array_from_seq4(s: Seq<u8>) -> [u8; 4] {
    choose|a: [u8; 4]| a@ == s
}

/// `c` is the chunk whose length field sits at `off` in `bytes`.
pub open spec fn chunk_matches(bytes: Seq<u8>, c: Chunk, off: int) -> bool {
    &&& c.offset == off
    &&& c.length == be_u32(bytes, off)
    &&& c.chunk_type@ == type_at(bytes, off)
    &&& c.data@ == bytes.subrange(off + 8, off + 8 + c.length)
    &&& c.crc == be_u32(bytes, off + 8 + c.length)
}

/// Every chunk sits at the corresponding offset.
pub open spec fn chunks_match(bytes: Seq<u8>, chunks: Seq<Chunk>, offs: Seq<int>) -> bool {
    &&& chunks.len() == offs.len()
    &&& forall|i: int| 0 <= i < offs.len() ==> chunk_matches(bytes, #[trigger] chunks[i], offs[i])
}

proof fn lemma_offsets_in_range(bytes: Seq<u8>, pos: int)
    requires
        chunk_offsets(bytes, pos) is Ok,
    ensures
        forall|i: int|
            0 <= i < chunk_offsets(bytes, pos)->Ok_0.len() ==> {
                let o = #[trigger] chunk_offsets(bytes, pos)->Ok_0[i];
                &&& pos <= o
                &&& o + 12 + be_u32(bytes, o) <= bytes.len()
                &&& 0 <= be_u32(bytes, o) <= 0x7FFF_FFFF
            },
    decreases bytes.len() - pos,
{
    if pos < 0 || pos >= bytes.len() {
    } else if bytes.len() - pos < 12 {
    } else {
        let length = be_u32(bytes, pos);
        if length <= 0x7FFF_FFFF && pos + 8 + length + 4 <= bytes.len() {
            lemma_offsets_in_range(bytes, pos + 12 + length);
        }
    }
}

/// Cuts a PNG file into chunks. The walk starts right after the 8 signature
/// bytes (the signature itself is checked by `has_png_signature`), and the
/// result must start with IHDR and end with IEND.
pub fn parse_chunks(bytes: &[u8]) -> (res: Result<Vec<Chunk<'_>>, ChunkError>)
    ensures
        match parsed_offsets(bytes@) {
            Ok(offs) => res matches Ok(chunks) && chunks_match(bytes@, chunks@, offs),
            Err(e) => res matches Err(e2) && same_error(e, e2),
        },
{
    let mut chunks: Vec<Chunk> = Vec::new();
    let mut pos: usize = 8;
    let ghost mut offs: Seq<int> = Seq::empty();
    proof {
        assert(chunk_offsets(bytes@, 8) == chunk_offsets(bytes@, pos as int));
    }
    while pos < bytes.len()
        invariant
            8 <= pos,
            chunks_match(bytes@, chunks@, offs),
            chunk_offsets(bytes@, 8) == (match chunk_offsets(bytes@, pos as int) {
                Ok(rest) => Ok(offs + rest),
                Err(e) => Err(e),
            }),
        decreases bytes@.len() - pos,
    {
        if bytes.len() - pos < 12 {
            return Err(ChunkError::Truncated { offset: pos, remaining: bytes.len() - pos });
        }
        let length = read_u32(bytes, pos);
        if length > 0x7FFF_FFFF {
            return Err(ChunkError::LengthTooLarge { offset: pos, length });
        }
        let data_start = pos + 8;
        let past_end = match data_start.checked_add(length as usize) {
            Some(data_end) => match data_end.checked_add(4) {
                Some(e) => e > bytes.len(),
                None => true,
            },
            None => true,
        };
        if past_end {
            return Err(
                ChunkError::PastEnd { offset: pos, length, remaining: bytes.len() - data_start },
            );
        }
        let data_end = data_start + length as usize;
        let c = Chunk {
            offset: pos,
            length,
            chunk_type: [bytes[pos + 4], bytes[pos + 5], bytes[pos + 6], bytes[pos + 7]],
            data: &bytes[data_start..data_end],
            crc: read_u32(bytes, data_end),
        };
        proof {
            assert(c.chunk_type@ =~= type_at(bytes@, pos as int));
        }
        let ghost old_chunks = chunks@;
        chunks.push(c);
        proof {
            let old_offs = offs;
            offs = offs.push(pos as int);
            assert(offs + chunk_offsets(bytes@, data_end + 4)->Ok_0 =~= old_offs + (seq![
                pos as int,
            ] + chunk_offsets(bytes@, data_end + 4)->Ok_0));
            assert forall|i: int| 0 <= i < offs.len() implies chunk_matches(
                bytes@,
                #[trigger] chunks@[i],
                offs[i],
            ) by {
                if i < old_offs.len() {
                    assert(chunks@[i] == old_chunks[i]);
                }
            }
        }
        pos = data_end + 4;
    }
    proof {
        assert(offs + Seq::<int>::empty() =~= offs);
    }
    if chunks.len() == 0 {
        return Err(ChunkError::NoChunks);
    }
    let first = &chunks[0];
    if !(first.chunk_type[0] == 0x49 && first.chunk_type[1] == 0x48 && first.chunk_type[2] == 0x44
        && first.chunk_type[3] == 0x52) {
        return Err(ChunkError::FirstNotIhdr { chunk_type: first.chunk_type });
    }
    let last = &chunks[chunks.len() - 1];
    if !(last.chunk_type[0] == 0x49 && last.chunk_type[1] == 0x45 && last.chunk_type[2] == 0x4E
        && last.chunk_type[3] == 0x44) {
        return Err(ChunkError::LastNotIend { chunk_type: last.chunk_type });
    }
    Ok(chunks)
}

} // verus!

verus! {

/// CRC-32 over type + data, the value a chunk should record.
pub open spec fn chunk_crc(c: Chunk) -> u32 {
    crc32_of(c.chunk_type@ + c.data@)
}

pub open spec fn attributes_text(t: Seq<u8>) -> Seq<char> {
    (if is_upper(t[0]) {
        "必須"@
    } else {
        "補助"@
    }) + "/"@ + (if is_lower(t[1]) {
        "私用"@
    } else {
        "公開"@
    }) + "/"@ + (if is_lower(t[3]) {
        "コピー可"@
    } else {
        "コピー不可"@
    }) + (if !is_upper(t[2]) {
        "/"@ + "予約ビット異常"@
    } else {
        Seq::empty()
    })
}

impl<'a> Chunk<'a> {
    /// The type as text, or `????` when its bytes are not UTF-8.
    pub fn type_str(&self) -> (s: &str)
        ensures
            vstd::utf8::valid_utf8(self.chunk_type@) ==> s.spec_bytes() == self.chunk_type@,
            !vstd::utf8::valid_utf8(self.chunk_type@) ==> s@ == "????"@,
    {
        match crate::text::utf8_str(self.chunk_type.as_slice()) {
            Some(s) => s,
            None => "????",
        }
    }

    /// Upper-case first letter: a critical chunk every decoder must know.
    pub fn is_critical(&self) -> (b: bool)
        ensures
            b == is_upper(self.chunk_type@[0]),
    {
        0x41 <= self.chunk_type[0] && self.chunk_type[0] <= 0x5A
    }

    /// Lower-case second letter: a private, application-specific chunk.
    pub fn is_private(&self) -> (b: bool)
        ensures
            b == is_lower(self.chunk_type@[1]),
    {
        0x61 <= self.chunk_type[1] && self.chunk_type[1] <= 0x7A
    }

    /// The third letter is reserved and must be upper case.
    pub fn is_reserved_bit_ok(&self) -> (b: bool)
        ensures
            b == is_upper(self.chunk_type@[2]),
    {
        0x41 <= self.chunk_type[2] && self.chunk_type[2] <= 0x5A
    }

    /// Lower-case fourth letter: editors may copy the chunk unchanged.
    pub fn is_safe_to_copy(&self) -> (b: bool)
        ensures
            b == is_lower(self.chunk_type@[3]),
    {
        0x61 <= self.chunk_type[3] && self.chunk_type[3] <= 0x7A
    }

    /// CRC-32 over the type and the data (the length field is not covered).
    pub fn computed_crc(&self) -> (crc: u32)
        ensures
            crc == chunk_crc(*self),
    {
        let parts: [&[u8]; 2] = [self.chunk_type.as_slice(), self.data];
        let crc = crc32(parts.as_slice());
        proof {
            let pv = part_views(parts@);
            assert(pv.drop_last().drop_last() =~= Seq::<Seq<u8>>::empty());
            assert(pv.drop_last().last() == self.chunk_type@);
            assert(pv.last() == self.data@);
            assert(concat_parts(pv.drop_last().drop_last()) =~= Seq::<u8>::empty());
            assert(concat_parts(pv.drop_last()) =~= Seq::<u8>::empty() + self.chunk_type@);
            assert(concat_parts(pv) =~= self.chunk_type@ + self.data@);
        }
        crc
    }

    /// The property bits in words, joined by `/`.
    pub fn attributes(&self) -> (s: String)
        ensures
            s@ == attributes_text(self.chunk_type@),
    {
        let mut s = String::new();
        s.append(
            if self.is_critical() {
                "必須"
            } else {
                "補助"
            },
        );
        s.append("/");
        s.append(
            if self.is_private() {
                "私用"
            } else {
                "公開"
            },
        );
        s.append("/");
        s.append(
            if self.is_safe_to_copy() {
                "コピー可"
            } else {
                "コピー不可"
            },
        );
        if !self.is_reserved_bit_ok() {
            s.append("/");
            s.append("予約ビット異常");
        }
        assert(s@ =~= attributes_text(self.chunk_type@));
        s
    }
}

/// How many chunks record a CRC that differs from the computed one.
pub open spec fn crc_mismatches(cs: Seq<Chunk>) -> nat
    decreases cs.len(),
{
    if cs.len() == 0 {
        0
    } else {
        crc_mismatches(cs.drop_last()) + if cs.last().crc != chunk_crc(cs.last()) {
            1nat
        } else {
            0nat
        }
    }
}

/// Number of chunks whose stored CRC does not match (the count the chunk
/// table reports).
pub fn crc_mismatch_count(chunks: &[Chunk]) -> (n: usize)
    ensures
        n == crc_mismatches(chunks@),
{
    let mut n: usize = 0;
    let mut i: usize = 0;
    while i < chunks.len()
        invariant
            i <= chunks@.len(),
            n == crc_mismatches(chunks@.take(i as int)),
            n <= i,
        decreases chunks@.len() - i,
    {
        proof {
            assert(chunks@.take(i + 1).drop_last() =~= chunks@.take(i as int));
        }
        if chunks[i].crc != chunks[i].computed_crc() {
            n = n + 1;
        }
        i = i + 1;
    }
    assert(chunks@.take(i as int) =~= chunks@);
    n
}

/// Index of the first chunk of the given type.
pub fn find_chunk(chunks: &[Chunk], chunk_type: [u8; 4]) -> (r: Option<usize>)
    ensures
        match r {
            Some(i) => i < chunks@.len() && chunks@[i as int].chunk_type@ == chunk_type@ && forall|
                j: int,
            | 0 <= j < i ==> (#[trigger] chunks@[j]).chunk_type@ != chunk_type@,
            None => forall|j: int|
                0 <= j < chunks@.len() ==> (#[trigger] chunks@[j]).chunk_type@ != chunk_type@,
        },
{
    let mut i: usize = 0;
    while i < chunks.len()
        invariant
            i <= chunks@.len(),
            forall|j: int| 0 <= j < i ==> (#[trigger] chunks@[j]).chunk_type@ != chunk_type@,
        decreases chunks@.len() - i,
    {
        let t = chunks[i].chunk_type;
        if t[0] == chunk_type[0] && t[1] == chunk_type[1] && t[2] == chunk_type[2] && t[3]
            == chunk_type[3] {
            assert(t@ =~= chunk_type@);
            return Some(i);
        }
        assert(t@[0] != chunk_type@[0] || t@[1] != chunk_type@[1] || t@[2] != chunk_type@[2]
            || t@[3] != chunk_type@[3]);
        i = i + 1;
    }
    None
}

/// Number of IDAT chunks and the sum of their data lengths.
pub open spec fn idat_count(cs: Seq<Chunk>) -> nat
    decreases cs.len(),
{
    if cs.len() == 0 {
        0
    } else {
        idat_count(cs.drop_last()) + if is_idat(cs.last().chunk_type@) {
            1nat
        } else {
            0nat
        }
    }
}

pub open spec fn idat_total(cs: Seq<Chunk>) -> nat
    decreases cs.len(),
{
    if cs.len() == 0 {
        0
    } else {
        idat_total(cs.drop_last()) + if is_idat(cs.last().chunk_type@) {
            cs.last().data@.len()
        } else {
            0nat
        }
    }
}

proof fn lemma_idat_total_monotone(cs: Seq<Chunk>, i: int)
    requires
        0 <= i <= cs.len(),
    ensures
        idat_total(cs.take(i)) <= idat_total(cs),
        idat_count(cs.take(i)) <= idat_count(cs),
    decreases cs.len() - i,
{
    if i < cs.len() {
        lemma_idat_total_monotone(cs, i + 1);
        assert(cs.take(i + 1).drop_last() =~= cs.take(i));
    } else {
        assert(cs.take(i) =~= cs);
    }
}

/// Whether the IDAT data lengths add up to at most `usize::MAX`.
pub fn idat_total_fits(chunks: &[Chunk]) -> (b: bool)
    ensures
        b == (idat_total(chunks@) <= usize::MAX),
{
    let mut total: usize = 0;
    let mut i: usize = 0;
    while i < chunks.len()
        invariant
            i <= chunks@.len(),
            total == idat_total(chunks@.take(i as int)),
        decreases chunks@.len() - i,
    {
        proof {
            assert(chunks@.take(i + 1).drop_last() =~= chunks@.take(i as int));
        }
        let t = chunks[i].chunk_type;
        if t[0] == 0x49 && t[1] == 0x44 && t[2] == 0x41 && t[3] == 0x54 {
            match total.checked_add(chunks[i].data.len()) {
                Some(n) => {
                    total = n;
                },
                None => {
                    proof {
                        lemma_idat_total_prefix(chunks@, i + 1);
                    }
                    return false;
                },
            }
        }
        i = i + 1;
    }
    assert(chunks@.take(i as int) =~= chunks@);
    true
}

proof fn lemma_idat_total_prefix(cs: Seq<Chunk>, k: int)
    requires
        0 <= k <= cs.len(),
    ensures
        idat_total(cs.take(k)) <= idat_total(cs),
    decreases cs.len() - k,
{
    if k < cs.len() {
        lemma_idat_total_prefix(cs, k + 1);
        assert(cs.take(k + 1).drop_last() =~= cs.take(k));
    } else {
        assert(cs.take(k) =~= cs);
    }
}

/// The IDAT summary: how many IDAT chunks there are and how many data bytes
/// they hold together (they form one zlib stream when concatenated).
pub fn idat_summary(chunks: &[Chunk]) -> (r: (usize, usize))
    requires
        idat_total(chunks@) <= usize::MAX,
    ensures
        r.0 == idat_count(chunks@),
        r.1 == idat_total(chunks@),
{
    let mut count: usize = 0;
    let mut total: usize = 0;
    let mut i: usize = 0;
    while i < chunks.len()
        invariant
            i <= chunks@.len(),
            count == idat_count(chunks@.take(i as int)),
            total == idat_total(chunks@.take(i as int)),
            count <= i,
            idat_total(chunks@) <= usize::MAX,
        decreases chunks@.len() - i,
    {
        proof {
            assert(chunks@.take(i + 1).drop_last() =~= chunks@.take(i as int));
            lemma_idat_total_monotone(chunks@, i + 1);
        }
        let t = chunks[i].chunk_type;
        if t[0] == 0x49 && t[1] == 0x44 && t[2] == 0x41 && t[3] == 0x54 {
            count = count + 1;
            total = total + chunks[i].data.len();
        }
        i = i + 1;
    }
    assert(chunks@.take(i as int) =~= chunks@);
    (count, total)
}

/// The zlib header fields of a compression-method/flags byte: the method
/// (low nibble) and the window size 2^(high nibble + 8).
pub fn zlib_header_fields(cmf: u8) -> (r: (u8, u32))
    ensures
        r.0 == cmf % 16,
        r.1 == vstd::arithmetic::power2::pow2((cmf / 16) as nat + 8),
{
    let method = cmf & 0x0F;
    let shift: u32 = (cmf >> 4u8) as u32 + 8;
    assert(method == cmf % 16) by (bit_vector)
        requires
            method == cmf & 0x0F,
    ;
    assert(cmf >> 4u8 == cmf / 16) by (bit_vector);
    assert(shift < 32);
    let window = 1u32 << shift;
    proof {
        vstd::arithmetic::power2::lemma2_to64();
        vstd::arithmetic::power2::lemma_pow2_strictly_increases(shift as nat, 32);
        vstd::bits::lemma_u32_shl_is_mul(1, shift);
    }
    (method, window)
}

// ---------------------------------------------------------------------------
// IHDR
// ---------------------------------------------------------------------------

/// The 13-byte IHDR record.
pub struct Ihdr {
    pub width: u32,
    pub height: u32,
    pub bit_depth: u8,
    pub color_type: u8,
    pub compression: u8,
    pub filter: u8,
    pub interlace: u8,
}

/// Decodes IHDR data, which must be exactly 13 bytes long; on any other
/// length the error carries that length.
pub fn parse_ihdr(data: &[u8]) -> (r: Result<Ihdr, usize>)
    ensures
        r is Ok <==> data@.len() == 13,
        data@.len() != 13 ==> r == Err::<Ihdr, usize>(data@.len() as usize),
        r matches Ok(h) ==> {
            &&& h.width == be_u32(data@, 0)
            &&& h.height == be_u32(data@, 4)
            &&& h.bit_depth == data@[8]
            &&& h.color_type == data@[9]
            &&& h.compression == data@[10]
            &&& h.filter == data@[11]
            &&& h.interlace == data@[12]
        },
{
    if data.len() != 13 {
        return Err(data.len());
    }
    Ok(
        Ihdr {
            width: read_u32(data, 0),
            height: read_u32(data, 4),
            bit_depth: data[8],
            color_type: data[9],
            compression: data[10],
            filter: data[11],
            interlace: data[12],
        },
    )
}

pub open spec fn color_type_text(t: u8) -> Seq<char> {
    if t == 0 {
        "グレースケール"@
    } else if t == 2 {
        "トゥルーカラー RGB"@
    } else if t == 3 {
        "パレット (インデックスカラー)"@
    } else if t == 4 {
        "グレースケール + アルファ"@
    } else if t == 6 {
        "トゥルーカラー + アルファ RGBA"@
    } else {
        "不明"@
    }
}

/// The name of a colour type code.
pub fn color_type_name(color_type: u8) -> (s: &'static str)
    ensures
        s@ == color_type_text(color_type),
{
    match color_type {
        0 => "グレースケール",
        2 => "トゥルーカラー RGB",
        3 => "パレット (インデックスカラー)",
        4 => "グレースケール + アルファ",
        6 => "トゥルーカラー + アルファ RGBA",
        _ => "不明",
    }
}

pub open spec fn channel_count(t: u8) -> Option<u32> {
    if t == 0 || t == 3 {
        Some(1)
    } else if t == 2 {
        Some(3)
    } else if t == 4 {
        Some(2)
    } else if t == 6 {
        Some(4)
    } else {
        None
    }
}

/// Samples per pixel for a colour type (a palette pixel is one index).
pub fn channels(color_type: u8) -> (r: Option<u32>)
    ensures
        r == channel_count(color_type),
{
    match color_type {
        0 | 3 => Some(1),
        2 => Some(3),
        4 => Some(2),
        6 => Some(4),
        _ => None,
    }
}

/// Bytes per row (filter byte + pixel bytes rounded up) of an image.
pub open spec fn row_bytes(width: int, bits_per_pixel: int) -> int {
    1 + (width * bits_per_pixel + 7) / 8
}

/// The uncompressed size a header announces fits in 64 bits.
pub open spec fn raw_size_fits(h: Ihdr) -> bool {
    match channel_count(h.color_type) {
        Some(ch) => row_bytes(h.width as int, ch * h.bit_depth) * h.height <= u64::MAX,
        None => true,
    }
}

/// Whether the size that `raw_size_estimate` computes fits in 64 bits.
pub fn raw_size_estimate_fits(h: &Ihdr) -> (b: bool)
    ensures
        b == raw_size_fits(*h),
{
    match channels(h.color_type) {
        Some(ch) => {
            assert(ch as u64 * h.bit_depth as u64 <= 1020) by (nonlinear_arith)
                requires
                    ch <= 4,
            ;
            let bpp: u64 = ch as u64 * h.bit_depth as u64;
            assert(h.width as u64 * bpp <= 0xFFFF_FFFFu64 * 1020) by (nonlinear_arith)
                requires
                    bpp <= 1020,
            ;
            let row: u64 = 1 + (h.width as u64 * bpp + 7) / 8;
            match row.checked_mul(h.height as u64) {
                Some(_) => true,
                None => false,
            }
        },
        None => true,
    }
}

/// For a known colour type: channels, bits per pixel, bytes per row and the
/// size zlib should inflate to.
pub fn raw_size_estimate(h: &Ihdr) -> (r: Option<(u32, u32, u64, u64)>)
    requires
        raw_size_fits(*h),
    ensures
        match channel_count(h.color_type) {
            Some(ch) => r == Some(
                (
                    ch,
                    (ch * h.bit_depth) as u32,
                    row_bytes(h.width as int, ch * h.bit_depth) as u64,
                    (row_bytes(h.width as int, ch * h.bit_depth) * h.height) as u64,
                ),
            ),
            None => r is None,
        },
{
    match channels(h.color_type) {
        Some(ch) => {
            let bpp: u32 = ch * h.bit_depth as u32;
            assert(h.width as u64 * bpp as u64 <= 0xFFFF_FFFFu64 * 1020) by (nonlinear_arith)
                requires
                    bpp <= 1020,
            ;
            let row: u64 = 1 + (h.width as u64 * bpp as u64 + 7) / 8;
            let raw: u64 = row * h.height as u64;
            Some((ch, bpp, row, raw))
        },
        None => None,
    }
}

} // verus!
