//! The sample tables of a QuickTime track: the leaf atoms of `stbl`, and the
//! header atoms `tkhd` and `mdhd`.

use crate::bytes::{be_u32, be_u64, u32_at, u64_at};
use vstd::prelude::*;
use vstd::string::StringExecFns;

verus! {

/// Why a QuickTime movie could not be read.
#[derive(Debug, Clone, Copy, PartialEq, Eq, Structural)]
pub enum ParseError {
    /// A field runs past the end of the bytes that hold it.
    UnexpectedEof,
    /// The file has no top-level `moov` atom.
    NoMoovAtom,
    /// The file has no top-level `mdat` atom.
    NoMdatAtom,
    /// No track of the movie carries both a codec and sample sizes.
    NoHapTrack,
    /// An atom that is read declares a size below its own 8-byte header.
    /// Opening such a file is a fault (see `movie_layout_is_sound`), so the
    /// public reader never answers with it.
    AtomTooShort,
}

/// The text by which a parse error is reported.
pub open spec fn parse_error_text(e: ParseError) -> Seq<char> {
    match e {
        ParseError::UnexpectedEof => "failed to fill whole buffer"@,
        ParseError::NoMoovAtom => "No moov atom found"@,
        ParseError::NoMdatAtom => "No mdat atom found"@,
        ParseError::NoHapTrack => "No HAP track found"@,
        ParseError::AtomTooShort => "atom size below its header"@,
    }
}

impl ParseError {
    /// The text by which the error is reported.
    pub fn message(&self) -> (s: String)
        ensures
            s@ == parse_error_text(*self),
    {
        match self {
            ParseError::UnexpectedEof => String::from_str("failed to fill whole buffer"),
            ParseError::NoMoovAtom => String::from_str("No moov atom found"),
            ParseError::NoMdatAtom => String::from_str("No mdat atom found"),
            ParseError::NoHapTrack => String::from_str("No HAP track found"),
            ParseError::AtomTooShort => String::from_str("atom size below its header"),
        }
    }
}

/// One run of the sample-to-chunk table (`stsc`).
#[derive(Debug, Clone, Copy, PartialEq, Eq, Structural)]
pub struct SampleToChunkEntry {
    pub first_chunk: u32,
    pub samples_per_chunk: u32,
    pub sample_description_index: u32,
}

/// A result whose value is taken by its view.
pub open spec fn result_view<T: View>(r: Result<T, ParseError>) -> Result<T::V, ParseError> {
    match r {
        Ok(v) => Ok(v@),
        Err(e) => Err(e),
    }
}

/// `stsz`: version and flags (4 bytes), a common sample size and a sample count;
/// when the common size is 0, one big-endian size per sample follows.
pub open spec fn stsz_spec(d: Seq<u8>) -> Result<Seq<u32>, ParseError> {
    if d.len() < 12 {
        Err(ParseError::UnexpectedEof)
    } else {
        let sample_size = be_u32(d, 4);
        let count = be_u32(d, 8);
        if sample_size != 0 {
            Ok(Seq::new(count as nat, |k: int| sample_size))
        } else if 12 + 4 * count <= d.len() {
            Ok(Seq::new(count as nat, |k: int| be_u32(d, 12 + 4 * k)))
        } else {
            Err(ParseError::UnexpectedEof)
        }
    }
}

/// A chunk offset made absolute: one below the start of `mdat` is counted
/// from the first byte after the `mdat` header.
pub open spec fn absolute_offset(offset: u64, mdat_offset: u64) -> u64 {
    if offset < mdat_offset {
        (mdat_offset + 8 + offset) as u64
    } else {
        offset
    }
}

/// The largest `mdat` position for which `absolute_offset` stays within `u64`.
pub open spec fn mdat_offset_fits(mdat_offset: u64) -> bool {
    mdat_offset <= 0x7fff_ffff_ffff_fff0
}

/// `stco`: version and flags, an entry count, then one 32-bit chunk offset per entry.
pub open spec fn stco_spec(d: Seq<u8>, mdat_offset: u64) -> Result<Seq<u64>, ParseError> {
    if d.len() < 8 {
        Err(ParseError::UnexpectedEof)
    } else {
        let count = be_u32(d, 4);
        if 8 + 4 * count <= d.len() {
            Ok(
                Seq::new(
                    count as nat,
                    |k: int| absolute_offset(be_u32(d, 8 + 4 * k) as u64, mdat_offset),
                ),
            )
        } else {
            Err(ParseError::UnexpectedEof)
        }
    }
}

/// `co64`: version and flags, an entry count, then one 64-bit chunk offset per entry.
pub open spec fn co64_spec(d: Seq<u8>, mdat_offset: u64) -> Result<Seq<u64>, ParseError> {
    if d.len() < 8 {
        Err(ParseError::UnexpectedEof)
    } else {
        let count = be_u32(d, 4);
        if 8 + 8 * count <= d.len() {
            Ok(Seq::new(count as nat, |k: int| absolute_offset(be_u64(d, 8 + 8 * k), mdat_offset)))
        } else {
            Err(ParseError::UnexpectedEof)
        }
    }
}

/// The `k`-th run of an `stsc` table.
pub open spec fn stsc_entry(d: Seq<u8>, k: int) -> SampleToChunkEntry {
    SampleToChunkEntry {
        first_chunk: be_u32(d, 8 + 12 * k),
        samples_per_chunk: be_u32(d, 12 + 12 * k),
        sample_description_index: be_u32(d, 16 + 12 * k),
    }
}

/// `stsc`: version and flags, an entry count, then three 32-bit fields per run.
pub open spec fn stsc_spec(d: Seq<u8>) -> Result<Seq<SampleToChunkEntry>, ParseError> {
    if d.len() < 8 {
        Err(ParseError::UnexpectedEof)
    } else {
        let count = be_u32(d, 4);
        if 8 + 12 * count <= d.len() {
            Ok(Seq::new(count as nat, |k: int| stsc_entry(d, k)))
        } else {
            Err(ParseError::UnexpectedEof)
        }
    }
}

/// The per-sample durations that the first `n` entries of an `stts` table
/// expand to: entry `k` is a sample count and a duration, repeated that often.
pub open spec fn stts_expand(d: Seq<u8>, n: nat) -> Seq<u32>
    decreases n,
{
    if n == 0 {
        Seq::empty()
    } else {
        stts_expand(d, (n - 1) as nat) + Seq::new(
            be_u32(d, 8 + 8 * (n - 1)) as nat,
            |j: int| be_u32(d, 12 + 8 * (n - 1)),
        )
    }
}

/// `stts`: version and flags, an entry count, then (count, duration) pairs.
pub open spec fn stts_spec(d: Seq<u8>) -> Result<Seq<u32>, ParseError> {
    if d.len() < 8 {
        Err(ParseError::UnexpectedEof)
    } else {
        let count = be_u32(d, 4);
        if 8 + 8 * count <= d.len() {
            Ok(stts_expand(d, count as nat))
        } else {
            Err(ParseError::UnexpectedEof)
        }
    }
}

/// Whether an `stsd` body names a codec: it has at least one sample
/// description and is long enough to hold the first one's format.
pub open spec fn stsd_names_codec(d: Seq<u8>) -> bool {
    d.len() >= 28 && be_u32(d, 4) > 0
}

/// `stsd`: the codec is the four bytes after the first description's size;
/// a body that names none leaves `codec` as it was.
pub open spec fn stsd_codec(d: Seq<u8>, codec: Seq<u8>) -> Seq<u8> {
    if stsd_names_codec(d) {
        d.subrange(12, 16)
    } else {
        codec
    }
}

/// `tkhd`: the integer parts of the 16.16 fixed-point width and height, which
/// stand at byte 76 (version 0) or 84 (other versions) of a body of at least
/// 80 bytes; otherwise `(width, height)` stay as they were.
pub open spec fn tkhd_dimensions(d: Seq<u8>, width: u32, height: u32) -> (u32, u32) {
    if d.len() >= 80 {
        let at: int = if d[0] == 0 {
            76
        } else {
            84
        };
        if at + 8 <= d.len() {
            ((be_u32(d, at) / 0x1_0000) as u32, (be_u32(d, at + 4) / 0x1_0000) as u32)
        } else {
            (width, height)
        }
    } else {
        (width, height)
    }
}

/// `mdhd`: timescale and duration, 32-bit at bytes 12 and 16 (version 0) or a
/// 32-bit timescale at 20 and a 64-bit duration at 24; a body under 24 bytes
/// leaves `(timescale, duration)` as they were.
pub open spec fn mdhd_times(d: Seq<u8>, timescale: u32, duration: u64) -> Result<
    (u32, u64),
    ParseError,
> {
    if d.len() < 24 {
        Ok((timescale, duration))
    } else if d[0] == 0 {
        Ok((be_u32(d, 12), be_u32(d, 16) as u64))
    } else if d.len() >= 32 {
        Ok((be_u32(d, 20), be_u64(d, 24)))
    } else {
        Err(ParseError::UnexpectedEof)
    }
}

/// Parses an `stsz` body into one size per sample.
pub fn parse_stsz(data: &[u8]) -> (r: Result<Vec<u32>, ParseError>)
    ensures
        result_view(r) == stsz_spec(data@),
{
    let len: usize = data.len();
    if len < 12 {
        return Err(ParseError::UnexpectedEof);
    }
    let sample_size: u32 = u32_at(data, 4);
    let count: u32 = u32_at(data, 8);
    let mut sizes: Vec<u32> = Vec::new();
    if sample_size != 0 {
        let mut k: u32 = 0;
        while k < count
            invariant
                k <= count,
                sizes@ =~= Seq::new(k as nat, |j: int| sample_size),
            decreases count - k,
        {
            sizes.push(sample_size);
            k = k + 1;
        }
        Ok(sizes)
    } else if (len - 12) / 4 < count as usize {
        Err(ParseError::UnexpectedEof)
    } else {
        let mut k: usize = 0;
        while k < count as usize
            invariant
                len == data@.len(),
                12 + 4 * count <= len,
                k <= count,
                sizes@ =~= Seq::new(k as nat, |j: int| be_u32(data@, 12 + 4 * j)),
            decreases count - k,
        {
            let v: u32 = u32_at(data, 12 + 4 * k);
            sizes.push(v);
            k = k + 1;
        }
        Ok(sizes)
    }
}

/// `absolute_offset` in executable form.
fn make_absolute(offset: u64, mdat_offset: u64) -> (r: u64)
    requires
        mdat_offset_fits(mdat_offset),
    ensures
        r == absolute_offset(offset, mdat_offset),
{
    if offset < mdat_offset {
        mdat_offset + 8 + offset
    } else {
        offset
    }
}

/// Parses an `stco` body into absolute chunk offsets.
pub fn parse_stco(data: &[u8], mdat_offset: u64) -> (r: Result<Vec<u64>, ParseError>)
    requires
        mdat_offset_fits(mdat_offset),
    ensures
        result_view(r) == stco_spec(data@, mdat_offset),
{
    let len: usize = data.len();
    if len < 8 {
        return Err(ParseError::UnexpectedEof);
    }
    let count: u32 = u32_at(data, 4);
    if (len - 8) / 4 < count as usize {
        return Err(ParseError::UnexpectedEof);
    }
    let mut offsets: Vec<u64> = Vec::new();
    let mut k: usize = 0;
    while k < count as usize
        invariant
            len == data@.len(),
            8 + 4 * count <= len,
            k <= count,
            mdat_offset_fits(mdat_offset),
            offsets@ =~= Seq::new(
                k as nat,
                |j: int| absolute_offset(be_u32(data@, 8 + 4 * j) as u64, mdat_offset),
            ),
        decreases count - k,
    {
        let raw: u32 = u32_at(data, 8 + 4 * k);
        offsets.push(make_absolute(raw as u64, mdat_offset));
        k = k + 1;
    }
    Ok(offsets)
}

/// Parses a `co64` body into absolute chunk offsets.
pub fn parse_co64(data: &[u8], mdat_offset: u64) -> (r: Result<Vec<u64>, ParseError>)
    requires
        mdat_offset_fits(mdat_offset),
    ensures
        result_view(r) == co64_spec(data@, mdat_offset),
{
    let len: usize = data.len();
    if len < 8 {
        return Err(ParseError::UnexpectedEof);
    }
    let count: u32 = u32_at(data, 4);
    if (len - 8) / 8 < count as usize {
        return Err(ParseError::UnexpectedEof);
    }
    let mut offsets: Vec<u64> = Vec::new();
    let mut k: usize = 0;
    while k < count as usize
        invariant
            len == data@.len(),
            8 + 8 * count <= len,
            k <= count,
            mdat_offset_fits(mdat_offset),
            offsets@ =~= Seq::new(
                k as nat,
                |j: int| absolute_offset(be_u64(data@, 8 + 8 * j), mdat_offset),
            ),
        decreases count - k,
    {
        let raw: u64 = u64_at(data, 8 + 8 * k);
        offsets.push(make_absolute(raw, mdat_offset));
        k = k + 1;
    }
    Ok(offsets)
}

/// Parses an `stsc` body into its runs.
pub fn parse_stsc(data: &[u8]) -> (r: Result<Vec<SampleToChunkEntry>, ParseError>)
    ensures
        result_view(r) == stsc_spec(data@),
{
    let len: usize = data.len();
    if len < 8 {
        return Err(ParseError::UnexpectedEof);
    }
    let count: u32 = u32_at(data, 4);
    if (len - 8) / 12 < count as usize {
        return Err(ParseError::UnexpectedEof);
    }
    let mut entries: Vec<SampleToChunkEntry> = Vec::new();
    let mut k: usize = 0;
    while k < count as usize
        invariant
            len == data@.len(),
            8 + 12 * count <= len,
            k <= count,
            entries@ =~= Seq::new(k as nat, |j: int| stsc_entry(data@, j)),
        decreases count - k,
    {
        let entry = SampleToChunkEntry {
            first_chunk: u32_at(data, 8 + 12 * k),
            samples_per_chunk: u32_at(data, 12 + 12 * k),
            sample_description_index: u32_at(data, 16 + 12 * k),
        };
        entries.push(entry);
        k = k + 1;
    }
    Ok(entries)
}

/// Parses an `stts` body into one duration per sample.
pub fn parse_stts(data: &[u8]) -> (r: Result<Vec<u32>, ParseError>)
    ensures
        result_view(r) == stts_spec(data@),
{
    let len: usize = data.len();
    if len < 8 {
        return Err(ParseError::UnexpectedEof);
    }
    let count: u32 = u32_at(data, 4);
    if (len - 8) / 8 < count as usize {
        return Err(ParseError::UnexpectedEof);
    }
    let mut deltas: Vec<u32> = Vec::new();
    let mut k: usize = 0;
    while k < count as usize
        invariant
            len == data@.len(),
            8 + 8 * count <= len,
            k <= count,
            deltas@ =~= stts_expand(data@, k as nat),
        decreases count - k,
    {
        let sample_count: u32 = u32_at(data, 8 + 8 * k);
        let sample_delta: u32 = u32_at(data, 12 + 8 * k);
        let ghost before = deltas@;
        let mut j: u32 = 0;
        while j < sample_count
            invariant
                j <= sample_count,
                deltas@ =~= before + Seq::new(j as nat, |i: int| sample_delta),
            decreases sample_count - j,
        {
            deltas.push(sample_delta);
            j = j + 1;
        }
        k = k + 1;
    }
    Ok(deltas)
}

/// The codec that an `stsd` body names, if it names one.
pub fn parse_stsd(data: &[u8]) -> (r: Option<Vec<u8>>)
    ensures
        r is Some <==> stsd_names_codec(data@),
        r matches Some(c) ==> c@ == data@.subrange(12, 16),
{
    let len: usize = data.len();
    if len >= 28 && u32_at(data, 4) > 0 {
        let mut four: Vec<u8> = Vec::new();
        four.push(data[12]);
        four.push(data[13]);
        four.push(data[14]);
        four.push(data[15]);
        assert(four@ =~= data@.subrange(12, 16));
        Some(four)
    } else {
        None
    }
}

/// The width and height that a `tkhd` body gives, or the ones passed in.
pub fn parse_tkhd(data: &[u8], width: u32, height: u32) -> (r: (u32, u32))
    ensures
        r == tkhd_dimensions(data@, width, height),
{
    let len: usize = data.len();
    if len >= 80 {
        let at: usize = if data[0] == 0 {
            76
        } else {
            84
        };
        if at + 8 <= len {
            let w: u32 = u32_at(data, at);
            let h: u32 = u32_at(data, at + 4);
            assert(w >> 16 == w / 0x1_0000) by (bit_vector);
            assert(h >> 16 == h / 0x1_0000) by (bit_vector);
            (w >> 16, h >> 16)
        } else {
            (width, height)
        }
    } else {
        (width, height)
    }
}

/// The timescale and duration that an `mdhd` body gives, or the ones passed in.
pub fn parse_mdhd(data: &[u8], timescale: u32, duration: u64) -> (r: Result<(u32, u64), ParseError>)
    ensures
        r == mdhd_times(data@, timescale, duration),
{
    let len: usize = data.len();
    if len < 24 {
        Ok((timescale, duration))
    } else if data[0] == 0 {
        Ok((u32_at(data, 12), u32_at(data, 16) as u64))
    } else if len >= 32 {
        Ok((u32_at(data, 20), u64_at(data, 24)))
    } else {
        Err(ParseError::UnexpectedEof)
    }
}

} // verus!
