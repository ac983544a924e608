//! The atom tree of a QuickTime movie: `moov` > `trak` > `mdia` > `minf` >
//! `stbl`, walked to find the first track with a codec and sample sizes.

use crate::bytes::{be_u32, u32_at};
use crate::tables::{
    co64_spec, mdat_offset_fits, mdhd_times, parse_mdhd, parse_tkhd, tkhd_dimensions, parse_co64, parse_stco, parse_stsc, parse_stsd, parse_stsz,
    parse_stts, result_view, stco_spec, stsc_spec, stsd_codec, stsz_spec, stts_spec, ParseError,
    SampleToChunkEntry,
};
use vstd::prelude::*;
use vstd::slice::slice_subrange;

verus! {

/// `moov`, the movie atom.
pub const MOOV: u32 = 0x6d6f_6f76;
/// `mdat`, the media data atom.
pub const MDAT: u32 = 0x6d64_6174;
/// `trak`, a track.
pub const TRAK: u32 = 0x7472_616b;
/// `tkhd`, the track header.
pub const TKHD: u32 = 0x746b_6864;
/// `mdia`, a track's media.
pub const MDIA: u32 = 0x6d64_6961;
/// `mdhd`, the media header.
pub const MDHD: u32 = 0x6d64_6864;
/// `minf`, the media information.
pub const MINF: u32 = 0x6d69_6e66;
/// `stbl`, the sample table.
pub const STBL: u32 = 0x7374_626c;
/// `stsd`, the sample descriptions.
pub const STSD: u32 = 0x7374_7364;
/// `stsz`, the sample sizes.
pub const STSZ: u32 = 0x7374_737a;
/// `stco`, 32-bit chunk offsets.
pub const STCO: u32 = 0x7374_636f;
/// `co64`, 64-bit chunk offsets.
pub const CO64: u32 = 0x636f_3634;
/// `stsc`, the sample-to-chunk runs.
pub const STSC: u32 = 0x7374_7363;
/// `stts`, the sample durations.
pub const STTS: u32 = 0x7374_7473;

/// The size of the atom whose header starts at `pos`, when a walk over the
/// atoms of a container goes on there: at least 8 bytes remain, and the
/// declared size is neither 0 nor larger than what remains.
pub open spec fn atom_at(d: Seq<u8>, pos: int) -> Option<nat> {
    if 0 <= pos && pos + 8 <= d.len() && be_u32(d, pos) != 0 && be_u32(d, pos) <= d.len() - pos {
        Some(be_u32(d, pos) as nat)
    } else {
        None
    }
}

/// The type of the atom whose header starts at `pos`.
pub open spec fn atom_kind(d: Seq<u8>, pos: int) -> u32 {
    be_u32(d, pos + 4)
}

/// The body of the atom of size `size` whose header starts at `pos`.
pub open spec fn atom_body(d: Seq<u8>, pos: int, size: nat) -> Seq<u8> {
    d.subrange(pos + 8, pos + size)
}

/// `atom_at` in executable form.
fn next_atom(data: &[u8], pos: usize) -> (r: Option<usize>)
    ensures
        r matches Some(size) ==> atom_at(data@, pos as int) == Some(size as nat),
        r is None ==> atom_at(data@, pos as int) is None,
{
    let len: usize = data.len();
    if pos >= len || len - pos < 8 {
        return None;
    }
    let size: u32 = u32_at(data, pos);
    if size == 0 || size as usize > len - pos {
        None
    } else {
        Some(size as usize)
    }
}

/// What the media atoms of a track give: its sample tables, timescale,
/// duration and codec (empty when none was named).
pub struct MediaInfo {
    pub sample_sizes: Vec<u32>,
    pub chunk_offsets: Vec<u64>,
    pub sample_to_chunk: Vec<SampleToChunkEntry>,
    pub sample_deltas: Vec<u32>,
    pub timescale: u32,
    pub duration: u64,
    pub codec_type: Vec<u8>,
}

/// `MediaInfo` as plain sequences.
pub struct MediaView {
    pub sample_sizes: Seq<u32>,
    pub chunk_offsets: Seq<u64>,
    pub sample_to_chunk: Seq<SampleToChunkEntry>,
    pub sample_deltas: Seq<u32>,
    pub timescale: u32,
    pub duration: u64,
    pub codec_type: Seq<u8>,
}

impl View for MediaInfo {
    type V = MediaView;

    open spec fn view(&self) -> MediaView {
        MediaView {
            sample_sizes: self.sample_sizes@,
            chunk_offsets: self.chunk_offsets@,
            sample_to_chunk: self.sample_to_chunk@,
            sample_deltas: self.sample_deltas@,
            timescale: self.timescale,
            duration: self.duration,
            codec_type: self.codec_type@,
        }
    }
}

/// No tables, no codec, timescale and duration 0.
pub open spec fn empty_media() -> MediaView {
    MediaView {
        sample_sizes: Seq::empty(),
        chunk_offsets: Seq::empty(),
        sample_to_chunk: Seq::empty(),
        sample_deltas: Seq::empty(),
        timescale: 0,
        duration: 0,
        codec_type: Seq::empty(),
    }
}

fn new_media() -> (m: MediaInfo)
    ensures
        m@ == empty_media(),
{
    MediaInfo {
        sample_sizes: Vec::new(),
        chunk_offsets: Vec::new(),
        sample_to_chunk: Vec::new(),
        sample_deltas: Vec::new(),
        timescale: 0,
        duration: 0,
        codec_type: Vec::new(),
    }
}

/// The effect of one child atom of `stbl` on what has been read so far.
pub open spec fn stbl_step(kind: u32, body: Seq<u8>, mdat_offset: u64, m: MediaView) -> Result<
    MediaView,
    ParseError,
> {
    if kind == STSD {
        Ok(MediaView { codec_type: stsd_codec(body, m.codec_type), ..m })
    } else if kind == STSZ {
        match stsz_spec(body) {
            Ok(s) => Ok(MediaView { sample_sizes: s, ..m }),
            Err(e) => Err(e),
        }
    } else if kind == STCO {
        match stco_spec(body, mdat_offset) {
            Ok(s) => Ok(MediaView { chunk_offsets: s, ..m }),
            Err(e) => Err(e),
        }
    } else if kind == CO64 {
        match co64_spec(body, mdat_offset) {
            Ok(s) => Ok(MediaView { chunk_offsets: s, ..m }),
            Err(e) => Err(e),
        }
    } else if kind == STSC {
        match stsc_spec(body) {
            Ok(s) => Ok(MediaView { sample_to_chunk: s, ..m }),
            Err(e) => Err(e),
        }
    } else if kind == STTS {
        match stts_spec(body) {
            Ok(s) => Ok(MediaView { sample_deltas: s, ..m }),
            Err(e) => Err(e),
        }
    } else {
        Ok(m)
    }
}

/// The walk over the children of an `stbl` body from `pos` on.
pub open spec fn stbl_walk(d: Seq<u8>, pos: int, mdat_offset: u64, m: MediaView) -> Result<
    MediaView,
    ParseError,
>
    decreases d.len() - pos,
{
    match atom_at(d, pos) {
        None => Ok(m),
        Some(size) => if size < 8 {
            Err(ParseError::AtomTooShort)
        } else {
            match stbl_step(atom_kind(d, pos), atom_body(d, pos, size), mdat_offset, m) {
                Ok(next) => stbl_walk(d, pos + size, mdat_offset, next),
                Err(e) => Err(e),
            }
        },
    }
}

/// What an `stbl` body gives.
pub open spec fn stbl_spec(d: Seq<u8>, mdat_offset: u64) -> Result<MediaView, ParseError> {
    stbl_walk(d, 0, mdat_offset, empty_media())
}

/// Parses an `stbl` body: the last of each kind of table wins.
pub(crate) fn parse_stbl(data: &[u8], mdat_offset: u64) -> (r: Result<MediaInfo, ParseError>)
    requires
        mdat_offset_fits(mdat_offset),
    ensures
        result_view(r) == stbl_spec(data@, mdat_offset),
{
    let mut info = new_media();
    let mut pos: usize = 0;
    loop
        invariant
            pos <= data@.len(),
            mdat_offset_fits(mdat_offset),
            stbl_walk(data@, pos as int, mdat_offset, info@) == stbl_spec(data@, mdat_offset),
        decreases data@.len() - pos,
    {
        match next_atom(data, pos) {
            None => {
                return Ok(info);
            },
            Some(size) => {
                if size < 8 {
                    return Err(ParseError::AtomTooShort);
                }
                let len: usize = data.len();
                assert(pos + size <= len);
                let body = slice_subrange(data, pos + 8, pos + size);
                let kind: u32 = u32_at(data, pos + 4);
                let ghost before = info@;
                if kind == STSD {
                    match parse_stsd(body) {
                        Some(c) => {
                            info.codec_type = c;
                        },
                        None => {},
                    }
                } else if kind == STSZ {
                    match parse_stsz(body) {
                        Ok(v) => {
                            info.sample_sizes = v;
                        },
                        Err(e) => {
                            return Err(e);
                        },
                    }
                } else if kind == STCO {
                    match parse_stco(body, mdat_offset) {
                        Ok(v) => {
                            info.chunk_offsets = v;
                        },
                        Err(e) => {
                            return Err(e);
                        },
                    }
                } else if kind == CO64 {
                    match parse_co64(body, mdat_offset) {
                        Ok(v) => {
                            info.chunk_offsets = v;
                        },
                        Err(e) => {
                            return Err(e);
                        },
                    }
                } else if kind == STSC {
                    match parse_stsc(body) {
                        Ok(v) => {
                            info.sample_to_chunk = v;
                        },
                        Err(e) => {
                            return Err(e);
                        },
                    }
                } else if kind == STTS {
                    match parse_stts(body) {
                        Ok(v) => {
                            info.sample_deltas = v;
                        },
                        Err(e) => {
                            return Err(e);
                        },
                    }
                }
                assert(stbl_step(kind, body@, mdat_offset, before) == Ok::<MediaView, ParseError>(
                    info@,
                ));
                pos = pos + size;
            },
        }
    }
}

/// The effect of one child atom of `minf`: an `stbl` replaces the tables and
/// the codec.
pub open spec fn minf_step(kind: u32, body: Seq<u8>, mdat_offset: u64, m: MediaView) -> Result<
    MediaView,
    ParseError,
> {
    if kind == STBL {
        match stbl_spec(body, mdat_offset) {
            Ok(t) => Ok(
                MediaView {
                    sample_sizes: t.sample_sizes,
                    chunk_offsets: t.chunk_offsets,
                    sample_to_chunk: t.sample_to_chunk,
                    sample_deltas: t.sample_deltas,
                    codec_type: t.codec_type,
                    ..m
                },
            ),
            Err(e) => Err(e),
        }
    } else {
        Ok(m)
    }
}

/// The walk over the children of a `minf` body from `pos` on.
pub open spec fn minf_walk(d: Seq<u8>, pos: int, mdat_offset: u64, m: MediaView) -> Result<
    MediaView,
    ParseError,
>
    decreases d.len() - pos,
{
    match atom_at(d, pos) {
        None => Ok(m),
        Some(size) => if size < 8 {
            Err(ParseError::AtomTooShort)
        } else {
            match minf_step(atom_kind(d, pos), atom_body(d, pos, size), mdat_offset, m) {
                Ok(next) => minf_walk(d, pos + size, mdat_offset, next),
                Err(e) => Err(e),
            }
        },
    }
}

/// What a `minf` body gives (timescale and duration stay 0).
pub open spec fn minf_spec(d: Seq<u8>, mdat_offset: u64) -> Result<MediaView, ParseError> {
    minf_walk(d, 0, mdat_offset, empty_media())
}

/// Parses a `minf` body: the last `stbl` wins.
pub(crate) fn parse_minf(data: &[u8], mdat_offset: u64) -> (r: Result<MediaInfo, ParseError>)
    requires
        mdat_offset_fits(mdat_offset),
    ensures
        result_view(r) == minf_spec(data@, mdat_offset),
{
    let mut info = new_media();
    let mut pos: usize = 0;
    loop
        invariant
            pos <= data@.len(),
            mdat_offset_fits(mdat_offset),
            minf_walk(data@, pos as int, mdat_offset, info@) == minf_spec(data@, mdat_offset),
        decreases data@.len() - pos,
    {
        match next_atom(data, pos) {
            None => {
                return Ok(info);
            },
            Some(size) => {
                if size < 8 {
                    return Err(ParseError::AtomTooShort);
                }
                let len: usize = data.len();
                assert(pos + size <= len);
                let body = slice_subrange(data, pos + 8, pos + size);
                let kind: u32 = u32_at(data, pos + 4);
                let ghost before = info@;
                if kind == STBL {
                    match parse_stbl(body, mdat_offset) {
                        Ok(t) => {
                            let MediaInfo {
                                sample_sizes,
                                chunk_offsets,
                                sample_to_chunk,
                                sample_deltas,
                                timescale: _,
                                duration: _,
                                codec_type,
                            } = t;
                            info.sample_sizes = sample_sizes;
                            info.chunk_offsets = chunk_offsets;
                            info.sample_to_chunk = sample_to_chunk;
                            info.sample_deltas = sample_deltas;
                            info.codec_type = codec_type;
                        },
                        Err(e) => {
                            return Err(e);
                        },
                    }
                }
                assert(minf_step(kind, body@, mdat_offset, before) == Ok::<MediaView, ParseError>(
                    info@,
                ));
                pos = pos + size;
            },
        }
    }
}

/// The effect of one child atom of `mdia`: an `mdhd` sets timescale and
/// duration, a `minf` replaces the tables and the codec.
pub open spec fn mdia_step(kind: u32, body: Seq<u8>, mdat_offset: u64, m: MediaView) -> Result<
    MediaView,
    ParseError,
> {
    if kind == MDHD {
        match mdhd_times(body, m.timescale, m.duration) {
            Ok((timescale, duration)) => Ok(MediaView { timescale, duration, ..m }),
            Err(e) => Err(e),
        }
    } else if kind == MINF {
        match minf_spec(body, mdat_offset) {
            Ok(t) => Ok(
                MediaView {
                    sample_sizes: t.sample_sizes,
                    chunk_offsets: t.chunk_offsets,
                    sample_to_chunk: t.sample_to_chunk,
                    sample_deltas: t.sample_deltas,
                    codec_type: t.codec_type,
                    ..m
                },
            ),
            Err(e) => Err(e),
        }
    } else {
        Ok(m)
    }
}

/// The walk over the children of an `mdia` body from `pos` on.
pub open spec fn mdia_walk(d: Seq<u8>, pos: int, mdat_offset: u64, m: MediaView) -> Result<
    MediaView,
    ParseError,
>
    decreases d.len() - pos,
{
    match atom_at(d, pos) {
        None => Ok(m),
        Some(size) => if size < 8 {
            Err(ParseError::AtomTooShort)
        } else {
            match mdia_step(atom_kind(d, pos), atom_body(d, pos, size), mdat_offset, m) {
                Ok(next) => mdia_walk(d, pos + size, mdat_offset, next),
                Err(e) => Err(e),
            }
        },
    }
}

/// What an `mdia` body gives.
pub open spec fn mdia_spec(d: Seq<u8>, mdat_offset: u64) -> Result<MediaView, ParseError> {
    mdia_walk(d, 0, mdat_offset, empty_media())
}

/// Parses an `mdia` body.
pub(crate) fn parse_mdia(data: &[u8], mdat_offset: u64) -> (r: Result<MediaInfo, ParseError>)
    requires
        mdat_offset_fits(mdat_offset),
    ensures
        result_view(r) == mdia_spec(data@, mdat_offset),
{
    let mut info = new_media();
    let mut pos: usize = 0;
    loop
        invariant
            pos <= data@.len(),
            mdat_offset_fits(mdat_offset),
            mdia_walk(data@, pos as int, mdat_offset, info@) == mdia_spec(data@, mdat_offset),
        decreases data@.len() - pos,
    {
        match next_atom(data, pos) {
            None => {
                return Ok(info);
            },
            Some(size) => {
                if size < 8 {
                    return Err(ParseError::AtomTooShort);
                }
                let len: usize = data.len();
                assert(pos + size <= len);
                let body = slice_subrange(data, pos + 8, pos + size);
                let kind: u32 = u32_at(data, pos + 4);
                let ghost before = info@;
                if kind == MDHD {
                    match parse_mdhd(body, info.timescale, info.duration) {
                        Ok((timescale, duration)) => {
                            info.timescale = timescale;
                            info.duration = duration;
                        },
                        Err(e) => {
                            return Err(e);
                        },
                    }
                } else if kind == MINF {
                    match parse_minf(body, mdat_offset) {
                        Ok(t) => {
                            let MediaInfo {
                                sample_sizes,
                                chunk_offsets,
                                sample_to_chunk,
                                sample_deltas,
                                timescale: _,
                                duration: _,
                                codec_type,
                            } = t;
                            info.sample_sizes = sample_sizes;
                            info.chunk_offsets = chunk_offsets;
                            info.sample_to_chunk = sample_to_chunk;
                            info.sample_deltas = sample_deltas;
                            info.codec_type = codec_type;
                        },
                        Err(e) => {
                            return Err(e);
                        },
                    }
                }
                assert(mdia_step(kind, body@, mdat_offset, before) == Ok::<MediaView, ParseError>(
                    info@,
                ));
                pos = pos + size;
            },
        }
    }
}

/// The video track that a movie is played from.
pub struct VideoTrack {
    pub width: u32,
    pub height: u32,
    pub frame_count: u32,
    pub timescale: u32,
    pub duration: u64,
    pub sample_sizes: Vec<u32>,
    pub chunk_offsets: Vec<u64>,
    pub sample_to_chunk: Vec<SampleToChunkEntry>,
    pub sample_deltas: Vec<u32>,
    /// The four bytes of the codec's type, such as `Hap1`.
    pub codec_type: Vec<u8>,
}

/// `VideoTrack` as plain sequences.
pub struct TrackView {
    pub width: u32,
    pub height: u32,
    pub frame_count: u32,
    pub timescale: u32,
    pub duration: u64,
    pub sample_sizes: Seq<u32>,
    pub chunk_offsets: Seq<u64>,
    pub sample_to_chunk: Seq<SampleToChunkEntry>,
    pub sample_deltas: Seq<u32>,
    pub codec_type: Seq<u8>,
}

impl View for VideoTrack {
    type V = TrackView;

    open spec fn view(&self) -> TrackView {
        TrackView {
            width: self.width,
            height: self.height,
            frame_count: self.frame_count,
            timescale: self.timescale,
            duration: self.duration,
            sample_sizes: self.sample_sizes@,
            chunk_offsets: self.chunk_offsets@,
            sample_to_chunk: self.sample_to_chunk@,
            sample_deltas: self.sample_deltas@,
            codec_type: self.codec_type@,
        }
    }
}

/// What the children of a `trak` have given so far.
pub struct TrakState {
    pub width: u32,
    pub height: u32,
    pub media: MediaView,
}

/// The effect of one child atom of `trak`: a `tkhd` sets the dimensions, an
/// `mdia` replaces all media information.
pub open spec fn trak_step(kind: u32, body: Seq<u8>, mdat_offset: u64, t: TrakState) -> Result<
    TrakState,
    ParseError,
> {
    if kind == TKHD {
        let (width, height) = tkhd_dimensions(body, t.width, t.height);
        Ok(TrakState { width, height, media: t.media })
    } else if kind == MDIA {
        match mdia_spec(body, mdat_offset) {
            Ok(m) => Ok(TrakState { width: t.width, height: t.height, media: m }),
            Err(e) => Err(e),
        }
    } else {
        Ok(t)
    }
}

/// The walk over the children of a `trak` body from `pos` on.
pub open spec fn trak_walk(d: Seq<u8>, pos: int, mdat_offset: u64, t: TrakState) -> Result<
    TrakState,
    ParseError,
>
    decreases d.len() - pos,
{
    match atom_at(d, pos) {
        None => Ok(t),
        Some(size) => if size < 8 {
            Err(ParseError::AtomTooShort)
        } else {
            match trak_step(atom_kind(d, pos), atom_body(d, pos, size), mdat_offset, t) {
                Ok(next) => trak_walk(d, pos + size, mdat_offset, next),
                Err(e) => Err(e),
            }
        },
    }
}

/// The track that a finished `trak` walk describes.
pub open spec fn track_of(t: TrakState) -> TrackView {
    TrackView {
        width: t.width,
        height: t.height,
        frame_count: t.media.sample_sizes.len() as u32,
        timescale: t.media.timescale,
        duration: t.media.duration,
        sample_sizes: t.media.sample_sizes,
        chunk_offsets: t.media.chunk_offsets,
        sample_to_chunk: t.media.sample_to_chunk,
        sample_deltas: t.media.sample_deltas,
        codec_type: t.media.codec_type,
    }
}

/// What a `trak` body gives: a track when it names a codec and has sample
/// sizes, none otherwise.
pub open spec fn trak_spec(d: Seq<u8>, mdat_offset: u64) -> Result<Option<TrackView>, ParseError> {
    match trak_walk(d, 0, mdat_offset, TrakState { width: 0, height: 0, media: empty_media() }) {
        Ok(t) => if t.media.codec_type.len() == 0 || t.media.sample_sizes.len() == 0 {
            Ok(None)
        } else {
            Ok(Some(track_of(t)))
        },
        Err(e) => Err(e),
    }
}

/// A result holding an optional track, taken by its view.
pub open spec fn track_result_view(r: Result<Option<VideoTrack>, ParseError>) -> Result<
    Option<TrackView>,
    ParseError,
> {
    match r {
        Ok(Some(t)) => Ok(Some(t@)),
        Ok(None) => Ok(None),
        Err(e) => Err(e),
    }
}

/// Parses a `trak` body.
pub(crate) fn parse_trak(data: &[u8], mdat_offset: u64) -> (r: Result<Option<VideoTrack>, ParseError>)
    requires
        mdat_offset_fits(mdat_offset),
    ensures
        track_result_view(r) == trak_spec(data@, mdat_offset),
{
    let mut width: u32 = 0;
    let mut height: u32 = 0;
    let mut info = new_media();
    let mut pos: usize = 0;
    loop
        invariant
            pos <= data@.len(),
            mdat_offset_fits(mdat_offset),
            trak_walk(data@, pos as int, mdat_offset, TrakState { width, height, media: info@ })
                == trak_walk(
                data@,
                0,
                mdat_offset,
                TrakState { width: 0, height: 0, media: empty_media() },
            ),
        ensures
            trak_walk(data@, 0, mdat_offset, TrakState { width: 0, height: 0, media: empty_media() })
                == Ok::<TrakState, ParseError>(TrakState { width, height, media: info@ }),
        decreases data@.len() - pos,
    {
        match next_atom(data, pos) {
            None => {
                break ;
            },
            Some(size) => {
                if size < 8 {
                    return Err(ParseError::AtomTooShort);
                }
                let len: usize = data.len();
                assert(pos + size <= len);
                let body = slice_subrange(data, pos + 8, pos + size);
                let kind: u32 = u32_at(data, pos + 4);
                let ghost before = TrakState { width, height, media: info@ };
                if kind == TKHD {
                    let (w, h) = parse_tkhd(body, width, height);
                    width = w;
                    height = h;
                } else if kind == MDIA {
                    match parse_mdia(body, mdat_offset) {
                        Ok(m) => {
                            info = m;
                        },
                        Err(e) => {
                            return Err(e);
                        },
                    }
                }
                assert(trak_step(kind, body@, mdat_offset, before) == Ok::<TrakState, ParseError>(
                    TrakState { width, height, media: info@ },
                ));
                pos = pos + size;
            },
        }
    }
    if info.codec_type.len() == 0 || info.sample_sizes.len() == 0 {
        return Ok(None);
    }
    let frame_count: u32 = #[verifier::truncate] (info.sample_sizes.len() as u32);
    let MediaInfo {
        sample_sizes,
        chunk_offsets,
        sample_to_chunk,
        sample_deltas,
        timescale,
        duration,
        codec_type,
    } = info;
    Ok(
        Some(
            VideoTrack {
                width,
                height,
                frame_count,
                timescale,
                duration,
                sample_sizes,
                chunk_offsets,
                sample_to_chunk,
                sample_deltas,
                codec_type,
            },
        ),
    )
}

/// The walk over the children of a `moov` body from `pos` on: the first
/// `trak` that gives a track is the answer; a `trak` that fails or gives none
/// is passed over.
pub open spec fn moov_walk(d: Seq<u8>, pos: int, mdat_offset: u64) -> Result<TrackView, ParseError>
    decreases d.len() - pos,
{
    match atom_at(d, pos) {
        None => Err(ParseError::NoHapTrack),
        Some(size) => if size < 8 {
            Err(ParseError::AtomTooShort)
        } else if atom_kind(d, pos) == TRAK {
            match trak_spec(atom_body(d, pos, size), mdat_offset) {
                Ok(Some(t)) => Ok(t),
                Err(ParseError::AtomTooShort) => Err(ParseError::AtomTooShort),
                _ => moov_walk(d, pos + size, mdat_offset),
            }
        } else {
            moov_walk(d, pos + size, mdat_offset)
        },
    }
}

proof fn lemma_atom_unchanged_by_what_follows(d: Seq<u8>, rest: Seq<u8>, pos: int)
    requires
        atom_at(d, pos) is Some,
    ensures
        atom_at(d + rest, pos) == atom_at(d, pos),
        atom_kind(d + rest, pos) == atom_kind(d, pos),
        atom_at(d, pos)->0 >= 8 ==> atom_body(d + rest, pos, atom_at(d, pos)->0) == atom_body(
            d,
            pos,
            atom_at(d, pos)->0,
        ),
{
    let e = d + rest;
    let size = atom_at(d, pos)->0;
    assert(e[pos] == d[pos] && e[pos + 1] == d[pos + 1] && e[pos + 2] == d[pos + 2] && e[pos + 3]
        == d[pos + 3]);
    assert(e[pos + 4] == d[pos + 4] && e[pos + 5] == d[pos + 5] && e[pos + 6] == d[pos + 6] && e[pos
        + 7] == d[pos + 7]);
    assert(be_u32(e, pos) == be_u32(d, pos));
    if size >= 8 {
        assert(atom_body(e, pos, size) =~= atom_body(d, pos, size));
    }
}

proof fn lemma_moov_walk_from_unchanged(d: Seq<u8>, rest: Seq<u8>, pos: int, mdat_offset: u64)
    requires
        moov_walk(d, pos, mdat_offset) is Ok,
    ensures
        moov_walk(d + rest, pos, mdat_offset) == moov_walk(d, pos, mdat_offset),
    decreases d.len() - pos,
{
    let size = atom_at(d, pos)->0;
    lemma_atom_unchanged_by_what_follows(d, rest, pos);
    if size >= 8 {
        let body = atom_body(d, pos, size);
        let found = atom_kind(d, pos) == TRAK && trak_spec(body, mdat_offset) matches Ok(Some(_));
        if !found {
            lemma_moov_walk_from_unchanged(d, rest, pos + size, mdat_offset);
        }
    }
}

/// A `trak` that gives a track (a codec and sample sizes) is the one opened
/// when the walk over a `moov` body reaches it: the atoms after it are not
/// read.
pub proof fn lemma_first_usable_trak_is_opened(
    d: Seq<u8>,
    pos: int,
    mdat_offset: u64,
    t: TrackView,
)
    requires
        atom_at(d, pos) matches Some(size) && size >= 8 && atom_kind(d, pos) == TRAK && trak_spec(
            atom_body(d, pos, size),
            mdat_offset,
        ) == Ok::<Option<TrackView>, ParseError>(Some(t)),
    ensures
        moov_walk(d, pos, mdat_offset) == Ok::<TrackView, ParseError>(t),
{
}

/// Once a `moov` body gives a track, whatever follows it, further `trak`s
/// that give tracks of their own among it, leaves the opened track as it
/// is: the first usable track in file order is the one opened.
pub proof fn lemma_later_atoms_keep_the_opened_track(d: Seq<u8>, rest: Seq<u8>, mdat_offset: u64)
    requires
        moov_walk(d, 0, mdat_offset) is Ok,
    ensures
        moov_walk(d + rest, 0, mdat_offset) == moov_walk(d, 0, mdat_offset),
{
    lemma_moov_walk_from_unchanged(d, rest, 0, mdat_offset);
}

/// Parses a `moov` body: the first track with a codec and sample sizes.
pub(crate) fn parse_moov(data: &[u8], mdat_offset: u64) -> (r: Result<VideoTrack, ParseError>)
    requires
        mdat_offset_fits(mdat_offset),
    ensures
        result_view(r) == moov_walk(data@, 0, mdat_offset),
{
    let mut pos: usize = 0;
    loop
        invariant
            pos <= data@.len(),
            mdat_offset_fits(mdat_offset),
            moov_walk(data@, pos as int, mdat_offset) == moov_walk(data@, 0, mdat_offset),
        decreases data@.len() - pos,
    {
        match next_atom(data, pos) {
            None => {
                return Err(ParseError::NoHapTrack);
            },
            Some(size) => {
                if size < 8 {
                    return Err(ParseError::AtomTooShort);
                }
                let len: usize = data.len();
                assert(pos + size <= len);
                let kind: u32 = u32_at(data, pos + 4);
                if kind == TRAK {
                    let body = slice_subrange(data, pos + 8, pos + size);
                    match parse_trak(body, mdat_offset) {
                        Ok(Some(track)) => {
                            return Ok(track);
                        },
                        Err(ParseError::AtomTooShort) => {
                            return Err(ParseError::AtomTooShort);
                        },
                        _ => {},
                    }
                }
                pos = pos + size;
            },
        }
    }
}

proof fn lemma_moov_walk_usable(d: Seq<u8>, pos: int, mdat_offset: u64)
    ensures
        moov_walk(d, pos, mdat_offset) matches Ok(t) ==> t.codec_type.len() > 0
            && t.sample_sizes.len() > 0 && t.frame_count == t.sample_sizes.len() as u32,
    decreases d.len() - pos,
{
    if let Some(size) = atom_at(d, pos) {
        if size >= 8 {
            lemma_moov_walk_usable(d, pos + size, mdat_offset);
        }
    }
}

/// A movie opens only on a track that names a codec and has samples, and
/// its frame count is its number of sample sizes (kept to 32 bits).
pub proof fn lemma_opened_track_is_usable(d: Seq<u8>)
    ensures
        movie_spec(d) matches Ok(t) ==> t.codec_type.len() > 0 && t.sample_sizes.len() > 0
            && t.frame_count == t.sample_sizes.len() as u32,
{
    if let Ok((moov, mdat)) = top_walk(d, 0, None, None) {
        if let (Some((start, end)), Some(m)) = (moov, mdat) {
            lemma_moov_walk_usable(d.subrange(start, end), 0, m);
        }
    }
}

/// The byte range of the body of the last top-level `moov`, if any.
pub open spec fn span(r: Option<(usize, usize)>) -> Option<(int, int)> {
    match r {
        Some((start, end)) => Some((start as int, end as int)),
        None => None,
    }
}

/// The walk over the top-level atoms of a file from `pos` on, remembering
/// the body of the last `moov` and the position of the last `mdat`. Unlike
/// the walks inside atoms, a header cut short by the end of the file is an
/// error.
pub open spec fn top_walk(
    d: Seq<u8>,
    pos: int,
    moov: Option<(int, int)>,
    mdat: Option<u64>,
) -> Result<(Option<(int, int)>, Option<u64>), ParseError>
    decreases d.len() - pos,
{
    if pos < 0 || pos >= d.len() {
        Ok((moov, mdat))
    } else if d.len() - pos < 8 {
        Err(ParseError::UnexpectedEof)
    } else {
        let size = be_u32(d, pos);
        let kind = atom_kind(d, pos);
        if size == 0 || size > d.len() - pos {
            Ok((moov, mdat))
        } else if kind == MOOV && size < 8 {
            Err(ParseError::AtomTooShort)
        } else {
            top_walk(
                d,
                pos + size,
                if kind == MOOV {
                    Some((pos + 8, pos + size))
                } else {
                    moov
                },
                if kind == MDAT {
                    Some(pos as u64)
                } else {
                    mdat
                },
            )
        }
    }
}

/// What a whole QuickTime file gives: the first usable track of its last
/// `moov`, with chunk offsets made absolute against its last `mdat`.
pub open spec fn movie_spec(d: Seq<u8>) -> Result<TrackView, ParseError> {
    match top_walk(d, 0, None, None) {
        Err(e) => Err(e),
        Ok((moov, mdat)) => match moov {
            None => Err(ParseError::NoMoovAtom),
            Some((start, end)) => match mdat {
                None => Err(ParseError::NoMdatAtom),
                Some(m) => moov_walk(d.subrange(start, end), 0, m),
            },
        },
    }
}

/// The largest file that the chunk-offset arithmetic admits: 2^63 - 16 bytes,
/// just under the `isize::MAX` bytes that Rust can allocate at all.
pub open spec fn file_size_fits(len: nat) -> bool {
    len <= 0x7fff_ffff_ffff_fff0
}

/// Walks a whole QuickTime file to its video track; an atom shorter than
/// its header gives `AtomTooShort`.
pub(crate) fn walk_movie(data: &[u8]) -> (r: Result<VideoTrack, ParseError>)
    requires
        file_size_fits(data@.len()),
    ensures
        result_view(r) == movie_spec(data@),
{
    let len: usize = data.len();
    let mut pos: usize = 0;
    let mut moov: Option<(usize, usize)> = None;
    let mut mdat: Option<u64> = None;
    loop
        invariant
            len == data@.len(),
            file_size_fits(data@.len()),
            pos <= len,
            moov matches Some((start, end)) ==> start <= end <= len,
            mdat matches Some(m) ==> m < len,
            top_walk(data@, pos as int, span(moov), mdat) == top_walk(data@, 0, None, None),
        ensures
            top_walk(data@, 0, None, None) == Ok::<_, ParseError>((span(moov), mdat)),
            moov matches Some((start, end)) ==> start <= end <= len,
            mdat matches Some(m) ==> m < len,
        decreases len - pos,
    {
        if pos >= len {
            break ;
        }
        if len - pos < 8 {
            return Err(ParseError::UnexpectedEof);
        }
        let size: usize = u32_at(data, pos) as usize;
        let kind: u32 = u32_at(data, pos + 4);
        if size == 0 || size > len - pos {
            break ;
        }
        if kind == MOOV {
            if size < 8 {
                return Err(ParseError::AtomTooShort);
            }
            moov = Some((pos + 8, pos + size));
        }
        if kind == MDAT {
            mdat = Some(pos as u64);
        }
        pos = pos + size;
    }
    match moov {
        None => Err(ParseError::NoMoovAtom),
        Some((start, end)) => match mdat {
            None => Err(ParseError::NoMdatAtom),
            Some(m) => {
                let body = slice_subrange(data, start, end);
                parse_moov(body, m)
            },
        },
    }
}

/// Whether a file can be parsed: no atom that the parser reads declares a
/// size below its own 8-byte header.
pub open spec fn movie_layout_sound(data: Seq<u8>) -> bool {
    movie_spec(data) != Err::<TrackView, ParseError>(ParseError::AtomTooShort)
}

/// Whether `parse_movie` (and `WebHapReader::new`) can be asked to read `data`.
pub fn movie_layout_is_sound(data: &[u8]) -> (b: bool)
    requires
        file_size_fits(data@.len()),
    ensures
        b == movie_layout_sound(data@),
{
    match walk_movie(data) {
        Err(ParseError::AtomTooShort) => false,
        _ => true,
    }
}

/// Whether a file of `len` bytes is within `file_size_fits`.
pub fn file_size_admitted(len: usize) -> (b: bool)
    ensures
        b == file_size_fits(len as nat),
{
    len as u64 <= 0x7fff_ffff_ffff_fff0
}

/// Parses a whole QuickTime file into its video track.
pub fn parse_movie(data: &[u8]) -> (r: Result<VideoTrack, ParseError>)
    requires
        file_size_fits(data@.len()),
        movie_layout_sound(data@),
    ensures
        result_view(r) == movie_spec(data@),
{
    walk_movie(data)
}

} // verus!
