//! An opened HAP movie: frame lookup through the sample tables, and frames
//! decoded into GPU texture data.

use crate::hapframe::{frame_fits, hap_frame_fits};
use crate::movie::{file_size_fits, movie_layout_sound, movie_spec, parse_movie, TrackView, VideoTrack};
use crate::tables::{ParseError, SampleToChunkEntry};
use vstd::prelude::*;
use vstd::slice::slice_subrange;
use vstd::utf8::{decode_utf8, valid_utf8};

verus! {

/// The texture formats that a HAP frame can carry.
#[derive(Debug, Clone, Copy, PartialEq, Eq, Structural)]
pub enum TextureKind {
    RgbDxt1,
    RgbaDxt5,
    YcoCgDxt5,
    AlphaRgtc1,
    RgbaBc7,
    RgbBc6hUfloat,
    RgbBc6hSfloat,
}

/// The codes by which `hap_parser` numbers its texture formats.
pub open spec fn is_texture_code(code: u32) -> bool {
    code == 0x83F0 || code == 0x83F3 || code == 0x01 || code == 0x8DBB || code == 0x8E8C || code
        == 0x8E8F || code == 0x8E8E
}

/// The texture format that a `hap_parser` code stands for.
pub open spec fn texture_of_code(code: u32) -> TextureKind {
    if code == 0x83F0 {
        TextureKind::RgbDxt1
    } else if code == 0x83F3 {
        TextureKind::RgbaDxt5
    } else if code == 0x01 {
        TextureKind::YcoCgDxt5
    } else if code == 0x8DBB {
        TextureKind::AlphaRgtc1
    } else if code == 0x8E8C {
        TextureKind::RgbaBc7
    } else if code == 0x8E8F {
        TextureKind::RgbBc6hUfloat
    } else {
        TextureKind::RgbBc6hSfloat
    }
}

/// The WebGL constant under which a texture format is uploaded: DXT1 as
/// `COMPRESSED_RGBA_S3TC_DXT1_EXT`, alpha-only as `COMPRESSED_RED_RGTC1_EXT`,
/// everything else as `COMPRESSED_RGBA_S3TC_DXT5_EXT` (YCoCg needs a shader pass).
pub open spec fn webgl_format_of(kind: TextureKind) -> u32 {
    match kind {
        TextureKind::RgbDxt1 => 0x83F1,
        TextureKind::RgbaDxt5 => 0x83F3,
        TextureKind::YcoCgDxt5 => 0x83F3,
        TextureKind::AlphaRgtc1 => 0x8DBB,
        _ => 0x83F3,
    }
}

/// The name under which a texture format is reported.
pub open spec fn texture_name(kind: TextureKind) -> Seq<char> {
    match kind {
        TextureKind::RgbDxt1 => "RgbDxt1"@,
        TextureKind::RgbaDxt5 => "RgbaDxt5"@,
        TextureKind::YcoCgDxt5 => "YcoCgDxt5"@,
        TextureKind::AlphaRgtc1 => "AlphaRgtc1"@,
        TextureKind::RgbaBc7 => "RgbaBc7"@,
        TextureKind::RgbBc6hUfloat => "RgbBc6hUfloat"@,
        TextureKind::RgbBc6hSfloat => "RgbBc6hSfloat"@,
    }
}

/// The code by which `hap_parser` numbers a texture format: its
/// `TextureFormat` enum's discriminant.
pub open spec fn texture_code(kind: TextureKind) -> u32 {
    match kind {
        TextureKind::RgbDxt1 => 0x83F0,
        TextureKind::RgbaDxt5 => 0x83F3,
        TextureKind::YcoCgDxt5 => 0x01,
        TextureKind::AlphaRgtc1 => 0x8DBB,
        TextureKind::RgbaBc7 => 0x8E8C,
        TextureKind::RgbBc6hUfloat => 0x8E8F,
        TextureKind::RgbBc6hSfloat => 0x8E8E,
    }
}

/// The bytes of one 4x4 block of texture in the format that `hap_parser`
/// numbers `code`: 8 for DXT1 and RGTC1, 16 for DXT5 (plain or YCoCg), BC7
/// and BC6H.
pub open spec fn code_block_bytes(code: u32) -> nat {
    if code == 0x83F0 || code == 0x8DBB {
        8
    } else {
        16
    }
}

/// The bytes of one 4x4 block under a WebGL compressed-texture constant:
/// 8 for the S3TC DXT1 formats (0x83F0, 0x83F1) and RGTC1 (0x8DBB), 16 for
/// S3TC DXT3 and DXT5 (0x83F2, 0x83F3) and BPTC (0x8E8C to 0x8E8F); 0 for
/// what is none of these.
pub open spec fn gl_block_bytes(constant: u32) -> nat {
    if constant == 0x83F0 || constant == 0x83F1 || constant == 0x8DBB {
        8
    } else if constant == 0x83F2 || constant == 0x83F3 || (0x8E8C <= constant <= 0x8E8F) {
        16
    } else {
        0
    }
}

/// A decoded frame reports the texture format that the decoder's code
/// numbers: turned back into its code, the format gives that code; and each
/// format is reported for its own code.
pub proof fn lemma_texture_codes_round_trip(code: u32, kind: TextureKind)
    ensures
        is_texture_code(code) ==> texture_code(texture_of_code(code)) == code,
        is_texture_code(texture_code(kind)),
        texture_of_code(texture_code(kind)) == kind,
{
}

/// A decoded texture is uploaded under a WebGL constant whose blocks have
/// the size of its own format's blocks; only DXT1 texture goes up as DXT1
/// (0x83F1); where the decoder's code is itself a WebGL constant (DXT5
/// 0x83F3, RGTC1 0x8DBB), it is the constant used; every other format goes
/// up as DXT5 (0x83F3), whose 16-byte blocks it shares.
pub proof fn lemma_upload_matches_block_size(code: u32)
    requires
        is_texture_code(code),
    ensures
        gl_block_bytes(webgl_format_of(texture_of_code(code))) == code_block_bytes(code),
        webgl_format_of(texture_of_code(code)) == 0x83F1 <==> code == 0x83F0,
        code == 0x83F3 || code == 0x8DBB ==> webgl_format_of(texture_of_code(code)) == code,
        code != 0x83F0 && code != 0x8DBB ==> webgl_format_of(texture_of_code(code)) == 0x83F3,
{
}

impl TextureKind {
    /// The texture format that a `hap_parser` code stands for.
    pub fn from_code(code: u32) -> (k: TextureKind)
        requires
            is_texture_code(code),
        ensures
            k == texture_of_code(code),
    {
        if code == 0x83F0 {
            TextureKind::RgbDxt1
        } else if code == 0x83F3 {
            TextureKind::RgbaDxt5
        } else if code == 0x01 {
            TextureKind::YcoCgDxt5
        } else if code == 0x8DBB {
            TextureKind::AlphaRgtc1
        } else if code == 0x8E8C {
            TextureKind::RgbaBc7
        } else if code == 0x8E8F {
            TextureKind::RgbBc6hUfloat
        } else {
            TextureKind::RgbBc6hSfloat
        }
    }

    /// The name of the format, as its variant is spelled.
    pub fn name(&self) -> (s: String)
        ensures
            s@ == texture_name(*self),
    {
        match self {
            TextureKind::RgbDxt1 => String::from_str("RgbDxt1"),
            TextureKind::RgbaDxt5 => String::from_str("RgbaDxt5"),
            TextureKind::YcoCgDxt5 => String::from_str("YcoCgDxt5"),
            TextureKind::AlphaRgtc1 => String::from_str("AlphaRgtc1"),
            TextureKind::RgbaBc7 => String::from_str("RgbaBc7"),
            TextureKind::RgbBc6hUfloat => String::from_str("RgbBc6hUfloat"),
            TextureKind::RgbBc6hSfloat => String::from_str("RgbBc6hSfloat"),
        }
    }
}

#[verifier::external_type_specification]
#[verifier::external_body]
pub struct ExHapError(hap_parser::HapError);

/// What `hap_parser::parse_frame` makes of a frame's bytes: the code of its
/// texture format and its decompressed texture data, or the error it gives.
pub uninterp spec fn hap_decode(frame: Seq<u8>) -> Result<(u32, Seq<u8>), hap_parser::HapError>;

/// `hap_parser::parse_frame`, with the texture format taken by its code (the
/// enum's discriminant). Its result, error included, depends on the bytes
/// alone and is named `hap_decode`; the code is always one of the seven
/// formats of the enum. The frame's declared lengths must keep the parser's
/// sums within `usize` and its buffers within `isize` (`frame_fits`): where
/// they do not, as on 32-bit targets with lengths near 4 GiB, it can panic.
/// What an allocator that runs out of memory does is left unsaid.
#[verifier::external_body]
fn hap_parse_frame(frame: &[u8]) -> (r: Result<(u32, Vec<u8>), hap_parser::HapError>)
    requires
        frame_fits(frame@),
    ensures
        match r {
            Ok((code, texture)) => hap_decode(frame@) == Ok::<(u32, Seq<u8>), hap_parser::HapError>(
                (code, texture@),
            ) && is_texture_code(code),
            Err(e) => hap_decode(frame@) == Err::<(u32, Seq<u8>), hap_parser::HapError>(e),
        },
{
    match hap_parser::parse_frame(frame) {
        Ok(f) => Ok((f.texture_format as u32, f.texture_data)),
        Err(e) => Err(e),
    }
}

/// What `String::from_utf8_lossy` makes of some bytes.
pub uninterp spec fn utf8_lossy(bytes: Seq<u8>) -> Seq<char>;

/// `String::from_utf8_lossy`, made an owned `String`: named `utf8_lossy`;
/// valid UTF-8 is decoded as it stands.
#[verifier::external_body]
fn lossy_string(bytes: &[u8]) -> (s: String)
    ensures
        s@ == utf8_lossy(bytes@),
        valid_utf8(bytes@) ==> s@ == decode_utf8(bytes@),
{
    String::from_utf8_lossy(bytes).into_owned()
}

/// Why a frame could not be read.
#[derive(Debug)]
pub enum FrameError {
    /// The frame index is not below the frame count.
    OutOfRange,
    /// The sample-to-chunk runs place the frame in a chunk that has no offset.
    InvalidChunkIndex,
    /// The frame has no sample size.
    InvalidFrameIndex,
    /// The frame's bytes run past the end of the file.
    ReadPastEnd,
    /// `hap_parser` could not decode the frame.
    Hap(hap_parser::HapError),
}

/// Where the sample-to-chunk runs from `i` on place frame `frame`, `count`
/// frames lying in the runs before `i`: the chunk's index and the frame's
/// position within the chunk; (0, 0) past the last run. None where the `u32`
/// arithmetic of the lookup overflows.
pub open spec fn chunk_walk(
    runs: Seq<SampleToChunkEntry>,
    chunk_count: nat,
    frame: u32,
    i: int,
    count: u32,
) -> Option<(u32, u32)>
    decreases runs.len() - i,
{
    if i < 0 || i >= runs.len() {
        Some((0, 0))
    } else {
        let run = runs[i];
        let next: int = if i + 1 < runs.len() {
            runs[i + 1].first_chunk as int
        } else {
            (#[verifier::truncate] (chunk_count as u32)) as int + 1
        };
        let chunks: int = next - run.first_chunk;
        let samples: int = chunks * run.samples_per_chunk;
        if next > u32::MAX || chunks < 0 || samples > u32::MAX || count + samples > u32::MAX {
            None
        } else if count + samples > frame {
            let within: int = frame - count;
            let chunk: int = run.first_chunk - 1 + within / (run.samples_per_chunk as int);
            if run.first_chunk == 0 || chunk > u32::MAX {
                None
            } else {
                Some((chunk as u32, (within % (run.samples_per_chunk as int)) as u32))
            }
        } else {
            chunk_walk(runs, chunk_count, frame, i + 1, (count + samples) as u32)
        }
    }
}

/// The chunk that holds frame `frame`, and the frame's position in it.
pub open spec fn chunk_of_frame(t: TrackView, frame: u32) -> Option<(u32, u32)> {
    chunk_walk(t.sample_to_chunk, t.chunk_offsets.len(), frame, 0, 0)
}

/// The bytes of the `n` samples from sample `first` on, counting only
/// samples that have a size.
pub open spec fn run_bytes(sizes: Seq<u32>, first: int, n: nat) -> int
    decreases n,
{
    if n == 0 {
        0
    } else {
        run_bytes(sizes, first, (n - 1) as nat) + if 0 <= first + n - 1 < sizes.len() {
            sizes[first + n - 1] as int
        } else {
            0
        }
    }
}

/// Where frame `frame` starts in the file: its chunk's offset plus the sizes
/// of the frames before it in that chunk; an error where the tables cannot
/// place it, and None where the arithmetic of the lookup overflows.
pub open spec fn frame_offset(t: TrackView, frame: u32) -> Option<Result<u64, FrameError>> {
    if frame >= t.frame_count {
        Some(Err(FrameError::OutOfRange))
    } else {
        match chunk_of_frame(t, frame) {
            None => None,
            Some((chunk, sample)) => if chunk >= t.chunk_offsets.len() {
                Some(Err(FrameError::InvalidChunkIndex))
            } else {
                let offset = t.chunk_offsets[chunk as int] + run_bytes(
                    t.sample_sizes,
                    frame - sample,
                    sample as nat,
                );
                if offset > u64::MAX {
                    None
                } else {
                    Some(Ok(offset as u64))
                }
            },
        }
    }
}

/// The bytes of frame `frame`, or why they cannot be had. A read from past
/// the end of the file reads from its end, so an empty frame is read anywhere.
pub open spec fn frame_bytes(data: Seq<u8>, t: TrackView, frame: u32) -> Result<
    Seq<u8>,
    FrameError,
> {
    match frame_offset(t, frame) {
        Some(Ok(offset)) => if frame >= t.sample_sizes.len() {
            Err(FrameError::InvalidFrameIndex)
        } else {
            let size = t.sample_sizes[frame as int];
            let start: int = if offset <= data.len() {
                offset as int
            } else {
                data.len() as int
            };
            if data.len() - start >= size {
                Ok(data.subrange(start, start + size))
            } else {
                Err(FrameError::ReadPastEnd)
            }
        },
        Some(Err(e)) => Err(e),
        None => Err(FrameError::ReadPastEnd),
    }
}

proof fn lemma_run_bytes_monotone(sizes: Seq<u32>, first: int, m: nat, n: nat)
    requires
        m <= n,
    ensures
        0 <= run_bytes(sizes, first, m) <= run_bytes(sizes, first, n),
    decreases n,
{
    if n > m {
        lemma_run_bytes_monotone(sizes, first, m, (n - 1) as nat);
    } else if n > 0 {
        lemma_run_bytes_monotone(sizes, first, (n - 1) as nat, (n - 1) as nat);
    }
}

proof fn lemma_chunk_walk_sample_in_frame(
    runs: Seq<SampleToChunkEntry>,
    chunk_count: nat,
    frame: u32,
    i: int,
    count: u32,
)
    requires
        count <= frame,
    ensures
        chunk_walk(runs, chunk_count, frame, i, count) matches Some((chunk, sample)) ==> sample
            <= frame,
    decreases runs.len() - i,
{
    if 0 <= i < runs.len() {
        let run = runs[i];
        let next: int = if i + 1 < runs.len() {
            runs[i + 1].first_chunk as int
        } else {
            (#[verifier::truncate] (chunk_count as u32)) as int + 1
        };
        let samples: int = (next - run.first_chunk) * run.samples_per_chunk;
        if 0 <= samples && count + samples <= frame {
            lemma_chunk_walk_sample_in_frame(runs, chunk_count, frame, i + 1, (count + samples) as u32);
        } else if count + samples > frame && run.samples_per_chunk > 0 {
            let within: int = frame - count;
            assert(within % (run.samples_per_chunk as int) <= within) by (nonlinear_arith)
                requires
                    within >= 0,
                    run.samples_per_chunk > 0,
            ;
        }
    }
}

/// With one sample-to-chunk run from the first chunk on, `k` frames to each
/// of `chunk_count` chunks, frame `f` is frame `f % k` of chunk `f / k`.
pub proof fn lemma_single_run_places_frames(
    run: SampleToChunkEntry,
    chunk_count: nat,
    frame: u32,
)
    requires
        run.first_chunk == 1,
        run.samples_per_chunk >= 1,
        chunk_count < u32::MAX,
        chunk_count * run.samples_per_chunk <= u32::MAX,
        frame < chunk_count * run.samples_per_chunk,
    ensures
        chunk_walk(seq![run], chunk_count, frame, 0, 0) == Some(
            ((frame / run.samples_per_chunk) as u32, (frame % run.samples_per_chunk) as u32),
        ),
{
    let k = run.samples_per_chunk;
    assert((#[verifier::truncate] (chunk_count as u32)) as int == chunk_count);
    assert(frame / k <= frame) by (nonlinear_arith)
        requires
            k >= 1,
            frame >= 0,
    ;
}

/// The chunk after the last of run `i`'s chunks (plus one, as chunks are
/// numbered from 1): the next run's first chunk, or past the last chunk.
pub open spec fn run_end(runs: Seq<SampleToChunkEntry>, chunk_count: nat, i: int) -> int {
    if i + 1 < runs.len() {
        runs[i + 1].first_chunk as int
    } else {
        chunk_count + 1int
    }
}

/// The frames that run `i` holds.
pub open spec fn run_frames(runs: Seq<SampleToChunkEntry>, chunk_count: nat, i: int) -> int {
    (run_end(runs, chunk_count, i) - runs[i].first_chunk) * runs[i].samples_per_chunk
}

/// The frames that the runs before run `j` hold.
pub open spec fn frames_before(runs: Seq<SampleToChunkEntry>, chunk_count: nat, j: nat) -> int
    decreases j,
{
    if j == 0 {
        0
    } else {
        frames_before(runs, chunk_count, (j - 1) as nat) + run_frames(
            runs,
            chunk_count,
            j - 1,
        )
    }
}

/// Sample-to-chunk runs as a file lays them out: first chunks from 1 on, in
/// order, the last at most one past the last chunk, and all the frames they
/// hold counted within `u32`.
pub open spec fn runs_well_laid(runs: Seq<SampleToChunkEntry>, chunk_count: nat) -> bool {
    &&& runs.len() > 0
    &&& chunk_count < u32::MAX
    &&& runs[0].first_chunk >= 1
    &&& forall|i: int| 0 <= i < runs.len() - 1 ==> #[trigger] runs[i].first_chunk <= runs[i
        + 1].first_chunk
    &&& runs[runs.len() - 1].first_chunk <= chunk_count + 1
    &&& frames_before(runs, chunk_count, runs.len()) <= u32::MAX
}

proof fn lemma_run_frames_nonnegative(runs: Seq<SampleToChunkEntry>, chunk_count: nat, i: int)
    requires
        runs_well_laid(runs, chunk_count),
        0 <= i < runs.len(),
    ensures
        run_frames(runs, chunk_count, i) >= 0,
        run_end(runs, chunk_count, i) >= runs[i].first_chunk,
{
    let d = run_end(runs, chunk_count, i) - runs[i].first_chunk;
    assert(d >= 0);
    assert(d * runs[i].samples_per_chunk >= 0) by (nonlinear_arith)
        requires
            d >= 0,
    ;
}

proof fn lemma_frames_before_monotone(
    runs: Seq<SampleToChunkEntry>,
    chunk_count: nat,
    a: nat,
    b: nat,
)
    requires
        runs_well_laid(runs, chunk_count),
        a <= b <= runs.len(),
    ensures
        0 <= frames_before(runs, chunk_count, a) <= frames_before(runs, chunk_count, b),
    decreases b,
{
    if b > a {
        lemma_frames_before_monotone(runs, chunk_count, a, (b - 1) as nat);
        lemma_run_frames_nonnegative(runs, chunk_count, b - 1);
    } else if b > 0 {
        lemma_frames_before_monotone(runs, chunk_count, 0, (b - 1) as nat);
        lemma_run_frames_nonnegative(runs, chunk_count, b - 1);
    }
}

proof fn lemma_chunk_walk_reaches_run(
    runs: Seq<SampleToChunkEntry>,
    chunk_count: nat,
    frame: u32,
    i: nat,
    j: nat,
)
    requires
        runs_well_laid(runs, chunk_count),
        i <= j < runs.len(),
        runs[j as int].samples_per_chunk >= 1,
        frames_before(runs, chunk_count, j) <= frame < frames_before(runs, chunk_count, j)
            + run_frames(runs, chunk_count, j as int),
    ensures
        ({
            let within = frame - frames_before(runs, chunk_count, j);
            let k = runs[j as int].samples_per_chunk as int;
            chunk_walk(runs, chunk_count, frame, i as int, frames_before(runs, chunk_count, i) as u32)
                == Some(
                ((runs[j as int].first_chunk - 1 + within / k) as u32, (within % k) as u32),
            )
        }),
    decreases j - i,
{
    lemma_frames_before_monotone(runs, chunk_count, i, j);
    lemma_frames_before_monotone(runs, chunk_count, j + 1, runs.len());
    lemma_frames_before_monotone(runs, chunk_count, i + 1, runs.len());
    lemma_run_frames_nonnegative(runs, chunk_count, i as int);
    assert((#[verifier::truncate] (chunk_count as u32)) as int == chunk_count);
    assert(runs[i as int].first_chunk >= 1) by {
        if i > 0 {
            lemma_first_chunks_ordered(runs, chunk_count, i as int);
        }
    }
    assert(run_end(runs, chunk_count, i as int) <= chunk_count + 1) by {
        if i + 1 < runs.len() {
            lemma_first_chunks_ordered_to_last(runs, chunk_count, (i + 1) as int);
        }
    }
    if i < j {
        lemma_frames_before_monotone(runs, chunk_count, i + 1, j);
        lemma_chunk_walk_reaches_run(runs, chunk_count, frame, i + 1, j);
    } else {
        let within = frame - frames_before(runs, chunk_count, j);
        let k = runs[j as int].samples_per_chunk as int;
        let chunks = run_end(runs, chunk_count, j as int) - runs[j as int].first_chunk;
        assert(within / k < chunks) by (nonlinear_arith)
            requires
                0 <= within < chunks * k,
                k >= 1,
        ;
        assert(within / k >= 0) by (nonlinear_arith)
            requires
                within >= 0,
                k >= 1,
        ;
    }
}

proof fn lemma_first_chunks_ordered(runs: Seq<SampleToChunkEntry>, chunk_count: nat, i: int)
    requires
        runs_well_laid(runs, chunk_count),
        0 <= i < runs.len(),
    ensures
        runs[0].first_chunk <= runs[i].first_chunk,
    decreases i,
{
    if i > 0 {
        lemma_first_chunks_ordered(runs, chunk_count, i - 1);
        assert(runs[i - 1].first_chunk <= runs[i].first_chunk);
    }
}

proof fn lemma_first_chunks_ordered_to_last(
    runs: Seq<SampleToChunkEntry>,
    chunk_count: nat,
    i: int,
)
    requires
        runs_well_laid(runs, chunk_count),
        0 <= i < runs.len(),
    ensures
        runs[i].first_chunk <= chunk_count + 1,
    decreases runs.len() - i,
{
    if i + 1 < runs.len() {
        lemma_first_chunks_ordered_to_last(runs, chunk_count, (i + 1) as int);
        assert(runs[i].first_chunk <= runs[i + 1].first_chunk);
    }
}

/// Where the sample-to-chunk runs are laid out in order, a frame that falls
/// among run `j`'s frames lies in chunk `first_chunk - 1 + w / k` (counted
/// from 0) at position `w % k`, `w` being its place among the run's frames
/// and `k` the run's frames per chunk.
pub proof fn lemma_runs_place_frames(
    runs: Seq<SampleToChunkEntry>,
    chunk_count: nat,
    frame: u32,
    j: nat,
)
    requires
        runs_well_laid(runs, chunk_count),
        j < runs.len(),
        runs[j as int].samples_per_chunk >= 1,
        frames_before(runs, chunk_count, j) <= frame < frames_before(runs, chunk_count, j)
            + run_frames(runs, chunk_count, j as int),
    ensures
        ({
            let within = frame - frames_before(runs, chunk_count, j);
            let k = runs[j as int].samples_per_chunk as int;
            chunk_walk(runs, chunk_count, frame, 0, 0) == Some(
                ((runs[j as int].first_chunk - 1 + within / k) as u32, (within % k) as u32),
            )
        }),
{
    lemma_chunk_walk_reaches_run(runs, chunk_count, frame, 0, j);
}

/// Frames that follow each other in one chunk lie back to back: the next
/// one starts where this one ends.
pub proof fn lemma_frames_back_to_back(
    t: TrackView,
    frame: u32,
    chunk: u32,
    sample: u32,
    offset: u64,
)
    requires
        frame + 1 < t.frame_count,
        frame < t.sample_sizes.len(),
        chunk < t.chunk_offsets.len(),
        chunk_of_frame(t, frame) == Some((chunk, sample)),
        chunk_of_frame(t, (frame + 1) as u32) == Some((chunk, (sample + 1) as u32)),
        frame_offset(t, frame) == Some(Ok::<u64, FrameError>(offset)),
        offset + t.sample_sizes[frame as int] <= u64::MAX,
    ensures
        frame_offset(t, (frame + 1) as u32) == Some(
            Ok::<u64, FrameError>((offset + t.sample_sizes[frame as int]) as u64),
        ),
{
    lemma_chunk_walk_sample_in_frame(t.sample_to_chunk, t.chunk_offsets.len(), frame, 0, 0);
    let first = frame - sample;
    assert(run_bytes(t.sample_sizes, first, (sample + 1) as nat) == run_bytes(
        t.sample_sizes,
        first,
        sample as nat,
    ) + t.sample_sizes[frame as int]);
    let base = t.chunk_offsets[chunk as int] + run_bytes(t.sample_sizes, first, sample as nat);
    lemma_run_bytes_monotone(t.sample_sizes, first, 0, sample as nat);
    assert(offset == base);
    let next = (frame + 1) as u32;
    assert(next - (sample + 1) as u32 == first);
    assert(frame_offset(t, next) == Some(
        Ok::<u64, FrameError>((base + t.sample_sizes[frame as int]) as u64),
    ));
}

/// The sum of some sample durations.
pub open spec fn delta_total(deltas: Seq<u32>) -> nat
    decreases deltas.len(),
{
    if deltas.len() == 0 {
        0
    } else {
        delta_total(deltas.drop_last()) + deltas.last() as nat
    }
}

proof fn lemma_delta_total_prefix(deltas: Seq<u32>, i: int, j: int)
    requires
        0 <= i <= j <= deltas.len(),
    ensures
        delta_total(deltas.subrange(0, i)) <= delta_total(deltas.subrange(0, j)),
    decreases j - i,
{
    if i < j {
        lemma_delta_total_prefix(deltas, i, j - 1);
        assert(deltas.subrange(0, j).drop_last() =~= deltas.subrange(0, j - 1));
    }
}

/// A decoded frame: raw GPU texture data and its format.
pub struct DecodedFrame {
    data: Vec<u8>,
    format: TextureKind,
    width: u32,
    height: u32,
}

impl DecodedFrame {
    pub closed spec fn texture(&self) -> Seq<u8> {
        self.data@
    }

    pub closed spec fn kind(&self) -> TextureKind {
        self.format
    }

    pub closed spec fn spec_width(&self) -> u32 {
        self.width
    }

    pub closed spec fn spec_height(&self) -> u32 {
        self.height
    }

    /// The raw texture data.
    pub fn data(&self) -> (d: &[u8])
        ensures
            d@ == self.texture(),
    {
        self.data.as_slice()
    }

    /// The texture format's name.
    pub fn format(&self) -> (s: String)
        ensures
            s@ == texture_name(self.kind()),
    {
        self.format.name()
    }

    /// The texture format.
    pub fn texture_kind(&self) -> (k: TextureKind)
        ensures
            k == self.kind(),
    {
        self.format
    }

    pub fn width(&self) -> (w: u32)
        ensures
            w == self.spec_width(),
    {
        self.width
    }

    pub fn height(&self) -> (h: u32)
        ensures
            h == self.spec_height(),
    {
        self.height
    }

    /// The WebGL constant to upload the texture with:
    /// `COMPRESSED_RGBA_S3TC_DXT5_EXT` = 0x83F3,
    /// `COMPRESSED_RGBA_S3TC_DXT1_EXT` = 0x83F1.
    pub fn webgl_format(&self) -> (f: u32)
        ensures
            f == webgl_format_of(self.kind()),
    {
        match self.format {
            TextureKind::RgbDxt1 => 0x83F1,
            TextureKind::RgbaDxt5 => 0x83F3,
            TextureKind::YcoCgDxt5 => 0x83F3,
            TextureKind::AlphaRgtc1 => 0x8DBB,
            _ => 0x83F3,
        }
    }
}

/// An opened HAP movie held in memory.
pub struct WebHapReader {
    data: Vec<u8>,
    track: VideoTrack,
}

impl WebHapReader {
    /// The file's bytes.
    pub closed spec fn bytes(&self) -> Seq<u8> {
        self.data@
    }

    /// The track that frames are read from.
    pub closed spec fn track(&self) -> TrackView {
        self.track@
    }

    /// Opens a QuickTime movie held in memory.
    pub fn new(buffer: Vec<u8>) -> (r: Result<WebHapReader, ParseError>)
        requires
            file_size_fits(buffer@.len()),
            movie_layout_sound(buffer@),
        ensures
            match movie_spec(buffer@) {
                Ok(t) => r matches Ok(reader) && reader.bytes() == buffer@ && reader.track() == t,
                Err(e) => r matches Err(f) && f == e,
            },
    {
        match parse_movie(buffer.as_slice()) {
            Ok(track) => Ok(WebHapReader { data: buffer, track }),
            Err(e) => Err(e),
        }
    }

    pub fn width(&self) -> (w: u32)
        ensures
            w == self.track().width,
    {
        self.track.width
    }

    pub fn height(&self) -> (h: u32)
        ensures
            h == self.track().height,
    {
        self.track.height
    }

    pub fn frame_count(&self) -> (n: u32)
        ensures
            n == self.track().frame_count,
    {
        self.track.frame_count
    }

    /// Ticks per second of the track's media.
    pub fn timescale(&self) -> (t: u32)
        ensures
            t == self.track().timescale,
    {
        self.track.timescale
    }

    /// The media's duration, in ticks of the timescale.
    pub fn duration_ticks(&self) -> (d: u64)
        ensures
            d == self.track().duration,
    {
        self.track.duration
    }

    /// The duration of each sample, in ticks.
    pub fn sample_deltas(&self) -> (d: &[u32])
        ensures
            d@ == self.track().sample_deltas,
    {
        self.track.sample_deltas.as_slice()
    }

    /// The sum of the sample durations, or none where it exceeds `u32::MAX`.
    fn checked_delta_sum(&self) -> (t: Option<u32>)
        ensures
            t matches Some(v) ==> v == delta_total(self.track().sample_deltas),
            t is None ==> delta_total(self.track().sample_deltas) > u32::MAX,
    {
        let deltas = &self.track.sample_deltas;
        let len: usize = deltas.len();
        let mut total: u32 = 0;
        let mut i: usize = 0;
        while i < len
            invariant
                len == deltas@.len(),
                deltas@ == self.track().sample_deltas,
                i <= len,
                total == delta_total(deltas@.subrange(0, i as int)),
            decreases len - i,
        {
            assert(deltas@.subrange(0, i + 1).drop_last() =~= deltas@.subrange(0, i as int));
            match total.checked_add(deltas[i]) {
                Some(v) => {
                    total = v;
                },
                None => {
                    proof {
                        lemma_delta_total_prefix(deltas@, i + 1, len as int);
                        assert(deltas@.subrange(0, len as int) =~= deltas@);
                    }
                    return None;
                },
            }
            i = i + 1;
        }
        assert(deltas@.subrange(0, len as int) =~= deltas@);
        Some(total)
    }

    /// Whether the sample durations add up within `u32`, as
    /// `sample_delta_sum` asks.
    pub fn sample_delta_sum_fits(&self) -> (b: bool)
        ensures
            b == (delta_total(self.track().sample_deltas) <= u32::MAX),
    {
        self.checked_delta_sum().is_some()
    }

    /// The sum of the sample durations, in ticks: with their count it gives
    /// the average frame duration, and so the frame rate.
    pub fn sample_delta_sum(&self) -> (t: u32)
        requires
            delta_total(self.track().sample_deltas) <= u32::MAX,
        ensures
            t == delta_total(self.track().sample_deltas),
    {
        match self.checked_delta_sum() {
            Some(v) => v,
            None => vstd::pervasive::unreached(),
        }
    }

    /// The codec's four-character type, such as `Hap1`, decoded as UTF-8
    /// with invalid bytes replaced.
    pub fn codec_type(&self) -> (s: String)
        ensures
            s@ == utf8_lossy(self.track().codec_type),
            valid_utf8(self.track().codec_type) ==> s@ == decode_utf8(self.track().codec_type),
    {
        lossy_string(self.track.codec_type.as_slice())
    }

    /// The chunk that holds a frame and the frame's position in it.
    fn frame_to_chunk(&self, frame_index: u32) -> (r: Option<(u32, u32)>)
        ensures
            r == chunk_of_frame(self.track(), frame_index),
    {
        let runs = &self.track.sample_to_chunk;
        let n: usize = runs.len();
        let chunk_count: u32 = #[verifier::truncate] (self.track.chunk_offsets.len() as u32);
        let ghost t = self.track();
        let mut i: usize = 0;
        let mut count: u32 = 0;
        while i < n
            invariant
                n == runs@.len(),
                t == self.track(),
                runs@ == t.sample_to_chunk,
                chunk_count == #[verifier::truncate] (t.chunk_offsets.len() as u32),
                i <= n,
                count <= frame_index,
                chunk_walk(runs@, t.chunk_offsets.len(), frame_index, i as int, count)
                    == chunk_of_frame(t, frame_index),
            decreases n - i,
        {
            let run: SampleToChunkEntry = runs[i];
            let next: u32 = if i + 1 < n {
                runs[i + 1].first_chunk
            } else {
                match chunk_count.checked_add(1) {
                    Some(v) => v,
                    None => {
                        assert(chunk_walk(runs@, t.chunk_offsets.len(), frame_index, i as int, count) is None);
                        return None;
                    },
                }
            };
            assert(next as int == if i + 1 < runs@.len() {
                runs@[i + 1].first_chunk as int
            } else {
                (#[verifier::truncate] (t.chunk_offsets.len() as u32)) as int + 1
            });
            if next < run.first_chunk {
                return None;
            }
            let chunks: u32 = next - run.first_chunk;
            let samples: u32 = match chunks.checked_mul(run.samples_per_chunk) {
                Some(v) => v,
                None => {
                    return None;
                },
            };
            let total: u32 = match count.checked_add(samples) {
                Some(v) => v,
                None => {
                    return None;
                },
            };
            if total > frame_index {
                let within: u32 = frame_index - count;
                assert(run.samples_per_chunk != 0) by (nonlinear_arith)
                    requires
                        samples == chunks * run.samples_per_chunk,
                        samples > 0,
                ;
                let chunk_in_run: u32 = within / run.samples_per_chunk;
                let sample: u32 = within % run.samples_per_chunk;
                if run.first_chunk == 0 {
                    return None;
                }
                return match (run.first_chunk - 1).checked_add(chunk_in_run) {
                    Some(chunk) => Some((chunk, sample)),
                    None => None,
                };
            }
            count = total;
            i = i + 1;
        }
        Some((0, 0))
    }

    /// Where a frame starts in the file; None where the lookup overflows.
    fn locate_frame(&self, frame_index: u32) -> (r: Option<Result<u64, FrameError>>)
        ensures
            r == frame_offset(self.track(), frame_index),
    {
        if frame_index >= self.track.frame_count {
            return Some(Err(FrameError::OutOfRange));
        }
        let (chunk, sample) = match self.frame_to_chunk(frame_index) {
            Some(p) => p,
            None => {
                return None;
            },
        };
        if chunk as usize >= self.track.chunk_offsets.len() {
            return Some(Err(FrameError::InvalidChunkIndex));
        }
        let sizes = &self.track.sample_sizes;
        let ghost t = self.track();
        proof {
            lemma_chunk_walk_sample_in_frame(t.sample_to_chunk, t.chunk_offsets.len(), frame_index, 0, 0);
        }
        let base: u64 = self.track.chunk_offsets[chunk as usize];
        let first: u32 = frame_index - sample;
        let mut offset: u64 = base;
        let mut i: u32 = 0;
        while i < sample
            invariant
                sizes@ == t.sample_sizes,
                t == self.track(),
                frame_index < t.frame_count,
                chunk_of_frame(t, frame_index) == Some((chunk, sample)),
                (chunk as int) < t.chunk_offsets.len(),
                base == t.chunk_offsets[chunk as int],
                first == frame_index - sample,
                i <= sample,
                offset == base + run_bytes(sizes@, first as int, i as nat),
            decreases sample - i,
        {
            let idx: u32 = first + i;
            assert(run_bytes(sizes@, first as int, (i + 1) as nat) == run_bytes(
                sizes@,
                first as int,
                i as nat,
            ) + if 0 <= idx < sizes@.len() {
                sizes@[idx as int] as int
            } else {
                0
            });
            if (idx as usize) < sizes.len() {
                match offset.checked_add(sizes[idx as usize] as u64) {
                    Some(v) => {
                        offset = v;
                    },
                    None => {
                        proof {
                            assert(run_bytes(sizes@, first as int, (i + 1) as nat) == run_bytes(
                                sizes@,
                                first as int,
                                i as nat,
                            ) + sizes@[idx as int]);
                            lemma_run_bytes_monotone(
                                sizes@,
                                first as int,
                                (i + 1) as nat,
                                sample as nat,
                            );
                        }
                        return None;
                    },
                }
            }
            i = i + 1;
        }
        Some(Ok(offset))
    }

    /// Whether reading frame `frame_index` overflows the lookup's arithmetic,
    /// which `read_frame` cannot be asked to do.
    pub fn frame_lookup_overflows(&self, frame_index: u32) -> (b: bool)
        ensures
            b == (frame_offset(self.track(), frame_index) is None),
    {
        self.locate_frame(frame_index).is_none()
    }

    /// The bytes of frame `frame_index`, or why they cannot be read.
    fn frame_slice(&self, frame_index: u32) -> (r: Result<&[u8], FrameError>)
        requires
            frame_offset(self.track(), frame_index) is Some,
        ensures
            match frame_bytes(self.bytes(), self.track(), frame_index) {
                Ok(bytes) => r matches Ok(b) && b@ == bytes,
                Err(e) => r matches Err(f) && f == e,
            },
    {
        let offset: u64 = match self.locate_frame(frame_index) {
            Some(Ok(o)) => o,
            Some(Err(e)) => {
                return Err(e);
            },
            None => {
                return vstd::pervasive::unreached();
            },
        };
        if frame_index as usize >= self.track.sample_sizes.len() {
            return Err(FrameError::InvalidFrameIndex);
        }
        let size: u32 = self.track.sample_sizes[frame_index as usize];
        let len: usize = self.data.len();
        let start: usize = if offset <= len as u64 {
            offset as usize
        } else {
            len
        };
        if len - start < size as usize {
            return Err(FrameError::ReadPastEnd);
        }
        Ok(slice_subrange(self.data.as_slice(), start, start + size as usize))
    }

    /// Whether frame `frame_index`, where its bytes can be read, declares
    /// lengths that the HAP decoder can handle on this machine
    /// (`frame_fits`), which `read_frame` needs.
    pub fn frame_fits_decoder(&self, frame_index: u32) -> (b: bool)
        requires
            frame_offset(self.track(), frame_index) is Some,
        ensures
            b == (frame_bytes(self.bytes(), self.track(), frame_index) matches Ok(bytes)
                ==> frame_fits(bytes)),
    {
        match self.frame_slice(frame_index) {
            Ok(bytes) => hap_frame_fits(bytes),
            Err(_) => true,
        }
    }

    /// Reads and decodes one frame.
    pub fn read_frame(&self, frame_index: u32) -> (r: Result<DecodedFrame, FrameError>)
        requires
            frame_offset(self.track(), frame_index) is Some,
            frame_bytes(self.bytes(), self.track(), frame_index) matches Ok(bytes) ==> frame_fits(
                bytes,
            ),
        ensures
            match frame_bytes(self.bytes(), self.track(), frame_index) {
                Err(e) => r matches Err(f) && f == e,
                Ok(bytes) => match hap_decode(bytes) {
                    Ok((code, texture)) => r matches Ok(frame) && frame.texture() == texture
                        && frame.kind() == texture_of_code(code) && frame.spec_width()
                        == self.track().width && frame.spec_height() == self.track().height,
                    Err(e) => r matches Err(FrameError::Hap(f)) && f == e,
                },
            },
    {
        let bytes = match self.frame_slice(frame_index) {
            Ok(b) => b,
            Err(e) => {
                return Err(e);
            },
        };
        match hap_parse_frame(bytes) {
            Ok((code, texture)) => Ok(
                DecodedFrame {
                    data: texture,
                    format: TextureKind::from_code(code),
                    width: self.track.width,
                    height: self.track.height,
                },
            ),
            Err(e) => Err(FrameError::Hap(e)),
        }
    }
}

} // verus!
