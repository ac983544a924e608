use hap_wasm::hapframe::hap_frame_fits;
use hap_wasm::movie::{file_size_admitted, movie_layout_is_sound, parse_movie};
use hap_wasm::reader::{FrameError, TextureKind, WebHapReader};
use hap_wasm::tables::{
    parse_co64, parse_mdhd, parse_stco, parse_stsc, parse_stsd, parse_stsz, parse_stts,
    parse_tkhd, ParseError, SampleToChunkEntry,
};

fn be32(v: u32) -> [u8; 4] {
    v.to_be_bytes()
}

fn atom(kind: &[u8; 4], body: &[u8]) -> Vec<u8> {
    let mut out = Vec::new();
    out.extend_from_slice(&be32(8 + body.len() as u32));
    out.extend_from_slice(kind);
    out.extend_from_slice(body);
    out
}

fn full_box(entries: &[u32], count: u32) -> Vec<u8> {
    let mut out = vec![0, 0, 0, 0];
    out.extend_from_slice(&be32(count));
    for e in entries {
        out.extend_from_slice(&be32(*e));
    }
    out
}

fn tkhd(width: u32, height: u32) -> Vec<u8> {
    let mut body = vec![0u8; 84];
    body[76..80].copy_from_slice(&be32(width << 16));
    body[80..84].copy_from_slice(&be32(height << 16));
    atom(b"tkhd", &body)
}

fn mdhd(timescale: u32, duration: u32) -> Vec<u8> {
    let mut body = vec![0u8; 24];
    body[12..16].copy_from_slice(&be32(timescale));
    body[16..20].copy_from_slice(&be32(duration));
    atom(b"mdhd", &body)
}

fn stsd(codec: &[u8; 4]) -> Vec<u8> {
    let mut body = vec![0, 0, 0, 0];
    body.extend_from_slice(&be32(1));
    body.extend_from_slice(&be32(20));
    body.extend_from_slice(codec);
    body.extend_from_slice(&[0u8; 12]);
    atom(b"stsd", &body)
}

/// A HAP frame: a 4-byte section header (24-bit little-endian length and
/// type 0xAB, uncompressed RGB DXT1) and the texture bytes.
fn hap_frame(payload: &[u8]) -> Vec<u8> {
    let n = payload.len() as u32;
    let mut out = vec![(n & 0xff) as u8, ((n >> 8) & 0xff) as u8, ((n >> 16) & 0xff) as u8, 0xAB];
    out.extend_from_slice(payload);
    out
}

struct Movie {
    bytes: Vec<u8>,
    frames: Vec<Vec<u8>>,
}

struct Parts {
    mdat: Vec<u8>,
    trak: Vec<u8>,
    frames: Vec<Vec<u8>>,
}

/// `mdat` first, holding the frames, then `moov` with one track whose
/// frames lie `per_chunk` to a chunk.
fn movie(frame_count: usize, per_chunk: u32) -> Movie {
    let p = parts(frame_count, per_chunk);
    let mut bytes = p.mdat;
    bytes.extend(atom(b"moov", &p.trak));
    Movie { bytes, frames: p.frames }
}

fn parts(frame_count: usize, per_chunk: u32) -> Parts {
    let mut frames = Vec::new();
    let mut payloads = Vec::new();
    for i in 0..frame_count {
        let payload: Vec<u8> = (0..(8 + i)).map(|k| (k + 16 * i) as u8).collect();
        frames.push(hap_frame(&payload));
        payloads.push(payload);
    }
    let mut mdat_body = Vec::new();
    let mut frame_offsets = Vec::new();
    for f in &frames {
        frame_offsets.push(8 + mdat_body.len() as u32);
        mdat_body.extend_from_slice(f);
    }
    let mdat = atom(b"mdat", &mdat_body);
    let sizes: Vec<u32> = frames.iter().map(|f| f.len() as u32).collect();
    let chunk_offsets: Vec<u32> =
        frame_offsets.iter().step_by(per_chunk as usize).copied().collect();
    let mut stbl_body = stsd(b"Hap1");
    let mut stsz_body = vec![0, 0, 0, 0, 0, 0, 0, 0];
    stsz_body.extend_from_slice(&be32(sizes.len() as u32));
    for s in &sizes {
        stsz_body.extend_from_slice(&be32(*s));
    }
    stbl_body.extend(atom(b"stsz", &stsz_body));
    stbl_body.extend(atom(b"stco", &full_box(&chunk_offsets, chunk_offsets.len() as u32)));
    stbl_body.extend(atom(b"stsc", &full_box(&[1, per_chunk, 1], 1)));
    stbl_body.extend(atom(b"stts", &full_box(&[frame_count as u32, 1001], 1)));
    let stbl = atom(b"stbl", &stbl_body);
    let minf = atom(b"minf", &stbl);
    let mut mdia_body = mdhd(30000, 1001 * frame_count as u32);
    mdia_body.extend(minf);
    let mdia = atom(b"mdia", &mdia_body);
    let mut trak_body = tkhd(1920, 1080);
    trak_body.extend(mdia);
    let trak = atom(b"trak", &trak_body);
    Parts { mdat, trak, frames: payloads }
}

#[test]
fn opens_a_movie_and_reports_its_track() {
    let m = movie(4, 2);
    assert!(movie_layout_is_sound(&m.bytes));
    let reader = WebHapReader::new(m.bytes.clone()).unwrap();
    assert_eq!(reader.width(), 1920);
    assert_eq!(reader.height(), 1080);
    assert_eq!(reader.frame_count(), 4);
    assert_eq!(reader.timescale(), 30000);
    assert_eq!(reader.duration_ticks(), 4004);
    assert_eq!(reader.codec_type(), "Hap1");
    assert_eq!(reader.sample_deltas(), &[1001, 1001, 1001, 1001]);
    assert!(reader.sample_delta_sum_fits());
    assert_eq!(reader.sample_delta_sum(), 4004);
}

#[test]
fn reads_every_frame_of_every_chunk() {
    for per_chunk in 1..=3u32 {
        let m = movie(5, per_chunk);
        let reader = WebHapReader::new(m.bytes.clone()).unwrap();
        for i in 0..5u32 {
            assert!(!reader.frame_lookup_overflows(i));
            let frame = reader.read_frame(i).unwrap();
            assert_eq!(frame.data(), &m.frames[i as usize][..]);
            assert_eq!(frame.format(), "RgbDxt1");
            assert_eq!(frame.texture_kind(), TextureKind::RgbDxt1);
            assert_eq!(frame.webgl_format(), 0x83F1);
            assert_eq!(frame.width(), 1920);
            assert_eq!(frame.height(), 1080);
        }
    }
}

#[test]
fn frame_index_past_the_end_is_out_of_range() {
    let m = movie(3, 1);
    let reader = WebHapReader::new(m.bytes).unwrap();
    assert!(matches!(reader.read_frame(3), Err(FrameError::OutOfRange)));
    assert!(matches!(reader.read_frame(u32::MAX), Err(FrameError::OutOfRange)));
}

#[test]
fn chunk_without_offset_is_an_invalid_chunk_index() {
    // Runs of one frame a chunk from chunk 1 and from chunk 3, but only one chunk offset.
    let stbl = {
        let mut b = stsd(b"Hap1");
        b.extend(atom(b"stsz", &[0, 0, 0, 0, 0, 0, 0, 10, 0, 0, 0, 4]));
        b.extend(atom(b"stco", &full_box(&[1000], 1)));
        b.extend(atom(b"stsc", &full_box(&[1, 1, 1, 3, 1, 1], 2)));
        b
    };
    let moov = atom(b"moov", &atom(b"trak", &atom(b"mdia", &atom(b"minf", &atom(b"stbl", &stbl)))));
    let mut bytes = atom(b"mdat", &[]);
    bytes.extend(moov);
    let reader = WebHapReader::new(bytes).unwrap();
    // Frame 0 lies in chunk 0, at offset 1000, past the end of the file.
    assert!(matches!(reader.read_frame(0), Err(FrameError::ReadPastEnd)));
    // Frame 1 lies in chunk 1, which has no offset.
    assert!(matches!(reader.read_frame(1), Err(FrameError::InvalidChunkIndex)));
    // Frame 2 reaches the second run, whose first chunk lies past the end of the table.
    assert!(reader.frame_lookup_overflows(2));
}

#[test]
fn an_empty_frame_is_read_anywhere_and_given_to_hap() {
    let mut stbl = stsd(b"Hap1");
    stbl.extend(atom(b"stsz", &[0, 0, 0, 0, 0, 0, 0, 0, 0, 0, 0, 2, 0, 0, 0, 0, 0, 0, 0, 4]));
    stbl.extend(atom(b"stco", &full_box(&[5000, 6000], 2)));
    stbl.extend(atom(b"stsc", &full_box(&[1, 1, 1], 1)));
    let moov = atom(b"moov", &atom(b"trak", &atom(b"mdia", &atom(b"minf", &atom(b"stbl", &stbl)))));
    let mut bytes = atom(b"mdat", &[]);
    bytes.extend(moov);
    let reader = WebHapReader::new(bytes).unwrap();
    assert!(matches!(reader.read_frame(0), Err(FrameError::Hap(_))));
    assert!(matches!(reader.read_frame(1), Err(FrameError::ReadPastEnd)));
}

#[test]
fn undecodable_frame_is_a_hap_error() {
    let mut m = movie(1, 1);
    // Replace the section type of the only frame by one that HAP does not know.
    m.bytes[8 + 3] = 0x42;
    let reader = WebHapReader::new(m.bytes).unwrap();
    assert!(matches!(reader.read_frame(0), Err(FrameError::Hap(_))));
}

#[test]
fn lookup_overflow_is_reported() {
    // A run whose first chunk is 0 makes the chunk index underflow.
    let mut stbl = stsd(b"Hap1");
    stbl.extend(atom(b"stsz", &[0, 0, 0, 0, 0, 0, 0, 1, 0, 0, 0, 2]));
    stbl.extend(atom(b"stco", &full_box(&[8], 1)));
    stbl.extend(atom(b"stsc", &full_box(&[0, 2, 1], 1)));
    let moov = atom(b"moov", &atom(b"trak", &atom(b"mdia", &atom(b"minf", &atom(b"stbl", &stbl)))));
    let mut bytes = atom(b"mdat", &[0, 0]);
    bytes.extend(moov);
    let reader = WebHapReader::new(bytes).unwrap();
    assert!(reader.frame_lookup_overflows(0));
    assert!(reader.frame_lookup_overflows(1));
}

#[test]
fn missing_top_level_atoms_are_errors() {
    let m = movie(2, 1);
    let mdat_len = u32::from_be_bytes([m.bytes[0], m.bytes[1], m.bytes[2], m.bytes[3]]) as usize;
    let only_mdat = m.bytes[..mdat_len].to_vec();
    let only_moov = m.bytes[mdat_len..].to_vec();
    assert!(matches!(WebHapReader::new(only_mdat), Err(ParseError::NoMoovAtom)));
    assert!(matches!(WebHapReader::new(only_moov), Err(ParseError::NoMdatAtom)));
    assert!(matches!(WebHapReader::new(Vec::new()), Err(ParseError::NoMoovAtom)));
}

#[test]
fn trailing_bytes_after_the_last_atom_are_an_unexpected_eof() {
    let mut m = movie(2, 1);
    m.bytes.extend_from_slice(&[0, 0, 0]);
    assert!(matches!(WebHapReader::new(m.bytes), Err(ParseError::UnexpectedEof)));
}

#[test]
fn zero_sized_top_level_atom_ends_the_walk() {
    let m = movie(2, 1);
    let mut bytes = m.bytes.clone();
    bytes.extend_from_slice(&[0, 0, 0, 0, b'f', b'r', b'e', b'e', 1, 2, 3]);
    assert!(WebHapReader::new(bytes).is_ok());
}

#[test]
fn a_track_without_codec_is_passed_over() {
    let mut stbl = Vec::new();
    stbl.extend(atom(b"stsz", &[0, 0, 0, 0, 0, 0, 0, 9, 0, 0, 0, 1]));
    let trak_no_codec = atom(b"trak", &atom(b"mdia", &atom(b"minf", &atom(b"stbl", &stbl))));
    let moov = atom(b"moov", &trak_no_codec);
    let mut bytes = atom(b"mdat", &[]);
    bytes.extend(moov);
    assert!(matches!(WebHapReader::new(bytes.clone()), Err(ParseError::NoHapTrack)));

    // The same file with a usable second track opens on that track.
    let p = parts(1, 1);
    let mut moov_body = trak_no_codec.clone();
    moov_body.extend_from_slice(&p.trak);
    let mut bytes = p.mdat;
    bytes.extend(atom(b"moov", &moov_body));
    let track = parse_movie(&bytes).unwrap();
    assert_eq!(track.codec_type, b"Hap1".to_vec());
    assert_eq!(track.frame_count, 1);
}

#[test]
fn an_atom_shorter_than_its_header_is_unsound() {
    let mut trak_body = tkhd(16, 16);
    trak_body.extend_from_slice(&[0, 0, 0, 4, b'f', b'r', b'e', b'e']);
    let moov = atom(b"moov", &atom(b"trak", &trak_body));
    let mut bytes = atom(b"mdat", &[]);
    bytes.extend(moov);
    assert!(!movie_layout_is_sound(&bytes));

    let mut short_moov = atom(b"mdat", &[]);
    short_moov.extend_from_slice(&[0, 0, 0, 4, b'm', b'o', b'o', b'v']);
    assert!(!movie_layout_is_sound(&short_moov));
}

#[test]
fn later_top_level_moov_wins() {
    let first = movie(1, 1);
    let second = movie(3, 1);
    // Keep the second movie's mdat and moov, and put the first movie's moov before them.
    let mdat_len = u32::from_be_bytes([first.bytes[0], first.bytes[1], first.bytes[2], first.bytes[3]]) as usize;
    let mut bytes = first.bytes[mdat_len..].to_vec();
    bytes.extend_from_slice(&second.bytes);
    let track = parse_movie(&bytes).unwrap();
    assert_eq!(track.frame_count, 3);
}

#[test]
fn stsz_with_a_common_size_repeats_it() {
    assert_eq!(parse_stsz(&[0, 0, 0, 0, 0, 0, 0, 7, 0, 0, 0, 3]).unwrap(), vec![7, 7, 7]);
    assert_eq!(
        parse_stsz(&[0, 0, 0, 0, 0, 0, 0, 0, 0, 0, 0, 2, 0, 0, 1, 0, 0, 0, 0, 5]).unwrap(),
        vec![256, 5]
    );
    assert!(matches!(parse_stsz(&[0, 0, 0, 0, 0, 0, 0, 0, 0, 0, 0, 2, 0, 0, 1, 0]), Err(ParseError::UnexpectedEof)));
    assert!(matches!(parse_stsz(&[0; 11]), Err(ParseError::UnexpectedEof)));
}

#[test]
fn chunk_offsets_below_mdat_are_made_absolute() {
    let body = full_box(&[4, 100, 1000], 3);
    assert_eq!(parse_stco(&body, 500).unwrap(), vec![512, 608, 1000]);
    let mut body64 = vec![0, 0, 0, 0, 0, 0, 0, 2];
    body64.extend_from_slice(&5u64.to_be_bytes());
    body64.extend_from_slice(&0x1_0000_0000u64.to_be_bytes());
    assert_eq!(parse_co64(&body64, 16).unwrap(), vec![29, 0x1_0000_0000]);
    assert!(matches!(parse_co64(&body64[..20], 16), Err(ParseError::UnexpectedEof)));
    assert!(matches!(parse_stco(&full_box(&[1], 2), 0), Err(ParseError::UnexpectedEof)));
}

#[test]
fn stsc_and_stts_tables() {
    let runs = parse_stsc(&full_box(&[1, 4, 1, 3, 2, 1], 2)).unwrap();
    assert_eq!(
        runs,
        vec![
            SampleToChunkEntry { first_chunk: 1, samples_per_chunk: 4, sample_description_index: 1 },
            SampleToChunkEntry { first_chunk: 3, samples_per_chunk: 2, sample_description_index: 1 },
        ]
    );
    assert_eq!(parse_stts(&full_box(&[2, 500, 1, 250, 0, 9], 3)).unwrap(), vec![500, 500, 250]);
    assert!(matches!(parse_stts(&full_box(&[2, 500], 2)), Err(ParseError::UnexpectedEof)));
    assert!(matches!(parse_stsc(&[0, 0, 0]), Err(ParseError::UnexpectedEof)));
}

#[test]
fn codec_bytes_that_are_not_utf8_are_replaced() {
    let mut p = parts(1, 1);
    let at = p.trak.windows(4).position(|w| w == b"Hap1").unwrap();
    p.trak[at] = 0xff;
    let mut bytes = p.mdat;
    bytes.extend(atom(b"moov", &p.trak));
    let reader = WebHapReader::new(bytes).unwrap();
    assert_eq!(reader.codec_type(), "\u{FFFD}ap1");
}

#[test]
fn file_sizes_are_admitted() {
    assert!(file_size_admitted(0));
    assert!(file_size_admitted(1 << 40));
}

#[test]
fn parse_errors_are_reported_in_words() {
    assert_eq!(ParseError::UnexpectedEof.message(), "failed to fill whole buffer");
    assert_eq!(ParseError::NoMoovAtom.message(), "No moov atom found");
    assert_eq!(ParseError::NoMdatAtom.message(), "No mdat atom found");
    assert_eq!(ParseError::NoHapTrack.message(), "No HAP track found");
}

#[test]
fn header_atoms() {
    let stsd_atom = stsd(b"Hap5");
    assert_eq!(parse_stsd(&stsd_atom[8..]), Some(b"Hap5".to_vec()));
    assert_eq!(parse_stsd(&full_box(&[0, 0, 0, 0, 0], 0)), None);
    let t = tkhd(640, 360);
    assert_eq!(parse_tkhd(&t[8..], 1, 2), (640, 360));
    assert_eq!(parse_tkhd(&t[8..70], 1, 2), (1, 2));
    let mut v1 = vec![1u8; 92];
    v1[84..88].copy_from_slice(&be32(320 << 16 | 0x8000));
    v1[88..92].copy_from_slice(&be32(240 << 16));
    assert_eq!(parse_tkhd(&v1, 0, 0), (320, 240));
    let m = mdhd(600, 1200);
    assert_eq!(parse_mdhd(&m[8..], 0, 0).unwrap(), (600, 1200));
    let mut m1 = vec![0u8; 32];
    m1[0] = 1;
    m1[20..24].copy_from_slice(&be32(90000));
    m1[24..32].copy_from_slice(&(1u64 << 40).to_be_bytes());
    assert_eq!(parse_mdhd(&m1, 0, 0).unwrap(), (90000, 1u64 << 40));
    assert!(matches!(parse_mdhd(&m1[..28], 0, 0), Err(ParseError::UnexpectedEof)));
    assert_eq!(parse_mdhd(&m1[..20], 7, 8).unwrap(), (7, 8));
}

#[test]
fn a_failing_frame_fails_alike_each_time() {
    let mut m = movie(1, 1);
    m.bytes[8 + 3] = 0x42;
    let reader = WebHapReader::new(m.bytes).unwrap();
    assert!(reader.frame_fits_decoder(0));
    let first = match reader.read_frame(0) {
        Err(FrameError::Hap(e)) => e.to_string(),
        _ => panic!("expected a HAP error"),
    };
    let second = match reader.read_frame(0) {
        Err(FrameError::Hap(e)) => e.to_string(),
        _ => panic!("expected a HAP error"),
    };
    assert_eq!(first, second);
    assert_eq!(first, "Invalid HAP frame: Unknown top-level type: 0x42");
}

#[test]
fn a_frame_read_twice_gives_the_same_texture() {
    let m = movie(3, 2);
    let reader = WebHapReader::new(m.bytes).unwrap();
    for i in 0..3 {
        assert!(reader.frame_fits_decoder(i));
        let a = reader.read_frame(i).unwrap();
        let b = reader.read_frame(i).unwrap();
        assert_eq!(a.data(), b.data());
        assert_eq!(a.texture_kind(), b.texture_kind());
        assert_eq!((a.width(), a.height()), (b.width(), b.height()));
    }
}

#[test]
fn frame_lengths_fit_this_machine() {
    // A plain frame whose 8-byte header declares 2^32 - 1 bytes: the sum
    // 8 + (2^32 - 1) fits a 64-bit usize, and the frame is then too short.
    let big = [0u8, 0, 0, 0xAB, 0xFF, 0xFF, 0xFF, 0xFF];
    assert_eq!(hap_frame_fits(&big), usize::BITS > 32);
    // Short, unknown or ordinary frames fit.
    assert!(hap_frame_fits(&[]));
    assert!(hap_frame_fits(&[1, 0, 0, 0x42, 0]));
    assert!(hap_frame_fits(&[2, 0, 0, 0xAB, 7, 7]));
    // A Snappy frame declaring 2^32 - 1 output bytes fits only where isize
    // holds that many.
    let snappy = [5u8, 0, 0, 0xBB, 0xFF, 0xFF, 0xFF, 0xFF, 0x0F];
    assert_eq!(hap_frame_fits(&snappy), usize::BITS > 32);
    // A complex frame with one uncompressed chunk.
    let mut complex = vec![0u8, 0, 0, 0xCB];
    let mut container = vec![1u8, 0, 0, 0x02, 0x0A];
    container.extend_from_slice(&[4, 0, 0, 0x03, 3, 0, 0, 0]);
    let mut inner = vec![container.len() as u8, 0, 0, 0x01];
    inner.extend_from_slice(&container);
    inner.extend_from_slice(&[9, 9, 9]);
    complex[0] = inner.len() as u8;
    complex.extend_from_slice(&inner);
    assert!(hap_frame_fits(&complex));
}

#[test]
fn two_runs_place_frames_in_their_chunks() {
    // Chunk 1 holds two frames, chunks 2 and 3 one frame each.
    let payloads: Vec<Vec<u8>> = (0..4u8).map(|i| vec![i; 8 + i as usize]).collect();
    let frames: Vec<Vec<u8>> = payloads.iter().map(|p| hap_frame(p)).collect();
    let mut mdat_body = Vec::new();
    let mut starts = Vec::new();
    for f in &frames {
        starts.push(8 + mdat_body.len() as u32);
        mdat_body.extend_from_slice(f);
    }
    let mut stbl = stsd(b"Hap1");
    let mut stsz_body = vec![0, 0, 0, 0, 0, 0, 0, 0];
    stsz_body.extend_from_slice(&be32(4));
    for f in &frames {
        stsz_body.extend_from_slice(&be32(f.len() as u32));
    }
    stbl.extend(atom(b"stsz", &stsz_body));
    stbl.extend(atom(b"stco", &full_box(&[starts[0], starts[2], starts[3]], 3)));
    stbl.extend(atom(b"stsc", &full_box(&[1, 2, 1, 2, 1, 1], 2)));
    let moov = atom(b"moov", &atom(b"trak", &atom(b"mdia", &atom(b"minf", &atom(b"stbl", &stbl)))));
    let mut bytes = atom(b"mdat", &mdat_body);
    bytes.extend(moov);
    let reader = WebHapReader::new(bytes).unwrap();
    for i in 0..4u32 {
        assert!(!reader.frame_lookup_overflows(i));
        let frame = reader.read_frame(i).unwrap();
        assert_eq!(frame.data(), &payloads[i as usize][..]);
    }
}
