//! The length fields of a HAP frame, and whether the arithmetic that a HAP
//! decoder does on them stays within this machine's `usize` and `isize`.
//!
//! A HAP frame is a section (a 4-byte header of a 24-bit little-endian length
//! and a type byte, or an 8-byte header whose 24-bit length is 0 and whose
//! 32-bit length follows). A complex frame holds a decode-instructions
//! container of sections (compressor, size and offset tables) followed by
//! the chunks that those tables describe.

use vstd::prelude::*;
use vstd::slice::slice_subrange;

verus! {

/// Three bytes at `p`, little-endian.
pub open spec fn le24(s: Seq<u8>, p: int) -> nat {
    (s[p] + s[p + 1] * 256 + s[p + 2] * 65536) as nat
}

/// Four bytes at `p`, little-endian.
pub open spec fn le32(s: Seq<u8>, p: int) -> nat {
    (le24(s, p) + s[p + 3] * 16777216) as nat
}

/// The section header at the front of `s`: the section's length, its type
/// and the header's own length; none when `s` is too short to hold it.
pub open spec fn section_header(s: Seq<u8>) -> Option<(nat, u8, nat)> {
    if s.len() < 4 {
        None
    } else if le24(s, 0) == 0 {
        if s.len() < 8 {
            None
        } else {
            Some((le32(s, 4), s[3], 8))
        }
    } else {
        Some((le24(s, 0), s[3], 4))
    }
}

/// Top-level types whose texture is one Snappy block.
pub open spec fn is_snappy_type(t: u8) -> bool {
    t == 0xBB || t == 0xBE || t == 0xBF || t == 0xBC || t == 0xB1 || t == 0xB2 || t == 0xB3
}

/// Top-level types whose texture is described by decode instructions.
pub open spec fn is_complex_type(t: u8) -> bool {
    t == 0xCB || t == 0xCE || t == 0xCF || t == 0xCC || t == 0xC1 || t == 0xC2 || t == 0xC3
        || t == 0x0D
}

/// Top-level types whose texture is stored as it stands.
pub open spec fn is_plain_type(t: u8) -> bool {
    t == 0xAB || t == 0xAE || t == 0xAF || t == 0xAC || t == 0xA1 || t == 0xA2 || t == 0xA3
}

/// The varint read from index `i` on, at most five bytes in all, with `acc`
/// gathered so far and `scale` the weight of byte `i`.
pub open spec fn varint_from(s: Seq<u8>, i: nat, acc: nat, scale: nat) -> Option<nat>
    decreases 5 - i,
{
    if i >= 5 || i >= s.len() {
        None
    } else if s[i as int] < 128 {
        Some((acc + s[i as int] * scale) as nat)
    } else {
        varint_from(s, i + 1, (acc + (s[i as int] - 128) * scale) as nat, scale * 128)
    }
}

/// The decompressed length that a Snappy block declares in its header; none
/// when the header is not a varint of at most five bytes.
pub open spec fn snappy_declared_len(s: Seq<u8>) -> Option<nat> {
    varint_from(s, 0, 0, 1)
}

/// The output of a Snappy block is allocated at the length its header
/// declares (a header above `u32::MAX` is refused before that).
pub open spec fn snappy_fits(s: Seq<u8>) -> bool {
    match snappy_declared_len(s) {
        Some(n) => n <= u32::MAX ==> n <= isize::MAX,
        None => true,
    }
}

/// The tables of a decode-instructions container, read from `pos` on: the
/// last compressor (type 2), size (type 3) and offset (type 4) table seen.
pub open spec fn tables_fit(
    c: Seq<u8>,
    pos: nat,
    comp: Option<Seq<u8>>,
    size: Option<Seq<u8>>,
    off: Option<Seq<u8>>,
    data: Seq<u8>,
) -> bool
    decreases c.len() - pos,
{
    if pos >= c.len() || c.len() - pos < 4 {
        chunks_fit(comp, size, off, data)
    } else {
        match section_header(c.subrange(pos as int, c.len() as int)) {
            None => true,
            Some((sl, st, hl)) => {
                let start = pos + hl;
                if start + sl > usize::MAX {
                    false
                } else if start + sl > c.len() {
                    true
                } else {
                    let sec = c.subrange(start as int, (start + sl) as int);
                    tables_fit(
                        c,
                        start + sl,
                        if st == 2 {
                            Some(sec)
                        } else {
                            comp
                        },
                        if st == 3 {
                            Some(sec)
                        } else {
                            size
                        },
                        if st == 4 {
                            Some(sec)
                        } else {
                            off
                        },
                        data,
                    )
                }
            },
        }
    }
}

/// The chunk tables of a complex frame: the chunk count times four (the
/// size table's length) and times twelve (the bytes of the per-chunk
/// records, each a compressor byte and two `u32`s at 4-byte alignment) must
/// fit; then each chunk in turn.
pub open spec fn chunks_fit(
    comp: Option<Seq<u8>>,
    size: Option<Seq<u8>>,
    off: Option<Seq<u8>>,
    data: Seq<u8>,
) -> bool {
    match (comp, size) {
        (Some(ct), Some(st)) => {
            let n = ct.len();
            if n == 0 {
                true
            } else if n * 4 > usize::MAX {
                false
            } else if st.len() != n * 4 {
                true
            } else if n * 12 > isize::MAX {
                false
            } else {
                chunk_walk(ct, st, off, data, 0, 0, 0)
            }
        },
        _ => true,
    }
}

/// Chunk `i` on, with `running` the end of the chunks read so far (where the
/// next one starts when there is no offset table) and `total` the texture
/// bytes gathered so far. The end of each chunk must fit in `usize`; each
/// Snappy chunk's output must fit in `isize`, and the texture, which grows
/// by doubling its capacity, at most half of `isize::MAX`.
pub open spec fn chunk_walk(
    ct: Seq<u8>,
    st: Seq<u8>,
    off: Option<Seq<u8>>,
    data: Seq<u8>,
    i: nat,
    running: nat,
    total: nat,
) -> bool
    decreases ct.len() - i,
{
    if i >= ct.len() {
        true
    } else {
        let size = le32(st, 4 * i as int);
        let offset: Option<nat> = match off {
            Some(o) => if o.len() < 4 * (i + 1) {
                None
            } else {
                Some(le32(o, 4 * i as int))
            },
            None => Some(running),
        };
        match offset {
            None => true,
            Some(p) => {
                if p + size > usize::MAX {
                    false
                } else if p + size > data.len() {
                    true
                } else if ct[i as int] != 0x0A && ct[i as int] != 0x0B {
                    true
                } else {
                    let out: Option<nat> = if ct[i as int] == 0x0A {
                        Some(size)
                    } else {
                        match snappy_declared_len(data.subrange(p as int, (p + size) as int)) {
                            Some(m) => if m <= u32::MAX {
                                Some(m)
                            } else {
                                None
                            },
                            None => None,
                        }
                    };
                    match out {
                        None => true,
                        Some(m) => if m > isize::MAX {
                            false
                        } else if 2 * (total + m) > isize::MAX {
                            false
                        } else {
                            chunk_walk(
                                ct,
                                st,
                                off,
                                data,
                                i + 1,
                                if off is None {
                                    p + size
                                } else {
                                    running
                                },
                                total + m,
                            )
                        },
                    }
                }
            },
        }
    }
}

/// A complex frame's section: its decode-instructions container (type 1)
/// must end within `usize`, and its tables and chunks must fit.
pub open spec fn complex_fits(s: Seq<u8>) -> bool {
    match section_header(s) {
        None => true,
        Some((cl, ct, ch)) => {
            if ct != 1 {
                true
            } else if ch + cl > usize::MAX {
                false
            } else if ch + cl > s.len() {
                true
            } else {
                tables_fit(
                    s.subrange(ch as int, (ch + cl) as int),
                    0,
                    None,
                    None,
                    None,
                    s.subrange((ch + cl) as int, s.len() as int),
                )
            }
        },
    }
}

/// Whether the lengths that a HAP frame declares keep the decoder's
/// arithmetic within `usize` and its buffers within `isize`: the end of the
/// top-level section, and then what its type holds. Frames that are cut
/// short or of an unknown type fit, since decoding stops there.
pub open spec fn frame_fits(f: Seq<u8>) -> bool {
    match section_header(f) {
        None => true,
        Some((len, t, h)) => {
            if !(is_snappy_type(t) || is_complex_type(t) || is_plain_type(t)) {
                true
            } else if h + len > usize::MAX {
                false
            } else if h + len > f.len() {
                true
            } else {
                let sec = f.subrange(h as int, (h + len) as int);
                if is_snappy_type(t) {
                    snappy_fits(sec)
                } else if is_complex_type(t) {
                    complex_fits(sec)
                } else {
                    true
                }
            }
        },
    }
}

fn read_le24(s: &[u8], p: usize) -> (v: u32)
    requires
        p + 3 <= s.len(),
    ensures
        v == le24(s@, p as int),
{
    s[p] as u32 + s[p + 1] as u32 * 256 + s[p + 2] as u32 * 65536
}

fn read_le32(s: &[u8], p: usize) -> (v: u32)
    requires
        p + 4 <= s.len(),
    ensures
        v == le32(s@, p as int),
{
    read_le24(s, p) + s[p + 3] as u32 * 16777216
}

fn read_section_header(s: &[u8]) -> (r: Option<(u32, u8, usize)>)
    ensures
        section_header(s@) == match r {
            Some((l, t, h)) => Some((l as nat, t, h as nat)),
            None => None,
        },
{
    if s.len() < 4 {
        return None;
    }
    let short: u32 = read_le24(s, 0);
    if short == 0 {
        if s.len() < 8 {
            None
        } else {
            Some((read_le32(s, 4), s[3], 8))
        }
    } else {
        Some((short, s[3], 4))
    }
}

fn read_snappy_len(s: &[u8]) -> (r: Option<u64>)
    ensures
        snappy_declared_len(s@) == match r {
            Some(n) => Some(n as nat),
            None => None,
        },
{
    let mut i: usize = 0;
    let mut acc: u64 = 0;
    let mut scale: u64 = 1;
    while i < 5 && i < s.len()
        invariant
            i <= 4,
            acc < scale,
            i == 0 ==> scale == 1,
            i == 1 ==> scale == 0x80,
            i == 2 ==> scale == 0x4000,
            i == 3 ==> scale == 0x20_0000,
            i == 4 ==> scale == 0x1000_0000,
            snappy_declared_len(s@) == varint_from(s@, i as nat, acc as nat, scale as nat),
        decreases 5 - i,
    {
        let b: u8 = s[i];
        if b < 128 {
            return Some(acc + b as u64 * scale);
        }
        assert(acc + (b - 128) * scale < scale * 128) by (nonlinear_arith)
            requires
                acc < scale,
                b < 256,
                b >= 128,
        ;
        acc = acc + (b as u64 - 128) * scale;
        if i == 4 {
            assert(varint_from(s@, 5, acc as nat, (scale * 128) as nat) is None);
            return None;
        }
        scale = scale * 128;
        i = i + 1;
    }
    None
}

fn snappy_fits_exec(s: &[u8]) -> (b: bool)
    ensures
        b == snappy_fits(s@),
{
    match read_snappy_len(s) {
        Some(n) => !(n <= 0xffff_ffff && n as u128 > isize::MAX as u128),
        None => true,
    }
}


/// A table that may be missing, as a sequence.
pub open spec fn opt_view(o: Option<&[u8]>) -> Option<Seq<u8>> {
    match o {
        Some(x) => Some(x@),
        None => None,
    }
}

fn chunk_walk_exec(ct: &[u8], st: &[u8], off: Option<&[u8]>, data: &[u8]) -> (b: bool)
    requires
        st@.len() == ct@.len() * 4,
        ct@.len() * 4 <= usize::MAX,
    ensures
        b == chunk_walk(ct@, st@, opt_view(off), data@, 0, 0, 0),
{
    let mut i: usize = 0;
    let mut running: usize = 0;
    let mut total: u64 = 0;
    while i < ct.len()
        invariant
            i <= ct@.len(),
            st@.len() == ct@.len() * 4,
            ct@.len() * 4 <= usize::MAX,
            running <= data@.len(),
            2 * total <= isize::MAX,
            chunk_walk(ct@, st@, opt_view(off), data@, 0, 0, 0) == chunk_walk(
                ct@,
                st@,
                opt_view(off),
                data@,
                i as nat,
                running as nat,
                total as nat,
            ),
        decreases ct@.len() - i,
    {
        let size: u32 = read_le32(st, 4 * i);
        let p: usize = match off {
            Some(o) => {
                if o.len() < 4 * (i + 1) {
                    return true;
                }
                read_le32(o, 4 * i) as usize
            },
            None => running,
        };
        let end: u128 = p as u128 + size as u128;
        if end > usize::MAX as u128 {
            return false;
        }
        if end > data.len() as u128 {
            return true;
        }
        let c: u8 = ct[i];
        if c != 0x0A && c != 0x0B {
            return true;
        }
        let out: u64 = if c == 0x0A {
            size as u64
        } else {
            let chunk = slice_subrange(data, p, end as usize);
            match read_snappy_len(chunk) {
                Some(m) => {
                    if m > 0xffff_ffff {
                        return true;
                    }
                    m
                },
                None => {
                    return true;
                },
            }
        };
        if out as u128 > isize::MAX as u128 {
            return false;
        }
        if 2 * (total as u128 + out as u128) > isize::MAX as u128 {
            return false;
        }
        total = total + out;
        if off.is_none() {
            running = end as usize;
        }
        i = i + 1;
    }
    true
}

fn chunks_fit_exec(
    comp: Option<&[u8]>,
    size: Option<&[u8]>,
    off: Option<&[u8]>,
    data: &[u8],
) -> (b: bool)
    ensures
        b == chunks_fit(opt_view(comp), opt_view(size), opt_view(off), data@),
{
    match (comp, size) {
        (Some(ct), Some(st)) => {
            let n: usize = ct.len();
            if n == 0 {
                true
            } else if n as u128 * 4 > usize::MAX as u128 {
                false
            } else if st.len() != n * 4 {
                true
            } else if n as u128 * 12 > isize::MAX as u128 {
                false
            } else {
                chunk_walk_exec(ct, st, off, data)
            }
        },
        _ => true,
    }
}

fn tables_fit_exec(c: &[u8], data: &[u8]) -> (b: bool)
    ensures
        b == tables_fit(c@, 0, None, None, None, data@),
{
    let mut pos: usize = 0;
    let mut comp: Option<&[u8]> = None;
    let mut size: Option<&[u8]> = None;
    let mut off: Option<&[u8]> = None;
    while pos < c.len() && c.len() - pos >= 4
        invariant
            pos <= c@.len(),
            tables_fit(c@, 0, None, None, None, data@) == tables_fit(
                c@,
                pos as nat,
                opt_view(comp),
                opt_view(size),
                opt_view(off),
                data@,
            ),
        decreases c@.len() - pos,
    {
        let rest = slice_subrange(c, pos, c.len());
        match read_section_header(rest) {
            None => {
                return true;
            },
            Some((sl, st, hl)) => {
                let start: usize = pos + hl;
                let end: u128 = start as u128 + sl as u128;
                if end > usize::MAX as u128 {
                    return false;
                }
                if end > c.len() as u128 {
                    return true;
                }
                let sec = slice_subrange(c, start, end as usize);
                if st == 2 {
                    comp = Some(sec);
                }
                if st == 3 {
                    size = Some(sec);
                }
                if st == 4 {
                    off = Some(sec);
                }
                pos = end as usize;
            },
        }
    }
    chunks_fit_exec(comp, size, off, data)
}

fn complex_fits_exec(s: &[u8]) -> (b: bool)
    ensures
        b == complex_fits(s@),
{
    match read_section_header(s) {
        None => true,
        Some((cl, ct, ch)) => {
            if ct != 1 {
                return true;
            }
            let end: u128 = ch as u128 + cl as u128;
            if end > usize::MAX as u128 {
                return false;
            }
            if end > s.len() as u128 {
                return true;
            }
            let container = slice_subrange(s, ch, end as usize);
            let data = slice_subrange(s, end as usize, s.len());
            tables_fit_exec(container, data)
        },
    }
}

/// Whether the lengths that a HAP frame declares keep the decoder within
/// this machine's `usize` and `isize` (see `frame_fits`).
pub fn hap_frame_fits(frame: &[u8]) -> (b: bool)
    ensures
        b == frame_fits(frame@),
{
    match read_section_header(frame) {
        None => true,
        Some((len, t, h)) => {
            let snappy = t == 0xBB || t == 0xBE || t == 0xBF || t == 0xBC || t == 0xB1 || t == 0xB2
                || t == 0xB3;
            let complex = t == 0xCB || t == 0xCE || t == 0xCF || t == 0xCC || t == 0xC1 || t
                == 0xC2 || t == 0xC3 || t == 0x0D;
            let plain = t == 0xAB || t == 0xAE || t == 0xAF || t == 0xAC || t == 0xA1 || t == 0xA2
                || t == 0xA3;
            if !(snappy || complex || plain) {
                return true;
            }
            let end: u128 = h as u128 + len as u128;
            if end > usize::MAX as u128 {
                return false;
            }
            if end > frame.len() as u128 {
                return true;
            }
            let sec = slice_subrange(frame, h, end as usize);
            if snappy {
                snappy_fits_exec(sec)
            } else if complex {
                complex_fits_exec(sec)
            } else {
                true
            }
        },
    }
}

} // verus!
