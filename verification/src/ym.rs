//! YM tunes: versions 5 and 6 with their full header, and the older versions that hold
//! nothing but register values. Packed tunes are unpacked first.

use crate::lzh;
use crate::paths;
use crate::psg::{AyChip, ChannelLevel, Psg};
use crate::stream;
use crate::stream::{Playing, Position, TrackInfo, CHANNELS, MONITOR_ROWS, SAMPLE_RATE};
use crate::text;
use crate::text::{decimal_of, fill_left, hex_of, lines_of};
use vstd::prelude::*;
use vstd::slice::slice_subrange;
use vstd::string::*;
use vstd::utf8::*;

verus! {

/// The sound generator of these tunes.
pub type YmChip = AyChip;

/// Length of the magic and the signature.
pub const HEADER_LEN: usize = 12;

/// Number of registers in a frame.
pub const AY_REGS: usize = 16;

/// Attribute of tunes that hold all values of one register, then all of the next.
pub const A_STREAMINTERLEAVED: u32 = 1;

/// A decoded tune.
pub struct YmSong {
    pub magic: [u8; 4],
    pub nb_frames: usize,
    pub attributes: u32,
    pub nb_drums: u16,
    pub clock_rate: u32,
    pub player_rate: u16,
    pub loop_frame: usize,
    pub song_name: String,
    pub song_author: String,
    pub song_comment: String,
    /// For each register its value in each frame.
    pub reg_frames: Vec<Vec<u8>>,
}

// ── numbers and strings ─────────────────────────────────────────────────────

/// The big-endian word of four bytes at `i`.
pub open spec fn be32(b: Seq<u8>, i: int) -> int {
    ((b[i] * 256 + b[i + 1]) * 256 + b[i + 2]) * 256 + b[i + 3]
}

/// The big-endian word of two bytes at `i`.
pub open spec fn be16(b: Seq<u8>, i: int) -> int {
    b[i] * 256 + b[i + 1]
}

/// Reads a big-endian word of four bytes and moves past it.
pub fn read_be32(data: &[u8], ptr: &mut usize) -> (r: Result<u32, String>)
    ensures
        *old(ptr) + 4 <= data@.len() ==> r is Ok && r->Ok_0 == be32(data@, *old(ptr) as int)
            && *final(ptr) == *old(ptr) + 4,
        *old(ptr) + 4 > data@.len() ==> r is Err && r->Err_0@ == "Truncated YM header"@ && *final(ptr)
            == *old(ptr),
{
    let i: usize = *ptr;
    if i > data.len() || data.len() - i < 4 {
        return Err("Truncated YM header".to_string());
    }
    *ptr = i + 4;
    Ok(
        ((data[i] as u32 * 256 + data[i + 1] as u32) * 256 + data[i + 2] as u32) * 256 + data[i + 3] as u32,
    )
}

/// Reads a big-endian word of two bytes and moves past it.
pub fn read_be16(data: &[u8], ptr: &mut usize) -> (r: Result<u16, String>)
    ensures
        *old(ptr) + 2 <= data@.len() ==> r is Ok && r->Ok_0 == be16(data@, *old(ptr) as int)
            && *final(ptr) == *old(ptr) + 2,
        *old(ptr) + 2 > data@.len() ==> r is Err && r->Err_0@ == "Truncated YM header"@ && *final(ptr)
            == *old(ptr),
{
    let i: usize = *ptr;
    if i > data.len() || data.len() - i < 2 {
        return Err("Truncated YM header".to_string());
    }
    *ptr = i + 2;
    Ok(data[i] as u16 * 256 + data[i + 1] as u16)
}

/// The text that `String::from_utf8_lossy` makes of bytes that are no UTF-8.
pub uninterp spec fn mended_text(bytes: Seq<u8>) -> Seq<char>;

/// `String::from_utf8_lossy`: valid UTF-8 is decoded; what is put in the place of anything
/// else is left unsaid.
#[verifier::external_body]
fn lossy(bytes: &[u8]) -> (r: String)
    ensures
        r@ == (if valid_utf8(bytes@) {
            decode_utf8(bytes@)
        } else {
            mended_text(bytes@)
        }),
{
    String::from_utf8_lossy(bytes).to_string()
}

/// `std::str::from_utf8`: the text that some bytes encode, none where they are no UTF-8.
#[verifier::external_body]
fn utf8_text(bytes: &[u8]) -> (r: Option<String>)
    ensures
        paths::text_of(r) == (if valid_utf8(bytes@) {
            Some(decode_utf8(bytes@))
        } else {
            None
        }),
{
    std::str::from_utf8(bytes).ok().map(|s| s.to_string())
}

/// The text that some bytes stand for.
pub open spec fn lossy_text(bytes: Seq<u8>) -> Seq<char> {
    if valid_utf8(bytes) {
        decode_utf8(bytes)
    } else {
        mended_text(bytes)
    }
}

/// The first zero byte from `p` on stands `k` bytes further.
pub open spec fn terminator(b: Seq<u8>, p: int, k: int) -> bool {
    &&& 0 <= k
    &&& p + k < b.len()
    &&& b[p + k] == 0
    &&& forall|j: int| 0 <= j < k ==> #[trigger] b[p + j] != 0
}

/// A string that ends within its first 258 bytes.
pub open spec fn has_string(b: Seq<u8>, p: int) -> bool {
    exists|k: int| k <= 257 && #[trigger] terminator(b, p, k)
}

/// The string at `p` and where what follows it starts.
pub open spec fn string_at(b: Seq<u8>, p: int) -> Result<(Seq<char>, int), Seq<char>> {
    if has_string(b, p) {
        let k = choose|k: int| k <= 257 && #[trigger] terminator(b, p, k);
        Ok((lossy_text(b.subrange(p, p + k)), p + k + 1))
    } else if p + 258 <= b.len() {
        Err("YM string too long or missing terminator"@)
    } else {
        Err("YM string extends beyond file end"@)
    }
}

/// Reads a string that ends with a zero byte and moves past it.
pub fn read_nt_string(data: &[u8], ptr: &mut usize) -> (r: Result<String, String>)
    ensures
        string_at(data@, *old(ptr) as int) matches Ok((s, next)) ==> r is Ok && r->Ok_0@ == s
            && *final(ptr) == next,
        string_at(data@, *old(ptr) as int) matches Err(m) ==> r is Err && r->Err_0@ == m && *final(ptr)
            == *old(ptr),
{
    let start: usize = *ptr;
    let ghost b = data@;
    let mut len: usize = 0;
    while start < data.len() && len < data.len() - start
        invariant
            b == data@,
            *ptr == start,
            *old(ptr) == start,
            len <= 257,
            start <= data.len() ==> start + len <= data.len(),
            start > data.len() ==> len == 0,
            forall|j: int| 0 <= j < len ==> #[trigger] b[start + j] != 0,
        decreases data.len() - len,
    {
        if data[start + len] == 0 {
            let out = lossy(slice_subrange(data, start, start + len));
            proof {
                assert(terminator(b, start as int, len as int));
                let k = choose|k: int| k <= 257 && #[trigger] terminator(b, start as int, k);
                assert(terminator(b, start as int, k));
                if k < len {
                    assert(b[start + k] != 0);
                }
                if len < k {
                    assert(b[start + len] != 0);
                }
            }
            *ptr = start + len + 1;
            return Ok(out);
        }
        if len > 256 {
            proof {
                assert forall|k: int| k <= 257 implies !#[trigger] terminator(b, start as int, k) by {
                    if terminator(b, start as int, k) {
                        assert(b[start + k] == 0);
                    }
                }
            }
            return Err("YM string too long or missing terminator".to_string());
        }
        len = len + 1;
    }
    proof {
        assert forall|k: int| k <= 257 implies !#[trigger] terminator(b, start as int, k) by {
            if terminator(b, start as int, k) {
                assert(b[start + k] == 0);
            }
        }
    }
    Err("YM string extends beyond file end".to_string())
}

// ── versions 5 and 6 ────────────────────────────────────────────────────────

/// Where the samples of `n` drums that start at `p` end. Each has its length before it.
pub open spec fn past_drums(b: Seq<u8>, p: int, n: int) -> Result<int, Seq<char>>
    decreases n,
{
    if n <= 0 {
        Ok(p)
    } else if p + 4 > b.len() {
        Err("Truncated YM header"@)
    } else if p + 4 + be32(b, p) > b.len() {
        Err("YM digidrum data exceeds file size"@)
    } else {
        past_drums(b, p + 4 + be32(b, p), n - 1)
    }
}

/// What follows the fixed part of the header.
pub struct YmBody {
    pub name: Seq<char>,
    pub author: Seq<char>,
    pub comment: Seq<char>,
    /// Where the register values start.
    pub data: int,
}

/// The three strings at `p` and where the register values start.
pub open spec fn strings_at(b: Seq<u8>, p: int) -> Result<YmBody, Seq<char>> {
    match string_at(b, p) {
        Err(m) => Err(m),
        Ok((name, p1)) => match string_at(b, p1) {
            Err(m) => Err(m),
            Ok((author, p2)) => match string_at(b, p2) {
                Err(m) => Err(m),
                Ok((comment, data)) => Ok(YmBody { name, author, comment, data }),
            },
        },
    }
}

/// The signature behind the magic.
pub open spec fn signature() -> Seq<u8> {
    seq![0x4Cu8, 0x65, 0x4F, 0x6E, 0x41, 0x72, 0x44, 0x21]
}

/// What a tune of version 5 or 6 holds behind the fixed part of its header, or what is wrong
/// with it.
pub open spec fn body_of(b: Seq<u8>) -> Result<YmBody, Seq<char>> {
    if b.len() < 12 {
        Err("YM file too short"@)
    } else if b.subrange(4, 12) != signature() {
        Err("Invalid YM signature"@)
    } else if b.len() < 34 {
        Err("Truncated YM header"@)
    } else if 34 + be16(b, 32) > b.len() {
        Err("YM extra data exceeds file size"@)
    } else {
        match past_drums(b, 34 + be16(b, 32), be16(b, 20)) {
            Err(m) => Err(m),
            Ok(p) => match strings_at(b, p) {
                Err(m) => Err(m),
                Ok(body) => if 16 * be32(b, 12) > usize::MAX {
                    Err("YM register data overflow"@)
                } else if body.data + 16 * be32(b, 12) > b.len() {
                    Err("Not enough YM register data"@)
                } else {
                    Ok(body)
                },
            },
        }
    }
}

/// The value of register `r` in frame `f` of `frames` frames that start at `data`.
pub open spec fn value_at(b: Seq<u8>, data: int, frames: int, interleaved: bool, r: int, f: int) -> u8 {
    if interleaved {
        b[data + r * frames + f]
    } else {
        b[data + f * 16 + r]
    }
}

impl YmSong {
    /// A tune whose register values cover all of its frames.
    pub open spec fn wf(self) -> bool {
        &&& self.reg_frames@.len() == 16
        &&& forall|r: int| 0 <= r < 16 ==> (#[trigger] self.reg_frames@[r])@.len() == self.nb_frames
    }

    /// The tune is the one that the file `b` of version 5 or 6 describes.
    pub open spec fn decodes(self, b: Seq<u8>, body: YmBody) -> bool {
        &&& self.wf()
        &&& self.nb_frames == be32(b, 12)
        &&& self.attributes == be32(b, 16)
        &&& self.nb_drums == be16(b, 20)
        &&& self.clock_rate == be32(b, 22)
        &&& self.player_rate == be16(b, 26)
        &&& self.loop_frame == be32(b, 28)
        &&& self.song_name@ == body.name
        &&& self.song_author@ == body.author
        &&& self.song_comment@ == body.comment
        &&& forall|r: int, f: int|
            0 <= r < 16 && 0 <= f < self.nb_frames ==> #[trigger] self.reg_frames@[r]@[f] == value_at(
                b,
                body.data,
                self.nb_frames as int,
                self.attributes % 2 == 1,
                r,
                f,
            )
    }

    /// The tune is the one that the file `b` of an older version describes. Such a file holds
    /// fourteen registers, one after the other; `YM3b` files end with the loop frame.
    pub open spec fn decodes_legacy(self, b: Seq<u8>) -> bool {
        &&& self.wf()
        &&& self.nb_frames == legacy_frames(b, self.magic@)
        &&& self.attributes == 1
        &&& self.nb_drums == 0
        &&& self.clock_rate == 2_000_000
        &&& self.player_rate == 50
        &&& self.loop_frame == (if self.magic@ == ym3b() {
            let n = b.len() as int;
            b[n - 4] + 256 * (b[n - 3] + 256 * (b[n - 2] + 256 * b[n - 1]))
        } else {
            0
        })
        &&& self.song_name@ == Seq::<char>::empty()
        &&& self.song_author@ == Seq::<char>::empty()
        &&& self.song_comment@ == Seq::<char>::empty()
        &&& forall|r: int, f: int|
            0 <= r < 16 && 0 <= f < self.nb_frames ==> #[trigger] self.reg_frames@[r]@[f] == (if r < 14 {
                b[4 + r * self.nb_frames + f]
            } else {
                0
            })
    }
}

proof fn lemma_row_in_range(r: int, rows: int, frames: int)
    requires
        0 <= r < rows,
        0 <= frames,
    ensures
        0 <= r * frames,
        r * frames + frames <= rows * frames,
{
    assert(0 <= r * frames && r * frames + frames <= rows * frames) by (nonlinear_arith)
        requires
            0 <= r < rows,
            0 <= frames,
    ;
}

/// Register values stored register after register.
fn take_rows(bytes: &[u8], data: usize, frames: usize, stored: usize) -> (r: Vec<Vec<u8>>)
    requires
        stored <= 16,
        data + stored * frames <= bytes@.len(),
    ensures
        r@.len() == 16,
        forall|i: int| 0 <= i < 16 ==> (#[trigger] r@[i])@.len() == frames,
        forall|i: int, f: int|
            0 <= i < 16 && 0 <= f < frames ==> #[trigger] r@[i]@[f] == (if i < stored {
                bytes@[data + i * frames + f]
            } else {
                0
            }),
{
    let mut out: Vec<Vec<u8>> = Vec::new();
    for reg in 0..AY_REGS
        invariant
            stored <= 16,
            data + stored * frames <= bytes@.len(),
            out@.len() == reg,
            forall|i: int| 0 <= i < reg ==> (#[trigger] out@[i])@.len() == frames,
            forall|i: int, f: int|
                0 <= i < reg && 0 <= f < frames ==> #[trigger] out@[i]@[f] == (if i < stored {
                    bytes@[data + i * frames + f]
                } else {
                    0
                }),
    {
        if reg < stored {
            proof {
                lemma_row_in_range(reg as int, stored as int, frames as int);
            }
            let total: usize = bytes.len();
            assert(reg * frames <= total);
            let start: usize = data + reg * frames;
            let row = vstd::slice::slice_to_vec(slice_subrange(bytes, start, start + frames));
            out.push(row);
        } else {
            out.push(vec![0u8; frames]);
        }
    }
    out
}

/// Register values stored frame after frame.
fn take_columns(bytes: &[u8], data: usize, frames: usize) -> (r: Vec<Vec<u8>>)
    requires
        data + 16 * frames <= bytes@.len(),
    ensures
        r@.len() == 16,
        forall|i: int| 0 <= i < 16 ==> (#[trigger] r@[i])@.len() == frames,
        forall|i: int, f: int|
            0 <= i < 16 && 0 <= f < frames ==> #[trigger] r@[i]@[f] == bytes@[data + f * 16 + i],
{
    let mut out: Vec<Vec<u8>> = Vec::new();
    for reg in 0..AY_REGS
        invariant
            data + 16 * frames <= bytes@.len(),
            out@.len() == reg,
            forall|i: int| 0 <= i < reg ==> (#[trigger] out@[i])@.len() == frames,
            forall|i: int, f: int|
                0 <= i < reg && 0 <= f < frames ==> #[trigger] out@[i]@[f] == bytes@[data + f * 16 + i],
    {
        let total: usize = bytes.len();
        let mut row: Vec<u8> = Vec::new();
        for f in 0..frames
            invariant
                total == bytes@.len(),
                data + 16 * frames <= total,
                reg < 16,
                row@.len() == f,
                forall|g: int| 0 <= g < f ==> #[trigger] row@[g] == bytes@[data + g * 16 + reg],
        {
            row.push(bytes[data + f * AY_REGS + reg]);
        }
        out.push(row);
    }
    out
}

/// Decodes a tune of version 5 or 6.
pub fn parse_ym_v5_v6(bytes: &[u8], magic: [u8; 4]) -> (r: Result<YmSong, String>)
    ensures
        r is Ok <==> body_of(bytes@) is Ok,
        r is Ok ==> r->Ok_0.magic == magic && r->Ok_0.decodes(bytes@, body_of(bytes@)->Ok_0),
        r is Err ==> r->Err_0@ == body_of(bytes@)->Err_0,
{
    let ghost b = bytes@;
    if bytes.len() < HEADER_LEN {
        return Err("YM file too short".to_string());
    }
    let signed = bytes[4] == 0x4C && bytes[5] == 0x65 && bytes[6] == 0x4F && bytes[7] == 0x6E && bytes[8]
        == 0x41 && bytes[9] == 0x72 && bytes[10] == 0x44 && bytes[11] == 0x21;
    proof {
        let s = b.subrange(4, 12);
        if signed {
            assert(s =~= signature());
        } else if s == signature() {
            assert(s[0] == b[4] && s[1] == b[5] && s[2] == b[6] && s[3] == b[7] && s[4] == b[8] && s[5]
                == b[9] && s[6] == b[10] && s[7] == b[11]);
        }
    }
    if !signed {
        return Err("Invalid YM signature".to_string());
    }
    let mut ptr: usize = 12;
    let nb_frames: usize = read_be32(bytes, &mut ptr)? as usize;
    let attributes: u32 = read_be32(bytes, &mut ptr)?;
    let nb_drums: u16 = read_be16(bytes, &mut ptr)?;
    let clock_rate: u32 = read_be32(bytes, &mut ptr)?;
    let player_rate: u16 = read_be16(bytes, &mut ptr)?;
    let loop_frame: usize = read_be32(bytes, &mut ptr)? as usize;
    let extra_size: usize = read_be16(bytes, &mut ptr)? as usize;
    if extra_size > bytes.len() - ptr {
        return Err("YM extra data exceeds file size".to_string());
    }
    ptr = ptr + extra_size;

    for i in 0..nb_drums
        invariant
            b == bytes@,
            ptr <= b.len(),
            past_drums(b, ptr as int, nb_drums - i) == past_drums(b, 34 + be16(b, 32), nb_drums as int),
            body_of(b) == (match past_drums(b, 34 + be16(b, 32), nb_drums as int) {
                Err(m) => Err(m),
                Ok(p) => match strings_at(b, p) {
                    Err(m) => Err(m),
                    Ok(body) => if 16 * nb_frames > usize::MAX {
                        Err("YM register data overflow"@)
                    } else if body.data + 16 * nb_frames > b.len() {
                        Err("Not enough YM register data"@)
                    } else {
                        Ok(body)
                    },
                },
            }),
    {
        let drum_size: usize = read_be32(bytes, &mut ptr)? as usize;
        if drum_size > bytes.len() - ptr {
            return Err("YM digidrum data exceeds file size".to_string());
        }
        ptr = ptr + drum_size;
    }

    let song_name = read_nt_string(bytes, &mut ptr)?;
    let song_author = read_nt_string(bytes, &mut ptr)?;
    let song_comment = read_nt_string(bytes, &mut ptr)?;

    if nb_frames > usize::MAX / 16 {
        return Err("YM register data overflow".to_string());
    }
    let reg_bytes: usize = 16 * nb_frames;
    if reg_bytes > bytes.len() - ptr {
        return Err("Not enough YM register data".to_string());
    }
    let reg_frames = if attributes % 2 == 1 {
        take_rows(bytes, ptr, nb_frames, AY_REGS)
    } else {
        take_columns(bytes, ptr, nb_frames)
    };
    Ok(
        YmSong {
            magic,
            nb_frames,
            attributes,
            nb_drums,
            clock_rate,
            player_rate,
            loop_frame,
            song_name,
            song_author,
            song_comment,
            reg_frames,
        },
    )
}

// ── older versions ──────────────────────────────────────────────────────────

/// The magic of version 3 tunes with a loop frame.
pub open spec fn ym3b() -> Seq<u8> {
    seq![0x59u8, 0x4D, 0x33, 0x62]
}

/// Number of frames in a tune of an older version.
pub open spec fn legacy_frames(b: Seq<u8>, magic: Seq<u8>) -> int {
    if magic == ym3b() {
        (b.len() - 8) / 14
    } else {
        (b.len() - 4) / 14
    }
}

/// What is wrong with a tune of an older version, if anything is.
pub open spec fn legacy_fault(b: Seq<u8>, magic: Seq<u8>) -> Option<Seq<char>> {
    if b.len() < 18 {
        Some("Legacy YM file too short"@)
    } else if legacy_frames(b, magic) == 0 {
        Some("Legacy YM contains no frames"@)
    } else {
        None
    }
}

fn is_ym3b(magic: &[u8; 4]) -> (r: bool)
    ensures
        r == (magic@ == ym3b()),
{
    let r = magic[0] == 0x59 && magic[1] == 0x4D && magic[2] == 0x33 && magic[3] == 0x62;
    proof {
        if r {
            assert(magic@ =~= ym3b());
        } else if magic@ == ym3b() {
            assert(ym3b()[0] == 0x59 && ym3b()[1] == 0x4D && ym3b()[2] == 0x33 && ym3b()[3] == 0x62);
        }
    }
    r
}

/// Decodes a tune of an older version.
pub fn parse_ym_legacy(bytes: &[u8], magic: [u8; 4]) -> (r: Result<YmSong, String>)
    ensures
        r is Err <==> legacy_fault(bytes@, magic@) is Some,
        r is Err ==> r->Err_0@ == legacy_fault(bytes@, magic@)->0,
        r is Ok ==> r->Ok_0.magic == magic && r->Ok_0.decodes_legacy(bytes@),
{
    let n: usize = bytes.len();
    if n < 18 {
        return Err("Legacy YM file too short".to_string());
    }
    let with_loop = is_ym3b(&magic);
    let nb_frames: usize = if with_loop { (n - 8) / 14 } else { (n - 4) / 14 };
    let loop_frame: usize = if with_loop {
        let low: u32 = bytes[n - 4] as u32 + 256 * bytes[n - 3] as u32;
        let high: u32 = bytes[n - 2] as u32 + 256 * bytes[n - 1] as u32;
        (low + 65536 * high) as usize
    } else {
        0
    };
    if nb_frames == 0 {
        return Err("Legacy YM contains no frames".to_string());
    }
    let reg_frames = take_rows(bytes, 4, nb_frames, 14);
    Ok(
        YmSong {
            magic,
            nb_frames,
            attributes: A_STREAMINTERLEAVED,
            nb_drums: 0,
            clock_rate: 2_000_000,
            player_rate: 50,
            loop_frame,
            song_name: String::new(),
            song_author: String::new(),
            song_comment: String::new(),
            reg_frames,
        },
    )
}

// ── any version ─────────────────────────────────────────────────────────────

/// The magics of versions 5 and 6.
pub open spec fn is_v5_v6(magic: Seq<u8>) -> bool {
    magic == seq![0x59u8, 0x4D, 0x35, 0x21] || magic == seq![0x59u8, 0x4D, 0x36, 0x21]
}

/// The magics of the older versions.
pub open spec fn is_legacy(magic: Seq<u8>) -> bool {
    magic == seq![0x59u8, 0x4D, 0x32, 0x21] || magic == seq![0x59u8, 0x4D, 0x33, 0x21] || magic == ym3b()
}

/// What is wrong with a tune, if anything is.
pub open spec fn fault(b: Seq<u8>) -> Option<Seq<char>> {
    if b.len() < 4 {
        Some("YM file too short"@)
    } else if is_v5_v6(b.take(4)) {
        match body_of(b) {
            Err(m) => Some(m),
            Ok(_) => None,
        }
    } else if is_legacy(b.take(4)) {
        legacy_fault(b, b.take(4))
    } else {
        Some("Not a valid YM2/YM3/YM5/YM6 file"@)
    }
}

impl YmSong {
    /// The tune is the one that the file `b` describes.
    pub open spec fn describes(self, b: Seq<u8>) -> bool {
        &&& self.magic@ == b.take(4)
        &&& if is_v5_v6(b.take(4)) {
            body_of(b) matches Ok(body) && self.decodes(b, body)
        } else {
            self.decodes_legacy(b)
        }
    }
}

fn has_magic(magic: &[u8; 4], third: u8, fourth: u8) -> (r: bool)
    ensures
        r == (magic@ == seq![0x59u8, 0x4D, third, fourth]),
{
    let r = magic[0] == 0x59 && magic[1] == 0x4D && magic[2] == third && magic[3] == fourth;
    let ghost want = seq![0x59u8, 0x4D, third, fourth];
    proof {
        if r {
            assert(magic@ =~= want);
        } else if magic@ == want {
            assert(want[0] == 0x59 && want[1] == 0x4D && want[2] == third && want[3] == fourth);
        }
    }
    r
}

/// Decodes a tune that is not packed.
pub fn parse_ym_raw(bytes: &[u8]) -> (r: Result<YmSong, String>)
    ensures
        r is Err <==> fault(bytes@) is Some,
        r is Err ==> r->Err_0@ == fault(bytes@)->0,
        r is Ok ==> r->Ok_0.describes(bytes@) && r->Ok_0.wf(),
{
    if bytes.len() < 4 {
        return Err("YM file too short".to_string());
    }
    let magic: [u8; 4] = [bytes[0], bytes[1], bytes[2], bytes[3]];
    assert(magic@ =~= bytes@.take(4));
    if has_magic(&magic, 0x35, 0x21) || has_magic(&magic, 0x36, 0x21) {
        return parse_ym_v5_v6(bytes, magic);
    }
    if has_magic(&magic, 0x32, 0x21) || has_magic(&magic, 0x33, 0x21) || has_magic(&magic, 0x33, 0x62) {
        return parse_ym_legacy(bytes, magic);
    }
    Err("Not a valid YM2/YM3/YM5/YM6 file".to_string())
}

/// The tune in a file that may be packed.
pub open spec fn content_of(b: Seq<u8>) -> Result<Seq<u8>, Seq<char>> {
    if lzh::looks_packed(b) {
        lzh::unpacked(b)
    } else {
        Ok(b)
    }
}

/// Decodes a tune, unpacking it first where it is packed.
pub fn parse_ym(bytes: &[u8]) -> (r: Result<YmSong, String>)
    ensures
        content_of(bytes@) matches Err(m) ==> r is Err && r->Err_0@ == m,
        content_of(bytes@) matches Ok(b) ==> {
            &&& r is Err <==> fault(b) is Some
            &&& r is Err ==> r->Err_0@ == fault(b)->0
            &&& r is Ok ==> r->Ok_0.describes(b) && r->Ok_0.wf()
        },
        r is Ok ==> r->Ok_0.wf(),
{
    if lzh::is_lzh_compressed(bytes) {
        match lzh::decompress_lzh(bytes) {
            Ok(data) => parse_ym_raw(data.as_slice()),
            Err(m) => Err(m),
        }
    } else {
        parse_ym_raw(bytes)
    }
}

// ── what the player shows ───────────────────────────────────────────────────

/// The name of a tune's format.
pub open spec fn format_name(magic: Seq<u8>) -> Seq<char> {
    if valid_utf8(magic) {
        decode_utf8(magic)
    } else {
        "YM"@
    }
}

/// The name of a tune's format.
pub fn format_of(magic: &[u8; 4]) -> (r: String)
    ensures
        r@ == format_name(magic@),
{
    match utf8_text(magic.as_slice()) {
        Some(name) => name,
        None => "YM".to_string(),
    }
}

/// The lines that describe a tune.
pub open spec fn track_text(song: YmSong) -> Seq<Seq<char>> {
    let head = seq![
        "Format: "@ + format_name(song.magic@),
        "Frames: "@ + text::decimal(song.nb_frames as int),
        "Player rate: "@ + text::decimal(song.player_rate as int) + " Hz"@,
        "Clock rate: "@ + text::decimal(song.clock_rate as int) + " Hz"@,
        "Loop frame: "@ + text::decimal(song.loop_frame as int),
        "Attributes: 0x"@ + text::hex(song.attributes as nat, 8),
        "Digidrums: "@ + text::decimal(song.nb_drums as int),
    ];
    let title = if song.song_name@.len() == 0 {
        Seq::empty()
    } else {
        seq![Seq::empty(), "Title: "@ + song.song_name@]
    };
    let author = if song.song_author@.len() == 0 {
        Seq::empty()
    } else {
        seq!["Author: "@ + song.song_author@]
    };
    let comment = if song.song_comment@.len() == 0 {
        Seq::empty()
    } else {
        seq![Seq::empty(), "Comment:"@] + indented(text::lines(song.song_comment@))
    };
    head + title + author + comment
}

/// Lines with two spaces before them.
pub open spec fn indented(lines: Seq<Seq<char>>) -> Seq<Seq<char>> {
    lines.map_values(|l: Seq<char>| "  "@ + l)
}

fn labelled(label: &str, n: u64, tail: &str) -> (r: String)
    ensures
        r@ == label@ + text::decimal(n as int) + tail@,
{
    let mut s = label.to_string();
    s.append(decimal_of(n).as_str());
    s.append(tail);
    s
}

fn prefixed(label: &str, value: &str) -> (r: String)
    ensures
        r@ == label@ + value@,
{
    let mut s = label.to_string();
    s.append(value);
    s
}

/// The lines that describe a tune.
pub fn build_track_text_lines(song: &YmSong) -> (r: Vec<String>)
    ensures
        text::texts(r@) == track_text(*song),
{
    let mut out: Vec<String> = Vec::new();
    out.push(prefixed("Format: ", format_of(&song.magic).as_str()));
    out.push(prefixed("Frames: ", decimal_of(song.nb_frames as u64).as_str()));
    out.push(labelled("Player rate: ", song.player_rate as u64, " Hz"));
    out.push(labelled("Clock rate: ", song.clock_rate as u64, " Hz"));
    out.push(prefixed("Loop frame: ", decimal_of(song.loop_frame as u64).as_str()));
    out.push(prefixed("Attributes: 0x", hex_of(song.attributes as u64, 8).as_str()));
    out.push(prefixed("Digidrums: ", decimal_of(song.nb_drums as u64).as_str()));
    let ghost head = text::texts(out@);

    let ghost title: Seq<Seq<char>> = if song.song_name@.len() == 0 {
        Seq::empty()
    } else {
        seq![Seq::empty(), "Title: "@ + song.song_name@]
    };
    if song.song_name.as_str().unicode_len() > 0 {
        out.push(String::new());
        out.push(prefixed("Title: ", song.song_name.as_str()));
    }
    assert(text::texts(out@) =~= head + title);

    let ghost author: Seq<Seq<char>> = if song.song_author@.len() == 0 {
        Seq::empty()
    } else {
        seq!["Author: "@ + song.song_author@]
    };
    if song.song_author.as_str().unicode_len() > 0 {
        out.push(prefixed("Author: ", song.song_author.as_str()));
    }
    assert(text::texts(out@) =~= head + title + author);

    if song.song_comment.as_str().unicode_len() > 0 {
        out.push(String::new());
        out.push("Comment:".to_string());
        let ghost upto = text::texts(out@);
        assert(upto =~= head + title + author + seq![Seq::empty(), "Comment:"@]);
        let lines = lines_of(song.song_comment.as_str());
        let ghost rest = indented(text::lines(song.song_comment@));
        for i in 0..lines.len()
            invariant
                text::texts(lines@) == text::lines(song.song_comment@),
                rest == indented(text::lines(song.song_comment@)),
                text::texts(out@) == upto + rest.take(i as int),
        {
            let ghost before = out@;
            out.push(prefixed("  ", lines[i].as_str()));
            assert(text::texts(lines@)[i as int] == lines@[i as int]@);
            assert(text::texts(out@) =~= text::texts(before).push(rest[i as int]));
            assert(rest.take(i + 1) =~= rest.take(i as int).push(rest[i as int]));
        }
        assert(rest.take(rest.len() as int) =~= rest);
    }
    assert(text::texts(out@) =~= track_text(*song));
    out
}

impl YmSong {
    /// The frame shown when the cursor stands at `cursor`: never past the last one.
    pub open spec fn shown_frame(self, cursor: int) -> int {
        if cursor < self.nb_frames {
            cursor
        } else if self.nb_frames > 0 {
            self.nb_frames - 1
        } else {
            0
        }
    }

    /// The frame shown when the cursor stands at `cursor`.
    pub fn frame_shown(&self, cursor: usize) -> (r: usize)
        ensures
            r == self.shown_frame(cursor as int),
    {
        if cursor < self.nb_frames {
            cursor
        } else if self.nb_frames > 0 {
            self.nb_frames - 1
        } else {
            0
        }
    }
}

/// One register in a line of the monitor.
pub open spec fn monitor_cell(song: YmSong, frame: int, reg: int) -> Seq<char> {
    "R"@ + text::filled(text::decimal(reg), 2, '0') + ":"@ + text::hex(
        song.reg_frames@[reg]@[frame] as nat,
        2,
    )
}

/// Everything that the monitor can show: four lines of overview and seven of registers.
pub open spec fn monitor_all(song: YmSong, frame: int) -> Seq<Seq<char>> {
    seq![
        "Frame: "@ + text::decimal(frame + 1) + " / "@ + text::decimal(song.nb_frames as int),
        "Rate: "@ + text::decimal(song.player_rate as int) + " Hz  Clock: "@ + text::decimal(
            song.clock_rate as int,
        ) + " Hz"@,
        "Loop frame: "@ + text::decimal(song.loop_frame as int),
        Seq::empty(),
    ] + Seq::new(
        7,
        |g: int| monitor_cell(song, frame, 2 * g) + "  "@ + monitor_cell(song, frame, 2 * g + 1),
    )
}

/// The monitor: `rows` lines of it, but at least one, and empty ones where it has no more.
pub open spec fn monitor(song: YmSong, cursor: int, rows: int) -> Seq<Seq<char>> {
    if song.nb_frames == 0 {
        seq!["No YM frames"@]
    } else {
        let all = monitor_all(song, song.shown_frame(cursor));
        let n = if rows < 1 {
            1
        } else {
            rows
        };
        Seq::new(
            n as nat,
            |i: int|
                if i < all.len() {
                    all[i]
                } else {
                    Seq::empty()
                },
        )
    }
}

fn register_cell(song: &YmSong, frame: usize, reg: usize) -> (r: String)
    requires
        song.wf(),
        frame < song.nb_frames,
        reg < 16,
    ensures
        r@ == monitor_cell(*song, frame as int, reg as int),
{
    assert(song.reg_frames@[reg as int]@.len() == song.nb_frames);
    let mut cell = "R".to_string();
    cell.append(fill_left(decimal_of(reg as u64).as_str(), 2, '0').as_str());
    cell.append(":");
    cell.append(hex_of(song.reg_frames[reg][frame] as u64, 2).as_str());
    cell
}

/// The monitor.
pub fn build_tracker_monitor_lines(song: &YmSong, frame_cursor: usize, rows: usize) -> (r: Vec<String>)
    requires
        song.nb_frames == 0 || song.wf(),
    ensures
        text::texts(r@) == monitor(*song, frame_cursor as int, rows as int),
{
    if song.nb_frames == 0 {
        let mut none: Vec<String> = Vec::new();
        none.push("No YM frames".to_string());
        assert(text::texts(none@) =~= seq!["No YM frames"@]);
        return none;
    }
    let frame: usize = song.frame_shown(frame_cursor);
    let ghost all = monitor_all(*song, frame as int);
    let mut lines: Vec<String> = Vec::new();
    let mut first = labelled("Frame: ", (frame + 1) as u64, " / ");
    first.append(decimal_of(song.nb_frames as u64).as_str());
    lines.push(first);
    let mut second = labelled("Rate: ", song.player_rate as u64, " Hz  Clock: ");
    second.append(decimal_of(song.clock_rate as u64).as_str());
    second.append(" Hz");
    lines.push(second);
    lines.push(prefixed("Loop frame: ", decimal_of(song.loop_frame as u64).as_str()));
    lines.push(String::new());
    assert(text::texts(lines@) =~= all.take(4));
    for group in 0usize..7usize
        invariant
            song.wf(),
            frame < song.nb_frames,
            all == monitor_all(*song, frame as int),
            text::texts(lines@) == all.take(4 + group),
    {
        let mut line = register_cell(song, frame, group * 2);
        line.append("  ");
        line.append(register_cell(song, frame, group * 2 + 1).as_str());
        let ghost before = lines@;
        lines.push(line);
        assert(text::texts(lines@) =~= text::texts(before).push(all[4 + group]));
        assert(all.take(4 + group + 1) =~= all.take(4 + group).push(all[4 + group]));
    }
    assert(all.take(11) =~= all);
    let ghost want = monitor(*song, frame_cursor as int, rows as int);
    let keep: usize = if rows < 1 { 1 } else { rows };
    assert(lines@.len() == text::texts(lines@).len());
    assert forall|i: int| 0 <= i < lines@.len() implies (#[trigger] lines@[i])@ == all[i] by {
        assert(text::texts(lines@)[i] == lines@[i]@);
    }
    lines.truncate(keep);
    while lines.len() < rows
        invariant
            want.len() == keep,
            rows <= keep,
            lines@.len() <= keep,
            lines@.len() == keep || lines@.len() >= all.len(),
            want == monitor(*song, frame_cursor as int, rows as int),
            song.nb_frames > 0,
            all == monitor_all(*song, song.shown_frame(frame_cursor as int)),
            forall|i: int| 0 <= i < lines@.len() ==> (#[trigger] lines@[i])@ == want[i],
        decreases rows - lines.len(),
    {
        lines.push(String::new());
        assert(lines@.last()@ =~= want[lines@.len() - 1]);
    }
    assert(text::texts(lines@) =~= want);
    lines
}

// ── playing ─────────────────────────────────────────────────────────────────

/// A tune that is being played.
pub struct YmSession {
    pub song: YmSong,
    pub chip: YmChip,
    pub frame_cursor: usize,
    pub apply_regs: bool,
    pub finished: bool,
    pub tracker_monitor_lines: Vec<String>,
    pub track_text_lines: Vec<String>,
}

/// The register writes of a frame: registers 0 to 13, in ascending order.
pub open spec fn frame_writes(song: YmSong, frame: int) -> Seq<(int, u8)> {
    Seq::new(14, |r: int| (r, song.reg_frames@[r]@[frame]))
}

/// The register writes of each frame.
pub open spec fn writes_of(song: YmSong) -> spec_fn(int) -> Seq<(int, u8)> {
    |frame: int| frame_writes(song, frame)
}

/// Where the player stands after some samples, and the levels of those that the tune still
/// had.
pub open spec fn played(song: YmSong, st: Playing, steps: Seq<(u32, bool)>) -> (Playing, Seq<
    Seq<ChannelLevel>,
>) {
    stream::played(song.nb_frames as int, writes_of(song), st, steps)
}

impl YmSession {
    /// Where the player stands.
    pub open spec fn playing(self) -> Playing {
        Playing {
            chip: self.chip@,
            cursor: self.frame_cursor as int,
            apply: self.apply_regs,
            finished: self.finished,
        }
    }

    /// A session that playing can lead to.
    pub open spec fn wf(self) -> bool {
        &&& self.song.wf()
        &&& self.chip@.wf()
        &&& self.finished ==> self.frame_cursor >= self.song.nb_frames
        &&& self.song.nb_frames > 0 && self.frame_cursor >= self.song.nb_frames ==> self.finished
    }

    /// A session at the start of `song`.
    pub fn new(song: YmSong) -> (r: YmSession)
        requires
            song.wf(),
        ensures
            r.wf(),
            r.song == song,
            r.playing() == (Playing { chip: Psg::initial(), cursor: 0, apply: true, finished: false }),
            text::texts(r.tracker_monitor_lines@) == seq!["Preparing stream..."@],
            text::texts(r.track_text_lines@) == track_text(song),
    {
        let track_text_lines = build_track_text_lines(&song);
        let mut tracker_monitor_lines: Vec<String> = Vec::new();
        tracker_monitor_lines.push("Preparing stream...".to_string());
        assert(text::texts(tracker_monitor_lines@) =~= seq!["Preparing stream..."@]);
        YmSession {
            song,
            chip: AyChip::new(),
            frame_cursor: 0,
            apply_regs: true,
            finished: false,
            tracker_monitor_lines,
            track_text_lines,
        }
    }

    /// Moves on by one sample, on which `ticks` clock ticks fall and which is the last of its
    /// frame if `frame_done`, and gives the levels of the three channels; nothing once the
    /// tune has ended.
    pub fn next_stereo_sample(&mut self, ticks: u32, frame_done: bool) -> (r: Option<Vec<ChannelLevel>>)
        requires
            old(self).wf(),
        ensures
            final(self).wf(),
            final(self).song == old(self).song,
            final(self).tracker_monitor_lines == old(self).tracker_monitor_lines,
            final(self).track_text_lines == old(self).track_text_lines,
            ({
                let st = old(self).playing();
                let frames = old(self).song.nb_frames as int;
                let writes = frame_writes(old(self).song, st.cursor);
                &&& final(self).playing() == stream::advanced(st, frames, writes, ticks as nat, frame_done)
                &&& match r {
                    Some(levels) => stream::sample(st, frames, writes, ticks as nat) == Some(levels@),
                    None => stream::sample(st, frames, writes, ticks as nat) is None,
                }
            }),
    {
        if self.frame_cursor >= self.song.nb_frames {
            self.finished = true;
            return None;
        }
        let ghost song = self.song;
        let ghost cursor = self.frame_cursor;
        let ghost writes = frame_writes(self.song, self.frame_cursor as int);
        let ghost start = self.chip@;
        let ghost rest = *self;
        if self.apply_regs {
            assert(writes.take(0) =~= Seq::empty());
            for reg in 0usize..14usize
                invariant
                    *self == (YmSession { chip: self.chip, ..rest }),
                    rest.song == song,
                    rest.frame_cursor == cursor,
                    song.wf(),
                    cursor < song.nb_frames,
                    self.chip@.wf(),
                    writes == frame_writes(song, cursor as int),
                    self.chip@ == stream::written(start, writes.take(reg as int)),
            {
                assert(song.reg_frames@[reg as int]@.len() == song.nb_frames);
                let value: u8 = self.song.reg_frames[reg][self.frame_cursor];
                assert(writes.take(reg + 1).drop_last() =~= writes.take(reg as int));
                assert(writes.take(reg + 1).last() == (reg as int, value));
                self.chip.write_reg(reg, value);
            }
            assert(writes.take(14) =~= writes);
            self.apply_regs = false;
        }
        let ghost set = self.chip@;
        let ghost rest = *self;
        for n in 0..ticks
            invariant
                *self == (YmSession { chip: self.chip, ..rest }),
                self.chip@.wf(),
                self.chip@ == set.ticked_times(n as nat),
        {
            self.chip.tick();
        }
        let levels = self.chip.levels();
        if frame_done {
            self.frame_cursor = self.frame_cursor + 1;
            self.apply_regs = true;
            if self.frame_cursor >= self.song.nb_frames {
                self.finished = true;
            }
        }
        Some(levels)
    }

    /// Moves on by some samples and gives the levels of those that the tune still has.
    pub fn read_samples(&mut self, steps: &Vec<(u32, bool)>) -> (r: Vec<Vec<ChannelLevel>>)
        requires
            old(self).wf(),
        ensures
            final(self).wf(),
            final(self).song == old(self).song,
            final(self).tracker_monitor_lines == old(self).tracker_monitor_lines,
            final(self).track_text_lines == old(self).track_text_lines,
            (final(self).playing(), stream::levels_view(r@)) == played(
                old(self).song,
                old(self).playing(),
                steps@,
            ),
    {
        let ghost first = *self;
        let mut out: Vec<Vec<ChannelLevel>> = Vec::new();
        assert(stream::levels_view(out@) =~= Seq::empty());
        for i in 0..steps.len()
            invariant
                self.wf(),
                self.song == first.song,
                self.tracker_monitor_lines == first.tracker_monitor_lines,
                self.track_text_lines == first.track_text_lines,
                (self.playing(), stream::levels_view(out@)) == played(
                    first.song,
                    first.playing(),
                    steps@.take(i as int),
                ),
        {
            assert(steps@.take(i + 1).drop_last() =~= steps@.take(i as int));
            assert(steps@.take(i + 1).last() == steps@[i as int]);
            let (ticks, frame_done) = steps[i];
            match self.next_stereo_sample(ticks, frame_done) {
                Some(levels) => {
                    let ghost before = out@;
                    let ghost one = levels@;
                    out.push(levels);
                    assert(stream::levels_view(out@) =~= stream::levels_view(before).push(one));
                },
                None => {},
            }
        }
        assert(steps@.take(steps@.len() as int) =~= steps@);
        out
    }

    /// Brings the monitor to the current frame.
    pub fn update_monitor(&mut self)
        requires
            old(self).wf(),
        ensures
            final(self).wf(),
            final(self).song == old(self).song,
            final(self).playing() == old(self).playing(),
            final(self).track_text_lines == old(self).track_text_lines,
            text::texts(final(self).tracker_monitor_lines@) == monitor(
                old(self).song,
                old(self).frame_cursor as int,
                14,
            ),
    {
        self.tracker_monitor_lines = build_tracker_monitor_lines(
            &self.song,
            self.frame_cursor,
            MONITOR_ROWS,
        );
    }

    /// Where the tune is being played. The indices are the low 32 bits of the frame.
    pub fn position(&self) -> (r: Position)
        ensures
            r.frame == self.song.shown_frame(self.frame_cursor as int),
            r.table_index == r.frame as int % 0x1_0000_0000,
            r.pattern == r.table_index,
            r.row == 0,
            r.playing == !self.finished,
    {
        let frame: usize = self.song.frame_shown(self.frame_cursor);
        let wide: u64 = frame as u64;
        let low: u32 = (wide % 0x1_0000_0000) as u32;
        Position { frame, table_index: low, pattern: low, row: 0, playing: !self.finished }
    }

    /// What is told of the tune when it is opened, under the file name `file_name`.
    pub fn info_named(&self, path: &str, file_name: Option<String>) -> (r: TrackInfo)
        ensures
            r.name@ == (match file_name {
                Some(name) => name@,
                None => path@,
            }),
            r.format@ == format_name(self.song.magic@),
            r.channels == 2,
            r.sample_rate == 48_000,
            r.songs == 1,
            text::texts(r.tracker_text_lines@) == text::texts(self.track_text_lines@),
    {
        TrackInfo {
            name: stream::shown_name(path, file_name),
            format: format_of(&self.song.magic),
            channels: CHANNELS,
            sample_rate: SAMPLE_RATE,
            songs: 1,
            tracker_text_lines: text::copy_lines(&self.track_text_lines),
        }
    }

    /// What is told of the tune at `path` when it is opened.
    pub fn info(&self, path: &str) -> (r: TrackInfo)
        ensures
            paths::is_portable(path@) ==> r.name@ == (match paths::last_component(path@) {
                Some(name) => name,
                None => path@,
            }),
            r.format@ == format_name(self.song.magic@),
            r.channels == 2,
            r.sample_rate == 48_000,
            r.songs == 1,
            text::texts(r.tracker_text_lines@) == text::texts(self.track_text_lines@),
    {
        self.info_named(path, paths::file_name(path))
    }
}

// ── laws ────────────────────────────────────────────────────────────────────

proof fn lemma_writes_separate(song: YmSong, f: int)
    ensures
        stream::are_separate(frame_writes(song, f)),
        frame_writes(song, f).len() == 14,
{
}

/// After the writes of a frame the registers 0 to 13 have the bytes that the file holds for them
/// in that frame: register by register where its lowest attribute bit is set, and in the older
/// versions, frame by frame where it is not. The other two registers are left alone.
pub proof fn law_frames_write_what_the_file_holds(song: YmSong, b: Seq<u8>, chip: Psg, f: int, r: int)
    requires
        song.describes(b),
        chip.wf(),
        0 <= f < song.nb_frames,
        0 <= r < 14,
    ensures
        ({
            let now = stream::written(chip, frame_writes(song, f));
            let n = song.nb_frames as int;
            &&& is_v5_v6(b.take(4)) && b[19] % 2 == 1 ==> now.regs[r] == b[body_of(b)->Ok_0.data + r * n + f]
            &&& is_v5_v6(b.take(4)) && b[19] % 2 == 0 ==> now.regs[r] == b[body_of(b)->Ok_0.data + f * 16 + r]
            &&& !is_v5_v6(b.take(4)) ==> now.regs[r] == b[4 + r * n + f]
            &&& now.regs[14] == chip.regs[14]
            &&& now.regs[15] == chip.regs[15]
        }),
{
    let writes = frame_writes(song, f);
    lemma_writes_separate(song, f);
    stream::law_writes_are_held(chip, writes, 14);
    stream::law_writes_are_held(chip, writes, 15);
    assert(writes[r] == (r, song.reg_frames@[r]@[f]));
    assert(stream::written(chip, writes).regs[writes[r].0] == writes[r].1);
    assert(be32(b, 16) % 2 == b[19] as int % 2);
}

/// Where a new session starts.
pub open spec fn at_start() -> Playing {
    Playing { chip: Psg::initial(), cursor: 0, apply: true, finished: false }
}

proof fn lemma_initial_wf()
    ensures
        Psg::initial().wf(),
{
    let p = Psg::initial();
    assert forall|i: int| 0 <= i < 3 implies #[trigger] p.tone_period[i] == crate::psg::tone_period_of(
        p.regs,
        i,
    ) by {}
}

/// A tune plays its frames one after another: each sample is taken with the registers of the frame
/// that is due, which is the number of frames that have ended before it. A fixed volume in the
/// file is the volume of that sample.
pub proof fn law_tune_plays_its_frames(
    song: YmSong,
    steps: Seq<(u32, bool)>,
    ticks: u32,
    frame_done: bool,
    ch: int,
)
    requires
        song.wf(),
        stream::frame_ends(steps) < song.nb_frames,
        0 <= ch < 3,
    ensures
        ({
            let levels = played(song, at_start(), steps.push((ticks, frame_done))).1;
            let volume = song.reg_frames@[8 + ch]@[stream::frame_ends(steps)];
            &&& levels.len() == steps.len() + 1
            &&& volume < 16 ==> levels.last()[ch].volume == 2 * volume + 1
        }),
{
    let frames = song.nb_frames as int;
    let writes = writes_of(song);
    let st = at_start();
    lemma_initial_wf();
    assert forall|f: int| stream::are_separate(#[trigger] writes(f)) by {
        lemma_writes_separate(song, f);
    }
    lemma_no_ends(steps);
    stream::law_frames_are_counted(frames, writes, st, steps);
    stream::law_samples_sound_their_frame(frames, writes, st, steps, ticks, frame_done);
    let now = stream::played(frames, writes, st, steps).0;
    let w = frame_writes(song, now.cursor);
    assert(w[8 + ch] == (8 + ch, song.reg_frames@[8 + ch]@[now.cursor]));
    let chip = stream::sampled_chip(now, w, ticks as nat);
    assert(chip.regs[w[8 + ch].0] == w[8 + ch].1);
}

proof fn lemma_no_ends(steps: Seq<(u32, bool)>)
    ensures
        stream::frame_ends(steps) >= 0,
    decreases steps.len(),
{
    if steps.len() > 0 {
        lemma_no_ends(steps.drop_last());
    }
}

/// A string in a file is what stands before the next zero byte, and reading goes on behind that.
pub proof fn law_strings_end_at_a_zero_byte(b: Seq<u8>, p: int, k: int)
    requires
        0 <= p,
        0 <= k <= 257,
        p + k < b.len(),
        b[p + k] == 0,
        forall|j: int| p <= j < p + k ==> #[trigger] b[j] != 0,
        valid_utf8(b.subrange(p, p + k)),
    ensures
        string_at(b, p) == Ok::<(Seq<char>, int), Seq<char>>((decode_utf8(b.subrange(p, p + k)), p + k + 1)),
{
    assert(terminator(b, p, k)) by {
        assert forall|j: int| 0 <= j < k implies #[trigger] b[p + j] != 0 by {}
    }
    let found = choose|x: int| x <= 257 && #[trigger] terminator(b, p, x);
    assert(terminator(b, p, found));
    if found < k {
        assert(b[p + found] != 0);
    } else if k < found {
        assert(b[p + k] != 0);
    }
}

/// Behind the header and the drums stand the title, the author and the comment, in this order,
/// and behind them the register bytes.
pub proof fn law_header_holds_title_author_and_comment(
    b: Seq<u8>,
    body: YmBody,
    start: int,
    i: int,
    j: int,
    k: int,
)
    requires
        body_of(b) == Ok::<YmBody, Seq<char>>(body),
        be16(b, 20) == 0,
        start == 34 + be16(b, 32),
        0 <= i <= 257,
        0 <= j <= 257,
        0 <= k <= 257,
        start + i + 1 + j + 1 + k < b.len(),
        b[start + i] == 0,
        b[start + i + 1 + j] == 0,
        b[start + i + 1 + j + 1 + k] == 0,
        forall|x: int| start <= x < start + i ==> #[trigger] b[x] != 0,
        forall|x: int| start + i + 1 <= x < start + i + 1 + j ==> #[trigger] b[x] != 0,
        forall|x: int| start + i + 1 + j + 1 <= x < start + i + 1 + j + 1 + k ==> #[trigger] b[x] != 0,
        valid_utf8(b.subrange(start, start + i)),
        valid_utf8(b.subrange(start + i + 1, start + i + 1 + j)),
        valid_utf8(b.subrange(start + i + 1 + j + 1, start + i + 1 + j + 1 + k)),
    ensures
        body.name == decode_utf8(b.subrange(start, start + i)),
        body.author == decode_utf8(b.subrange(start + i + 1, start + i + 1 + j)),
        body.comment == decode_utf8(b.subrange(start + i + 1 + j + 1, start + i + 1 + j + 1 + k)),
        body.data == start + i + j + k + 3,
{
    law_strings_end_at_a_zero_byte(b, start, i);
    law_strings_end_at_a_zero_byte(b, start + i + 1, j);
    law_strings_end_at_a_zero_byte(b, start + i + 1 + j + 1, k);
}

/// The numbers of a header are big-endian: frames at 12, attributes at 16, drums at 20, clock at
/// 22, frames per second at 26 and the loop frame at 28.
pub proof fn law_header_numbers(song: YmSong, b: Seq<u8>)
    requires
        song.describes(b),
        is_v5_v6(b.take(4)),
    ensures
        song.nb_frames == 16777216 * b[12] + 65536 * b[13] + 256 * b[14] + b[15],
        song.attributes == 16777216 * b[16] + 65536 * b[17] + 256 * b[18] + b[19],
        song.nb_drums == 256 * b[20] + b[21],
        song.clock_rate == 16777216 * b[22] + 65536 * b[23] + 256 * b[24] + b[25],
        song.player_rate == 256 * b[26] + b[27],
        song.loop_frame == 16777216 * b[28] + 65536 * b[29] + 256 * b[30] + b[31],
        song.song_name@ == body_of(b)->Ok_0.name,
        song.song_author@ == body_of(b)->Ok_0.author,
        song.song_comment@ == body_of(b)->Ok_0.comment,
{
}

/// A file of an older version has fourteen bytes for each frame and a clock of two megahertz; only
/// the version with a loop ends in its frame, with the lowest byte first.
pub proof fn law_older_files_have_fourteen_registers(song: YmSong, b: Seq<u8>)
    requires
        song.describes(b),
        !is_v5_v6(b.take(4)),
        legacy_fault(b, b.take(4)) is None,
    ensures
        song.clock_rate == 2_000_000,
        song.player_rate == 50,
        b[2] == 0x33 && b[3] == 0x62 && b[0] == 0x59 && b[1] == 0x4D ==> {
            let n = b.len() as int;
            &&& 14 * song.nb_frames <= n - 8 < 14 * (song.nb_frames + 1)
            &&& song.loop_frame == b[n - 4] + 256 * b[n - 3] + 65536 * b[n - 2] + 16777216 * b[n - 1]
        },
        !(b[2] == 0x33 && b[3] == 0x62 && b[0] == 0x59 && b[1] == 0x4D) ==> {
            &&& 14 * song.nb_frames <= b.len() - 4 < 14 * (song.nb_frames + 1)
            &&& song.loop_frame == 0
        },
{
    let m = b.take(4);
    assert(m[0] == b[0] && m[1] == b[1] && m[2] == b[2] && m[3] == b[3]);
    if b[2] == 0x33 && b[3] == 0x62 && b[0] == 0x59 && b[1] == 0x4D {
        assert(m =~= ym3b());
    } else {
        assert(ym3b()[0] == 0x59 && ym3b()[1] == 0x4D && ym3b()[2] == 0x33 && ym3b()[3] == 0x62);
    }
}

/// The monitor shows every register of the frame with its number and its value in two hexadecimal
/// digits, two registers to a line.
pub proof fn law_monitor_shows_the_registers(song: YmSong, cursor: int, reg: int)
    requires
        song.wf(),
        0 <= cursor < song.nb_frames,
        0 <= reg < 14,
    ensures
        ({
            let line = monitor(song, cursor, 14)[4 + reg / 2];
            let value = song.reg_frames@[reg]@[cursor] as nat;
            let cell = if reg % 2 == 0 {
                line.take(6)
            } else {
                line.skip(8)
            };
            &&& line.len() == 14
            &&& cell[0] == 'R'
            &&& text::value_in_base(cell.subrange(1, 3), 10) == reg
            &&& cell[3] == ':'
            &&& text::value_in_base(cell.subrange(4, 6), 16) == value
        }),
{
    let g = reg / 2;
    let line = monitor(song, cursor, 14)[4 + g];
    let a = monitor_cell(song, cursor, 2 * g);
    let c = monitor_cell(song, cursor, 2 * g + 1);
    assert(monitor_all(song, cursor).len() == 11);
    assert(line == a + "  "@ + c);
    lemma_cell(song, cursor, 2 * g);
    lemma_cell(song, cursor, 2 * g + 1);
    reveal_strlit("  ");
    if reg % 2 == 0 {
        assert(line.take(6) =~= a);
    } else {
        assert(line.skip(8) =~= c);
    }
}

proof fn lemma_cell(song: YmSong, frame: int, reg: int)
    requires
        song.wf(),
        0 <= frame < song.nb_frames,
        0 <= reg < 14,
    ensures
        ({
            let cell = monitor_cell(song, frame, reg);
            &&& cell.len() == 6
            &&& cell[0] == 'R'
            &&& text::value_in_base(cell.subrange(1, 3), 10) == reg
            &&& cell[3] == ':'
            &&& text::value_in_base(cell.subrange(4, 6), 16) == song.reg_frames@[reg]@[frame]
        }),
{
    let value = song.reg_frames@[reg]@[frame] as nat;
    let number = text::filled(text::decimal(reg), 2, '0');
    let hex = text::hex(value, 2);
    reveal_strlit("R");
    reveal_strlit(":");
    lemma_two_digits(reg as nat);
    lemma_two_hex_digits(value);
    let cell = monitor_cell(song, frame, reg);
    assert(cell.subrange(1, 3) =~= number);
    assert(cell.subrange(4, 6) =~= hex);
}

proof fn lemma_two_digits(n: nat)
    requires
        n < 100,
    ensures
        text::filled(text::decimal(n as int), 2, '0').len() == 2,
        text::value_in_base(text::filled(text::decimal(n as int), 2, '0'), 10) == n,
{
    reveal_with_fuel(text::digits, 3);
    reveal_with_fuel(text::value_in_base, 3);
    text::law_digits_stand_for_the_number(n, 10);
    let d = text::decimal(n as int);
    let t = text::filled(d, 2, '0');
    if n < 10 {
        assert(d.len() == 1);
        assert(t =~= seq!['0', d[0]]);
        assert(t.drop_last() =~= seq!['0']);
        assert(t.drop_last().drop_last() =~= Seq::empty());
        assert(d.drop_last() =~= Seq::empty());
        assert(text::value_in_base(t.drop_last(), 10) == 0);
    } else {
        assert(n / 10 < 10);
        assert(d.len() == 2);
    }
}

proof fn lemma_two_hex_digits(n: nat)
    requires
        n < 256,
    ensures
        text::hex(n, 2).len() == 2,
        text::value_in_base(text::hex(n, 2), 16) == n,
{
    text::law_hex_stands_for_the_number(n, 2);
    reveal_with_fuel(text::digits, 3);
    assert(n / 16 < 16);
    text::law_filled_text_ends_with_the_text(text::digits(n, 16), 2, '0');
}

/// A frame within the tune is shown, and behind its end the last one.
pub proof fn law_shown_frame_is_in_the_tune(song: YmSong, cursor: int)
    requires
        song.nb_frames > 0,
        0 <= cursor,
    ensures
        cursor < song.nb_frames ==> song.shown_frame(cursor) == cursor,
        cursor >= song.nb_frames ==> song.shown_frame(cursor) == song.nb_frames - 1,
{
}

/// Before each drum stands its size in four bytes, and reading goes on behind it.
pub proof fn law_drums_are_passed_over(b: Seq<u8>, p: int, n: int)
    requires
        0 <= p,
        n > 0,
        p + 4 <= b.len(),
        p + 4 + 16777216 * b[p] + 65536 * b[p + 1] + 256 * b[p + 2] + b[p + 3] <= b.len(),
    ensures
        past_drums(b, p, n) == past_drums(
            b,
            p + 4 + 16777216 * b[p] + 65536 * b[p + 1] + 256 * b[p + 2] + b[p + 3],
            n - 1,
        ),
        past_drums(b, p, 0) == Ok::<int, Seq<char>>(p),
{
}

/// The text on a tune has the numbers of its header, and its title, author and comment if it has
/// them.
pub proof fn law_track_text_tells_the_header(song: YmSong)
    ensures
        ({
            let t = track_text(song);
            &&& t.contains("Frames: "@ + text::decimal(song.nb_frames as int))
            &&& t.contains("Player rate: "@ + text::decimal(song.player_rate as int) + " Hz"@)
            &&& t.contains("Clock rate: "@ + text::decimal(song.clock_rate as int) + " Hz"@)
            &&& t.contains("Loop frame: "@ + text::decimal(song.loop_frame as int))
            &&& t.contains("Digidrums: "@ + text::decimal(song.nb_drums as int))
            &&& song.song_name@.len() > 0 ==> t.contains("Title: "@ + song.song_name@)
            &&& song.song_author@.len() > 0 ==> t.contains("Author: "@ + song.song_author@)
            &&& song.song_comment@.len() > 0 ==> t.contains("Comment:"@)
        }),
{
    let t = track_text(song);
    assert(t[1] == "Frames: "@ + text::decimal(song.nb_frames as int));
    assert(t[2] == "Player rate: "@ + text::decimal(song.player_rate as int) + " Hz"@);
    assert(t[3] == "Clock rate: "@ + text::decimal(song.clock_rate as int) + " Hz"@);
    assert(t[4] == "Loop frame: "@ + text::decimal(song.loop_frame as int));
    assert(t[6] == "Digidrums: "@ + text::decimal(song.nb_drums as int));
    let a = if song.song_name@.len() > 0 {
        9int
    } else {
        7int
    };
    if song.song_name@.len() > 0 {
        assert(t[8] == "Title: "@ + song.song_name@);
    }
    let c = if song.song_author@.len() > 0 {
        a + 1
    } else {
        a
    };
    if song.song_author@.len() > 0 {
        assert(t[a] == "Author: "@ + song.song_author@);
    }
    if song.song_comment@.len() > 0 {
        assert(t[c + 1] == "Comment:"@);
    }
}

/// The text on a tune names its version and its attributes, and has its comment line by line, indented
/// by two spaces.
pub proof fn law_track_text_has_the_comment(song: YmSong, i: int)
    requires
        song.song_comment@.len() > 0,
        0 <= i < text::lines(song.song_comment@).len(),
    ensures
        ({
            let t = track_text(song);
            let n = text::lines(song.song_comment@).len() as int;
            &&& t[0] == "Format: "@ + format_name(song.magic@)
            &&& t[5] == "Attributes: 0x"@ + text::hex(song.attributes as nat, 8)
            &&& t.len() > n
            &&& t[t.len() - n + i] == seq![' ', ' '] + text::lines(song.song_comment@)[i]
        }),
{
    reveal_strlit("  ");
    assert("  "@ =~= seq![' ', ' ']);
}

/// Above the registers the monitor has the number of the frame, counted from one, and the rates.
pub proof fn law_monitor_tells_the_frame(song: YmSong, cursor: int, rows: int)
    requires
        0 <= cursor < song.nb_frames,
        rows >= 3,
    ensures
        monitor(song, cursor, rows).len() == rows,
        monitor(song, cursor, rows)[0] == "Frame: "@ + text::decimal(cursor + 1) + " / "@ + text::decimal(
            song.nb_frames as int,
        ),
        monitor(song, cursor, rows)[1] == "Rate: "@ + text::decimal(song.player_rate as int) + " Hz  Clock: "@
            + text::decimal(song.clock_rate as int) + " Hz"@,
        monitor(song, cursor, rows)[2] == "Loop frame: "@ + text::decimal(song.loop_frame as int),
{
}

/// A file of version 5 or 6 with all of its parts is accepted: the two signatures, the strings with
/// their zero bytes, and sixteen register bytes for each frame.
pub proof fn law_complete_tunes_are_accepted(b: Seq<u8>, start: int, i: int, j: int, k: int)
    requires
        b.len() >= 34,
        b[0] == 0x59 && b[1] == 0x4D && (b[2] == 0x35 || b[2] == 0x36) && b[3] == 0x21,
        b[4] == 0x4C && b[5] == 0x65 && b[6] == 0x4F && b[7] == 0x6E,
        b[8] == 0x41 && b[9] == 0x72 && b[10] == 0x44 && b[11] == 0x21,
        b[20] == 0 && b[21] == 0,
        start == 34 + 256 * b[32] + b[33],
        0 <= i <= 257,
        0 <= j <= 257,
        0 <= k <= 257,
        start + i + 1 + j + 1 + k < b.len(),
        b[start + i] == 0,
        b[start + i + 1 + j] == 0,
        b[start + i + 1 + j + 1 + k] == 0,
        forall|x: int| start <= x < start + i ==> #[trigger] b[x] != 0,
        forall|x: int| start + i + 1 <= x < start + i + 1 + j ==> #[trigger] b[x] != 0,
        forall|x: int| start + i + 1 + j + 1 <= x < start + i + 1 + j + 1 + k ==> #[trigger] b[x] != 0,
        valid_utf8(b.subrange(start, start + i)),
        valid_utf8(b.subrange(start + i + 1, start + i + 1 + j)),
        valid_utf8(b.subrange(start + i + 1 + j + 1, start + i + 1 + j + 1 + k)),
        start + i + j + k + 3 + 16 * (16777216 * b[12] + 65536 * b[13] + 256 * b[14] + b[15]) <= b.len(),
        b.len() <= usize::MAX,
    ensures
        fault(b) is None,
        body_of(b) is Ok,
        body_of(b)->Ok_0.data == start + i + j + k + 3,
{
    let m = b.take(4);
    assert(m[0] == b[0] && m[1] == b[1] && m[2] == b[2] && m[3] == b[3]);
    if b[2] == 0x35 {
        assert(m =~= seq![0x59u8, 0x4D, 0x35, 0x21]);
    } else {
        assert(m =~= seq![0x59u8, 0x4D, 0x36, 0x21]);
    }
    assert(b.subrange(4, 12) =~= signature());
    law_strings_end_at_a_zero_byte(b, start, i);
    law_strings_end_at_a_zero_byte(b, start + i + 1, j);
    law_strings_end_at_a_zero_byte(b, start + i + 1 + j + 1, k);
    assert(past_drums(b, start, 0) == Ok::<int, Seq<char>>(start));
}

/// A file of an older version is accepted if it has a frame, and behind it the loop frame where its
/// version has one. Anything else is refused.
pub proof fn law_older_tunes_are_accepted(b: Seq<u8>)
    requires
        b.len() >= 4,
        b[0] == 0x59 && b[1] == 0x4D,
    ensures
        (b[2] == 0x32 || b[2] == 0x33) && b[3] == 0x21 ==> (fault(b) is None <==> b.len() >= 18),
        b[2] == 0x33 && b[3] == 0x62 ==> (fault(b) is None <==> b.len() >= 22),
        b[2] < 0x32 || b[2] == 0x34 || b[2] > 0x36 ==> fault(b) is Some,
{
    let m = b.take(4);
    let v5 = seq![0x59u8, 0x4D, 0x35, 0x21];
    let v6 = seq![0x59u8, 0x4D, 0x36, 0x21];
    let v2 = seq![0x59u8, 0x4D, 0x32, 0x21];
    let v3 = seq![0x59u8, 0x4D, 0x33, 0x21];
    assert(m[0] == b[0] && m[1] == b[1] && m[2] == b[2] && m[3] == b[3]);
    assert(v5[2] == 0x35 && v6[2] == 0x36 && v2[2] == 0x32 && v3[2] == 0x33 && v3[3] == 0x21);
    assert(ym3b()[2] == 0x33 && ym3b()[3] == 0x62);
    if b[2] == 0x32 && b[3] == 0x21 {
        assert(m =~= v2);
    }
    if b[2] == 0x33 && b[3] == 0x21 {
        assert(m =~= v3);
    }
    if b[2] == 0x33 && b[3] == 0x62 {
        assert(m =~= ym3b());
    }
}

/// A file that is not packed is read as it is.
pub proof fn law_plain_files_are_read_as_they_are(b: Seq<u8>)
    ensures
        !lzh::looks_packed(b) ==> content_of(b) == Ok::<Seq<u8>, Seq<char>>(b),
        lzh::looks_packed(b) ==> content_of(b) == lzh::unpacked(b),
{
}

/// A session stands where its fields say.
pub proof fn law_sessions_stand_where_they_say(s: YmSession)
    ensures
        s.playing().cursor == s.frame_cursor,
        s.playing().apply == s.apply_regs,
        s.playing().finished == s.finished,
        s.playing().chip == s.chip@,
{
}

} // verus!
