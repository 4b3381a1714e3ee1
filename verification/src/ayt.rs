//! AYT tunes: a header, a pool of register patterns, a table of pattern pointers and a list
//! of initial register values.

use crate::paths;
use crate::psg::{AyChip, ChannelLevel, Psg};
use crate::stream;
use crate::stream::{Playing, Position, TrackInfo, CHANNELS, MONITOR_ROWS, SAMPLE_RATE};
use crate::text;
use crate::text::{decimal_of, fill_left, hex_of, join_with};
use vstd::prelude::*;
use vstd::string::*;

verus! {

/// Length of the header.
pub const HEADER_LEN: usize = 14;

/// Number of registers that a tune can drive.
pub const AY_REG_COUNT: usize = 14;

/// A decoded tune.
pub struct AytSong {
    pub version: u8,
    pub active_mask: u16,
    /// The registers that change from frame to frame, in ascending order.
    pub active_registers: Vec<u8>,
    pub pattern_size: usize,
    pub frame_count: usize,
    pub sequence_count: usize,
    pub loop_frame: usize,
    pub frame_rate: u32,
    pub platform_id: u8,
    pub platform_name: &'static str,
    pub frequency_code: u8,
    pub master_clock_hz: u32,
    /// For each register its value in each frame.
    pub reg_frames: Vec<Vec<u8>>,
    pub init_values: Vec<(u8, u8)>,
}

// ── the format ──────────────────────────────────────────────────────────────

/// The little-endian word at `i`.
pub open spec fn word_at(b: Seq<u8>, i: int) -> int {
    b[i] + 256 * b[i + 1]
}

/// Whether the mask marks register `r`: bit 15 stands for register 0.
pub open spec fn is_active(mask: u16, r: int) -> bool {
    (mask >> (15 - r) as u16) & 1 != 0
}

/// The marked registers below `n`, in ascending order.
pub open spec fn active_below(mask: u16, n: int) -> Seq<u8>
    decreases n,
{
    if n <= 0 {
        Seq::empty()
    } else if is_active(mask, n - 1) {
        active_below(mask, n - 1).push((n - 1) as u8)
    } else {
        active_below(mask, n - 1)
    }
}

/// The register and value pairs from `cursor` on, up to the pair of two 0xFF bytes or the
/// end of the file. Pairs for registers that do not exist are left out.
pub open spec fn init_pairs(b: Seq<u8>, cursor: int) -> Seq<(u8, u8)>
    decreases b.len() - cursor,
{
    if cursor < 0 || cursor + 1 >= b.len() || (b[cursor] == 0xFF && b[cursor + 1] == 0xFF) {
        Seq::empty()
    } else if b[cursor] < 14 {
        seq![(b[cursor], b[cursor + 1])] + init_pairs(b, cursor + 2)
    } else {
        init_pairs(b, cursor + 2)
    }
}

/// The value that the last pair for register `r` gives.
pub open spec fn last_value(pairs: Seq<(u8, u8)>, r: int) -> Option<u8>
    decreases pairs.len(),
{
    if pairs.len() == 0 {
        None
    } else if pairs.last().0 == r {
        Some(pairs.last().1)
    } else {
        last_value(pairs.drop_last(), r)
    }
}

/// The fields of the header, and what follows from them.
pub open spec fn mask_of(b: Seq<u8>) -> u16 {
    word_at(b, 1) as u16
}

pub open spec fn pattern_size_of(b: Seq<u8>) -> int {
    b[3] as int
}

pub open spec fn first_of(b: Seq<u8>) -> int {
    word_at(b, 4)
}

pub open spec fn registers_of(b: Seq<u8>) -> Seq<u8> {
    active_below(mask_of(b), 14)
}

/// Number of words in the pointer table.
pub open spec fn pointers_of(b: Seq<u8>) -> int {
    word_at(b, 10) - registers_of(b).len()
}

pub open spec fn sequences_of(b: Seq<u8>) -> int {
    pointers_of(b) / registers_of(b).len() as int
}

/// Where pointer `k` of the table points, counted from the end of the header.
pub open spec fn pointer_at(b: Seq<u8>, k: int) -> int {
    word_at(b, first_of(b) + 2 * k)
}

/// Pointer `k` leaves the pool of patterns.
pub open spec fn pointer_overflows(b: Seq<u8>, k: int) -> bool {
    pointer_at(b, k) + pattern_size_of(b) > first_of(b) - 14
}

/// The first thing that is wrong with a file, if anything is.
pub open spec fn fault(b: Seq<u8>) -> Option<Seq<char>> {
    if b.len() < 14 {
        Some("AYT file too short"@)
    } else if pattern_size_of(b) == 0 {
        Some("Invalid AYT pattern size 0"@)
    } else if first_of(b) < 14 || first_of(b) > b.len() {
        Some("Invalid AYT first sequence pointer"@)
    } else if word_at(b, 8) >= b.len() {
        Some("Invalid AYT init pointer"@)
    } else if registers_of(b).len() == 0 {
        Some("AYT has no active registers"@)
    } else if pointers_of(b) < 0 {
        Some("AYT pointer count too small"@)
    } else if pointers_of(b) == 0 || pointers_of(b) % registers_of(b).len() as int != 0 {
        Some("Invalid AYT sequence table size"@)
    } else if first_of(b) + 2 * pointers_of(b) > b.len() {
        Some("AYT sequence table exceeds file size"@)
    } else if exists|k: int| 0 <= k < pointers_of(b) && #[trigger] pointer_overflows(b, k) {
        Some("AYT pattern pointer overflow"@)
    } else {
        None
    }
}

/// What a register holds in the frames of which the patterns say nothing.
pub open spec fn resting_value(b: Seq<u8>, r: int) -> u8 {
    match last_value(init_pairs(b, word_at(b, 8)), r) {
        Some(v) => v,
        None => if r == 13 {
            0xFF
        } else {
            0
        },
    }
}

/// The value of register `r` in frame `f`: each sequence has one pattern for each active
/// register, in ascending order.
pub open spec fn value_at(b: Seq<u8>, r: int, f: int) -> u8 {
    if is_active(mask_of(b), r) {
        let n = registers_of(b).len() as int;
        let place = active_below(mask_of(b), r).len() as int;
        let k = f / pattern_size_of(b) * n + place;
        b[14 + pointer_at(b, k) + f % pattern_size_of(b)]
    } else {
        resting_value(b, r)
    }
}

/// The frame at which the tune starts again; 0 where the loop pointer does not point to the
/// start of a sequence.
pub open spec fn loop_frame_of(b: Seq<u8>) -> int {
    let back = word_at(b, 6) - first_of(b);
    let step = 2 * registers_of(b).len() as int;
    let frames = sequences_of(b) * pattern_size_of(b);
    if back >= 0 && back % step == 0 {
        let f = back / step * pattern_size_of(b);
        if f < frames {
            f
        } else {
            frames
        }
    } else {
        0
    }
}

/// Frames in a second, by the three-bit frequency code.
pub open spec fn frame_rate_of(code: int) -> int {
    if code == 1 {
        25
    } else if code == 2 {
        60
    } else if code == 3 {
        30
    } else if code == 4 {
        100
    } else if code == 5 {
        200
    } else {
        50
    }
}

/// The name and the clock of a platform.
pub open spec fn platform_of(id: int) -> (Seq<char>, int) {
    if id == 0 {
        ("Amstrad CPC"@, 1_000_000)
    } else if id == 1 {
        ("Oric"@, 1_000_000)
    } else if id == 2 {
        ("ZXUno"@, 1_750_000)
    } else if id == 3 {
        ("Pentagon"@, 1_750_000)
    } else if id == 4 {
        ("Timex TS2068"@, 1_764_000)
    } else if id == 5 {
        ("ZX 128"@, 1_773_450)
    } else if id == 6 {
        ("MSX"@, 1_789_772)
    } else if id == 7 {
        ("Atari ST"@, 2_000_000)
    } else if id == 8 {
        ("VG5000"@, 1_000_000)
    } else {
        ("Unknown"@, 1_000_000)
    }
}

impl AytSong {
    /// A tune whose register values cover all of its frames.
    pub open spec fn wf(self) -> bool {
        &&& 1 <= self.pattern_size <= 255
        &&& self.frame_count == self.sequence_count * self.pattern_size
        &&& 1 <= self.sequence_count <= 65535
        &&& self.reg_frames@.len() == 14
        &&& forall|r: int| 0 <= r < 14 ==> (#[trigger] self.reg_frames@[r])@.len() == self.frame_count
        &&& forall|i: int| 0 <= i < self.active_registers@.len() ==> #[trigger] self.active_registers@[i] < 14
    }

    /// The tune is the one that the file `b` describes.
    pub open spec fn decodes(self, b: Seq<u8>) -> bool {
        &&& self.version == b[0]
        &&& self.active_mask == mask_of(b)
        &&& self.active_registers@ == registers_of(b)
        &&& self.pattern_size == pattern_size_of(b)
        &&& self.sequence_count == sequences_of(b)
        &&& self.frame_count == sequences_of(b) * pattern_size_of(b)
        &&& self.loop_frame == loop_frame_of(b)
        &&& self.platform_id == b[12] as int % 32
        &&& self.frequency_code == b[12] as int / 32
        &&& self.frame_rate == frame_rate_of(self.frequency_code as int)
        &&& (self.platform_name@, self.master_clock_hz as int) == platform_of(self.platform_id as int)
        &&& self.init_values@ == init_pairs(b, word_at(b, 8))
        &&& self.reg_frames@.len() == 14
        &&& forall|r: int| 0 <= r < 14 ==> (#[trigger] self.reg_frames@[r])@.len() == self.frame_count
        &&& forall|r: int, f: int| 0 <= r < 14 && 0 <= f < self.frame_count ==>
            #[trigger] self.reg_frames@[r]@[f] == value_at(b, r, f)
    }
}

// ── decoding ────────────────────────────────────────────────────────────────

/// Reads the little-endian word at `offset`.
pub fn read_u16(data: &[u8], offset: usize) -> (r: Result<u16, String>)
    ensures
        offset + 1 < data@.len() ==> r is Ok && r->Ok_0 == word_at(data@, offset as int),
        offset + 1 >= data@.len() ==> r is Err && r->Err_0@ == "Truncated AYT data"@,
{
    if offset >= data.len() || data.len() - offset < 2 {
        return Err("Truncated AYT data".to_string());
    }
    Ok(data[offset] as u16 + 256 * data[offset + 1] as u16)
}

/// The registers that `mask` marks, in ascending order.
pub fn decode_active_registers(mask: u16) -> (r: Vec<u8>)
    ensures
        r@ == active_below(mask, 14),
{
    let mut out: Vec<u8> = Vec::new();
    for reg in 0u8..14u8
        invariant
            out@ == active_below(mask, reg as int),
    {
        let bit: u16 = 15 - reg as u16;
        if (mask >> bit) & 1 != 0 {
            out.push(reg);
        }
    }
    out
}

/// The platform, the frequency code, the frame rate, the clock and the platform's name.
pub fn decode_platform_freq(value: u8) -> (r: (u8, u8, u32, u32, &'static str))
    ensures
        r.0 == value as int % 32,
        r.1 == value as int / 32,
        r.2 == frame_rate_of(r.1 as int),
        (r.4@, r.3 as int) == platform_of(r.0 as int),
{
    let platform_id: u8 = value % 32;
    let frequency_code: u8 = value / 32;
    let frame_rate: u32 = match frequency_code {
        0 => 50,
        1 => 25,
        2 => 60,
        3 => 30,
        4 => 100,
        5 => 200,
        _ => 50,
    };
    let (platform_name, master_clock_hz): (&'static str, u32) = match platform_id {
        0 => ("Amstrad CPC", 1_000_000),
        1 => ("Oric", 1_000_000),
        2 => ("ZXUno", 1_750_000),
        3 => ("Pentagon", 1_750_000),
        4 => ("Timex TS2068", 1_764_000),
        5 => ("ZX 128", 1_773_450),
        6 => ("MSX", 1_789_772),
        7 => ("Atari ST", 2_000_000),
        8 => ("VG5000", 1_000_000),
        _ => ("Unknown", 1_000_000),
    };
    (platform_id, frequency_code, frame_rate, master_clock_hz, platform_name)
}

proof fn lemma_last_value_push(pairs: Seq<(u8, u8)>, p: (u8, u8), r: int)
    ensures
        last_value(pairs.push(p), r) == if p.0 == r {
            Some(p.1)
        } else {
            last_value(pairs, r)
        },
{
    assert(pairs.push(p).drop_last() == pairs);
}

/// The initial register values: the last one for each register, and all of them in order.
pub fn parse_init_values(bytes: &[u8], init_offset: usize) -> (r: Result<
    ([Option<u8>; 14], Vec<(u8, u8)>),
    String,
>)
    requires
        init_offset < usize::MAX,
    ensures
        r is Ok,
        r->Ok_0.1@ == init_pairs(bytes@, init_offset as int),
        forall|i: int|
            0 <= i < 14 ==> #[trigger] r->Ok_0.0@[i] == last_value(
                init_pairs(bytes@, init_offset as int),
                i,
            ),
{
    let mut const_map: [Option<u8>; 14] = [None; 14];
    let mut values: Vec<(u8, u8)> = Vec::new();
    let mut cursor: usize = init_offset;
    let ghost all = init_pairs(bytes@, init_offset as int);
    let mut done = false;
    assert(all == values@ + init_pairs(bytes@, cursor as int));
    while !done && cursor < bytes.len() && bytes.len() - cursor > 1
        invariant
            done ==> all == values@,
            !done ==> all == values@ + init_pairs(bytes@, cursor as int),
            forall|i: int| 0 <= i < 14 ==> #[trigger] const_map@[i] == last_value(values@, i),
        decreases bytes.len() - cursor + (if done { 0int } else { 1 }),
    {
        let reg: u8 = bytes[cursor];
        let value: u8 = bytes[cursor + 1];
        if reg == 0xFF && value == 0xFF {
            done = true;
            assert(all =~= values@);
        } else {
            if reg < 14 {
                proof {
                    assert(values@ + init_pairs(bytes@, cursor as int) =~= values@.push((reg, value))
                        + init_pairs(bytes@, cursor + 2));
                    assert forall|i: int| 0 <= i < 14 implies last_value(values@.push((reg, value)), i)
                        == if reg == i {
                        Some(value)
                    } else {
                        last_value(values@, i)
                    } by {
                        lemma_last_value_push(values@, (reg, value), i);
                    }
                }
                const_map[reg as usize] = Some(value);
                values.push((reg, value));
            }
            cursor = cursor + 2;
        }
    }
    assert(all =~= values@);
    Ok((const_map, values))
}

/// The registers of the list are active, ascend, and stand at the place that counts the
/// active registers below them.
proof fn lemma_active_places(mask: u16, n: int, a: int)
    requires
        0 <= n <= 14,
        0 <= a < active_below(mask, n).len(),
    ensures
        ({
            let r = active_below(mask, n)[a] as int;
            0 <= r < n && is_active(mask, r) && active_below(mask, r).len() == a
        }),
    decreases n,
{
    if is_active(mask, n - 1) && a == active_below(mask, n - 1).len() {
    } else {
        lemma_active_places(mask, n - 1, a);
    }
}

/// An active register stands in the list at the place that counts those below it.
proof fn lemma_active_found(mask: u16, n: int, r: int)
    requires
        0 <= r < n <= 14,
        is_active(mask, r),
    ensures
        active_below(mask, r).len() < active_below(mask, n).len(),
        active_below(mask, n)[active_below(mask, r).len() as int] == r,
    decreases n,
{
    if r < n - 1 {
        lemma_active_found(mask, n - 1, r);
    }
}

/// Frame `f` lies in block `block` exactly if it lies between the block's first frame and
/// the next one's.
proof fn lemma_block(f: int, size: int, block: int)
    requires
        size > 0,
        0 <= f,
        0 <= block,
    ensures
        f / size == block <==> block * size <= f < block * size + size,
        f / size == block ==> f % size == f - block * size,
        f / size < block <==> f < block * size,
{
    vstd::arithmetic::div_mod::lemma_fundamental_div_mod(f, size);
    let q = f / size;
    assert(q == block ==> size * q == block * size) by (nonlinear_arith);
    assert(q < block ==> size * q + size <= block * size) by (nonlinear_arith)
        requires
            size > 0,
    ;
    assert(q > block ==> size * q >= block * size + size) by (nonlinear_arith)
        requires
            size > 0,
    ;
}

/// Pointer `block * n + a` of a table of `count * n` pointers exists.
proof fn lemma_pointer_index(block: int, n: int, a: int, count: int)
    requires
        0 <= block < count,
        0 <= a < n,
    ensures
        0 <= block * n + a < count * n,
        (block + 1) * n == block * n + n,
{
    assert(block * n + n <= count * n) by (nonlinear_arith)
        requires
            0 <= block < count,
            0 < n,
    ;
    assert(0 <= block * n) by (nonlinear_arith)
        requires
            0 <= block,
            0 < n,
    ;
    assert((block + 1) * n == block * n + n) by (nonlinear_arith);
}

/// Copies `src` over the bytes of `dst` from `at` on.
fn copy_into(dst: &mut Vec<u8>, at: usize, src: &[u8])
    requires
        at + src@.len() <= old(dst)@.len(),
    ensures
        final(dst)@.len() == old(dst)@.len(),
        forall|i: int|
            0 <= i < final(dst)@.len() ==> #[trigger] final(dst)@[i] == (if at <= i < at + src@.len() {
                src@[i - at]
            } else {
                old(dst)@[i]
            }),
{
    let ghost start = dst@;
    for k in 0..src.len()
        invariant
            at + src@.len() <= start.len(),
            dst@.len() == start.len(),
            forall|i: int|
                0 <= i < dst@.len() ==> #[trigger] dst@[i] == (if at <= i < at + k {
                    src@[i - at]
                } else {
                    start[i]
                }),
    {
        assert(at + k < dst.len());
        dst[at + k] = src[k];
    }
}

/// What the frames hold after the first `k` pointers of the table have been followed.
spec fn filled_in(b: Seq<u8>, frames: Seq<Vec<u8>>, count: int, k: int) -> bool {
    let n = registers_of(b).len() as int;
    &&& frames.len() == 14
    &&& forall|r: int| 0 <= r < 14 ==> (#[trigger] frames[r])@.len() == count
    &&& forall|r: int, f: int|
        0 <= r < 14 && 0 <= f < count ==> #[trigger] frames[r]@[f] == (if is_active(mask_of(b), r) && f
            / pattern_size_of(b) * n + active_below(mask_of(b), r).len() < k {
            value_at(b, r, f)
        } else {
            resting_value(b, r)
        })
}

/// The frames before any pointer has been followed.
fn resting_frames(const_map: &[Option<u8>; 14], count: usize, Ghost(b): Ghost<Seq<u8>>) -> (r: Vec<Vec<u8>>)
    requires
        forall|i: int|
            0 <= i < 14 ==> #[trigger] const_map@[i] == last_value(init_pairs(b, word_at(b, 8)), i),
    ensures
        r@.len() == 14,
        forall|i: int| 0 <= i < 14 ==> (#[trigger] r@[i])@.len() == count,
        forall|i: int, f: int|
            0 <= i < 14 && 0 <= f < count ==> #[trigger] r@[i]@[f] == resting_value(b, i),
{
    let mut out: Vec<Vec<u8>> = Vec::new();
    for reg in 0..14
        invariant
            forall|i: int|
                0 <= i < 14 ==> #[trigger] const_map@[i] == last_value(init_pairs(b, word_at(b, 8)), i),
            out@.len() == reg,
            forall|i: int| 0 <= i < reg ==> (#[trigger] out@[i])@.len() == count,
            forall|i: int, f: int|
                0 <= i < reg && 0 <= f < count ==> #[trigger] out@[i]@[f] == resting_value(b, i),
    {
        let rest: u8 = if reg == 13 { 0xFF } else { 0 };
        let value: u8 = match const_map[reg] {
            Some(v) => v,
            None => rest,
        };
        assert(value == resting_value(b, reg as int));
        out.push(vec![value; count]);
    }
    out
}

/// Decodes a tune.
pub fn parse_ayt(bytes: &[u8]) -> (r: Result<AytSong, String>)
    ensures
        r is Err <==> fault(bytes@) is Some,
        r is Err ==> r->Err_0@ == fault(bytes@)->0,
        r is Ok ==> r->Ok_0.decodes(bytes@) && r->Ok_0.wf(),
{
    let ghost b = bytes@;
    if bytes.len() < HEADER_LEN {
        return Err("AYT file too short".to_string());
    }
    let version: u8 = bytes[0];
    let active_mask: u16 = read_u16(bytes, 1)?;
    let pattern_size: usize = bytes[3] as usize;
    if pattern_size == 0 {
        return Err("Invalid AYT pattern size 0".to_string());
    }
    let first_seq_offset: usize = read_u16(bytes, 4)? as usize;
    let loop_seq_offset: usize = read_u16(bytes, 6)? as usize;
    let init_offset: usize = read_u16(bytes, 8)? as usize;
    let nb_pattern_ptr: usize = read_u16(bytes, 10)? as usize;
    let platform_freq: u8 = bytes[12];

    if first_seq_offset < HEADER_LEN || first_seq_offset > bytes.len() {
        return Err("Invalid AYT first sequence pointer".to_string());
    }
    if init_offset >= bytes.len() {
        return Err("Invalid AYT init pointer".to_string());
    }
    let active_registers = decode_active_registers(active_mask);
    if active_registers.len() == 0 {
        return Err("AYT has no active registers".to_string());
    }
    let present_count: usize = active_registers.len();
    if nb_pattern_ptr < present_count {
        return Err("AYT pointer count too small".to_string());
    }
    let sequence_words: usize = nb_pattern_ptr - present_count;
    if sequence_words == 0 || sequence_words % present_count != 0 {
        return Err("Invalid AYT sequence table size".to_string());
    }
    let sequence_bytes_len: usize = sequence_words * 2;
    if first_seq_offset + sequence_bytes_len > bytes.len() {
        return Err("AYT sequence table exceeds file size".to_string());
    }
    let sequence_count: usize = sequence_words / present_count;
    let ghost n = registers_of(b).len() as int;
    proof {
        vstd::arithmetic::div_mod::lemma_fundamental_div_mod(sequence_words as int, n);
        assert(sequence_count * n == sequence_words) by (nonlinear_arith)
            requires
                sequence_words == n * sequence_count,
        ;
        assert(1 <= sequence_count <= sequence_words) by (nonlinear_arith)
            requires
                sequence_count * n == sequence_words,
                sequence_words > 0,
                n >= 1,
                sequence_count >= 0,
        ;
        assert(0 <= sequence_count * pattern_size <= 65535 * 255) by (nonlinear_arith)
            requires
                0 <= sequence_count <= 65535,
                0 <= pattern_size <= 255,
        ;
    }
    let frame_count: usize = sequence_count * pattern_size;

    let (platform_id, frequency_code, frame_rate, master_clock_hz, platform_name) =
        decode_platform_freq(platform_freq);
    let (const_map, init_values) = parse_init_values(bytes, init_offset)?;
    let mut reg_frames = resting_frames(&const_map, frame_count, Ghost(b));
    proof {
        assert forall|r: int, f: int| 0 <= r < 14 && 0 <= f < frame_count implies
            #[trigger] reg_frames@[r]@[f] == resting_value(b, r) && f / pattern_size_of(b) * n >= 0 by {
            assert(f / pattern_size_of(b) * n >= 0) by (nonlinear_arith)
                requires
                    f >= 0,
                    n >= 0,
                    pattern_size_of(b) > 0,
            ;
        }
        assert(filled_in(b, reg_frames@, frame_count as int, 0));
        assert(0 * n == 0) by (nonlinear_arith);
    }

    for block in 0..sequence_count
        invariant
            b == bytes@,
            b.len() >= 14,
            fault(b) == (if exists|k: int|
                0 <= k < pointers_of(b) && #[trigger] pointer_overflows(b, k) {
                Some("AYT pattern pointer overflow"@)
            } else {
                None
            }),
            n == registers_of(b).len(),
            n >= 1,
            active_registers@ == registers_of(b),
            present_count == n,
            pattern_size == pattern_size_of(b),
            1 <= pattern_size <= 255,
            first_seq_offset == first_of(b),
            14 <= first_seq_offset <= 65535,
            sequence_words == pointers_of(b),
            sequence_words <= 65535,
            sequence_count * n == sequence_words,
            first_seq_offset + 2 * sequence_words <= b.len(),
            frame_count == sequence_count * pattern_size,
            filled_in(b, reg_frames@, frame_count as int, block * n),
            forall|k: int| 0 <= k < block * n ==> !#[trigger] pointer_overflows(b, k),
    {
        proof {
            lemma_pointer_index(block as int, pattern_size as int, 0, sequence_count as int);
            assert(0 <= (block + 1) * pattern_size <= frame_count) by (nonlinear_arith)
                requires
                    0 <= block < sequence_count,
                    frame_count == sequence_count * pattern_size,
            ;
        }
        let block_start: usize = block * pattern_size;
        for a in 0..present_count
            invariant
                b == bytes@,
                b.len() >= 14,
                fault(b) == (if exists|k: int|
                    0 <= k < pointers_of(b) && #[trigger] pointer_overflows(b, k) {
                    Some("AYT pattern pointer overflow"@)
                } else {
                    None
                }),
                n == registers_of(b).len(),
                n >= 1,
                active_registers@ == registers_of(b),
                present_count == n,
                pattern_size == pattern_size_of(b),
                1 <= pattern_size <= 255,
                first_seq_offset == first_of(b),
                14 <= first_seq_offset <= 65535,
                sequence_words == pointers_of(b),
                sequence_words <= 65535,
                sequence_count * n == sequence_words,
                first_seq_offset + 2 * sequence_words <= b.len(),
                block < sequence_count,
                block_start == block * pattern_size,
                block_start + pattern_size <= frame_count,
                filled_in(b, reg_frames@, frame_count as int, block * n + a),
                forall|k: int| 0 <= k < block * n + a ==> !#[trigger] pointer_overflows(b, k),
        {
            proof {
                lemma_pointer_index(block as int, n, a as int, sequence_count as int);
                lemma_active_places(mask_of(b), 14, a as int);
            }
            let k: usize = block * present_count + a;
            let offset: usize = read_u16(bytes, first_seq_offset + 2 * k)? as usize;
            if offset + pattern_size > first_seq_offset - HEADER_LEN {
                assert(pointer_overflows(b, k as int));
                return Err("AYT pattern pointer overflow".to_string());
            }
            assert(!pointer_overflows(b, k as int));
            let reg: usize = active_registers[a] as usize;
            let src = vstd::slice::slice_subrange(
                bytes,
                HEADER_LEN + offset,
                HEADER_LEN + offset + pattern_size,
            );
            let ghost before = reg_frames@;
            copy_into(&mut reg_frames[reg], block_start, src);
            proof {
                lemma_step(b, before, reg_frames@, frame_count as int, block as int, a as int);
            }
        }
        proof {
            lemma_pointer_index(block as int, n, 0, sequence_count as int);
        }
    }

    let one_seq_bytes: usize = present_count * 2;
    let loop_frame: usize = if loop_seq_offset >= first_seq_offset {
        let bytes_from_first: usize = loop_seq_offset - first_seq_offset;
        if bytes_from_first % one_seq_bytes == 0 {
            let whole: usize = bytes_from_first / one_seq_bytes;
            proof {
                assert(whole <= bytes_from_first) by (nonlinear_arith)
                    requires
                        whole == bytes_from_first / one_seq_bytes,
                        one_seq_bytes >= 1,
                ;
                assert(whole * pattern_size <= 65535 * 255) by (nonlinear_arith)
                    requires
                        0 <= whole <= 65535,
                        0 <= pattern_size <= 255,
                ;
            }
            let frame: usize = whole * pattern_size;
            if frame < frame_count {
                frame
            } else {
                frame_count
            }
        } else {
            0
        }
    } else {
        0
    };
    proof {
        assert forall|r: int, f: int| 0 <= r < 14 && 0 <= f < frame_count implies
            #[trigger] reg_frames@[r]@[f] == value_at(b, r, f) by {
            if is_active(mask_of(b), r) {
                lemma_active_found(mask_of(b), 14, r);
                let block = f / pattern_size_of(b);
                lemma_block(f, pattern_size as int, sequence_count as int);
                assert(0 <= block < sequence_count) by {
                    vstd::arithmetic::div_mod::lemma_div_pos_is_pos(f, pattern_size as int);
                }
                lemma_pointer_index(
                    block,
                    n,
                    active_below(mask_of(b), r).len() as int,
                    sequence_count as int,
                );
            }
        }
        assert forall|i: int| 0 <= i < active_registers@.len() implies #[trigger] active_registers@[i]
            < 14 by {
            lemma_active_places(mask_of(b), 14, i);
        }
    }
    Ok(
        AytSong {
            version,
            active_mask,
            active_registers,
            pattern_size,
            frame_count,
            sequence_count,
            loop_frame,
            frame_rate,
            platform_id,
            platform_name,
            frequency_code,
            master_clock_hz,
            reg_frames,
            init_values,
        },
    )
}

/// Copying the pattern of pointer `block * n + a` brings the frames one pointer further.
proof fn lemma_step(
    b: Seq<u8>,
    before: Seq<Vec<u8>>,
    after: Seq<Vec<u8>>,
    count: int,
    block: int,
    a: int,
)
    requires
        ({
            let n = registers_of(b).len() as int;
            let size = pattern_size_of(b);
            let r = registers_of(b)[a] as int;
            let k = block * n + a;
            &&& 0 <= block
            &&& 0 <= a < n
            &&& 1 <= size
            &&& block * size + size <= count
            &&& filled_in(b, before, count, k)
            &&& after.len() == 14
            &&& forall|q: int| 0 <= q < 14 && q != r ==> #[trigger] after[q] == before[q]
            &&& after[r]@.len() == count
            &&& forall|f: int|
                0 <= f < count ==> #[trigger] after[r]@[f] == (if block * size <= f < block * size + size {
                    b[14 + pointer_at(b, k) + (f - block * size)]
                } else {
                    before[r]@[f]
                })
        }),
    ensures
        filled_in(b, after, count, block * registers_of(b).len() as int + a + 1),
{
    let n = registers_of(b).len() as int;
    let size = pattern_size_of(b);
    let r = registers_of(b)[a] as int;
    let k = block * n + a;
    lemma_active_places(mask_of(b), 14, a);
    assert forall|q: int, f: int| 0 <= q < 14 && 0 <= f < count implies #[trigger] after[q]@[f] == (if is_active(
        mask_of(b),
        q,
    ) && f / size * n + active_below(mask_of(b), q).len() < k + 1 {
        value_at(b, q, f)
    } else {
        resting_value(b, q)
    }) by {
        lemma_block(f, size, block);
        let place = active_below(mask_of(b), q).len() as int;
        if is_active(mask_of(b), q) {
            lemma_active_found(mask_of(b), 14, q);
            let q2 = f / size;
            assert(q2 < block ==> q2 * n + n <= block * n) by (nonlinear_arith)
                requires
                    n > 0,
            ;
            assert(q2 > block ==> q2 * n >= block * n + n) by (nonlinear_arith)
                requires
                    n > 0,
            ;
            assert(q2 == block ==> q2 * n == block * n);
            if q == r {
                assert(after[r]@[f] == (if block * size <= f < block * size + size {
                    b[14 + pointer_at(b, k) + (f - block * size)]
                } else {
                    before[r]@[f]
                }));
                assert(before[r]@[f] == before[q]@[f]);
            } else {
                assert(registers_of(b)[place] == q);
                assert(place != a);
                assert(after[q]@[f] == before[q]@[f]);
            }
        } else {
            assert(q != r);
            assert(after[q]@[f] == before[q]@[f]);
        }
    }
}

// ── what the player shows ───────────────────────────────────────────────────

impl AytSong {
    /// The sequence that frame `frame` belongs to.
    pub open spec fn table_index(self, frame: int) -> int {
        if self.pattern_size == 0 {
            0
        } else {
            frame / self.pattern_size as int
        }
    }

    /// The row of frame `frame` within its sequence.
    pub open spec fn row(self, frame: int) -> int {
        if self.pattern_size == 0 {
            0
        } else {
            frame % self.pattern_size as int
        }
    }

    /// The frame shown when the cursor stands at `cursor`: never past the last one.
    pub open spec fn shown_frame(self, cursor: int) -> int {
        if cursor < self.frame_count {
            cursor
        } else if self.frame_count > 0 {
            self.frame_count - 1
        } else {
            0
        }
    }

    /// The sequence that frame `frame` belongs to.
    pub fn table_index_for_frame(&self, frame: usize) -> (r: usize)
        ensures
            r == self.table_index(frame as int),
    {
        if self.pattern_size == 0 {
            0
        } else {
            frame / self.pattern_size
        }
    }

    /// The row of frame `frame` within its sequence.
    pub fn row_for_frame(&self, frame: usize) -> (r: usize)
        ensures
            r == self.row(frame as int),
    {
        if self.pattern_size == 0 {
            0
        } else {
            frame % self.pattern_size
        }
    }

    /// The frame shown when the cursor stands at `cursor`.
    pub fn frame_shown(&self, cursor: usize) -> (r: usize)
        ensures
            r == self.shown_frame(cursor as int),
    {
        if cursor < self.frame_count {
            cursor
        } else if self.frame_count > 0 {
            self.frame_count - 1
        } else {
            0
        }
    }
}

/// The sequence and the row of a frame name that frame and no other.
pub proof fn law_place_names_the_frame(song: AytSong, frame: int)
    requires
        song.wf(),
        0 <= frame,
    ensures
        song.table_index(frame) * song.pattern_size + song.row(frame) == frame,
        0 <= song.row(frame) < song.pattern_size,
{
    lemma_block(frame, song.pattern_size as int, song.table_index(frame));
    assert(song.table_index(frame) >= 0) by {
        vstd::arithmetic::div_mod::lemma_div_pos_is_pos(frame, song.pattern_size as int);
    }
}

/// The frame at which a tune starts again lies within it, or at its end.
pub proof fn law_loop_frame_lies_in_the_tune(b: Seq<u8>)
    requires
        fault(b) is None,
    ensures
        0 <= loop_frame_of(b) <= sequences_of(b) * pattern_size_of(b),
{
    let n = registers_of(b).len() as int;
    let back = word_at(b, 6) - first_of(b);
    let size = pattern_size_of(b);
    vstd::arithmetic::div_mod::lemma_div_pos_is_pos(pointers_of(b), n);
    assert(0 <= sequences_of(b) * size) by (nonlinear_arith)
        requires
            0 <= sequences_of(b),
            0 <= size,
    ;
    if back >= 0 {
        vstd::arithmetic::div_mod::lemma_div_pos_is_pos(back, 2 * n);
        assert(0 <= back / (2 * n) * size) by (nonlinear_arith)
            requires
                0 <= back / (2 * n),
                0 <= size,
        ;
    }
}

/// The lines that describe the initial values.
pub open spec fn init_lines(pairs: Seq<(u8, u8)>) -> Seq<Seq<char>> {
    pairs.map_values(
        |p: (u8, u8)|
            "  R"@ + text::filled(text::decimal(p.0 as int), 2, '0') + " = 0x"@ + text::hex(
                p.1 as nat,
                2,
            ),
    )
}

/// The lines that describe a tune.
pub open spec fn track_text(song: AytSong) -> Seq<Seq<char>> {
    let head = seq![
        "AYT version "@ + text::decimal(song.version as int / 16) + "."@ + text::decimal(
            song.version as int % 16,
        ),
        "Platform: "@ + song.platform_name@ + " (id "@ + text::decimal(song.platform_id as int) + ")"@,
        "Frame rate: "@ + text::decimal(song.frame_rate as int) + " Hz (code "@ + text::decimal(
            song.frequency_code as int,
        ) + ")"@,
        "Master clock: "@ + text::decimal(song.master_clock_hz as int) + " Hz"@,
        "Pattern size: "@ + text::decimal(song.pattern_size as int) + " frames"@,
        "Sequence count: "@ + text::decimal(song.sequence_count as int),
        "Frame count: "@ + text::decimal(song.frame_count as int),
        "Loop frame: "@ + text::decimal(song.loop_frame as int),
        "Active mask: 0x"@ + text::hex(song.active_mask as nat, 4),
    ];
    if song.init_values@.len() == 0 {
        head
    } else {
        head + seq![Seq::empty(), "Init values"@] + init_lines(song.init_values@)
    }
}

fn init_line(reg: u8, value: u8) -> (r: String)
    ensures
        r@ == "  R"@ + text::filled(text::decimal(reg as int), 2, '0') + " = 0x"@ + text::hex(
            value as nat,
            2,
        ),
{
    let mut s = "  R".to_string();
    s.append(fill_left(decimal_of(reg as u64).as_str(), 2, '0').as_str());
    s.append(" = 0x");
    s.append(hex_of(value as u64, 2).as_str());
    s
}

fn labelled(label: &str, n: u64, tail: &str) -> (r: String)
    ensures
        r@ == label@ + text::decimal(n as int) + tail@,
{
    let mut s = label.to_string();
    s.append(decimal_of(n).as_str());
    s.append(tail);
    s
}

/// The lines that describe a tune.
pub fn build_track_text_lines(song: &AytSong) -> (r: Vec<String>)
    ensures
        text::texts(r@) == track_text(*song),
{
    let mut version = labelled("AYT version ", (song.version / 16) as u64, ".");
    version.append(decimal_of((song.version % 16) as u64).as_str());

    let mut platform = "Platform: ".to_string();
    platform.append(song.platform_name);
    platform.append(" (id ");
    platform.append(decimal_of(song.platform_id as u64).as_str());
    platform.append(")");

    let mut rate = labelled("Frame rate: ", song.frame_rate as u64, " Hz (code ");
    rate.append(decimal_of(song.frequency_code as u64).as_str());
    rate.append(")");

    let clock = labelled("Master clock: ", song.master_clock_hz as u64, " Hz");
    let size = labelled("Pattern size: ", song.pattern_size as u64, " frames");

    let mut sequences = "Sequence count: ".to_string();
    sequences.append(decimal_of(song.sequence_count as u64).as_str());
    let mut frames = "Frame count: ".to_string();
    frames.append(decimal_of(song.frame_count as u64).as_str());
    let mut again = "Loop frame: ".to_string();
    again.append(decimal_of(song.loop_frame as u64).as_str());
    let mut mask = "Active mask: 0x".to_string();
    mask.append(hex_of(song.active_mask as u64, 4).as_str());

    let mut out: Vec<String> = Vec::new();
    out.push(version);
    out.push(platform);
    out.push(rate);
    out.push(clock);
    out.push(size);
    out.push(sequences);
    out.push(frames);
    out.push(again);
    out.push(mask);
    let ghost head = text::texts(out@);

    if song.init_values.len() > 0 {
        out.push(String::new());
        out.push("Init values".to_string());
        let ghost upto = text::texts(out@);
        assert(upto =~= head + seq![Seq::empty(), "Init values"@]);
        for i in 0..song.init_values.len()
            invariant
                text::texts(out@) == upto + init_lines(song.init_values@).take(i as int),
        {
            let (reg, value) = song.init_values[i];
            let ghost before = out@;
            out.push(init_line(reg, value));
            let ghost line = init_lines(song.init_values@)[i as int];
            assert(text::texts(out@) =~= text::texts(before).push(line));
            assert(init_lines(song.init_values@).take(i + 1) =~= init_lines(song.init_values@).take(
                i as int,
            ).push(line));
        }
        assert(init_lines(song.init_values@).take(song.init_values@.len() as int) =~= init_lines(
            song.init_values@,
        ));
    }
    assert(text::texts(out@) =~= track_text(*song));
    out
}

/// One register in a line of the monitor.
pub open spec fn monitor_cell(song: AytSong, frame: int, i: int) -> Seq<char> {
    let reg = song.active_registers@[i];
    "R"@ + text::filled(text::decimal(reg as int), 2, '0') + ":"@ + text::hex(
        song.reg_frames@[reg as int]@[frame] as nat,
        2,
    )
}

/// The line of the monitor for row `row` of the sequence that `frame` belongs to. The row of
/// `frame` itself is marked.
pub open spec fn monitor_line(song: AytSong, frame: int, row: int) -> Seq<char> {
    let at = song.table_index(frame) * song.pattern_size + row;
    seq![if row == song.row(frame) { '>' } else { ' ' }] + text::hex(row as nat, 2) + " "@ + text::join(
        Seq::new(song.active_registers@.len(), |i: int| monitor_cell(song, at, i)),
        " "@,
    )
}

/// The first row that the monitor shows: the current one is kept in the middle where the
/// sequence allows it.
pub open spec fn monitor_start(song: AytSong, frame: int, rows: int) -> int {
    if song.row(frame) >= rows / 2 {
        song.row(frame) - rows / 2
    } else {
        0
    }
}

/// The monitor: `rows` lines around the current frame, empty ones after the last row of the
/// sequence.
pub open spec fn monitor(song: AytSong, cursor: int, rows: int) -> Seq<Seq<char>> {
    if song.pattern_size == 0 || song.frame_count == 0 {
        seq!["Pattern unavailable"@]
    } else {
        let frame = song.shown_frame(cursor);
        let start = monitor_start(song, frame, rows);
        Seq::new(
            rows as nat,
            |k: int|
                if start + k < song.pattern_size {
                    monitor_line(song, frame, start + k)
                } else {
                    Seq::empty()
                },
        )
    }
}

fn monitor_row(song: &AytSong, frame: usize, row: usize) -> (r: String)
    requires
        song.wf(),
        frame < song.frame_count,
        row < song.pattern_size,
    ensures
        r@ == monitor_line(*song, frame as int, row as int),
{
    let seq_index: usize = song.table_index_for_frame(frame);
    let size: usize = song.pattern_size;
    proof {
        lemma_block(frame as int, size as int, seq_index as int);
        lemma_block(frame as int, size as int, song.sequence_count as int);
        assert(0 <= seq_index * size && seq_index * size + size <= song.sequence_count * size)
            by (nonlinear_arith)
            requires
                0 <= seq_index < song.sequence_count,
                0 <= size,
        ;
    }
    let at: usize = seq_index * size + row;
    let mut cells: Vec<String> = Vec::new();
    for i in 0..song.active_registers.len()
        invariant
            song.wf(),
            at < song.frame_count,
            cells@.len() == i,
            forall|j: int| 0 <= j < i ==> (#[trigger] cells@[j])@ == monitor_cell(*song, at as int, j),
    {
        let reg: u8 = song.active_registers[i];
        assert(song.active_registers@[i as int] < 14);
        assert(song.reg_frames@[reg as int]@.len() == song.frame_count);
        let mut cell = "R".to_string();
        cell.append(fill_left(decimal_of(reg as u64).as_str(), 2, '0').as_str());
        cell.append(":");
        cell.append(hex_of(song.reg_frames[reg as usize][at] as u64, 2).as_str());
        cells.push(cell);
    }
    assert(text::texts(cells@) =~= Seq::new(
        song.active_registers@.len(),
        |i: int| monitor_cell(*song, at as int, i),
    ));
    let mut s = String::new();
    s.push(if row == song.row_for_frame(frame) { '>' } else { ' ' });
    s.append(hex_of(row as u64, 2).as_str());
    s.append(" ");
    s.append(join_with(&cells, " ").as_str());
    assert(s@ =~= monitor_line(*song, frame as int, row as int));
    s
}

/// The monitor: `rows` lines around the current frame.
pub fn build_tracker_monitor_lines(song: &AytSong, frame_cursor: usize, rows: usize) -> (r: Vec<String>)
    requires
        song.pattern_size == 0 || song.frame_count == 0 || song.wf(),
    ensures
        text::texts(r@) == monitor(*song, frame_cursor as int, rows as int),
{
    if song.pattern_size == 0 || song.frame_count == 0 {
        let mut none: Vec<String> = Vec::new();
        none.push("Pattern unavailable".to_string());
        assert(text::texts(none@) =~= seq!["Pattern unavailable"@]);
        return none;
    }
    let frame: usize = song.frame_shown(frame_cursor);
    let row: usize = song.row_for_frame(frame);
    let start_row: usize = if row >= rows / 2 { row - rows / 2 } else { 0 };
    let ghost want = monitor(*song, frame_cursor as int, rows as int);
    let mut out: Vec<String> = Vec::new();
    for k in 0..rows
        invariant
            song.wf(),
            frame < song.frame_count,
            frame == song.shown_frame(frame_cursor as int),
            start_row == monitor_start(*song, frame as int, rows as int),
            start_row < song.pattern_size,
            want == monitor(*song, frame_cursor as int, rows as int),
            want.len() == rows,
            song.frame_count > 0,
            out@.len() == k,
            forall|j: int| 0 <= j < k ==> (#[trigger] out@[j])@ == want[j],
    {
        if k < song.pattern_size - start_row {
            out.push(monitor_row(song, frame, start_row + k));
        } else {
            out.push(String::new());
            assert(want[k as int] =~= Seq::empty());
        }
    }
    assert(text::texts(out@) =~= want);
    out
}

// ── playing ─────────────────────────────────────────────────────────────────

/// A tune that is being played.
pub struct Session {
    pub song: AytSong,
    pub chip: AyChip,
    pub frame_cursor: usize,
    pub apply_regs: bool,
    pub finished: bool,
    pub tracker_monitor_lines: Vec<String>,
    pub track_text_lines: Vec<String>,
}

/// The register writes of a frame: the active registers, in ascending order.
pub open spec fn frame_writes(song: AytSong, frame: int) -> Seq<(int, u8)> {
    Seq::new(
        song.active_registers@.len(),
        |i: int|
            (
                song.active_registers@[i] as int,
                song.reg_frames@[song.active_registers@[i] as int]@[frame],
            ),
    )
}

/// The register writes of each frame.
pub open spec fn writes_of(song: AytSong) -> spec_fn(int) -> Seq<(int, u8)> {
    |frame: int| frame_writes(song, frame)
}

/// Where the player stands after some samples, and the levels of those that the tune still
/// had.
pub open spec fn played(song: AytSong, st: Playing, steps: Seq<(u32, bool)>) -> (Playing, Seq<
    Seq<ChannelLevel>,
>) {
    stream::played(song.frame_count as int, writes_of(song), st, steps)
}

/// What a frame writes is what the file says of the active registers in that frame.
pub proof fn law_frames_hold_what_the_file_says(song: AytSong, b: Seq<u8>, frame: int)
    requires
        song.decodes(b),
        0 <= frame < song.frame_count,
    ensures
        frame_writes(song, frame).len() == registers_of(b).len(),
        forall|i: int|
            0 <= i < registers_of(b).len() ==> #[trigger] frame_writes(song, frame)[i] == (
                registers_of(b)[i] as int,
                value_at(b, registers_of(b)[i] as int, frame),
            ),
{
    assert forall|i: int| 0 <= i < registers_of(b).len() implies #[trigger] frame_writes(song, frame)[i]
        == (registers_of(b)[i] as int, value_at(b, registers_of(b)[i] as int, frame)) by {
        lemma_active_places(mask_of(b), 14, i);
        assert(song.reg_frames@[registers_of(b)[i] as int]@[frame] == value_at(
            b,
            registers_of(b)[i] as int,
            frame,
        ));
    }
}

impl Session {
    /// Where the player stands.
    pub open spec fn playing(self) -> Playing {
        Playing {
            chip: self.chip@,
            cursor: self.frame_cursor as int,
            apply: self.apply_regs,
            finished: self.finished,
        }
    }

    /// A session that playing can lead to.
    pub open spec fn wf(self) -> bool {
        &&& self.song.wf()
        &&& self.chip@.wf()
        &&& self.finished == (self.frame_cursor >= self.song.frame_count)
    }

    /// A session at the start of `song`.
    pub fn new(song: AytSong) -> (r: Session)
        requires
            song.wf(),
        ensures
            r.wf(),
            r.song == song,
            r.playing() == (Playing { chip: Psg::initial(), cursor: 0, apply: true, finished: false }),
            text::texts(r.tracker_monitor_lines@) == seq!["Preparing stream..."@],
            text::texts(r.track_text_lines@) == track_text(song),
    {
        let track_text_lines = build_track_text_lines(&song);
        let mut tracker_monitor_lines: Vec<String> = Vec::new();
        tracker_monitor_lines.push("Preparing stream...".to_string());
        assert(text::texts(tracker_monitor_lines@) =~= seq!["Preparing stream..."@]);
        proof {
            assert(song.frame_count > 0) by (nonlinear_arith)
                requires
                    song.frame_count == song.sequence_count * song.pattern_size,
                    song.sequence_count >= 1,
                    song.pattern_size >= 1,
            ;
        }
        Session {
            song,
            chip: AyChip::new(),
            frame_cursor: 0,
            apply_regs: true,
            finished: false,
            tracker_monitor_lines,
            track_text_lines,
        }
    }

    /// Moves on by one sample, on which `ticks` clock ticks fall and which is the last of its
    /// frame if `frame_done`, and gives the levels of the three channels; nothing once the
    /// tune has ended.
    pub fn next_stereo_sample(&mut self, ticks: u32, frame_done: bool) -> (r: Option<Vec<ChannelLevel>>)
        requires
            old(self).wf(),
        ensures
            final(self).wf(),
            final(self).song == old(self).song,
            final(self).tracker_monitor_lines == old(self).tracker_monitor_lines,
            final(self).track_text_lines == old(self).track_text_lines,
            ({
                let st = old(self).playing();
                let frames = old(self).song.frame_count as int;
                let writes = frame_writes(old(self).song, st.cursor);
                &&& final(self).playing() == stream::advanced(st, frames, writes, ticks as nat, frame_done)
                &&& match r {
                    Some(levels) => stream::sample(st, frames, writes, ticks as nat) == Some(levels@),
                    None => stream::sample(st, frames, writes, ticks as nat) is None,
                }
            }),
    {
        if self.frame_cursor >= self.song.frame_count {
            self.finished = true;
            return None;
        }
        let ghost song = self.song;
        let ghost cursor = self.frame_cursor;
        let ghost writes = frame_writes(self.song, self.frame_cursor as int);
        let ghost start = self.chip@;
        let ghost rest = *self;
        if self.apply_regs {
            assert(writes.take(0) =~= Seq::empty());
            let count: usize = self.song.active_registers.len();
            for i in 0..count
                invariant
                    count == song.active_registers@.len(),
                    *self == (Session { chip: self.chip, ..rest }),
                    rest.song == song,
                    rest.frame_cursor == cursor,
                    song.wf(),
                    cursor < song.frame_count,
                    self.chip@.wf(),
                    writes == frame_writes(song, cursor as int),
                    self.chip@ == stream::written(start, writes.take(i as int)),
            {
                let reg: u8 = self.song.active_registers[i];
                assert(song.active_registers@[i as int] < 14);
                assert(song.reg_frames@[reg as int]@.len() == song.frame_count);
                let value: u8 = self.song.reg_frames[reg as usize][self.frame_cursor];
                assert(writes.take(i + 1).drop_last() =~= writes.take(i as int));
                assert(writes.take(i + 1).last() == (reg as int, value));
                self.chip.write_reg(reg as usize, value);
            }
            assert(writes.take(writes.len() as int) =~= writes);
            self.apply_regs = false;
        }
        let ghost set = self.chip@;
        let ghost rest = *self;
        for n in 0..ticks
            invariant
                *self == (Session { chip: self.chip, ..rest }),
                self.chip@.wf(),
                self.chip@ == set.ticked_times(n as nat),
        {
            self.chip.tick();
        }
        let levels = self.chip.levels();
        if frame_done {
            self.frame_cursor = self.frame_cursor + 1;
            self.apply_regs = true;
            if self.frame_cursor >= self.song.frame_count {
                self.finished = true;
            }
        }
        Some(levels)
    }

    /// Moves on by some samples and gives the levels of those that the tune still has.
    pub fn read_samples(&mut self, steps: &Vec<(u32, bool)>) -> (r: Vec<Vec<ChannelLevel>>)
        requires
            old(self).wf(),
        ensures
            final(self).wf(),
            final(self).song == old(self).song,
            final(self).tracker_monitor_lines == old(self).tracker_monitor_lines,
            final(self).track_text_lines == old(self).track_text_lines,
            (final(self).playing(), stream::levels_view(r@)) == played(
                old(self).song,
                old(self).playing(),
                steps@,
            ),
    {
        let ghost first = *self;
        let mut out: Vec<Vec<ChannelLevel>> = Vec::new();
        assert(stream::levels_view(out@) =~= Seq::empty());
        for i in 0..steps.len()
            invariant
                self.wf(),
                self.song == first.song,
                self.tracker_monitor_lines == first.tracker_monitor_lines,
                self.track_text_lines == first.track_text_lines,
                (self.playing(), stream::levels_view(out@)) == played(
                    first.song,
                    first.playing(),
                    steps@.take(i as int),
                ),
        {
            assert(steps@.take(i + 1).drop_last() =~= steps@.take(i as int));
            assert(steps@.take(i + 1).last() == steps@[i as int]);
            let (ticks, frame_done) = steps[i];
            match self.next_stereo_sample(ticks, frame_done) {
                Some(levels) => {
                    let ghost before = out@;
                    let ghost one = levels@;
                    out.push(levels);
                    assert(stream::levels_view(out@) =~= stream::levels_view(before).push(one));
                },
                None => {},
            }
        }
        assert(steps@.take(steps@.len() as int) =~= steps@);
        out
    }

    /// Brings the monitor to the current frame.
    pub fn update_monitor(&mut self)
        requires
            old(self).wf(),
        ensures
            final(self).wf(),
            final(self).song == old(self).song,
            final(self).playing() == old(self).playing(),
            final(self).track_text_lines == old(self).track_text_lines,
            text::texts(final(self).tracker_monitor_lines@) == monitor(
                old(self).song,
                old(self).frame_cursor as int,
                14,
            ),
    {
        self.tracker_monitor_lines = build_tracker_monitor_lines(
            &self.song,
            self.frame_cursor,
            MONITOR_ROWS,
        );
    }

    /// Where the tune is being played.
    pub fn position(&self) -> (r: Position)
        requires
            self.wf(),
        ensures
            r.frame == self.song.shown_frame(self.frame_cursor as int),
            r.table_index == self.song.table_index(r.frame as int),
            r.pattern == r.table_index,
            r.row == self.song.row(r.frame as int),
            r.playing == !self.finished,
    {
        let frame: usize = self.song.frame_shown(self.frame_cursor);
        proof {
            let size = self.song.pattern_size as int;
            assert(self.song.frame_count > 0) by (nonlinear_arith)
                requires
                    self.song.frame_count == self.song.sequence_count * size,
                    self.song.sequence_count >= 1,
                    size >= 1,
            ;
            lemma_block(frame as int, size, self.song.sequence_count as int);
        }
        let table: usize = self.song.table_index_for_frame(frame);
        let row: usize = self.song.row_for_frame(frame);
        Position {
            frame,
            table_index: table as u32,
            pattern: table as u32,
            row: row as u32,
            playing: !self.finished,
        }
    }

    /// What is told of the tune when it is opened, under the file name `file_name`.
    pub fn info_named(&self, path: &str, file_name: Option<String>) -> (r: TrackInfo)
        ensures
            r.name@ == (match file_name {
                Some(name) => name@,
                None => path@,
            }),
            r.format@ == "AYT"@,
            r.channels == 2,
            r.sample_rate == 48_000,
            r.songs == 1,
            text::texts(r.tracker_text_lines@) == text::texts(self.track_text_lines@),
    {
        TrackInfo {
            name: stream::shown_name(path, file_name),
            format: "AYT".to_string(),
            channels: CHANNELS,
            sample_rate: SAMPLE_RATE,
            songs: 1,
            tracker_text_lines: text::copy_lines(&self.track_text_lines),
        }
    }

    /// What is told of the tune at `path` when it is opened.
    pub fn info(&self, path: &str) -> (r: TrackInfo)
        ensures
            paths::is_portable(path@) ==> r.name@ == (match paths::last_component(path@) {
                Some(name) => name,
                None => path@,
            }),
            r.format@ == "AYT"@,
            r.channels == 2,
            r.sample_rate == 48_000,
            r.songs == 1,
            text::texts(r.tracker_text_lines@) == text::texts(self.track_text_lines@),
    {
        self.info_named(path, paths::file_name(path))
    }
}

// ── laws of the file ────────────────────────────────────────────────────────

proof fn lemma_mask_bit(mask: u16, r: u16)
    by (bit_vector)
    requires
        r <= 15,
    ensures
        (mask >> (15 - r) as u16) & 1 != 0 <==> (mask >> (15 - r) as u16) % 2 == 1,
{
}

/// The registers that a tune changes come in ascending order, and they are those whose bit is set,
/// with register 0 at the top of the sixteen bits.
pub proof fn law_active_registers_are_those_in_the_mask(mask: u16, r: int)
    requires
        0 <= r < 14,
    ensures
        ({
            let active = active_below(mask, 14);
            &&& active.contains(r as u8) <==> mask as nat / vstd::arithmetic::power2::pow2((15 - r) as nat) % 2
                == 1
            &&& forall|i: int, j: int| 0 <= i < j < active.len() ==> #[trigger] active[i] < #[trigger] active[j]
            &&& forall|i: int| 0 <= i < active.len() ==> #[trigger] active[i] < 14
        }),
{
    let active = active_below(mask, 14);
    let shift = (15 - r) as u16;
    vstd::bits::lemma_u16_shr_is_div(mask, shift);
    lemma_mask_bit(mask, r as u16);
    assert((15 - r as u16) as u16 == shift);
    if is_active(mask, r) {
        lemma_active_found(mask, 14, r);
    }
    if active.contains(r as u8) {
        let i = choose|i: int| 0 <= i < active.len() && active[i] == r as u8;
        lemma_active_places(mask, 14, i);
    }
    lemma_ascending(mask, 14);
}

proof fn lemma_ascending(mask: u16, n: int)
    requires
        0 <= n <= 14,
    ensures
        ({
            let active = active_below(mask, n);
            &&& forall|i: int, j: int| 0 <= i < j < active.len() ==> #[trigger] active[i] < #[trigger] active[j]
            &&& forall|i: int| 0 <= i < active.len() ==> #[trigger] active[i] < n
        }),
    decreases n,
{
    if n > 0 {
        lemma_ascending(mask, n - 1);
        let few = active_below(mask, n - 1);
        let active = active_below(mask, n);
        assert forall|i: int| 0 <= i < active.len() implies #[trigger] active[i] < n by {
            if i < few.len() {
                assert(active[i] == few[i]);
            }
        }
        assert forall|i: int, j: int| 0 <= i < j < active.len() implies #[trigger] active[i]
            < #[trigger] active[j] by {
            assert(active[i] == few[i]);
            if j < few.len() {
                assert(active[j] == few[j]);
            }
        }
    }
}

/// For each sequence the file has one pointer for each active register, lowest byte first; it
/// leads to the bytes of that register for all rows, one after another.
pub proof fn law_sequences_point_to_their_rows(song: AytSong, b: Seq<u8>, i: int, sequence: int, row: int)
    requires
        song.decodes(b),
        song.wf(),
        0 <= i < song.active_registers@.len(),
        0 <= sequence < song.sequence_count,
        0 <= row < song.pattern_size,
    ensures
        ({
            let n = song.active_registers@.len() as int;
            let at = b[4] + 256 * b[5] + 2 * (sequence * n + i);
            let pointer = b[at] + 256 * b[at + 1];
            song.reg_frames@[song.active_registers@[i] as int]@[sequence * b[3] + row] == b[14 + pointer + row]
        }),
{
    let size = song.pattern_size as int;
    let f = sequence * size + row;
    let r = song.active_registers@[i] as int;
    lemma_active_places(mask_of(b), 14, i);
    lemma_pointer_index(sequence, size, row, song.sequence_count as int);
    lemma_block(f, size, sequence);
    assert(song.reg_frames@[r]@[f] == value_at(b, r, f));
}

/// A register that the tune does not change has one value in all frames.
pub proof fn law_other_registers_rest(song: AytSong, b: Seq<u8>, r: int, f: int, g: int)
    requires
        song.decodes(b),
        0 <= r < 14,
        !song.active_registers@.contains(r as u8),
        0 <= f < song.frame_count,
        0 <= g < song.frame_count,
    ensures
        song.reg_frames@[r]@[f] == song.reg_frames@[r]@[g],
        song.reg_frames@[r]@[f] == resting_value(b, r),
{
    if is_active(mask_of(b), r) {
        lemma_active_found(mask_of(b), 14, r);
    }
    assert(song.reg_frames@[r]@[f] == value_at(b, r, f));
    assert(song.reg_frames@[r]@[g] == value_at(b, r, g));
}

/// The `j`th pair of bytes from `at` on.
pub open spec fn pair_at(b: Seq<u8>, at: int, j: int) -> (u8, u8) {
    (b[at + 2 * j], b[at + 2 * j + 1])
}

/// Some pairs of initial values in a file: all of them before the end mark, and then the mark or
/// the end of the file.
pub open spec fn has_pairs(b: Seq<u8>, at: int, count: int) -> bool {
    &&& 0 <= at
    &&& 0 <= count
    &&& at + 2 * count <= b.len()
    &&& forall|j: int| 0 <= j < count ==> #[trigger] pair_at(b, at, j) != (0xFFu8, 0xFFu8)
    &&& at + 2 * count + 1 >= b.len() || pair_at(b, at, count) == (0xFFu8, 0xFFu8)
}

proof fn lemma_last_value_concat(a: (u8, u8), rest: Seq<(u8, u8)>, r: int)
    ensures
        last_value(seq![a] + rest, r) == (match last_value(rest, r) {
            Some(v) => Some(v),
            None => if a.0 == r {
                Some(a.1)
            } else {
                None
            },
        }),
    decreases rest.len(),
{
    let all = seq![a] + rest;
    if rest.len() > 0 {
        lemma_last_value_concat(a, rest.drop_last(), r);
        assert(all.drop_last() =~= seq![a] + rest.drop_last());
        assert(all.last() == rest.last());
    } else {
        assert(all =~= seq![a]);
        assert(all.drop_last() =~= Seq::empty());
        assert(last_value(all.drop_last(), r) is None);
    }
}

/// The last pair for a register decides about its initial value.
pub proof fn law_last_initial_value_counts(b: Seq<u8>, at: int, count: int, k: int)
    requires
        has_pairs(b, at, count),
        0 <= k < count,
        pair_at(b, at, k).0 < 14,
        forall|j: int| k < j < count ==> (#[trigger] pair_at(b, at, j)).0 != pair_at(b, at, k).0,
    ensures
        last_value(init_pairs(b, at), pair_at(b, at, k).0 as int) == Some(pair_at(b, at, k).1),
    decreases count,
{
    let r = pair_at(b, at, k).0 as int;
    lemma_pairs_step(b, at, count);
    let rest = init_pairs(b, at + 2);
    if b[at] < 14 {
        lemma_last_value_concat((b[at], b[at + 1]), rest, r);
    }
    if k > 0 {
        assert(pair_at(b, at + 2, k - 1) == pair_at(b, at, k));
        assert forall|j: int| k - 1 < j < count - 1 implies (#[trigger] pair_at(b, at + 2, j)).0 != pair_at(
            b,
            at + 2,
            k - 1,
        ).0 by {
            assert(pair_at(b, at + 2, j) == pair_at(b, at, j + 1));
        }
        law_last_initial_value_counts(b, at + 2, count - 1, k - 1);
    } else {
        assert forall|j: int| 0 <= j < count - 1 implies (#[trigger] pair_at(b, at + 2, j)).0 != r by {
            assert(pair_at(b, at + 2, j) == pair_at(b, at, j + 1));
        }
        lemma_no_value(b, at + 2, count - 1, r);
    }
}

proof fn lemma_pairs_step(b: Seq<u8>, at: int, count: int)
    requires
        has_pairs(b, at, count),
        count > 0,
    ensures
        has_pairs(b, at + 2, count - 1),
        at + 1 < b.len(),
        !(b[at] == 0xFF && b[at + 1] == 0xFF),
{
    assert(pair_at(b, at, 0) != (0xFFu8, 0xFFu8));
    assert forall|j: int| 0 <= j < count - 1 implies #[trigger] pair_at(b, at + 2, j) != (0xFFu8, 0xFFu8) by {
        assert(pair_at(b, at + 2, j) == pair_at(b, at, j + 1));
    }
    assert(pair_at(b, at + 2, count - 1) == pair_at(b, at, count));
}

proof fn lemma_no_value(b: Seq<u8>, at: int, count: int, r: int)
    requires
        has_pairs(b, at, count),
        forall|j: int| 0 <= j < count ==> (#[trigger] pair_at(b, at, j)).0 != r,
    ensures
        last_value(init_pairs(b, at), r) is None,
    decreases count,
{
    if count > 0 {
        lemma_pairs_step(b, at, count);
        assert(pair_at(b, at, 0).0 != r);
        assert forall|j: int| 0 <= j < count - 1 implies (#[trigger] pair_at(b, at + 2, j)).0 != r by {
            assert(pair_at(b, at + 2, j) == pair_at(b, at, j + 1));
        }
        lemma_no_value(b, at + 2, count - 1, r);
        if b[at] < 14 {
            lemma_last_value_concat((b[at], b[at + 1]), init_pairs(b, at + 2), r);
        }
    }
}

/// A register without an initial value rests at zero, but the envelope shape at 255, which no
/// envelope has.
pub proof fn law_registers_without_initial_value(b: Seq<u8>, at: int, count: int, r: int)
    requires
        at == b[8] + 256 * b[9],
        has_pairs(b, at, count),
        0 <= r < 14,
        forall|j: int| 0 <= j < count ==> (#[trigger] pair_at(b, at, j)).0 != r,
    ensures
        resting_value(b, r) == (if r == 13 {
            255u8
        } else {
            0u8
        }),
{
    lemma_no_value(b, at, count, r);
}

/// A register whose initial value is in the file rests at that.
pub proof fn law_registers_rest_at_their_initial_value(b: Seq<u8>, at: int, count: int, k: int)
    requires
        at == b[8] + 256 * b[9],
        has_pairs(b, at, count),
        0 <= k < count,
        b[at + 2 * k] < 14,
        forall|j: int| k < j < count ==> (#[trigger] pair_at(b, at, j)).0 != b[at + 2 * k],
    ensures
        resting_value(b, b[at + 2 * k] as int) == b[at + 2 * k + 1],
{
    law_last_initial_value_counts(b, at, count, k);
}

/// The numbers of the header.
pub proof fn law_header_numbers(song: AytSong, b: Seq<u8>)
    requires
        song.decodes(b),
        fault(b) is None,
    ensures
        song.active_mask == b[1] + 256 * b[2],
        song.pattern_size == b[3],
        song.sequence_count * song.active_registers@.len() == b[10] + 256 * b[11]
            - song.active_registers@.len(),
        song.frame_count == song.sequence_count * b[3],
        32 * song.frequency_code + song.platform_id == b[12],
        song.platform_id < 32,
{
    let n = song.active_registers@.len() as int;
    let p = pointers_of(b);
    vstd::arithmetic::div_mod::lemma_fundamental_div_mod(p, n);
    assert(n * (p / n) == (p / n) * n) by (nonlinear_arith);
}

/// The loop pointer leads to a sequence of the table; the tune starts again with its first row.
pub proof fn law_loop_pointer_names_a_sequence(song: AytSong, b: Seq<u8>, sequence: int)
    requires
        song.decodes(b),
        fault(b) is None,
        0 <= sequence < song.sequence_count,
        b[6] + 256 * b[7] == b[4] + 256 * b[5] + 2 * song.active_registers@.len() * sequence,
    ensures
        song.loop_frame == sequence * b[3],
{
    let step = 2 * registers_of(b).len() as int;
    let back = word_at(b, 6) - first_of(b);
    assert(back == step * sequence);
    vstd::arithmetic::div_mod::lemma_div_multiples_vanish(sequence, step);
    vstd::arithmetic::div_mod::lemma_mod_multiples_basic(sequence, step);
    assert(sequence * step == step * sequence) by (nonlinear_arith);
    assert(step * sequence >= 0) by (nonlinear_arith)
        requires
            step >= 0,
            sequence >= 0,
    ;
    let size = pattern_size_of(b);
    assert(sequence * size < sequences_of(b) * size) by (nonlinear_arith)
        requires
            sequence < sequences_of(b),
            size > 0,
    ;
}

// ── laws of playing ─────────────────────────────────────────────────────────

proof fn lemma_writes_separate(song: AytSong, b: Seq<u8>, f: int)
    requires
        song.decodes(b),
    ensures
        stream::are_separate(frame_writes(song, f)),
        frame_writes(song, f).len() == song.active_registers@.len(),
{
    lemma_ascending(mask_of(b), 14);
    let w = frame_writes(song, f);
    let active = song.active_registers@;
    assert forall|i: int| 0 <= i < w.len() implies 0 <= (#[trigger] w[i]).0 < 16 by {
        assert(active[i] < 14);
    }
    assert forall|i: int, j: int| 0 <= i < j < w.len() implies (#[trigger] w[i]).0 != (#[trigger] w[j]).0 by {
        assert(active[i] < active[j]);
    }
}

/// After the writes of a frame each active register has its value in that frame, and no other
/// register has changed.
pub proof fn law_frames_write_the_active_registers(
    song: AytSong,
    b: Seq<u8>,
    chip: Psg,
    f: int,
    r: int,
)
    requires
        song.decodes(b),
        chip.wf(),
        0 <= f < song.frame_count,
        0 <= r < 14,
    ensures
        ({
            let now = stream::written(chip, frame_writes(song, f));
            &&& song.active_registers@.contains(r as u8) ==> now.regs[r] == song.reg_frames@[r]@[f]
            &&& !song.active_registers@.contains(r as u8) ==> now.regs[r] == chip.regs[r]
            &&& now.regs[14] == chip.regs[14]
            &&& now.regs[15] == chip.regs[15]
        }),
{
    let active = song.active_registers@;
    let w = frame_writes(song, f);
    lemma_writes_separate(song, b, f);
    lemma_ascending(mask_of(b), 14);
    stream::law_writes_are_held(chip, w, r);
    stream::law_writes_are_held(chip, w, 14);
    stream::law_writes_are_held(chip, w, 15);
    assert forall|i: int| 0 <= i < w.len() implies (#[trigger] w[i]).0 < 14 by {
        assert(active[i] < 14);
    }
    if active.contains(r as u8) {
        let i = choose|i: int| 0 <= i < active.len() && active[i] == r as u8;
        assert(w[i] == (r, song.reg_frames@[r]@[f]));
        assert(stream::written(chip, w).regs[w[i].0] == w[i].1);
    } else {
        assert forall|i: int| 0 <= i < w.len() implies (#[trigger] w[i]).0 != r by {
            assert(active.contains(active[i]));
        }
    }
}

/// Where a new session starts.
pub open spec fn at_start() -> Playing {
    Playing { chip: Psg::initial(), cursor: 0, apply: true, finished: false }
}

/// A tune plays its frames one after another: each sample is taken with the registers of the frame
/// that is due, which is the number of frames that have ended before it. A fixed volume in the
/// file is the volume of that sample.
pub proof fn law_tune_plays_its_frames(
    song: AytSong,
    b: Seq<u8>,
    steps: Seq<(u32, bool)>,
    ticks: u32,
    frame_done: bool,
    ch: int,
)
    requires
        song.decodes(b),
        stream::frame_ends(steps) < song.frame_count,
        0 <= ch < 3,
        song.active_registers@.contains((8 + ch) as u8),
    ensures
        ({
            let levels = played(song, at_start(), steps.push((ticks, frame_done))).1;
            let volume = song.reg_frames@[8 + ch]@[stream::frame_ends(steps)];
            &&& levels.len() == steps.len() + 1
            &&& volume < 16 ==> levels.last()[ch].volume == 2 * volume + 1
        }),
{
    let frames = song.frame_count as int;
    let writes = writes_of(song);
    let st = at_start();
    let p = Psg::initial();
    assert forall|i: int| 0 <= i < 3 implies #[trigger] p.tone_period[i] == crate::psg::tone_period_of(
        p.regs,
        i,
    ) by {}
    assert forall|f: int| stream::are_separate(#[trigger] writes(f)) by {
        lemma_writes_separate(song, b, f);
    }
    lemma_no_ends(steps);
    stream::law_frames_are_counted(frames, writes, st, steps);
    stream::law_samples_sound_their_frame(frames, writes, st, steps, ticks, frame_done);
    let now = stream::played(frames, writes, st, steps).0;
    let w = frame_writes(song, now.cursor);
    let active = song.active_registers@;
    let i = choose|i: int| 0 <= i < active.len() && active[i] == (8 + ch) as u8;
    assert(w[i] == (8 + ch, song.reg_frames@[8 + ch]@[now.cursor]));
    let chip = stream::sampled_chip(now, w, ticks as nat);
    assert(chip.regs[w[i].0] == w[i].1);
}

proof fn lemma_no_ends(steps: Seq<(u32, bool)>)
    ensures
        stream::frame_ends(steps) >= 0,
    decreases steps.len(),
{
    if steps.len() > 0 {
        lemma_no_ends(steps.drop_last());
    }
}

/// The clock of each machine, and the frames per second of each code.
pub proof fn law_machines_and_rates()
    ensures
        platform_of(0) == ("Amstrad CPC"@, 1_000_000int),
        platform_of(1) == ("Oric"@, 1_000_000int),
        platform_of(2) == ("ZXUno"@, 1_750_000int),
        platform_of(3) == ("Pentagon"@, 1_750_000int),
        platform_of(4) == ("Timex TS2068"@, 1_764_000int),
        platform_of(5) == ("ZX 128"@, 1_773_450int),
        platform_of(6) == ("MSX"@, 1_789_772int),
        platform_of(7) == ("Atari ST"@, 2_000_000int),
        platform_of(8) == ("VG5000"@, 1_000_000int),
        forall|id: int| id > 8 ==> #[trigger] platform_of(id) == ("Unknown"@, 1_000_000int),
        frame_rate_of(0) == 50,
        frame_rate_of(1) == 25,
        frame_rate_of(2) == 60,
        frame_rate_of(3) == 30,
        frame_rate_of(4) == 100,
        frame_rate_of(5) == 200,
        forall|code: int| code > 5 ==> #[trigger] frame_rate_of(code) == 50,
{
}

/// A frame within the tune is shown, and behind its end the last one.
pub proof fn law_shown_frame_is_in_the_tune(song: AytSong, cursor: int)
    requires
        song.frame_count > 0,
        0 <= cursor,
    ensures
        cursor < song.frame_count ==> song.shown_frame(cursor) == cursor,
        cursor >= song.frame_count ==> song.shown_frame(cursor) == song.frame_count - 1,
{
}

/// The row that is being played is among the rows of the monitor, and it is the only one that is
/// marked.
pub proof fn law_monitor_marks_the_row_that_is_played(song: AytSong, cursor: int, rows: int, k: int)
    requires
        song.wf(),
        0 <= cursor < song.frame_count,
        rows > 0,
        0 <= k < rows,
    ensures
        ({
            let lines = monitor(song, cursor, rows);
            let row = cursor % song.pattern_size as int;
            let played = if row >= rows / 2 {
                rows / 2
            } else {
                row
            };
            &&& lines.len() == rows
            &&& 0 <= played < rows
            &&& lines[played].len() > 0 && lines[played][0] == '>'
            &&& k != played ==> lines[k].len() == 0 || lines[k][0] == ' '
            &&& lines[k].len() > 0 ==> text::value_in_base(lines[k].subrange(1, 3), 16) == row - played + k
        }),
{
    let frame = song.shown_frame(cursor);
    let start = monitor_start(song, frame, rows);
    let row = song.row(frame);
    law_place_names_the_frame(song, frame);
    lemma_monitor_line(song, frame, row);
    assert(0 <= rows / 2 < rows);
    if start + k < song.pattern_size {
        lemma_monitor_line(song, frame, start + k);
    }
    let played = if row >= rows / 2 {
        rows / 2
    } else {
        row
    };
    assert(monitor(song, cursor, rows)[played] == monitor_line(song, frame, row));
}

proof fn lemma_monitor_line(song: AytSong, frame: int, row: int)
    requires
        song.wf(),
        0 <= row < song.pattern_size,
    ensures
        ({
            let line = monitor_line(song, frame, row);
            &&& line.len() > 3
            &&& line[0] == (if row == song.row(frame) {
                '>'
            } else {
                ' '
            })
            &&& text::value_in_base(line.subrange(1, 3), 16) == row
        }),
{
    reveal_strlit(" ");
    let line = monitor_line(song, frame, row);
    let h = text::hex(row as nat, 2);
    text::law_hex_stands_for_the_number(row as nat, 2);
    reveal_with_fuel(text::digits, 3);
    assert(row / 16 < 16);
    text::law_filled_text_ends_with_the_text(text::digits(row as nat, 16), 2, '0');
    assert(h.len() == 2);
    assert(line.subrange(1, 3) =~= h);
}

/// The text on a tune has the numbers of its header.
pub proof fn law_track_text_tells_the_numbers(song: AytSong)
    ensures
        ({
            let t = track_text(song);
            &&& t.contains("Platform: "@ + song.platform_name@ + " (id "@ + text::decimal(song.platform_id as int) + ")"@)
            &&& t.contains("Master clock: "@ + text::decimal(song.master_clock_hz as int) + " Hz"@)
            &&& t.contains("Pattern size: "@ + text::decimal(song.pattern_size as int) + " frames"@)
            &&& t.contains("Sequence count: "@ + text::decimal(song.sequence_count as int))
            &&& t.contains("Frame count: "@ + text::decimal(song.frame_count as int))
            &&& t.contains("Loop frame: "@ + text::decimal(song.loop_frame as int))
            &&& t.len() == 9 + (if song.init_values@.len() == 0 {
                0
            } else {
                2 + song.init_values@.len()
            })
        }),
{
    let t = track_text(song);
    assert(t[1] == "Platform: "@ + song.platform_name@ + " (id "@ + text::decimal(song.platform_id as int) + ")"@);
    assert(t[3] == "Master clock: "@ + text::decimal(song.master_clock_hz as int) + " Hz"@);
    assert(t[4] == "Pattern size: "@ + text::decimal(song.pattern_size as int) + " frames"@);
    assert(t[5] == "Sequence count: "@ + text::decimal(song.sequence_count as int));
    assert(t[6] == "Frame count: "@ + text::decimal(song.frame_count as int));
    assert(t[7] == "Loop frame: "@ + text::decimal(song.loop_frame as int));
}

/// The text on a tune names its version, its rate and its registers, and lists the initial values
/// with number and value.
pub proof fn law_track_text_lists_the_initial_values(song: AytSong, i: int)
    requires
        0 <= i < song.init_values@.len(),
    ensures
        ({
            let t = track_text(song);
            let pair = song.init_values@[i];
            &&& t[0] == "AYT version "@ + text::decimal(song.version as int / 16) + "."@ + text::decimal(
                song.version as int % 16,
            )
            &&& t[2] == "Frame rate: "@ + text::decimal(song.frame_rate as int) + " Hz (code "@ + text::decimal(
                song.frequency_code as int,
            ) + ")"@
            &&& t[8] == "Active mask: 0x"@ + text::hex(song.active_mask as nat, 4)
            &&& t[11 + i] == "  R"@ + text::filled(text::decimal(pair.0 as int), 2, '0') + " = 0x"@ + text::hex(
                pair.1 as nat,
                2,
            )
        }),
{
}

proof fn lemma_joined_cells(parts: Seq<Seq<char>>, size: nat, i: int)
    requires
        forall|j: int| 0 <= j < parts.len() ==> (#[trigger] parts[j]).len() == size,
        0 <= i < parts.len(),
    ensures
        text::join(parts, seq![' ']).len() == parts.len() * (size + 1) - 1,
        0 <= i * (size + 1),
        i * (size + 1) + size <= text::join(parts, seq![' ']).len(),
        text::join(parts, seq![' ']).subrange(i * (size + 1), i * (size + 1) + size) == parts[i],
    decreases parts.len(),
{
    let n = parts.len() as int;
    let all = text::join(parts, seq![' ']);
    assert(parts[n - 1].len() == size);
    assert(0 <= i * (size + 1)) by (nonlinear_arith)
        requires
            0 <= i,
    ;
    if n == 1 {
        assert(all == parts[0]);
        assert(i == 0);
        assert(0 * (size + 1) == 0);
        assert(1 * (size + 1) == size + 1);
        assert(all.subrange(0, size as int) =~= parts[0]);
    } else {
        let head = parts.drop_last();
        let before = text::join(head, seq![' ']);
        assert forall|j: int| 0 <= j < head.len() implies (#[trigger] head[j]).len() == size by {
            assert(head[j] == parts[j]);
        }
        assert((n - 1) * (size + 1) + (size + 1) == n * (size + 1)) by (nonlinear_arith);
        assert(all =~= before + seq![' '] + parts.last());
        if i < n - 1 {
            lemma_joined_cells(head, size, i);
            assert(all.subrange(i * (size + 1), i * (size + 1) + size) =~= before.subrange(
                i * (size + 1),
                i * (size + 1) + size,
            ));
        } else {
            lemma_joined_cells(head, size, 0);
            assert(all.subrange(i * (size + 1), i * (size + 1) + size) =~= parts.last());
        }
    }
}

proof fn lemma_cell(song: AytSong, frame: int, i: int)
    requires
        song.wf(),
        0 <= frame < song.frame_count,
        0 <= i < song.active_registers@.len(),
    ensures
        ({
            let cell = monitor_cell(song, frame, i);
            let reg = song.active_registers@[i] as int;
            &&& cell.len() == 6
            &&& cell[0] == 'R'
            &&& text::value_in_base(cell.subrange(1, 3), 10) == reg
            &&& cell[3] == ':'
            &&& text::value_in_base(cell.subrange(4, 6), 16) == song.reg_frames@[reg]@[frame]
        }),
{
    let reg = song.active_registers@[i] as int;
    let value = song.reg_frames@[reg]@[frame] as nat;
    let d = text::decimal(reg);
    let number = text::filled(d, 2, '0');
    let hex = text::hex(value, 2);
    reveal_strlit("R");
    reveal_strlit(":");
    text::law_hex_stands_for_the_number(value, 2);
    text::law_digits_stand_for_the_number(reg as nat, 10);
    assert(song.active_registers@[i] < 14);
    assert(hex.len() == 2) by {
        reveal_with_fuel(text::digits, 3);
        assert(value / 16 < 16);
        text::law_filled_text_ends_with_the_text(text::digits(value, 16), 2, '0');
    }
    assert(number.len() == 2 && text::value_in_base(number, 10) == reg) by {
        reveal_with_fuel(text::digits, 3);
        reveal_with_fuel(text::value_in_base, 3);
        if reg < 10 {
            assert(number =~= seq!['0', d[0]]);
            assert(number.drop_last() =~= seq!['0']);
            assert(number.drop_last().drop_last() =~= Seq::empty());
            assert(d.drop_last() =~= Seq::empty());
            assert(text::value_in_base(number.drop_last(), 10) == 0);
        }
    }
    let cell = monitor_cell(song, frame, i);
    assert(cell.subrange(1, 3) =~= number);
    assert(cell.subrange(4, 6) =~= hex);
}

/// A line of the monitor has the value of each active register in the frame of its row, in seven
/// columns each: the number of the register and its value in two hexadecimal digits.
pub proof fn law_monitor_shows_the_registers(song: AytSong, cursor: int, rows: int, k: int, i: int)
    requires
        song.wf(),
        0 <= cursor < song.frame_count,
        0 <= k < rows,
        0 <= i < song.active_registers@.len(),
        monitor(song, cursor, rows)[k].len() > 0,
    ensures
        ({
            let line = monitor(song, cursor, rows)[k];
            let row = text::value_in_base(line.subrange(1, 3), 16);
            let frame = cursor - cursor % song.pattern_size as int + row;
            let reg = song.active_registers@[i] as int;
            &&& 4 + 7 * i + 6 <= line.len()
            &&& line[4 + 7 * i] == 'R'
            &&& text::value_in_base(line.subrange(4 + 7 * i + 1, 4 + 7 * i + 3), 10) == reg
            &&& text::value_in_base(line.subrange(4 + 7 * i + 4, 4 + 7 * i + 6), 16)
                == song.reg_frames@[reg]@[frame]
        }),
{
    let start = monitor_start(song, cursor, rows);
    let row = start + k;
    let line = monitor(song, cursor, rows)[k];
    law_place_names_the_frame(song, cursor);
    assert(line == monitor_line(song, cursor, row));
    lemma_monitor_line(song, cursor, row);
    let size = song.pattern_size as int;
    let block = song.table_index(cursor);
    let at = block * size + row;
    lemma_block(cursor, size, block);
    assert(0 <= block) by {
        vstd::arithmetic::div_mod::lemma_div_pos_is_pos(cursor, size);
    }
    assert(block < song.sequence_count) by (nonlinear_arith)
        requires
            block * size <= cursor,
            cursor < song.sequence_count * size,
            size > 0,
    ;
    lemma_pointer_index(block, size, row, song.sequence_count as int);
    let parts = Seq::new(song.active_registers@.len(), |j: int| monitor_cell(song, at, j));
    assert forall|j: int| 0 <= j < parts.len() implies (#[trigger] parts[j]).len() == 6 by {
        lemma_cell(song, at, j);
    }
    reveal_strlit(" ");
    assert(" "@ =~= seq![' ']);
    lemma_joined_cells(parts, 6, i);
    lemma_cell(song, at, i);
    let joined = text::join(parts, seq![' ']);
    let h = text::hex(row as nat, 2);
    assert(h.len() == 2) by {
        reveal_with_fuel(text::digits, 3);
        assert(row / 16 < 16);
        text::law_filled_text_ends_with_the_text(text::digits(row as nat, 16), 2, '0');
    }
    assert(line =~= seq![line[0]] + h + seq![' '] + joined);
    let cell = parts[i];
    assert(joined.subrange(i * 7, i * 7 + 6) == cell);
    assert(line.subrange(4 + 7 * i, 4 + 7 * i + 6) =~= cell);
    assert(line.subrange(4 + 7 * i + 1, 4 + 7 * i + 3) =~= cell.subrange(1, 3));
    assert(line.subrange(4 + 7 * i + 4, 4 + 7 * i + 6) =~= cell.subrange(4, 6));
    assert(line[4 + 7 * i] == cell[0]);
}

/// A file is accepted exactly if its table lies within it, with a whole number of sequences for its
/// registers, and all pointers leave room for the rows of a pattern before the table.
pub proof fn law_complete_tunes_are_accepted(b: Seq<u8>, n: int)
    requires
        b.len() >= 14,
        n == active_below((b[1] + 256 * b[2]) as u16, 14).len(),
    ensures
        fault(b) is None <==> ({
            let first = b[4] + 256 * b[5];
            let count = b[10] + 256 * b[11] - n;
            &&& b[3] > 0
            &&& 14 <= first <= b.len()
            &&& b[8] + 256 * b[9] < b.len()
            &&& n > 0
            &&& count > 0
            &&& count % n == 0
            &&& first + 2 * count <= b.len()
            &&& forall|k: int|
                0 <= k < count ==> #[trigger] b[first + 2 * k] + 256 * b[first + 2 * k + 1] + b[3] <= first - 14
        }),
{
    let first = b[4] + 256 * b[5];
    let count = b[10] + 256 * b[11] - n;
    assert(registers_of(b).len() == n);
    assert(pointers_of(b) == count);
    if fault(b) is None {
        assert forall|k: int| 0 <= k < count implies #[trigger] b[first + 2 * k] + 256 * b[first + 2 * k + 1] + b[3]
            <= first - 14 by {
            assert(!pointer_overflows(b, k));
        }
    }
    if exists|k: int| 0 <= k < pointers_of(b) && #[trigger] pointer_overflows(b, k) {
        let k = choose|k: int| 0 <= k < pointers_of(b) && #[trigger] pointer_overflows(b, k);
        assert(b[first + 2 * k] + 256 * b[first + 2 * k + 1] + b[3] > first - 14);
    }
}

/// A session stands where its fields say.
pub proof fn law_sessions_stand_where_they_say(s: Session)
    ensures
        s.playing().cursor == s.frame_cursor,
        s.playing().apply == s.apply_regs,
        s.playing().finished == s.finished,
        s.playing().chip == s.chip@,
{
}

} // verus!
