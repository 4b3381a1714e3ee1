//! The programmable sound generator behind the AY-3-8910 and the YM2149: three tone
//! channels, one noise source and one envelope, driven by sixteen registers.

use vstd::prelude::*;

verus! {

/// Everything the generator remembers between two ticks.
#[verifier::ext_equal]
pub struct Psg {
    pub regs: Seq<u8>,
    pub tone_period: Seq<i32>,
    pub tone_cnt: Seq<i32>,
    pub tone_out: Seq<i32>,
    pub noise_period: i32,
    pub noise_cnt: i32,
    pub noise_lfsr: u32,
    pub noise_out: i32,
    pub env_period: i32,
    pub env_cnt: i32,
    pub env_shape: i32,
    pub env_level: i32,
    pub env_hold: bool,
    pub env_alt: bool,
    pub env_atk: bool,
    pub env_cont: bool,
}

/// `n`, but at least one.
pub open spec fn at_least_one(n: int) -> int {
    if n < 1 {
        1
    } else {
        n
    }
}

/// The twelve-bit period of tone channel `ch`: fine register plus four bits of the coarse one.
pub open spec fn tone_period_of(regs: Seq<u8>, ch: int) -> int {
    at_least_one(regs[2 * ch] + 256 * (regs[2 * ch + 1] as int % 16))
}

/// The five-bit noise period.
pub open spec fn noise_period_of(regs: Seq<u8>) -> int {
    at_least_one(regs[6] as int % 32)
}

/// The sixteen-bit envelope period.
pub open spec fn env_period_of(regs: Seq<u8>) -> int {
    at_least_one(regs[11] + 256 * regs[12])
}

/// Bit `k` of an envelope shape.
pub open spec fn shape_bit(shape: int, k: int) -> bool {
    if k == 3 {
        shape / 8 % 2 == 1
    } else if k == 2 {
        shape / 4 % 2 == 1
    } else if k == 1 {
        shape / 2 % 2 == 1
    } else {
        shape % 2 == 1
    }
}

/// The next value of the seventeen-bit shift register: a shift to the right, with the
/// exclusive or of bits 0 and 3 entering at the top.
pub open spec fn lfsr_next(x: u32) -> u32 {
    if (x ^ (x >> 3)) & 1 != 0 {
        (x >> 1) | 0x10000
    } else {
        x >> 1
    }
}

/// A counter that reloads from `period` when it has run out, one tick later.
pub open spec fn count_down(cnt: int, period: int) -> int {
    (if cnt == 0 {
        period
    } else {
        cnt
    }) - 1
}

impl Psg {
    /// Power-on state.
    pub open spec fn initial() -> Psg {
        Psg {
            regs: Seq::new(16, |i: int| 0u8),
            tone_period: Seq::new(3, |i: int| 1i32),
            tone_cnt: Seq::new(3, |i: int| 0i32),
            tone_out: Seq::new(3, |i: int| 0i32),
            noise_period: 1,
            noise_cnt: 0,
            noise_lfsr: 0x1FFFF,
            noise_out: 1,
            env_period: 1,
            env_cnt: 0,
            env_shape: 0,
            env_level: 31,
            env_hold: false,
            env_alt: false,
            env_atk: false,
            env_cont: false,
        }
    }

    /// Every part is within the range that the hardware has for it.
    pub open spec fn bounded(self) -> bool {
        &&& self.regs.len() == 16
        &&& self.tone_period.len() == 3
        &&& self.tone_cnt.len() == 3
        &&& self.tone_out.len() == 3
        &&& forall|i: int| 0 <= i < 3 ==> 1 <= #[trigger] self.tone_period[i] <= 4095
        &&& forall|i: int| 0 <= i < 3 ==> 0 <= #[trigger] self.tone_cnt[i] < 4095
        &&& forall|i: int| 0 <= i < 3 ==> 0 <= #[trigger] self.tone_out[i] <= 1
        &&& 1 <= self.noise_period <= 31
        &&& 0 <= self.noise_cnt < 31
        &&& 0 < self.noise_lfsr <= 0x1FFFF
        &&& 0 <= self.noise_out <= 1
        &&& 1 <= self.env_period <= 65535
        &&& 0 <= self.env_cnt < 65535
        &&& 0 <= self.env_level <= 31
    }

    /// The periods and the envelope flags are what the registers ask for.
    pub open spec fn in_step(self) -> bool {
        &&& forall|i: int| 0 <= i < 3 ==> #[trigger] self.tone_period[i] == tone_period_of(self.regs, i)
        &&& self.noise_period == noise_period_of(self.regs)
        &&& self.env_period == env_period_of(self.regs)
        &&& self.env_shape == self.regs[13] as int % 16
        &&& self.env_cont == shape_bit(self.env_shape as int, 3)
        &&& self.env_alt == shape_bit(self.env_shape as int, 1)
        &&& self.env_hold == shape_bit(self.env_shape as int, 0)
    }

    /// A state that the generator can be in.
    pub open spec fn wf(self) -> bool {
        self.bounded() && self.in_step()
    }

    pub open spec fn with_tone_periods(self) -> Psg {
        Psg {
            tone_period: Seq::new(3, |i: int| tone_period_of(self.regs, i) as i32),
            ..self
        }
    }

    pub open spec fn with_noise_period(self) -> Psg {
        Psg { noise_period: noise_period_of(self.regs) as i32, ..self }
    }

    pub open spec fn with_env_period(self) -> Psg {
        Psg { env_period: env_period_of(self.regs) as i32, ..self }
    }

    /// The envelope starts again with the shape in register 13: from silence if it attacks,
    /// from full level if it decays.
    pub open spec fn with_env_reload(self) -> Psg {
        let shape = self.regs[13] as int % 16;
        let attack = shape_bit(shape, 2);
        Psg {
            env_shape: shape as i32,
            env_cont: shape_bit(shape, 3),
            env_atk: attack,
            env_alt: shape_bit(shape, 1),
            env_hold: shape_bit(shape, 0),
            env_level: if attack {
                0
            } else {
                31
            },
            ..self
        }
    }

    /// One register is written; what depends on it follows. Only the low four bits of the
    /// index count.
    pub open spec fn write(self, index: int, value: u8) -> Psg {
        let idx = index % 16;
        let p = Psg { regs: self.regs.update(idx, value), ..self };
        if idx <= 5 {
            p.with_tone_periods()
        } else if idx == 6 {
            p.with_noise_period()
        } else if idx == 11 || idx == 12 {
            p.with_env_period()
        } else if idx == 13 {
            p.with_env_reload()
        } else {
            p
        }
    }

    /// The envelope level moves by one towards its end, and stays within its range.
    pub open spec fn env_moved(self) -> int {
        if self.env_atk {
            if self.env_level < 31 {
                self.env_level + 1
            } else {
                self.env_level as int
            }
        } else if self.env_level > 0 {
            self.env_level - 1
        } else {
            self.env_level as int
        }
    }

    /// One envelope step. At the end of a ramp a continuing shape that does not hold either
    /// turns round (alternate) or starts the same ramp again; every other shape stays there.
    pub open spec fn env_stepped(self) -> Psg {
        let level = self.env_moved();
        let at_end = if self.env_atk {
            level == 31
        } else {
            level == 0
        };
        if at_end && self.env_cont && !self.env_hold {
            if self.env_alt {
                Psg { env_level: level as i32, env_atk: !self.env_atk, ..self }
            } else {
                Psg { env_level: (31 - level) as i32, ..self }
            }
        } else {
            Psg { env_level: level as i32, ..self }
        }
    }

    /// One clock tick: every counter goes down by one, reloading first if it has run out, and
    /// what it drives moves when it reaches zero.
    pub open spec fn ticked(self) -> Psg {
        let tone_cnt = Seq::new(
            3,
            |i: int| count_down(self.tone_cnt[i] as int, self.tone_period[i] as int) as i32,
        );
        let noise_cnt = count_down(self.noise_cnt as int, self.noise_period as int) as i32;
        let env_cnt = count_down(self.env_cnt as int, self.env_period as int) as i32;
        let lfsr = if noise_cnt == 0 {
            lfsr_next(self.noise_lfsr)
        } else {
            self.noise_lfsr
        };
        let p = Psg {
            tone_cnt,
            tone_out: Seq::new(
                3,
                |i: int|
                    if tone_cnt[i] == 0 {
                        (1 - self.tone_out[i]) as i32
                    } else {
                        self.tone_out[i]
                    },
            ),
            noise_cnt,
            noise_lfsr: lfsr,
            noise_out: if noise_cnt == 0 {
                (lfsr % 2) as i32
            } else {
                self.noise_out
            },
            env_cnt,
            ..self
        };
        if env_cnt == 0 {
            p.env_stepped()
        } else {
            p
        }
    }

    /// `n` clock ticks.
    pub open spec fn ticked_times(self, n: nat) -> Psg
        decreases n,
    {
        if n == 0 {
            self
        } else {
            self.ticked_times((n - 1) as nat).ticked()
        }
    }

    /// Whether channel `ch` is high: a source that register 7 leaves enabled must be high for
    /// it (the noise source counts inverted), a disabled one does not matter.
    pub open spec fn channel_high(self, ch: int) -> bool {
        &&& (self.regs[7] >> ch as u8) & 1 == 0 ==> self.tone_out[ch] == 1
        &&& (self.regs[7] >> (ch + 3) as u8) & 1 == 0 ==> self.noise_out == 0
    }

    /// The position of channel `ch` on the thirty-two-step volume scale: the envelope's level
    /// where bit 4 of its volume register is set, the odd steps for a fixed volume.
    pub open spec fn channel_volume(self, ch: int) -> int {
        let r = self.regs[8 + ch];
        if r as int / 16 % 2 == 1 {
            self.env_level as int
        } else {
            2 * (r as int % 16) + 1
        }
    }
}

/// The sound generator.
pub struct AyChip {
    regs: [u8; 16],
    tone_period: [i32; 3],
    tone_cnt: [i32; 3],
    tone_out: [i32; 3],
    noise_period: i32,
    noise_cnt: i32,
    noise_lfsr: u32,
    noise_out: i32,
    env_period: i32,
    env_cnt: i32,
    env_shape: i32,
    env_level: i32,
    env_hold: bool,
    env_alt: bool,
    env_atk: bool,
    env_cont: bool,
}

impl View for AyChip {
    type V = Psg;

    closed spec fn view(&self) -> Psg {
        Psg {
            regs: self.regs@,
            tone_period: self.tone_period@,
            tone_cnt: self.tone_cnt@,
            tone_out: self.tone_out@,
            noise_period: self.noise_period,
            noise_cnt: self.noise_cnt,
            noise_lfsr: self.noise_lfsr,
            noise_out: self.noise_out,
            env_period: self.env_period,
            env_cnt: self.env_cnt,
            env_shape: self.env_shape,
            env_level: self.env_level,
            env_hold: self.env_hold,
            env_alt: self.env_alt,
            env_atk: self.env_atk,
            env_cont: self.env_cont,
        }
    }
}

/// What one channel contributes to a sample.
#[derive(Clone, Copy, PartialEq, Eq, Structural, Debug)]
pub struct ChannelLevel {
    /// The channel's output is at its upper level.
    pub high: bool,
    /// Index into the thirty-two-step volume scale.
    pub volume: usize,
}

fn join_bytes(lo: u8, hi: u8) -> (r: i32)
    ensures
        r == lo + 256 * hi,
{
    lo as i32 + 256 * hi as i32
}

impl AyChip {
    /// A generator in its power-on state.
    pub fn new() -> (chip: AyChip)
        ensures
            chip@ == Psg::initial(),
            chip@.wf(),
    {
        let mut chip = AyChip {
            regs: [0; 16],
            tone_period: [1; 3],
            tone_cnt: [0; 3],
            tone_out: [0; 3],
            noise_period: 1,
            noise_cnt: 0,
            noise_lfsr: 0x1FFFF,
            noise_out: 1,
            env_period: 1,
            env_cnt: 0,
            env_shape: 0,
            env_level: 0,
            env_hold: false,
            env_alt: false,
            env_atk: false,
            env_cont: false,
        };
        chip.env_reload();
        assert(chip@ =~= Psg::initial());
        chip
    }

    /// Writes a register; only the low four bits of `index` count.
    pub fn write_reg(&mut self, index: usize, value: u8)
        ensures
            final(self)@ == old(self)@.write(index as int, value),
            old(self)@.wf() ==> final(self)@.wf(),
    {
        assert(index & 0x0F == index % 16) by (bit_vector);
        let idx: usize = index & 0x0F;
        self.regs[idx] = value;
        if idx <= 5 {
            self.recalc_tone_periods();
        } else if idx == 6 {
            self.recalc_noise_period();
        } else if idx == 11 || idx == 12 {
            self.recalc_env_period();
        } else if idx == 13 {
            self.env_reload();
        }
        proof {
            if old(self)@.wf() {
                law_write_keeps_wf(old(self)@, index as int, value);
            }
        }
    }

    /// Takes the tone periods from registers 0 to 5.
    pub fn recalc_tone_periods(&mut self)
        ensures
            final(self)@ == old(self)@.with_tone_periods(),
    {
        let p0: i32 = join_bytes(self.regs[0], self.regs[1] % 16);
        let p1: i32 = join_bytes(self.regs[2], self.regs[3] % 16);
        let p2: i32 = join_bytes(self.regs[4], self.regs[5] % 16);
        self.tone_period[0] = if p0 < 1 { 1 } else { p0 };
        self.tone_period[1] = if p1 < 1 { 1 } else { p1 };
        self.tone_period[2] = if p2 < 1 { 1 } else { p2 };
        assert(self@ =~= old(self)@.with_tone_periods());
    }

    /// Takes the noise period from register 6.
    pub fn recalc_noise_period(&mut self)
        ensures
            final(self)@ == old(self)@.with_noise_period(),
    {
        let p: i32 = (self.regs[6] % 32) as i32;
        self.noise_period = if p < 1 { 1 } else { p };
    }

    /// Takes the envelope period from registers 11 and 12.
    pub fn recalc_env_period(&mut self)
        ensures
            final(self)@ == old(self)@.with_env_period(),
    {
        let p: i32 = join_bytes(self.regs[11], self.regs[12]);
        self.env_period = if p < 1 { 1 } else { p };
    }

    /// Starts the envelope again with the shape in register 13.
    pub fn env_reload(&mut self)
        ensures
            final(self)@ == old(self)@.with_env_reload(),
    {
        let shape: i32 = (self.regs[13] % 16) as i32;
        self.env_shape = shape;
        self.env_cont = shape / 8 % 2 == 1;
        self.env_atk = shape / 4 % 2 == 1;
        self.env_alt = shape / 2 % 2 == 1;
        self.env_hold = shape % 2 == 1;
        self.env_level = if self.env_atk { 0 } else { 31 };
    }

    /// Moves the envelope by one step.
    pub fn env_step(&mut self)
        requires
            old(self)@.bounded(),
        ensures
            final(self)@ == old(self)@.env_stepped(),
    {
        if self.env_atk {
            if self.env_level < 31 {
                self.env_level = self.env_level + 1;
            }
        } else if self.env_level > 0 {
            self.env_level = self.env_level - 1;
        }

        let hit_top = self.env_atk && self.env_level == 31;
        let hit_bottom = !self.env_atk && self.env_level == 0;
        if !(hit_top || hit_bottom) {
            return ;
        }
        if !self.env_cont || self.env_hold {
            return ;
        }
        if self.env_alt {
            self.env_atk = !self.env_atk;
        } else {
            self.env_level = if self.env_atk { 0 } else { 31 };
        }
    }

    /// One clock tick.
    pub fn tick(&mut self)
        requires
            old(self)@.wf(),
        ensures
            final(self)@ == old(self)@.ticked(),
            final(self)@.wf(),
    {
        let ghost start = self@;
        proof {
            law_tick_keeps_wf(start);
        }
        for i in 0..3
            invariant
                start.bounded(),
                self@.tone_cnt.len() == 3,
                self@.tone_out.len() == 3,
                self@ =~= (Psg { tone_cnt: self@.tone_cnt, tone_out: self@.tone_out, ..start }),
                forall|j: int| i <= j < 3 ==> self@.tone_cnt[j] == start.tone_cnt[j] && self@.tone_out[j]
                    == start.tone_out[j],
                forall|j: int| 0 <= j < i ==> self@.tone_cnt[j] == #[trigger] start.ticked().tone_cnt[j],
                forall|j: int| 0 <= j < i ==> self@.tone_out[j] == #[trigger] start.ticked().tone_out[j],
        {
            assert(self@.tone_cnt[i as int] == start.tone_cnt[i as int]);
            assert(start.tone_cnt[i as int] >= 0 && start.tone_period[i as int] >= 1);
            assert(0 <= start.tone_out[i as int] <= 1);
            let cnt: i32 = if self.tone_cnt[i] == 0 { self.tone_period[i] } else { self.tone_cnt[i] };
            let left: i32 = cnt - 1;
            self.tone_cnt[i] = left;
            if left == 0 {
                self.tone_out[i] = 1 - self.tone_out[i];
            }
        }

        if self.noise_cnt == 0 {
            self.noise_cnt = self.noise_period;
        }
        self.noise_cnt = self.noise_cnt - 1;
        if self.noise_cnt == 0 {
            let x: u32 = self.noise_lfsr;
            if ((x ^ (x >> 3)) & 1) != 0 {
                self.noise_lfsr = (x >> 1) | 0x10000;
            } else {
                self.noise_lfsr = x >> 1;
            }
            self.noise_out = (self.noise_lfsr % 2) as i32;
        }

        if self.env_cnt == 0 {
            self.env_cnt = self.env_period;
        }
        self.env_cnt = self.env_cnt - 1;
        assert(start.ticked().tone_cnt =~= self@.tone_cnt);
        assert(start.ticked().tone_out =~= self@.tone_out);
        if self.env_cnt == 0 {
            self.env_step();
        }
        assert(self@ =~= start.ticked());
    }

    /// What channel `ch` contributes to the current sample.
    pub fn channel_level(&self, ch: usize) -> (r: ChannelLevel)
        requires
            self@.wf(),
            ch < 3,
        ensures
            r.high == self@.channel_high(ch as int),
            r.volume == self@.channel_volume(ch as int),
            r.volume < 32,
    {
        let mixer: u8 = self.regs[7];
        let tone_on = ((mixer >> ch as u8) & 1) == 0;
        let noise_on = ((mixer >> (ch + 3) as u8) & 1) == 0;
        let mut high = true;
        if tone_on && self.tone_out[ch] != 1 {
            high = false;
        }
        if noise_on && self.noise_out != 0 {
            high = false;
        }
        let r: u8 = self.regs[8 + ch];
        let volume: usize = if r / 16 % 2 == 1 {
            self.env_level as usize
        } else {
            (r % 16) as usize * 2 + 1
        };
        ChannelLevel { high, volume }
    }

    /// What the three channels contribute to the current sample.
    pub fn levels(&self) -> (r: Vec<ChannelLevel>)
        requires
            self@.wf(),
        ensures
            r@ == levels_of(self@),
    {
        let mut out: Vec<ChannelLevel> = Vec::new();
        for ch in 0..3
            invariant
                self@.wf(),
                out@.len() == ch,
                forall|i: int| 0 <= i < ch ==> out@[i] == #[trigger] levels_of(self@)[i],
        {
            out.push(self.channel_level(ch));
        }
        assert(out@ =~= levels_of(self@));
        out
    }
}

/// What the three channels contribute to the current sample.
pub open spec fn levels_of(p: Psg) -> Seq<ChannelLevel> {
    Seq::new(
        3,
        |ch: int| ChannelLevel { high: p.channel_high(ch), volume: p.channel_volume(ch) as usize },
    )
}

// ── laws ────────────────────────────────────────────────────────────────────

/// Whatever is written to whatever register, the generator stays in a state it can be in,
/// with its periods and envelope flags following its registers.
pub proof fn law_write_keeps_wf(p: Psg, index: int, value: u8)
    requires
        p.wf(),
        0 <= index,
    ensures
        p.write(index, value).wf(),
{
    let q = p.write(index, value);
    assert forall|i: int| 0 <= i < 3 implies #[trigger] q.tone_period[i] == tone_period_of(q.regs, i)
        && 1 <= q.tone_period[i] <= 4095 by {
        assert(p.tone_period[i] == tone_period_of(p.regs, i));
    }
}

/// A written register holds what was written, and no other register changes.
pub proof fn law_write_reads_back(p: Psg, index: int, value: u8, other: int)
    requires
        p.wf(),
        0 <= index,
        0 <= other < 16,
    ensures
        p.write(index, value).regs[index % 16] == value,
        other != index % 16 ==> p.write(index, value).regs[other] == p.regs[other],
{
}

proof fn lemma_lfsr_stays(x: u32)
    by (bit_vector)
    requires
        0 < x <= 0x1FFFF,
    ensures
        0 < (if (x ^ (x >> 3)) & 1 != 0 {
            (x >> 1) | 0x10000
        } else {
            x >> 1
        }) <= 0x1FFFF,
{
}

/// The noise shift register never empties, so the noise never stops.
pub proof fn law_noise_never_stops(x: u32)
    requires
        0 < x <= 0x1FFFF,
    ensures
        0 < lfsr_next(x) <= 0x1FFFF,
{
    lemma_lfsr_stays(x);
}

/// A tick leads from a state the generator can be in to another one, and leaves the
/// registers alone.
pub proof fn law_tick_keeps_wf(p: Psg)
    requires
        p.wf(),
    ensures
        p.ticked().wf(),
        p.ticked().regs == p.regs,
        p.ticked().tone_period == p.tone_period,
{
    law_noise_never_stops(p.noise_lfsr);
    let q = p.ticked();
    assert forall|i: int| 0 <= i < 3 implies 0 <= #[trigger] q.tone_cnt[i] < 4095 by {
        assert(1 <= p.tone_period[i] <= 4095);
        assert(0 <= p.tone_cnt[i] < 4095);
    }
    assert forall|i: int| 0 <= i < 3 implies 0 <= #[trigger] q.tone_out[i] <= 1 by {
        assert(0 <= p.tone_out[i] <= 1);
    }
    assert forall|i: int| 0 <= i < 3 implies #[trigger] q.tone_period[i] == tone_period_of(q.regs, i) by {
        assert(p.tone_period[i] == tone_period_of(p.regs, i));
    }
}

/// While the registers are left alone, a tone channel whose counter has run out keeps its
/// output for one tick less than its period, and turns it over exactly at the period.
pub proof fn law_tone_has_its_period(p: Psg, ch: int, n: nat)
    requires
        p.wf(),
        0 <= ch < 3,
        p.tone_cnt[ch] == 0,
        1 <= n <= p.tone_period[ch],
    ensures
        p.ticked_times(n).tone_cnt[ch] == p.tone_period[ch] - n,
        p.ticked_times(n).tone_out[ch] == (if n == p.tone_period[ch] {
            1 - p.tone_out[ch]
        } else {
            p.tone_out[ch] as int
        }),
    decreases n,
{
    law_ticks_keep_wf(p, (n - 1) as nat);
    if n == 1 {
        assert(p.ticked_times(0) == p);
        assert(p.tone_out[ch] <= 1);
    } else {
        law_tone_has_its_period(p, ch, (n - 1) as nat);
        assert(p.ticked_times((n - 1) as nat).tone_out[ch] <= 1);
    }
    assert(1 <= p.tone_period[ch] <= 4095);
}

/// Any number of ticks leads to a state the generator can be in, with the same registers.
pub proof fn law_ticks_keep_wf(p: Psg, n: nat)
    requires
        p.wf(),
    ensures
        p.ticked_times(n).wf(),
        p.ticked_times(n).regs == p.regs,
        p.ticked_times(n).tone_period == p.tone_period,
    decreases n,
{
    if n > 0 {
        law_ticks_keep_wf(p, (n - 1) as nat);
        law_tick_keeps_wf(p.ticked_times((n - 1) as nat));
    }
}

/// An envelope whose shape does not continue, or holds, stays at the end of its first ramp.
pub proof fn law_envelope_settles(p: Psg)
    requires
        p.wf(),
        !p.env_cont || p.env_hold,
        p.env_level == if p.env_atk {
            31int
        } else {
            0int
        },
    ensures
        p.env_stepped() == p,
{
}

// ── what the registers do ───────────────────────────────────────────────────

/// Two registers hold the twelve bits of a tone period; a period of zero counts as one. The other
/// tones keep theirs.
pub proof fn law_tone_registers_set_the_period(p: Psg, ch: int, low: u8, high: u8, other: int)
    requires
        p.wf(),
        0 <= ch < 3,
        0 <= other < 3,
    ensures
        ({
            let q = p.write(2 * ch, low).write(2 * ch + 1, high);
            let period = low + 256 * (high as int % 16);
            &&& period > 0 ==> q.tone_period[ch] == period
            &&& period == 0 ==> q.tone_period[ch] == 1
            &&& other != ch ==> q.tone_period[other] == p.tone_period[other]
        }),
{
    assert(p.tone_period[other] == tone_period_of(p.regs, other));
}

/// The low five bits of register 6 are the noise period, registers 11 and 12 the envelope period;
/// a period of zero counts as one.
pub proof fn law_noise_and_envelope_registers_set_the_period(p: Psg, noise: u8, low: u8, high: u8)
    requires
        p.wf(),
    ensures
        ({
            let q = p.write(6, noise).write(11, low).write(12, high);
            &&& noise % 32 > 0 ==> q.noise_period == noise % 32
            &&& noise % 32 == 0 ==> q.noise_period == 1
            &&& low + 256 * high > 0 ==> q.env_period == low + 256 * high
            &&& low + 256 * high == 0 ==> q.env_period == 1
            &&& q.tone_period == p.tone_period
        }),
{
}

/// A volume below 16 is fixed and louder the larger it is; bit 4 takes the envelope instead. The
/// other channels keep theirs.
pub proof fn law_volume_registers_set_the_volume(p: Psg, ch: int, value: u8, other: int)
    requires
        p.wf(),
        0 <= ch < 3,
        0 <= other < 3,
    ensures
        ({
            let now = levels_of(p.write(8 + ch, value));
            &&& now.len() == 3
            &&& value < 16 ==> now[ch].volume == 2 * value + 1
            &&& 16 <= value < 32 ==> now[ch].volume == p.env_level
            &&& other != ch ==> now[other] == levels_of(p)[other]
        }),
{
    let q = p.write(8 + ch, value);
    assert(q.regs[7] == p.regs[7]);
    assert(other != ch ==> q.regs[8 + other] == p.regs[8 + other]);
}

proof fn lemma_mixer_bits(v: u8)
    by (bit_vector)
    ensures
        (v >> 0u8) & 1 == v % 2,
        (v >> 1u8) & 1 == (v / 2) % 2,
        (v >> 2u8) & 1 == (v / 4) % 2,
        (v >> 3u8) & 1 == (v / 8) % 2,
        (v >> 4u8) & 1 == (v / 16) % 2,
        (v >> 5u8) & 1 == (v / 32) % 2,
{
}

/// Register 7 takes tone and noise off the channels: bits 0 to 2 the tones, bits 3 to 5 the noise.
/// A channel is high while everything is high that is left on it, so without both it always is.
pub proof fn law_mixer_takes_off_tone_and_noise(p: Psg, ch: int, value: u8)
    requires
        p.wf(),
        0 <= ch < 3,
    ensures
        ({
            let now = levels_of(p.write(7, value))[ch];
            let weight = if ch == 0 {
                1
            } else if ch == 1 {
                2
            } else {
                4int
            };
            let tone_off = value as int / weight % 2 == 1;
            let noise_off = value as int / (8 * weight) % 2 == 1;
            &&& tone_off && noise_off ==> now.high
            &&& !tone_off && noise_off ==> now.high == (p.tone_out[ch] == 1)
            &&& tone_off && !noise_off ==> now.high == (p.noise_out == 0)
            &&& !tone_off && !noise_off ==> now.high == (p.tone_out[ch] == 1 && p.noise_out == 0)
        }),
{
    lemma_mixer_bits(value);
    let q = p.write(7, value);
    assert(q.regs[7] == value);
    if ch == 0 {
        assert((value >> 0u8) & 1 == value % 2);
        assert((value >> 3u8) & 1 == (value / 8) % 2);
    } else if ch == 1 {
        assert((value >> 1u8) & 1 == (value / 2) % 2);
        assert((value >> 4u8) & 1 == (value / 16) % 2);
    } else {
        assert((value >> 2u8) & 1 == (value / 4) % 2);
        assert((value >> 5u8) & 1 == (value / 32) % 2);
    }
}

proof fn lemma_lfsr_number(x: u32)
    by (bit_vector)
    requires
        x <= 0x1FFFF,
    ensures
        (x ^ (x >> 3)) & 1 != 0 <==> x % 2 != (x / 8) % 2,
        x >> 1 == x / 2,
        (x >> 1) | 0x10000 == x / 2 + 0x10000,
{
}

/// The noise register has seventeen bits. It moves down by one; the top is filled where its bits 0
/// and 3 differ.
pub proof fn law_noise_register_shifts(x: u32)
    requires
        x <= 0x1FFFF,
    ensures
        lfsr_next(x) == x as int / 2 + (if x % 2 != (x / 8) % 2 {
            65536int
        } else {
            0int
        }),
{
    lemma_lfsr_number(x);
}

/// The noise goes on to its next bit exactly at its period, and shows the lowest bit of its
/// register then.
pub proof fn law_noise_has_its_period(p: Psg, n: nat)
    requires
        p.wf(),
        p.noise_cnt == 0,
        1 <= n <= p.noise_period,
    ensures
        ({
            let q = p.ticked_times(n);
            &&& q.noise_cnt == p.noise_period - n
            &&& n < p.noise_period ==> q.noise_lfsr == p.noise_lfsr && q.noise_out == p.noise_out
            &&& n == p.noise_period ==> q.noise_lfsr == lfsr_next(p.noise_lfsr) && q.noise_out == q.noise_lfsr
                % 2
        }),
    decreases n,
{
    law_ticks_keep_wf(p, (n - 1) as nat);
    if n == 1 {
        assert(p.ticked_times(0) == p);
    } else {
        law_noise_has_its_period(p, (n - 1) as nat);
        lemma_ticks_keep_periods(p, (n - 1) as nat);
    }
}

proof fn lemma_ticks_keep_periods(p: Psg, n: nat)
    ensures
        p.ticked_times(n).noise_period == p.noise_period,
        p.ticked_times(n).env_period == p.env_period,
    decreases n,
{
    if n > 0 {
        lemma_ticks_keep_periods(p, (n - 1) as nat);
    }
}

/// The envelope keeps its level for one tick less than its period, and takes one step exactly at
/// the period.
pub proof fn law_envelope_has_its_period(p: Psg, n: nat)
    requires
        p.wf(),
        p.env_cnt == 0,
        1 <= n <= p.env_period,
    ensures
        ({
            let q = p.ticked_times(n);
            &&& q.env_cnt == p.env_period - n
            &&& n < p.env_period ==> q.env_level == p.env_level && q.env_atk == p.env_atk
            &&& n == p.env_period ==> q.env_level == p.env_stepped().env_level && q.env_atk
                == p.env_stepped().env_atk
        }),
    decreases n,
{
    law_ticks_keep_wf(p, (n - 1) as nat);
    if n == 1 {
        assert(p.ticked_times(0) == p);
    } else {
        law_envelope_has_its_period(p, (n - 1) as nat);
        lemma_ticks_keep_periods(p, (n - 1) as nat);
        lemma_ticks_keep_shape(p, (n - 1) as nat);
    }
}

proof fn lemma_ticks_keep_shape(p: Psg, n: nat)
    ensures
        p.ticked_times(n).env_cont == p.env_cont,
        p.ticked_times(n).env_hold == p.env_hold,
        p.ticked_times(n).env_alt == p.env_alt,
    decreases n,
{
    if n > 0 {
        lemma_ticks_keep_shape(p, (n - 1) as nat);
    }
}

/// A number of steps of the envelope.
pub open spec fn envelope_after(p: Psg, n: nat) -> Psg
    decreases n,
{
    if n == 0 {
        p
    } else {
        envelope_after(p, (n - 1) as nat).env_stepped()
    }
}

/// Writing a shape starts a ramp of thirty-one steps: up from 0 with the attack bit, down from 31
/// without it.
pub proof fn law_shape_starts_a_ramp(p: Psg, shape: u8, n: nat)
    requires
        p.wf(),
        n <= 30,
    ensures
        ({
            let q = envelope_after(p.write(13, shape), n);
            let up = shape as int / 4 % 2 == 1;
            &&& q.env_atk == up
            &&& q.env_level == (if up {
                n as int
            } else {
                31 - n
            })
            &&& q.env_cont == (shape as int / 8 % 2 == 1)
            &&& q.env_alt == (shape as int / 2 % 2 == 1)
            &&& q.env_hold == (shape as int % 2 == 1)
        }),
    decreases n,
{
    if n > 0 {
        law_shape_starts_a_ramp(p, shape, (n - 1) as nat);
    }
}

/// At the end of its ramp an envelope stays there for good if its shape does not continue or
/// holds. Otherwise it starts the same ramp again, or the one back if its shape alternates.
pub proof fn law_ramps_end_as_the_shape_says(p: Psg, shape: u8)
    requires
        p.wf(),
    ensures
        ({
            let q = envelope_after(p.write(13, shape), 31);
            let up = shape as int / 4 % 2 == 1;
            let start = if up {
                0int
            } else {
                31int
            };
            let goes_on = shape as int / 8 % 2 == 1 && shape as int % 2 == 0;
            let turns = shape as int / 2 % 2 == 1;
            &&& !goes_on ==> q.env_level == 31 - start && q.env_stepped().env_level == 31 - start
            &&& goes_on && !turns ==> q.env_level == start && q.env_atk == up
            &&& goes_on && turns ==> q.env_level == 31 - start && q.env_atk == !up
        }),
{
    law_shape_starts_a_ramp(p, shape, 30);
}

/// A new generator: all registers are zero, the noise register is full.
pub proof fn law_start(r: int, ch: int)
    requires
        0 <= r < 16,
        0 <= ch < 3,
    ensures
        Psg::initial().regs[r] == 0,
        Psg::initial().tone_period[ch] == 1,
        Psg::initial().tone_out[ch] == 0,
        Psg::initial().tone_cnt[ch] == 0,
        Psg::initial().noise_lfsr == 131071,
        Psg::initial().noise_out == 1,
        Psg::initial().env_level == 31,
        Psg::initial().noise_cnt == 0,
        Psg::initial().env_cnt == 0,
{
}

/// Only bit 4 of a volume register decides between the envelope and the four bits below it.
pub proof fn law_bit_four_takes_the_envelope(p: Psg, ch: int, value: u8)
    requires
        p.wf(),
        0 <= ch < 3,
    ensures
        ({
            let volume = levels_of(p.write(8 + ch, value))[ch].volume;
            &&& value as int / 16 % 2 == 1 ==> volume == p.env_level
            &&& value as int / 16 % 2 == 0 ==> volume == 2 * (value as int % 16) + 1
        }),
{
}

/// A write to the mixer or to a volume register changes that register and nothing else: no counter, no
/// output and no period.
pub proof fn law_volumes_and_mixer_leave_the_sound_running(p: Psg, index: int, value: u8)
    requires
        p.wf(),
        7 <= index <= 10,
    ensures
        p.write(index, value) == (Psg { regs: p.regs.update(index, value), ..p }),
{
}

/// Writing a period leaves the counters and outputs running, and so does writing a shape, but for the
/// level of the envelope, which starts again.
pub proof fn law_periods_leave_the_sound_running(p: Psg, index: int, value: u8)
    requires
        p.wf(),
        0 <= index < 16,
    ensures
        ({
            let q = p.write(index, value);
            &&& q.tone_cnt == p.tone_cnt && q.tone_out == p.tone_out
            &&& q.noise_cnt == p.noise_cnt && q.noise_lfsr == p.noise_lfsr && q.noise_out == p.noise_out
            &&& q.env_cnt == p.env_cnt
            &&& index != 13 ==> q.env_level == p.env_level && q.env_atk == p.env_atk
        }),
{
}

} // verus!
