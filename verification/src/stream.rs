//! What the two tune players share: open sessions, playing frame by frame, and the windows
//! from which levels and spectra are computed.

use crate::psg;
use crate::psg::{ChannelLevel, Psg};
use vstd::hash_map::StringHashMap;
use vstd::prelude::*;
use vstd::string::*;

verus! {

/// Samples per second of the produced sound.
pub const SAMPLE_RATE: u32 = 48_000;

/// Channels of the produced sound.
pub const CHANNELS: u32 = 2;

/// Bands of the shown spectrum.
pub const SPECTRUM_BANDS: usize = 96;

/// Samples that the shown spectrum looks back on.
pub const RECENT_SAMPLES: usize = 2048;

/// Lines of the register monitor.
pub const MONITOR_ROWS: usize = 14;

// ── playing ─────────────────────────────────────────────────────────────────

/// Where a player stands in a tune.
pub struct Playing {
    pub chip: Psg,
    /// The frame that is being played.
    pub cursor: int,
    /// The registers of that frame are still to be written.
    pub apply: bool,
    pub finished: bool,
}

/// The generator after `writes`, in order.
pub open spec fn written(chip: Psg, writes: Seq<(int, u8)>) -> Psg
    decreases writes.len(),
{
    if writes.len() == 0 {
        chip
    } else {
        written(chip, writes.drop_last()).write(writes.last().0, writes.last().1)
    }
}

/// The generator when a sample is taken: the frame's registers written if that is still to
/// be done, then `ticks` clock ticks.
pub open spec fn sampled_chip(st: Playing, writes: Seq<(int, u8)>, ticks: nat) -> Psg {
    (if st.apply {
        written(st.chip, writes)
    } else {
        st.chip
    }).ticked_times(ticks)
}

/// One sample further in a tune of `frames` frames. `writes` are the register writes of the
/// current frame, `ticks` the clock ticks that fall on the sample, and `frame_done` says that
/// the sample is the frame's last. Past the last frame nothing moves any more.
pub open spec fn advanced(
    st: Playing,
    frames: int,
    writes: Seq<(int, u8)>,
    ticks: nat,
    frame_done: bool,
) -> Playing {
    if st.cursor >= frames {
        Playing { finished: true, ..st }
    } else {
        let chip = sampled_chip(st, writes, ticks);
        if frame_done {
            Playing {
                chip,
                cursor: st.cursor + 1,
                apply: true,
                finished: st.finished || st.cursor + 1 >= frames,
            }
        } else {
            Playing { chip, apply: false, ..st }
        }
    }
}

/// The levels of that sample; none past the last frame.
pub open spec fn sample(st: Playing, frames: int, writes: Seq<(int, u8)>, ticks: nat) -> Option<
    Seq<ChannelLevel>,
> {
    if st.cursor >= frames {
        None
    } else {
        Some(psg::levels_of(sampled_chip(st, writes, ticks)))
    }
}

/// The views of the levels of some samples.
pub open spec fn levels_view(v: Seq<Vec<ChannelLevel>>) -> Seq<Seq<ChannelLevel>> {
    v.map_values(|x: Vec<ChannelLevel>| x@)
}

/// A finished tune stays finished, gives no further sample and leaves the generator alone.
pub proof fn law_finished_is_silent(
    st: Playing,
    frames: int,
    writes: Seq<(int, u8)>,
    ticks: nat,
    frame_done: bool,
)
    requires
        st.finished,
        st.cursor >= frames,
    ensures
        advanced(st, frames, writes, ticks, frame_done) == st,
        sample(st, frames, writes, ticks) is None,
{
}

/// A tune is finished exactly when its last frame has ended, and every sample before that is
/// given.
pub proof fn law_finishes_with_the_last_frame(
    st: Playing,
    frames: int,
    writes: Seq<(int, u8)>,
    ticks: nat,
    frame_done: bool,
)
    requires
        st.finished == (st.cursor >= frames),
    ensures
        ({
            let next = advanced(st, frames, writes, ticks, frame_done);
            &&& next.finished == (next.cursor >= frames)
            &&& sample(st, frames, writes, ticks) is Some <==> !st.finished
            &&& next.cursor == st.cursor + (if frame_done && !st.finished {
                1int
            } else {
                0int
            })
        }),
{
}

/// Where a player stands after some samples, and the levels of those that the tune still had.
/// `writes` gives the register writes of each frame. A step is the clock ticks that fall on its
/// sample, and whether that is the last of its frame.
pub open spec fn played(
    frames: int,
    writes: spec_fn(int) -> Seq<(int, u8)>,
    st: Playing,
    steps: Seq<(u32, bool)>,
) -> (Playing, Seq<Seq<ChannelLevel>>)
    decreases steps.len(),
{
    if steps.len() == 0 {
        (st, Seq::empty())
    } else {
        let (now, levels) = played(frames, writes, st, steps.drop_last());
        let (ticks, frame_done) = steps.last();
        (
            advanced(now, frames, writes(now.cursor), ticks as nat, frame_done),
            match sample(now, frames, writes(now.cursor), ticks as nat) {
                Some(one) => levels.push(one),
                None => levels,
            },
        )
    }
}

/// The frames that end within some samples.
pub open spec fn frame_ends(steps: Seq<(u32, bool)>) -> int
    decreases steps.len(),
{
    if steps.len() == 0 {
        0
    } else {
        frame_ends(steps.drop_last()) + (if steps.last().1 {
            1int
        } else {
            0int
        })
    }
}

/// Reading samples in two goes gives the same samples as reading them at once, and leads to
/// the same place.
pub proof fn law_reading_in_parts(
    frames: int,
    writes: spec_fn(int) -> Seq<(int, u8)>,
    st: Playing,
    first: Seq<(u32, bool)>,
    second: Seq<(u32, bool)>,
)
    ensures
        ({
            let (between, levels1) = played(frames, writes, st, first);
            let (end, levels2) = played(frames, writes, between, second);
            played(frames, writes, st, first + second) == (end, levels1 + levels2)
        }),
    decreases second.len(),
{
    let (between, levels1) = played(frames, writes, st, first);
    if second.len() == 0 {
        assert(first + second =~= first);
        assert(levels1 + played(frames, writes, between, second).1 =~= levels1);
    } else {
        law_reading_in_parts(frames, writes, st, first, second.drop_last());
        assert((first + second).drop_last() =~= first + second.drop_last());
        let (now, levels2) = played(frames, writes, between, second.drop_last());
        let one = sample(now, frames, writes(now.cursor), second.last().0 as nat);
        if one is Some {
            assert((levels1 + levels2).push(one->0) =~= levels1 + levels2.push(one->0));
        }
    }
}

/// Playing goes on by the frames that end within the samples, up to the end of the tune, and
/// has finished exactly when it has come there. As long as it has not, every sample is given.
pub proof fn law_frames_are_counted(
    frames: int,
    writes: spec_fn(int) -> Seq<(int, u8)>,
    st: Playing,
    steps: Seq<(u32, bool)>,
)
    requires
        st.cursor <= frames,
        st.finished == (st.cursor >= frames),
    ensures
        ({
            let (end, levels) = played(frames, writes, st, steps);
            &&& frame_ends(steps) >= 0
            &&& end.cursor == (if st.cursor + frame_ends(steps) < frames {
                st.cursor + frame_ends(steps)
            } else {
                frames
            })
            &&& end.finished == (end.cursor >= frames)
            &&& !end.finished ==> levels.len() == steps.len()
        }),
    decreases steps.len(),
{
    if steps.len() > 0 {
        law_frames_are_counted(frames, writes, st, steps.drop_last());
        let (now, _) = played(frames, writes, st, steps.drop_last());
        law_finishes_with_the_last_frame(
            now,
            frames,
            writes(now.cursor),
            steps.last().0 as nat,
            steps.last().1,
        );
    }
}

// ── windows ─────────────────────────────────────────────────────────────────

/// The last `limit` items of `s`.
pub open spec fn last_items<T>(s: Seq<T>, limit: int) -> Seq<T> {
    if s.len() <= limit {
        s
    } else {
        s.skip(s.len() - limit)
    }
}

/// Appends `more` to `recent` and keeps the last `limit` items of both.
pub fn keep_recent<T: Copy>(recent: &mut Vec<T>, more: &[T], limit: usize)
    ensures
        final(recent)@ == last_items(old(recent)@ + more@, limit as int),
{
    let ghost all = recent@ + more@;
    let mut kept: Vec<T> = Vec::new();
    let have: usize = recent.len();
    let fresh: usize = more.len();
    let from_more: usize = if fresh < limit { fresh } else { limit };
    let room: usize = limit - from_more;
    let from_old: usize = if have < room { have } else { room };
    for i in 0..from_old
        invariant
            from_old <= have,
            have == recent@.len(),
            kept@ == recent@.subrange(have - from_old, have - from_old + i),
    {
        kept.push(recent[have - from_old + i]);
        assert(kept@ =~= recent@.subrange(have - from_old, have - from_old + i + 1));
    }
    let ghost old_part = kept@;
    for i in 0..from_more
        invariant
            from_more <= fresh,
            fresh == more@.len(),
            kept@ == old_part + more@.subrange(fresh - from_more, fresh - from_more + i),
    {
        kept.push(more[fresh - from_more + i]);
        assert(kept@ =~= old_part + more@.subrange(fresh - from_more, fresh - from_more + i + 1));
    }
    assert(kept@ =~= last_items(all, limit as int));
    *recent = kept;
}

/// The samples that band `idx` of `bands` covers, as first and end; none where the samples
/// have run out.
pub open spec fn band(len: int, bands: int, idx: int) -> Option<(int, int)> {
    let chunk = if len / bands > 1 {
        len / bands
    } else {
        1
    };
    if idx * chunk >= len {
        None
    } else if idx * chunk + chunk < len {
        Some((idx * chunk, idx * chunk + chunk))
    } else {
        Some((idx * chunk, len))
    }
}

/// The samples that each of `bands` bands covers; no bands at all without samples.
pub fn band_ranges(len: usize, bands: usize) -> (r: Vec<Option<(usize, usize)>>)
    ensures
        len == 0 || bands == 0 ==> r@.len() == 0,
        len > 0 && bands > 0 ==> r@.len() == bands,
        forall|i: int|
            #![trigger r@[i]]
            0 <= i < r@.len() ==> (match r@[i] {
                Some((a, b)) => band(len as int, bands as int, i) == Some((a as int, b as int)),
                None => band(len as int, bands as int, i) is None,
            }),
{
    let mut out: Vec<Option<(usize, usize)>> = Vec::new();
    if len == 0 || bands == 0 {
        return out;
    }
    let whole: usize = len / bands;
    let chunk: usize = if whole > 1 { whole } else { 1 };
    for idx in 0..bands
        invariant
            bands > 0,
            len > 0,
            chunk >= 1,
            chunk == (if len as int / bands as int > 1 {
                len as int / bands as int
            } else {
                1
            }),
            out@.len() == idx,
            forall|i: int|
                #![trigger out@[i]]
                0 <= i < out@.len() ==> (match out@[i] {
                    Some((a, b)) => band(len as int, bands as int, i) == Some((a as int, b as int)),
                    None => band(len as int, bands as int, i) is None,
                }),
    {
        proof {
            assert(idx * chunk <= len || chunk == 1) by (nonlinear_arith)
                requires
                    idx < bands,
                    chunk == 1 || chunk == len as int / bands as int,
                    bands > 0,
                    len > 0,
            ;
        }
        let start: usize = idx * chunk;
        if start >= len {
            out.push(None);
        } else if chunk < len - start {
            out.push(Some((start, start + chunk)));
        } else {
            out.push(Some((start, len)));
        }
    }
    out
}

/// The bands cover the samples in order, without a gap and without overlap.
pub proof fn law_bands_are_consecutive(len: int, bands: int, idx: int)
    requires
        len > 0,
        bands > 0,
        0 <= idx,
    ensures
        band(len, bands, idx) matches Some((a, b)) ==> 0 <= a < b <= len,
        band(len, bands, 0) matches Some((a, b)) && a == 0,
        band(len, bands, idx + 1) matches Some((a, b)) ==> band(len, bands, idx) matches Some((c, d)) && d
            == a,
{
    let chunk = if len / bands > 1 {
        len / bands
    } else {
        1
    };
    assert((idx + 1) * chunk == idx * chunk + chunk) by (nonlinear_arith);
    assert(0 <= idx * chunk) by (nonlinear_arith)
        requires
            0 <= idx,
            1 <= chunk,
    ;
    assert(0 * chunk == 0) by (nonlinear_arith);
}

// ── open tunes ──────────────────────────────────────────────────────────────

/// What a player tells of a tune when it is opened.
pub struct TrackInfo {
    pub name: String,
    pub format: String,
    pub channels: u32,
    pub sample_rate: u32,
    pub songs: u32,
    pub tracker_text_lines: Vec<String>,
}

/// Where a tune is being played.
#[derive(Clone, Copy, PartialEq, Eq, Structural, Debug)]
pub struct Position {
    pub frame: usize,
    pub table_index: u32,
    pub pattern: u32,
    pub row: u32,
    pub playing: bool,
}

/// The name shown for a tune: its file name, or the path where it has none.
pub fn shown_name(path: &str, file_name: Option<String>) -> (r: String)
    ensures
        r@ == (match file_name {
            Some(name) => name@,
            None => path@,
        }),
{
    match file_name {
        Some(name) => name,
        None => path.to_string(),
    }
}

/// The sessions of one player, by the path of their tune.
#[verifier::reject_recursive_types(S)]
pub struct Sessions<S> {
    label: String,
    open: StringHashMap<S>,
}

impl<S> View for Sessions<S> {
    type V = Map<Seq<char>, S>;

    closed spec fn view(&self) -> Map<Seq<char>, S> {
        self.open@
    }
}

impl<S> Sessions<S> {
    /// The player's name in its messages.
    pub closed spec fn name(self) -> Seq<char> {
        self.label@
    }

    /// No sessions yet.
    pub fn new(label: &str) -> (r: Sessions<S>)
        ensures
            r@ == Map::<Seq<char>, S>::empty(),
            r.name() == label@,
    {
        Sessions { label: label.to_string(), open: StringHashMap::new() }
    }

    /// Opens a session; an earlier one for the same path is replaced.
    pub fn open(&mut self, path: &str, session: S)
        ensures
            final(self)@ == old(self)@.insert(path@, session),
            final(self).name() == old(self).name(),
    {
        self.open.insert(path.to_string(), session);
    }

    /// The session for `path`.
    pub fn get(&self, path: &str) -> (r: Result<&S, String>)
        ensures
            self@.contains_key(path@) ==> r is Ok && *r->Ok_0 == self@[path@],
            !self@.contains_key(path@) ==> r is Err && r->Err_0@ == self.name() + " session not open"@,
    {
        match self.open.get(path) {
            Some(session) => Ok(session),
            None => {
                let mut message = self.label.clone();
                message.append(" session not open");
                Err(message)
            },
        }
    }

    /// Closes the session for `path`, if one is open.
    pub fn close(&mut self, path: &str)
        ensures
            final(self)@ == old(self)@.remove(path@),
            final(self).name() == old(self).name(),
    {
        self.open.remove(path);
    }
}

/// A tune that is not open counts as finished.
pub fn is_finished(open: Option<bool>) -> (r: bool)
    ensures
        r == (match open {
            Some(finished) => finished,
            None => true,
        }),
{
    match open {
        Some(finished) => finished,
        None => true,
    }
}

/// How many samples a request for `frames` asks for: at least one.
pub fn requested(frames: u32) -> (r: u32)
    ensures
        r == (if frames == 0 {
            1
        } else {
            frames
        }),
{
    if frames == 0 {
        1
    } else {
        frames
    }
}

// ── what a frame writes is what sounds ──────────────────────────────────────

/// Writes to registers that the generator has, each to another one.
pub open spec fn are_separate(writes: Seq<(int, u8)>) -> bool {
    &&& forall|i: int| 0 <= i < writes.len() ==> 0 <= (#[trigger] writes[i]).0 < 16
    &&& forall|i: int, j: int|
        0 <= i < j < writes.len() ==> (#[trigger] writes[i]).0 != (#[trigger] writes[j]).0
}

/// The generator has what `writes` put into its registers.
pub open spec fn holds(chip: Psg, writes: Seq<(int, u8)>) -> bool {
    forall|i: int| 0 <= i < writes.len() ==> chip.regs[(#[trigger] writes[i]).0] == writes[i].1
}

/// After separate writes every written register holds its value, and no other register has
/// changed.
pub proof fn law_writes_are_held(chip: Psg, writes: Seq<(int, u8)>, r: int)
    requires
        chip.wf(),
        are_separate(writes),
        0 <= r < 16,
    ensures
        written(chip, writes).wf(),
        holds(written(chip, writes), writes),
        (forall|i: int| 0 <= i < writes.len() ==> (#[trigger] writes[i]).0 != r) ==> written(
            chip,
            writes,
        ).regs[r] == chip.regs[r],
    decreases writes.len(),
{
    if writes.len() > 0 {
        let head = writes.drop_last();
        let last = writes.last();
        assert forall|i: int| 0 <= i < head.len() implies 0 <= (#[trigger] head[i]).0 < 16 by {
            assert(head[i] == writes[i]);
        }
        assert forall|i: int, j: int| 0 <= i < j < head.len() implies (#[trigger] head[i]).0 != (
        #[trigger] head[j]).0 by {
            assert(head[i] == writes[i] && head[j] == writes[j]);
        }
        law_writes_are_held(chip, head, r);
        let before = written(chip, head);
        let after = written(chip, writes);
        assert(0 <= writes[writes.len() - 1].0 < 16);
        psg::law_write_keeps_wf(before, last.0, last.1);
        assert forall|i: int| 0 <= i < writes.len() implies after.regs[(#[trigger] writes[i]).0]
            == writes[i].1 by {
            psg::law_write_reads_back(before, last.0, last.1, writes[i].0);
            if i < head.len() {
                assert(head[i] == writes[i]);
                assert(writes[i].0 != writes[writes.len() - 1].0);
            }
        }
        if forall|i: int| 0 <= i < writes.len() ==> (#[trigger] writes[i]).0 != r {
            assert forall|i: int| 0 <= i < head.len() implies (#[trigger] head[i]).0 != r by {
                assert(head[i] == writes[i]);
            }
            assert(writes[writes.len() - 1].0 != r);
            psg::law_write_reads_back(before, last.0, last.1, r);
        }
    }
}

proof fn lemma_sampled_holds(st: Playing, writes: Seq<(int, u8)>, ticks: nat)
    requires
        st.chip.wf(),
        are_separate(writes),
        st.apply || holds(st.chip, writes),
    ensures
        sampled_chip(st, writes, ticks).wf(),
        holds(sampled_chip(st, writes, ticks), writes),
{
    let chip = if st.apply {
        written(st.chip, writes)
    } else {
        st.chip
    };
    if st.apply {
        law_writes_are_held(st.chip, writes, 0);
    }
    psg::law_ticks_keep_wf(chip, ticks);
    let after = chip.ticked_times(ticks);
    assert forall|i: int| 0 <= i < writes.len() implies after.regs[(#[trigger] writes[i]).0] == writes[i].1 by {
        assert(chip.regs[writes[i].0] == writes[i].1);
    }
}

proof fn lemma_played_holds(
    frames: int,
    writes: spec_fn(int) -> Seq<(int, u8)>,
    st: Playing,
    steps: Seq<(u32, bool)>,
)
    requires
        st.chip.wf(),
        st.apply,
        forall|f: int| are_separate(#[trigger] writes(f)),
    ensures
        ({
            let now = played(frames, writes, st, steps).0;
            now.chip.wf() && (now.apply || holds(now.chip, writes(now.cursor)))
        }),
    decreases steps.len(),
{
    if steps.len() > 0 {
        lemma_played_holds(frames, writes, st, steps.drop_last());
        let now = played(frames, writes, st, steps.drop_last()).0;
        lemma_sampled_holds(now, writes(now.cursor), steps.last().0 as nat);
    }
}

/// Whenever a sample is taken, the registers that the frame at the cursor writes hold the values
/// of that frame and of no other one.
pub proof fn law_samples_sound_their_frame(
    frames: int,
    writes: spec_fn(int) -> Seq<(int, u8)>,
    st: Playing,
    steps: Seq<(u32, bool)>,
    ticks: u32,
    frame_done: bool,
)
    requires
        st.chip.wf(),
        st.apply,
        forall|f: int| are_separate(#[trigger] writes(f)),
        played(frames, writes, st, steps).0.cursor < frames,
    ensures
        ({
            let (now, levels) = played(frames, writes, st, steps);
            let chip = sampled_chip(now, writes(now.cursor), ticks as nat);
            &&& chip.wf()
            &&& holds(chip, writes(now.cursor))
            &&& played(frames, writes, st, steps.push((ticks, frame_done))).1 == levels.push(
                psg::levels_of(chip),
            )
        }),
{
    lemma_played_holds(frames, writes, st, steps);
    let now = played(frames, writes, st, steps).0;
    lemma_sampled_holds(now, writes(now.cursor), ticks as nat);
    assert(steps.push((ticks, frame_done)).drop_last() =~= steps);
}

proof fn lemma_ticks_add(p: Psg, a: nat, b: nat)
    ensures
        p.ticked_times(a + b) == p.ticked_times(a).ticked_times(b),
    decreases b,
{
    if b > 0 {
        lemma_ticks_add(p, a, (b - 1) as nat);
        assert((a + b - 1) as nat == a + (b - 1) as nat);
    }
}

/// Within a frame the sound goes on from sample to sample: the registers are written once, at its
/// start, and two samples are as far as one with the ticks of both. With the next frame they are
/// written again.
pub proof fn law_frames_are_written_once(
    st: Playing,
    frames: int,
    writes: Seq<(int, u8)>,
    first: nat,
    second: nat,
)
    requires
        st.cursor < frames,
    ensures
        ({
            let next = advanced(st, frames, writes, first, false);
            &&& sampled_chip(next, writes, second) == sampled_chip(st, writes, first + second)
            &&& next.cursor == st.cursor
            &&& !next.apply
            &&& advanced(st, frames, writes, first, true).apply
            &&& advanced(st, frames, writes, first, true).chip == sampled_chip(st, writes, first)
        }),
{
    let chip = if st.apply {
        written(st.chip, writes)
    } else {
        st.chip
    };
    lemma_ticks_add(chip, first, second);
}

/// The newest items are kept, as many as the limit allows, in their order.
pub proof fn law_newest_items_are_kept<T>(s: Seq<T>, limit: int)
    requires
        limit >= 0,
    ensures
        last_items(s, limit).len() == (if s.len() < limit {
            s.len() as int
        } else {
            limit
        }),
        forall|i: int|
            0 <= i < last_items(s, limit).len() ==> #[trigger] last_items(s, limit)[i] == s[s.len()
                - last_items(s, limit).len() + i],
{
}

/// Of at least as many samples as bands every band has the same number, as many as there are for
/// each; of fewer samples every band that has any has one.
pub proof fn law_bands_have_one_size(len: int, bands: int, idx: int)
    requires
        len > 0,
        bands > 0,
        0 <= idx < bands,
    ensures
        band(len, bands, idx) matches Some((a, b)) ==> {
            &&& len >= bands ==> a == idx * (len / bands) && b - a == len / bands
            &&& len < bands ==> a == idx && b == idx + 1
        },
        len >= bands ==> band(len, bands, idx) is Some,
        len < bands ==> (band(len, bands, idx) is Some <==> idx < len),
{
    vstd::arithmetic::div_mod::lemma_fundamental_div_mod(len, bands);
    let q = len / bands;
    if len >= bands {
        assert(q >= 1) by (nonlinear_arith)
            requires
                len >= bands,
                bands > 0,
                q == len / bands,
        ;
        assert(idx * q + q <= bands * q) by (nonlinear_arith)
            requires
                idx + 1 <= bands,
                q >= 1,
        ;
    } else {
        assert(q == 0) by (nonlinear_arith)
            requires
                0 < len < bands,
                q == len / bands,
        ;
        assert(idx * 1 == idx);
    }
}

/// Samples are looked at as they are.
pub proof fn law_samples_are_seen_as_they_are(v: Seq<Vec<ChannelLevel>>, i: int)
    requires
        0 <= i < v.len(),
    ensures
        levels_view(v).len() == v.len(),
        levels_view(v)[i] == v[i]@,
{
}

} // verus!
