//! A frame-rate readout that does not measure itself.
//!
//! The readout counts presented frames. It is scene content too: refreshing it damages its
//! block, which presents a frame, and counting that frame would keep the number alive
//! forever. So a time is recorded only for frames where something other than the readout
//! was damaged. Once the last such frame has aged past [`GAP`], the readout is idle.
//!
//! Times are microseconds on a clock that the caller reads.

use std::collections::VecDeque;
use vstd::prelude::*;

verus! {

broadcast use vstd::std_specs::vecdeque::group_vec_dequeue_axioms;

/// Times older than this are dropped, so the reading follows the last second and a half.
pub const WINDOW: u64 = 1_500_000;

/// A gap this long means that presenting was paused, or that the scene went idle. What came
/// before it is dropped instead of averaged across the hole.
pub const GAP: u64 = 600_000;

/// How often the displayed text may change.
pub const UPDATE: u64 = 250_000;

/// Times needed before a rate is shown at all.
pub const MIN_SAMPLES: usize = 5;

/// What `str::to_lowercase` of the standard library makes of a text.
pub uninterp spec fn lowercased(text: Seq<char>) -> Seq<char>;

/// `str::to_lowercase` of the standard library, which maps a text to lower case as Unicode
/// has it, by the text alone.
#[verifier::external_body]
fn to_lowercase(text: &str) -> (lower: String)
    ensures
        lower@ == lowercased(text@),
{
    text.to_lowercase()
}

/// The short name of a graphics backend.
pub open spec fn tag_of(backend: Seq<char>) -> Seq<char> {
    if backend == "BrowserWebGpu"@ {
        "webgpu"@
    } else if backend == "Gl"@ {
        "webgl2"@
    } else {
        lowercased(backend)
    }
}

/// Short name for the backend that a surface got. The two that a browser offers have names
/// of their own, and any other is its own name in lower case.
pub fn backend_tag(backend: &str) -> (tag: String)
    ensures
        tag@ == tag_of(backend@),
{
    let name: String = backend.to_owned();
    if name == "BrowserWebGpu".to_owned() {
        "webgpu".to_owned()
    } else if name == "Gl".to_owned() {
        "webgl2".to_owned()
    } else {
        to_lowercase(backend)
    }
}

/// The last time is further back than a pause.
pub open spec fn stale(samples: Seq<u64>, now: u64) -> bool {
    samples.len() > 0 && now - samples.last() > GAP
}

/// The times that are left after a pause is noticed.
pub open spec fn awake(samples: Seq<u64>, now: u64) -> Seq<u64> {
    if stale(samples, now) {
        Seq::empty()
    } else {
        samples
    }
}

/// The times without those that fell out of the window, of which the last few stay: what
/// genuinely runs at three frames a second is not idle.
pub open spec fn trimmed(samples: Seq<u64>, now: u64) -> Seq<u64>
    decreases samples.len(),
{
    if samples.len() > MIN_SAMPLES && now - samples[0] > WINDOW {
        trimmed(samples.subrange(1, samples.len() as int), now)
    } else {
        samples
    }
}

/// The times once a frame was presented.
pub open spec fn recorded(samples: Seq<u64>, now: u64) -> Seq<u64> {
    trimmed(awake(samples, now).push(now), now)
}

/// What there is to show.
#[derive(Clone, Copy, Debug, PartialEq, Eq, Structural)]
pub enum Rate {
    /// Nothing to measure.
    Idle,
    /// So many frame intervals, taking so long together.
    Measured { intervals: u64, span: u64 },
}

/// The rate that the times make.
pub open spec fn rate_of(samples: Seq<u64>) -> Rate {
    if samples.len() < MIN_SAMPLES || samples.last() <= samples[0] {
        Rate::Idle
    } else {
        Rate::Measured {
            intervals: (samples.len() - 1) as u64,
            span: (samples.last() - samples[0]) as u64,
        }
    }
}

/// An idle scene settles: once the last frame has aged past a pause, the reading is idle,
/// whatever was recorded before.
pub proof fn lemma_settles(samples: Seq<u64>, now: u64)
    requires
        samples.len() > 0 ==> now - samples.last() > GAP,
    ensures
        rate_of(awake(samples, now)) == Rate::Idle,
{
}

/// A frame is always recorded, and trimming never leaves fewer than the least that a rate
/// needs where there were as many.
pub proof fn lemma_trimming_keeps_enough(samples: Seq<u64>, now: u64)
    ensures
        trimmed(samples, now).len() <= samples.len(),
        samples.len() >= MIN_SAMPLES ==> trimmed(samples, now).len() >= MIN_SAMPLES,
        samples.len() > 0 ==> trimmed(samples, now).len() > 0 && trimmed(samples, now).last()
            == samples.last(),
        trimmed(samples, now) == samples.subrange(
            samples.len() - trimmed(samples, now).len(),
            samples.len() as int,
        ),
    decreases samples.len(),
{
    if samples.len() > MIN_SAMPLES && now - samples[0] > WINDOW {
        let rest = samples.subrange(1, samples.len() as int);
        lemma_trimming_keeps_enough(rest, now);
        let kept = trimmed(rest, now);
        assert(rest.subrange(rest.len() - kept.len(), rest.len() as int) =~= samples.subrange(
            samples.len() - kept.len(),
            samples.len() as int,
        ));
    } else {
        assert(samples.subrange(0, samples.len() as int) =~= samples);
    }
}

/// The times in a row.
pub open spec fn in_order(samples: Seq<u64>) -> bool {
    forall|i: int, j: int|
        0 <= i <= j < samples.len() ==> #[trigger] samples[i] <= #[trigger] samples[j]
}

/// On a clock that never runs backwards, the times stay in order, and of more than the
/// least number none is older than the window.
pub proof fn lemma_recorded_in_order(samples: Seq<u64>, now: u64)
    requires
        in_order(samples),
        samples.len() > 0 ==> samples.last() <= now,
    ensures
        in_order(recorded(samples, now)),
        recorded(samples, now).len() > 0,
        recorded(samples, now).last() == now,
        recorded(samples, now).len() > MIN_SAMPLES ==> forall|i: int|
            0 <= i < recorded(samples, now).len() ==> now - #[trigger] recorded(samples, now)[i]
                <= WINDOW,
{
    let full = awake(samples, now).push(now);
    lemma_trimming_keeps_enough(full, now);
    assert(in_order(full));
    lemma_trimmed_in_window(full, now);
}

proof fn lemma_trimmed_in_window(samples: Seq<u64>, now: u64)
    requires
        in_order(samples),
    ensures
        in_order(trimmed(samples, now)),
        trimmed(samples, now).len() > MIN_SAMPLES ==> forall|i: int|
            0 <= i < trimmed(samples, now).len() ==> now - #[trigger] trimmed(samples, now)[i]
                <= WINDOW,
    decreases samples.len(),
{
    if samples.len() > MIN_SAMPLES && now - samples[0] > WINDOW {
        lemma_trimmed_in_window(samples.subrange(1, samples.len() as int), now);
    }
}

/// What a [`FrameMeter`] holds.
pub ghost struct MeterState {
    pub samples: Seq<u64>,
    pub label: Seq<char>,
    pub updated_at: u64,
}

/// When frames were presented, and what the readout says of it.
pub struct FrameMeter {
    /// The times of presented frames, oldest first.
    samples: VecDeque<u64>,
    /// The text that is shown, so that an unchanged number changes nothing.
    label: String,
    /// When the text was last considered for a change.
    updated_at: u64,
}

impl View for FrameMeter {
    type V = MeterState;

    closed spec fn view(&self) -> MeterState {
        MeterState {
            samples: self.samples@,
            label: self.label@,
            updated_at: self.updated_at,
        }
    }
}

impl FrameMeter {
    /// A meter that has seen nothing.
    pub fn new() -> (meter: FrameMeter)
        ensures
            meter@.samples == Seq::<u64>::empty(),
            meter@.label == Seq::<char>::empty(),
            meter@.updated_at == 0,
    {
        FrameMeter { samples: VecDeque::new(), label: String::new(), updated_at: 0 }
    }

    /// The times of the frames that count.
    pub fn samples(&self) -> (samples: &VecDeque<u64>)
        ensures
            samples@ == self@.samples,
    {
        &self.samples
    }

    /// The text that is shown.
    pub fn label(&self) -> (label: &str)
        ensures
            label@ == self@.label,
    {
        self.label.as_str()
    }

    /// Forgets the frames, for a readout that is hidden: nothing is measured meanwhile, and
    /// it starts clean when it comes back.
    pub fn reset(&mut self)
        ensures
            final(self)@ == (MeterState { samples: Seq::empty(), ..old(self)@ }),
    {
        self.samples.clear();
    }

    /// Notes that a frame is presented at `now`. It counts only where something other than
    /// the readout was damaged.
    pub fn record(&mut self, external_damage: bool, now: u64)
        ensures
            final(self)@ == (MeterState {
                samples: if external_damage {
                    recorded(old(self)@.samples, now)
                } else {
                    old(self)@.samples
                },
                ..old(self)@
            }),
    {
        if !external_damage {
            return;
        }
        self.wake(now);
        self.samples.push_back(now);
        let ghost full = self.samples@;
        while self.samples.len() > MIN_SAMPLES && now.saturating_sub(self.samples[0]) > WINDOW
            invariant
                trimmed(self.samples@, now) == trimmed(full, now),
                self.label@ == old(self).label@,
                self.updated_at == old(self).updated_at,
            decreases self.samples@.len(),
        {
            let ghost before = self.samples@;
            let dropped: Option<u64> = self.samples.pop_front();
            assert(self.samples@ =~= before.subrange(1, before.len() as int));
        }
    }

    /// Drops what came before a pause.
    fn wake(&mut self, now: u64)
        ensures
            final(self)@ == (MeterState {
                samples: awake(old(self)@.samples, now),
                ..old(self)@
            }),
    {
        let n: usize = self.samples.len();
        if n > 0 && now.saturating_sub(self.samples[n - 1]) > GAP {
            self.samples.clear();
        }
    }

    /// What there is to show at `now`.
    pub fn rate(&mut self, now: u64) -> (rate: Rate)
        ensures
            final(self)@ == (MeterState {
                samples: awake(old(self)@.samples, now),
                ..old(self)@
            }),
            rate == rate_of(final(self)@.samples),
    {
        self.wake(now);
        let n: usize = self.samples.len();
        if n < MIN_SAMPLES {
            return Rate::Idle;
        }
        let first: u64 = self.samples[0];
        let last: u64 = self.samples[n - 1];
        if last <= first {
            return Rate::Idle;
        }
        Rate::Measured { intervals: (n - 1) as u64, span: last - first }
    }

    /// The rate to show, where it is time to consider a change of the text at all.
    pub fn poll(&mut self, now: u64) -> (due: Option<Rate>)
        ensures
            ({
                let state = old(self)@;
                let samples = awake(state.samples, now);
                if now - state.updated_at >= UPDATE {
                    &&& due == Some(rate_of(samples))
                    &&& final(self)@ == (MeterState { samples, updated_at: now, ..state })
                } else {
                    &&& due is None
                    &&& final(self)@ == state
                }
            }),
    {
        if now.saturating_sub(self.updated_at) >= UPDATE {
            self.updated_at = now;
            Some(self.rate(now))
        } else {
            None
        }
    }

    /// Takes over a text, and tells whether it is another than before: only then is there
    /// anything to draw anew.
    pub fn relabel(&mut self, label: String) -> (changed: bool)
        ensures
            changed == (label@ != old(self)@.label),
            final(self)@ == (MeterState { label: label@, ..old(self)@ }),
    {
        if label == self.label {
            false
        } else {
            self.label = label;
            true
        }
    }
}

/// A pause of more than six tenths of a second since the last time drops all of them, and
/// anything shorter none.
pub proof fn lemma_pause(samples: Seq<u64>, now: u64)
    ensures
        samples.len() > 0 && now - samples.last() > 600_000 ==> awake(samples, now).len() == 0,
        samples.len() == 0 || now - samples.last() <= 600_000 ==> awake(samples, now) == samples,
{
}

/// Recording drops no time that is not older than a second and a half, unless all go in a
/// pause, and keeps none that is as long as more than five are left.
pub proof fn lemma_trims_only_old(samples: Seq<u64>, now: u64)
    ensures
        ({
            let kept = trimmed(samples, now);
            let dropped = samples.len() - kept.len();
            &&& 0 <= dropped
            &&& forall|i: int| 0 <= i < dropped ==> now - #[trigger] samples[i] > 1_500_000
            &&& kept.len() > 5 ==> now - kept[0] <= 1_500_000
            &&& samples.len() <= 5 ==> kept == samples
            &&& dropped > 0 ==> kept.len() >= 5
        }),
    decreases samples.len(),
{
    if samples.len() > MIN_SAMPLES && now - samples[0] > WINDOW {
        let rest = samples.subrange(1, samples.len() as int);
        lemma_trims_only_old(rest, now);
        let kept = trimmed(samples, now);
        assert(kept == trimmed(rest, now));
        lemma_trimming_keeps_enough(rest, now);
        assert forall|i: int| 0 <= i < samples.len() - kept.len() implies now
            - #[trigger] samples[i] > 1_500_000 by {
            if i > 0 {
                assert(rest[i - 1] == samples[i]);
            }
        }
    }
}

/// A rate is measured exactly where there are five times and some time between the first and
/// the last; it says how many frames followed the first and how long they took.
pub proof fn lemma_rate_measures(samples: Seq<u64>)
    requires
        samples.len() <= u64::MAX,
    ensures
        rate_of(samples) is Measured <==> samples.len() >= 5 && samples[0] < samples.last(),
        rate_of(samples) matches Rate::Measured { intervals, span } ==> intervals + 1
            == samples.len() && samples[0] + span == samples.last(),
{
}

} // verus!
