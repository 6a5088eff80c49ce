//! How long frames take. Times are in milliseconds.

use std::collections::VecDeque;
use vstd::prelude::*;

use crate::ecs::scalar::{zero, Scalar};
use crate::recent::{keep, kept, law_newest_are_kept, newest};

verus! {

/// How many frames are kept.
pub const HISTORY_LEN: usize = 180;

/// Below this time a frame is fast: 16.7.
pub const FAST_BITS: u32 = 0x4185_999a;

/// Below this time a frame is passable: 33.3.
pub const PASSABLE_BITS: u32 = 0x4205_3333;

/// A section of a frame.
#[derive(Debug, PartialEq, Eq)]
pub struct Span {
    /// Its name.
    pub name: String,
    /// How long it took.
    pub ms: Scalar,
}

/// One frame.
#[derive(Debug)]
pub struct FrameSample {
    /// How long it took.
    pub total_ms: Scalar,
    /// Its sections, in the order in which they were recorded.
    pub spans: Vec<Span>,
    /// How long the graphics processor took, where that is known.
    pub gpu_ms: Option<Scalar>,
}

/// The newest frames, and what is known of the one in progress.
pub struct FrameProfiler {
    frames: VecDeque<FrameSample>,
    current_spans: Vec<Span>,
    pending_gpu_ms: Option<Scalar>,
}

/// What a profiler holds.
#[verifier::ext_equal]
pub ghost struct ProfilerView {
    /// The newest frames, the oldest first.
    pub frames: Seq<FrameSample>,
    /// The sections of the frame in progress.
    pub spans: Seq<Span>,
    /// The time of the graphics processor for the next frame that ends.
    pub gpu_ms: Option<Scalar>,
}

impl View for FrameProfiler {
    type V = ProfilerView;

    closed spec fn view(&self) -> ProfilerView {
        ProfilerView {
            frames: self.frames@,
            spans: self.current_spans@,
            gpu_ms: self.pending_gpu_ms,
        }
    }
}

/// A profiler that knows nothing.
pub open spec fn knows_nothing() -> ProfilerView {
    ProfilerView { frames: Seq::empty(), spans: Seq::empty(), gpu_ms: None }
}

/// Whether the time is one that can be: a number that is neither infinite nor
/// negative.
pub open spec fn valid_time(ms: Scalar) -> bool {
    ms.finite() && !ms.less(zero())
}

/// The longest of the first `n` frames; zero where there are none.
pub open spec fn peak(frames: Seq<FrameSample>, n: nat) -> Scalar
    decreases n,
{
    if n == 0 {
        zero()
    } else {
        peak(frames, (n - 1) as nat).greater(frames[n - 1].total_ms)
    }
}

impl Default for FrameProfiler {
    fn default() -> (profiler: FrameProfiler)
        ensures
            profiler@ == knows_nothing(),
    {
        FrameProfiler::new()
    }
}

impl FrameProfiler {
    /// A profiler that knows nothing.
    pub fn new() -> (profiler: FrameProfiler)
        ensures
            profiler@ == knows_nothing(),
    {
        let profiler = FrameProfiler {
            frames: VecDeque::new(),
            current_spans: Vec::new(),
            pending_gpu_ms: None,
        };
        assert(profiler@ =~= knows_nothing());
        profiler
    }

    /// Begins a frame; what was recorded of one that did not end is forgotten.
    pub fn begin_frame(&mut self)
        ensures
            final(self)@ == (ProfilerView { spans: Seq::empty(), ..old(self)@ }),
    {
        self.current_spans.clear();
        assert(self.current_spans@ =~= Seq::empty());
    }

    /// Records a section of the frame.
    pub fn record_span(&mut self, name: &str, ms: Scalar)
        ensures
            ({
                let span = final(self)@.spans.last();
                &&& span.name@ == name@
                &&& span.ms == ms
                &&& final(self)@ == (ProfilerView {
                    spans: old(self)@.spans.push(span),
                    ..old(self)@
                })
            }),
    {
        self.current_spans.push(Span { name: name.to_owned(), ms });
    }

    /// Takes the time of the graphics processor for the next frame that ends. What is
    /// no possible time is ignored.
    pub fn record_gpu_ms(&mut self, milliseconds: Scalar)
        ensures
            final(self)@ == (ProfilerView {
                gpu_ms: if valid_time(milliseconds) {
                    Some(milliseconds)
                } else {
                    old(self)@.gpu_ms
                },
                ..old(self)@
            }),
    {
        if milliseconds.is_finite() && !milliseconds.is_less(&Scalar::zero()) {
            self.pending_gpu_ms = Some(milliseconds);
        }
    }

    /// Ends the frame, which took the given time; the oldest frame is forgotten where
    /// there are too many.
    pub fn end_frame(&mut self, total_ms: Scalar)
        ensures
            ({
                let sample = final(self)@.frames.last();
                &&& sample.total_ms == total_ms
                &&& sample.spans@ == old(self)@.spans
                &&& sample.gpu_ms == old(self)@.gpu_ms
                &&& final(self)@ == (ProfilerView {
                    frames: kept(old(self)@.frames, sample, HISTORY_LEN as nat),
                    spans: Seq::empty(),
                    gpu_ms: None,
                })
            }),
    {
        let mut spans: Vec<Span> = Vec::new();
        std::mem::swap(&mut spans, &mut self.current_spans);
        let sample = FrameSample { total_ms, spans, gpu_ms: self.pending_gpu_ms };
        self.pending_gpu_ms = None;
        keep(&mut self.frames, sample, HISTORY_LEN);
        assert(self.current_spans@ =~= Seq::empty());
    }

    /// The frame that ended last.
    pub fn latest(&self) -> (sample: Option<&FrameSample>)
        ensures
            match sample {
                Some(sample) => self@.frames.len() > 0 && *sample == self@.frames.last(),
                None => self@.frames.len() == 0,
            },
    {
        let count: usize = self.frames.len();
        if count == 0 {
            None
        } else {
            Some(&self.frames[count - 1])
        }
    }

    /// The longest time of a kept frame; zero where there is none.
    pub fn max_ms(&self) -> (ms: Scalar)
        ensures
            ms == peak(self@.frames, self@.frames.len()),
    {
        let mut longest = Scalar::zero();
        let count: usize = self.frames.len();
        for i in 0..count
            invariant
                count == self.frames@.len(),
                longest == peak(self.frames@, i as nat),
        {
            longest = longest.max(&self.frames[i].total_ms);
        }
        longest
    }

    /// The times of the kept frames, the oldest first.
    pub fn totals(&self) -> (times: Vec<Scalar>)
        ensures
            times@ == self@.frames.map_values(|frame: FrameSample| frame.total_ms),
    {
        let mut times: Vec<Scalar> = Vec::new();
        let count: usize = self.frames.len();
        for i in 0..count
            invariant
                count == self.frames@.len(),
                times@ == self.frames@.take(i as int).map_values(
                    |frame: FrameSample| frame.total_ms,
                ),
        {
            times.push(self.frames[i].total_ms);
            assert(times@ =~= self.frames@.take(i + 1).map_values(
                |frame: FrameSample| frame.total_ms,
            ));
        }
        assert(self.frames@.take(count as int) =~= self.frames@);
        times
    }

    /// How many frames are kept.
    pub fn len(&self) -> (count: usize)
        ensures
            count == self@.frames.len(),
    {
        self.frames.len()
    }

    /// Whether no frame has ended yet.
    pub fn is_empty(&self) -> (answer: bool)
        ensures
            answer == (self@.frames.len() == 0),
    {
        self.frames.len() == 0
    }
}

/// The profiler holds the newest frames of all that ended.
pub proof fn law_profiler_holds_the_newest_frames(ended: Seq<FrameSample>, frame: FrameSample)
    ensures
        kept(newest(ended, HISTORY_LEN as nat), frame, HISTORY_LEN as nat) == newest(
            ended.push(frame),
            HISTORY_LEN as nat,
        ),
        newest(ended, HISTORY_LEN as nat).len() <= HISTORY_LEN,
{
    law_newest_are_kept(ended, frame, HISTORY_LEN as nat);
}

/// No kept frame took longer than the peak.
pub proof fn law_peak_is_the_longest_time(frames: Seq<FrameSample>, n: nat, i: int)
    requires
        0 <= i < n <= frames.len(),
    ensures
        !peak(frames, n).less(frames[i].total_ms),
        !peak(frames, n).not_a_number(),
    decreases n,
{
    lemma_peak_is_a_number(frames, n);
    lemma_peak_is_a_number(frames, (n - 1) as nat);
    if i < n - 1 {
        law_peak_is_the_longest_time(frames, (n - 1) as nat, i);
    }
}

proof fn lemma_peak_is_a_number(frames: Seq<FrameSample>, n: nat)
    ensures
        !peak(frames, n).not_a_number(),
    decreases n,
{
    if n > 0 {
        lemma_peak_is_a_number(frames, (n - 1) as nat);
    }
}

/// The color of a frame's bar: green for a fast frame, amber for a passable one, red
/// for a slow one. Red, green and blue.
pub fn bar_color(total_ms: Scalar) -> (rgb: (u8, u8, u8))
    ensures
        rgb == (if total_ms.less(Scalar { bits: FAST_BITS }) {
            (80u8, 200u8, 120u8)
        } else if total_ms.less(Scalar { bits: PASSABLE_BITS }) {
            (230u8, 190u8, 90u8)
        } else {
            (220u8, 90u8, 90u8)
        }),
{
    if total_ms.is_less(&Scalar { bits: FAST_BITS }) {
        (80, 200, 120)
    } else if total_ms.is_less(&Scalar { bits: PASSABLE_BITS }) {
        (230, 190, 90)
    } else {
        (220, 90, 90)
    }
}

/// A time that was measured is taken exactly if it is finite and not below nothing.
pub proof fn law_times_are_finite_and_not_negative(ms: Scalar)
    ensures
        valid_time(ms) <==> ms.bits < 0x7f80_0000 || ms.bits == 0x8000_0000,
{
}

/// The longest time is that of one of the frames, or nothing.
pub proof fn law_peak_is_reached(frames: Seq<FrameSample>, n: nat) -> (k: int)
    requires
        n <= frames.len(),
    ensures
        peak(frames, n) == (Scalar { bits: 0 }) || (0 <= k < n && peak(frames, n)
            == frames[k].total_ms),
    decreases n,
{
    if n == 0 {
        0
    } else {
        let k = law_peak_is_reached(frames, (n - 1) as nat);
        if peak(frames, n) == peak(frames, (n - 1) as nat) {
            k
        } else {
            n - 1
        }
    }
}

/// A hundred and eighty frames are kept: a new one is the last, and drives the oldest out
/// once there are so many.
pub proof fn law_profiler_keeps_three_seconds(
    frames: Seq<FrameSample>,
    frame: FrameSample,
    i: int,
)
    requires
        frames.len() <= 180,
    ensures
        HISTORY_LEN == 180,
        kept(frames, frame, HISTORY_LEN as nat).last() == frame,
        frames.len() == 180 && 1 <= i < 180 ==> kept(frames, frame, HISTORY_LEN as nat)[i - 1]
            == frames[i],
        frames.len() < 180 && 0 <= i < frames.len() ==> kept(
            frames,
            frame,
            HISTORY_LEN as nat,
        )[i] == frames[i],
{
}

} // verus!
