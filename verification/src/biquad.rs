//! The second-order recursive filter section.
//!
//! Each channel keeps the two latest inputs and the two latest outputs.  One
//! step computes
//!
//! ```text
//! y = b0*x + b1*x1 + b2*x2 - a1*y1 - a2*y2
//! ```
//!
//! in fixed point, limits the result to the signal range and shifts the
//! history.

use crate::error::Error;
use crate::fixed::{floor_div, lemma_mul_within, ONE};
use crate::format::{clamp, Format, SIGNAL_MAX};
use crate::frames::{Frames, FramesView};
use vstd::arithmetic::div_mod::{lemma_fundamental_div_mod, lemma_fundamental_div_mod_converse};
use vstd::prelude::*;

verus! {

/// The five coefficients of a section whose leading recursive coefficient is 1.
#[derive(Clone, Copy, Debug, PartialEq, Eq, Structural)]
pub struct Coefficients {
    pub b0: i64,
    pub b1: i64,
    pub b2: i64,
    pub a1: i64,
    pub a2: i64,
}

/// The two latest inputs and outputs of one channel.
#[derive(Clone, Copy, Debug, PartialEq, Eq, Structural)]
pub struct History {
    pub x1: i64,
    pub x2: i64,
    pub y1: i64,
    pub y2: i64,
}

/// `v` is a signal value.
pub open spec fn signal_in_range(v: int) -> bool {
    -SIGNAL_MAX <= v <= SIGNAL_MAX
}

impl Coefficients {
    /// The response is flat: the numerator equals the denominator.
    pub open spec fn flat(self) -> bool {
        self.b0 == ONE && self.b1 == self.a1 && self.b2 == self.a2
    }
}

impl History {
    /// Every remembered value is a signal value.
    pub open spec fn wf(self) -> bool {
        &&& signal_in_range(self.x1 as int)
        &&& signal_in_range(self.x2 as int)
        &&& signal_in_range(self.y1 as int)
        &&& signal_in_range(self.y2 as int)
    }

    /// The remembered outputs equal the remembered inputs.
    pub open spec fn balanced(self) -> bool {
        self.x1 == self.y1 && self.x2 == self.y2
    }

    /// The history of a channel that has seen nothing yet.
    pub open spec fn silent() -> History {
        History { x1: 0, x2: 0, y1: 0, y2: 0 }
    }
}

/// The output for input `x` of a channel with history `h`.
pub open spec fn response(c: Coefficients, h: History, x: int) -> int {
    clamp(
        (c.b0 * x + c.b1 * h.x1 + c.b2 * h.x2 - c.a1 * h.y1 - c.a2 * h.y2) / (ONE as int),
        -(SIGNAL_MAX as int),
        SIGNAL_MAX as int,
    )
}

/// The history after input `x` gave output `y`.
pub open spec fn advance(h: History, x: int, y: int) -> History {
    History { x1: x as i64, x2: h.x1, y1: y as i64, y2: h.y1 }
}

/// The history of one channel after it took input `x`.
pub open spec fn step(c: Coefficients, h: History, x: int) -> History {
    advance(h, x, response(c, h, x))
}

/// The histories of all channels after the first `n` stored words of
/// `input`, taken in interleaved order from the histories `init`.
pub open spec fn history_after(
    c: Coefficients,
    f: Format,
    init: Seq<History>,
    input: Seq<i32>,
    n: nat,
) -> Seq<History>
    decreases n,
{
    if n == 0 {
        init
    } else {
        let prev = history_after(c, f, init, input, (n - 1) as nat);
        let channel = (n - 1) % (init.len() as int);
        prev.update(channel, step(c, prev[channel], f.decode_spec(input[n - 1] as int)))
    }
}

/// The word stored for position `k` when `input` is filtered from the
/// histories `init`.
pub open spec fn output_at(
    c: Coefficients,
    f: Format,
    init: Seq<History>,
    input: Seq<i32>,
    k: int,
) -> i32 {
    let prev = history_after(c, f, init, input, k as nat);
    let channel = k % (init.len() as int);
    f.encode_spec(response(c, prev[channel], f.decode_spec(input[k] as int))) as i32
}

/// All the words stored when `input` is filtered from the histories `init`.
pub open spec fn outputs(c: Coefficients, f: Format, init: Seq<History>, input: Seq<i32>) -> Seq<
    i32,
> {
    Seq::new(input.len(), |k: int| output_at(c, f, init, input, k))
}

/// `h` grown or cut to `n` channels; new channels are silent.
pub open spec fn resized(h: Seq<History>, n: nat) -> Seq<History> {
    Seq::new(
        n,
        |i: int|
            if i < h.len() {
                h[i]
            } else {
                History::silent()
            },
    )
}

/// Counting up by one moves the remainder up by one, or back to zero.
pub proof fn lemma_mod_successor(i: int, n: int)
    requires
        i >= 0,
        n > 0,
    ensures
        (i + 1) % n == if i % n + 1 == n {
            0
        } else {
            i % n + 1
        },
{
    lemma_fundamental_div_mod(i, n);
    let q = i / n;
    let r = i % n;
    if r + 1 == n {
        assert(i + 1 == (q + 1) * n + 0) by (nonlinear_arith)
            requires
                i == n * q + r,
                r + 1 == n,
        ;
        lemma_fundamental_div_mod_converse(i + 1, n, q + 1, 0);
    } else {
        assert(i + 1 == q * n + (r + 1)) by (nonlinear_arith)
            requires
                i == n * q + r,
        ;
        lemma_fundamental_div_mod_converse(i + 1, n, q, r + 1);
    }
}

/// A filter section with its per-channel histories.
#[derive(Clone, Debug)]
pub struct Biquad {
    format: Format,
    coefficients: Coefficients,
    history: Vec<History>,
}

/// What a [`Biquad`] holds.
pub struct BiquadView {
    pub format: Format,
    pub coefficients: Coefficients,
    pub history: Seq<History>,
}

impl BiquadView {
    /// There is at least one channel, and every history holds signal values.
    pub open spec fn wf(self) -> bool {
        &&& 1 <= self.history.len() <= u32::MAX
        &&& forall|i: int| 0 <= i < self.history.len() ==> (#[trigger] self.history[i]).wf()
    }
}

impl View for Biquad {
    type V = BiquadView;

    closed spec fn view(&self) -> BiquadView {
        BiquadView {
            format: self.format,
            coefficients: self.coefficients,
            history: self.history@,
        }
    }
}

impl Biquad {
    /// There is at least one channel, and every history holds signal values.
    pub open spec fn wf(&self) -> bool {
        self@.wf()
    }

    /// A section for `channels` silent channels.  Fails when there is no
    /// channel.
    pub fn new(format: Format, channels: u32, coefficients: Coefficients) -> (r: Result<
        Biquad,
        Error,
    >)
        ensures
            channels == 0 <==> r is Err,
            r matches Ok(b) ==> b.wf() && b@ == (BiquadView {
                format,
                coefficients,
                history: Seq::new(channels as nat, |i: int| History::silent()),
            }),
    {
        if channels == 0 {
            return Err(Error::InvalidArgs);
        }
        let mut history: Vec<History> = Vec::new();
        let mut i: u32 = 0;
        while i < channels
            invariant
                i <= channels,
                history@ == Seq::new(i as nat, |k: int| History::silent()),
            decreases channels - i,
        {
            history.push(History { x1: 0, x2: 0, y1: 0, y2: 0 });
            i = i + 1;
            assert(history@ =~= Seq::new(i as nat, |k: int| History::silent()));
        }
        Ok(Biquad { format, coefficients, history })
    }

    /// Replaces format and coefficients and sets the number of channels.
    /// Channels that stay keep their history; new channels start silent.
    /// On failure nothing changes.
    pub fn reinit(&mut self, format: Format, channels: u32, coefficients: Coefficients) -> (r:
        Result<(), Error>)
        requires
            old(self).wf(),
        ensures
            final(self).wf(),
            channels == 0 <==> r is Err,
            r is Err ==> final(self)@ == old(self)@,
            r is Ok ==> final(self)@ == (BiquadView {
                format,
                coefficients,
                history: resized(old(self)@.history, channels as nat),
            }),
    {
        if channels == 0 {
            return Err(Error::InvalidArgs);
        }
        self.format = format;
        self.coefficients = coefficients;
        self.history.truncate(channels as usize);
        assert(self.history@ =~= resized(old(self)@.history, self.history@.len()));
        while self.history.len() < channels as usize
            invariant
                self.history@.len() <= channels,
                self.history@.len() == channels || self.history@.len() >= old(self)@.history.len(),
                self.history@ == resized(old(self)@.history, self.history@.len()),
                self.format == format,
                self.coefficients == coefficients,
            decreases channels - self.history@.len(),
        {
            self.history.push(History { x1: 0, x2: 0, y1: 0, y2: 0 });
            assert(self.history@ =~= resized(old(self)@.history, self.history@.len()));
        }
        Ok(())
    }

    /// The format of the samples the section filters.
    pub fn format(&self) -> (f: Format)
        ensures
            f == self@.format,
    {
        self.format
    }

    /// The number of channels.
    pub fn channels(&self) -> (n: u32)
        requires
            self.wf(),
        ensures
            n == self@.history.len(),
    {
        self.history.len() as u32
    }

    /// The coefficients in use.
    pub fn coefficients(&self) -> (c: Coefficients)
        ensures
            c == self@.coefficients,
    {
        self.coefficients
    }

    /// The history of one channel.
    pub fn history(&self, channel: usize) -> (h: History)
        requires
            channel < self@.history.len(),
        ensures
            h == self@.history[channel as int],
    {
        self.history[channel]
    }

    /// The delay of the section in frames: always 1.
    pub fn latency(&self) -> (n: u32)
        ensures
            n == 1,
    {
        1
    }

    /// Forgets the history of every channel.
    pub fn reset(&mut self)
        requires
            old(self).wf(),
        ensures
            final(self).wf(),
            final(self)@ == (BiquadView {
                history: Seq::new(old(self)@.history.len(), |i: int| History::silent()),
                ..old(self)@
            }),
    {
        let n: usize = self.history.len();
        let mut i: usize = 0;
        while i < n
            invariant
                i <= n,
                n == self.history@.len(),
                n == old(self)@.history.len(),
                self.format == old(self).format,
                self.coefficients == old(self).coefficients,
                forall|k: int| 0 <= k < i ==> self.history@[k] == History::silent(),
            decreases n - i,
        {
            self.history[i] = History { x1: 0, x2: 0, y1: 0, y2: 0 };
            i = i + 1;
        }
        assert(self.history@ =~= Seq::new(n as nat, |i: int| History::silent()));
    }

    /// Filters one sample of one channel and remembers it.
    pub fn process_sample(&mut self, channel: usize, x: i64) -> (y: i64)
        requires
            old(self).wf(),
            channel < old(self)@.history.len(),
            signal_in_range(x as int),
        ensures
            final(self).wf(),
            y == response(old(self)@.coefficients, old(self)@.history[channel as int], x as int),
            final(self)@ == (BiquadView {
                history: old(self)@.history.update(
                    channel as int,
                    step(old(self)@.coefficients, old(self)@.history[channel as int], x as int),
                ),
                ..old(self)@
            }),
    {
        let c: Coefficients = self.coefficients;
        let h: History = self.history[channel];
        proof {
            assert(h.wf());
            lemma_mul_within(c.b0 as int, x as int, 0x8000_0000_0000_0000, 0x8000_0000_0000);
            lemma_mul_within(c.b1 as int, h.x1 as int, 0x8000_0000_0000_0000, 0x8000_0000_0000);
            lemma_mul_within(c.b2 as int, h.x2 as int, 0x8000_0000_0000_0000, 0x8000_0000_0000);
            lemma_mul_within(c.a1 as int, h.y1 as int, 0x8000_0000_0000_0000, 0x8000_0000_0000);
            lemma_mul_within(c.a2 as int, h.y2 as int, 0x8000_0000_0000_0000, 0x8000_0000_0000);
        }
        let forward: i128 = (c.b0 as i128) * (x as i128) + (c.b1 as i128) * (h.x1 as i128) + (
        c.b2 as i128) * (h.x2 as i128);
        let feedback: i128 = (c.a1 as i128) * (h.y1 as i128) + (c.a2 as i128) * (h.y2 as i128);
        let q: i128 = floor_div(forward - feedback, 0x1_0000_0000);
        let y: i64 = if q < -(SIGNAL_MAX as i128) {
            -SIGNAL_MAX
        } else if q > SIGNAL_MAX as i128 {
            SIGNAL_MAX
        } else {
            q as i64
        };
        self.history[channel] = History { x1: x, x2: h.x1, y1: y, y2: h.y1 };
        y
    }

    /// Filters the words of `input` into `output`; where there is no
    /// `input`, the words that `output` holds.
    fn filter_words(&mut self, output: &mut Frames, input: Option<&Frames>)
        requires
            old(self).wf(),
            input matches Some(f) ==> f@.samples.len() == old(output)@.samples.len(),
        ensures
            final(self).wf(),
            final(self)@ == (BiquadView {
                history: history_after(
                    old(self)@.coefficients,
                    old(self)@.format,
                    old(self)@.history,
                    source(old(output)@, input),
                    old(output)@.samples.len(),
                ),
                ..old(self)@
            }),
            final(output)@ == (FramesView {
                samples: outputs(
                    old(self)@.coefficients,
                    old(self)@.format,
                    old(self)@.history,
                    source(old(output)@, input),
                ),
                ..old(output)@
            }),
    {
        let n: usize = output.sample_count();
        let channels: usize = self.history.len();
        let format: Format = self.format;
        let ghost c = self@.coefficients;
        let ghost init = self@.history;
        let ghost src = source(output@, input);
        let mut i: usize = 0;
        let mut channel: usize = 0;
        while i < n
            invariant
                i <= n,
                n == src.len(),
                src == source(old(output)@, input),
                channels == init.len(),
                channel == i % channels,
                channel < channels,
                self.wf(),
                self@.history.len() == channels,
                self.format == format,
                self@.coefficients == c,
                self@.history == history_after(c, format, init, src, i as nat),
                output@.format == old(output)@.format,
                output@.channels == old(output)@.channels,
                output@.samples.len() == n,
                forall|k: int| 0 <= k < i ==> output@.samples[k] == output_at(c, format, init, src, k),
                input is None ==> forall|k: int| i <= k < n ==> output@.samples[k] == src[k],
            decreases n - i,
        {
            let w: i32 = match input {
                Some(f) => f.sample(i),
                None => output.sample(i),
            };
            let y: i64 = self.process_sample(channel, format.decode(w));
            output.set_sample(i, format.encode(y));
            proof {
                lemma_mod_successor(i as int, channels as int);
            }
            i = i + 1;
            channel = channel + 1;
            if channel == channels {
                channel = 0;
            }
        }
        assert(output@.samples =~= outputs(c, format, init, src));
    }

    /// Filters the frames of `input` into `output`.  Both buffers must have
    /// the section's format and channel count and hold equally many frames;
    /// otherwise the call fails and changes nothing.
    pub fn process_pcm_frames(&mut self, output: &mut Frames, input: &Frames) -> (r: Result<
        (),
        Error,
    >)
        requires
            old(self).wf(),
            old(output).wf(),
            input.wf(),
        ensures
            final(self).wf(),
            final(output).wf(),
            r is Ok <==> shapes_agree(old(self)@, old(output)@, input@),
            r is Err ==> final(self)@ == old(self)@ && final(output)@ == old(output)@,
            r is Ok ==> final(self)@ == (BiquadView {
                history: history_after(
                    old(self)@.coefficients,
                    old(self)@.format,
                    old(self)@.history,
                    input@.samples,
                    input@.samples.len(),
                ),
                ..old(self)@
            }),
            r is Ok ==> final(output)@ == (FramesView {
                samples: outputs(
                    old(self)@.coefficients,
                    old(self)@.format,
                    old(self)@.history,
                    input@.samples,
                ),
                ..old(output)@
            }),
    {
        if output.format() != input.format() || input.format() != self.format {
            return Err(Error::InvalidArgs);
        }
        if output.channels() != input.channels() || input.channels() as usize
            != self.history.len() {
            return Err(Error::InvalidArgs);
        }
        proof {
            lemma_frame_counts(old(output)@, input@);
        }
        if output.sample_count() != input.sample_count() {
            return Err(Error::InvalidArgs);
        }
        self.filter_words(output, Some(input));
        Ok(())
    }

    /// Filters the frames of `frames` and stores the result in their place.
    /// The buffer must have the section's format and channel count;
    /// otherwise the call fails and changes nothing.  The stored words are
    /// those that [`Biquad::process_pcm_frames`] stores in a separate buffer.
    pub fn process_pcm_frames_in_place(&mut self, frames: &mut Frames) -> (r: Result<(), Error>)
        requires
            old(self).wf(),
            old(frames).wf(),
        ensures
            final(self).wf(),
            final(frames).wf(),
            r is Ok <==> shapes_agree(old(self)@, old(frames)@, old(frames)@),
            r is Err ==> final(self)@ == old(self)@ && final(frames)@ == old(frames)@,
            r is Ok ==> final(self)@ == (BiquadView {
                history: history_after(
                    old(self)@.coefficients,
                    old(self)@.format,
                    old(self)@.history,
                    old(frames)@.samples,
                    old(frames)@.samples.len(),
                ),
                ..old(self)@
            }),
            r is Ok ==> final(frames)@ == (FramesView {
                samples: outputs(
                    old(self)@.coefficients,
                    old(self)@.format,
                    old(self)@.history,
                    old(frames)@.samples,
                ),
                ..old(frames)@
            }),
    {
        if frames.format() != self.format || frames.channels() as usize != self.history.len() {
            return Err(Error::InvalidArgs);
        }
        self.filter_words(frames, None);
        Ok(())
    }
}

/// The words a call filters: those of `input`, or those that `output` holds
/// where there is no `input`.
pub open spec fn source(output: FramesView, input: Option<&Frames>) -> Seq<i32> {
    match input {
        Some(f) => f@.samples,
        None => output.samples,
    }
}

/// The section and both buffers have one format and one channel count, and
/// the buffers hold equally many frames.
pub open spec fn shapes_agree(
    b: BiquadView,
    output: FramesView,
    input: FramesView,
) -> bool {
    &&& output.format == input.format
    &&& input.format == b.format
    &&& output.channels == input.channels
    &&& input.channels == b.history.len()
    &&& output.frame_count() == input.frame_count()
}

/// Two buffers of whole frames with one channel count hold equally many
/// frames exactly when they hold equally many samples.
pub proof fn lemma_frame_counts(a: FramesView, b: FramesView)
    requires
        a.wf(),
        b.wf(),
        a.channels == b.channels,
    ensures
        a.frame_count() == b.frame_count() <==> a.samples.len() == b.samples.len(),
{
    lemma_fundamental_div_mod(a.samples.len() as int, a.channels as int);
    lemma_fundamental_div_mod(b.samples.len() as int, b.channels as int);
}

/// Filtering keeps the number of channels.
pub proof fn lemma_history_len(
    c: Coefficients,
    f: Format,
    init: Seq<History>,
    input: Seq<i32>,
    n: nat,
)
    requires
        init.len() >= 1,
    ensures
        history_after(c, f, init, input, n).len() == init.len(),
    decreases n,
{
    if n > 0 {
        lemma_history_len(c, f, init, input, (n - 1) as nat);
    }
}

/// A flat filter with a balanced history hands its input on and stays
/// balanced.
pub proof fn lemma_flat_step(c: Coefficients, h: History, x: int)
    requires
        c.flat(),
        h.balanced(),
        signal_in_range(x),
    ensures
        response(c, h, x) == x,
        step(c, h, x).balanced(),
{
    let sum = c.b0 * x + c.b1 * h.x1 + c.b2 * h.x2 - c.a1 * h.y1 - c.a2 * h.y2;
    assert(c.b1 * h.x1 == c.a1 * h.y1);
    assert(c.b2 * h.x2 == c.a2 * h.y2);
    assert(c.b0 * x == ONE * x);
    assert(sum == ONE * x);
    assert(sum / (ONE as int) == x);
}

/// A flat filter whose channels start balanced keeps them balanced.
pub proof fn lemma_flat_histories(
    c: Coefficients,
    f: Format,
    init: Seq<History>,
    input: Seq<i32>,
    n: nat,
)
    requires
        c.flat(),
        init.len() >= 1,
        forall|i: int| 0 <= i < init.len() ==> (#[trigger] init[i]).balanced(),
    ensures
        history_after(c, f, init, input, n).len() == init.len(),
        forall|i: int|
            0 <= i < init.len() ==> (#[trigger] history_after(c, f, init, input, n)[i]).balanced(),
    decreases n,
{
    if n > 0 {
        lemma_flat_histories(c, f, init, input, (n - 1) as nat);
        let prev = history_after(c, f, init, input, (n - 1) as nat);
        let channel = (n - 1) % (init.len() as int);
        let x = f.decode_spec(input[n - 1] as int);
        crate::format::lemma_decode_in_range(f, input[n - 1] as int);
        vstd::arithmetic::div_mod::lemma_mod_bound((n - 1) as int, init.len() as int);
        lemma_flat_step(c, prev[channel], x);
    }
}

/// A flat filter whose channels start balanced stores every word as the
/// format stores the word's own signal value.
pub proof fn lemma_flat_output(
    c: Coefficients,
    f: Format,
    init: Seq<History>,
    input: Seq<i32>,
    k: int,
)
    requires
        c.flat(),
        init.len() >= 1,
        forall|i: int| 0 <= i < init.len() ==> (#[trigger] init[i]).balanced(),
        0 <= k < input.len(),
    ensures
        output_at(c, f, init, input, k) == f.encode_spec(f.decode_spec(input[k] as int)),
{
    crate::format::lemma_encode_in_range(f, f.decode_spec(input[k] as int));
    lemma_flat_histories(c, f, init, input, k as nat);
    let prev = history_after(c, f, init, input, k as nat);
    let channel = k % (init.len() as int);
    vstd::arithmetic::div_mod::lemma_mod_bound(k, init.len() as int);
    crate::format::lemma_decode_in_range(f, input[k] as int);
    lemma_flat_step(c, prev[channel], f.decode_spec(input[k] as int));
}

/// The histories after `n` words depend on the first `n` words only.
pub proof fn lemma_history_prefix(
    c: Coefficients,
    f: Format,
    init: Seq<History>,
    first: Seq<i32>,
    second: Seq<i32>,
    n: nat,
)
    requires
        n <= first.len(),
        n <= second.len(),
        forall|i: int| 0 <= i < n ==> first[i] == second[i],
    ensures
        history_after(c, f, init, first, n) == history_after(c, f, init, second, n),
    decreases n,
{
    if n > 0 {
        lemma_history_prefix(c, f, init, first, second, (n - 1) as nat);
    }
}

/// Adding a multiple of the modulus does not change the remainder.
pub proof fn lemma_mod_shift(x: int, y: int, n: int)
    requires
        n > 0,
        x % n == 0,
    ensures
        (x + y) % n == y % n,
{
    vstd::arithmetic::div_mod::lemma_add_mod_noop(x, y, n);
    vstd::arithmetic::div_mod::lemma_mod_twice(y, n);
}

/// Filtering `head` and then `m` words of `tail` leaves the histories that
/// filtering `head + tail` leaves after as many words, provided `head` holds
/// whole frames.
pub proof fn lemma_history_continues(
    c: Coefficients,
    f: Format,
    init: Seq<History>,
    head: Seq<i32>,
    tail: Seq<i32>,
    m: nat,
)
    requires
        init.len() >= 1,
        head.len() % init.len() == 0,
        m <= tail.len(),
    ensures
        history_after(c, f, init, head + tail, head.len() + m) == history_after(
            c,
            f,
            history_after(c, f, init, head, head.len()),
            tail,
            m,
        ),
    decreases m,
{
    let middle = history_after(c, f, init, head, head.len());
    lemma_history_len(c, f, init, head, head.len());
    if m == 0 {
        lemma_history_prefix(c, f, init, head + tail, head, head.len());
    } else {
        lemma_history_continues(c, f, init, head, tail, (m - 1) as nat);
        lemma_mod_shift(head.len() as int, m - 1, init.len() as int);
        assert((head + tail)[head.len() + m - 1] == tail[m - 1]);
    }
}

} // verus!
