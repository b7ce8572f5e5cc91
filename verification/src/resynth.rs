//! Window bookkeeping for frequency-domain resynthesis.
//!
//! The resynthesizer proper processes four Hann-windowed FFT buffers that
//! overlap at a quarter-window stride. The decisions underneath it are
//! exact: a circular index per window, a shared sample counter, and the
//! rule that a window transforms exactly when its index wraps to zero after
//! at least one full fill. This module verifies that machinery; the sample
//! buffers, the Hann table and the transforms themselves live with the
//! rendering layer, which drives one [`Resynth`] per resynthesizer node.

use vstd::arithmetic::div_mod::{
    lemma_fundamental_div_mod, lemma_mod_multiples_basic, lemma_mod_self_0, lemma_small_mod,
};
use vstd::prelude::*;

verus! {

/// `2^k`.
pub open spec fn pow2(k: nat) -> nat
    decreases k,
{
    if k == 0 {
        1nat
    } else {
        2 * pow2((k - 1) as nat)
    }
}

/// A valid FFT window length: a power of two, at least four.
pub open spec fn is_window_length(l: int) -> bool {
    exists|k: nat| k >= 2 && l == pow2(k)
}

/// A valid window length is at least four and divisible by four.
pub proof fn lemma_window_length_facts(l: int)
    requires
        is_window_length(l),
    ensures
        l >= 4,
        l % 4 == 0,
{
    let k = choose|k: nat| k >= 2 && l == pow2(k);
    lemma_pow2_at_least_two(k);
}

/// `2^k` with `k >= 2` is a positive multiple of four.
proof fn lemma_pow2_at_least_two(k: nat)
    requires
        k >= 2,
    ensures
        pow2(k) >= 4,
        pow2(k) % 4 == 0,
    decreases k,
{
    if k == 2 {
        assert(pow2(0) == 1);
        assert(pow2(1) == 2);
        assert(pow2(2) == 4);
    } else {
        lemma_pow2_at_least_two((k - 1) as nat);
        let p = pow2((k - 1) as nat) as int;
        assert(pow2(k) == 2 * p);
        assert(2 * p % 4 == 0) by (nonlinear_arith)
            requires
                p % 4 == 0,
        ;
    }
}

/// Each of the four phase offsets `i * (l / 4)` is its own remainder
/// modulo the window length `l`.
proof fn lemma_quarter_phase(l: int, i: int)
    requires
        is_window_length(l),
        0 <= i < 4,
    ensures
        0 <= i * (l / 4) < l,
        (i * (l / 4)) % l == i * (l / 4),
{
    lemma_window_length_facts(l);
    lemma_fundamental_div_mod(l, 4);
    assert(0 <= i * (l / 4) < l) by (nonlinear_arith)
        requires
            0 <= i < 4,
            l == 4 * (l / 4) + l % 4,
            l % 4 == 0,
            l >= 4,
    ;
    lemma_small_mod((i * (l / 4)) as nat, l as nat);
}

/// One of the four overlapping FFT windows: its fixed length and channel
/// counts, the circular read/write index, and how many samples it has
/// absorbed since the last reset.
#[derive(Clone, Copy, PartialEq, Eq, Structural, Debug)]
pub struct FftWindow {
    /// Window length. A power of two, at least four; the length of each
    /// time-domain buffer the rendering layer keeps for this window.
    pub length: usize,
    /// Number of input channels.
    pub inputs: usize,
    /// Number of output channels.
    pub outputs: usize,
    /// Current index into the window's time-domain buffers.
    pub index: usize,
    /// Total number of processed samples.
    pub samples: u64,
}

impl FftWindow {
    /// Structural soundness: the index stays inside the window.
    pub open spec fn wf(self) -> bool {
        &&& is_window_length(self.length as int)
        &&& self.index < self.length
    }

    /// Whether the window must run its transforms right now: its index has
    /// just wrapped to zero and it has been filled at least once.
    pub open spec fn is_fft_time_spec(self) -> bool {
        self.index == 0 && self.samples >= self.length as u64
    }

    /// Create a new window starting at phase `index`.
    pub fn new(length: usize, index: usize, inputs: usize, outputs: usize) -> (r: FftWindow)
        requires
            is_window_length(length as int),
            index < length,
        ensures
            r == (FftWindow { length, inputs, outputs, index, samples: 0 }),
    {
        FftWindow { length, inputs, outputs, index, samples: 0 }
    }

    /// Number of input channels.
    pub fn inputs(&self) -> (r: usize)
        ensures
            r == self.inputs,
    {
        self.inputs
    }

    /// Number of output channels.
    pub fn outputs(&self) -> (r: usize)
        ensures
            r == self.outputs,
    {
        self.outputs
    }

    /// FFT window length. This is a power of two and at least four.
    pub fn length(&self) -> (r: usize)
        ensures
            r == self.length,
    {
        self.length
    }

    /// Number of FFT bins: the length of each frequency domain vector.
    pub fn bins(&self) -> (r: usize)
        requires
            self.wf(),
        ensures
            r == self.length / 2 + 1,
    {
        proof {
            lemma_window_length_facts(self.length as int);
        }
        self.length / 2 + 1
    }

    /// Current read and write index.
    pub fn index(&self) -> (r: usize)
        ensures
            r == self.index,
    {
        self.index
    }

    /// Total number of processed samples.
    pub fn samples(&self) -> (r: u64)
        ensures
            r == self.samples,
    {
        self.samples
    }

    /// Advance the index to the next sample, wrapping at the window length.
    pub fn advance(&mut self)
        requires
            old(self).wf(),
            old(self).samples < u64::MAX,
        ensures
            final(self).wf(),
            final(self).length == old(self).length,
            final(self).inputs == old(self).inputs,
            final(self).outputs == old(self).outputs,
            final(self).samples == old(self).samples + 1,
            final(self).index as int == (old(self).index + 1) % (old(self).length as int),
    {
        proof {
            lemma_window_length_facts(self.length as int);
        }
        self.samples = self.samples + 1;
        if self.index + 1 >= self.length {
            proof {
                lemma_mod_self_0(self.length as int);
            }
            self.index = 0;
        } else {
            proof {
                lemma_small_mod((self.index + 1) as nat, self.length as nat);
            }
            self.index = self.index + 1;
        }
    }

    /// Return whether the window should run its transforms right now.
    pub fn is_fft_time(&self) -> (r: bool)
        ensures
            r == self.is_fft_time_spec(),
    {
        self.index == 0 && self.samples >= self.length as u64
    }

    /// Reset the window to an empty state at phase `start_index`.
    pub fn reset(&mut self, start_index: usize)
        requires
            old(self).wf(),
            start_index < old(self).length,
        ensures
            *final(self) == (FftWindow { index: start_index, samples: 0, ..*old(self) }),
    {
        self.samples = 0;
        self.index = start_index;
    }
}

/// The scheduling core of a frequency-domain resynthesizer: four windows
/// phased a quarter length apart and a shared sample counter. Each call to
/// [`Resynth::tick`] advances every window by one sample and names the
/// windows whose transforms must run now.
pub struct Resynth {
    /// Window length. A power of two, at least four.
    pub window_length: usize,
    /// The four staggered windows.
    pub windows: Vec<FftWindow>,
    /// Number of processed samples.
    pub samples: u64,
    /// Number of input channels.
    pub inputs: usize,
    /// Number of output channels.
    pub outputs: usize,
}

impl Resynth {
    /// Well-formedness: four windows of the configured length whose sample
    /// counters agree with the global one and whose indices are staggered a
    /// quarter window apart.
    pub open spec fn wf(self) -> bool {
        &&& is_window_length(self.window_length as int)
        &&& self.windows@.len() == 4
        &&& (forall|i: int|
            0 <= i < 4 ==> (#[trigger] self.windows@[i]).length == self.window_length)
        &&& (forall|i: int| 0 <= i < 4 ==> (#[trigger] self.windows@[i]).inputs == self.inputs)
        &&& (forall|i: int| 0 <= i < 4 ==> (#[trigger] self.windows@[i]).outputs == self.outputs)
        &&& (forall|i: int| 0 <= i < 4 ==> (#[trigger] self.windows@[i]).samples == self.samples)
        &&& (forall|i: int|
            0 <= i < 4 ==> (#[trigger] self.windows@[i]).index as int == (self.samples as int + i
                * (self.window_length as int / 4)) % (self.window_length as int))
        &&& (forall|i: int| 0 <= i < 4 ==> (#[trigger] self.windows@[i]).wf())
    }

    /// Create a new resynthesizer core. The window length must be a power
    /// of two and at least four.
    pub fn new(window_length: usize, inputs: usize, outputs: usize) -> (r: Resynth)
        requires
            is_window_length(window_length as int),
        ensures
            r.wf(),
            r.window_length == window_length,
            r.inputs == inputs,
            r.outputs == outputs,
            r.samples == 0,
    {
        proof {
            lemma_window_length_facts(window_length as int);
            lemma_quarter_phase(window_length as int, 0);
            lemma_quarter_phase(window_length as int, 1);
            lemma_quarter_phase(window_length as int, 2);
            lemma_quarter_phase(window_length as int, 3);
        }
        let quarter = window_length / 4;
        let mut windows: Vec<FftWindow> = Vec::new();
        let w0 = FftWindow::new(window_length, 0, inputs, outputs);
        let w1 = FftWindow::new(window_length, quarter, inputs, outputs);
        let w2 = FftWindow::new(window_length, 2 * quarter, inputs, outputs);
        let w3 = FftWindow::new(window_length, 3 * quarter, inputs, outputs);
        windows.push(w0);
        windows.push(w1);
        windows.push(w2);
        windows.push(w3);
        let r = Resynth { window_length, windows, samples: 0, inputs, outputs };
        proof {
            assert(r.windows@[0] == w0);
            assert(r.windows@[1] == w1);
            assert(r.windows@[2] == w2);
            assert(r.windows@[3] == w3);
            assert forall|i: int| 0 <= i < 4 implies (#[trigger] r.windows@[i]).index as int == (
            r.samples as int + i * (r.window_length as int / 4)) % (r.window_length as int) by {
                lemma_quarter_phase(window_length as int, i);
            }
        }
        r
    }

    /// Number of FFT bins: the length of each frequency domain vector in
    /// the FFT windows.
    pub fn bins(&self) -> (r: usize)
        requires
            self.wf(),
        ensures
            r == self.window_length / 2 + 1,
    {
        proof {
            lemma_window_length_facts(self.window_length as int);
        }
        self.window_length / 2 + 1
    }

    /// Window length in samples.
    pub fn window_length(&self) -> (r: usize)
        ensures
            r == self.window_length,
    {
        self.window_length
    }

    /// Number of processed samples.
    pub fn samples(&self) -> (r: u64)
        ensures
            r == self.samples,
    {
        self.samples
    }

    /// Current index of window `i`; the rendering layer reads and writes
    /// its buffers at this position before advancing.
    pub fn window_index(&self, i: usize) -> (r: usize)
        requires
            self.wf(),
            i < 4,
        ensures
            r == self.windows@[i as int].index,
            r < self.window_length,
    {
        self.windows[i].index
    }

    /// Advance all four windows by one sample and return the indices of the
    /// windows that must run their transforms now: exactly those whose
    /// index wrapped to zero after at least one full fill.
    pub fn tick(&mut self) -> (fire: Vec<usize>)
        requires
            old(self).wf(),
            old(self).samples < u64::MAX,
        ensures
            final(self).wf(),
            final(self).samples == old(self).samples + 1,
            final(self).window_length == old(self).window_length,
            final(self).inputs == old(self).inputs,
            final(self).outputs == old(self).outputs,
            forall|j: int|
                0 <= j < fire@.len() ==> (#[trigger] fire@[j]) < 4 && final(self).windows@[fire@[j] as int].is_fft_time_spec(),
            forall|i: usize|
                i < 4 && (#[trigger] final(self).windows@[i as int]).is_fft_time_spec()
                    ==> fire@.contains(i),
            forall|k1: int, k2: int| 0 <= k1 < k2 < fire@.len() ==> fire@[k1] < fire@[k2],
    {
        let ghost pre = *self;
        let mut i: usize = 0;
        while i < 4
            invariant
                0 <= i <= 4,
                self.windows@.len() == 4,
                self.window_length == pre.window_length,
                self.samples == pre.samples,
                self.inputs == pre.inputs,
                self.outputs == pre.outputs,
                pre.wf(),
                pre.samples < u64::MAX,
                forall|j: int| i <= j < 4 ==> self.windows@[j] == pre.windows@[j],
                forall|j: int|
                    0 <= j < i ==> (#[trigger] self.windows@[j]) == (FftWindow {
                        index: ((pre.windows@[j].index + 1) % (pre.window_length as int)) as usize,
                        samples: (pre.samples + 1) as u64,
                        ..pre.windows@[j]
                    }),
            decreases 4 - i,
        {
            proof {
                assert(self.windows@[i as int] == pre.windows@[i as int]);
                assert(pre.windows@[i as int].wf());
                assert(pre.windows@[i as int].samples == pre.samples);
            }
            let mut w = self.windows[i];
            w.advance();
            self.windows.set(i, w);
            i = i + 1;
        }
        self.samples = self.samples + 1;
        proof {
            lemma_step_indices(pre, *self);
        }
        let mut fire: Vec<usize> = Vec::new();
        let mut j: usize = 0;
        while j < 4
            invariant
                0 <= j <= 4,
                self.windows@.len() == 4,
                forall|k: int|
                    0 <= k < fire@.len() ==> (#[trigger] fire@[k]) < j && self.windows@[fire@[k] as int].is_fft_time_spec(),
                forall|i: usize|
                    i < j && (#[trigger] self.windows@[i as int]).is_fft_time_spec()
                        ==> fire@.contains(i),
                forall|k1: int, k2: int| 0 <= k1 < k2 < fire@.len() ==> fire@[k1] < fire@[k2],
            decreases 4 - j,
        {
            let ghost fire_pre = fire@;
            if self.windows[j].is_fft_time() {
                fire.push(j);
                proof {
                    assert forall|i: usize|
                        i < j + 1 && (#[trigger] self.windows@[i as int]).is_fft_time_spec()
                            implies fire@.contains(i) by {
                        if i < j {
                            assert(fire_pre.contains(i));
                            let k = choose|k: int| 0 <= k < fire_pre.len() && fire_pre[k] == i;
                            assert(fire@[k] == i);
                        } else {
                            assert(fire@[fire@.len() - 1] == i);
                        }
                    }
                }
            } else {
                proof {
                    assert forall|i: usize|
                        i < j + 1 && (#[trigger] self.windows@[i as int]).is_fft_time_spec()
                            implies fire@.contains(i) by {
                        assert(i < j);
                        assert(fire_pre.contains(i));
                        let k = choose|k: int| 0 <= k < fire_pre.len() && fire_pre[k] == i;
                        assert(fire@[k] == i);
                    }
                }
            }
            j = j + 1;
        }
        fire
    }

    /// Reset every window to an empty state at its original phase.
    pub fn reset(&mut self)
        requires
            old(self).wf(),
        ensures
            final(self).wf(),
            final(self).samples == 0,
            final(self).window_length == old(self).window_length,
            final(self).inputs == old(self).inputs,
            final(self).outputs == old(self).outputs,
    {
        proof {
            lemma_window_length_facts(self.window_length as int);
        }
        let quarter = self.window_length / 4;
        let mut i: usize = 0;
        while i < 4
            invariant
                0 <= i <= 4,
                self.windows@.len() == 4,
                self.window_length == old(self).window_length,
                self.samples == old(self).samples,
                self.inputs == old(self).inputs,
                self.outputs == old(self).outputs,
                old(self).wf(),
                quarter == old(self).window_length as int / 4,
                forall|j: int| i <= j < 4 ==> self.windows@[j] == old(self).windows@[j],
                forall|j: int|
                    0 <= j < i ==> (#[trigger] self.windows@[j]) == (FftWindow {
                        index: (j * quarter) as usize,
                        samples: 0u64,
                        ..old(self).windows@[j]
                    }),
            decreases 4 - i,
        {
            proof {
                assert(self.windows@[i as int] == old(self).windows@[i as int]);
                assert(old(self).windows@[i as int].wf());
                lemma_quarter_phase(self.window_length as int, i as int);
            }
            let mut w = self.windows[i];
            w.reset(i * quarter);
            self.windows.set(i, w);
            i = i + 1;
        }
        self.samples = 0;
        proof {
            assert forall|i: int| 0 <= i < 4 implies (#[trigger] self.windows@[i]).index as int == (
            self.samples as int + i * (self.window_length as int / 4)) % (
            self.window_length as int) by {
                lemma_quarter_phase(self.window_length as int, i);
            }
        }
    }
}

/// After every window advances once, the staggered-index invariant holds at
/// the incremented sample counter.
proof fn lemma_step_indices(pre: Resynth, post: Resynth)
    requires
        pre.wf(),
        pre.samples < u64::MAX,
        post.window_length == pre.window_length,
        post.samples == pre.samples + 1,
        post.inputs == pre.inputs,
        post.outputs == pre.outputs,
        post.windows@.len() == 4,
        forall|j: int|
            0 <= j < 4 ==> (#[trigger] post.windows@[j]) == (FftWindow {
                index: ((pre.windows@[j].index + 1) % (pre.window_length as int)) as usize,
                samples: (pre.samples + 1) as u64,
                ..pre.windows@[j]
            }),
    ensures
        post.wf(),
{
    let l = pre.window_length as int;
    lemma_window_length_facts(l);
    assert forall|i: int| 0 <= i < 4 implies (#[trigger] post.windows@[i]).index as int == (
    post.samples as int + i * (l / 4)) % l by {
        let phase = i * (l / 4);
        let s = pre.samples as int;
        assert(pre.windows@[i].index as int == (s + phase) % l);
        lemma_mod_succ(s + phase, l);
        assert((s + 1 + phase) % l == ((s + phase) % l + 1) % l);
    }
    assert forall|i: int| 0 <= i < 4 implies (#[trigger] post.windows@[i]).wf() by {
        assert(post.windows@[i].index as int == (pre.windows@[i].index + 1) % l);
        vstd::arithmetic::div_mod::lemma_mod_bound(pre.windows@[i].index + 1, l);
    }
}

/// `(x + 1) % m == (x % m + 1) % m` for positive `m`.
proof fn lemma_mod_succ(x: int, m: int)
    requires
        m > 0,
    ensures
        (x + 1) % m == (x % m + 1) % m,
{
    vstd::arithmetic::div_mod::lemma_add_mod_noop(x, 1, m);
    if m == 1 {
        vstd::arithmetic::div_mod::lemma_mod_bound(x + 1, 1);
        vstd::arithmetic::div_mod::lemma_mod_bound(x % 1 + 1, 1);
    } else {
        lemma_small_mod(1nat, m as nat);
    }
}

/// A window transforms only at quarter-window boundaries: whenever one of
/// the four windows reaches its transform point, the global sample counter
/// is a multiple of the hop `length / 4`.
pub proof fn lemma_fft_only_at_quarter_boundaries(r: Resynth, i: int)
    requires
        r.wf(),
        0 <= i < 4,
        r.windows@[i].is_fft_time_spec(),
    ensures
        r.samples as int % (r.window_length as int / 4) == 0,
{
    let l = r.window_length as int;
    let q = l / 4;
    let s = r.samples as int;
    lemma_window_length_facts(l);
    lemma_fundamental_div_mod(l, 4);
    assert(l == 4 * q);
    assert((s + i * q) % l == 0);
    lemma_fundamental_div_mod(s + i * q, l);
    let m = (s + i * q) / l;
    assert(s + i * q == l * m);
    assert(s == q * (4 * m - i)) by (nonlinear_arith)
        requires
            s + i * q == l * m,
            l == 4 * q,
    ;
    lemma_mod_multiples_basic(4 * m - i, q);
}

/// Window `i` is at its transform point exactly when the hop count
/// `samples / (length / 4)` plus `i` is a multiple of four, once the first
/// fill is behind. This pins which window fires at each hop.
proof fn lemma_fire_residue(r: Resynth, i: int)
    requires
        r.wf(),
        0 <= i < 4,
        r.samples as int % (r.window_length as int / 4) == 0,
        r.samples >= r.window_length as u64,
    ensures
        r.windows@[i].is_fft_time_spec() <==> (r.samples as int / (r.window_length as int / 4) + i)
            % 4 == 0,
{
    let l = r.window_length as int;
    let q = l / 4;
    let s = r.samples as int;
    let m = s / q;
    lemma_window_length_facts(l);
    lemma_fundamental_div_mod(l, 4);
    assert(l == q * 4) by (nonlinear_arith)
        requires
            l == 4 * (l / 4) + l % 4,
            l % 4 == 0,
            q == l / 4,
    ;
    vstd::arithmetic::div_mod::lemma_div_pos_is_pos(s, q);
    lemma_fundamental_div_mod(s, q);
    assert(s == q * m);
    let x = q * (m + i);
    assert(s + i * q == x) by (nonlinear_arith)
        requires
            s == q * m,
            x == q * (m + i),
    ;
    assert(x == (m + i) * q) by (nonlinear_arith)
        requires
            x == q * (m + i),
    ;
    lemma_mod_multiples_basic(m + i, q);
    assert(x % q == 0);
    vstd::arithmetic::div_mod::lemma_fundamental_div_mod_converse(x, q, m + i, 0);
    assert(x / q == m + i);
    vstd::arithmetic::div_mod::lemma_mod_breakdown(x, q, 4);
    assert(x % l == q * ((m + i) % 4));
    assert(r.windows@[i].index as int == q * ((m + i) % 4));
    vstd::arithmetic::div_mod::lemma_mod_bound(m + i, 4);
    if (m + i) % 4 == 0 {
        assert(r.windows@[i].index as int == 0) by (nonlinear_arith)
            requires
                r.windows@[i].index as int == q * ((m + i) % 4),
                (m + i) % 4 == 0,
        ;
    } else {
        assert(r.windows@[i].index as int > 0) by (nonlinear_arith)
            requires
                r.windows@[i].index as int == q * ((m + i) % 4),
                q > 0,
                (m + i) % 4 > 0,
        ;
    }
}

/// At every quarter-window boundary past the first fill, exactly one of
/// the four windows runs its transforms: the overlap-add cadence is one
/// transform per hop.
pub proof fn lemma_one_window_per_boundary(r: Resynth)
    requires
        r.wf(),
        r.samples as int % (r.window_length as int / 4) == 0,
        r.samples >= r.window_length as u64,
    ensures
        exists|i: int| 0 <= i < 4 && (#[trigger] r.windows@[i]).is_fft_time_spec(),
        forall|i: int, j: int|
            0 <= i < j < 4 && (#[trigger] r.windows@[i]).is_fft_time_spec() ==> !(
            #[trigger] r.windows@[j]).is_fft_time_spec(),
{
    let l = r.window_length as int;
    let q = l / 4;
    let s = r.samples as int;
    let m = s / q;
    lemma_window_length_facts(l);
    lemma_fire_residue(r, 0);
    lemma_fire_residue(r, 1);
    lemma_fire_residue(r, 2);
    lemma_fire_residue(r, 3);
    vstd::arithmetic::div_mod::lemma_mod_bound(m, 4);
    lemma_fundamental_div_mod(m, 4);
    let i0 = if m % 4 == 0 {
        0int
    } else {
        4 - m % 4
    };
    assert((m + i0) % 4 == 0) by {
        vstd::arithmetic::div_mod::lemma_fundamental_div_mod_converse(
            m + i0,
            4,
            if m % 4 == 0 {
                m / 4
            } else {
                m / 4 + 1
            },
            0,
        );
    }
    assert(r.windows@[i0].is_fft_time_spec());
    assert forall|i: int, j: int|
        0 <= i < j < 4 && (#[trigger] r.windows@[i]).is_fft_time_spec() implies !(
    #[trigger] r.windows@[j]).is_fft_time_spec() by {
        if r.windows@[j].is_fft_time_spec() {
            vstd::arithmetic::div_mod::lemma_fundamental_div_mod((m + i), 4);
            vstd::arithmetic::div_mod::lemma_fundamental_div_mod((m + j), 4);
            assert(m + i == 4 * ((m + i) / 4));
            assert(m + j == 4 * ((m + j) / 4));
            assert(j - i == 4 * ((m + j) / 4 - (m + i) / 4)) by (nonlinear_arith)
                requires
                    m + i == 4 * ((m + i) / 4),
                    m + j == 4 * ((m + j) / 4),
            ;
            assert(false);
        }
    }
}

} // verus!
