//! Pitch detection by the YIN method: the lag at which a frame differs least from itself.
use vstd::prelude::*;

use crate::arith::{apply, flipped, is_arithmetic, is_sign_symmetric, results, Arith, Op};
use crate::buffer::{hann, hann_window, mean, mean_of, silence, silent, total};
use crate::scalar::{num, Scalar, MINUS_ONE, ONE, TWO, ZERO};

verus! {

/// 20, the lowest frequency in hertz that lags are laid out for.
pub const LOWEST_HZ: u32 = 0x41a0_0000;

/// 0.01 and 0.4, the range of the threshold.
pub const LOWEST_THRESHOLD: u32 = 0x3c23_d70a;

pub const HIGHEST_THRESHOLD: u32 = 0x3ecc_cccd;

/// 1e-5, the level below which a frame is silent.
pub const ENERGY_FLOOR: u32 = 0x3727_c5ac;

/// 1e-9, the curvature up to which a minimum is not refined.
pub const FLAT: u32 = 0x3089_705f;

#[derive(Debug, Clone, Copy, PartialEq, Eq, Structural)]
pub struct PitchEstimate {
    pub frequency_hz: Scalar,
    pub confidence: Scalar,
    pub voiced: bool,
}

/// What a detector was set up with.
pub struct YinSetup {
    pub sample_rate: Scalar,
    pub frame_size: nat,
    pub min_tau: nat,
    pub max_tau: nat,
    pub threshold: Scalar,
    pub window: Seq<Scalar>,
}

impl YinSetup {
    /// The range of lags is not empty, or ends right before its start.
    pub open spec fn searchable(self) -> bool {
        self.min_tau <= self.max_tau + 1
    }

    /// A frame of this length can be searched.
    pub open spec fn accepts(self, len: nat) -> bool {
        self.max_tau + 2 <= len <= self.frame_size
    }
}

/// The detector that the given settings set up.
pub open spec fn setup(
    ar: Arith,
    sample_rate: Scalar,
    frame_size: nat,
    min_freq_hz: Scalar,
    max_freq_hz: Scalar,
    threshold: Scalar,
) -> YinSetup {
    let longest = ar(
        Op::Round(ar(Op::Div(sample_rate, min_freq_hz.larger(num(LOWEST_HZ))))),
    ).count() as nat;
    let shortest = ar(
        Op::Round(
            ar(
                Op::Div(
                    sample_rate,
                    max_freq_hz.larger(ar(Op::Add(min_freq_hz, num(ONE)))),
                ),
            ),
        ),
    ).count() as nat;
    let wanted = if longest < shortest + 2 {
        shortest + 2
    } else {
        longest
    };
    let room: nat = if frame_size < 2 {
        0
    } else {
        (frame_size - 2) as nat
    };
    YinSetup {
        sample_rate,
        frame_size,
        min_tau: shortest,
        max_tau: if wanted < room {
            wanted
        } else {
            room
        },
        threshold: threshold.clamped(num(LOWEST_THRESHOLD), num(HIGHEST_THRESHOLD)),
        window: hann(ar, frame_size),
    }
}

/// A frame without its mean, under the window.
pub open spec fn windowed(ar: Arith, window: Seq<Scalar>, frame: Seq<Scalar>) -> Seq<Scalar> {
    Seq::new(
        frame.len(),
        |i: int| ar(Op::Mul(ar(Op::Sub(frame[i], mean_of(ar, frame))), window[i])),
    )
}

pub open spec fn squares(ar: Arith, w: Seq<Scalar>) -> Seq<Scalar> {
    Seq::new(w.len(), |i: int| ar(Op::Mul(w[i], w[i])))
}

/// The root of the mean square.
pub open spec fn level(ar: Arith, w: Seq<Scalar>) -> Scalar {
    ar(Op::Sqrt(ar(Op::Div(total(ar, squares(ar, w)), ar(Op::FromInt(w.len() as i128))))))
}

/// The squared differences between the first `count` samples and those `tau` later, added up.
pub open spec fn difference(ar: Arith, w: Seq<Scalar>, tau: int, count: int) -> Scalar
    decreases count,
{
    if count <= 0 {
        num(ZERO)
    } else {
        let d = ar(Op::Sub(w[count - 1], w[count - 1 + tau]));
        ar(Op::Add(difference(ar, w, tau, count - 1), ar(Op::Mul(d, d))))
    }
}

/// How much a frame differs from itself at the lag `tau`.
pub open spec fn difference_at(ar: Arith, w: Seq<Scalar>, tau: int) -> Scalar {
    difference(ar, w, tau, w.len() - tau)
}

/// The differences at the lags from `min_tau` up to `tau`, added up.
pub open spec fn difference_sum(ar: Arith, w: Seq<Scalar>, min_tau: int, tau: int) -> Scalar
    decreases tau - min_tau + 1,
{
    if tau < min_tau {
        num(ZERO)
    } else {
        ar(Op::Add(difference_sum(ar, w, min_tau, tau - 1), difference_at(ar, w, tau)))
    }
}

/// The difference at the lag `tau`, against the mean of the differences up to it.
pub open spec fn normal_difference(ar: Arith, w: Seq<Scalar>, min_tau: int, tau: int) -> Scalar {
    let sum = difference_sum(ar, w, min_tau, tau);
    if num(ZERO).below(sum) {
        ar(
            Op::Div(
                ar(Op::Mul(difference_at(ar, w, tau), ar(Op::FromInt(tau as i128)))),
                sum,
            ),
        )
    } else {
        num(ONE)
    }
}

/// The normalised differences of a frame, one for each lag.
pub open spec fn curve(ar: Arith, w: Seq<Scalar>, s: YinSetup) -> Seq<Scalar> {
    Seq::new(s.max_tau + 1, |tau: int| normal_difference(ar, w, s.min_tau as int, tau))
}

/// The first lag from `tau` on whose value is below the threshold.
pub open spec fn first_below(
    c: Seq<Scalar>,
    threshold: Scalar,
    tau: int,
    max_tau: int,
) -> Option<int>
    decreases max_tau - tau + 1,
{
    if tau > max_tau {
        None
    } else if c[tau].below(threshold) {
        Some(tau)
    } else {
        first_below(c, threshold, tau + 1, max_tau)
    }
}

/// Where the values stop to fall from `tau` on.
pub open spec fn foot(c: Seq<Scalar>, tau: int, max_tau: int) -> int
    decreases max_tau - tau,
{
    if tau + 1 <= max_tau && c[tau + 1].below(c[tau]) {
        foot(c, tau + 1, max_tau)
    } else {
        tau
    }
}

/// The first lag from `min_tau` to `tau` whose value is the lowest.
pub open spec fn lowest(c: Seq<Scalar>, min_tau: int, tau: int) -> int
    decreases tau - min_tau,
{
    if tau <= min_tau {
        min_tau
    } else {
        let best = lowest(c, min_tau, tau - 1);
        if c[tau].below(c[best]) {
            tau
        } else {
            best
        }
    }
}

/// The lag that is taken for the period: the foot of the first dip below the threshold, or the
/// lowest value where there is none.
pub open spec fn chosen_lag(c: Seq<Scalar>, s: YinSetup) -> int {
    match first_below(c, s.threshold, s.min_tau as int, s.max_tau as int) {
        Some(tau) => foot(c, tau, s.max_tau as int),
        None => lowest(c, s.min_tau as int, s.max_tau as int),
    }
}

/// By how much the lag is moved for the neighbours of its value: as far as the minimum of the
/// parabola through the three lies from the middle one, to the side opposite to it, at most
/// one either way.
pub open spec fn parabola_offset(ar: Arith, x0: Scalar, x1: Scalar, x2: Scalar) -> Scalar {
    let denom = ar(
        Op::Mul(num(TWO), ar(Op::Sub(ar(Op::Sub(ar(Op::Mul(num(TWO), x1)), x0)), x2))),
    );
    let delta = if num(FLAT).below(denom.absolute()) {
        ar(Op::Div(ar(Op::Sub(x0, x2)), denom))
    } else {
        num(ZERO)
    };
    delta.clamped(num(MINUS_ONE), num(ONE))
}

/// The estimate that a lag gives.
pub open spec fn estimate_at(ar: Arith, c: Seq<Scalar>, s: YinSetup, tau: int) -> PitchEstimate {
    let delta = parabola_offset(ar, c[tau - 1], c[tau], c[tau + 1]);
    let refined = ar(Op::Add(ar(Op::FromInt(tau as i128)), delta)).larger(num(ONE));
    let confidence = ar(Op::Sub(num(ONE), c[tau])).clamped(num(ZERO), num(ONE));
    PitchEstimate {
        frequency_hz: ar(Op::Div(s.sample_rate, refined)),
        confidence,
        voiced: ar(Op::Sub(num(ONE), s.threshold)).at_most(confidence),
    }
}

/// The frame is too quiet to have a pitch.
pub open spec fn is_quiet(ar: Arith, s: YinSetup, frame: Seq<Scalar>) -> bool {
    level(ar, windowed(ar, s.window, frame)).below(num(ENERGY_FLOOR))
}

/// What a detector makes of a frame: nothing of one whose length does not fit, an unvoiced
/// estimate of a quiet one, nothing where the lag is at either end of the range.
pub open spec fn estimate_of(ar: Arith, s: YinSetup, frame: Seq<Scalar>) -> Option<PitchEstimate> {
    if !s.accepts(frame.len()) {
        None
    } else if is_quiet(ar, s, frame) {
        Some(
            PitchEstimate { frequency_hz: num(ZERO), confidence: num(ZERO), voiced: false },
        )
    } else {
        let c = curve(ar, windowed(ar, s.window, frame), s);
        let tau = chosen_lag(c, s);
        if tau <= s.min_tau || tau >= s.max_tau {
            None
        } else {
            Some(estimate_at(ar, c, s, tau))
        }
    }
}

#[derive(Debug, Clone)]
pub struct YinDetector {
    sample_rate: Scalar,
    min_tau: usize,
    max_tau: usize,
    threshold: Scalar,
    energy_floor: Scalar,
    window: Vec<Scalar>,
    work: Vec<Scalar>,
    diff: Vec<Scalar>,
    cmndf: Vec<Scalar>,
}

impl View for YinDetector {
    type V = YinSetup;

    closed spec fn view(&self) -> YinSetup {
        YinSetup {
            sample_rate: self.sample_rate,
            frame_size: self.work@.len(),
            min_tau: self.min_tau as nat,
            max_tau: self.max_tau as nat,
            threshold: self.threshold,
            window: self.window@,
        }
    }
}

impl YinDetector {
    /// The buffers have the sizes that the frame and the lags give them.
    pub closed spec fn wf(self) -> bool {
        &&& self.window@.len() == self.work@.len()
        &&& self.max_tau + 2 <= usize::MAX
        &&& self.diff@.len() == self.max_tau + 2
        &&& self.cmndf@.len() == self.max_tau + 2
        &&& self.energy_floor == num(ENERGY_FLOOR)
    }

    /// A detector for frames of `frame_size` samples, with the lags that the frequencies ask
    /// for as far as they fit into a frame.
    pub fn new<F: Fn(Op) -> Scalar>(
        sample_rate: Scalar,
        frame_size: usize,
        min_freq_hz: Scalar,
        max_freq_hz: Scalar,
        threshold: Scalar,
        f: &F,
    ) -> (r: Self)
        requires
            frame_size * 4 <= isize::MAX,
            is_arithmetic(*f),
        ensures
            r.wf(),
            r@ == setup(
                results(*f),
                sample_rate,
                frame_size as nat,
                min_freq_hz,
                max_freq_hz,
                threshold,
            ),
    {
        let max_tau = apply(
            f,
            Op::Round(apply(f, Op::Div(sample_rate, min_freq_hz.max(num(LOWEST_HZ))))),
        ).to_usize();
        let above = apply(f, Op::Add(min_freq_hz, num(ONE)));
        let min_tau = apply(
            f,
            Op::Round(apply(f, Op::Div(sample_rate, max_freq_hz.max(above)))),
        ).to_usize();
        let room: usize = if frame_size < 2 {
            0
        } else {
            frame_size - 2
        };
        let least: usize = if min_tau > usize::MAX - 2 {
            usize::MAX
        } else {
            min_tau + 2
        };
        let wanted: usize = if max_tau < least {
            least
        } else {
            max_tau
        };
        let tau_cap: usize = if wanted < room {
            wanted
        } else {
            room
        };
        YinDetector {
            sample_rate,
            min_tau,
            max_tau: tau_cap,
            threshold: threshold.clamp(num(LOWEST_THRESHOLD), num(HIGHEST_THRESHOLD)),
            energy_floor: num(ENERGY_FLOOR),
            window: hann_window(frame_size, f),
            work: silent(frame_size),
            diff: silent(tau_cap + 2),
            cmndf: vec![num(ONE); tau_cap + 2],
        }
    }

    /// Whether the lags are laid out so that every frame can be searched.
    pub fn is_searchable(&self) -> (r: bool)
        requires
            self.wf(),
        ensures
            r == self@.searchable(),
    {
        self.min_tau <= self.max_tau + 1
    }

    /// The pitch of a frame.
    pub fn estimate<F: Fn(Op) -> Scalar>(&mut self, frame: &[Scalar], f: &F) -> (r: Option<
        PitchEstimate,
    >)
        requires
            old(self).wf(),
            is_arithmetic(*f),
            old(self)@.searchable() || !old(self)@.accepts(frame@.len()) || is_quiet(
                results(*f),
                old(self)@,
                frame@,
            ),
        ensures
            final(self).wf(),
            final(self)@ == old(self)@,
            r == estimate_of(results(*f), old(self)@, frame@),
    {
        let n = frame.len();
        if n < self.max_tau + 2 || n > self.work.len() {
            return None;
        }
        self.apply_window(frame, f);
        let rms = self.work_level(n, f);
        if rms.lt(self.energy_floor) {
            return Some(
                PitchEstimate { frequency_hz: num(ZERO), confidence: num(ZERO), voiced: false },
            );
        }
        self.fill_differences(n, f);
        self.fill_curve(n, f);
        let ghost w = self.work@.take(n as int);
        let ghost c = curve(results(*f), w, self@);
        let tau = self.pick_lag(Ghost(c));
        if tau <= self.min_tau || tau >= self.max_tau {
            return None;
        }
        let x0 = self.cmndf[tau - 1];
        let x1 = self.cmndf[tau];
        let x2 = self.cmndf[tau + 1];
        let bend = apply(f, Op::Sub(apply(f, Op::Sub(apply(f, Op::Mul(num(TWO), x1)), x0)), x2));
        let denom = apply(f, Op::Mul(num(TWO), bend));
        let offset = if num(FLAT).lt(denom.abs()) {
            apply(f, Op::Div(apply(f, Op::Sub(x0, x2)), denom))
        } else {
            num(ZERO)
        };
        let delta = offset.clamp(num(MINUS_ONE), num(ONE));
        let refined = apply(f, Op::Add(apply(f, Op::FromInt(tau as i128)), delta)).max(num(ONE));
        let confidence = apply(f, Op::Sub(num(ONE), x1)).clamp(num(ZERO), num(ONE));
        Some(
            PitchEstimate {
                frequency_hz: apply(f, Op::Div(self.sample_rate, refined)),
                confidence,
                voiced: apply(f, Op::Sub(num(ONE), self.threshold)).le(confidence),
            },
        )
    }

    /// Leaves the frame, without its mean and under the window, in `work`.
    fn apply_window<F: Fn(Op) -> Scalar>(&mut self, frame: &[Scalar], f: &F)
        requires
            old(self).wf(),
            is_arithmetic(*f),
            frame@.len() <= old(self)@.frame_size,
        ensures
            final(self).wf(),
            final(self)@ == old(self)@,
            final(self).work@.take(frame@.len() as int) == windowed(
                results(*f),
                old(self)@.window,
                frame@,
            ),
    {
        let average = mean(frame, f);
        let n = frame.len();
        let ghost goal = windowed(results(*f), self.window@, frame@);
        let mut i: usize = 0;
        while i < n
            invariant
                i <= n,
                n == frame@.len(),
                n <= self.work@.len(),
                is_arithmetic(*f),
                average == mean_of(results(*f), frame@),
                self.wf(),
                self@ == old(self)@,
                goal == windowed(results(*f), self.window@, frame@),
                forall|j: int| 0 <= j < i ==> self.work@[j] == goal[j],
            decreases n - i,
        {
            let x = apply(f, Op::Sub(frame[i], average));
            self.work[i] = apply(f, Op::Mul(x, self.window[i]));
            i += 1;
        }
        assert(self.work@.take(n as int) =~= goal);
    }

    fn work_level<F: Fn(Op) -> Scalar>(&self, n: usize, f: &F) -> (r: Scalar)
        requires
            self.wf(),
            is_arithmetic(*f),
            n <= self.work@.len(),
        ensures
            r == level(results(*f), self.work@.take(n as int)),
    {
        let ghost sq = squares(results(*f), self.work@.take(n as int));
        let mut acc = num(ZERO);
        let mut i: usize = 0;
        while i < n
            invariant
                i <= n,
                n <= self.work@.len(),
                is_arithmetic(*f),
                sq == squares(results(*f), self.work@.take(n as int)),
                acc == total(results(*f), sq.take(i as int)),
            decreases n - i,
        {
            let x = self.work[i];
            assert(sq.take(i + 1).drop_last() =~= sq.take(i as int));
            acc = apply(f, Op::Add(acc, apply(f, Op::Mul(x, x))));
            i += 1;
        }
        assert(sq.take(n as int) =~= sq);
        apply(f, Op::Sqrt(apply(f, Op::Div(acc, apply(f, Op::FromInt(n as i128))))))
    }

    /// Leaves the difference at each lag in `diff`.
    fn fill_differences<F: Fn(Op) -> Scalar>(&mut self, n: usize, f: &F)
        requires
            old(self).wf(),
            is_arithmetic(*f),
            old(self)@.accepts(n as nat),
        ensures
            final(self).wf(),
            final(self)@ == old(self)@,
            final(self).work == old(self).work,
            forall|tau: int|
                old(self)@.min_tau <= tau <= old(self)@.max_tau ==> #[trigger] final(self).diff@[tau] == difference_at(
                    results(*f),
                    old(self).work@.take(n as int),
                    tau,
                ),
    {
        let ghost ar = results(*f);
        let ghost w = self.work@.take(n as int);
        let mut tau: usize = self.min_tau;
        while tau <= self.max_tau
            invariant
                self.min_tau <= tau,
                tau <= self.max_tau + 1 || tau == self.min_tau,
                self.max_tau + 2 <= n <= self.work@.len(),
                is_arithmetic(*f),
                ar == results(*f),
                self.wf(),
                self@ == old(self)@,
                self.work == old(self).work,
                w == self.work@.take(n as int),
                forall|t: int|
                    self.min_tau <= t < tau && t <= self.max_tau ==> #[trigger] self.diff@[t]
                        == difference_at(ar, w, t),
            decreases self.max_tau + 1 - tau,
        {
            let end = n - tau;
            let mut acc = num(ZERO);
            let mut i: usize = 0;
            while i < end
                invariant
                    i <= end,
                    end == n - tau,
                    tau <= n <= self.work@.len(),
                    is_arithmetic(*f),
                    ar == results(*f),
                    w == self.work@.take(n as int),
                    acc == difference(ar, w, tau as int, i as int),
                decreases end - i,
            {
                let d = apply(f, Op::Sub(self.work[i], self.work[i + tau]));
                acc = apply(f, Op::Add(acc, apply(f, Op::Mul(d, d))));
                i += 1;
            }
            self.diff[tau] = acc;
            tau += 1;
        }
    }

    /// Leaves the normalised difference at each lag in `cmndf`.
    fn fill_curve<F: Fn(Op) -> Scalar>(&mut self, n: usize, f: &F)
        requires
            old(self).wf(),
            is_arithmetic(*f),
            n <= old(self).work@.len(),
            forall|tau: int|
                old(self)@.min_tau <= tau <= old(self)@.max_tau ==> #[trigger] old(self).diff@[tau] == difference_at(
                    results(*f),
                    old(self).work@.take(n as int),
                    tau,
                ),
        ensures
            final(self).wf(),
            final(self)@ == old(self)@,
            final(self).work == old(self).work,
            forall|tau: int|
                old(self)@.min_tau <= tau <= old(self)@.max_tau ==> #[trigger] final(self).cmndf@[tau] == normal_difference(
                    results(*f),
                    old(self).work@.take(n as int),
                    old(self)@.min_tau as int,
                    tau,
                ),
    {
        let ghost ar = results(*f);
        let ghost w = self.work@.take(n as int);
        let ghost lo = self.min_tau as int;
        self.cmndf[0] = num(ONE);
        let mut running_sum = num(ZERO);
        let mut tau: usize = self.min_tau;
        while tau <= self.max_tau
            invariant
                self.min_tau <= tau,
                tau <= self.max_tau + 1 || tau == self.min_tau,
                is_arithmetic(*f),
                ar == results(*f),
                lo == self.min_tau,
                self.wf(),
                self@ == old(self)@,
                self.work == old(self).work,
                self.diff == old(self).diff,
                w == self.work@.take(n as int),
                running_sum == difference_sum(ar, w, lo, tau - 1),
                forall|t: int|
                    self.min_tau <= t <= self.max_tau ==> #[trigger] self.diff@[t]
                        == difference_at(ar, w, t),
                forall|t: int|
                    self.min_tau <= t < tau && t <= self.max_tau ==> #[trigger] self.cmndf@[t]
                        == normal_difference(ar, w, lo, t),
            decreases self.max_tau + 1 - tau,
        {
            let d = self.diff[tau];
            running_sum = apply(f, Op::Add(running_sum, d));
            self.cmndf[tau] = if num(ZERO).lt(running_sum) {
                let scaled = apply(f, Op::Mul(d, apply(f, Op::FromInt(tau as i128))));
                apply(f, Op::Div(scaled, running_sum))
            } else {
                num(ONE)
            };
            tau += 1;
        }
    }

    fn pick_lag(&self, Ghost(c): Ghost<Seq<Scalar>>) -> (r: usize)
        requires
            self.wf(),
            self@.searchable(),
            c.len() == self.max_tau + 1,
            forall|tau: int|
                self.min_tau <= tau <= self.max_tau ==> #[trigger] self.cmndf@[tau] == c[tau],
        ensures
            r == chosen_lag(c, self@),
            self.min_tau <= r,
            r <= self.max_tau || r == self.min_tau,
    {
        let ghost (lo, hi) = (self.min_tau as int, self.max_tau as int);
        let ghost found = first_below(c, self.threshold, lo, hi);
        let mut tau: usize = self.min_tau;
        while tau <= self.max_tau
            invariant
                self.min_tau <= tau <= self.max_tau + 1,
                self.wf(),
                lo == self.min_tau,
                hi == self.max_tau,
                c.len() == self.max_tau + 1,
                found == first_below(c, self.threshold, lo, hi),
                found == first_below(c, self.threshold, tau as int, hi),
                forall|tau: int|
                    self.min_tau <= tau <= self.max_tau ==> #[trigger] self.cmndf@[tau]
                        == c[tau],
            decreases self.max_tau + 1 - tau,
        {
            if self.cmndf[tau].lt(self.threshold) {
                let mut t: usize = tau;
                while t + 1 <= self.max_tau && self.cmndf[t + 1].lt(self.cmndf[t])
                    invariant
                        self.min_tau <= tau <= t <= self.max_tau,
                        self.wf(),
                        hi == self.max_tau,
                        foot(c, tau as int, hi) == foot(c, t as int, hi),
                        forall|tau: int|
                            self.min_tau <= tau <= self.max_tau ==> #[trigger] self.cmndf@[tau]
                                == c[tau],
                    decreases self.max_tau - t,
                {
                    t += 1;
                }
                return t;
            }
            tau += 1;
        }
        let mut best_tau: usize = self.min_tau;
        let mut best_val = self.cmndf[self.min_tau];
        tau = self.min_tau + 1;
        while tau <= self.max_tau
            invariant
                self.min_tau < tau,
                self.min_tau <= self.max_tau ==> tau <= self.max_tau + 1,
                self.min_tau == self.max_tau + 1 ==> tau == self.min_tau + 1,
                self.wf(),
                self@.searchable(),
                lo == self.min_tau,
                hi == self.max_tau,
                lo <= best_tau < tau,
                best_tau <= hi || best_tau == lo,
                best_tau == lowest(c, lo, tau - 1),
                best_tau <= hi ==> best_val == c[best_tau as int],
                forall|tau: int|
                    self.min_tau <= tau <= self.max_tau ==> #[trigger] self.cmndf@[tau]
                        == c[tau],
            decreases self.max_tau + 1 - tau,
        {
            let v = self.cmndf[tau];
            if v.lt(best_val) {
                best_val = v;
                best_tau = tau;
            }
            tau += 1;
        }
        best_tau
    }
}

proof fn lemma_first_below(c: Seq<Scalar>, threshold: Scalar, tau: int, max_tau: int)
    ensures
        match first_below(c, threshold, tau, max_tau) {
            Some(t) => {
                &&& tau <= t <= max_tau
                &&& c[t].below(threshold)
                &&& forall|i: int| tau <= i < t ==> !(#[trigger] c[i]).below(threshold)
            },
            None => forall|i: int| tau <= i <= max_tau ==> !(#[trigger] c[i]).below(threshold),
        },
    decreases max_tau - tau + 1,
{
    if tau <= max_tau && !c[tau].below(threshold) {
        lemma_first_below(c, threshold, tau + 1, max_tau);
    }
}

proof fn lemma_foot(c: Seq<Scalar>, threshold: Scalar, tau: int, max_tau: int)
    requires
        tau <= max_tau,
        c[tau].below(threshold),
    ensures
        ({
            let t = foot(c, tau, max_tau);
            &&& tau <= t <= max_tau
            &&& c[t].below(threshold)
            &&& t < max_tau ==> !c[t + 1].below(c[t])
            &&& forall|i: int| tau <= i < t ==> (#[trigger] c[i + 1]).below(c[i])
        }),
    decreases max_tau - tau,
{
    broadcast use crate::scalar::group_scalar_order;

    if tau + 1 <= max_tau && c[tau + 1].below(c[tau]) {
        lemma_foot(c, threshold, tau + 1, max_tau);
    }
}

/// Where a value is below the threshold, the lag that is chosen lies in the first dip below
/// it: its value is below the threshold too, the next one is not lower, and the values fall
/// all the way from the first one below the threshold.
pub proof fn first_dip_is_chosen(c: Seq<Scalar>, s: YinSetup, tau: int)
    requires
        s.min_tau <= tau <= s.max_tau,
        c[tau].below(s.threshold),
    ensures
        s.min_tau <= chosen_lag(c, s) <= s.max_tau,
        c[chosen_lag(c, s)].below(s.threshold),
        chosen_lag(c, s) < s.max_tau ==> !c[chosen_lag(c, s) + 1].below(c[chosen_lag(c, s)]),
        exists|start: int|
            {
                &&& s.min_tau <= start <= chosen_lag(c, s)
                &&& start <= tau
                &&& (#[trigger] c[start]).below(s.threshold)
                &&& forall|i: int| s.min_tau <= i < start ==> !(#[trigger] c[i]).below(
                    s.threshold,
                )
                &&& forall|i: int|
                    start <= i < chosen_lag(c, s) ==> (#[trigger] c[i + 1]).below(c[i])
            },
{
    lemma_first_below(c, s.threshold, s.min_tau as int, s.max_tau as int);
    match first_below(c, s.threshold, s.min_tau as int, s.max_tau as int) {
        Some(start) => {
            lemma_foot(c, s.threshold, start, s.max_tau as int);
            assert(c[start].below(s.threshold));
        },
        None => {},
    }
}

proof fn lemma_lowest(c: Seq<Scalar>, min_tau: int, tau: int)
    requires
        min_tau <= tau,
        !c[min_tau].nan(),
    ensures
        min_tau <= lowest(c, min_tau, tau) <= tau,
        !c[lowest(c, min_tau, tau)].nan(),
        forall|i: int|
            min_tau <= i <= tau && !c[i].nan() ==> c[lowest(c, min_tau, tau)].at_most(
                #[trigger] c[i],
            ),
    decreases tau - min_tau,
{
    broadcast use crate::scalar::group_scalar_order;

    if min_tau < tau {
        lemma_lowest(c, min_tau, tau - 1);
    }
}

/// Where no value is below the threshold, the lag that is chosen has the lowest value of all,
/// those that are not numbers aside.
pub proof fn lowest_is_chosen_without_a_dip(c: Seq<Scalar>, s: YinSetup)
    requires
        s.min_tau <= s.max_tau,
        !c[s.min_tau as int].nan(),
        forall|i: int|
            s.min_tau <= i <= s.max_tau ==> !(#[trigger] c[i]).below(s.threshold),
    ensures
        s.min_tau <= chosen_lag(c, s) <= s.max_tau,
        forall|i: int|
            s.min_tau <= i <= s.max_tau && !c[i].nan() ==> c[chosen_lag(c, s)].at_most(
                #[trigger] c[i],
            ),
{
    lemma_first_below(c, s.threshold, s.min_tau as int, s.max_tau as int);
    lemma_lowest(c, s.min_tau as int, s.max_tau as int);
}

/// The confidence of an estimate that is a number lies within 0..=1.
pub proof fn confidence_is_a_share(ar: Arith, s: YinSetup, frame: Seq<Scalar>)
    ensures
        match estimate_of(ar, s, frame) {
            Some(e) => !e.confidence.nan() ==> num(ZERO).at_most(e.confidence)
                && e.confidence.at_most(num(ONE)),
            None => true,
        },
{
    broadcast use crate::scalar::group_scalar_order;

}

/// Arithmetic that keeps the order of the lags of a detector, as the one of IEEE 754 does below
/// 2^24: larger counts give no smaller numbers, a lag moved by at most one stays between its
/// neighbours, and a longer period gives no higher frequency.
pub open spec fn orders_lags(ar: Arith, s: YinSetup) -> bool {
    &&& forall|i: int, j: int|
        s.min_tau <= i <= j <= s.max_tau ==> (#[trigger] ar(Op::FromInt(i as i128))).at_most(
            #[trigger] ar(Op::FromInt(j as i128)),
        )
    &&& forall|tau: int, delta: Scalar|
        s.min_tau < tau < s.max_tau && num(MINUS_ONE).at_most(delta) && delta.at_most(num(ONE))
            ==> ar(Op::FromInt((tau - 1) as i128)).at_most(
            #[trigger] ar(Op::Add(ar(Op::FromInt(tau as i128)), delta)),
        ) && ar(Op::Add(ar(Op::FromInt(tau as i128)), delta)).at_most(
            ar(Op::FromInt((tau + 1) as i128)),
        )
    &&& forall|t: Scalar, u: Scalar|
        num(ONE).at_most(t) && t.at_most(u) ==> (#[trigger] ar(
            Op::Div(s.sample_rate, u),
        )).at_most(#[trigger] ar(Op::Div(s.sample_rate, t)))
}

/// The highest frequency that the lags of a detector stand for.
pub open spec fn highest_hz(ar: Arith, s: YinSetup) -> Scalar {
    ar(Op::Div(s.sample_rate, ar(Op::FromInt(s.min_tau as i128)).larger(num(ONE))))
}

/// The lowest frequency that the lags of a detector stand for.
pub open spec fn lowest_hz(ar: Arith, s: YinSetup) -> Scalar {
    ar(Op::Div(s.sample_rate, ar(Op::FromInt(s.max_tau as i128)).larger(num(ONE))))
}

proof fn lemma_clamped_to_one(x: Scalar)
    requires
        !x.clamped(num(MINUS_ONE), num(ONE)).nan(),
    ensures
        num(MINUS_ONE).at_most(x.clamped(num(MINUS_ONE), num(ONE))),
        x.clamped(num(MINUS_ONE), num(ONE)).at_most(num(ONE)),
{
    broadcast use crate::scalar::group_scalar_order;

}

proof fn lemma_larger_keeps_order(a: Scalar, b: Scalar, c: Scalar, d: Scalar, e: Scalar)
    requires
        a.at_most(b),
        b.at_most(c),
        c.at_most(d),
        d.at_most(e),
    ensures
        num(ONE).at_most(a.larger(num(ONE))),
        a.larger(num(ONE)).at_most(c.larger(num(ONE))),
        num(ONE).at_most(c.larger(num(ONE))),
        c.larger(num(ONE)).at_most(e.larger(num(ONE))),
{
    broadcast use crate::scalar::group_scalar_order;

}

/// The pitch that is reported of a frame that is not quiet stays within the range that the lags
/// of the detector stand for, wherever the offset between the lags is a number.
pub proof fn pitch_stays_in_the_lag_range(ar: Arith, s: YinSetup, frame: Seq<Scalar>)
    requires
        orders_lags(ar, s),
    ensures
        ({
            let c = curve(ar, windowed(ar, s.window, frame), s);
            let tau = chosen_lag(c, s);
            estimate_of(ar, s, frame) matches Some(e) ==> !is_quiet(ar, s, frame)
                && !parabola_offset(ar, c[tau - 1], c[tau], c[tau + 1]).nan() ==> {
                &&& lowest_hz(ar, s).at_most(e.frequency_hz)
                &&& e.frequency_hz.at_most(highest_hz(ar, s))
            }
        }),
{
    let c = curve(ar, windowed(ar, s.window, frame), s);
    let tau = chosen_lag(c, s);
    let delta = parabola_offset(ar, c[tau - 1], c[tau], c[tau + 1]);
    if estimate_of(ar, s, frame) is Some && !is_quiet(ar, s, frame) && !delta.nan() {
        let moved = ar(Op::Add(ar(Op::FromInt(tau as i128)), delta));
        let (first, last) = (
            ar(Op::FromInt(s.min_tau as i128)),
            ar(Op::FromInt(s.max_tau as i128)),
        );
        lemma_offset_is_clamped(ar, c[tau - 1], c[tau], c[tau + 1]);
        lemma_larger_keeps_order(
            first,
            ar(Op::FromInt((tau - 1) as i128)),
            moved,
            ar(Op::FromInt((tau + 1) as i128)),
            last,
        );
        assert(estimate_at(ar, c, s, tau).frequency_hz == ar(
            Op::Div(s.sample_rate, moved.larger(num(ONE))),
        ));
    }
}

proof fn lemma_offset_is_clamped(ar: Arith, x0: Scalar, x1: Scalar, x2: Scalar)
    requires
        !parabola_offset(ar, x0, x1, x2).nan(),
    ensures
        num(MINUS_ONE).at_most(parabola_offset(ar, x0, x1, x2)),
        parabola_offset(ar, x0, x1, x2).at_most(num(ONE)),
{
    let denom = ar(
        Op::Mul(num(TWO), ar(Op::Sub(ar(Op::Sub(ar(Op::Mul(num(TWO), x1)), x0)), x2))),
    );
    let delta = if num(FLAT).below(denom.absolute()) {
        ar(Op::Div(ar(Op::Sub(x0, x2)), denom))
    } else {
        num(ZERO)
    };
    lemma_clamped_to_one(delta);
}

/// A signal with the other sign.
pub open spec fn inverted(x: Seq<Scalar>) -> Seq<Scalar> {
    Seq::new(x.len(), |i: int| x[i].negated())
}

proof fn lemma_total_flipped(ar: Arith, x: Seq<Scalar>, y: Seq<Scalar>)
    requires
        is_sign_symmetric(ar),
        x.len() == y.len(),
        forall|i: int| 0 <= i < x.len() ==> flipped(#[trigger] x[i], y[i]),
    ensures
        flipped(total(ar, x), total(ar, y)),
    decreases x.len(),
{
    if x.len() > 0 {
        let (a, b) = (x.drop_last(), y.drop_last());
        assert forall|i: int| 0 <= i < a.len() implies flipped(#[trigger] a[i], b[i]) by {
            assert(flipped(x[i], y[i]));
        }
        lemma_total_flipped(ar, a, b);
        assert(flipped(x[x.len() - 1], y[x.len() - 1]));
        assert(flipped(
            ar(Op::Add(total(ar, a), x.last())),
            ar(Op::Add(total(ar, b), y.last())),
        ));
    }
}

proof fn lemma_windowed_flipped(ar: Arith, window: Seq<Scalar>, x: Seq<Scalar>, i: int)
    requires
        is_sign_symmetric(ar),
        0 <= i < x.len(),
    ensures
        flipped(windowed(ar, window, x)[i], windowed(ar, window, inverted(x))[i]),
{
    let y = inverted(x);
    assert forall|k: int| 0 <= k < x.len() implies flipped(#[trigger] x[k], y[k]) by {}
    lemma_total_flipped(ar, x, y);
    let n: int = if x.len() == 0 {
        1
    } else {
        x.len() as int
    };
    let count = ar(Op::FromInt(n as i128));
    assert(flipped(ar(Op::Div(total(ar, x), count)), ar(Op::Div(total(ar, y), count))));
    let (a, b) = (mean_of(ar, x), mean_of(ar, y));
    assert(flipped(x[i], y[i]));
    assert(flipped(ar(Op::Sub(x[i], a)), ar(Op::Sub(y[i], b))));
    assert(flipped(
        ar(Op::Mul(ar(Op::Sub(x[i], a)), window[i])),
        ar(Op::Mul(ar(Op::Sub(y[i], b)), window[i])),
    ));
}

proof fn lemma_difference_flipped(
    ar: Arith,
    v: Seq<Scalar>,
    w: Seq<Scalar>,
    tau: int,
    count: int,
)
    requires
        is_sign_symmetric(ar),
        v.len() == w.len(),
        0 <= tau,
        count + tau <= v.len(),
        forall|i: int| 0 <= i < v.len() ==> flipped(#[trigger] v[i], w[i]),
    ensures
        difference(ar, v, tau, count) == difference(ar, w, tau, count),
    decreases count,
{
    if count > 0 {
        lemma_difference_flipped(ar, v, w, tau, count - 1);
        assert(flipped(v[count - 1], w[count - 1]));
        assert(flipped(v[count - 1 + tau], w[count - 1 + tau]));
        let d = ar(Op::Sub(v[count - 1], v[count - 1 + tau]));
        let e = ar(Op::Sub(w[count - 1], w[count - 1 + tau]));
        assert(flipped(d, e));
        assert(ar(Op::Mul(d, d)) == ar(Op::Mul(e, e)));
    }
}

proof fn lemma_sum_flipped(ar: Arith, v: Seq<Scalar>, w: Seq<Scalar>, min_tau: int, tau: int)
    requires
        is_sign_symmetric(ar),
        v.len() == w.len(),
        0 <= min_tau,
        forall|i: int| 0 <= i < v.len() ==> flipped(#[trigger] v[i], w[i]),
    ensures
        difference_sum(ar, v, min_tau, tau) == difference_sum(ar, w, min_tau, tau),
    decreases tau - min_tau + 1,
{
    if tau >= min_tau {
        lemma_sum_flipped(ar, v, w, min_tau, tau - 1);
        lemma_difference_flipped(ar, v, w, tau, v.len() - tau);
    }
}

/// A frame and the same frame with the other sign have the same pitch, by an arithmetic that
/// treats both signs alike.
pub proof fn polarity_plays_no_role(ar: Arith, s: YinSetup, frame: Seq<Scalar>)
    requires
        is_sign_symmetric(ar),
    ensures
        estimate_of(ar, s, inverted(frame)) == estimate_of(ar, s, frame),
{
    let v = windowed(ar, s.window, frame);
    let w = windowed(ar, s.window, inverted(frame));
    assert forall|i: int| 0 <= i < v.len() implies flipped(#[trigger] v[i], w[i]) by {
        lemma_windowed_flipped(ar, s.window, frame, i);
    }
    assert forall|i: int| 0 <= i < v.len() implies ar(Op::Mul(v[i], v[i])) == ar(
        Op::Mul(w[i], w[i]),
    ) by {
        assert(flipped(v[i], w[i]));
    }
    assert(squares(ar, v) =~= squares(ar, w));
    let (c, d) = (curve(ar, v, s), curve(ar, w, s));
    assert forall|tau: int| 0 <= tau < c.len() implies c[tau] == d[tau] by {
        lemma_sum_flipped(ar, v, w, s.min_tau as int, tau);
        lemma_difference_flipped(ar, v, w, tau, v.len() - tau);
    }
    assert(c =~= d);
}

/// A threshold beyond its range, or a highest frequency less than 1 above the lowest, sets up
/// the same detector as the end of the range does.
pub proof fn settings_are_brought_into_range(
    ar: Arith,
    sample_rate: Scalar,
    frame_size: nat,
    min_freq_hz: Scalar,
    max_freq_hz: Scalar,
    threshold: Scalar,
)
    ensures
        setup(
            ar,
            sample_rate,
            frame_size,
            min_freq_hz,
            max_freq_hz,
            threshold.clamped(num(LOWEST_THRESHOLD), num(HIGHEST_THRESHOLD)),
        ) == setup(ar, sample_rate, frame_size, min_freq_hz, max_freq_hz, threshold),
        setup(
            ar,
            sample_rate,
            frame_size,
            min_freq_hz,
            max_freq_hz.larger(ar(Op::Add(min_freq_hz, num(ONE)))),
            threshold,
        ) == setup(ar, sample_rate, frame_size, min_freq_hz, max_freq_hz, threshold),
{
    broadcast use crate::scalar::group_scalar_order;

}

/// A quiet frame of full length is always accepted, as unvoiced, where a frame has at least
/// two samples.
pub proof fn quiet_full_frames_are_accepted(
    ar: Arith,
    sample_rate: Scalar,
    frame_size: nat,
    min_freq_hz: Scalar,
    max_freq_hz: Scalar,
    threshold: Scalar,
    frame: Seq<Scalar>,
)
    requires
        frame_size >= 2,
        frame.len() == frame_size,
        is_quiet(
            ar,
            setup(ar, sample_rate, frame_size, min_freq_hz, max_freq_hz, threshold),
            frame,
        ),
    ensures
        estimate_of(
            ar,
            setup(ar, sample_rate, frame_size, min_freq_hz, max_freq_hz, threshold),
            frame,
        ) == Some(
            PitchEstimate { frequency_hz: num(ZERO), confidence: num(ZERO), voiced: false },
        ),
{
}

/// The arithmetic gives zero for zero under the window `window`.
pub open spec fn keeps_silence(ar: Arith, window: Seq<Scalar>) -> bool {
    let n = ar(Op::FromInt(window.len() as i128));
    &&& ar(Op::Add(num(ZERO), num(ZERO))) == num(ZERO)
    &&& ar(Op::Sub(num(ZERO), num(ZERO))) == num(ZERO)
    &&& ar(Op::Mul(num(ZERO), num(ZERO))) == num(ZERO)
    &&& ar(Op::Div(num(ZERO), n)) == num(ZERO)
    &&& ar(Op::Sqrt(num(ZERO))) == num(ZERO)
    &&& forall|i: int|
        0 <= i < window.len() ==> ar(Op::Mul(num(ZERO), #[trigger] window[i])) == num(ZERO)
}

proof fn lemma_total_of_silence(ar: Arith, n: nat)
    requires
        ar(Op::Add(num(ZERO), num(ZERO))) == num(ZERO),
    ensures
        total(ar, silence(n)) == num(ZERO),
    decreases n,
{
    if n > 0 {
        lemma_total_of_silence(ar, (n - 1) as nat);
        assert(silence(n).drop_last() =~= silence((n - 1) as nat));
    }
}

/// A silent frame of full length is quiet, by an arithmetic that gives zero for zero.
pub proof fn silence_is_quiet(ar: Arith, s: YinSetup)
    requires
        s.frame_size >= 1,
        s.window.len() == s.frame_size,
        keeps_silence(ar, s.window),
    ensures
        is_quiet(ar, s, silence(s.frame_size)),
{
    broadcast use crate::scalar::group_scalar_order;

    let frame = silence(s.frame_size);
    lemma_total_of_silence(ar, s.frame_size);
    let w = windowed(ar, s.window, frame);
    assert forall|i: int| 0 <= i < w.len() implies w[i] == num(ZERO) by {
        assert(ar(Op::Mul(num(ZERO), s.window[i])) == num(ZERO));
    }
    assert(squares(ar, w) =~= silence(s.frame_size));
}

/// A detector for frames of fewer than two samples makes nothing of any frame.
pub proof fn tiny_frames_are_refused(
    ar: Arith,
    sample_rate: Scalar,
    frame_size: nat,
    min_freq_hz: Scalar,
    max_freq_hz: Scalar,
    threshold: Scalar,
    frame: Seq<Scalar>,
)
    requires
        frame_size < 2,
    ensures
        estimate_of(
            ar,
            setup(ar, sample_rate, frame_size, min_freq_hz, max_freq_hz, threshold),
            frame,
        ) is None,
{
}

} // verus!
