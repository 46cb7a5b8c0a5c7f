use crate::errors::CalibrationError;
use crate::fixed_point::magnitude;
use vstd::prelude::*;

verus! {

/// The score of one candidate: lower is better.
///
/// A finite score is a count of quarter squared microvolt-seconds, up to
/// `u128::MAX` of them, which is some 8e25 squared volt-seconds.  A score
/// beyond that, the score of a diverged simulation and the score of a
/// candidate that was never evaluated are all `NonFinite`.
#[derive(Clone, Copy, Debug, PartialEq, Eq, Structural)]
pub enum Fitness {
    Finite(u128),
    NonFinite,
}

impl Fitness {
    /// The score is a finite one.
    pub open spec fn is_finite_spec(self) -> bool {
        self is Finite
    }

    /// The integer by which scores are ranked: a finite score ranks by its
    /// value, and every non-finite score ranks after all finite ones.
    pub open spec fn rank_key(self) -> int {
        match self {
            Fitness::Finite(v) => v as int,
            Fitness::NonFinite => 0x1_0000_0000_0000_0000_0000_0000_0000_0000int,
        }
    }

    /// `self` is at least as good as `other`.
    pub open spec fn no_worse_than(self, other: Fitness) -> bool {
        self.rank_key() <= other.rank_key()
    }

    /// The better of two scores; `self` where they rank alike.
    pub open spec fn better_of(self, other: Fitness) -> Fitness {
        if self.no_worse_than(other) {
            self
        } else {
            other
        }
    }

    /// Tells whether `self` is strictly better than `other`.
    pub fn beats(self, other: Fitness) -> (r: bool)
        ensures
            r == (self.rank_key() < other.rank_key()),
    {
        match (self, other) {
            (Fitness::Finite(a), Fitness::Finite(b)) => a < b,
            (Fitness::Finite(_), Fitness::NonFinite) => true,
            (Fitness::NonFinite, _) => false,
        }
    }

    /// The better of two scores; `self` where they rank alike.
    pub fn better(self, other: Fitness) -> (r: Fitness)
        ensures
            r == self.better_of(other),
    {
        if other.beats(self) {
            other
        } else {
            self
        }
    }

    /// Tells whether the score is a finite one.
    #[verifier::when_used_as_spec(is_finite_spec)]
    pub fn is_finite(self) -> (r: bool)
        ensures
            r == self.is_finite_spec(),
    {
        match self {
            Fitness::Finite(_) => true,
            Fitness::NonFinite => false,
        }
    }

    /// The rank key as a pair that sorts as the key does: class zero with
    /// the value for a finite score, class one for a non-finite score.
    pub open spec fn key_pair(self) -> (u8, u128) {
        match self {
            Fitness::Finite(v) => (0u8, v),
            Fitness::NonFinite => (1u8, 0u128),
        }
    }

    /// The pair by which the score is sorted.
    pub fn sort_key(self) -> (k: (u8, u128))
        ensures
            k == self.key_pair(),
    {
        match self {
            Fitness::Finite(v) => (0, v),
            Fitness::NonFinite => (1, 0),
        }
    }

    /// The score that stands for an exact total: finite where it fits.
    pub open spec fn of_total(total: int) -> Fitness {
        if 0 <= total <= u128::MAX {
            Fitness::Finite(total as u128)
        } else {
            Fitness::NonFinite
        }
    }
}

/// Twice the difference between the trapezoid areas of the two traces over
/// the interval from sample `k` to sample `k + 1`.
pub open spec fn interval_gap(
    time: Seq<i64>,
    reference: Seq<i64>,
    candidate: Seq<i64>,
    k: int,
) -> int {
    ((reference[k] + reference[k + 1]) - (candidate[k] + candidate[k + 1])) * (time[k + 1]
        - time[k])
}

/// The sum of the squared gaps of the first `n` intervals.
pub open spec fn squared_gap_sum(
    time: Seq<i64>,
    reference: Seq<i64>,
    candidate: Seq<i64>,
    n: nat,
) -> int
    decreases n,
{
    if n == 0 {
        0
    } else {
        let g = interval_gap(time, reference, candidate, n - 1);
        squared_gap_sum(time, reference, candidate, (n - 1) as nat) + g * g
    }
}

/// The exact dissimilarity of two traces on a common time base.
pub open spec fn trace_error(time: Seq<i64>, reference: Seq<i64>, candidate: Seq<i64>) -> int {
    squared_gap_sum(time, reference, candidate, (time.len() - 1) as nat)
}

/// The traces can be compared: equal lengths, at least one interval.
pub open spec fn comparable(time: Seq<i64>, reference: Seq<i64>, candidate: Seq<i64>) -> bool {
    time.len() >= 2 && reference.len() == time.len() && candidate.len() == time.len()
}

/// Squared gaps only add up: no partial sum is negative or exceeds a later
/// one.
pub proof fn lemma_squared_gap_sum_grows(
    time: Seq<i64>,
    reference: Seq<i64>,
    candidate: Seq<i64>,
    a: nat,
    b: nat,
)
    requires
        a <= b,
    ensures
        0 <= squared_gap_sum(time, reference, candidate, a) <= squared_gap_sum(
            time,
            reference,
            candidate,
            b,
        ),
    decreases b,
{
    if b == 0 {
    } else {
        let g = interval_gap(time, reference, candidate, b - 1);
        assert(g * g >= 0) by (nonlinear_arith);
        if a < b {
            lemma_squared_gap_sum_grows(time, reference, candidate, a, (b - 1) as nat);
        } else {
            lemma_squared_gap_sum_grows(time, reference, candidate, (b - 1) as nat, (b - 1) as nat);
        }
    }
}

/// A trace compared against itself has no error, whatever the time base.
pub proof fn lemma_identical_traces_have_no_error(time: Seq<i64>, trace: Seq<i64>, n: nat)
    ensures
        squared_gap_sum(time, trace, trace, n) == 0,
    decreases n,
{
    if n > 0 {
        lemma_identical_traces_have_no_error(time, trace, (n - 1) as nat);
        let g = interval_gap(time, trace, trace, n - 1);
        let sum = trace[n - 1] + trace[n as int];
        let dt = time[n as int] - time[n - 1];
        assert(g == 0) by (nonlinear_arith)
            requires
                g == (sum - sum) * dt,
        ;
    }
}


/// The squared gap of one interval, or `None` where it exceeds `u128::MAX`.
fn squared_gap(t0: i64, t1: i64, r0: i64, r1: i64, c0: i64, c1: i64) -> (sq: Option<u128>)
    ensures
        ({
            let g = ((r0 + r1) - (c0 + c1)) * (t1 - t0);
            match sq {
                Some(v) => v == g * g,
                None => g * g > u128::MAX,
            }
        }),
{
    let s: i128 = (r0 as i128 + r1 as i128) - (c0 as i128 + c1 as i128);
    let dt: i128 = t1 as i128 - t0 as i128;
    let ms: u128 = magnitude(s);
    let md: u128 = magnitude(dt);
    let ghost g: int = s * dt;
    assert(g * g == (ms * md) * (ms * md)) by (nonlinear_arith)
        requires
            g == s * dt,
            ms == s || ms == -s,
            md == dt || md == -dt,
    ;
    if ms == 0 || md == 0 {
        assert(ms * md == 0) by (nonlinear_arith)
            requires
                ms == 0 || md == 0,
        ;
        return Some(0);
    }
    if ms >= 0x1_0000_0000_0000_0000 || md >= 0x1_0000_0000_0000_0000 {
        assert((ms * md) * (ms * md) > u128::MAX) by (nonlinear_arith)
            requires
                ms >= 1,
                md >= 1,
                ms >= 0x1_0000_0000_0000_0000 || md >= 0x1_0000_0000_0000_0000,
        ;
        return None;
    }
    assert(ms * md <= 0xffff_ffff_ffff_ffff * 0xffff_ffff_ffff_ffff) by (nonlinear_arith)
        requires
            ms <= 0xffff_ffff_ffff_ffff,
            md <= 0xffff_ffff_ffff_ffff,
    ;
    let p: u128 = ms * md;
    if p >= 0x1_0000_0000_0000_0000 {
        assert(p * p > u128::MAX) by (nonlinear_arith)
            requires
                p >= 0x1_0000_0000_0000_0000,
        ;
        return None;
    }
    assert(p * p <= 0xffff_ffff_ffff_ffff * 0xffff_ffff_ffff_ffff) by (nonlinear_arith)
        requires
            p <= 0xffff_ffff_ffff_ffff,
    ;
    Some(p * p)
}

/// Scores a candidate voltage trace against a reference trace.
///
/// For each pair of neighbouring samples the trapezoid areas under the two
/// traces are compared, and the squared differences are added up.  Areas are
/// taken doubled, so the score counts quarter squared microvolt-seconds and
/// nothing is rounded.  A total beyond `u128::MAX` is reported as non-finite.
pub fn fitness_function(
    time: &[i64],
    real_voltage: &[i64],
    simulated_voltage: &[i64],
) -> (r: Result<Fitness, CalibrationError>)
    ensures
        comparable(time@, real_voltage@, simulated_voltage@) ==> r == Ok::<
            Fitness,
            CalibrationError,
        >(Fitness::of_total(trace_error(time@, real_voltage@, simulated_voltage@))),
        !comparable(time@, real_voltage@, simulated_voltage@) ==> r == Err::<
            Fitness,
            CalibrationError,
        >(CalibrationError::InvalidInput),
        comparable(time@, real_voltage@, simulated_voltage@) && real_voltage@
            == simulated_voltage@ ==> r == Ok::<Fitness, CalibrationError>(Fitness::Finite(0)),
{
    proof {
        if comparable(time@, real_voltage@, simulated_voltage@) && real_voltage@
            == simulated_voltage@ {
            lemma_self_comparison_is_zero(time@, real_voltage@);
        }
    }
    let n = time.len();
    if n < 2 || real_voltage.len() != n || simulated_voltage.len() != n {
        return Err(CalibrationError::InvalidInput);
    }
    let mut acc: u128 = 0;
    let mut k: usize = 0;
    while k < n - 1
        invariant
            n == time.len(),
            n == real_voltage.len(),
            n == simulated_voltage.len(),
            n >= 2,
            k <= n - 1,
            real_voltage@ == simulated_voltage@ ==> trace_error(
                time@,
                real_voltage@,
                simulated_voltage@,
            ) == 0,
            acc == squared_gap_sum(time@, real_voltage@, simulated_voltage@, k as nat),
        decreases n - k,
    {
        let term = squared_gap(
            time[k],
            time[k + 1],
            real_voltage[k],
            real_voltage[k + 1],
            simulated_voltage[k],
            simulated_voltage[k + 1],
        );
        proof {
            lemma_squared_gap_sum_grows(
                time@,
                real_voltage@,
                simulated_voltage@,
                (k + 1) as nat,
                (n - 1) as nat,
            );
            lemma_squared_gap_sum_grows(
                time@,
                real_voltage@,
                simulated_voltage@,
                k as nat,
                k as nat,
            );
        }
        match term {
            None => {
                return Ok(Fitness::NonFinite);
            },
            Some(v) => {
                match acc.checked_add(v) {
                    None => {
                        return Ok(Fitness::NonFinite);
                    },
                    Some(next) => {
                        acc = next;
                    },
                }
            },
        }
        k += 1;
    }
    Ok(Fitness::Finite(acc))
}

/// Scoring a trace against itself gives exactly zero.
pub proof fn lemma_self_comparison_is_zero(time: Seq<i64>, trace: Seq<i64>)
    requires
        comparable(time, trace, trace),
    ensures
        Fitness::of_total(trace_error(time, trace, trace)) == Fitness::Finite(0),
{
    lemma_identical_traces_have_no_error(time, trace, (time.len() - 1) as nat);
}

} // verus!
