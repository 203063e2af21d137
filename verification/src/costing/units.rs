//! Fixed-point units of the routing model: distances in millimetres, times in
//! milliseconds, speeds in micrometres per millisecond and penalties in parts
//! per million. Every operation is total: additions saturate, a division
//! that cannot be carried out yields `None`, and a penalty product that
//! overflows yields the zero time.

use std::ops::{Add, Div, Mul};
use vstd::prelude::*;
use vstd::std_specs::convert::FromSpecImpl;
use vstd::std_specs::ops::{AddSpecImpl, DivSpecImpl, MulSpecImpl};

verus! {

/// Micrometres in a millimetre; also milliseconds in a second.
pub const THOUSAND: u64 = 1000;

/// The denominator of a parts-per-million factor.
pub const MILLION: u64 = 1_000_000;

/// The direction in which a way is travelled, relative to its geometry.
#[derive(Debug, Clone, Copy, PartialEq, Eq, Structural)]
pub enum Direction {
    Forward,
    Reverse,
}

/// The sum of two `u64` values, held at `u64::MAX` when it would exceed it.
pub open spec fn saturating_sum(a: u64, b: u64) -> u64 {
    if a + b > u64::MAX {
        u64::MAX
    } else {
        (a + b) as u64
    }
}

/// A distance travelled, in millimetres.
#[derive(Debug, Clone, Copy, PartialEq, Eq, PartialOrd, Ord, Hash, Structural)]
pub struct TravelledDistance(pub u64);

impl TravelledDistance {
    pub open spec fn spec_mm(&self) -> u64 {
        self.0
    }

    #[verifier::when_used_as_spec(spec_mm)]
    pub fn mm(&self) -> (mm: u64)
        ensures
            mm == self.0,
    {
        self.0
    }

    pub fn zero() -> (distance: TravelledDistance)
        ensures
            distance.0 == 0,
    {
        TravelledDistance(0)
    }
}

impl From<u64> for TravelledDistance {
    fn from(mm: u64) -> (distance: TravelledDistance) {
        TravelledDistance(mm)
    }
}

impl FromSpecImpl<u64> for TravelledDistance {
    open spec fn obeys_from_spec() -> bool {
        true
    }

    open spec fn from_spec(mm: u64) -> TravelledDistance {
        TravelledDistance(mm)
    }
}

impl Add for TravelledDistance {
    type Output = TravelledDistance;

    fn add(self, rhs: TravelledDistance) -> (sum: TravelledDistance) {
        TravelledDistance(self.0.saturating_add(rhs.0))
    }
}

impl AddSpecImpl for TravelledDistance {
    open spec fn obeys_add_spec() -> bool {
        true
    }

    open spec fn add_req(self, rhs: TravelledDistance) -> bool {
        true
    }

    open spec fn add_spec(self, rhs: TravelledDistance) -> TravelledDistance {
        TravelledDistance(saturating_sum(self.0, rhs.0))
    }
}

/// Time elapsed, in milliseconds.
#[derive(Debug, Clone, Copy, PartialEq, Eq, PartialOrd, Ord, Hash, Structural)]
pub struct ElapsedTime(pub u64);

impl ElapsedTime {
    pub open spec fn spec_ms(&self) -> u64 {
        self.0
    }

    #[verifier::when_used_as_spec(spec_ms)]
    pub fn ms(&self) -> (ms: u64)
        ensures
            ms == self.0,
    {
        self.0
    }

    pub fn zero() -> (time: ElapsedTime)
        ensures
            time.0 == 0,
    {
        ElapsedTime(0)
    }

    /// The time that lasts `ms` milliseconds.
    pub fn from_millis(ms: u64) -> (time: ElapsedTime)
        ensures
            time.0 == ms,
    {
        ElapsedTime(ms)
    }
}

impl Add for ElapsedTime {
    type Output = ElapsedTime;

    fn add(self, rhs: ElapsedTime) -> (sum: ElapsedTime) {
        ElapsedTime(self.0.saturating_add(rhs.0))
    }
}

impl AddSpecImpl for ElapsedTime {
    open spec fn obeys_add_spec() -> bool {
        true
    }

    open spec fn add_req(self, rhs: ElapsedTime) -> bool {
        true
    }

    open spec fn add_spec(self, rhs: ElapsedTime) -> ElapsedTime {
        ElapsedTime(saturating_sum(self.0, rhs.0))
    }
}

/// A travel speed, in micrometres per millisecond (millimetres per second).
#[derive(Debug, Clone, Copy, PartialEq, Eq, PartialOrd, Ord, Hash, Structural)]
pub struct TravelSpeed {
    pub um_per_ms: u32,
}

impl TravelSpeed {
    /// The speed of `um_per_ms` micrometres per millisecond.
    pub fn from_um_per_ms(um_per_ms: u32) -> (speed: TravelSpeed)
        ensures
            speed.um_per_ms == um_per_ms,
    {
        TravelSpeed { um_per_ms }
    }

    pub fn um_per_ms(&self) -> (um_per_ms: u32)
        ensures
            um_per_ms == self.um_per_ms,
    {
        self.um_per_ms
    }

    /// The slower of the two speeds.
    pub fn min(&self, other: &TravelSpeed) -> (slower: TravelSpeed)
        ensures
            slower.um_per_ms == if self.um_per_ms <= other.um_per_ms {
                self.um_per_ms
            } else {
                other.um_per_ms
            },
    {
        if self.um_per_ms <= other.um_per_ms {
            TravelSpeed { um_per_ms: self.um_per_ms }
        } else {
            TravelSpeed { um_per_ms: other.um_per_ms }
        }
    }
}

/// The time needed to cover `distance` at `speed`, rounded down to whole
/// milliseconds: `None` where the speed is zero or the distance in
/// micrometres does not fit 64 bits.
pub open spec fn travel_time(distance: TravelledDistance, speed: TravelSpeed) -> Option<
    ElapsedTime,
> {
    if speed.um_per_ms == 0 || distance.0 * THOUSAND > u64::MAX {
        None
    } else {
        Some(ElapsedTime(((distance.0 * THOUSAND) / (speed.um_per_ms as int)) as u64))
    }
}

impl Div<TravelSpeed> for TravelledDistance {
    type Output = Option<ElapsedTime>;

    fn div(self, rhs: TravelSpeed) -> (time: Option<ElapsedTime>) {
        if rhs.um_per_ms == 0 {
            return None;
        }
        match self.0.checked_mul(THOUSAND) {
            None => None,
            Some(micrometers) => {
                let speed: u64 = rhs.um_per_ms as u64;
                Some(ElapsedTime(micrometers / speed))
            },
        }
    }
}

impl DivSpecImpl<TravelSpeed> for TravelledDistance {
    open spec fn obeys_div_spec() -> bool {
        true
    }

    open spec fn div_req(self, rhs: TravelSpeed) -> bool {
        true
    }

    open spec fn div_spec(self, rhs: TravelSpeed) -> Option<ElapsedTime> {
        travel_time(self, rhs)
    }
}

/// A penalty factor, in millionths.
#[derive(Debug, Clone, Copy, PartialEq, Eq, PartialOrd, Ord, Hash, Structural)]
pub struct PartsPerMillion(pub u32);

impl PartsPerMillion {
    pub fn of(ppm: u32) -> (factor: PartsPerMillion)
        ensures
            factor.0 == ppm,
    {
        PartsPerMillion(ppm)
    }

    pub fn ppm(&self) -> (ppm: u32)
        ensures
            ppm == self.0,
    {
        self.0
    }
}

impl Default for PartsPerMillion {
    fn default() -> (factor: PartsPerMillion)
        ensures
            factor.0 == 0,
    {
        PartsPerMillion(0)
    }
}

/// The sum of two `u32` values, held at `u32::MAX` when it would exceed it.
pub open spec fn saturating_sum_u32(a: u32, b: u32) -> u32 {
    if a + b > u32::MAX {
        u32::MAX
    } else {
        (a + b) as u32
    }
}

impl Add for PartsPerMillion {
    type Output = PartsPerMillion;

    fn add(self, rhs: PartsPerMillion) -> (sum: PartsPerMillion) {
        PartsPerMillion(self.0.saturating_add(rhs.0))
    }
}

impl AddSpecImpl for PartsPerMillion {
    open spec fn obeys_add_spec() -> bool {
        true
    }

    open spec fn add_req(self, rhs: PartsPerMillion) -> bool {
        true
    }

    open spec fn add_spec(self, rhs: PartsPerMillion) -> PartsPerMillion {
        PartsPerMillion(saturating_sum_u32(self.0, rhs.0))
    }
}

/// The share `factor` of `time`, rounded down to whole milliseconds; the zero
/// time where the product does not fit 64 bits.
pub open spec fn penalty_time(time: ElapsedTime, factor: PartsPerMillion) -> ElapsedTime {
    if time.0 * factor.0 > u64::MAX {
        ElapsedTime(0)
    } else {
        ElapsedTime(((time.0 * factor.0) / (MILLION as int)) as u64)
    }
}

impl Mul<PartsPerMillion> for ElapsedTime {
    type Output = ElapsedTime;

    fn mul(self, rhs: PartsPerMillion) -> (share: ElapsedTime) {
        let factor: u64 = rhs.0 as u64;
        match self.0.checked_mul(factor) {
            None => ElapsedTime(0),
            Some(product) => ElapsedTime(product / MILLION),
        }
    }
}

impl MulSpecImpl<PartsPerMillion> for ElapsedTime {
    open spec fn obeys_mul_spec() -> bool {
        true
    }

    open spec fn mul_req(self, rhs: PartsPerMillion) -> bool {
        true
    }

    open spec fn mul_spec(self, rhs: PartsPerMillion) -> ElapsedTime {
        penalty_time(self, rhs)
    }
}

/// A distance made from a number of millimetres holds that number.
pub proof fn lemma_distance_round_trip(mm: u64)
    ensures
        <TravelledDistance as vstd::std_specs::convert::FromSpec<u64>>::from_spec(mm).mm() == mm,
{
}

/// Dividing a distance by a speed agrees with the exact quotient to within
/// one millisecond: the result is the exact time rounded down. It is owed
/// whenever the speed is positive and the distance in micrometres fits 64
/// bits.
pub proof fn lemma_travel_time_within_one_ms(distance: TravelledDistance, speed: TravelSpeed)
    requires
        speed.um_per_ms > 0,
        distance.0 * THOUSAND <= u64::MAX,
    ensures
        travel_time(distance, speed) matches Some(time) && time.ms() * speed.um_per_ms
            <= distance.mm() * THOUSAND < (time.ms() + 1) * speed.um_per_ms,
{
    let n = distance.0 * THOUSAND;
    let d = speed.um_per_ms as int;
    vstd::arithmetic::div_mod::lemma_fundamental_div_mod(n, d);
    vstd::arithmetic::div_mod::lemma_mod_bound(n, d);
    vstd::arithmetic::div_mod::lemma_div_pos_is_pos(n, d);
    assert(n / d <= n) by {
        vstd::arithmetic::div_mod::lemma_div_is_ordered_by_denominator(n, 1, d);
        vstd::arithmetic::div_mod::lemma_div_basics(n);
    }
    assert((n / d + 1) * d == d * (n / d) + d) by (nonlinear_arith);
    assert((n / d) * d == d * (n / d)) by (nonlinear_arith);
}

} // verus!
