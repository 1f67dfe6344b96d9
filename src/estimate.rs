use vstd::prelude::*;

verus! {

/// Full scale of a utilization: 100% in hundredths of a percent.
pub const FULL_SCALE: u32 = 10000;

/// Saturating difference of two cumulative counters: a counter that went
/// backwards (a reset or a wrap) yields no progress rather than a negative one.
pub fn counter_delta(previous: u64, current: u64) -> (r: u64)
    ensures
        r == if current >= previous { current - previous } else { 0 },
{
    if current >= previous {
        current - previous
    } else {
        0
    }
}

pub open spec fn sum(s: Seq<u64>) -> int
    decreases s.len(),
{
    if s.len() == 0 {
        0
    } else {
        sum(s.drop_last()) + s.last()
    }
}

proof fn lemma_sum_prefix_le(s: Seq<u64>, i: int)
    requires
        0 <= i <= s.len(),
    ensures
        sum(s.subrange(0, i)) <= sum(s),
    decreases s.len() - i,
{
    if i < s.len() {
        lemma_sum_prefix_le(s, i + 1);
        assert(s.subrange(0, i + 1).drop_last() =~= s.subrange(0, i));
    } else {
        assert(s.subrange(0, i) =~= s);
    }
}

/// Total idle residency of one CPU: the sum of the cumulative times of its
/// idle states, or nothing when the sum does not fit in 64 bits.
pub fn total_idle_time(times: &Vec<u64>) -> (r: Option<u64>)
    ensures
        r == if sum(times@) <= u64::MAX { Some(sum(times@) as u64) } else { None::<u64> },
{
    let mut total: u64 = 0;
    let mut i: usize = 0;
    while i < times.len()
        invariant
            i <= times@.len(),
            total == sum(times@.subrange(0, i as int)),
        decreases times@.len() - i,
    {
        proof {
            assert(times@.subrange(0, i + 1).drop_last() =~= times@.subrange(0, i as int));
        }
        match total.checked_add(times[i]) {
            Some(t) => {
                total = t;
            },
            None => {
                proof {
                    lemma_sum_prefix_le(times@, i + 1);
                }
                return None;
            },
        }
        i += 1;
    }
    proof {
        assert(times@.subrange(0, i as int) =~= times@);
    }
    Some(total)
}

/// Utilization over an interval of `elapsed` microseconds of which `idle`
/// were spent idle, in hundredths of a percent, rounded down:
/// 100 × (1 − idle / elapsed), clamped to [0, 100].
pub open spec fn busy_fraction(idle: int, elapsed: int) -> int {
    if idle >= elapsed {
        0
    } else {
        (elapsed - idle) * FULL_SCALE / elapsed
    }
}

/// Converts an idle-time delta over an interval into a utilization in
/// hundredths of a percent.
pub fn utilization_from_idle(idle_delta: u64, elapsed_micros: u64) -> (r: u32)
    requires
        elapsed_micros > 0,
    ensures
        r == busy_fraction(idle_delta as int, elapsed_micros as int),
        r <= FULL_SCALE,
{
    if idle_delta >= elapsed_micros {
        return 0;
    }
    let busy: u128 = (elapsed_micros - idle_delta) as u128;
    assert(busy * 10000 <= 0x1_0000_0000_0000_0000 * 10000) by (nonlinear_arith)
        requires
            busy <= 0x1_0000_0000_0000_0000,
    ;
    let scaled: u128 = busy * (FULL_SCALE as u128);
    let q: u128 = scaled / (elapsed_micros as u128);
    proof {
        let e = elapsed_micros as int;
        let b = busy as int;
        assert(b * 10000 <= e * 10000) by (nonlinear_arith)
            requires
                b <= e,
        ;
        assert((b * 10000) / e <= 10000) by (nonlinear_arith)
            requires
                b * 10000 <= e * 10000,
                e > 0,
        ;
    }
    q as u32
}

/// Threshold of frequency mode, in kHz: the point `percent` of the way from
/// `min_khz` to `max_khz`, rounded down.
pub open spec fn frequency_threshold(percent: int, min_khz: int, max_khz: int) -> int {
    percent * (max_khz - min_khz) / 100 + min_khz
}

/// Turns a threshold percentage into an absolute scaling frequency, for
/// estimating load from the current frequency instead of idle residency.
pub fn frequency_threshold_khz(percent: u8, min_khz: u64, max_khz: u64) -> (r: u64)
    requires
        percent <= 100,
        min_khz <= max_khz,
    ensures
        r == frequency_threshold(percent as int, min_khz as int, max_khz as int),
        min_khz <= r <= max_khz,
{
    let span: u128 = (max_khz - min_khz) as u128;
    assert((percent as u128) * span <= 100 * 0x1_0000_0000_0000_0000) by (nonlinear_arith)
        requires
            percent <= 100,
            span <= 0x1_0000_0000_0000_0000,
    ;
    let part: u128 = (percent as u128) * span / 100;
    proof {
        let p = percent as int;
        let s = span as int;
        assert(p * s <= 100 * s) by (nonlinear_arith)
            requires
                p <= 100,
                s >= 0,
        ;
        assert((p * s) / 100 <= s) by (nonlinear_arith)
            requires
                p * s <= 100 * s,
        ;
        assert((p * s) / 100 >= 0) by (nonlinear_arith)
            requires
                p >= 0,
                s >= 0,
        ;
    }
    min_khz + part as u64
}

} // verus!
