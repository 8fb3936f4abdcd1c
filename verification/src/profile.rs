//! Calibration: from timed batches of operations to a hardware profile.
//!
//! Running the batches and reading clocks and sensors is the caller's part. What
//! the readings mean is computed here.
use crate::double::{Datum, Double};
use crate::ladder;
use crate::ladder::TOP;
use crate::laws;
use crate::order;
use crate::table::Table;
use crate::text;
use crate::text::append_decimal;
use crate::types::{HardwareProfile, Operation, Precision, ALL_OPERATIONS};
use vstd::arithmetic::power2::*;
use vstd::prelude::*;

verus! {

/// Cycles over operations; `otherwise` without operations.
pub open spec fn cycles_over(cycles: u64, ops: u64, otherwise: Datum) -> Datum {
    if ops > 0 {
        Datum::whole(cycles as int).over(Datum::whole(ops as int))
    } else {
        otherwise
    }
}

fn cycles_over_exec(cycles: u64, ops: u64, otherwise: Double) -> (r: Double)
    ensures
        r@ == cycles_over(cycles, ops, otherwise@),
{
    if ops > 0 {
        Double::whole(cycles).over(Double::whole(ops))
    } else {
        otherwise
    }
}

/// The sum of numbers, added up in their order.
pub open spec fn total(values: Seq<Datum>) -> Datum
    decreases values.len(),
{
    if values.len() == 0 {
        Datum::zero(false)
    } else {
        total(values.drop_last()).plus(values.last())
    }
}

/// The numbers that samples stand for.
pub open spec fn numbers(samples: Seq<Double>) -> Seq<Datum> {
    samples.map_values(|s: Double| s@)
}

/// The arithmetic mean.
pub open spec fn mean(values: Seq<Datum>) -> Datum {
    total(values).over(Datum::whole(values.len() as int))
}

/// The squares of the distances from `center`.
pub open spec fn squared_distances(values: Seq<Datum>, center: Datum) -> Seq<Datum> {
    values.map_values(|v: Datum| v.minus(center).times(v.minus(center)))
}

/// The standard deviation.
pub open spec fn standard_deviation(values: Seq<Datum>) -> Datum {
    mean(squared_distances(values, mean(values))).root()
}

/// Mean and width of the normalized deviations under calibration: centred on zero,
/// and as wide as the standard deviation relative to the mean. Where there are no
/// samples, or all are alike, the width is 0.01.
pub open spec fn utilization(values: Seq<Datum>) -> (Datum, Datum) {
    let deviation = standard_deviation(values);
    (
        Datum::zero(false),
        if values.len() == 0 || deviation.equal(Datum::zero(false)) {
            Datum::ratio(1, 100)
        } else {
            deviation.over(mean(values))
        },
    )
}

/// A number from zero to 2^64: what cycles over operations come to.
pub open spec fn plausible(x: Datum) -> bool {
    x matches Datum::Signed { negative, rung } && !negative && rung <= TOP && ladder::mag(rung)
        <= pow2(64) * ladder::one()
}

/// Timed batches of one operation.
#[derive(Debug)]
pub struct Benchmark {
    pub total_ops: u64,
    pub total_cycles: u64,
    /// Cycles per operation of each batch.
    pub samples: Vec<Double>,
}

impl Benchmark {
    /// All samples are cycles over operations.
    pub open spec fn recorded(self) -> bool {
        forall|i: int| 0 <= i < self.samples@.len() ==> plausible((#[trigger] self.samples@[i])@)
    }

    pub fn new() -> (b: Self)
        ensures
            b.recorded(),
            b.total_ops == 0,
            b.total_cycles == 0,
            b.samples@ == Seq::<Double>::empty(),
    {
        Benchmark { total_ops: 0, total_cycles: 0, samples: Vec::new() }
    }

    /// Adds a batch.
    pub fn record(&mut self, ops: u64, cycles: u64)
        requires
            old(self).total_ops + ops <= u64::MAX,
            old(self).total_cycles + cycles <= u64::MAX,
        ensures
            final(self).total_ops == old(self).total_ops + ops,
            final(self).total_cycles == old(self).total_cycles + cycles,
            numbers(final(self).samples@) == if ops > 0 {
                numbers(old(self).samples@).push(
                    Datum::whole(cycles as int).over(Datum::whole(ops as int)),
                )
            } else {
                numbers(old(self).samples@)
            },
            old(self).recorded() ==> final(self).recorded(),
    {
        proof {
            if ops > 0 {
                lemma_cycles_over(cycles, ops, Datum::zero(false));
            }
        }
        self.total_ops = self.total_ops + ops;
        self.total_cycles = self.total_cycles + cycles;
        if ops > 0 {
            self.samples.push(Double::whole(cycles).over(Double::whole(ops)));
        }
        assert(ops > 0 ==> numbers(self.samples@) =~= numbers(old(self).samples@).push(
            Datum::whole(cycles as int).over(Datum::whole(ops as int)),
        ));
    }

    /// Cycles per operation over all batches; one without operations.
    pub fn baseline(&self) -> (r: Double)
        ensures
            r@ == cycles_over(self.total_cycles, self.total_ops, Datum::whole(1)),
    {
        cycles_over_exec(self.total_cycles, self.total_ops, Double::whole(1))
    }

    /// Mean and width of the normalized deviations.
    pub fn utilization(&self) -> (r: (Double, Double))
        ensures
            (r.0@, r.1@) == utilization(numbers(self.samples@)),
    {
        let zero = Double { bits: 0 };
        let ghost values = numbers(self.samples@);
        let n = self.samples.len();
        if n == 0 {
            return (zero, Double::ratio(1, 100));
        }
        let mut sum = zero;
        let mut i: usize = 0;
        assert(values.take(0) =~= Seq::<Datum>::empty());
        while i < n
            invariant
                i <= n == self.samples.len(),
                values == numbers(self.samples@),
                sum@ == total(values.take(i as int)),
            decreases n - i,
        {
            assert(values.take(i + 1).drop_last() =~= values.take(i as int));
            sum = sum.plus(self.samples[i]);
            i = i + 1;
        }
        assert(values.take(n as int) =~= values);
        let count = Double::whole(n as u64);
        let mean = sum.over(count);
        let ghost squares = squared_distances(values, mean@);
        let mut square_sum = zero;
        let mut j: usize = 0;
        assert(squares.take(0) =~= Seq::<Datum>::empty());
        while j < n
            invariant
                j <= n == self.samples.len(),
                values == numbers(self.samples@),
                squares == squared_distances(values, mean@),
                square_sum@ == total(squares.take(j as int)),
            decreases n - j,
        {
            assert(squares.take(j + 1).drop_last() =~= squares.take(j as int));
            let distance = self.samples[j].minus(mean);
            square_sum = square_sum.plus(distance.times(distance));
            j = j + 1;
        }
        assert(squares.take(n as int) =~= squares);
        let deviation = square_sum.over(count).root();
        if deviation.equal(zero) {
            (zero, Double::ratio(1, 100))
        } else {
            (zero, deviation.over(mean))
        }
    }
}

/// Cycles per operation in the first and in the second half of a sustained load.
#[derive(Debug, Clone, Copy)]
pub struct ThermalDrift {
    /// Cycles per operation in the first half, once it is over.
    pub early: Option<Double>,
    /// Operations since the load began, or since its second half began.
    pub ops: u64,
    /// Cycles of these operations.
    pub cycles: u64,
}

impl ThermalDrift {
    /// What was noted of the first half are cycles over operations.
    pub open spec fn recorded(self) -> bool {
        self.early matches Some(e) ==> plausible(e@)
    }

    pub fn new() -> (d: Self)
        ensures
            d.recorded(),
            d == (ThermalDrift { early: None, ops: 0, cycles: 0 }),
    {
        ThermalDrift { early: None, ops: 0, cycles: 0 }
    }

    /// Adds a batch. The first one that ends in the second half still counts for the
    /// first half, and closes it.
    pub fn record(&mut self, ops: u64, cycles: u64, second_half: bool)
        requires
            old(self).ops + ops <= u64::MAX,
            old(self).cycles + cycles <= u64::MAX,
        ensures
            second_half && old(self).early is None ==> {
                &&& final(self).ops == 0
                &&& final(self).cycles == 0
                &&& final(self).early matches Some(e) && e@ == cycles_over(
                    (old(self).cycles + cycles) as u64,
                    (old(self).ops + ops) as u64,
                    Datum::whole(1),
                )
            },
            !(second_half && old(self).early is None) ==> *final(self) == (ThermalDrift {
                early: old(self).early,
                ops: (old(self).ops + ops) as u64,
                cycles: (old(self).cycles + cycles) as u64,
            }),
            old(self).recorded() ==> final(self).recorded(),
    {
        self.ops = self.ops + ops;
        self.cycles = self.cycles + cycles;
        proof {
            lemma_one_is_plausible();
            lemma_cycles_over(self.cycles, self.ops, Datum::whole(1));
        }
        if second_half && self.early.is_none() {
            self.early = Some(cycles_over_exec(self.cycles, self.ops, Double::whole(1)));
            self.ops = 0;
            self.cycles = 0;
        }
    }

    /// Cycles per operation in the first half; zero while it is not over.
    pub open spec fn early_cycles(self) -> Datum {
        match self.early {
            Some(e) => e@,
            None => Datum::zero(false),
        }
    }

    /// Cycles per operation in the second half; those of the first where it has no
    /// operations.
    pub open spec fn late_cycles(self) -> Datum {
        cycles_over(self.cycles, self.ops, self.early_cycles())
    }

    /// The relative slowdown per second; 0.001 where the first half says nothing.
    pub open spec fn slowdown(self, seconds: nat) -> Datum {
        if Datum::zero(false).less(self.early_cycles()) {
            self.late_cycles().minus(self.early_cycles()).over(self.early_cycles()).absolute().over(
                Datum::whole(seconds as int),
            )
        } else {
            Datum::ratio(1, 1000)
        }
    }

    /// The thermal coefficient that a load of so many seconds shows.
    pub fn coefficient(&self, seconds: u64) -> (r: Double)
        ensures
            r@ == self.slowdown(seconds as nat),
    {
        let zero = Double { bits: 0 };
        let early = match self.early {
            Some(e) => e,
            None => zero,
        };
        let late = cycles_over_exec(self.cycles, self.ops, early);
        if zero.less(early) {
            late.minus(early).over(early).abs().over(Double::whole(seconds))
        } else {
            Double::ratio(1, 1000)
        }
    }
}

/// Two profiles hold the same under every key but one.
pub open spec fn filed_but(p: HardwareProfile, q: HardwareProfile, key: Seq<char>) -> bool {
    &&& forall|k: Seq<char>|
        k != key ==> #[trigger] p.baseline_cycles.held(k) == q.baseline_cycles.held(k)
    &&& forall|k: Seq<char>|
        k != key ==> #[trigger] p.utilization_baselines.held(k) == q.utilization_baselines.held(k)
    &&& forall|k: Seq<char>|
        k != key ==> #[trigger] p.thermal_coefficients.held(k) == q.thermal_coefficients.held(k)
}

/// Two profiles say the same of an operation in a precision.
pub open spec fn same_filing(
    p: HardwareProfile,
    q: HardwareProfile,
    op: Operation,
    prec: Precision,
) -> bool {
    &&& p.baseline(op, prec) == q.baseline(op, prec)
    &&& p.spread(op, prec) == q.spread(op, prec)
    &&& p.thermal(op, prec) == q.thermal(op, prec)
}

/// What calibration found out about an operation is filed under its key, in all
/// three tables.
pub open spec fn filed(
    p: HardwareProfile,
    op: Operation,
    benchmark: Benchmark,
    drift: ThermalDrift,
    seconds: nat,
) -> bool {
    let key = HardwareProfile::key(op, op.own_precision());
    &&& p.baseline_cycles.held(key) matches Some(c) && c@ == cycles_over(
        benchmark.total_cycles,
        benchmark.total_ops,
        Datum::whole(1),
    )
    &&& p.utilization_baselines.held(key) matches Some(u) && (u.0@, u.1@) == utilization(
        numbers(benchmark.samples@),
    )
    &&& p.thermal_coefficients.held(key) matches Some(t) && t@ == drift.slowdown(seconds)
}

/// The keys of the first `n` operations.
pub open spec fn operation_keys(n: nat) -> Seq<Seq<char>> {
    Seq::new(
        n,
        |i: int| HardwareProfile::key(ALL_OPERATIONS@[i], ALL_OPERATIONS@[i].own_precision()),
    )
}

/// The tables of a profile have these keys, in this order.
pub open spec fn keyed(p: HardwareProfile, keys: Seq<Seq<char>>) -> bool {
    &&& p.baseline_cycles.keys() == keys
    &&& p.utilization_baselines.keys() == keys
    &&& p.thermal_coefficients.keys() == keys
}

impl HardwareProfile {
    /// A profile without operations.
    pub fn blank(cpu_model: String, calibrated_at: String, reference_temp_mc: Option<i64>) -> (p:
        Self)
        ensures
            p.cpu_model@ == cpu_model@,
            p.calibrated_at@ == calibrated_at@,
            p.reference_temp_mc == reference_temp_mc,
            keyed(p, Seq::empty()),
            forall|k: Seq<char>| #[trigger] p.baseline_cycles.held(k) is None,
            forall|k: Seq<char>| #[trigger] p.thermal_coefficients.held(k) is None,
            forall|k: Seq<char>| #[trigger] p.utilization_baselines.held(k) is None,
    {
        HardwareProfile {
            cpu_model,
            baseline_cycles: Table::new(),
            thermal_coefficients: Table::new(),
            utilization_baselines: Table::new(),
            reference_temp_mc,
            calibrated_at,
        }
    }

    /// Files what calibration found out about an operation.
    pub fn calibrate(
        &mut self,
        op: Operation,
        benchmark: &Benchmark,
        drift: &ThermalDrift,
        seconds: u64,
    )
        ensures
            final(self).cpu_model == old(self).cpu_model,
            final(self).calibrated_at == old(self).calibrated_at,
            final(self).reference_temp_mc == old(self).reference_temp_mc,
            filed(*final(self), op, *benchmark, *drift, seconds as nat),
            // Nothing else is filed or changed.
            filed_but(*final(self), *old(self), HardwareProfile::key(op, op.own_precision())),
            forall|o: Operation, p: Precision|
                !(o == op && p == op.own_precision()) ==> #[trigger] same_filing(
                    *final(self),
                    *old(self),
                    o,
                    p,
                ),
            forall|keys: Seq<Seq<char>>| #[trigger]
                keyed(*old(self), keys) ==> keyed(
                    *final(self),
                    if keys.contains(HardwareProfile::key(op, op.own_precision())) {
                        keys
                    } else {
                        keys.push(HardwareProfile::key(op, op.own_precision()))
                    },
                ),
    {
        let prec = op.default_precision();
        self.baseline_cycles.insert(HardwareProfile::op_key(op, prec), benchmark.baseline());
        self.utilization_baselines.insert(
            HardwareProfile::op_key(op, prec),
            benchmark.utilization(),
        );
        self.thermal_coefficients.insert(
            HardwareProfile::op_key(op, prec),
            drift.coefficient(seconds),
        );
        proof {
            let key = HardwareProfile::key(op, prec);
            assert forall|o: Operation, p: Precision| !(o == op && p == prec) implies #[trigger]
            same_filing(*self, *old(self), o, p) by {
                HardwareProfile::lemma_keys_distinct(o, p, op, prec);
            }
            old(self).baseline_cycles.lemma_keys(key);
            old(self).utilization_baselines.lemma_keys(key);
            old(self).thermal_coefficients.lemma_keys(key);
        }
    }

    /// The profile of all operations, from what calibration found out about each.
    pub fn assemble(
        cpu_model: String,
        calibrated_at: String,
        reference_temp_mc: Option<i64>,
        runs: &Vec<(Benchmark, ThermalDrift)>,
        seconds: u64,
    ) -> (p: Self)
        requires
            runs.len() == ALL_OPERATIONS@.len(),
        ensures
            p.cpu_model@ == cpu_model@,
            p.calibrated_at@ == calibrated_at@,
            p.reference_temp_mc == reference_temp_mc,
            forall|i: int|
                0 <= i < runs.len() ==> filed(
                    p,
                    ALL_OPERATIONS@[i],
                    (#[trigger] runs@[i]).0,
                    runs@[i].1,
                    seconds as nat,
                ),
            // The operations, and nothing else, are filed.
            keyed(p, operation_keys(ALL_OPERATIONS@.len())),
            forall|k: Seq<char>| #[trigger]
                p.baseline_cycles.held(k) is Some <==> operation_keys(
                    ALL_OPERATIONS@.len(),
                ).contains(k),
            forall|k: Seq<char>| #[trigger]
                p.utilization_baselines.held(k) is Some <==> operation_keys(
                    ALL_OPERATIONS@.len(),
                ).contains(k),
            forall|k: Seq<char>| #[trigger]
                p.thermal_coefficients.held(k) is Some <==> operation_keys(
                    ALL_OPERATIONS@.len(),
                ).contains(k),
    {
        let mut p = HardwareProfile::blank(cpu_model, calibrated_at, reference_temp_mc);
        let mut i: usize = 0;
        assert(operation_keys(0) =~= Seq::<Seq<char>>::empty());
        while i < ALL_OPERATIONS.len()
            invariant
                i <= ALL_OPERATIONS@.len(),
                runs.len() == ALL_OPERATIONS@.len(),
                p.cpu_model@ == cpu_model@,
                p.calibrated_at@ == calibrated_at@,
                p.reference_temp_mc == reference_temp_mc,
                keyed(p, operation_keys(i as nat)),
                forall|j: int|
                    0 <= j < i ==> filed(
                        p,
                        ALL_OPERATIONS@[j],
                        (#[trigger] runs@[j]).0,
                        runs@[j].1,
                        seconds as nat,
                    ),
            decreases ALL_OPERATIONS@.len() - i,
        {
            let op = ALL_OPERATIONS[i];
            let ghost before = p;
            p.calibrate(op, &runs[i].0, &runs[i].1, seconds);
            proof {
                let key = HardwareProfile::key(op, op.own_precision());
                assert forall|j: int| 0 <= j < i implies operation_keys(i as nat)[j] != key by {
                    let o = ALL_OPERATIONS@[j];
                    assert(o != op);
                    HardwareProfile::lemma_keys_distinct(
                        o,
                        o.own_precision(),
                        op,
                        op.own_precision(),
                    );
                }
                assert(operation_keys((i + 1) as nat) =~= operation_keys(i as nat).push(key));
                assert forall|j: int| 0 <= j < i implies filed(
                    p,
                    ALL_OPERATIONS@[j],
                    (#[trigger] runs@[j]).0,
                    runs@[j].1,
                    seconds as nat,
                ) by {
                    let o = ALL_OPERATIONS@[j];
                    let k = HardwareProfile::key(o, o.own_precision());
                    assert(operation_keys(i as nat)[j] == k);
                    assert(p.baseline_cycles.held(k) == before.baseline_cycles.held(k));
                    assert(p.utilization_baselines.held(k) == before.utilization_baselines.held(k));
                    assert(p.thermal_coefficients.held(k) == before.thermal_coefficients.held(k));
                }
            }
            i = i + 1;
        }
        proof {
            assert forall|k: Seq<char>| #[trigger]
                p.baseline_cycles.held(k) is Some <==> operation_keys(
                    ALL_OPERATIONS@.len(),
                ).contains(k) by {
                p.baseline_cycles.lemma_keys(k);
            }
            assert forall|k: Seq<char>| #[trigger]
                p.utilization_baselines.held(k) is Some <==> operation_keys(
                    ALL_OPERATIONS@.len(),
                ).contains(k) by {
                p.utilization_baselines.lemma_keys(k);
            }
            assert forall|k: Seq<char>| #[trigger]
                p.thermal_coefficients.held(k) is Some <==> operation_keys(
                    ALL_OPERATIONS@.len(),
                ).contains(k) by {
                p.thermal_coefficients.lemma_keys(k);
            }
        }
        p
    }
}

/// One is a plausible number of cycles.
proof fn lemma_one_is_plausible()
    ensures
        plausible(Datum::whole(1)),
{
    let one = ladder::one();
    laws::lemma_whole(1);
    lemma2_to64();
    assert(1 * one <= pow2(64) * one) by (nonlinear_arith)
        requires
            pow2(64) >= 1,
    ;
}

/// Cycles over operations are a number, not below zero and at most 2^64.
pub proof fn lemma_cycles_over(cycles: u64, ops: u64, otherwise: Datum)
    requires
        ops > 0 || plausible(otherwise),
    ensures
        plausible(cycles_over(cycles, ops, otherwise)),
        !cycles_over(cycles, ops, otherwise).less(Datum::zero(false)),
{
    let one = ladder::one();
    lemma2_to64();
    lemma_pow2_pos(1074);
    ladder::lemma_positive(0);
    if ops > 0 {
        let w = laws::lemma_whole(1);
        assert(1 * one <= ops * one && 0 <= cycles * one) by (nonlinear_arith)
            requires
                ops >= 1,
        ;
        let c = laws::lemma_whole_rounded(cycles as nat, 0);
        let o = laws::lemma_whole_rounded(ops as nat, w);
        let top = ladder::lemma_on_ladder(1, 1138);
        lemma_pow2_adds(64, 1074);
        ladder::lemma_positive(o);
        assert(ladder::mag(c) * one <= ladder::mag(top) * ladder::mag(o)) by (nonlinear_arith)
            requires
                ladder::mag(c) <= ladder::mag(top),
                one <= ladder::mag(o),
        {
            assert(ladder::mag(c) * one <= ladder::mag(top) * one);
            assert(ladder::mag(top) * one <= ladder::mag(top) * ladder::mag(o));
        }
        ladder::lemma_round_at_most(top, ladder::mag(c) * one, ladder::mag(o));
        order::lemma_mag_monotone(ladder::round(ladder::mag(c) * one, ladder::mag(o)), top);
    }
}

/// The rung of 2^118. A sum of plausible numbers never exceeds it: there they are less
/// than half a step.
spec fn sum_limit() -> nat {
    0x4750_0000_0000_0000
}

/// What is at most 2^118 lies below infinity.
proof fn lemma_sum_limit()
    ensures
        ladder::mag(sum_limit()) == pow2(118) * ladder::one(),
        ladder::mag(sum_limit()) == pow2(1192),
        ladder::round(pow2(118) * ladder::one() + pow2(64) * ladder::one(), 1) == sum_limit(),
        forall|rung: nat| #[trigger]
            ladder::mag(rung) <= pow2(118) * ladder::one() ==> rung <= sum_limit(),
{
    let top = sum_limit();
    lemma2_to64();
    lemma_pow2_adds(20, 32);
    lemma_pow2_adds(52, 1140);
    lemma_pow2_adds(118, 1074);
    lemma_pow2_adds(64, 1074);
    lemma_pow2_adds(1, 1138);
    lemma_pow2_adds(1, 1139);
    lemma_pow2_pos(1138);
    assert(ladder::exponent(top) == 1140);
    assert(ladder::mag(top) == 0x10_0000_0000_0000 * pow2(1140));
    ladder::lemma_step(top);
    ladder::lemma_step((top - 1) as nat);
    ladder::lemma_round(top, pow2(118) * ladder::one() + pow2(64) * ladder::one(), 1);
    assert forall|rung: nat| #[trigger]
        ladder::mag(rung) <= pow2(118) * ladder::one() implies rung <= sum_limit() by {
        if rung > top {
            ladder::lemma_mag_increasing(top, rung);
        }
    }
}

/// All of these are plausible.
pub open spec fn all_plausible(values: Seq<Datum>) -> bool {
    forall|i: int| 0 <= i < values.len() ==> plausible(#[trigger] values[i])
}

/// A number from zero to 2^118.
spec fn summed(x: Datum) -> bool {
    x matches Datum::Signed { negative, rung } && !negative && rung <= sum_limit()
}

/// However many plausible numbers are added up, the sum stays finite.
proof fn lemma_total(values: Seq<Datum>)
    requires
        all_plausible(values),
    ensures
        summed(total(values)),
    decreases values.len(),
{
    if values.len() > 0 {
        let one = ladder::one();
        let earlier = values.drop_last();
        assert forall|i: int| 0 <= i < earlier.len() implies plausible(#[trigger] earlier[i]) by {
            assert(earlier[i] == values[i]);
        }
        lemma_total(earlier);
        lemma_sum_limit();
        lemma2_to64();
        lemma_pow2_pos(1074);
        ladder::lemma_positive(0);
        assert(plausible(values.last()));
        if let (Datum::Signed { rung: a, .. }, Datum::Signed { rung: b, .. }) = (
            total(earlier),
            values.last(),
        ) {
            lemma_pow2_adds(54, 64);
            lemma_pow2_pos(54);
            assert(pow2(64) * one <= pow2(118) * one) by (nonlinear_arith)
                requires
                    pow2(118) == pow2(54) * pow2(64),
                    pow2(54) >= 1,
            {
                assert(pow2(54) * pow2(64) >= pow2(64));
            }
            assert(b <= sum_limit());
            order::lemma_mag_monotone(a, sum_limit());
            let sum = ladder::mag(a) + ladder::mag(b);
            ladder::lemma_round_monotone(
                sum,
                1,
                pow2(118) * one + pow2(64) * one,
                1,
            );
        }
    }
}

/// The mean of plausible numbers is finite and not negative.
proof fn lemma_mean(values: Seq<Datum>)
    requires
        all_plausible(values),
        0 < values.len() <= u64::MAX,
    ensures
        summed(mean(values)),
{
    let one = ladder::one();
    let w = laws::lemma_whole(1);
    lemma_pow2_pos(1074);
    lemma_total(values);
    assert(1 * one <= values.len() * one) by (nonlinear_arith)
        requires
            values.len() >= 1,
    ;
    let o = laws::lemma_whole_rounded(values.len(), w);
    ladder::lemma_positive(o);
    if let Datum::Signed { rung: t, .. } = total(values) {
        order::lemma_mag_monotone(t, sum_limit());
        assert(ladder::mag(t) * one <= ladder::mag(sum_limit()) * ladder::mag(o))
            by (nonlinear_arith)
            requires
                ladder::mag(t) <= ladder::mag(sum_limit()),
                one <= ladder::mag(o),
        {
            assert(ladder::mag(t) * one <= ladder::mag(sum_limit()) * one);
            assert(ladder::mag(sum_limit()) * one <= ladder::mag(sum_limit()) * ladder::mag(o));
        }
        ladder::lemma_round_at_most(sum_limit(), ladder::mag(t) * one, ladder::mag(o));
    }
}

/// A number that is not negative.
spec fn unsigned(x: Datum) -> bool {
    x matches Datum::Signed { negative, rung } && !negative && rung <= TOP
}

/// A sum of numbers that are not negative is one.
proof fn lemma_unsigned_total(values: Seq<Datum>)
    requires
        forall|i: int| 0 <= i < values.len() ==> unsigned(#[trigger] values[i]),
    ensures
        unsigned(total(values)),
    decreases values.len(),
{
    if values.len() > 0 {
        let earlier = values.drop_last();
        assert forall|i: int| 0 <= i < earlier.len() implies unsigned(#[trigger] earlier[i]) by {
            assert(earlier[i] == values[i]);
        }
        lemma_unsigned_total(earlier);
        assert(unsigned(values.last()));
        if let (Datum::Signed { rung: a, .. }, Datum::Signed { rung: b, .. }) = (
            total(earlier),
            values.last(),
        ) {
            ladder::lemma_rounds_to_nearest(ladder::mag(a) + ladder::mag(b), 1);
        }
    }
}

/// The standard deviation of plausible numbers is a number that is not negative; where
/// it is not zero, it is not below 2^-537.
proof fn lemma_standard_deviation(values: Seq<Datum>)
    requires
        all_plausible(values),
        0 < values.len() <= u64::MAX,
    ensures
        unsigned(standard_deviation(values)),
        standard_deviation(values) matches Datum::Signed { rung, .. } && (rung == 0 || ladder::mag(
            rung,
        ) >= pow2(537)),
{
    let one = ladder::one();
    let center = mean(values);
    let squares = squared_distances(values, center);
    lemma_pow2_pos(1074);
    ladder::lemma_positive(0);
    lemma_mean(values);
    lemma_sum_limit();
    lemma2_to64();
    assert forall|i: int| 0 <= i < squares.len() implies unsigned(#[trigger] squares[i]) by {
        let v = values[i];
        assert(plausible(v));
        if let Datum::Signed { rung: b, .. } = v {
            lemma_pow2_adds(54, 64);
            lemma_pow2_pos(54);
            assert(pow2(64) * one <= pow2(118) * one) by (nonlinear_arith)
                requires
                    pow2(118) == pow2(54) * pow2(64),
                    pow2(54) >= 1,
            {
                assert(pow2(54) * pow2(64) >= pow2(64));
            }
            assert(b <= sum_limit());
        }
        order::lemma_minus_monotone(center, center, v);
        let distance = v.minus(center);
        if let Datum::Signed { rung: a, .. } = distance {
            ladder::lemma_rounds_to_nearest(ladder::mag(a) * ladder::mag(a), one);
        }
    }
    lemma_unsigned_total(squares);
    let w = laws::lemma_whole(1);
    assert(1 * one <= squares.len() * one) by (nonlinear_arith)
        requires
            squares.len() >= 1,
    ;
    let o = laws::lemma_whole_rounded(squares.len(), w);
    ladder::lemma_positive(o);
    if let Datum::Signed { rung: t, .. } = total(squares) {
        ladder::lemma_rounds_to_nearest(ladder::mag(t) * one, ladder::mag(o));
    }
    let variance = mean(squares);
    assert(unsigned(variance));
    if let Datum::Signed { rung: x, .. } = variance {
        let low = ladder::lemma_on_ladder(1, 537);
        lemma_pow2_adds(537, 537);
        ladder::lemma_positive(x);
        if 0 < x < TOP {
            assert(ladder::mag(low) * ladder::mag(low) <= ladder::mag(x) * one)
                by (nonlinear_arith)
                requires
                    ladder::mag(low) == pow2(537),
                    pow2(537) * pow2(537) == one,
                    ladder::mag(x) >= 1,
            ;
            ladder::lemma_root_at_least(low, ladder::mag(x) * one);
            order::lemma_mag_monotone(low, ladder::root(ladder::mag(x) * one));
        } else if x == TOP {
            order::lemma_mag_monotone(low, TOP as nat);
        }
    }
}

/// The width that calibration files is above zero, so that no standard score divides
/// by zero. The mean that it files is zero.
pub proof fn lemma_width_is_positive(values: Seq<Datum>)
    requires
        all_plausible(values),
        values.len() <= u64::MAX,
    ensures
        utilization(values).0 == Datum::zero(false),
        Datum::zero(false).less(utilization(values).1),
{
    let one = ladder::one();
    lemma_pow2_pos(1074);
    ladder::lemma_positive(0);
    lemma2_to64();
    // The default width.
    let small = ladder::lemma_on_ladder(1, 1066);
    lemma_pow2_pos(1066);
    lemma_pow2_adds(8, 1066);
    ladder::lemma_round_at_least(small, 1 * one, 100);
    ladder::lemma_positive(small);
    ladder::lemma_positive(ladder::round(1 * one, 100));
    if values.len() > 0 {
        lemma_standard_deviation(values);
        lemma_mean(values);
        lemma_sum_limit();
        if let (Datum::Signed { rung: d, .. }, Datum::Signed { rung: c, .. }) = (
            standard_deviation(values),
            mean(values),
        ) {
            ladder::lemma_positive(d);
            ladder::lemma_positive(TOP as nat);
            if 0 < d < TOP && c > 0 {
                let least = ladder::lemma_on_ladder(1, 0);
                ladder::lemma_positive(c);
                order::lemma_mag_monotone(c, sum_limit());
                lemma_pow2_strictly_increases(1192, 1611);
                lemma_pow2_adds(537, 1074);
                assert(1 * pow2(0) == 1);
                assert(ladder::mag(least) * ladder::mag(c) <= ladder::mag(d) * one)
                    by (nonlinear_arith)
                    requires
                        ladder::mag(least) == 1,
                        ladder::mag(c) <= pow2(1611),
                        pow2(1611) == pow2(537) * one,
                        ladder::mag(d) >= pow2(537),
                ;
                ladder::lemma_round_at_least(least, ladder::mag(d) * one, ladder::mag(c));
                ladder::lemma_positive(least);
                ladder::lemma_positive(ladder::round(ladder::mag(d) * one, ladder::mag(c)));
            }
        }
    }
}

/// The thermal coefficient that calibration files is a number that is not below zero.
pub proof fn lemma_slowdown_is_not_negative(drift: ThermalDrift, seconds: nat)
    requires
        drift.recorded(),
        0 < seconds <= u64::MAX,
    ensures
        drift.slowdown(seconds).number(),
        !drift.slowdown(seconds).less(Datum::zero(false)),
{
    let one = ladder::one();
    let early = drift.early_cycles();
    let late = drift.late_cycles();
    lemma_pow2_pos(1074);
    lemma2_to64();
    ladder::lemma_positive(0);
    assert(0 <= pow2(64) * one);
    lemma_cycles_over(drift.cycles, drift.ops, early);
    ladder::lemma_rounds_to_nearest(1 * one, 1000);
    if Datum::zero(false).less(early) {
        lemma_plausible_is_finite(early);
        lemma_plausible_is_finite(late);
        order::lemma_minus_monotone(early, early, late);
        let gap = late.minus(early);
        order::lemma_over_monotone(gap, gap, early, early);
        let size = gap.over(early).absolute();
        let w = laws::lemma_whole(1);
        assert(1 * one <= seconds * one) by (nonlinear_arith)
            requires
                seconds >= 1,
        ;
        let s = laws::lemma_whole_rounded(seconds, w);
        ladder::lemma_positive(s);
        order::lemma_over_monotone(size, size, Datum::whole(seconds as int), Datum::whole(seconds as int));
    }
}

pub proof fn lemma_plausible_is_finite(x: Datum)
    requires
        plausible(x),
    ensures
        x.finite(),
{
    let top = ladder::lemma_on_ladder(1, 1138);
    lemma_pow2_adds(64, 1074);
    if let Datum::Signed { rung, .. } = x {
        if rung > top {
            ladder::lemma_mag_increasing(top, rung);
        }
    }
}

/// What calibration files makes sense: a baseline and a thermal coefficient that are
/// numbers and not below zero, and a spread around zero that is wider than zero.
pub proof fn lemma_filing_makes_sense(
    p: HardwareProfile,
    op: Operation,
    benchmark: Benchmark,
    drift: ThermalDrift,
    seconds: nat,
)
    requires
        filed(p, op, benchmark, drift, seconds),
        benchmark.recorded(),
        benchmark.samples@.len() <= u64::MAX,
        drift.recorded(),
        0 < seconds <= u64::MAX,
    ensures
        p.baseline(op, op.own_precision()).number(),
        !p.baseline(op, op.own_precision()).less(Datum::zero(false)),
        p.thermal(op, op.own_precision()).number(),
        !p.thermal(op, op.own_precision()).less(Datum::zero(false)),
        p.spread(op, op.own_precision()).0 == Datum::zero(false),
        Datum::zero(false).less(p.spread(op, op.own_precision()).1),
{
    let values = numbers(benchmark.samples@);
    lemma_one_is_plausible();
    lemma_cycles_over(benchmark.total_cycles, benchmark.total_ops, Datum::whole(1));
    assert forall|i: int| 0 <= i < values.len() implies plausible(#[trigger] values[i]) by {
        assert(plausible(benchmark.samples@[i]@));
    }
    lemma_width_is_positive(values);
    lemma_slowdown_is_not_negative(drift, seconds);
}

/// The moment of calibration as it is filed.
pub fn epoch_stamp(seconds: u64) -> (s: String)
    ensures
        s@ == text::decimal(seconds as nat) + "s since epoch"@,
{
    let mut s: String = String::new();
    append_decimal(&mut s, seconds as u128);
    s.append("s since epoch");
    assert(s@ =~= text::decimal(seconds as nat) + "s since epoch"@);
    s
}

} // verus!
