//! The data of the pipeline: operations, measurements, the stages' results, the
//! hardware profile, predictions and reports.
use crate::double::{Datum, Double};
use crate::fold;
use crate::render;
use crate::render::append_fixed;
use crate::table::Table;
use vstd::prelude::*;

verus! {

/// A constraint operation that is measured.
#[derive(Debug, Clone, Copy, PartialEq, Eq, Hash, Structural)]
pub enum Operation {
    Int8PackedVnni,
    Int32Scalar,
    Fp64Norm,
    EisensteinMultiply,
}

/// The number format that an operation works in.
#[derive(Debug, Clone, Copy, PartialEq, Eq, Hash, Structural)]
pub enum Precision {
    Int8,
    Int32,
    Fp64,
    Eisenstein,
}

/// All operations, in the order in which they are profiled.
pub const ALL_OPERATIONS: [Operation; 4] = [
    Operation::Int8PackedVnni,
    Operation::Int32Scalar,
    Operation::Fp64Norm,
    Operation::EisensteinMultiply,
];

impl Operation {
    /// The name under which an operation is reported.
    pub open spec fn name(self) -> Seq<char> {
        match self {
            Operation::Int8PackedVnni => "INT8-PACKED-VNNI"@,
            Operation::Int32Scalar => "INT32-SCALAR"@,
            Operation::Fp64Norm => "FP64-NORM"@,
            Operation::EisensteinMultiply => "EISENSTEIN-MUL"@,
        }
    }

    /// The name under which an operation is reported.
    pub fn label(&self) -> (s: &'static str)
        ensures
            s@ == self.name(),
    {
        match self {
            Operation::Int8PackedVnni => "INT8-PACKED-VNNI",
            Operation::Int32Scalar => "INT32-SCALAR",
            Operation::Fp64Norm => "FP64-NORM",
            Operation::EisensteinMultiply => "EISENSTEIN-MUL",
        }
    }

    /// The name of the variant.
    pub open spec fn variant_name(self) -> Seq<char> {
        match self {
            Operation::Int8PackedVnni => "Int8PackedVnni"@,
            Operation::Int32Scalar => "Int32Scalar"@,
            Operation::Fp64Norm => "Fp64Norm"@,
            Operation::EisensteinMultiply => "EisensteinMultiply"@,
        }
    }

    /// The name of the variant.
    pub fn variant(&self) -> (s: &'static str)
        ensures
            s@ == self.variant_name(),
    {
        match self {
            Operation::Int8PackedVnni => "Int8PackedVnni",
            Operation::Int32Scalar => "Int32Scalar",
            Operation::Fp64Norm => "Fp64Norm",
            Operation::EisensteinMultiply => "EisensteinMultiply",
        }
    }

    /// The precision that an operation is measured in.
    pub open spec fn own_precision(self) -> Precision {
        match self {
            Operation::Int8PackedVnni => Precision::Int8,
            Operation::Int32Scalar => Precision::Int32,
            Operation::Fp64Norm => Precision::Fp64,
            Operation::EisensteinMultiply => Precision::Eisenstein,
        }
    }

    /// The precision that an operation is measured in.
    pub fn default_precision(&self) -> (p: Precision)
        ensures
            p == self.own_precision(),
    {
        match self {
            Operation::Int8PackedVnni => Precision::Int8,
            Operation::Int32Scalar => Precision::Int32,
            Operation::Fp64Norm => Precision::Fp64,
            Operation::EisensteinMultiply => Precision::Eisenstein,
        }
    }
}

impl Precision {
    /// The name under which a precision is reported.
    pub open spec fn name(self) -> Seq<char> {
        match self {
            Precision::Int8 => "i8"@,
            Precision::Int32 => "i32"@,
            Precision::Fp64 => "f64"@,
            Precision::Eisenstein => "eis"@,
        }
    }

    /// The name under which a precision is reported.
    pub fn label(&self) -> (s: &'static str)
        ensures
            s@ == self.name(),
    {
        match self {
            Precision::Int8 => "i8",
            Precision::Int32 => "i32",
            Precision::Fp64 => "f64",
            Precision::Eisenstein => "eis",
        }
    }
}

/// A raw measurement from hardware.
#[derive(Debug, Clone, Copy)]
pub struct RawMeasurement {
    pub timestamp_ns: u64,
    pub operation: Operation,
    pub cycles: u64,
    pub precision: Precision,
    pub value: i64,
    pub op_count: u64,
    /// The CPU temperature in thousandths of a degree C, where it is known.
    pub temp_mc: Option<i64>,
}

impl RawMeasurement {
    /// The difference to a reference temperature is within the range of `i64`.
    pub open spec fn comparable(self, reference_mc: Option<i64>) -> bool {
        match (self.temp_mc, reference_mc) {
            (Some(t), Some(r)) => i64::MIN <= t - r <= i64::MAX,
            _ => true,
        }
    }

    /// Whether the difference to a reference temperature is within the range of `i64`.
    pub fn is_comparable(&self, reference_mc: Option<i64>) -> (r: bool)
        ensures
            r == self.comparable(reference_mc),
    {
        match (self.temp_mc, reference_mc) {
            (Some(t), Some(r)) => t.checked_sub(r).is_some(),
            _ => true,
        }
    }

    /// The difference to a reference temperature in degrees C.
    pub open spec fn warming(self, reference_mc: i64) -> Option<Datum> {
        match self.temp_mc {
            Some(t) => Some(Datum::whole(t - reference_mc).over(Datum::whole(1000))),
            None => None,
        }
    }

    /// The temperature difference to a reference in degrees C, or `None` where the
    /// temperature is not known.
    pub fn temp_delta_c(&self, reference_mc: i64) -> (r: Option<Double>)
        requires
            self.comparable(Some(reference_mc)),
        ensures
            r is Some <==> self.temp_mc is Some,
            r matches Some(d) ==> Some(d@) == self.warming(reference_mc),
    {
        match self.temp_mc {
            Some(t) => Some(
                Double::whole_signed(t - reference_mc).over(Double::whole(1000)),
            ),
            None => None,
        }
    }
}

/// Stage 1: cycles per operation, free of clock frequency.
#[derive(Debug, Clone, Copy)]
pub struct CycleNormalized {
    pub cycles_per_op: Double,
    pub operation: Operation,
    pub precision: Precision,
}

/// Stage 2: deviation from the expected throughput, free of instruction count.
#[derive(Debug, Clone, Copy)]
pub struct ThroughputModel {
    pub ops_per_cycle: Double,
    pub precision: Precision,
    pub expected_ops_per_cycle: Double,
    pub deviation: Double,
}

/// Stage 3: deviation free of temperature effects.
#[derive(Debug, Clone, Copy)]
pub struct ThermalBaseline {
    pub normalized_deviation: Double,
    pub precision: Precision,
    pub thermal_coefficient: Double,
    pub thermal_adjustment_applied: Double,
}

/// Stage 4: anomaly score, free of load variation.
#[derive(Debug, Clone, Copy)]
pub struct UtilizationFingerprint {
    pub anomaly_score: Double,
    pub precision: Precision,
    pub confidence: Double,
    pub z_score: Double,
}

/// Stage 5: the binary decision.
#[derive(Debug, Clone, Copy)]
pub enum Decision {
    Normal,
    Anomalous(Double),
}

impl Decision {
    pub fn is_anomalous(&self) -> (r: bool)
        ensures
            r == (self is Anomalous),
    {
        match self {
            Decision::Normal => false,
            Decision::Anomalous(_) => true,
        }
    }

    /// The score of a decision: zero for a normal one.
    pub open spec fn strength(self) -> Datum {
        match self {
            Decision::Normal => Datum::zero(false),
            Decision::Anomalous(s) => s@,
        }
    }

    pub fn score(&self) -> (r: Double)
        ensures
            r@ == self.strength(),
    {
        match self {
            Decision::Normal => Double { bits: 0 },
            Decision::Anomalous(s) => *s,
        }
    }

    /// The same decision, with the same score.
    pub open spec fn same(self, other: Decision) -> bool {
        &&& self is Anomalous <==> other is Anomalous
        &&& self.strength() == other.strength()
    }

    /// A decision as it is reported.
    pub open spec fn text(self) -> Seq<char> {
        match self {
            Decision::Normal => "NORMAL"@,
            Decision::Anomalous(s) => "ANOMALOUS("@ + render::fixed(s@, 4) + ")"@,
        }
    }

    /// A decision as it is reported.
    pub fn label(&self) -> (s: String)
        ensures
            s@ == self.text(),
    {
        match self {
            Decision::Normal => "NORMAL".to_string(),
            Decision::Anomalous(score) => {
                let mut s: String = "ANOMALOUS(".to_string();
                append_fixed(&mut s, *score, 4);
                s.append(")");
                s
            },
        }
    }
}

/// What calibration found out about the hardware.
#[derive(Debug, Clone)]
pub struct HardwareProfile {
    pub cpu_model: String,
    /// Cycles per operation.
    pub baseline_cycles: Table<Double>,
    /// Relative slowdown per degree.
    pub thermal_coefficients: Table<Double>,
    /// Mean and standard deviation of normalized deviations.
    pub utilization_baselines: Table<(Double, Double)>,
    /// The temperature during calibration in thousandths of a degree C.
    pub reference_temp_mc: Option<i64>,
    pub calibrated_at: String,
}

impl HardwareProfile {
    /// The key under which an operation is filed.
    pub open spec fn key(op: Operation, prec: Precision) -> Seq<char> {
        op.name() + "/"@ + prec.name()
    }

    /// The key under which an operation is filed.
    pub fn op_key(op: Operation, prec: Precision) -> (s: String)
        ensures
            s@ == HardwareProfile::key(op, prec),
    {
        let mut s: String = op.label().to_string();
        s.append("/");
        s.append(prec.label());
        s
    }

    /// Different operations and precisions are filed under different keys.
    pub proof fn lemma_keys_distinct(
        op: Operation,
        prec: Precision,
        other_op: Operation,
        other_prec: Precision,
    )
        ensures
            HardwareProfile::key(op, prec) == HardwareProfile::key(other_op, other_prec) ==> op
                == other_op && prec == other_prec,
    {
        reveal_strlit("/");
        reveal_strlit("INT8-PACKED-VNNI");
        reveal_strlit("INT32-SCALAR");
        reveal_strlit("FP64-NORM");
        reveal_strlit("EISENSTEIN-MUL");
        reveal_strlit("i8");
        reveal_strlit("i32");
        reveal_strlit("f64");
        reveal_strlit("eis");
        let a = HardwareProfile::key(op, prec);
        let b = HardwareProfile::key(other_op, other_prec);
        let m = op.name().len() as int;
        let n = other_op.name().len() as int;
        if a == b {
            assert(a[m] == '/' && b[n] == '/');
            if m < n {
                assert(b[m] == other_op.name()[m]);
            } else if n < m {
                assert(a[n] == op.name()[n]);
            }
            assert(op == other_op);
            assert(a[m + 1] == prec.name()[0] && b[m + 1] == other_prec.name()[0]);
            assert(a[m + 2] == prec.name()[1] && b[m + 2] == other_prec.name()[1]);
        }
    }

    /// Calibrated cycles per operation; one where the operation was not profiled.
    pub open spec fn baseline(self, op: Operation, prec: Precision) -> Datum {
        match self.baseline_cycles.held(HardwareProfile::key(op, prec)) {
            Some(c) => c@,
            None => Datum::whole(1),
        }
    }

    /// Calibrated thermal coefficient; 0.001 where the operation was not profiled.
    pub open spec fn thermal(self, op: Operation, prec: Precision) -> Datum {
        match self.thermal_coefficients.held(HardwareProfile::key(op, prec)) {
            Some(c) => c@,
            None => Datum::ratio(1, 1000),
        }
    }

    /// Mean and standard deviation of the normalized deviations; zero and 0.1
    /// where the operation was not profiled.
    pub open spec fn spread(self, op: Operation, prec: Precision) -> (Datum, Datum) {
        match self.utilization_baselines.held(HardwareProfile::key(op, prec)) {
            Some(b) => (b.0@, b.1@),
            None => (Datum::zero(false), Datum::ratio(1, 10)),
        }
    }

    pub fn get_baseline_cycles(&self, op: Operation, prec: Precision) -> (r: Double)
        ensures
            r@ == self.baseline(op, prec),
    {
        let key = HardwareProfile::op_key(op, prec);
        match self.baseline_cycles.get(&key) {
            Some(c) => c,
            None => Double::whole(1),
        }
    }

    pub fn get_thermal_coefficient(&self, op: Operation, prec: Precision) -> (r: Double)
        ensures
            r@ == self.thermal(op, prec),
    {
        let key = HardwareProfile::op_key(op, prec);
        match self.thermal_coefficients.get(&key) {
            Some(c) => c,
            None => Double::ratio(1, 1000),
        }
    }

    /// The mean and the standard deviation of normalized deviations.
    pub fn get_utilization_baseline(&self, op: Operation, prec: Precision) -> (r: (Double, Double))
        ensures
            (r.0@, r.1@) == self.spread(op, prec),
    {
        let key = HardwareProfile::op_key(op, prec);
        match self.utilization_baselines.get(&key) {
            Some(b) => b,
            None => (Double { bits: 0 }, Double::ratio(1, 10)),
        }
    }
}

/// Where a report stands in its life.
#[derive(Debug, Clone, Copy, PartialEq, Eq, Structural)]
pub enum TileState {
    Active,
    Retracted,
}

/// Report of an anomaly.
#[derive(Debug)]
pub struct Anomaly {
    pub measurement: RawMeasurement,
    pub anomaly_score: Double,
    /// The stage that flagged the measurement.
    pub stage: usize,
    pub description: String,
    pub tile_state: TileState,
    /// The logical time of the report.
    pub lamport: u64,
}

/// What a report says.
pub ghost struct Report {
    pub measurement: RawMeasurement,
    pub score: Datum,
    pub stage: usize,
    pub description: Seq<char>,
    pub tile_state: TileState,
    pub lamport: u64,
}

impl View for Anomaly {
    type V = Report;

    open spec fn view(&self) -> Report {
        Report {
            measurement: self.measurement,
            score: self.anomaly_score@,
            stage: self.stage,
            description: self.description@,
            tile_state: self.tile_state,
            lamport: self.lamport,
        }
    }
}

/// What a report says, if there is one.
pub open spec fn said(a: Option<Anomaly>) -> Option<Report> {
    match a {
        Some(a) => Some(a@),
        None => None,
    }
}

impl Clone for Anomaly {
    fn clone(&self) -> (a: Self)
        ensures
            a == *self,
    {
        Anomaly {
            measurement: self.measurement,
            anomaly_score: self.anomaly_score,
            stage: self.stage,
            description: self.description.clone(),
            tile_state: self.tile_state,
            lamport: self.lamport,
        }
    }
}

impl Anomaly {
    /// An active report without a logical time.
    pub fn new(
        measurement: RawMeasurement,
        anomaly_score: Double,
        stage: usize,
        description: String,
    ) -> (a: Self)
        ensures
            a@ == (Report {
                measurement,
                score: anomaly_score@,
                stage,
                description: description@,
                tile_state: TileState::Active,
                lamport: 0,
            }),
            a.anomaly_score == anomaly_score,
    {
        Anomaly {
            measurement,
            anomaly_score,
            stage,
            description,
            tile_state: TileState::Active,
            lamport: 0,
        }
    }

    /// Takes the report back, and notes why.
    pub fn retract(&mut self, reason: &str)
        ensures
            final(self)@ == (Report {
                tile_state: TileState::Retracted,
                description: old(self)@.description + " [RETRACTED: "@ + reason@ + "]"@,
                ..old(self)@
            }),
            final(self).anomaly_score == old(self).anomaly_score,
    {
        self.tile_state = TileState::Retracted;
        self.description.append(" [RETRACTED: ");
        self.description.append(reason);
        self.description.append("]");
    }
}

/// Statistics of a detector.
#[derive(Debug, Clone, Copy)]
pub struct DetectorStats {
    pub total_measurements: usize,
    pub anomalies_detected: usize,
    pub buffer_fill: usize,
    pub anomaly_rate: Double,
}

/// Cycles per operation as a detector compares them: `otherwise` for a measurement
/// without operations.
pub open spec fn observed_cycles(m: RawMeasurement, otherwise: Datum) -> Datum {
    if m.op_count > 0 {
        Datum::whole(m.cycles as int).over(Datum::whole(m.op_count as int))
    } else {
        otherwise
    }
}

impl RawMeasurement {
    /// Cycles per operation, or `otherwise` without operations.
    pub fn observed_cycles(&self, otherwise: Double) -> (r: Double)
        ensures
            r@ == observed_cycles(*self, otherwise@),
    {
        if self.op_count > 0 {
            Double::whole(self.cycles).over(Double::whole(self.op_count))
        } else {
            otherwise
        }
    }
}

/// What an operation is expected to cost, said before it runs.
#[derive(Debug, Clone, Copy)]
pub struct PredictedMeasurement {
    pub operation: Operation,
    pub precision: Precision,
    pub expected_cycles_per_op: Double,
    /// How many standard deviations the operation may be off.
    pub tolerance_sigma: Double,
    /// Time to the event in nanoseconds.
    pub t_minus_event_ns: Option<u64>,
    /// The logical time of the prediction.
    pub lamport: u64,
    pub confirmed: bool,
    /// The relative deviation of the measurement that the prediction was held against.
    pub actual_deviation: Option<Double>,
}

impl PredictedMeasurement {
    /// The relative deviation of a measurement from what was expected.
    pub open spec fn deviation(self, m: RawMeasurement) -> Datum {
        fold::relative_deviation(
            observed_cycles(m, self.expected_cycles_per_op@),
            self.expected_cycles_per_op@,
        )
    }

    /// The largest deviation that still confirms the prediction.
    pub open spec fn tolerance(self, p: HardwareProfile) -> Datum {
        self.tolerance_sigma@.times(p.spread(self.operation, self.precision).1)
    }

    /// A measurement within tolerance.
    pub open spec fn met_by(self, m: RawMeasurement, p: HardwareProfile) -> bool {
        let size = self.deviation(m).absolute();
        size.less(self.tolerance(p)) || size.equal(self.tolerance(p))
    }

    /// The same prediction in the same state.
    pub open spec fn alike(self, other: PredictedMeasurement) -> bool {
        &&& self.operation == other.operation
        &&& self.precision == other.precision
        &&& self.expected_cycles_per_op@ == other.expected_cycles_per_op@
        &&& self.tolerance_sigma@ == other.tolerance_sigma@
        &&& self.t_minus_event_ns == other.t_minus_event_ns
        &&& self.lamport == other.lamport
        &&& self.confirmed == other.confirmed
        &&& match (self.actual_deviation, other.actual_deviation) {
            (Some(x), Some(y)) => x@ == y@,
            (None, None) => true,
            _ => false,
        }
    }

    /// Everything but what holding against a measurement sets is as in `other`.
    pub open spec fn same_prediction(self, other: PredictedMeasurement) -> bool {
        self == PredictedMeasurement {
            confirmed: self.confirmed,
            actual_deviation: self.actual_deviation,
            ..other
        }
    }

    /// This is `before` after it was held against a measurement.
    pub open spec fn checked_against(
        self,
        before: PredictedMeasurement,
        m: RawMeasurement,
        p: HardwareProfile,
    ) -> bool {
        &&& self.same_prediction(before)
        &&& self.confirmed == before.met_by(m, p)
        &&& self.actual_deviation matches Some(d) && d@ == before.deviation(m)
    }

    /// Holds the prediction against a measurement. It is confirmed if the relative
    /// deviation is within the tolerated number of standard deviations.
    pub fn confirm(&mut self, m: &RawMeasurement, profile: &HardwareProfile) -> (r: bool)
        ensures
            final(self).checked_against(*old(self), *m, *profile),
            r == final(self).confirmed,
    {
        let zero = Double { bits: 0 };
        let expected = self.expected_cycles_per_op;
        let actual = m.observed_cycles(expected);
        let deviation = if zero.less(expected) {
            actual.minus(expected).over(expected)
        } else {
            zero
        };
        let (_, std_dev) = profile.get_utilization_baseline(self.operation, self.precision);
        let tolerance = self.tolerance_sigma.times(std_dev);
        let size = deviation.abs();
        self.actual_deviation = Some(deviation);
        self.confirmed = size.less(tolerance) || size.equal(tolerance);
        self.confirmed
    }
}

/// A Lamport clock: logical time for causal order across agents.
#[derive(Debug, Clone, Copy)]
pub struct LamportClock {
    pub time: u64,
}

impl LamportClock {
    pub fn new() -> (c: Self)
        ensures
            c.time == 0,
    {
        LamportClock { time: 0 }
    }

    /// Advances to the time of a local event.
    pub fn tick(&mut self) -> (t: u64)
        requires
            old(self).time < u64::MAX,
        ensures
            final(self).time == old(self).time + 1,
            t == final(self).time,
    {
        self.time = self.time + 1;
        self.time
    }

    /// Advances past a time that was received from elsewhere.
    pub fn merge(&mut self, remote: u64) -> (t: u64)
        requires
            old(self).time < u64::MAX,
            remote < u64::MAX,
        ensures
            final(self).time == 1 + if old(self).time < remote {
                remote
            } else {
                old(self).time
            },
            t == final(self).time,
            t > old(self).time && t > remote,
    {
        let latest = if self.time < remote {
            remote
        } else {
            self.time
        };
        self.time = latest + 1;
        self.time
    }
}

} // verus!
