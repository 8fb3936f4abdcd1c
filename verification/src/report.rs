//! The lines that the program prints.
use crate::agreement;
use crate::double::{Datum, Double};
use crate::fold;
use crate::fold::VerboseFoldResult;
use crate::render;
use crate::render::append_fixed;
use crate::text;
use crate::text::{append_at_left, append_at_right, append_decimal};
use crate::types::{
    Anomaly, Decision, DetectorStats, HardwareProfile, Operation, RawMeasurement,
};
use vstd::prelude::*;

verus! {

/// The line on an anomaly under live monitoring.
pub fn anomaly_line(a: &Anomaly) -> (s: String)
    ensures
        s@ == "⚠ ANOMALY: "@ + a.measurement.operation.name() + " score="@ + render::fixed(
            a.anomaly_score@,
            4,
        ) + " — "@ + a.description@,
{
    let mut s: String = "⚠ ANOMALY: ".to_string();
    s.append(a.measurement.operation.label());
    s.append(" score=");
    append_fixed(&mut s, a.anomaly_score, 4);
    s.append(" — ");
    s.append(a.description.as_str());
    s
}

/// A share in percent.
pub open spec fn percent(share: Datum) -> Datum {
    share.times(Datum::whole(100))
}

/// The running counts under live monitoring.
pub fn status_line(op: Operation, stats: &DetectorStats) -> (s: String)
    ensures
        s@ == "["@ + op.name() + "] "@ + text::decimal(stats.total_measurements as nat)
            + " samples, "@ + text::decimal(stats.anomalies_detected as nat) + " anomalies ("@
            + render::fixed(percent(stats.anomaly_rate@), 2) + "%)"@,
{
    let mut s: String = "[".to_string();
    s.append(op.label());
    s.append("] ");
    append_decimal(&mut s, stats.total_measurements as u128);
    s.append(" samples, ");
    append_decimal(&mut s, stats.anomalies_detected as u128);
    s.append(" anomalies (");
    append_fixed(&mut s, stats.anomaly_rate.times(Double::whole(100)), 2);
    s.append("%)");
    s
}

/// The number of results with an anomalous decision.
pub open spec fn anomalous_count(results: Seq<VerboseFoldResult>) -> nat
    decreases results.len(),
{
    if results.len() == 0 {
        0
    } else {
        anomalous_count(results.drop_last()) + if results.last().decision is Anomalous {
            1nat
        } else {
            0nat
        }
    }
}

/// The number of anomalous results.
pub fn count_anomalies(results: &Vec<VerboseFoldResult>) -> (n: usize)
    ensures
        n == anomalous_count(results@),
        n == results@.filter(|r: VerboseFoldResult| r.decision is Anomalous).len(),
        n <= results.len(),
{
    proof {
        lemma_anomalous_count(results@);
    }
    let mut n: usize = 0;
    let mut i: usize = 0;
    assert(results@.take(0) =~= Seq::<VerboseFoldResult>::empty());
    while i < results.len()
        invariant
            n <= i <= results.len(),
            n == anomalous_count(results@.take(i as int)),
        decreases results.len() - i,
    {
        assert(results@.take(i + 1).drop_last() =~= results@.take(i as int));
        if results[i].decision.is_anomalous() {
            n = n + 1;
        }
        i = i + 1;
    }
    assert(results@.take(results@.len() as int) =~= results@);
    n
}

/// The number of anomalous decisions.
pub open spec fn anomalous_decisions(decisions: Seq<Decision>) -> nat
    decreases decisions.len(),
{
    if decisions.len() == 0 {
        0
    } else {
        anomalous_decisions(decisions.drop_last()) + if decisions.last() is Anomalous {
            1nat
        } else {
            0nat
        }
    }
}

/// The number of anomalous decisions.
pub fn count_decisions(decisions: &Vec<Decision>) -> (n: usize)
    ensures
        n == anomalous_decisions(decisions@),
        n == decisions@.filter(|d: Decision| d is Anomalous).len(),
{
    proof {
        lemma_anomalous_decisions(decisions@);
    }
    let mut n: usize = 0;
    let mut i: usize = 0;
    assert(decisions@.take(0) =~= Seq::<Decision>::empty());
    while i < decisions.len()
        invariant
            n <= i <= decisions.len(),
            n == anomalous_decisions(decisions@.take(i as int)),
        decreases decisions.len() - i,
    {
        assert(decisions@.take(i + 1).drop_last() =~= decisions@.take(i as int));
        if decisions[i].is_anomalous() {
            n = n + 1;
        }
        i = i + 1;
    }
    assert(decisions@.take(decisions@.len() as int) =~= decisions@);
    n
}

/// The count of anomalous decisions is the number of decisions that are anomalous.
pub proof fn lemma_anomalous_decisions(decisions: Seq<Decision>)
    ensures
        anomalous_decisions(decisions) == decisions.filter(|d: Decision| d is Anomalous).len(),
        anomalous_decisions(decisions) <= decisions.len(),
        (forall|i: int| 0 <= i < decisions.len() ==> #[trigger] decisions[i] is Anomalous)
            <==> anomalous_decisions(decisions) == decisions.len(),
        (forall|i: int| 0 <= i < decisions.len() ==> #[trigger] decisions[i] is Normal)
            <==> anomalous_decisions(decisions) == 0,
    decreases decisions.len(),
{
    reveal(Seq::filter);
    if decisions.len() > 0 {
        let earlier = decisions.drop_last();
        let n = decisions.len() - 1;
        lemma_anomalous_decisions(earlier);
        assert(decisions[n] == decisions.last());
        assert(forall|i: int| 0 <= i < n ==> earlier[i] == #[trigger] decisions[i]);
        if anomalous_decisions(decisions) == decisions.len() {
            assert forall|i: int| 0 <= i < decisions.len() implies #[trigger] decisions[i] is Anomalous by {
                if i < n {
                    assert(earlier[i] is Anomalous);
                }
            }
        }
        if anomalous_decisions(decisions) == 0 {
            assert forall|i: int| 0 <= i < decisions.len() implies #[trigger] decisions[i] is Normal by {
                if i < n {
                    assert(earlier[i] is Normal);
                }
            }
        }
    }
}

/// The count of anomalous results is the number of results with an anomalous decision.
pub proof fn lemma_anomalous_count(results: Seq<VerboseFoldResult>)
    ensures
        anomalous_count(results) == results.filter(
            |r: VerboseFoldResult| r.decision is Anomalous,
        ).len(),
        anomalous_count(results) <= results.len(),
    decreases results.len(),
{
    reveal(Seq::filter);
    if results.len() > 0 {
        lemma_anomalous_count(results.drop_last());
    }
}

/// As many results are counted as anomalous as there are anomalous decisions among them.
pub proof fn lemma_counts_agree(results: Seq<VerboseFoldResult>, decisions: Seq<Decision>)
    requires
        results.len() == decisions.len(),
        forall|i: int|
            0 <= i < results.len() ==> ((#[trigger] results[i]).decision is Anomalous
                <==> decisions[i] is Anomalous),
    ensures
        anomalous_count(results) == anomalous_decisions(decisions),
    decreases results.len(),
{
    if results.len() > 0 {
        let n = results.len() - 1;
        assert(results[n] == results.last() && decisions[n] == decisions.last());
        assert forall|i: int| 0 <= i < n implies ((#[trigger] results.drop_last()[i]).decision is Anomalous
            <==> decisions.drop_last()[i] is Anomalous) by {
            assert(results[i] == results.drop_last()[i]);
        }
        lemma_counts_agree(results.drop_last(), decisions.drop_last());
    }
}

/// An analysis counts as many anomalies as folding finds in the same measurements.
pub proof fn lemma_analysis_counts_what_folding_finds<E: Fn(Double) -> Double>(
    measurements: Seq<RawMeasurement>,
    p: HardwareProfile,
    exp: E,
    results: Seq<VerboseFoldResult>,
    decisions: Seq<Decision>,
)
    requires
        fold::single_valued(exp),
        fold::records_all(measurements, p, exp, results),
        fold::folds_all(measurements, p, exp, decisions),
    ensures
        anomalous_count(results) == decisions.filter(|d: Decision| d is Anomalous).len(),
{
    agreement::lemma_verbose_is_fold(measurements, p, exp, results, decisions);
    lemma_counts_agree(results, decisions);
    lemma_anomalous_decisions(decisions);
}

/// Anomalies in percent of all results; zero without results.
pub open spec fn anomaly_percent(anomalies: nat, all: nat) -> Datum {
    if all == 0 {
        Datum::zero(false)
    } else {
        Datum::whole(anomalies as int).over(Datum::whole(all as int)).times(Datum::whole(100))
    }
}

/// The summary of an analysis.
pub fn analysis_summary(results: &Vec<VerboseFoldResult>) -> (s: String)
    ensures
        s@ == "Results: "@ + text::decimal(results@.len()) + " total, "@ + text::decimal(
            anomalous_count(results@),
        ) + " anomalies ("@ + render::fixed(
            anomaly_percent(anomalous_count(results@), results@.len()),
            1,
        ) + "%)"@,
{
    let anomalies = count_anomalies(results);
    let share = if results.len() == 0 {
        Double { bits: 0 }
    } else {
        Double::whole(anomalies as u64).over(Double::whole(results.len() as u64)).times(
            Double::whole(100),
        )
    };
    let mut s: String = "Results: ".to_string();
    append_decimal(&mut s, results.len() as u128);
    s.append(" total, ");
    append_decimal(&mut s, anomalies as u128);
    s.append(" anomalies (");
    append_fixed(&mut s, share, 1);
    s.append("%)");
    s
}

/// A number at the right of a column, after a space.
pub open spec fn cell(x: Datum, places: nat, width: nat) -> Seq<char> {
    " "@ + text::at_right(render::fixed(x, places), width)
}

fn append_cell(s: &mut String, x: Double, places: u32, width: usize)
    requires
        1 <= places <= 6,
    ensures
        final(s)@ == old(s)@ + cell(x@, places as nat, width as nat),
{
    let mut number: String = String::new();
    append_fixed(&mut number, x, places);
    assert(number@ =~= render::fixed(x@, places as nat));
    s.append(" ");
    append_at_right(s, number.as_str(), width);
    assert(s@ =~= old(s)@ + cell(x@, places as nat, width as nat));
}

/// The row of an analysis on one measurement.
pub fn analysis_row(r: &VerboseFoldResult) -> (s: String)
    ensures
        s@ == text::at_left(r.measurement.operation.name(), 20) + cell(r.cycles_per_op@, 2, 12)
            + cell(r.deviation@, 4, 10) + cell(r.normalized_deviation@, 4, 10) + cell(
            r.z_score@,
            2,
            8,
        ) + cell(r.anomaly_score@, 4, 8) + " "@ + r.decision.text(),
{
    let mut s: String = String::new();
    append_at_left(&mut s, r.measurement.operation.label(), 20);
    assert(s@ =~= text::at_left(r.measurement.operation.name(), 20));
    append_cell(&mut s, r.cycles_per_op, 2, 12);
    append_cell(&mut s, r.deviation, 4, 10);
    append_cell(&mut s, r.normalized_deviation, 4, 10);
    append_cell(&mut s, r.z_score, 2, 8);
    append_cell(&mut s, r.anomaly_score, 4, 8);
    s.append(" ");
    s.append(r.decision.label().as_str());
    s
}

/// The line on the baseline filed under a key.
pub fn baseline_line(key: &str, cycles: Double) -> (s: String)
    ensures
        s@ == "  "@ + key@ + ": "@ + render::fixed(cycles@, 2) + " cycles/op"@,
{
    let mut s: String = "  ".to_string();
    s.append(key);
    s.append(": ");
    append_fixed(&mut s, cycles, 2);
    s.append(" cycles/op");
    s
}

/// A temperature in degrees C, given in thousandths of a degree.
pub fn temperature(temp_mc: i64) -> (s: String)
    ensures
        s@ == render::fixed(Datum::whole(temp_mc as int).over(Datum::whole(1000)), 1) + "°C"@,
{
    let mut s: String = String::new();
    append_fixed(&mut s, Double::whole_signed(temp_mc).over(Double::whole(1000)), 1);
    s.append("°C");
    assert(s@ =~= render::fixed(Datum::whole(temp_mc as int).over(Datum::whole(1000)), 1) + "°C"@);
    s
}

/// A count of anomalies with its share, to so many places.
pub fn anomaly_count(stats: &DetectorStats, places: u32) -> (s: String)
    requires
        1 <= places <= 6,
    ensures
        s@ == text::decimal(stats.anomalies_detected as nat) + " anomalies ("@ + render::fixed(
            percent(stats.anomaly_rate@),
            places as nat,
        ) + "%)"@,
{
    let mut s: String = String::new();
    append_decimal(&mut s, stats.anomalies_detected as u128);
    s.append(" anomalies (");
    append_fixed(&mut s, stats.anomaly_rate.times(Double::whole(100)), places);
    s.append("%)");
    assert(s@ =~= text::decimal(stats.anomalies_detected as nat) + " anomalies ("@ + render::fixed(
        percent(stats.anomaly_rate@),
        places as nat,
    ) + "%)"@);
    s
}

/// The line on an injected anomaly that was detected.
pub fn detection_line(sample: u64, score: Double) -> (s: String)
    ensures
        s@ == "  ⚠ Detected at sample "@ + text::decimal(sample as nat) + ": score="@
            + render::fixed(score@, 4),
{
    let mut s: String = "  ⚠ Detected at sample ".to_string();
    append_decimal(&mut s, sample as u128);
    s.append(": score=");
    append_fixed(&mut s, score, 4);
    s
}

} // verus!
