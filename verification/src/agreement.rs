//! That runs agree: with an exponential that has one result for each argument, what
//! the pipeline and the detectors return depends on their inputs alone.
use crate::detector;
use crate::detector::{Watch, Window, MINIMUM_FILL};
use crate::double::{Datum, Double, SIGN};
use crate::fold;
use crate::fold::VerboseFoldResult;
use crate::ladder::BINADE;
use crate::laws;
use crate::types::{
    Decision, DetectorStats, HardwareProfile, Operation, Precision, PredictedMeasurement,
    RawMeasurement, Report,
};
use vstd::prelude::*;

verus! {

/// Two doubles that are the same number, sign included, are the same.
proof fn lemma_same_bits(x: Double, y: Double)
    requires
        x@ == y@,
        x@ is Signed,
    ensures
        x == y,
{
    assert(x.bits == y.bits) by {
        assert(x.bits as nat % (SIGN as nat) == y.bits as nat % (SIGN as nat));
    }
}

/// In the tail the exponential that is given is determined.
proof fn lemma_tail_determined<E: Fn(Double) -> Double>(
    exp: E,
    distance: Datum,
    tail: Datum,
    other: Datum,
)
    requires
        fold::single_valued(exp),
        distance.number(),
        fold::in_tail(distance),
        fold::tail_given(exp, distance, tail),
        fold::tail_given(exp, distance, other),
    ensures
        tail == other,
{
    laws::lemma_tail_argument(distance, distance);
    let (x, y) = choose|x: Double, y: Double| #[trigger]
        exp.ensures((x,), y) && x@ == fold::tail_argument(distance) && y@ == tail;
    let (u, v) = choose|u: Double, v: Double| #[trigger]
        exp.ensures((u,), v) && u@ == fold::tail_argument(distance) && v@ == other;
    lemma_same_bits(x, u);
    assert(exp.ensures((x,), v));
}

/// The pipeline comes to one decision on a measurement.
pub proof fn lemma_decision_determined<E: Fn(Double) -> Double>(
    m: RawMeasurement,
    p: HardwareProfile,
    exp: E,
    d: Decision,
    e: Decision,
)
    requires
        fold::single_valued(exp),
        fold::folds(m, p, exp, d),
        fold::folds(m, p, exp, e),
    ensures
        d.same(e),
{
    lemma_same_score_same_decision(m, m, p, exp, d, e);
}

/// Measurements with the same standard score are decided alike.
proof fn lemma_same_score_same_decision<E: Fn(Double) -> Double>(
    m: RawMeasurement,
    n: RawMeasurement,
    p: HardwareProfile,
    exp: E,
    d: Decision,
    e: Decision,
)
    requires
        fold::single_valued(exp),
        fold::z_score_of(m, p) == fold::z_score_of(n, p),
        fold::folds(m, p, exp, d),
        fold::folds(n, p, exp, e),
    ensures
        d.same(e),
{
    let distance = fold::z_score_of(m, p).absolute();
    let tail = choose|tail: Datum| #[trigger]
        fold::tail_given(exp, distance, tail) && fold::decides(
            d,
            fold::anomaly_score(distance, tail),
            fold::confidence(distance),
        );
    let other = choose|tail: Datum| #[trigger]
        fold::tail_given(exp, distance, tail) && fold::decides(
            e,
            fold::anomaly_score(distance, tail),
            fold::confidence(distance),
        );
    if fold::in_tail(distance) {
        laws::lemma_z_score_on_ladder(m, p);
        lemma_tail_determined(exp, distance, tail, other);
    }
}

/// The size of a batch does not matter to the decision: as many cycles for as many
/// operations, in proportion, are decided alike. Counts are taken up to 2^53, where
/// doubles hold them exactly.
pub proof fn lemma_proportional_batches_decide_alike<E: Fn(Double) -> Double>(
    m: RawMeasurement,
    other: RawMeasurement,
    p: HardwareProfile,
    exp: E,
    d: Decision,
    e: Decision,
)
    requires
        0 < m.op_count <= 2 * BINADE,
        0 < other.op_count <= 2 * BINADE,
        m.cycles <= 2 * BINADE,
        other.cycles <= 2 * BINADE,
        m.cycles * other.op_count == other.cycles * m.op_count,
        m.operation == other.operation,
        m.precision == other.precision,
        m.temp_mc == other.temp_mc,
        fold::single_valued(exp),
        fold::folds(m, p, exp, d),
        fold::folds(other, p, exp, e),
    ensures
        d.same(e),
{
    laws::lemma_batch_size_does_not_matter(m, other, p);
    lemma_same_score_same_decision(m, other, p, exp, d, e);
}

/// No measurement influences another: the decisions on a batch are those on its
/// measurements alone.
pub proof fn lemma_fold_is_pointwise<E: Fn(Double) -> Double>(
    measurements: Seq<RawMeasurement>,
    p: HardwareProfile,
    exp: E,
    decisions: Seq<Decision>,
    i: int,
    alone: Decision,
)
    requires
        fold::single_valued(exp),
        fold::folds_all(measurements, p, exp, decisions),
        0 <= i < measurements.len(),
        fold::folds(measurements[i], p, exp, alone),
    ensures
        decisions[i].same(alone),
{
    lemma_decision_determined(measurements[i], p, exp, decisions[i], alone);
}

/// The decisions on two batches, one after the other, are those on both together.
pub proof fn lemma_fold_of_concatenation<E: Fn(Double) -> Double>(
    first: Seq<RawMeasurement>,
    second: Seq<RawMeasurement>,
    p: HardwareProfile,
    exp: E,
    on_first: Seq<Decision>,
    on_second: Seq<Decision>,
    on_both: Seq<Decision>,
)
    requires
        fold::single_valued(exp),
        fold::folds_all(first, p, exp, on_first),
        fold::folds_all(second, p, exp, on_second),
        fold::folds_all(first + second, p, exp, on_both),
    ensures
        on_both.len() == (on_first + on_second).len(),
        forall|i: int|
            0 <= i < on_both.len() ==> (#[trigger] on_both[i]).same((on_first + on_second)[i]),
{
    let both = first + second;
    assert forall|i: int| 0 <= i < on_both.len() implies (#[trigger] on_both[i]).same(
        (on_first + on_second)[i],
    ) by {
        let n = first.len() as int;
        if i < n {
            assert(fold::folds(first[i], p, exp, on_first[i]));
            lemma_decision_determined(both[i], p, exp, on_both[i], on_first[i]);
        } else {
            assert(fold::folds(second[i - n], p, exp, on_second[i - n]));
            lemma_decision_determined(both[i], p, exp, on_both[i], on_second[i - n]);
        }
    }
}

/// Folding verbosely comes to the decisions that folding comes to.
pub proof fn lemma_verbose_is_fold<E: Fn(Double) -> Double>(
    measurements: Seq<RawMeasurement>,
    p: HardwareProfile,
    exp: E,
    results: Seq<VerboseFoldResult>,
    decisions: Seq<Decision>,
)
    requires
        fold::single_valued(exp),
        fold::records_all(measurements, p, exp, results),
        fold::folds_all(measurements, p, exp, decisions),
    ensures
        results.len() == decisions.len(),
        forall|i: int|
            0 <= i < results.len() ==> (#[trigger] results[i]).decision.same(decisions[i]),
{
    assert forall|i: int| 0 <= i < results.len() implies (#[trigger] results[i]).decision.same(
        decisions[i],
    ) by {
        fold::lemma_verbose_agrees(results[i], measurements[i], p, exp);
        assert(fold::folds(measurements[i], p, exp, decisions[i]));
        lemma_decision_determined(
            measurements[i],
            p,
            exp,
            results[i].decision,
            decisions[i],
        );
    }
}

/// The analysis of a window: after any measurements since it was empty, it is on the
/// latest ones, as many as there is room for, in the order in which they came while
/// none was overwritten; and the decision on each is the one on it alone.
pub proof fn lemma_analysis_is_of_the_latest<E: Fn(Double) -> Double>(
    capacity: nat,
    measurements: Seq<RawMeasurement>,
    reports: Seq<Option<Report>>,
    p: HardwareProfile,
    exp: E,
    pairs: Seq<(RawMeasurement, Decision)>,
)
    requires
        fold::single_valued(exp),
        capacity > 0,
        reports.len() == measurements.len(),
        detector::analyzes(
            Window::empty(capacity).after(measurements, reports).ring,
            p,
            exp,
            pairs,
        ),
    ensures
        ({
            let n = measurements.len();
            let kept = if n < capacity {
                n
            } else {
                capacity
            };
            let analyzed = pairs.map_values(|pair: (RawMeasurement, Decision)| pair.0);
            &&& pairs.len() == kept
            &&& analyzed.to_multiset() == measurements.skip(n - kept).to_multiset()
            &&& n <= capacity ==> analyzed == measurements
        }),
        forall|i: int, alone: Decision|
            0 <= i < pairs.len() && #[trigger] fold::folds(pairs[i].0, p, exp, alone)
                ==> pairs[i].1.same(alone),
{
    let w = Window::empty(capacity).after(measurements, reports);
    let analyzed = pairs.map_values(|pair: (RawMeasurement, Decision)| pair.0);
    Window::lemma_sliding(capacity, measurements, reports);
    assert(analyzed =~= w.ring);
    let k = w.next as int;
    let head = w.ring.take(k);
    let rest = w.ring.skip(k);
    assert(w.ring =~= head + rest);
    vstd::seq_lib::lemma_multiset_commutative(head, rest);
    vstd::seq_lib::lemma_multiset_commutative(rest, head);
    assert((head + rest).to_multiset() =~= (rest + head).to_multiset());
    assert forall|i: int, alone: Decision|
        0 <= i < pairs.len() && #[trigger] fold::folds(
            pairs[i].0,
            p,
            exp,
            alone,
        ) implies pairs[i].1.same(alone) by {
        lemma_decision_determined(pairs[i].0, p, exp, pairs[i].1, alone);
    }
}

/// A detector makes one report on a measurement.
pub proof fn lemma_report_determined<E: Fn(Double) -> Double>(
    m: RawMeasurement,
    p: HardwareProfile,
    exp: E,
    fill: nat,
    stale: bool,
    lamport: u64,
    r: Option<Report>,
    other: Option<Report>,
)
    requires
        fold::single_valued(exp),
        detector::detects(m, p, exp, fill, stale, lamport, r),
        detector::detects(m, p, exp, fill, stale, lamport, other),
    ensures
        r == other,
{
    if fill >= MINIMUM_FILL {
        let d = choose|d: Decision| #[trigger]
            fold::folds(m, p, exp, d) && r == detector::report_on(m, p, d, stale, lamport);
        let e = choose|d: Decision| #[trigger]
            fold::folds(m, p, exp, d) && other == detector::report_on(m, p, d, stale, lamport);
        lemma_decision_determined(m, p, exp, d, e);
    }
}

/// What is reported does not touch how a window fills.
proof fn lemma_fill_without_reports(
    start: Window,
    measurements: Seq<RawMeasurement>,
    reports: Seq<Option<Report>>,
    others: Seq<Option<Report>>,
)
    ensures
        ({
            let w = start.after(measurements, reports);
            let v = start.after(measurements, others);
            &&& w.ring == v.ring
            &&& w.capacity == v.capacity
            &&& w.next == v.next
            &&& w.wrapped == v.wrapped
        }),
    decreases measurements.len(),
{
    if measurements.len() > 0 {
        lemma_fill_without_reports(
            start,
            measurements.drop_last(),
            reports.drop_last(),
            others.drop_last(),
        );
    }
}

/// From one window on, the same measurements bring the same reports.
pub proof fn lemma_session_determined<E: Fn(Double) -> Double>(
    start: Window,
    p: HardwareProfile,
    exp: E,
    measurements: Seq<RawMeasurement>,
    reports: Seq<Option<Report>>,
    others: Seq<Option<Report>>,
)
    requires
        fold::single_valued(exp),
        detector::session(start, p, exp, measurements, reports),
        detector::session(start, p, exp, measurements, others),
    ensures
        reports == others,
{
    assert forall|i: int| 0 <= i < reports.len() implies reports[i] == others[i] by {
        lemma_fill_without_reports(
            start,
            measurements.take(i + 1),
            reports.take(i + 1),
            others.take(i + 1),
        );
        lemma_report_determined(
            measurements[i],
            p,
            exp,
            start.after(measurements.take(i + 1), reports.take(i + 1)).fill(),
            false,
            0,
            reports[i],
            others[i],
        );
    }
    assert(reports =~= others);
}

/// Detectors in the same state give the same answers from there on: the same reports
/// on the same measurements, and after them the same statistics, analyses and
/// predictions.
pub proof fn lemma_same_state_same_answers<E: Fn(Double) -> Double>(
    watch: Watch,
    exp: E,
    measurements: Seq<RawMeasurement>,
    reports: (Seq<Option<Report>>, Seq<Option<Report>>),
    stats: (DetectorStats, DetectorStats),
    pairs: (Seq<(RawMeasurement, Decision)>, Seq<(RawMeasurement, Decision)>),
    op: Operation,
    prec: Precision,
    t_minus_ns: Option<u64>,
    predictions: (PredictedMeasurement, PredictedMeasurement),
)
    requires
        fold::single_valued(exp),
        detector::session(watch.window, watch.profile, exp, measurements, reports.0),
        detector::session(watch.window, watch.profile, exp, measurements, reports.1),
        detector::summarizes(stats.0, watch.window.after(measurements, reports.0)),
        detector::summarizes(stats.1, watch.window.after(measurements, reports.1)),
        detector::analyzes(
            watch.window.after(measurements, reports.0).ring,
            watch.profile,
            exp,
            pairs.0,
        ),
        detector::analyzes(
            watch.window.after(measurements, reports.1).ring,
            watch.profile,
            exp,
            pairs.1,
        ),
        detector::forecasts(watch.profile, watch.sigma, op, prec, t_minus_ns, 0, predictions.0),
        detector::forecasts(watch.profile, watch.sigma, op, prec, t_minus_ns, 0, predictions.1),
    ensures
        reports.0 == reports.1,
        stats.0.total_measurements == stats.1.total_measurements,
        stats.0.anomalies_detected == stats.1.anomalies_detected,
        stats.0.buffer_fill == stats.1.buffer_fill,
        stats.0.anomaly_rate@ == stats.1.anomaly_rate@,
        pairs.0.len() == pairs.1.len(),
        forall|i: int|
            #![trigger pairs.0[i]]
            0 <= i < pairs.0.len() ==> pairs.0[i].0 == pairs.1[i].0 && pairs.0[i].1.same(
                pairs.1[i].1,
            ),
        predictions.0.alike(predictions.1),
{
    lemma_session_determined(
        watch.window,
        watch.profile,
        exp,
        measurements,
        reports.0,
        reports.1,
    );
    let ring = watch.window.after(measurements, reports.0).ring;
    assert forall|i: int| 0 <= i < pairs.0.len() implies #[trigger] pairs.0[i].0 == pairs.1[i].0
        && pairs.0[i].1.same(pairs.1[i].1) by {
        assert(pairs.1[i].0 == ring[i]);
        lemma_decision_determined(ring[i], watch.profile, exp, pairs.0[i].1, pairs.1[i].1);
    }
}

/// Resetting leaves a fresh detector of the same profile, window size and tolerance:
/// from there on its answers are those of a new one, and the next four measurements
/// are not reported.
pub proof fn lemma_reset_is_fresh<E: Fn(Double) -> Double>(
    reset: Watch,
    fresh: Watch,
    capacity: nat,
    exp: E,
    measurements: Seq<RawMeasurement>,
    reports: Seq<Option<Report>>,
    others: Seq<Option<Report>>,
)
    requires
        capacity > 0,
        reset.window == Window::empty(capacity),
        fresh.window == (Window { capacity, ..Window::empty(1024) }),
        fresh.profile == reset.profile,
        fresh.sigma == reset.sigma,
        fold::single_valued(exp),
        detector::session(reset.window, reset.profile, exp, measurements, reports),
        detector::session(fresh.window, fresh.profile, exp, measurements, others),
    ensures
        reset == fresh,
        reports == others,
        reset.window.after(measurements, reports) == fresh.window.after(measurements, others),
        forall|i: int| 0 <= i < reports.len() && i < 4 ==> #[trigger] reports[i] is None,
{
    lemma_session_determined(reset.window, reset.profile, exp, measurements, reports, others);
    assert forall|i: int| 0 <= i < reports.len() && i < 4 implies #[trigger] reports[i] is None by {
        Window::lemma_sliding(capacity, measurements.take(i + 1), reports.take(i + 1));
    }
}

/// What one more measurement does to the statistics of a detector whose window size
/// was fixed before the first one.
pub proof fn lemma_feed_counts<E: Fn(Double) -> Double>(
    before: Watch,
    m: RawMeasurement,
    exp: E,
    stale: bool,
    lamport: u64,
    r: Option<Report>,
    after: Watch,
    stats_before: DetectorStats,
    stats_after: DetectorStats,
)
    requires
        before.window.steady(),
        detector::feeds(before, m, exp, stale, lamport, r, after),
        detector::summarizes(stats_before, before.window),
        detector::summarizes(stats_after, after.window),
    ensures
        after.window.steady(),
        after.window.capacity == before.window.capacity,
        after.profile == before.profile,
        stats_after.total_measurements == stats_before.total_measurements + 1,
        stats_after.anomalies_detected == stats_before.anomalies_detected + if r is Some {
            1int
        } else {
            0int
        },
        stats_after.buffer_fill == if stats_before.buffer_fill < before.window.capacity {
            stats_before.buffer_fill + 1
        } else {
            before.window.capacity as int
        },
{
    before.window.lemma_newest_replaces_oldest(m, r);
}

/// The report with another note and another time, as far as the decision goes.
proof fn lemma_reports_agree<E: Fn(Double) -> Double>(
    m: RawMeasurement,
    p: HardwareProfile,
    exp: E,
    fill: nat,
    stale: bool,
    lamport: u64,
    r: Option<Report>,
    plain: Option<Report>,
)
    requires
        fold::single_valued(exp),
        detector::detects(m, p, exp, fill, stale, lamport, r),
        detector::detects(m, p, exp, fill, false, 0, plain),
    ensures
        match (r, plain) {
            (Some(a), Some(b)) => a == Report {
                description: b.description + detector::stale_note(stale),
                lamport,
                ..b
            },
            (None, None) => true,
            _ => false,
        },
{
    if fill >= MINIMUM_FILL {
        let d = choose|d: Decision| #[trigger]
            fold::folds(m, p, exp, d) && r == detector::report_on(m, p, d, stale, lamport);
        let e = choose|d: Decision| #[trigger]
            fold::folds(m, p, exp, d) && plain == detector::report_on(m, p, d, false, 0);
        lemma_decision_determined(m, p, exp, d, e);
        let text = detector::described(m, p, d.strength());
        assert(text + detector::stale_note(stale) =~= (text + detector::stale_note(false))
            + detector::stale_note(stale));
    }
}

/// Confirming while feeding does what confirming and then feeding do: the same
/// confirmation, the same prediction, the same report and the same detector, but for
/// the note on a report that contradicts a confirmed prediction.
pub proof fn lemma_feed_and_confirm_is_both<E: Fn(Double) -> Double>(
    before: Watch,
    m: RawMeasurement,
    exp: E,
    prediction: PredictedMeasurement,
    confirmed_alone: PredictedMeasurement,
    fed_alone: Option<Report>,
    after_feed: Watch,
    confirmed: PredictedMeasurement,
    fed: Option<Report>,
    after: Watch,
)
    requires
        fold::single_valued(exp),
        confirmed_alone.checked_against(prediction, m, before.profile),
        detector::feeds(before, m, exp, false, 0, fed_alone, after_feed),
        confirmed.checked_against(prediction, m, before.profile),
        detector::feeds(before, m, exp, confirmed.confirmed, 0, fed, after),
    ensures
        confirmed.alike(confirmed_alone),
        fed is Some <==> fed_alone is Some,
        fed is Some && confirmed.confirmed ==> fed == Some(
            Report {
                description: fed_alone->Some_0.description + detector::stale_note(true),
                ..fed_alone->Some_0
            },
        ),
        fed is None || !confirmed.confirmed ==> fed == fed_alone && after == after_feed,
        after.profile == after_feed.profile,
        after.sigma == after_feed.sigma,
        after.window.same_course(after_feed.window),
{
    lemma_reports_agree(
        m,
        before.profile,
        exp,
        after.window.fill(),
        confirmed.confirmed,
        0,
        fed,
        fed_alone,
    );
    if let Some(b) = fed_alone {
        assert(b.description + detector::stale_note(false) =~= b.description);
    }
}

/// An agent with a clock reports what a plain detector reports that has seen the same:
/// whether or not a prediction waits, and but for the time and the note.
pub proof fn lemma_agent_reports_as_detector<E: Fn(Double) -> Double>(
    agent: Watch,
    detector: Watch,
    m: RawMeasurement,
    exp: E,
    stale: bool,
    time: u64,
    r: Option<Report>,
    agent_after: Watch,
    plain: Option<Report>,
    detector_after: Watch,
)
    requires
        fold::single_valued(exp),
        agent.profile == detector.profile,
        agent.window.same_course(detector.window),
        detector::feeds(agent, m, exp, stale, time, r, agent_after),
        detector::feeds(detector, m, exp, false, 0, plain, detector_after),
    ensures
        match (r, plain) {
            (Some(a), Some(b)) => {
                &&& a.measurement == b.measurement
                &&& a.score == b.score
                &&& a.stage == b.stage
                &&& a.lamport == time
            },
            (None, None) => true,
            _ => false,
        },
        agent_after.window.total == agent.window.total + 1,
        agent_after.profile == detector_after.profile,
        agent_after.window.same_course(detector_after.window),
{
    lemma_reports_agree(
        m,
        agent.profile,
        exp,
        agent_after.window.fill(),
        stale,
        time,
        r,
        plain,
    );
}

} // verus!
