//! Online anomaly detection over a sliding window of measurements.
use crate::double::{Datum, Double};
use crate::fold;
use crate::fold::fold_single;
use crate::render;
use crate::render::append_fixed;
use crate::types;
use crate::types::{
    Anomaly, Decision, DetectorStats, HardwareProfile, LamportClock, Operation, Precision,
    PredictedMeasurement, RawMeasurement, Report, TileState,
};
use vstd::prelude::*;

verus! {

/// The window is too short to judge by below this many measurements.
pub const MINIMUM_FILL: usize = 5;

/// What a detector has seen.
pub ghost struct Window {
    /// The ring of measurements.
    pub ring: Seq<RawMeasurement>,
    /// The report on each measurement in the ring, where there was one.
    pub reports: Seq<Option<Report>>,
    /// The most that the ring grows to.
    pub capacity: nat,
    /// The place that is overwritten next, once the ring is full.
    pub next: nat,
    /// Whether a place was overwritten.
    pub wrapped: bool,
    /// The number of measurements seen.
    pub total: nat,
    /// The number of anomalies among them.
    pub anomalies: nat,
}

impl Window {
    pub open spec fn empty(capacity: nat) -> Window {
        Window {
            ring: Seq::empty(),
            reports: Seq::empty(),
            capacity,
            next: 0,
            wrapped: false,
            total: 0,
            anomalies: 0,
        }
    }

    /// The place to overwrite lies in the ring, each measurement has a place for its
    /// report, and no more anomalies than measurements were seen.
    pub open spec fn valid(self) -> bool {
        &&& self.next == 0 || self.next < self.ring.len()
        &&& self.reports.len() == self.ring.len()
        &&& forall|i: int|
            0 <= i < self.ring.len() ==> reports_on(self.ring[i], #[trigger] self.reports[i])
        &&& self.anomalies <= self.total
        &&& self.total <= usize::MAX
        &&& self.capacity <= usize::MAX
    }

    /// The number of measurements that count as held.
    pub open spec fn fill(self) -> nat {
        if self.wrapped {
            self.capacity
        } else {
            self.ring.len()
        }
    }

    /// The window after one more measurement and the report on it, if any.
    pub open spec fn stored(self, m: RawMeasurement, report: Option<Report>) -> Window {
        let anomalies = if report is Some {
            self.anomalies + 1
        } else {
            self.anomalies
        };
        if self.ring.len() < self.capacity {
            Window {
                ring: self.ring.push(m),
                reports: self.reports.push(report),
                total: self.total + 1,
                anomalies,
                ..self
            }
        } else {
            Window {
                ring: self.ring.update(self.next as int, m),
                reports: self.reports.update(self.next as int, report),
                next: (self.next + 1) % self.capacity,
                wrapped: true,
                total: self.total + 1,
                anomalies,
                ..self
            }
        }
    }

    /// The measurements in the ring, oldest first.
    pub open spec fn recent(self) -> Seq<RawMeasurement> {
        self.ring.skip(self.next as int) + self.ring.take(self.next as int)
    }

    /// The reports on the measurements in the ring, oldest first.
    pub open spec fn recent_reports(self) -> Seq<Option<Report>> {
        self.reports.skip(self.next as int) + self.reports.take(self.next as int)
    }

    /// The ring has only ever had this capacity.
    pub open spec fn steady(self) -> bool {
        &&& 0 < self.capacity
        &&& self.ring.len() <= self.capacity
        &&& self.reports.len() == self.ring.len()
        &&& self.ring.len() < self.capacity ==> self.next == 0
        &&& self.next < self.capacity
        &&& self.wrapped ==> self.ring.len() == self.capacity
    }

    /// The window after measurements in their order, with the reports on them.
    pub open spec fn after(
        self,
        measurements: Seq<RawMeasurement>,
        reports: Seq<Option<Report>>,
    ) -> Window
        decreases measurements.len(),
    {
        if measurements.len() == 0 {
            self
        } else {
            self.after(measurements.drop_last(), reports.drop_last()).stored(
                measurements.last(),
                reports.last(),
            )
        }
    }

    /// As `other` in all but what the reports say.
    pub open spec fn same_course(self, other: Window) -> bool {
        self == Window { reports: self.reports, ..other }
    }
}

/// A report on `m` that is active, or none.
pub open spec fn reports_on(m: RawMeasurement, report: Option<Report>) -> bool {
    report matches Some(a) ==> a.measurement == m && a.tile_state == TileState::Active
}

/// The active ones of reports, in their order.
pub open spec fn active(reports: Seq<Option<Report>>) -> Seq<Report>
    decreases reports.len(),
{
    if reports.len() == 0 {
        Seq::empty()
    } else {
        match reports.last() {
            Some(a) if a.tile_state == TileState::Active => active(reports.drop_last()).push(a),
            _ => active(reports.drop_last()),
        }
    }
}

/// The number of measurements that were reported.
pub open spec fn reported(reports: Seq<Option<Report>>) -> nat
    decreases reports.len(),
{
    if reports.len() == 0 {
        0
    } else {
        reported(reports.drop_last()) + if reports.last() is Some {
            1nat
        } else {
            0nat
        }
    }
}

/// The active reports are those that are there and active, and no others.
pub proof fn lemma_active(reports: Seq<Option<Report>>, a: Report)
    ensures
        active(reports).contains(a) <==> a.tile_state == TileState::Active && reports.contains(
            Some(a),
        ),
    decreases reports.len(),
{
    if reports.len() > 0 {
        let earlier = reports.drop_last();
        let n = reports.len() - 1;
        lemma_active(earlier, a);
        assert(reports[n] == reports.last());
        if reports.contains(Some(a)) && reports.last() != Some(a) {
            let i = choose|i: int| 0 <= i < reports.len() && reports[i] == Some(a);
            assert(earlier[i] == Some(a));
        }
        if earlier.contains(Some(a)) {
            let i = choose|i: int| 0 <= i < earlier.len() && earlier[i] == Some(a);
            assert(reports[i] == Some(a));
        }
        if let Some(b) = reports.last() {
            if b.tile_state == TileState::Active {
                let before = active(earlier);
                assert(before.push(b)[before.len() as int] == b);
                if before.contains(a) {
                    let i = choose|i: int| 0 <= i < before.len() && before[i] == a;
                    assert(before.push(b)[i] == a);
                }
                if before.push(b).contains(a) && a != b {
                    let i = choose|i: int| 0 <= i < before.push(b).len() && before.push(b)[i] == a;
                    assert(before[i] == a);
                }
            }
        }
    }
}

impl Window {
    /// One more measurement becomes the newest; once the ring is full, it takes the
    /// place of the oldest. So does the report on it.
    pub proof fn lemma_newest_replaces_oldest(self, m: RawMeasurement, report: Option<Report>)
        requires
            self.steady(),
        ensures
            self.stored(m, report).steady(),
            self.stored(m, report).recent() == if self.recent().len() < self.capacity {
                self.recent().push(m)
            } else {
                self.recent().drop_first().push(m)
            },
            self.stored(m, report).recent_reports() == if self.recent().len() < self.capacity {
                self.recent_reports().push(report)
            } else {
                self.recent_reports().drop_first().push(report)
            },
            self.stored(m, report).fill() == if self.fill() < self.capacity {
                self.fill() + 1
            } else {
                self.capacity
            },
    {
        let after = self.stored(m, report);
        let n = self.next as int;
        if self.ring.len() < self.capacity {
            assert(after.recent() =~= self.recent().push(m));
            assert(after.recent_reports() =~= self.recent_reports().push(report));
        } else {
            if n + 1 < self.capacity {
                assert((n + 1) % self.capacity as int == n + 1) by (nonlinear_arith)
                    requires
                        0 <= n,
                        n + 1 < self.capacity,
                ;
            } else {
                assert((n + 1) % self.capacity as int == 0) by (nonlinear_arith)
                    requires
                        n + 1 == self.capacity,
                        0 <= n,
                ;
            }
            assert(after.recent() =~= self.recent().drop_first().push(m));
            assert(after.recent_reports() =~= self.recent_reports().drop_first().push(report));
        }
    }

    /// The window slides: after any measurements it holds the latest ones and the
    /// reports on them, as many as it has room for, oldest first. The counts are those
    /// of all measurements and of all reports.
    pub proof fn lemma_sliding(
        capacity: nat,
        measurements: Seq<RawMeasurement>,
        reports: Seq<Option<Report>>,
    )
        requires
            capacity > 0,
            reports.len() == measurements.len(),
        ensures
            ({
                let after = Window::empty(capacity).after(measurements, reports);
                let n = measurements.len();
                let kept = if n < capacity {
                    n
                } else {
                    capacity
                };
                &&& after.steady()
                &&& after.capacity == capacity
                &&& after.recent() == measurements.skip(n - kept)
                &&& after.recent_reports() == reports.skip(n - kept)
                &&& after.fill() == kept
                &&& after.ring.len() == kept
                &&& after.total == n
                &&& after.anomalies == reported(reports)
                &&& n <= capacity ==> after.ring == measurements
            }),
        decreases measurements.len(),
    {
        let after = Window::empty(capacity).after(measurements, reports);
        let n = measurements.len() as int;
        if n == 0 {
            assert(after.recent() =~= measurements.skip(0));
            assert(after.recent_reports() =~= reports.skip(0));
            assert(after.ring =~= measurements);
        } else {
            let earlier = measurements.drop_last();
            let before = Window::empty(capacity).after(earlier, reports.drop_last());
            Window::lemma_sliding(capacity, earlier, reports.drop_last());
            before.lemma_newest_replaces_oldest(measurements.last(), reports.last());
            assert(before.recent().len() == before.ring.len());
            if n <= capacity {
                assert(measurements.skip(0) =~= earlier.skip(0).push(measurements.last()));
                assert(reports.skip(0) =~= reports.drop_last().skip(0).push(reports.last()));
                assert(after.ring =~= measurements);
            } else {
                assert(measurements.skip(n - capacity) =~= earlier.skip(
                    n - 1 - capacity,
                ).drop_first().push(measurements.last()));
                assert(reports.skip(n - capacity) =~= reports.drop_last().skip(
                    n - 1 - capacity,
                ).drop_first().push(reports.last()));
            }
        }
    }

    /// A report stays listed as long as its measurement is in the window: after any
    /// measurements, the active ones of the latest reports are listed, and nothing
    /// else is.
    pub proof fn lemma_recent_reports_are_listed(
        capacity: nat,
        measurements: Seq<RawMeasurement>,
        reports: Seq<Option<Report>>,
        a: Report,
    )
        requires
            capacity > 0,
            reports.len() == measurements.len(),
        ensures
            ({
                let after = Window::empty(capacity).after(measurements, reports);
                let n = measurements.len();
                let kept = if n < capacity {
                    n
                } else {
                    capacity
                };
                active(after.reports).contains(a) <==> a.tile_state == TileState::Active
                    && reports.skip(n - kept).contains(Some(a))
            }),
    {
        let after = Window::empty(capacity).after(measurements, reports);
        Window::lemma_sliding(capacity, measurements, reports);
        lemma_active(after.reports, a);
        let k = after.next as int;
        let turned = after.recent_reports();
        let n = after.reports.len() as int;
        if after.reports.contains(Some(a)) {
            let i = choose|i: int| 0 <= i < n && after.reports[i] == Some(a);
            assert(turned[if i >= k {
                i - k
            } else {
                n - k + i
            }] == Some(a));
        }
        if turned.contains(Some(a)) {
            let i = choose|i: int| 0 <= i < turned.len() && turned[i] == Some(a);
            assert(after.reports[if i < n - k {
                i + k
            } else {
                i - (n - k)
            }] == Some(a));
        }
    }

    /// Every operation of a detector keeps its window valid.
    pub proof fn lemma_stays_valid(self, m: RawMeasurement, report: Option<Report>)
        requires
            self.valid(),
            self.capacity > 0,
            self.total < usize::MAX,
            reports_on(m, report),
        ensures
            self.stored(m, report).valid(),
    {
        let after = self.stored(m, report);
        assert((self.next + 1) % self.capacity < self.capacity) by (nonlinear_arith)
            requires
                self.capacity > 0,
        ;
        assert forall|i: int| 0 <= i < after.ring.len() implies reports_on(
            after.ring[i],
            #[trigger] after.reports[i],
        ) by {
            if i < self.ring.len() {
                assert(reports_on(self.ring[i], self.reports[i]));
            }
        }
    }
}

/// The deviation of cycles per operation from the baseline, relative to it.
pub open spec fn raw_deviation(m: RawMeasurement, p: HardwareProfile) -> Datum {
    let baseline = p.baseline(m.operation, m.precision);
    if Datum::zero(false).less(baseline) {
        types::observed_cycles(m, baseline).minus(baseline).absolute().over(baseline)
    } else {
        Datum::zero(false)
    }
}

/// More than half off the baseline.
pub open spec fn far_off(m: RawMeasurement, p: HardwareProfile) -> bool {
    Datum::ratio(1, 2).less(raw_deviation(m, p))
}

/// How an anomaly is described.
pub open spec fn described(m: RawMeasurement, p: HardwareProfile, score: Datum) -> Seq<char> {
    let baseline = p.baseline(m.operation, m.precision);
    "Anomaly: raw_dev="@ + render::fixed(raw_deviation(m, p).times(Datum::whole(100)), 1)
        + "%, cpo="@ + render::fixed(types::observed_cycles(m, baseline), 2) + " vs baseline="@
        + render::fixed(baseline, 2) + ", pipeline_score="@ + render::fixed(score, 4)
        + ", z_score="@ + render::fixed(Datum::zero(false), 2) + ", op="@
        + m.operation.variant_name()
}

/// The note on a report that contradicts a confirmed prediction.
pub open spec fn stale_note(stale: bool) -> Seq<char> {
    if stale {
        " [STALE-PROFILE: prediction confirmed but pipeline flagged anomaly]"@
    } else {
        Seq::empty()
    }
}

/// The report on a measurement for which the pipeline decided `d`: there is one if
/// the measurement is far off its baseline or the pipeline flagged it.
pub open spec fn report_on(
    m: RawMeasurement,
    p: HardwareProfile,
    d: Decision,
    stale: bool,
    lamport: u64,
) -> Option<Report> {
    if far_off(m, p) || d is Anomalous {
        Some(
            Report {
                measurement: m,
                score: raw_deviation(m, p).smaller(Datum::whole(1)).larger(d.strength()),
                stage: if far_off(m, p) {
                    2
                } else {
                    5
                },
                description: described(m, p, d.strength()) + stale_note(stale),
                tile_state: TileState::Active,
                lamport,
            },
        )
    } else {
        None
    }
}

/// `r` is what a detector with `fill` measurements in its window reports on `m`.
pub open spec fn detects<E: Fn(Double) -> Double>(
    m: RawMeasurement,
    p: HardwareProfile,
    exp: E,
    fill: nat,
    stale: bool,
    lamport: u64,
    r: Option<Report>,
) -> bool {
    if fill < MINIMUM_FILL {
        r is None
    } else {
        exists|d: Decision| #[trigger]
            fold::folds(m, p, exp, d) && r == report_on(m, p, d, stale, lamport)
    }
}

/// The report on a measurement for which the pipeline decided `decision`. It is
/// `stale` if it contradicts a confirmed prediction.
pub fn assess(
    m: RawMeasurement,
    profile: &HardwareProfile,
    decision: Decision,
    stale: bool,
    lamport: u64,
) -> (r: Option<Anomaly>)
    ensures
        types::said(r) == report_on(m, *profile, decision, stale, lamport),
{
    let zero = Double { bits: 0 };
    let baseline = profile.get_baseline_cycles(m.operation, m.precision);
    let actual = m.observed_cycles(baseline);
    let deviation = if zero.less(baseline) {
        actual.minus(baseline).abs().over(baseline)
    } else {
        zero
    };
    let far = Double::ratio(1, 2).less(deviation);
    if far || decision.is_anomalous() {
        let score = decision.score();
        let mut text: String = "Anomaly: raw_dev=".to_string();
        append_fixed(&mut text, deviation.times(Double::whole(100)), 1);
        text.append("%, cpo=");
        append_fixed(&mut text, actual, 2);
        text.append(" vs baseline=");
        append_fixed(&mut text, baseline, 2);
        text.append(", pipeline_score=");
        append_fixed(&mut text, score, 4);
        text.append(", z_score=");
        append_fixed(&mut text, zero, 2);
        text.append(", op=");
        text.append(m.operation.variant());
        if stale {
            text.append(" [STALE-PROFILE: prediction confirmed but pipeline flagged anomaly]");
        }
        assert(text@ =~= described(m, *profile, decision.strength()) + stale_note(stale));
        let mut a = Anomaly::new(
            m,
            deviation.smaller(Double::whole(1)).larger(score),
            if far {
                2
            } else {
                5
            },
            text,
        );
        a.lamport = lamport;
        Some(a)
    } else {
        None
    }
}

/// What a detector knows: the profile that measurements are compared with, the number
/// of standard deviations that predictions tolerate, and what it has seen.
pub ghost struct Watch {
    pub profile: HardwareProfile,
    pub sigma: Double,
    pub window: Window,
}

impl Watch {
    /// There is room for one more measurement.
    pub open spec fn open_to(self, m: RawMeasurement) -> bool {
        &&& self.window.valid()
        &&& self.window.capacity > 0
        &&& self.window.total < usize::MAX
        &&& m.comparable(self.profile.reference_temp_mc)
    }
}

/// Taking in `m` leads from `before` to `after` with the report `r`.
pub open spec fn feeds<E: Fn(Double) -> Double>(
    before: Watch,
    m: RawMeasurement,
    exp: E,
    stale: bool,
    lamport: u64,
    r: Option<Report>,
    after: Watch,
) -> bool {
    &&& after == Watch { window: before.window.stored(m, r), ..before }
    &&& detects(m, before.profile, exp, after.window.fill(), stale, lamport, r)
}

/// A report that was just handed out is listed.
pub proof fn lemma_new_report_is_listed<E: Fn(Double) -> Double>(
    before: Watch,
    m: RawMeasurement,
    exp: E,
    stale: bool,
    lamport: u64,
    a: Report,
    after: Watch,
)
    requires
        before.open_to(m),
        feeds(before, m, exp, stale, lamport, Some(a), after),
    ensures
        active(after.window.reports).contains(a),
{
    let w = before.window;
    assert(a.tile_state == TileState::Active);
    assert(after.window.reports[if w.ring.len() < w.capacity {
        w.ring.len() as int
    } else {
        w.next as int
    }] == Some(a));
    lemma_active(after.window.reports, a);
}

/// `reports` are the reports on `measurements`, fed one by one from window `start` on.
pub open spec fn session<E: Fn(Double) -> Double>(
    start: Window,
    p: HardwareProfile,
    exp: E,
    measurements: Seq<RawMeasurement>,
    reports: Seq<Option<Report>>,
) -> bool {
    &&& reports.len() == measurements.len()
    &&& forall|i: int|
        0 <= i < measurements.len() ==> detects(
            measurements[i],
            p,
            exp,
            start.after(measurements.take(i + 1), reports.take(i + 1)).fill(),
            false,
            0,
            #[trigger] reports[i],
        )
}

/// `pairs` are the measurements of a ring, each with the decision on it.
pub open spec fn analyzes<E: Fn(Double) -> Double>(
    ring: Seq<RawMeasurement>,
    p: HardwareProfile,
    exp: E,
    pairs: Seq<(RawMeasurement, Decision)>,
) -> bool {
    &&& pairs.len() == ring.len()
    &&& forall|i: int|
        #![trigger pairs[i]]
        0 <= i < pairs.len() ==> pairs[i].0 == ring[i] && fold::folds(ring[i], p, exp, pairs[i].1)
}

/// `stats` are the statistics of a window.
pub open spec fn summarizes(stats: DetectorStats, w: Window) -> bool {
    &&& stats.total_measurements == w.total
    &&& stats.anomalies_detected == w.anomalies
    &&& stats.buffer_fill == w.fill()
    &&& stats.anomaly_rate@ == anomaly_rate(w)
}

/// What each of reports says.
spec fn all_said(reports: Seq<Option<Anomaly>>) -> Seq<Option<Report>> {
    reports.map_values(|a: Option<Anomaly>| types::said(a))
}

/// An anomaly detector with a sliding window of recent measurements.
pub struct AnomalyDetector {
    pub profile: HardwareProfile,
    buffer: Vec<RawMeasurement>,
    /// The report on each measurement in the buffer, where there was one.
    reports: Vec<Option<Anomaly>>,
    buffer_size: usize,
    write_pos: usize,
    filled: bool,
    threshold_sigma: Double,
    anomaly_count: usize,
    total_count: usize,
}

impl View for AnomalyDetector {
    type V = Watch;

    closed spec fn view(&self) -> Watch {
        Watch {
            profile: self.profile,
            sigma: self.threshold_sigma,
            window: Window {
                ring: self.buffer@,
                reports: all_said(self.reports@),
                capacity: self.buffer_size as nat,
                next: self.write_pos as nat,
                wrapped: self.filled,
                total: self.total_count as nat,
                anomalies: self.anomaly_count as nat,
            },
        }
    }
}

impl AnomalyDetector {
    /// A detector with a window of 1024 measurements and a tolerance of three
    /// standard deviations.
    pub fn new(profile: HardwareProfile) -> (d: Self)
        ensures
            d@.profile == profile,
            d@.window == Window::empty(1024),
            d@.window.valid(),
            d@.sigma@ == Datum::whole(3),
    {
        let d = AnomalyDetector {
            profile,
            buffer: Vec::new(),
            reports: Vec::new(),
            buffer_size: 1024,
            write_pos: 0,
            filled: false,
            threshold_sigma: Double::whole(3),
            anomaly_count: 0,
            total_count: 0,
        };
        assert(d@.window.reports =~= Seq::<Option<Report>>::empty());
        d
    }

    /// This detector with another window size.
    pub fn with_buffer_size(self, size: usize) -> (d: Self)
        ensures
            d@ == (Watch { window: Window { capacity: size as nat, ..self@.window }, ..self@ }),
            d@.window.valid() == self@.window.valid(),
    {
        let mut d = self;
        d.buffer_size = size;
        d
    }

    /// This detector with another tolerance for its predictions.
    pub fn with_threshold(self, sigma: Double) -> (d: Self)
        ensures
            d@ == (Watch { sigma, ..self@ }),
    {
        let mut d = self;
        d.threshold_sigma = sigma;
        d
    }

    /// Puts a measurement and the report on it into the window and counts them.
    fn store(&mut self, m: RawMeasurement, report: Option<Anomaly>)
        requires
            old(self)@.window.valid(),
            old(self)@.window.capacity > 0,
            old(self)@.window.total < usize::MAX,
            reports_on(m, types::said(report)),
        ensures
            final(self)@ == (Watch {
                window: old(self)@.window.stored(m, types::said(report)),
                ..old(self)@
            }),
            final(self)@.window.valid(),
    {
        let ghost before = self@.window;
        self.total_count = self.total_count + 1;
        if report.is_some() {
            self.anomaly_count = self.anomaly_count + 1;
        }
        let ghost said = types::said(report);
        if self.buffer.len() < self.buffer_size {
            self.buffer.push(m);
            self.reports.push(report);
            assert(self@.window.reports =~= before.reports.push(said));
        } else {
            let place = self.write_pos;
            self.buffer.set(place, m);
            self.reports.set(place, report);
            self.write_pos = (place + 1) % self.buffer_size;
            self.filled = true;
            assert(self@.window.reports =~= before.reports.update(place as int, said));
        }
        proof {
            before.lemma_stays_valid(m, said);
        }
    }

    /// Takes in a measurement, and keeps and hands out the report on it, if any.
    fn take_in<E: Fn(Double) -> Double>(
        &mut self,
        m: RawMeasurement,
        stale: bool,
        lamport: u64,
        exp: &E,
    ) -> (r: Option<Anomaly>)
        requires
            old(self)@.open_to(m),
            forall|x: Double| exp.requires((x,)),
        ensures
            feeds(old(self)@, m, *exp, stale, lamport, types::said(r), final(self)@),
            final(self)@.window.valid(),
    {
        let fill = if self.filled || self.buffer.len() >= self.buffer_size {
            self.buffer_size
        } else {
            self.buffer.len() + 1
        };
        if fill < MINIMUM_FILL {
            self.store(m, None);
            return None;
        }
        let decision = fold_single(&m, &self.profile, exp);
        let r = assess(m, &self.profile, decision, stale, lamport);
        let kept = match &r {
            Some(a) => Some(a.clone()),
            None => None,
        };
        self.store(m, kept);
        r
    }

    /// Takes in a measurement, and reports it if it is an anomaly.
    pub fn feed<E: Fn(Double) -> Double>(&mut self, measurement: RawMeasurement, exp: &E) -> (r:
        Option<Anomaly>)
        requires
            old(self)@.open_to(measurement),
            forall|x: Double| exp.requires((x,)),
        ensures
            feeds(old(self)@, measurement, *exp, false, 0, types::said(r), final(self)@),
            final(self)@.window.valid(),
    {
        self.take_in(measurement, false, 0, exp)
    }

    /// Takes all measurements of the window through the pipeline.
    pub fn analyze<E: Fn(Double) -> Double>(&self, exp: &E) -> (r: Vec<(RawMeasurement, Decision)>)
        requires
            fold::all_comparable(self@.window.ring, self@.profile),
            forall|x: Double| exp.requires((x,)),
        ensures
            analyzes(self@.window.ring, self@.profile, *exp, r@),
    {
        let decisions = fold::fold(self.buffer.as_slice(), &self.profile, exp);
        let mut r: Vec<(RawMeasurement, Decision)> = Vec::new();
        let mut i: usize = 0;
        while i < self.buffer.len()
            invariant
                i <= self.buffer.len(),
                fold::folds_all(self.buffer@, self.profile, *exp, decisions@),
                r.len() == i,
                forall|j: int|
                    0 <= j < i ==> #[trigger] r@[j] == (self.buffer@[j], decisions@[j]),
            decreases self.buffer.len() - i,
        {
            r.push((self.buffer[i], decisions[i]));
            i = i + 1;
        }
        r
    }

    /// The counts so far and the rate of anomalies.
    pub fn stats(&self) -> (r: DetectorStats)
        ensures
            summarizes(r, self@.window),
    {
        DetectorStats {
            total_measurements: self.total_count,
            anomalies_detected: self.anomaly_count,
            buffer_fill: if self.filled {
                self.buffer_size
            } else {
                self.buffer.len()
            },
            anomaly_rate: if self.total_count > 0 {
                Double::whole(self.anomaly_count as u64).over(
                    Double::whole(self.total_count as u64),
                )
            } else {
                Double { bits: 0 }
            },
        }
    }

    /// Empties the window and sets the counts to zero.
    pub fn reset(&mut self)
        ensures
            final(self)@ == (Watch {
                window: Window::empty(old(self)@.window.capacity),
                ..old(self)@
            }),
            final(self)@.window.valid(),
    {
        self.buffer.clear();
        self.reports.clear();
        self.write_pos = 0;
        self.filled = false;
        self.anomaly_count = 0;
        self.total_count = 0;
        assert(self@.window.reports =~= Seq::<Option<Report>>::empty());
    }

    /// What an operation is expected to cost, said before it runs.
    pub fn predict(&self, op: Operation, prec: Precision, t_minus_ns: Option<u64>) -> (r:
        PredictedMeasurement)
        ensures
            forecasts(self@.profile, self@.sigma, op, prec, t_minus_ns, 0, r),
    {
        PredictedMeasurement {
            operation: op,
            precision: prec,
            expected_cycles_per_op: self.profile.get_baseline_cycles(op, prec),
            tolerance_sigma: self.threshold_sigma,
            t_minus_event_ns: t_minus_ns,
            lamport: 0,
            confirmed: false,
            actual_deviation: None,
        }
    }

    /// Takes in a measurement and holds a prediction against it. Returns the report,
    /// if any, and whether the prediction was confirmed. A report in spite of a
    /// confirmed prediction says that the profile is stale.
    pub fn feed_and_confirm<E: Fn(Double) -> Double>(
        &mut self,
        m: RawMeasurement,
        prediction: &mut PredictedMeasurement,
        exp: &E,
    ) -> (r: (Option<Anomaly>, bool))
        requires
            old(self)@.open_to(m),
            forall|x: Double| exp.requires((x,)),
        ensures
            final(prediction).checked_against(*old(prediction), m, old(self)@.profile),
            r.1 == final(prediction).confirmed,
            feeds(old(self)@, m, *exp, r.1, 0, types::said(r.0), final(self)@),
            final(self)@.window.valid(),
    {
        let confirmed = prediction.confirm(&m, &self.profile);
        let anomaly = self.take_in(m, confirmed, 0, exp);
        (anomaly, confirmed)
    }

    /// The active reports on the measurements that are still in the window, in the
    /// order of the ring, as they were handed out. Whoever holds a copy may retract it;
    /// that is not seen here.
    pub fn active_anomalies(&self) -> (r: Vec<Anomaly>)
        ensures
            r@.map_values(|a: Anomaly| a@) == active(self@.window.reports),
            forall|i: int|
                0 <= i < r.len() ==> (#[trigger] r@[i]).tile_state == TileState::Active,
    {
        let mut r: Vec<Anomaly> = Vec::new();
        let ghost all = self@.window.reports;
        let mut i: usize = 0;
        assert(all.take(0) =~= Seq::<Option<Report>>::empty());
        assert(r@.map_values(|a: Anomaly| a@) =~= Seq::<Report>::empty());
        while i < self.reports.len()
            invariant
                i <= self.reports.len(),
                all == all_said(self.reports@),
                r@.map_values(|a: Anomaly| a@) == active(all.take(i as int)),
                forall|j: int|
                    0 <= j < r.len() ==> (#[trigger] r@[j]).tile_state == TileState::Active,
            decreases self.reports.len() - i,
        {
            assert(all.take(i + 1).drop_last() =~= all.take(i as int));
            assert(all.take(i + 1).last() == types::said(self.reports@[i as int]));
            if let Some(a) = &self.reports[i] {
                if a.tile_state == TileState::Active {
                    let ghost before = r@;
                    r.push(a.clone());
                    assert(r@.map_values(|a: Anomaly| a@) =~= before.map_values(
                        |a: Anomaly| a@,
                    ).push(a@));
                }
            }
            i = i + 1;
        }
        assert(all.take(all.len() as int) =~= all);
        r
    }
}

/// The share of anomalies among the measurements seen.
pub open spec fn anomaly_rate(w: Window) -> Datum {
    if w.total > 0 {
        Datum::whole(w.anomalies as int).over(Datum::whole(w.total as int))
    } else {
        Datum::zero(false)
    }
}

/// `r` is the prediction for an operation by a profile.
pub open spec fn forecasts(
    p: HardwareProfile,
    sigma: Double,
    op: Operation,
    prec: Precision,
    t_minus_ns: Option<u64>,
    lamport: u64,
    r: PredictedMeasurement,
) -> bool {
    &&& r.operation == op
    &&& r.precision == prec
    &&& r.expected_cycles_per_op@ == p.baseline(op, prec)
    &&& r.tolerance_sigma == sigma
    &&& r.t_minus_event_ns == t_minus_ns
    &&& r.lamport == lamport
    &&& !r.confirmed
    &&& r.actual_deviation is None
}

/// What an agent with a logical clock has seen and predicted.
pub ghost struct Agent {
    pub watch: Watch,
    /// The time of its Lamport clock.
    pub time: u64,
    /// The predictions so far, in the order in which they were made.
    pub predictions: Seq<PredictedMeasurement>,
}

impl Agent {
    /// Predictions carry rising times, none later than the clock.
    pub open spec fn ordered(self) -> bool {
        &&& forall|i: int, j: int|
            0 <= i < j < self.predictions.len() ==> (#[trigger] self.predictions[i]).lamport < (
            #[trigger] self.predictions[j]).lamport
        &&& forall|i: int|
            0 <= i < self.predictions.len() ==> (#[trigger] self.predictions[i]).lamport
                <= self.time
    }
}

/// Prediction `i` is the first that still waits for a measurement like `m`.
pub open spec fn awaits(predictions: Seq<PredictedMeasurement>, m: RawMeasurement, i: int) -> bool {
    &&& 0 <= i < predictions.len()
    &&& waiting(predictions[i], m)
    &&& forall|j: int| 0 <= j < i ==> !waiting(#[trigger] predictions[j], m)
}

/// An unconfirmed prediction for the operation and precision of `m`.
pub open spec fn waiting(prediction: PredictedMeasurement, m: RawMeasurement) -> bool {
    &&& prediction.operation == m.operation
    &&& prediction.precision == m.precision
    &&& !prediction.confirmed
}

/// A detector that stamps what it predicts and reports with logical time, for
/// causal order across agents.
pub struct LamportDetector {
    detector: AnomalyDetector,
    clock: LamportClock,
    predictions: Vec<PredictedMeasurement>,
}

impl View for LamportDetector {
    type V = Agent;

    closed spec fn view(&self) -> Agent {
        Agent {
            watch: self.detector@,
            time: self.clock.time,
            predictions: self.predictions@,
        }
    }
}

impl LamportDetector {
    pub fn new(profile: HardwareProfile) -> (d: Self)
        ensures
            d@.watch.profile == profile,
            d@.watch.sigma@ == Datum::whole(3),
            d@.watch.window == Window::empty(1024),
            d@.watch.window.valid(),
            d@.time == 0,
            d@.predictions == Seq::<PredictedMeasurement>::empty(),
            d@.ordered(),
    {
        LamportDetector {
            detector: AnomalyDetector::new(profile),
            clock: LamportClock::new(),
            predictions: Vec::new(),
        }
    }

    /// Makes a prediction, stamped with the time after one tick.
    pub fn predict(&mut self, op: Operation, prec: Precision, t_minus_ns: Option<u64>) -> (r:
        PredictedMeasurement)
        requires
            old(self)@.time < u64::MAX,
        ensures
            final(self)@ == (Agent {
                time: (old(self)@.time + 1) as u64,
                predictions: old(self)@.predictions.push(r),
                ..old(self)@
            }),
            forecasts(
                old(self)@.watch.profile,
                old(self)@.watch.sigma,
                op,
                prec,
                t_minus_ns,
                final(self)@.time,
                r,
            ),
            old(self)@.ordered() ==> final(self)@.ordered(),
    {
        let mut r = self.detector.predict(op, prec, t_minus_ns);
        r.lamport = self.clock.tick();
        self.predictions.push(r);
        r
    }

    /// Takes in a measurement, holds the first prediction that waits for it against
    /// it, and stamps the report, if any, with the time after one tick.
    pub fn feed_and_confirm<E: Fn(Double) -> Double>(&mut self, m: RawMeasurement, exp: &E) -> (r:
        Option<Anomaly>)
        requires
            old(self)@.watch.open_to(m),
            old(self)@.time < u64::MAX,
            forall|x: Double| exp.requires((x,)),
        ensures
            final(self)@.watch.window.valid(),
            final(self)@.time == old(self)@.time + 1,
            final(self)@.predictions.len() == old(self)@.predictions.len(),
            // Only the first waiting prediction is touched.
            forall|i: int|
                0 <= i < old(self)@.predictions.len() && !awaits(old(self)@.predictions, m, i)
                    ==> #[trigger] final(self)@.predictions[i] == old(self)@.predictions[i],
            forall|i: int| #[trigger]
                awaits(old(self)@.predictions, m, i)
                    ==> final(self)@.predictions[i].checked_against(
                    old(self)@.predictions[i],
                    m,
                    old(self)@.watch.profile,
                ) && feeds(
                    old(self)@.watch,
                    m,
                    *exp,
                    final(self)@.predictions[i].confirmed,
                    final(self)@.time,
                    types::said(r),
                    final(self)@.watch,
                ),
            (forall|i: int| !#[trigger] awaits(old(self)@.predictions, m, i)) ==> feeds(
                old(self)@.watch,
                m,
                *exp,
                false,
                final(self)@.time,
                types::said(r),
                final(self)@.watch,
            ),
            old(self)@.ordered() ==> final(self)@.ordered(),
    {
        let lamport = self.clock.tick();
        let ghost before = self.predictions@;
        let mut i: usize = 0;
        while i < self.predictions.len() && !(self.predictions[i].operation == m.operation
            && self.predictions[i].precision == m.precision && !self.predictions[i].confirmed)
            invariant
                i <= self.predictions@.len(),
                self.predictions@ == before,
                forall|j: int| 0 <= j < i ==> !waiting(#[trigger] before[j], m),
            decreases self.predictions@.len() - i,
        {
            i = i + 1;
        }
        if i < self.predictions.len() {
            assert(awaits(before, m, i as int));
            let mut prediction = self.predictions[i];
            let confirmed = prediction.confirm(&m, &self.detector.profile);
            self.predictions.set(i, prediction);
            self.detector.take_in(m, confirmed, lamport, exp)
        } else {
            self.detector.take_in(m, false, lamport, exp)
        }
    }

    /// Takes over the time of a remote clock.
    pub fn merge_clock(&mut self, remote: u64) -> (t: u64)
        requires
            old(self)@.time < u64::MAX,
            remote < u64::MAX,
        ensures
            final(self)@ == (Agent { time: t, ..old(self)@ }),
            t == 1 + if old(self)@.time < remote {
                remote
            } else {
                old(self)@.time
            },
            t > old(self)@.time && t > remote,
            old(self)@.ordered() ==> final(self)@.ordered(),
    {
        self.clock.merge(remote)
    }

    pub fn stats(&self) -> (r: DetectorStats)
        ensures
            summarizes(r, self@.watch.window),
    {
        self.detector.stats()
    }
}

} // verus!
