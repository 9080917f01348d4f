//! Which points are taken, how they are placed, and what is reported of it.

use crate::error::{CopcError, PointAddError};
use crate::geometry::{bounds_contains_point, Bounds, Position};
use crate::point_format::PointFormat;
use vstd::prelude::*;

verus! {

/// Every so many points the caller is asked whether to go on, and told how far
/// things are.
pub const SAMPLE_INTERVAL: u64 = 4096;

/// Which optional attributes a point has.
#[derive(Clone, Copy, Debug, PartialEq, Eq, Structural)]
pub struct PointAttributes {
    pub has_gps_time: bool,
    pub has_color: bool,
    pub has_waveform: bool,
    pub has_nir: bool,
    pub extra_bytes: usize,
}

impl PointAttributes {
    /// Whether the attributes are those of `format`.
    pub open spec fn agree(self, format: PointFormat) -> bool {
        &&& self.has_gps_time == format.has_gps_time
        &&& self.has_color == format.has_color
        &&& self.has_waveform == format.has_waveform
        &&& self.has_nir == format.has_nir
        &&& self.extra_bytes == format.extra_bytes
    }

    /// Whether the attributes are those of `format`.
    pub fn matches(&self, format: &PointFormat) -> (res: bool)
        ensures
            res == self.agree(*format),
            res <==> {
                &&& self.has_gps_time <==> format.has_gps_time
                &&& self.has_color <==> format.has_color
                &&& self.has_waveform <==> format.has_waveform
                &&& self.has_nir <==> format.has_nir
                &&& self.extra_bytes == format.extra_bytes
            },
    {
        self.has_gps_time == format.has_gps_time && self.has_color == format.has_color
            && self.has_waveform == format.has_waveform && self.has_nir == format.has_nir
            && self.extra_bytes == format.extra_bytes as usize
    }
}

/// A point that is offered: whether its attributes match and whether it is
/// inside the octree.
pub struct Offer {
    pub matches: bool,
    pub inside: bool,
}

impl Offer {
    /// Whether the point is taken.
    pub open spec fn taken(self) -> bool {
        self.matches && self.inside
    }
}

/// The error after one more offer, where `error` was that before it.
pub open spec fn noted(
    error: Option<PointAddError>,
    offer: Offer,
    format: PointFormat,
) -> Option<PointAddError> {
    if !offer.matches {
        Some(PointAddError::PointAttributesDoNotMatch(format))
    } else if !offer.inside && error is None {
        Some(PointAddError::PointNotInBounds)
    } else {
        error
    }
}

/// The error after all `offers`.
pub open spec fn noted_all(offers: Seq<Offer>, format: PointFormat) -> Option<PointAddError>
    decreases offers.len(),
{
    if offers.len() == 0 {
        None
    } else {
        noted(noted_all(offers.drop_last(), format), offers.last(), format)
    }
}

/// The points left out so far, as an error to report once all are written.
pub struct Admission {
    error: Option<PointAddError>,
}

impl View for Admission {
    type V = Option<PointAddError>;

    closed spec fn view(&self) -> Option<PointAddError> {
        self.error
    }
}

impl Admission {
    /// No point has been left out.
    pub fn new() -> (res: Admission)
        ensures
            res@ is None,
    {
        Admission { error: None }
    }

    /// Whether a point at `p` with `attributes` is taken into a file with
    /// `format` and the octree over `bounds`. If not, the reason is noted.
    pub fn accept(
        &mut self,
        attributes: &PointAttributes,
        p: &Position,
        format: &PointFormat,
        bounds: &Bounds,
    ) -> (res: bool)
        ensures
            ({
                let offer = Offer {
                    matches: attributes.agree(*format),
                    inside: crate::geometry::contains(*bounds, *p),
                };
                &&& res == offer.taken()
                &&& final(self)@ == noted(old(self)@, offer, *format)
            }),
            attributes.has_gps_time != format.has_gps_time || attributes.has_color
                != format.has_color || attributes.has_waveform != format.has_waveform
                || attributes.has_nir != format.has_nir || attributes.extra_bytes
                != format.extra_bytes ==> !res && final(self)@ == Some(
                PointAddError::PointAttributesDoNotMatch(*format),
            ),
            !res ==> final(self)@ is Some,
            res ==> final(self)@ == old(self)@,
    {
        if !attributes.matches(format) {
            self.error = Some(PointAddError::PointAttributesDoNotMatch(*format));
            return false;
        }
        if !bounds_contains_point(bounds, p) {
            if self.error.is_none() {
                self.error = Some(PointAddError::PointNotInBounds);
            }
            return false;
        }
        true
    }

    /// The outcome once all points are written.
    pub fn outcome(&self) -> (res: Result<(), CopcError>)
        ensures
            res == (match self@ {
                None => Ok(()),
                Some(error) => Err(CopcError::InvalidPoint(error)),
            }),
    {
        match self.error {
            None => Ok(()),
            Some(error) => Err(CopcError::InvalidPoint(error)),
        }
    }
}

/// Attributes that do not match take precedence: over any number of points, in
/// any order, the error is about attributes where one point's do not match, else
/// about bounds where one point is outside, else there is none.
pub proof fn lemma_attributes_take_precedence(offers: Seq<Offer>, format: PointFormat)
    ensures
        noted_all(offers, format) == (if exists|i: int|
            0 <= i < offers.len() && !(#[trigger] offers[i]).matches {
            Some(PointAddError::PointAttributesDoNotMatch(format))
        } else if exists|i: int| 0 <= i < offers.len() && !(#[trigger] offers[i]).inside {
            Some(PointAddError::PointNotInBounds)
        } else {
            None
        }),
    decreases offers.len(),
{
    if offers.len() > 0 {
        let fewer = offers.drop_last();
        lemma_attributes_take_precedence(fewer, format);
        assert forall|i: int| 0 <= i < fewer.len() implies fewer[i] == #[trigger] offers[i] by {}
        assert(forall|i: int| 0 <= i < fewer.len() ==> offers[i] == #[trigger] fewer[i]);
        assert(offers[offers.len() - 1] == offers.last());
    }
}

/// All points are taken if and only if no error is noted.
pub proof fn lemma_no_error_means_all_taken(offers: Seq<Offer>, format: PointFormat)
    ensures
        noted_all(offers, format) is None <==> forall|i: int|
            0 <= i < offers.len() ==> (#[trigger] offers[i]).taken(),
{
    lemma_attributes_take_precedence(offers, format);
}

/// Whether the greedy strategy is used where `num_points` points are announced.
pub open spec fn chooses_greedy(num_points: i32, min_node_size: i32, max_node_size: i32) -> bool {
    num_points < max_node_size + min_node_size
}

/// The points that count as announced: a number below 0 counts as 0.
pub open spec fn announced(num_points: i32) -> nat {
    if num_points < 0 {
        0
    } else {
        num_points as nat
    }
}

/// Whether the greedy strategy is used: where about one node's worth of points
/// is to come.
pub fn uses_greedy(num_points: i32, min_node_size: i32, max_node_size: i32) -> (res: bool)
    ensures
        res <==> num_points < max_node_size + min_node_size,
        res == chooses_greedy(num_points, min_node_size, max_node_size),
{
    (num_points as i64) < max_node_size as i64 + min_node_size as i64
}

/// Whether the point with this number is one at which the caller is asked
/// whether to go on.
pub fn is_sampled(index: u64) -> (res: bool)
    ensures
        res <==> index % SAMPLE_INTERVAL == 0,
        res <==> index % 4096 == 0,
{
    index % SAMPLE_INTERVAL == 0
}

/// How far a write is. Every point counts twice: once when it is taken in, and
/// once when it is compressed.
pub struct ProgressView {
    /// The points that were announced.
    pub base: nat,
    /// The points compressed so far, as far as they can be counted.
    pub compressed: nat,
    /// The most that was found to be done.
    pub reached: nat,
    /// The whole percentage of that, where there was a report.
    pub percent: Option<int>,
}

impl ProgressView {
    /// What is reported when everything is done.
    pub open spec fn total(self) -> int {
        if self.base == 0 {
            1
        } else {
            2 * (self.base as int)
        }
    }

    /// What is done once `index` points are taken in: no more counts than was
    /// announced.
    pub open spec fn taken_in(self, index: int) -> int {
        if index < self.base {
            index
        } else {
            self.base as int
        }
    }

    /// What is done once `compressed` points are compressed.
    pub open spec fn done(self, compressed: int) -> int {
        if self.base + compressed < self.total() {
            self.base + compressed
        } else {
            self.total()
        }
    }

    /// What is known to be done where `done` is found: never less than before.
    pub open spec fn reach(self, done: int) -> int {
        if done < self.reached {
            self.reached as int
        } else {
            done
        }
    }

    /// The whole percentage that `done` is.
    pub open spec fn percentage(self, done: int) -> int {
        done * 100 / self.total()
    }

    /// The progress once `done` is found to be done.
    pub open spec fn reporting(self, done: int) -> ProgressView {
        ProgressView {
            reached: self.reach(done) as nat,
            percent: Some(self.percentage(self.reach(done))),
            ..self
        }
    }

    /// What is reported, as done and total, where `done` is found to be done: it is
    /// worth a report where the whole percentage is another one.
    pub open spec fn report(self, done: int) -> Option<(u64, u64)> {
        if self.percent != Some(self.percentage(self.reach(done))) {
            Some((self.reach(done) as u64, self.total() as u64))
        } else {
            None
        }
    }

    /// The points compressed with `points` more, as far as they can be counted.
    pub open spec fn counting(self, points: u64) -> nat {
        if self.compressed + points <= u64::MAX {
            self.compressed + points as nat
        } else {
            u64::MAX as nat
        }
    }

    /// The progress with `points` more compressed points.
    pub open spec fn compressing(self, points: u64) -> ProgressView {
        ProgressView {
            compressed: self.counting(points),
            ..self.reporting(self.done(self.counting(points) as int))
        }
    }

    /// The progress once nothing is left to do.
    pub open spec fn finished(self) -> ProgressView {
        self.reporting(self.total())
    }

    /// What was found to be done is no more than there is to do.
    pub open spec fn wf(self) -> bool {
        self.base <= i32::MAX && self.reached <= self.total()
    }
}

/// Whether progress went on from `before` to `after` with the given report: the
/// total stays, nothing goes back or beyond the total, and a report tells exactly
/// how far things are.
pub open spec fn advances(
    before: ProgressView,
    after: ProgressView,
    report: Option<(u64, u64)>,
) -> bool {
    &&& after.base == before.base
    &&& before.reached <= after.reached <= after.total()
    &&& report matches Some((done, total)) ==> done == after.reached && total == after.total()
}

/// Whether there is a report exactly where the whole percentage is another one than
/// before.
pub open spec fn is_throttled(
    before: ProgressView,
    after: ProgressView,
    report: Option<(u64, u64)>,
) -> bool {
    if report is Some {
        &&& after.percent == Some(after.percentage(after.reached as int))
        &&& after.percent != before.percent
    } else {
        after.percent == before.percent
    }
}

/// How far a write is.
pub struct Progress {
    base: u64,
    total: u64,
    compressed: u64,
    reached: u64,
    percent: Option<u64>,
}

impl View for Progress {
    type V = ProgressView;

    closed spec fn view(&self) -> ProgressView {
        ProgressView {
            base: self.base as nat,
            compressed: self.compressed as nat,
            reached: self.reached as nat,
            percent: match self.percent {
                Some(percent) => Some(percent as int),
                None => None,
            },
        }
    }
}

impl Progress {
    /// The number reported as the total is that of the announced points, and no
    /// more than that was found to be done.
    pub closed spec fn wf(&self) -> bool {
        self@.wf() && self.total == self@.total()
    }

    /// Nothing is done of a write of `num_points` points; a number below 0
    /// counts as 0.
    pub fn new(num_points: i32) -> (res: Progress)
        ensures
            res.wf(),
            res@ == (ProgressView {
                base: if num_points < 0 {
                    0
                } else {
                    num_points as nat
                },
                compressed: 0,
                reached: 0,
                percent: None,
            }),
            res@.base == announced(num_points),
    {
        let base: u64 = if num_points < 0 {
            0
        } else {
            num_points as u64
        };
        let total: u64 = if base == 0 {
            1
        } else {
            2 * base
        };
        Progress { base, total, compressed: 0, reached: 0, percent: None }
    }

    fn report(&mut self, done: u64) -> (res: Option<(u64, u64)>)
        requires
            old(self).wf(),
            done <= old(self)@.total(),
        ensures
            final(self).wf(),
            final(self)@ == old(self)@.reporting(done as int),
            res == old(self)@.report(done as int),
    {
        if done > self.reached {
            self.reached = done;
        }
        let percent: u64 = self.reached * 100 / self.total;
        let known: bool = match self.percent {
            Some(last) => last == percent,
            None => false,
        };
        self.percent = Some(percent);
        if known {
            None
        } else {
            Some((self.reached, self.total))
        }
    }

    /// What to report, as done and total, before the point with the number
    /// `index` is taken in: every so often, where the whole percentage changed.
    pub fn taking_in(&mut self, index: u64) -> (res: Option<(u64, u64)>)
        requires
            old(self).wf(),
        ensures
            final(self).wf(),
            index % SAMPLE_INTERVAL != 0 ==> final(self)@ == old(self)@ && res is None,
            index % SAMPLE_INTERVAL == 0 ==> {
                let done = old(self)@.taken_in(index as int);
                &&& final(self)@ == old(self)@.reporting(done)
                &&& res == old(self)@.report(done)
            },
            advances(old(self)@, final(self)@, res),
            is_throttled(old(self)@, final(self)@, res),
            index % 4096 == 0 && old(self)@.reached <= index <= old(self)@.base ==> {
                &&& final(self)@.reached == index
                &&& res matches Some((done, total)) ==> done == index && (old(self)@.base > 0
                    ==> total == 2 * old(self)@.base)
            },
            index % 4096 != 0 ==> res is None,
    {
        if is_sampled(index) {
            let done: u64 = if index < self.base {
                index
            } else {
                self.base
            };
            self.report(done)
        } else {
            None
        }
    }

    /// What to report, as done and total, once a chunk of `points` points is
    /// compressed, where the whole percentage changed.
    pub fn compressed(&mut self, points: u64) -> (res: Option<(u64, u64)>)
        requires
            old(self).wf(),
        ensures
            final(self).wf(),
            final(self)@ == old(self)@.compressing(points),
            res == old(self)@.report(old(self)@.done(old(self)@.counting(points) as int)),
            advances(old(self)@, final(self)@, res),
            is_throttled(old(self)@, final(self)@, res),
    {
        self.compressed = self.compressed.saturating_add(points);
        let mut done: u64 = self.base.saturating_add(self.compressed);
        if done > self.total {
            done = self.total;
        }
        assert(done == old(self)@.done(self.compressed as int));
        self.report(done)
    }

    /// The last report: everything is done.
    pub fn finish(&mut self) -> (res: (u64, u64))
        requires
            old(self).wf(),
        ensures
            final(self).wf(),
            final(self)@ == old(self)@.finished(),
            res.0 == old(self)@.total(),
            res.1 == old(self)@.total(),
            advances(old(self)@, final(self)@, Some(res)),
    {
        let total: u64 = self.total;
        self.report(total);
        (total, total)
    }
}

/// Whether `states` are those of one write, each `advances` from the one before
/// with the report in `reports` at the same place.
pub open spec fn keeps_advancing(
    states: Seq<ProgressView>,
    reports: Seq<Option<(u64, u64)>>,
) -> bool {
    &&& states.len() == reports.len() + 1
    &&& forall|i: int|
        0 <= i < reports.len() ==> advances(
            #[trigger] states[i],
            states[i + 1],
            reports[i],
        )
}

/// Progress never goes back: whatever was announced, and however many points
/// come, the total stays, no report is beyond it, and none is below an earlier one.
pub proof fn lemma_progress_is_monotonic(
    states: Seq<ProgressView>,
    reports: Seq<Option<(u64, u64)>>,
    i: int,
    j: int,
    earlier: (u64, u64),
    later: (u64, u64),
)
    requires
        keeps_advancing(states, reports),
        0 <= i <= j < reports.len(),
        reports[i] == Some(earlier),
        reports[j] == Some(later),
    ensures
        earlier.0 <= later.0 <= later.1,
        earlier.1 == later.1,
        later.1 == states[0].total(),
{
    lemma_states_advance(states, reports, 0, i);
    lemma_states_advance(states, reports, i + 1, j);
    lemma_states_advance(states, reports, 0, j);
    assert(advances(states[i], states[i + 1], reports[i]));
    assert(advances(states[j], states[j + 1], reports[j]));
    if i < j {
        assert(states[i + 1].reached <= states[j].reached);
    }
}

proof fn lemma_states_advance(
    states: Seq<ProgressView>,
    reports: Seq<Option<(u64, u64)>>,
    i: int,
    j: int,
)
    requires
        keeps_advancing(states, reports),
        0 <= i,
        j < states.len(),
    ensures
        i <= j ==> states[i].reached <= states[j].reached && states[i].base == states[j].base,
    decreases j - i,
{
    if i < j {
        lemma_states_advance(states, reports, i, j - 1);
        assert(advances(states[j - 1], states[j - 1 + 1], reports[j - 1]));
    }
}

/// How many reports there are.
pub open spec fn reports_given(reports: Seq<Option<(u64, u64)>>) -> nat
    decreases reports.len(),
{
    if reports.len() == 0 {
        0
    } else {
        reports_given(reports.drop_last()) + (if reports.last() is Some {
            1nat
        } else {
            0
        })
    }
}

/// Whether `states` are those of one write from its start on, before its last report,
/// with the report in `reports` at each place.
pub open spec fn keeps_throttled(
    states: Seq<ProgressView>,
    reports: Seq<Option<(u64, u64)>>,
) -> bool {
    &&& keeps_advancing(states, reports)
    &&& states[0].percent is None
    &&& states[0].reached <= states[0].total()
    &&& forall|i: int|
        0 <= i < reports.len() ==> is_throttled(#[trigger] states[i], states[i + 1], reports[i])
}

proof fn lemma_percentage_is_ordered(progress: ProgressView, a: int, b: int)
    requires
        0 <= a <= b <= progress.total(),
    ensures
        0 <= progress.percentage(a) <= progress.percentage(b) <= 100,
{
    let total = progress.total();
    vstd::arithmetic::div_mod::lemma_div_is_ordered(0, a * 100, total);
    vstd::arithmetic::div_mod::lemma_div_is_ordered(a * 100, b * 100, total);
    vstd::arithmetic::div_mod::lemma_div_is_ordered(b * 100, 100 * total, total);
    vstd::arithmetic::div_mod::lemma_div_multiples_vanish(100, total);
    vstd::arithmetic::div_mod::lemma_div_basics(total);
}

proof fn lemma_percentages_rise(
    states: Seq<ProgressView>,
    reports: Seq<Option<(u64, u64)>>,
    k: int,
)
    requires
        keeps_throttled(states, reports),
        0 <= k < states.len(),
    ensures
        states[k].base == states[0].base,
        states[k].reached <= states[k].total(),
        match states[k].percent {
            None => reports_given(reports.take(k)) == 0,
            Some(percent) => {
                &&& 0 <= percent <= states[k].percentage(states[k].reached as int)
                &&& reports_given(reports.take(k)) <= percent + 1
            },
        },
    decreases k,
{
    if k > 0 {
        lemma_percentages_rise(states, reports, k - 1);
        let before = states[k - 1];
        assert(advances(states[k - 1], states[k - 1 + 1], reports[k - 1]));
        assert(is_throttled(states[k - 1], states[k - 1 + 1], reports[k - 1]));
        assert(reports.take(k).drop_last() =~= reports.take(k - 1));
        lemma_percentage_is_ordered(before, before.reached as int, states[k].reached as int);
    }
}

proof fn lemma_later_percentage(
    states: Seq<ProgressView>,
    reports: Seq<Option<(u64, u64)>>,
    i: int,
    k: int,
)
    requires
        keeps_throttled(states, reports),
        0 <= i < k < states.len(),
        reports[i] is Some,
    ensures
        states[k].percent is Some,
        states[k].percent->0 >= states[i + 1].percentage(states[i + 1].reached as int),
    decreases k,
{
    assert(is_throttled(states[k - 1], states[k - 1 + 1], reports[k - 1]));
    if k - 1 > i {
        lemma_later_percentage(states, reports, i, k - 1);
        lemma_percentages_rise(states, reports, k - 1);
        lemma_percentages_rise(states, reports, k);
        assert(advances(states[k - 1], states[k - 1 + 1], reports[k - 1]));
        lemma_percentage_is_ordered(
            states[k],
            states[k - 1].reached as int,
            states[k].reached as int,
        );
    }
}

/// Reports are throttled: before the last one, each is at a greater whole percentage
/// than all earlier ones.
pub proof fn lemma_reports_differ_in_whole_percent(
    states: Seq<ProgressView>,
    reports: Seq<Option<(u64, u64)>>,
    i: int,
    j: int,
    earlier: (u64, u64),
    later: (u64, u64),
)
    requires
        keeps_throttled(states, reports),
        0 <= i < j < reports.len(),
        reports[i] == Some(earlier),
        reports[j] == Some(later),
    ensures
        states[0].percentage(earlier.0 as int) < states[0].percentage(later.0 as int),
{
    lemma_later_percentage(states, reports, i, j);
    lemma_percentages_rise(states, reports, i);
    lemma_percentages_rise(states, reports, j);
    assert(advances(states[i], states[i + 1], reports[i]));
    assert(advances(states[j], states[j + 1], reports[j]));
    assert(is_throttled(states[j], states[j + 1], reports[j]));
    lemma_percentage_is_ordered(
        states[j],
        states[j].reached as int,
        states[j + 1].reached as int,
    );
}

/// There are at most 101 reports before the last one, one for each whole percentage.
pub proof fn lemma_reports_are_few(states: Seq<ProgressView>, reports: Seq<Option<(u64, u64)>>)
    requires
        keeps_throttled(states, reports),
    ensures
        reports_given(reports) <= 101,
{
    let end = reports.len() as int;
    lemma_percentages_rise(states, reports, end);
    assert(reports.take(end) =~= reports);
    lemma_percentage_is_ordered(states[end], states[end].reached as int, states[end].total());
}

/// The two phases share the bar evenly: with all announced points taken in the
/// bar is at half, and with all of them compressed it is at the end.
pub proof fn lemma_phases_share_the_bar(progress: ProgressView)
    requires
        progress.base > 0,
    ensures
        2 * progress.done(0) == progress.total(),
        progress.done(progress.base as int) == progress.total(),
{
}

/// A point matches a format exactly where it has each of the time, the color, the
/// waveform and the near infrared where the format has it, and as many extra bytes: if
/// one of these differs, the point is not taken.
pub proof fn lemma_points_match_attribute_by_attribute(
    attributes: PointAttributes,
    format: PointFormat,
    inside: bool,
)
    ensures
        ({
            let taken = Offer { matches: attributes.agree(format), inside }.taken();
            &&& attributes.has_gps_time && !format.has_gps_time ==> !taken
            &&& !attributes.has_gps_time && format.has_gps_time ==> !taken
            &&& attributes.has_color && !format.has_color ==> !taken
            &&& !attributes.has_color && format.has_color ==> !taken
            &&& attributes.has_waveform && !format.has_waveform ==> !taken
            &&& !attributes.has_waveform && format.has_waveform ==> !taken
            &&& attributes.has_nir && !format.has_nir ==> !taken
            &&& !attributes.has_nir && format.has_nir ==> !taken
            &&& attributes.extra_bytes != format.extra_bytes ==> !taken
            &&& !inside ==> !taken
            &&& !taken ==> {
                ||| attributes.has_gps_time != format.has_gps_time
                ||| attributes.has_color != format.has_color
                ||| attributes.has_waveform != format.has_waveform
                ||| attributes.has_nir != format.has_nir
                ||| attributes.extra_bytes != format.extra_bytes
                ||| !inside
            }
        }),
{
}

/// An error once noted is never forgotten, and a point that is taken changes nothing.
pub proof fn lemma_errors_are_kept(
    error: Option<PointAddError>,
    offer: Offer,
    format: PointFormat,
)
    ensures
        error is Some ==> noted(error, offer, format) is Some,
        offer.matches && offer.inside ==> noted(error, offer, format) == error,
        !(offer.matches && offer.inside) ==> noted(error, offer, format) is Some,
        error is None && offer.matches && !offer.inside ==> noted(error, offer, format) == Some(
            PointAddError::PointNotInBounds,
        ),
{
}

/// The bar is as long as twice the announced points: each counts once when it is taken
/// in and once when it is compressed.
pub proof fn lemma_bar_is_twice_the_points(progress: ProgressView)
    ensures
        progress.base >= 1 ==> progress.total() == progress.base + progress.base,
        progress.base == 0 ==> progress.total() == 1,
{
}

/// A percentage is whole: what is done is at least that many hundredths of the bar, and
/// not one more.
pub proof fn lemma_percentage_is_whole(progress: ProgressView, done: int)
    requires
        0 <= done,
    ensures
        progress.base >= 1 ==> {
            &&& progress.percentage(done) * (2 * progress.base) <= 100 * done
            &&& 100 * done < (progress.percentage(done) + 1) * (2 * progress.base)
        },
        progress.base == 0 ==> progress.percentage(done) == 100 * done,
{
    let total = progress.total();
    let whole = progress.percentage(done);
    vstd::arithmetic::div_mod::lemma_fundamental_div_mod(done * 100, total);
    vstd::arithmetic::div_mod::lemma_mod_bound(done * 100, total);
    assert(total * whole == whole * total) by (nonlinear_arith);
    assert((whole + 1) * total == whole * total + total) by (nonlinear_arith);
    if progress.base == 0 {
        vstd::arithmetic::div_mod::lemma_div_basics(done * 100);
    }
}

/// Whether the percentage that is kept is the whole percentage of what is done.
pub open spec fn is_whole_percentage(progress: ProgressView) -> bool {
    &&& progress.percent matches Some(percent)
    &&& progress.base >= 1 ==> {
        &&& percent * (2 * progress.base) <= 100 * progress.reached
        &&& 100 * progress.reached < (percent + 1) * (2 * progress.base)
    }
}

/// What is done while points are taken in is their number, up to the announced one, and
/// a report tells exactly that: with every point up to the announced number that is
/// sampled, the bar is at the number of the point.
pub proof fn lemma_taking_in_counts_points(progress: ProgressView, index: int)
    requires
        progress.wf(),
        0 <= index,
    ensures
        ({
            let done = progress.taken_in(index);
            let after = progress.reporting(done);
            &&& progress.reached <= index <= progress.base ==> after.reached == index
            &&& index <= progress.reached ==> after.reached == progress.reached
            &&& index >= progress.base >= progress.reached ==> after.reached == progress.base
            &&& after.base == progress.base
            &&& after.compressed == progress.compressed
            &&& is_whole_percentage(after)
            &&& progress.report(done) is Some <==> progress.percent != after.percent
            &&& progress.report(done) matches Some((said, total)) ==> said == after.reached && (
            progress.base > 0 ==> total == 2 * progress.base)
        }),
{
    lemma_percentage_is_whole(progress, progress.reach(progress.taken_in(index)));
}

/// What is done while chunks are compressed is the announced points and those
/// compressed so far, up to the whole bar, and a report tells exactly that.
pub proof fn lemma_compressing_counts_points(progress: ProgressView, points: u64)
    requires
        progress.wf(),
        progress.compressed + points <= u64::MAX,
    ensures
        ({
            let after = progress.compressing(points);
            let sum = progress.base + progress.compressed + points;
            let report = progress.report(progress.done(progress.counting(points) as int));
            &&& after.compressed == progress.compressed + points
            &&& progress.base > 0 && progress.reached <= sum <= 2 * progress.base
                ==> after.reached == sum
            &&& progress.base > 0 && sum >= 2 * progress.base ==> after.reached == 2
                * progress.base
            &&& after.reached >= progress.reached
            &&& after.base == progress.base
            &&& is_whole_percentage(after)
            &&& report is Some <==> progress.percent != after.percent
            &&& report matches Some((said, total)) ==> said == after.reached && (progress.base > 0
                ==> total == 2 * progress.base)
        }),
{
    let done = progress.done(progress.counting(points) as int);
    lemma_percentage_is_whole(progress, progress.reach(done));
}

/// Compressing points in two chunks or in one comes to the same.
pub proof fn lemma_chunks_add_up(progress: ProgressView, first: u64, second: u64)
    requires
        progress.wf(),
        progress.compressed + first + second <= u64::MAX,
    ensures
        progress.compressing(first).compressing(second).reached == progress.compressing(
            (first + second) as u64,
        ).reached,
        progress.compressing(first).compressing(second).compressed == progress.compressing(
            (first + second) as u64,
        ).compressed,
{
}

/// At the end everything is done.
pub proof fn lemma_finished_is_all_done(progress: ProgressView)
    requires
        progress.wf(),
    ensures
        progress.base > 0 ==> progress.finished().reached == 2 * progress.base,
        progress.base == 0 ==> progress.finished().reached == 1,
        progress.finished().base == progress.base,
{
}

/// The strategy changes once, at the sum of the two sizes: with fewer points announced it
/// is the greedy one, with that many or more it is not. So it is greedy where no points
/// are announced.
pub proof fn lemma_strategy_changes_at_the_sum(
    num_points: i32,
    min_node_size: i32,
    max_node_size: i32,
)
    ensures
        num_points as int - min_node_size >= max_node_size <==> !chooses_greedy(
            num_points,
            min_node_size,
            max_node_size,
        ),
        num_points < 1 && min_node_size >= 1 && max_node_size >= 1 ==> chooses_greedy(
            num_points,
            min_node_size,
            max_node_size,
        ),
{
}

/// As many points are announced as the caller says, where that is a number of points.
pub proof fn lemma_announced_points(num_points: i32)
    ensures
        num_points >= 0 ==> announced(num_points) == num_points,
        num_points <= 0 ==> announced(num_points) == 0,
{
}

} // verus!
