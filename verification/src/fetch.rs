//! The sweep over the pages of the rating service.
//!
//! The sweep is a state machine. It says what to do next (`next_action`): ask
//! for a page, hand over the results, or give up. Whoever talks to the
//! service does that and reports what came of it (`on_event`): a page, or a
//! failed attempt. A page is asked for up to `MAX_ATTEMPTS` times; the first
//! page that reports no records left behind it ends the sweep.
//!
//! Every record whose tag is on the roster is kept, in the order in which the
//! records came. A clan that the service reports twice is kept twice.

use vstd::prelude::*;
use vstd::std_specs::iter::IteratorSpec;
use vstd::string::StringExecFns;
use crate::error::AttemptError;
use crate::error::ReportError;
use crate::rating::ranked;
use crate::rating::ClanRating;
use crate::rating::ClanRatingView;
use crate::rating::PageEnvelope;
use crate::rating::PageView;
use crate::rating::RankedResult;
use crate::rating::RankedResultView;
use crate::roster::contains_tag;
use crate::text::append_decimal;
use crate::text::decimal;

verus! {

/// How often one page is asked for before the sweep gives up.
pub const MAX_ATTEMPTS: u8 = 3;

/// The number of the first page.
pub const FIRST_PAGE: u64 = 1;

/// The address of a page, up to the page's number.
pub const BASE_URL: &'static str =
    "https://api.worldoftanks.eu/wot/globalmap/eventrating/?application_id=562a644f751f1c85ba948e29080f29e8&front_id=we_2023_bg&event_id=we_2023&limit=100&page_no=";

/// The address of page `page`: the fixed part, then the page's number in
/// decimal.
pub open spec fn page_url_of(page: nat) -> Seq<char> {
    BASE_URL@ + decimal(page)
}

/// The address to ask for page `page`.
pub fn page_url(page: u64) -> (url: String)
    ensures
        url@ == page_url_of(page as nat),
{
    let mut url = String::from_str(BASE_URL);
    append_decimal(&mut url, page);
    url
}

/// The test for a record whose tag is on `roster`.
pub open spec fn on_roster(roster: Seq<Seq<char>>) -> spec_fn(ClanRatingView) -> bool {
    |rating: ClanRatingView| roster.contains(rating.tag)
}

/// The function that keeps a record.
pub open spec fn keep() -> spec_fn(ClanRatingView) -> RankedResultView {
    |rating: ClanRatingView| ranked(rating)
}

/// What is kept of `records`: those whose tag is on `roster`, in their order,
/// each with its own rank.
pub open spec fn matching(roster: Seq<Seq<char>>, records: Seq<ClanRatingView>) -> Seq<
    RankedResultView,
> {
    records.filter(on_roster(roster)).map_values(keep())
}

/// What is kept of a sequence of records is what was kept of all but its last
/// record, and the last record behind that where its tag is on the roster.
pub proof fn lemma_matching_push(
    roster: Seq<Seq<char>>,
    records: Seq<ClanRatingView>,
    last: ClanRatingView,
)
    ensures
        matching(roster, records.push(last)) == if roster.contains(last.tag) {
            matching(roster, records).push(ranked(last))
        } else {
            matching(roster, records)
        },
{
    records.lemma_filter_push(last, on_roster(roster));
    if roster.contains(last.tag) {
        assert(records.filter(on_roster(roster)).push(last).map_values(keep()) =~= matching(
            roster,
            records,
        ).push(ranked(last)));
    }
}

/// Puts behind `results` what is kept of `records`.
pub fn retain_matching(
    roster: &Vec<String>,
    records: Vec<ClanRating>,
    results: &mut Vec<RankedResult>,
)
    ensures
        final(results).deep_view() == old(results).deep_view() + matching(
            roster.deep_view(),
            records.deep_view(),
        ),
{
    let ghost before = results.deep_view();
    let ghost all = records.deep_view();
    assert(all.take(0) =~= Seq::<ClanRatingView>::empty());
    assert(matching(roster.deep_view(), Seq::<ClanRatingView>::empty()) =~= Seq::<
        RankedResultView,
    >::empty()) by {
        reveal(Seq::filter);
    }
    assert(results.deep_view() =~= before + matching(roster.deep_view(), all.take(0)));
    for rating in it: records
        invariant
            it.seq() == records@,
            all == records.deep_view(),
            results.deep_view() == before + matching(roster.deep_view(), all.take(it.index() as int)),
    {
        let ghost seen = all.take(it.index() as int);
        let ghost kept = results.deep_view();
        proof {
            assert(all.take(it.index() + 1) =~= seen.push(rating@));
            lemma_matching_push(roster.deep_view(), seen, rating@);
        }
        if contains_tag(roster, &rating.tag) {
            results.push(RankedResult::from_rating(rating));
            assert(results.deep_view() =~= kept.push(ranked(rating@)));
        }
        assert(results.deep_view() =~= before + matching(
            roster.deep_view(),
            all.take(it.index() + 1),
        ));
    }
    assert(all.take(all.len() as int) =~= all);
}

/// Where a sweep stands.
#[derive(Debug, Clone, Copy, PartialEq, Eq, Structural)]
pub enum Phase {
    /// A page is still to be asked for.
    Fetching,
    /// The last page has come: the results are complete.
    Done,
    /// A page has used up its attempts: there are no results.
    Aborted,
}

/// What came of asking for a page.
#[derive(Debug, Clone, PartialEq, Eq)]
pub enum FetchEvent {
    /// The page came.
    Page(PageEnvelope),
    /// The attempt failed.
    Failed(AttemptError),
}

/// What a `FetchEvent` holds.
pub enum FetchEventView {
    Page(PageView),
    Failed(AttemptError),
}

impl View for FetchEvent {
    type V = FetchEventView;

    open spec fn view(&self) -> FetchEventView {
        match *self {
            FetchEvent::Page(page) => FetchEventView::Page(page@),
            FetchEvent::Failed(error) => FetchEventView::Failed(error),
        }
    }
}

/// What is to be done next for a sweep.
#[derive(Debug, Clone, Copy, PartialEq, Eq, Structural)]
pub enum FetchAction {
    /// Ask for the page of this number, and report what came of it.
    Request { page: u64 },
    /// Nothing is left to ask for: take the results.
    Finish,
    /// Give up, for this reason: there are no results.
    Abort(ReportError),
}

/// The state of a sweep.
pub struct SweepView {
    /// The tags that are looked for.
    pub roster: Seq<Seq<char>>,
    /// The number of the page that is asked for next, or, once the sweep has
    /// ended, of the page that ended it.
    pub page: nat,
    /// How many attempts at that page have failed.
    pub failures: nat,
    /// What has been kept so far.
    pub results: Seq<RankedResultView>,
    /// Where the sweep stands.
    pub phase: Phase,
}

/// The state in which a sweep for `roster` starts.
pub open spec fn start(roster: Seq<Seq<char>>) -> SweepView {
    SweepView {
        roster,
        page: FIRST_PAGE as nat,
        failures: 0,
        results: Seq::empty(),
        phase: Phase::Fetching,
    }
}

/// The state after `event` has been reported in state `sweep`.
///
/// A failed attempt is counted, and the one that uses up the page's attempts
/// ends the sweep and drops what was kept. A page adds what is kept of its
/// records; it ends the sweep where it reports no records left behind it, and
/// otherwise the page after it is next, with all its attempts. A sweep that
/// has ended stays as it is.
pub open spec fn step(sweep: SweepView, event: FetchEventView) -> SweepView {
    match sweep.phase {
        Phase::Fetching => match event {
            FetchEventView::Failed(_) => if sweep.failures + 1 >= MAX_ATTEMPTS {
                SweepView {
                    failures: MAX_ATTEMPTS as nat,
                    results: Seq::empty(),
                    phase: Phase::Aborted,
                    ..sweep
                }
            } else {
                SweepView { failures: sweep.failures + 1, ..sweep }
            },
            FetchEventView::Page(page) => {
                let results = sweep.results + matching(sweep.roster, page.records);
                if page.count == 0 {
                    SweepView { failures: 0, results, phase: Phase::Done, ..sweep }
                } else {
                    SweepView { page: sweep.page + 1, failures: 0, results, ..sweep }
                }
            },
        },
        _ => sweep,
    }
}

/// The state after the events of `events` have been reported, one after the
/// other, starting in state `sweep`.
pub open spec fn run(sweep: SweepView, events: Seq<FetchEventView>) -> SweepView
    decreases events.len(),
{
    if events.len() == 0 {
        sweep
    } else {
        step(run(sweep, events.drop_last()), events.last())
    }
}

/// What is to be done next in state `sweep`.
pub open spec fn action_of(sweep: SweepView) -> FetchAction {
    match sweep.phase {
        Phase::Fetching => FetchAction::Request { page: sweep.page as u64 },
        Phase::Done => FetchAction::Finish,
        Phase::Aborted => FetchAction::Abort(ReportError::UpstreamUnavailable),
    }
}

/// What holds of every state that a sweep reaches: a page that is still asked
/// for has an attempt left, a sweep that gave up has kept nothing, and
/// whatever is kept is a record of a clan of the roster, ordered by its own
/// rank.
pub open spec fn sound(sweep: SweepView) -> bool {
    &&& FIRST_PAGE <= sweep.page <= u64::MAX
    &&& sweep.phase == Phase::Fetching ==> sweep.failures < MAX_ATTEMPTS
    &&& sweep.phase == Phase::Done ==> sweep.failures == 0
    &&& sweep.phase == Phase::Aborted ==> sweep.failures == MAX_ATTEMPTS && sweep.results.len() == 0
    &&& forall|i: int|
        0 <= i < sweep.results.len() ==> {
            &&& sweep.roster.contains((#[trigger] sweep.results[i]).rating.tag)
            &&& sweep.results[i].effective_rank == sweep.results[i].rating.rank
        }
}

/// A sweep over the pages of the rating service.
pub struct Fetcher {
    roster: Vec<String>,
    page: u64,
    failures: u8,
    results: Vec<RankedResult>,
    phase: Phase,
}

impl View for Fetcher {
    type V = SweepView;

    closed spec fn view(&self) -> SweepView {
        SweepView {
            roster: self.roster.deep_view(),
            page: self.page as nat,
            failures: self.failures as nat,
            results: self.results.deep_view(),
            phase: self.phase,
        }
    }
}

/// Whatever is kept of some records is a record of a clan of the roster,
/// ordered by its own rank.
pub proof fn lemma_matching_on_roster(roster: Seq<Seq<char>>, records: Seq<ClanRatingView>, i: int)
    requires
        0 <= i < matching(roster, records).len(),
    ensures
        roster.contains(matching(roster, records)[i].rating.tag),
        matching(roster, records)[i].effective_rank == matching(roster, records)[i].rating.rank,
{
    records.lemma_filter_pred(on_roster(roster), i);
}

/// Whether a number is left for the page that `event` makes the sweep ask
/// for next: only a page that reports records left behind it, taken in while
/// the sweep still asks, needs one.
pub open spec fn page_number_left(sweep: SweepView, event: FetchEventView) -> bool {
    match event {
        FetchEventView::Page(page) => sweep.phase == Phase::Fetching && page.count != 0
            ==> sweep.page < u64::MAX,
        FetchEventView::Failed(_) => true,
    }
}

/// A step leads from a sound state to a sound state, as long as the page
/// numbers last.
pub proof fn lemma_step_sound(sweep: SweepView, event: FetchEventView)
    requires
        sound(sweep),
        page_number_left(sweep, event),
    ensures
        sound(step(sweep, event)),
{
    let next = step(sweep, event);
    assert forall|i: int| 0 <= i < next.results.len() implies {
        &&& next.roster.contains((#[trigger] next.results[i]).rating.tag)
        &&& next.results[i].effective_rank == next.results[i].rating.rank
    } by {
        if sweep.phase == Phase::Fetching {
            if let FetchEventView::Page(page) = event {
                if i >= sweep.results.len() {
                    lemma_matching_on_roster(sweep.roster, page.records, i - sweep.results.len());
                }
            }
        }
    }
}

impl Fetcher {
    /// Whether this sweep is in a state that a sweep can reach.
    pub open spec fn wf(&self) -> bool {
        sound(self@)
    }

    /// A sweep for the clans of `roster`, before its first page.
    pub fn new(roster: Vec<String>) -> (fetcher: Fetcher)
        ensures
            fetcher@ == start(roster.deep_view()),
            fetcher.wf(),
    {
        let fetcher = Fetcher {
            roster,
            page: FIRST_PAGE,
            failures: 0,
            results: Vec::new(),
            phase: Phase::Fetching,
        };
        assert(fetcher.results.deep_view() =~= Seq::<RankedResultView>::empty());
        fetcher
    }

    /// Where the sweep stands.
    pub fn phase(&self) -> (phase: Phase)
        ensures
            phase == self@.phase,
    {
        self.phase
    }

    /// The number of the page that is asked for next, or, once the sweep has
    /// ended, of the page that ended it.
    pub fn page(&self) -> (page: u64)
        ensures
            page == self@.page,
    {
        self.page
    }

    /// How many attempts at the page have failed.
    pub fn failures(&self) -> (failures: u8)
        ensures
            failures == self@.failures,
    {
        self.failures
    }

    /// What is to be done next.
    pub fn next_action(&self) -> (action: FetchAction)
        ensures
            action == action_of(self@),
    {
        match self.phase {
            Phase::Fetching => FetchAction::Request { page: self.page },
            Phase::Done => FetchAction::Finish,
            Phase::Aborted => FetchAction::Abort(ReportError::UpstreamUnavailable),
        }
    }

    /// Takes in what came of the last request. Where that is a page which
    /// makes the sweep ask for one more, a number must be left for it.
    pub fn on_event(&mut self, event: FetchEvent)
        requires
            page_number_left(old(self)@, event@),
        ensures
            final(self)@ == step(old(self)@, event@),
            old(self).wf() ==> final(self).wf(),
    {
        proof {
            if self.wf() {
                lemma_step_sound(self@, event@);
            }
        }
        match self.phase {
            Phase::Fetching => match event {
                FetchEvent::Failed(_) => {
                    if self.failures >= MAX_ATTEMPTS - 1 {
                        self.failures = MAX_ATTEMPTS;
                        self.results = Vec::new();
                        self.phase = Phase::Aborted;
                        assert(self.results.deep_view() =~= Seq::<RankedResultView>::empty());
                    } else {
                        self.failures = self.failures + 1;
                    }
                },
                FetchEvent::Page(page) => {
                    let PageEnvelope { count, records } = page;
                    retain_matching(&self.roster, records, &mut self.results);
                    self.failures = 0;
                    if count == 0 {
                        self.phase = Phase::Done;
                    } else {
                        self.page = self.page + 1;
                    }
                },
            },
            _ => {},
        }
    }

    /// Ends the sweep and hands over what was kept: every record of a clan
    /// of the roster, in the order in which the records came. There are
    /// results only once the last page has come: a sweep that gave up, or one
    /// that still has a page to ask for, gives none.
    pub fn into_results(self) -> (results: Option<Vec<RankedResult>>)
        ensures
            results is Some <==> self@.phase == Phase::Done,
            results is Some ==> results->0.deep_view() == self@.results,
    {
        match self.phase {
            Phase::Done => Some(self.results),
            _ => None,
        }
    }
}

/// The function that makes an event of a page.
pub open spec fn arrived() -> spec_fn(PageView) -> FetchEventView {
    |page: PageView| FetchEventView::Page(page)
}

/// The function that makes an event of a failed attempt.
pub open spec fn failed() -> spec_fn(AttemptError) -> FetchEventView {
    |error: AttemptError| FetchEventView::Failed(error)
}

/// What is kept of the records of `pages`, page after page.
pub open spec fn matching_all(roster: Seq<Seq<char>>, pages: Seq<PageView>) -> Seq<
    RankedResultView,
>
    decreases pages.len(),
{
    if pages.len() == 0 {
        Seq::empty()
    } else {
        matching_all(roster, pages.drop_last()) + matching(roster, pages.last().records)
    }
}

/// Reporting one more event is one more step.
pub proof fn lemma_run_push(sweep: SweepView, events: Seq<FetchEventView>, event: FetchEventView)
    ensures
        run(sweep, events.push(event)) == step(run(sweep, events), event),
{
    assert(events.push(event).drop_last() =~= events);
}

/// A sweep that has ended takes no notice of what is reported to it.
pub proof fn lemma_ended_sweep_stays(sweep: SweepView, events: Seq<FetchEventView>)
    requires
        sweep.phase != Phase::Fetching,
    ensures
        run(sweep, events) == sweep,
    decreases events.len(),
{
    if events.len() > 0 {
        lemma_ended_sweep_stays(sweep, events.drop_last());
    }
}

/// While every page reports records left behind it, the sweep goes on: after
/// `pages` it asks for the page behind them, with all attempts left, and has
/// kept what is kept of their records.
pub proof fn lemma_sweep_goes_on(roster: Seq<Seq<char>>, pages: Seq<PageView>)
    requires
        forall|i: int| 0 <= i < pages.len() ==> (#[trigger] pages[i]).count != 0,
    ensures
        run(start(roster), pages.map_values(arrived())) == (SweepView {
            roster,
            page: FIRST_PAGE as nat + pages.len(),
            failures: 0,
            results: matching_all(roster, pages),
            phase: Phase::Fetching,
        }),
    decreases pages.len(),
{
    if pages.len() > 0 {
        let init = pages.drop_last();
        lemma_sweep_goes_on(roster, init);
        assert(pages.map_values(arrived()).drop_last() =~= init.map_values(arrived()));
    }
}

/// A sweep whose last page, and no page before it, reports no records left
/// behind it asks for each of these pages, by its number, and for no page
/// more: after the last of them it has ended, with what is kept of the
/// records of all of them.
pub proof fn lemma_sweep_ends_at_last_page(roster: Seq<Seq<char>>, pages: Seq<PageView>)
    requires
        pages.len() > 0,
        forall|i: int| 0 <= i < pages.len() - 1 ==> (#[trigger] pages[i]).count != 0,
        pages.last().count == 0,
    ensures
        forall|k: int|
            0 <= k < pages.len() ==> {
                let sweep = #[trigger] run(start(roster), pages.map_values(arrived()).take(k));
                sweep.phase == Phase::Fetching && sweep.page == FIRST_PAGE + k
            },
        run(start(roster), pages.map_values(arrived())) == (SweepView {
            roster,
            page: pages.len(),
            failures: 0,
            results: matching_all(roster, pages),
            phase: Phase::Done,
        }),
        action_of(run(start(roster), pages.map_values(arrived()))) == FetchAction::Finish,
{
    let events = pages.map_values(arrived());
    assert forall|k: int| 0 <= k < pages.len() implies {
        let sweep = #[trigger] run(start(roster), events.take(k));
        sweep.phase == Phase::Fetching && sweep.page == FIRST_PAGE + k
    } by {
        lemma_sweep_goes_on(roster, pages.take(k));
        assert(events.take(k) =~= pages.take(k).map_values(arrived()));
    }
    lemma_sweep_goes_on(roster, pages.drop_last());
    assert(events.drop_last() =~= pages.drop_last().map_values(arrived()));
}

/// Failed attempts that leave the page an attempt are counted, and change
/// nothing else.
pub proof fn lemma_failures_are_counted(sweep: SweepView, errors: Seq<AttemptError>)
    requires
        sweep.phase == Phase::Fetching,
        sweep.failures + errors.len() < MAX_ATTEMPTS,
    ensures
        run(sweep, errors.map_values(failed())) == (SweepView {
            failures: sweep.failures + errors.len(),
            ..sweep
        }),
    decreases errors.len(),
{
    if errors.len() > 0 {
        let init = errors.drop_last();
        lemma_failures_are_counted(sweep, init);
        assert(errors.map_values(failed()).drop_last() =~= init.map_values(failed()));
    }
}

/// A page that comes after failed attempts, while the page still had an
/// attempt left, counts as if it had come at once: its records are used, and
/// the sweep does not give up.
pub proof fn lemma_page_after_failures(sweep: SweepView, errors: Seq<AttemptError>, page: PageView)
    requires
        sweep.phase == Phase::Fetching,
        sweep.failures + errors.len() < MAX_ATTEMPTS,
    ensures
        run(sweep, errors.map_values(failed()).push(FetchEventView::Page(page))) == step(
            sweep,
            FetchEventView::Page(page),
        ),
        step(sweep, FetchEventView::Page(page)).phase != Phase::Aborted,
        step(sweep, FetchEventView::Page(page)).results == sweep.results + matching(
            sweep.roster,
            page.records,
        ),
{
    lemma_failures_are_counted(sweep, errors);
    lemma_run_push(sweep, errors.map_values(failed()), FetchEventView::Page(page));
}

/// Failed attempts that use up what the page had left end the sweep: it gives
/// up for want of an answer, nothing is kept, and nothing that is reported
/// later changes that.
pub proof fn lemma_attempts_used_up(
    sweep: SweepView,
    errors: Seq<AttemptError>,
    later: Seq<FetchEventView>,
)
    requires
        sweep.phase == Phase::Fetching,
        sweep.failures < MAX_ATTEMPTS,
        sweep.failures + errors.len() == MAX_ATTEMPTS,
    ensures
        run(sweep, errors.map_values(failed())).phase == Phase::Aborted,
        run(sweep, errors.map_values(failed())).results.len() == 0,
        action_of(run(sweep, errors.map_values(failed()))) == FetchAction::Abort(
            ReportError::UpstreamUnavailable,
        ),
        run(sweep, errors.map_values(failed()) + later) == run(sweep, errors.map_values(failed())),
{
    let events = errors.map_values(failed());
    lemma_failures_are_counted(sweep, errors.drop_last());
    assert(events.drop_last() =~= errors.drop_last().map_values(failed()));
    lemma_run_append(sweep, events, later);
    lemma_ended_sweep_stays(run(sweep, events), later);
}

/// Reporting two sequences of events one after the other is reporting the
/// second in the state that the first leads to.
pub proof fn lemma_run_append(
    sweep: SweepView,
    first: Seq<FetchEventView>,
    second: Seq<FetchEventView>,
)
    ensures
        run(sweep, first + second) == run(run(sweep, first), second),
    decreases second.len(),
{
    if second.len() == 0 {
        assert(first + second =~= first);
    } else {
        lemma_run_append(sweep, first, second.drop_last());
        assert((first + second).drop_last() =~= first + second.drop_last());
    }
}

} // verus!
