//! The statistics aggregator: scans the store and the known-card set and
//! produces lifecycle counts, due-now and due-soon forecasts, a tally of
//! card provenance, and fixed-bucket histograms of difficulty and of
//! recall probability. Rows whose identity is no longer known count only
//! toward the raw total of rows ever seen.

use vstd::prelude::*;
use vstd::arithmetic::div_mod::{
    lemma_div_is_ordered, lemma_div_pos_is_pos, lemma_hoist_over_denominator,
};
use crate::config::{SchedulerConfig, SCALE, TIMESTAMP_MAX, SECONDS_PER_DAY};
use crate::memory::{MemoryState, ReviewedMemory, spec_recall, recall};
use crate::scheduler::{spec_elapsed, elapsed_millidays};
use crate::cards::{Card, KnownCards, spec_known_find};
use crate::store::{StoredCardRow, spec_is_due};

verus! {

/// Ceiling on every running counter of the statistics, far above any store
/// that fits in memory; it keeps all counter arithmetic within machine range.
pub const COUNTER_CAP: u64 = 1_000_000_000_000;

/// Days of the week-ahead forecast; the per-day buckets cover offsets zero
/// through `WEEK_DAYS`, inclusive.
pub const WEEK_DAYS: u64 = 7;

/// Number of per-day buckets of the week-ahead forecast.
pub const WEEK_BUCKETS: usize = 8;

/// Seconds in the week-ahead horizon.
pub const WEEK_HORIZON: u64 = 604_800;

/// Seconds in the month-ahead horizon.
pub const MONTH_HORIZON: u64 = 2_592_000;

/// A value clamped to the unit interval (fixed-point).
pub open spec fn spec_clamp_unit(value: u64) -> int {
    if value > SCALE {
        SCALE as int
    } else {
        value as int
    }
}

/// The bucket a value falls into among `n` equal-width buckets over the unit
/// interval; the upper boundary lands in the last bucket.
pub open spec fn spec_bucket_index(value: u64, n: int) -> int {
    let scaled = spec_clamp_unit(value) * n / (SCALE as int);
    if scaled > n - 1 {
        n - 1
    } else {
        scaled
    }
}

/// Law: the bucket index is always in range — no value, the unit boundary
/// included, lands outside the buckets.
pub proof fn lemma_bucket_index_in_range(value: u64, n: int)
    requires
        n >= 1,
    ensures
        0 <= spec_bucket_index(value, n) < n,
{
    assert(0 <= spec_clamp_unit(value) * n) by (nonlinear_arith)
        requires
            0 <= spec_clamp_unit(value),
            1 <= n,
    ;
    lemma_div_pos_is_pos(spec_clamp_unit(value) * n, SCALE as int);
}

/// The mathematical content of a histogram: its buckets, the number of
/// values fed, and their clamped sum.
pub ghost struct HistModel {
    pub bins: Seq<int>,
    pub count: int,
    pub sum: int,
}

/// A histogram model after absorbing one value.
pub open spec fn spec_hist_update(h: HistModel, value: u64, n: int) -> HistModel {
    let idx = spec_bucket_index(value, n);
    HistModel {
        bins: h.bins.update(idx, h.bins[idx] + 1),
        count: h.count + 1,
        sum: h.sum + spec_clamp_unit(value),
    }
}

/// The all-zero histogram model.
pub open spec fn spec_hist_empty(n: int) -> HistModel {
    HistModel { bins: Seq::new(n as nat, |i: int| 0int), count: 0, sum: 0 }
}

/// A fixed-bucket histogram over the unit interval: `N` equal-width buckets,
/// a running count, and a running sum of the clamped values.
#[derive(Clone, Debug)]
pub struct Histogram<const N: usize> {
    pub bins: Vec<u64>,
    pub count: u64,
    pub sum: u64,
}

impl<const N: usize> View for Histogram<N> {
    type V = HistModel;

    open spec fn view(&self) -> HistModel {
        HistModel {
            bins: self.bins@.map_values(|b: u64| b as int),
            count: self.count as int,
            sum: self.sum as int,
        }
    }
}

impl<const N: usize> Histogram<N> {
    /// The invariant of a histogram: one bucket per width, no bucket beyond
    /// the count, and the sum of clamped unit values bounded by the count.
    pub open spec fn inv(&self) -> bool {
        &&& self.bins@.len() == N
        &&& forall|i: int| 0 <= i < N ==> self.bins@[i] <= self.count
        &&& self.sum <= self.count * (SCALE as int)
    }

    /// An empty histogram.
    pub fn new() -> (h: Histogram<N>)
        ensures
            h.inv(),
            h@ == spec_hist_empty(N as int),
            h.count == 0,
    {
        let mut bins: Vec<u64> = Vec::new();
        let mut i: usize = 0;
        while i < N
            invariant
                i <= N,
                bins@.len() == i,
                forall|k: int| 0 <= k < i ==> bins@[k] == 0u64,
            decreases N - i,
        {
            bins.push(0);
            i = i + 1;
        }
        let h = Histogram { bins, count: 0, sum: 0 };
        proof {
            assert(h@.bins =~= spec_hist_empty(N as int).bins);
        }
        h
    }

    /// Absorb one value: clamp it to the unit interval, increment the bucket
    /// it falls into, and advance the running count and sum.
    pub fn update(&mut self, value: u64)
        requires
            old(self).inv(),
            1 <= N <= 100_000,
            old(self).count < COUNTER_CAP,
        ensures
            final(self).inv(),
            final(self)@ == spec_hist_update(old(self)@, value, N as int),
            final(self).count == old(self).count + 1,
    {
        proof {
            lemma_bucket_index_in_range(value, N as int);
        }
        let clamped: u64 = if value > SCALE {
            SCALE
        } else {
            value
        };
        proof {
            assert((clamped as int) * (N as int) <= 100_000_000) by (nonlinear_arith)
                requires
                    0 <= clamped <= 1000,
                    0 <= N <= 100_000,
            ;
        }
        let mut idx: usize = (clamped as usize) * N / (SCALE as usize);
        if idx > N - 1 {
            idx = N - 1;
        }
        let bucket = self.bins[idx];
        self.bins.set(idx, bucket + 1);
        self.count = self.count + 1;
        proof {
            assert(self.sum + clamped <= (self.count as int) * (SCALE as int)) by (nonlinear_arith)
                requires
                    self.sum <= (self.count - 1) * (SCALE as int),
                    clamped <= SCALE,
            ;
        }
        self.sum = self.sum + clamped;
        proof {
            assert(final(self)@.bins =~= spec_hist_update(old(self)@, value, N as int).bins);
        }
    }

    /// The mean of the values fed so far; the caller guards the empty case.
    pub fn mean(&self) -> (m: u64)
        requires
            self.count > 0,
        ensures
            m == self@.sum / self@.count,
    {
        self.sum / self.count
    }
}

/// Where a card stands in its life: never reviewed, reviewed with a short
/// interval, or reviewed with an interval past the maturity threshold.
#[derive(Clone, Copy, Debug, Hash, PartialEq, Eq, Structural)]
pub enum CardLifeCycle {
    New,
    Young,
    Mature,
}

/// The lifecycle a memory state falls under, given the maturity threshold on
/// the unrounded interval.
pub open spec fn spec_lifecycle(state: MemoryState, mature_threshold: u64) -> CardLifeCycle {
    match state {
        MemoryState::New => CardLifeCycle::New,
        MemoryState::Reviewed(m) => if m.interval_raw > mature_threshold {
            CardLifeCycle::Mature
        } else {
            CardLifeCycle::Young
        },
    }
}

/// The lifecycle of a memory state.
pub fn classify(state: &MemoryState, mature_threshold: u64) -> (lc: CardLifeCycle)
    ensures
        lc == spec_lifecycle(*state, mature_threshold),
{
    match state {
        MemoryState::New => CardLifeCycle::New,
        MemoryState::Reviewed(m) => if m.interval_raw > mature_threshold {
            CardLifeCycle::Mature
        } else {
            CardLifeCycle::Young
        },
    }
}

/// Whether a reviewed state falls in the week-ahead window: due strictly
/// after the instant, within seven days of it.
pub open spec fn spec_in_week(state: MemoryState, as_of: u64) -> bool {
    match state {
        MemoryState::New => false,
        MemoryState::Reviewed(m) => as_of < m.due_date <= as_of + WEEK_HORIZON,
    }
}

/// Whether a reviewed state falls in the month-ahead window: due strictly
/// after the instant, within thirty days of it. The window overlaps the
/// week-ahead one; both are reported.
pub open spec fn spec_in_month(state: MemoryState, as_of: u64) -> bool {
    match state {
        MemoryState::New => false,
        MemoryState::Reviewed(m) => as_of < m.due_date <= as_of + MONTH_HORIZON,
    }
}

/// The per-day bucket of a due date in the week-ahead window: how many
/// calendar days (UTC) its day lies past the instant's day.
pub open spec fn spec_week_offset(m: ReviewedMemory, as_of: u64) -> int {
    m.due_date / SECONDS_PER_DAY - as_of / SECONDS_PER_DAY
}

/// A due date in the week-ahead window lands in one of the eight day
/// buckets.
pub proof fn lemma_week_offset_in_range(m: ReviewedMemory, as_of: u64)
    requires
        as_of < m.due_date <= as_of + WEEK_HORIZON,
    ensures
        0 <= spec_week_offset(m, as_of) < WEEK_BUCKETS,
{
    lemma_div_is_ordered(as_of as int, m.due_date as int, SECONDS_PER_DAY as int);
    lemma_hoist_over_denominator(as_of as int, WEEK_DAYS as int, SECONDS_PER_DAY as nat);
    lemma_div_is_ordered(
        m.due_date as int,
        as_of + (WEEK_DAYS as int) * (SECONDS_PER_DAY as int),
        SECONDS_PER_DAY as int,
    );
}

/// The provenance tally after one more card from the given origin: the
/// origin's entry is incremented, or appended with count one if absent.
pub open spec fn spec_bump_origin(counts: Seq<(u64, int)>, origin: u64) -> Seq<(u64, int)>
    decreases counts.len(),
{
    if counts.len() == 0 {
        seq![(origin, 1int)]
    } else if counts[0].0 == origin {
        seq![(counts[0].0, counts[0].1 + 1)] + counts.drop_first()
    } else {
        seq![counts[0]] + spec_bump_origin(counts.drop_first(), origin)
    }
}

/// Bumping an origin whose first entry stands at a known index increments
/// exactly that entry.
proof fn lemma_bump_origin_at(counts: Seq<(u64, int)>, origin: u64, i: int)
    requires
        0 <= i < counts.len(),
        counts[i].0 == origin,
        forall|k: int| 0 <= k < i ==> (#[trigger] counts[k]).0 != origin,
    ensures
        spec_bump_origin(counts, origin) == counts.update(i, (origin, counts[i].1 + 1)),
    decreases i,
{
    if i == 0 {
        assert(spec_bump_origin(counts, origin) =~= counts.update(0, (origin, counts[0].1 + 1)));
    } else {
        assert(counts[0].0 != origin);
        let rest = counts.drop_first();
        assert(forall|k: int| 0 <= k < i - 1 ==> (#[trigger] rest[k]).0 != origin);
        assert(rest[i - 1] == counts[i]);
        lemma_bump_origin_at(rest, origin, i - 1);
        assert(seq![counts[0]] + rest.update(i - 1, (origin, counts[i].1 + 1)) =~= counts.update(
            i,
            (origin, counts[i].1 + 1),
        ));
    }
}

/// Bumping an origin with no entry appends one with count one.
proof fn lemma_bump_origin_absent(counts: Seq<(u64, int)>, origin: u64)
    requires
        forall|k: int| 0 <= k < counts.len() ==> (#[trigger] counts[k]).0 != origin,
    ensures
        spec_bump_origin(counts, origin) == counts.push((origin, 1int)),
    decreases counts.len(),
{
    if counts.len() == 0 {
        assert(spec_bump_origin(counts, origin) =~= counts.push((origin, 1int)));
    } else {
        let rest = counts.drop_first();
        assert(forall|k: int| 0 <= k < rest.len() ==> (#[trigger] rest[k]).0 != origin);
        lemma_bump_origin_absent(rest, origin);
        assert(seq![counts[0]] + rest.push((origin, 1int)) =~= counts.push((origin, 1int)));
    }
}

/// The provenance tally of a card-count vector, as the model sees it.
pub open spec fn spec_origin_model(counts: Seq<(u64, u64)>) -> Seq<(u64, int)> {
    counts.map_values(|p: (u64, u64)| (p.0, p.1 as int))
}

/// The difficulty a row feeds into the difficulty histogram: the bounded
/// difficulty normalized to the unit interval; a never-reviewed row carries
/// none and feeds zero.
pub open spec fn spec_difficulty_value(state: MemoryState) -> u64 {
    match state {
        MemoryState::New => 0u64,
        MemoryState::Reviewed(m) => (m.difficulty / 10) as u64,
    }
}

/// The mathematical content of the statistics aggregate.
pub ghost struct StatsModel {
    pub total_rows: int,
    pub num_cards: int,
    pub new_count: int,
    pub young_count: int,
    pub mature_count: int,
    pub due_now: int,
    pub upcoming_week: Seq<int>,
    pub upcoming_month: int,
    pub origin_counts: Seq<(u64, int)>,
    pub difficulty: HistModel,
    pub retrievability: HistModel,
}

impl StatsModel {
    /// Every running counter a known row advances is at most the cap; the
    /// raw row total is tracked separately.
    pub open spec fn bounded(self, cap: int) -> bool {
        &&& self.new_count <= cap
        &&& self.young_count <= cap
        &&& self.mature_count <= cap
        &&& self.due_now <= cap
        &&& forall|k: int| 0 <= k < self.upcoming_week.len() ==> self.upcoming_week[k] <= cap
        &&& self.upcoming_month <= cap
        &&& forall|k: int|
            0 <= k < self.origin_counts.len() ==> (#[trigger] self.origin_counts[k]).1 <= cap
        &&& self.difficulty.count <= cap
        &&& self.retrievability.count <= cap
    }
}

/// The empty aggregate over a known set of the given size.
pub open spec fn spec_stats_initial(num_known: int) -> StatsModel {
    StatsModel {
        total_rows: 0,
        num_cards: num_known,
        new_count: 0,
        young_count: 0,
        mature_count: 0,
        due_now: 0,
        upcoming_week: Seq::new(WEEK_BUCKETS as nat, |i: int| 0int),
        upcoming_month: 0,
        origin_counts: Seq::empty(),
        difficulty: spec_hist_empty(5),
        retrievability: spec_hist_empty(5),
    }
}

/// The aggregate after one known row: classify its lifecycle, bucket its due
/// status, tally its provenance, and feed the histograms; the raw row total
/// is advanced elsewhere, for known and stale rows alike.
pub open spec fn spec_stats_row_update(
    m: StatsModel,
    card: Card,
    row: StoredCardRow,
    as_of: u64,
    cfg: SchedulerConfig,
) -> StatsModel {
    let lc = spec_lifecycle(row.state, cfg.mature_threshold);
    StatsModel {
        total_rows: m.total_rows,
        num_cards: m.num_cards,
        new_count: m.new_count + if lc is New {
            1int
        } else {
            0
        },
        young_count: m.young_count + if lc is Young {
            1int
        } else {
            0
        },
        mature_count: m.mature_count + if lc is Mature {
            1int
        } else {
            0
        },
        due_now: m.due_now + if spec_is_due(row, as_of) {
            1int
        } else {
            0
        },
        upcoming_week: if spec_in_week(row.state, as_of) {
            let off = spec_week_offset(row.state->Reviewed_0, as_of);
            m.upcoming_week.update(off, m.upcoming_week[off] + 1)
        } else {
            m.upcoming_week
        },
        upcoming_month: m.upcoming_month + if spec_in_month(row.state, as_of) {
            1int
        } else {
            0
        },
        origin_counts: spec_bump_origin(m.origin_counts, card.origin),
        difficulty: spec_hist_update(m.difficulty, spec_difficulty_value(row.state), 5),
        retrievability: match row.state {
            MemoryState::New => m.retrievability,
            MemoryState::Reviewed(mm) => spec_hist_update(
                m.retrievability,
                spec_recall(
                    spec_elapsed(as_of as int, mm.last_reviewed_at as int),
                    mm.stability as int,
                    cfg.decay_factor as int,
                ) as u64,
                5,
            ),
        },
    }
}

/// The aggregate over a sequence of rows: every row advances the raw total,
/// a row whose identity is known contributes to every other statistic.
pub open spec fn spec_aggregate_rows(
    m: StatsModel,
    rows: Seq<StoredCardRow>,
    known: Seq<Card>,
    as_of: u64,
    cfg: SchedulerConfig,
) -> StatsModel
    decreases rows.len(),
{
    if rows.len() == 0 {
        m
    } else {
        let row = rows[0];
        let counted = StatsModel { total_rows: m.total_rows + 1, ..m };
        let absorbed = match spec_known_find(known, row.identity) {
            Some(card) => spec_stats_row_update(counted, card, row, as_of, cfg),
            None => counted,
        };
        spec_aggregate_rows(absorbed, rows.drop_first(), known, as_of, cfg)
    }
}

/// The statistics of a store against a known-card set at an instant.
pub open spec fn spec_aggregate(
    rows: Seq<StoredCardRow>,
    known: Seq<Card>,
    as_of: u64,
    cfg: SchedulerConfig,
) -> StatsModel {
    spec_aggregate_rows(spec_stats_initial(known.len() as int), rows, known, as_of, cfg)
}

/// The statistics aggregate as plain data; formatting and printing belong
/// to callers.
#[derive(Debug)]
pub struct CardStats {
    pub total_rows: u64,
    pub num_cards: u64,
    pub new_count: u64,
    pub young_count: u64,
    pub mature_count: u64,
    pub due_now: u64,
    pub upcoming_week: Vec<u64>,
    pub upcoming_month: u64,
    pub origin_counts: Vec<(u64, u64)>,
    pub difficulty_histogram: Histogram<5>,
    pub retrievability_histogram: Histogram<5>,
}

impl View for CardStats {
    type V = StatsModel;

    open spec fn view(&self) -> StatsModel {
        StatsModel {
            total_rows: self.total_rows as int,
            num_cards: self.num_cards as int,
            new_count: self.new_count as int,
            young_count: self.young_count as int,
            mature_count: self.mature_count as int,
            due_now: self.due_now as int,
            upcoming_week: self.upcoming_week@.map_values(|b: u64| b as int),
            upcoming_month: self.upcoming_month as int,
            origin_counts: spec_origin_model(self.origin_counts@),
            difficulty: self.difficulty_histogram@,
            retrievability: self.retrievability_histogram@,
        }
    }
}

impl CardStats {
    /// The invariant of the aggregate: eight week buckets and well-formed
    /// histograms.
    pub open spec fn wf(&self) -> bool {
        &&& self.upcoming_week@.len() == WEEK_BUCKETS
        &&& self.difficulty_histogram.inv()
        &&& self.retrievability_histogram.inv()
    }

    /// An empty aggregate over a known set of the given size.
    pub fn new(num_cards: u64) -> (stats: CardStats)
        ensures
            stats.wf(),
            stats@ == spec_stats_initial(num_cards as int),
    {
        let mut upcoming_week: Vec<u64> = Vec::new();
        let mut i: usize = 0;
        while i < WEEK_BUCKETS
            invariant
                i <= WEEK_BUCKETS,
                upcoming_week@.len() == i,
                forall|k: int| 0 <= k < i ==> upcoming_week@[k] == 0u64,
            decreases WEEK_BUCKETS - i,
        {
            upcoming_week.push(0);
            i = i + 1;
        }
        let stats = CardStats {
            total_rows: 0,
            num_cards,
            new_count: 0,
            young_count: 0,
            mature_count: 0,
            due_now: 0,
            upcoming_week,
            upcoming_month: 0,
            origin_counts: Vec::new(),
            difficulty_histogram: Histogram::new(),
            retrievability_histogram: Histogram::new(),
        };
        proof {
            assert(stats@.upcoming_week =~= spec_stats_initial(num_cards as int).upcoming_week);
            assert(stats@.origin_counts =~= spec_stats_initial(num_cards as int).origin_counts);
        }
        stats
    }

    /// Tally one more card from the given origin.
    fn bump_origin(&mut self, origin: u64)
        requires
            forall|k: int|
                0 <= k < old(self).origin_counts@.len() ==> (#[trigger] old(
                    self,
                ).origin_counts@[k]).1 < u64::MAX,
        ensures
            final(self)@.origin_counts == spec_bump_origin(old(self)@.origin_counts, origin),
            final(self).origin_counts@.len() <= old(self).origin_counts@.len() + 1,
            final(self).total_rows == old(self).total_rows,
            final(self).num_cards == old(self).num_cards,
            final(self).new_count == old(self).new_count,
            final(self).young_count == old(self).young_count,
            final(self).mature_count == old(self).mature_count,
            final(self).due_now == old(self).due_now,
            final(self).upcoming_week == old(self).upcoming_week,
            final(self).upcoming_month == old(self).upcoming_month,
            final(self).difficulty_histogram == old(self).difficulty_histogram,
            final(self).retrievability_histogram == old(self).retrievability_histogram,
    {
        let n = self.origin_counts.len();
        let mut found: Option<usize> = None;
        let mut i: usize = 0;
        while i < n
            invariant
                n == self.origin_counts@.len(),
                i <= n,
                found matches Some(j) ==> j < n && self.origin_counts@[j as int].0 == origin
                    && (forall|k: int|
                    0 <= k < j ==> (#[trigger] self.origin_counts@[k]).0 != origin),
                found is None ==> forall|k: int|
                    0 <= k < i ==> (#[trigger] self.origin_counts@[k]).0 != origin,
            decreases n - i,
        {
            if found.is_none() && self.origin_counts[i].0 == origin {
                found = Some(i);
            }
            i = i + 1;
        }
        let ghost model = spec_origin_model(self.origin_counts@);
        match found {
            Some(j) => {
                let entry = self.origin_counts[j];
                self.origin_counts.set(j, (origin, entry.1 + 1));
                proof {
                    assert(forall|k: int| 0 <= k < j ==> (#[trigger] model[k]).0 != origin);
                    lemma_bump_origin_at(model, origin, j as int);
                    assert(spec_origin_model(self.origin_counts@) =~= model.update(
                        j as int,
                        (origin, model[j as int].1 + 1),
                    ));
                }
            },
            None => {
                self.origin_counts.push((origin, 1));
                proof {
                    assert(forall|k: int|
                        0 <= k < model.len() ==> (#[trigger] model[k]).0 != origin);
                    lemma_bump_origin_absent(model, origin);
                    assert(spec_origin_model(self.origin_counts@) =~= model.push((origin, 1int)));
                }
            },
        }
    }

    /// Absorb one known row: tally its lifecycle, its due status (due now,
    /// or in the week-ahead day buckets and the overlapping month-ahead
    /// window), its provenance, its normalized difficulty, and — for a
    /// reviewed row — its recall probability at the instant.
    pub fn update(&mut self, card: &Card, row: &StoredCardRow, as_of: u64, cfg: &SchedulerConfig)
        requires
            cfg.wf(),
            as_of <= TIMESTAMP_MAX,
            row.state.wf(),
            old(self).wf(),
            old(self)@.bounded(COUNTER_CAP - 1),
        ensures
            final(self).wf(),
            final(self)@ == spec_stats_row_update(old(self)@, *card, *row, as_of, *cfg),
    {
        let lc = classify(&row.state, cfg.mature_threshold);
        match lc {
            CardLifeCycle::New => {
                self.new_count = self.new_count + 1;
            },
            CardLifeCycle::Young => {
                self.young_count = self.young_count + 1;
            },
            CardLifeCycle::Mature => {
                self.mature_count = self.mature_count + 1;
            },
        }
        let due_now = match row.state {
            MemoryState::New => true,
            MemoryState::Reviewed(m) => m.due_date <= as_of,
        };
        if due_now {
            self.due_now = self.due_now + 1;
        }
        match row.state {
            MemoryState::New => {},
            MemoryState::Reviewed(m) => {
                if as_of < m.due_date && m.due_date <= as_of + WEEK_HORIZON {
                    proof {
                        lemma_week_offset_in_range(m, as_of);
                        lemma_div_is_ordered(as_of as int, m.due_date as int,
                            SECONDS_PER_DAY as int);
                    }
                    let off: usize = ((m.due_date / SECONDS_PER_DAY - as_of / SECONDS_PER_DAY)
                        as usize);
                    let ghost before = self.upcoming_week@.map_values(|b: u64| b as int);
                    let current = self.upcoming_week[off];
                    proof {
                        assert(old(self)@.upcoming_week[off as int] == current as int);
                        assert(current < u64::MAX);
                    }
                    self.upcoming_week.set(off, current + 1);
                    proof {
                        assert(self.upcoming_week@.map_values(|b: u64| b as int) =~= before.update(
                            off as int,
                            before[off as int] + 1,
                        ));
                    }
                }
                if as_of < m.due_date && m.due_date <= as_of + MONTH_HORIZON {
                    self.upcoming_month = self.upcoming_month + 1;
                }
            },
        }
        proof {
            assert(self.origin_counts@ == old(self).origin_counts@);
            assert forall|k: int| 0 <= k < self.origin_counts@.len() implies (
            #[trigger] self.origin_counts@[k]).1 < u64::MAX by {
                assert(old(self)@.origin_counts[k] == (
                    old(self).origin_counts@[k].0,
                    old(self).origin_counts@[k].1 as int,
                ));
                assert(old(self)@.origin_counts[k].1 <= COUNTER_CAP - 1);
            }
        }
        self.bump_origin(card.origin);
        let difficulty_value: u64 = match row.state {
            MemoryState::New => 0,
            MemoryState::Reviewed(m) => m.difficulty / 10,
        };
        self.difficulty_histogram.update(difficulty_value);
        match row.state {
            MemoryState::New => {},
            MemoryState::Reviewed(m) => {
                let elapsed = elapsed_millidays(as_of, m.last_reviewed_at);
                let r = recall(elapsed, m.stability, cfg);
                self.retrievability_histogram.update(r);
            },
        }
    }
}

/// A bump of the provenance tally raises no count past one more than the
/// cap every count respected before, and adds at most one entry.
proof fn lemma_bump_origin_bounded(counts: Seq<(u64, int)>, origin: u64, cap: int)
    requires
        0 <= cap,
        forall|k: int| 0 <= k < counts.len() ==> (#[trigger] counts[k]).1 <= cap,
    ensures
        spec_bump_origin(counts, origin).len() <= counts.len() + 1,
        forall|k: int|
            0 <= k < spec_bump_origin(counts, origin).len() ==> (#[trigger] spec_bump_origin(
                counts,
                origin,
            )[k]).1 <= cap + 1,
    decreases counts.len(),
{
    let result = spec_bump_origin(counts, origin);
    if counts.len() == 0 {
    } else if counts[0].0 == origin {
        assert forall|k: int| 0 <= k < result.len() implies (#[trigger] result[k]).1 <= cap
            + 1 by {
            if k > 0 {
                assert(result[k] == counts[k]);
            }
        }
    } else {
        let rest = counts.drop_first();
        assert(forall|k: int| 0 <= k < rest.len() ==> (#[trigger] rest[k]).1 <= cap);
        lemma_bump_origin_bounded(rest, origin, cap);
        let bumped = spec_bump_origin(rest, origin);
        assert forall|k: int| 0 <= k < result.len() implies (#[trigger] result[k]).1 <= cap
            + 1 by {
            if k > 0 {
                assert(result[k] == bumped[k - 1]);
            }
        }
    }
}

/// One row's absorption keeps every counter within one more than the cap it
/// respected before.
proof fn lemma_row_update_bounded(
    m: StatsModel,
    card: Card,
    row: StoredCardRow,
    as_of: u64,
    cfg: SchedulerConfig,
    cap: int,
)
    requires
        0 <= cap,
        m.bounded(cap),
        m.upcoming_week.len() == WEEK_BUCKETS,
    ensures
        spec_stats_row_update(m, card, row, as_of, cfg).bounded(cap + 1),
{
    lemma_bump_origin_bounded(m.origin_counts, card.origin, cap);
    let after = spec_stats_row_update(m, card, row, as_of, cfg);
    if spec_in_week(row.state, as_of) {
        lemma_week_offset_in_range(row.state->Reviewed_0, as_of);
    }
    assert forall|k: int| 0 <= k < after.upcoming_week.len() implies after.upcoming_week[k] <= cap
        + 1 by {
        assert(m.upcoming_week[k] <= cap);
    }
}

/// A bound on every counter holds for any larger cap too.
proof fn lemma_bounded_weaken(m: StatsModel, cap1: int, cap2: int)
    requires
        m.bounded(cap1),
        cap1 <= cap2,
    ensures
        m.bounded(cap2),
{
    assert forall|k: int| 0 <= k < m.upcoming_week.len() implies m.upcoming_week[k] <= cap2 by {
        assert(m.upcoming_week[k] <= cap1);
    }
    assert forall|k: int| 0 <= k < m.origin_counts.len() implies (#[trigger] m.origin_counts[k]).1
        <= cap2 by {
        assert(m.origin_counts[k].1 <= cap1);
    }
}

/// The statistics of a store's rows against a known-card set at an instant:
/// every row advances the raw total; every row whose identity is known
/// contributes to the lifecycle counts, the due buckets, the provenance
/// tally and the histograms; stale rows contribute nothing else.
pub fn aggregate(
    known: &KnownCards,
    rows: &Vec<StoredCardRow>,
    as_of: u64,
    cfg: &SchedulerConfig,
) -> (stats: CardStats)
    requires
        cfg.wf(),
        as_of <= TIMESTAMP_MAX,
        forall|i: int| 0 <= i < rows@.len() ==> (#[trigger] rows@[i].state).wf(),
        rows@.len() < COUNTER_CAP,
    ensures
        stats.wf(),
        stats@ == spec_aggregate(rows@, known@, as_of, *cfg),
{
    let num_known = known.len();
    let mut stats = CardStats::new(num_known as u64);
    let n = rows.len();
    let mut i: usize = 0;
    proof {
        assert(rows@.skip(0) =~= rows@);
    }
    while i < n
        invariant
            cfg.wf(),
            as_of <= TIMESTAMP_MAX,
            forall|k: int| 0 <= k < rows@.len() ==> (#[trigger] rows@[k].state).wf(),
            n == rows@.len(),
            n < COUNTER_CAP,
            i <= n,
            stats.wf(),
            stats@.bounded(i as int),
            stats@.total_rows == i,
            spec_aggregate(rows@, known@, as_of, *cfg) == spec_aggregate_rows(
                stats@,
                rows@.skip(i as int),
                known@,
                as_of,
                *cfg,
            ),
        decreases n - i,
    {
        let ghost suffix = rows@.skip(i as int);
        proof {
            assert(suffix[0] == rows@[i as int]);
            assert(suffix.drop_first() =~= rows@.skip(i as int + 1));
        }
        let row = rows[i];
        let ghost prev = stats@;
        self_total_increment(&mut stats);
        let ghost counted = stats@;
        proof {
            assert(counted.bounded(i as int));
            lemma_bounded_weaken(counted, i as int, COUNTER_CAP - 1);
        }
        let found = known.find(row.identity);
        match found {
            Some(card) => {
                proof {
                    lemma_row_update_bounded(counted, card, row, as_of, *cfg, i as int);
                }
                stats.update(&card, &row, as_of, cfg);
            },
            None => {
                proof {
                    lemma_bounded_weaken(counted, i as int, i as int + 1);
                }
            },
        }
        i = i + 1;
    }
    proof {
        assert(rows@.skip(n as int) =~= Seq::<StoredCardRow>::empty());
    }
    stats
}

/// Advance the raw total of rows ever seen.
fn self_total_increment(stats: &mut CardStats)
    requires
        old(stats).total_rows < u64::MAX,
    ensures
        final(stats)@ == (StatsModel { total_rows: old(stats)@.total_rows + 1, ..old(stats)@ }),
        final(stats).wf() == old(stats).wf(),
{
    stats.total_rows = stats.total_rows + 1;
}

} // verus!
