//! The closed set of statistics and the runner that feeds records to them.
use vstd::prelude::*;

use crate::record::{
    FastqRecord, ParseStatus, RecordModel, find_line_end, is_truncated, lemma_lines_from_len,
    lemma_lines_from_step, lemma_records_of_lines_len, lines, lines_from, record_of_lines,
    records_of, records_of_lines, stripped_copy,
};
use crate::stats::{
    BaseCompositionStatistic, BaseProportions, BaseQualityPosStatistic, CompositionModel,
    MAX_RECORDS, PositionQualityModel, Ratio, ReadQualityModel, ReadQualityStatistic,
    composition_report, composition_step, position_quality_report, position_quality_step,
    read_quality_report, read_quality_step,
};

verus! {

/// State of one statistic.
pub enum StatisticModel {
    ReadQuality(ReadQualityModel),
    BaseQualityPos(PositionQualityModel),
    BaseComposition(CompositionModel),
}

/// A statistic's state after one more record.
pub open spec fn statistic_step(m: StatisticModel, r: RecordModel) -> StatisticModel {
    match m {
        StatisticModel::ReadQuality(s) => StatisticModel::ReadQuality(read_quality_step(s, r)),
        StatisticModel::BaseQualityPos(s) => StatisticModel::BaseQualityPos(
            position_quality_step(s, r),
        ),
        StatisticModel::BaseComposition(s) => StatisticModel::BaseComposition(
            composition_step(s, r),
        ),
    }
}

/// A statistic's state after the given records, in order.
pub open spec fn fold_records(m: StatisticModel, recs: Seq<RecordModel>) -> StatisticModel
    decreases recs.len(),
{
    if recs.len() == 0 {
        m
    } else {
        statistic_step(fold_records(m, recs.drop_last()), recs.last())
    }
}

/// How many records a statistic has seen.
pub open spec fn records_seen(m: StatisticModel) -> int {
    match m {
        StatisticModel::ReadQuality(s) => s.read_count,
        StatisticModel::BaseQualityPos(s) => s.records,
        StatisticModel::BaseComposition(s) => s.records,
    }
}

/// One statistic of the closed set that the runner drives.
pub enum Statistic {
    ReadQuality(ReadQualityStatistic),
    BaseQualityPos(BaseQualityPosStatistic),
    BaseComposition(BaseCompositionStatistic),
}

/// What one statistic reports, under a key of its own.
#[derive(Debug, Clone, PartialEq)]
pub enum StatisticReport {
    /// Mean over records of each record's mean quality.
    AverageReadQuality(Ratio),
    /// Mean quality at each position.
    AverageBaseQualityPerPosition(Vec<Ratio>),
    /// Proportion of each symbol class at each position.
    BaseCompositionPerPosition(Vec<BaseProportions>),
}

impl View for Statistic {
    type V = StatisticModel;

    open spec fn view(&self) -> StatisticModel {
        match self {
            Statistic::ReadQuality(s) => StatisticModel::ReadQuality(s@),
            Statistic::BaseQualityPos(s) => StatisticModel::BaseQualityPos(s@),
            Statistic::BaseComposition(s) => StatisticModel::BaseComposition(s@),
        }
    }
}

/// Whether a report is the one that a statistic in the given state gives.
pub open spec fn is_report_of(m: StatisticModel, r: StatisticReport) -> bool {
    match (m, r) {
        (StatisticModel::ReadQuality(s), StatisticReport::AverageReadQuality(v)) => v
            == read_quality_report(s),
        (
            StatisticModel::BaseQualityPos(s),
            StatisticReport::AverageBaseQualityPerPosition(v),
        ) => v@ == position_quality_report(s),
        (StatisticModel::BaseComposition(s), StatisticReport::BaseCompositionPerPosition(v)) => v@.map_values(
            |p: BaseProportions| p@,
        ) == composition_report(s),
        _ => false,
    }
}

impl Statistic {
    /// The statistic's counters are within bounds.
    pub open spec fn wf(&self) -> bool {
        match self {
            Statistic::ReadQuality(s) => s.wf(),
            Statistic::BaseQualityPos(s) => s.wf(),
            Statistic::BaseComposition(s) => s.wf(),
        }
    }

    /// Feeds one record to the statistic.
    pub fn process(&mut self, record: &FastqRecord)
        requires
            old(self).wf(),
            records_seen(old(self)@) < MAX_RECORDS,
        ensures
            final(self).wf(),
            final(self)@ == statistic_step(old(self)@, record@),
    {
        match self {
            Statistic::ReadQuality(s) => s.process(record),
            Statistic::BaseQualityPos(s) => s.process(record),
            Statistic::BaseComposition(s) => s.process(record),
        }
    }

    /// The statistic's report on what it has seen so far; it changes nothing.
    pub fn report(&self) -> (r: StatisticReport)
        requires
            self.wf(),
        ensures
            is_report_of(self@, r),
    {
        match self {
            Statistic::ReadQuality(s) => StatisticReport::AverageReadQuality(s.report()),
            Statistic::BaseQualityPos(s) => StatisticReport::AverageBaseQualityPerPosition(
                s.report(),
            ),
            Statistic::BaseComposition(s) => StatisticReport::BaseCompositionPerPosition(
                s.report(),
            ),
        }
    }
}

/// A statistic has seen one more record for each record folded into it.
pub proof fn lemma_fold_records_seen(m: StatisticModel, recs: Seq<RecordModel>)
    ensures
        records_seen(fold_records(m, recs)) == records_seen(m) + recs.len(),
    decreases recs.len(),
{
    if recs.len() > 0 {
        lemma_fold_records_seen(m, recs.drop_last());
    }
}

/// How a stream ended.
#[derive(Debug, Clone, Copy, PartialEq, Eq)]
pub enum StreamEnd {
    /// The stream ended after a complete record, or held none.
    Complete,
    /// The stream ended inside a record after the given number of its lines;
    /// that partial record was not counted.
    Truncated(usize),
}

/// Feeds the records of one or more streams to a list of statistics.
pub struct WorkflowRunner {
    statistics: Vec<Statistic>,
}

impl View for WorkflowRunner {
    type V = Seq<StatisticModel>;

    closed spec fn view(&self) -> Seq<StatisticModel> {
        self.statistics@.map_values(|s: Statistic| s@)
    }
}

impl WorkflowRunner {
    /// Every registered statistic is within bounds.
    pub closed spec fn wf(&self) -> bool {
        forall|i: int| 0 <= i < self.statistics@.len() ==> (#[trigger] self.statistics@[i]).wf()
    }

    /// Whether every statistic can take `n` more records.
    pub open spec fn has_room(&self, n: int) -> bool {
        forall|i: int| 0 <= i < self@.len() ==> records_seen(#[trigger] self@[i]) + n <= MAX_RECORDS
    }

    /// A runner with no statistics.
    pub fn new() -> (r: WorkflowRunner)
        ensures
            r.wf(),
            r@.len() == 0,
    {
        WorkflowRunner { statistics: Vec::new() }
    }

    /// A runner with the per-read mean quality, the per-position mean quality
    /// and the per-position composition registered, in that order, all empty.
    pub fn with_default_statistics() -> (r: WorkflowRunner)
        ensures
            r.wf(),
            r@.len() == 3,
            r@[0] == StatisticModel::ReadQuality(ReadQualityModel { scaled_mean_sum: 0, read_count: 0 }),
            r@[1] is BaseQualityPos,
            r@[1]->BaseQualityPos_0.sums.len() == 0,
            r@[1]->BaseQualityPos_0.counts.len() == 0,
            r@[1]->BaseQualityPos_0.records == 0,
            r@[2] is BaseComposition,
            r@[2]->BaseComposition_0.counts.len() == 0,
            r@[2]->BaseComposition_0.records == 0,
    {
        let mut r = WorkflowRunner::new();
        r.register(Statistic::ReadQuality(ReadQualityStatistic::default()));
        r.register(Statistic::BaseQualityPos(BaseQualityPosStatistic::default()));
        r.register(Statistic::BaseComposition(BaseCompositionStatistic::default()));
        r
    }

    /// Appends a statistic; records are dispatched in registration order.
    pub fn register(&mut self, statistic: Statistic)
        requires
            old(self).wf(),
            statistic.wf(),
        ensures
            final(self).wf(),
            final(self)@ == old(self)@.push(statistic@),
    {
        self.statistics.push(statistic);
        assert(self@ =~= old(self)@.push(statistic@));
    }

    /// The registered statistics, in registration order.
    pub fn statistics(&self) -> (r: &Vec<Statistic>)
        ensures
            r@.map_values(|s: Statistic| s@) == self@,
    {
        &self.statistics
    }

    /// Feeds one record to every statistic, in registration order.
    pub fn process_record(&mut self, record: &FastqRecord)
        requires
            old(self).wf(),
            old(self).has_room(1),
        ensures
            final(self).wf(),
            final(self)@.len() == old(self)@.len(),
            forall|i: int|
                0 <= i < old(self)@.len() ==> #[trigger] final(self)@[i] == statistic_step(
                    old(self)@[i],
                    record@,
                ),
    {
        proof {
            assert forall|j: int| 0 <= j < old(self).statistics@.len() implies records_seen(
                #[trigger] old(self).statistics@[j]@,
            ) + 1 <= MAX_RECORDS by {
                assert(old(self)@[j] == old(self).statistics@[j]@);
            }
        }
        let mut i: usize = 0;
        while i < self.statistics.len()
            invariant
                self.statistics@.len() == old(self).statistics@.len(),
                forall|j: int|
                    0 <= j < self.statistics@.len() ==> (#[trigger] self.statistics@[j]).wf(),
                forall|j: int|
                    0 <= j < i ==> #[trigger] self.statistics@[j]@ == statistic_step(
                        old(self).statistics@[j]@,
                        record@,
                    ),
                forall|j: int|
                    i <= j < self.statistics@.len() ==> #[trigger] self.statistics@[j]
                        == old(self).statistics@[j],
                forall|j: int|
                    0 <= j < old(self).statistics@.len() ==> records_seen(
                        #[trigger] old(self).statistics@[j]@,
                    ) + 1 <= MAX_RECORDS,
            decreases self.statistics@.len() - i,
        {
            self.statistics[i].process(record);
            i = i + 1;
        }
        assert(self@.len() == old(self)@.len());
    }

    /// Reads every record of one stream and feeds it to every statistic.
    ///
    /// Calling this again with another stream pools its records into the same
    /// statistics. A stream that ends inside a record is reported as
    /// truncated; its complete records are counted all the same.
    pub fn process(&mut self, data: &[u8]) -> (r: StreamEnd)
        requires
            old(self).wf(),
            old(self).has_room(data@.len() as int),
        ensures
            final(self).wf(),
            final(self)@.len() == old(self)@.len(),
            forall|i: int|
                0 <= i < old(self)@.len() ==> #[trigger] final(self)@[i] == fold_records(
                    old(self)@[i],
                    records_of(data@),
                ),
            (r == StreamEnd::Complete) <==> !is_truncated(data@),
            match r {
                StreamEnd::Truncated(n) => n == lines(data@).len() % 4,
                StreamEnd::Complete => true,
            },
    {
        let mut record = FastqRecord::default();
        let mut pos: usize = 0;
        let ghost all = records_of(data@);
        let ghost mut done: Seq<RecordModel> = Seq::empty();
        proof {
            lemma_lines_from_len(data@, 0);
            lemma_records_of_lines_len(lines(data@));
        }
        loop
            invariant
                pos <= data@.len(),
                self.wf(),
                self@.len() == old(self)@.len(),
                all == records_of(data@),
                all == done + records_of_lines(lines_from(data@, pos as int)),
                lines(data@).len() == 4 * done.len() + lines_from(data@, pos as int).len(),
                all.len() <= data@.len(),
                old(self).has_room(data@.len() as int),
                forall|i: int|
                    0 <= i < old(self)@.len() ==> #[trigger] self@[i] == fold_records(
                        old(self)@[i],
                        done,
                    ),
            decreases data@.len() - pos,
        {
            let status = WorkflowRunner::parse_record(data, pos, &mut record);
            match status {
                ParseStatus::Parsed(next) => {
                    let ghost ls = lines_from(data@, pos as int);
                    proof {
                        assert(records_of_lines(ls) == seq![record@] + records_of_lines(
                            lines_from(data@, next as int),
                        ));
                        assert(all =~= done.push(record@) + records_of_lines(
                            lines_from(data@, next as int),
                        ));
                        lemma_records_of_lines_len(lines_from(data@, next as int));
                        assert forall|i: int| 0 <= i < self@.len() implies records_seen(
                            #[trigger] self@[i],
                        ) + 1 <= MAX_RECORDS by {
                            lemma_fold_records_seen(old(self)@[i], done);
                        }
                    }
                    self.process_record(&record);
                    proof {
                        assert(done.push(record@).drop_last() =~= done);
                        done = done.push(record@);
                    }
                    pos = next;
                },
                ParseStatus::EndOfInput => {
                    proof {
                        assert(all =~= done);
                    }
                    return StreamEnd::Complete;
                },
                ParseStatus::Truncated(n) => {
                    proof {
                        assert(all =~= done);
                    }
                    return StreamEnd::Truncated(n);
                },
            }
        }
    }

    /// Reads the record whose first line starts at `pos`.
    ///
    /// On success the record is overwritten with the stripped second and fourth
    /// lines and the index of the next record is returned; otherwise the record
    /// is left as it was and the status tells a clean end from a truncated one.
    pub fn parse_record(data: &[u8], pos: usize, record: &mut FastqRecord) -> (r: ParseStatus)
        requires
            pos <= data@.len(),
        ensures
            (r == ParseStatus::EndOfInput) <==> lines_from(data@, pos as int).len() == 0,
            match r {
                ParseStatus::Parsed(next) => {
                    &&& pos < next <= data@.len()
                    &&& lines_from(data@, pos as int).len() >= 4
                    &&& lines_from(data@, next as int) == lines_from(data@, pos as int).subrange(
                        4,
                        lines_from(data@, pos as int).len() as int,
                    )
                    &&& final(record)@ == record_of_lines(lines_from(data@, pos as int))
                },
                ParseStatus::EndOfInput => final(record)@ == old(record)@,
                ParseStatus::Truncated(n) => {
                    &&& n == lines_from(data@, pos as int).len()
                    &&& 0 < n < 4
                    &&& final(record)@ == old(record)@
                },
            },
    {
        let ghost ls = lines_from(data@, pos as int);
        proof {
            lemma_lines_from_step(data@, pos as int);
        }
        if pos >= data.len() {
            return ParseStatus::EndOfInput;
        }
        let e1 = find_line_end(data, pos);
        proof {
            lemma_lines_from_step(data@, e1 as int);
        }
        if e1 >= data.len() {
            return ParseStatus::Truncated(1);
        }
        let e2 = find_line_end(data, e1);
        proof {
            lemma_lines_from_step(data@, e2 as int);
        }
        if e2 >= data.len() {
            return ParseStatus::Truncated(2);
        }
        let e3 = find_line_end(data, e2);
        proof {
            lemma_lines_from_step(data@, e3 as int);
        }
        if e3 >= data.len() {
            return ParseStatus::Truncated(3);
        }
        let e4 = find_line_end(data, e3);
        proof {
            lemma_lines_from_step(data@, e4 as int);
        }
        let seq = stripped_copy(data, e1, e2);
        let qual = stripped_copy(data, e3, e4);
        record.set(seq, qual);
        proof {
            assert(ls[1] == data@.subrange(e1 as int, e2 as int));
            assert(ls[3] == data@.subrange(e3 as int, e4 as int));
            assert(lines_from(data@, e4 as int) =~= ls.subrange(4, ls.len() as int));
        }
        ParseStatus::Parsed(e4)
    }

    /// Hands over the statistics; the runner is used up.
    pub fn finalize(self) -> (r: Vec<Statistic>)
        requires
            self.wf(),
        ensures
            r@.map_values(|s: Statistic| s@) == self@,
            forall|i: int| 0 <= i < r@.len() ==> (#[trigger] r@[i]).wf(),
    {
        self.statistics
    }
}

/// Folding two runs of records one after the other is folding both at once.
pub proof fn lemma_fold_records_append(m: StatisticModel, x: Seq<RecordModel>, y: Seq<RecordModel>)
    ensures
        fold_records(fold_records(m, x), y) == fold_records(m, x + y),
    decreases y.len(),
{
    if y.len() == 0 {
        assert(x + y =~= x);
    } else {
        lemma_fold_records_append(m, x, y.drop_last());
        assert((x + y).drop_last() =~= x + y.drop_last());
        assert((x + y).last() == y.last());
    }
}

/// Collects the report of each statistic, in order. Each kind of statistic
/// reports under a key of its own, so only a statistic registered twice can
/// share a key with another.
pub fn assemble_reports(statistics: &Vec<Statistic>) -> (r: Vec<StatisticReport>)
    requires
        forall|i: int| 0 <= i < statistics@.len() ==> (#[trigger] statistics@[i]).wf(),
    ensures
        r@.len() == statistics@.len(),
        forall|i: int| 0 <= i < r@.len() ==> is_report_of(statistics@[i]@, #[trigger] r@[i]),
{
    let mut r: Vec<StatisticReport> = Vec::new();
    let mut i: usize = 0;
    while i < statistics.len()
        invariant
            i <= statistics@.len(),
            r@.len() == i,
            forall|j: int| 0 <= j < statistics@.len() ==> (#[trigger] statistics@[j]).wf(),
            forall|j: int| 0 <= j < i ==> is_report_of(statistics@[j]@, #[trigger] r@[j]),
        decreases statistics@.len() - i,
    {
        r.push(statistics[i].report());
        i = i + 1;
    }
    r
}

} // verus!
