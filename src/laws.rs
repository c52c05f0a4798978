//! Properties that hold across calls: pooling of streams, growth of
//! positional state, uniform qualities, repeated records and empty input.
use vstd::prelude::*;

use crate::record::{
    CARRIAGE_RETURN, NEWLINE, RecordModel, is_truncated, lemma_lines_from_append,
    lemma_lines_from_step, lemma_records_of_append, line_end, lines, records_of,
    records_of_lines, strip_terminator,
};
use crate::runner::{StatisticModel, fold_records, lemma_fold_records_append};
use crate::stats::{
    CompositionModel, PositionQualityModel, ReadQualityModel, code_sum,
    composition_report, composition_step, position_quality_report, position_quality_step,
    quality_of, read_quality_report, read_quality_step, scaled_mean_code, zero_ratio,
};

verus! {

/// Pooling: feeding stream `a` and then stream `b` to a statistic leaves it
/// as feeding it their concatenation once would, and the concatenation ends
/// as `b` does. This holds when `a` ends after a complete record with its
/// line terminator; otherwise a record of the concatenation straddles the
/// two streams.
pub proof fn pooling_matches_concatenation(m: StatisticModel, a: Seq<u8>, b: Seq<u8>)
    requires
        a.len() == 0 || a.last() == NEWLINE,
        !is_truncated(a),
    ensures
        fold_records(fold_records(m, records_of(a)), records_of(b)) == fold_records(
            m,
            records_of(a + b),
        ),
        is_truncated(a + b) == is_truncated(b),
        lines(a + b).len() % 4 == lines(b).len() % 4,
{
    lemma_records_of_append(a, b);
    lemma_fold_records_append(m, records_of(a), records_of(b));
}

/// Growth: a record never discards or resets what a positional statistic
/// has accumulated. Its state only grows, and each position that existed
/// keeps its sum and count, plus what the record adds there.
pub proof fn position_quality_growth_keeps_sums(m: PositionQualityModel, r: RecordModel)
    requires
        m.sums.len() == m.counts.len(),
    ensures
        ({
            let n = position_quality_step(m, r);
            &&& n.sums.len() >= m.sums.len()
            &&& n.sums.len() >= r.qual.len()
            &&& forall|i: int|
                0 <= i < m.sums.len() ==> {
                    &&& #[trigger] n.sums[i] == m.sums[i] + (if i < r.qual.len() {
                        quality_of(r.qual[i])
                    } else {
                        0
                    })
                    &&& n.counts[i] == m.counts[i] + (if i < r.qual.len() {
                        1int
                    } else {
                        0
                    })
                }
        }),
{
}

/// Growth: a record never discards or resets the class counts of a
/// position; each count of an existing position stays or rises by one.
pub proof fn composition_growth_keeps_counts(m: CompositionModel, r: RecordModel)
    requires
        forall|i: int| 0 <= i < m.counts.len() ==> (#[trigger] m.counts[i]).len() == 5,
    ensures
        ({
            let n = composition_step(m, r);
            &&& n.counts.len() >= m.counts.len()
            &&& n.counts.len() >= r.seq.len()
            &&& forall|i: int, k: int|
                0 <= i < m.counts.len() && 0 <= k < 5 ==> m.counts[i][k] <= #[trigger] n.counts[i][k]
                    <= m.counts[i][k] + 1
        }),
{
}

/// Sum of the codes of a line that repeats one code.
proof fn lemma_code_sum_uniform(code: u8, n: nat)
    ensures
        code_sum(Seq::new(n, |i: int| code)) == code as int * n,
    decreases n,
{
    if n > 0 {
        let s = Seq::new(n, |i: int| code);
        assert(s.drop_last() =~= Seq::new((n - 1) as nat, |i: int| code));
        lemma_code_sum_uniform(code, (n - 1) as nat);
        assert(code as int * n == code as int * (n - 1) + code as int) by (nonlinear_arith);
    }
}

/// Uniform qualities: a record whose quality line repeats code 73 (`I`) over
/// any length gives a fresh per-read statistic the mean quality 40 and a
/// fresh per-position statistic the mean 40 at every position it covers.
pub proof fn uniform_quality_line_means_forty(seq: Seq<u8>, n: nat)
    requires
        n > 0,
    ensures
        ({
            let r = RecordModel { seq, qual: Seq::new(n, |i: int| 73u8) };
            let q = read_quality_report(
                read_quality_step(ReadQualityModel { scaled_mean_sum: 0, read_count: 0 }, r),
            );
            let p = position_quality_report(
                position_quality_step(
                    PositionQualityModel { sums: Seq::empty(), counts: Seq::empty(), records: 0 },
                    r,
                ),
            );
            &&& q.denominator > 0
            &&& q.numerator == 40 * q.denominator
            &&& p.len() == n
            &&& forall|i: int| 0 <= i < n ==> {
                &&& (#[trigger] p[i]).denominator == 1
                &&& p[i].numerator == 40
            }
        }),
{
    let q = Seq::new(n, |i: int| 73u8);
    lemma_code_sum_uniform(73u8, n);
    let ni = n as int;
    assert((73 * ni * 4294967296) / ni == 73 * 4294967296) by (nonlinear_arith)
        requires
            ni > 0,
    ;
    assert(scaled_mean_code(q) == 73 * 4294967296);
}

/// Repetition: a fresh per-read statistic fed the same record `k` times holds
/// `k` times that record's scaled mean and a count of `k`, so its reported
/// mean does not depend on `k`.
pub proof fn repeated_record_keeps_mean(r: RecordModel, k: nat)
    ensures
        fold_records(
            StatisticModel::ReadQuality(ReadQualityModel { scaled_mean_sum: 0, read_count: 0 }),
            Seq::new(k, |i: int| r),
        ) == StatisticModel::ReadQuality(
            ReadQualityModel { scaled_mean_sum: k * scaled_mean_code(r.qual), read_count: k as int },
        ),
    decreases k,
{
    if k > 0 {
        let recs = Seq::new(k, |i: int| r);
        assert(recs.drop_last() =~= Seq::new((k - 1) as nat, |i: int| r));
        repeated_record_keeps_mean(r, (k - 1) as nat);
        let x = scaled_mean_code(r.qual);
        assert((k - 1) * x + x == k * x) by (nonlinear_arith);
    }
}

/// Empty input: a stream without bytes holds no record, ends cleanly, and
/// leaves every statistic as it was; fresh statistics then report zero and
/// empty positional sequences.
pub proof fn empty_input_reports_defaults(m: StatisticModel)
    ensures
        records_of(Seq::empty()).len() == 0,
        !is_truncated(Seq::empty()),
        fold_records(m, records_of(Seq::empty())) == m,
        read_quality_report(ReadQualityModel { scaled_mean_sum: 0, read_count: 0 }) == zero_ratio(),
        position_quality_report(
            PositionQualityModel { sums: Seq::empty(), counts: Seq::empty(), records: 0 },
        ).len() == 0,
        composition_report(CompositionModel { counts: Seq::empty(), records: 0 }).len() == 0,
{
}

/// Whether a line content holds no newline and does not end with a carriage
/// return, so that it comes back unchanged once its terminator is stripped.
pub open spec fn is_plain_line(l: Seq<u8>) -> bool {
    &&& forall|i: int| 0 <= i < l.len() ==> l[i] != NEWLINE
    &&& (l.len() == 0 || l.last() != CARRIAGE_RETURN)
}

proof fn lemma_terminated_line_end(l: Seq<u8>, k: int)
    requires
        forall|i: int| 0 <= i < l.len() ==> l[i] != NEWLINE,
        0 <= k <= l.len(),
    ensures
        line_end(l.push(NEWLINE), k) == l.len() + 1,
    decreases l.len() - k,
{
    if k < l.len() {
        lemma_terminated_line_end(l, k + 1);
    }
}

proof fn lemma_terminated_line(l: Seq<u8>)
    requires
        forall|i: int| 0 <= i < l.len() ==> l[i] != NEWLINE,
    ensures
        lines(l.push(NEWLINE)) == seq![l.push(NEWLINE)],
{
    let t = l.push(NEWLINE);
    lemma_terminated_line_end(l, 0);
    lemma_lines_from_step(t, 0);
    lemma_lines_from_step(t, t.len() as int);
    assert(t.subrange(0, t.len() as int) =~= t);
    assert(lines(t) =~= seq![t]);
}

/// Parser round trip: four terminated lines, whose second and fourth hold
/// plain contents `s` and `q`, make exactly one record with symbols `s` and
/// quality codes `q`, terminators not retained, and end the stream cleanly.
/// The first and third lines may hold anything but a newline.
pub proof fn parse_round_trip(id: Seq<u8>, s: Seq<u8>, sep: Seq<u8>, q: Seq<u8>)
    requires
        forall|i: int| 0 <= i < id.len() ==> id[i] != NEWLINE,
        forall|i: int| 0 <= i < sep.len() ==> sep[i] != NEWLINE,
        is_plain_line(s),
        is_plain_line(q),
    ensures
        ({
            let data = id.push(NEWLINE) + s.push(NEWLINE) + sep.push(NEWLINE) + q.push(NEWLINE);
            &&& records_of(data) == seq![RecordModel { seq: s, qual: q }]
            &&& !is_truncated(data)
        }),
{
    let l1 = id.push(NEWLINE);
    let l2 = s.push(NEWLINE);
    let l3 = sep.push(NEWLINE);
    let l4 = q.push(NEWLINE);
    lemma_terminated_line(id);
    lemma_terminated_line(s);
    lemma_terminated_line(sep);
    lemma_terminated_line(q);
    lemma_lines_from_append(l1, l2, 0);
    assert((l1 + l2).last() == NEWLINE);
    lemma_lines_from_append(l1 + l2, l3, 0);
    assert((l1 + l2 + l3).last() == NEWLINE);
    lemma_lines_from_append(l1 + l2 + l3, l4, 0);
    let ls = lines(l1 + l2 + l3 + l4);
    assert(ls =~= seq![l1, l2, l3, l4]);
    assert(l2.drop_last() =~= s);
    assert(l4.drop_last() =~= q);
    assert(strip_terminator(l2) == s);
    assert(strip_terminator(l4) == q);
    assert(records_of_lines(ls.subrange(4, 4)) =~= Seq::<RecordModel>::empty());
    assert(records_of_lines(ls) =~= seq![RecordModel { seq: s, qual: q }]);
}

} // verus!
