//! Running statistics over records, reported as exact ratios.
use vstd::prelude::*;

use crate::record::{FastqRecord, RecordModel};

verus! {

/// Offset between a quality code and the quality it encodes.
pub const QUALITY_OFFSET: u8 = 33;

/// Fixed-point scale at which each record's mean quality code is summed.
pub const MEAN_SCALE: u128 = 4294967296;

/// Largest number of records that one statistic accepts.
pub const MAX_RECORDS: u64 = 281474976710656;

/// Numeric quality that a code encodes.
pub open spec fn quality_of(code: u8) -> int {
    code as int - QUALITY_OFFSET as int
}

/// Sum of the quality codes of a line.
pub open spec fn code_sum(s: Seq<u8>) -> int
    decreases s.len(),
{
    if s.len() == 0 {
        0
    } else {
        code_sum(s.drop_last()) + s.last() as int
    }
}

/// A record's mean quality code times `MEAN_SCALE`, rounded down; a record
/// without quality codes counts as quality zero.
pub open spec fn scaled_mean_code(q: Seq<u8>) -> int {
    if q.len() == 0 {
        QUALITY_OFFSET as int * MEAN_SCALE as int
    } else {
        (code_sum(q) * MEAN_SCALE as int) / (q.len() as int)
    }
}

/// An exact ratio of two integers.
#[derive(Clone, Copy, Debug, PartialEq, Eq, Structural)]
pub struct Ratio {
    pub numerator: i128,
    pub denominator: u128,
}

/// The ratio that stands for zero where nothing has been counted.
pub open spec fn zero_ratio() -> Ratio {
    Ratio { numerator: 0, denominator: 1 }
}

fn line_code_sum(q: &[u8]) -> (r: u128)
    ensures
        r == code_sum(q@),
        r <= 255 * q@.len(),
{
    let mut sum: u128 = 0;
    let mut i: usize = 0;
    while i < q.len()
        invariant
            i <= q@.len(),
            sum == code_sum(q@.subrange(0, i as int)),
            sum <= 255 * i,
        decreases q@.len() - i,
    {
        assert(q@.subrange(0, i as int + 1).drop_last() =~= q@.subrange(0, i as int));
        sum = sum + q[i] as u128;
        i = i + 1;
    }
    assert(q@.subrange(0, q@.len() as int) =~= q@);
    sum
}

fn scaled_offset(count: u64) -> (r: u128)
    requires
        count <= MAX_RECORDS,
    ensures
        r == QUALITY_OFFSET as int * MEAN_SCALE as int * count as int,
        r < 0x8000_0000_0000_0000_0000_0000_0000_0000,
{
    let c = count as u128;
    assert(33 * 4294967296 * (c as int) <= 33 * 4294967296 * 281474976710656) by (nonlinear_arith)
        requires
            c as int <= 281474976710656,
    ;
    QUALITY_OFFSET as u128 * MEAN_SCALE * c
}

fn scaled_count(count: u64) -> (r: u128)
    requires
        count <= MAX_RECORDS,
    ensures
        r == MEAN_SCALE as int * count as int,
{
    let c = count as u128;
    assert(4294967296 * (c as int) <= 4294967296 * 281474976710656) by (nonlinear_arith)
        requires
            c as int <= 281474976710656,
    ;
    MEAN_SCALE * c
}

/// State of the per-read mean quality: the scaled sum of each record's mean
/// quality code, and the number of records.
pub struct ReadQualityModel {
    pub scaled_mean_sum: int,
    pub read_count: int,
}

/// The per-read mean quality after one more record.
pub open spec fn read_quality_step(m: ReadQualityModel, r: RecordModel) -> ReadQualityModel {
    ReadQualityModel {
        scaled_mean_sum: m.scaled_mean_sum + scaled_mean_code(r.qual),
        read_count: m.read_count + 1,
    }
}

/// What the per-read mean quality reports: the mean over records of each
/// record's mean quality, or zero before any record.
pub open spec fn read_quality_report(m: ReadQualityModel) -> Ratio {
    if m.read_count == 0 {
        zero_ratio()
    } else {
        Ratio {
            numerator: (m.scaled_mean_sum - QUALITY_OFFSET as int * MEAN_SCALE as int
                * m.read_count) as i128,
            denominator: (MEAN_SCALE as int * m.read_count) as u128,
        }
    }
}

/// Computes the mean over records of each record's mean quality.
pub struct ReadQualityStatistic {
    total_quality: u128,
    read_count: u64,
}

impl View for ReadQualityStatistic {
    type V = ReadQualityModel;

    closed spec fn view(&self) -> ReadQualityModel {
        ReadQualityModel {
            scaled_mean_sum: self.total_quality as int,
            read_count: self.read_count as int,
        }
    }
}

impl Default for ReadQualityStatistic {
    fn default() -> (r: ReadQualityStatistic)
        ensures
            r.wf(),
            r@ == (ReadQualityModel { scaled_mean_sum: 0, read_count: 0 }),
    {
        ReadQualityStatistic { total_quality: 0, read_count: 0 }
    }
}

impl ReadQualityStatistic {
    /// The counters stay within the bounds that their types can hold.
    pub closed spec fn wf(&self) -> bool {
        &&& self.read_count <= MAX_RECORDS
        &&& self.total_quality <= 255 * MEAN_SCALE * self.read_count
    }

    proof fn lemma_total_fits(&self)
        requires
            self.wf(),
        ensures
            self.total_quality <= 0x1_0000_0000_0000_0000_0000_0000,
    {
        let t = self.total_quality as int;
        let c = self.read_count as int;
        assert(t <= 255 * 4294967296 * 281474976710656) by (nonlinear_arith)
            requires
                t <= 255 * 4294967296 * c,
                c <= 281474976710656,
        ;
    }

    /// Adds the mean quality of one record.
    pub fn process(&mut self, record: &FastqRecord)
        requires
            old(self).wf(),
            old(self)@.read_count < MAX_RECORDS,
        ensures
            final(self).wf(),
            final(self)@ == read_quality_step(old(self)@, record@),
    {
        let q = record.qual();
        let len = q.len();
        let scaled: u128 = if len == 0 {
            QUALITY_OFFSET as u128 * MEAN_SCALE
        } else {
            let sum = line_code_sum(q);
            let l = len as u128;
            assert((sum as int * MEAN_SCALE as int) / (l as int) <= 255 * MEAN_SCALE as int)
                by (nonlinear_arith)
                requires
                    sum as int <= 255 * (l as int),
                    l as int > 0,
                    MEAN_SCALE as int > 0,
            ;
            (sum * MEAN_SCALE) / l
        };
        proof {
            self.lemma_total_fits();
            let t = self.total_quality as int;
            let c = self.read_count as int;
            assert(t + scaled as int <= 255 * 4294967296 * (c + 1)) by (nonlinear_arith)
                requires
                    t <= 255 * 4294967296 * c,
                    scaled as int <= 255 * 4294967296,
            ;
        }
        self.total_quality = self.total_quality + scaled;
        self.read_count = self.read_count + 1;
    }

    /// Number of records seen.
    pub fn read_count(&self) -> (r: u64)
        ensures
            r == self@.read_count,
    {
        self.read_count
    }

    /// Sum over records of each record's mean quality.
    pub fn total_quality(&self) -> (r: Ratio)
        requires
            self.wf(),
        ensures
            r.numerator == self@.scaled_mean_sum - QUALITY_OFFSET as int * MEAN_SCALE as int
                * self@.read_count,
            r.denominator == MEAN_SCALE,
    {
        proof {
            self.lemma_total_fits();
        }
        Ratio {
            numerator: self.total_quality as i128 - scaled_offset(self.read_count) as i128,
            denominator: MEAN_SCALE,
        }
    }

    /// Mean over records of each record's mean quality; zero before any record.
    pub fn report(&self) -> (r: Ratio)
        requires
            self.wf(),
        ensures
            r == read_quality_report(self@),
    {
        proof {
            self.lemma_total_fits();
        }
        if self.read_count == 0 {
            Ratio { numerator: 0, denominator: 1 }
        } else {
            Ratio {
                numerator: self.total_quality as i128 - scaled_offset(self.read_count) as i128,
                denominator: scaled_count(self.read_count),
            }
        }
    }
}

/// State of the per-position mean quality: for each position, the sum of the
/// qualities seen there and how many were seen; and the number of records.
pub struct PositionQualityModel {
    pub sums: Seq<int>,
    pub counts: Seq<int>,
    pub records: int,
}

/// Length of positional state after a record of length `n`: it only grows.
pub open spec fn grown_len(old_len: int, n: int) -> int {
    if old_len < n {
        n
    } else {
        old_len
    }
}

/// The per-position mean quality after one more record: the state grows to
/// the record's length with zeros, and each position that the record covers
/// gains its quality and one count.
pub open spec fn position_quality_step(m: PositionQualityModel, r: RecordModel) -> PositionQualityModel {
    let q = r.qual;
    let n = grown_len(m.sums.len() as int, q.len() as int);
    PositionQualityModel {
        sums: Seq::new(
            n as nat,
            |i: int|
                (if i < m.sums.len() {
                    m.sums[i]
                } else {
                    0
                }) + (if i < q.len() {
                    quality_of(q[i])
                } else {
                    0
                }),
        ),
        counts: Seq::new(
            n as nat,
            |i: int|
                (if i < m.counts.len() {
                    m.counts[i]
                } else {
                    0
                }) + (if i < q.len() {
                    1int
                } else {
                    0
                }),
        ),
        records: m.records + 1,
    }
}

/// The mean of the qualities at one position, or zero where none was seen.
pub open spec fn position_mean(sum: int, count: int) -> Ratio {
    if count == 0 {
        zero_ratio()
    } else {
        Ratio { numerator: sum as i128, denominator: count as u128 }
    }
}

/// What the per-position mean quality reports: one mean per position.
pub open spec fn position_quality_report(m: PositionQualityModel) -> Seq<Ratio> {
    Seq::new(m.sums.len(), |i: int| position_mean(m.sums[i], m.counts[i]))
}

/// Computes the mean quality at each position.
pub struct BaseQualityPosStatistic {
    total_qualities: Vec<i64>,
    counts: Vec<u64>,
    records: u64,
}

impl View for BaseQualityPosStatistic {
    type V = PositionQualityModel;

    closed spec fn view(&self) -> PositionQualityModel {
        PositionQualityModel {
            sums: self.total_qualities@.map_values(|v: i64| v as int),
            counts: self.counts@.map_values(|v: u64| v as int),
            records: self.records as int,
        }
    }
}

impl Default for BaseQualityPosStatistic {
    fn default() -> (r: BaseQualityPosStatistic)
        ensures
            r.wf(),
            r@.sums.len() == 0,
            r@.counts.len() == 0,
            r@.records == 0,
    {
        BaseQualityPosStatistic { total_qualities: Vec::new(), counts: Vec::new(), records: 0 }
    }
}

impl BaseQualityPosStatistic {
    /// The two positional sequences have one length, and every counter stays
    /// within what one count per record allows.
    pub closed spec fn wf(&self) -> bool {
        &&& self.total_qualities@.len() == self.counts@.len()
        &&& self.records <= MAX_RECORDS
        &&& forall|j: int|
            0 <= j < self.counts@.len() ==> {
                &&& self.counts@[j] <= self.records
                &&& -33 * self.counts@[j] <= self.total_qualities@[j] <= 222 * self.counts@[j]
            }
    }

    /// Adds the qualities of one record, position by position.
    pub fn process(&mut self, record: &FastqRecord)
        requires
            old(self).wf(),
            old(self)@.records < MAX_RECORDS,
        ensures
            final(self).wf(),
            final(self)@ == position_quality_step(old(self)@, record@),
    {
        let q = record.qual();
        let len = q.len();
        let ghost old_sums = self.total_qualities@;
        let ghost old_counts = self.counts@;
        let ghost old_len = self.counts@.len() as int;
        let ghost rec = self.records as int;
        while self.counts.len() < len
            invariant
                self.total_qualities@.len() == self.counts@.len(),
                old_len <= self.counts@.len() <= grown_len(old_len, len as int),
                self.records == rec,
                len == q@.len(),
                forall|j: int|
                    0 <= j < self.counts@.len() ==> self.counts@[j] == (if j < old_len {
                        old_counts[j]
                    } else {
                        0
                    }) && self.total_qualities@[j] == (if j < old_len {
                        old_sums[j]
                    } else {
                        0
                    }),
            decreases len - self.counts@.len(),
        {
            self.total_qualities.push(0);
            self.counts.push(0);
        }
        let ghost n = self.counts@.len() as int;
        assert(n == grown_len(old_len, len as int));
        let mut i: usize = 0;
        while i < len
            invariant
                i <= len,
                len == q@.len(),
                len <= n,
                self.total_qualities@.len() == n,
                self.counts@.len() == n,
                self.records == rec,
                rec < MAX_RECORDS,
                forall|j: int|
                    0 <= j < n ==> {
                        &&& self.counts@[j] == (if j < old_len {
                            old_counts[j] as int
                        } else {
                            0
                        }) + (if j < i {
                            1int
                        } else {
                            0
                        })
                        &&& self.total_qualities@[j] == (if j < old_len {
                            old_sums[j] as int
                        } else {
                            0
                        }) + (if j < i {
                            quality_of(q@[j])
                        } else {
                            0
                        })
                    },
                forall|j: int|
                    0 <= j < old_len ==> {
                        &&& old_counts[j] <= rec
                        &&& -33 * old_counts[j] <= old_sums[j] <= 222 * old_counts[j]
                    },
            decreases len - i,
        {
            let c = self.counts[i];
            let t = self.total_qualities[i];
            self.counts.set(i, c + 1);
            self.total_qualities.set(i, t + (q[i] as i64 - QUALITY_OFFSET as i64));
            i = i + 1;
        }
        self.records = self.records + 1;
        proof {
            let st = position_quality_step(old(self)@, record@);
            assert(self@.sums =~= st.sums);
            assert(self@.counts =~= st.counts);
        }
    }

    /// Per position, the sum of the qualities seen there.
    pub fn total_qualities(&self) -> (r: &Vec<i64>)
        ensures
            r@.map_values(|v: i64| v as int) == self@.sums,
    {
        &self.total_qualities
    }

    /// Per position, how many qualities were seen there.
    pub fn counts(&self) -> (r: &Vec<u64>)
        ensures
            r@.map_values(|v: u64| v as int) == self@.counts,
    {
        &self.counts
    }

    /// The mean quality at each position; zero where none was seen.
    pub fn report(&self) -> (r: Vec<Ratio>)
        requires
            self.wf(),
        ensures
            r@ == position_quality_report(self@),
    {
        let mut r: Vec<Ratio> = Vec::new();
        let mut i: usize = 0;
        while i < self.counts.len()
            invariant
                self.wf(),
                i <= self.counts@.len(),
                r@.len() == i,
                forall|j: int|
                    0 <= j < i ==> r@[j] == position_mean(self@.sums[j], self@.counts[j]),
            decreases self.counts@.len() - i,
        {
            let c = self.counts[i];
            if c == 0 {
                r.push(Ratio { numerator: 0, denominator: 1 });
            } else {
                r.push(Ratio { numerator: self.total_qualities[i] as i128, denominator: c as u128 });
            }
            i = i + 1;
        }
        assert(r@ =~= position_quality_report(self@));
        r
    }
}

/// The symbol of the first class.
pub const SYMBOL_A: u8 = 65;

/// The symbol of the second class.
pub const SYMBOL_C: u8 = 67;

/// The symbol of the third class.
pub const SYMBOL_G: u8 = 71;

/// The symbol of the fourth class.
pub const SYMBOL_T: u8 = 84;

/// Class of a symbol: 0 to 3 for `A`, `C`, `G`, `T` exactly, 4 for any other
/// byte, lower case and `N` included.
pub open spec fn symbol_class(b: u8) -> int {
    if b == SYMBOL_A {
        0
    } else if b == SYMBOL_C {
        1
    } else if b == SYMBOL_G {
        2
    } else if b == SYMBOL_T {
        3
    } else {
        4
    }
}

/// Counts of the five symbol classes at one position.
#[derive(Clone, Copy, Debug, PartialEq, Eq, Structural)]
pub struct BaseCounts {
    pub a: u64,
    pub c: u64,
    pub g: u64,
    pub t: u64,
    pub other: u64,
}

impl View for BaseCounts {
    type V = Seq<int>;

    open spec fn view(&self) -> Seq<int> {
        seq![self.a as int, self.c as int, self.g as int, self.t as int, self.other as int]
    }
}

/// The counts with one more symbol of the given class.
pub open spec fn counts_with(counts: Seq<int>, sym: u8) -> Seq<int> {
    Seq::new(
        5,
        |k: int|
            counts[k] + (if symbol_class(sym) == k {
                1int
            } else {
                0
            }),
    )
}

fn count_symbol(b: BaseCounts, sym: u8) -> (r: BaseCounts)
    requires
        b.a < u64::MAX,
        b.c < u64::MAX,
        b.g < u64::MAX,
        b.t < u64::MAX,
        b.other < u64::MAX,
    ensures
        r@ == counts_with(b@, sym),
{
    let mut r = b;
    if sym == SYMBOL_A {
        r.a = r.a + 1;
    } else if sym == SYMBOL_C {
        r.c = r.c + 1;
    } else if sym == SYMBOL_G {
        r.g = r.g + 1;
    } else if sym == SYMBOL_T {
        r.t = r.t + 1;
    } else {
        r.other = r.other + 1;
    }
    assert(r@ =~= counts_with(b@, sym));
    r
}

/// State of the per-position symbol composition: for each position, the five
/// class counts; and the number of records.
pub struct CompositionModel {
    pub counts: Seq<Seq<int>>,
    pub records: int,
}

/// The five class counts of a position that holds none yet.
pub open spec fn no_counts() -> Seq<int> {
    seq![0int, 0int, 0int, 0int, 0int]
}

/// The per-position composition after one more record: the state grows to
/// the record's length with zero counts, and each position that the record
/// covers counts its symbol.
pub open spec fn composition_step(m: CompositionModel, r: RecordModel) -> CompositionModel {
    let s = r.seq;
    let n = grown_len(m.counts.len() as int, s.len() as int);
    CompositionModel {
        counts: Seq::new(
            n as nat,
            |i: int|
                {
                    let base = if i < m.counts.len() {
                        m.counts[i]
                    } else {
                        no_counts()
                    };
                    if i < s.len() {
                        counts_with(base, s[i])
                    } else {
                        base
                    }
                },
        ),
        records: m.records + 1,
    }
}

/// Sum of the five class counts at a position.
pub open spec fn counts_total(counts: Seq<int>) -> int {
    counts[0] + counts[1] + counts[2] + counts[3] + counts[4]
}

/// Proportion of each class at a position, all zero where nothing was counted.
pub open spec fn proportions(counts: Seq<int>) -> Seq<Ratio> {
    Seq::new(
        5,
        |k: int|
            if counts_total(counts) == 0 {
                zero_ratio()
            } else {
                Ratio { numerator: counts[k] as i128, denominator: counts_total(counts) as u128 }
            },
    )
}

/// What the per-position composition reports: the proportions of each position.
pub open spec fn composition_report(m: CompositionModel) -> Seq<Seq<Ratio>> {
    Seq::new(m.counts.len(), |i: int| proportions(m.counts[i]))
}

/// Proportions of the five symbol classes at one position.
#[derive(Clone, Copy, Debug, PartialEq, Eq, Structural)]
pub struct BaseProportions {
    pub a: Ratio,
    pub c: Ratio,
    pub g: Ratio,
    pub t: Ratio,
    pub other: Ratio,
}

impl View for BaseProportions {
    type V = Seq<Ratio>;

    open spec fn view(&self) -> Seq<Ratio> {
        seq![self.a, self.c, self.g, self.t, self.other]
    }
}

/// Computes the proportion of each symbol class at each position.
pub struct BaseCompositionStatistic {
    base_counts: Vec<BaseCounts>,
    records: u64,
}

impl View for BaseCompositionStatistic {
    type V = CompositionModel;

    closed spec fn view(&self) -> CompositionModel {
        CompositionModel {
            counts: self.base_counts@.map_values(|b: BaseCounts| b@),
            records: self.records as int,
        }
    }
}

impl Default for BaseCompositionStatistic {
    fn default() -> (r: BaseCompositionStatistic)
        ensures
            r.wf(),
            r@.counts.len() == 0,
            r@.records == 0,
    {
        BaseCompositionStatistic { base_counts: Vec::new(), records: 0 }
    }
}

impl BaseCompositionStatistic {
    /// Every class count stays within one count per record.
    pub closed spec fn wf(&self) -> bool {
        &&& self.records <= MAX_RECORDS
        &&& forall|j: int|
            0 <= j < self.base_counts@.len() ==> {
                &&& self.base_counts@[j].a <= self.records
                &&& self.base_counts@[j].c <= self.records
                &&& self.base_counts@[j].g <= self.records
                &&& self.base_counts@[j].t <= self.records
                &&& self.base_counts@[j].other <= self.records
            }
    }

    /// Counts the symbol class of each position of one record.
    pub fn process(&mut self, record: &FastqRecord)
        requires
            old(self).wf(),
            old(self)@.records < MAX_RECORDS,
        ensures
            final(self).wf(),
            final(self)@ == composition_step(old(self)@, record@),
    {
        let s = record.seq();
        let len = s.len();
        let ghost old_counts = self.base_counts@;
        let ghost old_len = self.base_counts@.len() as int;
        let ghost rec = self.records as int;
        let zero = BaseCounts { a: 0, c: 0, g: 0, t: 0, other: 0 };
        while self.base_counts.len() < len
            invariant
                old_len <= self.base_counts@.len() <= grown_len(old_len, len as int),
                self.records == rec,
                len == s@.len(),
                zero@ == no_counts(),
                forall|j: int|
                    0 <= j < self.base_counts@.len() ==> self.base_counts@[j] == (if j < old_len {
                        old_counts[j]
                    } else {
                        zero
                    }),
            decreases len - self.base_counts@.len(),
        {
            self.base_counts.push(zero);
        }
        let ghost n = self.base_counts@.len() as int;
        assert(n == grown_len(old_len, len as int));
        let ghost target = composition_step(old(self)@, record@);
        let mut i: usize = 0;
        while i < len
            invariant
                i <= len,
                len == s@.len(),
                len <= n,
                self.base_counts@.len() == n,
                self.records == rec,
                rec < MAX_RECORDS,
                target == composition_step(old(self)@, record@),
                s@ == record@.seq,
                target.counts.len() == n,
                old_len == old(self)@.counts.len(),
                forall|j: int|
                    0 <= j < n ==> #[trigger] self.base_counts@[j]@ == (if j < i {
                        target.counts[j]
                    } else if j < old_len {
                        old(self)@.counts[j]
                    } else {
                        no_counts()
                    }),
                forall|j: int|
                    0 <= j < n ==> {
                        &&& (#[trigger] self.base_counts@[j]).a <= rec + (if j < i {
                            1int
                        } else {
                            0
                        })
                        &&& self.base_counts@[j].c <= rec + (if j < i {
                            1int
                        } else {
                            0
                        })
                        &&& self.base_counts@[j].g <= rec + (if j < i {
                            1int
                        } else {
                            0
                        })
                        &&& self.base_counts@[j].t <= rec + (if j < i {
                            1int
                        } else {
                            0
                        })
                        &&& self.base_counts@[j].other <= rec + (if j < i {
                            1int
                        } else {
                            0
                        })
                    },
            decreases len - i,
        {
            let b = self.base_counts[i];
            proof {
                assert(target.counts[i as int] == counts_with(b@, s@[i as int]));
            }
            let nb = count_symbol(b, s[i]);
            self.base_counts.set(i, nb);
            assert(self.base_counts@[i as int]@ == target.counts[i as int]);
            i = i + 1;
        }
        self.records = self.records + 1;
        proof {
            assert forall|j: int| 0 <= j < n implies self@.counts[j] == target.counts[j] by {
                assert(self@.counts[j] == self.base_counts@[j]@);
                if j >= len {
                    if j < old_len {
                        assert(old(self)@.counts[j] == old_counts[j]@);
                    }
                    assert(target.counts[j] =~= self.base_counts@[j]@);
                }
            }
            assert(self@.counts =~= target.counts);
        }
    }

    /// The five class counts at each position.
    pub fn base_counts(&self) -> (r: &Vec<BaseCounts>)
        ensures
            r@.map_values(|b: BaseCounts| b@) == self@.counts,
    {
        &self.base_counts
    }

    /// The proportions of the five classes at each position. At a position
    /// where something was counted the five share one denominator and their
    /// numerators add up to it: the proportions sum to one.
    pub fn report(&self) -> (r: Vec<BaseProportions>)
        requires
            self.wf(),
        ensures
            r@.map_values(|p: BaseProportions| p@) == composition_report(self@),
            forall|j: int|
                0 <= j < r@.len() && counts_total(self@.counts[j]) > 0 ==> {
                    let p = #[trigger] r@[j];
                    &&& p.a.denominator == p.c.denominator == p.g.denominator == p.t.denominator
                        == p.other.denominator
                    &&& p.a.numerator + p.c.numerator + p.g.numerator + p.t.numerator
                        + p.other.numerator == p.a.denominator
                },
    {
        let mut r: Vec<BaseProportions> = Vec::new();
        let mut i: usize = 0;
        while i < self.base_counts.len()
            invariant
                self.wf(),
                i <= self.base_counts@.len(),
                r@.len() == i,
                forall|j: int|
                    0 <= j < i ==> (#[trigger] r@[j])@ == proportions(self@.counts[j]),
            decreases self.base_counts@.len() - i,
        {
            let b = self.base_counts[i];
            let total: u64 = b.a + b.c + b.g + b.t + b.other;
            let p = if total == 0 {
                let z = Ratio { numerator: 0, denominator: 1 };
                BaseProportions { a: z, c: z, g: z, t: z, other: z }
            } else {
                let d = total as u128;
                BaseProportions {
                    a: Ratio { numerator: b.a as i128, denominator: d },
                    c: Ratio { numerator: b.c as i128, denominator: d },
                    g: Ratio { numerator: b.g as i128, denominator: d },
                    t: Ratio { numerator: b.t as i128, denominator: d },
                    other: Ratio { numerator: b.other as i128, denominator: d },
                }
            };
            assert(self@.counts[i as int] == b@);
            assert(p@ =~= proportions(self@.counts[i as int]));
            r.push(p);
            i = i + 1;
        }
        proof {
            assert(r@.map_values(|p: BaseProportions| p@) =~= composition_report(self@));
            assert forall|j: int|
                0 <= j < r@.len() && counts_total(self@.counts[j]) > 0 implies {
                let p = #[trigger] r@[j];
                &&& p.a.denominator == p.c.denominator == p.g.denominator == p.t.denominator
                    == p.other.denominator
                &&& p.a.numerator + p.c.numerator + p.g.numerator + p.t.numerator
                    + p.other.numerator == p.a.denominator
            } by {
                let p = r@[j];
                assert(p@ == proportions(self@.counts[j]));
                assert(p.a == p@[0]);
                assert(p.c == p@[1]);
                assert(p.g == p@[2]);
                assert(p.t == p@[3]);
                assert(p.other == p@[4]);
            }
        }
        r
    }
}

} // verus!
