use vstd::prelude::*;
use crate::sample::{sample_in, sample_of, valid_sample, Sample, SampleView};
use crate::text::{chars_of, kept_lines, pieces, trim, trimmed};
use crate::timestamp::{stamp_of, timestamp_in};

verus! {

/// One sample paired with one instant (milliseconds since the Unix epoch).
pub struct RecordView {
    pub value: SampleView,
    pub timestamp_ms: int,
}

/// A heart-rate reading at a UTC instant, in milliseconds since the Unix epoch.
pub struct HeartRateRecord {
    pub value: Sample,
    pub timestamp_ms: i64,
}

impl View for HeartRateRecord {
    type V = RecordView;

    open spec fn view(&self) -> RecordView {
        RecordView { value: self.value@, timestamp_ms: self.timestamp_ms as int }
    }
}

/// Why a text gave no records.
#[derive(Clone, Copy, PartialEq, Eq, Structural, Debug)]
pub enum ParseError {
    /// The text holds no sample, or no instant, so not one pair can be formed.
    NoValidPairs,
}

/// What holds of every sample and instant the classifier gives: the sample is well formed and
/// the instant falls on a whole minute.
pub open spec fn well_formed_parts(samples: Seq<Sample>, stamps: Seq<i64>) -> bool {
    (forall|i: int| 0 <= i < samples.len() ==> valid_sample(#[trigger] samples[i]@)) && (forall|
        i: int,
    |
        0 <= i < stamps.len() ==> #[trigger] stamps[i] % 60000 == 0)
}

/// What holds of every record of a record set: a well-formed sample at a whole minute.
pub open spec fn well_formed_records(rs: Seq<HeartRateRecord>) -> bool {
    forall|i: int|
        0 <= i < rs.len() ==> valid_sample(#[trigger] rs[i]@.value) && rs[i].timestamp_ms % 60000
            == 0
}

pub open spec fn sample_views(s: Seq<Sample>) -> Seq<SampleView> {
    s.map_values(|x: Sample| x@)
}

pub open spec fn record_views(s: Seq<HeartRateRecord>) -> Seq<RecordView> {
    s.map_values(|x: HeartRateRecord| x@)
}

pub open spec fn stamp_values(s: Seq<i64>) -> Seq<int> {
    s.map_values(|x: i64| x as int)
}

/// The non-empty trimmed lines of a text, in order.
pub open spec fn lines_of(text: Seq<char>) -> Seq<Seq<char>> {
    kept_lines(pieces(text))
}

/// The samples among `lines`, in the order met.
pub open spec fn samples_in(lines: Seq<Seq<char>>) -> Seq<SampleView>
    decreases lines.len(),
{
    if lines.len() == 0 {
        Seq::<SampleView>::empty()
    } else {
        match sample_of(lines.last()) {
            Some(v) => samples_in(lines.drop_last()).push(v),
            None => samples_in(lines.drop_last()),
        }
    }
}

/// The instants among the lines that are not samples, in the order met.
pub open spec fn stamps_in(lines: Seq<Seq<char>>) -> Seq<int>
    decreases lines.len(),
{
    if lines.len() == 0 {
        Seq::<int>::empty()
    } else {
        match sample_of(lines.last()) {
            Some(_) => stamps_in(lines.drop_last()),
            None => match stamp_of(lines.last()) {
                Some(m) => stamps_in(lines.drop_last()).push(m),
                None => stamps_in(lines.drop_last()),
            },
        }
    }
}

/// The lines that read as samples, in order.
pub open spec fn sample_lines(lines: Seq<Seq<char>>) -> Seq<Seq<char>>
    decreases lines.len(),
{
    if lines.len() == 0 {
        Seq::<Seq<char>>::empty()
    } else if sample_of(lines.last()) is Some {
        sample_lines(lines.drop_last()).push(lines.last())
    } else {
        sample_lines(lines.drop_last())
    }
}

/// The lines that do not read as samples but hold an instant, in order.
pub open spec fn stamp_lines(lines: Seq<Seq<char>>) -> Seq<Seq<char>>
    decreases lines.len(),
{
    if lines.len() == 0 {
        Seq::<Seq<char>>::empty()
    } else if sample_of(lines.last()) is None && stamp_of(lines.last()) is Some {
        stamp_lines(lines.drop_last()).push(lines.last())
    } else {
        stamp_lines(lines.drop_last())
    }
}

proof fn lemma_samples_from_sample_lines(lines: Seq<Seq<char>>)
    ensures
        samples_in(lines) == samples_in(sample_lines(lines)),
    decreases lines.len(),
{
    if lines.len() > 0 {
        let dl = lines.drop_last();
        lemma_samples_from_sample_lines(dl);
        if sample_of(lines.last()) is Some {
            assert(sample_lines(dl).push(lines.last()).drop_last() =~= sample_lines(dl));
        }
    }
}

proof fn lemma_stamps_from_stamp_lines(lines: Seq<Seq<char>>)
    ensures
        stamps_in(lines) == stamps_in(stamp_lines(lines)),
    decreases lines.len(),
{
    if lines.len() > 0 {
        let dl = lines.drop_last();
        lemma_stamps_from_stamp_lines(dl);
        if sample_of(lines.last()) is None && stamp_of(lines.last()) is Some {
            assert(stamp_lines(dl).push(lines.last()).drop_last() =~= stamp_lines(dl));
        }
    }
}

/// Two texts whose sample lines come in the same order, and whose instant lines come in the
/// same order, give the same outcome, however the two kinds of line and the unrecognised lines
/// are interleaved: both have no pair, or both have the same record set.
pub proof fn lemma_interleaving_irrelevant(text: Seq<char>, text2: Seq<char>)
    requires
        sample_lines(lines_of(text)) == sample_lines(lines_of(text2)),
        stamp_lines(lines_of(text)) == stamp_lines(lines_of(text2)),
    ensures
        samples_in(lines_of(text)) == samples_in(lines_of(text2)),
        stamps_in(lines_of(text)) == stamps_in(lines_of(text2)),
        reconstruct(samples_in(lines_of(text)), stamps_in(lines_of(text))) == reconstruct(
            samples_in(lines_of(text2)),
            stamps_in(lines_of(text2)),
        ),
{
    lemma_samples_from_sample_lines(lines_of(text));
    lemma_samples_from_sample_lines(lines_of(text2));
    lemma_stamps_from_stamp_lines(lines_of(text));
    lemma_stamps_from_stamp_lines(lines_of(text2));
}

pub open spec fn min_len(a: int, b: int) -> int {
    if a <= b {
        a
    } else {
        b
    }
}

/// The i-th sample with the i-th instant, for as many as both sequences have.
pub open spec fn paired(samples: Seq<SampleView>, stamps: Seq<int>) -> Seq<RecordView> {
    Seq::new(
        min_len(samples.len() as int, stamps.len() as int) as nat,
        |i: int| RecordView { value: samples[i], timestamp_ms: stamps[i] },
    )
}

/// `s` with `x` placed after every record that is not later than it.
pub open spec fn insert_by_time(s: Seq<RecordView>, x: RecordView) -> Seq<RecordView>
    decreases s.len(),
{
    if s.len() == 0 {
        seq![x]
    } else if s.last().timestamp_ms <= x.timestamp_ms {
        s.push(x)
    } else {
        insert_by_time(s.drop_last(), x).push(s.last())
    }
}

/// The stable sort of `s` by instant: records with equal instants keep their order.
pub open spec fn sort_by_time(s: Seq<RecordView>) -> Seq<RecordView>
    decreases s.len(),
{
    if s.len() == 0 {
        Seq::<RecordView>::empty()
    } else {
        insert_by_time(sort_by_time(s.drop_last()), s.last())
    }
}

pub open spec fn is_sorted_by_time(s: Seq<RecordView>) -> bool {
    forall|i: int, j: int| 0 <= i <= j < s.len() ==> s[i].timestamp_ms <= s[j].timestamp_ms
}

/// The record set of the given samples and instants.
pub open spec fn reconstruct(samples: Seq<SampleView>, stamps: Seq<int>) -> Seq<RecordView> {
    sort_by_time(paired(samples, stamps))
}

proof fn lemma_insert_at(s: Seq<RecordView>, x: RecordView, j: int)
    requires
        0 <= j <= s.len(),
        forall|k: int| j <= k < s.len() ==> s[k].timestamp_ms > x.timestamp_ms,
        j == 0 || s[j - 1].timestamp_ms <= x.timestamp_ms,
    ensures
        insert_by_time(s, x) == s.insert(j, x),
    decreases s.len(),
{
    if s.len() == j {
        assert(s.insert(j, x) =~= s.push(x));
    } else {
        lemma_insert_at(s.drop_last(), x, j);
        assert(s.drop_last().insert(j, x).push(s.last()) =~= s.insert(j, x));
    }
}

proof fn lemma_insert_by_time(s: Seq<RecordView>, x: RecordView)
    ensures
        insert_by_time(s, x).len() == s.len() + 1,
        forall|k: int|
            0 <= k < s.len() + 1 ==> #[trigger] insert_by_time(s, x)[k] == x || s.contains(
                insert_by_time(s, x)[k],
            ),
        is_sorted_by_time(s) ==> is_sorted_by_time(insert_by_time(s, x)),
    decreases s.len(),
{
    if s.len() > 0 {
        let dl = s.drop_last();
        let l = s.last();
        if l.timestamp_ms <= x.timestamp_ms {
            let r = s.push(x);
            assert forall|k: int| 0 <= k < s.len() + 1 implies #[trigger] r[k] == x || s.contains(
                r[k],
            ) by {
                if k < s.len() {
                    assert(s[k] == r[k]);
                }
            }
        } else {
            lemma_insert_by_time(dl, x);
            let m = insert_by_time(dl, x);
            let r = m.push(l);
            assert forall|k: int| 0 <= k < s.len() + 1 implies #[trigger] r[k] == x || s.contains(
                r[k],
            ) by {
                if k < s.len() {
                    assert(m[k] == r[k]);
                    if m[k] != x {
                        let t = choose|t: int| 0 <= t < dl.len() && dl[t] == m[k];
                        assert(s[t] == m[k]);
                    }
                } else {
                    assert(s[s.len() - 1] == r[k]);
                }
            }
            if is_sorted_by_time(s) {
                assert forall|k: int| 0 <= k < m.len() implies #[trigger] m[k].timestamp_ms
                    <= l.timestamp_ms by {
                    if m[k] != x {
                        let t = choose|t: int| 0 <= t < dl.len() && dl[t] == m[k];
                        assert(s[t] == m[k]);
                    }
                }
                assert forall|i: int, j: int|
                    0 <= i <= j < r.len() implies r[i].timestamp_ms <= r[j].timestamp_ms by {
                    if j < m.len() {
                        assert(r[i] == m[i] && r[j] == m[j]);
                    } else {
                        assert(r[i] == m[i] || i == j);
                    }
                }
            }
        }
    }
}

proof fn lemma_sort_by_time(s: Seq<RecordView>)
    ensures
        sort_by_time(s).len() == s.len(),
        is_sorted_by_time(sort_by_time(s)),
        forall|k: int| 0 <= k < s.len() ==> s.contains(#[trigger] sort_by_time(s)[k]),
    decreases s.len(),
{
    if s.len() > 0 {
        let dl = s.drop_last();
        lemma_sort_by_time(dl);
        lemma_insert_by_time(sort_by_time(dl), s.last());
        let r = sort_by_time(s);
        assert forall|k: int| 0 <= k < s.len() implies s.contains(#[trigger] r[k]) by {
            if r[k] == s.last() {
                assert(s[s.len() - 1] == r[k]);
            } else {
                let t = choose|t: int|
                    0 <= t < sort_by_time(dl).len() && sort_by_time(dl)[t] == r[k];
                assert(sort_by_time(dl)[t] == sort_by_time(dl)[t]);
                let u = choose|u: int| 0 <= u < dl.len() && dl[u] == sort_by_time(dl)[t];
                assert(s[u] == r[k]);
            }
        }
    }
}

/// With as many samples as instants, the record set holds one record for each, ordered by
/// instant, earliest first.
pub proof fn lemma_equal_counts_all_kept_in_order(samples: Seq<SampleView>, stamps: Seq<int>)
    requires
        samples.len() == stamps.len(),
    ensures
        reconstruct(samples, stamps).len() == samples.len(),
        is_sorted_by_time(reconstruct(samples, stamps)),
{
    lemma_sort_by_time(paired(samples, stamps));
}

/// Whatever the two counts, the record set holds as many records as the shorter sequence, and
/// each record is the i-th sample with the i-th instant for some i below that count: no
/// sample or instant beyond it ever appears.
pub proof fn lemma_excess_dropped(samples: Seq<SampleView>, stamps: Seq<int>)
    ensures
        reconstruct(samples, stamps).len() == min_len(samples.len() as int, stamps.len() as int),
        forall|k: int|
            0 <= k < reconstruct(samples, stamps).len() ==> exists|i: int|
                0 <= i < min_len(samples.len() as int, stamps.len() as int)
                    && #[trigger] reconstruct(samples, stamps)[k] == (RecordView {
                    value: samples[i],
                    timestamp_ms: stamps[i],
                }),
{
    let p = paired(samples, stamps);
    lemma_sort_by_time(p);
    let r = reconstruct(samples, stamps);
    assert forall|k: int| 0 <= k < r.len() implies exists|i: int|
        0 <= i < min_len(samples.len() as int, stamps.len() as int) && #[trigger] r[k] == (
        RecordView { value: samples[i], timestamp_ms: stamps[i] }) by {
        assert(p.contains(r[k]));
        let i = choose|i: int| 0 <= i < p.len() && p[i] == r[k];
        assert(p[i] == (RecordView { value: samples[i], timestamp_ms: stamps[i] }));
    }
}

fn classify_line(
    line: &Vec<char>,
    samples: &mut Vec<Sample>,
    stamps: &mut Vec<i64>,
    Ghost(lines): Ghost<Seq<Seq<char>>>,
)
    requires
        sample_views(old(samples)@) == samples_in(lines),
        stamp_values(old(stamps)@) == stamps_in(lines),
        well_formed_parts(old(samples)@, old(stamps)@),
    ensures
        sample_views(final(samples)@) == samples_in(lines.push(line@)),
        stamp_values(final(stamps)@) == stamps_in(lines.push(line@)),
        well_formed_parts(final(samples)@, final(stamps)@),
{
    assert(lines.push(line@).drop_last() =~= lines);
    match sample_in(line) {
        Some(v) => {
            let ghost w = v@;
            samples.push(v);
            assert(sample_views(final(samples)@) =~= sample_views(old(samples)@).push(w));
        },
        None => match timestamp_in(line) {
            Some(m) => {
                stamps.push(m);
                assert(stamp_values(final(stamps)@) =~= stamp_values(old(stamps)@).push(
                    m as int,
                ));
            },
            None => {},
        },
    }
}

fn take_piece(
    piece: &Vec<char>,
    samples: &mut Vec<Sample>,
    stamps: &mut Vec<i64>,
    Ghost(done): Ghost<Seq<Seq<char>>>,
)
    requires
        sample_views(old(samples)@) == samples_in(kept_lines(done)),
        stamp_values(old(stamps)@) == stamps_in(kept_lines(done)),
        well_formed_parts(old(samples)@, old(stamps)@),
    ensures
        sample_views(final(samples)@) == samples_in(kept_lines(done.push(piece@))),
        stamp_values(final(stamps)@) == stamps_in(kept_lines(done.push(piece@))),
        well_formed_parts(final(samples)@, final(stamps)@),
{
    assert(done.push(piece@).drop_last() =~= done);
    let line = trimmed(piece);
    if line.len() > 0 {
        classify_line(&line, samples, stamps, Ghost(kept_lines(done)));
    }
}

/// The samples and the instants of a text, each in the order met. Each non-empty trimmed
/// line is a sample if it reads as one, else an instant if it holds one, else skipped.
pub fn classify(text: &str) -> (r: (Vec<Sample>, Vec<i64>))
    ensures
        sample_views(r.0@) == samples_in(lines_of(text@)),
        stamp_values(r.1@) == stamps_in(lines_of(text@)),
        well_formed_parts(r.0@, r.1@),
{
    let t = chars_of(text);
    let mut samples: Vec<Sample> = Vec::new();
    let mut stamps: Vec<i64> = Vec::new();
    let mut cur: Vec<char> = Vec::new();
    let ghost mut done: Seq<Seq<char>> = Seq::empty();
    let mut i: usize = 0;
    assert(t@.take(0) =~= Seq::<char>::empty());
    assert(sample_views(samples@) =~= Seq::<SampleView>::empty());
    assert(stamp_values(stamps@) =~= Seq::<int>::empty());
    while i < t.len()
        invariant
            i <= t@.len(),
            t@ == text@,
            pieces(t@.take(i as int)) == done.push(cur@),
            sample_views(samples@) == samples_in(kept_lines(done)),
            stamp_values(stamps@) == stamps_in(kept_lines(done)),
            well_formed_parts(samples@, stamps@),
        decreases t@.len() - i,
    {
        let c = t[i];
        assert(t@.take(i + 1).drop_last() =~= t@.take(i as int));
        if c == '\n' {
            take_piece(&cur, &mut samples, &mut stamps, Ghost(done));
            proof {
                done = done.push(cur@);
            }
            cur = Vec::new();
            assert(pieces(t@.take(i + 1)) =~= done.push(cur@));
        } else {
            cur.push(c);
            assert(pieces(t@.take(i + 1)) =~= done.push(cur@));
        }
        i = i + 1;
    }
    assert(t@.take(i as int) =~= t@);
    take_piece(&cur, &mut samples, &mut stamps, Ghost(done));
    (samples, stamps)
}

/// The record set of the given samples and instants: the i-th sample with the i-th instant,
/// as many pairs as the shorter sequence has, stably sorted by instant.
pub fn pair_records(samples: &Vec<Sample>, stamps: &Vec<i64>) -> (r: Vec<HeartRateRecord>)
    ensures
        record_views(r@) == reconstruct(sample_views(samples@), stamp_values(stamps@)),
        well_formed_parts(samples@, stamps@) ==> well_formed_records(r@),
{
    let n = if samples.len() <= stamps.len() {
        samples.len()
    } else {
        stamps.len()
    };
    let ghost all = paired(sample_views(samples@), stamp_values(stamps@));
    let mut out: Vec<HeartRateRecord> = Vec::new();
    let mut i: usize = 0;
    assert(all.take(0) =~= Seq::<RecordView>::empty());
    assert(record_views(out@) =~= Seq::<RecordView>::empty());
    while i < n
        invariant
            i <= n,
            n == all.len(),
            n <= samples@.len(),
            n <= stamps@.len(),
            all == paired(sample_views(samples@), stamp_values(stamps@)),
            record_views(out@) == sort_by_time(all.take(i as int)),
            well_formed_parts(samples@, stamps@) ==> well_formed_records(out@),
        decreases n - i,
    {
        let rec = HeartRateRecord { value: samples[i].clone(), timestamp_ms: stamps[i] };
        assert(well_formed_parts(samples@, stamps@) ==> valid_sample(samples@[i as int]@)
            && stamps@[i as int] % 60000 == 0);
        assert(rec@ == all[i as int]);
        let mut j: usize = out.len();
        while j > 0 && out[j - 1].timestamp_ms > rec.timestamp_ms
            invariant
                j <= out@.len(),
                forall|k: int|
                    j <= k < out@.len() ==> out@[k].timestamp_ms > rec.timestamp_ms,
            decreases j,
        {
            j = j - 1;
        }
        let ghost before = record_views(out@);
        proof {
            lemma_insert_at(before, rec@, j as int);
        }
        let ghost x = rec@;
        let ghost prev = out@;
        out.insert(j, rec);
        assert(well_formed_parts(samples@, stamps@) ==> well_formed_records(out@)) by {
            if well_formed_parts(samples@, stamps@) {
                assert forall|k: int| 0 <= k < out@.len() implies valid_sample(
                    #[trigger] out@[k]@.value,
                ) && out@[k].timestamp_ms % 60000 == 0 by {
                    if k < j {
                        assert(out@[k] == prev[k]);
                    } else if k > j {
                        assert(out@[k] == prev[k - 1]);
                    }
                }
            }
        }
        assert(record_views(out@) =~= before.insert(j as int, x));
        assert(all.take(i + 1).drop_last() =~= all.take(i as int));
        i = i + 1;
    }
    assert(all.take(n as int) =~= all);
    out
}

/// The record set of a text: its samples and instants paired in the order met, as many
/// pairs as the shorter of the two has, stably sorted by instant; `NoValidPairs` exactly
/// when not one pair can be formed.
pub fn parse_heart_rate_data(text: &str) -> (r: Result<Vec<HeartRateRecord>, ParseError>)
    ensures
        ({
            let samples = samples_in(lines_of(text@));
            let stamps = stamps_in(lines_of(text@));
            match r {
                Ok(v) => samples.len() > 0 && stamps.len() > 0 && record_views(v@) == reconstruct(
                    samples,
                    stamps,
                ) && v@.len() == min_len(samples.len() as int, stamps.len() as int)
                    && is_sorted_by_time(record_views(v@)) && well_formed_records(v@),
                Err(e) => e == ParseError::NoValidPairs && (samples.len() == 0 || stamps.len()
                    == 0),
            }
        }),
{
    let (samples, stamps) = classify(text);
    if samples.len() == 0 || stamps.len() == 0 {
        return Err(ParseError::NoValidPairs);
    }
    let records = pair_records(&samples, &stamps);
    proof {
        lemma_excess_dropped(sample_views(samples@), stamp_values(stamps@));
        lemma_sort_by_time(paired(sample_views(samples@), stamp_values(stamps@)));
    }
    Ok(records)
}

} // verus!
