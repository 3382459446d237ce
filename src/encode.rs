use vstd::prelude::*;
use vstd::string::StringExecFns;
use crate::records::{HeartRateRecord, RecordView};
use crate::sample::{digits_of, nat_text, sample_text, valid_sample};
use crate::text::string_of;

verus! {

/// A character of a device id as written in a line: space and comma get a backslash.
pub open spec fn escaped_char(c: char) -> Seq<char> {
    if c == ' ' || c == ',' {
        seq!['\\', c]
    } else {
        seq![c]
    }
}

/// A device id as written in a line.
pub open spec fn escape_id(s: Seq<char>) -> Seq<char>
    decreases s.len(),
{
    if s.len() == 0 {
        Seq::<char>::empty()
    } else {
        escape_id(s.drop_last()) + escaped_char(s.last())
    }
}

/// The decimal text of an integer, with a minus sign where it is negative.
pub open spec fn int_text(n: int) -> Seq<char> {
    if n < 0 {
        seq!['-'] + nat_text((-n) as nat)
    } else {
        nat_text(n as nat)
    }
}

/// The line of one record: `heart_rate,device_id=<id> value=<value> <epoch millis>`.
pub open spec fn line_of(r: RecordView, device_id: Seq<char>) -> Seq<char> {
    "heart_rate,device_id="@ + escape_id(device_id) + " value="@ + sample_text(r.value) + " "@
        + int_text(r.timestamp_ms)
}

/// `device_id` with each space and each comma preceded by a backslash.
pub fn escape_device_id(device_id: &str) -> (r: String)
    ensures
        r@ == escape_id(device_id@),
{
    let s = crate::text::chars_of(device_id);
    let mut out: Vec<char> = Vec::new();
    let mut i: usize = 0;
    while i < s.len()
        invariant
            i <= s@.len(),
            out@ == escape_id(s@.take(i as int)),
        decreases s@.len() - i,
    {
        let c = s[i];
        if c == ' ' || c == ',' {
            out.push('\\');
        }
        out.push(c);
        assert(s@.take(i + 1).drop_last() =~= s@.take(i as int));
        assert(out@ =~= escape_id(s@.take(i + 1)));
        i = i + 1;
    }
    assert(s@.take(i as int) =~= s@);
    string_of(&out)
}

/// The decimal text of `n`.
pub fn int_to_text(n: i64) -> (r: String)
    ensures
        r@ == int_text(n as int),
{
    if n < 0 {
        let magnitude = (0i128 - n as i128) as u64;
        let digits = digits_of(magnitude);
        let mut out: Vec<char> = Vec::new();
        out.push('-');
        let mut i: usize = 0;
        while i < digits.len()
            invariant
                i <= digits@.len(),
                out@ == seq!['-'] + digits@.take(i as int),
            decreases digits@.len() - i,
        {
            out.push(digits[i]);
            assert(out@ =~= seq!['-'] + digits@.take(i + 1));
            i = i + 1;
        }
        assert(digits@.take(i as int) =~= digits@);
        string_of(&out)
    } else {
        string_of(&digits_of(n as u64))
    }
}

/// The line-protocol line of one record for a device.
pub fn to_influxdb_line(record: &HeartRateRecord, device_id: &str) -> (r: String)
    requires
        valid_sample(record.value@),
    ensures
        r@ == line_of(record@, device_id@),
{
    let mut out = String::from_str("heart_rate,device_id=");
    let id = escape_device_id(device_id);
    out.append(id.as_str());
    out.append(" value=");
    let v = record.value.to_text();
    out.append(v.as_str());
    out.append(" ");
    let t = int_to_text(record.timestamp_ms);
    out.append(t.as_str());
    out
}

/// One line for each record, in order.
pub fn encode_records(records: &Vec<HeartRateRecord>, device_id: &str) -> (r: Vec<String>)
    requires
        forall|i: int| 0 <= i < records@.len() ==> valid_sample(#[trigger] records@[i].value@),
    ensures
        r@.len() == records@.len(),
        forall|i: int| 0 <= i < r@.len() ==> #[trigger] r@[i]@ == line_of(records@[i]@, device_id@),
{
    let mut out: Vec<String> = Vec::new();
    let mut i: usize = 0;
    while i < records.len()
        invariant
            i <= records@.len(),
            out@.len() == i,
            forall|k: int| 0 <= k < i ==> #[trigger] out@[k]@ == line_of(records@[k]@, device_id@),
            forall|k: int| 0 <= k < records@.len() ==> valid_sample(#[trigger] records@[k].value@),
        decreases records@.len() - i,
    {
        let line = to_influxdb_line(&records[i], device_id);
        out.push(line);
        i = i + 1;
    }
    out
}

/// Encoding is a function of the record and the device id: the same pair always gives the
/// same line.
pub proof fn lemma_encoding_deterministic(a: RecordView, b: RecordView, device_id: Seq<char>)
    requires
        a == b,
    ensures
        line_of(a, device_id) == line_of(b, device_id),
{
}

} // verus!
