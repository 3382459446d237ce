use vstd::prelude::*;
use vstd::string::StringExecFns;
use crate::encode::{encode_records, line_of};
use crate::sample::valid_sample;
use crate::records::{
    lines_of, parse_heart_rate_data, reconstruct, samples_in, stamps_in, ParseError,
};

verus! {

/// The batch of lines for a text: one line for each record of its record set, in order.
pub open spec fn batch_of(text: Seq<char>, device_id: Seq<char>) -> Seq<Seq<char>> {
    let rs = reconstruct(samples_in(lines_of(text)), stamps_in(lines_of(text)));
    Seq::new(rs.len(), |i: int| line_of(rs[i], device_id))
}

/// Whether a text yields at least one record.
pub open spec fn has_pairs(text: Seq<char>) -> bool {
    samples_in(lines_of(text)).len() > 0 && stamps_in(lines_of(text)).len() > 0
}

/// The lines to send for a text and a device: `NoValidPairs` exactly when the text yields no
/// record, else one encoded line for each record, earliest instant first.
pub fn prepare_batch(text: &str, device_id: &str) -> (r: Result<Vec<String>, ParseError>)
    ensures
        match r {
            Ok(lines) => has_pairs(text@) && lines@.len() == batch_of(text@, device_id@).len()
                && forall|i: int|
                0 <= i < lines@.len() ==> #[trigger] lines@[i]@ == batch_of(text@, device_id@)[i],
            Err(e) => e == ParseError::NoValidPairs && !has_pairs(text@),
        },
{
    match parse_heart_rate_data(text) {
        Ok(records) => {
            assert forall|i: int| 0 <= i < records@.len() implies valid_sample(
                #[trigger] records@[i].value@,
            ) by {
                assert(valid_sample(records@[i]@.value));
            }
            let lines = encode_records(&records, device_id);
            assert forall|i: int| 0 <= i < lines@.len() implies #[trigger] lines@[i]@ == batch_of(
                text@,
                device_id@,
            )[i] by {
                assert(records@[i]@ == crate::records::record_views(records@)[i]);
            }
            Ok(lines)
        },
        Err(e) => Err(e),
    }
}

/// The lines joined by single line feeds.
pub open spec fn joined(lines: Seq<Seq<char>>) -> Seq<char>
    decreases lines.len(),
{
    if lines.len() == 0 {
        Seq::<char>::empty()
    } else if lines.len() == 1 {
        lines[0]
    } else {
        joined(lines.drop_last()) + "\n"@ + lines.last()
    }
}

pub open spec fn string_views(s: Seq<String>) -> Seq<Seq<char>> {
    s.map_values(|x: String| x@)
}

/// The body of a write request: the lines joined by single line feeds.
pub fn join_lines(lines: &Vec<String>) -> (r: String)
    ensures
        r@ == joined(string_views(lines@)),
{
    let mut out = String::new();
    let mut i: usize = 0;
    while i < lines.len()
        invariant
            i <= lines@.len(),
            out@ == joined(string_views(lines@.take(i as int))),
        decreases lines@.len() - i,
    {
        if i > 0 {
            out.append("\n");
        }
        out.append(lines[i].as_str());
        assert(string_views(lines@.take(i + 1)).drop_last() =~= string_views(lines@.take(i as int)));
        i = i + 1;
    }
    assert(lines@.take(i as int) =~= lines@);
    out
}

/// Where records are written: the store's base URL and its database name.
pub struct Config {
    pub base_url: String,
    pub database: String,
}

/// The device id that a request names, or `apple-watch` where it names none.
pub fn device_id_or_default(device_id: Option<String>) -> (r: String)
    ensures
        r@ == match device_id {
            Some(d) => d@,
            None => "apple-watch"@,
        },
{
    match device_id {
        Some(d) => d,
        None => String::from_str("apple-watch"),
    }
}

impl Config {
    pub fn new(base_url: String, database: String) -> (r: Config)
        ensures
            r.base_url@ == base_url@,
            r.database@ == database@,
    {
        Config { base_url, database }
    }

    /// The write endpoint: `<base>/v1/influxdb/api/v2/write?db=<database>&precision=ms`.
    pub fn write_url(&self) -> (r: String)
        ensures
            r@ == self.base_url@ + "/v1/influxdb/api/v2/write?db="@ + self.database@
                + "&precision=ms"@,
    {
        let mut out = String::from_str(self.base_url.as_str());
        out.append("/v1/influxdb/api/v2/write?db=");
        out.append(self.database.as_str());
        out.append("&precision=ms");
        out
    }
}

} // verus!
