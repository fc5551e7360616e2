//! Assembling records and the parsed list.
//!
//! The first line of the document carries the publication timestamp
//! behind the first `:`; the remaining lines are data rows of exactly
//! six fields each. [`Reader`] consumes the header eagerly; records
//! are then had either one at a time through [`Records`] (streaming)
//! or all at once through [`load_records`] (eager). Both stop at the
//! first malformed row; no row is retried and no partial record is
//! ever surfaced.

use vstd::prelude::*;
use vstd::string::StrSliceExecFns;

use crate::addresses::{insert_all, lemma_insert_all_sorted, strictly_sorted, Addresses};
use crate::classify::{parse_domain_name, parse_ipv4_addresses, parse_url, spec_domain_field,
    spec_ip_field, spec_url_field};
use crate::datetime::{parse_date, parse_timestamp, spec_parse_date, spec_parse_timestamp,
    DateTime};
use crate::decode::{decode_cp1251, spec_decode};
use crate::text::{find_delim, find_sub, spec_trim, trim_str};
use crate::tokenizer::{split_lines, spec_lines, tok_fields, tokenize_row};
use crate::types::{List, ListModel, ParseError, Record, RecordModel};

verus! {

/// The timestamp of a decoded header line: the text after the first
/// `:`, trimmed, read as `YYYY-MM-DD HH:MM:SS +HHMM` and normalized
/// to UTC. Without a `:` the header is malformed; with one, a
/// timestamp that does not match the format is.
pub open spec fn spec_parse_header(line: Seq<char>) -> Result<DateTime, ParseError> {
    let k = find_delim(line, seq![':']);
    if k < 0 {
        Err(ParseError::HeaderFormat)
    } else {
        match spec_parse_timestamp(spec_trim(line.skip(k + 1))) {
            Some(dt) => Ok(dt),
            None => Err(ParseError::TimestampFormat),
        }
    }
}

/// The record of one row given its six decoded fields: the three
/// address sub-fields merged into one sorted set, organization and
/// order ID trimmed, the order date read as `YYYY-MM-DD`. The first
/// failure — IP field, then URL field, then date — aborts the record.
pub open spec fn spec_record_of(
    f0: Seq<char>,
    f1: Seq<char>,
    f2: Seq<char>,
    f3: Seq<char>,
    f4: Seq<char>,
    f5: Seq<char>,
) -> Result<RecordModel, ParseError> {
    match spec_ip_field(f0) {
        None => Err(ParseError::AddressFormat),
        Some(ips) => match spec_url_field(f2) {
            None => Err(ParseError::AddressFormat),
            Some(urls) => match spec_parse_date(spec_trim(f5)) {
                None => Err(ParseError::DateFormat),
                Some(d) => Ok(
                    RecordModel {
                        addresses: insert_all(
                            insert_all(
                                insert_all(Seq::<crate::types::AddrModel>::empty(), ips),
                                spec_domain_field(f1),
                            ),
                            urls,
                        ),
                        organization: spec_trim(f3),
                        order_id: spec_trim(f4),
                        order_date: d,
                    },
                ),
            },
        },
    }
}

/// The record of the data row `line` (raw bytes), reported as input
/// line `lineno`: tokenized honoring quotes, required to hold exactly
/// six fields, each field decoded, then assembled.
pub open spec fn spec_row(line: Seq<u8>, lineno: usize) -> Result<RecordModel, ParseError> {
    match tok_fields(line) {
        None => Err(ParseError::Tokenization { line: lineno }),
        Some(fs) => if fs.len() != 6 {
            Err(ParseError::FieldCount { line: lineno, count: fs.len() as usize })
        } else {
            spec_record_of(
                spec_decode(fs[0]),
                spec_decode(fs[1]),
                spec_decode(fs[2]),
                spec_decode(fs[3]),
                spec_decode(fs[4]),
                spec_decode(fs[5]),
            )
        },
    }
}

/// The header outcome of a whole document: its first line, decoded
/// and parsed; an empty document has an empty header line.
pub open spec fn spec_header_of(input: Seq<u8>) -> Result<DateTime, ParseError> {
    let ls = spec_lines(input);
    let hdr = if ls.len() == 0 {
        Seq::<u8>::empty()
    } else {
        ls[0]
    };
    spec_parse_header(spec_decode(hdr))
}

/// The data rows of a whole document: every line after the header.
pub open spec fn spec_rows_of(input: Seq<u8>) -> Seq<Seq<u8>> {
    let ls = spec_lines(input);
    if ls.len() == 0 {
        seq![]
    } else {
        ls.skip(1)
    }
}

/// The records of rows `i..`, stopping at the first malformed row;
/// row `i` is input line `i + 2` (the header is line 1).
pub open spec fn spec_records_from(rows: Seq<Seq<u8>>, i: int) -> Result<
    Seq<RecordModel>,
    ParseError,
>
    decreases rows.len() - i,
{
    if i < 0 || i >= rows.len() {
        Ok(seq![])
    } else {
        match spec_row(rows[i], (i + 2) as usize) {
            Err(e) => Err(e),
            Ok(m) => match spec_records_from(rows, i + 1) {
                Err(e) => Err(e),
                Ok(rest) => Ok(seq![m] + rest),
            },
        }
    }
}

/// The outcome of parsing a whole document eagerly: header timestamp
/// plus all records, or the first failure anywhere in the input.
pub open spec fn spec_parse_list(input: Seq<u8>) -> Result<ListModel, ParseError> {
    match spec_header_of(input) {
        Err(e) => Err(e),
        Ok(dt) => match spec_records_from(spec_rows_of(input), 0) {
            Err(e) => Err(e),
            Ok(ms) => Ok(ListModel { updated: dt, records: ms }),
        },
    }
}

/// Parsing is deterministic: the outcome is a function of the input
/// bytes alone, so parsing the same document twice yields equal
/// models.
pub proof fn lemma_parse_deterministic(input1: Seq<u8>, input2: Seq<u8>)
    requires
        input1 == input2,
    ensures
        spec_parse_list(input1) == spec_parse_list(input2),
{
}

/// Every record a row yields has strictly sorted addresses: no two
/// structurally equal members, iterated in increasing order.
pub proof fn lemma_record_addresses_sorted(line: Seq<u8>, lineno: usize)
    ensures
        spec_row(line, lineno) matches Ok(m) ==> strictly_sorted(m.addresses),
{
    if spec_row(line, lineno) is Ok {
        let fs = tok_fields(line)->Some_0;
        let f0 = spec_decode(fs[0]);
        let f1 = spec_decode(fs[1]);
        let f2 = spec_decode(fs[2]);
        let e = Seq::<crate::types::AddrModel>::empty();
        assert(strictly_sorted(e));
        lemma_insert_all_sorted(e, spec_ip_field(f0)->Some_0);
        lemma_insert_all_sorted(insert_all(e, spec_ip_field(f0)->Some_0), spec_domain_field(f1));
        lemma_insert_all_sorted(
            insert_all(insert_all(e, spec_ip_field(f0)->Some_0), spec_domain_field(f1)),
            spec_url_field(f2)->Some_0,
        );
    }
}

/// Every record a row yields carries a valid calendar order date, and
/// every timestamp a header yields is a valid instant.
pub proof fn lemma_parsed_dates_valid(line: Seq<u8>, lineno: usize, hdr: Seq<char>)
    ensures
        spec_row(line, lineno) matches Ok(m) ==> crate::datetime::date_valid(m.order_date),
        spec_parse_header(hdr) matches Ok(dt) ==> crate::datetime::datetime_valid(dt),
{
    if spec_row(line, lineno) is Ok {
        let fs = tok_fields(line)->Some_0;
        crate::datetime::lemma_parsed_date_valid(spec_trim(spec_decode(fs[5])));
    }
    let k = find_delim(hdr, seq![':']);
    if k >= 0 {
        crate::datetime::lemma_parsed_timestamp_valid(spec_trim(hdr.skip(k + 1)));
    }
}

/// A row that tokenizes to other than six fields fails with the field
/// count and its input line number, the header counting as line 1.
pub proof fn lemma_field_count_error(line: Seq<u8>, lineno: usize)
    requires
        tok_fields(line) is Some,
        tok_fields(line)->Some_0.len() != 6,
    ensures
        spec_row(line, lineno) == Err::<RecordModel, ParseError>(
            ParseError::FieldCount {
                line: lineno,
                count: tok_fields(line)->Some_0.len() as usize,
            },
        ),
{
}

/// Parse the header line, already decoded.
fn parse_header(line: &str) -> (r: Result<DateTime, ParseError>)
    ensures
        r == spec_parse_header(line@),
{
    proof {
        reveal_strlit(":");
        assert(":"@ =~= seq![':']);
    }
    let n: usize = line.unicode_len();
    match find_sub(line, ":") {
        None => Err(ParseError::HeaderFormat),
        Some(k) => {
            let tail = line.substring_char(k + 1, n);
            proof {
                assert(tail@ =~= line@.skip(k + 1));
            }
            let ts = trim_str(tail);
            match parse_timestamp(ts) {
                Some(dt) => Ok(dt),
                None => Err(ParseError::TimestampFormat),
            }
        },
    }
}

/// Parse one data row, reported as input line `lineno`.
pub fn parse_row(line: &[u8], lineno: usize) -> (r: Result<Record, ParseError>)
    ensures
        match r {
            Ok(rec) => spec_row(line@, lineno) == Ok::<RecordModel, ParseError>(rec@)
                && rec.addresses.wf(),
            Err(e) => spec_row(line@, lineno) == Err::<RecordModel, ParseError>(e),
        },
{
    let fields = match tokenize_row(line) {
        None => {
            return Err(ParseError::Tokenization { line: lineno });
        },
        Some(fs) => fs,
    };
    let ghost fs = fields@.map_values(|f: Vec<u8>| f@);
    if fields.len() != 6 {
        return Err(ParseError::FieldCount { line: lineno, count: fields.len() });
    }
    let s0 = decode_cp1251(fields[0].as_slice());
    let s1 = decode_cp1251(fields[1].as_slice());
    let s2 = decode_cp1251(fields[2].as_slice());
    let s3 = decode_cp1251(fields[3].as_slice());
    let s4 = decode_cp1251(fields[4].as_slice());
    let s5 = decode_cp1251(fields[5].as_slice());
    proof {
        assert(fs[0] == fields@[0]@ && fs[1] == fields@[1]@ && fs[2] == fields@[2]@ && fs[3]
            == fields@[3]@ && fs[4] == fields@[4]@ && fs[5] == fields@[5]@);
    }
    let mut addresses = Addresses::new();
    match parse_ipv4_addresses(s0.as_str(), &mut addresses) {
        Err(e) => {
            return Err(e);
        },
        Ok(_) => {},
    }
    parse_domain_name(s1.as_str(), &mut addresses);
    match parse_url(s2.as_str(), &mut addresses) {
        Err(e) => {
            return Err(e);
        },
        Ok(_) => {},
    }
    let order_date = match parse_date(trim_str(s5.as_str())) {
        None => {
            return Err(ParseError::DateFormat);
        },
        Some(d) => d,
    };
    let organization = trim_str(s3.as_str()).to_owned();
    let order_id = trim_str(s4.as_str()).to_owned();
    Ok(Record { addresses, organization, order_id, order_date })
}

/// A parsed header plus the raw data rows still to be classified.
pub struct Reader {
    updated: DateTime,
    rows: Vec<Vec<u8>>,
}

impl Reader {
    /// The publication timestamp the header carried, in UTC.
    pub closed spec fn spec_updated(&self) -> DateTime {
        self.updated
    }

    /// The raw data rows behind the header.
    pub closed spec fn spec_rows(&self) -> Seq<Seq<u8>> {
        self.rows@.map_values(|r: Vec<u8>| r@)
    }

    /// Line numbers stay within the machine's reach.
    pub closed spec fn wf(&self) -> bool {
        self.rows@.len() + 2 <= usize::MAX
    }

    /// Parse the header of a whole document; the rows wait unread.
    ///
    /// Fails exactly when the header line fails: without a `:` with
    /// `HeaderFormat`, with a `:` but a malformed timestamp with
    /// `TimestampFormat`.
    pub fn from_bytes(data: &[u8]) -> (r: Result<Reader, ParseError>)
        requires
            data@.len() <= usize::MAX - 2,
        ensures
            match r {
                Ok(rd) => spec_header_of(data@) == Ok::<DateTime, ParseError>(rd.spec_updated())
                    && rd.spec_rows() == spec_rows_of(data@) && rd.wf(),
                Err(e) => spec_header_of(data@) == Err::<DateTime, ParseError>(e),
            },
    {
        let mut lines = split_lines(data);
        proof {
            crate::tokenizer::lemma_spec_lines_count(data@);
        }
        if lines.len() == 0 {
            let empty: Vec<u8> = Vec::new();
            let hdr = decode_cp1251(empty.as_slice());
            proof {
                assert(empty@ =~= Seq::<u8>::empty());
            }
            match parse_header(hdr.as_str()) {
                Err(e) => {
                    return Err(e);
                },
                Ok(dt) => {
                    let r = Reader { updated: dt, rows: Vec::new() };
                    proof {
                        assert(r.spec_rows() =~= spec_rows_of(data@));
                    }
                    return Ok(r);
                },
            }
        }
        let ghost ls0 = lines@;
        let rows = lines.split_off(1);
        let hdr = decode_cp1251(lines[0].as_slice());
        proof {
            assert(lines@[0] == ls0[0]);
            assert(lines@[0]@ == spec_lines(data@)[0]);
            assert forall|k: int| 0 <= k < rows@.len() implies #[trigger] rows@[k]@ == spec_lines(
                data@,
            ).skip(1)[k] by {
                assert(rows@[k] == ls0[k + 1]);
            }
            assert(rows@.map_values(|r: Vec<u8>| r@) =~= spec_rows_of(data@));
        }
        match parse_header(hdr.as_str()) {
            Err(e) => Err(e),
            Ok(dt) => Ok(Reader { updated: dt, rows }),
        }
    }

    /// Date of the last update of this list, in UTC.
    pub fn get_timestamp(&self) -> (r: &DateTime)
        ensures
            *r == self.spec_updated(),
    {
        &self.updated
    }

    /// The rows as a streaming sequence of records.
    pub fn records(self) -> (r: Records)
        ensures
            r.spec_rows() == self.spec_rows(),
            r.spec_next() == 0,
            !r.spec_done(),
            self.wf() ==> r.wf(),
    {
        Records { rows: self.rows, next: 0, done: false }
    }
}

/// The streaming side of a [`Reader`]: one record per data row, on
/// demand, until the rows end or the first row fails. Finished — by
/// end or by failure — it stays finished; no row is retried.
pub struct Records {
    rows: Vec<Vec<u8>>,
    next: usize,
    done: bool,
}

impl Records {
    /// The raw data rows.
    pub closed spec fn spec_rows(&self) -> Seq<Seq<u8>> {
        self.rows@.map_values(|r: Vec<u8>| r@)
    }

    /// Index of the next row to be parsed.
    pub closed spec fn spec_next(&self) -> int {
        self.next as int
    }

    /// Whether the sequence has ended, by end of input or by failure.
    pub closed spec fn spec_done(&self) -> bool {
        self.done
    }

    /// The cursor is in bounds and line numbers stay within the
    /// machine's reach.
    pub closed spec fn wf(&self) -> bool {
        self.rows@.len() + 2 <= usize::MAX && self.next <= self.rows@.len()
    }

    /// The next record: the parse of row `i` as input line `i + 2`.
    /// Yields nothing at the end of the rows and forever after the
    /// first failure.
    pub fn next_record(&mut self) -> (r: Option<Result<Record, ParseError>>)
        requires
            old(self).wf(),
        ensures
            final(self).wf(),
            final(self).spec_rows() == old(self).spec_rows(),
            old(self).spec_done() ==> r is None && final(self).spec_done()
                && final(self).spec_next() == old(self).spec_next(),
            !old(self).spec_done() && old(self).spec_next() == old(self).spec_rows().len() ==> r
                is None && final(self).spec_done(),
            !old(self).spec_done() && old(self).spec_next() < old(self).spec_rows().len() ==> {
                let row = old(self).spec_rows()[old(self).spec_next()];
                let lineno = (old(self).spec_next() + 2) as usize;
                match r {
                    Some(res) => match res {
                        Ok(rec) => spec_row(row, lineno) == Ok::<RecordModel, ParseError>(rec@)
                            && !final(self).spec_done()
                            && final(self).spec_next() == old(self).spec_next() + 1,
                        Err(e) => spec_row(row, lineno) == Err::<RecordModel, ParseError>(e)
                            && final(self).spec_done(),
                    },
                    None => false,
                }
            },
    {
        if self.done {
            return None;
        }
        if self.next == self.rows.len() {
            self.done = true;
            return None;
        }
        let lineno: usize = self.next + 2;
        let row = &self.rows[self.next];
        proof {
            assert(self.spec_rows()[self.next as int] == self.rows@[self.next as int]@);
        }
        match parse_row(row.as_slice(), lineno) {
            Ok(rec) => {
                self.next = self.next + 1;
                Some(Ok(rec))
            },
            Err(e) => {
                self.done = true;
                Some(Err(e))
            },
        }
    }
}

/// Parse all remaining rows of `reader` eagerly into a [`List`],
/// stopping at and surfacing the first row-level failure.
pub fn load_records(reader: Reader) -> (r: Result<List, ParseError>)
    requires
        reader.wf(),
    ensures
        match r {
            Ok(list) => list@.updated == reader.spec_updated() && spec_records_from(
                reader.spec_rows(),
                0,
            ) == Ok::<Seq<RecordModel>, ParseError>(list@.records),
            Err(e) => spec_records_from(reader.spec_rows(), 0) == Err::<
                Seq<RecordModel>,
                ParseError,
            >(e),
        },
{
    let updated = *reader.get_timestamp();
    let ghost rows = reader.spec_rows();
    let mut records = reader.records();
    let mut out: Vec<Record> = Vec::new();
    proof {
        if spec_records_from(rows, 0) is Ok {
            assert(Seq::<RecordModel>::empty() + spec_records_from(rows, 0)->Ok_0
                =~= spec_records_from(rows, 0)->Ok_0);
        }
    }
    loop
        invariant
            records.wf(),
            !records.spec_done(),
            rows == reader.spec_rows(),
            updated == reader.spec_updated(),
            records.spec_rows() == rows,
            0 <= records.spec_next() <= rows.len(),
            (match spec_records_from(rows, records.spec_next()) {
                Ok(rest) => spec_records_from(rows, 0) == Ok::<Seq<RecordModel>, ParseError>(
                    out@.map_values(|rec: Record| rec@) + rest,
                ),
                Err(e) => spec_records_from(rows, 0) == Err::<Seq<RecordModel>, ParseError>(e),
            }),
        decreases rows.len() - records.spec_next(),
    {
        let ghost i = records.spec_next();
        let ghost done_models = out@.map_values(|rec: Record| rec@);
        match records.next_record() {
            None => {
                proof {
                    assert(i == rows.len());
                    assert(spec_records_from(rows, i) == Ok::<Seq<RecordModel>, ParseError>(
                        Seq::<RecordModel>::empty(),
                    ));
                    assert(done_models + Seq::<RecordModel>::empty() =~= done_models);
                    assert(spec_records_from(rows, 0) == Ok::<Seq<RecordModel>, ParseError>(
                        done_models,
                    ));
                }
                return Ok(List { updated, records: out });
            },
            Some(res) => match res {
                Ok(rec) => {
                    proof {
                        assert(i < rows.len());
                        assert(spec_row(rows[i], (i + 2) as usize) == Ok::<
                            RecordModel,
                            ParseError,
                        >(rec@));
                        let rest = spec_records_from(rows, i + 1);
                        if rest is Ok {
                            assert(spec_records_from(rows, i) == Ok::<
                                Seq<RecordModel>,
                                ParseError,
                            >(seq![rec@] + rest->Ok_0));
                            assert(done_models + (seq![rec@] + rest->Ok_0) =~= done_models.push(
                                rec@,
                            ) + rest->Ok_0);
                        } else {
                            assert(spec_records_from(rows, i) == rest);
                        }
                    }
                    out.push(rec);
                    proof {
                        assert(out@.map_values(|rec2: Record| rec2@) =~= done_models.push(rec@));
                    }
                },
                Err(e) => {
                    proof {
                        assert(i < rows.len());
                        assert(spec_row(rows[i], (i + 2) as usize) == Err::<
                            RecordModel,
                            ParseError,
                        >(e));
                        assert(spec_records_from(rows, i) == Err::<Seq<RecordModel>, ParseError>(
                            e,
                        ));
                        assert(spec_records_from(rows, 0) == Err::<Seq<RecordModel>, ParseError>(
                            e,
                        ));
                    }
                    return Err(e);
                },
            },
        }
    }
}

/// Parse a whole document eagerly: header, then every row.
pub fn parse_bytes(data: &[u8]) -> (r: Result<List, ParseError>)
    requires
        data@.len() <= usize::MAX - 2,
    ensures
        match r {
            Ok(list) => spec_parse_list(data@) == Ok::<ListModel, ParseError>(list@),
            Err(e) => spec_parse_list(data@) == Err::<ListModel, ParseError>(e),
        },
{
    let reader = match Reader::from_bytes(data) {
        Err(e) => {
            return Err(e);
        },
        Ok(rd) => rd,
    };
    match load_records(reader) {
        Err(e) => Err(e),
        Ok(list) => {
            proof {
                assert(list@ =~= spec_parse_list(data@)->Ok_0);
            }
            Ok(list)
        },
    }
}

} // verus!
