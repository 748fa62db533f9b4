//! Rows of the event store and the events they decode to.
//!
//! Reading the rows and decoding their JSON payloads happens outside this library; a
//! row arrives here with its payload already decoded (or with the decoder's message).
//! Here: parsing the timestamp text and building the event.

use vstd::prelude::*;

use crate::envelope::{Author, DomainOp};
use crate::projection::EventRecord;

verus! {

/// The payload of a stored event: who wrote it and what it does.
#[derive(Clone, Debug, PartialEq)]
pub struct EventEnvelope {
    pub op_id: String,
    pub operation: DomainOp,
    pub author: Author,
}

/// A row of the events table: the operation identifier, the revision, the payload as
/// decoded (or the decoder's message), and the timestamp as stored text.
#[derive(Debug, PartialEq)]
pub struct StoredRow {
    pub operation_id: String,
    pub revision: i64,
    pub envelope: Result<EventEnvelope, String>,
    pub timestamp: String,
}

/// The character is an ASCII decimal digit.
pub open spec fn is_digit(c: char) -> bool {
    '0' <= c && c <= '9'
}

/// The value of a sequence of decimal digits, most significant first.
pub open spec fn digits_value(d: Seq<char>) -> int
    decreases d.len(),
{
    if d.len() == 0 {
        0
    } else {
        digits_value(d.drop_last()) * 10 + (d.last() as int - '0' as int)
    }
}

/// The digits of a signed decimal text: the text after an optional `+` or `-`.
pub open spec fn unsigned_part(s: Seq<char>) -> Seq<char> {
    if s.len() > 0 && (s[0] == '+' || s[0] == '-') { s.drop_first() } else { s }
}

/// The value a signed decimal text stands for.
pub open spec fn signed_decimal_value(s: Seq<char>) -> int {
    if s.len() > 0 && s[0] == '-' { -digits_value(unsigned_part(s)) } else { digits_value(unsigned_part(s)) }
}

/// `str::parse::<i64>` accepts the text: an optional sign, then one or more ASCII
/// digits and nothing else, standing for a value within `i64`.
pub open spec fn i64_text_ok(s: Seq<char>) -> bool {
    &&& unsigned_part(s).len() > 0
    &&& forall|i: int| 0 <= i < unsigned_part(s).len() ==> is_digit(#[trigger] unsigned_part(s)[i])
    &&& i64::MIN <= signed_decimal_value(s) <= i64::MAX
}

/// The message of the error `str::parse::<i64>` reports for a text it refuses.
pub uninterp spec fn parse_int_error_text(s: Seq<char>) -> Seq<char>;

/// `str::parse::<i64>`, with the error turned into its message. Its documentation: the
/// text must be an optional `+` or `-` followed by digits only, and the value must fit
/// in `i64`; the value is the decimal one. The wording of the error is only named.
#[verifier::external_body]
fn parse_i64(s: &str) -> (r: Result<i64, String>)
    ensures
        r is Ok <==> i64_text_ok(s@),
        r matches Ok(v) ==> v == signed_decimal_value(s@),
        r matches Err(m) ==> m@ == parse_int_error_text(s@),
{
    s.parse::<i64>().map_err(|e| e.to_string())
}

/// Why a row does not decode: its payload did not decode, or its timestamp is not an
/// integer (checked in that order).
pub open spec fn decode_problem(row: StoredRow) -> Option<Seq<char>> {
    match row.envelope {
        Err(e) => Some("envelope parse error for op "@ + row.operation_id@ + ": "@ + e@),
        Ok(_) => if !i64_text_ok(row.timestamp@) {
            Some("timestamp parse error for op "@ + row.operation_id@ + ": "@ + parse_int_error_text(row.timestamp@))
        } else {
            None
        },
    }
}

/// The event a row that decodes stands for.
pub open spec fn row_event(row: StoredRow) -> EventRecord {
    let env = row.envelope->Ok_0;
    EventRecord {
        op_id: env.op_id,
        revision: row.revision as u64,
        operation: env.operation,
        author: env.author,
        timestamp: signed_decimal_value(row.timestamp@) as i64,
    }
}

fn text3(a: &str, b: &str, c: &str, d: &str) -> (s: String)
    ensures
        s@ == a@ + b@ + c@ + d@,
{
    let mut s = String::from_str(a);
    s.append(b);
    s.append(c);
    s.append(d);
    s
}

/// Decode one row into its event.
pub fn decode_row(row: StoredRow) -> (r: Result<EventRecord, String>)
    ensures
        match decode_problem(row) {
            Some(m) => r matches Err(x) && x@ == m,
            None => r == Ok::<EventRecord, String>(row_event(row)),
        },
{
    let ghost orig = row;
    let StoredRow { operation_id, revision, envelope, timestamp } = row;
    match envelope {
        Err(e) => Err(text3("envelope parse error for op ", operation_id.as_str(), ": ", e.as_str())),
        Ok(env) => match parse_i64(timestamp.as_str()) {
            Err(e) => Err(text3("timestamp parse error for op ", operation_id.as_str(), ": ", e.as_str())),
            Ok(ts) => {
                let EventEnvelope { op_id, operation, author } = env;
                Ok(EventRecord { op_id, revision: revision as u64, operation, author, timestamp: ts })
            },
        },
    }
}

} // verus!
