//! What travels over the connection: the kinds of control messages, and
//! the binary records that carry values.
//!
//! A record is the topic's number and a timestamp, eight bytes each, the
//! numeric code of the type in one byte, and the value in its layout. A
//! binary frame is any number of records, one behind the other.

use vstd::prelude::*;
use vstd::bytes::spec_u64_to_le_bytes;
use vstd::string::StringExecFns;
use crate::error::{Error, ErrorView};
use crate::message_type::{canonical, type_of_code, wire_code, Type};
use crate::text::str_eq;
use crate::value::{
    encoding, fits, laid, lemma_parse_laid, parse_value, read_value, representable, value_fits,
    word_at, write_value, Value, ValueView,
};

verus! {

/// The kinds of control messages.
#[derive(Debug, Clone, Copy, PartialEq, Eq, Structural, Hash)]
pub enum ControlKind {
    /// The client declares a topic.
    Publish,
    /// The client withdraws a topic it declared.
    Unpublish,
    /// The client changes properties of a topic.
    SetProperties,
    /// The client takes up a subscription.
    Subscribe,
    /// The client ends a subscription.
    Unsubscribe,
    /// The server announces a topic and its number.
    Announce,
    /// The server withdraws a topic's number.
    Unannounce,
    /// The server reports properties of a topic.
    Properties,
}

/// The word by which a kind of control message is named on the wire.
pub open spec fn kind_word(k: ControlKind) -> Seq<char> {
    match k {
        ControlKind::Publish => "publish"@,
        ControlKind::Unpublish => "unpublish"@,
        ControlKind::SetProperties => "setproperties"@,
        ControlKind::Subscribe => "subscribe"@,
        ControlKind::Unsubscribe => "unsubscribe"@,
        ControlKind::Announce => "announce"@,
        ControlKind::Unannounce => "unannounce"@,
        ControlKind::Properties => "properties"@,
    }
}

/// The kind of control message that the word `s` names, if it names one.
pub open spec fn kind_of_word(s: Seq<char>) -> Option<ControlKind> {
    if s == "publish"@ {
        Some(ControlKind::Publish)
    } else if s == "unpublish"@ {
        Some(ControlKind::Unpublish)
    } else if s == "setproperties"@ {
        Some(ControlKind::SetProperties)
    } else if s == "subscribe"@ {
        Some(ControlKind::Subscribe)
    } else if s == "unsubscribe"@ {
        Some(ControlKind::Unsubscribe)
    } else if s == "announce"@ {
        Some(ControlKind::Announce)
    } else if s == "unannounce"@ {
        Some(ControlKind::Unannounce)
    } else if s == "properties"@ {
        Some(ControlKind::Properties)
    } else {
        None
    }
}

impl ControlKind {
    /// The word that names this kind on the wire.
    pub fn as_str(self) -> (word: &'static str)
        ensures
            word@ == kind_word(self),
    {
        match self {
            ControlKind::Publish => "publish",
            ControlKind::Unpublish => "unpublish",
            ControlKind::SetProperties => "setproperties",
            ControlKind::Subscribe => "subscribe",
            ControlKind::Unsubscribe => "unsubscribe",
            ControlKind::Announce => "announce",
            ControlKind::Unannounce => "unannounce",
            ControlKind::Properties => "properties",
        }
    }

    /// The kind that `word` names. A word that names none is reported, not
    /// passed over.
    pub fn from_text(word: &str) -> (r: Result<ControlKind, Error>)
        ensures
            match r {
                Ok(k) => kind_of_word(word@) == Some(k),
                Err(e) => kind_of_word(word@).is_none() && e@ == ErrorView::InvalidMessageType(
                    "unknown kind of control message"@,
                ),
            },
    {
        if str_eq(word, "publish") {
            Ok(ControlKind::Publish)
        } else if str_eq(word, "unpublish") {
            Ok(ControlKind::Unpublish)
        } else if str_eq(word, "setproperties") {
            Ok(ControlKind::SetProperties)
        } else if str_eq(word, "subscribe") {
            Ok(ControlKind::Subscribe)
        } else if str_eq(word, "unsubscribe") {
            Ok(ControlKind::Unsubscribe)
        } else if str_eq(word, "announce") {
            Ok(ControlKind::Announce)
        } else if str_eq(word, "unannounce") {
            Ok(ControlKind::Unannounce)
        } else if str_eq(word, "properties") {
            Ok(ControlKind::Properties)
        } else {
            Err(Error::InvalidMessageType("unknown kind of control message"))
        }
    }

    /// Whether the server, not the client, sends messages of this kind.
    pub fn from_server(self) -> (r: bool)
        ensures
            r == (self == ControlKind::Announce || self == ControlKind::Unannounce || self
                == ControlKind::Properties),
    {
        match self {
            ControlKind::Announce | ControlKind::Unannounce | ControlKind::Properties => true,
            _ => false,
        }
    }
}

/// Reading the word of a kind gives the kind back.
pub proof fn lemma_kind_round_trip(k: ControlKind)
    ensures
        kind_of_word(kind_word(k)) == Some(k),
{
    reveal_strlit("publish");
    reveal_strlit("unpublish");
    reveal_strlit("setproperties");
    reveal_strlit("subscribe");
    reveal_strlit("unsubscribe");
    reveal_strlit("announce");
    reveal_strlit("unannounce");
    reveal_strlit("properties");
    assert("publish"@.len() == 7 && "unpublish"@.len() == 9 && "setproperties"@.len() == 13);
    assert("subscribe"@.len() == 9 && "unsubscribe"@.len() == 11 && "announce"@.len() == 8);
    assert("unannounce"@.len() == 10 && "properties"@.len() == 10);
    assert("unpublish"@[0] == 'u' && "subscribe"@[0] == 's');
    assert("unannounce"@[0] == 'u' && "properties"@[0] == 'p');
}

/// One update of a topic's value.
#[derive(Debug, Clone, PartialEq, Eq)]
pub struct Record {
    /// The number of the topic.
    pub topic_id: u64,
    /// When the value was set, in the clock units of the sender.
    pub timestamp: u64,
    /// The type whose numeric code the record carries.
    pub ty: Type,
    pub value: Value,
}

/// What a [`Record`] holds.
pub struct RecordView {
    pub topic_id: u64,
    pub timestamp: u64,
    pub ty: Type,
    pub value: ValueView,
}

impl View for Record {
    type V = RecordView;

    open spec fn view(&self) -> RecordView {
        RecordView {
            topic_id: self.topic_id,
            timestamp: self.timestamp,
            ty: self.ty,
            value: self.value@,
        }
    }
}

/// The records in `rs`, in their order.
pub open spec fn records_view(rs: Seq<Record>) -> Seq<RecordView> {
    rs.map_values(|r: Record| r@)
}

/// The layout of the record `r`.
pub open spec fn record_layout(r: RecordView) -> Seq<u8> {
    spec_u64_to_le_bytes(r.topic_id) + spec_u64_to_le_bytes(r.timestamp) + seq![wire_code(r.ty)]
        + encoding(r.value)
}

/// The layout of the records in `rs`, one behind the other.
pub open spec fn frame_layout(rs: Seq<RecordView>) -> Seq<u8>
    decreases rs.len(),
{
    if rs.len() == 0 {
        Seq::empty()
    } else {
        record_layout(rs.first()) + frame_layout(rs.drop_first())
    }
}

/// The record laid out in `b` from place `at`, with the place behind it.
///
/// A record that ends too early, or whose value is no layout of its type,
/// is a codec failure; a numeric code that stands for no type is reported
/// with the code. The type of the record read is the one type recorded for
/// its code.
pub open spec fn parse_record(b: Seq<u8>, at: int) -> Result<(RecordView, int), ErrorView> {
    if at + 17 > b.len() {
        Err(ErrorView::RmpError("malformed record"@))
    } else {
        match type_of_code(b[at + 16] as u64) {
            None => Err(ErrorView::InvalidMessageNumber(b[at + 16] as u64)),
            Some(t) => match parse_value(t, b, at + 17) {
                None => Err(ErrorView::RmpError("malformed record"@)),
                Some((v, end)) => Ok(
                    (
                        RecordView {
                            topic_id: word_at(b, at),
                            timestamp: word_at(b, at + 8),
                            ty: t,
                            value: v,
                        },
                        end,
                    ),
                ),
            },
        }
    }
}

/// The records laid out in `b` from place `at` to the end, or the failure
/// of the first record that cannot be read.
pub open spec fn parse_frame(b: Seq<u8>, at: int) -> Result<Seq<RecordView>, ErrorView>
    decreases b.len() - at,
{
    if at >= b.len() {
        Ok(Seq::empty())
    } else {
        match parse_record(b, at) {
            Err(e) => Err(e),
            Ok((r, end)) => if end <= at || end > b.len() {
                Err(ErrorView::RmpError("malformed record"@))
            } else {
                match parse_frame(b, end) {
                    Err(e) => Err(e),
                    Ok(rest) => Ok(seq![r] + rest),
                }
            },
        }
    }
}

/// Appends the layout of a record of `value` for the topic numbered
/// `topic_id`.
pub fn write_record(out: &mut Vec<u8>, topic_id: u64, timestamp: u64, ty: Type, value: &Value)
    ensures
        final(out)@ == old(out)@ + record_layout(
            RecordView { topic_id, timestamp, ty, value: value@ },
        ),
        representable(value@),
{
    let id_bytes = vstd::bytes::u64_to_le_bytes(topic_id);
    out.extend_from_slice(id_bytes.as_slice());
    let time_bytes = vstd::bytes::u64_to_le_bytes(timestamp);
    out.extend_from_slice(time_bytes.as_slice());
    out.push(ty.to_wire_code());
    write_value(out, value);
    proof {
        assert(out@ =~= old(out)@ + record_layout(
            RecordView { topic_id, timestamp, ty, value: value@ },
        ));
    }
}

/// The layout of a record of `value`, as a value of type `ty`, for the
/// topic numbered `topic_id`. Fails exactly if the value cannot be of that
/// type.
pub fn encode_record(topic_id: u64, timestamp: u64, ty: Type, value: &Value) -> (r: Result<
    Vec<u8>,
    Error,
>)
    ensures
        r is Ok <==> fits(ty, value@),
        r matches Ok(bytes) ==> bytes@ == record_layout(
            RecordView { topic_id, timestamp, ty, value: value@ },
        ) && parse_frame(bytes@, 0) == Ok::<Seq<RecordView>, ErrorView>(
            seq![RecordView { topic_id, timestamp, ty: canonical(ty), value: value@ }],
        ),
        r matches Err(e) ==> e@ == ErrorView::InvalidMessageType("value does not fit the type"@),
{
    if !value_fits(ty, value) {
        return Err(Error::InvalidMessageType("value does not fit the type"));
    }
    let mut out: Vec<u8> = Vec::new();
    write_record(&mut out, topic_id, timestamp, ty, value);
    proof {
        let r = RecordView { topic_id, timestamp, ty, value: value@ };
        assert(out@ =~= record_layout(r));
        assert(frame_layout(seq![r].drop_first()) =~= Seq::<u8>::empty());
        assert(frame_layout(seq![r]) =~= record_layout(r));
        assert(out@.subrange(0, out@.len() as int) =~= out@);
        lemma_frame_round_trip(seq![r], out@, 0);
        assert(seq![r].map_values(|x: RecordView| RecordView { ty: canonical(x.ty), ..x })
            =~= seq![RecordView { ty: canonical(ty), ..r }]);
    }
    Ok(out)
}

/// Reads the record laid out in `bytes` from place `at`.
pub fn read_record(bytes: &[u8], at: usize) -> (r: Result<(Record, usize), Error>)
    requires
        at <= bytes@.len(),
    ensures
        match parse_record(bytes@, at as int) {
            Ok((record, end)) => r matches Ok((x, e)) && x@ == record && e == end && at + 17 <= e
                <= bytes@.len(),
            Err(failure) => r matches Err(e) && e@ == failure,
        },
{
    let len: usize = bytes.len();
    if len - at < 17 {
        return Err(Error::RmpError(String::from_str("malformed record")));
    }
    let topic_id = vstd::bytes::u64_from_le_bytes(vstd::slice::slice_subrange(bytes, at, at + 8));
    let timestamp = vstd::bytes::u64_from_le_bytes(
        vstd::slice::slice_subrange(bytes, at + 8, at + 16),
    );
    let code = bytes[at + 16];
    match Type::from_wire_code(code) {
        Err(e) => Err(e),
        Ok(ty) => match read_value(ty, bytes, at + 17) {
            None => Err(Error::RmpError(String::from_str("malformed record"))),
            Some((value, end)) => Ok((Record { topic_id, timestamp, ty, value }, end)),
        },
    }
}

/// What reading the records from place `at` gives, behind the records
/// `done` already read.
spec fn frame_after(done: Seq<RecordView>, b: Seq<u8>, at: int) -> Result<
    Seq<RecordView>,
    ErrorView,
> {
    match parse_frame(b, at) {
        Ok(rest) => Ok(done + rest),
        Err(e) => Err(e),
    }
}

/// The records in a binary frame, in their order. Fails with the failure of
/// the first record that cannot be read.
pub fn decode_frame(bytes: &[u8]) -> (r: Result<Vec<Record>, Error>)
    ensures
        match parse_frame(bytes@, 0) {
            Ok(records) => r matches Ok(rs) && records_view(rs@) == records,
            Err(failure) => r matches Err(e) && e@ == failure,
        },
{
    let len: usize = bytes.len();
    let mut records: Vec<Record> = Vec::new();
    let mut at: usize = 0;
    proof {
        assert(records_view(records@) =~= Seq::<RecordView>::empty());
        match parse_frame(bytes@, 0) {
            Ok(rest) => {
                assert(Seq::<RecordView>::empty() + rest =~= rest);
            },
            Err(e) => {},
        }
    }
    while at < len
        invariant
            at <= len,
            len == bytes@.len(),
            parse_frame(bytes@, 0) == frame_after(records_view(records@), bytes@, at as int),
        decreases len - at,
    {
        let ghost done = records_view(records@);
        match read_record(bytes, at) {
            Err(e) => {
                return Err(e);
            },
            Ok((record, end)) => {
                proof {
                    assert(records_view(records@.push(record)) =~= done.push(record@));
                    match parse_frame(bytes@, end as int) {
                        Ok(rest) => {
                            assert(done + (seq![record@] + rest) =~= done.push(record@) + rest);
                        },
                        Err(e) => {},
                    }
                }
                records.push(record);
                at = end;
            },
        }
    }
    proof {
        assert(records_view(records@) + Seq::<RecordView>::empty() =~= records_view(records@));
    }
    Ok(records)
}

/// A record that stands at a place in its layout is read there, with the
/// one type recorded for its code, and reading ends where the layout ends.
pub proof fn lemma_record_laid(r: RecordView, b: Seq<u8>, at: int)
    requires
        fits(r.ty, r.value),
        representable(r.value),
        laid(b, at, record_layout(r)),
    ensures
        parse_record(b, at) == Ok::<(RecordView, int), ErrorView>(
            (RecordView { ty: canonical(r.ty), ..r }, at + record_layout(r).len()),
        ),
        record_layout(r).len() >= 17,
{
    vstd::bytes::lemma_auto_spec_u64_to_from_le_bytes();
    let all = b.subrange(at, at + record_layout(r).len());
    let id = spec_u64_to_le_bytes(r.topic_id);
    let time = spec_u64_to_le_bytes(r.timestamp);
    assert(b.subrange(at, at + 8) =~= id) by {
        assert forall|j: int| 0 <= j < 8 implies b.subrange(at, at + 8)[j] == id[j] by {
            assert(b[at + j] == all[j]);
        }
    }
    assert(b.subrange(at + 8, at + 16) =~= time) by {
        assert forall|j: int| 0 <= j < 8 implies b.subrange(at + 8, at + 16)[j] == time[j] by {
            assert(b[at + 8 + j] == all[8 + j]);
        }
    }
    assert(b[at + 16] == all[16]);
    assert(b[at + 16] == wire_code(r.ty));
    let t = canonical(r.ty);
    assert(type_of_code(wire_code(r.ty) as u64) == Some(t));
    assert(fits(t, r.value));
    assert(b.subrange(at + 17, at + 17 + encoding(r.value).len()) =~= encoding(r.value)) by {
        assert forall|j: int| 0 <= j < encoding(r.value).len() implies b.subrange(
            at + 17,
            at + 17 + encoding(r.value).len(),
        )[j] == encoding(r.value)[j] by {
            assert(b[at + 17 + j] == all[17 + j]);
        }
    }
    lemma_parse_laid(t, r.value, b, at + 17);
}

/// Records that stand one behind the other up to the end are read as the
/// same records in the same order, each with the one type recorded for its
/// code.
pub proof fn lemma_frame_round_trip(rs: Seq<RecordView>, b: Seq<u8>, at: int)
    requires
        forall|i: int| 0 <= i < rs.len() ==> fits((#[trigger] rs[i]).ty, rs[i].value)
            && representable(
            rs[i].value,
        ),
        laid(b, at, frame_layout(rs)),
        at + frame_layout(rs).len() == b.len(),
    ensures
        parse_frame(b, at) == Ok::<Seq<RecordView>, ErrorView>(
            rs.map_values(|x: RecordView| RecordView { ty: canonical(x.ty), ..x }),
        ),
    decreases rs.len(),
{
    let read = |x: RecordView| RecordView { ty: canonical(x.ty), ..x };
    if rs.len() == 0 {
        assert(rs.map_values(read) =~= Seq::<RecordView>::empty());
    } else {
        let first = rs.first();
        let rest = rs.drop_first();
        let whole = b.subrange(at, at + frame_layout(rs).len());
        let head = record_layout(first);
        assert(b.subrange(at, at + head.len()) =~= head) by {
            assert forall|j: int| 0 <= j < head.len() implies b.subrange(at, at + head.len())[j]
                == head[j] by {
                assert(b[at + j] == whole[j]);
            }
        }
        assert(b.subrange(at + head.len(), at + head.len() + frame_layout(rest).len())
            =~= frame_layout(rest)) by {
            assert forall|j: int| 0 <= j < frame_layout(rest).len() implies b.subrange(
                at + head.len(),
                at + head.len() + frame_layout(rest).len(),
            )[j] == frame_layout(rest)[j] by {
                assert(b[at + head.len() + j] == whole[head.len() + j]);
            }
        }
        lemma_record_laid(first, b, at);
        assert forall|i: int| 0 <= i < rest.len() implies fits((#[trigger] rest[i]).ty, rest[i].value)
            && representable(rest[i].value) by {
            assert(rest[i] == rs[i + 1]);
        }
        lemma_frame_round_trip(rest, b, at + head.len());
        assert(seq![read(first)] + rest.map_values(read) =~= rs.map_values(read));
    }
}

} // verus!
