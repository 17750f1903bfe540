//! Typed values and their binary layout.
//!
//! Numbers are laid out in fixed width, least significant byte first.
//! Texts and byte strings carry their length in bytes before them, arrays
//! their count of items.

use vstd::prelude::*;
use vstd::bytes::{
    spec_u32_from_le_bytes, spec_u32_to_le_bytes, spec_u64_from_le_bytes, spec_u64_to_le_bytes,
    u32_from_le_bytes, u32_to_le_bytes, u64_from_le_bytes, u64_to_le_bytes,
};
use vstd::slice::{slice_subrange, slice_to_vec};
use vstd::utf8::{decode_utf8, encode_utf8, valid_utf8};
use vstd::string::{StringExecFns, StringSliceAdditionalSpecFns};
use crate::error::{Error, ErrorView};
use crate::message_type::{wire_code, Type};

verus! {

/// A value of one of the types of the protocol.
///
/// A double or a float is held as the bits of its IEEE 754 form.
#[derive(Debug, Clone, PartialEq, Eq)]
pub enum Value {
    Boolean(bool),
    Double(u64),
    Int(i64),
    Float(u32),
    String(String),
    Raw(Vec<u8>),
    BooleanArray(Vec<bool>),
    DoubleArray(Vec<u64>),
    IntArray(Vec<i64>),
    FloatArray(Vec<u32>),
    StringArray(Vec<String>),
}

/// What a [`Value`] holds.
pub enum ValueView {
    Boolean(bool),
    Double(u64),
    Int(i64),
    Float(u32),
    String(Seq<char>),
    Raw(Seq<u8>),
    BooleanArray(Seq<bool>),
    DoubleArray(Seq<u64>),
    IntArray(Seq<i64>),
    FloatArray(Seq<u32>),
    StringArray(Seq<Seq<char>>),
}

impl View for Value {
    type V = ValueView;

    open spec fn view(&self) -> ValueView {
        match self {
            Value::Boolean(b) => ValueView::Boolean(*b),
            Value::Double(x) => ValueView::Double(*x),
            Value::Int(x) => ValueView::Int(*x),
            Value::Float(x) => ValueView::Float(*x),
            Value::String(s) => ValueView::String(s@),
            Value::Raw(b) => ValueView::Raw(b@),
            Value::BooleanArray(a) => ValueView::BooleanArray(a@),
            Value::DoubleArray(a) => ValueView::DoubleArray(a@),
            Value::IntArray(a) => ValueView::IntArray(a@),
            Value::FloatArray(a) => ValueView::FloatArray(a@),
            Value::StringArray(a) => ValueView::StringArray(a@.map_values(|s: String| s@)),
        }
    }
}

/// Whether a value of the shape of `v` can be a value of type `t`: texts go
/// with the types of code 4, byte strings with those of code 5, every other
/// shape with its one type.
pub open spec fn fits(t: Type, v: ValueView) -> bool {
    match v {
        ValueView::Boolean(_) => wire_code(t) == 0,
        ValueView::Double(_) => wire_code(t) == 1,
        ValueView::Int(_) => wire_code(t) == 2,
        ValueView::Float(_) => wire_code(t) == 3,
        ValueView::String(_) => wire_code(t) == 4,
        ValueView::Raw(_) => wire_code(t) == 5,
        ValueView::BooleanArray(_) => wire_code(t) == 16,
        ValueView::DoubleArray(_) => wire_code(t) == 17,
        ValueView::IntArray(_) => wire_code(t) == 18,
        ValueView::FloatArray(_) => wire_code(t) == 19,
        ValueView::StringArray(_) => wire_code(t) == 20,
    }
}

/// The byte that stands for a boolean.
pub open spec fn flag(b: bool) -> u8 {
    if b {
        1u8
    } else {
        0u8
    }
}

/// `bytes` behind their length.
pub open spec fn framed(bytes: Seq<u8>) -> Seq<u8> {
    spec_u64_to_le_bytes(bytes.len() as u64) + bytes
}

/// The layout of the booleans in `a`, one byte each.
pub open spec fn flags(a: Seq<bool>) -> Seq<u8> {
    Seq::new(a.len(), |k: int| flag(a[k]))
}

/// The layout of the 64-bit numbers in `a`, eight bytes each.
pub open spec fn words(a: Seq<u64>) -> Seq<u8> {
    Seq::new(8 * a.len(), |k: int| spec_u64_to_le_bytes(a[k / 8])[k % 8])
}

/// The layout of the 32-bit numbers in `a`, four bytes each.
pub open spec fn halves(a: Seq<u32>) -> Seq<u8> {
    Seq::new(4 * a.len(), |k: int| spec_u32_to_le_bytes(a[k / 4])[k % 4])
}

/// The layout of the texts in `a`, each in UTF-8 behind its length.
pub open spec fn texts(a: Seq<Seq<char>>) -> Seq<u8>
    decreases a.len(),
{
    if a.len() == 0 {
        Seq::empty()
    } else {
        framed(encode_utf8(a.first())) + texts(a.drop_first())
    }
}

/// The integers in `a` as 64-bit patterns.
pub open spec fn patterns(a: Seq<i64>) -> Seq<u64> {
    a.map_values(|x: i64| x as u64)
}

/// The binary layout of the value `v`.
pub open spec fn encoding(v: ValueView) -> Seq<u8> {
    match v {
        ValueView::Boolean(b) => seq![flag(b)],
        ValueView::Double(x) => spec_u64_to_le_bytes(x),
        ValueView::Int(x) => spec_u64_to_le_bytes(x as u64),
        ValueView::Float(x) => spec_u32_to_le_bytes(x),
        ValueView::String(s) => framed(encode_utf8(s)),
        ValueView::Raw(b) => framed(b),
        ValueView::BooleanArray(a) => spec_u64_to_le_bytes(a.len() as u64) + flags(a),
        ValueView::DoubleArray(a) => spec_u64_to_le_bytes(a.len() as u64) + words(a),
        ValueView::IntArray(a) => spec_u64_to_le_bytes(a.len() as u64) + words(patterns(a)),
        ValueView::FloatArray(a) => spec_u64_to_le_bytes(a.len() as u64) + halves(a),
        ValueView::StringArray(a) => spec_u64_to_le_bytes(a.len() as u64) + texts(a),
    }
}

/// The 64-bit number laid out in `b` from place `at`.
pub open spec fn word_at(b: Seq<u8>, at: int) -> u64 {
    spec_u64_from_le_bytes(b.subrange(at, at + 8))
}

/// The 32-bit number laid out in `b` from place `at`.
pub open spec fn half_at(b: Seq<u8>, at: int) -> u32 {
    spec_u32_from_le_bytes(b.subrange(at, at + 4))
}

/// Whether a length and as many bytes are laid out in `b` from place `at`.
pub open spec fn framed_at(b: Seq<u8>, at: int) -> bool {
    at + 8 <= b.len() && at + 8 + word_at(b, at) <= b.len()
}

/// The bytes behind the length laid out in `b` at place `at`.
pub open spec fn body_at(b: Seq<u8>, at: int) -> Seq<u8> {
    b.subrange(at + 8, at + 8 + word_at(b, at))
}

/// The text laid out in `b` from place `at`, with the place behind it.
pub open spec fn parse_text(b: Seq<u8>, at: int) -> Option<(Seq<char>, int)> {
    if framed_at(b, at) && valid_utf8(body_at(b, at)) {
        Some((decode_utf8(body_at(b, at)), at + 8 + word_at(b, at)))
    } else {
        None
    }
}

/// The `n` texts laid out in `b` from place `at`, with the place behind
/// them.
pub open spec fn parse_texts(b: Seq<u8>, at: int, n: nat) -> Option<(Seq<Seq<char>>, int)>
    decreases n,
{
    if n == 0 {
        Some((Seq::empty(), at))
    } else {
        match parse_text(b, at) {
            None => None,
            Some((first, next)) => match parse_texts(b, next, (n - 1) as nat) {
                None => None,
                Some((rest, end)) => Some((seq![first] + rest, end)),
            },
        }
    }
}

/// The value of type `t` laid out in `b` from place `at`, with the place
/// behind it; `None` where the bytes end too early or are no layout of such
/// a value.
pub open spec fn parse_value(t: Type, b: Seq<u8>, at: int) -> Option<(ValueView, int)> {
    let code = wire_code(t);
    let n = word_at(b, at);
    if code == 0 {
        if at + 1 <= b.len() && b[at] <= 1 {
            Some((ValueView::Boolean(b[at] == 1), at + 1))
        } else {
            None
        }
    } else if code == 1 {
        if at + 8 <= b.len() {
            Some((ValueView::Double(word_at(b, at)), at + 8))
        } else {
            None
        }
    } else if code == 2 {
        if at + 8 <= b.len() {
            Some((ValueView::Int(word_at(b, at) as i64), at + 8))
        } else {
            None
        }
    } else if code == 3 {
        if at + 4 <= b.len() {
            Some((ValueView::Float(half_at(b, at)), at + 4))
        } else {
            None
        }
    } else if code == 4 {
        match parse_text(b, at) {
            Some((text, end)) => Some((ValueView::String(text), end)),
            None => None,
        }
    } else if code == 5 {
        if framed_at(b, at) {
            Some((ValueView::Raw(body_at(b, at)), at + 8 + n))
        } else {
            None
        }
    } else if code == 16 {
        if framed_at(b, at) && forall|k: int| at + 8 <= k < at + 8 + n ==> #[trigger] b[k] <= 1 {
            Some((ValueView::BooleanArray(Seq::new(n as nat, |i: int| b[at + 8 + i] == 1)), at + 8 + n))
        } else {
            None
        }
    } else if code == 17 {
        if at + 8 <= b.len() && at + 8 + 8 * n <= b.len() {
            Some(
                (
                    ValueView::DoubleArray(Seq::new(n as nat, |i: int| word_at(b, at + 8 + 8 * i))),
                    at + 8 + 8 * n,
                ),
            )
        } else {
            None
        }
    } else if code == 18 {
        if at + 8 <= b.len() && at + 8 + 8 * n <= b.len() {
            Some(
                (
                    ValueView::IntArray(
                        Seq::new(n as nat, |i: int| word_at(b, at + 8 + 8 * i) as i64),
                    ),
                    at + 8 + 8 * n,
                ),
            )
        } else {
            None
        }
    } else if code == 19 {
        if at + 8 <= b.len() && at + 8 + 4 * n <= b.len() {
            Some(
                (
                    ValueView::FloatArray(Seq::new(n as nat, |i: int| half_at(b, at + 8 + 4 * i))),
                    at + 8 + 4 * n,
                ),
            )
        } else {
            None
        }
    } else {
        if at + 8 <= b.len() {
            match parse_texts(b, at + 8, n as nat) {
                Some((items, end)) => Some((ValueView::StringArray(items), end)),
                None => None,
            }
        } else {
            None
        }
    }
}

/// The value of type `t` that `b` is the layout of, from its first byte to
/// its last; `None` where there is none.
pub open spec fn decoding(t: Type, b: Seq<u8>) -> Option<ValueView> {
    match parse_value(t, b, 0) {
        Some((v, end)) => if end == b.len() {
            Some(v)
        } else {
            None
        },
        None => None,
    }
}

/// `String::from_utf8` of std: the string that the bytes are the UTF-8
/// encoding of, or nothing where they are the encoding of none.
#[verifier::external_body]
fn string_from_utf8(bytes: Vec<u8>) -> (r: Option<String>)
    ensures
        r.is_some() == valid_utf8(bytes@),
        r matches Some(s) ==> s@ == decode_utf8(bytes@),
{
    String::from_utf8(bytes).ok()
}

/// Reads the 64-bit number laid out from place `at`.
fn read_u64(bytes: &[u8], at: usize) -> (r: Option<u64>)
    requires
        at <= bytes@.len(),
    ensures
        r.is_some() == (at + 8 <= bytes@.len()),
        r matches Some(x) ==> x == word_at(bytes@, at as int),
{
    if bytes.len() - at < 8 {
        return None;
    }
    Some(u64_from_le_bytes(slice_subrange(bytes, at, at + 8)))
}

/// Reads the 32-bit number laid out from place `at`.
fn read_u32(bytes: &[u8], at: usize) -> (r: Option<u32>)
    requires
        at <= bytes@.len(),
    ensures
        r.is_some() == (at + 4 <= bytes@.len()),
        r matches Some(x) ==> x == half_at(bytes@, at as int),
{
    if bytes.len() - at < 4 {
        return None;
    }
    Some(u32_from_le_bytes(slice_subrange(bytes, at, at + 4)))
}

/// Reads the length laid out from place `at` and finds the bytes behind
/// it: the place where they end.
fn read_frame(bytes: &[u8], at: usize) -> (r: Option<usize>)
    requires
        at <= bytes@.len(),
    ensures
        r.is_some() == framed_at(bytes@, at as int),
        r matches Some(end) ==> end == at + 8 + word_at(bytes@, at as int),
{
    match read_u64(bytes, at) {
        Some(n) => {
            let room = bytes.len() - at - 8;
            if n > room as u64 {
                None
            } else {
                Some(at + 8 + n as usize)
            }
        },
        None => None,
    }
}

/// Reads the text laid out from place `at`.
fn read_text(bytes: &[u8], at: usize) -> (r: Option<(String, usize)>)
    requires
        at <= bytes@.len(),
    ensures
        r.is_some() == parse_text(bytes@, at as int).is_some(),
        r matches Some((s, end)) ==> parse_text(bytes@, at as int) == Some((s@, end as int)),
{
    match read_frame(bytes, at) {
        Some(end) => {
            let body = slice_to_vec(slice_subrange(bytes, at + 8, end));
            match string_from_utf8(body) {
                Some(s) => Some((s, end)),
                None => None,
            }
        },
        None => None,
    }
}

/// Reads `n` booleans, one byte each, from place `at`.
fn read_flags(bytes: &[u8], at: usize, n: usize) -> (r: Option<Vec<bool>>)
    requires
        at + n <= bytes@.len(),
    ensures
        r.is_some() == (forall|k: int| at <= k < at + n ==> #[trigger] bytes@[k] <= 1),
        r matches Some(a) ==> a@ == Seq::new(n as nat, |i: int| bytes@[at + i] == 1),
{
    let len: usize = bytes.len();
    let mut a: Vec<bool> = Vec::new();
    let mut i: usize = 0;
    while i < n
        invariant
            i <= n,
            len == bytes@.len(),
            at + n <= bytes@.len(),
            forall|k: int| at <= k < at + i ==> #[trigger] bytes@[k] <= 1,
            a@ == Seq::new(i as nat, |j: int| bytes@[at + j] == 1),
        decreases n - i,
    {
        let byte = bytes[at + i];
        if byte > 1 {
            return None;
        }
        a.push(byte == 1);
        i += 1;
        proof {
            assert(a@ =~= Seq::new(i as nat, |j: int| bytes@[at + j] == 1));
        }
    }
    Some(a)
}

/// Reads `n` 64-bit numbers from place `at`.
fn read_words(bytes: &[u8], at: usize, n: usize) -> (a: Vec<u64>)
    requires
        at + 8 * n <= bytes@.len(),
    ensures
        a@ == Seq::new(n as nat, |i: int| word_at(bytes@, at + 8 * i)),
{
    let len: usize = bytes.len();
    let mut a: Vec<u64> = Vec::new();
    let mut i: usize = 0;
    while i < n
        invariant
            i <= n,
            len == bytes@.len(),
            at + 8 * n <= bytes@.len(),
            a@ == Seq::new(i as nat, |j: int| word_at(bytes@, at + 8 * j)),
        decreases n - i,
    {
        let x = u64_from_le_bytes(slice_subrange(bytes, at + 8 * i, at + 8 * i + 8));
        a.push(x);
        i += 1;
        proof {
            assert(a@ =~= Seq::new(i as nat, |j: int| word_at(bytes@, at + 8 * j)));
        }
    }
    a
}

/// Reads `n` integers of 64 bits from place `at`.
fn read_ints(bytes: &[u8], at: usize, n: usize) -> (a: Vec<i64>)
    requires
        at + 8 * n <= bytes@.len(),
    ensures
        a@ == Seq::new(n as nat, |i: int| word_at(bytes@, at + 8 * i) as i64),
{
    let len: usize = bytes.len();
    let mut a: Vec<i64> = Vec::new();
    let mut i: usize = 0;
    while i < n
        invariant
            i <= n,
            len == bytes@.len(),
            at + 8 * n <= bytes@.len(),
            a@ == Seq::new(i as nat, |j: int| word_at(bytes@, at + 8 * j) as i64),
        decreases n - i,
    {
        let x = u64_from_le_bytes(slice_subrange(bytes, at + 8 * i, at + 8 * i + 8));
        a.push(#[verifier::truncate] (x as i64));
        i += 1;
        proof {
            assert(a@ =~= Seq::new(i as nat, |j: int| word_at(bytes@, at + 8 * j) as i64));
        }
    }
    a
}

/// Reads `n` 32-bit numbers from place `at`.
fn read_halves(bytes: &[u8], at: usize, n: usize) -> (a: Vec<u32>)
    requires
        at + 4 * n <= bytes@.len(),
    ensures
        a@ == Seq::new(n as nat, |i: int| half_at(bytes@, at + 4 * i)),
{
    let len: usize = bytes.len();
    let mut a: Vec<u32> = Vec::new();
    let mut i: usize = 0;
    while i < n
        invariant
            i <= n,
            len == bytes@.len(),
            at + 4 * n <= bytes@.len(),
            a@ == Seq::new(i as nat, |j: int| half_at(bytes@, at + 4 * j)),
        decreases n - i,
    {
        let x = u32_from_le_bytes(slice_subrange(bytes, at + 4 * i, at + 4 * i + 4));
        a.push(x);
        i += 1;
        proof {
            assert(a@ =~= Seq::new(i as nat, |j: int| half_at(bytes@, at + 4 * j)));
        }
    }
    a
}

/// What reading `n` texts from place `at` gives, behind the texts `done`
/// already read.
spec fn texts_after(done: Seq<Seq<char>>, b: Seq<u8>, at: int, n: nat) -> Option<
    (Seq<Seq<char>>, int),
> {
    match parse_texts(b, at, n) {
        Some((rest, end)) => Some((done + rest, end)),
        None => None,
    }
}

/// Reading one text and then the others is reading them all.
proof fn lemma_texts_step(done: Seq<Seq<char>>, b: Seq<u8>, at: int, n: nat)
    requires
        n > 0,
    ensures
        texts_after(done, b, at, n) == match parse_text(b, at) {
            Some((first, next)) => texts_after(done.push(first), b, next, (n - 1) as nat),
            None => None,
        },
{
    match parse_text(b, at) {
        Some((first, next)) => {
            match parse_texts(b, next, (n - 1) as nat) {
                Some((rest, end)) => {
                    assert(done + (seq![first] + rest) =~= done.push(first) + rest);
                },
                None => {},
            }
        },
        None => {},
    }
}

/// Reads `n` texts from place `at`.
fn read_texts(bytes: &[u8], at: usize, n: u64) -> (r: Option<(Vec<String>, usize)>)
    requires
        at <= bytes@.len(),
    ensures
        r.is_some() == parse_texts(bytes@, at as int, n as nat).is_some(),
        r matches Some((a, end)) ==> parse_texts(bytes@, at as int, n as nat) == Some(
            (a@.map_values(|s: String| s@), end as int),
        ),
{
    let mut a: Vec<String> = Vec::new();
    let mut pos: usize = at;
    let mut i: u64 = 0;
    proof {
        match parse_texts(bytes@, at as int, n as nat) {
            Some((rest, end)) => {
                assert(Seq::<Seq<char>>::empty() + rest =~= rest);
            },
            None => {},
        }
        assert(a@.map_values(|s: String| s@) =~= Seq::<Seq<char>>::empty());
    }
    while i < n
        invariant
            i <= n,
            pos <= bytes@.len(),
            parse_texts(bytes@, at as int, n as nat) == texts_after(
                a@.map_values(|s: String| s@),
                bytes@,
                pos as int,
                (n - i) as nat,
            ),
        decreases n - i,
    {
        proof {
            lemma_texts_step(a@.map_values(|s: String| s@), bytes@, pos as int, (n - i) as nat);
        }
        let ghost done = a@.map_values(|s: String| s@);
        match read_text(bytes, pos) {
            Some((s, next)) => {
                proof {
                    assert(a@.push(s).map_values(|s: String| s@) =~= done.push(s@));
                }
                a.push(s);
                pos = next;
            },
            None => {
                return None;
            },
        }
        i += 1;
    }
    proof {
        assert(a@.map_values(|s: String| s@) + Seq::<Seq<char>>::empty() =~= a@.map_values(
            |s: String| s@,
        ));
    }
    Some((a, pos))
}

/// Reads the value of type `ty` laid out in `bytes` from place `at`, and
/// says where it ends. Fails where the bytes end too early or are no layout
/// of such a value.
pub fn read_value(ty: Type, bytes: &[u8], at: usize) -> (r: Option<(Value, usize)>)
    requires
        at <= bytes@.len(),
    ensures
        r.is_some() == parse_value(ty, bytes@, at as int).is_some(),
        r matches Some((v, end)) ==> parse_value(ty, bytes@, at as int) == Some((v@, end as int))
            && at <= end <= bytes@.len(),
{
    let code = ty.to_wire_code();
    let len: usize = bytes.len();
    if code == 0 {
        if at < len && bytes[at] <= 1 {
            Some((Value::Boolean(bytes[at] == 1), at + 1))
        } else {
            None
        }
    } else if code == 1 {
        match read_u64(bytes, at) {
            Some(x) => Some((Value::Double(x), at + 8)),
            None => None,
        }
    } else if code == 2 {
        match read_u64(bytes, at) {
            Some(x) => Some((Value::Int(#[verifier::truncate] (x as i64)), at + 8)),
            None => None,
        }
    } else if code == 3 {
        match read_u32(bytes, at) {
            Some(x) => Some((Value::Float(x), at + 4)),
            None => None,
        }
    } else if code == 4 {
        match read_text(bytes, at) {
            Some((s, end)) => Some((Value::String(s), end)),
            None => None,
        }
    } else if code == 5 {
        match read_frame(bytes, at) {
            Some(end) => Some((Value::Raw(slice_to_vec(slice_subrange(bytes, at + 8, end))), end)),
            None => None,
        }
    } else if code == 16 {
        match read_frame(bytes, at) {
            Some(end) => {
                match read_flags(bytes, at + 8, end - at - 8) {
                    Some(a) => Some((Value::BooleanArray(a), end)),
                    None => None,
                }
            },
            None => None,
        }
    } else if code == 17 || code == 18 {
        match read_u64(bytes, at) {
            Some(n) => {
                let room = (bytes.len() - at - 8) / 8;
                if n > room as u64 {
                    None
                } else if code == 17 {
                    Some((Value::DoubleArray(read_words(bytes, at + 8, n as usize)), at + 8 + 8 * (n as usize)))
                } else {
                    Some((Value::IntArray(read_ints(bytes, at + 8, n as usize)), at + 8 + 8 * (n as usize)))
                }
            },
            None => None,
        }
    } else if code == 19 {
        match read_u64(bytes, at) {
            Some(n) => {
                let room = (bytes.len() - at - 8) / 4;
                if n > room as u64 {
                    None
                } else {
                    Some((Value::FloatArray(read_halves(bytes, at + 8, n as usize)), at + 8 + 4 * (n as usize)))
                }
            },
            None => None,
        }
    } else {
        match read_u64(bytes, at) {
            Some(n) => {
                match read_texts(bytes, at + 8, n) {
                    Some((a, end)) => {
                        proof {
                            lemma_texts_end(bytes@, at + 8, n as nat);
                        }
                        Some((Value::StringArray(a), end))
                    },
                    None => None,
                }
            },
            None => None,
        }
    }
}

/// Texts that were read end behind the place where they begin and within
/// the bytes.
proof fn lemma_texts_end(b: Seq<u8>, at: int, n: nat)
    requires
        0 <= at <= b.len(),
    ensures
        parse_texts(b, at, n) matches Some((items, end)) ==> at <= end <= b.len() && items.len()
            == n,
    decreases n,
{
    if n > 0 {
        match parse_text(b, at) {
            Some((first, next)) => {
                lemma_texts_end(b, next, (n - 1) as nat);
            },
            None => {},
        }
    }
}

/// The value of type `ty` that `bytes` is the layout of, from the first byte
/// to the last. Fails as a codec failure where the bytes end too early, go
/// on behind the value or are no layout of such a value.
pub fn decode_value(ty: Type, bytes: &[u8]) -> (r: Result<Value, Error>)
    ensures
        r is Ok <==> decoding(ty, bytes@).is_some(),
        r matches Ok(v) ==> decoding(ty, bytes@) == Some(v@),
        r matches Err(e) ==> e@ == ErrorView::RmpError("malformed value"@),
{
    match read_value(ty, bytes, 0) {
        Some((v, end)) => {
            if end == bytes.len() {
                Ok(v)
            } else {
                Err(Error::RmpError(String::from_str("malformed value")))
            }
        },
        None => Err(Error::RmpError(String::from_str("malformed value"))),
    }
}

/// Appends the eight bytes of `x`.
fn put_u64(out: &mut Vec<u8>, x: u64)
    ensures
        final(out)@ == old(out)@ + spec_u64_to_le_bytes(x),
{
    let b = u64_to_le_bytes(x);
    out.extend_from_slice(b.as_slice());
}

/// Appends the four bytes of `x`.
fn put_u32(out: &mut Vec<u8>, x: u32)
    ensures
        final(out)@ == old(out)@ + spec_u32_to_le_bytes(x),
{
    let b = u32_to_le_bytes(x);
    out.extend_from_slice(b.as_slice());
}

/// Appends `bytes` behind their length.
fn put_framed(out: &mut Vec<u8>, bytes: &[u8])
    ensures
        final(out)@ == old(out)@ + framed(bytes@),
        bytes@.len() <= u64::MAX,
{
    put_u64(out, bytes.len() as u64);
    out.extend_from_slice(bytes);
    proof {
        assert(out@ =~= old(out)@ + framed(bytes@));
    }
}

/// Appends the booleans in `a`, one byte each.
fn put_flags(out: &mut Vec<u8>, a: &Vec<bool>)
    ensures
        final(out)@ == old(out)@ + flags(a@),
{
    let mut i: usize = 0;
    while i < a.len()
        invariant
            i <= a@.len(),
            out@ == old(out)@ + flags(a@.take(i as int)),
        decreases a@.len() - i,
    {
        out.push(if a[i] { 1 } else { 0 });
        i += 1;
        proof {
            assert(out@ =~= old(out)@ + flags(a@.take(i as int)));
        }
    }
    proof {
        assert(a@.take(i as int) =~= a@);
    }
}

/// The layout of a sequence with one more number at its end.
proof fn lemma_words_push(a: Seq<u64>, x: u64)
    ensures
        words(a.push(x)) == words(a) + spec_u64_to_le_bytes(x),
{
    vstd::bytes::lemma_auto_spec_u64_to_from_le_bytes();
    assert(words(a.push(x)) =~= words(a) + spec_u64_to_le_bytes(x));
}

/// The layout of a sequence with one more number at its end.
proof fn lemma_halves_push(a: Seq<u32>, x: u32)
    ensures
        halves(a.push(x)) == halves(a) + spec_u32_to_le_bytes(x),
{
    vstd::bytes::lemma_auto_spec_u32_to_from_le_bytes();
    assert(halves(a.push(x)) =~= halves(a) + spec_u32_to_le_bytes(x));
}

/// Appends the numbers in `a`, eight bytes each.
fn put_words(out: &mut Vec<u8>, a: &Vec<u64>)
    ensures
        final(out)@ == old(out)@ + words(a@),
{
    let mut i: usize = 0;
    proof {
        assert(out@ =~= old(out)@ + words(a@.take(0)));
    }
    while i < a.len()
        invariant
            i <= a@.len(),
            out@ == old(out)@ + words(a@.take(i as int)),
        decreases a@.len() - i,
    {
        put_u64(out, a[i]);
        proof {
            lemma_words_push(a@.take(i as int), a@[i as int]);
            assert(a@.take(i + 1) =~= a@.take(i as int).push(a@[i as int]));
            assert(out@ =~= old(out)@ + words(a@.take(i + 1)));
        }
        i += 1;
    }
    proof {
        assert(a@.take(i as int) =~= a@);
    }
}

/// Appends the integers in `a`, eight bytes each.
fn put_ints(out: &mut Vec<u8>, a: &Vec<i64>)
    ensures
        final(out)@ == old(out)@ + words(patterns(a@)),
{
    let mut i: usize = 0;
    proof {
        assert(out@ =~= old(out)@ + words(patterns(a@.take(0))));
    }
    while i < a.len()
        invariant
            i <= a@.len(),
            out@ == old(out)@ + words(patterns(a@.take(i as int))),
        decreases a@.len() - i,
    {
        put_u64(out, a[i] as u64);
        proof {
            lemma_words_push(patterns(a@.take(i as int)), a@[i as int] as u64);
            assert(patterns(a@.take(i + 1)) =~= patterns(a@.take(i as int)).push(
                a@[i as int] as u64,
            ));
            assert(out@ =~= old(out)@ + words(patterns(a@.take(i + 1))));
        }
        i += 1;
    }
    proof {
        assert(a@.take(i as int) =~= a@);
    }
}

/// Appends the numbers in `a`, four bytes each.
fn put_halves(out: &mut Vec<u8>, a: &Vec<u32>)
    ensures
        final(out)@ == old(out)@ + halves(a@),
{
    let mut i: usize = 0;
    proof {
        assert(out@ =~= old(out)@ + halves(a@.take(0)));
    }
    while i < a.len()
        invariant
            i <= a@.len(),
            out@ == old(out)@ + halves(a@.take(i as int)),
        decreases a@.len() - i,
    {
        put_u32(out, a[i]);
        proof {
            lemma_halves_push(a@.take(i as int), a@[i as int]);
            assert(a@.take(i + 1) =~= a@.take(i as int).push(a@[i as int]));
            assert(out@ =~= old(out)@ + halves(a@.take(i + 1)));
        }
        i += 1;
    }
    proof {
        assert(a@.take(i as int) =~= a@);
    }
}

/// The layout of a sequence with one more text at its end.
proof fn lemma_texts_push(a: Seq<Seq<char>>, x: Seq<char>)
    ensures
        texts(a.push(x)) == texts(a) + framed(encode_utf8(x)),
    decreases a.len(),
{
    if a.len() == 0 {
        assert(a.push(x).drop_first() =~= a);
        assert(texts(a.push(x)) =~= texts(a) + framed(encode_utf8(x)));
    } else {
        lemma_texts_push(a.drop_first(), x);
        assert(a.push(x).drop_first() =~= a.drop_first().push(x));
        assert(a.push(x).first() == a.first());
        assert(texts(a.push(x)) =~= texts(a) + framed(encode_utf8(x)));
    }
}

/// Appends the texts in `a`, each in UTF-8 behind its length.
fn put_texts(out: &mut Vec<u8>, a: &Vec<String>)
    ensures
        final(out)@ == old(out)@ + texts(a@.map_values(|s: String| s@)),
        forall|k: int| 0 <= k < a@.len() ==> encode_utf8(#[trigger] a@[k]@).len() <= u64::MAX,
{
    let ghost all = a@.map_values(|s: String| s@);
    let mut i: usize = 0;
    proof {
        assert(out@ =~= old(out)@ + texts(all.take(0)));
    }
    while i < a.len()
        invariant
            i <= a@.len(),
            all == a@.map_values(|s: String| s@),
            out@ == old(out)@ + texts(all.take(i as int)),
            forall|k: int| 0 <= k < i ==> encode_utf8(#[trigger] a@[k]@).len() <= u64::MAX,
        decreases a@.len() - i,
    {
        put_framed(out, a[i].as_str().as_bytes());
        proof {
            assert(all.take(i + 1) =~= all.take(i as int).push(a@[i as int]@));
            lemma_texts_push(all.take(i as int), a@[i as int]@);
            assert(out@ =~= old(out)@ + texts(all.take(i + 1)));
        }
        i += 1;
    }
    proof {
        assert(all.take(i as int) =~= all);
    }
}

/// Whether `value` can be a value of type `ty`.
pub fn value_fits(ty: Type, value: &Value) -> (r: bool)
    ensures
        r == fits(ty, value@),
{
    let code = ty.to_wire_code();
    match value {
        Value::Boolean(_) => code == 0,
        Value::Double(_) => code == 1,
        Value::Int(_) => code == 2,
        Value::Float(_) => code == 3,
        Value::String(_) => code == 4,
        Value::Raw(_) => code == 5,
        Value::BooleanArray(_) => code == 16,
        Value::DoubleArray(_) => code == 17,
        Value::IntArray(_) => code == 18,
        Value::FloatArray(_) => code == 19,
        Value::StringArray(_) => code == 20,
    }
}

/// Appends the layout of `value` to `out`.
pub fn write_value(out: &mut Vec<u8>, value: &Value)
    ensures
        final(out)@ == old(out)@ + encoding(value@),
        representable(value@),
{
    match value {
        Value::Boolean(b) => {
            out.push(if *b { 1 } else { 0 });
            proof {
                assert(out@ =~= old(out)@ + encoding(value@));
            }
        },
        Value::Double(x) => put_u64(out, *x),
        Value::Int(x) => put_u64(out, *x as u64),
        Value::Float(x) => put_u32(out, *x),
        Value::String(s) => put_framed(out, s.as_str().as_bytes()),
        Value::Raw(b) => put_framed(out, b.as_slice()),
        Value::BooleanArray(a) => {
            put_u64(out, a.len() as u64);
            put_flags(out, a);
            proof {
                assert(out@ =~= old(out)@ + encoding(value@));
            }
        },
        Value::DoubleArray(a) => {
            put_u64(out, a.len() as u64);
            put_words(out, a);
            proof {
                assert(out@ =~= old(out)@ + encoding(value@));
            }
        },
        Value::IntArray(a) => {
            put_u64(out, a.len() as u64);
            put_ints(out, a);
            proof {
                assert(out@ =~= old(out)@ + encoding(value@));
            }
        },
        Value::FloatArray(a) => {
            put_u64(out, a.len() as u64);
            put_halves(out, a);
            proof {
                assert(out@ =~= old(out)@ + encoding(value@));
            }
        },
        Value::StringArray(a) => {
            put_u64(out, a.len() as u64);
            put_texts(out, a);
            proof {
                assert(out@ =~= old(out)@ + encoding(value@));
            }
        },
    }
}

/// The binary layout of `value` as a value of type `ty`. Fails exactly if
/// the value cannot be of that type.
pub fn encode_value(ty: Type, value: &Value) -> (r: Result<Vec<u8>, Error>)
    ensures
        r is Ok <==> fits(ty, value@),
        r matches Ok(bytes) ==> bytes@ == encoding(value@) && decoding(ty, bytes@) == Some(value@),
        r matches Err(e) ==> e@ == ErrorView::InvalidMessageType("value does not fit the type"@),
{
    if !value_fits(ty, value) {
        return Err(Error::InvalidMessageType("value does not fit the type"));
    }
    let mut out: Vec<u8> = Vec::new();
    write_value(&mut out, value);
    proof {
        assert(out@ =~= encoding(value@));
        lemma_round_trip(ty, value@);
    }
    Ok(out)
}

/// Whether the lengths in `v` can be written down: each count of items and
/// each length in bytes is below 2^64.
pub open spec fn representable(v: ValueView) -> bool {
    match v {
        ValueView::String(s) => encode_utf8(s).len() <= u64::MAX,
        ValueView::Raw(b) => b.len() <= u64::MAX,
        ValueView::BooleanArray(a) => a.len() <= u64::MAX,
        ValueView::DoubleArray(a) => a.len() <= u64::MAX,
        ValueView::IntArray(a) => a.len() <= u64::MAX,
        ValueView::FloatArray(a) => a.len() <= u64::MAX,
        ValueView::StringArray(a) => a.len() <= u64::MAX && forall|i: int|
            0 <= i < a.len() ==> encode_utf8(#[trigger] a[i]).len() <= u64::MAX,
        _ => true,
    }
}

/// Whether the bytes `x` stand in `b` from place `at`.
pub open spec fn laid(b: Seq<u8>, at: int, x: Seq<u8>) -> bool {
    0 <= at && at + x.len() <= b.len() && b.subrange(at, at + x.len()) == x
}

/// Where two runs of bytes stand one behind the other, each stands at its
/// place.
proof fn lemma_laid_split(b: Seq<u8>, at: int, x: Seq<u8>, y: Seq<u8>)
    requires
        laid(b, at, x + y),
    ensures
        laid(b, at, x),
        laid(b, at + x.len(), y),
{
    let whole = b.subrange(at, at + (x + y).len());
    assert(b.subrange(at, at + x.len()) =~= whole.subrange(0, x.len() as int));
    assert(whole.subrange(0, x.len() as int) =~= x);
    assert(b.subrange(at + x.len(), at + x.len() + y.len()) =~= whole.subrange(
        x.len() as int,
        (x + y).len() as int,
    ));
    assert(whole.subrange(x.len() as int, (x + y).len() as int) =~= y);
}

/// A 64-bit number that stands at a place is read there.
proof fn lemma_word_laid(b: Seq<u8>, at: int, x: u64)
    requires
        laid(b, at, spec_u64_to_le_bytes(x)),
    ensures
        at + 8 <= b.len(),
        word_at(b, at) == x,
{
    vstd::bytes::lemma_auto_spec_u64_to_from_le_bytes();
}

/// A 32-bit number that stands at a place is read there.
proof fn lemma_half_laid(b: Seq<u8>, at: int, x: u32)
    requires
        laid(b, at, spec_u32_to_le_bytes(x)),
    ensures
        at + 4 <= b.len(),
        half_at(b, at) == x,
{
    vstd::bytes::lemma_auto_spec_u32_to_from_le_bytes();
}

/// Bytes that stand behind their length at a place are read there.
proof fn lemma_framed_laid(b: Seq<u8>, at: int, body: Seq<u8>)
    requires
        body.len() <= u64::MAX,
        laid(b, at, framed(body)),
    ensures
        framed_at(b, at),
        word_at(b, at) == body.len(),
        body_at(b, at) == body,
        framed(body).len() == 8 + body.len(),
{
    vstd::bytes::lemma_auto_spec_u64_to_from_le_bytes();
    lemma_laid_split(b, at, spec_u64_to_le_bytes(body.len() as u64), body);
    lemma_word_laid(b, at, body.len() as u64);
}

/// Texts that stand at a place are read there, one after the other.
proof fn lemma_texts_laid(b: Seq<u8>, at: int, a: Seq<Seq<char>>)
    requires
        laid(b, at, texts(a)),
        forall|i: int| 0 <= i < a.len() ==> encode_utf8(#[trigger] a[i]).len() <= u64::MAX,
    ensures
        parse_texts(b, at, a.len()) == Some((a, at + texts(a).len())),
    decreases a.len(),
{
    if a.len() == 0 {
        assert(a =~= Seq::<Seq<char>>::empty());
    } else {
        let first = a.first();
        let rest = a.drop_first();
        let body = encode_utf8(first);
        lemma_laid_split(b, at, framed(body), texts(rest));
        lemma_framed_laid(b, at, body);
        vstd::utf8::encode_utf8_valid_utf8(first);
        vstd::utf8::encode_utf8_decode_utf8(first);
        assert forall|i: int| 0 <= i < rest.len() implies encode_utf8(#[trigger] rest[i]).len()
            <= u64::MAX by {
            assert(rest[i] == a[i + 1]);
        }
        lemma_texts_laid(b, at + framed(body).len(), rest);
        assert(seq![first] + rest =~= a);
    }
}

/// An integer is the same after it went through its 64-bit pattern.
proof fn lemma_pattern_round_trip(x: i64)
    ensures
        (x as u64) as i64 == x,
{
    assert((x as u64) as i64 == x) by (bit_vector);
}

/// A value that stands at a place in its layout is read there as the same
/// value, and reading ends where the layout ends.
pub proof fn lemma_parse_laid(t: Type, v: ValueView, b: Seq<u8>, at: int)
    requires
        fits(t, v),
        representable(v),
        laid(b, at, encoding(v)),
    ensures
        parse_value(t, b, at) == Some((v, at + encoding(v).len())),
{
    vstd::bytes::lemma_auto_spec_u64_to_from_le_bytes();
    vstd::bytes::lemma_auto_spec_u32_to_from_le_bytes();
    match v {
        ValueView::Boolean(x) => {
            assert(b.subrange(at, at + 1)[0] == flag(x));
        },
        ValueView::Double(x) => {
            lemma_word_laid(b, at, x);
        },
        ValueView::Int(x) => {
            lemma_word_laid(b, at, x as u64);
            lemma_pattern_round_trip(x);
        },
        ValueView::Float(x) => {
            lemma_half_laid(b, at, x);
        },
        ValueView::String(s) => {
            lemma_framed_laid(b, at, encode_utf8(s));
            vstd::utf8::encode_utf8_valid_utf8(s);
            vstd::utf8::encode_utf8_decode_utf8(s);
        },
        ValueView::Raw(x) => {
            lemma_framed_laid(b, at, x);
        },
        ValueView::BooleanArray(a) => {
            let n = a.len() as u64;
            lemma_laid_split(b, at, spec_u64_to_le_bytes(n), flags(a));
            lemma_word_laid(b, at, n);
            let body = b.subrange(at + 8, at + 8 + a.len());
            assert forall|k: int| at + 8 <= k < at + 8 + n implies #[trigger] b[k] <= 1 by {
                assert(b[k] == body[k - at - 8]);
            }
            assert forall|i: int| 0 <= i < a.len() implies (b[at + 8 + i] == 1) == a[i] by {
                assert(b[at + 8 + i] == body[i]);
            }
            assert(Seq::new(n as nat, |i: int| b[at + 8 + i] == 1) =~= a);
        },
        ValueView::DoubleArray(a) => {
            let n = a.len() as u64;
            lemma_laid_split(b, at, spec_u64_to_le_bytes(n), words(a));
            lemma_word_laid(b, at, n);
            assert forall|i: int| 0 <= i < a.len() implies word_at(b, at + 8 + 8 * i) == a[i] by {
                lemma_word_in_words(b, at + 8, a, i);
            }
            assert(Seq::new(n as nat, |i: int| word_at(b, at + 8 + 8 * i)) =~= a);
        },
        ValueView::IntArray(a) => {
            let n = a.len() as u64;
            lemma_laid_split(b, at, spec_u64_to_le_bytes(n), words(patterns(a)));
            lemma_word_laid(b, at, n);
            assert forall|i: int| 0 <= i < a.len() implies word_at(b, at + 8 + 8 * i) as i64
                == a[i] by {
                lemma_word_in_words(b, at + 8, patterns(a), i);
                lemma_pattern_round_trip(a[i]);
            }
            assert(Seq::new(n as nat, |i: int| word_at(b, at + 8 + 8 * i) as i64) =~= a);
        },
        ValueView::FloatArray(a) => {
            let n = a.len() as u64;
            lemma_laid_split(b, at, spec_u64_to_le_bytes(n), halves(a));
            lemma_word_laid(b, at, n);
            assert forall|i: int| 0 <= i < a.len() implies half_at(b, at + 8 + 4 * i) == a[i] by {
                lemma_half_in_halves(b, at + 8, a, i);
            }
            assert(Seq::new(n as nat, |i: int| half_at(b, at + 8 + 4 * i)) =~= a);
        },
        ValueView::StringArray(a) => {
            let n = a.len() as u64;
            lemma_laid_split(b, at, spec_u64_to_le_bytes(n), texts(a));
            lemma_word_laid(b, at, n);
            lemma_texts_laid(b, at + 8, a);
        },
    }
}

/// The number at place `i` of numbers that stand at `at` is read at its
/// place.
proof fn lemma_word_in_words(b: Seq<u8>, at: int, a: Seq<u64>, i: int)
    requires
        laid(b, at, words(a)),
        0 <= i < a.len(),
    ensures
        word_at(b, at + 8 * i) == a[i],
{
    vstd::bytes::lemma_auto_spec_u64_to_from_le_bytes();
    let all = b.subrange(at, at + words(a).len());
    let one = b.subrange(at + 8 * i, at + 8 * i + 8);
    assert forall|j: int| 0 <= j < 8 implies one[j] == spec_u64_to_le_bytes(a[i])[j] by {
        assert(one[j] == all[8 * i + j]);
        assert((8 * i + j) / 8 == i && (8 * i + j) % 8 == j);
    }
    assert(one =~= spec_u64_to_le_bytes(a[i]));
}

/// The number at place `i` of numbers that stand at `at` is read at its
/// place.
proof fn lemma_half_in_halves(b: Seq<u8>, at: int, a: Seq<u32>, i: int)
    requires
        laid(b, at, halves(a)),
        0 <= i < a.len(),
    ensures
        half_at(b, at + 4 * i) == a[i],
{
    vstd::bytes::lemma_auto_spec_u32_to_from_le_bytes();
    let all = b.subrange(at, at + halves(a).len());
    let one = b.subrange(at + 4 * i, at + 4 * i + 4);
    assert forall|j: int| 0 <= j < 4 implies one[j] == spec_u32_to_le_bytes(a[i])[j] by {
        assert(one[j] == all[4 * i + j]);
        assert((4 * i + j) / 4 == i && (4 * i + j) % 4 == j);
    }
    assert(one =~= spec_u32_to_le_bytes(a[i]));
}

/// Decoding the layout of a value gives the value back, for every value
/// and every type the value can be of: empty texts and empty arrays too.
pub proof fn lemma_round_trip(t: Type, v: ValueView)
    requires
        fits(t, v),
        representable(v),
    ensures
        decoding(t, encoding(v)) == Some(v),
{
    let b = encoding(v);
    assert(b.subrange(0, b.len() as int) =~= b);
    lemma_parse_laid(t, v, b, 0);
}

} // verus!
