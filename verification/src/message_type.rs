//! The closed set of value types that travel over the wire, with their
//! numeric codes and canonical names.

use vstd::prelude::*;
use vstd::string::StringExecFns;
use crate::text::str_eq;
use crate::error::{Error, ErrorView};

verus! {

/// The kind of value a topic carries.
///
/// The numeric code governs the binary layout; the name is the declared
/// type and only travels in control messages. Several names share one code.
#[derive(Debug, Clone, Copy, PartialEq, Eq, Structural, Hash)]
pub enum Type {
    Boolean,
    Double,
    Int,
    Float,
    String,
    Json,
    Raw,
    Rpc,
    MsgPack,
    ProtoBuf,
    BooleanArray,
    DoubleArray,
    IntArray,
    FloatArray,
    StringArray,
}

/// The numeric code of a type.
pub open spec fn wire_code(t: Type) -> u8 {
    match t {
        Type::Boolean => 0u8,
        Type::Double => 1u8,
        Type::Int => 2u8,
        Type::Float => 3u8,
        Type::String | Type::Json => 4u8,
        Type::Raw | Type::Rpc | Type::MsgPack | Type::ProtoBuf => 5u8,
        Type::BooleanArray => 16u8,
        Type::DoubleArray => 17u8,
        Type::IntArray => 18u8,
        Type::FloatArray => 19u8,
        Type::StringArray => 20u8,
    }
}

/// The canonical name of a type.
pub open spec fn text_of(t: Type) -> Seq<char> {
    match t {
        Type::Boolean => "boolean"@,
        Type::Double => "double"@,
        Type::Int => "int"@,
        Type::Float => "float"@,
        Type::String => "string"@,
        Type::Json => "json"@,
        Type::Raw => "raw"@,
        Type::Rpc => "rpc"@,
        Type::MsgPack => "msgpack"@,
        Type::ProtoBuf => "protobuf"@,
        Type::BooleanArray => "boolean[]"@,
        Type::DoubleArray => "double[]"@,
        Type::IntArray => "int[]"@,
        Type::FloatArray => "float[]"@,
        Type::StringArray => "string[]"@,
    }
}

/// The type that a numeric code stands for, if it stands for one. Codes 4
/// and 5 stand for `String` and `Raw` alone.
pub open spec fn type_of_code(code: u64) -> Option<Type> {
    if code == 0 {
        Some(Type::Boolean)
    } else if code == 1 {
        Some(Type::Double)
    } else if code == 2 {
        Some(Type::Int)
    } else if code == 3 {
        Some(Type::Float)
    } else if code == 4 {
        Some(Type::String)
    } else if code == 5 {
        Some(Type::Raw)
    } else if code == 16 {
        Some(Type::BooleanArray)
    } else if code == 17 {
        Some(Type::DoubleArray)
    } else if code == 18 {
        Some(Type::IntArray)
    } else if code == 19 {
        Some(Type::FloatArray)
    } else if code == 20 {
        Some(Type::StringArray)
    } else {
        None
    }
}

/// The type whose canonical name is `s`, if there is one. The match is
/// exact and case-sensitive.
pub open spec fn type_of_name(s: Seq<char>) -> Option<Type> {
    if s == "boolean"@ {
        Some(Type::Boolean)
    } else if s == "double"@ {
        Some(Type::Double)
    } else if s == "int"@ {
        Some(Type::Int)
    } else if s == "float"@ {
        Some(Type::Float)
    } else if s == "string"@ {
        Some(Type::String)
    } else if s == "json"@ {
        Some(Type::Json)
    } else if s == "raw"@ {
        Some(Type::Raw)
    } else if s == "rpc"@ {
        Some(Type::Rpc)
    } else if s == "msgpack"@ {
        Some(Type::MsgPack)
    } else if s == "protobuf"@ {
        Some(Type::ProtoBuf)
    } else if s == "boolean[]"@ {
        Some(Type::BooleanArray)
    } else if s == "double[]"@ {
        Some(Type::DoubleArray)
    } else if s == "int[]"@ {
        Some(Type::IntArray)
    } else if s == "float[]"@ {
        Some(Type::FloatArray)
    } else if s == "string[]"@ {
        Some(Type::StringArray)
    } else {
        None
    }
}

/// What tells the canonical names apart: their lengths and their first two
/// characters.
proof fn lemma_names()
    ensures
        "boolean"@.len() == 7 && "boolean"@[0] == 'b' && "boolean"@[1] == 'o',
        "double"@.len() == 6 && "double"@[0] == 'd' && "double"@[1] == 'o',
        "int"@.len() == 3 && "int"@[0] == 'i' && "int"@[1] == 'n',
        "float"@.len() == 5 && "float"@[0] == 'f' && "float"@[1] == 'l',
        "string"@.len() == 6 && "string"@[0] == 's' && "string"@[1] == 't',
        "json"@.len() == 4 && "json"@[0] == 'j' && "json"@[1] == 's',
        "raw"@.len() == 3 && "raw"@[0] == 'r' && "raw"@[1] == 'a',
        "rpc"@.len() == 3 && "rpc"@[0] == 'r' && "rpc"@[1] == 'p',
        "msgpack"@.len() == 7 && "msgpack"@[0] == 'm' && "msgpack"@[1] == 's',
        "protobuf"@.len() == 8 && "protobuf"@[0] == 'p' && "protobuf"@[1] == 'r',
        "boolean[]"@.len() == 9 && "boolean[]"@[0] == 'b' && "boolean[]"@[1] == 'o',
        "double[]"@.len() == 8 && "double[]"@[0] == 'd' && "double[]"@[1] == 'o',
        "int[]"@.len() == 5 && "int[]"@[0] == 'i' && "int[]"@[1] == 'n',
        "float[]"@.len() == 7 && "float[]"@[0] == 'f' && "float[]"@[1] == 'l',
        "string[]"@.len() == 8 && "string[]"@[0] == 's' && "string[]"@[1] == 't',
{
    reveal_strlit("boolean");
    reveal_strlit("double");
    reveal_strlit("int");
    reveal_strlit("float");
    reveal_strlit("string");
    reveal_strlit("json");
    reveal_strlit("raw");
    reveal_strlit("rpc");
    reveal_strlit("msgpack");
    reveal_strlit("protobuf");
    reveal_strlit("boolean[]");
    reveal_strlit("double[]");
    reveal_strlit("int[]");
    reveal_strlit("float[]");
    reveal_strlit("string[]");
}

impl Type {
    /// The numeric code that governs the binary layout of values of this
    /// type.
    pub fn to_wire_code(self) -> (code: u8)
        ensures
            code == wire_code(self),
    {
        match self {
            Type::Boolean => 0,
            Type::Double => 1,
            Type::Int => 2,
            Type::Float => 3,
            Type::String => 4,
            Type::Json => 4,
            Type::Raw => 5,
            Type::Rpc => 5,
            Type::MsgPack => 5,
            Type::ProtoBuf => 5,
            Type::BooleanArray => 16,
            Type::DoubleArray => 17,
            Type::IntArray => 18,
            Type::FloatArray => 19,
            Type::StringArray => 20,
        }
    }

    /// The canonical name of this type as a string slice.
    pub fn as_str(self) -> (name: &'static str)
        ensures
            name@ == text_of(self),
    {
        match self {
            Type::Boolean => "boolean",
            Type::Double => "double",
            Type::Int => "int",
            Type::Float => "float",
            Type::String => "string",
            Type::Json => "json",
            Type::Raw => "raw",
            Type::Rpc => "rpc",
            Type::MsgPack => "msgpack",
            Type::ProtoBuf => "protobuf",
            Type::BooleanArray => "boolean[]",
            Type::DoubleArray => "double[]",
            Type::IntArray => "int[]",
            Type::FloatArray => "float[]",
            Type::StringArray => "string[]",
        }
    }

    /// The canonical name of this type.
    pub fn to_text(self) -> (name: String)
        ensures
            name@ == text_of(self),
    {
        String::from_str(self.as_str())
    }

    /// The canonical name of this type, as `to_text` gives it.
    pub fn to_string(&self) -> (name: String)
        ensures
            name@ == text_of(*self),
    {
        self.to_text()
    }

    /// The type that `code` stands for. Fails with the code for every code
    /// that stands for none.
    pub fn from_wire_code(code: u8) -> (r: Result<Type, Error>)
        ensures
            match r {
                Ok(t) => type_of_code(code as u64) == Some(t),
                Err(e) => type_of_code(code as u64).is_none()
                    && e@ == ErrorView::InvalidMessageNumber(code as u64),
            },
    {
        Type::from_number(code as u64)
    }

    /// The type that `value` stands for. Fails with the number for every
    /// number that stands for none.
    pub fn from_number(value: u64) -> (r: Result<Type, Error>)
        ensures
            match r {
                Ok(t) => type_of_code(value) == Some(t),
                Err(e) => type_of_code(value).is_none()
                    && e@ == ErrorView::InvalidMessageNumber(value),
            },
    {
        match value {
            0 => Ok(Type::Boolean),
            1 => Ok(Type::Double),
            2 => Ok(Type::Int),
            3 => Ok(Type::Float),
            4 => Ok(Type::String),
            5 => Ok(Type::Raw),
            16 => Ok(Type::BooleanArray),
            17 => Ok(Type::DoubleArray),
            18 => Ok(Type::IntArray),
            19 => Ok(Type::FloatArray),
            20 => Ok(Type::StringArray),
            x => Err(Error::InvalidMessageNumber(x)),
        }
    }

    /// The type whose canonical name is `value`. Fails with the string for
    /// every string that is no canonical name.
    pub fn from_text(value: &str) -> (r: Result<Type, Error>)
        ensures
            match r {
                Ok(t) => type_of_name(value@) == Some(t),
                Err(e) => type_of_name(value@).is_none()
                    && e@ == ErrorView::InvalidMessageString(value@),
            },
    {
        if str_eq(value, "boolean") {
            Ok(Type::Boolean)
        } else if str_eq(value, "double") {
            Ok(Type::Double)
        } else if str_eq(value, "int") {
            Ok(Type::Int)
        } else if str_eq(value, "float") {
            Ok(Type::Float)
        } else if str_eq(value, "string") {
            Ok(Type::String)
        } else if str_eq(value, "json") {
            Ok(Type::Json)
        } else if str_eq(value, "raw") {
            Ok(Type::Raw)
        } else if str_eq(value, "rpc") {
            Ok(Type::Rpc)
        } else if str_eq(value, "msgpack") {
            Ok(Type::MsgPack)
        } else if str_eq(value, "protobuf") {
            Ok(Type::ProtoBuf)
        } else if str_eq(value, "boolean[]") {
            Ok(Type::BooleanArray)
        } else if str_eq(value, "double[]") {
            Ok(Type::DoubleArray)
        } else if str_eq(value, "int[]") {
            Ok(Type::IntArray)
        } else if str_eq(value, "float[]") {
            Ok(Type::FloatArray)
        } else if str_eq(value, "string[]") {
            Ok(Type::StringArray)
        } else {
            Err(Error::InvalidMessageString(String::from_str(value)))
        }
    }
}

impl From<Type> for u8 {
    /// The numeric code of `value`.
    fn from(value: Type) -> (code: u8) {
        value.to_wire_code()
    }
}

impl vstd::std_specs::convert::FromSpecImpl<Type> for u8 {
    open spec fn obeys_from_spec() -> bool {
        true
    }

    open spec fn from_spec(value: Type) -> u8 {
        wire_code(value)
    }
}

impl TryFrom<u64> for Type {
    type Error = Error;

    /// The type that `value` stands for, as `from_number` gives it.
    fn try_from(value: u64) -> (r: Result<Type, Error>) {
        Type::from_number(value)
    }
}

impl vstd::std_specs::convert::TryFromSpecImpl<u64> for Type {
    open spec fn obeys_try_from_spec() -> bool {
        true
    }

    open spec fn try_from_spec(value: u64) -> Result<Type, Error> {
        match type_of_code(value) {
            Some(t) => Ok(t),
            None => Err(Error::InvalidMessageNumber(value)),
        }
    }
}

impl<'a> TryFrom<&'a str> for Type {
    type Error = Error;

    /// The type whose canonical name is `value`, as `from_text` gives it.
    fn try_from(value: &'a str) -> (r: Result<Type, Error>)
        ensures
            match r {
                Ok(t) => type_of_name(value@) == Some(t),
                Err(e) => type_of_name(value@).is_none()
                    && e@ == ErrorView::InvalidMessageString(value@),
            },
    {
        Type::from_text(value)
    }
}

impl<'a> vstd::std_specs::convert::TryFromSpecImpl<&'a str> for Type {
    open spec fn obeys_try_from_spec() -> bool {
        false
    }

    open spec fn try_from_spec(value: &'a str) -> Result<Type, Error> {
        match type_of_name(value@) {
            Some(t) => Ok(t),
            None => arbitrary(),
        }
    }
}

impl TryFrom<String> for Type {
    type Error = Error;

    /// The type whose canonical name is `value`, as `from_text` gives it.
    fn try_from(value: String) -> (r: Result<Type, Error>)
        ensures
            match r {
                Ok(t) => type_of_name(value@) == Some(t),
                Err(e) => type_of_name(value@).is_none()
                    && e@ == ErrorView::InvalidMessageString(value@),
            },
    {
        Type::from_text(value.as_str())
    }
}

impl vstd::std_specs::convert::TryFromSpecImpl<String> for Type {
    open spec fn obeys_try_from_spec() -> bool {
        false
    }

    open spec fn try_from_spec(value: String) -> Result<Type, Error> {
        match type_of_name(value@) {
            Some(t) => Ok(t),
            None => arbitrary(),
        }
    }
}

/// Reading a type's canonical name gives the type back, for every type.
pub proof fn lemma_text_round_trip(t: Type)
    ensures
        type_of_name(text_of(t)) == Some(t),
{
    lemma_names();
}

/// A string is accepted as a type's name only if it is that type's
/// canonical name: every other string is refused.
pub proof fn lemma_name_accepted_is_canonical(s: Seq<char>)
    ensures
        type_of_name(s) matches Some(t) ==> text_of(t) == s,
        type_of_name(s).is_none() <==> forall|t: Type| text_of(t) != s,
{
    lemma_names();
    if type_of_name(s).is_some() {
        let t = type_of_name(s).unwrap();
        assert(text_of(t) == s);
    }
    assert forall|t: Type| type_of_name(s).is_none() implies text_of(t) != s by {
        lemma_text_round_trip(t);
    }
}

/// The canonical names of two different types differ, also where their
/// numeric codes are the same.
pub proof fn lemma_names_distinct(a: Type, b: Type)
    requires
        a != b,
    ensures
        text_of(a) != text_of(b),
{
    lemma_text_round_trip(a);
    lemma_text_round_trip(b);
}

/// The canonical type of a numeric code: reading a type's code gives
/// `String` for every type with code 4, `Raw` for every type with code 5,
/// and the type itself otherwise.
pub open spec fn canonical(t: Type) -> Type {
    match t {
        Type::Json => Type::String,
        Type::Rpc | Type::MsgPack | Type::ProtoBuf => Type::Raw,
        _ => t,
    }
}

/// Reading a type's numeric code gives the one type recorded for that
/// code, which is the type itself unless the type shares its code.
pub proof fn lemma_code_round_trip(t: Type)
    ensures
        type_of_code(wire_code(t) as u64) == Some(canonical(t)),
        wire_code(canonical(t)) == wire_code(t),
        canonical(t) == t <==> !(t == Type::Json || t == Type::Rpc || t == Type::MsgPack || t
            == Type::ProtoBuf),
{
}

/// A number stands for a type exactly if it is one of the eleven codes, and
/// the type it stands for has that code.
pub proof fn lemma_code_accepted(x: u64)
    ensures
        type_of_code(x).is_some() <==> (x <= 5 || 16 <= x <= 20),
        type_of_code(x) matches Some(t) ==> wire_code(t) as u64 == x && canonical(t) == t,
{
}

} // verus!
