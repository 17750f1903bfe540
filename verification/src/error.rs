//! The one error type of the library.

use vstd::prelude::*;
use vstd::string::StringExecFns;

verus! {

/// Every way an operation of the library can fail.
///
/// Failures that arise outside the library (socket, text and binary codec,
/// I/O) are carried as their description.
#[derive(Debug)]
pub enum Error {
    /// The socket or the stream under it failed.
    Tungstenite(String),
    /// A control message could not be written or read as structured text.
    SerdeJson(String),
    /// Reading or writing failed below the socket.
    Io(String),
    /// The outbound queue could not deliver: the writing side has ended.
    Closed,
    /// A value could not be written or read in its binary form.
    RmpError(String),
    /// The handshake did not complete within the deadline.
    ConnectTimeout,
    /// A frame or a value of a kind that is not accepted here.
    InvalidMessageType(&'static str),
    /// A numeric type code outside the valid set.
    InvalidMessageNumber(u64),
    /// A type name outside the valid set.
    InvalidMessageString(String),
    /// A failure of no known kind.
    Idk,
}

/// What an [`Error`] says, with every text as a sequence of characters.
pub enum ErrorView {
    Tungstenite(Seq<char>),
    SerdeJson(Seq<char>),
    Io(Seq<char>),
    Closed,
    RmpError(Seq<char>),
    ConnectTimeout,
    InvalidMessageType(Seq<char>),
    InvalidMessageNumber(u64),
    InvalidMessageString(Seq<char>),
    Idk,
}

impl View for Error {
    type V = ErrorView;

    open spec fn view(&self) -> ErrorView {
        match self {
            Error::Tungstenite(s) => ErrorView::Tungstenite(s@),
            Error::SerdeJson(s) => ErrorView::SerdeJson(s@),
            Error::Io(s) => ErrorView::Io(s@),
            Error::Closed => ErrorView::Closed,
            Error::RmpError(s) => ErrorView::RmpError(s@),
            Error::ConnectTimeout => ErrorView::ConnectTimeout,
            Error::InvalidMessageType(s) => ErrorView::InvalidMessageType(s@),
            Error::InvalidMessageNumber(n) => ErrorView::InvalidMessageNumber(*n),
            Error::InvalidMessageString(s) => ErrorView::InvalidMessageString(s@),
            Error::Idk => ErrorView::Idk,
        }
    }
}

/// What `{:?}` of std writes for a string: the string between double
/// quotes, with the characters that cannot stand there escaped.
pub uninterp spec fn quoted(s: Seq<char>) -> Seq<char>;

/// `{:?}` of std on a string slice: writes the string as std's `Debug`
/// does, which depends on the characters of the string alone.
#[verifier::external_body]
fn quote(s: &str) -> (r: String)
    ensures
        r@ == quoted(s@),
{
    format!("{:?}", s)
}

/// The character of the decimal digit `d`.
pub open spec fn digit(d: nat) -> char {
    if d == 0 {
        '0'
    } else if d == 1 {
        '1'
    } else if d == 2 {
        '2'
    } else if d == 3 {
        '3'
    } else if d == 4 {
        '4'
    } else if d == 5 {
        '5'
    } else if d == 6 {
        '6'
    } else if d == 7 {
        '7'
    } else if d == 8 {
        '8'
    } else {
        '9'
    }
}

/// The number `n` in decimal digits, without leading zeros.
pub open spec fn decimal(n: nat) -> Seq<char>
    decreases n,
{
    if n < 10 {
        seq![digit(n)]
    } else {
        decimal(n / 10).push(digit(n % 10))
    }
}

/// The decimal digit `d` as a string.
fn digit_str(d: u64) -> (r: &'static str)
    requires
        d < 10,
    ensures
        r@ == seq![digit(d as nat)],
{
    proof {
        reveal_strlit("0");
        reveal_strlit("1");
        reveal_strlit("2");
        reveal_strlit("3");
        reveal_strlit("4");
        reveal_strlit("5");
        reveal_strlit("6");
        reveal_strlit("7");
        reveal_strlit("8");
        reveal_strlit("9");
    }
    let r = if d == 0 {
        "0"
    } else if d == 1 {
        "1"
    } else if d == 2 {
        "2"
    } else if d == 3 {
        "3"
    } else if d == 4 {
        "4"
    } else if d == 5 {
        "5"
    } else if d == 6 {
        "6"
    } else if d == 7 {
        "7"
    } else if d == 8 {
        "8"
    } else {
        "9"
    };
    proof {
        assert(r@ =~= seq![digit(d as nat)]);
    }
    r
}

/// The number `n` in decimal digits.
pub fn decimal_string(n: u64) -> (r: String)
    ensures
        r@ == decimal(n as nat),
    decreases n,
{
    if n < 10 {
        String::from_str(digit_str(n))
    } else {
        let mut r = decimal_string(n / 10);
        r.append(digit_str(n % 10));
        proof {
            assert(r@ =~= decimal(n as nat));
        }
        r
    }
}

/// What the error `e` says in words.
pub open spec fn message(e: ErrorView) -> Seq<char> {
    match e {
        ErrorView::Tungstenite(s) => "Websocket error: "@ + s,
        ErrorView::SerdeJson(s) => "Json error: "@ + s,
        ErrorView::Io(s) => "IO error: "@ + s,
        ErrorView::Closed => "Server Unexpectedly Closed"@,
        ErrorView::RmpError(s) => "MsgPack Error: "@ + s,
        ErrorView::ConnectTimeout => "Timed out connecting to server"@,
        ErrorView::InvalidMessageType(_) => "Server responeded with an invalid type of message"@,
        ErrorView::InvalidMessageNumber(n) => "Invalid message type number: "@ + decimal(n as nat),
        ErrorView::InvalidMessageString(s) => "Invalid message type string: "@ + quoted(s),
        ErrorView::Idk => "Unknown Error occured."@,
    }
}

impl Error {
    /// What this error says in words.
    pub fn to_string(&self) -> (r: String)
        ensures
            r@ == message(self@),
    {
        match self {
            Error::Tungstenite(s) => String::from_str("Websocket error: ").concat(s.as_str()),
            Error::SerdeJson(s) => String::from_str("Json error: ").concat(s.as_str()),
            Error::Io(s) => String::from_str("IO error: ").concat(s.as_str()),
            Error::Closed => String::from_str("Server Unexpectedly Closed"),
            Error::RmpError(s) => String::from_str("MsgPack Error: ").concat(s.as_str()),
            Error::ConnectTimeout => String::from_str("Timed out connecting to server"),
            Error::InvalidMessageType(_) => String::from_str(
                "Server responeded with an invalid type of message",
            ),
            Error::InvalidMessageNumber(n) => {
                let digits = decimal_string(*n);
                String::from_str("Invalid message type number: ").concat(digits.as_str())
            },
            Error::InvalidMessageString(s) => {
                let text = quote(s.as_str());
                String::from_str("Invalid message type string: ").concat(text.as_str())
            },
            Error::Idk => String::from_str("Unknown Error occured."),
        }
    }
}

} // verus!
