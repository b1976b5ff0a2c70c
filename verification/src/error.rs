//! Serial connection errors and their messages.

use vstd::prelude::*;
use vstd::std_specs::convert::FromSpecImpl;
use crate::text::{ascii_chars, decimal_string, spec_decimal};

verus! {

/// Declares `std::io::Error`, carried by [`SerialError::IoError`].
#[verifier::external_type_specification]
#[verifier::external_body]
pub struct ExIoError(std::io::Error);

/// Errors of serial connection management.
#[derive(Debug)]
pub enum SerialError {
    OpenFailed(String),
    PortAlreadyOpen { port: String, connection_id: Option<String>, name: Option<String> },
    PortAlreadyOpening(String),
    ConnectionNotFound(String),
    ConnectionClosed(String),
    InvalidBaudRate(u32),
    ReadTimeout,
    IoError(std::io::Error),
}

pub type Result<T> = std::result::Result<T, SerialError>;

impl From<std::io::Error> for SerialError {
    fn from(e: std::io::Error) -> (r: SerialError) {
        SerialError::IoError(e)
    }
}

impl FromSpecImpl<std::io::Error> for SerialError {
    open spec fn obeys_from_spec() -> bool {
        true
    }

    open spec fn from_spec(e: std::io::Error) -> SerialError {
        SerialError::IoError(e)
    }
}

/// What `format!("{:?}", s)` gives for a string: the string quoted, with
/// its special characters escaped.
pub uninterp spec fn str_debug(s: Seq<char>) -> Seq<char>;

/// Formats a string with its `Debug` implementation.
#[verifier::external_body]
pub(crate) fn debug_text(s: &str) -> (r: String)
    ensures
        r@ == str_debug(s@),
{
    format!("{s:?}")
}

/// Calls the `Display` implementation of `std::io::Error`; its text comes
/// from the operating system and is not stated.
#[verifier::external_body]
fn io_error_text(e: &std::io::Error) -> String {
    e.to_string()
}

pub open spec fn opt_text(o: Option<&str>) -> Option<Seq<char>> {
    match o {
        Some(s) => Some(s@),
        None => None,
    }
}

/// The owner suffix of a "port already open" message.
pub open spec fn spec_port_owner(connection_id: Option<Seq<char>>, name: Option<Seq<char>>) -> Seq<char> {
    match (connection_id, name) {
        (Some(id), Some(n)) => " (owned by "@ + id + ", name="@ + str_debug(n) + ")"@,
        (Some(id), None) => " (owned by "@ + id + ")"@,
        (None, Some(n)) => " (name="@ + str_debug(n) + ")"@,
        (None, None) => Seq::empty(),
    }
}

/// The owner suffix of a "port already open" message: the owning
/// connection and its name, when known.
pub fn format_port_owner(connection_id: Option<&str>, name: Option<&str>) -> (r: String)
    ensures
        r@ == spec_port_owner(opt_text(connection_id), opt_text(name)),
{
    match (connection_id, name) {
        (Some(id), Some(n)) => {
            let mut s = " (owned by ".to_owned();
            s.append(id);
            s.append(", name=");
            let d = debug_text(n);
            s.append(d.as_str());
            s.append(")");
            s
        },
        (Some(id), None) => {
            let mut s = " (owned by ".to_owned();
            s.append(id);
            s.append(")");
            s
        },
        (None, Some(n)) => {
            let mut s = " (name=".to_owned();
            let d = debug_text(n);
            s.append(d.as_str());
            s.append(")");
            s
        },
        (None, None) => String::new(),
    }
}

pub open spec fn opt_string(o: Option<String>) -> Option<Seq<char>> {
    match o {
        Some(s) => Some(s@),
        None => None,
    }
}

impl SerialError {
    /// The human-readable description of the error.
    pub fn message(&self) -> (s: String)
        ensures
            self matches SerialError::OpenFailed(m) ==> s@ == "Failed to open port: "@ + m@,
            self matches SerialError::PortAlreadyOpen { port, connection_id, name } ==> s@ == "Port already open: "@
                + port@ + spec_port_owner(opt_string(*connection_id), opt_string(*name)),
            self matches SerialError::PortAlreadyOpening(m) ==> s@ == "Port already opening: "@ + m@,
            self matches SerialError::ConnectionNotFound(m) ==> s@ == "Connection not found: "@ + m@,
            self matches SerialError::ConnectionClosed(m) ==> s@ == "Connection closed: "@ + m@,
            self matches SerialError::InvalidBaudRate(b) ==> s@ == "Invalid baud rate: "@ + ascii_chars(spec_decimal(b as nat)),
            self matches SerialError::ReadTimeout ==> s@ == "Read timeout"@,
            self is IoError ==> "I/O error: "@.is_prefix_of(s@),
    {
        match self {
            SerialError::OpenFailed(m) => {
                let mut s = "Failed to open port: ".to_owned();
                s.append(m.as_str());
                s
            },
            SerialError::PortAlreadyOpen { port, connection_id, name } => {
                let mut s = "Port already open: ".to_owned();
                s.append(port.as_str());
                let id: Option<&str> = match connection_id {
                    Some(c) => Some(c.as_str()),
                    None => None,
                };
                let nm: Option<&str> = match name {
                    Some(n) => Some(n.as_str()),
                    None => None,
                };
                let owner = format_port_owner(id, nm);
                s.append(owner.as_str());
                s
            },
            SerialError::PortAlreadyOpening(m) => {
                let mut s = "Port already opening: ".to_owned();
                s.append(m.as_str());
                s
            },
            SerialError::ConnectionNotFound(m) => {
                let mut s = "Connection not found: ".to_owned();
                s.append(m.as_str());
                s
            },
            SerialError::ConnectionClosed(m) => {
                let mut s = "Connection closed: ".to_owned();
                s.append(m.as_str());
                s
            },
            SerialError::InvalidBaudRate(b) => {
                let mut s = "Invalid baud rate: ".to_owned();
                let d = decimal_string(*b as u64);
                s.append(d.as_str());
                s
            },
            SerialError::ReadTimeout => "Read timeout".to_owned(),
            SerialError::IoError(e) => {
                let mut s = "I/O error: ".to_owned();
                let t = io_error_text(e);
                s.append(t.as_str());
                s
            },
        }
    }
}

} // verus!
