//! Errors of the proxy library.

use vstd::prelude::*;

use crate::text::{debug_quoted, debug_text};

verus! {

/// Every failure the proxy reports.
#[derive(Debug)]
pub enum SniProxyError {
    /// The configuration could not be used; the text says why.
    Config(String),
    /// The buffered bytes are not a well-formed TLS ClientHello; the text says why.
    ClientHello(String),
    /// The ClientHello carries no SNI host name.
    NoSni,
    /// No route and no default backend accepts the host name.
    NoRoute { sni: String },
    /// A route names a backend that is not defined.
    UnknownBackend { backend: String },
    /// A backend address is not a socket address; `reason` is the parser's message.
    InvalidBackend { address: String, reason: String },
    /// An I/O operation failed; the text is the operating system's message.
    Io(String),
}

/// The mathematical value of a [`SniProxyError`]: each text by its characters.
pub enum ErrorView {
    Config(Seq<char>),
    ClientHello(Seq<char>),
    NoSni,
    NoRoute { sni: Seq<char> },
    UnknownBackend { backend: Seq<char> },
    InvalidBackend { address: Seq<char>, reason: Seq<char> },
    Io(Seq<char>),
}

impl View for SniProxyError {
    type V = ErrorView;

    open spec fn view(&self) -> ErrorView {
        match self {
            SniProxyError::Config(m) => ErrorView::Config(m@),
            SniProxyError::ClientHello(m) => ErrorView::ClientHello(m@),
            SniProxyError::NoSni => ErrorView::NoSni,
            SniProxyError::NoRoute { sni } => ErrorView::NoRoute { sni: sni@ },
            SniProxyError::UnknownBackend { backend } => ErrorView::UnknownBackend { backend: backend@ },
            SniProxyError::InvalidBackend { address, reason } => ErrorView::InvalidBackend {
                address: address@,
                reason: reason@,
            },
            SniProxyError::Io(m) => ErrorView::Io(m@),
        }
    }
}

/// The text that describes an error to a person.
pub open spec fn display_text(e: ErrorView) -> Seq<char> {
    match e {
        ErrorView::Config(m) => "failed to parse configuration: "@ + m,
        ErrorView::ClientHello(m) => "TLS ClientHello parse error: "@ + m,
        ErrorView::NoSni => "no SNI hostname in ClientHello"@,
        ErrorView::NoRoute { sni } => "no route matched SNI "@ + debug_text(sni),
        ErrorView::UnknownBackend { backend } => "unknown backend "@ + debug_text(backend),
        ErrorView::InvalidBackend { address, reason } => "invalid backend address "@ + debug_text(
            address,
        ) + ": "@ + reason,
        ErrorView::Io(m) => "I/O error: "@ + m,
    }
}

impl SniProxyError {
    /// The text that describes this error to a person.
    pub fn message(&self) -> (text: String)
        ensures
            text@ == display_text(self@),
    {
        match self {
            SniProxyError::Config(m) => "failed to parse configuration: ".to_owned().concat(
                m.as_str(),
            ),
            SniProxyError::ClientHello(m) => "TLS ClientHello parse error: ".to_owned().concat(
                m.as_str(),
            ),
            SniProxyError::NoSni => "no SNI hostname in ClientHello".to_owned(),
            SniProxyError::NoRoute { sni } => "no route matched SNI ".to_owned().concat(
                debug_quoted(sni.as_str()).as_str(),
            ),
            SniProxyError::UnknownBackend { backend } => "unknown backend ".to_owned().concat(
                debug_quoted(backend.as_str()).as_str(),
            ),
            SniProxyError::InvalidBackend { address, reason } => "invalid backend address ".to_owned().concat(
                debug_quoted(address.as_str()).as_str(),
            ).concat(": ").concat(reason.as_str()),
            SniProxyError::Io(m) => "I/O error: ".to_owned().concat(m.as_str()),
        }
    }
}

} // verus!
