//! Choosing the kind of socket that a server address names.
//!
//! A server address is a URL. Its scheme names the transport: `tcp` a network
//! socket at a host and port, `local` a domain socket at a path of the file
//! system. Opening the socket is left to the caller.

use vstd::prelude::*;

verus! {

/// Whether `url::Url::parse` accepts `text`.
pub uninterp spec fn url_parses(text: Seq<char>) -> bool;

/// What `url::Url::scheme` returns for the URL parsed from `text`.
pub uninterp spec fn url_scheme(text: Seq<char>) -> Seq<char>;

/// What `url::Url::host_str` returns for the URL parsed from `text`.
pub uninterp spec fn url_host(text: Seq<char>) -> Option<Seq<char>>;

/// What `url::Url::port_or_known_default` returns for the URL parsed from
/// `text`.
pub uninterp spec fn url_port(text: Seq<char>) -> Option<u16>;

/// What `url::Url::path` returns for the URL parsed from `text`.
pub uninterp spec fn url_path(text: Seq<char>) -> Seq<char>;

/// The parts of a parsed URL that decide the transport.
#[derive(Clone, Debug, PartialEq, Eq)]
pub struct UrlParts {
    pub scheme: String,
    pub host: Option<String>,
    pub port: Option<u16>,
    pub path: String,
}

/// Where to connect.
#[derive(Clone, Debug, PartialEq, Eq)]
pub enum Transport {
    /// A network socket.
    Tcp { host: String, port: u16 },
    /// A domain socket at a path of the file system.
    Local { path: String },
}

/// Why an address names no transport.
#[derive(Clone, Copy, Debug, PartialEq, Eq, Structural)]
pub enum InvalidAddress {
    /// The text is no URL.
    Unparsable,
    /// The scheme is `tcp`, and the URL has no host.
    NoHost,
    /// The scheme is `tcp`, and the URL has no port.
    NoPort,
    /// The scheme is neither `tcp` nor `local`.
    UnknownScheme,
}

/// A transport as plain values.
pub enum Target {
    Tcp { host: Seq<char>, port: u16 },
    Local { path: Seq<char> },
}

impl View for Transport {
    type V = Target;

    open spec fn view(&self) -> Target {
        match *self {
            Transport::Tcp { host, port } => Target::Tcp { host: host@, port },
            Transport::Local { path } => Target::Local { path: path@ },
        }
    }
}

/// A host name as plain values.
pub open spec fn host_view(host: Option<String>) -> Option<Seq<char>> {
    match host {
        Some(name) => Some(name@),
        None => None,
    }
}

/// A choice of transport as plain values.
pub open spec fn choice_view(choice: Result<Transport, InvalidAddress>) -> Result<
    Target,
    InvalidAddress,
> {
    match choice {
        Ok(transport) => Ok(transport@),
        Err(why) => Err(why),
    }
}

/// The transport that the parts of a URL name.
pub open spec fn transport_of(
    scheme: Seq<char>,
    host: Option<Seq<char>>,
    port: Option<u16>,
    path: Seq<char>,
) -> Result<Target, InvalidAddress> {
    if scheme == "tcp"@ {
        match (host, port) {
            (None, _) => Err(InvalidAddress::NoHost),
            (Some(_), None) => Err(InvalidAddress::NoPort),
            (Some(host), Some(port)) => Ok(Target::Tcp { host, port }),
        }
    } else if scheme == "local"@ {
        Ok(Target::Local { path })
    } else {
        Err(InvalidAddress::UnknownScheme)
    }
}

/// The transport that an address names.
pub open spec fn transport_at(text: Seq<char>) -> Result<Target, InvalidAddress> {
    if url_parses(text) {
        transport_of(url_scheme(text), url_host(text), url_port(text), url_path(text))
    } else {
        Err(InvalidAddress::Unparsable)
    }
}

/// Parses `text` with `url::Url::parse` and copies out the scheme
/// (`Url::scheme`), the host (`Url::host_str`), the port
/// (`Url::port_or_known_default`) and the path (`Url::path`).
///
/// Trusted: each part depends on the text alone, and there are parts exactly
/// when the text parses. Nothing is stated of what a given text parses to.
#[verifier::external_body]
pub(crate) fn split_url(text: &str) -> (parts: Option<UrlParts>)
    ensures
        parts is Some <==> url_parses(text@),
        parts matches Some(p) ==> {
            &&& p.scheme@ == url_scheme(text@)
            &&& host_view(p.host) == url_host(text@)
            &&& p.port == url_port(text@)
            &&& p.path@ == url_path(text@)
        },
{
    match url::Url::parse(text) {
        Ok(parsed) => Some(
            UrlParts {
                scheme: parsed.scheme().to_string(),
                host: parsed.host_str().map(String::from),
                port: parsed.port_or_known_default(),
                path: parsed.path().to_string(),
            },
        ),
        Err(_) => None,
    }
}

impl Transport {
    /// The transport that the parts of a URL name, or why they name none.
    /// `None` stands for a text that is no URL.
    pub fn from_parts(parts: Option<UrlParts>) -> (choice: Result<Transport, InvalidAddress>)
        ensures
            choice_view(choice) == (match parts {
                Some(p) => transport_of(p.scheme@, host_view(p.host), p.port, p.path@),
                None => Err(InvalidAddress::Unparsable),
            }),
    {
        let parts = match parts {
            Some(parts) => parts,
            None => return Err(InvalidAddress::Unparsable),
        };
        let UrlParts { scheme, host, port, path } = parts;
        if scheme == "tcp".to_owned() {
            match host {
                None => Err(InvalidAddress::NoHost),
                Some(host) => match port {
                    None => Err(InvalidAddress::NoPort),
                    Some(port) => Ok(Transport::Tcp { host, port }),
                },
            }
        } else if scheme == "local".to_owned() {
            Ok(Transport::Local { path })
        } else {
            Err(InvalidAddress::UnknownScheme)
        }
    }

    /// The transport that the address `url` names, or why it names none.
    /// Nothing is resolved and nothing is connected to.
    pub fn select(url: &str) -> (choice: Result<Transport, InvalidAddress>)
        ensures
            choice_view(choice) == transport_at(url@),
    {
        Self::from_parts(split_url(url))
    }
}

} // verus!
