//! Addresses of the API server.

use crate::error::SchedulerError;
use crate::text::{self, write_numeral};
use vstd::prelude::*;
use vstd::string::*;

verus! {

/// What `hyper::Uri` reads out of a text: nothing where the text is no URI,
/// else its host and its port, as far as it has them.
pub uninterp spec fn parsed_uri(text: Seq<char>) -> Option<(Option<Seq<char>>, Option<u16>)>;

/// `hyper::Uri`'s `FromStr`, with `Uri::host` and `Uri::port_u16` of the URI it
/// gives: the result is a function of the text alone, and `None` stands for a
/// text that is refused.
#[verifier::external_body]
fn read_uri(text: &str) -> (r: Option<(Option<String>, Option<u16>)>)
    ensures
        r.deep_view() == parsed_uri(text@),
{
    match text.parse::<hyper::Uri>() {
        Ok(uri) => Some((uri.host().map(|host| host.to_owned()), uri.port_u16())),
        Err(_) => None,
    }
}

/// The host that was read, where there is one.
pub open spec fn host_of(parsed: Option<(Option<Seq<char>>, Option<u16>)>) -> Option<Seq<char>> {
    match parsed {
        Some((host, _)) => host,
        None => None,
    }
}

/// The port that was read; 443 where there is none.
pub open spec fn port_of(parsed: Option<(Option<Seq<char>>, Option<u16>)>) -> u16 {
    match parsed {
        Some((_, Some(port))) => port,
        _ => 443,
    }
}

/// `host:port`.
pub open spec fn address(host: Seq<char>, port: u16) -> Seq<char> {
    host + ":"@ + text::numeral(port as nat, 10)
}

/// The host, the port and the address `host:port` of what was read out of a
/// URI.
pub fn uri_parts(parsed: Option<(Option<String>, Option<u16>)>) -> (r: Result<
    (String, u16, String),
    SchedulerError,
>)
    ensures
        r is Ok <==> host_of(parsed.deep_view()) is Some,
        r matches Ok((host, port, addr)) ==> {
            &&& host_of(parsed.deep_view()) == Some(host@)
            &&& port == port_of(parsed.deep_view())
            &&& addr@ == address(host@, port)
        },
        r matches Err(e) ==> e@ == if parsed is None {
            "parse URI"@
        } else {
            "URI missing host"@
        },
{
    match parsed {
        None => Err(SchedulerError::new("parse URI")),
        Some((None, _)) => Err(SchedulerError::new("URI missing host")),
        Some((Some(host), port)) => {
            let port: u16 = match port {
                Some(p) => p,
                None => 443,
            };
            let mut addr = host.clone();
            addr.append(":");
            addr.append(write_numeral(port as u128, 10).as_str());
            Ok((host, port, addr))
        },
    }
}

/// The host, the port and the address `host:port` of the URI that `base` and
/// `path` make up.
pub fn parse_uri_parts(base: &str, path: &str) -> (r: Result<
    (String, u16, String),
    SchedulerError,
>)
    ensures
        r is Ok <==> host_of(parsed_uri(base@ + path@)) is Some,
        r matches Ok((host, port, addr)) ==> {
            &&& host_of(parsed_uri(base@ + path@)) == Some(host@)
            &&& port == port_of(parsed_uri(base@ + path@))
            &&& addr@ == address(host@, port)
        },
        r matches Err(e) ==> e@ == if parsed_uri(base@ + path@) is None {
            "parse URI"@
        } else {
            "URI missing host"@
        },
{
    let mut text = base.to_owned();
    text.append(path);
    uri_parts(read_uri(text.as_str()))
}

/// A port that an address states is used, and 443 where it states none.
pub proof fn law_port_of_an_address(host: Option<Seq<char>>, port: u16)
    ensures
        port_of(Some((host, Some(port)))) == port,
        port_of(Some((host, None))) == 443,
        host_of(Some((host, Some(port)))) == host,
        host_of(None) is None,
{
}

/// Host and port are written with a colon between them, and read back: what
/// stands behind the host's last colon is the port.
pub proof fn law_address_reads_back(host: Seq<char>, port: u16)
    ensures
        ({
            let s = address(host, port);
            &&& s.len() > host.len() + 1
            &&& s.take(host.len() as int) == host
            &&& s[host.len() as int] == ':'
            &&& text::digits_value(s.skip((host.len() + 1) as int)) == port
        }),
{
    reveal_strlit(":");
    let s = address(host, port);
    text::law_numerals_read_back(port as nat);
    assert(s.take(host.len() as int) =~= host);
    assert(s.skip((host.len() + 1) as int) =~= text::numeral(port as nat, 10));
}

} // verus!
