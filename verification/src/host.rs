//! Addresses the server listens on, the address shown to the user, and the
//! search for a free port.
use vstd::prelude::*;
use crate::text::{decimal, decimal_string};

verus! {

/// `host:port`, with an IPv6 address put in brackets.
pub open spec fn host_and_port(hostname: Seq<char>, port: u16, is_ipv6: bool) -> Seq<char> {
    if is_ipv6 {
        "["@ + hostname + "]:"@ + decimal(port as nat)
    } else {
        hostname + ":"@ + decimal(port as nat)
    }
}

/// `host:port` for the given host; `is_ipv6` says whether the host reads as
/// an IPv6 address, which is then put in brackets.
pub fn format_host(hostname: &str, port: u16, is_ipv6: bool) -> (r: String)
    ensures
        r@ == host_and_port(hostname@, port, is_ipv6),
{
    let p = decimal_string(port as u64);
    if is_ipv6 {
        let mut r = String::from_str("[");
        r.append(hostname);
        r.append("]:");
        r.append(p.as_str());
        r
    } else {
        let mut r = String::from_str(hostname);
        r.append(":");
        r.append(p.as_str());
        r
    }
}

/// All entries of the sequence are zero.
pub open spec fn all_zero_u8(s: Seq<u8>) -> bool {
    forall|i: int| 0 <= i < s.len() ==> s[i] == 0
}

/// All entries of the sequence are zero.
pub open spec fn all_zero_u16(s: Seq<u16>) -> bool {
    forall|i: int| 0 <= i < s.len() ==> s[i] == 0
}

/// The host a browser should open: a wildcard address (`0.0.0.0` or `::`)
/// becomes the matching loopback address; any other host stays. `ipv4` and
/// `ipv6` are the host read as an address of either kind, where it reads so.
pub open spec fn browse_host_for(hostname: Seq<char>, ipv4: Option<Seq<u8>>, ipv6: Option<Seq<u16>>) -> Seq<char> {
    if ipv4 matches Some(o) && all_zero_u8(o) {
        "127.0.0.1"@
    } else if ipv6 matches Some(g) && all_zero_u16(g) {
        "::1"@
    } else {
        hostname
    }
}

fn zeros_u8(v: &Vec<u8>) -> (r: bool)
    ensures
        r == all_zero_u8(v@),
{
    let mut i: usize = 0;
    while i < v.len()
        invariant
            i <= v.len(),
            forall|j: int| 0 <= j < i ==> v@[j] == 0,
        decreases v.len() - i,
    {
        if v[i] != 0 {
            return false;
        }
        i += 1;
    }
    true
}

fn zeros_u16(v: &Vec<u16>) -> (r: bool)
    ensures
        r == all_zero_u16(v@),
{
    let mut i: usize = 0;
    while i < v.len()
        invariant
            i <= v.len(),
            forall|j: int| 0 <= j < i ==> v@[j] == 0,
        decreases v.len() - i,
    {
        if v[i] != 0 {
            return false;
        }
        i += 1;
    }
    true
}

/// The host a browser should open for a server listening on `hostname`.
pub fn browsable_host(hostname: &str, ipv4: Option<Vec<u8>>, ipv6: Option<Vec<u16>>) -> (r: String)
    ensures
        r@ == browse_host_for(
            hostname@,
            match ipv4 {
                Some(o) => Some(o@),
                None => None,
            },
            match ipv6 {
                Some(g) => Some(g@),
                None => None,
            },
        ),
{
    match ipv4 {
        Some(o) => {
            if zeros_u8(&o) {
                return String::from_str("127.0.0.1");
            }
        },
        None => {},
    }
    match ipv6 {
        Some(g) => {
            if zeros_u16(&g) {
                return String::from_str("::1");
            }
        },
        None => {},
    }
    hostname.to_string()
}

/// The host a browser opens is a fixed point: mapping it again, read as an
/// address, gives it back. `ipv4` and `ipv6` are `hostname` read as addresses;
/// `ipv4_again` and `ipv6_again` are the mapped host read so (the loopback
/// addresses read as `127.0.0.1` and `::1`). A host that reads as neither
/// address stays as it is.
pub proof fn lemma_browsable_host_fixed(
    hostname: Seq<char>,
    ipv4: Option<Seq<u8>>,
    ipv6: Option<Seq<u16>>,
    ipv4_again: Option<Seq<u8>>,
    ipv6_again: Option<Seq<u16>>,
)
    requires
        browse_host_for(hostname, ipv4, ipv6) == hostname ==> ipv4_again == ipv4 && ipv6_again == ipv6,
        browse_host_for(hostname, ipv4, ipv6) == "127.0.0.1"@ ==> ipv4_again == Some(seq![127u8, 0u8, 0u8, 1u8])
            && ipv6_again is None,
        browse_host_for(hostname, ipv4, ipv6) == "::1"@ ==> ipv4_again is None && ipv6_again == Some(
            seq![0u16, 0u16, 0u16, 0u16, 0u16, 0u16, 0u16, 1u16],
        ),
    ensures
        browse_host_for(browse_host_for(hostname, ipv4, ipv6), ipv4_again, ipv6_again) == browse_host_for(
            hostname,
            ipv4,
            ipv6,
        ),
        browse_host_for(hostname, None, None) == hostname,
{
    let r = browse_host_for(hostname, ipv4, ipv6);
    if r != hostname {
        if r == "127.0.0.1"@ {
            assert(seq![127u8, 0u8, 0u8, 1u8][0] != 0);
        } else {
            assert(seq![0u16, 0u16, 0u16, 0u16, 0u16, 0u16, 0u16, 1u16][7] != 0);
        }
    }
}

/// How many ports are tried, counting the requested one.
pub const MAX_PORT_ATTEMPTS: u16 = 100;

/// Why no port could be found.
#[derive(Debug, Clone, Copy, PartialEq, Eq, Structural)]
pub enum PortError {
    /// The port after 65535 was wanted.
    RangeExhausted,
    /// Every port from `start` to `last` was in use.
    NoneFree { start: u16, last: u16 },
}

/// What follows a port that was found in use, the search having started at
/// `start`: the next port, unless that leaves the port range or the window of
/// `MAX_PORT_ATTEMPTS` ports.
pub open spec fn after_in_use(start: u16, port: u16) -> Result<u16, PortError> {
    if port as int + 1 > u16::MAX {
        Err(PortError::RangeExhausted)
    } else if port as int + 1 - start >= MAX_PORT_ATTEMPTS {
        Err(PortError::NoneFree { start, last: port })
    } else {
        Ok((port + 1) as u16)
    }
}

/// The port to try after `port` was found in use.
pub fn next_port_after_in_use(start: u16, port: u16) -> (r: Result<u16, PortError>)
    requires
        start <= port,
    ensures
        r == after_in_use(start, port),
{
    match port.checked_add(1) {
        None => Err(PortError::RangeExhausted),
        Some(next) => {
            if next - start >= MAX_PORT_ATTEMPTS {
                Err(PortError::NoneFree { start, last: port })
            } else {
                Ok(next)
            }
        },
    }
}

/// Every port the search tries lies in the window of `MAX_PORT_ATTEMPTS`
/// ports from the one requested, and each try is one further than the last.
pub proof fn lemma_port_search_window(start: u16, port: u16)
    requires
        start <= port,
    ensures
        after_in_use(start, port) matches Ok(next) ==> next == port + 1 && start < next < start
            + MAX_PORT_ATTEMPTS,
{
}

impl PortError {
    /// The message shown for the error.
    pub fn message(&self) -> (r: String)
        ensures
            r@ == match *self {
                PortError::RangeExhausted => "port range exhausted"@,
                PortError::NoneFree { start, last } => "no available port found after trying "@ + decimal(
                    start as nat,
                ) + "-"@ + decimal(last as nat),
            },
    {
        match self {
            PortError::RangeExhausted => String::from_str("port range exhausted"),
            PortError::NoneFree { start, last } => {
                let mut m = String::from_str("no available port found after trying ");
                m.append(decimal_string(*start as u64).as_str());
                m.append("-");
                m.append(decimal_string(*last as u64).as_str());
                m
            },
        }
    }
}

} // verus!
