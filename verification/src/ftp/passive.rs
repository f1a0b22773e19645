//! Passive-mode negotiation: turning the trailing line of a `PASV` or
//! `EPSV` reply into the endpoint of the data connection.
//!
//! Standard mode reads six comma-separated decimal fields between the
//! parentheses: the first four are the IP octets, the port is
//! `field[4] * 256 + field[5]`.  Extended mode reads five `|`-separated
//! fields and takes only the port from `field[3]`; the IP is inherited
//! from the control connection's peer.  A reply without parentheses falls
//! back to a previously negotiated endpoint where one is cached.

use vstd::prelude::*;

use crate::chars::{
    find_char, first_index_of, parse_uint_capped, spec_parse_uint_capped, spec_split, split_on,
    view_strings,
};
use crate::ftp::error::Error;
use crate::ftp::response::Responses;

verus! {

broadcast use vstd::seq::group_seq_axioms;

/// An IP address, as plain values: four octets, or eight 16-bit groups.
#[derive(Clone, Copy, Debug, PartialEq, Eq, Structural)]
pub enum IpAddress {
    V4(u8, u8, u8, u8),
    V6(u16, u16, u16, u16, u16, u16, u16, u16),
}

/// A socket endpoint: an IP address and a port.
#[derive(Clone, Copy, Debug, PartialEq, Eq, Structural)]
pub struct Endpoint {
    pub ip: IpAddress,
    pub port: u16,
}

/// What a standard `PASV` parenthesised content yields: six or more
/// comma-separated fields; octets from the first four, the port from the
/// next two.  A field that does not read as a decimal octet is
/// `InvalidParsedIp`; a port field that does not read as a decimal
/// number, or a port sum beyond 16 bits, is `InvalidParsedPort`.
pub open spec fn spec_parse_standard(content: Seq<char>) -> Result<Endpoint, Error> {
    let parts = spec_split(content, ',');
    if parts.len() < 6 {
        Err(Error::InvalidParsedData)
    } else {
        match (
            spec_parse_uint_capped(parts[0], 255),
            spec_parse_uint_capped(parts[1], 255),
            spec_parse_uint_capped(parts[2], 255),
            spec_parse_uint_capped(parts[3], 255),
        ) {
            (Some(a), Some(b), Some(c), Some(d)) => {
                match (
                    spec_parse_uint_capped(parts[4], 0xFFFF),
                    spec_parse_uint_capped(parts[5], 0xFFFF),
                ) {
                    (Some(p_high), Some(p_low)) => if p_high * 256 + p_low > 0xFFFF {
                        Err(Error::InvalidParsedPort)
                    } else {
                        Ok(
                            Endpoint {
                                ip: IpAddress::V4(a as u8, b as u8, c as u8, d as u8),
                                port: (p_high * 256 + p_low) as u16,
                            },
                        )
                    },
                    _ => Err(Error::InvalidParsedPort),
                }
            },
            _ => Err(Error::InvalidParsedIp),
        }
    }
}

/// What an extended `EPSV` parenthesised content yields: exactly five
/// `|`-separated fields, the port read from the fourth; the IP is the
/// control connection's peer address.
pub open spec fn spec_parse_extended(content: Seq<char>, control_ip: IpAddress) -> Result<
    Endpoint,
    Error,
> {
    let parts = spec_split(content, '|');
    if parts.len() != 5 {
        Err(Error::InvalidParsedData)
    } else {
        match spec_parse_uint_capped(parts[3], 0xFFFF) {
            Some(p) => Ok(Endpoint { ip: control_ip, port: p as u16 }),
            None => Err(Error::InvalidParsedPort),
        }
    }
}

/// What the trailing reply line of a passive-mode negotiation yields.
///
/// The content between the first `(` and the first `)` is parsed per the
/// mode.  A line without `(` falls back to the cached endpoint where one
/// exists.  A line with `(` but no `)`, or whose first `)` comes before
/// the `(`, is `InvalidParsedData`.
pub open spec fn spec_parse_passive_response(
    extended: bool,
    control_ip: IpAddress,
    cached: Option<Endpoint>,
    res: Seq<char>,
) -> Result<Endpoint, Error> {
    let lp = first_index_of(res, '(');
    let rp = first_index_of(res, ')');
    if lp == res.len() {
        match cached {
            Some(e) => Ok(e),
            None => Err(Error::InvalidParsedData),
        }
    } else if rp == res.len() {
        Err(Error::InvalidParsedData)
    } else if rp < lp {
        Err(Error::InvalidParsedData)
    } else {
        let content = res.subrange(lp + 1, rp);
        if extended {
            spec_parse_extended(content, control_ip)
        } else {
            spec_parse_standard(content)
        }
    }
}

/// Parses the response to a `PASV`/`EPSV` command into the endpoint of
/// the data connection.
pub fn parse_passive_mode_response(
    extended: bool,
    control_ip: IpAddress,
    cached: Option<Endpoint>,
    res: &str,
) -> (r: Result<Endpoint, Error>)
    ensures
        r == spec_parse_passive_response(extended, control_ip, cached, res@),
{
    let n = res.unicode_len();
    let lp_opt = find_char(res, '(');
    let rp_opt = find_char(res, ')');
    proof {
        assert(n == res@.len());
        crate::chars::lemma_first_index_of(res@, '(');
        crate::chars::lemma_first_index_of(res@, ')');
    }
    match lp_opt {
        None => {
            match cached {
                Some(e) => Ok(e),
                None => Err(Error::InvalidParsedData),
            }
        },
        Some(lp) => {
            match rp_opt {
                None => Err(Error::InvalidParsedData),
                Some(rp) => {
                    if rp < lp {
                        Err(Error::InvalidParsedData)
                    } else {
                        proof {
                            assert(res@[lp as int] == '(');
                            assert(res@[rp as int] == ')');
                            assert(lp != rp);
                        }
                        let content = res.substring_char(lp + 1, rp);
                        if extended {
                            parse_extended(content, control_ip)
                        } else {
                            parse_standard(content)
                        }
                    }
                },
            }
        },
    }
}

/// Parses the parenthesised content of a standard `PASV` reply.
fn parse_standard(content: &str) -> (r: Result<Endpoint, Error>)
    ensures
        r == spec_parse_standard(content@),
{
    let parts = split_on(content, ',');
    proof {
        assert(view_strings(parts@) == spec_split(content@, ','));
        assert(parts@.len() == spec_split(content@, ',').len());
    }
    if parts.len() < 6 {
        return Err(Error::InvalidParsedData);
    }
    proof {
        assert forall|k: int| 0 <= k < 6 implies parts@[k]@ == spec_split(content@, ',')[k] by {
            assert(view_strings(parts@)[k] == parts@[k]@);
        }
    }
    let a = match parse_uint_capped(parts[0].as_str(), 255) {
        Some(v) => v,
        None => {
            return Err(Error::InvalidParsedIp);
        },
    };
    let b = match parse_uint_capped(parts[1].as_str(), 255) {
        Some(v) => v,
        None => {
            return Err(Error::InvalidParsedIp);
        },
    };
    let c = match parse_uint_capped(parts[2].as_str(), 255) {
        Some(v) => v,
        None => {
            return Err(Error::InvalidParsedIp);
        },
    };
    let d = match parse_uint_capped(parts[3].as_str(), 255) {
        Some(v) => v,
        None => {
            return Err(Error::InvalidParsedIp);
        },
    };
    let p_high = match parse_uint_capped(parts[4].as_str(), 0xFFFF) {
        Some(v) => v,
        None => {
            return Err(Error::InvalidParsedPort);
        },
    };
    let p_low = match parse_uint_capped(parts[5].as_str(), 0xFFFF) {
        Some(v) => v,
        None => {
            return Err(Error::InvalidParsedPort);
        },
    };
    let port32: u32 = p_high * 256 + p_low;
    if port32 > 0xFFFF {
        return Err(Error::InvalidParsedPort);
    }
    Ok(
        Endpoint {
            ip: IpAddress::V4(a as u8, b as u8, c as u8, d as u8),
            port: port32 as u16,
        },
    )
}

/// Parses the parenthesised content of an extended `EPSV` reply.
fn parse_extended(content: &str, control_ip: IpAddress) -> (r: Result<Endpoint, Error>)
    ensures
        r == spec_parse_extended(content@, control_ip),
{
    let parts = split_on(content, '|');
    proof {
        assert(parts@.len() == spec_split(content@, '|').len());
    }
    if parts.len() != 5 {
        return Err(Error::InvalidParsedData);
    }
    proof {
        assert(view_strings(parts@)[3] == parts@[3]@);
    }
    match parse_uint_capped(parts[3].as_str(), 0xFFFF) {
        Some(p) => Ok(Endpoint { ip: control_ip, port: p as u16 }),
        None => Err(Error::InvalidParsedPort),
    }
}

/// For every well-formed standard `PASV` content — at least six
/// comma-separated fields whose first six read as decimal numbers in
/// range — the derived IP is the dotted join of the first four fields and
/// the derived port is `field[4] * 256 + field[5]`.
pub proof fn lemma_pasv_well_formed(
    content: Seq<char>,
    a: u32,
    b: u32,
    c: u32,
    d: u32,
    p_high: u32,
    p_low: u32,
)
    requires
        spec_split(content, ',').len() >= 6,
        spec_parse_uint_capped(spec_split(content, ',')[0], 255) == Some(a),
        spec_parse_uint_capped(spec_split(content, ',')[1], 255) == Some(b),
        spec_parse_uint_capped(spec_split(content, ',')[2], 255) == Some(c),
        spec_parse_uint_capped(spec_split(content, ',')[3], 255) == Some(d),
        spec_parse_uint_capped(spec_split(content, ',')[4], 0xFFFF) == Some(p_high),
        spec_parse_uint_capped(spec_split(content, ',')[5], 0xFFFF) == Some(p_low),
        p_high * 256 + p_low <= 0xFFFF,
    ensures
        spec_parse_standard(content) == Ok::<Endpoint, Error>(
            Endpoint {
                ip: IpAddress::V4(a as u8, b as u8, c as u8, d as u8),
                port: (p_high * 256 + p_low) as u16,
            },
        ),
{
}

/// For every well-formed `EPSV` content — five `|`-separated fields whose
/// fourth reads as a port — the derived IP is the control connection's
/// peer IP and the derived port is the parsed integer.
pub proof fn lemma_epsv_well_formed(content: Seq<char>, control_ip: IpAddress, p: u32)
    requires
        spec_split(content, '|').len() == 5,
        spec_parse_uint_capped(spec_split(content, '|')[3], 0xFFFF) == Some(p),
    ensures
        spec_parse_extended(content, control_ip) == Ok::<Endpoint, Error>(
            Endpoint { ip: control_ip, port: p as u16 },
        ),
{
}

/// What the orchestrating client must do with the reply of a
/// `PASV`/`EPSV` command before the endpoint can be parsed.
pub enum PassiveDecision {
    /// The trailing reply line is usable: parse it.
    UseLine(String),

    /// The trailing reply line was blank: send the command again.
    Resend,

    /// No reply arrived at all: reconnect, then send the command again.
    ReconnectAndResend,
}

/// Decides how to proceed from the reply of a `PASV`/`EPSV` command: use
/// the trailing line where there is a non-blank one, resend on a stray
/// blank line, reconnect and resend where no reply arrived at all.
pub fn passive_reply_decision(responses: &Responses) -> (d: PassiveDecision)
    ensures
        responses@.len() == 0 <==> d is ReconnectAndResend,
        responses@.len() > 0 && responses@.last().1@.len() == 0 <==> d is Resend,
        responses@.len() > 0 && responses@.last().1@.len() > 0 ==> (d matches
            PassiveDecision::UseLine(l) && l@ == responses@.last().1@),
{
    if responses.len() == 0 {
        PassiveDecision::ReconnectAndResend
    } else {
        let last = &responses[responses.len() - 1];
        if last.1.as_str().unicode_len() == 0 {
            PassiveDecision::Resend
        } else {
            PassiveDecision::UseLine(last.1.clone())
        }
    }
}

} // verus!
