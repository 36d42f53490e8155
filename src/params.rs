//! Validation of the textual parameters: ports, interface and group
//! addresses. A port is decimal with an optional `+`, at most 65535; an
//! address is four decimal octets joined by dots, each of one to three
//! digits, at most 255, with no leading zero.

use vstd::prelude::*;
use crate::addr::{Endpoint, Ipv4};
use vstd::utf8::encode_utf8;
use vstd::string::StringSliceAdditionalSpecFns;

verus! {

pub open spec fn is_digit(c: u8) -> bool {
    48 <= c <= 57
}

pub open spec fn all_digits(d: Seq<u8>) -> bool {
    forall|i: int| 0 <= i < d.len() ==> is_digit(#[trigger] d[i])
}

/// Value of a run of decimal digits.
pub open spec fn digits_value(d: Seq<u8>) -> nat
    decreases d.len(),
{
    if d.len() == 0 {
        0
    } else {
        digits_value(d.drop_last()) * 10 + (d.last() - 48) as nat
    }
}

/// The digits of a port: the text without one leading `+`.
pub open spec fn port_digits(b: Seq<u8>) -> Seq<u8> {
    if b.len() > 0 && b[0] == 43 {
        b.drop_first()
    } else {
        b
    }
}

/// The port that a text denotes, if any.
pub open spec fn port_of(b: Seq<u8>) -> Option<u16> {
    let d = port_digits(b);
    if d.len() > 0 && all_digits(d) && digits_value(d) <= 65535 {
        Some(digits_value(d) as u16)
    } else {
        None
    }
}

/// The value of one octet of an address, if the text is one.
pub open spec fn octet_of(p: Seq<u8>) -> Option<u8> {
    if 1 <= p.len() <= 3 && all_digits(p) && !(p.len() > 1 && p[0] == 48) && digits_value(p)
        <= 255 {
        Some(digits_value(p) as u8)
    } else {
        None
    }
}

/// The pieces of a text between its dots.
pub open spec fn split_dots(b: Seq<u8>) -> Seq<Seq<u8>>
    decreases b.len(),
{
    if b.len() == 0 {
        seq![seq![]]
    } else {
        let parts = split_dots(b.drop_last());
        if b.last() == 46 {
            parts.push(seq![])
        } else {
            parts.update(parts.len() - 1, parts.last().push(b.last()))
        }
    }
}

/// The address that a text denotes, if any.
pub open spec fn ipv4_of(b: Seq<u8>) -> Option<Ipv4> {
    let p = split_dots(b);
    if p.len() == 4 && octet_of(p[0]) is Some && octet_of(p[1]) is Some && octet_of(p[2]) is Some
        && octet_of(p[3]) is Some {
        Some(
            Ipv4 {
                a: octet_of(p[0])->Some_0,
                b: octet_of(p[1])->Some_0,
                c: octet_of(p[2])->Some_0,
                d: octet_of(p[3])->Some_0,
            },
        )
    } else {
        None
    }
}

pub proof fn lemma_split_nonempty(b: Seq<u8>)
    ensures
        split_dots(b).len() >= 1,
    decreases b.len(),
{
    if b.len() > 0 {
        lemma_split_nonempty(b.drop_last());
    }
}

/// Appending digit `c` to `v` capped at `cap` reaches the cap exactly when
/// appending it to `v` itself does, and below the cap both agree.
proof fn lemma_capped_step(v: nat, c: nat, cap: nat)
    requires
        c < 10,
        cap > 0,
    ensures
        (if v < cap { v } else { cap }) * 10 + c >= cap ==> v * 10 + c >= cap,
        (if v < cap { v } else { cap }) * 10 + c < cap ==> v * 10 + c == (if v < cap { v } else { cap }) * 10 + c,
{
}

/// Parses a run of digits, or `None` if it is empty, holds another byte, or
/// exceeds `max`.
fn parse_digits(d: &[u8], max: u32) -> (r: Option<u32>)
    requires
        max <= 65535,
    ensures
        r == (if d@.len() > 0 && all_digits(d@) && digits_value(d@) <= max {
            Some(digits_value(d@) as u32)
        } else {
            None
        }),
{
    if d.len() == 0 {
        return None;
    }
    // value of the digits so far, capped just above `max`
    let mut v: u32 = 0;
    let mut i: usize = 0;
    while i < d.len()
        invariant
            i <= d@.len(),
            max <= 65535,
            all_digits(d@.take(i as int)),
            v == (if digits_value(d@.take(i as int)) <= max {
                digits_value(d@.take(i as int))
            } else {
                (max + 1) as nat
            }),
        decreases d@.len() - i,
    {
        let c = d[i];
        if c < 48 || c > 57 {
            proof {
                assert(!is_digit(d@[i as int]));
            }
            return None;
        }
        let ghost prev = digits_value(d@.take(i as int));
        proof {
            assert(d@.take(i + 1).drop_last() =~= d@.take(i as int));
            lemma_capped_step(prev, (c - 48) as nat, (max + 1) as nat);
        }
        let next = v * 10 + (c - 48) as u32;
        v = if next > max { max + 1 } else { next };
        i = i + 1;
    }
    assert(d@.take(d@.len() as int) =~= d@);
    if v > max {
        None
    } else {
        Some(v)
    }
}

/// The port that `text` denotes, as `u16::from_str` reads it.
pub fn parse_port(text: &str) -> (r: Option<u16>)
    ensures
        r == port_of(text.spec_bytes()),
{
    let b = text.as_bytes();
    let d = if b.len() > 0 && b[0] == 43 {
        &b[1..b.len()]
    } else {
        b
    };
    assert(d@ == port_digits(b@)) by {
        if b@.len() > 0 && b@[0] == 43 {
            assert(b@.subrange(1, b@.len() as int) =~= b@.drop_first());
        }
    }
    match parse_digits(d, 65535) {
        Some(v) => Some(v as u16),
        None => None,
    }
}

/// The pieces of `b` between its dots.
fn split_on_dots(b: &[u8]) -> (r: Vec<Vec<u8>>)
    ensures
        r@.len() == split_dots(b@).len(),
        forall|j: int| 0 <= j < r@.len() ==> #[trigger] r@[j]@ == split_dots(b@)[j],
{
    let mut done: Vec<Vec<u8>> = Vec::new();
    let mut cur: Vec<u8> = Vec::new();
    let mut i: usize = 0;
    while i < b.len()
        invariant
            i <= b@.len(),
            done@.len() + 1 == split_dots(b@.take(i as int)).len(),
            forall|j: int| 0 <= j < done@.len() ==> #[trigger] done@[j]@ == split_dots(b@.take(i as int))[j],
            cur@ == split_dots(b@.take(i as int)).last(),
        decreases b@.len() - i,
    {
        proof {
            assert(b@.take(i + 1).drop_last() =~= b@.take(i as int));
            lemma_split_nonempty(b@.take(i as int));
        }
        if b[i] == 46 {
            done.push(cur);
            cur = Vec::new();
        } else {
            cur.push(b[i]);
        }
        i = i + 1;
    }
    assert(b@.take(b@.len() as int) =~= b@);
    done.push(cur);
    done
}

/// The value of one octet of an address, if `p` is one.
fn parse_octet(p: &[u8]) -> (r: Option<u8>)
    ensures
        r == octet_of(p@),
{
    if p.len() == 0 || p.len() > 3 || (p.len() > 1 && p[0] == 48) {
        return None;
    }
    match parse_digits(p, 255) {
        Some(v) => Some(v as u8),
        None => None,
    }
}

/// The address that `text` denotes, as `Ipv4Addr::from_str` reads it.
pub fn parse_ipv4(text: &str) -> (r: Option<Ipv4>)
    ensures
        r == ipv4_of(text.spec_bytes()),
{
    let parts = split_on_dots(text.as_bytes());
    if parts.len() != 4 {
        return None;
    }
    let a = parse_octet(parts[0].as_slice());
    let b = parse_octet(parts[1].as_slice());
    let c = parse_octet(parts[2].as_slice());
    let d = parse_octet(parts[3].as_slice());
    match (a, b, c, d) {
        (Some(a), Some(b), Some(c), Some(d)) => Some(Ipv4 { a, b, c, d }),
        _ => None,
    }
}

/// The parameter that a validation error is about.
#[derive(Clone, Copy, Debug, PartialEq, Eq, Structural)]
pub enum Param {
    /// The interface address.
    Nic,
    /// The port number.
    Port,
    /// A multicast group address.
    Group,
}

/// A parameter whose text could not be read, and that text.
#[derive(Clone, Debug, PartialEq, Eq)]
pub struct ValidationError {
    pub param: Param,
    pub text: String,
}

/// The words that open the message of a validation error.
pub open spec fn param_phrase(p: Param) -> Seq<u8> {
    match p {
        Param::Nic => "could not parse nic address ".spec_bytes(),
        Param::Port => "could not parse port number ".spec_bytes(),
        Param::Group => "could not parse group address ".spec_bytes(),
    }
}

impl ValidationError {
    pub open spec fn is_for(&self, param: Param, text: Seq<char>) -> bool {
        self.param == param && self.text@ == text
    }

    /// The diagnostic: which parameter failed, then the text given for it.
    pub fn message(&self) -> (r: Vec<u8>)
        ensures
            r@ == param_phrase(self.param) + encode_utf8(self.text@),
    {
        let mut out: Vec<u8> = Vec::new();
        match self.param {
            Param::Nic => out.extend_from_slice("could not parse nic address ".as_bytes()),
            Param::Port => out.extend_from_slice("could not parse port number ".as_bytes()),
            Param::Group => out.extend_from_slice("could not parse group address ".as_bytes()),
        }
        out.extend_from_slice(self.text.as_str().as_bytes());
        out
    }
}

/// Validated parameters of the send command.
#[derive(Clone, Copy, Debug, PartialEq, Eq, Structural)]
pub struct SendParams {
    /// The interface that datagrams leave from.
    pub interface: Ipv4,
    /// The group and port that datagrams go to.
    pub destination: Endpoint,
}

/// Validated parameters of the listen command.
#[derive(Clone, Debug, PartialEq, Eq)]
pub struct ListenParams {
    /// The interface on which the groups are joined.
    pub interface: Ipv4,
    /// The port to bind.
    pub port: u16,
    /// The groups to join, in order.
    pub groups: Vec<Ipv4>,
}

/// Reads each group address in order; fails on the first that is not one.
pub fn parse_ipv4_groups(groups: &Vec<String>) -> (r: Result<Vec<Ipv4>, ValidationError>)
    ensures
        match r {
            Ok(v) => {
                &&& v@.len() == groups@.len()
                &&& forall|i: int|
                    0 <= i < groups@.len() ==> ipv4_of(encode_utf8(groups@[i]@)) == Some(
                        #[trigger] v@[i],
                    )
            },
            Err(e) => exists|i: int|
                0 <= i < groups@.len() && ipv4_of(encode_utf8(groups@[i]@)) is None && (forall|
                    k: int,
                | 0 <= k < i ==> ipv4_of(encode_utf8(#[trigger] groups@[k]@)) is Some) && e.is_for(
                    Param::Group,
                    groups@[i]@,
                ),
        },
{
    let mut grps: Vec<Ipv4> = Vec::new();
    let mut i: usize = 0;
    while i < groups.len()
        invariant
            i <= groups@.len(),
            grps@.len() == i,
            forall|k: int|
                0 <= k < i ==> ipv4_of(encode_utf8(groups@[k]@)) == Some(#[trigger] grps@[k]),
        decreases groups@.len() - i,
    {
        match parse_ipv4(groups[i].as_str()) {
            Some(g) => grps.push(g),
            None => {
                let e = ValidationError { param: Param::Group, text: groups[i].clone() };
                assert forall|k: int| 0 <= k < i implies ipv4_of(
                    encode_utf8(#[trigger] groups@[k]@),
                ) is Some by {
                    assert(ipv4_of(encode_utf8(groups@[k]@)) == Some(grps@[k]));
                }
                return Err(e);
            },
        }
        i = i + 1;
    }
    Ok(grps)
}

/// Validates the parameters of the send command, in the order port, group,
/// interface; the first that cannot be read is the error.
pub fn send_params(nic: &str, port: &str, group: &str) -> (r: Result<SendParams, ValidationError>)
    ensures
        port_of(port.spec_bytes()) is None ==> r is Err && r->Err_0.is_for(Param::Port, port@),
        port_of(port.spec_bytes()) is Some && ipv4_of(group.spec_bytes()) is None ==> r is Err
            && r->Err_0.is_for(Param::Group, group@),
        port_of(port.spec_bytes()) is Some && ipv4_of(group.spec_bytes()) is Some && ipv4_of(
            nic.spec_bytes(),
        ) is None ==> r is Err && r->Err_0.is_for(Param::Nic, nic@),
        port_of(port.spec_bytes()) is Some && ipv4_of(group.spec_bytes()) is Some && ipv4_of(
            nic.spec_bytes(),
        ) is Some ==> r == Ok::<SendParams, ValidationError>(
            SendParams {
                interface: ipv4_of(nic.spec_bytes())->Some_0,
                destination: Endpoint {
                    ip: ipv4_of(group.spec_bytes())->Some_0,
                    port: port_of(port.spec_bytes())->Some_0,
                },
            },
        ),
{
    let p = match parse_port(port) {
        Some(p) => p,
        None => {
            return Err(ValidationError { param: Param::Port, text: port.to_owned() });
        },
    };
    let g = match parse_ipv4(group) {
        Some(g) => g,
        None => {
            return Err(ValidationError { param: Param::Group, text: group.to_owned() });
        },
    };
    let n = match parse_ipv4(nic) {
        Some(n) => n,
        None => {
            return Err(ValidationError { param: Param::Nic, text: nic.to_owned() });
        },
    };
    Ok(SendParams { interface: n, destination: Endpoint { ip: g, port: p } })
}

/// Validates the parameters of the listen command, in the order interface,
/// port, groups; the first that cannot be read is the error.
pub fn listen_params(nic: &str, port: &str, groups: &Vec<String>) -> (r: Result<
    ListenParams,
    ValidationError,
>)
    ensures
        ipv4_of(nic.spec_bytes()) is None ==> r is Err && r->Err_0.is_for(Param::Nic, nic@),
        ipv4_of(nic.spec_bytes()) is Some && port_of(port.spec_bytes()) is None ==> r is Err
            && r->Err_0.is_for(Param::Port, port@),
        ipv4_of(nic.spec_bytes()) is Some && port_of(port.spec_bytes()) is Some ==> match r {
            Ok(lp) => {
                &&& lp.interface == ipv4_of(nic.spec_bytes())->Some_0
                &&& lp.port == port_of(port.spec_bytes())->Some_0
                &&& lp.groups@.len() == groups@.len()
                &&& forall|i: int|
                    0 <= i < groups@.len() ==> ipv4_of(encode_utf8(groups@[i]@)) == Some(
                        #[trigger] lp.groups@[i],
                    )
            },
            Err(e) => exists|i: int|
                0 <= i < groups@.len() && ipv4_of(encode_utf8(groups@[i]@)) is None && (forall|
                    k: int,
                | 0 <= k < i ==> ipv4_of(encode_utf8(#[trigger] groups@[k]@)) is Some) && e.is_for(
                    Param::Group,
                    groups@[i]@,
                ),
        },
{
    let n = match parse_ipv4(nic) {
        Some(n) => n,
        None => {
            return Err(ValidationError { param: Param::Nic, text: nic.to_owned() });
        },
    };
    let p = match parse_port(port) {
        Some(p) => p,
        None => {
            return Err(ValidationError { param: Param::Port, text: port.to_owned() });
        },
    };
    let grps = parse_ipv4_groups(groups)?;
    Ok(ListenParams { interface: n, port: p, groups: grps })
}

} // verus!
