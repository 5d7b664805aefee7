//! Targets of the form `host:port`, and how they become addresses.

use crate::net::{IpAddress, SocketAddress};
use crate::text::{
    all_digits, char_digit, char_is_digit, chars_of, debug_text, digits_value, is_digit, join3,
    lemma_digits_prefix, outcome, quote,
};
use vstd::prelude::*;
use vstd::string::*;

verus! {

/// Where a character stands last in a text, or -1.
pub open spec fn last_index(s: Seq<char>, c: char) -> int
    decreases s.len(),
{
    if s.len() == 0 {
        -1
    } else if s.last() == c {
        s.len() - 1
    } else {
        last_index(s.drop_last(), c)
    }
}

/// The port that a text stands for: digits, with a plus sign in front or not.
pub open spec fn port_number(s: Seq<char>) -> Option<u16> {
    let d = if s.len() > 0 && s[0] == '+' {
        s.skip(1)
    } else {
        s
    };
    if d.len() > 0 && all_digits(d) && digits_value(d) <= u16::MAX {
        Some(digits_value(d) as u16)
    } else {
        None
    }
}

/// The host and the port of a target, or what is wrong with it.
pub open spec fn target_parts(t: Seq<char>) -> Result<(Seq<char>, u16), Seq<char>> {
    let i = last_index(t, ':');
    if i < 0 {
        Err("target "@ + debug_text(t) + " is missing a port"@)
    } else {
        match port_number(t.skip(i + 1)) {
            None => Err("target "@ + debug_text(t) + " has an invalid port"@),
            Some(port) => if i == 0 {
                Err("target "@ + debug_text(t) + " has an empty host"@)
            } else {
                Ok((t.take(i), port))
            },
        }
    }
}

/// The port that the characters from `from` on stand for.
fn parse_port(s: &Vec<char>, from: usize) -> (r: Option<u16>)
    requires
        from <= s@.len(),
    ensures
        r == port_number(s@.skip(from as int)),
{
    let ghost t = s@.skip(from as int);
    let mut i: usize = from;
    if i < s.len() && s[i] == '+' {
        i = i + 1;
    }
    let start: usize = i;
    let ghost d = s@.skip(start as int);
    proof {
        if t.len() > 0 && t[0] == '+' {
            assert(t.skip(1) =~= d);
        } else {
            assert(t =~= d);
        }
    }
    if start == s.len() {
        return None;
    }
    let mut n: u32 = 0;
    while i < s.len()
        invariant
            start <= i <= s@.len(),
            start < s@.len(),
            t == s@.skip(from as int),
            from <= s@.len(),
            d == s@.skip(start as int),
            n <= u16::MAX,
            forall|j: int| 0 <= j < i - start ==> is_digit(#[trigger] d[j]),
            n == digits_value(d.take(i - start)),
            port_number(t) == if d.len() > 0 && all_digits(d) && digits_value(d) <= u16::MAX {
                Some(digits_value(d) as u16)
            } else {
                None
            },
        decreases s@.len() - i,
    {
        proof {
            assert(d[i - start] == s@[i as int]);
        }
        if !char_is_digit(s[i]) {
            return None;
        }
        n = 10 * n + char_digit(s[i]) as u32;
        proof {
            assert(d.take(i - start + 1).drop_last() =~= d.take(i - start));
            assert(d.take(i - start + 1).last() == d[i - start]);
        }
        i = i + 1;
        if n > u16::MAX as u32 {
            proof {
                lemma_digits_prefix(d, i - start);
            }
            return None;
        }
    }
    proof {
        assert(d.take(d.len() as int) =~= d);
    }
    Some(n as u16)
}

/// Splits a `host:port` target at its last colon. Only the shape is judged, not
/// whether the host can be resolved.
pub fn split_target(target: &str) -> (r: Result<(&str, u16), String>)
    ensures
        match (r, target_parts(target@)) {
            (Ok(parts), Ok(expected)) => parts.0@ == expected.0 && parts.1 == expected.1,
            (Err(message), Err(expected)) => message@ == expected,
            _ => false,
        },
{
    let s = chars_of(target);
    let mut i: usize = s.len();
    proof {
        assert(s@.take(s@.len() as int) =~= s@);
    }
    while i > 0 && s[i - 1] != ':'
        invariant
            i <= s@.len(),
            last_index(s@, ':') == last_index(s@.take(i as int), ':'),
        decreases i,
    {
        proof {
            assert(s@.take(i as int).drop_last() =~= s@.take(i as int - 1));
        }
        i = i - 1;
    }
    if i == 0 {
        return Err(quote("target ", target, " is missing a port"));
    }
    proof {
        assert(s@.take(i as int).last() == ':');
    }
    match parse_port(&s, i) {
        None => Err(quote("target ", target, " has an invalid port")),
        Some(port) => if i == 1 {
            Err(quote("target ", target, " has an empty host"))
        } else {
            proof {
                assert(s@.take(i as int - 1) =~= target@.subrange(0, i as int - 1));
            }
            Ok((target.substring_char(0, i - 1), port))
        },
    }
}

/// What is left to do to resolve a target.
#[derive(Debug)]
pub enum Resolution {
    /// The target names its address: DNS is not asked.
    Known(SocketAddress),
    /// The host is a name: DNS is asked for it.
    LookUp { host: String, port: u16 },
}

/// Decides how a target becomes an address. `literal` is the address where the
/// whole target is an IP literal with a port, `host_ip` the address where its host
/// part is one without. Neither asks DNS.
pub fn resolve(target: &str, literal: Option<SocketAddress>, host_ip: Option<IpAddress>) -> (r:
    Result<Resolution, String>)
    ensures
        match literal {
            Some(addr) => r == Ok::<Resolution, String>(Resolution::Known(addr)),
            None => match target_parts(target@) {
                Err(message) => outcome(r) == Err::<Resolution, Seq<char>>(message),
                Ok((host, port)) => match host_ip {
                    Some(ip) => r == Ok::<Resolution, String>(
                        Resolution::Known(SocketAddress { ip, port, flowinfo: 0, scope_id: 0 }),
                    ),
                    None => r matches Ok(Resolution::LookUp { host: h, port: p }) && h@ == host && p
                        == port,
                },
            },
        },
{
    if let Some(addr) = literal {
        return Ok(Resolution::Known(addr));
    }
    match split_target(target) {
        Err(message) => Err(message),
        Ok((host, port)) => match host_ip {
            Some(ip) => Ok(Resolution::Known(SocketAddress::new(ip, port))),
            None => Ok(Resolution::LookUp { host: host.to_owned(), port }),
        },
    }
}

/// The address that a DNS answer gives: the first one of it.
pub fn resolved(host: &str, port: u16, answer: Result<Vec<IpAddress>, String>) -> (r: Result<
    SocketAddress,
    String,
>)
    ensures
        match answer {
            Err(reason) => outcome(r) == Err::<SocketAddress, Seq<char>>(
                "cannot resolve "@ + host@ + (": "@ + reason@),
            ),
            Ok(ips) => if ips@.len() == 0 {
                outcome(r) == Err::<SocketAddress, Seq<char>>("no addresses for "@ + host@)
            } else {
                r == Ok::<SocketAddress, String>(
                    SocketAddress { ip: ips@[0], port, flowinfo: 0, scope_id: 0 },
                )
            },
        },
{
    match answer {
        Err(reason) => {
            let mut why: String = String::new();
            why.append(": ");
            why.append(reason.as_str());
            proof {
                assert(why@ =~= ": "@ + reason@);
            }
            Err(join3("cannot resolve ", host, why.as_str()))
        },
        Ok(ips) => if ips.len() == 0 {
            let mut message: String = String::new();
            message.append("no addresses for ");
            message.append(host);
            proof {
                assert(message@ =~= "no addresses for "@ + host@);
            }
            Err(message)
        } else {
            Ok(SocketAddress::new(ips[0], port))
        },
    }
}

proof fn lemma_last_index(host: Seq<char>, port: Seq<char>)
    requires
        !port.contains(':'),
    ensures
        last_index(host + seq![':'] + port, ':') == host.len(),
    decreases port.len(),
{
    let t = host + seq![':'] + port;
    if port.len() == 0 {
        assert(t.last() == ':');
    } else {
        let init = port.drop_last();
        assert(port.contains(port[port.len() - 1]));
        assert(t.last() == port[port.len() - 1]);
        assert(!init.contains(':')) by {
            if init.contains(':') {
                let k = choose|k: int| 0 <= k < init.len() && init[k] == ':';
                assert(port[k] == ':');
            }
        }
        assert(t.drop_last() =~= host + seq![':'] + init);
        lemma_last_index(host, init);
    }
}

proof fn lemma_no_colon(t: Seq<char>)
    requires
        !t.contains(':'),
    ensures
        last_index(t, ':') == -1,
    decreases t.len(),
{
    if t.len() > 0 {
        let init = t.drop_last();
        assert(t.contains(t[t.len() - 1]));
        assert(!init.contains(':')) by {
            if init.contains(':') {
                let k = choose|k: int| 0 <= k < init.len() && init[k] == ':';
                assert(t[k] == ':');
            }
        }
        lemma_no_colon(init);
    }
}

/// A target falls apart at its last colon: what stands before it is the host, whatever
/// it holds, and what stands behind it must be a port. It is refused for a bad port
/// before it is refused for an empty host.
pub proof fn law_targets_fall_apart_at_the_last_colon(host: Seq<char>, port: Seq<char>)
    requires
        !port.contains(':'),
    ensures
        ({
            let t = host + seq![':'] + port;
            match target_parts(t) {
                Ok((h, p)) => h == host && host.len() > 0 && port_number(port) == Some(p),
                Err(message) => if port_number(port) is None {
                    message == "target "@ + debug_text(t) + " has an invalid port"@
                } else {
                    host.len() == 0 && message == "target "@ + debug_text(t)
                        + " has an empty host"@
                },
            }
        }),
{
    let t = host + seq![':'] + port;
    lemma_last_index(host, port);
    assert(t.skip(host.len() as int + 1) =~= port);
    assert(t.take(host.len() as int) =~= host);
}

/// A target without a colon is missing its port.
pub proof fn law_targets_without_a_colon_are_refused(t: Seq<char>)
    requires
        !t.contains(':'),
    ensures
        target_parts(t) == Err::<(Seq<char>, u16), Seq<char>>(
            "target "@ + debug_text(t) + " is missing a port"@,
        ),
{
    lemma_no_colon(t);
}

/// A port is one digit or more, with a plus sign in front or not, and stands for the
/// number that the digits stand for, if that is below 65536. Nothing else is a port.
pub proof fn law_ports_are_numbers_of_16_bits(d: Seq<char>, s: Seq<char>)
    requires
        d.len() > 0,
        forall|i: int| 0 <= i < d.len() ==> 48 <= #[trigger] d[i] as int <= 57,
    ensures
        digits_value(d) < 65536 ==> port_number(d) == Some(digits_value(d) as u16) && port_number(
            seq!['+'] + d,
        ) == Some(digits_value(d) as u16),
        digits_value(d) >= 65536 ==> port_number(d) is None && port_number(seq!['+'] + d) is None,
        port_number(s) is Some ==> exists|e: Seq<char>|
            #![trigger digits_value(e)]
            {
                &&& e.len() > 0
                &&& forall|i: int| 0 <= i < e.len() ==> 48 <= #[trigger] e[i] as int <= 57
                &&& s == e || s == seq!['+'] + e
                &&& port_number(s)->0 == digits_value(e)
            },
{
    assert forall|i: int| 0 <= i < d.len() implies is_digit(#[trigger] d[i]) by {
    }
    assert(d[0] as int >= 48);
    assert((seq!['+'] + d).skip(1) =~= d);
    if port_number(s) is Some {
        let e = if s.len() > 0 && s[0] == '+' {
            s.skip(1)
        } else {
            s
        };
        assert forall|i: int| 0 <= i < e.len() implies 48 <= #[trigger] e[i] as int <= 57 by {
            assert(is_digit(e[i]));
        }
        assert(digits_value(e) == port_number(s)->0);
        if e != s {
            assert(seq!['+'] + e =~= s);
        }
    }
}

} // verus!
