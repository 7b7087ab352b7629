use vstd::prelude::*;

use crate::address::{spec_socket_address, IpAddress, SocketAddress};
use crate::errors::ErrorKind;

verus! {

/// The port assumed for a peer given by its IP address alone.
pub const DEFAULT_PEER_PORT: u16 = 8123;

/// Whether `c` is an ASCII decimal digit.
pub open spec fn is_digit(c: char) -> bool {
    '0' <= c && c <= '9'
}

/// The value of the decimal digits `s`.
pub open spec fn decimal_value(s: Seq<char>) -> int
    decreases s.len(),
{
    if s.len() == 0 {
        0
    } else {
        decimal_value(s.drop_last()) * 10 + (s.last() as int - '0' as int)
    }
}

/// The digits of a port: the text after an optional leading `+`.
pub open spec fn port_digits(s: Seq<char>) -> Seq<char> {
    if s.len() > 0 && s[0] == '+' {
        s.drop_first()
    } else {
        s
    }
}

/// The port that `s` spells: one or more decimal digits after an optional
/// `+`, of value at most 65535.
pub open spec fn parse_port(s: Seq<char>) -> Option<u16> {
    let d = port_digits(s);
    if d.len() > 0 && (forall|i: int| 0 <= i < d.len() ==> #[trigger] is_digit(d[i]))
        && decimal_value(d) <= u16::MAX {
        Some(decimal_value(d) as u16)
    } else {
        None
    }
}

proof fn lemma_decimal_value_nonneg(s: Seq<char>)
    requires
        forall|i: int| 0 <= i < s.len() ==> #[trigger] is_digit(s[i]),
    ensures
        decimal_value(s) >= 0,
    decreases s.len(),
{
    if s.len() > 0 {
        assert forall|i: int| 0 <= i < s.drop_last().len() implies #[trigger] is_digit(
            s.drop_last()[i],
        ) by {
            assert(s.drop_last()[i] == s[i]);
        }
        lemma_decimal_value_nonneg(s.drop_last());
        assert(is_digit(s[s.len() - 1]));
    }
}

/// Reads a port number: one or more decimal digits after an optional `+`,
/// of value at most 65535.
pub fn get_port(value: &str) -> (r: Result<u16, ErrorKind>)
    ensures
        r == (match parse_port(value@) {
            Some(p) => Ok::<u16, ErrorKind>(p),
            None => Err(ErrorKind::BadPortSpecified),
        }),
{
    let n = value.unicode_len();
    let mut i: usize = 0;
    if n > 0 && value.get_char(0) == '+' {
        i = 1;
    }
    let start = i;
    let ghost d = port_digits(value@);
    assert(d =~= value@.subrange(start as int, n as int));
    if start >= n {
        assert(parse_port(value@) is None);
        return Err(ErrorKind::BadPortSpecified);
    }
    let mut acc: u32 = 0;
    assert(value@.subrange(start as int, start as int) =~= Seq::<char>::empty());
    while i < n
        invariant
            start <= i <= n,
            n == value@.len(),
            d == value@.subrange(start as int, n as int),
            d == port_digits(value@),
            forall|j: int| start <= j < i ==> #[trigger] is_digit(value@[j]),
            acc <= 65536,
            acc == (if decimal_value(value@.subrange(start as int, i as int)) > 65535 {
                65536
            } else {
                decimal_value(value@.subrange(start as int, i as int))
            }),
        decreases n - i,
    {
        let c = value.get_char(i);
        if c < '0' || c > '9' {
            assert(d[i - start] == c);
            assert(!is_digit(d[i - start]));
            assert(parse_port(value@) is None);
            return Err(ErrorKind::BadPortSpecified);
        }
        let digit = (c as u32) - 48;
        let ghost prefix = value@.subrange(start as int, i as int);
        assert(value@.subrange(start as int, i + 1).drop_last() =~= prefix);
        proof {
            assert forall|j: int| 0 <= j < prefix.len() implies #[trigger] is_digit(prefix[j]) by {
                assert(prefix[j] == value@[start + j]);
            }
            lemma_decimal_value_nonneg(prefix);
        }
        let next = acc * 10 + digit;
        acc = if next > 65535 {
            65536
        } else {
            next
        };
        i = i + 1;
    }
    assert(value@.subrange(start as int, i as int) =~= d);
    if acc > 65535 {
        Err(ErrorKind::BadPortSpecified)
    } else {
        assert forall|j: int| 0 <= j < d.len() implies #[trigger] is_digit(d[j]) by {
            assert(d[j] == value@[start + j]);
        }
        Ok(acc as u16)
    }
}

/// The pieces of `s` before the last comma, and the text after it.
pub open spec fn split_state(s: Seq<char>) -> (Seq<Seq<char>>, Seq<char>)
    decreases s.len(),
{
    if s.len() == 0 {
        (Seq::empty(), Seq::empty())
    } else {
        let prev = split_state(s.drop_last());
        if s.last() == ',' {
            (prev.0.push(prev.1), Seq::empty())
        } else {
            (prev.0, prev.1.push(s.last()))
        }
    }
}

/// The pieces of `s` between commas, as `str::split(",")` gives them.
pub open spec fn split_commas(s: Seq<char>) -> Seq<Seq<char>> {
    split_state(s).0.push(split_state(s).1)
}

/// The texts of a run of string slices.
pub open spec fn texts(v: Seq<&str>) -> Seq<Seq<char>> {
    v.map_values(|p: &str| p@)
}

/// Splits a list of peer addresses at its commas.
pub fn split_address_list<'a>(addr_list: &'a str) -> (r: Vec<&'a str>)
    ensures
        texts(r@) == split_commas(addr_list@),
{
    let n = addr_list.unicode_len();
    let mut pieces: Vec<&'a str> = Vec::new();
    let mut start: usize = 0;
    let mut i: usize = 0;
    assert(addr_list@.take(0) =~= Seq::<char>::empty());
    assert(addr_list@.subrange(0, 0) =~= Seq::<char>::empty());
    assert(texts(pieces@) =~= Seq::<Seq<char>>::empty());
    while i < n
        invariant
            start <= i <= n,
            n == addr_list@.len(),
            split_state(addr_list@.take(i as int)).0 == texts(pieces@),
            split_state(addr_list@.take(i as int)).1 == addr_list@.subrange(start as int, i as int),
        decreases n - i,
    {
        let c = addr_list.get_char(i);
        assert(addr_list@.take(i + 1).drop_last() =~= addr_list@.take(i as int));
        assert(addr_list@.take(i + 1).last() == c);
        if c == ',' {
            let piece = addr_list.substring_char(start, i);
            pieces.push(piece);
            assert(texts(pieces@) =~= split_state(addr_list@.take(i as int)).0.push(piece@));
            start = i + 1;
            assert(addr_list@.subrange(start as int, i + 1) =~= Seq::<char>::empty());
        } else {
            assert(addr_list@.subrange(start as int, i + 1) =~= addr_list@.subrange(
                start as int,
                i as int,
            ).push(c));
        }
        i = i + 1;
    }
    let last = addr_list.substring_char(start, n);
    pieces.push(last);
    assert(addr_list@.take(n as int) =~= addr_list@);
    assert(texts(pieces@) =~= split_commas(addr_list@));
    pieces
}

/// The address of a peer given as one piece of the peer list, where `ip`
/// is what the piece reads as an IP address and `socket` what it reads as
/// a socket address: an IP address alone means the default port.
pub open spec fn resolved_peer(ip: Option<IpAddress>, socket: Option<SocketAddress>) -> Result<
    SocketAddress,
    ErrorKind,
> {
    match ip {
        Some(h) => Ok(spec_socket_address(h, DEFAULT_PEER_PORT)),
        None => match socket {
            Some(a) => Ok(a),
            None => Err(ErrorKind::BadClusterJoinAddressSpecified),
        },
    }
}

/// The addresses of the pieces of a peer list, in order, each piece given
/// by what it reads as; the error of the first piece that is no address.
pub open spec fn resolved_peers(parsed: Seq<(Option<IpAddress>, Option<SocketAddress>)>) -> Result<
    Seq<SocketAddress>,
    ErrorKind,
>
    decreases parsed.len(),
{
    if parsed.len() == 0 {
        Ok(Seq::empty())
    } else {
        match resolved_peers(parsed.drop_last()) {
            Err(e) => Err(e),
            Ok(addrs) => match resolved_peer(parsed.last().0, parsed.last().1) {
                Ok(a) => Ok(addrs.push(a)),
                Err(e) => Err(e),
            },
        }
    }
}

/// Once a prefix of the pieces holds an error, the whole list resolves to
/// that error.
proof fn lemma_resolved_peers_error(parsed: Seq<(Option<IpAddress>, Option<SocketAddress>)>, i: int)
    requires
        0 <= i <= parsed.len(),
        resolved_peers(parsed.take(i)) is Err,
    ensures
        resolved_peers(parsed) == resolved_peers(parsed.take(i)),
    decreases parsed.len() - i,
{
    if i == parsed.len() {
        assert(parsed.take(i) =~= parsed);
    } else {
        assert(parsed.drop_last().take(i) =~= parsed.take(i));
        lemma_resolved_peers_error(parsed.drop_last(), i);
    }
}

/// Resolves one piece of the peer list: an IP address alone means the
/// default port.
pub fn resolve_peer(ip: Option<IpAddress>, socket: Option<SocketAddress>) -> (r: Result<
    SocketAddress,
    ErrorKind,
>)
    ensures
        r == resolved_peer(ip, socket),
{
    match ip {
        Some(host) => Ok(SocketAddress::new(host, DEFAULT_PEER_PORT)),
        None => match socket {
            Some(addr) => Ok(addr),
            None => Err(ErrorKind::BadClusterJoinAddressSpecified),
        },
    }
}

/// Resolves every piece of a peer list, in order, stopping at the first
/// piece that is no address.
pub fn resolve_peers(parsed: Vec<(Option<IpAddress>, Option<SocketAddress>)>) -> (r: Result<
    Vec<SocketAddress>,
    ErrorKind,
>)
    ensures
        match resolved_peers(parsed@) {
            Ok(addrs) => r matches Ok(v) && v@ == addrs,
            Err(e) => r == Err::<Vec<SocketAddress>, ErrorKind>(e),
        },
{
    let mut addresses: Vec<SocketAddress> = Vec::new();
    let mut i: usize = 0;
    assert(parsed@.take(0) =~= Seq::<(Option<IpAddress>, Option<SocketAddress>)>::empty());
    while i < parsed.len()
        invariant
            i <= parsed@.len(),
            resolved_peers(parsed@.take(i as int)) == Ok::<Seq<SocketAddress>, ErrorKind>(
                addresses@,
            ),
        decreases parsed@.len() - i,
    {
        let (ip, socket) = parsed[i];
        assert(parsed@.take(i + 1).drop_last() =~= parsed@.take(i as int));
        assert(parsed@.take(i + 1).last() == (ip, socket));
        match resolve_peer(ip, socket) {
            Ok(a) => {
                addresses.push(a);
            },
            Err(e) => {
                proof {
                    lemma_resolved_peers_error(parsed@, i + 1);
                }
                return Err(e);
            },
        }
        i = i + 1;
    }
    assert(parsed@.take(i as int) =~= parsed@);
    Ok(addresses)
}

} // verus!
