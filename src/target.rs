//! Proxy targets: addresses, the request path that names a target, and the set
//! of targets that a server accepts.
use vstd::prelude::*;
use vstd::string::StrSliceExecFns;

verus! {

/// An IP address: IPv4 as a 32-bit and IPv6 as a 128-bit big-endian number.
#[derive(Debug, Clone, Copy, PartialEq, Eq, Structural)]
pub enum IpAddress {
    V4(u32),
    V6(u128),
}

/// An IP address and a port.
#[derive(Debug, Clone, Copy, PartialEq, Eq, Structural)]
pub struct SocketAddress {
    pub ip: IpAddress,
    pub port: u16,
}

/// The resource under which a proxy offers UDP tunnels; the target's address
/// and port follow it.
pub const MASQUE_WELL_KNOWN_PATH: &'static str = "/.well-known/masque/udp/";

/// The address that the text `s` denotes, if it is an IPv4 or IPv6 address.
pub uninterp spec fn ip_from_text(s: Seq<char>) -> Option<IpAddress>;

/// The text form of an address.
pub uninterp spec fn ip_text(ip: IpAddress) -> Seq<char>;

/// Relies on `FromStr for core::net::IpAddr`: parses dotted IPv4 or IPv6
/// text, with nothing before or after it, and depends on the text alone.
#[verifier::external_body]
fn parse_ip(s: &str) -> (r: Option<IpAddress>)
    ensures
        r == ip_from_text(s@),
{
    match s.parse::<core::net::IpAddr>() {
        Ok(core::net::IpAddr::V4(a)) => Some(IpAddress::V4(u32::from(a))),
        Ok(core::net::IpAddr::V6(a)) => Some(IpAddress::V6(u128::from(a))),
        Err(_) => None,
    }
}

/// Relies on `Display for core::net::IpAddr`: the text form of an address,
/// which depends on the address alone.
#[verifier::external_body]
fn format_ip(ip: IpAddress) -> (r: String)
    ensures
        r@ == ip_text(ip),
{
    match ip {
        IpAddress::V4(a) => core::net::Ipv4Addr::from(a).to_string(),
        IpAddress::V6(a) => core::net::Ipv6Addr::from(a).to_string(),
    }
}

/// The decimal digit for `d` (below 10).
pub open spec fn digit_char(d: nat) -> char {
    (d + 48) as char
}

/// Whether `c` is an ASCII decimal digit.
pub open spec fn is_digit(c: char) -> bool {
    '0' <= c && c <= '9'
}

/// The value of a string of decimal digits.
pub open spec fn digits_value(s: Seq<char>) -> nat
    decreases s.len(),
{
    if s.len() == 0 {
        0
    } else {
        digits_value(s.drop_last()) * 10 + ((s.last() as int) - 48) as nat
    }
}

/// The decimal text of `n`, without leading zeros.
pub open spec fn decimal_text(n: nat) -> Seq<char>
    decreases n,
{
    if n < 10 {
        seq![digit_char(n)]
    } else {
        decimal_text(n / 10).push(digit_char(n % 10))
    }
}

/// `s` without a leading `+`.
pub open spec fn unsigned_digits(s: Seq<char>) -> Seq<char> {
    if s.len() > 0 && s[0] == '+' {
        s.subrange(1, s.len() as int)
    } else {
        s
    }
}

/// Whether every character of `d` is a decimal digit.
pub open spec fn all_digits(d: Seq<char>) -> bool {
    forall|i: int| 0 <= i < d.len() ==> is_digit(#[trigger] d[i])
}

/// The port that `s` reads as: an optional `+`, then one or more decimal
/// digits, of value at most 65535.
pub open spec fn port_value(s: Seq<char>) -> Option<u16> {
    let d = unsigned_digits(s);
    if d.len() > 0 && all_digits(d) && digits_value(d) <= 65535 {
        Some(digits_value(d) as u16)
    } else {
        None
    }
}

/// `s` without the slashes at its start.
pub open spec fn trim_leading_slashes(s: Seq<char>) -> Seq<char>
    decreases s.len(),
{
    if s.len() > 0 && s[0] == '/' {
        trim_leading_slashes(s.subrange(1, s.len() as int))
    } else {
        s
    }
}

/// `s` without the slashes at its end.
pub open spec fn trim_trailing_slashes(s: Seq<char>) -> Seq<char>
    decreases s.len(),
{
    if s.len() > 0 && s.last() == '/' {
        trim_trailing_slashes(s.drop_last())
    } else {
        s
    }
}

/// Whether `i` is the position of the first slash in `s`.
pub open spec fn is_first_slash(s: Seq<char>, i: int) -> bool {
    0 <= i < s.len() && s[i] == '/' && forall|k: int| 0 <= k < i ==> s[k] != '/'
}

/// `s` split around its first slash, if it has one.
pub open spec fn split_at_first_slash(s: Seq<char>) -> Option<(Seq<char>, Seq<char>)> {
    if exists|i: int| is_first_slash(s, i) {
        let i = choose|i: int| is_first_slash(s, i);
        Some((s.subrange(0, i), s.subrange(i + 1, s.len() as int)))
    } else {
        None
    }
}

/// The address and port text of a request path: after the well-known
/// prefix and any further slashes, the text up to the next slash, and the
/// text after it without its trailing slashes.
pub open spec fn target_parts(path: Seq<char>) -> Option<(Seq<char>, Seq<char>)> {
    let prefix = MASQUE_WELL_KNOWN_PATH@;
    if path.len() >= prefix.len() && path.subrange(0, prefix.len() as int) == prefix {
        let rest = trim_leading_slashes(path.subrange(prefix.len() as int, path.len() as int));
        match split_at_first_slash(rest) {
            Some((addr, port)) => Some((addr, trim_trailing_slashes(port))),
            None => None,
        }
    } else {
        None
    }
}

/// The target that a request path names, if it names one.
pub open spec fn target_of_path(path: Seq<char>) -> Option<SocketAddress> {
    match target_parts(path) {
        Some((addr, port)) => match (ip_from_text(addr), port_value(port)) {
            (Some(ip), Some(p)) => Some(SocketAddress { ip, port: p }),
            _ => None,
        },
        None => None,
    }
}

/// The path of the request that asks a proxy for a tunnel to `target`.
pub open spec fn connect_path(target: SocketAddress) -> Seq<char> {
    MASQUE_WELL_KNOWN_PATH@ + ip_text(target.ip) + seq!['/'] + decimal_text(target.port as nat)
        + seq!['/']
}

/// Reads a port: an optional `+`, then decimal digits, at most 65535.
pub fn parse_port(s: &str) -> (r: Option<u16>)
    ensures
        r == port_value(s@),
{
    let len = s.unicode_len();
    let mut start: usize = 0;
    if len > 0 && s.get_char(0) == '+' {
        start = 1;
    }
    let ghost d = unsigned_digits(s@);
    assert(d =~= s@.subrange(start as int, len as int));
    if start >= len {
        return None;
    }
    let mut v: u32 = 0;
    let mut i: usize = start;
    assert(d.subrange(0, 0) =~= Seq::<char>::empty());
    while i < len
        invariant
            start <= i <= len,
            len == s@.len(),
            d == s@.subrange(start as int, len as int),
            d == unsigned_digits(s@),
            forall|k: int| 0 <= k < i - start ==> is_digit(#[trigger] d[k]),
            v as nat == digits_value(d.subrange(0, i - start)),
            v <= 65535,
        decreases len - i,
    {
        let c = s.get_char(i);
        assert(d[i - start] == c);
        if !('0' <= c && c <= '9') {
            assert(!is_digit(d[i - start]));
            assert(!all_digits(d));
            return None;
        }
        let next: u32 = v * 10 + (c as u32 - 48);
        assert(d.subrange(0, i + 1 - start).drop_last() =~= d.subrange(0, i - start));
        assert(d[i - start] == c);
        assert(digits_value(d.subrange(0, i + 1 - start)) == next);
        if next > 65535 {
            proof {
                if all_digits(d) {
                    lemma_digits_value_grows(d, i + 1 - start);
                }
            }
            return None;
        }
        v = next;
        i = i + 1;
    }
    assert(d.subrange(0, i - start) =~= d);
    Some(v as u16)
}

/// A longer run of digits is worth at least as much as its prefix.
proof fn lemma_digits_value_grows(d: Seq<char>, j: int)
    requires
        0 <= j <= d.len(),
        forall|k: int| 0 <= k < d.len() ==> is_digit(#[trigger] d[k]),
    ensures
        digits_value(d.subrange(0, j)) <= digits_value(d),
    decreases d.len() - j,
{
    if j < d.len() {
        lemma_digits_value_grows(d, j + 1);
        let t = d.subrange(0, j + 1);
        assert(t.drop_last() =~= d.subrange(0, j));
        assert(t.last() == d[j]);
        assert(is_digit(d[j]));
        assert(digits_value(t) == digits_value(d.subrange(0, j)) * 10 + ((d[j] as int) - 48) as nat);
    } else {
        assert(d.subrange(0, j) =~= d);
    }
}

/// The target that a proxy request path names: the path must start with
/// `MASQUE_WELL_KNOWN_PATH`; after any further slashes come the address, a
/// slash, and the port, which may be followed by slashes.
pub fn get_target_socketaddr(request_path: &str) -> (r: Option<SocketAddress>)
    ensures
        r == target_of_path(request_path@),
{
    let prefix = MASQUE_WELL_KNOWN_PATH;
    let plen = prefix.unicode_len();
    let len = request_path.unicode_len();
    if len < plen {
        return None;
    }
    let mut k: usize = 0;
    while k < plen
        invariant
            k <= plen,
            plen == prefix@.len(),
            plen <= len,
            len == request_path@.len(),
            prefix@ == MASQUE_WELL_KNOWN_PATH@,
            forall|j: int| 0 <= j < k ==> request_path@[j] == prefix@[j],
        decreases plen - k,
    {
        if request_path.get_char(k) != prefix.get_char(k) {
            assert(request_path@.subrange(0, plen as int)[k as int] != prefix@[k as int]);
            return None;
        }
        k = k + 1;
    }
    assert(request_path@.subrange(0, plen as int) =~= prefix@);
    let ghost path = request_path@;
    // skip the slashes after the prefix
    let mut j: usize = plen;
    while j < len && request_path.get_char(j) == '/'
        invariant
            plen <= j <= len,
            len == path.len(),
            path == request_path@,
            trim_leading_slashes(path.subrange(plen as int, len as int))
                == trim_leading_slashes(path.subrange(j as int, len as int)),
        decreases len - j,
    {
        assert(path.subrange(j as int, len as int).subrange(1, len - j) =~= path.subrange(
            j + 1,
            len as int,
        ));
        j = j + 1;
    }
    let ghost rest = path.subrange(j as int, len as int);
    assert(trim_leading_slashes(rest) == rest);
    // find the slash after the address
    let mut s: usize = j;
    while s < len && request_path.get_char(s) != '/'
        invariant
            j <= s <= len,
            len == path.len(),
            path == request_path@,
            rest == path.subrange(j as int, len as int),
            forall|q: int| 0 <= q < s - j ==> rest[q] != '/',
        decreases len - s,
    {
        s = s + 1;
    }
    if s == len {
        assert(!exists|i: int| is_first_slash(rest, i));
        return None;
    }
    assert(is_first_slash(rest, s - j));
    assert forall|i: int| is_first_slash(rest, i) implies i == s - j by {
        if i < s - j {
            assert(rest[i] != '/');
        } else if i > s - j {
            assert(rest[s - j] != '/');
        }
    }
    // the port ends before the trailing slashes
    let mut e: usize = len;
    assert(path.subrange(s + 1, len as int) =~= rest.subrange(s - j + 1, rest.len() as int));
    while e > s + 1 && request_path.get_char(e - 1) == '/'
        invariant
            s + 1 <= e <= len,
            len == path.len(),
            path == request_path@,
            trim_trailing_slashes(path.subrange(s + 1, len as int)) == trim_trailing_slashes(
                path.subrange(s + 1, e as int),
            ),
        decreases e,
    {
        assert(path.subrange(s + 1, e as int).drop_last() =~= path.subrange(s + 1, e - 1));
        e = e - 1;
    }
    assert(trim_trailing_slashes(path.subrange(s + 1, e as int)) == path.subrange(
        s + 1,
        e as int,
    ));
    let addr_str = request_path.substring_char(j, s);
    let port_str = request_path.substring_char(s + 1, e);
    assert(addr_str@ =~= rest.subrange(0, s - j));
    let ip = match parse_ip(addr_str) {
        Some(ip) => ip,
        None => return None,
    };
    let port = match parse_port(port_str) {
        Some(p) => p,
        None => return None,
    };
    Some(SocketAddress { ip, port })
}

/// The path of the request that asks a proxy for a tunnel to `target`.
pub fn connect_request_path(target: &SocketAddress) -> (r: String)
    ensures
        r@ == connect_path(*target),
{
    let mut path = String::from_str(MASQUE_WELL_KNOWN_PATH);
    let ip = format_ip(target.ip);
    path.append(ip.as_str());
    path.append("/");
    let port = format_port(target.port);
    path.append(port.as_str());
    path.append("/");
    proof {
        reveal_strlit("/");
    }
    assert(path@ =~= connect_path(*target));
    path
}

/// Relies on `Display for u16`: decimal digits without leading zeros.
#[verifier::external_body]
fn format_port(p: u16) -> (r: String)
    ensures
        r@ == decimal_text(p as nat),
{
    p.to_string()
}

/// The address of the same family that binds to every interface.
pub fn unspecified_addr(addr: IpAddress) -> (r: IpAddress)
    ensures
        r == match addr {
            IpAddress::V4(_) => IpAddress::V4(0),
            IpAddress::V6(_) => IpAddress::V6(0),
        },
{
    match addr {
        IpAddress::V4(_) => IpAddress::V4(0),
        IpAddress::V6(_) => IpAddress::V6(0),
    }
}

impl IpAddress {
    /// The IPv4 address `a.b.c.d`.
    pub fn v4(a: u8, b: u8, c: u8, d: u8) -> (r: IpAddress)
        ensures
            r == IpAddress::V4((a as nat * 16777216 + b as nat * 65536 + c as nat * 256 + d as nat) as u32),
    {
        IpAddress::V4(a as u32 * 16777216 + b as u32 * 65536 + c as u32 * 256 + d as u32)
    }
}

/// The addresses that a server lets clients reach; none means any.
pub struct AllowedIps {
    pub hosts: Vec<IpAddress>,
}

impl AllowedIps {
    /// Whether a client may reach `ip`: the set is empty or holds it.
    pub fn ip_allowed(&self, ip: IpAddress) -> (r: bool)
        ensures
            r == (self.hosts@.len() == 0 || self.hosts@.contains(ip)),
    {
        if self.hosts.len() == 0 {
            return true;
        }
        let mut i: usize = 0;
        while i < self.hosts.len()
            invariant
                i <= self.hosts@.len(),
                forall|k: int| 0 <= k < i ==> self.hosts@[k] != ip,
            decreases self.hosts@.len() - i,
        {
            if self.hosts[i] == ip {
                assert(self.hosts@[i as int] == ip);
                return true;
            }
            i = i + 1;
        }
        false
    }
}

} // verus!
