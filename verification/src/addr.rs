//! Addresses: IPv4 addresses and the networks that hold them.
use std::str::FromStr;

use vstd::arithmetic::power2::pow2;
use vstd::prelude::*;
use vstd::string::*;

use crate::number::{all_digits, dec, decimal, lemma_dec_digits, lemma_dec_value, lemma_value_dec, value};
use crate::text::{chars_of, is_digit, join, joined, lemma_split_join, split, split_first, split_on, texts};

verus! {

/// An IPv4 address, as the number that its four bytes make in network order.
#[derive(Debug, Clone, Copy, PartialEq, Eq, Structural)]
pub struct Ipv4Addr {
    pub bits: u32,
}

/// Why a text is no address.
#[derive(Debug, Clone, Copy, PartialEq, Eq, Structural)]
pub struct AddrError {}

/// The `i`-th byte of an address, counted from the most significant one.
pub open spec fn byte_of(bits: u32, i: int) -> nat {
    if i == 0 {
        bits as nat / 0x1000000
    } else if i == 1 {
        bits as nat / 0x10000 % 0x100
    } else if i == 2 {
        bits as nat / 0x100 % 0x100
    } else {
        bits as nat % 0x100
    }
}

/// The number that four bytes make, the first one the most significant.
pub open spec fn from_bytes(b: Seq<nat>) -> nat {
    b[0] * 0x1000000 + b[1] * 0x10000 + b[2] * 0x100 + b[3]
}

/// The dotted text of an address: four numbers with dots between them.
pub open spec fn ip_text(bits: u32) -> Seq<char> {
    joined(
        seq![
            dec(byte_of(bits, 0)),
            dec(byte_of(bits, 1)),
            dec(byte_of(bits, 2)),
            dec(byte_of(bits, 3)),
        ],
        seq!['.'],
    )
}

/// Whether `s` writes a byte: one to three digits, no more than 255 in value.
pub open spec fn is_byte(s: Seq<char>) -> bool {
    1 <= s.len() <= 3 && all_digits(s) && value(s) <= 255
}

/// Whether `s` writes a byte without a leading zero.
pub open spec fn is_octet(s: Seq<char>) -> bool {
    is_byte(s) && (s.len() > 1 ==> s[0] != '0')
}

/// The values of texts of digits.
pub open spec fn values(parts: Seq<Seq<char>>) -> Seq<nat> {
    parts.map_values(|p: Seq<char>| value(p))
}

/// The address that a dotted text stands for: exactly four bytes without leading zeros.
pub open spec fn ip_of(s: Seq<char>) -> Option<u32> {
    let parts = split_on(s, '.');
    if parts.len() == 4 && (forall|i: int| 0 <= i < 4 ==> is_octet(#[trigger] parts[i])) {
        Some(from_bytes(values(parts)) as u32)
    } else {
        None
    }
}

/// The network that a text stands for, as an address and a prefix length: four bytes with dots
/// between them, a slash, and one or two digits, no more than 32 in value.
pub open spec fn net_of(s: Seq<char>) -> Option<(u32, u8)> {
    match split_first(s, '/') {
        None => None,
        Some((a, p)) => {
            let parts = split_on(a, '.');
            if parts.len() == 4 && (forall|i: int| 0 <= i < 4 ==> is_byte(#[trigger] parts[i])) && 1 <= p.len()
                <= 2 && all_digits(p) && value(p) <= 32 {
                Some((from_bytes(values(parts)) as u32, value(p) as u8))
            } else {
                None
            }
        },
    }
}

/// Whether `ip` has the first `prefix` bits of `addr`.
pub open spec fn in_net(addr: u32, prefix: u8, ip: u32) -> bool {
    ip as nat / pow2((32 - prefix) as nat) == addr as nat / pow2((32 - prefix) as nat)
}

/// The text of a network: the address, a slash and the prefix length.
pub open spec fn net_text(addr: u32, prefix: u8) -> Seq<char> {
    ip_text(addr) + "/"@ + dec(prefix as nat)
}

/// The bytes of an address make the address.
pub proof fn lemma_bytes(bits: u32)
    ensures
        forall|i: int| 0 <= i < 4 ==> (#[trigger] byte_of(bits, i)) <= 255,
        from_bytes(seq![byte_of(bits, 0), byte_of(bits, 1), byte_of(bits, 2), byte_of(bits, 3)]) == bits as nat,
{
}

/// The address of four bytes has these bytes.
pub proof fn lemma_bytes_back(a: nat, b: nat, c: nat, d: nat)
    requires
        a <= 255,
        b <= 255,
        c <= 255,
        d <= 255,
    ensures
        from_bytes(seq![a, b, c, d]) <= u32::MAX,
        byte_of(from_bytes(seq![a, b, c, d]) as u32, 0) == a,
        byte_of(from_bytes(seq![a, b, c, d]) as u32, 1) == b,
        byte_of(from_bytes(seq![a, b, c, d]) as u32, 2) == c,
        byte_of(from_bytes(seq![a, b, c, d]) as u32, 3) == d,
{
    let low = c * 0x100 + d;
    let middle = b * 0x10000 + low;
    let n = from_bytes(seq![a, b, c, d]);
    assert(n == a * 0x1000000 + middle);
    assert(low < 0x10000 && middle < 0x1000000);
    assert(n as u32 as nat == n);
    assert(n / 0x1000000 == a) by (nonlinear_arith)
        requires
            n == a * 0x1000000 + middle,
            middle < 0x1000000,
    ;
    assert(n / 0x10000 == a * 0x100 + b) by (nonlinear_arith)
        requires
            n == a * 0x1000000 + b * 0x10000 + low,
            low < 0x10000,
    ;
    assert((a * 0x100 + b) % 0x100 == b) by (nonlinear_arith)
        requires
            b <= 255,
    ;
    assert(n / 0x100 == (a * 0x100 + b) * 0x100 + c) by (nonlinear_arith)
        requires
            n == a * 0x1000000 + b * 0x10000 + c * 0x100 + d,
            d <= 255,
    ;
    assert(((a * 0x100 + b) * 0x100 + c) % 0x100 == c) by (nonlinear_arith)
        requires
            c <= 255,
    ;
    assert(n % 0x100 == d) by (nonlinear_arith)
        requires
            n == (a * 0x10000 + b * 0x100 + c) * 0x100 + d,
            d <= 255,
    ;
}

/// An address is read back from its text.
pub proof fn law_ip_round_trip(bits: u32)
    ensures
        ip_of(ip_text(bits)) == Some(bits),
{
    let parts = seq![
        dec(byte_of(bits, 0)),
        dec(byte_of(bits, 1)),
        dec(byte_of(bits, 2)),
        dec(byte_of(bits, 3)),
    ];
    lemma_bytes(bits);
    assert forall|i: int| 0 <= i < 4 implies is_octet(#[trigger] parts[i]) && value(parts[i]) == byte_of(bits, i)
        && !parts[i].contains('.') by {
        lemma_dec_digits(byte_of(bits, i));
        lemma_dec_value(byte_of(bits, i));
        assert(parts[i] == dec(byte_of(bits, i)));
        if parts[i].contains('.') {
            let k = choose|k: int| 0 <= k < parts[i].len() && parts[i][k] == '.';
            assert(is_digit(dec(byte_of(bits, i))[k]));
        }
    }
    lemma_split_join(parts, '.');
    assert(values(parts) =~= seq![byte_of(bits, 0), byte_of(bits, 1), byte_of(bits, 2), byte_of(bits, 3)]);
}

/// Only one text stands for an address: the text of the address.
pub proof fn law_ip_text_unique(s: Seq<char>)
    requires
        ip_of(s) is Some,
    ensures
        ip_text(ip_of(s)->0) == s,
{
    let parts = split_on(s, '.');
    assert(is_octet(parts[0]) && is_octet(parts[1]) && is_octet(parts[2]) && is_octet(parts[3]));
    lemma_value_dec(parts[0]);
    lemma_value_dec(parts[1]);
    lemma_value_dec(parts[2]);
    lemma_value_dec(parts[3]);
    let b = values(parts);
    let bits = from_bytes(b) as u32;
    lemma_bytes_back(b[0], b[1], b[2], b[3]);
    assert(from_bytes(b) == from_bytes(seq![b[0], b[1], b[2], b[3]]));
    assert(seq![
        dec(byte_of(bits, 0)),
        dec(byte_of(bits, 1)),
        dec(byte_of(bits, 2)),
        dec(byte_of(bits, 3)),
    ] =~= parts);
    crate::text::lemma_join_split(s, '.');
}

/// Reads a byte written without a leading zero.
fn parse_octet(s: &str) -> (r: Option<u8>)
    ensures
        match r {
            Some(n) => is_octet(s@) && n == value(s@),
            None => !is_octet(s@),
        },
{
    let x: Vec<char> = chars_of(s);
    if x.len() == 0 || x.len() > 3 || (x.len() > 1 && x[0] == '0') {
        return None;
    }
    let mut n: u32 = 0;
    let mut i: usize = 0;
    assert(x@.take(0) =~= Seq::<char>::empty());
    while i < x.len()
        invariant
            x@ == s@,
            i <= x@.len() <= 3,
            n == value(x@.take(i as int)),
            i == 0 ==> n == 0,
            i == 1 ==> n <= 9,
            i == 2 ==> n <= 99,
            i == 3 ==> n <= 999,
            forall|j: int| 0 <= j < i ==> is_digit(#[trigger] x@[j]),
        decreases x@.len() - i,
    {
        let c: char = x[i];
        if !('0' <= c && c <= '9') {
            return None;
        }
        assert(x@.take(i + 1).drop_last() =~= x@.take(i as int));
        n = n * 10 + (c as u32 - 48);
        i = i + 1;
    }
    assert(x@.take(x@.len() as int) =~= s@);
    if n <= 255 {
        Some(n as u8)
    } else {
        None
    }
}

impl Ipv4Addr {
    /// The address `0.0.0.0`.
    pub fn unspecified() -> (r: Ipv4Addr)
        ensures
            r.bits == 0,
    {
        Ipv4Addr { bits: 0 }
    }

    /// The address of four bytes.
    pub fn new(a: u8, b: u8, c: u8, d: u8) -> (r: Ipv4Addr)
        ensures
            r.bits == from_bytes(seq![a as nat, b as nat, c as nat, d as nat]),
    {
        Ipv4Addr { bits: a as u32 * 0x1000000 + b as u32 * 0x10000 + c as u32 * 0x100 + d as u32 }
    }

    /// The four bytes of the address.
    pub fn octets(&self) -> (r: [u8; 4])
        ensures
            forall|i: int| 0 <= i < 4 ==> #[trigger] r@[i] == byte_of(self.bits, i),
    {
        [
            (self.bits / 0x1000000) as u8,
            (self.bits / 0x10000 % 0x100) as u8,
            (self.bits / 0x100 % 0x100) as u8,
            (self.bits % 0x100) as u8,
        ]
    }

    /// Reads a dotted text.
    pub fn parse(s: &str) -> (r: Option<Ipv4Addr>)
        ensures
            match r {
                Some(ip) => ip_of(s@) == Some(ip.bits),
                None => ip_of(s@) is None,
            },
    {
        let parts: Vec<String> = split(s, '.');
        let ghost all = texts(parts@);
        if parts.len() != 4 {
            assert(all.len() != 4);
            return None;
        }
        assert(all[0] == parts@[0]@ && all[1] == parts@[1]@ && all[2] == parts@[2]@ && all[3] == parts@[3]@);
        match (
            parse_octet(parts[0].as_str()),
            parse_octet(parts[1].as_str()),
            parse_octet(parts[2].as_str()),
            parse_octet(parts[3].as_str()),
        ) {
            (Some(a), Some(b), Some(c), Some(d)) => {
                assert(values(all) =~= seq![a as nat, b as nat, c as nat, d as nat]);
                Some(Ipv4Addr::new(a, b, c, d))
            },
            _ => None,
        }
    }

    /// The dotted text of the address.
    pub fn to_string(&self) -> (r: String)
        ensures
            r@ == ip_text(self.bits),
    {
        let b: [u8; 4] = self.octets();
        let mut parts: Vec<String> = Vec::new();
        parts.push(decimal(b[0] as u64));
        parts.push(decimal(b[1] as u64));
        parts.push(decimal(b[2] as u64));
        parts.push(decimal(b[3] as u64));
        proof {
            reveal_strlit(".");
            assert("."@ =~= seq!['.']);
            assert(texts(parts@) =~= seq![
                dec(byte_of(self.bits, 0)),
                dec(byte_of(self.bits, 1)),
                dec(byte_of(self.bits, 2)),
                dec(byte_of(self.bits, 3)),
            ]);
        }
        join(&parts, ".")
    }
}

impl FromStr for Ipv4Addr {
    type Err = AddrError;

    /// Reads a dotted text, as `Ipv4Addr::parse` does.
    fn from_str(s: &str) -> (r: Result<Ipv4Addr, AddrError>)
        ensures
            match r {
                Ok(ip) => ip_of(s@) == Some(ip.bits),
                Err(_) => ip_of(s@) is None,
            },
    {
        match Ipv4Addr::parse(s) {
            Some(ip) => Ok(ip),
            None => Err(AddrError {  }),
        }
    }
}

/// Why `ipnet` takes a text for no network.
#[verifier::external_type_specification]
#[verifier::external_body]
pub struct ExNetParseError(ipnet::AddrParseError);

/// Trusted: `ipnet::Ipv4Net::from_str`, with the address and the prefix length of what it reads.
/// It reads four numbers of one to three digits below 256 with dots between them, leading zeros
/// allowed, then a slash and a number of one or two digits below 33, and nothing after it.
#[verifier::external_body]
fn read_net(s: &str) -> (r: Result<(u32, u8), ipnet::AddrParseError>)
    ensures
        match r {
            Ok(n) => net_of(s@) == Some(n),
            Err(_) => net_of(s@) is None,
        },
{
    let net: ipnet::Ipv4Net = s.parse()?;
    Ok((u32::from(net.addr()), net.prefix_len()))
}

/// Trusted: `ipnet::Ipv4Net::contains`, on the network of an address and a prefix length. An
/// address is in the network where it lies between the network address and the broadcast
/// address, both included: where it has the network's prefix.
#[verifier::external_body]
fn net_contains(addr: u32, prefix: u8, ip: u32) -> (r: bool)
    requires
        prefix <= 32,
    ensures
        r == in_net(addr, prefix, ip),
{
    let net = ipnet::Ipv4Net::new(addr.into(), prefix).unwrap();
    net.contains(&ipnet::Ipv4Net::new(ip.into(), 32).unwrap().addr())
}

/// Trusted: the `Display` of `ipnet::Ipv4Net`, on the network of an address and a prefix length.
/// It writes the address as it is, host bits included, a slash and the prefix length.
#[verifier::external_body]
fn write_net(addr: u32, prefix: u8) -> (r: String)
    requires
        prefix <= 32,
    ensures
        r@ == net_text(addr, prefix),
{
    ipnet::Ipv4Net::new(addr.into(), prefix).unwrap().to_string()
}

/// What a network is: an address of it, and how many leading bits its addresses share.
pub struct NetView {
    pub addr: u32,
    pub prefix: u8,
}

/// An IPv4 network: an address and a prefix length.
#[derive(Debug, Clone, Copy, PartialEq, Eq)]
pub struct Ipv4Net {
    addr: Ipv4Addr,
    prefix: u8,
}

impl View for Ipv4Net {
    type V = NetView;

    closed spec fn view(&self) -> NetView {
        NetView { addr: self.addr.bits, prefix: self.prefix }
    }
}

impl Ipv4Net {
    #[verifier::type_invariant]
    spec fn well_formed(self) -> bool {
        self.prefix <= 32
    }

    /// Reads an address with a prefix length.
    pub fn parse(s: &str) -> (r: Option<Ipv4Net>)
        ensures
            match r {
                Some(n) => net_of(s@) == Some((n@.addr, n@.prefix)),
                None => net_of(s@) is None,
            },
    {
        match read_net(s) {
            Ok((bits, prefix)) => Some(Ipv4Net { addr: Ipv4Addr { bits }, prefix }),
            Err(_) => None,
        }
    }

    /// Whether `ip` lies in the network.
    pub fn contains(&self, ip: Ipv4Addr) -> (r: bool)
        ensures
            r == in_net(self@.addr, self@.prefix, ip.bits),
    {
        proof {
            use_type_invariant(self);
        }
        net_contains(self.addr.bits, self.prefix, ip.bits)
    }

    /// The text of the network.
    pub fn to_string(&self) -> (r: String)
        ensures
            r@ == net_text(self@.addr, self@.prefix),
    {
        proof {
            use_type_invariant(self);
        }
        write_net(self.addr.bits, self.prefix)
    }
}

impl FromStr for Ipv4Net {
    type Err = AddrError;

    /// Reads an address with a prefix length, as `Ipv4Net::parse` does.
    fn from_str(s: &str) -> (r: Result<Ipv4Net, AddrError>)
        ensures
            match r {
                Ok(n) => net_of(s@) == Some((n@.addr, n@.prefix)),
                Err(_) => net_of(s@) is None,
            },
    {
        match Ipv4Net::parse(s) {
            Some(net) => Ok(net),
            None => Err(AddrError {  }),
        }
    }
}

} // verus!
