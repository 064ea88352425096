//! What holds of all addresses: how they are read and written, and which of them lie in a network.
use vstd::arithmetic::power2::pow2;
use vstd::prelude::*;

use crate::addr::{
    byte_of, from_bytes, in_net, ip_of, ip_text, is_byte, law_ip_round_trip, law_ip_text_unique, lemma_bytes,
    lemma_bytes_back, net_of, values,
};
use crate::mac::{are_pairs, bare_mac, hex_digits, is_pair, mac_of, pairs, pasted_mac, with_colons};
use crate::number::{all_digits, dec, lemma_dec_digits, lemma_dec_value, number, value};
use crate::text::{
    is_digit, is_hex, is_white, joined, lemma_join_split, lemma_split_join, lower, lower_ascii, split_first, split_on,
};
use crate::text_laws::{
    all_white, is_tidy, law_divided_in_two, law_divided_is_put_together, law_put_together,
    law_put_together_is_divided, law_trimming_takes_white_space,
};

verus! {

/// Four numbers with points between them.
pub open spec fn dotted(a: nat, b: nat, c: nat, d: nat) -> Seq<char> {
    dec(a) + seq!['.'] + dec(b) + seq!['.'] + dec(c) + seq!['.'] + dec(d)
}

/// An address is four numbers below 256 with points between them; the first counts most.
pub proof fn law_address_is_four_numbers(a: nat, b: nat, c: nat, d: nat)
    requires
        a < 256,
        b < 256,
        c < 256,
        d < 256,
    ensures
        ({
            let bits = 256 * (256 * (256 * a + b) + c) + d;
            &&& bits <= u32::MAX
            &&& ip_text(bits as u32) == dotted(a, b, c, d)
            &&& ip_of(dotted(a, b, c, d)) == Some(bits as u32)
        }),
{
    let bits = 256 * (256 * (256 * a + b) + c) + d;
    assert(from_bytes(seq![a, b, c, d]) == bits);
    lemma_bytes_back(a, b, c, d);
    lemma_dotted(a, b, c, d);
    law_ip_round_trip(bits as u32);
}

proof fn lemma_dotted(a: nat, b: nat, c: nat, d: nat)
    ensures
        joined(seq![dec(a), dec(b), dec(c), dec(d)], seq!['.']) == dotted(a, b, c, d),
{
    reveal_with_fuel(joined, 5);
    let four = seq![dec(a), dec(b), dec(c), dec(d)];
    assert(four.drop_last() =~= seq![dec(a), dec(b), dec(c)]);
    assert(four.drop_last().drop_last() =~= seq![dec(a), dec(b)]);
    assert(four.drop_last().drop_last().drop_last() =~= seq![dec(a)]);
}

/// A network is an address and the number of its leading bits, with a stroke between them.
pub proof fn law_network_is_address_and_prefix(a: nat, b: nat, c: nat, d: nat, prefix: nat)
    requires
        a < 256,
        b < 256,
        c < 256,
        d < 256,
    ensures
        prefix <= 32 ==> net_of(dotted(a, b, c, d) + seq!['/'] + dec(prefix)) == Some(
            ((256 * (256 * (256 * a + b) + c) + d) as u32, prefix as u8),
        ),
        prefix > 32 ==> net_of(dotted(a, b, c, d) + seq!['/'] + dec(prefix)) is None,
{
    let addr = dotted(a, b, c, d);
    let four = seq![dec(a), dec(b), dec(c), dec(d)];
    lemma_dotted(a, b, c, d);
    lemma_dec_digits(a);
    lemma_dec_digits(b);
    lemma_dec_digits(c);
    lemma_dec_digits(d);
    lemma_dec_value(a);
    lemma_dec_value(b);
    lemma_dec_value(c);
    lemma_dec_value(d);
    lemma_dec_digits(prefix);
    lemma_dec_value(prefix);
    assert forall|i: int| 0 <= i < 4 implies is_byte(#[trigger] four[i]) && !four[i].contains('.') && !four[i].contains('/') by {
        lemma_digits_only(four[i]);
    }
    lemma_split_join(four, '.');
    if addr.contains('/') {
        let k = choose|k: int| 0 <= k < addr.len() && addr[k] == '/';
        lemma_digits_only(dec(a));
        lemma_digits_only(dec(b));
        lemma_digits_only(dec(c));
        lemma_digits_only(dec(d));
        lemma_no_stroke(a, b, c, d, k);
    }
    law_divided_in_two(addr, dec(prefix), '/');
    assert(values(four) =~= seq![a, b, c, d]);
    assert(from_bytes(seq![a, b, c, d]) == 256 * (256 * (256 * a + b) + c) + d);
    lemma_bytes_back(a, b, c, d);
}

proof fn lemma_digits_only(s: Seq<char>)
    requires
        all_digits(s),
    ensures
        !s.contains('.'),
        !s.contains('/'),
        !s.contains('-'),
{
    if s.contains('.') {
        let k = choose|k: int| 0 <= k < s.len() && s[k] == '.';
        assert(is_digit(s[k]));
    }
    if s.contains('/') {
        let k = choose|k: int| 0 <= k < s.len() && s[k] == '/';
        assert(is_digit(s[k]));
    }
    if s.contains('-') {
        let k = choose|k: int| 0 <= k < s.len() && s[k] == '-';
        assert(is_digit(s[k]));
    }
}

proof fn lemma_no_stroke(a: nat, b: nat, c: nat, d: nat, k: int)
    requires
        0 <= k < dotted(a, b, c, d).len(),
    ensures
        is_digit(dotted(a, b, c, d)[k]) || dotted(a, b, c, d)[k] == '.',
{
    lemma_dec_digits(a);
    lemma_dec_digits(b);
    lemma_dec_digits(c);
    lemma_dec_digits(d);
    let s = dotted(a, b, c, d);
    let (p, q, r) = (dec(a).len() as int, dec(b).len() as int, dec(c).len() as int);
    if k < p {
        assert(s[k] == dec(a)[k]);
    } else if k == p || k == p + 1 + q || k == p + 2 + q + r {
        assert(s[k] == '.');
    } else if k < p + 1 + q {
        assert(s[k] == dec(b)[k - p - 1]);
    } else if k < p + 2 + q + r {
        assert(s[k] == dec(c)[k - p - q - 2]);
    } else {
        assert(s[k] == dec(d)[k - p - q - r - 3]);
    }
}

/// The addresses of a network follow one another: as many as the bits behind its prefix can tell apart,
/// from the first on, which is a multiple of that number.
pub proof fn law_network_is_a_range(addr: u32, prefix: u8, ip: u32)
    requires
        prefix <= 32,
    ensures
        ({
            let size = pow2((32 - prefix) as nat) as int;
            let first = addr as int - addr as int % size;
            &&& size > 0
            &&& in_net(addr, prefix, ip) <==> first <= ip < first + size
            &&& in_net(addr, prefix, addr)
        }),
{
    let size = pow2((32 - prefix) as nat) as int;
    vstd::arithmetic::power2::lemma_pow2_pos((32 - prefix) as nat);
    let (x, y) = (addr as int, ip as int);
    vstd::arithmetic::div_mod::lemma_fundamental_div_mod(x, size);
    vstd::arithmetic::div_mod::lemma_fundamental_div_mod(y, size);
    vstd::arithmetic::div_mod::lemma_mod_bound(x, size);
    vstd::arithmetic::div_mod::lemma_mod_bound(y, size);
    let (p, q) = (x / size, y / size);
    assert(x - x % size == size * p);
    if p == q {
        assert(size * p == size * q);
    } else if p < q {
        assert(size * q >= size * p + size) by (nonlinear_arith)
            requires
                p < q,
                size > 0,
        ;
    } else {
        assert(size * p >= size * q + size) by (nonlinear_arith)
            requires
                q < p,
                size > 0,
        ;
    }
}

/// Whether a character is a hexadecimal digit.
pub open spec fn is_hex_digit(c: char) -> bool {
    '0' <= c <= '9' || 'a' <= c <= 'f' || 'A' <= c <= 'F'
}

/// Whether a text is six pairs of hexadecimal digits with a character between them.
pub open spec fn has_mac_shape(s: Seq<char>, sep: char) -> bool {
    s.len() == 17 && forall|i: int|
        0 <= i < 17 ==> if i % 3 == 2 {
            #[trigger] s[i] == sep
        } else {
            is_hex_digit(s[i])
        }
}

/// Whether `m` is `s` in small letters, with colons for what stands between the pairs.
pub open spec fn is_spelled_out(s: Seq<char>, m: Seq<char>) -> bool {
    s.len() == 17 && m.len() == 17 && forall|i: int|
        0 <= i < 17 ==> #[trigger] m[i] == if i % 3 == 2 {
            ':'
        } else {
            lower(s[i])
        }
}

/// A hardware address is six pairs of hexadecimal digits, with colons or with hyphens between them, and
/// nothing else is; it is kept in small letters with colons.
pub proof fn law_hardware_address_is_six_pairs(s: Seq<char>)
    ensures
        mac_of(s) is Some <==> has_mac_shape(s, ':') || has_mac_shape(s, '-'),
        mac_of(s) matches Some(m) ==> is_spelled_out(s, m),
{
    if s.contains(':') {
        lemma_separated(s, ':');
    } else if s.contains('-') {
        lemma_separated(s, '-');
    }
    if has_mac_shape(s, ':') {
        assert(s[2] == ':');
        assert(s.contains(':'));
    }
    if has_mac_shape(s, '-') {
        assert(s[2] == '-');
        assert(s.contains('-'));
        if s.contains(':') {
            let k = choose|k: int| 0 <= k < s.len() && s[k] == ':';
            assert(s[k] == '-' || is_hex_digit(s[k]));
        }
    }
    if s.contains(':') && has_mac_shape(s, '-') {
        let k = choose|k: int| 0 <= k < s.len() && s[k] == ':';
        assert(s[k] == '-' || is_hex_digit(s[k]));
    }
}

/// The text of six pairs.
spec fn six(p: Seq<Seq<char>>, sep: char) -> Seq<char> {
    seq![
        p[0][0], p[0][1], sep, p[1][0], p[1][1], sep, p[2][0], p[2][1], sep, p[3][0], p[3][1], sep, p[4][0], p[4][1],
        sep, p[5][0], p[5][1],
    ]
}

proof fn lemma_six(p: Seq<Seq<char>>, sep: char)
    requires
        p.len() == 6,
        forall|i: int| 0 <= i < 6 ==> (#[trigger] p[i]).len() == 2,
    ensures
        joined(p, seq![sep]) == six(p, sep),
{
    reveal_with_fuel(joined, 7);
    assert(p[0].len() == 2 && p[1].len() == 2 && p[2].len() == 2 && p[3].len() == 2 && p[4].len() == 2 && p[5].len()
        == 2);
    let p5 = p.drop_last();
    let p4 = p5.drop_last();
    let p3 = p4.drop_last();
    let p2 = p3.drop_last();
    let p1 = p2.drop_last();
    let d = seq![sep];
    assert(joined(p1, d) =~= p[0]);
    assert(joined(p2, d) =~= p[0] + d + p[1]);
    assert(joined(p3, d) =~= p[0] + d + p[1] + d + p[2]);
    assert(joined(p4, d) =~= p[0] + d + p[1] + d + p[2] + d + p[3]);
    assert(joined(p5, d) =~= p[0] + d + p[1] + d + p[2] + d + p[3] + d + p[4]);
    assert(joined(p, d) =~= p[0] + d + p[1] + d + p[2] + d + p[3] + d + p[4] + d + p[5]);
    assert(joined(p, d) =~= six(p, sep));
}

proof fn lemma_separated(s: Seq<char>, sep: char)
    requires
        sep == ':' || sep == '-',
    ensures
        are_pairs(split_on(s, sep)) <==> has_mac_shape(s, sep),
        are_pairs(split_on(s, sep)) ==> is_spelled_out(s, with_colons(split_on(s, sep))),
{
    let parts = split_on(s, sep);
    if are_pairs(parts) {
        lemma_join_split(s, sep);
        assert forall|i: int| 0 <= i < 6 implies (#[trigger] parts[i]).len() == 2 by {
            assert(is_pair(parts[i]));
        }
        lemma_six(parts, sep);
        lemma_six(parts, ':');
        assert(is_pair(parts[0]) && is_pair(parts[1]) && is_pair(parts[2]) && is_pair(parts[3]) && is_pair(parts[4])
            && is_pair(parts[5]));
        assert(s == six(parts, sep));
        let m = with_colons(parts);
        assert(m == lower_ascii(six(parts, ':')));
        assert forall|i: int| 0 <= i < 17 implies #[trigger] m[i] == (if i % 3 == 2 {
            ':'
        } else {
            lower(s[i])
        }) by {
            assert(m[i] == lower(six(parts, ':')[i]));
        }
    }
    if has_mac_shape(s, sep) {
        let p = Seq::new(6, |i: int| s.subrange(3 * i, 3 * i + 2));
        assert forall|i: int| 0 <= i < 6 implies is_pair(#[trigger] p[i]) && p[i].len() == 2 && !p[i].contains(sep) by {
            assert(p[i][0] == s[3 * i] && p[i][1] == s[3 * i + 1]);
            assert(is_hex_digit(s[3 * i]) && is_hex_digit(s[3 * i + 1]));
        }
        lemma_six(p, sep);
        assert(s[2] == sep && s[5] == sep && s[8] == sep && s[11] == sep && s[14] == sep);
        assert(six(p, sep) =~= s);
        lemma_split_join(p, sep);
    }
}

/// Whether `m` is twelve digits `h` in small letters, with a colon after every second.
pub open spec fn is_spelled_in_pairs(h: Seq<char>, m: Seq<char>) -> bool {
    h.len() == 12 && m.len() == 17 && forall|i: int|
        0 <= i < 17 ==> #[trigger] m[i] == if i % 3 == 2 {
            ':'
        } else {
            lower(h[i - i / 3])
        }
}

/// A pasted hardware address is taken in each of its forms, whatever white space stands around it: six
/// pairs with colons or hyphens, or twelve digits with nothing but white space among them. Nothing else
/// is taken.
pub proof fn law_pasted_hardware_address(a: Seq<char>, t: Seq<char>, b: Seq<char>)
    requires
        all_white(a),
        all_white(b),
        is_tidy(t),
    ensures
        has_mac_shape(t, ':') || has_mac_shape(t, '-') ==> pasted_mac(a + t + b) is Some && is_spelled_out(
            t,
            pasted_mac(a + t + b)->0,
        ),
        is_bare(t) ==> pasted_mac(a + t + b) is Some && is_spelled_in_pairs(
            t.filter(|c: char| is_hex_digit(c)),
            pasted_mac(a + t + b)->0,
        ),
        pasted_mac(a + t + b) is Some ==> has_mac_shape(t, ':') || has_mac_shape(t, '-') || is_bare(t),
{
    law_trimming_takes_white_space(a, t, b);
    law_hardware_address_is_six_pairs(t);
    let h = hex_digits(t);
    assert((|c: char| is_hex(c)) =~= (|c: char| is_hex_digit(c)));
    if is_bare(t) {
        assert(!t.contains(':') && !t.contains('-')) by {
            if t.contains(':') {
                let k = choose|k: int| 0 <= k < t.len() && t[k] == ':';
                assert(is_hex_digit(t[k]) || is_white(t[k]));
            }
            if t.contains('-') {
                let k = choose|k: int| 0 <= k < t.len() && t[k] == '-';
                assert(is_hex_digit(t[k]) || is_white(t[k]));
            }
        }
        let p = pairs(h);
        assert forall|i: int| 0 <= i < 6 implies (#[trigger] p[i]).len() == 2 by {}
        lemma_six(p, ':');
        let m = with_colons(p);
        assert(m == lower_ascii(six(p, ':')));
        assert(p[0][0] == h[0] && p[0][1] == h[1] && p[1][0] == h[2] && p[1][1] == h[3] && p[2][0] == h[4] && p[2][1]
            == h[5] && p[3][0] == h[6] && p[3][1] == h[7] && p[4][0] == h[8] && p[4][1] == h[9] && p[5][0] == h[10]
            && p[5][1] == h[11]);
        assert forall|i: int| 0 <= i < 17 implies #[trigger] m[i] == (if i % 3 == 2 {
            ':'
        } else {
            lower(h[i - i / 3])
        }) by {
            assert(m[i] == lower(six(p, ':')[i]));
        }
    }
    if has_mac_shape(t, ':') {
        assert(t[2] == ':');
        assert(t.contains(':'));
    }
    if has_mac_shape(t, '-') {
        assert(t[2] == '-');
        assert(t.contains('-'));
    }
    if pasted_mac(a + t + b) is Some && !t.contains(':') && !t.contains('-') {
        assert(bare_mac(t) is Some);
        assert forall|i: int| 0 <= i < t.len() implies is_hex_digit(#[trigger] t[i]) || is_white(t[i]) by {
            assert(is_hex(t[i]) || is_white(t[i]));
        }
    }
}

/// Whether a text is twelve hexadecimal digits with nothing but white space among them.
pub open spec fn is_bare(t: Seq<char>) -> bool {
    &&& t.filter(|c: char| is_hex_digit(c)).len() == 12
    &&& forall|i: int| 0 <= i < t.len() ==> is_hex_digit(#[trigger] t[i]) || is_white(t[i])
}

/// Nothing is an address but four numbers below 256 with points between them, as they are written.
pub proof fn law_only_four_numbers_are_an_address(s: Seq<char>)
    requires
        ip_of(s) is Some,
    ensures
        exists|a: nat, b: nat, c: nat, d: nat|
            a < 256 && b < 256 && c < 256 && d < 256 && s == #[trigger] dotted(a, b, c, d),
{
    let bits = ip_of(s)->0;
    law_ip_text_unique(s);
    lemma_bytes(bits);
    let (a, b, c, d) = (byte_of(bits, 0), byte_of(bits, 1), byte_of(bits, 2), byte_of(bits, 3));
    law_address_is_four_numbers(a, b, c, d);
    assert(256 * (256 * (256 * a + b) + c) + d == bits);
    assert(s == dotted(a, b, c, d));
}

/// Whether a text is of digits alone, one at least and so many at most, and the number is no greater than
/// another.
pub open spec fn is_short_number(s: Seq<char>, digits: nat, max: nat) -> bool {
    &&& 1 <= s.len() <= digits
    &&& forall|i: int| 0 <= i < s.len() ==> '0' <= #[trigger] s[i] <= '9'
    &&& number(s, max) is Some
}

/// Whether a text is four numbers with points between them, a stroke, and a prefix.
pub open spec fn is_network(s: Seq<char>, o: Seq<Seq<char>>, p: Seq<char>) -> bool {
    &&& o.len() == 4
    &&& s == o[0] + seq!['.'] + o[1] + seq!['.'] + o[2] + seq!['.'] + o[3] + seq!['/'] + p
    &&& is_short_number(o[0], 3, 255)
    &&& is_short_number(o[1], 3, 255)
    &&& is_short_number(o[2], 3, 255)
    &&& is_short_number(o[3], 3, 255)
    &&& is_short_number(p, 2, 32)
}

/// Nothing is a network but four numbers of three digits at most, with points between them, a stroke, and a
/// prefix of two digits at most.
pub proof fn law_only_address_and_prefix_are_a_network(s: Seq<char>)
    requires
        net_of(s) is Some,
    ensures
        exists|o: Seq<Seq<char>>, p: Seq<char>| #[trigger] is_network(s, o, p),
{
    let (a, p) = split_first(s, '/')->0;
    let o = split_on(a, '.');
    let at = s.index_of_first('/').unwrap();
    s.index_of_first_ensures('/');
    assert(s =~= a + seq!['/'] + p);
    law_divided_is_put_together(a, '.');
    lemma_four_joined(o);
    assert(is_byte(o[0]) && is_byte(o[1]) && is_byte(o[2]) && is_byte(o[3]));
    lemma_short(o[0], 3, 255);
    lemma_short(o[1], 3, 255);
    lemma_short(o[2], 3, 255);
    lemma_short(o[3], 3, 255);
    lemma_short(p, 2, 32);
    assert(is_network(s, o, p));
}

/// Every such text is a network.
pub proof fn law_every_such_text_is_a_network(s: Seq<char>, o: Seq<Seq<char>>, p: Seq<char>)
    requires
        is_network(s, o, p),
    ensures
        net_of(s) is Some,
        net_of(s) matches Some((addr, prefix)) ==> {
            let (a, b, c, d) = (number(o[0], 255)->0, number(o[1], 255)->0, number(o[2], 255)->0, number(o[3], 255)->0);
            addr as nat == 256 * (256 * (256 * a + b) + c) + d && prefix as nat == number(p, 32)->0
        },
{
    let a = o[0] + seq!['.'] + o[1] + seq!['.'] + o[2] + seq!['.'] + o[3];
    lemma_four_joined(o);
    lemma_long(o[0], 255);
    lemma_long(o[1], 255);
    lemma_long(o[2], 255);
    lemma_long(o[3], 255);
    lemma_long(p, 32);
    assert forall|i: int| 0 <= i < o.len() implies !(#[trigger] o[i]).contains('.') && !o[i].contains('/') by {
        assert(all_digits(o[i]));
        lemma_digits_only(o[i]);
    }
    law_put_together_is_divided(o, '.');
    assert(!a.contains('/')) by {
        if a.contains('/') {
            let k = choose|k: int| 0 <= k < a.len() && a[k] == '/';
            let (n0, n1, n2) = (o[0].len() as int, o[1].len() as int, o[2].len() as int);
            if k < n0 {
                assert(o[0][k] == '/');
            } else if n0 < k < n0 + 1 + n1 {
                assert(o[1][k - n0 - 1] == '/');
            } else if n0 + n1 + 1 < k < n0 + n1 + n2 + 2 {
                assert(o[2][k - n0 - n1 - 2] == '/');
            } else if k > n0 + n1 + n2 + 2 {
                assert(o[3][k - n0 - n1 - n2 - 3] == '/');
            }
        }
    }
    law_divided_in_two(a, p, '/');
    assert(split_on(a, '.') == o);
    let v = values(o);
    assert(v =~= seq![value(o[0]), value(o[1]), value(o[2]), value(o[3])]);
    lemma_bytes_back(value(o[0]), value(o[1]), value(o[2]), value(o[3]));
    assert(forall|i: int| 0 <= i < 4 ==> is_byte(#[trigger] o[i]));
}

proof fn lemma_four_joined(o: Seq<Seq<char>>)
    requires
        o.len() == 4,
    ensures
        joined(o, seq!['.']) == o[0] + seq!['.'] + o[1] + seq!['.'] + o[2] + seq!['.'] + o[3],
{
    let dot = seq!['.'];
    let (x, y, z) = (seq![o[0]], seq![o[0], o[1]], seq![o[0], o[1], o[2]]);
    law_put_together(Seq::empty(), o[0], dot);
    law_put_together(x, o[1], dot);
    law_put_together(y, o[2], dot);
    law_put_together(z, o[3], dot);
    assert(x.push(o[1]) =~= y);
    assert(y.push(o[2]) =~= z);
    assert(z.push(o[3]) =~= o);
}

proof fn lemma_short(s: Seq<char>, digits: nat, max: nat)
    requires
        1 <= s.len() <= digits,
        all_digits(s),
        value(s) <= max,
    ensures
        is_short_number(s, digits, max),
{
    assert(is_digit(s[0]));
    assert forall|i: int| 0 <= i < s.len() implies '0' <= #[trigger] s[i] <= '9' by {
        assert(is_digit(s[i]));
    }
}

proof fn lemma_long(s: Seq<char>, max: nat)
    requires
        s.len() > 0,
        forall|i: int| 0 <= i < s.len() ==> '0' <= #[trigger] s[i] <= '9',
        number(s, max) is Some,
    ensures
        all_digits(s),
        value(s) <= max,
        number(s, max) == Some(value(s)),
{
}

} // verus!
