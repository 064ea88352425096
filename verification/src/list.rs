//! The page of a subnet: its reservations, searched, ordered and divided into pages.
use vstd::prelude::*;
use vstd::string::*;
use vstd::utf8::{encode_utf8, is_ascii_chars};

use crate::addr::{byte_of, ip_text, Ipv4Addr};
use crate::domain::{views, Reservation, ReservationView, Subnet, SubnetView};
use crate::error::KeaError;
use crate::file::{
    socket_of, subnet_of, summaries_of, summary_views, ControlSocket, SocketView, SubnetSummary, SummaryView,
};
use crate::html::{
    escape, escaped, page_window, primary, primary_if, sort_hx_vals, sort_vals_text, tab_strip, tab_strip_text,
    url_encoded, urlencode, window_of,
};
use crate::number::{dec, decimal};
use crate::order::{
    arrange, arranged, be, be_bytes, be_limit, keys_of, law_arranged_ascends, law_arranged_keeps_items, law_be_order,
    lemma_places_where, lex_lt, order_of, places_where,
};
use crate::query::{
    is_desc, is_text, list_url, or_empty, subnet_href, subnet_page_url, subnet_path, text_or_empty, th_link, th_text,
    ListQuery, ListQueryView,
};
use crate::state::{banner_text, external_banner_html, AppState, Refresh, StateView};
use crate::text::{
    contains_text, has_text, is_empty, lowercase, opt_text, stands_at, to_lowercase, trim, trimmed,
};

verus! {

/// What is searched for, from the search field: in small letters, without the white space around
/// it.
pub open spec fn needle_of(q: Option<Seq<char>>) -> Seq<char> {
    lowercase(trimmed(text_or_empty(q)))
}

/// What is searched for, from the search field.
pub fn search_needle(q: &Option<String>) -> (r: String)
    ensures
        r@ == needle_of(opt_text(*q)),
{
    to_lowercase(trim(or_empty(q).as_str()).as_str())
}

/// Whether a search finds a row: what is searched for stands in one of its texts. An empty search
/// finds every row.
pub open spec fn found_in(needle: Seq<char>, a: Seq<char>, b: Seq<char>, c: Seq<char>) -> bool {
    needle.len() == 0 || has_text(a, needle) || has_text(b, needle) || has_text(c, needle)
}

/// Whether a search finds a row.
pub fn is_found(needle: &str, a: &str, b: &str, c: &str) -> (r: bool)
    ensures
        r == found_in(needle@, a@, b@, c@),
{
    is_empty(needle) || contains_text(a, needle) || contains_text(b, needle) || contains_text(c, needle)
}

/// Whether a search finds a reservation: by its hardware address, its address or its hostname.
pub open spec fn finds(needle: Seq<char>, r: ReservationView) -> bool {
    found_in(needle, lowercase(r.hw), ip_text(r.ip), lowercase(text_or_empty(r.hostname)))
}

/// The reservations that a search finds.
pub open spec fn finder(needle: Seq<char>) -> spec_fn(ReservationView) -> bool {
    |r: ReservationView| finds(needle, r)
}

/// The places of the reservations that a search finds, in their order.
pub open spec fn found_places(list: Seq<ReservationView>, needle: Seq<char>) -> Seq<usize> {
    places_where(list, finder(needle))
}

/// A number below a thousand in three digits.
pub open spec fn three_digits(n: nat) -> Seq<char> {
    seq![(48 + n / 100) as char, (48 + n / 10 % 10) as char, (48 + n % 10) as char]
}

/// The text of an address with every number in three digits, so that texts are ordered as addresses
/// are.
pub open spec fn padded_ip(bits: u32) -> Seq<char> {
    three_digits(byte_of(bits, 0)) + seq!['.'] + three_digits(byte_of(bits, 1)) + seq!['.'] + three_digits(
        byte_of(bits, 2),
    ) + seq!['.'] + three_digits(byte_of(bits, 3))
}

/// Bytes, or their complements: these are ordered the other way round.
pub open spec fn directed(payload: Seq<u8>, desc: bool) -> Seq<u8> {
    if desc {
        payload.map_values(|b: u8| (255 - b) as u8)
    } else {
        payload
    }
}

/// The key by which a row is ordered: rows that have a value come first, whatever the direction,
/// then the value decides, then the place. A zero byte ends the value, so that a value that is the
/// start of another comes before it, and after it the other way round.
pub open spec fn row_key(present: bool, payload: Seq<u8>, desc: bool, place: nat) -> Seq<u8> {
    seq![if present {
        0u8
    } else {
        1u8
    }] + directed(payload.push(0u8), desc) + be(place, 4)
}

/// The key by which a row is ordered.
pub fn make_row_key(present: bool, payload: &[u8], desc: bool, place: usize) -> (r: Vec<u8>)
    ensures
        r@ == row_key(present, payload@, desc, place as nat),
{
    let mut key: Vec<u8> = Vec::new();
    key.push(
        if present {
            0
        } else {
            1
        },
    );
    let ghost first = key@;
    let ghost all = directed(payload@.push(0u8), desc);
    let mut i: usize = 0;
    assert(key@ =~= first + all.take(0));
    while i < payload.len()
        invariant
            i <= payload@.len(),
            all == directed(payload@.push(0u8), desc),
            key@ == first + all.take(i as int),
        decreases payload@.len() - i,
    {
        let b: u8 = payload[i];
        key.push(
            if desc {
                255 - b
            } else {
                b
            },
        );
        assert(all.take(i + 1) =~= all.take(i as int).push(all[i as int]));
        assert(key@ =~= first + all.take(i + 1));
        i = i + 1;
    }
    key.push(
        if desc {
            255
        } else {
            0
        },
    );
    assert(key@ =~= first + all);
    let mut tail: Vec<u8> = be_bytes(place as u64, 4);
    key.append(&mut tail);
    assert(first =~= seq![if present {
        0u8
    } else {
        1u8
    }]);
    key
}

/// The key by which a reservation is ordered: by its address, its hardware address, or its
/// hostname. One without a hostname comes last.
pub open spec fn reservation_key(r: ReservationView, sort: Seq<char>, desc: bool, place: nat) -> Seq<u8> {
    if sort == "ip-address"@ {
        row_key(true, encode_utf8(padded_ip(r.ip)), desc, place)
    } else if sort == "hw-address"@ {
        row_key(true, encode_utf8(lowercase(r.hw)), desc, place)
    } else {
        match r.hostname {
            Some(h) => row_key(true, encode_utf8(lowercase(h)), desc, place),
            None => row_key(false, Seq::empty(), desc, place),
        }
    }
}

/// Appends a number below a thousand in three digits.
fn push_three(out: &mut String, n: u8)
    ensures
        final(out)@ == old(out)@ + three_digits(n as nat),
{
    let ghost before = out@;
    out.push((48 + n / 100) as char);
    out.push((48 + n / 10 % 10) as char);
    out.push((48 + n % 10) as char);
    assert(out@ =~= before + three_digits(n as nat));
}

/// The text of an address with every number in three digits.
fn pad_ip(ip: Ipv4Addr) -> (r: String)
    ensures
        r@ == padded_ip(ip.bits),
{
    let b: [u8; 4] = ip.octets();
    let mut out: String = String::new();
    push_three(&mut out, b[0]);
    out.push('.');
    push_three(&mut out, b[1]);
    out.push('.');
    push_three(&mut out, b[2]);
    out.push('.');
    push_three(&mut out, b[3]);
    assert(out@ =~= padded_ip(ip.bits));
    out
}

/// Whether one key comes before another, or behind it where the direction is descending.
pub open spec fn in_direction(a: Seq<u8>, b: Seq<u8>, desc: bool) -> bool {
    if desc {
        lex_lt(b, a)
    } else {
        lex_lt(a, b)
    }
}

/// Whether the small letters of one text come before those of another, by their bytes.
pub open spec fn small_before(a: Seq<char>, b: Seq<char>) -> bool {
    lex_lt(encode_utf8(lowercase(a)), encode_utf8(lowercase(b)))
}

/// The key by which a reservation is ordered. A hostname without the zero character stands behind
/// every smaller one where the order is ascending, and before it where it is descending; and so does
/// a hardware address.
pub fn sort_key_bytes(r: &Reservation, sort: &str, desc: bool, orig: usize) -> (key: Vec<u8>)
    ensures
        key@ == reservation_key(r@, sort@, desc, orig as nat),
        sort@ == "hostname"@ && r@.hostname is Some && !r@.hostname->0.contains('\0') ==> forall|
            x: ReservationView,
            i: nat,
        |
            x.hostname is Some && small_before(x.hostname->0, r@.hostname->0) ==> in_direction(
                #[trigger] reservation_key(x, "hostname"@, desc, i),
                key@,
                desc,
            ),
        sort@ == "hw-address"@ && !r@.hw.contains('\0') ==> forall|x: ReservationView, i: nat|
            small_before(x.hw, r@.hw) ==> in_direction(
                #[trigger] reservation_key(x, "hw-address"@, desc, i),
                key@,
                desc,
            ),
{
    proof {
        lemma_field_names();
    }
    if crate::text::same(sort, "ip-address") {
        make_row_key(true, pad_ip(r.ip_address).as_str().as_bytes(), desc, orig)
    } else if crate::text::same(sort, "hw-address") {
        let small: String = to_lowercase(r.hw_address.as_str());
        proof {
            if !small@.contains('\0') {
                assert forall|x: ReservationView, i: nat| small_before(x.hw, r@.hw) implies in_direction(
                    #[trigger] reservation_key(x, "hw-address"@, desc, i),
                    reservation_key(r@, "hw-address"@, desc, orig as nat),
                    desc,
                ) by {
                    lemma_hw_order(x, r@, i, orig as nat);
                }
            }
        }
        make_row_key(true, small.as_str().as_bytes(), desc, orig)
    } else {
        match &r.hostname {
            Some(h) => {
                let small: String = to_lowercase(h.as_str());
                proof {
                    if !small@.contains('\0') {
                        assert forall|x: ReservationView, i: nat|
                            x.hostname is Some && small_before(x.hostname->0, h@) implies in_direction(
                            #[trigger] reservation_key(x, "hostname"@, desc, i),
                            reservation_key(r@, "hostname"@, desc, orig as nat),
                            desc,
                        ) by {
                            lemma_hostname_order(x, r@, i, orig as nat);
                        }
                    }
                }
                make_row_key(true, small.as_str().as_bytes(), desc, orig)
            },
            None => {
                let none: Vec<u8> = Vec::new();
                assert(none@ =~= Seq::<u8>::empty());
                make_row_key(false, none.as_slice(), desc, orig)
            },
        }
    }
}

/// The column that orders the rows, where it is one that can.
pub open spec fn sort_field_of(sort: Option<Seq<char>>) -> Option<Seq<char>> {
    match sort {
        Some(s) => if s == "hw-address"@ || s == "ip-address"@ || s == "hostname"@ {
            Some(s)
        } else {
            None
        },
        None => None,
    }
}

/// The column that orders the rows, where it is one that can.
fn sort_field(sort: &Option<String>) -> (r: Option<String>)
    ensures
        opt_text(r) == sort_field_of(opt_text(*sort)),
{
    match sort {
        Some(s) => {
            if crate::text::same(s.as_str(), "hw-address") || crate::text::same(s.as_str(), "ip-address")
                || crate::text::same(s.as_str(), "hostname") {
                Some(s.clone())
            } else {
                None
            }
        },
        None => None,
    }
}

/// The keys of the rows at some places.
pub open spec fn row_keys(list: Seq<ReservationView>, places: Seq<usize>, sort: Seq<char>, desc: bool) -> Seq<Seq<u8>> {
    places.map_values(|p: usize| reservation_key(list[p as int], sort, desc, p as nat))
}

/// The places of the rows of a list, in the order in which they are shown.
pub open spec fn shown_places(list: Seq<ReservationView>, needle: Seq<char>, sort: Option<Seq<char>>, desc: bool) -> Seq<
    usize,
> {
    let found = found_places(list, needle);
    match sort {
        Some(s) => arranged(found, row_keys(list, found, s, desc)),
        None => found,
    }
}

/// The rows that are shown are those that the search finds, each once, whatever the order.
pub proof fn law_shown_are_the_found(list: Seq<ReservationView>, needle: Seq<char>, sort: Option<Seq<char>>, desc: bool)
    requires
        list.len() <= usize::MAX,
    ensures
        shown_places(list, needle, sort, desc).len() == found_places(list, needle).len(),
        shown_places(list, needle, sort, desc).no_duplicates(),
        forall|p: usize|
            #[trigger] shown_places(list, needle, sort, desc).contains(p) <==> p < list.len() && finds(
                needle,
                list[p as int],
            ),
{
    lemma_places_where(list, finder(needle));
    let found = found_places(list, needle);
    let shown = shown_places(list, needle, sort, desc);
    if sort is Some {
        law_arranged_keeps_items(found, row_keys(list, found, sort->0, desc));
        assert forall|p: usize| #[trigger] shown.contains(p) <==> p < list.len() && finds(needle, list[p as int]) by {
            assert(shown.contains(p) <==> found.contains(p));
        }
    }
}

/// The rows that are shown ascend by their keys.
pub proof fn law_shown_ascend(
    list: Seq<ReservationView>,
    needle: Seq<char>,
    sort: Seq<char>,
    desc: bool,
    i: int,
    j: int,
)
    requires
        list.len() <= usize::MAX,
        0 <= i < j < shown_places(list, needle, Some(sort), desc).len(),
    ensures
        ({
            let shown = shown_places(list, needle, Some(sort), desc);
            let a = reservation_key(list[shown[i] as int], sort, desc, shown[i] as nat);
            let b = reservation_key(list[shown[j] as int], sort, desc, shown[j] as nat);
            a == b || lex_lt(a, b)
        }),
{
    let found = found_places(list, needle);
    lemma_places_where(list, finder(needle));
    let keys = row_keys(list, found, sort, desc);
    law_shown_are_the_found(list, needle, Some(sort), desc);
    law_arranged_ascends(found, keys, i, j);
    let order = order_of(keys);
    assert(keys[order[i] as int] == reservation_key(
        list[found[order[i] as int] as int],
        sort,
        desc,
        found[order[i] as int] as nat,
    ));
    assert(keys[order[j] as int] == reservation_key(
        list[found[order[j] as int] as int],
        sort,
        desc,
        found[order[j] as int] as nat,
    ));
}

/// Three digits as bytes.
spec fn digit_bytes(n: nat) -> Seq<u8> {
    seq![(48 + n / 100) as u8, (48 + n / 10 % 10) as u8, (48 + n % 10) as u8]
}

/// Numbers below a thousand are ordered as their three digits are.
proof fn lemma_digit_bytes(a: nat, b: nat)
    requires
        a < 1000,
        b < 1000,
    ensures
        lex_lt(digit_bytes(a), digit_bytes(b)) <==> a < b,
        digit_bytes(a) == digit_bytes(b) <==> a == b,
{
    reveal_with_fuel(lex_lt, 4);
    let x = digit_bytes(a);
    let y = digit_bytes(b);
    assert(x[0] == 48 + a / 100 && x[1] == 48 + a / 10 % 10 && x[2] == 48 + a % 10);
    assert(y[0] == 48 + b / 100 && y[1] == 48 + b / 10 % 10 && y[2] == 48 + b % 10);
    assert(a == (a / 100) * 100 + (a / 10 % 10) * 10 + a % 10);
    assert(b == (b / 100) * 100 + (b / 10 % 10) * 10 + b % 10);
    assert(x.drop_first()[0] == x[1] && x.drop_first().drop_first()[0] == x[2]);
    assert(y.drop_first()[0] == y[1] && y.drop_first().drop_first()[0] == y[2]);
    if a != b {
        assert(x[0] != y[0] || x[1] != y[1] || x[2] != y[2]);
    }
}

/// The bytes of the padded text of an address.
spec fn padded_bytes(bits: u32) -> Seq<u8> {
    digit_bytes(byte_of(bits, 0)) + (seq![46u8] + digit_bytes(byte_of(bits, 1)) + (seq![46u8] + digit_bytes(
        byte_of(bits, 2),
    ) + (seq![46u8] + digit_bytes(byte_of(bits, 3)))))
}

proof fn lemma_padded_bytes(bits: u32)
    ensures
        encode_utf8(padded_ip(bits)) == padded_bytes(bits),
        padded_bytes(bits).len() == 15,
{
    let (b0, b1, b2, b3) = (byte_of(bits, 0), byte_of(bits, 1), byte_of(bits, 2), byte_of(bits, 3));
    let dot = seq!['.'];
    assert(b0 <= 255 && b1 <= 255 && b2 <= 255 && b3 <= 255);
    lemma_digits_encode(b0);
    lemma_digits_encode(b1);
    lemma_digits_encode(b2);
    lemma_digits_encode(b3);
    assert(is_ascii_chars(dot));
    vstd::utf8::is_ascii_chars_encode_utf8(dot);
    assert(encode_utf8(dot) =~= seq![46u8]);
    let (d0, d1, d2, d3) = (three_digits(b0), three_digits(b1), three_digits(b2), three_digits(b3));
    lemma_encode_concat(d0, dot);
    lemma_encode_concat(d0 + dot, d1);
    lemma_encode_concat(d0 + dot + d1, dot);
    lemma_encode_concat(d0 + dot + d1 + dot, d2);
    lemma_encode_concat(d0 + dot + d1 + dot + d2, dot);
    lemma_encode_concat(d0 + dot + d1 + dot + d2 + dot, d3);
    let (x0, x1, x2, x3) = (digit_bytes(b0), digit_bytes(b1), digit_bytes(b2), digit_bytes(b3));
    let s = seq![46u8];
    assert(x0 + s + x1 + s + x2 + s + x3 =~= x0 + (s + x1 + (s + x2 + (s + x3))));
}

/// Three digits as bytes are three digits as characters.
proof fn lemma_digits_encode(n: nat)
    requires
        n <= 255,
    ensures
        is_ascii_chars(three_digits(n)),
        encode_utf8(three_digits(n)) == digit_bytes(n),
{
    let d = three_digits(n);
    assert(n / 100 <= 2 && n / 10 % 10 <= 9 && n % 10 <= 9);
    assert(d[0] <= '9' && d[1] <= '9' && d[2] <= '9');
    assert(is_ascii_chars(d));
    vstd::utf8::is_ascii_chars_encode_utf8(d);
    assert(d[0] as u8 == digit_bytes(n)[0] && d[1] as u8 == digit_bytes(n)[1] && d[2] as u8 == digit_bytes(n)[2]);
    assert(encode_utf8(d) =~= digit_bytes(n));
}

/// Texts of ASCII characters are encoded one after the other.
proof fn lemma_encode_concat(a: Seq<char>, b: Seq<char>)
    requires
        is_ascii_chars(a),
        is_ascii_chars(b),
    ensures
        is_ascii_chars(a + b),
        encode_utf8(a + b) == encode_utf8(a) + encode_utf8(b),
{
    vstd::utf8::is_ascii_chars_encode_utf8(a);
    vstd::utf8::is_ascii_chars_encode_utf8(b);
    assert(is_ascii_chars(a + b));
    vstd::utf8::is_ascii_chars_encode_utf8(a + b);
    assert forall|i: int| 0 <= i < a.len() + b.len() implies #[trigger] encode_utf8(a + b)[i] == (encode_utf8(a)
        + encode_utf8(b))[i] by {
        assert((a + b)[i] as u8 == encode_utf8(a + b)[i]);
        if i < a.len() {
            assert((a + b)[i] == a[i]);
        } else {
            assert((a + b)[i] == b[i - a.len()]);
        }
    }
    assert(encode_utf8(a + b) =~= encode_utf8(a) + encode_utf8(b));
}

/// Where the parts before decide, they decide; where they are equal, the parts after do.
proof fn lemma_lex_concat(a: Seq<u8>, b: Seq<u8>, x: Seq<u8>, y: Seq<u8>)
    requires
        a.len() == b.len(),
    ensures
        lex_lt(a + x, b + y) == (lex_lt(a, b) || (a == b && lex_lt(x, y))),
{
    crate::order::lemma_lex_total(a, b);
    if a == b {
        crate::order::lemma_lex_prefix(a, x, y);
    } else {
        crate::order::lemma_lex_suffix(a, b, x, y);
    }
}

/// Four parts with a separator between them: the first that differs decides.
proof fn lemma_lex_four(p: Seq<Seq<u8>>, q: Seq<Seq<u8>>, dot: Seq<u8>)
    requires
        p.len() == 4,
        q.len() == 4,
        forall|i: int| 0 <= i < 4 ==> (#[trigger] p[i]).len() == q[i].len(),
    ensures
        lex_lt(
            p[0] + (dot + p[1] + (dot + p[2] + (dot + p[3]))),
            q[0] + (dot + q[1] + (dot + q[2] + (dot + q[3]))),
        ) == (lex_lt(p[0], q[0]) || (p[0] == q[0] && (lex_lt(p[1], q[1]) || (p[1] == q[1] && (lex_lt(p[2], q[2]) || (
        p[2] == q[2] && lex_lt(p[3], q[3]))))))),
{
    assert(p[0].len() == q[0].len() && p[1].len() == q[1].len() && p[2].len() == q[2].len());
    lemma_lex_next(dot, p[1], q[1], dot + p[2] + (dot + p[3]), dot + q[2] + (dot + q[3]));
    lemma_lex_next(dot, p[2], q[2], dot + p[3], dot + q[3]);
    crate::order::lemma_lex_prefix(dot, p[3], q[3]);
    lemma_lex_concat(
        p[0],
        q[0],
        dot + p[1] + (dot + p[2] + (dot + p[3])),
        dot + q[1] + (dot + q[2] + (dot + q[3])),
    );
}

/// A separator before two parts of one length changes nothing.
proof fn lemma_lex_next(dot: Seq<u8>, a: Seq<u8>, b: Seq<u8>, x: Seq<u8>, y: Seq<u8>)
    requires
        a.len() == b.len(),
    ensures
        lex_lt(dot + a + x, dot + b + y) == (lex_lt(a, b) || (a == b && lex_lt(x, y))),
{
    assert(dot + a + x =~= dot + (a + x));
    assert(dot + b + y =~= dot + (b + y));
    crate::order::lemma_lex_prefix(dot, a + x, b + y);
    lemma_lex_concat(a, b, x, y);
}

/// Addresses are ordered as their padded texts are.
proof fn lemma_padded_order(a: u32, b: u32)
    ensures
        lex_lt(padded_bytes(a), padded_bytes(b)) <==> a < b,
{
    let p = Seq::new(4, |i: int| digit_bytes(byte_of(a, i)));
    let q = Seq::new(4, |i: int| digit_bytes(byte_of(b, i)));
    assert forall|i: int| 0 <= i < 4 implies (#[trigger] p[i]).len() == q[i].len() by {}
    lemma_lex_four(p, q, seq![46u8]);
    lemma_digit_bytes(byte_of(a, 0), byte_of(b, 0));
    lemma_digit_bytes(byte_of(a, 1), byte_of(b, 1));
    lemma_digit_bytes(byte_of(a, 2), byte_of(b, 2));
    lemma_digit_bytes(byte_of(a, 3), byte_of(b, 3));
    lemma_number_order(a, b);
}

/// Numbers are ordered as their bytes are.
proof fn lemma_number_order(a: u32, b: u32)
    ensures
        a < b <==> (byte_of(a, 0) < byte_of(b, 0) || (byte_of(a, 0) == byte_of(b, 0) && (byte_of(a, 1) < byte_of(b, 1)
            || (byte_of(a, 1) == byte_of(b, 1) && (byte_of(a, 2) < byte_of(b, 2) || (byte_of(a, 2) == byte_of(b, 2)
            && byte_of(a, 3) < byte_of(b, 3))))))),
{
    assert(a as nat == byte_of(a, 0) * 0x1000000 + byte_of(a, 1) * 0x10000 + byte_of(a, 2) * 0x100 + byte_of(a, 3));
    assert(b as nat == byte_of(b, 0) * 0x1000000 + byte_of(b, 1) * 0x10000 + byte_of(b, 2) * 0x100 + byte_of(b, 3));
}

/// Whether two strings differ at a place that both have: neither is the start of the other.
pub open spec fn parted(a: Seq<u8>, b: Seq<u8>) -> bool {
    exists|k: int| 0 <= k < a.len() && k < b.len() && (#[trigger] a[k]) != b[k]
}

/// Strings of one length that differ are parted.
pub proof fn lemma_same_length_parts(a: Seq<u8>, b: Seq<u8>)
    requires
        a.len() == b.len(),
        a != b,
    ensures
        parted(a, b),
{
    if !parted(a, b) {
        assert(a =~= b);
    }
}

/// What follows parted strings does not change their order, and their complements are ordered the
/// other way round.
proof fn lemma_parted_order(a: Seq<u8>, b: Seq<u8>, x: Seq<u8>, y: Seq<u8>)
    requires
        parted(a, b),
    ensures
        lex_lt(a + x, b + y) == lex_lt(a, b),
        lex_lt(directed(a, true) + x, directed(b, true) + y) == lex_lt(b, a),
    decreases a.len(),
{
    let (p, q) = (directed(a, true), directed(b, true));
    let k = choose|k: int| 0 <= k < a.len() && k < b.len() && (#[trigger] a[k]) != b[k];
    if a[0] == b[0] {
        let (c, d) = (a.drop_first(), b.drop_first());
        assert(c[k - 1] != d[k - 1]);
        lemma_parted_order(c, d, x, y);
        assert((a + x).drop_first() =~= c + x);
        assert((b + y).drop_first() =~= d + y);
        assert((p + x).drop_first() =~= directed(c, true) + x);
        assert((q + y).drop_first() =~= directed(d, true) + y);
    } else {
        assert((a + x)[0] == a[0] && (b + y)[0] == b[0]);
        assert((p + x)[0] == 255 - a[0] && (q + y)[0] == 255 - b[0]);
    }
}

/// Whether bytes hold no zero.
pub open spec fn zero_free(b: Seq<u8>) -> bool {
    forall|k: int| 0 <= k < b.len() ==> (#[trigger] b[k]) > 0
}

/// Values that end in a zero byte are parted, and ordered as they are without it.
proof fn lemma_ended_parts(a: Seq<u8>, b: Seq<u8>)
    requires
        lex_lt(a, b),
        parted(a, b) || zero_free(b),
    ensures
        parted(a.push(0), b.push(0)),
        lex_lt(a.push(0), b.push(0)),
{
    let (x, y) = (a.push(0), b.push(0));
    if parted(a, b) {
        let k = choose|k: int| 0 <= k < a.len() && k < b.len() && (#[trigger] a[k]) != b[k];
        assert(x[k] != y[k]);
        lemma_parted_order(a, b, seq![0u8], seq![0u8]);
        assert(x =~= a + seq![0u8]);
        assert(y =~= b + seq![0u8]);
    } else {
        let none = Seq::<u8>::empty();
        if a.len() >= b.len() {
            assert(a =~= b + a.skip(b.len() as int));
            assert(b =~= b + none);
            crate::order::lemma_lex_prefix(b, a.skip(b.len() as int), none);
        }
        let rest = b.skip(a.len() as int).push(0);
        assert(y =~= a + rest);
        assert(x =~= a + seq![0u8]);
        assert(rest[0] == b[a.len() as int]);
        assert(x[a.len() as int] != y[a.len() as int]);
        assert(lex_lt(seq![0u8], rest));
        crate::order::lemma_lex_prefix(a, seq![0u8], rest);
    }
}

/// Values decide the order of two rows that have one, and descending is the reverse of ascending. That
/// holds of all values without a zero byte, and of others where neither is the start of the other.
pub proof fn law_values_decide(a: Seq<u8>, b: Seq<u8>, i: nat, j: nat)
    requires
        lex_lt(a, b),
        parted(a, b) || zero_free(b),
    ensures
        lex_lt(row_key(true, a, false, i), row_key(true, b, false, j)),
        lex_lt(row_key(true, b, true, j), row_key(true, a, true, i)),
{
    lemma_ended_parts(a, b);
    let one = seq![0u8];
    let (p, q) = (a.push(0), b.push(0));
    let k = choose|k: int| 0 <= k < p.len() && k < q.len() && (#[trigger] p[k]) != q[k];
    assert(q[k] != p[k]);
    lemma_parted_order(p, q, be(i, 4), be(j, 4));
    lemma_parted_order(q, p, be(j, 4), be(i, 4));
    let (x, y) = (directed(p, true), directed(q, true));
    crate::order::lemma_lex_prefix(one, p + be(i, 4), q + be(j, 4));
    crate::order::lemma_lex_prefix(one, y + be(j, 4), x + be(i, 4));
    assert(row_key(true, a, false, i) =~= one + (p + be(i, 4)));
    assert(row_key(true, b, false, j) =~= one + (q + be(j, 4)));
    assert(row_key(true, a, true, i) =~= one + (x + be(i, 4)));
    assert(row_key(true, b, true, j) =~= one + (y + be(j, 4)));
}

/// Rows with one value, or without one, keep the order of their places, in either direction, as long
/// as there are no more rows than four bytes count.
pub proof fn law_place_decides(present: bool, payload: Seq<u8>, desc: bool, i: nat, j: nat)
    requires
        i < j < 0x1_0000_0000,
    ensures
        lex_lt(row_key(present, payload, desc, i), row_key(present, payload, desc, j)),
{
    reveal_with_fuel(be_limit, 5);
    law_be_order(i, j, 4);
    let start = seq![if present {
        0u8
    } else {
        1u8
    }] + directed(payload.push(0u8), desc);
    crate::order::lemma_lex_prefix(start, be(i, 4), be(j, 4));
}

/// The bytes of a character that is not the zero character are not zero.
proof fn lemma_scalar_zero_free(c: u32)
    requires
        c > 0,
    ensures
        zero_free(vstd::utf8::encode_scalar(c)),
{
    let (x, y, z) = (((c >> 6) & 0x1F) as u8, ((c >> 12) & 0x0F) as u8, ((c >> 18) & 0x7) as u8);
    let (p, q, r) = ((c & 0x3F) as u8, ((c >> 6) & 0x3F) as u8, ((c >> 12) & 0x3F) as u8);
    assert(0 < c <= 0x7f ==> (c & 0x7F) as u8 > 0) by (bit_vector);
    assert(0xC0 | x > 0 && 0xE0 | y > 0 && 0xF0 | z > 0) by (bit_vector);
    assert(0x80 | p > 0 && 0x80 | q > 0 && 0x80 | r > 0) by (bit_vector);
}

/// The bytes of a text without the zero character are not zero.
pub proof fn lemma_text_zero_free(s: Seq<char>)
    requires
        !s.contains('\0'),
    ensures
        zero_free(encode_utf8(s)),
    decreases s.len(),
{
    if s.len() > 0 {
        let rest = s.drop_first();
        assert forall|i: int| 0 <= i < rest.len() implies rest[i] != '\0' by {
            assert(rest[i] == s[i + 1]);
            assert(s.contains(s[i + 1]));
        }
        lemma_text_zero_free(rest);
        assert(s.contains(s[0]));
        let c = s[0];
        vstd::utf8::char_u32_cast(c, c as u32);
        assert('\0' as u32 == 0);
        assert(c as u32 > 0);
        lemma_scalar_zero_free(c as u32);
    }
}

/// Hostnames decide the order of two rows that have one, by the bytes of their small letters, and
/// descending is the reverse of ascending.
pub proof fn lemma_hostname_order(x: ReservationView, y: ReservationView, i: nat, j: nat)
    requires
        x.hostname is Some,
        y.hostname is Some,
        !lowercase(y.hostname->0).contains('\0'),
        small_before(x.hostname->0, y.hostname->0),
    ensures
        lex_lt(reservation_key(x, "hostname"@, false, i), reservation_key(y, "hostname"@, false, j)),
        lex_lt(reservation_key(y, "hostname"@, true, j), reservation_key(x, "hostname"@, true, i)),
{
    lemma_field_names();
    lemma_text_zero_free(lowercase(y.hostname->0));
    law_values_decide(encode_utf8(lowercase(x.hostname->0)), encode_utf8(lowercase(y.hostname->0)), i, j);
}

/// Hardware addresses decide the order of two rows in the same way.
pub proof fn lemma_hw_order(x: ReservationView, y: ReservationView, i: nat, j: nat)
    requires
        !lowercase(y.hw).contains('\0'),
        small_before(x.hw, y.hw),
    ensures
        lex_lt(reservation_key(x, "hw-address"@, false, i), reservation_key(y, "hw-address"@, false, j)),
        lex_lt(reservation_key(y, "hw-address"@, true, j), reservation_key(x, "hw-address"@, true, i)),
{
    lemma_field_names();
    lemma_text_zero_free(lowercase(y.hw));
    law_values_decide(encode_utf8(lowercase(x.hw)), encode_utf8(lowercase(y.hw)), i, j);
}

/// The names of the columns are different names.
pub proof fn lemma_field_names()
    ensures
        "hostname"@ != "ip-address"@,
        "hostname"@ != "hw-address"@,
        "hw-address"@ != "ip-address"@,
{
    reveal_strlit("hostname");
    reveal_strlit("ip-address");
    reveal_strlit("hw-address");
    assert("hostname"@.len() == 8 && "ip-address"@[0] == 'i' && "hw-address"@[0] == 'h');
}

/// No two rows have the same key, as long as there are no more rows than four bytes count: their
/// order never depends on how they are sorted.
pub proof fn law_keys_are_unique(
    present: (bool, bool),
    payload: (Seq<u8>, Seq<u8>),
    desc: bool,
    i: nat,
    j: nat,
)
    requires
        i < 0x1_0000_0000,
        j < 0x1_0000_0000,
        row_key(present.0, payload.0, desc, i) == row_key(present.1, payload.1, desc, j),
    ensures
        i == j,
{
    reveal_with_fuel(be_limit, 5);
    law_be_order(i, j, 4);
    let p = row_key(present.0, payload.0, desc, i);
    let q = row_key(present.1, payload.1, desc, j);
    assert(p.skip(p.len() - 4) =~= be(i, 4));
    assert(q.skip(q.len() - 4) =~= be(j, 4));
}

/// The order by address is the order of the addresses as numbers, in either direction.
pub proof fn law_address_order_is_numeric(a: ReservationView, b: ReservationView, i: nat, j: nat)
    requires
        a.ip < b.ip,
    ensures
        lex_lt(reservation_key(a, "ip-address"@, false, i), reservation_key(b, "ip-address"@, false, j)),
        lex_lt(reservation_key(b, "ip-address"@, true, j), reservation_key(a, "ip-address"@, true, i)),
{
    lemma_padded_bytes(a.ip);
    lemma_padded_bytes(b.ip);
    lemma_padded_order(a.ip, b.ip);
    crate::order::lemma_lex_total(padded_bytes(a.ip), padded_bytes(b.ip));
    lemma_same_length_parts(padded_bytes(a.ip), padded_bytes(b.ip));
    law_values_decide(padded_bytes(a.ip), padded_bytes(b.ip), i, j);
}

/// A reservation without a hostname comes after all that have one, in either direction.
pub proof fn law_no_hostname_comes_last(a: ReservationView, b: ReservationView, desc: bool, i: nat, j: nat)
    requires
        a.hostname is Some,
        b.hostname is None,
    ensures
        lex_lt(reservation_key(a, "hostname"@, desc, i), reservation_key(b, "hostname"@, desc, j)),
{
    lemma_field_names();
}

/// A row of the list: a reservation, and the buttons that edit and delete the entry at its place.
pub open spec fn row_text(idx: nat, place: nat, r: ReservationView) -> Seq<char> {
    r#"<tr>
<td>"#@ + dec(place + 1) + "</td><td>"@ + escaped(r.hw) + "</td><td>"@ + ip_text(r.ip) + "</td><td>"@ + escaped(text_or_empty(r.hostname)) + r#"</td>
<td>
<a class="btn" href="/subnet/"#@ + dec(idx) + "/res/"@ + dec(place) + r#"/edit">編輯</a>
<button class="btn" hx-post="/subnet/"#@ + dec(idx) + "/res/"@ + dec(place) + r#"/delete" hx-confirm="確定刪除 "#@ + escaped(r.hw) + r#"？" hx-target="body" hx-swap="outerHTML">刪除</button>
</td>
</tr>"#@
}

/// A row of the list.
fn row_html(idx: usize, place: usize, r: &Reservation) -> (res: String)
    requires
        place < usize::MAX,
    ensures
        res@ == row_text(idx as nat, place as nat, r@),
{
    let subnet: String = decimal(idx as u64);
    let number: String = decimal(place as u64);
    let hw: String = escape(r.hw_address.as_str());
    let mut out: String = r#"<tr>
<td>"#.to_owned();
    out.append(decimal(place as u64 + 1).as_str());
    out.append("</td><td>");
    out.append(hw.as_str());
    out.append("</td><td>");
    out.append(r.ip_address.to_string().as_str());
    out.append("</td><td>");
    out.append(escape(or_empty(&r.hostname).as_str()).as_str());
    out.append(r#"</td>
<td>
<a class="btn" href="/subnet/"#);
    out.append(subnet.as_str());
    out.append("/res/");
    out.append(number.as_str());
    out.append(r#"/edit">編輯</a>
<button class="btn" hx-post="/subnet/"#);
    out.append(subnet.as_str());
    out.append("/res/");
    out.append(number.as_str());
    out.append(r#"/delete" hx-confirm="確定刪除 "#);
    out.append(hw.as_str());
    out.append(r#"？" hx-target="body" hx-swap="outerHTML">刪除</button>
</td>
</tr>"#);
    out
}

/// The rows at some places.
pub open spec fn rows_text(idx: nat, list: Seq<ReservationView>, places: Seq<usize>) -> Seq<char>
    decreases places.len(),
{
    if places.len() == 0 {
        Seq::empty()
    } else {
        rows_text(idx, list, places.drop_last()) + row_text(
            idx,
            places.last() as nat,
            list[places.last() as int],
        )
    }
}

/// The rows at the places `start..end` of those that are shown.
fn rows_html(idx: usize, list: &Vec<Reservation>, places: &Vec<usize>, start: usize, end: usize) -> (r: String)
    requires
        start <= end <= places@.len(),
        forall|i: int| 0 <= i < places@.len() ==> (#[trigger] places@[i]) < list@.len(),
    ensures
        r@ == rows_text(idx as nat, views(list@), places@.subrange(start as int, end as int)),
{
    let ghost all = views(list@);
    let mut out: String = String::new();
    let mut i: usize = start;
    assert(places@.subrange(start as int, start as int) =~= Seq::<usize>::empty());
    while i < end
        invariant
            start <= i <= end <= places@.len(),
            all == views(list@),
            forall|i: int| 0 <= i < places@.len() ==> (#[trigger] places@[i]) < list@.len(),
            out@ == rows_text(idx as nat, all, places@.subrange(start as int, i as int)),
        decreases end - i,
    {
        let ghost shown = places@.subrange(start as int, i + 1);
        assert(shown.drop_last() =~= places@.subrange(start as int, i as int));
        assert(shown.last() == places@[i as int]);
        let place: usize = places[i];
        assert(all[place as int] == list@[place as int]@);
        let n: usize = list.len();
        out.append(row_html(idx, place, &list[place]).as_str());
        i = i + 1;
    }
    out
}

/// What keeps a search in a link.
pub open spec fn search_suffix(needle: Seq<char>) -> Seq<char> {
    if needle.len() == 0 {
        Seq::empty()
    } else {
        "&q="@ + url_encoded(needle)
    }
}

/// The links to the first `n` pages.
pub open spec fn links_text(idx: nat, n: nat, current: nat, needle: Seq<char>) -> Seq<char>
    decreases n,
{
    if n == 0 {
        Seq::empty()
    } else {
        links_text(idx, (n - 1) as nat, current, needle) + (r#"<a class="btn"#@ + primary_if(n - 1 == current) + r#"" href="/subnet/"#@ + dec(idx) + "?page="@ + dec((n - 1) as nat) + search_suffix(needle) + r#"">"#@ + dec(n) + "</a> "@)
    }
}

/// The links to the pages; none where there is one page.
pub open spec fn pager_text(idx: nat, pages: nat, current: nat, needle: Seq<char>) -> Seq<char> {
    if pages > 1 {
        links_text(idx, pages, current, needle)
    } else {
        Seq::empty()
    }
}

/// The link to a page.
fn page_link(idx: usize, p: usize, current: usize, needle: &str) -> (r: String)
    requires
        p < usize::MAX,
    ensures
        r@ == (r#"<a class="btn"#@ + primary_if(p == current) + r#"" href="/subnet/"#@ + dec(idx as nat) + "?page="@ + dec(p as nat) + search_suffix(needle@) + r#"">"#@ + dec((p + 1) as nat) + "</a> "@),
{
    let subnet: String = decimal(idx as u64);
    let sep: String = if is_empty(needle) {
        String::new()
    } else {
        let mut text: String = "&q=".to_owned();
        text.append(urlencode(needle).as_str());
        text
    };
    let mut out: String = r#"<a class="btn"#.to_owned();
    out.append(primary(p == current));
    out.append(r#"" href="/subnet/"#);
    out.append(subnet.as_str());
    out.append("?page=");
    out.append(decimal(p as u64).as_str());
    out.append(sep.as_str());
    out.append(r#"">"#);
    out.append(decimal(p as u64 + 1).as_str());
    out.append("</a> ");
    out
}

/// The links to the pages.
fn pager_html(idx: usize, pages: usize, current: usize, needle: &str) -> (r: String)
    ensures
        r@ == pager_text(idx as nat, pages as nat, current as nat, needle@),
{
    let mut out: String = String::new();
    if pages > 1 {
        let mut p: usize = 0;
        while p < pages
            invariant
                p <= pages,
                out@ == links_text(idx as nat, p as nat, current as nat, needle@),
            decreases pages - p,
        {
            out.append(page_link(idx, p, current, needle).as_str());
            p = p + 1;
        }
    }
    out
}

/// A subnet in the dialog that changes to another one.
pub open spec fn dialog_item(s: SummaryView, current: nat) -> Seq<char> {
    r#"<li><a class="btn"#@ + primary_if(s.index == current) + r#"" href="/subnet/"#@ + dec(s.index) + r#"">Subnet "#@ + dec(s.index) + " — "@ + s.cidr + "（"@ + dec(s.reservation_count) + " 筆）</a></li>"@
}

/// The subnets in the dialog.
pub open spec fn dialog_items(subnets: Seq<SummaryView>, current: nat) -> Seq<char>
    decreases subnets.len(),
{
    if subnets.len() == 0 {
        Seq::empty()
    } else {
        dialog_items(subnets.drop_last(), current) + dialog_item(subnets.last(), current)
    }
}

/// The dialog that changes to another subnet; it opens by itself where it is told to and there is a
/// choice.
pub open spec fn dialog_text(subnets: Seq<SummaryView>, current: nat, auto_open: bool) -> Seq<char> {
    let script = if auto_open {
        "if (document.querySelectorAll('#subnet-dialog li').length > 1) { document.getElementById('subnet-dialog').showModal(); }"@
    } else {
        ""@
    };
    r#"<dialog id="subnet-dialog">
<p><strong>選擇要編修的 subnet</strong></p>
<ul style="list-style:none;padding:0">"#@ + dialog_items(subnets, current) + r#"</ul>
<button class="btn" onclick="document.getElementById('subnet-dialog').close()">取消</button>
</dialog>
<script>"#@ + script + "</script>"@
}

/// A subnet in the dialog.
fn subnet_item(s: &SubnetSummary, current: usize) -> (r: String)
    ensures
        r@ == dialog_item(s@, current as nat),
{
    let number: String = decimal(s.index as u64);
    let mut out: String = r#"<li><a class="btn"#.to_owned();
    out.append(primary(s.index == current));
    out.append(r#"" href="/subnet/"#);
    out.append(number.as_str());
    out.append(r#"">Subnet "#);
    out.append(number.as_str());
    out.append(" — ");
    out.append(s.cidr.as_str());
    out.append("（");
    out.append(decimal(s.reservation_count as u64).as_str());
    out.append(" 筆）</a></li>");
    out
}

/// The dialog that changes to another subnet.
pub fn subnet_dialog(subnets: &[SubnetSummary], current: usize, auto_open: bool) -> (r: String)
    ensures
        r@ == dialog_text(summary_views(subnets@), current as nat, auto_open),
{
    let ghost all = summary_views(subnets@);
    let mut items: String = String::new();
    let mut i: usize = 0;
    while i < subnets.len()
        invariant
            i <= subnets@.len(),
            all == summary_views(subnets@),
            items@ == dialog_items(all.take(i as int), current as nat),
        decreases subnets@.len() - i,
    {
        assert(all.take(i + 1).drop_last() =~= all.take(i as int));
        assert(all.take(i + 1).last() == subnets@[i as int]@);
        items.append(subnet_item(&subnets[i], current).as_str());
        i = i + 1;
    }
    assert(all.take(all.len() as int) =~= all);
    let script: &str = if auto_open {
        "if (document.querySelectorAll('#subnet-dialog li').length > 1) { document.getElementById('subnet-dialog').showModal(); }"
    } else {
        ""
    };
    let mut out: String = r#"<dialog id="subnet-dialog">
<p><strong>選擇要編修的 subnet</strong></p>
<ul style="list-style:none;padding:0">"#.to_owned();
    out.append(items.as_str());
    out.append(r#"</ul>
<button class="btn" onclick="document.getElementById('subnet-dialog').close()">取消</button>
</dialog>
<script>"#);
    out.append(script);
    out.append("</script>");
    out
}

/// The badge that says how many changes are not applied yet; none where there are none.
pub open spec fn pending_text(pending: u64) -> Seq<char> {
    if pending > 0 {
        r#"<span id="pending-badge" class="badge">"#@ + dec(pending as nat) + " 筆變更尚未套用</span>"@
    } else {
        Seq::empty()
    }
}

/// The badge that says how many changes are not applied yet.
fn pending_badge(pending: u64) -> (r: String)
    ensures
        r@ == pending_text(pending),
{
    if pending > 0 {
        let mut out: String = r#"<span id="pending-badge" class="badge">"#.to_owned();
        out.append(decimal(pending).as_str());
        out.append(" 筆變更尚未套用</span>");
        out
    } else {
        String::new()
    }
}

/// The warning about a hostname that others have too.
pub open spec fn warn_text(hostname: Option<Seq<char>>) -> Seq<char> {
    match hostname {
        Some(h) => r#"<p class="warn">⚠ hostname「"#@ + escaped(h) + "」與其他 reservation 重複（未擋，僅提醒）</p>"@,
        None => Seq::empty(),
    }
}

/// The warning about a hostname that others have too.
fn warn_html(hostname: &Option<String>) -> (r: String)
    ensures
        r@ == warn_text(opt_text(*hostname)),
{
    match hostname {
        Some(h) => {
            let mut out: String = r#"<p class="warn">⚠ hostname「"#.to_owned();
            out.append(escape(h.as_str()).as_str());
            out.append("」與其他 reservation 重複（未擋，僅提醒）</p>");
            out
        },
        None => String::new(),
    }
}

/// Whether the button that applies the changes is off: there is no control socket, or nothing waits.
pub open spec fn apply_is_off(socket: Option<SocketView>, pending: u64) -> bool {
    socket is None || pending == 0
}

/// The button that applies the changes. Where there is no control socket, it says so.
pub open spec fn apply_button(socket: Option<SocketView>, pending: u64) -> Seq<char> {
    r#"<button class="btn primary""#@ + (if apply_is_off(socket, pending) {
        " disabled"@
    } else {
        ""@
    }) + r##" hx-post="/apply" hx-target="#apply-result" hx-swap="innerHTML" title=""##@ + (if socket is None {
        "設定檔未宣告 control-socket，無法套用"@
    } else {
        ""@
    }) + r#"">套用設定</button>"#@
}

/// The button that applies the changes.
fn apply_html(socket: &Option<ControlSocket>, pending: u64) -> (r: String)
    ensures
        r@ == apply_button(
            (match *socket {
                Some(cs) => Some(cs@),
                None => None,
            }),
            pending,
        ),
{
    let (off, hint): (bool, &str) = match socket {
        None => (true, "設定檔未宣告 control-socket，無法套用"),
        Some(_) => (pending == 0, ""),
    };
    let mut out: String = r#"<button class="btn primary""#.to_owned();
    out.append(
        if off {
            " disabled"
        } else {
            ""
        },
    );
    out.append(r##" hx-post="/apply" hx-target="#apply-result" hx-swap="innerHTML" title=""##);
    out.append(hint);
    out.append(r#"">套用設定</button>"#);
    out
}

/// What was searched for, in words.
pub open spec fn match_text(needle: Seq<char>) -> Seq<char> {
    if needle.len() == 0 {
        Seq::empty()
    } else {
        "「"@ + escaped(needle) + "」"@
    }
}

/// What was searched for, in words.
pub fn match_phrase(needle: &str) -> (r: String)
    ensures
        r@ == match_text(needle@),
{
    if is_empty(needle) {
        String::new()
    } else {
        let mut out: String = "「".to_owned();
        out.append(escape(needle).as_str());
        out.append("」");
        out
    }
}

/// Which page is shown, in words; nothing for a search.
pub open spec fn pages_text(needle: Seq<char>, current: nat, pages: nat) -> Seq<char> {
    if needle.len() > 0 {
        Seq::empty()
    } else {
        "（第 "@ + dec(current + 1) + " / "@ + dec(pages) + " 頁）"@
    }
}

/// Which page is shown, in words; nothing for a search.
pub fn page_phrase(needle: &str, current: usize, pages: usize) -> (r: String)
    requires
        current < u64::MAX,
    ensures
        r@ == pages_text(needle@, current as nat, pages as nat),
{
    if is_empty(needle) {
        let mut out: String = "（第 ".to_owned();
        out.append(decimal(current as u64 + 1).as_str());
        out.append(" / ");
        out.append(decimal(pages as u64).as_str());
        out.append(" 頁）");
        out
    } else {
        String::new()
    }
}

/// The heads of the columns.
pub open spec fn heads_text(idx: nat, sort: Option<Seq<char>>, dir: Option<Seq<char>>) -> Seq<char> {
    th_text("hw-address"@, "hw-address"@, idx, sort, dir) + th_text("ip-address"@, "ip-address"@, idx, sort, dir)
        + th_text("hostname"@, "hostname"@, idx, sort, dir)
}

/// The places of the reservations that a search finds.
fn find_places(list: &Vec<Reservation>, needle: &str) -> (r: Vec<usize>)
    ensures
        r@ == found_places(views(list@), needle@),
{
    let ghost all = views(list@);
    let mut out: Vec<usize> = Vec::new();
    let mut i: usize = 0;
    assert(out@ =~= found_places(all.take(0), needle@));
    while i < list.len()
        invariant
            i <= list@.len(),
            all == views(list@),
            out@ == found_places(all.take(i as int), needle@),
        decreases list@.len() - i,
    {
        assert(all.take(i + 1).drop_last() =~= all.take(i as int));
        assert(all.take(i + 1).last() == list@[i as int]@);
        let r: &Reservation = &list[i];
        let hw: String = to_lowercase(r.hw_address.as_str());
        let ip: String = r.ip_address.to_string();
        let host: String = to_lowercase(or_empty(&r.hostname).as_str());
        if is_found(needle, hw.as_str(), ip.as_str(), host.as_str()) {
            out.push(i);
        }
        i = i + 1;
    }
    assert(all.take(all.len() as int) =~= all);
    out
}

/// The places of the rows of a list, in the order in which they are shown.
pub fn order_places(list: &Vec<Reservation>, needle: &str, sort: &Option<String>, desc: bool) -> (r: Vec<usize>)
    ensures
        r@ == shown_places(views(list@), needle@, opt_text(*sort), desc),
        forall|i: int| 0 <= i < r@.len() ==> (#[trigger] r@[i]) < list@.len(),
        r@.len() <= list@.len(),
{
    let ghost all = views(list@);
    let n: usize = list.len();
    proof {
        law_shown_are_the_found(all, needle@, opt_text(*sort), desc);
        lemma_places_where(all, finder(needle@));
    }
    let found: Vec<usize> = find_places(list, needle);
    assert forall|i: int| 0 <= i < found@.len() implies (#[trigger] found@[i]) < list@.len() by {
        assert(found@.contains(found@[i]));
    }
    let field: &String = match sort {
        Some(s) => s,
        None => {
            return found;
        },
    };
    let mut keys: Vec<Vec<u8>> = Vec::new();
    let ghost wanted = row_keys(all, found@, field@, desc);
    let mut i: usize = 0;
    assert(keys_of(keys@) =~= wanted.take(0));
    while i < found.len()
        invariant
            i <= found@.len(),
            all == views(list@),
            wanted == row_keys(all, found@, field@, desc),
            forall|i: int| 0 <= i < found@.len() ==> (#[trigger] found@[i]) < list@.len(),
            keys_of(keys@) == wanted.take(i as int),
        decreases found@.len() - i,
    {
        let ghost before = keys@;
        let place: usize = found[i];
        assert(all[place as int] == list@[place as int]@);
        let key: Vec<u8> = sort_key_bytes(&list[place], field.as_str(), desc, place);
        keys.push(key);
        assert(keys_of(keys@) =~= keys_of(before).push(key@));
        assert(wanted.take(i + 1) =~= wanted.take(i as int).push(wanted[i as int]));
        i = i + 1;
    }
    assert(wanted.take(wanted.len() as int) =~= wanted);
    assert(keys_of(keys@).len() == keys@.len());
    let out: Vec<usize> = arrange(&found, &keys);
    let ghost shown = shown_places(all, needle@, opt_text(*sort), desc);
    assert forall|i: int| 0 <= i < out@.len() implies (#[trigger] out@[i]) < list@.len() by {
        assert(shown.contains(shown[i]));
    }
    out
}

/// The start of the bar: the subnet, the search field, and the way to a new reservation.
pub open spec fn bar_text(subnet: SubnetView, idx: nat, needle: Seq<char>, field: Option<Seq<char>>, desc: bool) -> Seq<
    char,
> {
    r#"<div class="bar">
<h1 style="margin:0">Subnet "#@ + dec(idx) + " — "@ + escaped(crate::addr::net_text(subnet.net.addr, subnet.net.prefix)) + r#"</h1>
<button class="btn" onclick="document.getElementById('subnet-dialog').showModal()">切換 subnet</button>
<input type="search" name="q" value=""#@ + escaped(needle) + r#"" placeholder="搜尋 hostname / IP / hw-address（即時篩選）" style="flex:1;min-width:260px"
hx-get="/subnet/"#@ + dec(idx) + r##"" hx-trigger="input changed delay:200ms" hx-target="#list-panel" hx-select="#list-panel" hx-swap="outerHTML""##@ + sort_vals_text(field, desc) + r#">
<a class="btn primary" href="/subnet/"#@ + dec(idx) + r#"/new">新增 reservation</a>
"#@
}

/// What follows the button that applies the changes: what waits, what there is to warn about, the
/// choice of a subnet, and the list.
pub open spec fn list_text(s: StateView, subnet: SubnetView, idx: nat, q: ListQueryView) -> Seq<char> {
    let needle = needle_of(q.q);
    let field = sort_field_of(q.sort);
    let shown = shown_places(subnet.reservations, needle, field, is_desc(q.dir));
    let window = window_of(shown.len(), q.page, needle.len() > 0);
    r#"
<span id="apply-result"></span>
"#@ + pending_text(s.pending) + r#"
</div>
"#@ + warn_text(q.warn) + r#"
"#@ + dialog_text(summaries_of(s.file), idx, q.pick == Some(1u8)) + r#"
<div id="list-panel">
<p>共 "#@ + dec(shown.len()) + " 筆符合"@ + match_text(needle) + pages_text(needle, window.1, window.0) + r#"</p>
<table>
<thead><tr><th>#</th>"#@ + heads_text(idx, field, q.dir) + r#"<th>動作</th></tr></thead>
<tbody>"#@ + rows_text(idx, subnet.reservations, shown.subrange(window.2 as int, window.3 as int)) + r#"</tbody>
</table>
<p>"#@ + pager_text(idx, window.0, window.1, needle) + r#"</p>
</div>"#@
}

/// The bar and the list of the page of a subnet.
pub open spec fn panel_text(s: StateView, subnet: SubnetView, idx: nat, q: ListQueryView) -> Seq<char> {
    bar_text(subnet, idx, needle_of(q.q), sort_field_of(q.sort), is_desc(q.dir)) + apply_button(
        socket_of(s.file),
        s.pending,
    ) + list_text(s, subnet, idx, q)
}

/// The body of the page of a subnet: the tabs, what there is to say about the file on disk, the
/// bar, and the list.
pub open spec fn list_body(s: StateView, subnet: SubnetView, idx: nat, q: ListQueryView, refresh: Refresh) -> Seq<char> {
    tab_strip_text("hosts"@, subnet_path(idx)) + banner_text(refresh, s.pending, list_url(idx, q)) + panel_text(
        s,
        subnet,
        idx,
        q,
    )
}

/// What stands between two texts stands in the whole.
proof fn lemma_stands_between(a: Seq<char>, b: Seq<char>, x: Seq<char>, y: Seq<char>, z: Seq<char>)
    ensures
        has_text(a + b + (x + y + z), y),
{
    let whole = a + b + (x + y + z);
    let at = a.len() + b.len() + x.len();
    assert(whole.subrange(at as int, (at + y.len()) as int) =~= y);
    assert(stands_at(whole, y, at as int));
}

/// The page of a subnet has the button that applies the changes; without a control socket the button
/// is off and says why, however many changes wait.
pub proof fn law_apply_is_off_without_socket(
    s: StateView,
    subnet: SubnetView,
    idx: nat,
    q: ListQueryView,
    refresh: Refresh,
)
    ensures
        has_text(list_body(s, subnet, idx, q, refresh), apply_button(socket_of(s.file), s.pending)),
        socket_of(s.file) is None ==> apply_button(socket_of(s.file), s.pending)
            == r##"<button class="btn primary" disabled hx-post="/apply" hx-target="#apply-result" hx-swap="innerHTML" title="設定檔未宣告 control-socket，無法套用">套用設定</button>"##@,
{
    lemma_stands_between(
        tab_strip_text("hosts"@, subnet_path(idx)),
        banner_text(refresh, s.pending, list_url(idx, q)),
        bar_text(subnet, idx, needle_of(q.q), sort_field_of(q.sort), is_desc(q.dir)),
        apply_button(socket_of(s.file), s.pending),
        list_text(s, subnet, idx, q),
    );
    lemma_button_off(s.pending);
}

/// The button that applies the changes, without a control socket.
proof fn lemma_button_off(pending: u64)
    ensures
        apply_button(None, pending)
            == r##"<button class="btn primary" disabled hx-post="/apply" hx-target="#apply-result" hx-swap="innerHTML" title="設定檔未宣告 control-socket，無法套用">套用設定</button>"##@,
{
    reveal_strlit(r#"<button class="btn primary""#);
    reveal_strlit(" disabled");
    reveal_strlit(r##" hx-post="/apply" hx-target="#apply-result" hx-swap="innerHTML" title=""##);
    reveal_strlit("設定檔未宣告 control-socket，無法套用");
    reveal_strlit(r#"">套用設定</button>"#);
    reveal_strlit(
        r##"<button class="btn primary" disabled hx-post="/apply" hx-target="#apply-result" hx-swap="innerHTML" title="設定檔未宣告 control-socket，無法套用">套用設定</button>"##,
    );
    assert(apply_button(None, pending)
        =~= r##"<button class="btn primary" disabled hx-post="/apply" hx-target="#apply-result" hx-swap="innerHTML" title="設定檔未宣告 control-socket，無法套用">套用設定</button>"##@);
}

/// The start of the bar.
fn bar_html(subnet: &Subnet, idx: usize, needle: &str, field: &Option<String>, desc: bool) -> (r: String)
    ensures
        r@ == bar_text(subnet@, idx as nat, needle@, opt_text(*field), desc),
{
    let number: String = decimal(idx as u64);
    let mut out: String = r#"<div class="bar">
<h1 style="margin:0">Subnet "#.to_owned();
    out.append(number.as_str());
    out.append(" — ");
    out.append(escape(subnet.cidr.to_string().as_str()).as_str());
    out.append(r#"</h1>
<button class="btn" onclick="document.getElementById('subnet-dialog').showModal()">切換 subnet</button>
<input type="search" name="q" value=""#);
    out.append(escape(needle).as_str());
    out.append(r#"" placeholder="搜尋 hostname / IP / hw-address（即時篩選）" style="flex:1;min-width:260px"
hx-get="/subnet/"#);
    out.append(number.as_str());
    out.append(r##"" hx-trigger="input changed delay:200ms" hx-target="#list-panel" hx-select="#list-panel" hx-swap="outerHTML""##);
    out.append(sort_hx_vals(field, desc).as_str());
    out.append(r#">
<a class="btn primary" href="/subnet/"#);
    out.append(number.as_str());
    out.append(r#"/new">新增 reservation</a>
"#);
    out
}

/// What follows the button that applies the changes.
fn list_html(
    st: &AppState,
    subnet: &Subnet,
    idx: usize,
    q: &ListQuery,
    needle: &str,
    field: &Option<String>,
    desc: bool,
) -> (r: String)
    requires
        needle@ == needle_of(q@.q),
        opt_text(*field) == sort_field_of(q@.sort),
        desc == is_desc(q@.dir),
    ensures
        r@ == list_text(st@, subnet@, idx as nat, q@),
{
    let places: Vec<usize> = order_places(&subnet.reservations, needle, field, desc);
    let total: usize = places.len();
    let (pages, current, start, end) = page_window(total, q.page, !is_empty(needle));
    let rows: String = rows_html(idx, &subnet.reservations, &places, start, end);
    let pager: String = pager_html(idx, pages, current, needle);
    let subnets: Vec<SubnetSummary> = st.file.subnet_list();
    let opens: bool = match q.pick {
        Some(p) => p == 1,
        None => false,
    };
    let selector: String = subnet_dialog(subnets.as_slice(), idx, opens);
    let mut heads: String = th_link("hw-address", "hw-address", idx, field, &q.dir);
    heads.append(th_link("ip-address", "ip-address", idx, field, &q.dir).as_str());
    heads.append(th_link("hostname", "hostname", idx, field, &q.dir).as_str());
    let mut out: String = r#"
<span id="apply-result"></span>
"#.to_owned();
    out.append(pending_badge(st.saves_since_apply).as_str());
    out.append(r#"
</div>
"#);
    out.append(warn_html(&q.warn).as_str());
    out.append(r#"
"#);
    out.append(selector.as_str());
    out.append(r#"
<div id="list-panel">
<p>共 "#);
    out.append(decimal(total as u64).as_str());
    out.append(" 筆符合");
    out.append(match_phrase(needle).as_str());
    out.append(page_phrase(needle, current, pages).as_str());
    out.append(r#"</p>
<table>
<thead><tr><th>#</th>"#);
    out.append(heads.as_str());
    out.append(r#"<th>動作</th></tr></thead>
<tbody>"#);
    out.append(rows.as_str());
    out.append(r#"</tbody>
</table>
<p>"#);
    out.append(pager.as_str());
    out.append(r#"</p>
</div>"#);
    out
}

/// The bar and the list of the page of a subnet.
fn list_panel(st: &AppState, subnet: &Subnet, idx: usize, q: &ListQuery) -> (r: String)
    ensures
        r@ == panel_text(st@, subnet@, idx as nat, q@),
{
    let needle: String = search_needle(&q.q);
    let field: Option<String> = sort_field(&q.sort);
    let desc: bool = is_text(&q.dir, "desc");
    let socket: Option<ControlSocket> = st.file.control_socket();
    let mut out: String = bar_html(subnet, idx, needle.as_str(), &field, desc);
    out.append(apply_html(&socket, st.saves_since_apply).as_str());
    out.append(list_html(st, subnet, idx, q, needle.as_str(), &field, desc).as_str());
    out
}

/// The body of the page of a subnet, or why there is none.
pub open spec fn rendered_list(s: StateView, idx: nat, q: ListQueryView, refresh: Refresh) -> Result<
    Seq<char>,
    Seq<char>,
> {
    match subnet_of(s.file, idx) {
        Ok(subnet) => Ok(list_body(s, subnet, idx, q, refresh)),
        Err(e) => Err(e),
    }
}

/// The body of the page of a subnet.
pub fn render_subnet_list(st: &AppState, idx: usize, q: &ListQuery, refresh: &Refresh) -> (r: Result<String, KeaError>)
    ensures
        match r {
            Ok(body) => rendered_list(st@, idx as nat, q@, *refresh) == Ok::<Seq<char>, Seq<char>>(body@),
            Err(e) => rendered_list(st@, idx as nat, q@, *refresh) == Err::<Seq<char>, Seq<char>>(e.message@),
        },
{
    match st.file.subnet(idx) {
        Ok(subnet) => {
            let mut out: String = tab_strip("hosts", subnet_href(idx).as_str());
            let next: String = subnet_page_url(idx, q);
            out.append(external_banner_html(refresh, st.saves_since_apply, next.as_str()).as_str());
            out.append(list_panel(st, &subnet, idx, q).as_str());
            Ok(out)
        },
        Err(e) => Err(e),
    }
}

} // verus!
