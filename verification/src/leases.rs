//! Leases: what Kea's memfile says of the addresses that were handed out.
use std::collections::HashMap;

use vstd::prelude::*;
use vstd::string::*;

use crate::addr::{ip_of, Ipv4Addr};
use crate::error::{error, KeaError};
use crate::number::{dec, decimal, number, parse_number};
use crate::paste::nonempty;
use crate::text::{chars_of, copy_text, is_empty, opt_text, same, split, split_on, texts, trim, trimmed};

verus! {

/// A lease: a row of the memfile.
#[derive(Debug)]
pub struct Lease {
    pub address: Ipv4Addr,
    pub hwaddr: Option<String>,
    pub client_id: Option<String>,
    pub hostname: Option<String>,
    pub subnet_id: Option<u32>,
    pub state: u8,
    pub valid_lifetime: u32,
    pub expire: u64,
}

/// What a lease holds.
#[verifier::ext_equal]
pub struct LeaseView {
    pub address: u32,
    pub hwaddr: Option<Seq<char>>,
    pub client_id: Option<Seq<char>>,
    pub hostname: Option<Seq<char>>,
    pub subnet_id: Option<u32>,
    pub state: u8,
    pub valid_lifetime: u32,
    pub expire: u64,
}

impl View for Lease {
    type V = LeaseView;

    open spec fn view(&self) -> LeaseView {
        LeaseView {
            address: self.address.bits,
            hwaddr: opt_text(self.hwaddr),
            client_id: opt_text(self.client_id),
            hostname: opt_text(self.hostname),
            subnet_id: self.subnet_id,
            state: self.state,
            valid_lifetime: self.valid_lifetime,
            expire: self.expire,
        }
    }
}

impl Clone for Lease {
    fn clone(&self) -> (r: Lease)
        ensures
            r@ == self@,
    {
        Lease {
            address: self.address,
            hwaddr: copy_text(&self.hwaddr),
            client_id: copy_text(&self.client_id),
            hostname: copy_text(&self.hostname),
            subnet_id: self.subnet_id,
            state: self.state,
            valid_lifetime: self.valid_lifetime,
            expire: self.expire,
        }
    }
}

/// What leases hold.
pub open spec fn lease_views(s: Seq<Lease>) -> Seq<LeaseView> {
    s.map_values(|l: Lease| l@)
}

/// Whether a lease is in use: it is assigned and has not run out.
pub open spec fn active(l: LeaseView, now: u64) -> bool {
    l.state == 0 && l.expire > now
}

/// Whether a lease has run out: it was reclaimed, or is assigned and past its time.
pub open spec fn run_out(l: LeaseView, now: u64) -> bool {
    l.state == 2 || (l.state == 0 && l.expire <= now)
}

/// Whether a lease is one of those that a filter asks for. What is no filter asks for the leases
/// in use.
pub open spec fn passes(l: LeaseView, filter: Seq<char>, now: u64) -> bool {
    if filter == "expired"@ {
        run_out(l, now)
    } else if filter == "declined"@ {
        l.state == 1
    } else if filter == "released"@ {
        l.state == 3
    } else if filter == "all"@ {
        true
    } else {
        active(l, now)
    }
}

/// The label of a state.
pub open spec fn label_of(state: u8) -> Seq<char> {
    if state == 0 {
        "已指派"@
    } else if state == 1 {
        "拒絕"@
    } else if state == 2 {
        "過期回收"@
    } else if state == 3 {
        "已釋放"@
    } else if state == 4 {
        "已註冊"@
    } else {
        "未知"@
    }
}

/// The label of a lease: that of its state, but for one that is assigned and past its time.
pub open spec fn row_label(l: LeaseView, now: u64) -> Seq<char> {
    if l.state == 0 && l.expire <= now {
        "已過期"@
    } else {
        label_of(l.state)
    }
}

/// How long a lease still has, in days and hours; nothing where it has run out.
pub open spec fn remaining(expire: u64, now: u64) -> Option<Seq<char>> {
    if expire <= now {
        None
    } else {
        let secs = (expire - now) as nat;
        Some("剩餘 "@ + dec(secs / 86400) + " 天 "@ + dec(secs % 86400 / 3600) + " 時"@)
    }
}

/// Whether a lease is in use: it is assigned and has not run out.
pub fn is_active(l: &Lease, now_secs: u64) -> (r: bool)
    ensures
        r == active(l@, now_secs),
{
    l.state == 0 && l.expire > now_secs
}

/// Whether a lease has run out: it was reclaimed, or is assigned and past its time.
pub fn is_expired(l: &Lease, now_secs: u64) -> (r: bool)
    ensures
        r == run_out(l@, now_secs),
{
    l.state == 2 || (l.state == 0 && l.expire <= now_secs)
}

/// Whether a lease is one of those that a filter asks for: `active`, `all`, `expired`, `declined`
/// or `released`; any other text is taken for `active`.
pub fn matches_state_filter(l: &Lease, filter: &str, now_secs: u64) -> (r: bool)
    ensures
        r == passes(l@, filter@, now_secs),
{
    if same(filter, "expired") {
        is_expired(l, now_secs)
    } else if same(filter, "declined") {
        l.state == 1
    } else if same(filter, "released") {
        l.state == 3
    } else if same(filter, "all") {
        true
    } else {
        is_active(l, now_secs)
    }
}

/// The label of a lease.
pub fn row_state_label(l: &Lease, now_secs: u64) -> (r: &'static str)
    ensures
        r@ == row_label(l@, now_secs),
{
    if l.state == 0 && l.expire <= now_secs {
        "已過期"
    } else {
        state_label(l.state)
    }
}

/// The label of a state.
pub fn state_label(state: u8) -> (r: &'static str)
    ensures
        r@ == label_of(state),
{
    match state {
        0 => "已指派",
        1 => "拒絕",
        2 => "過期回收",
        3 => "已釋放",
        4 => "已註冊",
        _ => "未知",
    }
}

/// How long a lease still has, in days and hours; nothing where it has run out.
pub fn remaining_text(expire: u64, now_secs: u64) -> (r: Option<String>)
    ensures
        opt_text(r) == remaining(expire, now_secs),
{
    if expire <= now_secs {
        return None;
    }
    let secs: u64 = expire - now_secs;
    let mut out: String = "剩餘 ".to_owned();
    out.append(decimal(secs / 86400).as_str());
    out.append(" 天 ");
    out.append(decimal(secs % 86400 / 3600).as_str());
    out.append(" 時");
    Some(out)
}

/// A lease is in use, has run out, or is in another state, and never two of these; what is left of
/// its time is shown exactly while it has not run out, whatever its state.
pub proof fn law_active_and_expired_exclude(l: LeaseView, now: u64)
    ensures
        !(active(l, now) && run_out(l, now)),
        l.state == 0 ==> active(l, now) || run_out(l, now),
        remaining(l.expire, now) is Some <==> l.expire > now,
        active(l, now) ==> remaining(l.expire, now) is Some,
{
}

/// The value of a hexadecimal digit.
pub open spec fn hex_value(c: char) -> Option<u8> {
    if '0' <= c <= '9' {
        Some((c as int - 48) as u8)
    } else if 'a' <= c <= 'f' {
        Some((c as int - 87) as u8)
    } else if 'A' <= c <= 'F' {
        Some((c as int - 55) as u8)
    } else {
        None
    }
}

/// Whether a text begins with an escape: an ampersand, `#x` and two hexadecimal digits.
pub open spec fn escape_first(s: Seq<char>) -> bool {
    s.len() >= 5 && s[0] == '&' && s[1] == '#' && s[2] == 'x' && hex_value(s[3]) is Some && hex_value(s[4]) is Some
}

/// A field with its escapes undone: each is turned back into its character, and all else is kept.
pub open spec fn unescaped(s: Seq<char>) -> Seq<char>
    decreases s.len(),
{
    if s.len() == 0 {
        Seq::empty()
    } else if escape_first(s) {
        seq![(hex_value(s[3])->0 * 16 + hex_value(s[4])->0) as char] + unescaped(s.skip(5))
    } else {
        seq![s[0]] + unescaped(s.skip(1))
    }
}

/// A text without an escape is kept as it is.
pub proof fn law_unescaped_text_is_kept(s: Seq<char>)
    requires
        forall|i: int| 0 <= i <= s.len() ==> !escape_first(#[trigger] s.skip(i)),
    ensures
        unescaped(s) == s,
    decreases s.len(),
{
    if s.len() > 0 {
        let rest = s.skip(1);
        assert forall|i: int| 0 <= i <= rest.len() implies !escape_first(#[trigger] rest.skip(i)) by {
            assert(rest.skip(i) =~= s.skip(i + 1));
        }
        law_unescaped_text_is_kept(rest);
        assert(s.skip(0) =~= s);
        assert(seq![s[0]] + rest =~= s);
    }
}

/// An escape is undone wherever it stands after text without an ampersand, and what follows is undone
/// by itself.
pub proof fn law_escape_is_undone(before: Seq<char>, escape: Seq<char>, rest: Seq<char>)
    requires
        !before.contains('&'),
        escape.len() == 5,
        escape_first(escape),
    ensures
        unescaped(before + escape + rest) == before + seq![
            (hex_value(escape[3])->0 * 16 + hex_value(escape[4])->0) as char,
        ] + unescaped(rest),
    decreases before.len(),
{
    let all = before + escape + rest;
    if before.len() == 0 {
        assert(escape_first(all));
        assert(all.skip(5) =~= rest);
        assert(unescaped(all) =~= before + seq![
            (hex_value(escape[3])->0 * 16 + hex_value(escape[4])->0) as char,
        ] + unescaped(rest));
    } else {
        let less = before.drop_first();
        assert forall|i: int| 0 <= i < less.len() implies less[i] != '&' by {
            assert(less[i] == before[i + 1]);
            assert(before.contains(before[i + 1]));
        }
        assert(before.contains(before[0]));
        law_escape_is_undone(less, escape, rest);
        assert(all.skip(1) =~= less + escape + rest);
        assert(unescaped(all) == seq![before[0]] + unescaped(all.skip(1)));
        assert(seq![before[0]] + less =~= before);
        assert(unescaped(all) =~= before + seq![
            (hex_value(escape[3])->0 * 16 + hex_value(escape[4])->0) as char,
        ] + unescaped(rest));
    }
}

/// The fields of a row.
pub open spec fn fields_of(line: Seq<char>) -> Seq<Seq<char>> {
    split_on(line, ',').map_values(|p: Seq<char>| unescaped(p))
}

/// Whether fields are those of the header.
pub open spec fn is_header(f: Seq<Seq<char>>) -> bool {
    f.len() == 12 && f[0] == "address"@
}

/// The lease of a row; nothing where the row is not one.
pub open spec fn lease_of(f: Seq<Seq<char>>) -> Option<LeaseView> {
    if f.len() != 12 {
        None
    } else {
        match (
            ip_of(trimmed(f[0])),
            number(f[3], u32::MAX as nat),
            number(f[4], u64::MAX as nat),
            number(f[9], u8::MAX as nat),
        ) {
            (Some(address), Some(lifetime), Some(expire), Some(state)) => Some(
                LeaseView {
                    address,
                    hwaddr: nonempty(trimmed(f[1])),
                    client_id: nonempty(trimmed(f[2])),
                    hostname: nonempty(trimmed(f[8])),
                    subnet_id: match number(trimmed(f[5]), u32::MAX as nat) {
                        Some(n) => Some(n as u32),
                        None => None,
                    },
                    state: state as u8,
                    valid_lifetime: lifetime as u32,
                    expire: expire as u64,
                },
            ),
            _ => None,
        }
    }
}

/// The lease of a line; nothing where the line is no row of a lease.
#[verifier::opaque]
pub open spec fn row_lease(line: Seq<char>) -> Option<LeaseView> {
    lease_of(fields_of(line))
}

/// Whether a list has a lease of an address.
pub open spec fn has_address(list: Seq<LeaseView>, address: u32) -> bool {
    exists|i: int| 0 <= i < list.len() && (#[trigger] list[i]).address == address
}

/// Where a list has the lease of an address.
pub open spec fn place_of(list: Seq<LeaseView>, address: u32) -> int {
    choose|i: int| 0 <= i < list.len() && (#[trigger] list[i]).address == address
}

/// A list with a lease put in: in the place of the one that it has of the address, or at the end.
pub open spec fn put(list: Seq<LeaseView>, l: LeaseView) -> Seq<LeaseView> {
    if has_address(list, l.address) {
        list.update(place_of(list, l.address), l)
    } else {
        list.push(l)
    }
}

/// The leases of rows, each put in after the ones before it. Rows that are none are passed over.
pub open spec fn collected(rows: Seq<Seq<char>>) -> Seq<LeaseView>
    decreases rows.len(),
{
    if rows.len() == 0 {
        Seq::empty()
    } else {
        let before = collected(rows.drop_last());
        match row_lease(rows.last()) {
            Some(l) => put(before, l),
            None => before,
        }
    }
}

/// The lines of a file that are not blank, without the white space around them.
pub open spec fn content_lines(text: Seq<char>) -> Seq<Seq<char>> {
    split_on(text, '\n').map_values(|s: Seq<char>| trimmed(s)).filter(|s: Seq<char>| s.len() > 0)
}

/// The leases of a file, or why it has none.
pub open spec fn leases_of(text: Seq<char>) -> Result<Seq<LeaseView>, Seq<char>> {
    let lines = content_lines(text);
    if lines.len() == 0 {
        Err("租用檔內容為空（缺少表頭）"@)
    } else if !is_header(fields_of(lines[0])) {
        Err("租用檔表頭不合法（需 12 欄，首欄 address）"@)
    } else {
        Ok(collected(lines.skip(1)))
    }
}

/// The value of a hexadecimal digit.
fn hex_val(c: char) -> (r: Option<u8>)
    ensures
        r == hex_value(c),
        r is Some ==> r->0 < 16,
{
    if '0' <= c && c <= '9' {
        Some((c as u32 - 48) as u8)
    } else if 'a' <= c && c <= 'f' {
        Some((c as u32 - 87) as u8)
    } else if 'A' <= c && c <= 'F' {
        Some((c as u32 - 55) as u8)
    } else {
        None
    }
}

/// A field with its escapes undone: Kea writes a comma and an ampersand as `&#xHH`.
pub fn unescape_field(s: &str) -> (r: String)
    ensures
        r@ == unescaped(s@),
{
    let x: Vec<char> = chars_of(s);
    let mut out: String = String::new();
    let mut i: usize = 0;
    let n: usize = x.len();
    assert(s@.skip(0) =~= s@);
    assert(out@ + unescaped(s@.skip(0)) =~= unescaped(s@));
    while i < n
        invariant
            n == x@.len(),
            x@ == s@,
            i <= n,
            out@ + unescaped(s@.skip(i as int)) == unescaped(s@),
        decreases n - i,
    {
        let ghost rest = s@.skip(i as int);
        let ghost before = out@;
        let mut len: usize = 1;
        let mut c: char = x[i];
        if n - i >= 5 && x[i] == '&' && x[i + 1] == '#' && x[i + 2] == 'x' {
            match (hex_val(x[i + 3]), hex_val(x[i + 4])) {
                (Some(hi), Some(lo)) => {
                    len = 5;
                    c = (hi * 16 + lo) as char;
                },
                _ => {},
            }
        }
        out.push(c);
        assert(rest.skip(len as int) =~= s@.skip(i + len));
        assert(unescaped(rest) == seq![c] + unescaped(s@.skip(i + len)));
        assert(out@ + unescaped(s@.skip(i + len)) =~= before + unescaped(rest));
        i = i + len;
    }
    assert(s@.skip(n as int) =~= Seq::<char>::empty());
    assert(out@ + unescaped(s@.skip(n as int)) =~= out@);
    out
}

/// The fields of a row.
fn split_fields(line: &str) -> (r: Vec<String>)
    ensures
        texts(r@) == fields_of(line@),
{
    let parts: Vec<String> = split(line, ',');
    let ghost all = fields_of(line@);
    let mut out: Vec<String> = Vec::new();
    let mut i: usize = 0;
    assert(texts(out@) =~= all.take(0));
    while i < parts.len()
        invariant
            i <= parts@.len(),
            texts(parts@) == split_on(line@, ','),
            all == fields_of(line@),
            texts(out@) == all.take(i as int),
        decreases parts@.len() - i,
    {
        let ghost before = out@;
        assert(texts(parts@)[i as int] == parts@[i as int]@);
        let field: String = unescape_field(parts[i].as_str());
        out.push(field);
        assert(texts(out@) =~= texts(before).push(field@));
        assert(all.take(i + 1) =~= all.take(i as int).push(all[i as int]));
        i = i + 1;
    }
    assert(texts(parts@).len() == parts@.len());
    assert(all.take(all.len() as int) =~= all);
    out
}

/// The text without the white space around it, or nothing where none is left.
fn nonempty_field(s: &str) -> (r: Option<String>)
    ensures
        opt_text(r) == nonempty(trimmed(s@)),
{
    let t: String = trim(s);
    if is_empty(t.as_str()) {
        None
    } else {
        Some(t)
    }
}

/// The lease of a row.
fn parse_lease(f: &Vec<String>) -> (r: Option<Lease>)
    ensures
        match r {
            Some(l) => lease_of(texts(f@)) == Some(l@),
            None => lease_of(texts(f@)) is None,
        },
{
    if f.len() != 12 {
        return None;
    }
    let ghost t = texts(f@);
    assert(forall|i: int| 0 <= i < 12 ==> #[trigger] t[i] == f@[i]@);
    match (
        Ipv4Addr::parse(trim(f[0].as_str()).as_str()),
        parse_number(f[3].as_str(), u32::MAX as u64),
        parse_number(f[4].as_str(), u64::MAX),
        parse_number(f[9].as_str(), u8::MAX as u64),
    ) {
        (Some(address), Some(lifetime), Some(expire), Some(state)) => {
            let subnet_id: Option<u32> = match parse_number(trim(f[5].as_str()).as_str(), u32::MAX as u64) {
                Some(n) => Some(n as u32),
                None => None,
            };
            Some(
                Lease {
                    address,
                    hwaddr: nonempty_field(f[1].as_str()),
                    client_id: nonempty_field(f[2].as_str()),
                    hostname: nonempty_field(f[8].as_str()),
                    subnet_id,
                    state: state as u8,
                    valid_lifetime: lifetime as u32,
                    expire,
                },
            )
        },
        _ => None,
    }
}

/// The lines of a file that are not blank, without the white space around them.
fn split_lines(text: &str) -> (r: Vec<String>)
    ensures
        texts(r@) == content_lines(text@),
{
    let lines: Vec<String> = split(text, '\n');
    let ghost clean = |s: Seq<char>| trimmed(s);
    let ghost keep = |s: Seq<char>| s.len() > 0;
    let ghost all = split_on(text@, '\n').map_values(clean);
    let mut out: Vec<String> = Vec::new();
    let mut i: usize = 0;
    reveal(Seq::filter);
    assert(texts(out@) =~= all.take(0).filter(keep));
    while i < lines.len()
        invariant
            i <= lines@.len(),
            clean == (|s: Seq<char>| trimmed(s)),
            keep == (|s: Seq<char>| s.len() > 0),
            texts(lines@) == split_on(text@, '\n'),
            all == split_on(text@, '\n').map_values(clean),
            texts(out@) == all.take(i as int).filter(keep),
        decreases lines@.len() - i,
    {
        reveal(Seq::filter);
        assert(texts(lines@)[i as int] == lines@[i as int]@);
        assert(all.take(i + 1).drop_last() =~= all.take(i as int));
        assert(all.take(i + 1).last() == trimmed(lines@[i as int]@));
        let line: String = trim(lines[i].as_str());
        if !is_empty(line.as_str()) {
            let ghost before = out@;
            out.push(line);
            assert(texts(out@) =~= texts(before).push(line@));
        }
        i = i + 1;
    }
    assert(texts(lines@).len() == lines@.len());
    assert(all.take(all.len() as int) =~= all);
    out
}

/// Whether no two leases of a list are of one address.
pub open spec fn addresses_distinct(list: Seq<LeaseView>) -> bool {
    forall|i: int, j: int| 0 <= i < j < list.len() ==> (#[trigger] list[i]).address != (#[trigger] list[j]).address
}

/// Reads a memfile. Of several rows of one address the last counts, and it stands where the first
/// stood. Rows that cannot be read are passed over; a file without its header is an error.
pub fn parse(text: &str) -> (r: Result<Vec<Lease>, KeaError>)
    ensures
        match r {
            Ok(list) => leases_of(text@) == Ok::<Seq<LeaseView>, Seq<char>>(lease_views(list@)),
            Err(e) => leases_of(text@) == Err::<Seq<LeaseView>, Seq<char>>(e.message@),
        },
{
    broadcast use vstd::std_specs::hash::group_hash_axioms;

    let lines: Vec<String> = split_lines(text);
    let ghost all = texts(lines@);
    if lines.len() == 0 {
        assert(all.len() == 0);
        return Err(error("租用檔內容為空（缺少表頭）"));
    }
    assert(all[0] == lines@[0]@);
    let header: Vec<String> = split_fields(lines[0].as_str());
    assert(header@.len() > 0 ==> texts(header@)[0] == header@[0]@);
    if header.len() != 12 || !same(header[0].as_str(), "address") {
        return Err(error("租用檔表頭不合法（需 12 欄，首欄 address）"));
    }
    let ghost rows = all.skip(1);
    let mut places: HashMap<u32, usize> = HashMap::new();
    let mut leases: Vec<Lease> = Vec::new();
    let mut i: usize = 1;
    assert(rows.take(0) =~= Seq::<Seq<char>>::empty());
    assert(lease_views(leases@) =~= collected(rows.take(0)));
    while i < lines.len()
        invariant
            1 <= i <= lines@.len(),
            all == texts(lines@),
            rows == all.skip(1),
            lease_views(leases@) == collected(rows.take(i - 1)),
            forall|a: u32| #[trigger] places@.contains_key(a) ==> places@[a] < leases@.len() && leases@[places@[a] as int]@.address == a,
            forall|k: int|
                0 <= k < leases@.len() ==> places@.contains_key((#[trigger] leases@[k])@.address)
                    && places@[leases@[k]@.address] == k,
        decreases lines@.len() - i,
    {
        broadcast use vstd::std_specs::hash::group_hash_axioms;

        assert(rows.take(i as int).drop_last() =~= rows.take(i - 1));
        assert(rows.take(i as int).last() == lines@[i as int]@);
        let fields: Vec<String> = split_fields(lines[i].as_str());
        reveal(row_lease);
        match parse_lease(&fields) {
            Some(l) => {
                let ghost before = leases@;
                let ghost list = lease_views(before);
                let address: u32 = l.address.bits;
                let known: Option<usize> = match places.get(&address) {
                    Some(k) => Some(*k),
                    None => None,
                };
                match known {
                    Some(k) => {
                        proof {
                            assert(list[k as int].address == address);
                            let p = place_of(list, address);
                            assert(before[p]@.address == list[p].address);
                            assert(p == k);
                        }
                        leases.set(k, l);
                        assert(lease_views(leases@) =~= list.update(k as int, l@));
                    },
                    None => {
                        assert(!has_address(list, address)) by {
                            if has_address(list, address) {
                                let p = place_of(list, address);
                                assert(before[p]@.address == list[p].address);
                            }
                        }
                        places.insert(address, leases.len());
                        leases.push(l);
                        assert(lease_views(leases@) =~= list.push(l@));
                    },
                }
            },
            None => {},
        }
        i = i + 1;
    }
    assert(rows.take(rows.len() as int) =~= rows);
    Ok(leases)
}

/// No two leases of a file are of one address.
pub proof fn law_addresses_distinct(text: Seq<char>)
    ensures
        leases_of(text) matches Ok(list) ==> addresses_distinct(list),
{
    lemma_collected(content_lines(text).skip(1));
}

/// Putting a lease in.
proof fn lemma_put(list: Seq<LeaseView>, l: LeaseView)
    requires
        addresses_distinct(list),
    ensures
        addresses_distinct(put(list, l)),
        has_address(put(list, l), l.address),
        forall|i: int| 0 <= i < put(list, l).len() && (#[trigger] put(list, l)[i]).address == l.address ==> put(list, l)[i] == l,
        forall|i: int| 0 <= i < put(list, l).len() && (#[trigger] put(list, l)[i]).address != l.address ==> i < list.len() && put(list, l)[i] == list[i],
        forall|i: int| 0 <= i < list.len() ==> (#[trigger] put(list, l)[i]).address == list[i].address,
        list.len() <= put(list, l).len() <= list.len() + 1,
{
    let after = put(list, l);
    if has_address(list, l.address) {
        let p = place_of(list, l.address);
        assert(after[p] == l);
    } else {
        assert(after[list.len() as int] == l);
        assert forall|i: int| 0 <= i < list.len() implies (#[trigger] list[i]).address != l.address by {}
    }
}

/// Whether row `k` is one of a lease of an address.
pub open spec fn row_has(rows: Seq<Seq<char>>, k: int, address: u32) -> bool {
    row_lease(rows[k]) is Some && row_lease(rows[k])->0.address == address
}

/// Whether row `k` is the last one of the address of a lease, and holds this lease.
pub open spec fn last_row(rows: Seq<Seq<char>>, k: int, l: LeaseView) -> bool {
    &&& 0 <= k < rows.len()
    &&& row_lease(rows[k]) == Some(l)
    &&& forall|j: int| k < j < rows.len() ==> !#[trigger] row_has(rows, j, l.address)
}

/// Whether the last row of the address of a lease holds this lease.
pub open spec fn is_latest(rows: Seq<Seq<char>>, l: LeaseView) -> bool {
    exists|k: int| last_row(rows, k, l)
}

/// A lease stays the latest of its address while rows of other addresses follow.
proof fn lemma_stays_latest(rows: Seq<Seq<char>>, l: LeaseView)
    requires
        rows.len() > 0,
        is_latest(rows.drop_last(), l),
        !row_has(rows, rows.len() - 1, l.address),
    ensures
        is_latest(rows, l),
{
    let front = rows.drop_last();
    let k = choose|k: int| last_row(front, k, l);
    assert(front[k] == rows[k]);
    assert forall|j: int| k < j < rows.len() implies !#[trigger] row_has(rows, j, l.address) by {
        if j < front.len() {
            assert(front[j] == rows[j]);
            assert(!row_has(front, j, l.address));
        }
    }
    assert(last_row(rows, k, l));
}

proof fn lemma_collected(rows: Seq<Seq<char>>)
    ensures
        addresses_distinct(collected(rows)),
        forall|i: int| 0 <= i < collected(rows).len() ==> is_latest(rows, #[trigger] collected(rows)[i]),
        forall|k: int|
            0 <= k < rows.len() && row_lease(#[trigger] rows[k]) is Some ==> has_address(
                collected(rows),
                row_lease(rows[k])->0.address,
            ),
    decreases rows.len(),
{
    if rows.len() > 0 {
        let front = rows.drop_last();
        let n = rows.len() - 1;
        lemma_collected(front);
        let before = collected(front);
        let after = collected(rows);
        let newest = row_lease(rows.last());
        if newest is Some {
            lemma_put(before, newest->0);
        }
        assert forall|i: int| 0 <= i < after.len() implies is_latest(rows, #[trigger] after[i]) by {
            if newest is Some && after[i].address == newest->0.address {
                assert(last_row(rows, n, after[i]));
            } else {
                assert(after[i] == before[i]);
                lemma_stays_latest(rows, after[i]);
            }
        }
        assert forall|k: int| 0 <= k < rows.len() && row_lease(#[trigger] rows[k]) is Some implies has_address(
            after,
            row_lease(rows[k])->0.address,
        ) by {
            if k < n {
                assert(front[k] == rows[k]);
                let a = row_lease(rows[k])->0.address;
                let p = place_of(before, a);
                assert(before[p].address == a);
                assert(after[p].address == a);
            }
        }
    }
}

/// Every lease of a file is that of the last row of its address, and every address that a row has
/// is there.
pub proof fn law_last_row_counts(text: Seq<char>)
    requires
        leases_of(text) is Ok,
    ensures
        forall|i: int|
            0 <= i < leases_of(text)->Ok_0.len() ==> is_latest(
                content_lines(text).skip(1),
                #[trigger] leases_of(text)->Ok_0[i],
            ),
        forall|k: int|
            0 <= k < content_lines(text).skip(1).len() && row_lease(#[trigger] content_lines(text).skip(1)[k]) is Some
                ==> has_address(leases_of(text)->Ok_0, row_lease(content_lines(text).skip(1)[k])->0.address),
{
    lemma_collected(content_lines(text).skip(1));
}

/// The addresses of rows, each once, in the order in which they first appear.
pub open spec fn first_addresses(rows: Seq<Seq<char>>) -> Seq<u32>
    decreases rows.len(),
{
    if rows.len() == 0 {
        Seq::empty()
    } else {
        let before = first_addresses(rows.drop_last());
        match row_lease(rows.last()) {
            Some(l) => if before.contains(l.address) {
                before
            } else {
                before.push(l.address)
            },
            None => before,
        }
    }
}

/// The leases of a file stand in the order in which their addresses first appear.
pub proof fn law_first_appearance_order(text: Seq<char>)
    requires
        leases_of(text) is Ok,
    ensures
        leases_of(text)->Ok_0.map_values(|l: LeaseView| l.address) == first_addresses(content_lines(text).skip(1)),
{
    lemma_first_addresses(content_lines(text).skip(1));
}

proof fn lemma_first_addresses(rows: Seq<Seq<char>>)
    ensures
        collected(rows).map_values(|l: LeaseView| l.address) == first_addresses(rows),
    decreases rows.len(),
{
    let f = |l: LeaseView| l.address;
    if rows.len() == 0 {
        assert(collected(rows).map_values(f) =~= first_addresses(rows));
    } else {
        let front = rows.drop_last();
        lemma_first_addresses(front);
        lemma_collected(front);
        let before = collected(front);
        match row_lease(rows.last()) {
            Some(l) => {
                if has_address(before, l.address) {
                    let p = place_of(before, l.address);
                    assert(before.map_values(f)[p] == l.address);
                    assert(before.update(p, l).map_values(f) =~= before.map_values(f));
                } else {
                    if before.map_values(f).contains(l.address) {
                        let p = choose|p: int| 0 <= p < before.len() && before.map_values(f)[p] == l.address;
                        assert(before[p].address == l.address);
                    }
                    assert(before.push(l).map_values(f) =~= before.map_values(f).push(l.address));
                }
            },
            None => {},
        }
    }
}

} // verus!
