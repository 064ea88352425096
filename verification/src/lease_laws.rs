//! What is read from every file of leases, and what is said of every lease; and which backups go.
use vstd::prelude::*;
use vstd::string::*;

use crate::addr::ip_of;
use crate::backup::{backup_name, backups_among, expired, law_newest_are_kept, stamp, stamp_keys, surplus};
use crate::leases::{
    content_lines, escape_first, fields_of, has_address, hex_value, is_latest, last_row, law_addresses_distinct,
    law_escape_is_undone, law_last_row_counts, law_unescaped_text_is_kept, leases_of, passes, remaining, row_has,
    row_label, row_lease, unescaped, LeaseView,
};
use crate::number::{dec, number};
use crate::order::{law_order_lists_all, order_of};
use crate::text::{between, split_on, trimmed};
use crate::text_laws::law_found_between;

verus! {

/// What stands in a column of a line of the file of leases, with its escapes undone.
pub open spec fn field(line: Seq<char>, i: int) -> Seq<char> {
    unescaped(split_on(line, ',')[i])
}

/// Whether a text is that of an optional value: without the white space around it, and none where it is
/// empty.
pub open spec fn is_optional(text: Seq<char>, v: Option<Seq<char>>) -> bool {
    &&& trimmed(text).len() > 0 ==> v == Some(trimmed(text))
    &&& trimmed(text).len() == 0 ==> v is None
}

/// Whether a line has as many columns as a lease, and those that must be read can be: its address, for how
/// long it was given, when it ends, and its state.
pub open spec fn is_lease_line(line: Seq<char>) -> bool {
    &&& split_on(line, ',').len() == 12
    &&& ip_of(trimmed(field(line, 0))) is Some
    &&& number(field(line, 3), 0xffff_ffff) is Some
    &&& number(field(line, 4), 0xffff_ffff_ffff_ffff) is Some
    &&& number(field(line, 9), 0xff) is Some
}

/// A lease is read from every line that can be one, and from no other; and each of its values is the one
/// that stands in its column.
pub proof fn law_lease_is_read(line: Seq<char>)
    ensures
        row_lease(line) is Some <==> is_lease_line(line),
        row_lease(line) matches Some(l) ==> {
            &&& ip_of(trimmed(field(line, 0))) == Some(l.address)
            &&& is_optional(field(line, 1), l.hwaddr)
            &&& is_optional(field(line, 2), l.client_id)
            &&& number(field(line, 3), 0xffff_ffff) == Some(l.valid_lifetime as nat)
            &&& number(field(line, 4), 0xffff_ffff_ffff_ffff) == Some(l.expire as nat)
            &&& match number(trimmed(field(line, 5)), 0xffff_ffff) {
                Some(n) => l.subnet_id is Some && l.subnet_id->0 == n,
                None => l.subnet_id is None,
            }
            &&& is_optional(field(line, 8), l.hostname)
            &&& number(field(line, 9), 0xff) == Some(l.state as nat)
        },
{
    reveal(row_lease);
    let f = fields_of(line);
    assert(f.len() == split_on(line, ',').len());
    if f.len() == 12 {
        assert(f[0] == field(line, 0) && f[1] == field(line, 1) && f[2] == field(line, 2) && f[3] == field(line, 3));
        assert(f[4] == field(line, 4) && f[5] == field(line, 5) && f[8] == field(line, 8) && f[9] == field(line, 9));
    }
}

/// Says of a line whether it holds anything but white space.
pub open spec fn is_filled() -> spec_fn(Seq<char>) -> bool {
    |line: Seq<char>| trimmed(line).len() > 0
}

/// Every line of a file of leases that is not blank counts, in its place among them and without the white
/// space around it.
pub proof fn law_every_line_counts(text: Seq<char>, n: int)
    requires
        0 <= n < split_on(text, '\n').len(),
        trimmed(split_on(text, '\n')[n]).len() > 0,
    ensures
        ({
            let lines = split_on(text, '\n');
            let at = lines.take(n).filter(is_filled()).len() as int;
            &&& content_lines(text).len() == lines.filter(is_filled()).len()
            &&& at < content_lines(text).len()
            &&& content_lines(text)[at] == trimmed(lines[n])
        }),
{
    let lines = split_on(text, '\n');
    assert(lines.take(lines.len() as int) =~= lines);
    lemma_lines_counted(lines, lines.len() as int);
    lemma_line_at(lines, n, lines.len() as int);
}

/// The lines of a file that count.
spec fn filled(lines: Seq<Seq<char>>) -> Seq<Seq<char>> {
    lines.map_values(|s: Seq<char>| trimmed(s)).filter(|s: Seq<char>| s.len() > 0)
}

proof fn lemma_filled_step(lines: Seq<Seq<char>>, n: int)
    requires
        0 < n <= lines.len(),
    ensures
        filled(lines.take(n)) == (if trimmed(lines[n - 1]).len() > 0 {
            filled(lines.take(n - 1)).push(trimmed(lines[n - 1]))
        } else {
            filled(lines.take(n - 1))
        }),
{
    let f = |s: Seq<char>| trimmed(s);
    let g = |s: Seq<char>| s.len() > 0;
    let before = lines.take(n - 1).map_values(f);
    assert(lines.take(n).map_values(f) =~= before.push(trimmed(lines[n - 1])));
    before.lemma_filter_push(trimmed(lines[n - 1]), g);
}

proof fn lemma_lines_counted(lines: Seq<Seq<char>>, n: int)
    requires
        0 <= n <= lines.len(),
    ensures
        filled(lines.take(n)).len() == lines.take(n).filter(is_filled()).len(),
    decreases n,
{
    if n == 0 {
        reveal(Seq::filter);
        assert(lines.take(0).map_values(|s: Seq<char>| trimmed(s)) =~= Seq::<Seq<char>>::empty());
    } else {
        lemma_lines_counted(lines, n - 1);
        lemma_filled_step(lines, n);
        assert(lines.take(n) =~= lines.take(n - 1).push(lines[n - 1]));
        lines.take(n - 1).lemma_filter_len_push(is_filled(), lines[n - 1]);
    }
}

proof fn lemma_line_at(lines: Seq<Seq<char>>, n: int, m: int)
    requires
        0 <= n < m <= lines.len(),
        trimmed(lines[n]).len() > 0,
    ensures
        ({
            let at = lines.take(n).filter(is_filled()).len() as int;
            &&& at < filled(lines.take(m)).len()
            &&& filled(lines.take(m))[at] == trimmed(lines[n])
        }),
    decreases m,
{
    lemma_filled_step(lines, m);
    if m - 1 > n {
        lemma_line_at(lines, n, m - 1);
    } else {
        lemma_lines_counted(lines, n);
    }
}

/// A file of leases is read exactly where its first line that is not blank is the header: twelve columns,
/// the first of them the address.
pub proof fn law_header_opens_the_file(text: Seq<char>)
    ensures
        leases_of(text) is Ok <==> content_lines(text).len() > 0 && split_on(content_lines(text)[0], ',').len() == 12
            && field(content_lines(text)[0], 0) == "address"@,
        content_lines(text).len() == 0 ==> leases_of(text) == Err::<Seq<LeaseView>, Seq<char>>(
            "租用檔內容為空（缺少表頭）"@,
        ),
        content_lines(text).len() > 0 && leases_of(text) is Err ==> leases_of(text) == Err::<Seq<LeaseView>, Seq<char>>(
            "租用檔表頭不合法（需 12 欄，首欄 address）"@,
        ),
{
    if content_lines(text).len() > 0 {
        let f = fields_of(content_lines(text)[0]);
        assert(f.len() == split_on(content_lines(text)[0], ',').len());
        if f.len() == 12 {
            assert(f[0] == field(content_lines(text)[0], 0));
        }
    }
}

/// Whether a lease stands in a line behind the header, and no later line is for its address.
pub open spec fn is_last_word(text: Seq<char>, k: int, l: LeaseView) -> bool {
    &&& 0 < k < content_lines(text).len()
    &&& row_lease(content_lines(text)[k]) == Some(l)
    &&& forall|j: int|
        k < j < content_lines(text).len() ==> match row_lease(#[trigger] content_lines(text)[j]) {
            Some(other) => other.address != l.address,
            None => true,
        }
}

/// The leases of a file are those of the last line for each address, and no others; no address has two.
pub proof fn law_last_word_on_each_address(text: Seq<char>, l: LeaseView)
    requires
        leases_of(text) is Ok,
    ensures
        leases_of(text)->Ok_0.contains(l) <==> exists|k: int| #[trigger] is_last_word(text, k, l),
        forall|i: int, j: int|
            0 <= i < j < leases_of(text)->Ok_0.len() ==> (#[trigger] leases_of(text)->Ok_0[i]).address != (
            #[trigger] leases_of(text)->Ok_0[j]).address,
{
    let list = leases_of(text)->Ok_0;
    let rows = content_lines(text).skip(1);
    law_last_row_counts(text);
    law_addresses_distinct(text);
    assert forall|k: int, x: LeaseView| #[trigger] last_row(rows, k, x) implies is_last_word(text, k + 1, x) by {
        assert(rows[k] == content_lines(text)[k + 1]);
        assert forall|j: int| k + 1 < j < content_lines(text).len() implies match row_lease(
            #[trigger] content_lines(text)[j],
        ) {
            Some(other) => other.address != x.address,
            None => true,
        } by {
            assert(rows[j - 1] == content_lines(text)[j]);
            assert(!row_has(rows, j - 1, x.address));
        }
    }
    if list.contains(l) {
        let i = choose|i: int| 0 <= i < list.len() && list[i] == l;
        assert(is_latest(rows, list[i]));
        let k = choose|k: int| last_row(rows, k, l);
        assert(last_row(rows, k, l));
        assert(is_last_word(text, k + 1, l));
    }
    if exists|k: int| #[trigger] is_last_word(text, k, l) {
        let k = choose|k: int| #[trigger] is_last_word(text, k, l);
        assert(rows[k - 1] == content_lines(text)[k]);
        assert(has_address(list, l.address));
        let i = choose|i: int| 0 <= i < list.len() && (#[trigger] list[i]).address == l.address;
        assert(is_latest(rows, list[i]));
        let n = choose|n: int| last_row(rows, n, list[i]);
        assert(last_row(rows, n, list[i]));
        assert(is_last_word(text, n + 1, list[i]));
        if n + 1 < k {
            assert(row_lease(content_lines(text)[k]) == Some(l));
        } else if n + 1 > k {
            assert(row_lease(content_lines(text)[n + 1]) == Some(list[i]));
        }
        assert(list[i] == l);
    }
}

/// Which leases a filter lets pass: those that were given and have not run out, all, those that have run
/// out, those that were declined, and those that were given back. Whatever else is asked for counts as the
/// first.
pub proof fn law_filter_by_state(l: LeaseView, filter: Seq<char>, now: u64)
    ensures
        passes(l, "all"@, now),
        passes(l, "active"@, now) <==> l.state == 0 && now < l.expire,
        passes(l, "expired"@, now) <==> l.state == 2 || (l.state == 0 && l.expire <= now),
        passes(l, "declined"@, now) <==> l.state == 1,
        passes(l, "released"@, now) <==> l.state == 3,
        filter != "all"@ && filter != "expired"@ && filter != "declined"@ && filter != "released"@ ==> passes(l, filter, now)
            == passes(l, "active"@, now),
{
    reveal_strlit("all");
    reveal_strlit("active");
    reveal_strlit("expired");
    reveal_strlit("declined");
    reveal_strlit("released");
    assert("all"@.len() == 3 && "active"@.len() == 6 && "expired"@.len() == 7 && "declined"@.len() == 8);
    assert("declined"@[0] == 'd' && "released"@[0] == 'r');
}

/// What is said of a lease's state: one that was given and has run out is told apart from one that has not.
pub proof fn law_state_is_told(l: LeaseView, now: u64)
    ensures
        l.state == 0 && now < l.expire ==> row_label(l, now) == "已指派"@,
        l.state == 0 && l.expire <= now ==> row_label(l, now) == "已過期"@,
        l.state == 1 ==> row_label(l, now) == "拒絕"@,
        l.state == 2 ==> row_label(l, now) == "過期回收"@,
        l.state == 3 ==> row_label(l, now) == "已釋放"@,
        l.state == 4 ==> row_label(l, now) == "已註冊"@,
        l.state > 4 ==> row_label(l, now) == "未知"@,
{
}

/// How long a lease still has is told in days and hours, of which less than one hour is left over; one that
/// has run out has nothing left.
pub proof fn law_remaining_time_is_told(expire: u64, now: u64)
    ensures
        remaining(expire, now) is None <==> expire <= now,
        expire > now ==> exists|days: nat, hours: nat|
            hours < 24 && days * 86400 + hours * 3600 <= expire - now < days * 86400 + (hours + 1) * 3600
                && #[trigger] days_and_hours(days, hours) == remaining(expire, now)->0,
{
    if expire > now {
        let left = (expire - now) as nat;
        let (days, hours) = (left / 86400, left % 86400 / 3600);
        assert(days_and_hours(days, hours) == remaining(expire, now)->0);
    }
}

/// So many days and hours, in words.
pub open spec fn days_and_hours(days: nat, hours: nat) -> Seq<char> {
    "剩餘 "@ + dec(days) + " 天 "@ + dec(hours) + " 時"@
}

/// A hexadecimal digit is worth what its place among the digits is, in capitals and in small letters.
pub proof fn law_hexadecimal_digit(c: char, v: u8)
    ensures
        hex_value(c) == Some(v) <==> {
            ||| v < 10 && c as int == '0' as int + v
            ||| 10 <= v < 16 && c as int == 'a' as int + v - 10
            ||| 10 <= v < 16 && c as int == 'A' as int + v - 10
        },
{
}

/// An escape is an ampersand, a number sign, an `x`, and two hexadecimal digits; it stands for the character
/// with that number, and what follows it is read on its own.
pub proof fn law_escape_stands_for_its_character(before: Seq<char>, c: char, d: char, high: u8, low: u8, rest: Seq<char>)
    requires
        !before.contains('&'),
        hex_value(c) == Some(high),
        hex_value(d) == Some(low),
    ensures
        unescaped(before + seq!['&', '#', 'x', c, d] + rest) == before + seq![(16 * high + low) as char] + unescaped(rest),
        unescaped(before) == before,
{
    law_escape_is_undone(before, seq!['&', '#', 'x', c, d], rest);
    assert forall|i: int| 0 <= i <= before.len() implies !escape_first(#[trigger] before.skip(i)) by {
        if escape_first(before.skip(i)) {
            assert(before.skip(i)[0] == before[i]);
            assert(before.contains(before[i]));
        }
    }
    law_unescaped_text_is_kept(before);
}

/// What is no escape is kept: a character stays as it is unless it is an ampersand that an escape begins
/// with.
pub proof fn law_all_else_stays(c: char, rest: Seq<char>)
    requires
        c != '&' || rest.len() < 4 || rest[0] != '#' || rest[1] != 'x' || hex_value(rest[2]) is None || hex_value(
            rest[3],
        ) is None,
    ensures
        unescaped(seq![c] + rest) == seq![c] + unescaped(rest),
        unescaped(Seq::empty()).len() == 0,
{
    assert((seq![c] + rest).skip(1) =~= rest);
}

/// A name is that of a backup exactly where it is the file's name, a point, a number of seconds, and the
/// ending of backups.
pub proof fn law_backup_is_known_by_its_name(file_name: Seq<char>, name: Seq<char>, n: nat)
    ensures
        stamp(file_name, name) == Some(n) <==> exists|t: Seq<char>| #[trigger]
            is_backup_named(file_name, name, t) && number(t, 0xffff_ffff_ffff_ffff) == Some(n),
        backup_name(file_name, n) == file_name + "."@ + dec(n) + ".bak"@,
{
    let found = between(name, file_name + "."@, ".bak"@);
    if found is Some {
        law_found_between(name, file_name + "."@, found->0, ".bak"@);
        assert(is_backup_named(file_name, name, found->0));
    }
    assert forall|t: Seq<char>| #[trigger] is_backup_named(file_name, name, t) implies found == Some(t) by {
        law_found_between(name, file_name + "."@, t, ".bak"@);
    }
}

/// Whether a name is that of a backup of a file, with a text between the file's name and the ending.
pub open spec fn is_backup_named(file_name: Seq<char>, name: Seq<char>, t: Seq<char>) -> bool {
    name == file_name + "."@ + t + ".bak"@
}

/// Says of a name whether it is that of a backup of a file.
pub open spec fn is_backup_of(file_name: Seq<char>) -> spec_fn(Seq<char>) -> bool {
    |name: Seq<char>| stamp(file_name, name) is Some
}

/// As many backups stay as are to be kept, or all where there are fewer; only backups go; and none goes
/// that is newer than one that stays.
pub proof fn law_oldest_backups_go(file_name: Seq<char>, names: Seq<Seq<char>>, keep: nat)
    requires
        names.len() <= usize::MAX,
        names.no_duplicates(),
    ensures
        ({
            let gone = expired(backups_among(file_name, names), keep);
            let all = names.filter(is_backup_of(file_name)).len() as int;
            &&& gone.len() == (if all > keep {
                all - keep
            } else {
                0
            })
            &&& gone.no_duplicates()
            &&& forall|i: int|
                0 <= i < gone.len() ==> names.contains(#[trigger] gone[i]) && stamp(file_name, gone[i]) is Some
            &&& forall|i: int, y: Seq<char>|
                0 <= i < gone.len() && names.contains(y) && stamp(file_name, y) is Some && !gone.contains(y) ==> stamp(
                    file_name,
                    #[trigger] gone[i],
                )->0 <= (#[trigger] stamp(file_name, y))->0
        }),
{
    let b = backups_among(file_name, names);
    let gone = expired(b, keep);
    let keys = stamp_keys(b);
    let order = order_of(keys);
    lemma_backups(file_name, names);
    law_newest_are_kept(file_name, names, keep);
    law_order_lists_all(keys);
    let cut = surplus(b.len(), keep) as int;
    assert forall|i: int| 0 <= i < gone.len() implies names.contains(#[trigger] gone[i]) && stamp(file_name, gone[i])
        is Some && gone[i] == b[order[i] as int].1 && stamp(file_name, gone[i])->0 == b[order[i] as int].0 && order[i]
        < b.len() by {
        assert(order.contains(order[i]));
        assert(is_backup_pair(file_name, names, b[order[i] as int]));
    }
    assert forall|i: int, j: int| 0 <= i < gone.len() && 0 <= j < gone.len() && i != j implies gone[i] != gone[j] by {
        assert(order.contains(order[i]) && order.contains(order[j]));
        assert(order[i] != order[j]);
        assert(b[order[i] as int].1 != b[order[j] as int].1);
    }
    assert forall|i: int, y: Seq<char>|
        0 <= i < gone.len() && names.contains(y) && stamp(file_name, y) is Some && !gone.contains(y) implies stamp(
        file_name,
        #[trigger] gone[i],
    )->0 <= (#[trigger] stamp(file_name, y))->0 by {
        let n = choose|n: int| 0 <= n < names.len() && names[n] == y;
        lemma_backup_listed(file_name, names, n);
        let m = choose|m: int| 0 <= m < b.len() && b[m] == (stamp(file_name, y)->0, y);
        assert(order.contains(m as usize));
        let j = choose|j: int| 0 <= j < order.len() && order[j] == m as usize;
        if j < cut {
            assert(gone[j] == y);
            assert(gone.contains(y));
        }
        assert(b[order[i] as int].0 <= b[order[j] as int].0);
    }
}

spec fn is_backup_pair(file_name: Seq<char>, names: Seq<Seq<char>>, x: (nat, Seq<char>)) -> bool {
    names.contains(x.1) && stamp(file_name, x.1) == Some(x.0)
}

proof fn lemma_backups(file_name: Seq<char>, names: Seq<Seq<char>>)
    requires
        names.no_duplicates(),
    ensures
        backups_among(file_name, names).len() == names.filter(is_backup_of(file_name)).len(),
        backups_among(file_name, names).len() <= names.len(),
        forall|i: int|
            0 <= i < backups_among(file_name, names).len() ==> is_backup_pair(
                file_name,
                names,
                #[trigger] backups_among(file_name, names)[i],
            ),
        forall|i: int, j: int|
            0 <= i < backups_among(file_name, names).len() && 0 <= j < backups_among(file_name, names).len() && i != j
                ==> (#[trigger] backups_among(file_name, names)[i]).1 != (#[trigger] backups_among(
                file_name,
                names,
            )[j]).1,
    decreases names.len(),
{
    if names.len() == 0 {
        reveal(Seq::filter);
    } else {
        let front = names.drop_last();
        let before = backups_among(file_name, front);
        let after = backups_among(file_name, names);
        lemma_backups(file_name, front);
        assert(names =~= front.push(names.last()));
        front.lemma_filter_len_push(is_backup_of(file_name), names.last());
        assert forall|i: int| 0 <= i < before.len() implies is_backup_pair(file_name, names, #[trigger] before[i])
            && before[i].1 != names.last() by {
            assert(is_backup_pair(file_name, front, before[i]));
            let k = choose|k: int| 0 <= k < front.len() && front[k] == before[i].1;
            assert(names[k] == before[i].1);
            assert(names[k] != names[names.len() - 1]);
        }
        assert forall|i: int| 0 <= i < after.len() implies is_backup_pair(file_name, names, #[trigger] after[i]) by {
            if i < before.len() {
                assert(after[i] == before[i]);
            } else {
                assert(names[names.len() - 1] == after[i].1);
            }
        }
        assert forall|i: int, j: int| 0 <= i < after.len() && 0 <= j < after.len() && i != j implies (
        #[trigger] after[i]).1 != (#[trigger] after[j]).1 by {
            if i < before.len() {
                assert(after[i] == before[i]);
            }
            if j < before.len() {
                assert(after[j] == before[j]);
            }
        }
    }
}

proof fn lemma_backup_listed(file_name: Seq<char>, names: Seq<Seq<char>>, n: int)
    requires
        0 <= n < names.len(),
        stamp(file_name, names[n]) is Some,
    ensures
        backups_among(file_name, names).contains((stamp(file_name, names[n])->0, names[n])),
    decreases names.len(),
{
    let front = names.drop_last();
    let before = backups_among(file_name, front);
    let after = backups_among(file_name, names);
    let x = (stamp(file_name, names[n])->0, names[n]);
    if n < names.len() - 1 {
        assert(front[n] == names[n]);
        lemma_backup_listed(file_name, front, n);
        let i = choose|i: int| 0 <= i < before.len() && before[i] == x;
        assert(after[i] == x);
    } else {
        assert(after[after.len() - 1] == x);
    }
}

} // verus!
