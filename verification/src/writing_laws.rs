//! How every value is written, what an edit writes, and how the file is replaced.
use vstd::prelude::*;
use vstd::string::*;
use vstd::utf8::encode_utf8;

use crate::addr::ip_text;
use crate::backup::stamp;
use crate::conflict_laws::{asks_for, law_form_is_read};
use crate::domain::ReservationView;
use crate::file::{
    dhcp4, law_entry_of_row, reservation_json, reservation_list, row_place, subnet_of, subnets, updated_entry,
    with_member, with_reservations,
};
use crate::form::FormView;
use crate::json::{
    document, element_lines, json_char, json_chars, lemma_keys_unique, lists_keys, member, member_lines, pretty,
    quoted, sorted_keys, Json,
};
use crate::list_laws::{comes_first, law_first_difference_decides};
use crate::number::dec;
use crate::order::lex_lt;
use crate::reading_laws::{
    has_subnet, has_subnet_in, holds, is_reservation_entry, law_entry_is_read, law_members_are_found,
};
use crate::save::{next_of, temporary, JobView, ProgressView, StepView};
use crate::text::{between, joined};
use crate::text_laws::{law_found_between, law_put_together};
use crate::web::{deleted, submitted};

verus! {

/// Every scalar is written as it is: whole numbers in decimal, with a minus sign where they are negative, and
/// texts between quotation marks.
pub proof fn law_scalars_are_written(n: nat, t: Seq<char>, pad: Seq<char>)
    ensures
        pretty(Json::Null, pad) == "null"@,
        pretty(Json::Bool(true), pad) == "true"@,
        pretty(Json::Bool(false), pad) == "false"@,
        pretty(Json::Int(n as int), pad) == dec(n),
        n > 0 ==> pretty(Json::Int(-n), pad) == "-"@ + dec(n),
        pretty(Json::Float(t), pad) == t,
        pretty(Json::Text(t), pad) == seq!['"'] + json_chars(t) + seq!['"'],
{
}

/// A text is written character by character: quotation marks, backslashes and control characters are escaped,
/// and every other character stays.
pub proof fn law_text_is_written_by_character(a: Seq<char>, c: char, b: Seq<char>)
    ensures
        json_chars(a + seq![c] + b) == json_chars(a) + json_chars(seq![c]) + json_chars(b),
        json_chars(Seq::empty()).len() == 0,
        c >= ' ' && c != '"' && c != '\\' ==> json_chars(seq![c]) == seq![c],
        c == '"' || c == '\\' ==> json_chars(seq![c]) == seq!['\\', c],
        c == '\n' ==> json_chars(seq![c]) == seq!['\\', 'n'],
        c == '\r' ==> json_chars(seq![c]) == seq!['\\', 'r'],
        c == '\t' ==> json_chars(seq![c]) == seq!['\\', 't'],
        c == '\u{8}' ==> json_chars(seq![c]) == seq!['\\', 'b'],
        c == '\u{c}' ==> json_chars(seq![c]) == seq!['\\', 'f'],
        c < ' ' && c != '\n' && c != '\r' && c != '\t' && c != '\u{8}' && c != '\u{c}' ==> {
            let e = json_chars(seq![c]);
            &&& e.len() == 6
            &&& e.take(4) == seq!['\\', 'u', '0', '0']
            &&& is_small_digit(e[4], c as int / 16)
            &&& is_small_digit(e[5], c as int % 16)
        },
{
    assert(seq![c].drop_last() =~= Seq::<char>::empty());
    assert(json_chars(seq![c].drop_last()) =~= Seq::<char>::empty());
    assert(json_chars(seq![c]) =~= json_char(c));
    lemma_chars_concat(a, seq![c]);
    lemma_chars_concat(a + seq![c], b);
    if c < ' ' && c != '\n' && c != '\r' && c != '\t' && c != '\u{8}' && c != '\u{c}' {
        assert(json_char(c).take(4) =~= seq!['\\', 'u', '0', '0']);
    }
}

/// The small hexadecimal digit of a value.
pub open spec fn is_small_digit(c: char, v: int) -> bool {
    ||| 0 <= v < 10 && c as int == '0' as int + v
    ||| 10 <= v < 16 && c as int == 'a' as int + v - 10
}

proof fn lemma_chars_concat(a: Seq<char>, b: Seq<char>)
    ensures
        json_chars(a + b) == json_chars(a) + json_chars(b),
    decreases b.len(),
{
    if b.len() == 0 {
        assert(a + b =~= a);
        assert(json_chars(b) =~= Seq::<char>::empty());
        assert(json_chars(a) + json_chars(b) =~= json_chars(a));
    } else {
        assert((a + b).drop_last() =~= a + b.drop_last());
        lemma_chars_concat(a, b.drop_last());
        assert(json_chars(a + b) =~= json_chars(a) + json_chars(b));
    }
}

/// The lines of the elements of an array.
pub open spec fn lines_of_elements(s: Seq<Json>, pad: Seq<char>) -> Seq<Seq<char>> {
    Seq::new(s.len(), |i: int| pad + pretty(s[i], pad))
}

/// An array is written with each of its elements, in their order, on a line of its own, three blanks further
/// in, and with commas between them.
pub proof fn law_every_element_is_written(s: Seq<Json>, pad: Seq<char>)
    ensures
        s.len() == 0 ==> pretty(Json::Array(s), pad) == "[]"@,
        s.len() > 0 ==> pretty(Json::Array(s), pad) == "[\n"@ + joined(lines_of_elements(s, pad + "   "@), ",\n"@) + "\n"@
            + pad + "]"@,
{
    if s.len() > 0 {
        let inner = pad + "   "@;
        let lines = lines_of_elements(s, inner);
        lemma_elements(s, inner, s.len());
        assert(lines.take(s.len() as int) =~= lines);
        assert(pretty(Json::Array(s), pad) =~= "[\n"@ + joined(lines, ",\n"@) + "\n"@ + pad + "]"@);
    }
}

proof fn lemma_elements(s: Seq<Json>, pad: Seq<char>, n: nat)
    requires
        0 < n <= s.len(),
    ensures
        element_lines(Json::Array(s), n, pad) == joined(lines_of_elements(s, pad).take(n as int), ",\n"@) + (if n < s.len() {
            ",\n"@
        } else {
            "\n"@
        }),
    decreases n,
{
    let lines = lines_of_elements(s, pad);
    let j = Json::Array(s);
    let end = if n < s.len() {
        ",\n"@
    } else {
        "\n"@
    };
    let line = pad + pretty(s[n - 1], pad);
    if n == 1 {
        assert(element_lines(j, 0, pad) =~= Seq::<char>::empty());
        assert(lines.take(1) =~= seq![line]);
        law_put_together(Seq::empty(), line, ",\n"@);
        assert(element_lines(j, n, pad) =~= line + end);
    } else {
        lemma_elements(s, pad, (n - 1) as nat);
        let before = lines.take(n - 1);
        assert(lines.take(n as int) =~= before.push(line));
        law_put_together(before, line, ",\n"@);
        assert(element_lines(j, n, pad) =~= joined(before, ",\n"@) + ",\n"@ + line + end);
    }
}

/// Whether some keys are those of an object, in the order of their bytes.
pub open spec fn are_its_keys(m: Map<Seq<char>, Json>, ks: Seq<Seq<char>>) -> bool {
    &&& forall|k: Seq<char>| m.contains_key(k) <==> #[trigger] ks.contains(k)
    &&& forall|i: int, j: int|
        0 <= i < j < ks.len() ==> comes_first(encode_utf8(#[trigger] ks[i]), encode_utf8(#[trigger] ks[j]))
}

/// The lines of the members of an object.
pub open spec fn lines_of_members(m: Map<Seq<char>, Json>, ks: Seq<Seq<char>>, pad: Seq<char>) -> Seq<Seq<char>> {
    Seq::new(ks.len(), |i: int| pad + quoted(ks[i]) + ": "@ + pretty(m[ks[i]], pad))
}

/// An object is written with each of its members, in the order of the bytes of their keys, on a line of its
/// own, three blanks further in, and with commas between them.
pub proof fn law_every_member_is_written(m: Map<Seq<char>, Json>, ks: Seq<Seq<char>>, pad: Seq<char>)
    requires
        m.dom().finite(),
        are_its_keys(m, ks),
    ensures
        ks.len() == 0 ==> pretty(Json::Object(m), pad) == "{}"@,
        ks.len() > 0 ==> pretty(Json::Object(m), pad) == "{\n"@ + joined(lines_of_members(m, ks, pad + "   "@), ",\n"@) + "\n"@
            + pad + "}"@,
{
    assert forall|i: int, j: int| 0 <= i < j < ks.len() implies lex_lt(
        encode_utf8(#[trigger] ks[i]),
        encode_utf8(#[trigger] ks[j]),
    ) by {
        law_first_difference_decides(encode_utf8(ks[i]), encode_utf8(ks[j]));
    }
    assert(lists_keys(m, ks));
    lemma_keys_unique(m, ks);
    assert(sorted_keys(m) == ks);
    if ks.len() > 0 {
        let inner = pad + "   "@;
        let lines = lines_of_members(m, ks, inner);
        lemma_members(m, ks, inner, ks.len());
        assert(lines.take(ks.len() as int) =~= lines);
        assert(pretty(Json::Object(m), pad) =~= "{\n"@ + joined(lines, ",\n"@) + "\n"@ + pad + "}"@);
    }
}

proof fn lemma_members(m: Map<Seq<char>, Json>, ks: Seq<Seq<char>>, pad: Seq<char>, n: nat)
    requires
        m.dom().finite(),
        are_its_keys(m, ks),
        0 < n <= ks.len(),
    ensures
        member_lines(Json::Object(m), ks, n, pad) == joined(lines_of_members(m, ks, pad).take(n as int), ",\n"@) + (if n
            < ks.len() {
            ",\n"@
        } else {
            "\n"@
        }),
    decreases n,
{
    let lines = lines_of_members(m, ks, pad);
    let j = Json::Object(m);
    let end = if n < ks.len() {
        ",\n"@
    } else {
        "\n"@
    };
    assert(ks.contains(ks[n - 1]));
    let line = pad + quoted(ks[n - 1]) + ": "@ + pretty(m[ks[n - 1]], pad);
    if n == 1 {
        assert(member_lines(j, ks, 0, pad) =~= Seq::<char>::empty());
        assert(lines.take(1) =~= seq![line]);
        law_put_together(Seq::empty(), line, ",\n"@);
        assert(member_lines(j, ks, n, pad) =~= line + end);
    } else {
        lemma_members(m, ks, pad, (n - 1) as nat);
        let before = lines.take(n - 1);
        assert(lines.take(n as int) =~= before.push(line));
        law_put_together(before, line, ",\n"@);
        assert(member_lines(j, ks, n, pad) =~= joined(before, ",\n"@) + ",\n"@ + line + end);
    }
}

/// A document is written from the margin.
pub proof fn law_document_begins_at_the_margin(j: Json)
    ensures
        document(j) == pretty(j, Seq::empty()),
{
}

/// Whether an entry has the values of a reservation: its hardware address, its IP address, and its hostname
/// where it has one that is not empty.
pub open spec fn carries(entry: Json, r: ReservationView) -> bool {
    &&& holds(entry, "hw-address"@, Json::Text(r.hw))
    &&& holds(entry, "ip-address"@, Json::Text(ip_text(r.ip)))
    &&& r.hostname is Some && r.hostname->0.len() > 0 ==> holds(entry, "hostname"@, Json::Text(r.hostname->0))
    &&& r.hostname is None || r.hostname->0.len() == 0 ==> entry is Object && !entry->Object_0.contains_key("hostname"@)
}

/// Whether a key is one of those that a reservation is written under.
pub open spec fn is_field(k: Seq<char>) -> bool {
    k == "hw-address"@ || k == "ip-address"@ || k == "hostname"@
}

/// A new entry carries its reservation and nothing else; an entry that is changed carries it too, and every
/// other member stays as it was.
pub proof fn law_entry_carries_its_reservation(m: Map<Seq<char>, Json>, r: ReservationView, k: Seq<char>)
    ensures
        carries(reservation_json(r), r),
        carries(updated_entry(Json::Object(m), r), r),
        updated_entry(Json::Object(m), r) is Object,
        !is_field(k) ==> !reservation_json(r)->Object_0.contains_key(k),
        !is_field(k) ==> (updated_entry(Json::Object(m), r)->Object_0.contains_key(k) <==> m.contains_key(k)),
        !is_field(k) && m.contains_key(k) ==> updated_entry(Json::Object(m), r)->Object_0[k] == m[k],
{
    reveal_strlit("hw-address");
    reveal_strlit("ip-address");
    reveal_strlit("hostname");
    assert("hw-address"@.len() == 10 && "ip-address"@.len() == 10 && "hostname"@.len() == 8);
    assert("hw-address"@[0] == 'h' && "ip-address"@[0] == 'i');
}

/// Whether a file differs from another in the reservations of one subnet and in nothing else.
pub open spec fn differs_in_reservations(before: Json, after: Json, idx: nat, list: Seq<Json>) -> bool {
    &&& exists|j: Json| #[trigger] has_subnet(after, idx, j) && holds(j, "reservations"@, Json::Array(list))
    &&& forall|i: nat, j: Json| i != idx ==> (#[trigger] has_subnet(after, i, j) <==> has_subnet(before, i, j))
    &&& forall|j: Json, k: Json, key: Seq<char>, v: Json|
        key != "reservations"@ && has_subnet(before, idx, j) && has_subnet(after, idx, k) ==> (#[trigger] holds(j, key, v)
            <==> #[trigger] holds(k, key, v))
    &&& forall|key: Seq<char>, v: Json|
        key != "Dhcp4"@ ==> (#[trigger] holds(before, key, v) <==> #[trigger] holds(after, key, v))
    &&& forall|d: Json, e: Json, key: Seq<char>, v: Json|
        key != "subnet4"@ && holds(before, "Dhcp4"@, d) && holds(after, "Dhcp4"@, e) ==> (#[trigger] holds(d, key, v)
            <==> #[trigger] holds(e, key, v))
}

/// A new reservation is written behind all others of its subnet, and nothing else in the file changes.
pub proof fn law_new_reservation_is_written(file: Json, idx: nat, f: FormView, mac: Option<Seq<char>>, r: ReservationView)
    requires
        submitted(file, idx, None, f, mac).1 is Ok,
        asks_for(f, r),
    ensures
        exists|j: Json, list: Seq<Json>, entry: Json| #[trigger]
            is_list_of(file, idx, j, list) && #[trigger] is_new_entry(entry, r) && differs_in_reservations(
                file,
                submitted(file, idx, None, f, mac).0,
                idx,
                list.push(entry),
            ),
{
    law_form_is_read(f, r);
    let list = reservation_list(file, idx)->Ok_0;
    let entry = reservation_json(r);
    assert forall|k: Seq<char>| !is_field(k) implies !#[trigger] entry->Object_0.contains_key(k) by {
        law_entry_carries_its_reservation(Map::empty(), r, k);
    }
    law_entry_carries_its_reservation(Map::empty(), r, Seq::empty());
    assert(is_new_entry(entry, r));
    let j = subnets(file)->0[idx as int];
    lemma_list_there(file, idx);
    assert(is_list_of(file, idx, j, list));
    lemma_only_reservations_differ(file, idx, list.push(entry));
}

/// Whether some entries are the reservations of a subnet of a file.
pub open spec fn is_list_of(file: Json, idx: nat, j: Json, list: Seq<Json>) -> bool {
    has_subnet(file, idx, j) && holds(j, "reservations"@, Json::Array(list))
}

/// Whether an entry carries a reservation and nothing else.
pub open spec fn is_new_entry(entry: Json, r: ReservationView) -> bool {
    carries(entry, r) && forall|k: Seq<char>| !is_field(k) ==> !#[trigger] entry->Object_0.contains_key(k)
}

/// Whether an entry carries a reservation in place of what another did, and is otherwise the same.
pub open spec fn is_changed_entry(old: Json, entry: Json, r: ReservationView) -> bool {
    carries(entry, r) && forall|k: Seq<char>, v: Json|
        !is_field(k) ==> (#[trigger] holds(old, k, v) <==> #[trigger] holds(entry, k, v))
}

/// A changed reservation is written into the entry of its row, whose other members stay, and nothing else in
/// the file changes.
pub proof fn law_changed_reservation_is_written(
    file: Json,
    idx: nat,
    row: usize,
    f: FormView,
    mac: Option<Seq<char>>,
    r: ReservationView,
)
    requires
        submitted(file, idx, Some(row), f, mac).1 is Ok,
        asks_for(f, r),
    ensures
        exists|j: Json, list: Seq<Json>, k: int, entry: Json| #[trigger]
            is_list_of(file, idx, j, list) && 0 <= k < list.len() && is_reservation_entry(
                list[k],
                subnet_of(file, idx)->Ok_0.reservations[row as int],
            ) && #[trigger] is_changed_entry(list[k], entry, r) && differs_in_reservations(
                file,
                submitted(file, idx, Some(row), f, mac).0,
                idx,
                list.update(k, entry),
            ),
{
    law_form_is_read(f, r);
    let list = reservation_list(file, idx)->Ok_0;
    law_entry_of_row(list, row as nat);
    let k = row_place(file, idx, row as nat)->Ok_0 as int;
    let old = subnet_of(file, idx)->Ok_0.reservations[row as int];
    law_entry_is_read(list[k], old);
    let entry = updated_entry(list[k], r);
    let m = list[k]->Object_0;
    assert(list[k] == Json::Object(m));
    law_entry_carries_its_reservation(m, r, Seq::empty());
    assert forall|key: Seq<char>, v: Json| !is_field(key) implies (#[trigger] holds(list[k], key, v)
        <==> #[trigger] holds(entry, key, v)) by {
        law_entry_carries_its_reservation(m, r, key);
    }
    assert(is_changed_entry(list[k], entry, r));
    let j = subnets(file)->0[idx as int];
    lemma_list_there(file, idx);
    assert(is_list_of(file, idx, j, list));
    lemma_only_reservations_differ(file, idx, list.update(k, entry));
}

/// A deleted reservation is taken out with the entry of its row, and nothing else in the file changes.
pub proof fn law_deleted_reservation_is_taken_out(file: Json, idx: nat, row: usize)
    requires
        subnet_of(file, idx) is Ok,
        deleted(file, idx, row).1 is Ok,
    ensures
        exists|j: Json, list: Seq<Json>, k: int| #[trigger]
            is_list_of(file, idx, j, list) && 0 <= k < list.len() && #[trigger] is_reservation_entry(
                list[k],
                subnet_of(file, idx)->Ok_0.reservations[row as int],
            ) && differs_in_reservations(file, deleted(file, idx, row).0, idx, list.remove(k)),
{
    let list = reservation_list(file, idx)->Ok_0;
    law_entry_of_row(list, row as nat);
    let k = row_place(file, idx, row as nat)->Ok_0 as int;
    law_entry_is_read(list[k], subnet_of(file, idx)->Ok_0.reservations[row as int]);
    let j = subnets(file)->0[idx as int];
    lemma_list_there(file, idx);
    assert(is_list_of(file, idx, j, list));
    lemma_only_reservations_differ(file, idx, list.remove(k));
}

proof fn lemma_list_there(file: Json, idx: nat)
    requires
        reservation_list(file, idx) is Ok,
    ensures
        is_list_of(file, idx, subnets(file)->0[idx as int], reservation_list(file, idx)->Ok_0),
{
    let d = dhcp4(file)->0;
    let s = subnets(file)->0;
    law_members_are_found(file, "Dhcp4"@);
    law_members_are_found(d, "subnet4"@);
    law_members_are_found(s[idx as int], "reservations"@);
    assert(has_subnet_in(file, idx, s[idx as int], d, s));
}

proof fn lemma_only_reservations_differ(file: Json, idx: nat, list: Seq<Json>)
    requires
        reservation_list(file, idx) is Ok,
    ensures
        differs_in_reservations(file, with_reservations(file, idx, list), idx, list),
{
    let after = with_reservations(file, idx, list);
    let (d, s) = (dhcp4(file)->0, subnets(file)->0);
    let j = s[idx as int];
    let j2 = with_member(j, "reservations"@, Json::Array(list));
    let s2 = s.update(idx as int, j2);
    let d2 = with_member(d, "subnet4"@, Json::Array(s2));
    assert(holds(file, "Dhcp4"@, d));
    assert(holds(d, "subnet4"@, Json::Array(s)));
    assert(holds(after, "Dhcp4"@, d2));
    assert(holds(d2, "subnet4"@, Json::Array(s2)));
    assert(has_subnet_in(after, idx, j2, d2, s2));
    assert(has_subnet_in(file, idx, j, d, s));
    assert(holds(j2, "reservations"@, Json::Array(list)));
    assert forall|i: nat, x: Json| i != idx implies (#[trigger] has_subnet(after, i, x) <==> has_subnet(file, i, x)) by {
        if has_subnet(after, i, x) {
            let (e, t) = choose|e: Json, t: Seq<Json>| #[trigger] has_subnet_in(after, i, x, e, t);
            assert(e == d2 && t == s2);
            assert(has_subnet_in(file, i, x, d, s));
        }
        if has_subnet(file, i, x) {
            let (e, t) = choose|e: Json, t: Seq<Json>| #[trigger] has_subnet_in(file, i, x, e, t);
            assert(e == d && t == s);
            assert(has_subnet_in(after, i, x, d2, s2));
        }
    }
    assert forall|x: Json, y: Json, key: Seq<char>, v: Json|
        key != "reservations"@ && has_subnet(file, idx, x) && has_subnet(after, idx, y) implies (#[trigger] holds(x, key, v)
        <==> #[trigger] holds(y, key, v)) by {
        let (e, t) = choose|e: Json, t: Seq<Json>| #[trigger] has_subnet_in(file, idx, x, e, t);
        let (g, u) = choose|g: Json, u: Seq<Json>| #[trigger] has_subnet_in(after, idx, y, g, u);
        assert(x == j && y == j2);
    }
    assert(has_subnet(after, idx, j2));
}

/// The file that is written first is another than the one it is to replace, and none of its backups.
pub proof fn law_new_version_is_written_aside(file_name: Seq<char>)
    ensures
        temporary(file_name) != file_name,
        stamp(file_name, temporary(file_name)) is None,
        stamp(file_name, file_name) is None,
{
    let t = temporary(file_name);
    assert(t.len() > file_name.len()) by {
        reveal_strlit(".");
    }
    reveal_strlit(".bak");
    reveal_strlit(".tmp");
    reveal_strlit(".");
    let found = between(t, file_name + "."@, ".bak"@);
    if found is Some {
        law_found_between(t, file_name + "."@, found->0, ".bak"@);
        let n = t.len() - 1;
        assert(t[n] == 'p');
        assert((file_name + "."@ + found->0 + ".bak"@)[n] == 'k');
    }
    let other = between(file_name, file_name + "."@, ".bak"@);
    if other is Some {
        law_found_between(file_name, file_name + "."@, other->0, ".bak"@);
    }
}

/// Without a file there is nothing to back up, and the new one is written at once; with one, the backup has
/// the time in its name, and without the time nothing is written.
pub proof fn law_backup_comes_first(job: JobView, t: u64, e: Seq<char>)
    ensures
        next_of(job, ProgressView::Begun { exists: true, now: Ok(t) }) == (StepView::Copy {
            to: job.file_name + "."@ + dec(t as nat) + ".bak"@,
        }),
        next_of(job, ProgressView::Begun { exists: true, now: Err(e) }) is Finish,
        next_of(job, ProgressView::Begun { exists: true, now: Err(e) })->Finish_0 is Err,
        next_of(job, ProgressView::Begun { exists: false, now: Ok(t) }) is Write,
        next_of(job, ProgressView::Begun { exists: false, now: Err(e) }) is Write,
        next_of(job, ProgressView::Begun { exists: false, now: Ok(t) })->text == job.text,
        next_of(job, ProgressView::Copied(Ok(()))) is List,
        next_of(job, ProgressView::Removed) is Write,
        next_of(job, ProgressView::Removed)->text == job.text,
        next_of(job, ProgressView::Written(Ok(()))) is Replace,
        next_of(job, ProgressView::Replaced(Ok(()))) == StepView::Finish(Ok(())),
{
}

/// Whatever step fails, saving ends there with an error that names what failed.
pub proof fn law_failed_step_ends_the_saving(job: JobView, e: Seq<char>)
    ensures
        next_of(job, ProgressView::Copied(Err(e))) == StepView::Finish(Err("建立備份失敗: "@ + e)),
        next_of(job, ProgressView::Listed(Err(e))) == StepView::Finish(Err(e)),
        next_of(job, ProgressView::Written(Err(e))) == StepView::Finish(Err("寫入暫存檔失敗: "@ + e)),
        next_of(job, ProgressView::Replaced(Err(e))) == StepView::Finish(Err("替換設定檔失敗: "@ + e)),
{
}

} // verus!
