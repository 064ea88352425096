//! Backups: what the copies of the configuration are called, and which of them are given up.
use vstd::prelude::*;
use vstd::string::*;

use crate::number::{dec, decimal, law_number_round_trip, number, parse_number};
use crate::order::{
    ascending, be, be_bytes, be_limit, keys_of, law_be_order, law_order_lists_all, listed_before, order_of, sort_order,
};
use crate::text::{between, opt_text, strip, texts};

verus! {

/// The name of the backup of a file that is made at a time.
pub open spec fn backup_name(file_name: Seq<char>, seconds: nat) -> Seq<char> {
    file_name + "."@ + dec(seconds) + ".bak"@
}

/// The time at which the backup of a file was made, from its name; nothing where the name is that
/// of no backup of this file.
pub open spec fn stamp(file_name: Seq<char>, name: Seq<char>) -> Option<nat> {
    match between(name, file_name + "."@, ".bak"@) {
        Some(t) => number(t, u64::MAX as nat),
        None => None,
    }
}

/// The backups of a file among the names of a directory, each with its time.
pub open spec fn backups_among(file_name: Seq<char>, names: Seq<Seq<char>>) -> Seq<(nat, Seq<char>)>
    decreases names.len(),
{
    if names.len() == 0 {
        Seq::empty()
    } else {
        let before = backups_among(file_name, names.drop_last());
        match stamp(file_name, names.last()) {
            Some(t) => before.push((t, names.last())),
            None => before,
        }
    }
}

/// Times as bytes, in the order of the times.
pub open spec fn stamp_keys(b: Seq<(nat, Seq<char>)>) -> Seq<Seq<u8>> {
    b.map_values(|x: (nat, Seq<char>)| be(x.0, 8))
}

/// How many of `n` backups are given up where `keep` are to stay.
pub open spec fn surplus(n: nat, keep: nat) -> nat {
    if n > keep {
        (n - keep) as nat
    } else {
        0
    }
}

/// The backups that are given up, the oldest first: all but the newest `keep`.
pub open spec fn expired(b: Seq<(nat, Seq<char>)>, keep: nat) -> Seq<Seq<char>> {
    order_of(stamp_keys(b)).take(surplus(b.len(), keep) as int).map_values(|i: usize| b[i as int].1)
}

/// The time of a backup is read from the name that was made for it.
pub proof fn law_backup_name_round_trip(file_name: Seq<char>, seconds: u64)
    ensures
        stamp(file_name, backup_name(file_name, seconds as nat)) == Some(seconds as nat),
{
    let name = backup_name(file_name, seconds as nat);
    let prefix = file_name + "."@;
    let t = dec(seconds as nat);
    assert(name.subrange(0, prefix.len() as int) =~= prefix);
    let rest = name.skip(prefix.len() as int);
    assert(rest =~= t + ".bak"@);
    assert(rest.subrange(rest.len() - ".bak"@.len(), rest.len() as int) =~= ".bak"@);
    assert(name.subrange(prefix.len() as int, name.len() - ".bak"@.len()) =~= t);
    law_number_round_trip(seconds as nat, u64::MAX as nat);
}

/// Times of 64 bits are ordered as their keys are.
proof fn lemma_stamp_order(a: nat, b: nat)
    requires
        a <= u64::MAX,
        b <= u64::MAX,
    ensures
        crate::order::lex_lt(be(a, 8), be(b, 8)) <==> a < b,
        be(a, 8) == be(b, 8) <==> a == b,
{
    reveal_with_fuel(be_limit, 9);
    law_be_order(a, b, 8);
}

/// The times of backups are of 64 bits, and there are no more backups than names.
proof fn lemma_times_fit(file_name: Seq<char>, names: Seq<Seq<char>>)
    ensures
        backups_among(file_name, names).len() <= names.len(),
        forall|i: int|
            0 <= i < backups_among(file_name, names).len() ==> (#[trigger] backups_among(file_name, names)[i]).0
                <= u64::MAX,
    decreases names.len(),
{
    if names.len() > 0 {
        lemma_times_fit(file_name, names.drop_last());
    }
}

/// Of the backups among the names of a directory all but the newest are given up: so many stay as
/// are to be kept, where there are so many, and none that stays is older than one that is given up.
pub proof fn law_newest_are_kept(file_name: Seq<char>, names: Seq<Seq<char>>, keep: nat)
    requires
        names.len() <= usize::MAX,
    ensures
        ({
            let b = backups_among(file_name, names);
            let order = order_of(stamp_keys(b));
            &&& expired(b, keep).len() == surplus(b.len(), keep)
            &&& b.len() - expired(b, keep).len() == (if b.len() < keep {
                b.len()
            } else {
                keep
            })
            &&& order.len() == b.len()
            &&& order.no_duplicates()
            &&& forall|i: int, j: int|
                0 <= i < surplus(b.len(), keep) <= j < b.len() ==> b[#[trigger] order[i] as int].0 <= b[
                #[trigger] order[j] as int].0
        }),
{
    let b = backups_among(file_name, names);
    let keys = stamp_keys(b);
    let order = order_of(keys);
    lemma_times_fit(file_name, names);
    law_order_lists_all(keys);
    assert forall|i: int, j: int| 0 <= i < surplus(b.len(), keep) <= j < b.len() implies b[
    #[trigger] order[i] as int].0 <= b[#[trigger] order[j] as int].0 by {
        assert(listed_before(keys, order[i] as int, order[j] as int));
        assert(order.contains(order[i]));
        assert(order.contains(order[j]));
        lemma_stamp_order(b[order[i] as int].0, b[order[j] as int].0);
    }
}

/// The name of the backup to make of a file at a time; none where there is no such file.
pub fn backup(exists: bool, file_name: &str, seconds: u64) -> (r: Option<String>)
    ensures
        opt_text(r) == (if exists {
            Some(backup_name(file_name@, seconds as nat))
        } else {
            None
        }),
{
    if !exists {
        return None;
    }
    let mut name: String = file_name.to_owned();
    name.append(".");
    name.append(decimal(seconds).as_str());
    name.append(".bak");
    Some(name)
}

/// The backups of a file among the names of its directory that are given up, the oldest first,
/// where `keep` of them are to stay.
pub fn expired_backups(file_name: &str, names: &Vec<String>, keep: usize) -> (r: Vec<String>)
    ensures
        texts(r@) == expired(backups_among(file_name@, texts(names@)), keep as nat),
{
    let mut prefix: String = file_name.to_owned();
    prefix.append(".");
    let ghost all = texts(names@);
    let mut times: Vec<Vec<u8>> = Vec::new();
    let mut found: Vec<String> = Vec::new();
    let ghost mut b: Seq<(nat, Seq<char>)> = Seq::empty();
    let mut i: usize = 0;
    assert(b =~= backups_among(file_name@, all.take(0)));
    assert(keys_of(times@) =~= stamp_keys(b));
    while i < names.len()
        invariant
            i <= names@.len(),
            all == texts(names@),
            prefix@ == file_name@ + "."@,
            b == backups_among(file_name@, all.take(i as int)),
            keys_of(times@) == stamp_keys(b),
            found@.len() == b.len(),
            times@.len() == b.len(),
            forall|j: int| 0 <= j < b.len() ==> (#[trigger] found@[j])@ == b[j].1,
        decreases names@.len() - i,
    {
        assert(all.take(i + 1).drop_last() =~= all.take(i as int));
        assert(all.take(i + 1).last() == names@[i as int]@);
        match strip(names[i].as_str(), prefix.as_str(), ".bak") {
            Some(t) => match parse_number(t.as_str(), u64::MAX) {
                Some(seconds) => {
                    let ghost before = times@;
                    let key: Vec<u8> = be_bytes(seconds, 8);
                    times.push(key);
                    found.push(names[i].clone());
                    proof {
                        let entry = (seconds as nat, names@[i as int]@);
                        assert(keys_of(times@) =~= keys_of(before).push(be(seconds as nat, 8)));
                        assert(stamp_keys(b.push(entry)) =~= stamp_keys(b).push(be(seconds as nat, 8)));
                        b = b.push(entry);
                    }
                },
                None => {},
            },
            None => {},
        }
        i = i + 1;
    }
    assert(all.take(all.len() as int) =~= all);
    let order: Vec<usize> = sort_order(&times);
    let extra: usize = if found.len() > keep {
        found.len() - keep
    } else {
        0
    };
    let ghost gone = expired(b, keep as nat);
    let mut out: Vec<String> = Vec::new();
    let mut k: usize = 0;
    assert(texts(out@) =~= gone.take(0));
    while k < extra
        invariant
            k <= extra,
            extra == surplus(b.len(), keep as nat),
            order@ == order_of(stamp_keys(b)),
            ascending(stamp_keys(b), 0, b.len() as int, order@),
            order@.len() == b.len(),
            found@.len() == b.len(),
            gone == expired(b, keep as nat),
            forall|j: int| 0 <= j < b.len() ==> (#[trigger] found@[j])@ == b[j].1,
            texts(out@) == gone.take(k as int),
        decreases extra - k,
    {
        assert(order@.contains(order@[k as int]));
        let ghost before = out@;
        out.push(found[order[k]].clone());
        assert(texts(out@) =~= texts(before).push(b[order@[k as int] as int].1));
        assert(gone[k as int] == b[order@[k as int] as int].1);
        assert(gone.take(k + 1) =~= gone.take(k as int).push(gone[k as int]));
        k = k + 1;
    }
    assert(gone.take(gone.len() as int) =~= gone);
    out
}

} // verus!
