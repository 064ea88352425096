//! The ARP table: which hardware address the system has seen behind an address.
use vstd::prelude::*;

use crate::text::{opt_text, same, split, split_on, texts, words, words_of};

verus! {

/// The hardware address that a line of the ARP table gives for an address; nothing where the line
/// is the header, or of another address, or gives none.
pub open spec fn arp_entry(line: Seq<char>, target: Seq<char>) -> Option<Seq<char>> {
    let w = words_of(line);
    if w.len() >= 4 && w[0] != "IP"@ && w[0] == target && w[3] != "00:00:00:00:00:00"@ {
        Some(w[3])
    } else {
        None
    }
}

/// The hardware address that the first of the lines gives for an address that gives one.
pub open spec fn arp_lookup(lines: Seq<Seq<char>>, target: Seq<char>) -> Option<Seq<char>>
    decreases lines.len(),
{
    if lines.len() == 0 {
        None
    } else {
        match arp_lookup(lines.drop_last(), target) {
            Some(m) => Some(m),
            None => arp_entry(lines.last(), target),
        }
    }
}

/// The hardware address that a line of the ARP table gives for an address.
fn parse_arp_line(line: &str, target: &str) -> (r: Option<String>)
    ensures
        opt_text(r) == arp_entry(line@, target@),
{
    let w: Vec<String> = words(line);
    let ghost t = texts(w@);
    assert(t.len() == w@.len());
    if w.len() < 4 {
        return None;
    }
    assert(t[0] == w@[0]@ && t[3] == w@[3]@);
    if same(w[0].as_str(), "IP") {
        return None;
    }
    if same(w[0].as_str(), target) && !same(w[3].as_str(), "00:00:00:00:00:00") {
        Some(w[3].clone())
    } else {
        None
    }
}

/// The hardware address of an address in the text of the system's ARP table. The header, entries
/// that are not complete, and entries of other addresses do not count.
pub fn mac_from_arp_table(table: &str, target_ip: &str) -> (r: Option<String>)
    ensures
        opt_text(r) == arp_lookup(split_on(table@, '\n'), target_ip@),
{
    let lines: Vec<String> = split(table, '\n');
    let ghost all = texts(lines@);
    let mut i: usize = 0;
    assert(all.len() == lines@.len());
    while i < lines.len()
        invariant
            i <= lines@.len(),
            all == texts(lines@),
            all == split_on(table@, '\n'),
            arp_lookup(all.take(i as int), target_ip@) is None,
        decreases lines@.len() - i,
    {
        assert(all.take(i + 1).drop_last() =~= all.take(i as int));
        assert(all.take(i + 1).last() == lines@[i as int]@);
        match parse_arp_line(lines[i].as_str(), target_ip) {
            Some(m) => {
                proof {
                    lemma_arp_found(all, target_ip@, i + 1);
                }
                return Some(m);
            },
            None => {},
        }
        i = i + 1;
    }
    assert(all.take(all.len() as int) =~= all);
    None
}

/// Once a line gives a hardware address, those that follow do not count.
proof fn lemma_arp_found(lines: Seq<Seq<char>>, target: Seq<char>, n: int)
    requires
        0 <= n <= lines.len(),
        arp_lookup(lines.take(n), target) is Some,
    ensures
        arp_lookup(lines, target) == arp_lookup(lines.take(n), target),
    decreases lines.len(),
{
    if n == lines.len() {
        assert(lines.take(n) =~= lines);
    } else {
        assert(lines.drop_last().take(n) =~= lines.take(n));
        lemma_arp_found(lines.drop_last(), target, n);
    }
}

} // verus!
