//! Hardware addresses: the forms in which they are typed, and the one in which they are kept.
use vstd::prelude::*;
use vstd::string::*;

use crate::text::{
    chars_of, contains_char, hex, is_hex, is_white, join, joined, lemma_join_split, lemma_split_append,
    lemma_split_join, lower, lower_ascii, lower_char, opt_text, split, split_on, texts, trim, trim_start, trimmed,
    white,
};

verus! {

/// Whether `s` is two hexadecimal digits.
pub open spec fn is_pair(s: Seq<char>) -> bool {
    s.len() == 2 && is_hex(s[0]) && is_hex(s[1])
}

/// Whether `parts` are six pairs of hexadecimal digits.
pub open spec fn are_pairs(parts: Seq<Seq<char>>) -> bool {
    parts.len() == 6 && forall|i: int| 0 <= i < 6 ==> is_pair(#[trigger] parts[i])
}

/// Six pairs as they are kept: in small letters, with colons between them.
pub open spec fn with_colons(parts: Seq<Seq<char>>) -> Seq<char> {
    lower_ascii(joined(parts, seq![':']))
}

/// The hardware address that `s` writes with a separator between its six pairs.
pub open spec fn separated_mac(s: Seq<char>, sep: char) -> Option<Seq<char>> {
    if are_pairs(split_on(s, sep)) {
        Some(with_colons(split_on(s, sep)))
    } else {
        None
    }
}

/// The hardware address that `s` writes with colons or with hyphens, as it is kept.
pub open spec fn mac_of(s: Seq<char>) -> Option<Seq<char>> {
    if s.contains(':') {
        separated_mac(s, ':')
    } else if s.contains('-') {
        separated_mac(s, '-')
    } else {
        None
    }
}

/// The hexadecimal digits of `s`.
pub open spec fn hex_digits(s: Seq<char>) -> Seq<char> {
    s.filter(|c: char| is_hex(c))
}

/// The pairs that twelve digits make.
pub open spec fn pairs(h: Seq<char>) -> Seq<Seq<char>> {
    Seq::new(6, |i: int| h.subrange(2 * i, 2 * i + 2))
}

/// Whether `s` holds hexadecimal digits and white space alone.
pub open spec fn hex_or_white(s: Seq<char>) -> bool {
    forall|i: int| 0 <= i < s.len() ==> is_hex(#[trigger] s[i]) || is_white(s[i])
}

/// The hardware address that `s` writes without separators: twelve digits, with or without white
/// space between them.
pub open spec fn bare_mac(s: Seq<char>) -> Option<Seq<char>> {
    if hex_or_white(s) && hex_digits(s).len() == 12 {
        Some(with_colons(pairs(hex_digits(s))))
    } else {
        None
    }
}

/// The hardware address that a pasted cell writes, in any of the forms, with or without white
/// space around it.
pub open spec fn pasted_mac(s: Seq<char>) -> Option<Seq<char>> {
    let t = trimmed(s);
    if t.contains(':') || t.contains('-') {
        mac_of(t)
    } else {
        bare_mac(t)
    }
}

/// Whether `s` is a hardware address in the form in which it is kept: six pairs of hexadecimal
/// digits in small letters, with colons between them.
pub open spec fn is_kept_mac(s: Seq<char>) -> bool {
    are_pairs(split_on(s, ':')) && lower_ascii(s) == s
}

/// Letters are made small piece by piece.
proof fn lemma_lower_joined(parts: Seq<Seq<char>>, sep: char)
    requires
        lower(sep) == sep,
    ensures
        lower_ascii(joined(parts, seq![sep])) == joined(
            parts.map_values(|p: Seq<char>| lower_ascii(p)),
            seq![sep],
        ),
    decreases parts.len(),
{
    let low = parts.map_values(|p: Seq<char>| lower_ascii(p));
    if parts.len() == 0 {
        assert(lower_ascii(joined(parts, seq![sep])) =~= joined(low, seq![sep]));
    } else if parts.len() > 1 {
        lemma_lower_joined(parts.drop_last(), sep);
        assert(low.drop_last() =~= parts.drop_last().map_values(|p: Seq<char>| lower_ascii(p)));
        assert(lower_ascii(joined(parts, seq![sep])) =~= lower_ascii(joined(parts.drop_last(), seq![sep]))
            + seq![sep] + lower_ascii(parts.last()));
    }
}

/// What six pairs make is in the form in which it is kept.
proof fn lemma_with_colons(parts: Seq<Seq<char>>)
    requires
        are_pairs(parts),
    ensures
        is_kept_mac(with_colons(parts)),
        split_on(with_colons(parts), ':') == parts.map_values(|p: Seq<char>| lower_ascii(p)),
{
    let low = parts.map_values(|p: Seq<char>| lower_ascii(p));
    lemma_lower_joined(parts, ':');
    assert forall|i: int| 0 <= i < low.len() implies is_pair(#[trigger] low[i]) && !low[i].contains(':') by {
        assert(is_pair(parts[i]));
        assert(low[i][0] == lower(parts[i][0]));
        assert(low[i][1] == lower(parts[i][1]));
    }
    lemma_split_join(low, ':');
    assert(lower_ascii(with_colons(parts)) =~= with_colons(parts)) by {
        assert forall|i: int| 0 <= i < with_colons(parts).len() implies lower(#[trigger] with_colons(parts)[i])
            == with_colons(parts)[i] by {
            assert(with_colons(parts)[i] == lower(joined(parts, seq![':'])[i]));
        }
    }
}

/// Without a separator in it, a text is one piece.
proof fn lemma_no_separator(s: Seq<char>, sep: char)
    requires
        !s.contains(sep),
    ensures
        split_on(s, sep) == seq![s],
{
    lemma_split_append(Seq::empty(), s, sep);
    assert(split_on(Seq::<char>::empty(), sep) =~= seq![Seq::<char>::empty()]);
    assert(Seq::<char>::empty() + s =~= s);
    assert(split_on(s, sep) =~= seq![s]);
}

/// Every hardware address that is accepted is kept in the same form: six pairs in small letters
/// with colons between them.
pub proof fn law_mac_form(s: Seq<char>)
    ensures
        mac_of(s) is Some ==> is_kept_mac(mac_of(s)->0),
        pasted_mac(s) is Some ==> is_kept_mac(pasted_mac(s)->0),
{
    if mac_of(s) is Some {
        lemma_mac_form(s);
    }
    let t = trimmed(s);
    if pasted_mac(s) is Some {
        if t.contains(':') || t.contains('-') {
            lemma_mac_form(t);
        } else {
            let h = hex_digits(t);
            broadcast use vstd::seq_lib::group_filter_ensures;

            assert(forall|k: int| 0 <= k < 12 ==> is_hex(#[trigger] h[k]));
            assert forall|i: int| 0 <= i < 6 implies is_pair(#[trigger] pairs(h)[i]) by {
                assert(is_hex(h[2 * i]));
                assert(is_hex(h[2 * i + 1]));
                assert(pairs(h)[i][0] == h[2 * i]);
                assert(pairs(h)[i][1] == h[2 * i + 1]);
            }
            lemma_with_colons(pairs(h));
        }
    }
}

proof fn lemma_mac_form(s: Seq<char>)
    requires
        mac_of(s) is Some,
    ensures
        is_kept_mac(mac_of(s)->0),
{
    if s.contains(':') {
        lemma_with_colons(split_on(s, ':'));
    } else {
        lemma_with_colons(split_on(s, '-'));
    }
}

/// A kept hardware address has no white space around it.
proof fn lemma_kept_untrimmed(s: Seq<char>, sep: char)
    requires
        are_pairs(split_on(s, sep)),
    ensures
        trimmed(s) == s,
{
    let parts = split_on(s, sep);
    lemma_join_split(s, sep);
    reveal_with_fuel(joined, 7);
    let d = seq![sep];
    assert(is_pair(parts[0]) && is_pair(parts[1]) && is_pair(parts[2]) && is_pair(parts[3]) && is_pair(parts[4])
        && is_pair(parts[5]));
    let p5 = parts.drop_last();
    let p4 = p5.drop_last();
    let p3 = p4.drop_last();
    let p2 = p3.drop_last();
    let p1 = p2.drop_last();
    assert(s == joined(p5, d) + d + parts[5]);
    assert(joined(p5, d) == joined(p4, d) + d + parts[4]);
    assert(joined(p4, d) == joined(p3, d) + d + parts[3]);
    assert(joined(p3, d) == joined(p2, d) + d + parts[2]);
    assert(joined(p2, d) == joined(p1, d) + d + parts[1]);
    assert(joined(p1, d) == parts[0]);
    assert(s[0] == parts[0][0]);
    assert(s.last() == parts[5][1]);
    assert(trim_start(s) == s);
}

/// A kept hardware address is accepted again, everywhere, and stays what it is.
pub proof fn law_mac_idempotent(s: Seq<char>)
    requires
        is_kept_mac(s),
    ensures
        mac_of(s) == Some(s),
        pasted_mac(s) == Some(s),
{
    let parts = split_on(s, ':');
    if !s.contains(':') {
        lemma_no_separator(s, ':');
    }
    lemma_join_split(s, ':');
    lemma_kept_untrimmed(s, ':');
}

/// Where the form takes a hardware address, pasting takes it too, and both keep the same.
pub proof fn law_paste_accepts_what_the_form_accepts(s: Seq<char>)
    requires
        mac_of(s) is Some,
    ensures
        pasted_mac(s) == mac_of(s),
{
    if s.contains(':') {
        lemma_kept_untrimmed(s, ':');
    } else {
        lemma_kept_untrimmed(s, '-');
    }
}

/// Whether `s` is two hexadecimal digits.
fn pair(s: &str) -> (r: bool)
    ensures
        r == is_pair(s@),
{
    let x: Vec<char> = chars_of(s);
    x.len() == 2 && hex(x[0]) && hex(x[1])
}

/// Pairs as they are kept.
fn colons(parts: &Vec<String>) -> (r: String)
    ensures
        r@ == with_colons(texts(parts@)),
{
    proof {
        reveal_strlit(":");
        assert(":"@ =~= seq![':']);
    }
    let text: String = join(parts, ":");
    let x: Vec<char> = chars_of(text.as_str());
    let mut out: String = String::new();
    let mut i: usize = 0;
    while i < x.len()
        invariant
            i <= x@.len(),
            out@ == lower_ascii(x@.take(i as int)),
        decreases x@.len() - i,
    {
        out.push(lower_char(x[i]));
        assert(lower_ascii(x@.take(i + 1)) =~= lower_ascii(x@.take(i as int)).push(lower(x@[i as int])));
        i = i + 1;
    }
    assert(x@.take(x@.len() as int) =~= x@);
    out
}

/// The hardware address that `s` writes with a separator between its six pairs.
fn normalize_separated(s: &str, sep: char) -> (r: Option<String>)
    ensures
        opt_text(r) == separated_mac(s@, sep),
{
    let parts: Vec<String> = split(s, sep);
    let ghost all = texts(parts@);
    if parts.len() != 6 {
        assert(all.len() != 6);
        return None;
    }
    let mut i: usize = 0;
    while i < parts.len()
        invariant
            i <= parts@.len() == 6,
            all == texts(parts@),
            all == split_on(s@, sep),
            forall|j: int| 0 <= j < i ==> is_pair(#[trigger] all[j]),
        decreases parts@.len() - i,
    {
        if !pair(parts[i].as_str()) {
            assert(!is_pair(all[i as int]));
            return None;
        }
        assert(is_pair(all[i as int]));
        i = i + 1;
    }
    Some(colons(&parts))
}

/// Takes six pairs of hexadecimal digits with colons or hyphens between them, and gives them in
/// small letters with colons.
pub fn normalize_mac(s: &str) -> (r: Option<String>)
    ensures
        opt_text(r) == mac_of(s@),
{
    if contains_char(s, ':') {
        normalize_separated(s, ':')
    } else if contains_char(s, '-') {
        normalize_separated(s, '-')
    } else {
        None
    }
}

/// Takes twelve hexadecimal digits, with or without white space between them.
fn normalize_bare(s: &str) -> (r: Option<String>)
    ensures
        opt_text(r) == bare_mac(s@),
{
    let x: Vec<char> = chars_of(s);
    let ghost keep = |c: char| is_hex(c);
    let mut h: Vec<char> = Vec::new();
    let mut i: usize = 0;
    reveal(Seq::filter);
    assert(x@.take(0).filter(keep) =~= Seq::<char>::empty());
    while i < x.len()
        invariant
            x@ == s@,
            i <= x@.len(),
            keep == (|c: char| is_hex(c)),
            h@ == x@.take(i as int).filter(keep),
            forall|j: int| 0 <= j < i ==> is_hex(#[trigger] x@[j]) || is_white(x@[j]),
        decreases x@.len() - i,
    {
        reveal(Seq::filter);
        assert(x@.take(i + 1).drop_last() =~= x@.take(i as int));
        if hex(x[i]) {
            h.push(x[i]);
        } else if !white(x[i]) {
            return None;
        }
        i = i + 1;
    }
    assert(x@.take(x@.len() as int) =~= x@);
    if h.len() != 12 {
        return None;
    }
    let mut parts: Vec<String> = Vec::new();
    let mut k: usize = 0;
    while k < 6
        invariant
            k <= 6,
            h@.len() == 12,
            texts(parts@) == pairs(h@).take(k as int),
        decreases 6 - k,
    {
        let ghost before = parts@;
        parts.push(crate::text::text_of(&h, 2 * k, 2 * k + 2));
        assert(pairs(h@).take(k + 1) =~= pairs(h@).take(k as int).push(h@.subrange(2 * k as int, 2 * k + 2)));
        assert(texts(parts@) =~= texts(before).push(h@.subrange(2 * k as int, 2 * k + 2)));
        k = k + 1;
    }
    assert(pairs(h@).take(6) =~= pairs(h@));
    Some(colons(&parts))
}

/// Takes a hardware address as a spreadsheet may write it: with colons, with hyphens, or as twelve
/// digits, with or without white space between them. Gives it in small letters with colons.
pub fn normalize_mac_paste(s: &str) -> (r: Option<String>)
    ensures
        opt_text(r) == pasted_mac(s@),
{
    let t: String = trim(s);
    if contains_char(t.as_str(), ':') || contains_char(t.as_str(), '-') {
        normalize_mac(t.as_str())
    } else {
        normalize_bare(t.as_str())
    }
}

} // verus!
