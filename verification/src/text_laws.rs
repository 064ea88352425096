//! What holds of all texts: how they are trimmed, divided, put together and searched, and how numbers
//! are read and written.
use vstd::prelude::*;

use crate::number::{dec, lemma_dec_digits, lemma_dec_value, number, value};
use crate::text::{
    between, blank, has_text, is_digit, is_white, joined, lemma_join_split, lemma_split_join, lemma_split_nonempty,
    lower_ascii, split_first, split_on, stands_at, trim_end, trim_start, trimmed, without_returns, words_of,
};

verus! {

/// Whether a text holds nothing but white space.
pub open spec fn all_white(s: Seq<char>) -> bool {
    forall|i: int| 0 <= i < s.len() ==> is_white(#[trigger] s[i])
}

/// Whether a text neither begins nor ends with white space.
pub open spec fn is_tidy(s: Seq<char>) -> bool {
    s.len() > 0 ==> !is_white(s[0]) && !is_white(s[s.len() - 1])
}

/// Of the characters of ASCII, the blank, the tab, the line feed, the vertical tab, the form feed and
/// the carriage return are white space, and no other.
pub proof fn law_white_space_of_ascii(c: char)
    requires
        c <= '\u{7f}',
    ensures
        is_white(c) <==> (c == ' ' || c == '\t' || c == '\n' || c == '\u{b}' || c == '\u{c}' || c == '\r'),
{
}

/// Beyond ASCII, white space are the twenty-one further characters that Unicode counts as such.
pub proof fn law_white_space_beyond_ascii(c: char)
    requires
        c > '\u{7f}',
    ensures
        is_white(c) <==> {
            let n = c as int;
            ||| n == 0x85 || n == 0xa0 || n == 0x1680
            ||| 0x2000 <= n <= 0x200a
            ||| n == 0x2028 || n == 0x2029 || n == 0x202f || n == 0x205f || n == 0x3000
        },
{
}

/// Trimming takes the white space around a text away, and nothing else.
pub proof fn law_trimming_takes_white_space(a: Seq<char>, t: Seq<char>, b: Seq<char>)
    requires
        all_white(a),
        all_white(b),
        is_tidy(t),
    ensures
        trimmed(a + t + b) == t,
{
    lemma_trim_start(a, t + b);
    assert(a + t + b =~= a + (t + b));
    if t.len() == 0 {
        assert(t + b =~= b);
        assert(b + t =~= b);
        lemma_trim_start(b, t);
        assert(trim_start(t + b) =~= t);
    } else {
        assert((t + b)[0] == t[0]);
        lemma_trim_end(t, b);
    }
}

proof fn lemma_trim_start(a: Seq<char>, s: Seq<char>)
    requires
        all_white(a),
    ensures
        trim_start(a + s) == trim_start(s),
    decreases a.len(),
{
    if a.len() == 0 {
        assert(a + s =~= s);
    } else {
        let rest = a.drop_first();
        assert forall|i: int| 0 <= i < rest.len() implies is_white(#[trigger] rest[i]) by {
            assert(rest[i] == a[i + 1]);
        }
        lemma_trim_start(rest, s);
        assert((a + s)[0] == a[0]);
        assert((a + s).drop_first() =~= rest + s);
    }
}

proof fn lemma_trim_end(s: Seq<char>, b: Seq<char>)
    requires
        all_white(b),
    ensures
        trim_end(s + b) == trim_end(s),
    decreases b.len(),
{
    if b.len() == 0 {
        assert(s + b =~= s);
    } else {
        let rest = b.drop_last();
        assert forall|i: int| 0 <= i < rest.len() implies is_white(#[trigger] rest[i]) by {
            assert(rest[i] == b[i]);
        }
        lemma_trim_end(s, rest);
        assert((s + b).last() == b[b.len() - 1]);
        assert((s + b).drop_last() =~= s + rest);
    }
}

/// Whether `t` is `s` without the white space around it: `a` and `b` are what stood there.
pub open spec fn stands_within(s: Seq<char>, a: Seq<char>, t: Seq<char>, b: Seq<char>) -> bool {
    all_white(a) && is_tidy(t) && all_white(b) && s == a + t + b
}

/// Every text is what is left when it is trimmed, with white space around it.
pub proof fn law_trimmed_stands_within(s: Seq<char>)
    ensures
        exists|a: Seq<char>, b: Seq<char>| #[trigger] stands_within(s, a, trimmed(s), b),
{
    let x = lemma_split_start(s);
    let rest = trim_start(s);
    let y = lemma_split_end(rest);
    let t = trimmed(s);
    assert(rest =~= t + y);
    if t.len() > 0 {
        assert(t[0] == rest[0]);
    }
    assert(s =~= x + t + y);
    assert(stands_within(s, x, t, y));
}

proof fn lemma_split_start(s: Seq<char>) -> (a: Seq<char>)
    ensures
        all_white(a),
        s == a + trim_start(s),
        trim_start(s).len() > 0 ==> !is_white(trim_start(s)[0]),
    decreases s.len(),
{
    if s.len() > 0 && is_white(s[0]) {
        let a = lemma_split_start(s.drop_first());
        let out = seq![s[0]] + a;
        assert forall|i: int| 0 <= i < out.len() implies is_white(#[trigger] out[i]) by {
            if i > 0 {
                assert(out[i] == a[i - 1]);
            }
        }
        assert(s =~= seq![s[0]] + s.drop_first());
        assert(seq![s[0]] + (a + trim_start(s)) =~= out + trim_start(s));
        out
    } else {
        assert(s =~= Seq::<char>::empty() + s);
        Seq::empty()
    }
}

proof fn lemma_split_end(s: Seq<char>) -> (b: Seq<char>)
    ensures
        all_white(b),
        s == trim_end(s) + b,
        trim_end(s).len() > 0 ==> !is_white(trim_end(s)[trim_end(s).len() - 1]),
    decreases s.len(),
{
    if s.len() > 0 && is_white(s.last()) {
        let b = lemma_split_end(s.drop_last());
        let out = b.push(s.last());
        assert forall|i: int| 0 <= i < out.len() implies is_white(#[trigger] out[i]) by {
            if i < b.len() {
                assert(out[i] == b[i]);
            }
        }
        assert(s =~= s.drop_last().push(s.last()));
        assert((trim_end(s) + b).push(s.last()) =~= trim_end(s) + out);
        out
    } else {
        assert(s =~= s + Seq::<char>::empty());
        Seq::empty()
    }
}

/// What is divided at a character and put together again with it between the parts is the same text,
/// and no part holds the character.
pub proof fn law_divided_is_put_together(s: Seq<char>, sep: char)
    ensures
        split_on(s, sep).len() >= 1,
        joined(split_on(s, sep), seq![sep]) == s,
        forall|i: int| 0 <= i < split_on(s, sep).len() ==> !(#[trigger] split_on(s, sep)[i]).contains(sep),
    decreases s.len(),
{
    lemma_join_split(s, sep);
    lemma_split_nonempty(s, sep);
    if s.len() > 0 {
        law_divided_is_put_together(s.drop_last(), sep);
        let before = split_on(s.drop_last(), sep);
        let after = split_on(s, sep);
        assert forall|i: int| 0 <= i < after.len() implies !(#[trigger] after[i]).contains(sep) by {
            if i < before.len() - 1 {
                assert(after[i] == before[i]);
            } else if s.last() != sep {
                let b = before[before.len() - 1];
                assert(after[i] == b.push(s.last()));
                if after[i].contains(sep) {
                    let k = choose|k: int| 0 <= k < after[i].len() && after[i][k] == sep;
                    assert(k < b.len());
                    assert(b[k] == sep);
                }
            } else if i < before.len() {
                assert(after[i] == before[i]);
            }
        }
    }
}

/// Parts that do not hold a character, put together with it between them, are found again when the
/// text is divided at it.
pub proof fn law_put_together_is_divided(parts: Seq<Seq<char>>, sep: char)
    requires
        parts.len() > 0,
        forall|i: int| 0 <= i < parts.len() ==> !(#[trigger] parts[i]).contains(sep),
    ensures
        split_on(joined(parts, seq![sep]), sep) == parts,
{
    lemma_split_join(parts, sep);
}

/// Texts are put together one behind the other, with the separator between two and nowhere else.
pub proof fn law_put_together(parts: Seq<Seq<char>>, t: Seq<char>, sep: Seq<char>)
    ensures
        joined(seq![t], sep) == t,
        parts.len() > 0 ==> joined(parts.push(t), sep) == joined(parts, sep) + sep + t,
{
    if parts.len() > 0 {
        assert(parts.push(t).drop_last() =~= parts);
    }
}

/// The carriage returns at the end of a line are taken away, and nothing else.
pub proof fn law_returns_are_taken(s: Seq<char>, n: nat)
    requires
        s.len() > 0 ==> s[s.len() - 1] != '\r',
    ensures
        without_returns(s + Seq::new(n, |i: int| '\r')) == s,
    decreases n,
{
    let tail = Seq::new(n, |i: int| '\r');
    if n == 0 {
        assert(s + tail =~= s);
    } else {
        law_returns_are_taken(s, (n - 1) as nat);
        assert((s + tail).drop_last() =~= s + Seq::new((n - 1) as nat, |i: int| '\r'));
        assert((s + tail).last() == '\r');
    }
}

/// A text is found in another exactly where the other is that text with something before and behind
/// it.
pub proof fn law_found_within(whole: Seq<char>, part: Seq<char>)
    ensures
        forall|a: Seq<char>, b: Seq<char>| whole == #[trigger] (a + part + b) ==> has_text(whole, part),
        has_text(whole, part) ==> exists|a: Seq<char>, b: Seq<char>| whole == #[trigger] (a + part + b),
{
    assert forall|a: Seq<char>, b: Seq<char>| whole == #[trigger] (a + part + b) implies has_text(whole, part) by {
        assert(whole.subrange(a.len() as int, (a.len() + part.len()) as int) =~= part);
        assert(stands_at(whole, part, a.len() as int));
    }
    if has_text(whole, part) {
        let at = choose|at: int| #[trigger] stands_at(whole, part, at);
        let (a, b) = (whole.take(at), whole.skip((at + part.len()) as int));
        assert(whole =~= a + part + b);
    }
}

/// Small letters: each capital of ASCII becomes the letter that stands 32 places behind it, and every
/// other character stays.
pub proof fn law_small_letters(s: Seq<char>, i: int)
    requires
        0 <= i < s.len(),
    ensures
        lower_ascii(s).len() == s.len(),
        'A' <= s[i] <= 'Z' ==> lower_ascii(s)[i] as u32 == s[i] as u32 + 32,
        !('A' <= s[i] <= 'Z') ==> lower_ascii(s)[i] == s[i],
{
}

/// A text is divided in two at the first place where a character stands, and not at all where it
/// stands nowhere.
pub proof fn law_divided_in_two(a: Seq<char>, b: Seq<char>, sep: char)
    requires
        !a.contains(sep),
    ensures
        split_first(a + seq![sep] + b, sep) == Some((a, b)),
        split_first(a, sep) is None,
{
    let s = a + seq![sep] + b;
    assert(s[a.len() as int] == sep);
    assert(s.contains(sep));
    s.index_of_first_ensures(sep);
    let at = s.index_of_first(sep).unwrap();
    if at < a.len() {
        assert(a[at] == s[at]);
        assert(a.contains(sep));
    }
    assert(at == a.len());
    assert(s.take(at) =~= a);
    assert(s.skip(at + 1) =~= b);
}

/// What stands between a beginning and an end is found, and is found only there.
pub proof fn law_found_between(s: Seq<char>, p: Seq<char>, t: Seq<char>, q: Seq<char>)
    ensures
        between(p + t + q, p, q) == Some(t),
        between(s, p, q) == Some(t) ==> s == p + t + q,
{
    let whole = p + t + q;
    assert(whole.subrange(0, p.len() as int) =~= p);
    let rest = whole.skip(p.len() as int);
    assert(rest =~= t + q);
    assert(rest.subrange(rest.len() - q.len(), rest.len() as int) =~= q);
    assert(whole.subrange(p.len() as int, whole.len() - q.len()) =~= t);
    if between(s, p, q) == Some(t) {
        let tail = s.skip(p.len() as int);
        assert(s.subrange(0, p.len() as int) == p);
        assert(tail.subrange(tail.len() - q.len(), tail.len() as int) == q);
        assert(s =~= p + t + q);
    }
}

/// The words of a line are what white space stands between.
pub proof fn law_words_of_line(words: Seq<Seq<char>>, gap: char)
    requires
        words.len() > 0,
        is_white(gap),
        forall|i: int| 0 <= i < words.len() ==> (#[trigger] words[i]).len() > 0,
        forall|i: int, k: int| 0 <= i < words.len() && 0 <= k < words[i].len() ==> !is_white(#[trigger] words[i][k]),
    ensures
        words_of(joined(words, seq![gap])) == words,
{
    let line = joined(words, seq![gap]);
    lemma_blanked(words, gap);
    assert forall|i: int| 0 <= i < words.len() implies !(#[trigger] words[i]).contains(' ') by {
        if words[i].contains(' ') {
            let k = choose|k: int| 0 <= k < words[i].len() && words[i][k] == ' ';
            assert(!is_white(words[i][k]));
        }
    }
    lemma_split_join(words, ' ');
    let full = |w: Seq<char>| w.len() > 0;
    lemma_all_kept(words, full);
}

proof fn lemma_blanked(words: Seq<Seq<char>>, gap: char)
    requires
        is_white(gap),
        forall|i: int, k: int| 0 <= i < words.len() && 0 <= k < words[i].len() ==> !is_white(#[trigger] words[i][k]),
    ensures
        joined(words, seq![gap]).map_values(|c: char| blank(c)) == joined(words, seq![' ']),
    decreases words.len(),
{
    let line = joined(words, seq![gap]);
    if words.len() == 1 {
        assert forall|k: int| 0 <= k < words[0].len() implies blank(#[trigger] words[0][k]) == words[0][k] by {
            assert(!is_white(words[0][k]));
        }
        assert(line.map_values(|c: char| blank(c)) =~= joined(words, seq![' ']));
    } else if words.len() > 1 {
        let front = words.drop_last();
        assert forall|i: int, k: int| 0 <= i < front.len() && 0 <= k < front[i].len() implies !is_white(
            #[trigger] front[i][k],
        ) by {
            assert(front[i][k] == words[i][k]);
        }
        lemma_blanked(front, gap);
        let last = words[words.len() - 1];
        assert forall|k: int| 0 <= k < last.len() implies blank(#[trigger] last[k]) == last[k] by {
            assert(!is_white(words[words.len() - 1][k]));
        }
        let before = joined(front, seq![gap]);
        assert(line.map_values(|c: char| blank(c)) =~= before.map_values(|c: char| blank(c)) + seq![' '] + last);
    } else {
        assert(line.map_values(|c: char| blank(c)) =~= joined(words, seq![' ']));
    }
}

/// What passes a test everywhere is kept whole.
pub proof fn lemma_all_kept<A>(s: Seq<A>, keep: spec_fn(A) -> bool)
    requires
        forall|i: int| 0 <= i < s.len() ==> keep(#[trigger] s[i]),
    ensures
        s.filter(keep) == s,
    decreases s.len(),
{
    reveal(Seq::filter);
    if s.len() > 0 {
        let front = s.drop_last();
        assert forall|i: int| 0 <= i < front.len() implies keep(#[trigger] front[i]) by {
            assert(front[i] == s[i]);
        }
        lemma_all_kept(front, keep);
        assert(keep(s[s.len() - 1]));
        assert(s.filter(keep) =~= s);
    } else {
        assert(s.filter(keep) =~= s);
    }
}

/// Numbers are written in the decimal system: a number below ten is its digit, and of a larger one the
/// last digit is what is left over when it is divided by ten.
pub proof fn law_decimal(n: nat, d: nat)
    requires
        d < 10,
    ensures
        dec(d).len() == 1,
        dec(d)[0] as nat == '0' as nat + d,
        n > 0 ==> dec(10 * n + d) == dec(n) + dec(d),
{
    if n > 0 {
        assert((10 * n + d) / 10 == n);
        assert((10 * n + d) % 10 == d);
        assert(dec(10 * n + d) =~= dec(n) + dec(d));
    }
}

/// A number is read from its digits, whatever zeros and with or without a plus sign before them; one
/// that is too large is not read.
pub proof fn law_number_is_read(n: nat, zeros: nat, max: nat)
    ensures
        ({
            let text = Seq::new(zeros, |i: int| '0') + dec(n);
            &&& n <= max ==> number(text, max) == Some(n) && number(seq!['+'] + text, max) == Some(n)
            &&& n > max ==> number(text, max) is None && number(seq!['+'] + text, max) is None
        }),
{
    let text = Seq::new(zeros, |i: int| '0') + dec(n);
    lemma_dec_digits(n);
    lemma_zeros(n, zeros);
    assert(is_digit(text[0])) by {
        if zeros == 0 {
            assert(text[0] == dec(n)[0]);
        }
    }
    assert((seq!['+'] + text).skip(1) =~= text);
    assert forall|i: int| 0 <= i < text.len() implies is_digit(#[trigger] text[i]) by {
        if i >= zeros {
            assert(text[i] == dec(n)[i - zeros]);
        }
    }
}

proof fn lemma_zeros(n: nat, zeros: nat)
    ensures
        value(Seq::new(zeros, |i: int| '0') + dec(n)) == n,
{
    lemma_value_behind_zeros(zeros, dec(n));
    lemma_dec_value(n);
}

proof fn lemma_value_behind_zeros(zeros: nat, s: Seq<char>)
    ensures
        value(Seq::new(zeros, |i: int| '0') + s) == value(s),
    decreases s.len(), zeros,
{
    let z = Seq::new(zeros, |i: int| '0');
    if s.len() > 0 {
        lemma_value_behind_zeros(zeros, s.drop_last());
        assert((z + s).drop_last() =~= z + s.drop_last());
    } else if zeros > 0 {
        lemma_value_behind_zeros((zeros - 1) as nat, s);
        assert((z + s).drop_last() =~= Seq::new((zeros - 1) as nat, |i: int| '0') + s);
        assert((z + s).last() == '0');
    } else {
        assert(z + s =~= s);
    }
}

/// What is no number is not read: nothing at all, a sign alone, or anything with a character that is
/// no digit behind the first.
pub proof fn law_no_number(s: Seq<char>, i: int, max: nat)
    ensures
        s.len() == 0 ==> number(s, max) is None,
        s.len() == 1 && !is_digit(s[0]) ==> number(s, max) is None,
        0 < i < s.len() && !is_digit(s[i]) ==> number(s, max) is None,
        s.len() > 0 && !is_digit(s[0]) && s[0] != '+' ==> number(s, max) is None,
{
    if 0 < i < s.len() && !is_digit(s[i]) {
        if s[0] == '+' {
            assert(s.skip(1)[i - 1] == s[i]);
        }
    }
}

/// White space parts the words before it from those behind it, however much of it there is; nothing has no
/// words.
pub proof fn law_white_space_parts_words(a: Seq<char>, gap: char, b: Seq<char>)
    requires
        is_white(gap),
    ensures
        words_of(a + seq![gap] + b) == words_of(a) + words_of(b),
        words_of(Seq::empty()).len() == 0,
{
    let f = |c: char| blank(c);
    let full = |w: Seq<char>| w.len() > 0;
    let (x, y) = (a.map_values(f), b.map_values(f));
    assert((a + seq![gap] + b).map_values(f) =~= x + seq![' '] + y);
    lemma_split_concat(x, ' ', y);
    Seq::filter_distributes_over_add(split_on(x, ' '), split_on(y, ' '), full);
    let none = Seq::<char>::empty();
    assert(none.map_values(f) =~= none);
    assert(split_on(none, ' ') =~= seq![none]);
    reveal(Seq::filter);
    reveal_with_fuel(Seq::filter, 2);
    assert(seq![none].drop_last() =~= Seq::<Seq<char>>::empty());
    assert(seq![none].filter(full) =~= Seq::<Seq<char>>::empty());
}

proof fn lemma_split_concat(x: Seq<char>, sep: char, y: Seq<char>)
    ensures
        split_on(x + seq![sep] + y, sep) == split_on(x, sep) + split_on(y, sep),
    decreases y.len(),
{
    let whole = x + seq![sep] + y;
    law_divided_is_put_together(y, sep);
    if y.len() == 0 {
        assert(whole =~= x.push(sep));
        assert(whole.drop_last() =~= x);
        assert(split_on(whole, sep) =~= split_on(x, sep) + split_on(y, sep));
    } else {
        let rest = y.drop_last();
        law_divided_is_put_together(rest, sep);
        lemma_split_concat(x, sep, rest);
        assert(whole.drop_last() =~= x + seq![sep] + rest);
        assert(split_on(whole, sep) =~= split_on(x, sep) + split_on(y, sep));
    }
}

} // verus!
