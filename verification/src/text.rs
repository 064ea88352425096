//! Text: the character-level operations that everything else is written in.
use vstd::prelude::*;
use vstd::string::*;

verus! {

/// Trusted: `String::push` appends one character to the end of the string.
pub assume_specification[ String::push ](s: &mut String, c: char)
    ensures
        final(s)@ == old(s)@.push(c),
;

/// The contents of a sequence of strings.
pub open spec fn texts(v: Seq<String>) -> Seq<Seq<char>> {
    v.map_values(|s: String| s@)
}

/// The content of an optional string.
pub open spec fn opt_text(s: Option<String>) -> Option<Seq<char>> {
    match s {
        Some(t) => Some(t@),
        None => None,
    }
}

/// A copy of an optional text.
pub fn copy_text(s: &Option<String>) -> (r: Option<String>)
    ensures
        opt_text(r) == opt_text(*s),
{
    match s {
        Some(t) => Some(t.clone()),
        None => None,
    }
}

/// The characters of `s`, in order.
pub fn chars_of(s: &str) -> (v: Vec<char>)
    ensures
        v@ == s@,
{
    let mut v: Vec<char> = Vec::new();
    for c in it: s.chars()
        invariant
            it.seq() == s@,
            v@ == s@.take(it.index() as int),
    {
        v.push(c);
        assert(s@.take(it.index() + 1) =~= s@.take(it.index() as int).push(c));
    }
    assert(s@.take(s@.len() as int) =~= s@);
    v
}

/// The characters `from..to` of `cs` as a string.
pub fn text_of(cs: &Vec<char>, from: usize, to: usize) -> (s: String)
    requires
        from <= to <= cs@.len(),
    ensures
        s@ == cs@.subrange(from as int, to as int),
{
    let mut s: String = String::new();
    let mut i: usize = from;
    assert(cs@.subrange(from as int, from as int) =~= Seq::<char>::empty());
    while i < to
        invariant
            from <= i <= to <= cs@.len(),
            s@ == cs@.subrange(from as int, i as int),
        decreases to - i,
    {
        s.push(cs[i]);
        assert(cs@.subrange(from as int, i + 1) =~= cs@.subrange(from as int, i as int).push(cs@[i as int]));
        i = i + 1;
    }
    s
}

/// Whether two texts hold the same characters.
pub fn same(a: &str, b: &str) -> (r: bool)
    ensures
        r == (a@ == b@),
{
    let x: String = a.to_owned();
    let y: String = b.to_owned();
    x == y
}

/// Unicode's White_Space property.
pub open spec fn is_white(c: char) -> bool {
    ||| '\u{9}' <= c <= '\u{d}'
    ||| c == ' '
    ||| c == '\u{85}'
    ||| c == '\u{a0}'
    ||| c == '\u{1680}'
    ||| '\u{2000}' <= c <= '\u{200a}'
    ||| c == '\u{2028}'
    ||| c == '\u{2029}'
    ||| c == '\u{202f}'
    ||| c == '\u{205f}'
    ||| c == '\u{3000}'
}

/// Whether `c` is white space.
pub fn white(c: char) -> (r: bool)
    ensures
        r == is_white(c),
{
    ('\u{9}' <= c && c <= '\u{d}') || c == ' ' || c == '\u{85}' || c == '\u{a0}' || c == '\u{1680}'
        || ('\u{2000}' <= c && c <= '\u{200a}') || c == '\u{2028}' || c == '\u{2029}'
        || c == '\u{202f}' || c == '\u{205f}' || c == '\u{3000}'
}

/// A decimal digit.
pub open spec fn is_digit(c: char) -> bool {
    '0' <= c <= '9'
}

/// A hexadecimal digit of either case.
pub open spec fn is_hex(c: char) -> bool {
    '0' <= c <= '9' || 'a' <= c <= 'f' || 'A' <= c <= 'F'
}

/// Whether `c` is a hexadecimal digit.
pub fn hex(c: char) -> (r: bool)
    ensures
        r == is_hex(c),
{
    ('0' <= c && c <= '9') || ('a' <= c && c <= 'f') || ('A' <= c && c <= 'F')
}

/// `c` with an ASCII capital made small.
pub open spec fn lower(c: char) -> char {
    if 'A' <= c <= 'Z' {
        ((c as u32) + 32) as char
    } else {
        c
    }
}

/// `c` with an ASCII capital made small.
pub fn lower_char(c: char) -> (r: char)
    ensures
        r == lower(c),
{
    if 'A' <= c && c <= 'Z' {
        (c as u8 + 32) as char
    } else {
        c
    }
}

/// `s` with every ASCII capital made small.
pub open spec fn lower_ascii(s: Seq<char>) -> Seq<char> {
    s.map_values(|c: char| lower(c))
}

/// Whether two texts are equal but for the case of ASCII letters.
pub fn same_ignoring_case(a: &str, b: &str) -> (r: bool)
    ensures
        r == (lower_ascii(a@) == lower_ascii(b@)),
{
    let x: Vec<char> = chars_of(a);
    let y: Vec<char> = chars_of(b);
    if x.len() != y.len() {
        assert(lower_ascii(a@).len() != lower_ascii(b@).len());
        return false;
    }
    let mut i: usize = 0;
    while i < x.len()
        invariant
            x@ == a@,
            y@ == b@,
            x@.len() == y@.len(),
            i <= x@.len(),
            forall|j: int| 0 <= j < i ==> lower(x@[j]) == lower(y@[j]),
        decreases x@.len() - i,
    {
        if lower_char(x[i]) != lower_char(y[i]) {
            assert(lower_ascii(a@)[i as int] != lower_ascii(b@)[i as int]);
            return false;
        }
        i = i + 1;
    }
    assert(lower_ascii(a@) =~= lower_ascii(b@));
    true
}

/// Whether `s` holds the character `c`.
pub fn contains_char(s: &str, c: char) -> (r: bool)
    ensures
        r == s@.contains(c),
{
    let x: Vec<char> = chars_of(s);
    let mut i: usize = 0;
    while i < x.len()
        invariant
            x@ == s@,
            i <= x@.len(),
            forall|j: int| 0 <= j < i ==> x@[j] != c,
        decreases x@.len() - i,
    {
        if x[i] == c {
            return true;
        }
        i = i + 1;
    }
    false
}

/// Whether `part` stands in `whole` at position `at`.
pub open spec fn stands_at(whole: Seq<char>, part: Seq<char>, at: int) -> bool {
    0 <= at && at + part.len() <= whole.len() && whole.subrange(at, at + part.len()) == part
}

/// Whether `part` stands anywhere in `whole`.
pub open spec fn has_text(whole: Seq<char>, part: Seq<char>) -> bool {
    exists|at: int| #[trigger] stands_at(whole, part, at)
}

/// Whether `part` stands anywhere in `whole`.
pub fn contains_text(whole: &str, part: &str) -> (r: bool)
    ensures
        r == has_text(whole@, part@),
{
    let w: Vec<char> = chars_of(whole);
    let p: Vec<char> = chars_of(part);
    if p.len() > w.len() {
        return false;
    }
    let n: usize = w.len();
    let last: usize = n - p.len();
    let mut at: usize = 0;
    loop
        invariant
            n == w@.len(),
            w@ == whole@,
            p@ == part@,
            p@.len() <= w@.len(),
            last == w@.len() - p@.len(),
            at <= last,
            forall|k: int| 0 <= k < at ==> !stands_at(whole@, part@, k),
        decreases last - at,
    {
        let mut i: usize = 0;
        while i < p.len() && w[at + i] == p[i]
            invariant
                n == w@.len(),
                w@ == whole@,
                p@ == part@,
                last == w@.len() - p@.len(),
                at <= last,
                i <= p@.len() <= w@.len(),
                forall|j: int| 0 <= j < i ==> w@[at + j] == p@[j],
            decreases p@.len() - i,
        {
            i = i + 1;
        }
        if i == p.len() {
            assert(whole@.subrange(at as int, at + part@.len()) =~= part@);
            assert(stands_at(whole@, part@, at as int));
            return true;
        }
        assert(!stands_at(whole@, part@, at as int)) by {
            if stands_at(whole@, part@, at as int) {
                assert(whole@.subrange(at as int, at + part@.len())[i as int] == part@[i as int]);
            }
        }
        if at == last {
            return false;
        }
        at = at + 1;
    }
}

/// `s` without its leading white space.
pub open spec fn trim_start(s: Seq<char>) -> Seq<char>
    decreases s.len(),
{
    if s.len() > 0 && is_white(s[0]) {
        trim_start(s.drop_first())
    } else {
        s
    }
}

/// `s` without its trailing white space.
pub open spec fn trim_end(s: Seq<char>) -> Seq<char>
    decreases s.len(),
{
    if s.len() > 0 && is_white(s.last()) {
        trim_end(s.drop_last())
    } else {
        s
    }
}

/// `s` without the white space around it.
pub open spec fn trimmed(s: Seq<char>) -> Seq<char> {
    trim_end(trim_start(s))
}

/// `s` without the white space around it.
pub fn trim(s: &str) -> (r: String)
    ensures
        r@ == trimmed(s@),
{
    let x: Vec<char> = chars_of(s);
    let mut from: usize = 0;
    let mut to: usize = x.len();
    assert(x@.subrange(0, x@.len() as int) =~= s@);
    while from < to && white(x[from])
        invariant
            x@ == s@,
            from <= to == x@.len(),
            trim_start(x@.subrange(from as int, to as int)) == trim_start(s@),
        decreases to - from,
    {
        assert(x@.subrange(from as int, to as int).drop_first() =~= x@.subrange(from + 1, to as int));
        from = from + 1;
    }
    assert(trim_start(s@) == x@.subrange(from as int, to as int));
    while from < to && white(x[to - 1])
        invariant
            x@ == s@,
            from <= to <= x@.len(),
            trim_end(x@.subrange(from as int, to as int)) == trimmed(s@),
        decreases to - from,
    {
        assert(x@.subrange(from as int, to as int).drop_last() =~= x@.subrange(from as int, to - 1));
        to = to - 1;
    }
    text_of(&x, from, to)
}

/// The pieces of `s` between the occurrences of `sep`.
pub open spec fn split_on(s: Seq<char>, sep: char) -> Seq<Seq<char>>
    decreases s.len(),
{
    if s.len() == 0 {
        seq![Seq::empty()]
    } else {
        let before = split_on(s.drop_last(), sep);
        if s.last() == sep {
            before.push(Seq::empty())
        } else {
            before.drop_last().push(before.last().push(s.last()))
        }
    }
}

/// There is always a piece.
pub proof fn lemma_split_nonempty(s: Seq<char>, sep: char)
    ensures
        split_on(s, sep).len() >= 1,
    decreases s.len(),
{
    if s.len() > 0 {
        lemma_split_nonempty(s.drop_last(), sep);
    }
}

/// The pieces of `s` between the occurrences of `sep`.
pub fn split(s: &str, sep: char) -> (parts: Vec<String>)
    ensures
        texts(parts@) == split_on(s@, sep),
        parts@.len() >= 1,
{
    let x: Vec<char> = chars_of(s);
    let mut parts: Vec<String> = Vec::new();
    let mut piece: String = String::new();
    let mut i: usize = 0;
    assert(split_on(x@.take(0), sep) =~= texts(parts@).push(piece@));
    while i < x.len()
        invariant
            x@ == s@,
            i <= x@.len(),
            split_on(x@.take(i as int), sep) == texts(parts@).push(piece@),
        decreases x@.len() - i,
    {
        let c: char = x[i];
        let ghost before = texts(parts@).push(piece@);
        assert(x@.take(i + 1).drop_last() =~= x@.take(i as int));
        if c == sep {
            parts.push(piece);
            piece = String::new();
            assert(texts(parts@) =~= before);
        } else {
            piece.push(c);
            assert(before.drop_last() =~= texts(parts@));
        }
        i = i + 1;
    }
    assert(x@.take(x@.len() as int) =~= s@);
    let ghost done = parts@;
    parts.push(piece);
    assert(texts(parts@) =~= texts(done).push(piece@));
    parts
}

/// Pieces without a separator in them, put together with it, are found again by `split_on`.
pub proof fn lemma_split_join(parts: Seq<Seq<char>>, sep: char)
    requires
        parts.len() > 0,
        forall|i: int| 0 <= i < parts.len() ==> !(#[trigger] parts[i]).contains(sep),
    ensures
        split_on(joined(parts, seq![sep]), sep) == parts,
    decreases parts.len(),
{
    if parts.len() == 1 {
        lemma_split_append(Seq::empty(), parts[0], sep);
        assert(split_on(Seq::<char>::empty(), sep) =~= seq![Seq::<char>::empty()]);
        assert(Seq::<char>::empty() + parts[0] =~= parts[0]);
        assert(split_on(parts[0], sep) =~= parts);
    } else {
        let before = joined(parts.drop_last(), seq![sep]);
        assert forall|i: int| 0 <= i < parts.drop_last().len() implies !(#[trigger] parts.drop_last()[i]).contains(
            sep,
        ) by {
            assert(parts.drop_last()[i] == parts[i]);
        }
        lemma_split_join(parts.drop_last(), sep);
        let with_sep = before + seq![sep];
        assert(with_sep.drop_last() =~= before);
        assert(split_on(with_sep, sep) == parts.drop_last().push(Seq::empty()));
        lemma_split_append(with_sep, parts.last(), sep);
        assert(Seq::<char>::empty() + parts.last() =~= parts.last());
        assert(split_on(with_sep, sep).drop_last() =~= parts.drop_last());
        assert(parts.drop_last().push(parts.last()) =~= parts);
    }
}

/// Text without a separator lengthens the last piece.
pub proof fn lemma_split_append(s: Seq<char>, t: Seq<char>, sep: char)
    requires
        !t.contains(sep),
    ensures
        split_on(s + t, sep) == split_on(s, sep).drop_last().push(split_on(s, sep).last() + t),
    decreases t.len(),
{
    lemma_split_nonempty(s, sep);
    if t.len() == 0 {
        assert(s + t =~= s);
        assert(split_on(s, sep).last() + t =~= split_on(s, sep).last());
        assert(split_on(s, sep).drop_last().push(split_on(s, sep).last()) =~= split_on(s, sep));
    } else {
        assert forall|i: int| 0 <= i < t.drop_last().len() implies t.drop_last()[i] != sep by {
            assert(t.drop_last()[i] == t[i]);
            assert(t.contains(t[i]));
        }
        lemma_split_append(s, t.drop_last(), sep);
        assert((s + t).drop_last() =~= s + t.drop_last());
        assert((s + t).last() == t.last());
        assert(t.contains(t[t.len() - 1]));
        let before = split_on(s + t.drop_last(), sep);
        assert(before.drop_last() =~= split_on(s, sep).drop_last());
        assert((split_on(s, sep).last() + t.drop_last()).push(t.last()) =~= split_on(s, sep).last() + t);
    }
}

/// `parts` one after the other, with `sep` between them.
pub open spec fn joined(parts: Seq<Seq<char>>, sep: Seq<char>) -> Seq<char>
    decreases parts.len(),
{
    if parts.len() == 0 {
        Seq::empty()
    } else if parts.len() == 1 {
        parts[0]
    } else {
        joined(parts.drop_last(), sep) + sep + parts.last()
    }
}

/// The pieces of a text, put together with the separator, make the text.
pub proof fn lemma_join_split(s: Seq<char>, sep: char)
    ensures
        joined(split_on(s, sep), seq![sep]) == s,
    decreases s.len(),
{
    if s.len() == 0 {
        assert(joined(split_on(s, sep), seq![sep]) =~= s);
    } else {
        let before = split_on(s.drop_last(), sep);
        lemma_split_nonempty(s.drop_last(), sep);
        lemma_join_split(s.drop_last(), sep);
        let after = split_on(s, sep);
        if s.last() == sep {
            assert(after.drop_last() =~= before);
            assert(joined(after, seq![sep]) =~= s);
        } else {
            assert(after.drop_last() =~= before.drop_last());
            assert(joined(after, seq![sep]) =~= joined(before, seq![sep]).push(s.last()));
            assert(s.drop_last().push(s.last()) =~= s);
        }
    }
}

/// `parts` one after the other, with `sep` between them.
pub fn join(parts: &Vec<String>, sep: &str) -> (r: String)
    ensures
        r@ == joined(texts(parts@), sep@),
{
    let mut out: String = String::new();
    let ghost all = texts(parts@);
    let mut i: usize = 0;
    while i < parts.len()
        invariant
            i <= parts@.len(),
            all == texts(parts@),
            out@ == joined(all.take(i as int), sep@),
        decreases parts@.len() - i,
    {
        assert(all.take(i + 1).drop_last() =~= all.take(i as int));
        if i > 0 {
            out.append(sep);
        }
        out.append(parts[i].as_str());
        assert(i == 0 ==> out@ =~= all[0]);
        i = i + 1;
    }
    assert(all.take(all.len() as int) =~= all);
    out
}

/// `c` with any white space made a plain blank.
pub open spec fn blank(c: char) -> char {
    if is_white(c) {
        ' '
    } else {
        c
    }
}

/// The runs of characters of `s` that hold no white space.
pub open spec fn words_of(s: Seq<char>) -> Seq<Seq<char>> {
    split_on(s.map_values(|c: char| blank(c)), ' ').filter(|w: Seq<char>| w.len() > 0)
}

/// The runs of characters of `s` that hold no white space.
pub fn words(s: &str) -> (r: Vec<String>)
    ensures
        texts(r@) == words_of(s@),
{
    let x: Vec<char> = chars_of(s);
    let mut plain: String = String::new();
    let mut i: usize = 0;
    while i < x.len()
        invariant
            x@ == s@,
            i <= x@.len(),
            plain@ == s@.take(i as int).map_values(|c: char| blank(c)),
        decreases x@.len() - i,
    {
        plain.push(if white(x[i]) { ' ' } else { x[i] });
        i = i + 1;
        assert(plain@ =~= s@.take(i as int).map_values(|c: char| blank(c)));
    }
    assert(s@.take(s@.len() as int) =~= s@);
    let parts: Vec<String> = split(plain.as_str(), ' ');
    let ghost keep = |w: Seq<char>| w.len() > 0;
    let ghost all = texts(parts@);
    let mut out: Vec<String> = Vec::new();
    let mut k: usize = 0;
    reveal(Seq::filter);
    assert(all.take(0).filter(keep) =~= Seq::<Seq<char>>::empty());
    assert(texts(out@) =~= Seq::<Seq<char>>::empty());
    while k < parts.len()
        invariant
            k <= parts@.len(),
            all == texts(parts@),
            keep == (|w: Seq<char>| w.len() > 0),
            texts(out@) == all.take(k as int).filter(keep),
        decreases parts@.len() - k,
    {
        assert(all.take(k + 1).drop_last() =~= all.take(k as int));
        reveal(Seq::filter);
        let ghost before = out@;
        if !is_empty(parts[k].as_str()) {
            out.push(parts[k].clone());
            assert(texts(out@) =~= texts(before).push(all[k as int]));
        }
        k = k + 1;
    }
    assert(all.take(all.len() as int) =~= all);
    out
}

/// Whether a text stands among others.
pub fn is_listed(names: &Vec<String>, text: &str) -> (r: bool)
    ensures
        r == texts(names@).contains(text@),
{
    let mut i: usize = 0;
    while i < names.len()
        invariant
            i <= names@.len(),
            forall|j: int| 0 <= j < i ==> #[trigger] texts(names@)[j] != text@,
        decreases names@.len() - i,
    {
        if same(names[i].as_str(), text) {
            assert(texts(names@)[i as int] == text@);
            return true;
        }
        i = i + 1;
    }
    false
}

/// Whether `s` holds no character.
pub fn is_empty(s: &str) -> (r: bool)
    ensures
        r == (s@.len() == 0),
{
    s.unicode_len() == 0
}

/// Whether `s` begins with `prefix`.
pub open spec fn begins_with(s: Seq<char>, prefix: Seq<char>) -> bool {
    stands_at(s, prefix, 0)
}

/// Whether `s` ends in `suffix`.
pub open spec fn ends_in(s: Seq<char>, suffix: Seq<char>) -> bool {
    stands_at(s, suffix, s.len() - suffix.len())
}

/// What `s` holds between `prefix` and `suffix`; nothing where it does not have both, one after
/// the other.
pub open spec fn between(s: Seq<char>, prefix: Seq<char>, suffix: Seq<char>) -> Option<Seq<char>> {
    if begins_with(s, prefix) && ends_in(s.skip(prefix.len() as int), suffix) {
        Some(s.subrange(prefix.len() as int, s.len() - suffix.len()))
    } else {
        None
    }
}

/// Whether `part` stands in `whole` at position `at`.
fn stands(whole: &Vec<char>, part: &Vec<char>, at: usize) -> (r: bool)
    ensures
        r == stands_at(whole@, part@, at as int),
{
    if part.len() > whole.len() || at > whole.len() - part.len() {
        return false;
    }
    let n: usize = whole.len();
    let mut i: usize = 0;
    while i < part.len()
        invariant
            n == whole@.len(),
            i <= part@.len(),
            at + part@.len() <= n,
            forall|j: int| 0 <= j < i ==> whole@[at + j] == part@[j],
        decreases part@.len() - i,
    {
        if whole[at + i] != part[i] {
            assert(whole@.subrange(at as int, at + part@.len())[i as int] == whole@[at + i]);
            return false;
        }
        i = i + 1;
    }
    assert(whole@.subrange(at as int, at + part@.len()) =~= part@);
    true
}

/// What `s` holds between `prefix` and `suffix`; nothing where it does not have both, one after
/// the other.
pub fn strip(s: &str, prefix: &str, suffix: &str) -> (r: Option<String>)
    ensures
        opt_text(r) == between(s@, prefix@, suffix@),
{
    let x: Vec<char> = chars_of(s);
    let p: Vec<char> = chars_of(prefix);
    let q: Vec<char> = chars_of(suffix);
    if !stands(&x, &p, 0) {
        return None;
    }
    let n: usize = x.len() - p.len();
    let ghost rest = s@.skip(p@.len() as int);
    if q.len() > n || !stands(&x, &q, x.len() - q.len()) {
        assert(q@.len() <= n ==> rest.subrange(n - q@.len(), n as int) =~= x@.subrange(
            x@.len() - q@.len(),
            x@.len() as int,
        ));
        return None;
    }
    assert(rest.subrange(n - q@.len(), n as int) =~= x@.subrange(x@.len() - q@.len(), x@.len() as int));
    Some(text_of(&x, p.len(), x.len() - q.len()))
}

/// The part of `s` before its first `sep` and the part after it.
pub open spec fn split_first(s: Seq<char>, sep: char) -> Option<(Seq<char>, Seq<char>)> {
    if s.contains(sep) {
        let at = s.index_of_first(sep).unwrap();
        Some((s.take(at), s.skip(at + 1)))
    } else {
        None
    }
}

/// The part of `s` before its first `sep` and the part after it.
pub fn split_once(s: &str, sep: char) -> (r: Option<(String, String)>)
    ensures
        match r {
            Some(p) => split_first(s@, sep) == Some((p.0@, p.1@)),
            None => split_first(s@, sep) is None,
        },
{
    let x: Vec<char> = chars_of(s);
    let mut i: usize = 0;
    while i < x.len()
        invariant
            x@ == s@,
            i <= x@.len(),
            forall|j: int| 0 <= j < i ==> x@[j] != sep,
        decreases x@.len() - i,
    {
        if x[i] == sep {
            proof {
                s@.index_of_first_ensures(sep);
                assert(s@.index_of_first(sep) == Some(i as int));
            }
            assert(x@.subrange(0, i as int) =~= s@.take(i as int));
            assert(x@.subrange(i + 1, x@.len() as int) =~= s@.skip(i + 1));
            return Some((text_of(&x, 0, i), text_of(&x, i + 1, x.len())));
        }
        i = i + 1;
    }
    None
}

/// `s` without the carriage returns at its end.
pub open spec fn without_returns(s: Seq<char>) -> Seq<char>
    decreases s.len(),
{
    if s.len() > 0 && s.last() == '\r' {
        without_returns(s.drop_last())
    } else {
        s
    }
}

/// `s` without the carriage returns at its end.
pub fn trim_returns(s: &str) -> (r: String)
    ensures
        r@ == without_returns(s@),
{
    let x: Vec<char> = chars_of(s);
    let mut to: usize = x.len();
    assert(x@.take(to as int) =~= s@);
    while to > 0 && x[to - 1] == '\r'
        invariant
            x@ == s@,
            to <= x@.len(),
            without_returns(x@.take(to as int)) == without_returns(s@),
        decreases to,
    {
        assert(x@.take(to as int).drop_last() =~= x@.take(to - 1));
        to = to - 1;
    }
    assert(x@.subrange(0, to as int) =~= x@.take(to as int));
    text_of(&x, 0, to)
}

/// What `str::to_lowercase` makes of a text: the Unicode lower case mapping.
pub uninterp spec fn lowercase(s: Seq<char>) -> Seq<char>;

/// Whether every character of `s` is ASCII.
pub open spec fn all_ascii(s: Seq<char>) -> bool {
    forall|i: int| 0 <= i < s.len() ==> (#[trigger] s[i]) as u32 <= 127
}

/// Trusted: `str::to_lowercase`. The result is a function of the text alone, and on a text of
/// ASCII characters it makes each capital small and keeps the rest. The zero character is the small
/// letter of no other: a text without it stays without it.
#[verifier::external_body]
pub(crate) fn to_lowercase(s: &str) -> (r: String)
    ensures
        r@ == lowercase(s@),
        all_ascii(s@) ==> r@ == lower_ascii(s@),
        !s@.contains('\0') ==> !r@.contains('\0'),
{
    s.to_lowercase()
}

} // verus!
