//! The login: one password that all share, and a cookie that says who has given it.
use vstd::prelude::*;
use vstd::string::*;

use crate::html::{page, page_text};
use crate::text::{between, is_empty, is_listed, opt_text, same, split, split_on, strip, texts, trim, trimmed};

verus! {

/// Whether there is a login at all: a password is set, and is not empty.
pub open spec fn guarded(password: Option<Seq<char>>) -> bool {
    password is Some && password->0.len() > 0
}

/// Whether there is a login at all.
pub fn is_guarded(password: &Option<String>) -> (r: bool)
    ensures
        r == guarded(opt_text(*password)),
{
    match password {
        Some(p) => !is_empty(p.as_str()),
        None => false,
    }
}

/// Whether what was given is the password.
pub fn password_matches(password: &Option<String>, given: &str) -> (r: bool)
    ensures
        r == (guarded(opt_text(*password)) && opt_text(*password) == Some(given@)),
{
    match password {
        Some(p) => !is_empty(p.as_str()) && same(p.as_str(), given),
        None => false,
    }
}

/// The sessions that have given the password.
#[derive(Debug)]
pub struct Sessions {
    pub tokens: Vec<String>,
}

impl View for Sessions {
    type V = Seq<Seq<char>>;

    open spec fn view(&self) -> Seq<Seq<char>> {
        texts(self.tokens@)
    }
}

impl Sessions {
    /// No sessions.
    pub fn new() -> (r: Sessions)
        ensures
            r@ == Seq::<Seq<char>>::empty(),
    {
        let r: Sessions = Sessions { tokens: Vec::new() };
        assert(r@ =~= Seq::<Seq<char>>::empty());
        r
    }

    /// Adds a session.
    pub fn open(&mut self, token: String)
        ensures
            final(self)@ == old(self)@.push(token@),
    {
        let ghost before = self.tokens@;
        self.tokens.push(token);
        assert(texts(self.tokens@) =~= texts(before).push(token@));
    }
}

/// The name of the cookie, with what stands before its value.
pub open spec fn cookie_key() -> Seq<char> {
    "kealight_session="@
}

/// The session that a pair of a cookie header gives.
pub open spec fn pair_token(pair: Seq<char>) -> Option<Seq<char>> {
    between(trimmed(pair), cookie_key(), Seq::empty())
}

/// The session that the pairs of a cookie header give: that of the first pair that gives one.
pub open spec fn first_token(pairs: Seq<Seq<char>>) -> Option<Seq<char>>
    decreases pairs.len(),
{
    if pairs.len() == 0 {
        None
    } else {
        match first_token(pairs.drop_last()) {
            Some(t) => Some(t),
            None => pair_token(pairs.last()),
        }
    }
}

/// The session that a cookie header gives.
pub open spec fn token_of(header: Option<Seq<char>>) -> Option<Seq<char>> {
    match header {
        Some(h) => first_token(split_on(h, ';')),
        None => None,
    }
}

/// The session that a cookie header gives.
pub fn session_token(header: &Option<String>) -> (r: Option<String>)
    ensures
        opt_text(r) == token_of(opt_text(*header)),
{
    let text: &String = match header {
        Some(h) => h,
        None => {
            return None;
        },
    };
    let pairs: Vec<String> = split(text.as_str(), ';');
    let ghost all = texts(pairs@);
    let nothing: String = String::new();
    assert(nothing@ =~= Seq::<char>::empty());
    let mut i: usize = 0;
    assert(all.len() == pairs@.len());
    while i < pairs.len()
        invariant
            i <= pairs@.len(),
            all == texts(pairs@),
            all == split_on(text@, ';'),
            opt_text(*header) == Some(text@),
            nothing@ == Seq::<char>::empty(),
            first_token(all.take(i as int)) is None,
        decreases pairs@.len() - i,
    {
        assert(all.take(i + 1).drop_last() =~= all.take(i as int));
        assert(all.take(i + 1).last() == pairs@[i as int]@);
        match strip(trim(pairs[i].as_str()).as_str(), "kealight_session=", nothing.as_str()) {
            Some(t) => {
                proof {
                    lemma_first_token(all, i + 1);
                }
                return Some(t);
            },
            None => {},
        }
        i = i + 1;
    }
    assert(all.take(all.len() as int) =~= all);
    None
}

/// Once a pair gives a session, those that follow do not count.
proof fn lemma_first_token(pairs: Seq<Seq<char>>, n: int)
    requires
        0 <= n <= pairs.len(),
        first_token(pairs.take(n)) is Some,
    ensures
        first_token(pairs) == first_token(pairs.take(n)),
    decreases pairs.len(),
{
    if n == pairs.len() {
        assert(pairs.take(n) =~= pairs);
    } else {
        assert(pairs.drop_last().take(n) =~= pairs.take(n));
        lemma_first_token(pairs.drop_last(), n);
    }
}

/// The header that sets the cookie of a session: scripts do not see it, other sites do not send it.
pub open spec fn cookie_text(token: Seq<char>) -> Seq<char> {
    cookie_key() + token + "; Path=/; HttpOnly; SameSite=Lax"@
}

/// The header that sets the cookie of a session.
pub fn session_cookie(token: &str) -> (r: String)
    ensures
        r@ == cookie_text(token@),
{
    let mut out: String = "kealight_session=".to_owned();
    out.append(token);
    out.append("; Path=/; HttpOnly; SameSite=Lax");
    out
}

/// Whether a request is let through: there is no login, the request is for the login itself, or it
/// comes from a session that has given the password.
pub open spec fn admitted(
    password: Option<Seq<char>>,
    path: Seq<char>,
    header: Option<Seq<char>>,
    sessions: Seq<Seq<char>>,
) -> bool {
    ||| !guarded(password)
    ||| path == "/login"@
    ||| token_of(header) is Some && sessions.contains(token_of(header)->0)
}

/// Whether a request is let through; otherwise it is sent to the login.
pub fn lets_through(password: &Option<String>, path: &str, header: &Option<String>, sessions: &Sessions) -> (r: bool)
    ensures
        r == admitted(opt_text(*password), path@, opt_text(*header), sessions@),
{
    if !is_guarded(password) || same(path, "/login") {
        return true;
    }
    match session_token(header) {
        Some(t) => is_listed(&sessions.tokens, t.as_str()),
        None => false,
    }
}

/// Without a password everyone is let through; with one, nobody who has not given it gets anywhere
/// but to the login.
pub proof fn law_password_guards_everything(
    password: Option<Seq<char>>,
    path: Seq<char>,
    header: Option<Seq<char>>,
    sessions: Seq<Seq<char>>,
)
    ensures
        !guarded(password) ==> admitted(password, path, header, sessions),
        guarded(password) && path != "/login"@ && token_of(header) is None ==> !admitted(
            password,
            path,
            header,
            sessions,
        ),
        guarded(password) && path != "/login"@ ==> !admitted(password, path, header, Seq::empty()),
{
}

/// Whether a token can stand in a cookie as it is.
pub open spec fn plain_token(token: Seq<char>) -> bool {
    token.len() > 0 && !token.contains(';') && forall|i: int|
        0 <= i < token.len() ==> !crate::text::is_white(#[trigger] token[i])
}

/// A session that was opened is let through with the cookie that it was given.
pub proof fn law_session_is_admitted(
    password: Option<Seq<char>>,
    path: Seq<char>,
    token: Seq<char>,
    sessions: Seq<Seq<char>>,
)
    requires
        plain_token(token),
    ensures
        admitted(password, path, Some(cookie_key() + token), sessions.push(token)),
{
    let h = cookie_key() + token;
    let key = cookie_key();
    reveal_strlit("kealight_session=");
    assert(key.len() == 17);
    assert forall|i: int| 0 <= i < h.len() implies #[trigger] h[i] != ';' by {
        if i >= 17 {
            assert(h[i] == token[i - 17]);
            assert(token.contains(token[i - 17]));
        }
    }
    assert(!h.contains(';'));
    crate::text::lemma_split_append(Seq::empty(), h, ';');
    assert(split_on(Seq::<char>::empty(), ';') =~= seq![Seq::<char>::empty()]);
    assert(Seq::<char>::empty() + h =~= h);
    let pairs = split_on(h, ';');
    assert(pairs =~= seq![h]);
    assert(h[0] == 'k');
    assert(crate::text::trim_start(h) == h);
    assert(h.last() == token.last());
    assert(!crate::text::is_white(token[token.len() - 1]));
    assert(trimmed(h) == h);
    assert(h.subrange(0, 17) =~= key);
    let rest = h.skip(17);
    assert(rest.subrange(rest.len() as int, rest.len() as int) =~= Seq::<char>::empty());
    assert(h.subrange(17, h.len() as int) =~= token);
    reveal_with_fuel(first_token, 2);
    assert(pairs.drop_last() =~= Seq::<Seq<char>>::empty());
    assert(token_of(Some(h)) == Some(token));
    assert(sessions.push(token)[sessions.len() as int] == token);
}

/// The page of the login; it says so where the password that was given is wrong.
pub open spec fn login_text(wrong: bool) -> Seq<char> {
    page_text(
        "登入"@,
        r#"<div class="bar"><h1 style="margin:0">登入</h1></div>
"#@ + (if wrong {
            r#"<p class="err">密碼錯誤</p>
"#@
        } else {
            ""@
        }) + r#"<form method="post" action="/login" class="bar">
<input type="password" name="password" required autofocus>
<button class="btn primary" type="submit">登入</button>
</form>"#@,
    )
}

/// The page of the login.
pub fn login_page(wrong: bool) -> (r: String)
    ensures
        r@ == login_text(wrong),
{
    let mut body: String = r#"<div class="bar"><h1 style="margin:0">登入</h1></div>
"#.to_owned();
    body.append(
        if wrong {
            r#"<p class="err">密碼錯誤</p>
"#
        } else {
            ""
        },
    );
    body.append(
        r#"<form method="post" action="/login" class="bar">
<input type="password" name="password" required autofocus>
<button class="btn primary" type="submit">登入</button>
</form>"#,
    );
    page("登入", body.as_str())
}

} // verus!
