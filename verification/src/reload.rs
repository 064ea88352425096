//! Reloading: what is said to Kea over its control socket, and what its reply means.
use vstd::prelude::*;
use vstd::string::*;

use crate::error::{error, KeaError};
use crate::file::{ControlSocket, SocketView};
use crate::json::{
    from_text, get_int, get_text, insert, int_member, json_char, json_chars, json_of, no_members, object_value,
    parsed, single, text_member, text_value, to_text, Json,
};
use crate::number::{dec, decimal};
use crate::text::same;

verus! {

/// Where to connect to.
#[derive(Debug)]
pub enum Endpoint {
    /// A Unix socket, by its path.
    Unix(String),
    /// A TCP socket, by host and port.
    Tcp(String),
}

/// Where to connect to.
#[verifier::ext_equal]
pub enum EndpointView {
    Unix(Seq<char>),
    Tcp(Seq<char>),
}

impl View for Endpoint {
    type V = EndpointView;

    open spec fn view(&self) -> EndpointView {
        match self {
            Endpoint::Unix(p) => EndpointView::Unix(p@),
            Endpoint::Tcp(a) => EndpointView::Tcp(a@),
        }
    }
}

/// Where a control socket is, or why it cannot be used.
pub open spec fn endpoint_of(cs: SocketView) -> Result<EndpointView, Seq<char>> {
    if cs.kind == "unix"@ {
        Ok(EndpointView::Unix(cs.name))
    } else if cs.kind == "tcp"@ {
        Ok(EndpointView::Tcp(cs.name))
    } else {
        Err("不支援的 control-socket 型別: "@ + cs.kind)
    }
}

/// Where a control socket is.
pub fn endpoint(cs: &ControlSocket) -> (r: Result<Endpoint, KeaError>)
    ensures
        match r {
            Ok(e) => endpoint_of(cs@) == Ok::<EndpointView, Seq<char>>(e@),
            Err(e) => endpoint_of(cs@) == Err::<EndpointView, Seq<char>>(e.message@),
        },
{
    if same(cs.socket_type.as_str(), "unix") {
        Ok(Endpoint::Unix(cs.socket_name.clone()))
    } else if same(cs.socket_type.as_str(), "tcp") {
        Ok(Endpoint::Tcp(cs.socket_name.clone()))
    } else {
        let mut message: String = "不支援的 control-socket 型別: ".to_owned();
        message.append(cs.socket_type.as_str());
        Err(KeaError { message })
    }
}

/// Why Kea could not be asked: nothing answers at its control socket.
pub fn unreachable_error(cs: &ControlSocket) -> (r: KeaError)
    ensures
        r.message@ == "無法連線 control socket: "@ + cs@.name,
{
    let mut message: String = "無法連線 control socket: ".to_owned();
    message.append(cs.socket_name.as_str());
    KeaError { message }
}

/// What needs no escape is written as it is.
proof fn lemma_json_chars_plain(s: Seq<char>)
    requires
        forall|i: int| 0 <= i < s.len() ==> json_char(#[trigger] s[i]) == seq![s[i]],
    ensures
        json_chars(s) == s,
    decreases s.len(),
{
    if s.len() > 0 {
        let front = s.drop_last();
        assert forall|i: int| 0 <= i < front.len() implies json_char(#[trigger] front[i]) == seq![front[i]] by {
            assert(front[i] == s[i]);
        }
        lemma_json_chars_plain(front);
        assert(json_char(s[s.len() - 1]) == seq![s.last()]);
        assert(s =~= front + seq![s.last()]);
    }
}

/// The command that makes Kea read its configuration again.
pub fn command() -> (r: String)
    ensures
        r@ == r#"{"command":"config-reload"}"#@,
{
    let mut m: serde_json::Map<String, serde_json::Value> = no_members();
    insert(&mut m, "command", text_value("config-reload"));
    assert(crate::json::members_of(m) =~= Map::empty().insert("command"@, Json::Text("config-reload"@)));
    let v: serde_json::Value = object_value(m);
    assert(json_of(v) == single("command"@, "config-reload"@));
    let r: String = to_text(&v);
    proof {
        reveal_strlit("command");
        reveal_strlit("config-reload");
        reveal_strlit("{");
        reveal_strlit(":");
        reveal_strlit("}");
        reveal_strlit(r#"{"command":"config-reload"}"#);
        lemma_json_chars_plain("command"@);
        lemma_json_chars_plain("config-reload"@);
        assert(r@ =~= r#"{"command":"config-reload"}"#@);
    }
    r
}

/// The decimal text of an integer.
pub open spec fn int_text(n: int) -> Seq<char> {
    if n < 0 {
        "-"@ + dec((-n) as nat)
    } else {
        dec(n as nat)
    }
}

/// The decimal text of an integer.
fn integer(n: i64) -> (r: String)
    ensures
        r@ == int_text(n as int),
{
    if n < 0 {
        let mut out: String = "-".to_owned();
        let magnitude: u64 = (-(n as i128)) as u64;
        out.append(decimal(magnitude).as_str());
        out
    } else {
        decimal(n as u64)
    }
}

/// What a reply means, where it is the JSON document `j`: a result of zero is success, and the text
/// that comes with it says more.
pub open spec fn reply_of(response: Seq<char>, j: Json) -> Result<Seq<char>, Seq<char>> {
    match int_member(j, "result"@) {
        None => Err("kea 回應缺少 result: "@ + response),
        Some(n) => if n != 0 {
            Err(
                "kea config-reload 失敗 (result="@ + int_text(n) + "): "@ + (match text_member(j, "text"@) {
                    Some(t) => t,
                    None => response,
                }),
            )
        } else {
            Ok(
                match text_member(j, "text"@) {
                    Some(t) => t,
                    None => "ok"@,
                },
            )
        },
    }
}

/// What a reply means that has been read.
pub fn read_reply(response: &str, reply: &serde_json::Value) -> (r: Result<String, KeaError>)
    ensures
        match r {
            Ok(t) => reply_of(response@, json_of(*reply)) == Ok::<Seq<char>, Seq<char>>(t@),
            Err(e) => reply_of(response@, json_of(*reply)) == Err::<Seq<char>, Seq<char>>(e.message@),
        },
{
    let result: i64 = match get_int(reply, "result") {
        Some(n) => n,
        None => {
            let mut message: String = "kea 回應缺少 result: ".to_owned();
            message.append(response);
            return Err(KeaError { message });
        },
    };
    if result != 0 {
        let mut message: String = "kea config-reload 失敗 (result=".to_owned();
        message.append(integer(result).as_str());
        message.append("): ");
        match get_text(reply, "text") {
            Some(t) => message.append(t),
            None => message.append(response),
        }
        return Err(KeaError { message });
    }
    match get_text(reply, "text") {
        Some(t) => Ok(t.to_owned()),
        None => Ok("ok".to_owned()),
    }
}

/// What Kea's reply to the command means: the text that it gives on success, or what went wrong.
pub fn reload(response: &str) -> (r: Result<String, KeaError>)
    ensures
        match (parsed(response@), r) {
            (None, Err(e)) => e.message@ == "kea 回應不是合法 JSON"@,
            (None, Ok(_)) => false,
            (Some(j), Ok(t)) => reply_of(response@, j) == Ok::<Seq<char>, Seq<char>>(t@),
            (Some(j), Err(e)) => reply_of(response@, j) == Err::<Seq<char>, Seq<char>>(e.message@),
        },
{
    match from_text(response) {
        Ok(reply) => read_reply(response, &reply),
        Err(_) => Err(error("kea 回應不是合法 JSON")),
    }
}

} // verus!
