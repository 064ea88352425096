use kealight::auth::{lets_through, login_page, password_matches, session_cookie, session_token, Sessions};
use kealight::config::{load, ConfigFields};
use kealight::file::ControlSocket;
use kealight::reload::{command, endpoint, reload, unreachable_error, Endpoint};

/// The settings of a TOML text.
fn fields(text: &str) -> ConfigFields {
    let table: toml::Table = text.parse().unwrap();
    let text_of = |key: &str| table.get(key).and_then(|v| v.as_str()).map(|s| s.to_string());
    let number_of = |key: &str| table.get(key).and_then(|v| v.as_integer());
    ConfigFields {
        kea_config: text_of("kea_config"),
        bind: text_of("bind"),
        port: number_of("port").map(|n| n as u16),
        backup_keep: number_of("backup_keep").map(|n| n as usize),
        password: text_of("password"),
    }
}

#[test]
fn parses_full_config() {
    let toml = r#"
kea_config = "testdata/kea-dhcp4.conf"
bind = "0.0.0.0"
port = 9000
backup_keep = 5
"#;
    let cfg = load("kealight.toml", fields(toml)).unwrap();
    assert_eq!(cfg.kea_config, "testdata/kea-dhcp4.conf");
    assert_eq!(cfg.bind, "0.0.0.0");
    assert_eq!(cfg.port, 9000);
    assert_eq!(cfg.backup_keep, 5);
}

#[test]
fn defaults_applied_for_missing_fields() {
    let toml = "kea_config = \"kea.conf\"\n";
    let cfg = load("kealight.toml", fields(toml)).unwrap();
    assert_eq!(cfg.bind, "127.0.0.1");
    assert_eq!(cfg.port, 7777);
    assert_eq!(cfg.backup_keep, 10);
}

#[test]
fn missing_kea_config_is_an_error() {
    assert!(load("kealight.toml", fields("port = 1\n")).is_err());
    assert_eq!(
        load("kealight.toml", fields("port = 1\n")).unwrap_err().to_string(),
        "設定檔格式不合法: kealight.toml"
    );
}

#[test]
fn an_empty_password_is_none() {
    let password = |text: &str| load("k", fields(text)).unwrap().password;
    assert_eq!(password("kea_config = \"k\"\n"), None);
    assert_eq!(password("kea_config = \"k\"\npassword = \"\"\n"), None);
    assert_eq!(password("kea_config = \"k\"\npassword = \"s\"\n"), Some("s".into()));
}

fn socket(kind: &str, name: &str) -> ControlSocket {
    ControlSocket { socket_name: name.into(), socket_type: kind.into() }
}

#[test]
fn control_sockets_have_endpoints() {
    assert!(matches!(endpoint(&socket("unix", "/run/x")), Ok(Endpoint::Unix(p)) if p == "/run/x"));
    assert!(matches!(endpoint(&socket("tcp", "h:1")), Ok(Endpoint::Tcp(a)) if a == "h:1"));
    assert_eq!(endpoint(&socket("http", "h")).unwrap_err().to_string(), "不支援的 control-socket 型別: http");
    assert_eq!(unreachable_error(&socket("unix", "/run/x")).to_string(), "無法連線 control socket: /run/x");
}

#[test]
fn the_command_is_one_json_object() {
    assert_eq!(command(), r#"{"command":"config-reload"}"#);
}

#[test]
fn replies_are_read() {
    assert_eq!(reload(r#"{"result":0,"text":"done"}"#).unwrap(), "done");
    assert_eq!(reload(r#"{"result":0}"#).unwrap(), "ok");
    assert_eq!(
        reload(r#"{"result":1,"text":"bad"}"#).unwrap_err().to_string(),
        "kea config-reload 失敗 (result=1): bad"
    );
    assert_eq!(
        reload(r#"{"result":-9223372036854775808}"#).unwrap_err().to_string(),
        "kea config-reload 失敗 (result=-9223372036854775808): {\"result\":-9223372036854775808}"
    );
    assert_eq!(reload(r#"{"text":"x"}"#).unwrap_err().to_string(), "kea 回應缺少 result: {\"text\":\"x\"}");
    assert_eq!(reload(r#"{"result":0.0}"#).unwrap_err().to_string(), "kea 回應缺少 result: {\"result\":0.0}");
    assert_eq!(reload("nope").unwrap_err().to_string(), "kea 回應不是合法 JSON");
}

#[test]
fn without_a_password_everyone_is_let_through() {
    let sessions = Sessions::new();
    assert!(lets_through(&None, "/subnet/0", &None, &sessions));
    assert!(lets_through(&Some("".into()), "/subnet/0", &None, &sessions));
    assert!(!password_matches(&None, ""));
    assert!(!password_matches(&Some("".into()), ""));
}

#[test]
fn with_a_password_only_sessions_are_let_through() {
    let password = Some("secret".to_string());
    let mut sessions = Sessions::new();
    assert!(!lets_through(&password, "/subnet/0", &None, &sessions));
    assert!(!lets_through(&password, "/static/htmx.min.js", &None, &sessions));
    assert!(lets_through(&password, "/login", &None, &sessions));
    assert!(password_matches(&password, "secret") && !password_matches(&password, "Secret"));
    sessions.open("abc".into());
    let header = Some("theme=dark; kealight_session=abc".to_string());
    assert!(lets_through(&password, "/subnet/0", &header, &sessions));
    assert!(!lets_through(&password, "/subnet/0", &Some("kealight_session=abcd".into()), &sessions));
    assert_eq!(session_token(&header), Some("abc".into()));
    assert_eq!(session_token(&Some("x=1".into())), None);
    assert_eq!(session_cookie("abc"), "kealight_session=abc; Path=/; HttpOnly; SameSite=Lax");
    assert!(login_page(true).contains("密碼錯誤") && !login_page(false).contains("密碼錯誤"));
}
