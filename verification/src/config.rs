//! The settings of the tool.
use vstd::prelude::*;
use vstd::string::*;

use crate::error::KeaError;
use crate::text::opt_text;

verus! {

/// The settings.
#[derive(Debug)]
pub struct KealightConfig {
    /// The path of the Kea configuration.
    pub kea_config: String,
    /// The address to listen on.
    pub bind: String,
    /// The port to listen on.
    pub port: u16,
    /// How many backups stay.
    pub backup_keep: usize,
    /// The password that all share; none where there is no login.
    pub password: Option<String>,
}

/// The settings as a file gives them, where it gives them.
#[derive(Debug, Default)]
pub struct ConfigFields {
    pub kea_config: Option<String>,
    pub bind: Option<String>,
    pub port: Option<u16>,
    pub backup_keep: Option<usize>,
    pub password: Option<String>,
}

/// The text, or another where there is none.
pub open spec fn text_or(s: Option<String>, other: Seq<char>) -> Seq<char> {
    match s {
        Some(t) => t@,
        None => other,
    }
}

/// A text that is given is taken as it is, and the other only where none is.
pub proof fn law_given_text_is_taken(t: String, other: Seq<char>)
    ensures
        text_or(Some(t), other) == t@,
        text_or(None, other) == other,
{
}

/// The settings from what a file gives: the path of the Kea configuration it has to give, all else
/// has a default. An empty password is none.
pub fn load(path: &str, fields: ConfigFields) -> (r: Result<KealightConfig, KeaError>)
    ensures
        match fields.kea_config {
            None => r is Err && r->Err_0.message@ == "設定檔格式不合法: "@ + path@,
            Some(kea) => {
                &&& r is Ok
                &&& r->Ok_0.kea_config@ == kea@
                &&& r->Ok_0.bind@ == text_or(fields.bind, "127.0.0.1"@)
                &&& r->Ok_0.port == (match fields.port {
                    Some(p) => p,
                    None => 7777,
                })
                &&& r->Ok_0.backup_keep == (match fields.backup_keep {
                    Some(n) => n,
                    None => 10,
                })
                &&& opt_text(r->Ok_0.password) == (match fields.password {
                    Some(p) => if p@.len() > 0 {
                        Some(p@)
                    } else {
                        None
                    },
                    None => None,
                })
            },
        },
{
    let kea_config: String = match fields.kea_config {
        Some(kea) => kea,
        None => {
            let mut message: String = "設定檔格式不合法: ".to_owned();
            message.append(path);
            return Err(KeaError { message });
        },
    };
    let bind: String = match fields.bind {
        Some(b) => b,
        None => "127.0.0.1".to_owned(),
    };
    let port: u16 = match fields.port {
        Some(p) => p,
        None => 7777,
    };
    let backup_keep: usize = match fields.backup_keep {
        Some(n) => n,
        None => 10,
    };
    let password: Option<String> = match fields.password {
        Some(p) => if crate::text::is_empty(p.as_str()) {
            None
        } else {
            Some(p)
        },
        None => None,
    };
    Ok(KealightConfig { kea_config, bind, port, backup_keep, password })
}

} // verus!
