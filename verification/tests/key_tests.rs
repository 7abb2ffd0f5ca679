use skills_sync::config::Config;
use skills_sync::ssh::agent::{agent_ssh_command, key_file_ssh_command, quote_path};
use skills_sync::ssh::fallback::{decrypt, encrypt, load_key};
use skills_sync::ssh::keyring::{
    delete_key, get_key, is_platform_error, read_uses_fallback, save_after_set, set_key, ConfigSave,
    KeyStorage,
    KeyringError, KeyringErrorKind, KeyringFailure, KeyringStep,
};

const KEY: [u8; 32] = [7u8; 32];

fn failure(step: KeyringStep, kind: KeyringErrorKind, message: &str) -> KeyringFailure {
    KeyringFailure { step, error: KeyringError { kind, message: message.to_string() } }
}

#[test]
fn platform_errors() {
    let e = |kind| KeyringError { kind, message: String::new() };
    assert!(is_platform_error(&e(KeyringErrorKind::PlatformFailure)));
    assert!(is_platform_error(&e(KeyringErrorKind::NoStorageAccess)));
    assert!(!is_platform_error(&e(KeyringErrorKind::NoEntry)));
    assert!(!is_platform_error(&e(KeyringErrorKind::Other)));
}

#[test]
fn set_key_in_keyring_drops_fallback() {
    let mut c = Config::new();
    c.ssh_private_key_fallback = Some("old".to_string());
    let out = set_key(&mut c, "k", &KEY, Ok(()));
    assert!(matches!(out.result, Ok(KeyStorage::Keyring)));
    assert!(out.warning.is_none());
    assert!(c.ssh_private_key_fallback.is_none());
}

#[test]
fn set_key_falls_back_when_platform_unavailable() {
    let mut c = Config::new();
    let out = set_key(
        &mut c,
        "k",
        &KEY,
        Err(failure(KeyringStep::Access, KeyringErrorKind::PlatformFailure, "DBus error")),
    );
    assert!(matches!(out.result, Ok(KeyStorage::Fallback)));
    let w = out.warning.expect("warning");
    assert_eq!(w.context, "写入系统钥匙串失败");
    assert_eq!(
        w.message(),
        "写入系统钥匙串失败：系统凭据存储不可用 (DBus error). 已使用配置文件回退存储（弱加密）。"
    );
    let stored = c.ssh_private_key_fallback.clone().expect("stored");
    assert_eq!(stored, encrypt("k", &KEY));
    assert_eq!(decrypt(&stored, &KEY), Ok("k".to_string()));
}

#[test]
fn set_key_other_error_is_reported() {
    let mut c = Config::new();
    let out = set_key(&mut c, "k", &KEY, Err(failure(KeyringStep::OpenEntry, KeyringErrorKind::Other, "bad")));
    let e = out.result.err().expect("error");
    assert_eq!(e.message(), "创建钥匙串条目失败: bad");
    assert!(c.ssh_private_key_fallback.is_none());
}

#[test]
fn get_key_prefers_keyring() {
    let out = get_key(Ok("from-keyring".to_string()), Some("fb".to_string()));
    let k = out.result.ok().flatten().expect("key");
    assert_eq!(k.value, "from-keyring");
    assert_eq!(k.storage, KeyStorage::Keyring);
    assert!(!read_uses_fallback(&Ok("x".to_string())));
}

#[test]
fn get_key_missing_entry_uses_fallback() {
    let read = Err(failure(KeyringStep::Access, KeyringErrorKind::NoEntry, "none"));
    assert!(read_uses_fallback(&read));
    let out = get_key(read, Some("fb".to_string()));
    let k = out.result.ok().flatten().expect("key");
    assert_eq!((k.value.as_str(), k.storage), ("fb", KeyStorage::Fallback));
    assert!(out.warning.is_none());
    let out = get_key(Err(failure(KeyringStep::Access, KeyringErrorKind::NoEntry, "")), None);
    assert!(matches!(out.result, Ok(None)));
}

#[test]
fn get_key_platform_error_warns_and_uses_fallback() {
    let read = Err(failure(KeyringStep::OpenEntry, KeyringErrorKind::NoStorageAccess, "locked"));
    let out = get_key(read, Some("fb".to_string()));
    assert!(out.result.ok().flatten().is_some());
    let w = out.warning.expect("warning");
    assert_eq!(
        w.message(),
        "无法访问系统钥匙串：无法访问系统凭据存储（可能被锁定或权限不足）。已使用配置文件回退存储（弱加密）。"
    );
}

#[test]
fn warning_names_missing_secret_service() {
    let read = Err(failure(
        KeyringStep::Access,
        KeyringErrorKind::PlatformFailure,
        "org.freedesktop.DBus.Error.ServiceUnknown: no such name",
    ));
    let w = get_key(read, None).warning.expect("warning");
    assert_eq!(
        w.message(),
        "读取系统钥匙串失败：当前环境未运行凭据管理服务 (Secret Service)。已使用配置文件回退存储（弱加密）。"
    );
}

#[test]
fn get_key_other_error() {
    let read = Err(failure(KeyringStep::Access, KeyringErrorKind::Other, "boom"));
    assert!(!read_uses_fallback(&read));
    let e = get_key(read, Some("fb".to_string())).result.err().expect("error");
    assert_eq!(e.message(), "读取系统钥匙串失败: boom");
}

#[test]
fn delete_key_outcomes() {
    assert!(delete_key(Ok(())).result.is_ok());
    let out = delete_key(Err(failure(KeyringStep::Access, KeyringErrorKind::NoEntry, "")));
    assert!(out.result.is_ok() && out.warning.is_none());
    let out = delete_key(Err(failure(KeyringStep::Access, KeyringErrorKind::PlatformFailure, "x")));
    assert!(out.result.is_ok());
    assert_eq!(out.warning.expect("warning").context, "删除系统钥匙串失败");
    let e = delete_key(Err(failure(KeyringStep::Access, KeyringErrorKind::Other, "y")))
        .result
        .err()
        .expect("error");
    assert_eq!(e.message(), "删除系统钥匙串内容失败: y");
    let e = delete_key(Err(failure(KeyringStep::OpenEntry, KeyringErrorKind::Other, "z")))
        .result
        .err()
        .expect("error");
    assert_eq!(e.message(), "创建钥匙串条目失败: z");
}

#[test]
fn quote_path_escapes_quotes() {
    assert_eq!(quote_path("/home/a b/known_hosts"), "\"/home/a b/known_hosts\"");
    assert_eq!(quote_path("a\"b"), "\"a\\\"b\"");
    assert_eq!(quote_path(""), "\"\"");
}

#[test]
fn ssh_commands() {
    assert_eq!(
        agent_ssh_command("/c/known_hosts"),
        "ssh -o UserKnownHostsFile=\"/c/known_hosts\" -o StrictHostKeyChecking=accept-new"
    );
    assert_eq!(
        key_file_ssh_command("/c/ssh_key_1", "/c/known_hosts"),
        "ssh -i \"/c/ssh_key_1\" -o IdentitiesOnly=yes -o UserKnownHostsFile=\"/c/known_hosts\" -o StrictHostKeyChecking=accept-new"
    );
}

#[test]
fn key_saved_to_the_fallback_is_read_back() {
    let mut c = Config::new();
    let write = Err(failure(KeyringStep::Access, KeyringErrorKind::PlatformFailure, "down"));
    let saved = set_key(&mut c, "-----KEY-----\nabc\n", &KEY, write);
    assert!(matches!(saved.result, Ok(KeyStorage::Fallback)));
    let read = Err(failure(KeyringStep::Access, KeyringErrorKind::NoEntry, "none"));
    assert!(read_uses_fallback(&read));
    let loaded = load_key(&c, &KEY);
    let got = get_key(read, loaded.value).result.ok().flatten().expect("key");
    assert_eq!((got.value.as_str(), got.storage), ("-----KEY-----\nabc\n", KeyStorage::Fallback));
}

#[test]
fn key_saved_to_the_keyring_is_read_back() {
    let mut c = Config::new();
    c.ssh_private_key_fallback = Some(encrypt("older", &KEY));
    let saved = set_key(&mut c, "newer", &KEY, Ok(()));
    assert!(matches!(saved.result, Ok(KeyStorage::Keyring)));
    let loaded = load_key(&c, &KEY);
    assert!(loaded.value.is_none());
    let got = get_key(Ok("newer".to_string()), loaded.value).result.ok().flatten().expect("key");
    assert_eq!((got.value.as_str(), got.storage), ("newer", KeyStorage::Keyring));
}

#[test]
fn configuration_written_after_saving_a_key() {
    assert_eq!(save_after_set(KeyStorage::Fallback, false), ConfigSave::Required);
    assert_eq!(save_after_set(KeyStorage::Fallback, true), ConfigSave::Required);
    assert_eq!(save_after_set(KeyStorage::Keyring, true), ConfigSave::BestEffort);
    assert_eq!(save_after_set(KeyStorage::Keyring, false), ConfigSave::Skip);
}
