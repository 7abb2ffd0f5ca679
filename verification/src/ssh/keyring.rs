//! The decisions taken around the system keyring. The keyring itself is
//! reached by the caller; each operation's outcome comes here as a
//! `Result` whose error names the step that failed and the keyring's error.
//! When the keyring platform is unavailable, the key falls back to the
//! encrypted copy in the configuration.

use vstd::prelude::*;
use vstd::string::StringExecFns;
use crate::config::Config;
use crate::ssh::fallback::{
    delete_fallback_key, law_decrypt_encrypt, load_key_outcome, spec_encrypt, store_key, LoadedKey,
};
use crate::text::str_to_chars;

verus! {

/// Where the SSH private key is kept.
#[derive(Debug, Clone, Copy, PartialEq, Eq, Structural)]
pub enum KeyStorage {
    /// In the system keyring.
    Keyring,
    /// In the configuration file, weakly encrypted.
    Fallback,
}

/// A stored key and where it was found.
pub struct StoredKey {
    /// The key text.
    pub value: String,
    /// Where it was found.
    pub storage: KeyStorage,
}

/// The kinds of keyring failure that the decisions tell apart.
#[derive(Debug, Clone, Copy, PartialEq, Eq, Structural)]
pub enum KeyringErrorKind {
    /// The platform's secure storage failed.
    PlatformFailure,
    /// The platform's secure storage could not be accessed.
    NoStorageAccess,
    /// No credential is stored for the entry.
    NoEntry,
    /// Any other failure.
    Other,
}

/// A failure reported by the keyring: its kind and its message.
pub struct KeyringError {
    pub kind: KeyringErrorKind,
    pub message: String,
}

/// The step of a keyring operation that failed.
#[derive(Debug, Clone, Copy, PartialEq, Eq, Structural)]
pub enum KeyringStep {
    /// Creating the keyring entry for the key.
    OpenEntry,
    /// Reading, writing or deleting the entry's secret.
    Access,
}

/// A failed keyring operation.
pub struct KeyringFailure {
    pub step: KeyringStep,
    pub error: KeyringError,
}

/// An error that ends a key command: what was being done and the keyring's
/// message.
pub struct KeyError {
    pub context: String,
    pub detail: String,
}

/// Notice that the keyring platform is unavailable and the configuration
/// file is used instead.
pub struct FallbackWarning {
    pub context: String,
    pub error: KeyringError,
}

/// The outcome of a key command: its result and the warning to show.
pub struct KeyOutcome<T> {
    pub result: Result<T, KeyError>,
    pub warning: Option<FallbackWarning>,
}

/// Whether a keyring failure means the platform store is unavailable, in
/// which case the fallback copy is used.
pub open spec fn spec_is_platform_error(kind: KeyringErrorKind) -> bool {
    kind == KeyringErrorKind::PlatformFailure || kind == KeyringErrorKind::NoStorageAccess
}

/// Whether a keyring failure means the platform store is unavailable.
pub fn is_platform_error(error: &KeyringError) -> (b: bool)
    ensures
        b == spec_is_platform_error(error.kind),
{
    match error.kind {
        KeyringErrorKind::PlatformFailure | KeyringErrorKind::NoStorageAccess => true,
        _ => false,
    }
}

/// The context of a failed write of the key.
pub open spec fn set_context(step: KeyringStep) -> Seq<char> {
    match step {
        KeyringStep::OpenEntry => "创建钥匙串条目失败"@,
        KeyringStep::Access => "写入系统钥匙串失败"@,
    }
}

/// The context of a warning while reading the key.
pub open spec fn get_warning_context(step: KeyringStep) -> Seq<char> {
    match step {
        KeyringStep::OpenEntry => "无法访问系统钥匙串"@,
        KeyringStep::Access => "读取系统钥匙串失败"@,
    }
}

/// The context of an error while reading the key.
pub open spec fn get_error_context(step: KeyringStep) -> Seq<char> {
    match step {
        KeyringStep::OpenEntry => "创建钥匙串条目失败"@,
        KeyringStep::Access => "读取系统钥匙串失败"@,
    }
}

/// The context of a warning while deleting the key.
pub open spec fn delete_warning_context(step: KeyringStep) -> Seq<char> {
    match step {
        KeyringStep::OpenEntry => "无法访问系统钥匙串"@,
        KeyringStep::Access => "删除系统钥匙串失败"@,
    }
}

/// The context of an error while deleting the key.
pub open spec fn delete_error_context(step: KeyringStep) -> Seq<char> {
    match step {
        KeyringStep::OpenEntry => "创建钥匙串条目失败"@,
        KeyringStep::Access => "删除系统钥匙串内容失败"@,
    }
}

fn set_context_text(step: KeyringStep) -> (s: String)
    ensures
        s@ == set_context(step),
{
    match step {
        KeyringStep::OpenEntry => "创建钥匙串条目失败".to_owned(),
        KeyringStep::Access => "写入系统钥匙串失败".to_owned(),
    }
}

fn get_warning_context_text(step: KeyringStep) -> (s: String)
    ensures
        s@ == get_warning_context(step),
{
    match step {
        KeyringStep::OpenEntry => "无法访问系统钥匙串".to_owned(),
        KeyringStep::Access => "读取系统钥匙串失败".to_owned(),
    }
}

fn get_error_context_text(step: KeyringStep) -> (s: String)
    ensures
        s@ == get_error_context(step),
{
    match step {
        KeyringStep::OpenEntry => "创建钥匙串条目失败".to_owned(),
        KeyringStep::Access => "读取系统钥匙串失败".to_owned(),
    }
}

fn delete_warning_context_text(step: KeyringStep) -> (s: String)
    ensures
        s@ == delete_warning_context(step),
{
    match step {
        KeyringStep::OpenEntry => "无法访问系统钥匙串".to_owned(),
        KeyringStep::Access => "删除系统钥匙串失败".to_owned(),
    }
}

fn delete_error_context_text(step: KeyringStep) -> (s: String)
    ensures
        s@ == delete_error_context(step),
{
    match step {
        KeyringStep::OpenEntry => "创建钥匙串条目失败".to_owned(),
        KeyringStep::Access => "删除系统钥匙串内容失败".to_owned(),
    }
}

/// What `set_key` gives: the outcome `out` and the configuration `after`
/// made from `before`, given the keyring's outcome `write` of writing the key
/// text `key`.
pub open spec fn set_key_outcome(
    before: Config,
    after: Config,
    key: Seq<char>,
    machine_key: Seq<u8>,
    write: Result<(), KeyringFailure>,
    out: KeyOutcome<KeyStorage>,
) -> bool {
    match write {
        Ok(()) => {
            &&& out.result matches Ok(s) && s == KeyStorage::Keyring
            &&& out.warning is None
            &&& after.ssh_private_key_fallback is None
        },
        Err(f) => if spec_is_platform_error(f.error.kind) {
            &&& out.result matches Ok(s) && s == KeyStorage::Fallback
            &&& out.warning matches Some(w) && w.context@ == set_context(f.step) && w.error
                == f.error
            &&& after.ssh_private_key_fallback matches Some(v) && v@ == spec_encrypt(
                key,
                machine_key,
            )
        } else {
            &&& out.result matches Err(e) && e.context@ == set_context(f.step) && e.detail
                == f.error.message
            &&& out.warning is None
            &&& after.ssh_private_key_fallback == before.ssh_private_key_fallback
        },
    }
}

/// Saves the key text `key` given the outcome of writing it to the
/// keyring. When the write succeeded the fallback copy is dropped; when the
/// platform store is unavailable the key is stored in the configuration
/// (with a warning); any other failure is an error, and the configuration
/// is left alone. The caller saves the configuration when it changed.
pub fn set_key(
    config: &mut Config,
    key: &str,
    machine_key: &[u8; 32],
    write: Result<(), KeyringFailure>,
) -> (out: KeyOutcome<KeyStorage>)
    ensures
        final(config).repos == old(config).repos,
        final(config).concurrency == old(config).concurrency,
        set_key_outcome(*old(config), *final(config), key@, machine_key@, write, out),
{
    match write {
        Ok(()) => {
            let _ = delete_fallback_key(config);
            KeyOutcome { result: Ok(KeyStorage::Keyring), warning: None }
        },
        Err(f) => {
            if is_platform_error(&f.error) {
                store_key(config, key, machine_key);
                let context = set_context_text(f.step);
                KeyOutcome {
                    result: Ok(KeyStorage::Fallback),
                    warning: Some(FallbackWarning { context, error: f.error }),
                }
            } else {
                let context = set_context_text(f.step);
                KeyOutcome {
                    result: Err(KeyError { context, detail: f.error.message }),
                    warning: None,
                }
            }
        },
    }
}

/// Whether the configuration file is written after a key was saved.
#[derive(Debug, Clone, Copy, PartialEq, Eq, Structural)]
pub enum ConfigSave {
    /// The configuration did not change.
    Skip,
    /// The fallback copy was dropped; a failed write is ignored.
    BestEffort,
    /// The key went into the configuration; a failed write is an error.
    Required,
}

/// Decides, after `set_key` saved the key in `storage`, whether the
/// configuration is written: when the key went into it; when it went to
/// the keyring and a fallback copy was dropped (`had_fallback`), as a best
/// effort; otherwise not at all.
pub fn save_after_set(storage: KeyStorage, had_fallback: bool) -> (s: ConfigSave)
    ensures
        storage == KeyStorage::Fallback ==> s == ConfigSave::Required,
        storage == KeyStorage::Keyring && had_fallback ==> s == ConfigSave::BestEffort,
        storage == KeyStorage::Keyring && !had_fallback ==> s == ConfigSave::Skip,
{
    match storage {
        KeyStorage::Fallback => ConfigSave::Required,
        KeyStorage::Keyring => if had_fallback {
            ConfigSave::BestEffort
        } else {
            ConfigSave::Skip
        },
    }
}

/// Whether reading the key, given the keyring's outcome, consults the
/// fallback copy: when no entry exists or the platform store is
/// unavailable.
pub open spec fn spec_read_uses_fallback(read: Result<String, KeyringFailure>) -> bool {
    match read {
        Ok(_) => false,
        Err(f) => spec_is_platform_error(f.error.kind) || (f.step == KeyringStep::Access
            && f.error.kind == KeyringErrorKind::NoEntry),
    }
}

/// Whether reading the key consults the fallback copy; the caller loads
/// that copy only then.
pub fn read_uses_fallback(read: &Result<String, KeyringFailure>) -> (b: bool)
    ensures
        b == spec_read_uses_fallback(*read),
{
    match read {
        Ok(_) => false,
        Err(f) => is_platform_error(&f.error) || (f.step == KeyringStep::Access && f.error.kind
            == KeyringErrorKind::NoEntry),
    }
}

/// The key found in the fallback copy, as a stored key.
pub open spec fn fallback_found(fallback: Option<String>, found: Option<StoredKey>) -> bool {
    match fallback {
        Some(v) => found matches Some(k) && k.value == v && k.storage == KeyStorage::Fallback,
        None => found is None,
    }
}

/// What `get_key` gives, given the keyring's outcome `read` and the key
/// text of the fallback copy `fallback`.
pub open spec fn get_key_outcome(
    read: Result<String, KeyringFailure>,
    fallback: Option<String>,
    out: KeyOutcome<Option<StoredKey>>,
) -> bool {
    match read {
        Ok(v) => {
            &&& out.result matches Ok(Some(k)) && k.value == v && k.storage
                == KeyStorage::Keyring
            &&& out.warning is None
        },
        Err(f) => if spec_is_platform_error(f.error.kind) {
            &&& out.result matches Ok(found) && fallback_found(fallback, found)
            &&& out.warning matches Some(w) && w.context@ == get_warning_context(f.step)
                && w.error == f.error
        } else if f.step == KeyringStep::Access && f.error.kind == KeyringErrorKind::NoEntry {
            &&& out.result matches Ok(found) && fallback_found(fallback, found)
            &&& out.warning is None
        } else {
            &&& out.result matches Err(e) && e.context@ == get_error_context(f.step)
                && e.detail == f.error.message
            &&& out.warning is None
        },
    }
}

/// Reads the key given the keyring's outcome and, when the fallback is
/// consulted, the key text of the fallback copy (`None` when there is none
/// or it cannot be read). A key in the keyring wins; a missing entry or an
/// unavailable platform store (the latter with a warning) gives the
/// fallback; any other failure is an error.
pub fn get_key(read: Result<String, KeyringFailure>, fallback: Option<String>) -> (out: KeyOutcome<
    Option<StoredKey>,
>)
    ensures
        get_key_outcome(read, fallback, out),
{
    match read {
        Ok(value) => KeyOutcome {
            result: Ok(Some(StoredKey { value, storage: KeyStorage::Keyring })),
            warning: None,
        },
        Err(f) => {
            let found = match fallback {
                Some(value) => Some(StoredKey { value, storage: KeyStorage::Fallback }),
                None => None,
            };
            if is_platform_error(&f.error) {
                let context = get_warning_context_text(f.step);
                KeyOutcome {
                    result: Ok(found),
                    warning: Some(FallbackWarning { context, error: f.error }),
                }
            } else if f.step == KeyringStep::Access && f.error.kind == KeyringErrorKind::NoEntry {
                KeyOutcome { result: Ok(found), warning: None }
            } else {
                let context = get_error_context_text(f.step);
                KeyOutcome {
                    result: Err(KeyError { context, detail: f.error.message }),
                    warning: None,
                }
            }
        },
    }
}

/// Decides, given the keyring's outcome of deleting the key, whether the
/// deletion goes on to the fallback copy (`Ok`): a missing entry is fine,
/// an unavailable platform store gives a warning, any other failure is an
/// error. The caller then drops the fallback copy with
/// `delete_fallback_key`.
pub fn delete_key(delete: Result<(), KeyringFailure>) -> (out: KeyOutcome<()>)
    ensures
        match delete {
            Ok(()) => out.result is Ok && out.warning is None,
            Err(f) => if spec_is_platform_error(f.error.kind) {
                &&& out.result is Ok
                &&& out.warning matches Some(w) && w.context@ == delete_warning_context(f.step)
                    && w.error == f.error
            } else if f.step == KeyringStep::Access && f.error.kind == KeyringErrorKind::NoEntry {
                out.result is Ok && out.warning is None
            } else {
                &&& out.result matches Err(e) && e.context@ == delete_error_context(f.step)
                    && e.detail == f.error.message
                &&& out.warning is None
            },
        },
{
    match delete {
        Ok(()) => KeyOutcome { result: Ok(()), warning: None },
        Err(f) => {
            if is_platform_error(&f.error) {
                let context = delete_warning_context_text(f.step);
                KeyOutcome { result: Ok(()), warning: Some(FallbackWarning { context, error: f.error }) }
            } else if f.step == KeyringStep::Access && f.error.kind == KeyringErrorKind::NoEntry {
                KeyOutcome { result: Ok(()), warning: None }
            } else {
                let context = delete_error_context_text(f.step);
                KeyOutcome {
                    result: Err(KeyError { context, detail: f.error.message }),
                    warning: None,
                }
            }
        },
    }
}


/// Whether `pat` occurs in `s` as a contiguous run.
pub open spec fn contains_text(s: Seq<char>, pat: Seq<char>) -> bool {
    exists|i: int| 0 <= i && i + pat.len() <= s.len() && #[trigger] s.subrange(i, i + pat.len()) == pat
}

fn chars_contain(s: &Vec<char>, pat: &Vec<char>) -> (b: bool)
    ensures
        b == contains_text(s@, pat@),
{
    if pat.len() > s.len() {
        return false;
    }
    let last = s.len() - pat.len();
    let mut i: usize = 0;
    while i <= last
        invariant
            last + pat.len() == s.len(),
            forall|k: int| 0 <= k < i ==> #[trigger] s@.subrange(k, k + pat.len()) != pat@,
        decreases last + 1 - i,
    {
        let mut j: usize = 0;
        let mut same = true;
        while j < pat.len()
            invariant
                i <= last,
                last + pat.len() == s.len(),
                j <= pat.len(),
                same == (forall|m: int| 0 <= m < j ==> s@[i + m] == pat@[m]),
            decreases pat.len() - j,
        {
            if s[i + j] != pat[j] {
                same = false;
            }
            j = j + 1;
        }
        if same {
            assert(s@.subrange(i as int, i + pat.len()) =~= pat@);
            return true;
        }
        assert(s@.subrange(i as int, i + pat.len()) != pat@) by {
            let m = choose|m: int| 0 <= m < pat.len() && s@[i + m] != pat@[m];
            assert(s@.subrange(i as int, i + pat.len())[m] == s@[i + m]);
        }
        i = i + 1;
    }
    false
}

/// The notice shown when the fallback copy is used instead of the keyring.
pub open spec fn spec_warning_message(context: Seq<char>, error: KeyringError) -> Seq<char> {
    if contains_text(error.message@, "ServiceUnknown"@) {
        context + "：当前环境未运行凭据管理服务 (Secret Service)。已使用配置文件回退存储（弱加密）。"@
    } else if error.kind == KeyringErrorKind::NoStorageAccess {
        context + "：无法访问系统凭据存储（可能被锁定或权限不足）。已使用配置文件回退存储（弱加密）。"@
    } else {
        context + "：系统凭据存储不可用 ("@ + error.message@ + "). 已使用配置文件回退存储（弱加密）。"@
    }
}

impl FallbackWarning {
    /// The notice to show: it names a missing Secret Service, a locked
    /// store, or else quotes the keyring's message.
    pub fn message(&self) -> (m: String)
        ensures
            m@ == spec_warning_message(self.context@, self.error),
    {
        let detail = str_to_chars(self.error.message.as_str());
        let marker = str_to_chars("ServiceUnknown");
        let mut m = self.context.clone();
        if chars_contain(&detail, &marker) {
            m.append("：当前环境未运行凭据管理服务 (Secret Service)。已使用配置文件回退存储（弱加密）。");
        } else if self.error.kind == KeyringErrorKind::NoStorageAccess {
            m.append("：无法访问系统凭据存储（可能被锁定或权限不足）。已使用配置文件回退存储（弱加密）。");
        } else {
            m.append("：系统凭据存储不可用 (");
            m.append(self.error.message.as_str());
            m.append("). 已使用配置文件回退存储（弱加密）。");
        }
        m
    }
}

impl KeyError {
    /// The error text: the context, a colon, and the keyring's message.
    pub fn message(&self) -> (m: String)
        ensures
            m@ == self.context@ + ": "@ + self.detail@,
    {
        let mut m = self.context.clone();
        m.append(": ");
        m.append(self.detail.as_str());
        m
    }
}


/// A key that was saved is read back: after `set_key` saved the key text
/// `key` (giving `Ok` with the place it was kept), reading the key gives
/// that text and that place, provided the keyring behaves as a store: when
/// the key went to the keyring, reading the keyring gives back what was
/// written; when it went to the configuration, the keyring holds no entry
/// or is still unavailable. The fallback copy is loaded from the
/// configuration that `set_key` left.
pub proof fn law_set_then_get(
    before: Config,
    after: Config,
    key: Seq<char>,
    machine_key: Seq<u8>,
    write: Result<(), KeyringFailure>,
    saved: KeyOutcome<KeyStorage>,
    read: Result<String, KeyringFailure>,
    loaded: LoadedKey,
    got: KeyOutcome<Option<StoredKey>>,
)
    requires
        machine_key.len() == 32,
        set_key_outcome(before, after, key, machine_key, write, saved),
        saved.result is Ok,
        saved.result == Ok::<KeyStorage, KeyError>(KeyStorage::Keyring) ==> (read matches Ok(v)
            && v@ == key),
        saved.result == Ok::<KeyStorage, KeyError>(KeyStorage::Fallback) ==> spec_read_uses_fallback(
            read,
        ),
        load_key_outcome(after, machine_key, loaded),
        get_key_outcome(read, loaded.value, got),
    ensures
        got.result matches Ok(Some(k)) && k.value@ == key && saved.result == Ok::<
            KeyStorage,
            KeyError,
        >(k.storage),
{
    law_decrypt_encrypt(key, machine_key);
}


/// When reading the keyring fails because the platform store is
/// unavailable (a platform failure or no access to the store, at either
/// step) or because no entry exists, the fallback copy is consulted; a key
/// read from the keyring, or any other failure, does not consult it.
pub proof fn law_read_uses_fallback_when(read: Result<String, KeyringFailure>)
    ensures
        read matches Err(f) && (f.error.kind == KeyringErrorKind::PlatformFailure || f.error.kind
            == KeyringErrorKind::NoStorageAccess) ==> spec_read_uses_fallback(read),
        read matches Err(f) && f.step == KeyringStep::Access && f.error.kind
            == KeyringErrorKind::NoEntry ==> spec_read_uses_fallback(read),
        read is Ok ==> !spec_read_uses_fallback(read),
        read matches Err(f) && f.error.kind == KeyringErrorKind::Other ==> !spec_read_uses_fallback(
            read,
        ),
        read matches Err(f) && f.step == KeyringStep::OpenEntry && f.error.kind
            == KeyringErrorKind::NoEntry ==> !spec_read_uses_fallback(read),
{
}

/// A key saved to the fallback copy is read back, as the key commands read
/// it: after `set_key` kept the key text `key` in the configuration,
/// reading the keyring fails (no entry, or the platform store still
/// unavailable), the fallback copy is loaded from that configuration only
/// where `read_uses_fallback` says so, and `get_key` then gives the key
/// text, found in the fallback.
pub proof fn law_fallback_key_read_back(
    before: Config,
    after: Config,
    key: Seq<char>,
    machine_key: Seq<u8>,
    write: Result<(), KeyringFailure>,
    saved: KeyOutcome<KeyStorage>,
    read: Result<String, KeyringFailure>,
    loaded: LoadedKey,
    got: KeyOutcome<Option<StoredKey>>,
)
    requires
        machine_key.len() == 32,
        set_key_outcome(before, after, key, machine_key, write, saved),
        saved.result == Ok::<KeyStorage, KeyError>(KeyStorage::Fallback),
        read matches Err(f) && (f.error.kind == KeyringErrorKind::PlatformFailure || f.error.kind
            == KeyringErrorKind::NoStorageAccess || (f.step == KeyringStep::Access && f.error.kind
            == KeyringErrorKind::NoEntry)),
        load_key_outcome(after, machine_key, loaded),
        get_key_outcome(
            read,
            if spec_read_uses_fallback(read) {
                loaded.value
            } else {
                None
            },
            got,
        ),
    ensures
        got.result matches Ok(Some(k)) && k.value@ == key && k.storage == KeyStorage::Fallback,
{
    law_decrypt_encrypt(key, machine_key);
}

} // verus!
