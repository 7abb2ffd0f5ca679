//! The SSH key decisions under their older module path.

pub use crate::ssh::agent::{agent_ssh_command, key_file_ssh_command, quote_path};
pub use crate::ssh::fallback::{decrypt, derive_key, encrypt, hex_decode, hex_encode};
pub use crate::ssh::keyring::{delete_key, get_key, set_key, KeyStorage, StoredKey};
