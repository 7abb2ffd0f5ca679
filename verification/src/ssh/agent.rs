//! The `GIT_SSH_COMMAND` that makes `git` use the stored key.

use vstd::prelude::*;
use vstd::string::StringExecFns;
use crate::text::{push_char, str_to_chars};

verus! {

/// `s` with every `"` preceded by a backslash.
pub open spec fn escape_quotes(s: Seq<char>) -> Seq<char>
    decreases s.len(),
{
    if s.len() == 0 {
        Seq::empty()
    } else if s.last() == '"' {
        escape_quotes(s.drop_last()) + seq!['\\', '"']
    } else {
        escape_quotes(s.drop_last()).push(s.last())
    }
}

/// `path` in double quotes, its own double quotes escaped.
pub open spec fn spec_quote_path(path: Seq<char>) -> Seq<char> {
    seq!['"'] + escape_quotes(path) + seq!['"']
}

/// Quotes a path for the shell command line that `git` runs.
pub fn quote_path(path: &str) -> (q: String)
    ensures
        q@ == spec_quote_path(path@),
{
    let chars = str_to_chars(path);
    let mut q = String::new();
    push_char(&mut q, '"');
    let mut i: usize = 0;
    assert(chars@.take(0) =~= Seq::<char>::empty());
    while i < chars.len()
        invariant
            i <= chars.len(),
            q@ == seq!['"'] + escape_quotes(chars@.take(i as int)),
        decreases chars.len() - i,
    {
        let c = chars[i];
        assert(chars@.take(i + 1).drop_last() =~= chars@.take(i as int));
        if c == '"' {
            push_char(&mut q, '\\');
            push_char(&mut q, '"');
        } else {
            push_char(&mut q, c);
        }
        i = i + 1;
        assert(q@ =~= seq!['"'] + escape_quotes(chars@.take(i as int)));
    }
    assert(chars@.take(chars.len() as int) =~= path@);
    push_char(&mut q, '"');
    q
}

/// The command when the key was loaded into `ssh-agent`: only the
/// known-hosts file is pinned.
pub open spec fn spec_agent_ssh_command(known_hosts: Seq<char>) -> Seq<char> {
    "ssh -o UserKnownHostsFile="@ + spec_quote_path(known_hosts)
        + " -o StrictHostKeyChecking=accept-new"@
}

/// The command when the key is handed over in a file: that identity only,
/// and the known-hosts file pinned.
pub open spec fn spec_key_file_ssh_command(key_file: Seq<char>, known_hosts: Seq<char>) -> Seq<
    char,
> {
    "ssh -i "@ + spec_quote_path(key_file) + " -o IdentitiesOnly=yes -o UserKnownHostsFile="@
        + spec_quote_path(known_hosts) + " -o StrictHostKeyChecking=accept-new"@
}

/// The `GIT_SSH_COMMAND` to use when `ssh-agent` holds the key.
pub fn agent_ssh_command(known_hosts: &str) -> (cmd: String)
    ensures
        cmd@ == spec_agent_ssh_command(known_hosts@),
{
    let mut cmd = "ssh -o UserKnownHostsFile=".to_owned();
    let kh = quote_path(known_hosts);
    cmd.append(kh.as_str());
    cmd.append(" -o StrictHostKeyChecking=accept-new");
    cmd
}

/// The `GIT_SSH_COMMAND` to use when the key is in the file `key_file`.
pub fn key_file_ssh_command(key_file: &str, known_hosts: &str) -> (cmd: String)
    ensures
        cmd@ == spec_key_file_ssh_command(key_file@, known_hosts@),
{
    let mut cmd = "ssh -i ".to_owned();
    let kp = quote_path(key_file);
    cmd.append(kp.as_str());
    cmd.append(" -o IdentitiesOnly=yes -o UserKnownHostsFile=");
    let kh = quote_path(known_hosts);
    cmd.append(kh.as_str());
    cmd.append(" -o StrictHostKeyChecking=accept-new");
    cmd
}

} // verus!
