//! The configuration: the watched repositories, the concurrency of the
//! batch commands, and the fallback copy of the SSH key.

use vstd::prelude::*;

verus! {

/// The concurrency used when the configuration sets none.
pub const DEFAULT_CONCURRENCY: usize = 20;

/// The configuration file's content.
pub struct Config {
    /// Absolute paths of the watched Git repositories, in the order added.
    pub repos: Vec<String>,
    /// The number of repositories handled at once, when set.
    pub concurrency: Option<usize>,
    /// The encrypted fallback copy of the SSH private key, when stored.
    pub ssh_private_key_fallback: Option<String>,
}

/// Why a configuration request was refused.
#[derive(Debug, Clone, Copy, PartialEq, Eq, Structural)]
pub enum ConfigError {
    /// A concurrency of 0 was requested or is configured.
    ZeroConcurrency,
}

impl Default for Config {
    fn default() -> (c: Config)
        ensures
            c.repos@.len() == 0,
            c.concurrency is None,
            c.ssh_private_key_fallback is None,
    {
        Config { repos: Vec::new(), concurrency: None, ssh_private_key_fallback: None }
    }
}

impl Config {
    /// The watched repositories as character sequences.
    pub open spec fn repo_list(&self) -> Seq<Seq<char>> {
        self.repos.deep_view()
    }

    /// The concurrency in effect.
    pub open spec fn spec_concurrency(&self) -> usize {
        match self.concurrency {
            Some(n) => n,
            None => DEFAULT_CONCURRENCY,
        }
    }

    /// An empty configuration.
    pub fn new() -> (c: Config)
        ensures
            c.repo_list().len() == 0,
            c.concurrency is None,
            c.ssh_private_key_fallback is None,
    {
        Config { repos: Vec::new(), concurrency: None, ssh_private_key_fallback: None }
    }

    /// The number of repositories handled at once (20 unless configured).
    pub fn get_concurrency(&self) -> (n: usize)
        ensures
            n == self.spec_concurrency(),
    {
        match self.concurrency {
            Some(n) => n,
            None => DEFAULT_CONCURRENCY,
        }
    }

    /// Sets the concurrency; it must be greater than 0.
    pub fn set_concurrency(&mut self, value: usize) -> (r: Result<(), ConfigError>)
        ensures
            spec_set_concurrency(*old(self), *final(self), value, r),
    {
        if value == 0 {
            return Err(ConfigError::ZeroConcurrency);
        }
        self.concurrency = Some(value);
        Ok(())
    }

    /// The concurrency for a batch command, refused when it is 0.
    pub fn usable_concurrency(&self) -> (r: Result<usize, ConfigError>)
        ensures
            self.spec_concurrency() == 0 ==> r == Err::<usize, ConfigError>(
                ConfigError::ZeroConcurrency,
            ),
            self.spec_concurrency() > 0 ==> r == Ok::<usize, ConfigError>(self.spec_concurrency()),
    {
        let n = self.get_concurrency();
        if n == 0 {
            Err(ConfigError::ZeroConcurrency)
        } else {
            Ok(n)
        }
    }

    /// Whether `path` is watched.
    pub fn contains_repo(&self, path: &String) -> (b: bool)
        ensures
            b == self.repo_list().contains(path@),
    {
        let mut i: usize = 0;
        while i < self.repos.len()
            invariant
                i <= self.repos.len(),
                forall|j: int| 0 <= j < i ==> self.repo_list()[j] != path@,
            decreases self.repos.len() - i,
        {
            if self.repos[i] == *path {
                assert(self.repo_list()[i as int] == path@);
                return true;
            }
            i = i + 1;
        }
        false
    }

    /// Adds the absolute path `abs_path` to the watched repositories unless
    /// it is there already; says whether it was added.
    pub fn add_repo(&mut self, abs_path: String) -> (added: bool)
        ensures
            added == !old(self).repo_list().contains(abs_path@),
            added ==> final(self).repo_list() == old(self).repo_list().push(abs_path@),
            !added ==> final(self).repo_list() == old(self).repo_list(),
            final(self).concurrency == old(self).concurrency,
            final(self).ssh_private_key_fallback == old(self).ssh_private_key_fallback,
    {
        if self.contains_repo(&abs_path) {
            false
        } else {
            self.repos.push(abs_path);
            assert(self.repo_list() =~= old(self).repo_list().push(abs_path@));
            true
        }
    }
}

/// What `set_concurrency` does: a value of 0 is refused and leaves the
/// configuration as it was; any other value is set; nothing else changes.
pub open spec fn spec_set_concurrency(
    before: Config,
    after: Config,
    value: usize,
    r: Result<(), ConfigError>,
) -> bool {
    &&& value == 0 ==> r == Err::<(), ConfigError>(ConfigError::ZeroConcurrency) && after == before
    &&& value > 0 ==> r is Ok && after.concurrency == Some(value)
    &&& after.repos == before.repos
    &&& after.ssh_private_key_fallback == before.ssh_private_key_fallback
}

/// What is set is what is read: after `set_concurrency` accepted a value,
/// the concurrency in effect is that value, and a batch command may use it;
/// after it refused one, the concurrency in effect is unchanged.
pub proof fn law_concurrency_set_get(
    before: Config,
    after: Config,
    value: usize,
    r: Result<(), ConfigError>,
)
    requires
        spec_set_concurrency(before, after, value, r),
    ensures
        r is Ok ==> after.spec_concurrency() == value && after.spec_concurrency() > 0,
        r is Err ==> after.spec_concurrency() == before.spec_concurrency(),
{
}

} // verus!
