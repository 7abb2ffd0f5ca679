# skills_sync

A tool that keeps many local Git repositories in sync: it checks which
watched repositories are behind or ahead of their upstream, pulls those that
are behind, adds repositories (one by one, by scanning a directory, or by
cloning), and stores the SSH key used for cloning in the system keyring or,
when that is unavailable, weakly encrypted in its configuration file.

Layout:

- `src/` — the library, verified with Verus: the watched-repository list
  (`repo`, `config`), the readers of `git` output and the clone-target naming
  (`git::ops`), the directory-scan decisions (`git::scan`), the batch helpers
  (`commands`), the SSH key storage decisions and the fallback encryption
  (`ssh::keyring`, `ssh::fallback`, `ssh::agent`), and the command-line values
  (`cli`).
- `tests/` — tests of the library on concrete values.
- `app/` — the `skillsync` program: argument parsing, the configuration file,
  `git` and `ssh-add` processes, the keyring, progress bars and output.
