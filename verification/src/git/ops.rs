//! Pure parts of the `git` operations: naming a clone target after its
//! URL, and reading the ahead/behind counts that `git rev-list
//! --left-right --count HEAD...@{u}` prints.

use vstd::prelude::*;
use crate::text::{push_char, str_to_chars, string_from_chars};

verus! {

/// The characters that separate the components of a repository address:
/// `/`, `\` and `:`.
pub open spec fn is_path_sep(c: char) -> bool {
    c == '/' || c == '\\' || c == ':'
}

/// `s` without its trailing separators.
pub open spec fn trim_trailing_seps(s: Seq<char>) -> Seq<char>
    decreases s.len(),
{
    if s.len() > 0 && is_path_sep(s.last()) {
        trim_trailing_seps(s.drop_last())
    } else {
        s
    }
}

/// The longest suffix of `s` that holds no separator.
pub open spec fn last_segment(s: Seq<char>) -> Seq<char>
    decreases s.len(),
{
    if s.len() == 0 {
        s
    } else if is_path_sep(s.last()) {
        Seq::empty()
    } else {
        last_segment(s.drop_last()).push(s.last())
    }
}

/// `s` without a trailing `.git`, if it has one.
pub open spec fn strip_git_suffix(s: Seq<char>) -> Seq<char> {
    if s.len() >= 4 && s.subrange(s.len() - 4, s.len() as int) == seq!['.', 'g', 'i', 't'] {
        s.subrange(0, s.len() - 4)
    } else {
        s
    }
}

/// The directory name that a clone of `url` gets by default: the last
/// component of the address (trailing separators ignored) without a
/// `.git` suffix, or `repo` when that leaves nothing.
pub open spec fn spec_infer_repo_dir(url: Seq<char>) -> Seq<char> {
    let name = strip_git_suffix(last_segment(trim_trailing_seps(url)));
    if name.len() == 0 {
        seq!['r', 'e', 'p', 'o']
    } else {
        name
    }
}

fn is_sep_char(c: char) -> (b: bool)
    ensures
        b == is_path_sep(c),
{
    c == '/' || c == '\\' || c == ':'
}

proof fn lemma_trim_prefix(s: Seq<char>, end: int)
    requires
        0 < end <= s.len(),
        is_path_sep(s[end - 1]),
    ensures
        trim_trailing_seps(s.take(end)) == trim_trailing_seps(s.take(end - 1)),
{
    assert(s.take(end).drop_last() =~= s.take(end - 1));
}

/// Infers the default directory name for a clone of `repo_url`.
pub fn infer_repo_dir(repo_url: &str) -> (dir: String)
    ensures
        dir@ == spec_infer_repo_dir(repo_url@),
{
    let v = str_to_chars(repo_url);
    let ghost s = v@;
    let mut end: usize = v.len();
    assert(s.take(end as int) =~= s);
    while end > 0 && is_sep_char(v[end - 1])
        invariant
            v@ == s,
            end <= v.len(),
            trim_trailing_seps(s) == trim_trailing_seps(s.take(end as int)),
        decreases end,
    {
        proof {
            lemma_trim_prefix(s, end as int);
        }
        end = end - 1;
    }
    assert(trim_trailing_seps(s.take(end as int)) == s.take(end as int)) by {
        if end > 0 {
            assert(s.take(end as int).last() == s[end - 1]);
        }
    }
    let mut start: usize = end;
    assert(s.subrange(end as int, end as int) =~= Seq::<char>::empty());
    assert(s.take(end as int) =~= s.take(end as int) + s.subrange(end as int, end as int));
    while start > 0 && !is_sep_char(v[start - 1])
        invariant
            v@ == s,
            start <= end <= v.len(),
            last_segment(s.take(end as int)) == last_segment(s.take(start as int)) + s.subrange(
                start as int,
                end as int,
            ),
        decreases start,
    {
        let ghost st = start as int;
        assert(s.take(st).drop_last() =~= s.take(st - 1));
        assert(s.take(st).last() == s[st - 1]);
        assert(s.subrange(st - 1, end as int) =~= seq![s[st - 1]] + s.subrange(st, end as int));
        assert(last_segment(s.take(st - 1)).push(s[st - 1]) + s.subrange(st, end as int)
            =~= last_segment(s.take(st - 1)) + s.subrange(st - 1, end as int));
        start = start - 1;
    }
    assert(last_segment(s.take(start as int)) =~= Seq::<char>::empty()) by {
        if start > 0 {
            assert(s.take(start as int).last() == s[start - 1]);
        } else {
            assert(s.take(0) =~= Seq::<char>::empty());
        }
    }
    let ghost seg = s.subrange(start as int, end as int);
    assert(last_segment(trim_trailing_seps(s)) =~= seg);
    let len = end - start;
    let mut name_end = end;
    if len >= 4 && v[end - 4] == '.' && v[end - 3] == 'g' && v[end - 2] == 'i' && v[end - 1] == 't' {
        name_end = end - 4;
        assert(seg.subrange(seg.len() - 4, seg.len() as int) =~= seq!['.', 'g', 'i', 't']);
        assert(strip_git_suffix(seg) =~= s.subrange(start as int, name_end as int));
    } else {
        assert(len >= 4 ==> seg.subrange(seg.len() - 4, seg.len() as int) != seq![
            '.',
            'g',
            'i',
            't',
        ]) by {
            if len >= 4 {
                let t = seg.subrange(seg.len() - 4, seg.len() as int);
                assert(t[0] == v[end - 4] && t[1] == v[end - 3] && t[2] == v[end - 2] && t[3]
                    == v[end - 1]);
            }
        }
        assert(strip_git_suffix(seg) =~= s.subrange(start as int, name_end as int));
    }
    if name_end == start {
        let mut d = String::new();
        push_char(&mut d, 'r');
        push_char(&mut d, 'e');
        push_char(&mut d, 'p');
        push_char(&mut d, 'o');
        assert(d@ =~= seq!['r', 'e', 'p', 'o']);
        d
    } else {
        string_from_chars(&v, start, name_end)
    }
}


proof fn lemma_last_segment_plain(s: Seq<char>)
    ensures
        forall|i: int| 0 <= i < last_segment(s).len() ==> !is_path_sep(#[trigger] last_segment(s)[i]),
    decreases s.len(),
{
    if s.len() > 0 && !is_path_sep(s.last()) {
        lemma_last_segment_plain(s.drop_last());
        let prev = last_segment(s.drop_last());
        assert forall|i: int| 0 <= i < last_segment(s).len() implies !is_path_sep(
            #[trigger] last_segment(s)[i],
        ) by {
            if i < prev.len() {
                assert(last_segment(s)[i] == prev[i]);
            }
        }
    }
}

/// A clone always lands in a direct child of the target directory: the
/// inferred directory name is never empty and holds no separator.
pub proof fn law_infer_repo_dir_is_plain_name(url: Seq<char>)
    ensures
        spec_infer_repo_dir(url).len() > 0,
        forall|i: int|
            0 <= i < spec_infer_repo_dir(url).len() ==> !is_path_sep(
                #[trigger] spec_infer_repo_dir(url)[i],
            ),
{
    let seg = last_segment(trim_trailing_seps(url));
    lemma_last_segment_plain(trim_trailing_seps(url));
    let name = strip_git_suffix(seg);
    assert forall|i: int| 0 <= i < name.len() implies !is_path_sep(#[trigger] name[i]) by {
        assert(name[i] == seg[i]);
    }
}

/// How far a local branch is from its upstream branch.
#[derive(Debug, Clone, Copy, PartialEq, Eq, Structural)]
pub struct RepoStatus {
    /// Commits on the local branch that the upstream lacks.
    pub ahead: u32,
    /// Commits on the upstream that the local branch lacks.
    pub behind: u32,
}

/// What a status report says of a repository.
#[derive(Debug, Clone, Copy, PartialEq, Eq, Structural)]
pub enum SyncState {
    /// The upstream has this many commits the local branch lacks.
    Behind(u32),
    /// The local branch has this many unpushed commits (and lacks none).
    Ahead(u32),
    /// Neither side has commits the other lacks.
    UpToDate,
}

impl RepoStatus {
    /// The state to report: being behind takes precedence over being ahead.
    pub fn sync_state(&self) -> (st: SyncState)
        ensures
            self.behind > 0 ==> st == SyncState::Behind(self.behind),
            self.behind == 0 && self.ahead > 0 ==> st == SyncState::Ahead(self.ahead),
            self.behind == 0 && self.ahead == 0 ==> st == SyncState::UpToDate,
    {
        if self.behind > 0 {
            SyncState::Behind(self.behind)
        } else if self.ahead > 0 {
            SyncState::Ahead(self.ahead)
        } else {
            SyncState::UpToDate
        }
    }

    /// Whether an update has to pull: exactly when the branch is behind.
    pub fn needs_pull(&self) -> (b: bool)
        ensures
            b == (self.behind > 0),
    {
        self.behind > 0
    }
}

/// Why the output of `git rev-list --count` could not be read.
#[derive(Debug, Clone, Copy, PartialEq, Eq, Structural)]
pub enum StatusParseError {
    /// The output does not hold exactly two words.
    NotTwoCounts,
}

/// The characters that Unicode classes as white space (the `White_Space`
/// property, which `char::is_whitespace` tests).
pub open spec fn is_unicode_whitespace(c: char) -> bool {
    ||| '\u{9}' <= c <= '\u{d}'
    ||| c == ' '
    ||| c == '\u{85}'
    ||| c == '\u{a0}'
    ||| c == '\u{1680}'
    ||| '\u{2000}' <= c <= '\u{200a}'
    ||| c == '\u{2028}'
    ||| c == '\u{2029}'
    ||| c == '\u{202f}'
    ||| c == '\u{205f}'
    ||| c == '\u{3000}'
}

fn is_whitespace_char(c: char) -> (b: bool)
    ensures
        b == is_unicode_whitespace(c),
{
    ('\u{9}' <= c && c <= '\u{d}') || c == ' ' || c == '\u{85}' || c == '\u{a0}' || c
        == '\u{1680}' || ('\u{2000}' <= c && c <= '\u{200a}') || c == '\u{2028}' || c
        == '\u{2029}' || c == '\u{202f}' || c == '\u{205f}' || c == '\u{3000}'
}

/// The complete words of `s` and the word still being read at its end.
pub open spec fn words_and_rest(s: Seq<char>) -> (Seq<Seq<char>>, Seq<char>)
    decreases s.len(),
{
    if s.len() == 0 {
        (Seq::empty(), Seq::empty())
    } else {
        let (ws, cur) = words_and_rest(s.drop_last());
        let c = s.last();
        if is_unicode_whitespace(c) {
            if cur.len() > 0 {
                (ws.push(cur), Seq::empty())
            } else {
                (ws, cur)
            }
        } else {
            (ws, cur.push(c))
        }
    }
}

/// The maximal runs of non-white-space characters of `s`, in order
/// (what `str::split_whitespace` yields).
pub open spec fn split_whitespace(s: Seq<char>) -> Seq<Seq<char>> {
    let (ws, cur) = words_and_rest(s);
    if cur.len() > 0 {
        ws.push(cur)
    } else {
        ws
    }
}

/// Whether `c` is one of `0`..`9`.
pub open spec fn is_ascii_digit(c: char) -> bool {
    '0' <= c <= '9'
}

/// The number written by the decimal digits `s`.
pub open spec fn digits_value(s: Seq<char>) -> nat
    decreases s.len(),
{
    if s.len() == 0 {
        0
    } else {
        digits_value(s.drop_last()) * 10 + ((s.last() as nat) - 48) as nat
    }
}

/// The digits of a number as `str::parse::<u32>` reads it: one optional
/// leading `+` is dropped.
pub open spec fn unsigned_digits(s: Seq<char>) -> Seq<char> {
    if s.len() > 0 && s[0] == '+' {
        s.drop_first()
    } else {
        s
    }
}

/// The value of `s` as `str::parse::<u32>` reads it: a nonempty run of
/// decimal digits after an optional `+`, no greater than `u32::MAX`.
pub open spec fn spec_parse_u32(s: Seq<char>) -> Option<u32> {
    let d = unsigned_digits(s);
    if d.len() > 0 && (forall|i: int| 0 <= i < d.len() ==> is_ascii_digit(#[trigger] d[i]))
        && digits_value(d) <= u32::MAX {
        Some(digits_value(d) as u32)
    } else {
        None
    }
}

/// A count as the status reader takes it: its value, or 0 when it does not
/// parse.
pub open spec fn count_or_zero(s: Seq<char>) -> u32 {
    match spec_parse_u32(s) {
        Some(v) => v,
        None => 0,
    }
}

/// The status that `git rev-list --left-right --count` output describes:
/// exactly two words, the ahead count then the behind count.
pub open spec fn spec_parse_rev_list_counts(out: Seq<char>) -> Result<
    RepoStatus,
    StatusParseError,
> {
    let w = split_whitespace(out);
    if w.len() == 2 {
        Ok(RepoStatus { ahead: count_or_zero(w[0]), behind: count_or_zero(w[1]) })
    } else {
        Err(StatusParseError::NotTwoCounts)
    }
}

/// The views of a list of character vectors.
pub open spec fn char_vec_views(v: Seq<Vec<char>>) -> Seq<Seq<char>> {
    v.map_values(|w: Vec<char>| w@)
}

fn split_words(s: &Vec<char>) -> (words: Vec<Vec<char>>)
    ensures
        char_vec_views(words@) == split_whitespace(s@),
{
    let mut words: Vec<Vec<char>> = Vec::new();
    let mut cur: Vec<char> = Vec::new();
    let mut i: usize = 0;
    assert(s@.take(0) =~= Seq::<char>::empty());
    while i < s.len()
        invariant
            i <= s.len(),
            (char_vec_views(words@), cur@) == words_and_rest(s@.take(i as int)),
        decreases s.len() - i,
    {
        assert(s@.take(i + 1).drop_last() =~= s@.take(i as int));
        let c = s[i];
        if is_whitespace_char(c) {
            if cur.len() > 0 {
                let ghost before = char_vec_views(words@);
                let ghost cv = cur@;
                words.push(cur);
                assert(char_vec_views(words@) =~= before.push(cv));
                cur = Vec::new();
            }
        } else {
            cur.push(c);
        }
        i = i + 1;
    }
    assert(s@.take(s.len() as int) =~= s@);
    if cur.len() > 0 {
        let ghost before = char_vec_views(words@);
        let ghost cv = cur@;
        words.push(cur);
        assert(char_vec_views(words@) =~= before.push(cv));
    }
    words
}

proof fn lemma_digits_value_monotone(d: Seq<char>, k: int)
    requires
        0 <= k <= d.len(),
        forall|i: int| 0 <= i < d.len() ==> is_ascii_digit(#[trigger] d[i]),
    ensures
        digits_value(d.take(k)) <= digits_value(d),
    decreases d.len() - k,
{
    if k < d.len() {
        lemma_digits_value_monotone(d, k + 1);
        let t = d.take(k + 1);
        assert(t.drop_last() =~= d.take(k));
        assert(is_ascii_digit(t.last()));
    } else {
        assert(d.take(k) =~= d);
    }
}

/// Reads `word` as `str::parse::<u32>` does.
pub fn parse_u32(word: &Vec<char>) -> (r: Option<u32>)
    ensures
        r == spec_parse_u32(word@),
{
    let ghost d = unsigned_digits(word@);
    let start: usize = if word.len() > 0 && word[0] == '+' {
        1
    } else {
        0
    };
    assert(d =~= word@.skip(start as int));
    if start == word.len() {
        return None;
    }
    let mut value: u64 = 0;
    let mut i: usize = start;
    assert(d.take(0) =~= Seq::<char>::empty());
    while i < word.len()
        invariant
            start <= i <= word.len(),
            d == word@.skip(start as int),
            d == unsigned_digits(word@),
            value == digits_value(d.take(i - start)),
            value <= u32::MAX,
            forall|j: int| 0 <= j < i - start ==> is_ascii_digit(#[trigger] d[j]),
        decreases word.len() - i,
    {
        let c = word[i];
        assert(d[i - start] == c);
        if !('0' <= c && c <= '9') {
            assert(!is_ascii_digit(d[i - start]));
            assert(!(forall|j: int| 0 <= j < d.len() ==> is_ascii_digit(#[trigger] d[j])));
            return None;
        }
        let digit = (c as u32 - 48) as u64;
        let ghost t = d.take(i - start + 1);
        assert(t.drop_last() =~= d.take(i - start));
        assert(t.last() == c);
        value = value * 10 + digit;
        assert(value == digits_value(t));
        if value > 4294967295u64 {
            proof {
                if forall|j: int| 0 <= j < d.len() ==> is_ascii_digit(#[trigger] d[j]) {
                    lemma_digits_value_monotone(d, i - start + 1);
                }
            }
            return None;
        }
        i = i + 1;
    }
    assert(d.take(word.len() - start) =~= d);
    Some(value as u32)
}

/// Reads the output of `git rev-list --left-right --count HEAD...@{u}`:
/// two white-space separated counts, ahead then behind; a count that does
/// not parse reads as 0. Example: `"0\t4\n"` is 0 ahead, 4 behind.
pub fn parse_rev_list_counts(output: &str) -> (r: Result<RepoStatus, StatusParseError>)
    ensures
        r == spec_parse_rev_list_counts(output@),
{
    let chars = str_to_chars(output);
    let words = split_words(&chars);
    assert(char_vec_views(words@).len() == words@.len());
    if words.len() != 2 {
        return Err(StatusParseError::NotTwoCounts);
    }
    let ahead = match parse_u32(&words[0]) {
        Some(v) => v,
        None => 0,
    };
    let behind = match parse_u32(&words[1]) {
        Some(v) => v,
        None => 0,
    };
    assert(char_vec_views(words@)[0] == words@[0]@);
    assert(char_vec_views(words@)[1] == words@[1]@);
    Ok(RepoStatus { ahead, behind })
}


proof fn lemma_trim_sep_tail(x: Seq<char>, tail: Seq<char>)
    requires
        x.len() > 0,
        !is_path_sep(x.last()),
        forall|i: int| 0 <= i < tail.len() ==> is_path_sep(#[trigger] tail[i]),
    ensures
        trim_trailing_seps(x + tail) == x,
    decreases tail.len(),
{
    if tail.len() == 0 {
        assert(x + tail =~= x);
    } else {
        let t = tail.drop_last();
        assert((x + tail).drop_last() =~= x + t);
        assert((x + tail).last() == tail.last());
        assert(is_path_sep(tail[tail.len() - 1]));
        lemma_trim_sep_tail(x, t);
    }
}

proof fn lemma_last_segment_after_sep(prefix: Seq<char>, name: Seq<char>)
    requires
        prefix.len() == 0 || is_path_sep(prefix.last()),
        forall|i: int| 0 <= i < name.len() ==> !is_path_sep(#[trigger] name[i]),
    ensures
        last_segment(prefix + name) == name,
    decreases name.len(),
{
    if name.len() == 0 {
        assert(prefix + name =~= prefix);
    } else {
        let n = name.drop_last();
        assert((prefix + name).drop_last() =~= prefix + n);
        assert((prefix + name).last() == name.last());
        assert(!is_path_sep(name[name.len() - 1]));
        lemma_last_segment_after_sep(prefix, n);
        assert(n.push(name.last()) =~= name);
    }
}

/// The clone target is named after the last component of the address
/// (what follows the last `/`, `\` or `:`, trailing separators ignored):
/// a component that does not end in `.git` is taken whole, unchanged.
pub proof fn law_infer_repo_dir_keeps_name(prefix: Seq<char>, name: Seq<char>, tail: Seq<char>)
    requires
        prefix.len() == 0 || is_path_sep(prefix.last()),
        name.len() > 0,
        forall|i: int| 0 <= i < name.len() ==> !is_path_sep(#[trigger] name[i]),
        forall|i: int| 0 <= i < tail.len() ==> is_path_sep(#[trigger] tail[i]),
        !(name.len() >= 4 && name[name.len() - 4] == '.' && name[name.len() - 3] == 'g'
            && name[name.len() - 2] == 'i' && name[name.len() - 1] == 't'),
    ensures
        spec_infer_repo_dir(prefix + name + tail) == name,
{
    assert(!is_path_sep(name[name.len() - 1]));
    assert((prefix + name).last() == name.last());
    lemma_trim_sep_tail(prefix + name, tail);
    lemma_last_segment_after_sep(prefix, name);
    if name.len() >= 4 && name.subrange(name.len() - 4, name.len() as int) == seq!['.', 'g', 'i', 't'] {
        let t = name.subrange(name.len() - 4, name.len() as int);
        assert(t[0] == name[name.len() - 4] && t[1] == name[name.len() - 3]);
        assert(t[2] == name[name.len() - 2] && t[3] == name[name.len() - 1]);
    }
}

/// Only the exact suffix `.git` is removed: an address whose last
/// component is `base` followed by `.git` names its clone `base`, or
/// `repo` when `base` is empty.
pub proof fn law_infer_repo_dir_strips_git(prefix: Seq<char>, base: Seq<char>, tail: Seq<char>)
    requires
        prefix.len() == 0 || is_path_sep(prefix.last()),
        forall|i: int| 0 <= i < base.len() ==> !is_path_sep(#[trigger] base[i]),
        forall|i: int| 0 <= i < tail.len() ==> is_path_sep(#[trigger] tail[i]),
    ensures
        spec_infer_repo_dir(prefix + (base + seq!['.', 'g', 'i', 't']) + tail) == (if base.len() > 0 {
            base
        } else {
            seq!['r', 'e', 'p', 'o']
        }),
{
    let name = base + seq!['.', 'g', 'i', 't'];
    assert forall|i: int| 0 <= i < name.len() implies !is_path_sep(#[trigger] name[i]) by {
        if i < base.len() {
            assert(name[i] == base[i]);
        }
    }
    assert(name.last() == 't');
    assert((prefix + name).last() == name.last());
    lemma_trim_sep_tail(prefix + name, tail);
    lemma_last_segment_after_sep(prefix, name);
    assert(name.subrange(name.len() - 4, name.len() as int) =~= seq!['.', 'g', 'i', 't']);
    assert(name.subrange(0, name.len() - 4) =~= base);
}


/// The decimal digit for `d` (below 10).
pub open spec fn decimal_digit(d: nat) -> char {
    seq!['0', '1', '2', '3', '4', '5', '6', '7', '8', '9'][d as int]
}

/// The decimal numeral of `n`, without leading zeros.
pub open spec fn decimal(n: nat) -> Seq<char>
    decreases n,
{
    if n < 10 {
        seq![decimal_digit(n)]
    } else {
        decimal(n / 10).push(decimal_digit(n % 10))
    }
}

proof fn lemma_decimal(n: nat)
    ensures
        decimal(n).len() > 0,
        forall|i: int| 0 <= i < decimal(n).len() ==> is_ascii_digit(#[trigger] decimal(n)[i]),
        digits_value(decimal(n)) == n,
    decreases n,
{
    let d = n % 10;
    let c = decimal_digit(d);
    assert(is_ascii_digit(c) && (c as nat) - 48 == d) by {
        if d == 0 { assert(c == '0'); } else if d == 1 { assert(c == '1'); }
        else if d == 2 { assert(c == '2'); } else if d == 3 { assert(c == '3'); }
        else if d == 4 { assert(c == '4'); } else if d == 5 { assert(c == '5'); }
        else if d == 6 { assert(c == '6'); } else if d == 7 { assert(c == '7'); }
        else if d == 8 { assert(c == '8'); } else { assert(c == '9'); }
    }
    if n < 10 {
        assert(decimal(n).drop_last() =~= Seq::<char>::empty());
        assert(decimal(n).last() == c);
        assert(digits_value(decimal(n)) == digits_value(Seq::<char>::empty()) * 10 + d);
    } else {
        lemma_decimal(n / 10);
        let p = decimal(n / 10);
        assert(decimal(n).drop_last() =~= p);
        assert forall|i: int| 0 <= i < decimal(n).len() implies is_ascii_digit(#[trigger] decimal(n)[i]) by {
            if i < p.len() {
                assert(decimal(n)[i] == p[i]);
            }
        }
        assert(decimal(n).last() == c);
        assert(digits_value(decimal(n)) == digits_value(p) * 10 + d);
        assert(n == (n / 10) * 10 + n % 10) by (nonlinear_arith);
    }
}

proof fn lemma_words_append_word(s: Seq<char>, w: Seq<char>)
    requires
        forall|i: int| 0 <= i < w.len() ==> !is_unicode_whitespace(#[trigger] w[i]),
    ensures
        words_and_rest(s + w) == (words_and_rest(s).0, words_and_rest(s).1 + w),
    decreases w.len(),
{
    if w.len() == 0 {
        assert(s + w =~= s);
        assert(words_and_rest(s).1 + w =~= words_and_rest(s).1);
    } else {
        let v = w.drop_last();
        lemma_words_append_word(s, v);
        assert((s + w).drop_last() =~= s + v);
        assert((s + w).last() == w[w.len() - 1]);
        assert((words_and_rest(s).1 + v).push(w.last()) =~= words_and_rest(s).1 + w);
    }
}

/// The status reader reads `git rev-list --left-right --count` output as
/// the two numbers it prints: for the counts `a` and `b` (any `u32`),
/// written in decimal, tab-separated and ended by a newline, the status is
/// `a` commits ahead and `b` commits behind.
pub proof fn law_parse_rev_list_counts_reads_numbers(a: u32, b: u32)
    ensures
        spec_parse_rev_list_counts(decimal(a as nat) + seq!['\t'] + decimal(b as nat) + seq!['\n'])
            == Ok::<RepoStatus, StatusParseError>(RepoStatus { ahead: a, behind: b }),
{
    let da = decimal(a as nat);
    let db = decimal(b as nat);
    lemma_decimal(a as nat);
    lemma_decimal(b as nat);
    assert forall|i: int| 0 <= i < da.len() implies !is_unicode_whitespace(#[trigger] da[i]) by {
        assert(is_ascii_digit(da[i]));
    }
    assert forall|i: int| 0 <= i < db.len() implies !is_unicode_whitespace(#[trigger] db[i]) by {
        assert(is_ascii_digit(db[i]));
    }
    let e = Seq::<char>::empty();
    lemma_words_append_word(e, da);
    assert(e + da =~= da);
    assert(words_and_rest(e) == (Seq::<Seq<char>>::empty(), e));
    assert(e + da =~= da);
    let s1 = da.push('\t');
    assert(s1.drop_last() =~= da);
    assert(words_and_rest(s1) == (seq![da], e)) by {
        assert(Seq::<Seq<char>>::empty().push(da) =~= seq![da]);
    }
    lemma_words_append_word(s1, db);
    assert(e + db =~= db);
    let s2 = (s1 + db).push('\n');
    assert(s2.drop_last() =~= s1 + db);
    assert(words_and_rest(s2) == (seq![da, db], e)) by {
        assert(seq![da].push(db) =~= seq![da, db]);
    }
    assert(da + seq!['\t'] + db + seq!['\n'] =~= s2);
    assert(split_whitespace(s2) == seq![da, db]);
    assert(unsigned_digits(da) == da) by {
        assert(is_ascii_digit(da[0]));
    }
    assert(unsigned_digits(db) == db) by {
        assert(is_ascii_digit(db[0]));
    }
    assert(spec_parse_u32(da) == Some(a));
    assert(spec_parse_u32(db) == Some(b));
}

} // verus!
