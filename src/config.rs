use vstd::prelude::*;

use crate::text::chars_of;

verus! {

/// The settings of one cleaning run.
#[derive(Debug)]
pub struct Config {
    /// The installation root; its `plugins` directory is scanned.
    pub dir: String,
    /// Where discarded entries go, under its own `plugins` directory.
    pub backup: String,
    pub verbose: bool,
    /// Only report the duplicates.
    pub test: bool,
    /// Move the discarded entries without asking.
    pub force: bool,
}

#[derive(Debug)]
pub enum ConfigError {
    /// The installation root is not a directory.
    MissingDir(String),
    /// The backup location is not a directory.
    MissingBackup(String),
}

/// What a run does once its duplicates are known.
#[derive(Debug, Clone, Copy, PartialEq, Eq, Structural)]
pub enum Step {
    /// There is nothing to clean up.
    NoDuplicates,
    /// Report the duplicates and stop.
    ReportOnly,
    /// Report the duplicates, then ask whether to move them.
    Ask,
    /// Report the duplicates, then move the discarded entries away.
    Relocate,
}

impl Config {
    /// Settings from the command line, given whether each location is a directory.
    pub fn new(dir: String, backup: String, verbose: bool, test: bool, force: bool, dir_exists: bool, backup_exists: bool) -> (r: Result<Config, ConfigError>)
        ensures
            !dir_exists ==> (match r {
                Err(ConfigError::MissingDir(d)) => d@ == dir@,
                _ => false,
            }),
            dir_exists && !backup_exists ==> (match r {
                Err(ConfigError::MissingBackup(b)) => b@ == backup@,
                _ => false,
            }),
            dir_exists && backup_exists ==> (match r {
                Ok(c) => c.dir@ == dir@ && c.backup@ == backup@ && c.verbose == verbose && c.test == test
                    && c.force == force,
                _ => false,
            }),
    {
        if !dir_exists {
            Err(ConfigError::MissingDir(dir))
        } else if !backup_exists {
            Err(ConfigError::MissingBackup(backup))
        } else {
            Ok(Config { dir, backup, verbose, test, force })
        }
    }

    /// The step after grouping: nothing to do without duplicates; a test run
    /// only reports; a forced run moves; any other asks first.
    pub fn first_step(&self, duplicate_count: usize) -> (r: Step)
        ensures
            r == (if duplicate_count == 0 {
                Step::NoDuplicates
            } else if self.test {
                Step::ReportOnly
            } else if self.force {
                Step::Relocate
            } else {
                Step::Ask
            }),
    {
        if duplicate_count == 0 {
            Step::NoDuplicates
        } else if self.test {
            Step::ReportOnly
        } else if self.force {
            Step::Relocate
        } else {
            Step::Ask
        }
    }
}

impl Step {
    /// The step after asking: move when the answer agreed, else stop.
    pub fn after_answer(confirmed: bool) -> (r: Step)
        ensures
            r == (if confirmed {
                Step::Relocate
            } else {
                Step::ReportOnly
            }),
    {
        if confirmed {
            Step::Relocate
        } else {
            Step::ReportOnly
        }
    }
}

/// The characters that `str::trim` strips: those with the Unicode `White_Space`
/// property, as `char::is_whitespace` documents.
pub open spec fn is_white_space(c: char) -> bool {
    ||| '\u{9}' <= c && c <= '\u{d}'
    ||| c == ' ' || c == '\u{85}' || c == '\u{a0}' || c == '\u{1680}'
    ||| '\u{2000}' <= c && c <= '\u{200a}'
    ||| c == '\u{2028}' || c == '\u{2029}' || c == '\u{202f}' || c == '\u{205f}' || c == '\u{3000}'
}

pub open spec fn trim_front(s: Seq<char>) -> Seq<char>
    decreases s.len(),
{
    if s.len() > 0 && is_white_space(s[0]) {
        trim_front(s.drop_first())
    } else {
        s
    }
}

pub open spec fn trim_back(s: Seq<char>) -> Seq<char>
    decreases s.len(),
{
    if s.len() > 0 && is_white_space(s.last()) {
        trim_back(s.drop_last())
    } else {
        s
    }
}

/// `Y` or `YES`, in any mix of ASCII case.
pub open spec fn is_yes(t: Seq<char>) -> bool {
    ||| t.len() == 1 && (t[0] == 'y' || t[0] == 'Y')
    ||| t.len() == 3 && (t[0] == 'y' || t[0] == 'Y') && (t[1] == 'e' || t[1] == 'E') && (t[2] == 's'
        || t[2] == 'S')
}

fn white_space(c: char) -> (r: bool)
    ensures
        r == is_white_space(c),
{
    ('\u{9}' <= c && c <= '\u{d}') || c == ' ' || c == '\u{85}' || c == '\u{a0}' || c == '\u{1680}'
        || ('\u{2000}' <= c && c <= '\u{200a}') || c == '\u{2028}' || c == '\u{2029}' || c
        == '\u{202f}' || c == '\u{205f}' || c == '\u{3000}'
}

/// Whether an answer to the confirmation question agrees: once trimmed of
/// white space, it is `Y` or `YES` in any ASCII case.
pub fn is_confirmation(answer: &str) -> (r: bool)
    ensures
        r == is_yes(trim_back(trim_front(answer@))),
{
    let cs = chars_of(answer);
    let n = cs.len();
    let mut i: usize = 0;
    assert(cs@.subrange(0, n as int) =~= cs@);
    while i < n && white_space(cs[i])
        invariant
            i <= n == cs@.len(),
            trim_front(cs@) == trim_front(cs@.subrange(i as int, n as int)),
        decreases n - i,
    {
        assert(cs@.subrange(i as int, n as int).drop_first() =~= cs@.subrange(i as int + 1, n as int));
        i = i + 1;
    }
    let ghost front = cs@.subrange(i as int, n as int);
    assert(trim_front(front) == front);
    let mut j: usize = n;
    assert(front.subrange(0, (n - i) as int) =~= front);
    while j > i && white_space(cs[j - 1])
        invariant
            i <= j <= n == cs@.len(),
            front == cs@.subrange(i as int, n as int),
            trim_back(front) == trim_back(cs@.subrange(i as int, j as int)),
        decreases j,
    {
        assert(cs@.subrange(i as int, j as int).drop_last() =~= cs@.subrange(i as int, j as int - 1));
        j = j - 1;
    }
    let ghost t = cs@.subrange(i as int, j as int);
    assert(trim_back(t) == t);
    let len = j - i;
    if len == 1 {
        assert(t[0] == cs@[i as int]);
        cs[i] == 'y' || cs[i] == 'Y'
    } else if len == 3 {
        assert(t[0] == cs@[i as int] && t[1] == cs@[i + 1] && t[2] == cs@[i + 2]);
        (cs[i] == 'y' || cs[i] == 'Y') && (cs[i + 1] == 'e' || cs[i + 1] == 'E') && (cs[i + 2] == 's'
            || cs[i + 2] == 'S')
    } else {
        false
    }
}

} // verus!
