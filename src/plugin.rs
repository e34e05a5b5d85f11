use vstd::prelude::*;

use crate::text::{chars_of, push_char, string_of};
use crate::version::{format_spec, is_digit, parse_spec, Version, VersionError, VersionSpec};

verus! {

#[verifier::external_type_specification]
#[verifier::external_body]
pub struct ExRegex(regex::Regex);

#[verifier::external_type_specification]
#[verifier::external_body]
pub struct ExRegexError(regex::Error);

/// An underscore, then three dot-separated runs of ASCII digits. The class is
/// `[0-9]` rather than `\d`, which would also match other Unicode decimal digits:
/// the numeric fields read only ASCII digits, so a name such as `a_١.٢.٣` is
/// taken as carrying no version at all.
pub const TAG_PATTERN: &'static str = "_[0-9]+[.][0-9]+[.][0-9]+";

/// The end of the run of digits that starts at `i`.
pub open spec fn digit_run_end(s: Seq<char>, i: int) -> int
    decreases s.len() - i,
{
    if 0 <= i < s.len() && is_digit(s[i]) {
        digit_run_end(s, i + 1)
    } else {
        i
    }
}

/// Whether a version tag (`_` digits `.` digits `.` digits) starts at `a`.
pub open spec fn tag_at(s: Seq<char>, a: int) -> bool {
    let j1 = digit_run_end(s, a + 1);
    let j2 = digit_run_end(s, j1 + 1);
    &&& 0 <= a < s.len()
    &&& s[a] == '_'
    &&& j1 > a + 1 && j1 < s.len() && s[j1] == '.'
    &&& j2 > j1 + 1 && j2 < s.len() && s[j2] == '.'
    &&& digit_run_end(s, j2 + 1) > j2 + 1
}

/// The first position at or after `i` where a version tag starts.
pub open spec fn first_tag_from(s: Seq<char>, i: int) -> Option<int>
    decreases s.len() - i,
{
    if i < 0 || i >= s.len() {
        None
    } else if tag_at(s, i) {
        Some(i)
    } else {
        first_tag_from(s, i + 1)
    }
}

proof fn lemma_first_tag(s: Seq<char>, i: int)
    ensures
        match first_tag_from(s, i) {
            Some(m) => i <= m < s.len() && tag_at(s, m),
            None => true,
        },
    decreases s.len() - i,
{
    if 0 <= i < s.len() && !tag_at(s, i) {
        lemma_first_tag(s, i + 1);
    }
}

/// The position of the last `.` before `i`, if any.
pub open spec fn last_dot_before(s: Seq<char>, i: int) -> Option<int>
    decreases i,
{
    if i <= 0 {
        None
    } else if s[i - 1] == '.' {
        Some(i - 1)
    } else {
        last_dot_before(s, i - 1)
    }
}

/// A file name without its extension: everything before the last `.`, unless
/// that dot leads the name or the name is `..`.
pub open spec fn file_stem(name: Seq<char>) -> Seq<char> {
    if name == seq!['.', '.'] {
        name
    } else {
        match last_dot_before(name, name.len() as int) {
            Some(k) => if k > 0 {
                name.subrange(0, k)
            } else {
                name
            },
            None => name,
        }
    }
}

/// What an entry of the plugins directory is.
#[derive(Debug, Clone, Copy, PartialEq, Eq, Structural)]
pub enum EntryKind {
    File,
    Directory,
    /// Neither a regular file nor a directory, e.g. one that vanished.
    Other,
}

/// The name an entry is read from: a file's stem, a directory's whole name.
pub open spec fn entry_name(file_name: Seq<char>, is_file: bool) -> Seq<char> {
    if is_file {
        file_stem(file_name)
    } else {
        file_name
    }
}

/// The version that stands for an entry without a version tag.
pub open spec fn zero_version() -> VersionSpec {
    VersionSpec { major: 0, minor: 0, patch: 0, build: None }
}

/// The logical name and version read from an entry name: split before the first
/// version tag, the version read from what follows its underscore. Without a tag,
/// the whole name and version `0.0.0`. The error is the token that failed to read.
pub open spec fn split_entry(raw: Seq<char>) -> Result<(Seq<char>, VersionSpec), Seq<char>> {
    match first_tag_from(raw, 0) {
        None => Ok((raw, zero_version())),
        Some(m) => match parse_spec(raw.subrange(m + 1, raw.len() as int)) {
            Ok(v) => Ok((raw.subrange(0, m), v)),
            Err(t) => Err(t),
        },
    }
}

/// The compiled form of `TAG_PATTERN`; it holds nothing else.
pub struct TagPattern {
    re: regex::Regex,
}

/// Relies on `regex::Regex::new`: compiles the pattern, or reports why not. It
/// fails only on a syntax error or when the compiled form exceeds the size
/// limit, neither of which holds of `TAG_PATTERN`.
#[verifier::external_body]
fn compile_regex(pattern: &str) -> (r: Result<regex::Regex, regex::Error>)
    ensures
        pattern@ == TAG_PATTERN@ ==> r is Ok,
{
    regex::Regex::new(pattern)
}

/// Relies on `regex::Regex::find`, on a regex compiled from `TAG_PATTERN`: the
/// leftmost match, split off at its start. With leftmost-first semantics and
/// greedy repetition the match starts at the first position where the pattern
/// matches at all.
#[verifier::external_body]
fn find_tag<'a>(p: &TagPattern, s: &'a str) -> (r: Option<(&'a str, &'a str)>)
    ensures
        match r {
            None => first_tag_from(s@, 0) is None,
            Some((head, tail)) => first_tag_from(s@, 0) == Some(head@.len() as int) && head@ + tail@
                == s@,
        },
{
    p.re.find(s).map(|m| s.split_at(m.start()))
}

impl TagPattern {
    pub fn new() -> (r: Result<TagPattern, regex::Error>)
        ensures
            r is Ok,
    {
        match compile_regex(TAG_PATTERN) {
            Ok(re) => Ok(TagPattern { re }),
            Err(e) => Err(e),
        }
    }
}

/// A logical name and version as mathematical values, with where the entry lies.
pub struct PluginSpec {
    pub path: Seq<char>,
    pub name: Seq<char>,
    pub version: VersionSpec,
}

/// One installed plugin: the entry's location, its logical name and its version.
#[derive(Debug)]
pub struct Plugin {
    pub path: String,
    pub name: String,
    pub version: Version,
}

impl View for Plugin {
    type V = PluginSpec;

    open spec fn view(&self) -> PluginSpec {
        PluginSpec { path: self.path@, name: self.name@, version: self.version@ }
    }
}

#[derive(Debug)]
pub enum PluginError {
    /// The entry at this location has no usable name.
    UnreadableEntryName(String),
    /// The entry's version tag does not read as a version.
    UnparsablePluginVersion { path: String, cause: VersionError },
}

pub open spec fn text_view(t: Option<&str>) -> Option<Seq<char>> {
    match t {
        Some(f) => Some(f@),
        None => None,
    }
}

/// Whether `r` is what reading the entry at `path` named `file_name` gives: an
/// unreadable name for an entry without a name or one that is neither a file
/// nor a directory, else the name and version that `split_entry` finds, or the
/// token that failed to read.
pub open spec fn reads_entry(path: Seq<char>, file_name: Option<Seq<char>>, kind: EntryKind, r: Result<Plugin, PluginError>) -> bool {
    match file_name {
        Some(f) if kind != EntryKind::Other => match split_entry(entry_name(f, kind == EntryKind::File)) {
            Ok((name, version)) => match r {
                Ok(plugin) => plugin@ == (PluginSpec { path, name, version }),
                _ => false,
            },
            Err(t) => match r {
                Err(PluginError::UnparsablePluginVersion { path: p, cause: VersionError::InvalidVersionFormat(u) }) =>
                    p@ == path && u@ == t,
                _ => false,
            },
        },
        _ => match r {
            Err(PluginError::UnreadableEntryName(p)) => p@ == path,
            _ => false,
        },
    }
}

/// The stem of a file name (see `file_stem`).
fn stem_of(name: &str) -> (r: String)
    ensures
        r@ == file_stem(name@),
{
    let s = chars_of(name);
    if s.len() == 2 && s[0] == '.' && s[1] == '.' {
        assert(s@ =~= seq!['.', '.']);
        return string_of(&s, 0, 2);
    }
    assert(s@ != seq!['.', '.']) by {
        if s@ == seq!['.', '.'] {
            assert(s@.len() == 2 && s@[0] == '.' && s@[1] == '.');
        }
    }
    let mut i: usize = s.len();
    while i > 0 && s[i - 1] != '.'
        invariant
            i <= s@.len(),
            last_dot_before(s@, s@.len() as int) == last_dot_before(s@, i as int),
        decreases i,
    {
        i = i - 1;
    }
    if i > 1 {
        string_of(&s, 0, i - 1)
    } else {
        string_of(&s, 0, s.len())
    }
}

impl Plugin {
    /// Reads an entry with the given compiled tag pattern. `file_name` is the
    /// entry's name, `None` when it has none that reads as text; a file's
    /// extension is dropped.
    pub fn with_pattern(pattern: &TagPattern, path: String, file_name: Option<&str>, kind: EntryKind) -> (r: Result<Plugin, PluginError>)
        ensures
            reads_entry(path@, text_view(file_name), kind, r),
    {
        let f = match file_name {
            Some(f) => f,
            None => {
                return Err(PluginError::UnreadableEntryName(path));
            },
        };
        let is_file = match kind {
            EntryKind::File => true,
            EntryKind::Directory => false,
            EntryKind::Other => {
                return Err(PluginError::UnreadableEntryName(path));
            },
        };
        let raw = if is_file {
            stem_of(f)
        } else {
            f.to_owned()
        };
        match find_tag(pattern, raw.as_str()) {
            None => {
                Ok(Plugin { path, name: raw, version: Version::new(0, 0, 0, None) })
            },
            Some((head, tail)) => {
                let cs = chars_of(tail);
                proof {
                    lemma_first_tag(raw@, 0);
                    assert(raw@[head@.len() as int] == tail@[0]);
                }
                let expr = string_of(&cs, 1, cs.len());
                assert(expr@ =~= raw@.subrange(head@.len() as int + 1, raw@.len() as int));
                match Version::parse(expr.as_str()) {
                    Ok(version) => {
                        assert(head@ =~= raw@.subrange(0, head@.len() as int));
                        Ok(Plugin { path, name: head.to_owned(), version })
                    },
                    Err(cause) => Err(PluginError::UnparsablePluginVersion { path, cause }),
                }
            },
        }
    }

    /// Reads an entry as `with_pattern` does, compiling the tag pattern first.
    pub fn new(path: String, file_name: Option<&str>, kind: EntryKind) -> (r: Result<Plugin, PluginError>)
        ensures
            reads_entry(path@, text_view(file_name), kind, r),
    {
        match TagPattern::new() {
            Ok(pattern) => Plugin::with_pattern(&pattern, path, file_name, kind),
            Err(_) => {
                proof {
                    assert(false);
                }
                Err(PluginError::UnreadableEntryName(path))
            },
        }
    }

    /// `name(version)`.
    pub fn to_string(&self) -> (r: String)
        ensures
            r@ == self.name@ + seq!['('] + format_spec(self.version@) + seq![')'],
    {
        let cs = chars_of(self.name.as_str());
        let mut s = string_of(&cs, 0, cs.len());
        push_char(&mut s, '(');
        let v = self.version.to_string();
        let vs = chars_of(v.as_str());
        let ghost base = s@;
        let mut i: usize = 0;
        while i < vs.len()
            invariant
                i <= vs@.len(),
                vs@ == format_spec(self.version@),
                s@ == base + vs@.subrange(0, i as int),
            decreases vs@.len() - i,
        {
            push_char(&mut s, vs[i]);
            i = i + 1;
            assert(s@ =~= base + vs@.subrange(0, i as int));
        }
        push_char(&mut s, ')');
        assert(vs@.subrange(0, i as int) =~= vs@);
        assert(cs@.subrange(0, cs@.len() as int) =~= cs@);
        assert(s@ =~= self.name@ + seq!['('] + format_spec(self.version@) + seq![')']);
        s
    }
}

} // verus!
