use std::cmp::Ordering;
use vstd::prelude::*;

use crate::text::{chars_of, push_char, string_of};

verus! {

/// A character in `'0'..='9'`.
pub open spec fn is_digit(c: char) -> bool {
    '0' <= c && c <= '9'
}

/// The value of one decimal digit.
pub open spec fn digit_value(c: char) -> int {
    c as int - '0' as int
}

/// The value of a string of decimal digits, most significant first (zero when empty).
pub open spec fn digits_value(t: Seq<char>) -> int
    decreases t.len(),
{
    if t.len() == 0 {
        0
    } else {
        digits_value(t.drop_last()) * 10 + digit_value(t.last())
    }
}

pub open spec fn all_digits(t: Seq<char>) -> bool {
    forall|i: int| 0 <= i < t.len() ==> is_digit(#[trigger] t[i])
}

/// What follows an optional leading `+`.
pub open spec fn numeral_digits(t: Seq<char>) -> Seq<char> {
    if t.len() > 0 && t[0] == '+' {
        t.drop_first()
    } else {
        t
    }
}

/// A token that reads as a `usize`: an optional `+`, then at least one digit,
/// with a value that fits.
pub open spec fn is_numeral(t: Seq<char>) -> bool {
    let d = numeral_digits(t);
    d.len() > 0 && all_digits(d) && digits_value(d) <= usize::MAX
}

/// The position of the first `.` at or after `i`, or the length when there is none.
pub open spec fn next_dot(s: Seq<char>, i: int) -> int
    decreases s.len() - i,
{
    if i >= s.len() {
        s.len() as int
    } else if s[i] == '.' {
        i
    } else {
        next_dot(s, i + 1)
    }
}

/// Where the `k`-th dot-separated field of `s` starts, if `s` has that many fields.
pub open spec fn field_start(s: Seq<char>, k: nat) -> Option<int>
    decreases k,
{
    if k == 0 {
        Some(0)
    } else {
        match field_start(s, (k - 1) as nat) {
            Some(st) => if next_dot(s, st) < s.len() {
                Some(next_dot(s, st) + 1)
            } else {
                None
            },
            None => None,
        }
    }
}

/// The `k`-th dot-separated field of `s`, if there is one.
pub open spec fn field(s: Seq<char>, k: nat) -> Option<Seq<char>> {
    match field_start(s, k) {
        Some(st) => Some(s.subrange(st, next_dot(s, st))),
        None => None,
    }
}

/// Everything from the fourth field on, further dots included.
pub open spec fn build_field(s: Seq<char>) -> Option<Seq<char>> {
    match field_start(s, 3) {
        Some(st) => Some(s.subrange(st, s.len() as int)),
        None => None,
    }
}

/// The number in field `k`: zero when the field is absent, the token itself as
/// the error when it does not read as a number.
pub open spec fn field_number(s: Seq<char>, k: nat) -> Result<nat, Seq<char>> {
    match field(s, k) {
        None => Ok(0),
        Some(t) => if is_numeral(t) {
            Ok(digits_value(numeral_digits(t)) as nat)
        } else {
            Err(t)
        },
    }
}

/// A version as mathematical values.
pub struct VersionSpec {
    pub major: nat,
    pub minor: nat,
    pub patch: nat,
    pub build: Option<Seq<char>>,
}

/// The version that `s` denotes, or the first numeric token that fails to read.
pub open spec fn parse_spec(s: Seq<char>) -> Result<VersionSpec, Seq<char>> {
    match field_number(s, 0) {
        Err(t) => Err(t),
        Ok(major) => match field_number(s, 1) {
            Err(t) => Err(t),
            Ok(minor) => match field_number(s, 2) {
                Err(t) => Err(t),
                Ok(patch) => Ok(VersionSpec { major, minor, patch, build: build_field(s) }),
            },
        },
    }
}

pub open spec fn digit_char(d: nat) -> char {
    seq!['0', '1', '2', '3', '4', '5', '6', '7', '8', '9'][d as int]
}

/// The decimal digits of `n`, without leading zeros.
pub open spec fn decimal(n: nat) -> Seq<char>
    decreases n,
{
    if n < 10 {
        seq![digit_char(n)]
    } else {
        decimal(n / 10).push(digit_char(n % 10))
    }
}

/// `major.minor.patch`, followed by `.build` when there is a build.
pub open spec fn format_spec(v: VersionSpec) -> Seq<char> {
    let base = decimal(v.major) + seq!['.'] + decimal(v.minor) + seq!['.'] + decimal(v.patch);
    match v.build {
        Some(b) => base + seq!['.'] + b,
        None => base,
    }
}

/// Lexicographic order of character strings.
pub open spec fn lex_cmp(a: Seq<char>, b: Seq<char>) -> Ordering
    decreases a.len(),
{
    if a.len() == 0 {
        if b.len() == 0 {
            Ordering::Equal
        } else {
            Ordering::Less
        }
    } else if b.len() == 0 {
        Ordering::Greater
    } else if a[0] < b[0] {
        Ordering::Less
    } else if a[0] > b[0] {
        Ordering::Greater
    } else {
        lex_cmp(a.drop_first(), b.drop_first())
    }
}

pub open spec fn nat_cmp(a: nat, b: nat) -> Ordering {
    if a < b {
        Ordering::Less
    } else if a > b {
        Ordering::Greater
    } else {
        Ordering::Equal
    }
}

/// An absent build sorts before any present one.
pub open spec fn build_cmp(a: Option<Seq<char>>, b: Option<Seq<char>>) -> Ordering {
    match (a, b) {
        (None, None) => Ordering::Equal,
        (None, Some(_)) => Ordering::Less,
        (Some(_), None) => Ordering::Greater,
        (Some(x), Some(y)) => lex_cmp(x, y),
    }
}

/// The order of versions: by major, then minor, then build. The patch number
/// takes no part in it.
pub open spec fn version_cmp(a: VersionSpec, b: VersionSpec) -> Ordering {
    if a.major != b.major {
        nat_cmp(a.major, b.major)
    } else if a.minor != b.minor {
        nat_cmp(a.minor, b.minor)
    } else {
        build_cmp(a.build, b.build)
    }
}

#[derive(Debug)]
pub struct Version {
    pub major: usize,
    pub minor: usize,
    pub patch: usize,
    pub build: Option<String>,
}

#[derive(Debug)]
pub enum VersionError {
    /// A numeric field that does not read as a number, with that field.
    InvalidVersionFormat(String),
}

impl View for Version {
    type V = VersionSpec;

    open spec fn view(&self) -> VersionSpec {
        VersionSpec {
            major: self.major as nat,
            minor: self.minor as nat,
            patch: self.patch as nat,
            build: match self.build {
                Some(b) => Some(b@),
                None => None,
            },
        }
    }
}

/// The position of the first `.` at or after `i`, or the length.
fn find_dot(s: &Vec<char>, i: usize) -> (r: usize)
    requires
        i <= s@.len(),
    ensures
        r == next_dot(s@, i as int),
        i <= r <= s@.len(),
    decreases s@.len() - i,
{
    if i >= s.len() {
        s.len()
    } else if s[i] == '.' {
        i
    } else {
        find_dot(s, i + 1)
    }
}

proof fn lemma_digits_value_prefix(t: Seq<char>, j: int)
    requires
        all_digits(t),
        0 <= j <= t.len(),
    ensures
        0 <= digits_value(t.subrange(0, j)) <= digits_value(t),
    decreases t.len(),
{
    if t.len() > 0 {
        let u = t.drop_last();
        assert(all_digits(u)) by {
            assert forall|i: int| 0 <= i < u.len() implies is_digit(#[trigger] u[i]) by {
                assert(u[i] == t[i]);
            }
        }
        assert(is_digit(t[t.len() - 1]));
        if j < t.len() {
            assert(u.subrange(0, j) =~= t.subrange(0, j));
            lemma_digits_value_prefix(u, j);
        } else {
            assert(t.subrange(0, j) =~= t);
            lemma_digits_value_prefix(u, 0);
        }
    } else {
        assert(t.subrange(0, j) =~= t);
    }
}

/// The value of the numeral `s[lo..hi]`, if it is one.
fn read_number(s: &Vec<char>, lo: usize, hi: usize) -> (r: Option<usize>)
    requires
        lo <= hi <= s@.len(),
    ensures
        match r {
            Some(n) => is_numeral(s@.subrange(lo as int, hi as int))
                && n == digits_value(numeral_digits(s@.subrange(lo as int, hi as int))),
            None => !is_numeral(s@.subrange(lo as int, hi as int)),
        },
{
    let ghost t = s@.subrange(lo as int, hi as int);
    let mut i: usize = lo;
    if i < hi && s[i] == '+' {
        i = i + 1;
    }
    assert(numeral_digits(t) =~= s@.subrange(i as int, hi as int));
    if i >= hi {
        return None;
    }
    let start: usize = i;
    let ghost d = s@.subrange(start as int, hi as int);
    let mut acc: usize = 0;
    while i < hi
        invariant
            lo <= start <= i <= hi <= s@.len(),
            start < hi,
            t == s@.subrange(lo as int, hi as int),
            d == s@.subrange(start as int, hi as int),
            numeral_digits(t) == d,
            all_digits(s@.subrange(start as int, i as int)),
            acc == digits_value(s@.subrange(start as int, i as int)),
        decreases hi - i,
    {
        let c = s[i];
        assert(d[i - start] == c);
        if !('0' <= c && c <= '9') {
            assert(!is_digit(d[i - start]));
            assert(!all_digits(d));
            return None;
        }
        let v: u32 = (c as u32) - ('0' as u32);
        let dv: usize = v as usize;
        let ghost p = s@.subrange(start as int, i as int + 1);
        assert(p.drop_last() =~= s@.subrange(start as int, i as int));
        assert(p.last() == c);
        assert(all_digits(p)) by {
            assert forall|k: int| 0 <= k < p.len() implies is_digit(#[trigger] p[k]) by {
                if k < p.len() - 1 {
                    assert(p[k] == s@.subrange(start as int, i as int)[k]);
                }
            }
        }
        if acc > (usize::MAX - dv) / 10 {
            proof {
                assert(acc * 10 + dv > usize::MAX) by (nonlinear_arith)
                    requires
                        acc > (usize::MAX - dv) / 10,
                        dv < 10,
                ;
                assert(digits_value(p) == acc * 10 + dv);
                if all_digits(d) {
                    assert(d.subrange(0, i - start + 1) =~= p);
                    lemma_digits_value_prefix(d, i - start + 1);
                }
            }
            return None;
        }
        acc = acc * 10 + dv;
        i = i + 1;
    }
    assert(s@.subrange(start as int, i as int) =~= d);
    Some(acc)
}

/// The character of a digit below ten.
fn digit_to_char(d: usize) -> (c: char)
    requires
        d < 10,
    ensures
        c == digit_char(d as nat),
{
    if d == 0 {
        '0'
    } else if d == 1 {
        '1'
    } else if d == 2 {
        '2'
    } else if d == 3 {
        '3'
    } else if d == 4 {
        '4'
    } else if d == 5 {
        '5'
    } else if d == 6 {
        '6'
    } else if d == 7 {
        '7'
    } else if d == 8 {
        '8'
    } else {
        '9'
    }
}

/// Appends the decimal digits of `n`.
fn push_decimal(s: &mut String, n: usize)
    ensures
        final(s)@ == old(s)@ + decimal(n as nat),
    decreases n,
{
    if n >= 10 {
        push_decimal(s, n / 10);
    }
    let c = digit_to_char(n % 10);
    push_char(s, c);
    assert(final(s)@ =~= old(s)@ + decimal(n as nat));
}

/// The lexicographic order of two strings.
fn compare_strings(a: &String, b: &String) -> (r: Ordering)
    ensures
        r == lex_cmp(a@, b@),
{
    let x = chars_of(a.as_str());
    let y = chars_of(b.as_str());
    let mut i: usize = 0;
    assert(x@.subrange(0, x@.len() as int) =~= a@);
    assert(y@.subrange(0, y@.len() as int) =~= b@);
    while i < x.len() && i < y.len()
        invariant
            x@ == a@,
            y@ == b@,
            i <= x@.len(),
            i <= y@.len(),
            lex_cmp(a@, b@) == lex_cmp(x@.subrange(i as int, x@.len() as int), y@.subrange(i as int, y@.len() as int)),
        decreases x@.len() - i,
    {
        let ghost u = x@.subrange(i as int, x@.len() as int);
        let ghost w = y@.subrange(i as int, y@.len() as int);
        assert(u[0] == x@[i as int] && w[0] == y@[i as int]);
        if x[i] < y[i] {
            return Ordering::Less;
        } else if x[i] > y[i] {
            return Ordering::Greater;
        }
        assert(u.drop_first() =~= x@.subrange(i as int + 1, x@.len() as int));
        assert(w.drop_first() =~= y@.subrange(i as int + 1, y@.len() as int));
        i = i + 1;
    }
    if i < x.len() {
        Ordering::Greater
    } else if i < y.len() {
        Ordering::Less
    } else {
        Ordering::Equal
    }
}

impl Version {
    /// A version made of the given fields.
    pub fn new(major: usize, minor: usize, patch: usize, build: Option<&str>) -> (r: Version)
        ensures
            r.major == major,
            r.minor == minor,
            r.patch == patch,
            r@.build == match build {
                Some(b) => Some(b@),
                None => None::<Seq<char>>,
            },
    {
        Version {
            major,
            minor,
            patch,
            build: match build {
                Some(text) => Some(text.to_owned()),
                None => None,
            },
        }
    }

    /// Reads `major.minor.patch[.build]`. Fields that are missing count as zero;
    /// the build is everything after the third dot.
    pub fn parse(expr: &str) -> (r: Result<Version, VersionError>)
        ensures
            match r {
                Ok(v) => parse_spec(expr@) == Ok::<VersionSpec, Seq<char>>(v@),
                Err(VersionError::InvalidVersionFormat(t)) => parse_spec(expr@) == Err::<VersionSpec, Seq<char>>(t@),
            },
    {
        let s = chars_of(expr);
        let n = s.len();
        proof {
            reveal_with_fuel(field_start, 4);
        }
        let e0 = find_dot(&s, 0);
        let major = match read_number(&s, 0, e0) {
            Some(v) => v,
            None => {
                return Err(VersionError::InvalidVersionFormat(string_of(&s, 0, e0)));
            },
        };
        let mut minor: usize = 0;
        let mut patch: usize = 0;
        let mut build: Option<String> = None;
        if e0 < n {
            let e1 = find_dot(&s, e0 + 1);
            minor = match read_number(&s, e0 + 1, e1) {
                Some(v) => v,
                None => {
                    return Err(VersionError::InvalidVersionFormat(string_of(&s, e0 + 1, e1)));
                },
            };
            if e1 < n {
                let e2 = find_dot(&s, e1 + 1);
                patch = match read_number(&s, e1 + 1, e2) {
                    Some(v) => v,
                    None => {
                        return Err(VersionError::InvalidVersionFormat(string_of(&s, e1 + 1, e2)));
                    },
                };
                if e2 < n {
                    build = Some(string_of(&s, e2 + 1, n));
                }
            }
        }
        let r = Version { major, minor, patch, build };
        assert(parse_spec(expr@) == Ok::<VersionSpec, Seq<char>>(r@));
        Ok(r)
    }

    /// Orders by major, then minor, then build; the patch number is not compared.
    pub fn cmp(&self, other: &Version) -> (r: Ordering)
        ensures
            r == version_cmp(self@, other@),
    {
        if self.major < other.major {
            Ordering::Less
        } else if self.major > other.major {
            Ordering::Greater
        } else if self.minor < other.minor {
            Ordering::Less
        } else if self.minor > other.minor {
            Ordering::Greater
        } else {
            match (&self.build, &other.build) {
                (None, None) => Ordering::Equal,
                (None, Some(_)) => Ordering::Less,
                (Some(_), None) => Ordering::Greater,
                (Some(x), Some(y)) => compare_strings(x, y),
            }
        }
    }

    /// `major.minor.patch`, followed by `.build` when there is a build.
    pub fn to_string(&self) -> (r: String)
        ensures
            r@ == format_spec(self@),
    {
        let mut s = String::new();
        push_decimal(&mut s, self.major);
        push_char(&mut s, '.');
        push_decimal(&mut s, self.minor);
        push_char(&mut s, '.');
        push_decimal(&mut s, self.patch);
        match &self.build {
            Some(b) => {
                push_char(&mut s, '.');
                let cs = chars_of(b.as_str());
                let mut i: usize = 0;
                let ghost base = s@;
                while i < cs.len()
                    invariant
                        i <= cs@.len(),
                        cs@ == b@,
                        s@ == base + cs@.subrange(0, i as int),
                    decreases cs@.len() - i,
                {
                    push_char(&mut s, cs[i]);
                    i = i + 1;
                    assert(s@ =~= base + cs@.subrange(0, i as int));
                }
                assert(cs@.subrange(0, i as int) =~= b@);
            },
            None => {},
        }
        assert(s@ =~= format_spec(self@));
        s
    }
}

/// Two versions are equal when neither orders before the other.
impl PartialEq for Version {
    fn eq(&self, other: &Version) -> (r: bool) {
        match self.cmp(other) {
            Ordering::Equal => true,
            _ => false,
        }
    }
}

impl vstd::std_specs::cmp::PartialEqSpecImpl for Version {
    open spec fn obeys_eq_spec() -> bool {
        true
    }

    open spec fn eq_spec(&self, other: &Version) -> bool {
        version_cmp(self@, other@) == Ordering::Equal
    }
}

/// Versions in the order of `Version::cmp`.
impl PartialOrd for Version {
    fn partial_cmp(&self, other: &Version) -> (r: Option<Ordering>) {
        Some(self.cmp(other))
    }
}

impl vstd::std_specs::cmp::PartialOrdSpecImpl for Version {
    open spec fn obeys_partial_cmp_spec() -> bool {
        true
    }

    open spec fn partial_cmp_spec(&self, other: &Version) -> Option<Ordering> {
        Some(version_cmp(self@, other@))
    }
}

/// The same comparison seen from the other side.
pub open spec fn flip(o: Ordering) -> Ordering {
    match o {
        Ordering::Less => Ordering::Greater,
        Ordering::Equal => Ordering::Equal,
        Ordering::Greater => Ordering::Less,
    }
}

proof fn lemma_lex_equal(a: Seq<char>, b: Seq<char>)
    ensures
        (lex_cmp(a, b) == Ordering::Equal) == (a == b),
    decreases a.len(),
{
    if a.len() == 0 && b.len() == 0 {
        assert(a =~= b);
    }
    if a.len() > 0 && b.len() > 0 && a[0] == b[0] {
        lemma_lex_equal(a.drop_first(), b.drop_first());
        if a.drop_first() == b.drop_first() {
            assert(a =~= seq![a[0]] + a.drop_first());
            assert(b =~= seq![b[0]] + b.drop_first());
            assert(a =~= b);
        }
    }
}

proof fn lemma_lex_flip(a: Seq<char>, b: Seq<char>)
    ensures
        lex_cmp(a, b) == flip(lex_cmp(b, a)),
    decreases a.len(),
{
    if a.len() > 0 && b.len() > 0 && a[0] == b[0] {
        lemma_lex_flip(a.drop_first(), b.drop_first());
    }
}

proof fn lemma_lex_transitive(a: Seq<char>, b: Seq<char>, c: Seq<char>)
    requires
        lex_cmp(a, b) != Ordering::Greater,
        lex_cmp(b, c) != Ordering::Greater,
    ensures
        lex_cmp(a, c) != Ordering::Greater,
        lex_cmp(a, b) == Ordering::Less || lex_cmp(b, c) == Ordering::Less ==> lex_cmp(a, c)
            == Ordering::Less,
    decreases a.len(),
{
    if a.len() > 0 && b.len() > 0 && c.len() > 0 && a[0] == b[0] && b[0] == c[0] {
        lemma_lex_transitive(a.drop_first(), b.drop_first(), c.drop_first());
    }
}

/// Every version compares equal to itself.
pub proof fn law_cmp_reflexive(a: VersionSpec)
    ensures
        version_cmp(a, a) == Ordering::Equal,
{
    match a.build {
        Some(x) => lemma_lex_equal(x, x),
        None => {},
    }
}

/// Swapping the two versions reverses the result.
pub proof fn law_cmp_antisymmetric(a: VersionSpec, b: VersionSpec)
    ensures
        version_cmp(a, b) == flip(version_cmp(b, a)),
{
    match (a.build, b.build) {
        (Some(x), Some(y)) => lemma_lex_flip(x, y),
        _ => {},
    }
}

/// The order is transitive, and strictly so when either step is strict.
pub proof fn law_cmp_transitive(a: VersionSpec, b: VersionSpec, c: VersionSpec)
    requires
        version_cmp(a, b) != Ordering::Greater,
        version_cmp(b, c) != Ordering::Greater,
    ensures
        version_cmp(a, c) != Ordering::Greater,
        version_cmp(a, b) == Ordering::Less || version_cmp(b, c) == Ordering::Less
            ==> version_cmp(a, c) == Ordering::Less,
{
    match (a.build, b.build, c.build) {
        (Some(x), Some(y), Some(z)) => {
            if a.major == b.major && b.major == c.major && a.minor == b.minor && b.minor
                == c.minor {
                lemma_lex_transitive(x, y, z);
            }
        },
        _ => {},
    }
}

/// Two versions compare equal exactly when major, minor and build agree,
/// whatever their patch numbers.
pub proof fn law_cmp_equal_ignores_patch(a: VersionSpec, b: VersionSpec)
    ensures
        (version_cmp(a, b) == Ordering::Equal) == (a.major == b.major && a.minor == b.minor
            && a.build == b.build),
{
    match (a.build, b.build) {
        (Some(x), Some(y)) => lemma_lex_equal(x, y),
        _ => {},
    }
}

proof fn lemma_digit_char(n: nat)
    requires
        n < 10,
    ensures
        is_digit(digit_char(n)),
        digit_value(digit_char(n)) == n,
{
    let t = seq!['0', '1', '2', '3', '4', '5', '6', '7', '8', '9'];
    assert(t[0] == '0' && t[1] == '1' && t[2] == '2' && t[3] == '3' && t[4] == '4');
    assert(t[5] == '5' && t[6] == '6' && t[7] == '7' && t[8] == '8' && t[9] == '9');
}

proof fn lemma_decimal(n: nat)
    ensures
        decimal(n).len() > 0,
        all_digits(decimal(n)),
        digits_value(decimal(n)) == n,
    decreases n,
{
    lemma_digit_char(n % 10);
    if n < 10 {
        let d = decimal(n);
        assert(d.drop_last() =~= Seq::<char>::empty());
        assert(d.last() == digit_char(n));
        lemma_digit_char(n);
        assert(digits_value(d) == digits_value(d.drop_last()) * 10 + digit_value(d.last()));
    } else {
        lemma_decimal(n / 10);
        let d = decimal(n);
        assert(d.drop_last() =~= decimal(n / 10));
        assert(d.last() == digit_char(n % 10));
        assert((n / 10) * 10 + n % 10 == n);
        assert(digits_value(d) == digits_value(d.drop_last()) * 10 + digit_value(d.last()));
        assert forall|i: int| 0 <= i < d.len() implies is_digit(#[trigger] d[i]) by {
            if i < d.len() - 1 {
                assert(d[i] == decimal(n / 10)[i]);
            }
        }
    }
}

proof fn lemma_next_dot_after_digits(s: Seq<char>, i: int, d: Seq<char>)
    requires
        0 <= i,
        i + d.len() <= s.len(),
        s.subrange(i, i + d.len()) == d,
        all_digits(d),
        i + d.len() == s.len() || s[i + d.len()] == '.',
    ensures
        next_dot(s, i) == i + d.len(),
    decreases d.len(),
{
    if d.len() > 0 {
        assert(s[i] == d[0]);
        assert(is_digit(d[0]));
        let e = d.drop_first();
        assert(s.subrange(i + 1, i + 1 + e.len()) =~= e);
        assert forall|k: int| 0 <= k < e.len() implies is_digit(#[trigger] e[k]) by {
            assert(e[k] == d[k + 1]);
        }
        lemma_next_dot_after_digits(s, i + 1, e);
    }
}

/// The string `major.minor.patch` of three numbers.
pub open spec fn triple_text(major: nat, minor: nat, patch: nat) -> Seq<char> {
    decimal(major) + seq!['.'] + decimal(minor) + seq!['.'] + decimal(patch)
}

proof fn lemma_parse_triple(major: nat, minor: nat, patch: nat, s: Seq<char>)
    requires
        major <= usize::MAX,
        minor <= usize::MAX,
        patch <= usize::MAX,
        triple_text(major, minor, patch).len() <= s.len(),
        s.subrange(0, triple_text(major, minor, patch).len() as int) == triple_text(major, minor, patch),
        s.len() == triple_text(major, minor, patch).len() || s[triple_text(major, minor, patch).len() as int] == '.',
    ensures
        field_number(s, 0) == Ok::<nat, Seq<char>>(major),
        field_number(s, 1) == Ok::<nat, Seq<char>>(minor),
        field_number(s, 2) == Ok::<nat, Seq<char>>(patch),
        field_start(s, 3) == if s.len() == triple_text(major, minor, patch).len() {
            None::<int>
        } else {
            Some(triple_text(major, minor, patch).len() as int + 1)
        },
{
    reveal_with_fuel(field_start, 4);
    let (a, b, c) = (decimal(major), decimal(minor), decimal(patch));
    let t = triple_text(major, minor, patch);
    lemma_decimal(major);
    lemma_decimal(minor);
    lemma_decimal(patch);
    let e0 = a.len() as int;
    let e1 = e0 + 1 + b.len();
    let e2 = e1 + 1 + c.len();
    assert(t.len() == e2);
    assert(s.subrange(0, e0) =~= a);
    assert(s[e0] == t[e0]);
    lemma_next_dot_after_digits(s, 0, a);
    let ab = a + seq!['.'] + b;
    assert(t =~= ab + seq!['.'] + c);
    assert(ab.subrange(e0 + 1, e1) =~= b);
    assert(t.subrange(0, e1) =~= ab);
    assert(t.subrange(e0 + 1, e1) =~= b);
    assert(t.subrange(e1 + 1, e2) =~= c);
    assert(s.subrange(e0 + 1, e1) =~= t.subrange(e0 + 1, e1));
    assert(s.subrange(e0 + 1, e1) =~= b);
    assert(s[e1] == t[e1]);
    lemma_next_dot_after_digits(s, e0 + 1, b);
    assert(s.subrange(e1 + 1, e2) =~= t.subrange(e1 + 1, e2));
    assert(s.subrange(e1 + 1, e2) =~= c);
    lemma_next_dot_after_digits(s, e1 + 1, c);
    assert(field(s, 0) == Some(a));
    assert(field(s, 1) == Some(b));
    assert(field(s, 2) == Some(c));
    assert(numeral_digits(a) == a);
    assert(numeral_digits(b) == b);
    assert(numeral_digits(c) == c);
}

/// Reading `major.minor.patch` gives those numbers and no build, and
/// formatting the result gives the same text back.
pub proof fn law_round_trip_three_fields(major: usize, minor: usize, patch: usize)
    ensures
        parse_spec(triple_text(major as nat, minor as nat, patch as nat)) == Ok::<VersionSpec, Seq<char>>(
            VersionSpec { major: major as nat, minor: minor as nat, patch: patch as nat, build: None },
        ),
        format_spec(VersionSpec { major: major as nat, minor: minor as nat, patch: patch as nat, build: None })
            == triple_text(major as nat, minor as nat, patch as nat),
{
    let t = triple_text(major as nat, minor as nat, patch as nat);
    assert(t.subrange(0, t.len() as int) =~= t);
    lemma_parse_triple(major as nat, minor as nat, patch as nat, t);
}

/// Reading `major.minor.patch.build` gives those numbers and that build, even
/// where the build holds further dots, and formatting the result gives the same
/// text back.
pub proof fn law_round_trip_with_build(major: usize, minor: usize, patch: usize, build: Seq<char>)
    ensures
        parse_spec(triple_text(major as nat, minor as nat, patch as nat) + seq!['.'] + build)
            == Ok::<VersionSpec, Seq<char>>(
            VersionSpec { major: major as nat, minor: minor as nat, patch: patch as nat, build: Some(build) },
        ),
        format_spec(VersionSpec { major: major as nat, minor: minor as nat, patch: patch as nat, build: Some(build) })
            == triple_text(major as nat, minor as nat, patch as nat) + seq!['.'] + build,
{
    let t = triple_text(major as nat, minor as nat, patch as nat);
    let s = t + seq!['.'] + build;
    assert(s.subrange(0, t.len() as int) =~= t);
    assert(s[t.len() as int] == '.');
    lemma_parse_triple(major as nat, minor as nat, patch as nat, s);
    assert(s.subrange(t.len() as int + 1, s.len() as int) =~= build);
}

} // verus!
