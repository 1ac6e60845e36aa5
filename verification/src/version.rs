use vstd::prelude::*;
use vstd::string::*;

verus! {

/// CPU architecture discriminator of an installable build. It is carried as
/// identity metadata on a version and never takes part in version ordering.
#[derive(Clone, Copy, PartialEq, Eq, Structural, Debug)]
pub enum Arch {
    X86,
    X64,
    Aarch64,
}

/// Operating system of the target platform.
#[derive(Clone, Copy, PartialEq, Eq, Structural, Debug)]
pub enum Os {
    Linux,
    Mac,
    Windows,
}

pub open spec fn spec_arch_name(a: Arch) -> Seq<char> {
    match a {
        Arch::X86 => "x86"@,
        Arch::X64 => "x64"@,
        Arch::Aarch64 => "aarch64"@,
    }
}

/// Short name of an architecture, as used in channel suffixes and URLs.
pub fn arch_name(a: Arch) -> (r: &'static str)
    ensures
        r@ == spec_arch_name(a),
{
    match a {
        Arch::X86 => "x86",
        Arch::X64 => "x64",
        Arch::Aarch64 => "aarch64",
    }
}

/// A semantic version: numeric triple plus an optional prerelease identifier.
/// A release version has no prerelease identifier and takes precedence over
/// every prerelease of the same triple.
pub struct Version {
    pub major: u64,
    pub minor: u64,
    pub patch: u64,
    pub prerelease: Option<String>,
}

/// Mathematical value of a `Version`.
pub ghost struct VersionView {
    pub major: u64,
    pub minor: u64,
    pub patch: u64,
    pub prerelease: Option<Seq<char>>,
}

impl View for Version {
    type V = VersionView;

    open spec fn view(&self) -> VersionView {
        VersionView {
            major: self.major,
            minor: self.minor,
            patch: self.patch,
            prerelease: match self.prerelease {
                Some(s) => Some(s@),
                None => None,
            },
        }
    }
}

impl Version {
    pub fn new(major: u64, minor: u64, patch: u64) -> (r: Version)
        ensures
            r@ == (VersionView { major, minor, patch, prerelease: None }),
    {
        Version { major, minor, patch, prerelease: None }
    }

    pub fn duplicate(&self) -> (r: Version)
        ensures
            r@ == self@,
    {
        Version {
            major: self.major,
            minor: self.minor,
            patch: self.patch,
            prerelease: match &self.prerelease {
                Some(s) => Some(s.clone()),
                None => None,
            },
        }
    }

    pub open spec fn is_release(self) -> bool {
        self@.prerelease is None
    }
}

pub open spec fn view_is_release(v: VersionView) -> bool {
    v.prerelease is None
}

/// Strict lexicographic order on character sequences, by code point.
pub open spec fn lex_lt(a: Seq<char>, b: Seq<char>) -> bool
    decreases a.len(),
{
    if b.len() == 0 {
        false
    } else if a.len() == 0 {
        true
    } else if a[0] != b[0] {
        (a[0] as u32) < (b[0] as u32)
    } else {
        lex_lt(a.drop_first(), b.drop_first())
    }
}

pub open spec fn is_digit_char(c: char) -> bool {
    48 <= (c as u32) <= 57
}

/// A numeric prerelease identifier: non-empty, digits only.
pub open spec fn is_numeric_id(s: Seq<char>) -> bool {
    s.len() > 0 && forall|i: int| 0 <= i < s.len() ==> is_digit_char(#[trigger] s[i])
}

/// Semantic-version precedence on two prerelease identifiers: two numeric
/// identifiers (canonical, so without leading zeros) compare by length and
/// then digit-wise; a numeric identifier precedes an alphanumeric one;
/// alphanumeric identifiers compare lexicographically by code point.
pub open spec fn pre_id_lt(a: Seq<char>, b: Seq<char>) -> bool {
    if is_numeric_id(a) && is_numeric_id(b) {
        a.len() < b.len() || (a.len() == b.len() && lex_lt(a, b))
    } else if is_numeric_id(a) {
        true
    } else if is_numeric_id(b) {
        false
    } else {
        lex_lt(a, b)
    }
}

/// Position of the first dot in a prerelease string, or its length when
/// there is none: identifiers are the dot-separated segments.
pub open spec fn first_dot_at(s: Seq<char>) -> nat
    decreases s.len(),
{
    if s.len() == 0 {
        0
    } else if s[0] == '.' {
        0
    } else {
        1 + first_dot_at(s.drop_first())
    }
}

/// Semantic-version precedence on whole prerelease strings: the
/// dot-separated identifiers compare left to right by `pre_id_lt`, and
/// when the lists agree up to the length of the shorter one, the one with
/// fewer identifiers precedes.
pub open spec fn spec_pre_lt(a: Seq<char>, b: Seq<char>) -> bool
    decreases a.len(),
{
    let da = first_dot_at(a);
    let db = first_dot_at(b);
    let ia = a.take(da as int);
    let ib = b.take(db as int);
    if pre_id_lt(ia, ib) {
        true
    } else if pre_id_lt(ib, ia) {
        false
    } else if da >= a.len() && db >= b.len() {
        false
    } else if da >= a.len() {
        true
    } else if db >= b.len() {
        false
    } else {
        spec_pre_lt(a.skip(da as int + 1), b.skip(db as int + 1))
    }
}

/// Precedence on the prerelease slot: a release (no identifier) follows
/// every prerelease of the same numeric triple.
pub open spec fn pre_opt_lt(a: Option<Seq<char>>, b: Option<Seq<char>>) -> bool {
    match (a, b) {
        (Some(x), Some(y)) => spec_pre_lt(x, y),
        (Some(_), None) => true,
        (None, _) => false,
    }
}

/// Strict semantic-version precedence. The architecture tag of a build is
/// not part of a `VersionView` and so never takes part in this order.
pub open spec fn spec_version_lt(a: VersionView, b: VersionView) -> bool {
    if a.major != b.major {
        a.major < b.major
    } else if a.minor != b.minor {
        a.minor < b.minor
    } else if a.patch != b.patch {
        a.patch < b.patch
    } else {
        pre_opt_lt(a.prerelease, b.prerelease)
    }
}

pub open spec fn spec_version_le(a: VersionView, b: VersionView) -> bool {
    spec_version_lt(a, b) || a == b
}

fn char_at(s: &str, i: usize) -> (c: char)
    requires
        i < s@.len(),
    ensures
        c == s@[i as int],
{
    s.get_char(i)
}

/// Decides `lex_lt` on two strings.
pub fn str_lex_lt(a: &str, b: &str) -> (r: bool)
    ensures
        r == lex_lt(a@, b@),
{
    let a_len = a.unicode_len();
    let b_len = b.unicode_len();
    let mut i: usize = 0;
    proof {
        assert(a@.skip(0) =~= a@);
        assert(b@.skip(0) =~= b@);
    }
    loop
        invariant
            i <= a_len,
            i <= b_len,
            a_len == a@.len(),
            b_len == b@.len(),
            lex_lt(a@, b@) == lex_lt(a@.skip(i as int), b@.skip(i as int)),
        decreases a_len - i,
    {
        if i == b_len {
            return false;
        }
        if i == a_len {
            return true;
        }
        let ca = char_at(a, i);
        let cb = char_at(b, i);
        if ca != cb {
            return (ca as u32) < (cb as u32);
        }
        proof {
            assert(a@.skip(i as int).drop_first() =~= a@.skip(i as int + 1));
            assert(b@.skip(i as int).drop_first() =~= b@.skip(i as int + 1));
        }
        i = i + 1;
    }
}

/// Decides whether a string is a numeric identifier.
pub fn str_is_numeric_id(s: &str) -> (r: bool)
    ensures
        r == is_numeric_id(s@),
{
    let len = s.unicode_len();
    if len == 0 {
        return false;
    }
    for i in 0..len
        invariant
            len == s@.len(),
            forall|j: int| 0 <= j < i ==> is_digit_char(#[trigger] s@[j]),
    {
        let c = char_at(s, i);
        if (c as u32) < 48 || (c as u32) > 57 {
            return false;
        }
    }
    true
}

/// Decides prerelease-identifier precedence.
pub fn pre_id_before(a: &str, b: &str) -> (r: bool)
    ensures
        r == pre_id_lt(a@, b@),
{
    let a_num = str_is_numeric_id(a);
    let b_num = str_is_numeric_id(b);
    if a_num && b_num {
        let a_len = a.unicode_len();
        let b_len = b.unicode_len();
        a_len < b_len || (a_len == b_len && str_lex_lt(a, b))
    } else if a_num {
        true
    } else if b_num {
        false
    } else {
        str_lex_lt(a, b)
    }
}

proof fn lemma_first_dot_from(s: Seq<char>, i: int)
    requires
        0 <= i <= s.len(),
        forall|j: int| 0 <= j < i ==> s[j] != '.',
        i == s.len() || s[i] == '.',
    ensures
        first_dot_at(s) == i,
    decreases i,
{
    if i == 0 {
    } else {
        assert(s[0] != '.');
        lemma_first_dot_from(s.drop_first(), i - 1);
        assert(s.drop_first().len() == s.len() - 1);
    }
}

/// Finds the first dot of a prerelease string, or its length.
fn first_dot_index(s: &str) -> (i: usize)
    ensures
        i == first_dot_at(s@),
        i <= s@.len(),
{
    let len = s.unicode_len();
    let mut i: usize = 0;
    while i < len
        invariant
            len == s@.len(),
            i <= len,
            forall|j: int| 0 <= j < i ==> s@[j] != '.',
        decreases len - i,
    {
        if char_at(s, i) == '.' {
            proof {
                lemma_first_dot_from(s@, i as int);
            }
            return i;
        }
        i = i + 1;
    }
    proof {
        lemma_first_dot_from(s@, len as int);
    }
    len
}

/// Decides semantic-version precedence on whole prerelease strings.
pub fn pre_before(a: &str, b: &str) -> (r: bool)
    ensures
        r == spec_pre_lt(a@, b@),
    decreases a@.len(),
{
    let a_len = a.unicode_len();
    let b_len = b.unicode_len();
    let da = first_dot_index(a);
    let db = first_dot_index(b);
    let ia = a.substring_char(0, da);
    let ib = b.substring_char(0, db);
    proof {
        assert(ia@ =~= a@.take(first_dot_at(a@) as int));
        assert(ib@ =~= b@.take(first_dot_at(b@) as int));
    }
    if pre_id_before(ia, ib) {
        true
    } else if pre_id_before(ib, ia) {
        false
    } else if da == a_len && db == b_len {
        false
    } else if da == a_len {
        true
    } else if db == b_len {
        false
    } else {
        let rest_a = a.substring_char(da + 1, a_len);
        let rest_b = b.substring_char(db + 1, b_len);
        proof {
            assert(rest_a@ =~= a@.skip(first_dot_at(a@) as int + 1));
            assert(rest_b@ =~= b@.skip(first_dot_at(b@) as int + 1));
        }
        pre_before(rest_a, rest_b)
    }
}

impl Version {
    /// Decides strict semantic-version precedence between two versions.
    pub fn precedes(&self, other: &Version) -> (r: bool)
        ensures
            r == spec_version_lt(self@, other@),
    {
        if self.major != other.major {
            self.major < other.major
        } else if self.minor != other.minor {
            self.minor < other.minor
        } else if self.patch != other.patch {
            self.patch < other.patch
        } else {
            match (&self.prerelease, &other.prerelease) {
                (Some(x), Some(y)) => pre_before(x.as_str(), y.as_str()),
                (Some(_), None) => true,
                (None, _) => false,
            }
        }
    }
}

pub open spec fn digit_char(d: int) -> char {
    if d == 0 {
        '0'
    } else if d == 1 {
        '1'
    } else if d == 2 {
        '2'
    } else if d == 3 {
        '3'
    } else if d == 4 {
        '4'
    } else if d == 5 {
        '5'
    } else if d == 6 {
        '6'
    } else if d == 7 {
        '7'
    } else if d == 8 {
        '8'
    } else {
        '9'
    }
}

/// Decimal digits of a non-negative number, most significant first.
pub open spec fn spec_digits(n: int) -> Seq<char>
    decreases n,
{
    if n < 10 {
        seq![digit_char(n)]
    } else {
        spec_digits(n / 10).push(digit_char(n % 10))
    }
}

fn digit_str(d: u64) -> (r: &'static str)
    requires
        d < 10,
    ensures
        r@ =~= seq![digit_char(d as int)],
{
    match d {
        0 => {
            proof {
                reveal_strlit("0");
            }
            "0"
        },
        1 => {
            proof {
                reveal_strlit("1");
            }
            "1"
        },
        2 => {
            proof {
                reveal_strlit("2");
            }
            "2"
        },
        3 => {
            proof {
                reveal_strlit("3");
            }
            "3"
        },
        4 => {
            proof {
                reveal_strlit("4");
            }
            "4"
        },
        5 => {
            proof {
                reveal_strlit("5");
            }
            "5"
        },
        6 => {
            proof {
                reveal_strlit("6");
            }
            "6"
        },
        7 => {
            proof {
                reveal_strlit("7");
            }
            "7"
        },
        8 => {
            proof {
                reveal_strlit("8");
            }
            "8"
        },
        _ => {
            proof {
                reveal_strlit("9");
            }
            "9"
        },
    }
}

/// Decimal rendering of a number.
pub fn u64_to_string(n: u64) -> (s: String)
    ensures
        s@ =~= spec_digits(n as int),
    decreases n,
{
    if n < 10 {
        digit_str(n).to_owned()
    } else {
        let mut s = u64_to_string(n / 10);
        s.append(digit_str(n % 10));
        s
    }
}

/// Textual form of a version: `major.minor.patch`, with `-identifier`
/// appended for a prerelease.
pub open spec fn spec_version_str(v: VersionView) -> Seq<char> {
    spec_digits(v.major as int) + seq!['.'] + spec_digits(v.minor as int) + seq!['.'] + spec_digits(
        v.patch as int,
    ) + match v.prerelease {
        Some(p) => seq!['-'] + p,
        None => Seq::<char>::empty(),
    }
}

/// Textual identity of an installable build: the version followed by `~`
/// and the architecture tag.
pub open spec fn spec_full_version_str(v: VersionView, a: Arch) -> Seq<char> {
    spec_version_str(v) + seq!['~'] + spec_arch_name(a)
}

impl Version {
    /// Renders `major.minor.patch[-prerelease]`.
    pub fn version_str(&self) -> (s: String)
        ensures
            s@ =~= spec_version_str(self@),
    {
        proof {
            reveal_strlit(".");
            reveal_strlit("-");
        }
        let mut s = u64_to_string(self.major);
        s.append(".");
        let minor_s = u64_to_string(self.minor);
        s.append(minor_s.as_str());
        s.append(".");
        let patch_s = u64_to_string(self.patch);
        s.append(patch_s.as_str());
        match &self.prerelease {
            Some(p) => {
                s.append("-");
                s.append(p.as_str());
            },
            None => {},
        }
        s
    }

    /// Renders `major.minor.patch[-prerelease]~arch`.
    pub fn full_version_str(&self, a: Arch) -> (s: String)
        ensures
            s@ =~= spec_full_version_str(self@, a),
    {
        proof {
            reveal_strlit("~");
        }
        let mut s = self.version_str();
        s.append("~");
        s.append(arch_name(a));
        s
    }
}


/// Digit strings are non-empty and hold decimal digits only.
pub proof fn lemma_digits_plain(n: int)
    ensures
        spec_digits(n).len() >= 1,
        forall|j: int| 0 <= j < spec_digits(n).len() ==> is_digit_char(#[trigger] spec_digits(n)[j]),
    decreases n,
{
    if n >= 10 {
        lemma_digits_plain(n / 10);
        assert forall|j: int| 0 <= j < spec_digits(n).len() implies is_digit_char(
            #[trigger] spec_digits(n)[j],
        ) by {
            if j < spec_digits(n / 10).len() {
                assert(spec_digits(n)[j] == spec_digits(n / 10)[j]);
            } else {
                assert(spec_digits(n)[j] == digit_char(n % 10));
            }
        }
    }
}

/// Name of the minor-series channel of versions `m.n.*`.
pub open spec fn spec_minor_channel_name(m: u64, n: u64) -> Seq<char> {
    spec_digits(m as int) + "."@ + spec_digits(n as int)
}

/// Name of the major-series channel of versions `m.*`.
pub open spec fn spec_major_channel_name(m: u64) -> Seq<char> {
    spec_digits(m as int)
}

/// Renders the minor-series channel name `m.n`.
pub fn minor_channel_name(m: u64, n: u64) -> (r: String)
    ensures
        r@ == spec_minor_channel_name(m, n),
{
    proof {
        reveal_strlit(".");
    }
    let mut s = u64_to_string(m);
    s.append(".");
    let n_str = u64_to_string(n);
    s.append(n_str.as_str());
    proof {
        assert(s@ =~= spec_minor_channel_name(m, n));
    }
    s
}


/// Distinct numbers render as distinct digit strings.
pub proof fn lemma_digits_injective(a: int, b: int)
    requires
        0 <= a,
        0 <= b,
        spec_digits(a) == spec_digits(b),
    ensures
        a == b,
    decreases a,
{
    lemma_digits_plain(a);
    lemma_digits_plain(b);
    if a < 10 && b < 10 {
        assert(spec_digits(a)[0] == digit_char(a));
        assert(spec_digits(b)[0] == digit_char(b));
    } else if a < 10 {
        assert(spec_digits(b).len() == spec_digits(b / 10).len() + 1);
        lemma_digits_plain(b / 10);
    } else if b < 10 {
        assert(spec_digits(a).len() == spec_digits(a / 10).len() + 1);
        lemma_digits_plain(a / 10);
    } else {
        assert(spec_digits(a).last() == digit_char(a % 10));
        assert(spec_digits(b).last() == digit_char(b % 10));
        assert(a % 10 == b % 10);
        assert(spec_digits(a).drop_last() =~= spec_digits(a / 10));
        assert(spec_digits(b).drop_last() =~= spec_digits(b / 10));
        lemma_digits_injective(a / 10, b / 10);
    }
}

/// A minor-series channel name holds exactly one dot, after the digits of
/// the major number, and no tilde.
pub proof fn lemma_minor_name_shape(m: u64, n: u64)
    ensures
        spec_minor_channel_name(m, n).len() == spec_digits(m as int).len() + 1 + spec_digits(
            n as int,
        ).len(),
        spec_minor_channel_name(m, n)[spec_digits(m as int).len() as int] == '.',
        forall|j: int|
            0 <= j < spec_minor_channel_name(m, n).len() && j != spec_digits(m as int).len()
                ==> spec_minor_channel_name(m, n)[j] != '.',
        forall|j: int|
            0 <= j < spec_minor_channel_name(m, n).len() ==> spec_minor_channel_name(m, n)[j]
                != '~',
{
    reveal_strlit(".");
    lemma_digits_plain(m as int);
    lemma_digits_plain(n as int);
    let name = spec_minor_channel_name(m, n);
    let dm = spec_digits(m as int);
    let dn = spec_digits(n as int);
    assert(name[dm.len() as int] == '.');
    assert forall|j: int| 0 <= j < name.len() && j != dm.len() implies name[j] != '.' by {
        if j < dm.len() {
            assert(name[j] == dm[j]);
            assert(is_digit_char(dm[j]));
        } else {
            assert(name[j] == dn[j - dm.len() - 1]);
            assert(is_digit_char(dn[j - dm.len() - 1]));
        }
    }
    assert forall|j: int| 0 <= j < name.len() implies name[j] != '~' by {
        if j < dm.len() {
            assert(is_digit_char(dm[j]));
        } else if j == dm.len() {
        } else {
            assert(is_digit_char(dn[j - dm.len() - 1]));
        }
    }
}

/// Distinct minor series have distinct channel names.
pub proof fn lemma_minor_name_injective(m1: u64, n1: u64, m2: u64, n2: u64)
    requires
        spec_minor_channel_name(m1, n1) == spec_minor_channel_name(m2, n2),
    ensures
        m1 == m2,
        n1 == n2,
{
    lemma_minor_name_shape(m1, n1);
    lemma_minor_name_shape(m2, n2);
    let name = spec_minor_channel_name(m1, n1);
    let d1 = spec_digits(m1 as int);
    let d2 = spec_digits(m2 as int);
    let e1 = spec_digits(n1 as int);
    let e2 = spec_digits(n2 as int);
    assert(spec_minor_channel_name(m2, n2)[d2.len() as int] == '.');
    assert(d1.len() == d2.len());
    assert(d1 =~= d2) by {
        assert forall|j: int| 0 <= j < d1.len() implies d1[j] == d2[j] by {
            assert(name[j] == d1[j]);
            assert(spec_minor_channel_name(m2, n2)[j] == d2[j]);
        }
    }
    lemma_digits_injective(m1 as int, m2 as int);
    assert(e1 =~= e2) by {
        assert forall|j: int| 0 <= j < e1.len() implies e1[j] == e2[j] by {
            assert(name[d1.len() + 1 + j] == e1[j]);
            assert(spec_minor_channel_name(m2, n2)[d2.len() + 1 + j] == e2[j]);
        }
    }
    lemma_digits_injective(n1 as int, n2 as int);
}

/// A release version's textual name is digits with dots exactly after the
/// major digits and after the minor digits; it holds no tilde and no dash.
pub proof fn lemma_release_name_shape(v: VersionView)
    requires
        view_is_release(v),
    ensures
        spec_version_str(v).len() == spec_digits(v.major as int).len() + 1 + spec_digits(
            v.minor as int,
        ).len() + 1 + spec_digits(v.patch as int).len(),
        spec_version_str(v)[spec_digits(v.major as int).len() as int] == '.',
        spec_version_str(v)[spec_digits(v.major as int).len() + 1 + spec_digits(
            v.minor as int,
        ).len() as int] == '.',
        forall|j: int|
            0 <= j < spec_version_str(v).len() && j != spec_digits(v.major as int).len() && j
                != spec_digits(v.major as int).len() + 1 + spec_digits(v.minor as int).len()
                ==> is_digit_char(#[trigger] spec_version_str(v)[j]),
        forall|j: int|
            0 <= j < spec_version_str(v).len() ==> #[trigger] spec_version_str(v)[j] != '~',
        forall|j: int|
            0 <= j < spec_version_str(v).len() ==> #[trigger] spec_version_str(v)[j] != '-',
{
    reveal_strlit(".");
    lemma_digits_plain(v.major as int);
    lemma_digits_plain(v.minor as int);
    lemma_digits_plain(v.patch as int);
    let name = spec_version_str(v);
    let dm = spec_digits(v.major as int);
    let dn = spec_digits(v.minor as int);
    let dp = spec_digits(v.patch as int);
    let p1 = dm.len() as int;
    let p2 = dm.len() + 1 + dn.len();
    assert(name =~= dm + "."@ + dn + "."@ + dp);
    assert(name[p1] == '.');
    assert(name[p2 as int] == '.');
    assert forall|j: int| 0 <= j < name.len() && j != p1 && j != p2 implies is_digit_char(
        #[trigger] name[j],
    ) by {
        if j < p1 {
            assert(name[j] == dm[j]);
        } else if j < p2 {
            assert(name[j] == dn[j - p1 - 1]);
        } else {
            assert(name[j] == dp[j - p2 - 1]);
        }
    }
    assert forall|j: int| 0 <= j < name.len() implies #[trigger] name[j] != '~' && name[j]
        != '-' by {
        if j != p1 && j != p2 {
            assert(is_digit_char(name[j]));
        }
    }
}

/// Distinct release versions render as distinct textual names.
pub proof fn lemma_release_name_injective(v1: VersionView, v2: VersionView)
    requires
        view_is_release(v1),
        view_is_release(v2),
        spec_version_str(v1) == spec_version_str(v2),
    ensures
        v1 == v2,
{
    lemma_release_name_shape(v1);
    lemma_release_name_shape(v2);
    let name = spec_version_str(v1);
    let a1 = spec_digits(v1.major as int);
    let a2 = spec_digits(v2.major as int);
    let b1 = spec_digits(v1.minor as int);
    let b2 = spec_digits(v2.minor as int);
    let c1 = spec_digits(v1.patch as int);
    let c2 = spec_digits(v2.patch as int);
    let p1 = a1.len() as int;
    let q1 = a1.len() + 1 + b1.len();
    let p2 = a2.len() as int;
    let q2 = a2.len() + 1 + b2.len();
    assert(p1 == p2) by {
        assert(spec_version_str(v2)[p2] == '.');
        if p2 < p1 {
            assert(is_digit_char(name[p2]));
        }
        if p1 < p2 {
            assert(is_digit_char(spec_version_str(v2)[p1]));
        }
    }
    assert(a1 =~= a2) by {
        assert forall|j: int| 0 <= j < a1.len() implies a1[j] == a2[j] by {
            assert(name[j] == a1[j]);
            assert(spec_version_str(v2)[j] == a2[j]);
        }
    }
    lemma_digits_injective(v1.major as int, v2.major as int);
    assert(q1 == q2) by {
        assert(spec_version_str(v2)[q2 as int] == '.');
        if q2 < q1 {
            assert(q2 != p1);
            assert(is_digit_char(name[q2 as int]));
        }
        if q1 < q2 {
            assert(q1 != p2);
            assert(is_digit_char(spec_version_str(v2)[q1 as int]));
        }
    }
    assert(b1 =~= b2) by {
        assert forall|j: int| 0 <= j < b1.len() implies b1[j] == b2[j] by {
            assert(name[p1 + 1 + j] == b1[j]);
            assert(spec_version_str(v2)[p2 + 1 + j] == b2[j]);
        }
    }
    lemma_digits_injective(v1.minor as int, v2.minor as int);
    assert(c1 =~= c2) by {
        assert(c1.len() == c2.len());
        assert forall|j: int| 0 <= j < c1.len() implies c1[j] == c2[j] by {
            assert(name[q1 + 1 + j] == c1[j]);
            assert(spec_version_str(v2)[q2 + 1 + j] == c2[j]);
        }
    }
    lemma_digits_injective(v1.patch as int, v2.patch as int);
}

/// A prerelease version's textual name carries a dash right after the
/// numeric triple, so it never collides with a release name.
pub proof fn lemma_prerelease_name_has_dash(v: VersionView)
    requires
        v.prerelease is Some,
    ensures
        spec_version_str(v).len() > spec_digits(v.major as int).len() + 1 + spec_digits(
            v.minor as int,
        ).len() + 1 + spec_digits(v.patch as int).len(),
        spec_version_str(v)[spec_digits(v.major as int).len() + 1 + spec_digits(
            v.minor as int,
        ).len() + 1 + spec_digits(v.patch as int).len() as int] == '-',
{
    reveal_strlit(".");
    reveal_strlit("-");
    lemma_digits_plain(v.major as int);
    lemma_digits_plain(v.minor as int);
    lemma_digits_plain(v.patch as int);
}

} // verus!
