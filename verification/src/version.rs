//! Version texts: a total order over version strings, tolerant of
//! non-semantic but dotted numeric forms.
//!
//! A version is read strictly first, as a semantic version; where that read
//! fails, a partial two-component numeric form such as `24.04` is accepted
//! and synthesized into the triple `(24, 4, 0)`, while the original text is
//! kept as the display form.

use vstd::prelude::*;

use crate::error::Error;
use crate::text::{
    all_digits, copy_range, dot_scan, is_u64_text, parse_u64_range, str_to_chars, u64_digits,
    u64_text_val, u64_to_string,
};

verus! {

/// Ghost form of a version: the numeric triple, the pre-release and build
/// texts, the display text, and whether the version was read from a partial
/// two-component form.
#[verifier::ext_equal]
pub struct VersionV {
    pub major: u64,
    pub minor: u64,
    pub patch: u64,
    pub pre: Seq<char>,
    pub build: Seq<char>,
    pub display: Seq<char>,
    pub partial: bool,
}

/// What the strict semantic-version read of `s` yields, if anything: the
/// triple, the pre-release text, the build text, and the canonical display
/// text. The result depends on the characters of `s` alone.
pub uninterp spec fn semver_of(s: Seq<char>) -> Option<(u64, u64, u64, Seq<char>, Seq<char>, Seq<char>)>;

/// What a strict semantic-version read of a version text yields.
pub struct SemverParts {
    pub major: u64,
    pub minor: u64,
    pub patch: u64,
    pub pre: String,
    pub build: String,
    pub display: String,
}

/// Relies on `semver::Version::from_str` for the strict semantic-version
/// grammar, and on its `Display` for the canonical text of what was read.
#[verifier::external_body]
fn semver_read(s: &str) -> (r: Option<SemverParts>)
    ensures
        r is Some <==> semver_of(s@) is Some,
        r is Some ==> {
            let p = semver_of(s@)->0;
            &&& r->0.major == p.0
            &&& r->0.minor == p.1
            &&& r->0.patch == p.2
            &&& r->0.pre@ == p.3
            &&& r->0.build@ == p.4
            &&& r->0.display@ == p.5
        },
{
    match <semver::Version as core::str::FromStr>::from_str(s) {
        Ok(v) => Some(SemverParts {
            display: v.to_string(),
            major: v.major,
            minor: v.minor,
            patch: v.patch,
            pre: v.pre.as_str().to_string(),
            build: v.build.as_str().to_string(),
        }),
        Err(_) => None,
    }
}

/// A version: the triple that ordering goes by first, the pre-release and
/// build texts that keep distinct builds apart, and the display text.
#[derive(Debug, Clone)]
pub struct Version {
    pub major: u64,
    pub minor: u64,
    pub patch: u64,
    pub pre: String,
    pub build: String,
    pub display: String,
    pub partial: bool,
}

impl View for Version {
    type V = VersionV;

    open spec fn view(&self) -> VersionV {
        VersionV {
            major: self.major,
            minor: self.minor,
            patch: self.patch,
            pre: self.pre@,
            build: self.build@,
            display: self.display@,
            partial: self.partial,
        }
    }
}

/// The partial read of a version text: at least one dot, and the first two
/// dot-separated parts read as unsigned numbers; the patch is zero and the
/// display is the text itself.
pub open spec fn spec_partial_parse(s: Seq<char>) -> Option<VersionV> {
    let d1 = dot_scan(s, 0);
    if d1 == s.len() {
        None
    } else {
        let p0 = s.subrange(0, d1);
        let d2 = dot_scan(s, d1 + 1);
        let p1 = s.subrange(d1 + 1, d2);
        if is_u64_text(p0) && is_u64_text(p1) {
            Some(
                VersionV {
                    major: u64_text_val(p0) as u64,
                    minor: u64_text_val(p1) as u64,
                    patch: 0,
                    pre: Seq::empty(),
                    build: Seq::empty(),
                    display: s,
                    partial: true,
                },
            )
        } else {
            None
        }
    }
}

/// What reading a version text yields: the strict semantic-version read where
/// it succeeds, else the partial read.
pub open spec fn spec_version_parse(s: Seq<char>) -> Option<VersionV> {
    match semver_of(s) {
        Some(p) => Some(
            VersionV {
                major: p.0,
                minor: p.1,
                patch: p.2,
                pre: p.3,
                build: p.4,
                display: p.5,
                partial: false,
            },
        ),
        None => spec_partial_parse(s),
    }
}

/// The numeric triples are equal.
pub open spec fn triple_eq(a: VersionV, b: VersionV) -> bool {
    a.major == b.major && a.minor == b.minor && a.patch == b.patch
}

/// The numeric triple of `a` is less than that of `b`, lexicographically.
pub open spec fn triple_lt(a: VersionV, b: VersionV) -> bool {
    ||| a.major < b.major
    ||| (a.major == b.major && a.minor < b.minor)
    ||| (a.major == b.major && a.minor == b.minor && a.patch < b.patch)
}

/// The texts hold the same characters, compared by code point.
pub open spec fn chars_eq(a: Seq<char>, b: Seq<char>) -> bool {
    a.len() == b.len() && forall|i: int|
        0 <= i < a.len() ==> (#[trigger] a[i]) as u32 == (#[trigger] b[i]) as u32
}

/// Character-wise lexicographic order on texts by code point, a prefix
/// coming first.
pub open spec fn seq_lex_lt(a: Seq<char>, b: Seq<char>) -> bool
    decreases a.len(),
{
    if b.len() == 0 {
        false
    } else if a.len() == 0 {
        true
    } else if (a[0] as u32) != (b[0] as u32) {
        (a[0] as u32) < (b[0] as u32)
    } else {
        seq_lex_lt(a.drop_first(), b.drop_first())
    }
}

/// One pre-release identifier comes before another, as the strict version
/// grammar's precedence says: all-digit identifiers by length then text,
/// all-digit before alphanumeric, alphanumeric by code point.
pub open spec fn ident_lt(a: Seq<char>, b: Seq<char>) -> bool {
    if all_digits(a) && all_digits(b) {
        a.len() < b.len() || (a.len() == b.len() && seq_lex_lt(a, b))
    } else if all_digits(a) {
        true
    } else if all_digits(b) {
        false
    } else {
        seq_lex_lt(a, b)
    }
}

/// The first dot at or after `i` in a pre-release text, by code point, or
/// the length.
pub open spec fn pre_dot_scan(s: Seq<char>, i: int) -> int {
    crate::text::scan(s, i, |c: char| (c as u32) == 46)
}

/// What `pre_dot_scan` answers: no dot stands before it, and it points at a
/// dot when it is in range.
pub proof fn lemma_pre_dot_scan_bounds(s: Seq<char>, i: int)
    requires
        0 <= i <= s.len(),
    ensures
        i <= pre_dot_scan(s, i) <= s.len(),
        forall|k: int| i <= k < pre_dot_scan(s, i) ==> ((#[trigger] s[k]) as u32) != 46,
        pre_dot_scan(s, i) < s.len() ==> (s[pre_dot_scan(s, i)] as u32) == 46,
    decreases s.len() - i,
{
    if i < s.len() && (s[i] as u32) != 46 {
        lemma_pre_dot_scan_bounds(s, i + 1);
    }
}

/// Scanning a suffix answers the same dot position, shifted.
pub proof fn lemma_pre_dot_scan_shift(s: Seq<char>, p: int, j: int)
    requires
        0 <= p,
        0 <= j,
        p + j <= s.len(),
    ensures
        pre_dot_scan(s.skip(p), j) == pre_dot_scan(s, p + j) - p,
    decreases s.len() - p - j,
{
    if p + j < s.len() {
        assert(s.skip(p)[j] == s[p + j]);
        if (s[p + j] as u32) != 46 {
            lemma_pre_dot_scan_shift(s, p, j + 1);
        }
    }
}

/// Texts sharing their code points split at the same dot.
proof fn lemma_pre_dot_scan_congr(a: Seq<char>, b: Seq<char>, i: int)
    requires
        chars_eq(a, b),
        0 <= i <= a.len(),
    ensures
        pre_dot_scan(a, i) == pre_dot_scan(b, i),
    decreases a.len() - i,
{
    if i < a.len() {
        assert((a[i]) as u32 == (b[i]) as u32);
        if (a[i] as u32) != 46 {
            lemma_pre_dot_scan_congr(a, b, i + 1);
        }
    }
}

/// Dot-separated identifier runs compared from the front: pairwise equal
/// identifiers are skipped, the first differing pair decides, and a strict
/// prefix comes first.
pub open spec fn idents_lt(a: Seq<char>, b: Seq<char>) -> bool
    decreases a.len(),
{
    let da = pre_dot_scan(a, 0);
    let db = pre_dot_scan(b, 0);
    let ia = a.subrange(0, da);
    let ib = b.subrange(0, db);
    if chars_eq(ia, ib) {
        if 0 <= da && da < a.len() && 0 <= db && db < b.len() {
            idents_lt(a.skip(da + 1), b.skip(db + 1))
        } else {
            da >= a.len() && db < b.len()
        }
    } else {
        ident_lt(ia, ib)
    }
}

/// Pre-release order, as the strict version grammar's precedence says: a
/// version with a pre-release tag comes before the same triple without one;
/// two tags compare by their dot-separated identifiers.
pub open spec fn pre_lt(a: Seq<char>, b: Seq<char>) -> bool {
    if a.len() > 0 && b.len() == 0 {
        true
    } else if a.len() == 0 {
        false
    } else {
        idents_lt(a, b)
    }
}

/// The key order of stored releases: the triple first, then the pre-release
/// text, then the build text, so that distinct builds of one triple stay
/// apart.
pub open spec fn version_lt(a: VersionV, b: VersionV) -> bool {
    ||| triple_lt(a, b)
    ||| (triple_eq(a, b) && pre_lt(a.pre, b.pre))
    ||| (triple_eq(a, b) && chars_eq(a.pre, b.pre) && idents_lt(a.build, b.build))
}

/// Two versions address the same stored release: equal triple and the same
/// pre-release and build texts.
pub open spec fn version_key_eq(a: VersionV, b: VersionV) -> bool {
    triple_eq(a, b) && chars_eq(a.pre, b.pre) && chars_eq(a.build, b.build)
}

impl Version {
    /// A strict version with the given triple, no pre-release tag, and the
    /// canonical `major.minor.patch` display.
    pub fn new(major: u64, minor: u64, patch: u64) -> (r: Version)
        ensures
            r@ == (VersionV {
                major,
                minor,
                patch,
                pre: Seq::empty(),
                build: Seq::empty(),
                display: u64_digits(major as int) + seq!['.'] + u64_digits(minor as int)
                    + seq!['.'] + u64_digits(patch as int),
                partial: false,
            }),
    {
        let mut text = u64_to_string(major);
        text.append(".");
        let minor_text = u64_to_string(minor);
        text.append(minor_text.as_str());
        text.append(".");
        let patch_text = u64_to_string(patch);
        text.append(patch_text.as_str());
        proof {
            reveal_strlit(".");
            assert(text@ =~= u64_digits(major as int) + seq!['.'] + u64_digits(minor as int)
                + seq!['.'] + u64_digits(patch as int));
        }
        let pre = String::new();
        let build = String::new();
        Version { major, minor, patch, pre, build, display: text, partial: false }
    }

    /// Read a version text: strict semantic version first, else the partial
    /// two-component form; anything else is an invalid version format.
    pub fn parse(text: &str) -> (r: Result<Version, Error>)
        ensures
            r is Ok <==> spec_version_parse(text@) is Some,
            r is Ok ==> r->Ok_0@ == spec_version_parse(text@)->0,
            r is Err ==> (r->Err_0 matches Error::InvalidVersionFormat { text: t } && t@
                == text@),
    {
        match semver_read(text) {
            Some(parts) => Ok(
                Version {
                    major: parts.major,
                    minor: parts.minor,
                    patch: parts.patch,
                    pre: parts.pre,
                    build: parts.build,
                    display: parts.display,
                    partial: false,
                },
            ),
            None => {
                let chars = str_to_chars(text);
                let d1 = crate::text::find_dot(&chars, 0);
                if d1 == chars.len() {
                    return Err(Error::InvalidVersionFormat { text: copy_str(text) });
                }
                let d2 = crate::text::find_dot(&chars, d1 + 1);
                let major = parse_u64_range(&chars, 0, d1);
                let minor = parse_u64_range(&chars, d1 + 1, d2);
                match (major, minor) {
                    (Some(major), Some(minor)) => Ok(
                        Version {
                            major,
                            minor,
                            patch: 0,
                            pre: String::new(),
                            build: String::new(),
                            display: copy_str(text),
                            partial: true,
                        },
                    ),
                    _ => Err(Error::InvalidVersionFormat { text: copy_str(text) }),
                }
            },
        }
    }

    /// The display text: the canonical triple for a strict version, the
    /// original text verbatim for a partial one.
    pub fn display_text(&self) -> (r: String)
        ensures
            r@ == self@.display,
    {
        self.display.clone()
    }

    /// The version carries a pre-release tag.
    pub fn is_prerelease(&self) -> (r: bool)
        ensures
            r == (self@.pre.len() > 0),
    {
        !self.pre.as_str().is_empty()
    }

    /// An identical version value.
    pub fn duplicate(&self) -> (r: Version)
        ensures
            r@ == self@,
    {
        Version {
            major: self.major,
            minor: self.minor,
            patch: self.patch,
            pre: self.pre.clone(),
            build: self.build.clone(),
            display: self.display.clone(),
            partial: self.partial,
        }
    }

    /// The triples are equal.
    pub fn triple_equal(&self, other: &Version) -> (r: bool)
        ensures
            r == triple_eq(self@, other@),
    {
        self.major == other.major && self.minor == other.minor && self.patch == other.patch
    }

    /// This triple comes before the other, lexicographically.
    pub fn triple_less(&self, other: &Version) -> (r: bool)
        ensures
            r == triple_lt(self@, other@),
    {
        self.major < other.major || (self.major == other.major && (self.minor < other.minor || (
        self.minor == other.minor && self.patch < other.patch)))
    }

    /// This version comes before the other in the stored-release key order.
    pub fn key_less(&self, other: &Version) -> (r: bool)
        ensures
            r == version_lt(self@, other@),
    {
        if self.triple_less(other) {
            true
        } else if self.triple_equal(other) {
            if pre_less(&self.pre, &other.pre) {
                true
            } else if pre_equal(&self.pre, &other.pre) {
                let av = str_to_chars(self.build.as_str());
                let bv = str_to_chars(other.build.as_str());
                idents_less(&av, &bv)
            } else {
                false
            }
        } else {
            false
        }
    }

    /// This version addresses the same stored release as the other.
    pub fn key_equal(&self, other: &Version) -> (r: bool)
        ensures
            r == version_key_eq(self@, other@),
    {
        self.triple_equal(other) && pre_equal(&self.pre, &other.pre) && pre_equal(
            &self.build,
            &other.build,
        )
    }
}

/// An owned copy of a text.
pub fn copy_str(s: &str) -> (r: String)
    ensures
        r@ == s@,
{
    String::from_str(s)
}

/// Code-point equality of pre-release texts.
fn pre_equal(a: &String, b: &String) -> (r: bool)
    ensures
        r == chars_eq(a@, b@),
{
    let av = str_to_chars(a.as_str());
    let bv = str_to_chars(b.as_str());
    if av.len() != bv.len() {
        return false;
    }
    let mut i: usize = 0;
    while i < av.len()
        invariant
            av@ == a@,
            bv@ == b@,
            av@.len() == bv@.len(),
            0 <= i <= av@.len(),
            forall|k: int|
                0 <= k < i ==> (#[trigger] av@[k]) as u32 == (#[trigger] bv@[k]) as u32,
        decreases av@.len() - i,
    {
        if (av[i] as u32) != (bv[i] as u32) {
            return false;
        }
        i = i + 1;
    }
    true
}

/// Comparison of pre-release texts by the strict version grammar's
/// precedence.
fn pre_less(a: &String, b: &String) -> (r: bool)
    ensures
        r == pre_lt(a@, b@),
{
    let av = str_to_chars(a.as_str());
    let bv = str_to_chars(b.as_str());
    if av.len() > 0 && bv.len() == 0 {
        true
    } else if av.len() == 0 {
        false
    } else {
        idents_less(&av, &bv)
    }
}

/// Exec mirror of [`all_digits`].
fn all_digits_vec(v: &Vec<char>) -> (r: bool)
    ensures
        r == all_digits(v@),
{
    let mut i: usize = 0;
    while i < v.len()
        invariant
            0 <= i <= v@.len(),
            forall|k: int| 0 <= k < i ==> #[trigger] crate::text::is_digit(v@[k]),
        decreases v@.len() - i,
    {
        let c = v[i] as u32;
        if c < 48 || c > 57 {
            proof {
                assert(!all_digits(v@)) by {
                    assert(!crate::text::is_digit(v@[i as int]));
                }
            }
            return false;
        }
        i = i + 1;
    }
    true
}

/// Exec mirror of [`chars_eq`].
fn vec_chars_eq(a: &Vec<char>, b: &Vec<char>) -> (r: bool)
    ensures
        r == chars_eq(a@, b@),
{
    if a.len() != b.len() {
        return false;
    }
    let mut i: usize = 0;
    while i < a.len()
        invariant
            a@.len() == b@.len(),
            0 <= i <= a@.len(),
            forall|k: int|
                0 <= k < i ==> (#[trigger] a@[k]) as u32 == (#[trigger] b@[k]) as u32,
        decreases a@.len() - i,
    {
        if (a[i] as u32) != (b[i] as u32) {
            return false;
        }
        i = i + 1;
    }
    true
}

/// Exec mirror of [`ident_lt`].
fn ident_less(a: &Vec<char>, b: &Vec<char>) -> (r: bool)
    ensures
        r == ident_lt(a@, b@),
{
    let da = all_digits_vec(a);
    let db = all_digits_vec(b);
    if da && db {
        if a.len() != b.len() {
            a.len() < b.len()
        } else {
            lex_less(a, b)
        }
    } else if da {
        true
    } else if db {
        false
    } else {
        lex_less(a, b)
    }
}

/// Exec mirror of [`pre_dot_scan`].
fn find_pre_dot(s: &Vec<char>, from: usize) -> (r: usize)
    requires
        from <= s@.len(),
    ensures
        r == pre_dot_scan(s@, from as int),
        from <= r <= s@.len(),
{
    let mut i: usize = from;
    loop
        invariant
            from <= i <= s@.len(),
            pre_dot_scan(s@, from as int) == pre_dot_scan(s@, i as int),
        decreases s@.len() - i,
    {
        if i == s.len() {
            return i;
        }
        if (s[i] as u32) == 46 {
            return i;
        }
        i = i + 1;
    }
}

/// Exec mirror of [`idents_lt`].
fn idents_less(a: &Vec<char>, b: &Vec<char>) -> (r: bool)
    ensures
        r == idents_lt(a@, b@),
{
    let mut pa: usize = 0;
    let mut pb: usize = 0;
    proof {
        assert(a@.skip(0) =~= a@);
        assert(b@.skip(0) =~= b@);
    }
    loop
        invariant
            0 <= pa <= a@.len(),
            0 <= pb <= b@.len(),
            idents_lt(a@, b@) == idents_lt(a@.skip(pa as int), b@.skip(pb as int)),
        decreases a@.len() - pa,
    {
        let da = find_pre_dot(a, pa);
        let db = find_pre_dot(b, pb);
        let ia = copy_range(a, pa, da);
        let ib = copy_range(b, pb, db);
        let ghost sa = a@.skip(pa as int);
        let ghost sb = b@.skip(pb as int);
        proof {
            lemma_pre_dot_scan_shift(a@, pa as int, 0);
            lemma_pre_dot_scan_shift(b@, pb as int, 0);
            assert(pre_dot_scan(sa, 0) == da - pa);
            assert(pre_dot_scan(sb, 0) == db - pb);
            assert(sa.subrange(0, da - pa) =~= a@.subrange(pa as int, da as int));
            assert(sb.subrange(0, db - pb) =~= b@.subrange(pb as int, db as int));
        }
        if vec_chars_eq(&ia, &ib) {
            if da == a.len() || db == b.len() {
                proof {
                    assert(idents_lt(sa, sb) == (da - pa >= sa.len() && db - pb < sb.len()));
                }
                return da == a.len() && db < b.len();
            }
            proof {
                assert(sa.skip(da - pa + 1) =~= a@.skip(da + 1));
                assert(sb.skip(db - pb + 1) =~= b@.skip(db + 1));
                assert(idents_lt(sa, sb) == idents_lt(a@.skip(da + 1), b@.skip(db + 1)));
            }
            pa = da + 1;
            pb = db + 1;
        } else {
            proof {
                assert(idents_lt(sa, sb) == ident_lt(ia@, ib@));
            }
            return ident_less(&ia, &ib);
        }
    }
}

/// Character-wise lexicographic comparison.
fn lex_less(a: &Vec<char>, b: &Vec<char>) -> (r: bool)
    ensures
        r == seq_lex_lt(a@, b@),
{
    proof {
        assert(a@.skip(0) =~= a@);
        assert(b@.skip(0) =~= b@);
    }
    let mut i: usize = 0;
    loop
        invariant
            0 <= i <= a@.len(),
            i <= b@.len(),
            seq_lex_lt(a@, b@) == seq_lex_lt(a@.skip(i as int), b@.skip(i as int)),
        decreases a@.len() - i,
    {
        proof {
            let ar = a@.skip(i as int);
            let br = b@.skip(i as int);
            if ar.len() > 0 {
                assert(ar[0] == a@[i as int]);
            }
            if br.len() > 0 {
                assert(br[0] == b@[i as int]);
            }
            if ar.len() > 0 && br.len() > 0 {
                assert(ar.drop_first() =~= a@.skip(i + 1));
                assert(br.drop_first() =~= b@.skip(i + 1));
            }
        }
        if i >= b.len() {
            return false;
        }
        if i >= a.len() {
            return true;
        }
        if (a[i] as u32) != (b[i] as u32) {
            return (a[i] as u32) < (b[i] as u32);
        }
        i = i + 1;
    }
}

/// Character order on texts is a strict total order: two texts are equal,
/// or one comes first.
pub proof fn lemma_seq_lex_trichotomy(a: Seq<char>, b: Seq<char>)
    ensures
        chars_eq(a, b) || seq_lex_lt(a, b) || seq_lex_lt(b, a),
    decreases a.len(),
{
    if a.len() == 0 && b.len() == 0 {
        assert(chars_eq(a, b));
    } else if a.len() > 0 && b.len() > 0 && (a[0] as u32) == (b[0] as u32) {
        lemma_seq_lex_trichotomy(a.drop_first(), b.drop_first());
        if chars_eq(a.drop_first(), b.drop_first()) {
            assert forall|i: int| 0 <= i < a.len() implies (#[trigger] a[i]) as u32 == (
            #[trigger] b[i]) as u32 by {
                if i > 0 {
                    assert(a[i] == a.drop_first()[i - 1]);
                    assert(b[i] == b.drop_first()[i - 1]);
                }
            }
            assert(chars_eq(a, b));
        }
    }
}

/// Character order on texts carries over.
pub proof fn lemma_seq_lex_trans(a: Seq<char>, b: Seq<char>, c: Seq<char>)
    requires
        seq_lex_lt(a, b),
        seq_lex_lt(b, c),
    ensures
        seq_lex_lt(a, c),
    decreases a.len(),
{
    if a.len() > 0 && b.len() > 0 && c.len() > 0 && (a[0] as u32) == (b[0] as u32) && (
    b[0] as u32) == (c[0] as u32) {
        lemma_seq_lex_trans(a.drop_first(), b.drop_first(), c.drop_first());
    }
}

/// Character order does not go both ways.
proof fn lemma_lex_asym(a: Seq<char>, b: Seq<char>)
    requires
        seq_lex_lt(a, b),
    ensures
        !seq_lex_lt(b, a),
    decreases a.len(),
{
    if a.len() > 0 && b.len() > 0 && (a[0] as u32) == (b[0] as u32) {
        lemma_lex_asym(a.drop_first(), b.drop_first());
    }
}

/// Character order only sees code points.
proof fn lemma_lex_congr(a: Seq<char>, a2: Seq<char>, b: Seq<char>, b2: Seq<char>)
    requires
        chars_eq(a, a2),
        chars_eq(b, b2),
    ensures
        seq_lex_lt(a, b) == seq_lex_lt(a2, b2),
    decreases a.len(),
{
    if b.len() == 0 {
    } else if a.len() == 0 {
    } else if (a[0] as u32) != (b[0] as u32) {
    } else {
        assert(chars_eq(a.drop_first(), a2.drop_first())) by {
            assert(forall|i: int|
                0 <= i < a.drop_first().len() ==> (#[trigger] a.drop_first()[i]) == a[i + 1]
                    && (#[trigger] a2.drop_first()[i]) == a2[i + 1]);
        }
        assert(chars_eq(b.drop_first(), b2.drop_first())) by {
            assert(forall|i: int|
                0 <= i < b.drop_first().len() ==> (#[trigger] b.drop_first()[i]) == b[i + 1]
                    && (#[trigger] b2.drop_first()[i]) == b2[i + 1]);
        }
        lemma_lex_congr(a.drop_first(), a2.drop_first(), b.drop_first(), b2.drop_first());
    }
}

/// Being all digits only sees code points.
proof fn lemma_all_digits_congr(a: Seq<char>, b: Seq<char>)
    requires
        chars_eq(a, b),
    ensures
        all_digits(a) == all_digits(b),
{
    if all_digits(a) {
        assert forall|i: int| 0 <= i < b.len() implies #[trigger] crate::text::is_digit(
            b[i],
        ) by {
            assert(crate::text::is_digit(a[i]));
        }
    }
    if all_digits(b) {
        assert forall|i: int| 0 <= i < a.len() implies #[trigger] crate::text::is_digit(
            a[i],
        ) by {
            assert(crate::text::is_digit(b[i]));
        }
    }
}

/// Identifier order only sees code points.
proof fn lemma_ident_congr(a: Seq<char>, a2: Seq<char>, b: Seq<char>, b2: Seq<char>)
    requires
        chars_eq(a, a2),
        chars_eq(b, b2),
    ensures
        ident_lt(a, b) == ident_lt(a2, b2),
{
    lemma_all_digits_congr(a, a2);
    lemma_all_digits_congr(b, b2);
    lemma_lex_congr(a, a2, b, b2);
}

/// Identifier order does not go both ways.
proof fn lemma_ident_asym(a: Seq<char>, b: Seq<char>)
    requires
        ident_lt(a, b),
    ensures
        !ident_lt(b, a),
{
    if all_digits(a) && all_digits(b) {
        if a.len() == b.len() && seq_lex_lt(a, b) {
            lemma_lex_asym(a, b);
        }
    } else if !all_digits(a) && !all_digits(b) {
        lemma_lex_asym(a, b);
    }
}

/// Two identifiers share their code points, or one comes first.
proof fn lemma_ident_trichotomy(a: Seq<char>, b: Seq<char>)
    ensures
        chars_eq(a, b) || ident_lt(a, b) || ident_lt(b, a),
{
    if all_digits(a) && all_digits(b) {
        if a.len() == b.len() {
            lemma_seq_lex_trichotomy(a, b);
        }
    } else if !all_digits(a) && !all_digits(b) {
        lemma_seq_lex_trichotomy(a, b);
    }
}

/// Identifier order carries over.
proof fn lemma_ident_trans(a: Seq<char>, b: Seq<char>, c: Seq<char>)
    requires
        ident_lt(a, b),
        ident_lt(b, c),
    ensures
        ident_lt(a, c),
{
    if all_digits(a) && all_digits(b) && all_digits(c) {
        if a.len() == b.len() && b.len() == c.len() && seq_lex_lt(a, b) && seq_lex_lt(b, c) {
            lemma_seq_lex_trans(a, b, c);
        }
    } else if !all_digits(a) && !all_digits(b) && !all_digits(c) {
        lemma_seq_lex_trans(a, b, c);
    }
}

/// Sharing code points carries over.
proof fn lemma_chars_eq_trans(a: Seq<char>, b: Seq<char>, c: Seq<char>)
    requires
        chars_eq(a, b),
        chars_eq(b, c),
    ensures
        chars_eq(a, c),
{
    assert forall|i: int| 0 <= i < a.len() implies (#[trigger] a[i]) as u32 == (
    #[trigger] c[i]) as u32 by {
        assert((a[i]) as u32 == (b[i]) as u32);
    }
}

/// Two identifier runs share their code points, or one comes first.
proof fn lemma_idents_trichotomy(a: Seq<char>, b: Seq<char>)
    ensures
        chars_eq(a, b) || idents_lt(a, b) || idents_lt(b, a),
    decreases a.len(),
{
    lemma_pre_dot_scan_bounds(a, 0);
    lemma_pre_dot_scan_bounds(b, 0);
    let da = pre_dot_scan(a, 0);
    let db = pre_dot_scan(b, 0);
    let ia = a.subrange(0, da);
    let ib = b.subrange(0, db);
    if chars_eq(ia, ib) {
        assert(chars_eq(ib, ia));
        if da < a.len() && db < b.len() {
            lemma_idents_trichotomy(a.skip(da + 1), b.skip(db + 1));
            if chars_eq(a.skip(da + 1), b.skip(db + 1)) {
                assert((a[da] as u32) == 46 && (b[db] as u32) == 46);
                assert forall|i: int| 0 <= i < a.len() implies (#[trigger] a[i]) as u32 == (
                #[trigger] b[i]) as u32 by {
                    if i < da {
                        assert(ia[i] == a[i] && ib[i] == b[i]);
                    } else if i > da {
                        assert(a.skip(da + 1)[i - da - 1] == a[i]);
                        assert(b.skip(db + 1)[i - db - 1] == b[i]);
                    }
                }
                assert(chars_eq(a, b));
            }
        } else if da >= a.len() && db >= b.len() {
            assert(ia =~= a);
            assert(ib =~= b);
            assert(chars_eq(a, b));
        }
    } else {
        assert(!chars_eq(ib, ia)) by {
            if chars_eq(ib, ia) {
                assert(chars_eq(ia, ib));
            }
        }
        lemma_ident_trichotomy(ia, ib);
    }
}

/// Identifier-run order carries over.
proof fn lemma_idents_trans(a: Seq<char>, b: Seq<char>, c: Seq<char>)
    requires
        idents_lt(a, b),
        idents_lt(b, c),
    ensures
        idents_lt(a, c),
    decreases a.len(),
{
    lemma_pre_dot_scan_bounds(a, 0);
    lemma_pre_dot_scan_bounds(b, 0);
    lemma_pre_dot_scan_bounds(c, 0);
    let da = pre_dot_scan(a, 0);
    let db = pre_dot_scan(b, 0);
    let dc = pre_dot_scan(c, 0);
    let ia = a.subrange(0, da);
    let ib = b.subrange(0, db);
    let ic = c.subrange(0, dc);
    if chars_eq(ia, ib) && chars_eq(ib, ic) {
        lemma_chars_eq_trans(ia, ib, ic);
        if da < a.len() && db < b.len() {
            assert(db < b.len() && dc < c.len());
            lemma_idents_trans(a.skip(da + 1), b.skip(db + 1), c.skip(dc + 1));
        } else {
            assert(da >= a.len() && db < b.len());
            assert(dc < c.len());
        }
    } else if chars_eq(ia, ib) {
        assert(!chars_eq(ia, ic)) by {
            if chars_eq(ia, ic) {
                assert(chars_eq(ib, ia)) by {
                    if !chars_eq(ib, ia) {
                        assert(!chars_eq(ia, ib));
                    }
                }
                lemma_chars_eq_trans(ib, ia, ic);
            }
        }
        lemma_ident_congr(ia, ib, ic, ic);
    } else if chars_eq(ib, ic) {
        assert(!chars_eq(ia, ic)) by {
            if chars_eq(ia, ic) {
                assert(chars_eq(ic, ib)) by {
                    if !chars_eq(ic, ib) {
                        assert(!chars_eq(ib, ic));
                    }
                }
                lemma_chars_eq_trans(ia, ic, ib);
            }
        }
        lemma_ident_congr(ia, ia, ib, ic);
    } else {
        lemma_ident_trans(ia, ib, ic);
        assert(!chars_eq(ia, ic)) by {
            if chars_eq(ia, ic) {
                lemma_ident_congr(ia, ic, ib, ib);
                lemma_ident_asym(ic, ib);
            }
        }
    }
}

/// Identifier runs sharing their code points are not ordered either way.
proof fn lemma_idents_irrefl(a: Seq<char>, b: Seq<char>)
    requires
        chars_eq(a, b),
    ensures
        !idents_lt(a, b),
    decreases a.len(),
{
    lemma_pre_dot_scan_bounds(a, 0);
    lemma_pre_dot_scan_bounds(b, 0);
    lemma_pre_dot_scan_congr(a, b, 0);
    let da = pre_dot_scan(a, 0);
    let db = pre_dot_scan(b, 0);
    let ia = a.subrange(0, da);
    let ib = b.subrange(0, db);
    assert(chars_eq(ia, ib)) by {
        assert(forall|i: int| 0 <= i < da ==> (#[trigger] ia[i]) == a[i] && (#[trigger] ib[i])
            == b[i]);
    }
    if da < a.len() && db < b.len() {
        assert(chars_eq(a.skip(da + 1), b.skip(db + 1))) by {
            assert(forall|i: int|
                0 <= i < a.len() - da - 1 ==> (#[trigger] a.skip(da + 1)[i]) == a[da + 1 + i]
                    && (#[trigger] b.skip(db + 1)[i]) == b[db + 1 + i]);
        }
        lemma_idents_irrefl(a.skip(da + 1), b.skip(db + 1));
    }
}

/// Identifier-run order only sees code points.
proof fn lemma_idents_congr(a: Seq<char>, a2: Seq<char>, b: Seq<char>, b2: Seq<char>)
    requires
        chars_eq(a, a2),
        chars_eq(b, b2),
    ensures
        idents_lt(a, b) == idents_lt(a2, b2),
    decreases a.len(),
{
    lemma_pre_dot_scan_bounds(a, 0);
    lemma_pre_dot_scan_bounds(b, 0);
    lemma_pre_dot_scan_congr(a, a2, 0);
    lemma_pre_dot_scan_congr(b, b2, 0);
    let da = pre_dot_scan(a, 0);
    let db = pre_dot_scan(b, 0);
    let ia = a.subrange(0, da);
    let ib = b.subrange(0, db);
    let ia2 = a2.subrange(0, da);
    let ib2 = b2.subrange(0, db);
    assert(chars_eq(ia, ia2) && chars_eq(ib, ib2)) by {
        assert(forall|i: int| 0 <= i < da ==> (#[trigger] ia[i]) == a[i] && (#[trigger] ia2[i])
            == a2[i]);
        assert(forall|i: int| 0 <= i < db ==> (#[trigger] ib[i]) == b[i] && (#[trigger] ib2[i])
            == b2[i]);
    }
    assert(chars_eq(ia, ib) == chars_eq(ia2, ib2)) by {
        if chars_eq(ia, ib) {
            assert(chars_eq(ia2, ia)) by {
                if !chars_eq(ia2, ia) {
                    assert(!chars_eq(ia, ia2));
                }
            }
            lemma_chars_eq_trans(ia2, ia, ib);
            lemma_chars_eq_trans(ia2, ib, ib2);
        }
        if chars_eq(ia2, ib2) {
            assert(chars_eq(ib2, ib)) by {
                if !chars_eq(ib2, ib) {
                    assert(!chars_eq(ib, ib2));
                }
            }
            lemma_chars_eq_trans(ia, ia2, ib2);
            lemma_chars_eq_trans(ia, ib2, ib);
        }
    }
    if chars_eq(ia, ib) {
        if da < a.len() && db < b.len() {
            assert(chars_eq(a.skip(da + 1), a2.skip(da + 1))) by {
                assert(forall|i: int|
                    0 <= i < a.len() - da - 1 ==> (#[trigger] a.skip(da + 1)[i]) == a[da + 1
                        + i] && (#[trigger] a2.skip(da + 1)[i]) == a2[da + 1 + i]);
            }
            assert(chars_eq(b.skip(db + 1), b2.skip(db + 1))) by {
                assert(forall|i: int|
                    0 <= i < b.len() - db - 1 ==> (#[trigger] b.skip(db + 1)[i]) == b[db + 1
                        + i] && (#[trigger] b2.skip(db + 1)[i]) == b2[db + 1 + i]);
            }
            lemma_idents_congr(a.skip(da + 1), a2.skip(da + 1), b.skip(db + 1), b2.skip(db + 1));
        }
    } else {
        lemma_ident_congr(ia, ia2, ib, ib2);
    }
}

/// Two versions addressing the same key are not ordered either way.
pub proof fn lemma_version_key_eq_not_lt(a: VersionV, b: VersionV)
    requires
        version_key_eq(a, b),
    ensures
        !version_lt(a, b),
{
    if a.pre.len() > 0 && b.pre.len() > 0 {
        lemma_idents_irrefl(a.pre, b.pre);
    }
    lemma_idents_irrefl(a.build, b.build);
}

/// Addressing the same key carries over.
pub proof fn lemma_version_key_eq_trans(a: VersionV, b: VersionV, c: VersionV)
    requires
        version_key_eq(a, b),
        version_key_eq(b, c),
    ensures
        version_key_eq(a, c),
{
    lemma_chars_eq_trans(a.pre, b.pre, c.pre);
    lemma_chars_eq_trans(a.build, b.build, c.build);
}

/// Pre-release order only sees code points.
proof fn lemma_pre_lt_congr(a: Seq<char>, a2: Seq<char>, b: Seq<char>, b2: Seq<char>)
    requires
        chars_eq(a, a2),
        chars_eq(b, b2),
    ensures
        pre_lt(a, b) == pre_lt(a2, b2),
{
    if a.len() > 0 && b.len() > 0 {
        lemma_idents_congr(a, a2, b, b2);
    }
}

/// The stored-release key order is a strict total order over keys: two
/// versions address the same key, or one comes first.
pub proof fn lemma_version_order_trichotomy(a: VersionV, b: VersionV)
    ensures
        version_key_eq(a, b) || version_lt(a, b) || version_lt(b, a),
{
    if triple_eq(a, b) {
        if a.pre.len() == 0 && b.pre.len() == 0 {
            assert(chars_eq(a.pre, b.pre));
        } else if a.pre.len() > 0 && b.pre.len() > 0 {
            lemma_idents_trichotomy(a.pre, b.pre);
        }
        if chars_eq(a.pre, b.pre) {
            assert(chars_eq(b.pre, a.pre));
            lemma_idents_trichotomy(a.build, b.build);
            if chars_eq(a.build, b.build) {
                assert(version_key_eq(a, b));
            }
        }
    }
}

/// The stored-release key order carries over.
pub proof fn lemma_version_lt_trans(a: VersionV, b: VersionV, c: VersionV)
    requires
        version_lt(a, b),
        version_lt(b, c),
    ensures
        version_lt(a, c),
{
    if triple_eq(a, b) && triple_eq(b, c) {
        if pre_lt(a.pre, b.pre) && pre_lt(b.pre, c.pre) {
            if a.pre.len() > 0 && b.pre.len() > 0 && c.pre.len() > 0 {
                lemma_idents_trans(a.pre, b.pre, c.pre);
            }
        } else if pre_lt(a.pre, b.pre) && chars_eq(b.pre, c.pre) {
            lemma_pre_lt_congr(a.pre, a.pre, b.pre, c.pre);
        } else if chars_eq(a.pre, b.pre) && pre_lt(b.pre, c.pre) {
            assert(chars_eq(b.pre, a.pre));
            lemma_pre_lt_congr(b.pre, a.pre, c.pre, c.pre);
        } else if chars_eq(a.pre, b.pre) && chars_eq(b.pre, c.pre) {
            lemma_chars_eq_trans(a.pre, b.pre, c.pre);
            if idents_lt(a.build, b.build) && idents_lt(b.build, c.build) {
                lemma_idents_trans(a.build, b.build, c.build);
            }
        }
    }
}

impl PartialEq for Version {
    /// Versions are equal when their numeric triples and pre-release texts
    /// are equal; the display text does not take part.
    fn eq(&self, other: &Version) -> (r: bool) {
        self.key_equal(other)
    }
}

impl Eq for Version {

}

impl vstd::std_specs::cmp::PartialEqSpecImpl for Version {
    open spec fn obeys_eq_spec() -> bool {
        true
    }

    open spec fn eq_spec(&self, other: &Version) -> bool {
        version_key_eq(self@, other@)
    }
}

} // verus!
