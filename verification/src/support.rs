//! Small text helpers around the workflows: repository names, placeholder
//! interpolation, and release-title matching.

use vstd::prelude::*;

use crate::error::Error;
use crate::text::{chars_to_string, scan, spec_replace, replace_chars, str_to_chars};

verus! {

/// A repository name of the `owner/name` form.
#[derive(Debug, Clone, PartialEq, Eq)]
pub struct Repo {
    pub owner: String,
    pub name: String,
}

/// First slash at or after `i`, or the length.
pub open spec fn slash_scan(s: Seq<char>, i: int) -> int {
    scan(s, i, |c: char| c == '/')
}

impl Repo {
    /// Split an `owner/name` text at its only slash; any other shape is a
    /// format error.
    pub fn try_from(value: &str) -> (r: Result<Repo, Error>)
        ensures
            ({
                let s = value@;
                let d = slash_scan(s, 0);
                let ok = d < s.len() && slash_scan(s, d + 1) == s.len();
                &&& (r is Ok <==> ok)
                &&& (r matches Ok(repo) ==> repo.owner@ == s.subrange(0, d) && repo.name@
                    == s.subrange(d + 1, s.len() as int))
            }),
    {
        let s = str_to_chars(value);
        let d = find_slash(&s, 0);
        if d == s.len() {
            return Err(Error::ParseError { position: d });
        }
        let d2 = find_slash(&s, d + 1);
        if d2 != s.len() {
            return Err(Error::ParseError { position: d2 });
        }
        let mut owner_chars: Vec<char> = Vec::new();
        let mut i: usize = 0;
        while i < d
            invariant
                0 <= i <= d <= s@.len(),
                owner_chars@ == s@.subrange(0, i as int),
            decreases d - i,
        {
            owner_chars.push(s[i]);
            proof {
                assert(s@.subrange(0, i + 1) =~= s@.subrange(0, i as int).push(s@[i as int]));
            }
            i = i + 1;
        }
        let mut name_chars: Vec<char> = Vec::new();
        let mut j: usize = d + 1;
        while j < s.len()
            invariant
                d + 1 <= j <= s@.len(),
                name_chars@ == s@.subrange(d + 1, j as int),
            decreases s@.len() - j,
        {
            name_chars.push(s[j]);
            proof {
                assert(s@.subrange(d + 1, j + 1) =~= s@.subrange(d + 1, j as int).push(
                    s@[j as int],
                ));
            }
            j = j + 1;
        }
        Ok(Repo { owner: chars_to_string(&owner_chars), name: chars_to_string(&name_chars) })
    }
}

/// Exec mirror of [`slash_scan`].
fn find_slash(s: &Vec<char>, from: usize) -> (r: usize)
    requires
        from <= s@.len(),
    ensures
        r == slash_scan(s@, from as int),
        from <= r <= s@.len(),
{
    let mut i: usize = from;
    loop
        invariant
            from <= i <= s@.len(),
            slash_scan(s@, from as int) == slash_scan(s@, i as int),
        decreases s@.len() - i,
    {
        if i == s.len() {
            return i;
        }
        if s[i] == '/' {
            return i;
        }
        i = i + 1;
    }
}

/// A text with named placeholders, each written between a start and an end
/// pattern, filled in one by one.
#[derive(Debug, Clone, PartialEq, Eq)]
pub struct TextInterpolate {
    pub buffer: String,
    pub start_pattern: String,
    pub end_pattern: String,
}

impl TextInterpolate {
    /// The text to fill in, with its placeholder delimiters.
    pub fn new(buffer: String, start_pattern: &str, end_pattern: &str) -> (r: TextInterpolate)
        ensures
            r.buffer@ == buffer@,
            r.start_pattern@ == start_pattern@,
            r.end_pattern@ == end_pattern@,
    {
        TextInterpolate {
            buffer,
            start_pattern: crate::version::copy_str(start_pattern),
            end_pattern: crate::version::copy_str(end_pattern),
        }
    }

    /// Replace every occurrence of the named placeholder by `content`; with
    /// both delimiters and the name empty the text stands unchanged.
    pub fn interpolate(&mut self, name: &str, content: &str)
        ensures
            final(self).buffer@ == spec_replace(
                old(self).buffer@,
                old(self).start_pattern@ + name@ + old(self).end_pattern@,
                content@,
            ),
            final(self).start_pattern@ == old(self).start_pattern@,
            final(self).end_pattern@ == old(self).end_pattern@,
    {
        let buffer_chars = str_to_chars(self.buffer.as_str());
        let mut pattern = crate::version::copy_str(self.start_pattern.as_str());
        pattern.append(name);
        pattern.append(self.end_pattern.as_str());
        let pattern_chars = str_to_chars(pattern.as_str());
        let content_chars = str_to_chars(content);
        let replaced = replace_chars(&buffer_chars, &pattern_chars, &content_chars);
        self.buffer = chars_to_string(&replaced);
    }

    /// The filled-in text.
    pub fn text(self) -> (r: String)
        ensures
            r@ == self.buffer@,
    {
        self.buffer
    }
}

/// A reference-link shape stands somewhere in the line: a `[`, then on the
/// same line a `]` followed directly by a colon.
pub open spec fn spec_footer_link_line(s: Seq<char>) -> bool {
    exists|i: int, j: int|
        #![trigger s[i], s[j]]
        0 <= i < j && j + 1 < s.len() && s[i] == '[' && s[j] == ']' && s[j + 1] == ':' && (
        forall|k: int| i < k < j ==> s[k] != '\n')
}

/// An open bracket stands before `j` with no line break after it.
spec fn open_before(s: Seq<char>, j: int) -> bool {
    exists|i: int| 0 <= i < j && s[i] == '[' && (forall|k: int| i < k < j ==> s[k] != '\n')
}

/// Whether the text holds a reference-link shape, as the footer block
/// recognizes one.
pub fn matches_footer_link(line: &str) -> (r: bool)
    ensures
        r == spec_footer_link_line(line@),
{
    let s = str_to_chars(line);
    let mut j: usize = 0;
    let mut seen = false;
    while j < s.len()
        invariant
            s@ == line@,
            0 <= j <= s@.len(),
            seen == open_before(s@, j as int),
            forall|i: int, jj: int|
                #![trigger s@[i], s@[jj]]
                0 <= i < jj && jj < j && jj + 1 < s@.len() && s@[i] == '[' && s@[jj] == ']'
                    && s@[jj + 1] == ':' ==> !(forall|k: int| i < k < jj ==> s@[k] != '\n'),
        decreases s@.len() - j,
    {
        let c = s[j];
        if seen && c == ']' && j + 1 < s.len() && s[j + 1] == ':' {
            proof {
                let i = choose|i: int|
                    0 <= i < j && s@[i] == '[' && (forall|k: int| i < k < j ==> s@[k] != '\n');
                assert(spec_footer_link_line(s@));
            }
            return true;
        }
        proof {
            let jn = j + 1;
            if c == '\n' {
                assert(!open_before(s@, jn)) by {
                    if open_before(s@, jn) {
                        let i = choose|i: int|
                            0 <= i < jn && s@[i] == '[' && (forall|k: int|
                                i < k < jn ==> s@[k] != '\n');
                        if i < j {
                            assert(s@[j as int] != '\n');
                        }
                    }
                }
            } else if c == '[' {
                assert(open_before(s@, jn)) by {
                    assert(s@[j as int] == '[');
                    assert(forall|k: int| j < k < jn ==> s@[k] != '\n');
                }
            } else {
                if seen {
                    let i = choose|i: int|
                        0 <= i < j && s@[i] == '[' && (forall|k: int| i < k < j ==> s@[k] != '\n');
                    assert(forall|k: int| i < k < jn ==> s@[k] != '\n');
                    assert(open_before(s@, jn));
                } else {
                    assert(!open_before(s@, jn)) by {
                        if open_before(s@, jn) {
                            let i = choose|i: int|
                                0 <= i < jn && s@[i] == '[' && (forall|k: int|
                                    i < k < jn ==> s@[k] != '\n');
                            if i < j {
                                assert(forall|k: int| i < k < j ==> s@[k] != '\n');
                                assert(open_before(s@, j as int));
                            } else {
                                assert(s@[j as int] == '[');
                            }
                        }
                    }
                }
            }
        }
        if c == '\n' {
            seen = false;
        } else if c == '[' {
            seen = true;
        }
        j = j + 1;
    }
    proof {
        assert(!spec_footer_link_line(s@)) by {
            if spec_footer_link_line(s@) {
                let (i, jj) = choose|i: int, jj: int|
                    #![trigger s@[i], s@[jj]]
                    0 <= i < jj && jj + 1 < s@.len() && s@[i] == '[' && s@[jj] == ']' && s@[jj
                        + 1] == ':' && (forall|k: int| i < k < jj ==> s@[k] != '\n');
            }
        }
    }
    false
}

/// Whether a text begins with a release title line; its version text and
/// optional human title are handed back.
pub fn match_release_title(text: &str) -> (r: Option<(String, Option<String>)>)
    ensures
        ({
            let sp = crate::de::p_title(text@, 0);
            match r {
                Some(t) => sp is Some && t.0@ == (sp->0).0.version && (match t.1 {
                    Some(x) => (sp->0).0.title == Some(x@),
                    None => (sp->0).0.title is None,
                }),
                None => sp is None,
            }
        }),
{
    let s = str_to_chars(text);
    match crate::de::parse_title(&s, 0) {
        Some((title, _pos)) => Some((title.version, title.title)),
        None => None,
    }
}

} // verus!
