//! The conventional-commit reader: a commit title such as
//! `fix(scope): message` split into its type, optional scope, and message.

use vstd::prelude::*;

use crate::error::Error;
use crate::text::{scan, str_to_chars, trim};

verus! {

/// End of a greedy run of commit-type characters: anything but space, colon
/// and parentheses.
pub open spec fn sec_scan(s: Seq<char>, i: int) -> int {
    scan(s, i, |c: char| c == ' ' || c == ':' || c == '(' || c == ')')
}

/// End of a greedy run of horizontal blanks.
pub open spec fn hspace_scan(s: Seq<char>, i: int) -> int {
    scan(s, i, |c: char| !(c == ' ' || c == '\t' || c == '\r'))
}

/// End of a greedy run of characters other than parentheses.
pub open spec fn paren_scan(s: Seq<char>, i: int) -> int {
    scan(s, i, |c: char| c == '(' || c == ')')
}

/// Ghost form of a read commit title.
#[verifier::ext_equal]
pub struct CommitV {
    pub section: Seq<char>,
    pub scope: Option<Seq<char>>,
    pub message: Seq<char>,
}

/// A commit title split into its parts.
#[derive(Debug, Clone, PartialEq, Eq)]
pub struct FormattedCommit {
    pub section: String,
    pub scope: Option<String>,
    pub message: String,
}

impl View for FormattedCommit {
    type V = CommitV;

    open spec fn view(&self) -> CommitV {
        CommitV {
            section: self.section@,
            scope: crate::model::view_opt_str(self.scope),
            message: self.message@,
        }
    }
}

/// Read a commit title: the type, an optional parenthesized scope, a colon,
/// and the message taking the rest of the text.
pub open spec fn p_commit(s: Seq<char>) -> Option<CommitV> {
    let se = sec_scan(s, 0);
    if se == 0 {
        None
    } else {
        let j = hspace_scan(s, se);
        let scope_res = if j < s.len() && s[j] == '(' {
            let pe = paren_scan(s, j + 1);
            if pe > j + 1 && pe < s.len() && s[pe] == ')' {
                Some((trim(s.subrange(j + 1, pe)), pe + 1))
            } else {
                None
            }
        } else {
            None
        };
        let pos = match scope_res {
            Some(sc) => sc.1,
            None => se,
        };
        let k = hspace_scan(s, pos);
        if !(k < s.len() && s[k] == ':') {
            None
        } else {
            let m = hspace_scan(s, k + 1);
            if m >= s.len() {
                None
            } else {
                Some(
                    CommitV {
                        section: trim(s.subrange(0, se)),
                        scope: match scope_res {
                            Some(sc) => Some(sc.0),
                            None => None,
                        },
                        message: trim(s.subrange(m, s.len() as int)),
                    },
                )
            }
        }
    }
}

/// Exec mirror of [`sec_scan`].
fn find_sec(s: &Vec<char>, from: usize) -> (r: usize)
    requires
        from <= s@.len(),
    ensures
        r == sec_scan(s@, from as int),
        from <= r <= s@.len(),
{
    let mut i: usize = from;
    loop
        invariant
            from <= i <= s@.len(),
            sec_scan(s@, from as int) == sec_scan(s@, i as int),
        decreases s@.len() - i,
    {
        if i == s.len() {
            return i;
        }
        let c = s[i];
        if c == ' ' || c == ':' || c == '(' || c == ')' {
            return i;
        }
        i = i + 1;
    }
}

/// Exec mirror of [`hspace_scan`].
fn find_hspace(s: &Vec<char>, from: usize) -> (r: usize)
    requires
        from <= s@.len(),
    ensures
        r == hspace_scan(s@, from as int),
        from <= r <= s@.len(),
{
    let mut i: usize = from;
    loop
        invariant
            from <= i <= s@.len(),
            hspace_scan(s@, from as int) == hspace_scan(s@, i as int),
        decreases s@.len() - i,
    {
        if i == s.len() {
            return i;
        }
        let c = s[i];
        if !(c == ' ' || c == '\t' || c == '\r') {
            return i;
        }
        i = i + 1;
    }
}

/// Exec mirror of [`paren_scan`].
fn find_paren(s: &Vec<char>, from: usize) -> (r: usize)
    requires
        from <= s@.len(),
    ensures
        r == paren_scan(s@, from as int),
        from <= r <= s@.len(),
{
    let mut i: usize = from;
    loop
        invariant
            from <= i <= s@.len(),
            paren_scan(s@, from as int) == paren_scan(s@, i as int),
        decreases s@.len() - i,
    {
        if i == s.len() {
            return i;
        }
        let c = s[i];
        if c == '(' || c == ')' {
            return i;
        }
        i = i + 1;
    }
}

/// Read a commit title, as [`p_commit`] says; a title that does not follow
/// the conventional syntax is a parse error.
pub fn parse_commit(input: &str) -> (r: Result<FormattedCommit, Error>)
    ensures
        r is Ok <==> p_commit(input@) is Some,
        r is Ok ==> r->Ok_0@ == p_commit(input@)->0,
        r is Err ==> r->Err_0 matches Error::ParseError { .. },
{
    let s = str_to_chars(input);
    let se = find_sec(&s, 0);
    if se == 0 {
        return Err(Error::ParseError { position: 0 });
    }
    let j = find_hspace(&s, se);
    let mut scope: Option<String> = None;
    let mut pos = se;
    if j < s.len() && s[j] == '(' {
        let pe = find_paren(&s, j + 1);
        if pe > j + 1 && pe < s.len() && s[pe] == ')' {
            scope = Some(crate::text::capture_trimmed(&s, j + 1, pe));
            pos = pe + 1;
        }
    }
    let k = find_hspace(&s, pos);
    if !(k < s.len() && s[k] == ':') {
        return Err(Error::ParseError { position: k });
    }
    let m = find_hspace(&s, k + 1);
    if m == s.len() {
        return Err(Error::ParseError { position: m });
    }
    let section = crate::text::capture_trimmed(&s, 0, se);
    let message = crate::text::capture_trimmed(&s, m, s.len());
    let commit = FormattedCommit { section, scope, message };
    proof {
        assert(p_commit(input@) is Some);
        assert(commit@ =~= p_commit(input@)->0);
    }
    Ok(commit)
}

} // verus!
