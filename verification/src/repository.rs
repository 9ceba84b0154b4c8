//! The repository boundary: what the lifecycle needs from version control,
//! as a trait its users implement, and the plain data handed across it.

use vstd::prelude::*;

use crate::error::Error;
use crate::version::{
    lemma_version_key_eq_not_lt, lemma_version_key_eq_trans, lemma_version_lt_trans,
    lemma_version_order_trichotomy, spec_version_parse, version_key_eq, version_lt, Version,
    VersionV,
};

verus! {

/// One raw commit as version control reports it.
#[derive(Debug, Clone, PartialEq, Eq)]
pub struct RawCommit {
    pub author: String,
    pub title: String,
    pub body: String,
    pub sha: String,
    pub list_files: Vec<String>,
}

/// A range of commits between two refs; an absent bound stands for the
/// first commit or the head.
#[derive(Debug, Clone, PartialEq, Eq)]
pub struct Period {
    pub since: Option<String>,
    pub until: Option<String>,
}

/// What the lifecycle asks of version control. Implementations live with
/// the caller; nothing here is promised beyond the signatures.
pub trait Repository {
    fn last_commit_sha(&self) -> String;

    fn commit_author(&self, sha: &str) -> String;

    fn commit_title(&self, sha: &str) -> String;

    fn commit_body(&self, sha: &str) -> String;

    fn commit_files(&self, sha: &str) -> Vec<String>;

    fn commits_between_tags(&self, tags: &Period) -> Vec<String>;

    /// The repository's version tags, in ascending order, most recent at
    /// the end.
    fn tags_list(&self) -> Result<Vec<Version>, Error>;
}

impl RawCommit {
    /// The most recent commit.
    pub fn last_from_fs<R: Repository>(r: &R) -> (c: RawCommit) {
        let sha = r.last_commit_sha();
        Self::from_sha(r, sha.as_str())
    }

    /// The commit with the given hash.
    pub fn from_sha<R: Repository>(r: &R, sha: &str) -> (c: RawCommit)
        ensures
            c.sha@ == sha@,
    {
        RawCommit {
            author: r.commit_author(sha),
            title: r.commit_title(sha),
            body: r.commit_body(sha),
            list_files: r.commit_files(sha),
            sha: crate::version::copy_str(sha),
        }
    }

    /// The first seven characters of the hash.
    pub fn short_commit(&self) -> (r: String)
        requires
            self.sha@.len() >= 7,
        ensures
            r@ == self.sha@.subrange(0, 7),
    {
        let chars = crate::text::str_to_chars(self.sha.as_str());
        let mut out: Vec<char> = Vec::new();
        let mut i: usize = 0;
        while i < 7
            invariant
                chars@ == self.sha@,
                chars@.len() >= 7,
                0 <= i <= 7,
                out@ == self.sha@.subrange(0, i as int),
            decreases 7 - i,
        {
            out.push(chars[i]);
            proof {
                assert(self.sha@.subrange(0, i + 1) =~= self.sha@.subrange(0, i as int).push(
                    self.sha@[i as int],
                ));
            }
            i = i + 1;
        }
        crate::text::chars_to_string(&out)
    }
}

/// The version readings of a run of tag texts, in input order, texts that
/// do not read as versions dropped.
pub open spec fn spec_parsed_tags(texts: Seq<Seq<char>>) -> Seq<VersionV>
    decreases texts.len(),
{
    if texts.len() == 0 {
        Seq::empty()
    } else {
        let rest = spec_parsed_tags(texts.drop_last());
        match spec_version_parse(texts.last()) {
            Some(v) => rest.push(v),
            None => rest,
        }
    }
}

/// No later version comes strictly before an earlier one.
pub open spec fn tags_sorted(vs: Seq<VersionV>) -> bool {
    forall|i: int, j: int|
        0 <= i < j < vs.len() ==> !version_lt(#[trigger] vs[j], #[trigger] vs[i])
}

/// The strict order never goes both ways.
proof fn lemma_version_lt_asym(a: VersionV, b: VersionV)
    requires
        version_lt(a, b),
    ensures
        !version_lt(b, a),
{
    if version_lt(b, a) {
        lemma_version_lt_trans(a, b, a);
        assert(version_key_eq(a, a));
        lemma_version_key_eq_not_lt(a, a);
    }
}

/// Place a version after every version not beyond it, keeping the run
/// sorted.
fn insert_tag(sorted: Vec<Version>, v: Version) -> (out: Vec<Version>)
    requires
        tags_sorted(sorted@.map_values(|x: Version| x@)),
    ensures
        tags_sorted(out@.map_values(|x: Version| x@)),
        out@.map_values(|x: Version| x@).to_multiset() =~= sorted@.map_values(
            |x: Version| x@,
        ).to_multiset().insert(v@),
    decreases sorted@.len(),
{
    broadcast use vstd::seq_lib::group_to_multiset_ensures;

    let ghost m = sorted@.map_values(|x: Version| x@);
    let mut sorted = sorted;
    if sorted.len() == 0 {
        let ghost vv = v@;
        sorted.push(v);
        proof {
            assert(sorted@.map_values(|x: Version| x@) =~= m.push(vv));
            assert(tags_sorted(sorted@.map_values(|x: Version| x@)));
        }
        sorted
    } else if !v.key_less(&sorted[sorted.len() - 1]) {
        proof {
            assert(m.last() == sorted@[sorted@.len() - 1]@);
        }
        let ghost vv = v@;
        sorted.push(v);
        proof {
            let out_m = sorted@.map_values(|x: Version| x@);
            assert(out_m =~= m.push(vv));
            assert forall|i: int, j: int|
                0 <= i < j < out_m.len() implies !version_lt(
                #[trigger] out_m[j],
                #[trigger] out_m[i],
            ) by {
                if j == out_m.len() - 1 && version_lt(vv, out_m[i]) {
                    lemma_version_order_trichotomy(m.last(), out_m[i]);
                    lemma_version_order_trichotomy(vv, m.last());
                    if version_key_eq(m.last(), out_m[i]) {
                        if version_key_eq(vv, m.last()) {
                            lemma_version_key_eq_trans(vv, m.last(), out_m[i]);
                            lemma_version_key_eq_not_lt(vv, out_m[i]);
                        } else {
                            assert(version_lt(m.last(), vv));
                            lemma_version_lt_trans(m.last(), vv, out_m[i]);
                            assert(i < m.len() - 1 ==> !version_lt(m.last(), m[i]));
                        }
                    } else if version_lt(out_m[i], m.last()) {
                        lemma_version_lt_trans(vv, out_m[i], m.last());
                        if version_key_eq(vv, m.last()) {
                            lemma_version_key_eq_not_lt(vv, m.last());
                        } else {
                            lemma_version_lt_asym(vv, m.last());
                        }
                    }
                }
            }
        }
        sorted
    } else {
        let last = sorted.pop().unwrap();
        proof {
            assert(sorted@.map_values(|x: Version| x@) =~= m.drop_last());
            assert(tags_sorted(m.drop_last())) by {
                assert(forall|i: int|
                    0 <= i < m.drop_last().len() ==> #[trigger] m.drop_last()[i] == m[i]);
            }
        }
        let mut out = insert_tag(sorted, v);
        let ghost inner = out@.map_values(|x: Version| x@);
        let ghost lv = last@;
        let ghost vv = v@;
        out.push(last);
        proof {
            let out_m = out@.map_values(|x: Version| x@);
            assert(out_m =~= inner.push(lv));
            assert forall|i: int, j: int|
                0 <= i < j < out_m.len() implies !version_lt(
                #[trigger] out_m[j],
                #[trigger] out_m[i],
            ) by {
                if j == out_m.len() - 1 && version_lt(lv, out_m[i]) {
                    assert(inner.contains(inner[i]));
                    assert(inner.to_multiset().count(inner[i]) > 0);
                    assert(inner.to_multiset() =~= m.drop_last().to_multiset().insert(vv));
                    if inner[i] == vv {
                        lemma_version_lt_asym(lv, vv);
                    } else {
                        assert(m.drop_last().to_multiset().count(inner[i]) > 0);
                        assert(m.drop_last().contains(inner[i]));
                        let k = choose|k: int|
                            0 <= k < m.drop_last().len() && m.drop_last()[k] == inner[i];
                        assert(m[k] == inner[i]);
                        assert(!version_lt(m.last(), m[k]));
                    }
                }
            }
            assert(out_m.to_multiset() =~= m.to_multiset().insert(vv)) by {
                assert(m =~= m.drop_last().push(lv));
                assert(m.to_multiset() =~= m.drop_last().to_multiset().insert(lv));
            }
        }
        out
    }
}

/// The version tags among the given texts, the run sorted ascending by the
/// stored-release key order; a text that does not read as a version is
/// dropped.
pub fn parse_tags(texts: &Vec<String>) -> (out: Vec<Version>)
    ensures
        tags_sorted(out@.map_values(|x: Version| x@)),
        out@.map_values(|x: Version| x@).to_multiset() == spec_parsed_tags(
            texts.deep_view(),
        ).to_multiset(),
{
    broadcast use vstd::seq_lib::group_to_multiset_ensures;

    let ghost m = texts.deep_view();
    let mut out: Vec<Version> = Vec::new();
    let mut i: usize = 0;
    proof {
        assert(out@.map_values(|x: Version| x@) =~= Seq::<VersionV>::empty());
        assert(out@.map_values(|x: Version| x@).to_multiset() =~= spec_parsed_tags(
            m.take(0),
        ).to_multiset());
    }
    while i < texts.len()
        invariant
            0 <= i <= texts@.len(),
            m == texts.deep_view(),
            m.len() == texts@.len(),
            tags_sorted(out@.map_values(|x: Version| x@)),
            out@.map_values(|x: Version| x@).to_multiset() == spec_parsed_tags(
                m.take(i as int),
            ).to_multiset(),
        decreases texts@.len() - i,
    {
        proof {
            assert(m.take(i + 1).drop_last() =~= m.take(i as int));
            assert(m.take(i + 1).last() == m[i as int]);
            assert(m[i as int] == texts@[i as int]@);
        }
        match Version::parse(texts[i].as_str()) {
            Ok(v) => {
                let ghost prev = out@.map_values(|x: Version| x@);
                let ghost vv = v@;
                out = insert_tag(out, v);
                proof {
                    broadcast use vstd::seq_lib::group_to_multiset_ensures;

                    assert(spec_parsed_tags(m.take(i + 1)) =~= spec_parsed_tags(
                        m.take(i as int),
                    ).push(vv));
                    assert(spec_parsed_tags(m.take(i + 1)).to_multiset() =~= spec_parsed_tags(
                        m.take(i as int),
                    ).to_multiset().insert(vv));
                }
            },
            Err(_) => {},
        }
        i = i + 1;
    }
    proof {
        assert(m.take(i as int) =~= m);
    }
    out
}

/// Pick the version a promotion uses from the explicit argument and the tag
/// list the repository answered with: the explicit version wins; else the
/// last tag, the list being ascending; with neither there is no version to
/// promote to.
pub fn select_new_version(explicit: Option<Version>, tags: Vec<Version>) -> (out: Result<
    Version,
    Error,
>)
    ensures
        (match explicit {
            Some(v) => out matches Ok(o) && o@ == v@,
            None => {
                &&& (tags@.len() > 0 ==> (out matches Ok(o) && o@ == tags@.last()@))
                &&& (tags@.len() == 0 ==> out == Err::<Version, Error>(
                    Error::NoVersionAvailable,
                ))
            },
        }),
{
    match explicit {
        Some(v) => Ok(v),
        None => {
            let mut tags = tags;
            match tags.pop() {
                Some(v) => Ok(v),
                None => Err(Error::NoVersionAvailable),
            }
        },
    }
}

/// The version a promotion uses: the one given, else the most recent tag of
/// the repository (through [`select_new_version`]); a failing tag source is
/// handed on unchanged.
pub fn try_detect_new_version<R: Repository>(r: &R, new: Option<Version>) -> (out: Result<
    Version,
    Error,
>)
    ensures
        new matches Some(v) ==> (out matches Ok(o) && o@ == v@),
{
    match new {
        Some(v) => Ok(v),
        None => {
            match r.tags_list() {
                Ok(tags) => select_new_version(None, tags),
                Err(e) => Err(e),
            }
        },
    }
}

} // verus!
