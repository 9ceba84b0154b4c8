//! The options the workflows run with, and the map from commit types to
//! changelog sections.

use vstd::prelude::*;

use crate::provider::GitProvider;
use crate::text::{contains_seq, lower_of, lowercase, str_contains, str_eq};
use crate::version::Version;

verus! {

/// How strictly a commit message has to follow the conventional syntax.
#[derive(Debug, Clone, PartialEq, Eq)]
pub enum CommitMessageParsing {
    Smart,
    Strict,
}

impl Default for CommitMessageParsing {
    /// Best-effort parsing.
    fn default() -> (r: CommitMessageParsing)
        ensures
            r == CommitMessageParsing::Smart,
    {
        CommitMessageParsing::Smart
    }
}

/// Whether pre-release builds of the promoted triple are folded in.
#[derive(Debug, Clone, PartialEq, Eq)]
pub enum MergeDevVersions {
    /// Fold them in when the promoted version is stable.
    Auto,
    No,
    Yes,
}

impl Default for MergeDevVersions {
    /// Fold stable promotions.
    fn default() -> (r: MergeDevVersions)
        ensures
            r == MergeDevVersions::Auto,
    {
        MergeDevVersions::Auto
    }
}

/// The map from commit types to section titles: for each section, the
/// needles that identify it, in order of priority.
#[derive(Debug, Clone, PartialEq, Eq)]
pub struct MapMessageToSection(pub Vec<(String, Vec<String>)>);

impl View for MapMessageToSection {
    type V = Seq<(Seq<char>, Seq<Seq<char>>)>;

    open spec fn view(&self) -> Seq<(Seq<char>, Seq<Seq<char>>)> {
        self.0@.map_values(|p: (String, Vec<String>)| (p.0@, p.1.deep_view()))
    }
}

/// A needle of the pair matches the section text, both lower-cased.
pub open spec fn pair_maps(p: (Seq<char>, Seq<Seq<char>>), section: Seq<char>) -> bool {
    exists|k: int| 0 <= k < p.1.len() && lower_of(#[trigger] p.1[k]) == lower_of(section)
}

/// The first section whose needles match the commit type, if any.
pub open spec fn spec_map_section(
    pairs: Seq<(Seq<char>, Seq<Seq<char>>)>,
    section: Seq<char>,
) -> Option<Seq<char>>
    decreases pairs.len(),
{
    if pairs.len() == 0 {
        None
    } else if pair_maps(pairs.first(), section) {
        Some(pairs.first().0)
    } else {
        spec_map_section(pairs.drop_first(), section)
    }
}

/// A needle of the pair occurs in the message or the description, all
/// lower-cased.
pub open spec fn pair_hits(p: (Seq<char>, Seq<Seq<char>>), msg: Seq<char>, desc: Seq<char>) -> bool {
    exists|k: int|
        0 <= k < p.1.len() && (contains_seq(msg, lower_of(#[trigger] p.1[k])) || contains_seq(
            desc,
            lower_of(p.1[k]),
        ))
}

/// The first section one of whose needles occurs in the lower-cased message
/// or description, if any.
pub open spec fn spec_find_section(
    pairs: Seq<(Seq<char>, Seq<Seq<char>>)>,
    msg: Seq<char>,
    desc: Seq<char>,
) -> Option<Seq<char>>
    decreases pairs.len(),
{
    if pairs.len() == 0 {
        None
    } else if pair_hits(pairs.first(), msg, desc) {
        Some(pairs.first().0)
    } else {
        spec_find_section(pairs.drop_first(), msg, desc)
    }
}

impl MapMessageToSection {
    /// The section this commit type belongs to, matching a needle exactly,
    /// case aside.
    pub fn map_section(&self, section: &str) -> (r: Option<String>)
        ensures
            (match r {
                Some(t) => spec_map_section(self@, section@) == Some(t@),
                None => spec_map_section(self@, section@) is None,
            }),
    {
        let normalized = lowercase(section);
        let ghost m = self@;
        let mut i: usize = 0;
        proof {
            assert(m.skip(0) =~= m);
        }
        while i < self.0.len()
            invariant
                0 <= i <= self.0@.len(),
                m == self@,
                m.len() == self.0@.len(),
                normalized@ == lower_of(section@),
                spec_map_section(m, section@) == spec_map_section(m.skip(i as int), section@),
            decreases self.0@.len() - i,
        {
            proof {
                assert(m.skip(i as int).first() == m[i as int]);
                assert(m.skip(i as int).drop_first() =~= m.skip(i + 1));
                assert(m[i as int].0 == self.0@[i as int].0@);
                assert(m[i as int].1 == self.0@[i as int].1.deep_view());
            }
            let needles = &self.0[i].1;
            let mut k: usize = 0;
            while k < needles.len()
                invariant
                    0 <= k <= needles@.len(),
                    m == self@,
                    m.len() == self.0@.len(),
                    0 <= i < m.len(),
                    normalized@ == lower_of(section@),
                    needles@ == self.0@[i as int].1@,
                    m[i as int].1 == self.0@[i as int].1.deep_view(),
                    m[i as int].0 == self.0@[i as int].0@,
                    spec_map_section(m, section@) == spec_map_section(
                        m.skip(i as int),
                        section@,
                    ),
                    forall|q: int|
                        0 <= q < k ==> lower_of(#[trigger] m[i as int].1[q]) != lower_of(
                            section@,
                        ),
                decreases needles@.len() - k,
            {
                let needle_normalized = lowercase(needles[k].as_str());
                proof {
                    assert(m[i as int].1[k as int] == needles@[k as int]@);
                }
                if str_eq(normalized.as_str(), needle_normalized.as_str()) {
                    proof {
                        assert(pair_maps(m[i as int], section@));
                        assert(m.skip(i as int).first() == m[i as int]);
                    }
                    return Some(self.0[i].0.clone());
                }
                k = k + 1;
            }
            proof {
                assert(!pair_maps(m[i as int], section@));
            }
            i = i + 1;
        }
        proof {
            assert(m.skip(i as int) =~= Seq::<(Seq<char>, Seq<Seq<char>>)>::empty());
        }
        None
    }

    /// Best-effort recognition: the section one of whose needles occurs in
    /// the commit message or its description, case aside.
    pub fn try_find_section(&self, message: &str, desc: &str) -> (r: Option<String>)
        ensures
            (match r {
                Some(t) => spec_find_section(self@, lower_of(message@), lower_of(desc@)) == Some(
                    t@,
                ),
                None => spec_find_section(self@, lower_of(message@), lower_of(desc@)) is None,
            }),
    {
        let message_normalized = lowercase(message);
        let desc_normalized = lowercase(desc);
        let ghost mn = lower_of(message@);
        let ghost dn = lower_of(desc@);
        let ghost m = self@;
        let mut i: usize = 0;
        proof {
            assert(m.skip(0) =~= m);
        }
        while i < self.0.len()
            invariant
                0 <= i <= self.0@.len(),
                m == self@,
                m.len() == self.0@.len(),
                message_normalized@ == mn && mn == lower_of(message@),
                desc_normalized@ == dn && dn == lower_of(desc@),
                spec_find_section(m, mn, dn) == spec_find_section(m.skip(i as int), mn, dn),
            decreases self.0@.len() - i,
        {
            proof {
                assert(m.skip(i as int).first() == m[i as int]);
                assert(m.skip(i as int).drop_first() =~= m.skip(i + 1));
                assert(m[i as int].0 == self.0@[i as int].0@);
                assert(m[i as int].1 == self.0@[i as int].1.deep_view());
            }
            let needles = &self.0[i].1;
            let mut k: usize = 0;
            while k < needles.len()
                invariant
                    0 <= k <= needles@.len(),
                    m == self@,
                    m.len() == self.0@.len(),
                    0 <= i < m.len(),
                    message_normalized@ == mn,
                    desc_normalized@ == dn,
                    needles@ == self.0@[i as int].1@,
                    m[i as int].1 == self.0@[i as int].1.deep_view(),
                    m[i as int].0 == self.0@[i as int].0@,
                    spec_find_section(m, mn, dn) == spec_find_section(m.skip(i as int), mn, dn),
                    mn == lower_of(message@),
                    dn == lower_of(desc@),
                    forall|q: int|
                        0 <= q < k ==> !(contains_seq(mn, lower_of(#[trigger] m[i as int].1[q]))
                            || contains_seq(dn, lower_of(m[i as int].1[q]))),
                decreases needles@.len() - k,
            {
                let needle_normalized = lowercase(needles[k].as_str());
                proof {
                    assert(m[i as int].1[k as int] == needles@[k as int]@);
                }
                if str_contains(message_normalized.as_str(), needle_normalized.as_str())
                    || str_contains(desc_normalized.as_str(), needle_normalized.as_str()) {
                    proof {
                        assert(pair_hits(m[i as int], mn, dn));
                        assert(m.skip(i as int).first() == m[i as int]);
                    }
                    return Some(self.0[i].0.clone());
                }
                k = k + 1;
            }
            proof {
                assert(!pair_hits(m[i as int], mn, dn));
            }
            i = i + 1;
        }
        proof {
            assert(m.skip(i as int) =~= Seq::<(Seq<char>, Seq<Seq<char>>)>::empty());
        }
        None
    }

    /// The sort options this map induces: its section titles in order, with
    /// scope grouping on.
    pub fn to_fmt_options(&self) -> (r: crate::fmt::Options)
        ensures
            r.sort_options.section_order.deep_view().len() == self@.len(),
            forall|i: int|
                0 <= i < self@.len() ==> r.sort_options.section_order.deep_view()[i] == (
                #[trigger] self@[i]).0,
            r.sort_options.sort_scope,
    {
        let mut order: Vec<String> = Vec::new();
        let mut i: usize = 0;
        while i < self.0.len()
            invariant
                0 <= i <= self.0@.len(),
                order@.len() == i,
                forall|k: int|
                    0 <= k < i ==> order.deep_view()[k] == (#[trigger] self@[k]).0,
            decreases self.0@.len() - i,
        {
            order.push(self.0[i].0.clone());
            proof {
                assert(order.deep_view()[i as int] == self.0@[i as int].0@);
            }
            i = i + 1;
        }
        crate::fmt::Options {
            sort_options: crate::fmt::SortOptions { section_order: order, sort_scope: true },
        }
    }

    /// The serializer options this map induces: the defaults.
    pub fn into_changelog_ser_options(&self) -> (r: crate::ser::Options)
        ensures
            r.release_option.serialize_title,
    {
        crate::ser::Options {
            release_option: crate::ser::OptionsRelease { serialize_title: true },
        }
    }
}

/// The options of the generate workflow.
#[derive(Debug, Clone, PartialEq, Eq)]
pub struct Generate {
    pub file: Option<String>,
    pub map: Option<String>,
    pub parsing: CommitMessageParsing,
    pub exclude_unidentified: bool,
    pub exclude_not_pr: bool,
    pub provider: GitProvider,
    pub repo: Option<String>,
    pub omit_pr_link: bool,
    pub omit_thanks: bool,
    pub stdout: bool,
    pub specific: Option<String>,
    pub milestone: Option<String>,
    pub since: Option<String>,
    pub until: Option<String>,
}

/// The options of the release workflow.
#[derive(Debug, Clone, PartialEq, Eq)]
pub struct Release {
    pub file: Option<String>,
    pub version: Option<Version>,
    pub previous_version: Option<Version>,
    pub provider: GitProvider,
    pub repo: Option<String>,
    pub omit_diff: bool,
    pub force: bool,
    pub header: Option<String>,
    pub merge_dev_versions: MergeDevVersions,
    pub stdout: bool,
}

/// The options of the validate workflow.
#[derive(Debug, Clone, PartialEq, Eq)]
pub struct Validate {
    pub file: Option<String>,
    pub format: bool,
    pub map: Option<String>,
    pub ast: bool,
    pub stdout: bool,
}

/// The options of the new-file workflow.
#[derive(Debug, Clone, PartialEq, Eq)]
pub struct New {
    pub path: Option<String>,
    pub force: bool,
}

} // verus!
