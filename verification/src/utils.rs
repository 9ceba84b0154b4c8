//! Addressing helpers over the document: the reserved staging label, the
//! last version, nth-release addressing, and materializing the default
//! staging release.

use vstd::prelude::*;

use crate::error::Error;
use crate::model::{
    ChangeLog, Release, ReleaseEntry, default_unreleased, spec_default_unreleased,
};
use crate::version::Version;

verus! {

/// The staging release a document answers with when it has none of its own.
pub open spec fn spec_unreleased_or(u: Option<crate::model::ReleaseV>) -> crate::model::ReleaseV {
    match u {
        Some(r) => r,
        None => spec_default_unreleased(),
    }
}

impl ChangeLog {
    /// The highest stored version, if any release is stored.
    pub fn last_version(&self) -> (r: Option<Version>)
        ensures
            r matches Some(v) ==> self@.releases.len() > 0 && v@ == self@.releases.last().version,
            r is None <==> self@.releases.len() == 0,
    {
        if self.releases.len() == 0 {
            None
        } else {
            Some(self.releases[self.releases.len() - 1].version.duplicate())
        }
    }

    /// Make sure the staging release is there, materializing the canonical
    /// empty one when it was missing.
    pub fn unreleased_or_default(&mut self)
        ensures
            final(self)@ == (crate::model::ChangeLogV {
                unreleased: Some(spec_unreleased_or(old(self)@.unreleased)),
                ..old(self)@
            }),
    {
        if self.unreleased.is_none() {
            self.unreleased = Some(default_unreleased());
        }
        proof {
            assert(self@ =~= (crate::model::ChangeLogV {
                unreleased: Some(spec_unreleased_or(old(self)@.unreleased)),
                ..old(self)@
            }));
        }
    }

    /// The stored releases, most recent version first.
    pub fn releases(&self) -> (r: Vec<Release>)
        ensures
            r@.len() == self@.releases.len(),
            forall|i: int|
                0 <= i < r@.len() ==> (#[trigger] r@[i])@ == self@.releases[self@.releases.len()
                    - 1 - i].release,
    {
        let mut out: Vec<Release> = Vec::new();
        let mut i: usize = self.releases.len();
        while i > 0
            invariant
                0 <= i <= self.releases@.len(),
                out@.len() == self.releases@.len() - i,
                forall|k: int|
                    0 <= k < out@.len() ==> (#[trigger] out@[k])@ == self@.releases[self@
                        .releases.len() - 1 - k].release,
            decreases i,
        {
            i = i - 1;
            out.push(self.releases[i].release.duplicate());
        }
        out
    }

    /// The stored version keys, most recent first.
    pub fn releases_keys(&self) -> (r: Vec<Version>)
        ensures
            r@.len() == self@.releases.len(),
            forall|i: int|
                0 <= i < r@.len() ==> (#[trigger] r@[i])@ == self@.releases[self@.releases.len()
                    - 1 - i].version,
    {
        let mut out: Vec<Version> = Vec::new();
        let mut i: usize = self.releases.len();
        while i > 0
            invariant
                0 <= i <= self.releases@.len(),
                out@.len() == self.releases@.len() - i,
                forall|k: int|
                    0 <= k < out@.len() ==> (#[trigger] out@[k])@ == self@.releases[self@
                        .releases.len() - 1 - k].version,
            decreases i,
        {
            i = i - 1;
            out.push(self.releases[i].version.duplicate());
        }
        out
    }

    /// The stored releases with their keys, most recent first.
    pub fn releases_full(&self) -> (r: Vec<ReleaseEntry>)
        ensures
            r@.len() == self@.releases.len(),
            forall|i: int|
                0 <= i < r@.len() ==> (#[trigger] r@[i])@ == self@.releases[self@.releases.len()
                    - 1 - i],
    {
        let mut out: Vec<ReleaseEntry> = Vec::new();
        let mut i: usize = self.releases.len();
        while i > 0
            invariant
                0 <= i <= self.releases@.len(),
                out@.len() == self.releases@.len() - i,
                forall|k: int|
                    0 <= k < out@.len() ==> (#[trigger] out@[k])@ == self@.releases[self@
                        .releases.len() - 1 - k],
            decreases i,
        {
            i = i - 1;
            let entry = ReleaseEntry {
                version: self.releases[i].version.duplicate(),
                release: self.releases[i].release.duplicate(),
            };
            proof {
                assert(entry@ =~= self@.releases[i as int]);
            }
            out.push(entry);
        }
        out
    }
}

/// One addressed release: the staging one, or a stored one with its key.
#[derive(Debug, Clone, PartialEq, Eq)]
pub enum NthRelease {
    Unreleased(Release),
    Released(Version, Release),
}

impl NthRelease {
    /// The release itself, the key dropped.
    pub fn release(self) -> (r: Release)
        ensures
            r@ == (match self {
                NthRelease::Unreleased(e) => e@,
                NthRelease::Released(_, e) => e@,
            }),
    {
        match self {
            NthRelease::Unreleased(e) => e,
            NthRelease::Released(_, e) => e,
        }
    }

    /// An identical addressed release.
    pub fn owned(&self) -> (r: NthRelease)
        ensures
            (match (self, r) {
                (NthRelease::Unreleased(a), NthRelease::Unreleased(b)) => a@ == b@,
                (NthRelease::Released(va, a), NthRelease::Released(vb, b)) => va@ == vb@ && a@
                    == b@,
                _ => false,
            }),
    {
        match self {
            NthRelease::Unreleased(e) => NthRelease::Unreleased(e.duplicate()),
            NthRelease::Released(v, e) => NthRelease::Released(v.duplicate(), e.duplicate()),
        }
    }
}

impl ChangeLog {
    /// Address a release by index: `-1` is the staging release, materialized
    /// as the canonical default when missing, so that it always answers; `0`
    /// is the most recently released version, `1` the next older one, and so
    /// on; anything below `-1` or past the oldest release is an addressing
    /// error.
    pub fn nth_release(&self, n: i32) -> (r: Result<NthRelease, Error>)
        ensures
            r is Ok <==> (n == -1 || (0 <= n && n < self@.releases.len())),
            n == -1 ==> (r matches Ok(NthRelease::Unreleased(u)) && u@ == spec_unreleased_or(
                self@.unreleased,
            )),
            (0 <= n && n < self@.releases.len()) ==> (r matches Ok(
                NthRelease::Released(v, rel),
            ) && v@ == self@.releases[self@.releases.len() - 1 - n].version && rel@ == self@
                .releases[self@.releases.len() - 1 - n].release),
            r is Err ==> r->Err_0 == (Error::AddressingError { n }),
    {
        if n < -1 {
            return Err(Error::AddressingError { n });
        }
        if n == -1 {
            match &self.unreleased {
                Some(u) => {
                    return Ok(NthRelease::Unreleased(u.duplicate()));
                },
                None => {
                    return Ok(NthRelease::Unreleased(default_unreleased()));
                },
            }
        }
        let idx = n as usize;
        if idx >= self.releases.len() {
            return Err(Error::AddressingError { n });
        }
        let at = self.releases.len() - 1 - idx;
        Ok(
            NthRelease::Released(
                self.releases[at].version.duplicate(),
                self.releases[at].release.duplicate(),
            ),
        )
    }
}

} // verus!
