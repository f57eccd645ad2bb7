use vstd::prelude::*;

verus! {

/// Life-cycle state of one version of a value.
#[derive(Debug, Clone, Copy, PartialEq, Eq, Structural, PartialOrd, Ord, Hash)]
pub enum VersionStatus {
    Active,
    Commit,
    Abort,
    DeleteActive,
    DeleteCommit,
}

/// Bookkeeping attached to each version.
#[derive(Debug, Clone, Copy, PartialEq, Eq, Structural, PartialOrd, Ord, Hash)]
pub struct VersionInfo {
    pub version_status: VersionStatus,
    pub vid: u32,
}

/// One version of the value stored under a key: the value, the transaction
/// that created it (`xmin`) and the one that ended it (`xmax`, `None` while it
/// is the live version).
#[derive(Debug, Clone, PartialEq, Eq, PartialOrd, Ord, Hash)]
pub struct Version {
    pub value: String,
    pub xmin: u32,
    pub xmax: Option<u32>,
    pub version_info: VersionInfo,
}

impl Version {
    /// A fresh, live version created by transaction `txn`.
    pub fn fresh(value: String, txn: u32) -> (r: Version)
        ensures
            r.value == value,
            r.xmin == txn,
            r.xmax is None,
            r.version_info == (VersionInfo { version_status: VersionStatus::Active, vid: 0 }),
    {
        Version {
            value,
            xmin: txn,
            xmax: None,
            version_info: VersionInfo { version_status: VersionStatus::Active, vid: 0 },
        }
    }

    /// A copy of this version, equal to it.
    pub fn duplicate(&self) -> (r: Version)
        ensures
            r == *self,
    {
        Version {
            value: self.value.clone(),
            xmin: self.xmin,
            xmax: self.xmax,
            version_info: self.version_info,
        }
    }
}

/// Two versions hold the same value text, creator, ender and bookkeeping.
pub open spec fn version_same(a: Version, b: Version) -> bool {
    &&& a.value@ == b.value@
    &&& a.xmin == b.xmin
    &&& a.xmax == b.xmax
    &&& a.version_info == b.version_info
}

/// Two lists of versions agree version by version.
pub open spec fn versions_same(a: Seq<Version>, b: Seq<Version>) -> bool {
    &&& a.len() == b.len()
    &&& forall|i: int| 0 <= i < a.len() ==> version_same(#[trigger] a[i], b[i])
}

/// Compares two versions field by field.
pub fn version_equal(a: &Version, b: &Version) -> (r: bool)
    ensures
        r == version_same(*a, *b),
{
    let same_xmax = match (a.xmax, b.xmax) {
        (Some(x), Some(y)) => x == y,
        (None, None) => true,
        _ => false,
    };
    a.value == b.value && a.xmin == b.xmin && same_xmax && a.version_info == b.version_info
}

/// Compares two lists of versions element by element.
pub fn versions_equal(a: &Vec<Version>, b: &Vec<Version>) -> (r: bool)
    ensures
        r == versions_same(a@, b@),
{
    if a.len() != b.len() {
        return false;
    }
    let mut i: usize = 0;
    while i < a.len()
        invariant
            a@.len() == b@.len(),
            i <= a@.len(),
            forall|k: int| 0 <= k < i ==> version_same(#[trigger] a@[k], b@[k]),
        decreases a@.len() - i,
    {
        if !version_equal(&a[i], &b[i]) {
            return false;
        }
        i += 1;
    }
    true
}

/// A copy of a list of versions, equal element by element.
pub fn duplicate_versions(v: &Vec<Version>) -> (r: Vec<Version>)
    ensures
        r@ == v@,
{
    let mut r: Vec<Version> = Vec::new();
    let mut i: usize = 0;
    while i < v.len()
        invariant
            i <= v.len(),
            r@ == v@.take(i as int),
        decreases v.len() - i,
    {
        r.push(v[i].duplicate());
        assert(v@.take(i as int).push(v@[i as int]) =~= v@.take(i + 1));
        i += 1;
    }
    assert(v@.take(v@.len() as int) =~= v@);
    r
}

} // verus!
