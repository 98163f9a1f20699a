use vstd::prelude::*;
use crate::paths::NormPath;

verus! {

/// The category of origin a package's content lives at.
#[derive(Clone, Copy, PartialEq, Eq, Structural, Debug)]
pub enum SourceKind {
    /// A directory on the local filesystem.
    LocalPath,
    /// A remote package registry.
    Registry,
    /// A version-control checkout.
    Vcs,
}

/// Identifies where a package's content lives. Two identifiers denote the
/// same content origin exactly when their views are equal.
#[derive(Debug)]
pub struct SourceId {
    pub kind: SourceKind,
    /// The origin's address in canonical spelling: a filesystem path, a
    /// registry address plus version, or a version-control URL plus revision.
    pub locator: String,
}

impl View for SourceId {
    type V = (SourceKind, Seq<char>);

    open spec fn view(&self) -> (SourceKind, Seq<char>) {
        (self.kind, self.locator@)
    }
}

impl SourceId {
    /// Whether two identifiers denote the same content origin.
    pub fn same_source(&self, other: &SourceId) -> (r: bool)
        ensures
            r == (self@ == other@),
    {
        self.kind == other.kind && self.locator.eq(&other.locator)
    }

    /// An exact copy of the identifier.
    pub fn duplicate(&self) -> (r: SourceId)
        ensures
            r == *self,
    {
        SourceId { kind: self.kind, locator: self.locator.clone() }
    }
}

/// The unique key of one resolvable package: its name and pinned version.
#[derive(Debug)]
pub struct NodeIdentity {
    pub name: String,
    pub version: String,
}

impl View for NodeIdentity {
    type V = (Seq<char>, Seq<char>);

    open spec fn view(&self) -> (Seq<char>, Seq<char>) {
        (self.name@, self.version@)
    }
}

impl NodeIdentity {
    /// Whether two identities name the same package at the same version.
    pub fn same_identity(&self, other: &NodeIdentity) -> (r: bool)
        ensures
            r == (self@ == other@),
    {
        self.name.eq(&other.name) && self.version.eq(&other.version)
    }

    /// An exact copy of the identity.
    pub fn duplicate(&self) -> (r: NodeIdentity)
        ensures
            r == *self,
    {
        NodeIdentity { name: self.name.clone(), version: self.version.clone() }
    }
}

/// One entry of a lockfile: a package identity together with the source
/// identifier the resolver pinned it to.
pub struct Node {
    pub identity: NodeIdentity,
    pub source: SourceId,
}

/// A fully resolved dependency closure for one root package: the lockfile's
/// nodes. Well-formed graphs pin each identity exactly once.
pub struct LockfileGraph {
    pub nodes: Vec<Node>,
}

impl LockfileGraph {
    /// No two nodes share an identity: each package is pinned to exactly one
    /// resolved version.
    pub open spec fn wf(&self) -> bool {
        forall|i: int, j: int|
            0 <= i < j < self.nodes@.len() ==> self.nodes@[i].identity@ != self.nodes@[j].identity@
    }

    /// Decides well-formedness, for validating a freshly loaded lockfile.
    pub fn well_formed(&self) -> (r: bool)
        ensures
            r == self.wf(),
    {
        let n = self.nodes.len();
        let mut i: usize = 0;
        while i < n
            invariant
                i <= n,
                n == self.nodes@.len(),
                forall|p: int, q: int|
                    0 <= p < q < n && p < i ==> self.nodes@[p].identity@ != self.nodes@[q].identity@,
            decreases n - i,
        {
            let mut j: usize = i + 1;
            while j < n
                invariant
                    i < j <= n,
                    n == self.nodes@.len(),
                    forall|q: int| i < q < j ==> self.nodes@[i as int].identity@ != self.nodes@[q].identity@,
                decreases n - j,
            {
                if self.nodes[i].identity.same_identity(&self.nodes[j].identity) {
                    return false;
                }
                j = j + 1;
            }
            i = i + 1;
        }
        true
    }
}

/// A record of one package's resolution: its identity, the directory its
/// manifest was read from, and the owning source identifier.
pub struct PackageDescriptor {
    pub identity: NodeIdentity,
    pub manifest_dir: NormPath,
    pub source: SourceId,
}

/// Why fetching a source failed.
#[derive(Clone, Copy, PartialEq, Eq, Structural, Debug)]
pub enum FetchCause {
    Network,
    Auth,
    NotFound,
    Io,
}

/// What updating a source leaves behind: current local content, or a failure.
pub enum UpdateOutcome {
    Updated,
    Failed(FetchCause),
}

/// What enumerating a package's files yields: the file paths below the
/// package's own directory, or a local read failure.
pub enum ListOutcome {
    Files(Vec<NormPath>),
    IoFailure,
}

/// One package as a source holds it after an update.
pub struct TablePackage {
    pub descriptor: PackageDescriptor,
    pub listing: ListOutcome,
}

/// One source's post-update content.
pub struct SourceEntry {
    pub id: SourceId,
    pub update: UpdateOutcome,
    pub packages: Vec<TablePackage>,
}

/// The world of sources a walk runs against: for every reachable source
/// identifier, what updating it yields and which packages it then holds.
/// An identifier absent from the table has no reachable content: updating it
/// fails with a not-found cause.
pub struct SourceTable {
    pub entries: Vec<SourceEntry>,
}

/// The first entry bound to `id`, if any.
pub open spec fn find_entry(entries: Seq<SourceEntry>, id: (SourceKind, Seq<char>)) -> Option<
    SourceEntry,
>
    decreases entries.len(),
{
    if entries.len() == 0 {
        Option::None
    } else if entries[0].id@ == id {
        Option::Some(entries[0])
    } else {
        find_entry(entries.drop_first(), id)
    }
}

/// The first package of an entry whose descriptor carries `ident`, if any.
pub open spec fn find_package(packages: Seq<TablePackage>, ident: (Seq<char>, Seq<char>)) -> Option<
    TablePackage,
>
    decreases packages.len(),
{
    if packages.len() == 0 {
        Option::None
    } else if packages[0].descriptor.identity@ == ident {
        Option::Some(packages[0])
    } else {
        find_package(packages.drop_first(), ident)
    }
}

/// A prefix free of matches does not decide an entry lookup.
proof fn lemma_find_entry_skip(entries: Seq<SourceEntry>, id: (SourceKind, Seq<char>), i: int)
    requires
        0 <= i <= entries.len(),
        forall|j: int| 0 <= j < i ==> entries[j].id@ != id,
    ensures
        find_entry(entries, id) == find_entry(entries.skip(i), id),
    decreases i,
{
    if i > 0 {
        lemma_find_entry_skip(entries.drop_first(), id, i - 1);
        assert(entries.drop_first().skip(i - 1) =~= entries.skip(i));
    } else {
        assert(entries.skip(0) =~= entries);
    }
}

/// A prefix free of matches does not decide a package lookup.
proof fn lemma_find_package_skip(packages: Seq<TablePackage>, ident: (Seq<char>, Seq<char>), i: int)
    requires
        0 <= i <= packages.len(),
        forall|j: int| 0 <= j < i ==> packages[j].descriptor.identity@ != ident,
    ensures
        find_package(packages, ident) == find_package(packages.skip(i), ident),
    decreases i,
{
    if i > 0 {
        lemma_find_package_skip(packages.drop_first(), ident, i - 1);
        assert(packages.drop_first().skip(i - 1) =~= packages.skip(i));
    } else {
        assert(packages.skip(0) =~= packages);
    }
}

impl SourceTable {
    /// The entry bound to `id`, if any.
    pub fn entry_for<'a>(&'a self, id: &SourceId) -> (r: Option<&'a SourceEntry>)
        ensures
            match r {
                Option::Some(e) => find_entry(self.entries@, id@) == Option::Some(*e),
                Option::None => find_entry(self.entries@, id@) is None,
            },
    {
        let n = self.entries.len();
        let mut i: usize = 0;
        while i < n
            invariant
                i <= n,
                n == self.entries@.len(),
                forall|j: int| 0 <= j < i ==> self.entries@[j].id@ != id@,
            decreases n - i,
        {
            if self.entries[i].id.same_source(id) {
                proof {
                    lemma_find_entry_skip(self.entries@, id@, i as int);
                    assert(self.entries@.skip(i as int)[0] == self.entries@[i as int]);
                }
                return Option::Some(&self.entries[i]);
            }
            i = i + 1;
        }
        proof {
            lemma_find_entry_skip(self.entries@, id@, n as int);
            assert(self.entries@.skip(n as int) =~= Seq::<SourceEntry>::empty());
        }
        Option::None
    }
}

impl SourceEntry {
    /// The package carrying `ident`, if this source holds one.
    pub fn package_for<'a>(&'a self, ident: &NodeIdentity) -> (r: Option<&'a TablePackage>)
        ensures
            match r {
                Option::Some(p) => find_package(self.packages@, ident@) == Option::Some(*p),
                Option::None => find_package(self.packages@, ident@) is None,
            },
    {
        let n = self.packages.len();
        let mut i: usize = 0;
        while i < n
            invariant
                i <= n,
                n == self.packages@.len(),
                forall|j: int| 0 <= j < i ==> self.packages@[j].descriptor.identity@ != ident@,
            decreases n - i,
        {
            if self.packages[i].descriptor.identity.same_identity(ident) {
                proof {
                    lemma_find_package_skip(self.packages@, ident@, i as int);
                    assert(self.packages@.skip(i as int)[0] == self.packages@[i as int]);
                }
                return Option::Some(&self.packages[i]);
            }
            i = i + 1;
        }
        proof {
            lemma_find_package_skip(self.packages@, ident@, n as int);
            assert(self.packages@.skip(n as int) =~= Seq::<TablePackage>::empty());
        }
        Option::None
    }
}

/// The errors a closure resolution can end with. Each is fatal: no partial
/// directory listing accompanies any of them.
#[derive(Debug)]
pub enum WalkError {
    /// No resolved dependency graph accompanies the root package.
    MissingLockfile,
    /// Updating the named node's source failed.
    Fetch { node: NodeIdentity, source: SourceId, cause: FetchCause },
    /// The named node's identity is absent from its claimed source after an
    /// update.
    NotFound { node: NodeIdentity, source: SourceId },
    /// Enumerating the named node's files failed locally.
    Listing { node: NodeIdentity, source: SourceId },
}

} // verus!
