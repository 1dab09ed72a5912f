//! On-chain package model used by the dependency-graph side of the
//! system: a loaded package with its manifest, pinned dependencies and
//! per-environment publication records. File loading and dependency
//! fetching are I/O and live outside this core; the data they produce is
//! carried here as plain values (names and paths as strings, addresses as
//! integers), and every query over it is exact.

use vstd::prelude::*;

verus! {

pub type EnvironmentName = String;
pub type EnvironmentID = String;
pub type PackageName = String;
pub type AddressInfo = u64;

/// Validated root directory of a package.
pub struct PackagePath {
    pub path: String,
}

/// How a package is recorded in the lockfile.
pub enum LockfileDependencyInfo {
    /// A path inside the local tree.
    Local(String),
    /// A pinned remote source, by locator string.
    Pinned(String),
}

/// A dependency pinned to one exact source.
pub struct PinnedDependencyInfo {
    pub name: PackageName,
    pub locator: String,
    pub is_override: bool,
}

/// Mathematical image of a pinned dependency.
#[verifier::ext_equal]
pub ghost struct PinnedDepData {
    pub name: Seq<char>,
    pub locator: Seq<char>,
    pub is_override: bool,
}

impl View for PinnedDependencyInfo {
    type V = PinnedDepData;

    open spec fn view(&self) -> PinnedDepData {
        PinnedDepData { name: self.name@, locator: self.locator@, is_override: self.is_override }
    }
}

/// The view column of a dependency list.
pub open spec fn deps_view(s: Seq<PinnedDependencyInfo>) -> Seq<PinnedDepData> {
    s.map(|i: int, d: PinnedDependencyInfo| d@)
}

/// The parsed manifest: package name, declared environments (name to
/// chain identifier) and declared dependencies.
pub struct Manifest {
    pub package_name: PackageName,
    pub environments: Vec<(EnvironmentName, EnvironmentID)>,
    pub dependencies: Vec<PinnedDependencyInfo>,
}

impl Manifest {
    /// Whether `env` is declared in the manifest.
    pub open spec fn spec_has_environment(self, env: Seq<char>) -> bool {
        exists|i: int| 0 <= i < self.environments@.len()
            && (#[trigger] self.environments@[i]).0@ == env
    }

    pub fn has_environment(&self, env: &EnvironmentName) -> (r: bool)
        ensures
            r == self.spec_has_environment(env@),
    {
        let mut i: usize = 0;
        while i < self.environments.len()
            invariant
                0 <= i <= self.environments@.len(),
                forall|k: int| 0 <= k < i ==> (#[trigger] self.environments@[k]).0@ != env@,
            decreases self.environments@.len() - i,
        {
            if self.environments[i].0.eq(env) {
                proof {
                    assert(self.environments@[i as int].0@ == env@);
                }
                return true;
            }
            i = i + 1;
        }
        false
    }
}

/// The identifiers a package was published under in one environment.
pub struct Publication {
    pub chain_id: EnvironmentID,
    pub original_id: AddressInfo,
    pub published_at: AddressInfo,
    pub version: u64,
}

/// Publish information for a package: the environment it was published
/// in, and its recorded identifiers there.
pub struct PublishInformation {
    pub environment: EnvironmentID,
    pub publication: Publication,
}

/// A loaded package: manifest, validated path, its own lockfile entry,
/// pinned dependencies per environment, and its publication records.
pub struct Package {
    pub manifest: Manifest,
    pub path: PackagePath,
    pub source: LockfileDependencyInfo,
    pub deps: Vec<(EnvironmentName, Vec<PinnedDependencyInfo>)>,
    pub publications: Vec<(EnvironmentName, Publication)>,
}

impl Package {
    /// Environment keys are unique in both tables, as the loader's maps
    /// guarantee.
    pub open spec fn wf(self) -> bool {
        &&& forall|i: int, j: int| 0 <= i < j < self.deps@.len()
            ==> (#[trigger] self.deps@[i]).0@ != (#[trigger] self.deps@[j]).0@
        &&& forall|i: int, j: int| 0 <= i < j < self.publications@.len()
            ==> (#[trigger] self.publications@[i]).0@ != (#[trigger] self.publications@[j]).0@
    }
}

/// Why a package query failed.
#[derive(Clone, Copy, PartialEq, Eq, Structural, Debug)]
pub enum PackageError {
    /// The named environment is not declared in the manifest.
    UndeclaredEnvironment,
}

impl Package {
    /// The path to the root directory of this package, as validated by
    /// the loader.
    pub fn path(&self) -> (r: &PackagePath)
        ensures
            r == &self.path,
    {
        &self.path
    }

    pub fn name(&self) -> (r: &PackageName)
        ensures
            r == &self.manifest.package_name,
    {
        &self.manifest.package_name
    }

    /// The contents of the manifest file for the package.
    pub fn manifest(&self) -> (r: &Manifest)
        ensures
            r == &self.manifest,
    {
        &self.manifest
    }

    /// A dependency that points to this package.
    pub fn dep_for_self(&self) -> (r: &LockfileDependencyInfo)
        ensures
            r == &self.source,
    {
        &self.source
    }

    /// Position of the publication record for `env`, if one exists.
    pub open spec fn spec_publication_index(self, env: Seq<char>) -> int {
        choose|i: int| 0 <= i < self.publications@.len()
            && (#[trigger] self.publications@[i]).0@ == env
    }

    pub open spec fn spec_has_publication(self, env: Seq<char>) -> bool {
        exists|i: int| 0 <= i < self.publications@.len()
            && (#[trigger] self.publications@[i]).0@ == env
    }

    /// The publication record for environment `env`: present exactly when
    /// the package was published there.
    #[verifier::loop_isolation(false)]
    pub fn publication(&self, env: &EnvironmentName) -> (o: Option<&Publication>)
        requires
            self.wf(),
        ensures
            (o is Some) == self.spec_has_publication(env@),
            o is Some ==> *o->Some_0
                == self.publications@[self.spec_publication_index(env@)].1,
    {
        let mut i: usize = 0;
        while i < self.publications.len()
            invariant
                0 <= i <= self.publications@.len(),
                forall|k: int| 0 <= k < i ==> (#[trigger] self.publications@[k]).0@ != env@,
            decreases self.publications@.len() - i,
        {
            if self.publications[i].0.eq(env) {
                proof {
                    assert(self.publications@[i as int].0@ == env@);
                    let j = self.spec_publication_index(env@);
                    assert(0 <= j < self.publications@.len()
                        && self.publications@[j].0@ == env@);
                    if j != i {
                        if j < i {
                            assert(self.publications@[j].0@ != env@);
                        } else {
                            assert(self.publications@[i as int].0@
                                != self.publications@[j].0@);
                        }
                    }
                }
                return Some(&self.publications[i].1);
            }
            i = i + 1;
        }
        None
    }

    pub open spec fn spec_deps_index(self, env: Seq<char>) -> int {
        choose|i: int| 0 <= i < self.deps@.len() && (#[trigger] self.deps@[i]).0@ == env
    }

    pub open spec fn spec_has_deps(self, env: Seq<char>) -> bool {
        exists|i: int| 0 <= i < self.deps@.len() && (#[trigger] self.deps@[i]).0@ == env
    }

    /// The resolved and pinned dependencies from the manifest for
    /// environment `env`. Fails exactly when `env` is not declared in the
    /// manifest; an environment declared but without pinned entries
    /// yields the empty list.
    #[verifier::loop_isolation(false)]
    pub fn direct_deps(&self, env: &EnvironmentName)
        -> (r: Result<Vec<PinnedDependencyInfo>, PackageError>)
        requires
            self.wf(),
        ensures
            (r is Ok) == self.manifest.spec_has_environment(env@),
            r is Err ==> r->Err_0 is UndeclaredEnvironment,
            r is Ok && self.spec_has_deps(env@)
                ==> deps_view(r->Ok_0@)
                    == deps_view(self.deps@[self.spec_deps_index(env@)].1@),
            r is Ok && !self.spec_has_deps(env@) ==> r->Ok_0@.len() == 0,
    {
        if !self.manifest.has_environment(env) {
            return Err(PackageError::UndeclaredEnvironment);
        }
        let mut i: usize = 0;
        while i < self.deps.len()
            invariant
                0 <= i <= self.deps@.len(),
                forall|k: int| 0 <= k < i ==> (#[trigger] self.deps@[k]).0@ != env@,
            decreases self.deps@.len() - i,
        {
            if self.deps[i].0.eq(env) {
                proof {
                    assert(self.deps@[i as int].0@ == env@);
                    assert(self.spec_has_deps(env@));
                    assert(self.spec_deps_index(env@) == i) by {
                        let j = self.spec_deps_index(env@);
                        assert(0 <= j < self.deps@.len() && self.deps@[j].0@ == env@);
                        if j < i {
                            assert(self.deps@[j].0@ != env@);
                        } else if j > i {
                            assert(self.deps@[i as int].0@ != self.deps@[j].0@);
                        }
                    }
                }
                return Ok(copy_deps(&self.deps[i].1));
            }
            i = i + 1;
        }
        Ok(Vec::new())
    }
}

/// Field-for-field copy of a dependency list: same view.
fn copy_deps(v: &Vec<PinnedDependencyInfo>) -> (r: Vec<PinnedDependencyInfo>)
    ensures
        deps_view(r@) == deps_view(v@),
{
    let mut out: Vec<PinnedDependencyInfo> = Vec::new();
    let mut i: usize = 0;
    while i < v.len()
        invariant
            0 <= i <= v@.len(),
            out@.len() == i,
            forall|k: int| 0 <= k < i ==> (#[trigger] out@[k])@ == v@[k]@,
        decreases v@.len() - i,
    {
        let d = &v[i];
        out.push(PinnedDependencyInfo {
            name: d.name.clone(),
            locator: d.locator.clone(),
            is_override: d.is_override,
        });
        i = i + 1;
    }
    proof {
        assert(deps_view(out@) =~= deps_view(v@));
    }
    out
}

} // verus!
