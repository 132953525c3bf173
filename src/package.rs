use vstd::prelude::*;

verus! {

/// A released version number.
#[derive(Clone, Copy, Debug, PartialEq, Eq, Structural)]
pub struct Version {
    pub major: u64,
    pub minor: u64,
    pub patch: u64,
}

/// Lexicographic order of versions.
pub open spec fn version_le(a: Version, b: Version) -> bool {
    a.major < b.major || (a.major == b.major && (a.minor < b.minor || (a.minor == b.minor
        && a.patch <= b.patch)))
}

impl Version {
    pub fn new(major: u64, minor: u64, patch: u64) -> (r: Version)
        ensures
            r == (Version { major, minor, patch }),
    {
        Version { major, minor, patch }
    }

    /// Whether `self <= other` in version order.
    pub fn le(&self, other: &Version) -> (r: bool)
        ensures
            r == version_le(*self, *other),
    {
        self.major < other.major || (self.major == other.major && (self.minor < other.minor || (
        self.minor == other.minor && self.patch <= other.patch)))
    }
}

/// Where a resolved package comes from.
#[derive(Clone, Debug)]
pub enum PackageResolution {
    /// A registry package: its version, archive location and optional integrity digest.
    Npm { version: Version, tarball: String, integrity: Option<String> },
    /// A package in a local directory.
    Dir { path: String },
    /// A source-control checkout.
    Git { info: String },
}

/// A resolved package: its name and where it comes from.
#[derive(Clone, Debug)]
pub struct Package {
    pub name: String,
    pub resolved: PackageResolution,
}

/// The parsed form of a requested specifier.
#[derive(Clone, Debug)]
pub enum SpecKind {
    /// Registry versions `v` with `min <= v` and `v < max` (`max` excluded).
    Range { min: Version, max: Version },
    /// A local directory.
    Dir { path: String },
    /// A source-control revision.
    Git { info: String },
}

/// A requested specifier: the text as the author wrote it and its parsed form.
#[derive(Clone, Debug)]
pub struct PackageSpec {
    pub requested: String,
    pub kind: SpecKind,
}

/// Whether a package resolution meets a requested specifier.
pub open spec fn satisfies_spec(r: PackageResolution, s: SpecKind) -> bool {
    match r {
        PackageResolution::Npm { version, .. } => match s {
            SpecKind::Range { min, max } => version_le(min, version) && !version_le(max, version),
            _ => false,
        },
        PackageResolution::Dir { path: p } => match s {
            SpecKind::Dir { path: q } => p@ == q@,
            _ => false,
        },
        PackageResolution::Git { info: p } => match s {
            SpecKind::Git { info: q } => p@ == q@,
            _ => false,
        },
    }
}

impl PackageResolution {
    pub fn satisfies(&self, spec: &PackageSpec) -> (r: bool)
        ensures
            r == satisfies_spec(*self, spec.kind),
    {
        match self {
            PackageResolution::Npm { version, .. } => match &spec.kind {
                SpecKind::Range { min, max } => min.le(version) && !max.le(version),
                _ => false,
            },
            PackageResolution::Dir { path: p } => match &spec.kind {
                SpecKind::Dir { path: q } => *p == *q,
                _ => false,
            },
            PackageResolution::Git { info: p } => match &spec.kind {
                SpecKind::Git { info: q } => *p == *q,
                _ => false,
            },
        }
    }
}

impl Package {
    pub fn new(name: String, resolved: PackageResolution) -> (r: Package)
        ensures
            r.name == name,
            r.resolved == resolved,
    {
        Package { name, resolved }
    }

    pub fn satisfies(&self, spec: &PackageSpec) -> (r: bool)
        ensures
            r == satisfies_spec(self.resolved, spec.kind),
    {
        self.resolved.satisfies(spec)
    }
}

impl PackageSpec {
    pub fn new(requested: String, kind: SpecKind) -> (r: PackageSpec)
        ensures
            r.requested == requested,
            r.kind == kind,
    {
        PackageSpec { requested, kind }
    }
}

} // verus!
