use vstd::prelude::*;

use crate::package::{Package, PackageResolution};

verus! {

/// `Accept` header asking the registry for the reduced ("corgi") packument.
pub open spec fn corgi_accept() -> Seq<char> {
    "application/vnd.npm.install-v1+json; q=1.0, application/json; q=0.8, */*"@
}

/// `Accept` header asking the registry for the full packument.
pub open spec fn json_accept() -> Seq<char> {
    "application/json"@
}

/// The decisions of a registry fetcher: whether a packument must still be
/// requested, with which `Accept` header, and which paths to request. The
/// caller performs the requests and hands the bodies back.
pub struct RegistryFetcher {
    packument: Option<String>,
    /// Ask for the reduced packument form, which omits fields that
    /// installation does not need.
    use_corgi: bool,
}

impl RegistryFetcher {
    pub closed spec fn cached(&self) -> Option<String> {
        self.packument
    }

    pub closed spec fn corgi(&self) -> bool {
        self.use_corgi
    }

    pub fn new(use_corgi: bool) -> (r: RegistryFetcher)
        ensures
            r.cached() is None,
            r.corgi() == use_corgi,
    {
        RegistryFetcher { packument: None, use_corgi }
    }

    /// Whether the packument still has to be requested.
    pub fn needs_packument(&self) -> (r: bool)
        ensures
            r == (self.cached() is None),
    {
        self.packument.is_none()
    }

    /// The `Accept` header for a packument request.
    pub fn packument_accept(&self) -> (r: &'static str)
        ensures
            r@ == if self.corgi() {
                corgi_accept()
            } else {
                json_accept()
            },
    {
        if self.use_corgi {
            "application/vnd.npm.install-v1+json; q=1.0, application/json; q=0.8, */*"
        } else {
            "application/json"
        }
    }

    /// Keeps a fetched packument body; a packument already kept stays.
    pub fn store_packument(&mut self, body: String)
        ensures
            final(self).corgi() == old(self).corgi(),
            final(self).cached() == if old(self).cached() is None {
                Some(body)
            } else {
                old(self).cached()
            },
    {
        if self.packument.is_none() {
            self.packument = Some(body);
        }
    }

    /// The packument kept so far.
    pub fn packument(&self) -> (r: Option<&String>)
        ensures
            match self.cached() {
                Some(p) => r is Some && *r->0 == p,
                None => r is None,
            },
    {
        match &self.packument {
            Some(p) => Some(p),
            None => None,
        }
    }
}

/// Request path of one version's manifest: `name/version`.
pub fn manifest_path(name: &str, version: &str) -> (r: String)
    ensures
        r@ == name@ + "/"@ + version@,
{
    let mut s = String::new();
    s.append(name);
    s.append("/");
    s.append(version);
    assert(Seq::<char>::empty() + name@ =~= name@);
    s
}

/// Archive location of a registry package; other resolutions have none.
pub fn tarball_url(pkg: &Package) -> (r: Option<&String>)
    ensures
        match pkg.resolved {
            PackageResolution::Npm { tarball, .. } => r is Some && *r->0 == tarball,
            _ => r is None,
        },
{
    match &pkg.resolved {
        PackageResolution::Npm { tarball, .. } => Some(tarball),
        _ => None,
    }
}


/// What a dependency specifier asks for, as far as a registry fetcher is concerned.
#[derive(Debug)]
pub enum PackageArg {
    /// A registry package by name.
    Npm { name: String },
    /// A local name for another specifier.
    Alias { name: String, package: Box<PackageArg> },
    /// Anything a registry does not serve (a directory, a checkout).
    Other,
}

/// The name a registry specifier installs under.
pub fn fetch_name(spec: &PackageArg) -> (r: Option<&String>)
    ensures
        match *spec {
            PackageArg::Npm { name } => r is Some && *r->0 == name,
            PackageArg::Alias { name, .. } => r is Some && *r->0 == name,
            PackageArg::Other => r is None,
        },
{
    match spec {
        PackageArg::Npm { name } => Some(name),
        PackageArg::Alias { name, .. } => Some(name),
        PackageArg::Other => None,
    }
}

/// The registry name whose packument is requested: for an alias, the name
/// of the package it stands for, not the alias.
pub fn packument_name(spec: &PackageArg) -> (r: Option<&String>)
    ensures
        match *spec {
            PackageArg::Npm { name } => r is Some && *r->0 == name,
            PackageArg::Alias { package, .. } => match *package {
                PackageArg::Npm { name } => r is Some && *r->0 == name,
                _ => r is None,
            },
            PackageArg::Other => r is None,
        },
{
    match spec {
        PackageArg::Npm { name } => Some(name),
        PackageArg::Alias { package, .. } => match &**package {
            PackageArg::Npm { name } => Some(name),
            _ => None,
        },
        PackageArg::Other => None,
    }
}

} // verus!
