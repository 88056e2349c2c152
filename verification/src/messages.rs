//! The typed messages of the coordinator's broadcast bus.

use vstd::prelude::*;
use crate::query::PackageData;

verus! {

/// A tracked package name.
pub type Package = String;

/// One message on the bus. Every long-lived task receives every message and
/// ignores the ones it does not care about.
#[derive(Clone)]
pub enum Message {
    AddPackages(Vec<Package>),
    AddPackageUrl { url: String, data: PackageData },
    AddDependencies(Vec<Package>),
    RemovePackages(Vec<Package>),
    BuildPackage(Package),
    BuildSuccess(Package),
    BuildFailure(Package),
    ArtifactsUploaded { package: Package, files: Vec<String>, build_time: i64 },
}

} // verus!
