//! The one error type under which every failure of the bridge travels.

use vstd::prelude::*;
use vstd::string::*;
use crate::driver::{DriverError, DriverErrorView};
use crate::manifest::{ManifestError, ManifestErrorView};
use crate::planner::{ConfigFault, FaultView};
use crate::resolver::{ResolveError, ResolveErrorView};

verus! {

/// Any failure of the bridge, by the stage that found it.
#[derive(Debug)]
pub enum BridgeError {
    /// The manifest could not be read.
    Manifest(ManifestError),
    /// The configuration cannot be planned.
    Configuration(ConfigFault),
    /// The driver gave no report.
    Driver(DriverError),
    /// The report does not match what the manifest declares.
    Artifact(ResolveError),
}

/// The mathematical form of a [`BridgeError`].
pub enum BridgeErrorView {
    Manifest(ManifestErrorView),
    Configuration(FaultView),
    Driver(DriverErrorView),
    Artifact(ResolveErrorView),
}

impl View for BridgeError {
    type V = BridgeErrorView;

    open spec fn view(&self) -> BridgeErrorView {
        match self {
            BridgeError::Manifest(e) => BridgeErrorView::Manifest(e@),
            BridgeError::Configuration(e) => BridgeErrorView::Configuration(e@),
            BridgeError::Driver(e) => BridgeErrorView::Driver(e@),
            BridgeError::Artifact(e) => BridgeErrorView::Artifact(e@),
        }
    }
}

/// The form of an optional error.
pub open spec fn error_of(e: Option<BridgeError>) -> Option<BridgeErrorView> {
    match e {
        Some(inner) => Some(inner@),
        None => None,
    }
}

/// The name under which an error is reported.
pub open spec fn error_name(e: BridgeErrorView) -> Seq<char> {
    match e {
        BridgeErrorView::Manifest(ManifestErrorView::NotFound { .. }) => "ManifestNotFound"@,
        BridgeErrorView::Manifest(ManifestErrorView::Parse { .. }) => "ManifestParseError"@,
        BridgeErrorView::Manifest(ManifestErrorView::Cycle { .. }) => "WorkspaceCycle"@,
        BridgeErrorView::Configuration(_) => "InvalidConfiguration"@,
        BridgeErrorView::Driver(DriverErrorView::Unavailable) => "DriverUnavailable"@,
        BridgeErrorView::Driver(DriverErrorView::Failed { .. }) => "DriverFailed"@,
        BridgeErrorView::Driver(DriverErrorView::Timeout) => "DriverTimeout"@,
        BridgeErrorView::Artifact(ResolveErrorView::Missing { .. }) => "ArtifactMissing"@,
        BridgeErrorView::Artifact(ResolveErrorView::Ambiguous { .. }) => "ArtifactAmbiguous"@,
    }
}

impl BridgeError {
    /// The name under which this error is reported.
    pub fn name(&self) -> (r: String)
        ensures
            r@ == error_name(self@),
    {
        match self {
            BridgeError::Manifest(ManifestError::NotFound { .. }) => String::from_str(
                "ManifestNotFound",
            ),
            BridgeError::Manifest(ManifestError::Parse { .. }) => String::from_str(
                "ManifestParseError",
            ),
            BridgeError::Manifest(ManifestError::Cycle { .. }) => String::from_str(
                "WorkspaceCycle",
            ),
            BridgeError::Configuration(_) => String::from_str("InvalidConfiguration"),
            BridgeError::Driver(DriverError::Unavailable) => String::from_str("DriverUnavailable"),
            BridgeError::Driver(DriverError::Failed { .. }) => String::from_str("DriverFailed"),
            BridgeError::Driver(DriverError::Timeout) => String::from_str("DriverTimeout"),
            BridgeError::Artifact(ResolveError::Missing { .. }) => String::from_str(
                "ArtifactMissing",
            ),
            BridgeError::Artifact(ResolveError::Ambiguous { .. }) => String::from_str(
                "ArtifactAmbiguous",
            ),
        }
    }
}

} // verus!
