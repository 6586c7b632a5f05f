//! Report types: anomalies with severities, and the aggregate
//! analysis record handed back to callers.

use vstd::prelude::*;

verus! {

/// Severity of an anomaly.
#[derive(Clone, Copy, PartialEq, Eq, Structural, Debug)]
pub enum Severity {
    Info,
    Suspicious,
    Critical,
}

/// Every recovered error and structural inconsistency becomes one of
/// these; none is silently dropped.
#[derive(Clone, Copy, PartialEq, Eq, Structural, Debug)]
pub enum AnomalyKind {
    /// A stream's declared `/Length` disagreed with the
    /// `endstream`-bounded extent (object number, generation).
    LengthMismatch(u32, u16),
    /// An object participates in a reference cycle; resolution broke
    /// the cycle instead of recursing.
    CyclicReference(u32),
    /// A cross-reference entry points outside the file; it was
    /// dropped from the live set.
    OffsetOutOfBounds(u32),
    /// No object parsed at the entry's offset.
    MalformedObject(u32),
    /// The object at the entry's offset carries a different id.
    OffsetMismatch(u32),
    /// The cross-reference structure was missing or corrupt and the
    /// object set was reconstructed by brute-force scanning.
    BruteForceRecovery,
    /// The `/Prev` chain of cross-reference sections loops.
    ChainCycle,
    /// An incremental update shadows this object number's entry in
    /// an earlier revision.
    RevisionShadowed(u32),
    /// A stream's filter chain failed at the given position; its raw
    /// bytes are retained.
    DecodeFailure(u32, u16, usize),
    /// The catalog's `/OpenAction` leads to a JavaScript action:
    /// auto-executing script content.
    AutoExecScript(u32),
    /// An object is not reachable from the trailer roots.
    UnreachableObject(u32),
}

/// One recorded anomaly.
#[derive(Clone, Copy, PartialEq, Eq, Structural, Debug)]
pub struct Anomaly {
    pub kind: AnomalyKind,
    pub severity: Severity,
}

/// The security level only raises or lowers severities; it never
/// affects parsing.
pub open spec fn spec_base_severity(kind: AnomalyKind) -> Severity {
    match kind {
        AnomalyKind::LengthMismatch(_, _) => Severity::Suspicious,
        AnomalyKind::CyclicReference(_) => Severity::Suspicious,
        AnomalyKind::OffsetOutOfBounds(_) => Severity::Suspicious,
        AnomalyKind::MalformedObject(_) => Severity::Suspicious,
        AnomalyKind::OffsetMismatch(_) => Severity::Suspicious,
        AnomalyKind::BruteForceRecovery => Severity::Info,
        AnomalyKind::ChainCycle => Severity::Suspicious,
        AnomalyKind::RevisionShadowed(_) => Severity::Suspicious,
        AnomalyKind::DecodeFailure(_, _, _) => Severity::Suspicious,
        AnomalyKind::AutoExecScript(_) => Severity::Suspicious,
        AnomalyKind::UnreachableObject(_) => Severity::Info,
    }
}

/// Builds the anomaly record for a kind under the configured
/// security level: `Paranoid` raises every suspicious finding to
/// critical, `Low` lowers informational findings no further.
pub fn make_anomaly(kind: AnomalyKind, paranoid: bool) -> (r: Anomaly)
    ensures
        r.kind == kind,
        r.severity == if paranoid && spec_base_severity(kind) == Severity::Suspicious {
            Severity::Critical
        } else {
            spec_base_severity(kind)
        },
{
    let base = match kind {
        AnomalyKind::BruteForceRecovery => Severity::Info,
        AnomalyKind::UnreachableObject(_) => Severity::Info,
        _ => Severity::Suspicious,
    };
    let severity = if paranoid && matches!(base, Severity::Suspicious) {
        Severity::Critical
    } else {
        base
    };
    Anomaly { kind, severity }
}

/// Encryption and permission state of the document.
#[derive(Clone, Debug)]
pub struct SecurityInfo {
    pub encrypted: bool,
    pub has_password: bool,
    pub permissions: Vec<String>,
}

/// Forensic findings summarized.
#[derive(Clone, Debug)]
pub struct ForensicsData {
    pub javascript_found: bool,
    pub image_count: u32,
    pub embedded_files: Vec<String>,
    pub suspicious_patterns: Vec<String>,
}

/// Document-level metadata.
#[derive(Clone, Debug)]
pub struct Metadata {
    pub version: String,
    pub page_count: u32,
    pub author: Option<String>,
    pub title: Option<String>,
    pub created: Option<i64>,
    pub modified: Option<i64>,
}

/// The aggregate result of one analysis run.
#[derive(Clone, Debug)]
pub struct AnalysisResult {
    pub path: String,
    pub timestamp: i64,
    pub metadata: Metadata,
    pub security: SecurityInfo,
    pub forensics: ForensicsData,
}

} // verus!
