//! Error taxonomy of the wallet service and its caller-facing classifier.
//!
//! Every internal failure is one of ten kinds. The classifier maps each kind
//! to one of two externally visible classes: a caller-input problem, which
//! the caller can fix by resubmitting corrected input, or an operational
//! problem, reported opaquely with the underlying cause as diagnostic detail.
use vstd::prelude::*;

verus! {

/// Every failure the wallet service can surface. Variants carrying a
/// `String` keep the collaborator's own description as diagnostic detail.
#[derive(Debug)]
pub enum CashuWalletServiceError {
    /// Connection-pool exhaustion while reaching the ledger.
    Pool(String),
    /// Ledger/storage failure, including a credit the ledger refused.
    Db(String),
    /// The caller-supplied wad bundle string does not parse.
    CompactWadFromStr(String),
    /// The wallet's seed phrase could not be retrieved.
    SeedPhrase(String),
    /// A mint node could not be reached.
    ConnectToNode(String),
    /// A mint node could not be registered locally.
    Register(String),
    /// A node refused or botched a proof exchange.
    ReceiveWad(String),
    /// The caller-supplied decimal amount string is malformed or out of
    /// range for the requested asset.
    ParseAssetAmount(String),
    /// No viable spend allocation exists (for instance, no node is known).
    PlanSpending(String),
    /// The named node cannot cover the amount drawn from it.
    NotEnoughFunds(u32),
}

/// The two classes a failure is reported under.
#[derive(PartialEq, Eq, Structural, Clone, Copy)]
pub enum ErrorClass {
    /// The request itself was invalid; resubmitting corrected input helps.
    InvalidParams,
    /// An internal/operational failure; not for the caller to retry blindly.
    InternalError,
}

/// What an external caller sees of a failure: its class, a fixed
/// human-readable cause, and a machine-decodable detail — the collaborator's
/// own description, or the failing node for an insufficient-funds failure.
pub struct ErrorReport {
    pub class: ErrorClass,
    pub message: String,
    pub detail: Option<String>,
}

/// The class each failure kind is reported under: malformed caller input is
/// `InvalidParams`, everything else is operational.
pub open spec fn spec_error_class(e: CashuWalletServiceError) -> ErrorClass {
    match e {
        CashuWalletServiceError::CompactWadFromStr(_) => ErrorClass::InvalidParams,
        CashuWalletServiceError::ParseAssetAmount(_) => ErrorClass::InvalidParams,
        _ => ErrorClass::InternalError,
    }
}

/// The fixed human-readable cause reported for each failure kind.
pub open spec fn spec_error_message(e: CashuWalletServiceError) -> Seq<char> {
    match e {
        CashuWalletServiceError::Pool(_) => "failed to get a database connection from the pool"@,
        CashuWalletServiceError::Db(_) => "failed to interact with the database"@,
        CashuWalletServiceError::CompactWadFromStr(_) => "invalid value for wads parameter"@,
        CashuWalletServiceError::SeedPhrase(_) => "failed to retreive the wallet seed phrase"@,
        CashuWalletServiceError::ConnectToNode(_) => "failed to connect to the mint node"@,
        CashuWalletServiceError::Register(_) => "failed to register the mint node"@,
        CashuWalletServiceError::ReceiveWad(_) => "failed to receive a wad"@,
        CashuWalletServiceError::ParseAssetAmount(_) => "invalid argument amount"@,
        CashuWalletServiceError::PlanSpending(_) => "could not plan spending"@,
        CashuWalletServiceError::NotEnoughFunds(_) => "not enough funds"@,
    }
}

/// The diagnostic detail attached to each failure kind: the collaborator's
/// own description, or, for an insufficient-funds failure, the decimal
/// identifier of the node that could not cover its draw.
pub open spec fn spec_error_detail(e: CashuWalletServiceError) -> Option<Seq<char>> {
    match e {
        CashuWalletServiceError::Pool(s) => Some(s@),
        CashuWalletServiceError::Db(s) => Some(s@),
        CashuWalletServiceError::CompactWadFromStr(s) => Some(s@),
        CashuWalletServiceError::SeedPhrase(s) => Some(s@),
        CashuWalletServiceError::ConnectToNode(s) => Some(s@),
        CashuWalletServiceError::Register(s) => Some(s@),
        CashuWalletServiceError::ReceiveWad(s) => Some(s@),
        CashuWalletServiceError::ParseAssetAmount(s) => Some(s@),
        CashuWalletServiceError::PlanSpending(s) => Some(s@),
        CashuWalletServiceError::NotEnoughFunds(n) => Some(crate::digits::dec_digits(n as nat)),
    }
}

impl ErrorReport {
    /// Classifies a failure for an external caller. No kind is swallowed:
    /// each maps to exactly one class, cause and detail.
    pub fn from_error(e: &CashuWalletServiceError) -> (r: ErrorReport)
        ensures
            r.class == spec_error_class(*e),
            r.message@ == spec_error_message(*e),
            match (r.detail, spec_error_detail(*e)) {
                (Some(d), Some(s)) => d@ == s,
                (None, None) => true,
                _ => false,
            },
    {
        match e {
            CashuWalletServiceError::Pool(s) => ErrorReport {
                class: ErrorClass::InternalError,
                message: "failed to get a database connection from the pool".to_owned(),
                detail: Some(s.clone()),
            },
            CashuWalletServiceError::Db(s) => ErrorReport {
                class: ErrorClass::InternalError,
                message: "failed to interact with the database".to_owned(),
                detail: Some(s.clone()),
            },
            CashuWalletServiceError::CompactWadFromStr(s) => ErrorReport {
                class: ErrorClass::InvalidParams,
                message: "invalid value for wads parameter".to_owned(),
                detail: Some(s.clone()),
            },
            CashuWalletServiceError::SeedPhrase(s) => ErrorReport {
                class: ErrorClass::InternalError,
                message: "failed to retreive the wallet seed phrase".to_owned(),
                detail: Some(s.clone()),
            },
            CashuWalletServiceError::ConnectToNode(s) => ErrorReport {
                class: ErrorClass::InternalError,
                message: "failed to connect to the mint node".to_owned(),
                detail: Some(s.clone()),
            },
            CashuWalletServiceError::Register(s) => ErrorReport {
                class: ErrorClass::InternalError,
                message: "failed to register the mint node".to_owned(),
                detail: Some(s.clone()),
            },
            CashuWalletServiceError::ReceiveWad(s) => ErrorReport {
                class: ErrorClass::InternalError,
                message: "failed to receive a wad".to_owned(),
                detail: Some(s.clone()),
            },
            CashuWalletServiceError::ParseAssetAmount(s) => ErrorReport {
                class: ErrorClass::InvalidParams,
                message: "invalid argument amount".to_owned(),
                detail: Some(s.clone()),
            },
            CashuWalletServiceError::PlanSpending(s) => ErrorReport {
                class: ErrorClass::InternalError,
                message: "could not plan spending".to_owned(),
                detail: Some(s.clone()),
            },
            CashuWalletServiceError::NotEnoughFunds(n) => {
                let mut v: Vec<char> = Vec::new();
                crate::digits::emit_dec_digits(*n as u64, &mut v);
                ErrorReport {
                    class: ErrorClass::InternalError,
                    message: "not enough funds".to_owned(),
                    detail: Some(crate::strutil::string_from_chars(&v)),
                }
            },
        }
    }
}

} // verus!
