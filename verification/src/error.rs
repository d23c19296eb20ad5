use vstd::prelude::*;

verus! {

/// The error kinds shared by the search index, the indexing coordinator and
/// the asset store.
///
/// `NotFound`: a source file or locator did not resolve to anything.
/// `InvalidInput`: a malformed entity key, an empty required field, or a
/// payload that does not decode.
/// `StorageUnavailable`: the backing store cannot be reached at all.
/// `IoFailure`: a copy, write or delete failed; the underlying cause and the
/// operation are attached.
#[derive(Debug)]
pub enum CoreError {
    NotFound { path: String },
    InvalidInput { reason: String },
    StorageUnavailable { detail: String },
    IoFailure { op: String, path: String, detail: String },
}

impl CoreError {
    /// A descriptive message for the caller; no failure is silent.
    pub fn message(&self) -> (r: String)
        ensures
            r@.len() > 0,
            self matches CoreError::NotFound { path } ==> r@ == "not found: "@ + path@,
            self matches CoreError::InvalidInput { reason } ==> r@ == "invalid input: "@
                + reason@,
            self matches CoreError::StorageUnavailable { detail } ==> r@
                == "storage unavailable: "@ + detail@,
            self matches CoreError::IoFailure { op, path, detail } ==> r@ == op@ + " failed for "@
                + path@ + ": "@ + detail@,
    {
        proof {
            reveal_strlit("not found: ");
            reveal_strlit("invalid input: ");
            reveal_strlit("storage unavailable: ");
            reveal_strlit(" failed for ");
        }
        match self {
            CoreError::NotFound { path } => {
                let mut m = String::from_str("not found: ");
                m.append(path.as_str());
                m
            },
            CoreError::InvalidInput { reason } => {
                let mut m = String::from_str("invalid input: ");
                m.append(reason.as_str());
                m
            },
            CoreError::StorageUnavailable { detail } => {
                let mut m = String::from_str("storage unavailable: ");
                m.append(detail.as_str());
                m
            },
            CoreError::IoFailure { op, path, detail } => {
                let mut m = op.clone();
                m.append(" failed for ");
                m.append(path.as_str());
                m.append(": ");
                m.append(detail.as_str());
                m
            },
        }
    }
}

} // verus!
