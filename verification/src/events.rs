//! The event contracts shared by the pipeline's stages.
//!
//! Two record shapes are the entire contract between stages: the "received"
//! event that ingestion publishes, and the "vectorized" event the embedding
//! worker publishes. Both carry the same document identifier; the codec in
//! this crate proves it survives serialization unchanged.

use vstd::prelude::*;

use crate::ident::DocId;
use crate::numtok::is_num_token;

verus! {

/// The document moving through the pipeline: its identifier and raw text
/// content, as bytes.
pub struct DocumentPayload {
    pub id: DocId,
    pub content: Vec<u8>,
}

impl DocumentPayload {
    /// A well-formed payload carries a well-formed identifier.
    pub open spec fn wf(&self) -> bool {
        self.id.wf()
    }
}

/// Event published by the ingestion endpoint once per accepted document.
pub struct DocumentReceivedEvent {
    pub payload: DocumentPayload,
}

impl DocumentReceivedEvent {
    pub open spec fn wf(&self) -> bool {
        self.payload.wf()
    }
}

/// Event published by the embedding worker after successful inference.
/// Each vector element travels as the exact JSON number token the producer
/// wrote; the pipeline never reinterprets it numerically.
pub struct DocumentVectorizedEvent {
    pub id: DocId,
    pub vector: Vec<Vec<u8>>,
}

impl DocumentVectorizedEvent {
    /// A well-formed event carries a well-formed identifier and valid
    /// number tokens.
    pub open spec fn wf(&self) -> bool {
        &&& self.id.wf()
        &&& forall|j: int|
            0 <= j < self.vector.deep_view().len() ==> is_num_token(
                #[trigger] self.vector.deep_view()[j],
            )
    }
}

} // verus!
