//! The indexing worker's decisions, and a model of the point store.
//!
//! Per message the worker parses the raw broker bytes as a vectorized
//! event — on failure drop, never retry, never crash — and derives the
//! stored point: its identifier is the lossless text form of the document
//! identifier, never a narrowing cast, so the identifier observed at the
//! store can be decoded back to the one assigned at ingestion. The store
//! itself upserts by point identifier: re-processing the same document
//! overwrites rather than duplicates, which makes redelivery safe here.

use vstd::prelude::*;
use vstd::string::StringExecFns;

use crate::codec::{decode_vectorized, enc_vectorized};
use crate::events::DocumentVectorizedEvent;
use crate::ident::{encode_doc_id, uuid_str};
use crate::numtok::is_num_token;

verus! {

/// Configuration for the indexing worker.
pub struct Config {
    pub kafka_broker: String,
    pub input_topic: String,
    pub consumer_group: String,
    pub qdrant_grpc_url: String,
    pub collection_name: String,
}

impl Config {
    /// The fallback configuration used when no file is given.
    pub fn default_config() -> (r: Config)
        ensures
            r.kafka_broker@ == "localhost:9092"@,
            r.input_topic@ == "resume_vectorized"@,
            r.consumer_group@ == "indexer_group_v1"@,
            r.qdrant_grpc_url@ == "http://localhost:6334"@,
            r.collection_name@ == "resumes"@,
    {
        Config {
            kafka_broker: String::from_str("localhost:9092"),
            input_topic: String::from_str("resume_vectorized"),
            consumer_group: String::from_str("indexer_group_v1"),
            qdrant_grpc_url: String::from_str("http://localhost:6334"),
            collection_name: String::from_str("resumes"),
        }
    }
}

/// What the indexing worker can fail with. Every steady-state failure ends
/// in the message being dropped; a missing store at startup is fatal.
pub enum IndexerError {
    QdrantConnectionError(String),
    QdrantUpsertError(String),
    KafkaError(String),
    SerializationError(String),
}

impl IndexerError {
    /// The error rendered as text.
    pub fn message(&self) -> (r: String)
        ensures
            self matches IndexerError::QdrantConnectionError(e) ==> r@
                == "Qdrant connection error: "@ + e@,
            self matches IndexerError::QdrantUpsertError(e) ==> r@ == "Qdrant upsert error: "@
                + e@,
            self matches IndexerError::KafkaError(e) ==> r@ == "Kafka error: "@ + e@,
            self matches IndexerError::SerializationError(e) ==> r@ == "Serialization error: "@
                + e@,
    {
        match self {
            IndexerError::QdrantConnectionError(e) => {
                let mut s = String::from_str("Qdrant connection error: ");
                s.append(e.as_str());
                s
            },
            IndexerError::QdrantUpsertError(e) => {
                let mut s = String::from_str("Qdrant upsert error: ");
                s.append(e.as_str());
                s
            },
            IndexerError::KafkaError(e) => {
                let mut s = String::from_str("Kafka error: ");
                s.append(e.as_str());
                s
            },
            IndexerError::SerializationError(e) => {
                let mut s = String::from_str("Serialization error: ");
                s.append(e.as_str());
                s
            },
        }
    }
}

/// The worker's first decision on a raw broker message: the parsed
/// vectorized event, or nothing — the message is dropped, the loop goes
/// on. Exactly the wire forms of vectorized events are accepted.
pub fn accept_vectorized(msg: &Vec<u8>) -> (r: Option<DocumentVectorizedEvent>)
    ensures
        r matches Some(ev) ==> ev.wf() && msg@ == enc_vectorized(ev.id@, ev.vector.deep_view()),
        forall|id: Seq<u8>, toks: Seq<Seq<u8>>|
            id.len() == 16 && (forall|j: int| 0 <= j < toks.len() ==> is_num_token(
                #[trigger] toks[j],
            )) && msg@ == enc_vectorized(id, toks) ==> (r matches Some(ev) && ev.id@ == id
                && ev.vector.deep_view() == toks),
{
    decode_vectorized(msg)
}

/// A point ready to be upserted: the store's identifier for it and its
/// vector.
pub struct StoredPoint {
    pub point_id: Vec<u8>,
    pub vector: Vec<Vec<u8>>,
}

/// Derive the stored point from a vectorized event. The point identifier
/// is the document identifier's canonical text form — lossless and
/// reversible, so decoding it reproduces the document identifier exactly.
pub fn process_vector_event(ev: DocumentVectorizedEvent) -> (r: StoredPoint)
    requires
        ev.wf(),
    ensures
        r.point_id@ == uuid_str(ev.id@),
        r.vector.deep_view() == ev.vector.deep_view(),
{
    let point_id = encode_doc_id(&ev.id);
    StoredPoint { point_id, vector: ev.vector }
}

/// Byte-for-byte equality of two buffers.
pub fn bytes_eq(a: &Vec<u8>, b: &Vec<u8>) -> (r: bool)
    ensures
        r == (a@ == b@),
{
    let n = a.len();
    if n != b.len() {
        return false;
    }
    let mut k: usize = 0;
    while k < n
        invariant
            k <= n,
            n == a@.len(),
            n == b@.len(),
            forall|d: int| 0 <= d < k ==> a@[d] == b@[d],
        decreases n - k,
    {
        if a[k] != b[k] {
            return false;
        }
        k += 1;
    }
    proof {
        assert(a@ =~= b@);
    }
    true
}

/// The observable contents of an upsert log: each entry overwrites its
/// key, latest entry winning.
pub open spec fn entries_map(s: Seq<(Vec<u8>, Vec<Vec<u8>>)>) -> Map<Seq<u8>, Seq<Seq<u8>>>
    decreases s.len(),
{
    if s.len() == 0 {
        Map::<Seq<u8>, Seq<Seq<u8>>>::empty()
    } else {
        entries_map(s.drop_last()).insert(s.last().0@, s.last().1.deep_view())
    }
}

/// A model of the store's collection: what it holds is a map from point
/// identifier to vector, and upserting overwrites by key.
pub struct VectorStore {
    entries: Vec<(Vec<u8>, Vec<Vec<u8>>)>,
}

impl View for VectorStore {
    type V = Map<Seq<u8>, Seq<Seq<u8>>>;

    closed spec fn view(&self) -> Map<Seq<u8>, Seq<Seq<u8>>> {
        entries_map(self.entries@)
    }
}

impl VectorStore {
    /// An empty collection.
    pub fn new() -> (r: VectorStore)
        ensures
            r@ == Map::<Seq<u8>, Seq<Seq<u8>>>::empty(),
    {
        VectorStore { entries: Vec::new() }
    }

    /// Insert or overwrite the point under its identifier.
    pub fn upsert(&mut self, point: StoredPoint)
        ensures
            final(self)@ == old(self)@.insert(point.point_id@, point.vector.deep_view()),
    {
        let ghost pre = self.entries@;
        self.entries.push((point.point_id, point.vector));
        proof {
            assert(self.entries@.drop_last() =~= pre);
        }
    }

    /// The vector stored under a point identifier, if any.
    pub fn lookup(&self, point_id: &Vec<u8>) -> (r: Option<&Vec<Vec<u8>>>)
        ensures
            r matches Some(v) ==> self@.contains_key(point_id@) && v.deep_view()
                == self@[point_id@],
            r is None ==> !self@.contains_key(point_id@),
    {
        let n = self.entries.len();
        let mut i: usize = n;
        proof {
            assert(self.entries@.take(n as int) =~= self.entries@);
        }
        while i > 0
            invariant
                i <= n,
                n == self.entries@.len(),
                entries_map(self.entries@).contains_key(point_id@) == entries_map(
                    self.entries@.take(i as int),
                ).contains_key(point_id@),
                entries_map(self.entries@).contains_key(point_id@) ==> entries_map(
                    self.entries@,
                )[point_id@] == entries_map(self.entries@.take(i as int))[point_id@],
            decreases i,
        {
            let idx = i - 1;
            let hit = bytes_eq(&self.entries[idx].0, point_id);
            proof {
                assert(self.entries@.take(idx + 1).drop_last() =~= self.entries@.take(idx as int));
                assert(self.entries@.take(idx + 1).last() == self.entries@[idx as int]);
            }
            if hit {
                return Some(&self.entries[idx].1);
            }
            i = idx;
        }
        proof {
            assert(self.entries@.take(0) =~= Seq::<(Vec<u8>, Vec<Vec<u8>>)>::empty());
        }
        None
    }
}

/// Upserting one identifier twice leaves exactly one point for it, with
/// the latest vector: re-processing a document overwrites rather than
/// duplicates, so at-least-once redelivery is safe at the indexing stage.
pub proof fn lemma_upsert_idempotent(
    m: Map<Seq<u8>, Seq<Seq<u8>>>,
    k: Seq<u8>,
    v1: Seq<Seq<u8>>,
    v2: Seq<Seq<u8>>,
)
    ensures
        m.insert(k, v1).insert(k, v2) == m.insert(k, v2),
        m.insert(k, v1).insert(k, v2)[k] == v2,
        m.insert(k, v1).insert(k, v2).dom() == m.insert(k, v2).dom(),
{
    assert(m.insert(k, v1).insert(k, v2) =~= m.insert(k, v2));
}

} // verus!
