//! The wire codec for the two broker events.
//!
//! Each event travels as one JSON object in a fixed, schema-stable shape:
//! the received event as `{"payload":{"id":"<36-byte identifier>",
//! "content":"<escaped text>"}}` and the vectorized event as
//! `{"id":"<identifier>","vector":[<number tokens>]}`. Encoding and
//! decoding are proved inverse to each other: whatever decodes re-encodes
//! to the same bytes, and every encoding decodes to the original event.
//! Any other byte sequence is rejected, never trusted.

use vstd::prelude::*;

use crate::events::{DocumentPayload, DocumentReceivedEvent, DocumentVectorizedEvent};
use crate::ident::{uuid_str, decode_doc_id_at, encode_doc_id};
use crate::numtok::{join_tokens, parse_tokens, is_num_token, lemma_parse_tokens_of_join,
    lemma_parse_tokens_sound, push_all, scan_tokens, write_tokens};
use crate::text::{esc, unesc, lemma_unesc_of_esc, lemma_unesc_sound, scan_string, write_escaped};

verus! {

/// The bytes of `{"payload":{"id":"`.
pub open spec fn recv_prefix() -> Seq<u8> {
    seq![
        123u8, 34u8, 112u8, 97u8, 121u8, 108u8, 111u8, 97u8, 100u8, 34u8, 58u8, 123u8, 34u8,
        105u8, 100u8, 34u8, 58u8, 34u8,
    ]
}

/// The bytes of `","content":"`.
pub open spec fn recv_mid() -> Seq<u8> {
    seq![34u8, 44u8, 34u8, 99u8, 111u8, 110u8, 116u8, 101u8, 110u8, 116u8, 34u8, 58u8, 34u8]
}

/// The bytes of `{"id":"`.
pub open spec fn vect_prefix() -> Seq<u8> {
    seq![123u8, 34u8, 105u8, 100u8, 34u8, 58u8, 34u8]
}

/// The bytes of `","vector":[`.
pub open spec fn vect_mid() -> Seq<u8> {
    seq![34u8, 44u8, 34u8, 118u8, 101u8, 99u8, 116u8, 111u8, 114u8, 34u8, 58u8, 91u8]
}

/// The wire form of a received event.
pub open spec fn enc_received(id: Seq<u8>, content: Seq<u8>) -> Seq<u8> {
    recv_prefix() + uuid_str(id) + recv_mid() + esc(content) + seq![34u8, 125u8, 125u8]
}

/// The wire form of a vectorized event.
pub open spec fn enc_vectorized(id: Seq<u8>, toks: Seq<Seq<u8>>) -> Seq<u8> {
    vect_prefix() + uuid_str(id) + vect_mid() + join_tokens(toks) + seq![93u8, 125u8]
}

/// The wire form of a received event, part by part.
pub proof fn lemma_enc_received_parts(id: Seq<u8>, c: Seq<u8>)
    requires
        id.len() == 16,
    ensures
        enc_received(id, c).len() == 70 + esc(c).len(),
        enc_received(id, c).subrange(0, 18) == recv_prefix(),
        enc_received(id, c).subrange(18, 54) == uuid_str(id),
        enc_received(id, c).subrange(54, 67) == recv_mid(),
        enc_received(id, c).skip(67) == esc(c) + seq![34u8] + seq![125u8, 125u8],
{
    let e = enc_received(id, c);
    assert(uuid_str(id).len() == 36);
    assert(e.len() == 70 + esc(c).len());
    assert(e.subrange(0, 18) =~= recv_prefix());
    assert(e.subrange(18, 54) =~= uuid_str(id));
    assert(e.subrange(54, 67) =~= recv_mid());
    assert(e.skip(67) =~= esc(c) + seq![34u8] + seq![125u8, 125u8]);
}

/// The wire form of a vectorized event, part by part.
pub proof fn lemma_enc_vectorized_parts(id: Seq<u8>, toks: Seq<Seq<u8>>)
    requires
        id.len() == 16,
    ensures
        enc_vectorized(id, toks).len() == 57 + join_tokens(toks).len(),
        enc_vectorized(id, toks).subrange(0, 7) == vect_prefix(),
        enc_vectorized(id, toks).subrange(7, 43) == uuid_str(id),
        enc_vectorized(id, toks).subrange(43, 55) == vect_mid(),
        enc_vectorized(id, toks).skip(55) == join_tokens(toks) + seq![93u8] + seq![125u8],
{
    let e = enc_vectorized(id, toks);
    assert(uuid_str(id).len() == 36);
    assert(e.len() == 57 + join_tokens(toks).len());
    assert(e.subrange(0, 7) =~= vect_prefix());
    assert(e.subrange(7, 43) =~= uuid_str(id));
    assert(e.subrange(43, 55) =~= vect_mid());
    assert(e.skip(55) =~= join_tokens(toks) + seq![93u8] + seq![125u8]);
}

/// A received-event wire form determines its identifier and content: the
/// identifier observed by a consumer is the identifier the producer
/// serialized, whatever parse produced it.
pub proof fn lemma_enc_received_injective(id1: Seq<u8>, c1: Seq<u8>, id2: Seq<u8>, c2: Seq<u8>)
    requires
        id1.len() == 16,
        id2.len() == 16,
        enc_received(id1, c1) == enc_received(id2, c2),
    ensures
        id1 == id2,
        c1 == c2,
{
    lemma_enc_received_parts(id1, c1);
    lemma_enc_received_parts(id2, c2);
    let e = enc_received(id1, c1);
    assert(e.subrange(18, 54) == uuid_str(id1) && e.subrange(18, 54) == uuid_str(id2));
    crate::ident::lemma_uuid_str_injective(id1, id2);
    assert(e.skip(67) == esc(c1) + seq![34u8] + seq![125u8, 125u8]);
    assert(e.skip(67) == esc(c2) + seq![34u8] + seq![125u8, 125u8]);
    lemma_unesc_of_esc(c1, seq![125u8, 125u8]);
    lemma_unesc_of_esc(c2, seq![125u8, 125u8]);
    assert(unesc(e.skip(67)) matches Some(p) && p.0 == c1 && p.0 == c2);
}

/// A vectorized-event wire form determines its identifier and tokens.
pub proof fn lemma_enc_vectorized_injective(
    id1: Seq<u8>,
    t1: Seq<Seq<u8>>,
    id2: Seq<u8>,
    t2: Seq<Seq<u8>>,
)
    requires
        id1.len() == 16,
        id2.len() == 16,
        forall|j: int| 0 <= j < t1.len() ==> is_num_token(#[trigger] t1[j]),
        forall|j: int| 0 <= j < t2.len() ==> is_num_token(#[trigger] t2[j]),
        enc_vectorized(id1, t1) == enc_vectorized(id2, t2),
    ensures
        id1 == id2,
        t1 == t2,
{
    lemma_enc_vectorized_parts(id1, t1);
    lemma_enc_vectorized_parts(id2, t2);
    let e = enc_vectorized(id1, t1);
    assert(e.subrange(7, 43) == uuid_str(id1) && e.subrange(7, 43) == uuid_str(id2));
    crate::ident::lemma_uuid_str_injective(id1, id2);
    assert(e.skip(55) == join_tokens(t1) + seq![93u8] + seq![125u8]);
    assert(e.skip(55) == join_tokens(t2) + seq![93u8] + seq![125u8]);
    lemma_parse_tokens_of_join(t1, seq![125u8]);
    lemma_parse_tokens_of_join(t2, seq![125u8]);
    assert(parse_tokens(e.skip(55)) matches Some(p) && p.0 == t1 && p.0 == t2);
}

/// The pipeline's central invariant, across both broker hops: when the
/// embedding worker parses the record ingestion published for a document
/// (its parse re-encodes to the same bytes), and the indexing worker in
/// turn parses the record the embedding worker published under the parsed
/// identifier, the identifier observed at the store equals the identifier
/// assigned at ingestion — no truncation, no reinterpretation — and the
/// content and vector arrive unchanged as well.
pub proof fn lemma_identifier_preserved_end_to_end(
    id: Seq<u8>,
    c: Seq<u8>,
    id2: Seq<u8>,
    c2: Seq<u8>,
    toks: Seq<Seq<u8>>,
    id3: Seq<u8>,
    toks3: Seq<Seq<u8>>,
)
    requires
        id.len() == 16,
        id2.len() == 16,
        id3.len() == 16,
        forall|j: int| 0 <= j < toks.len() ==> is_num_token(#[trigger] toks[j]),
        forall|j: int| 0 <= j < toks3.len() ==> is_num_token(#[trigger] toks3[j]),
        enc_received(id, c) == enc_received(id2, c2),
        enc_vectorized(id2, toks) == enc_vectorized(id3, toks3),
    ensures
        id3 == id,
        c2 == c,
        toks3 == toks,
{
    lemma_enc_received_injective(id, c, id2, c2);
    lemma_enc_vectorized_injective(id2, toks, id3, toks3);
}

/// The bytes of `{"payload":{"id":"`, as a buffer.
fn recv_prefix_vec() -> (r: Vec<u8>)
    ensures
        r@ == recv_prefix(),
{
    let mut v: Vec<u8> = Vec::new();
    v.push(123);
    v.push(34);
    v.push(112);
    v.push(97);
    v.push(121);
    v.push(108);
    v.push(111);
    v.push(97);
    v.push(100);
    v.push(34);
    v.push(58);
    v.push(123);
    v.push(34);
    v.push(105);
    v.push(100);
    v.push(34);
    v.push(58);
    v.push(34);
    proof {
        assert(v@ =~= recv_prefix());
    }
    v
}

/// The bytes of `","content":"`, as a buffer.
fn recv_mid_vec() -> (r: Vec<u8>)
    ensures
        r@ == recv_mid(),
{
    let mut v: Vec<u8> = Vec::new();
    v.push(34);
    v.push(44);
    v.push(34);
    v.push(99);
    v.push(111);
    v.push(110);
    v.push(116);
    v.push(101);
    v.push(110);
    v.push(116);
    v.push(34);
    v.push(58);
    v.push(34);
    proof {
        assert(v@ =~= recv_mid());
    }
    v
}

/// The bytes of `{"id":"`, as a buffer.
fn vect_prefix_vec() -> (r: Vec<u8>)
    ensures
        r@ == vect_prefix(),
{
    let mut v: Vec<u8> = Vec::new();
    v.push(123);
    v.push(34);
    v.push(105);
    v.push(100);
    v.push(34);
    v.push(58);
    v.push(34);
    proof {
        assert(v@ =~= vect_prefix());
    }
    v
}

/// The bytes of `","vector":[`, as a buffer.
fn vect_mid_vec() -> (r: Vec<u8>)
    ensures
        r@ == vect_mid(),
{
    let mut v: Vec<u8> = Vec::new();
    v.push(34);
    v.push(44);
    v.push(34);
    v.push(118);
    v.push(101);
    v.push(99);
    v.push(116);
    v.push(111);
    v.push(114);
    v.push(34);
    v.push(58);
    v.push(91);
    proof {
        assert(v@ =~= vect_mid());
    }
    v
}

/// Compare a pattern against `input` at offset `at`.
fn match_bytes_at(input: &Vec<u8>, at: usize, pat: &Vec<u8>) -> (r: bool)
    requires
        at + pat@.len() <= input@.len(),
    ensures
        r == (input@.subrange(at as int, at as int + pat@.len()) == pat@),
{
    let m = pat.len();
    let n = input.len();
    let mut k: usize = 0;
    while k < m
        invariant
            k <= m,
            m == pat@.len(),
            n == input@.len(),
            at + m <= n,
            forall|d: int| 0 <= d < k ==> input@[at + d] == pat@[d],
        decreases m - k,
    {
        if input[at + k] != pat[k] {
            proof {
                assert(input@.subrange(at as int, at as int + m)[k as int] == input@[at + k]);
            }
            return false;
        }
        k += 1;
    }
    proof {
        assert(input@.subrange(at as int, at as int + m) =~= pat@);
    }
    true
}

/// Encode a received event in its wire form.
pub fn encode_received(ev: &DocumentReceivedEvent) -> (r: Vec<u8>)
    requires
        ev.wf(),
    ensures
        r@ == enc_received(ev.payload.id@, ev.payload.content@),
{
    let mut out: Vec<u8> = Vec::new();
    let pre = recv_prefix_vec();
    push_all(&mut out, &pre);
    let idtxt = encode_doc_id(&ev.payload.id);
    push_all(&mut out, &idtxt);
    let mid = recv_mid_vec();
    push_all(&mut out, &mid);
    write_escaped(&mut out, &ev.payload.content);
    out.push(34);
    out.push(125);
    out.push(125);
    proof {
        assert(out@ =~= enc_received(ev.payload.id@, ev.payload.content@));
    }
    out
}

/// Encode a vectorized event in its wire form.
pub fn encode_vectorized(ev: &DocumentVectorizedEvent) -> (r: Vec<u8>)
    requires
        ev.wf(),
    ensures
        r@ == enc_vectorized(ev.id@, ev.vector.deep_view()),
{
    let mut out: Vec<u8> = Vec::new();
    let pre = vect_prefix_vec();
    push_all(&mut out, &pre);
    let idtxt = encode_doc_id(&ev.id);
    push_all(&mut out, &idtxt);
    let mid = vect_mid_vec();
    push_all(&mut out, &mid);
    write_tokens(&mut out, &ev.vector);
    out.push(93);
    out.push(125);
    proof {
        assert(out@ =~= enc_vectorized(ev.id@, ev.vector.deep_view()));
    }
    out
}

/// Decode a wire buffer as a received event.
///
/// Exactly the wire forms of well-formed events are accepted: a decoded
/// event re-encodes to the input, and every encoding decodes to the event
/// that produced it. Everything else is rejected.
pub fn decode_received(input: &Vec<u8>) -> (r: Option<DocumentReceivedEvent>)
    ensures
        r matches Some(ev) ==> ev.wf() && input@ == enc_received(
            ev.payload.id@,
            ev.payload.content@,
        ),
        forall|id: Seq<u8>, c: Seq<u8>|
            id.len() == 16 && input@ == enc_received(id, c) ==> (r matches Some(ev)
                && ev.payload.id@ == id && ev.payload.content@ == c),
{
    let n = input.len();
    if n < 70 {
        proof {
            assert forall|id: Seq<u8>, c: Seq<u8>| id.len() == 16 implies input@ != enc_received(
                id,
                c,
            ) by {
                lemma_enc_received_parts(id, c);
            }
        }
        return None;
    }
    let pre = recv_prefix_vec();
    if !match_bytes_at(input, 0, &pre) {
        proof {
            assert forall|id: Seq<u8>, c: Seq<u8>| id.len() == 16 implies input@ != enc_received(
                id,
                c,
            ) by {
                lemma_enc_received_parts(id, c);
                if input@ == enc_received(id, c) {
                    assert(input@.subrange(0, 18) == recv_prefix());
                }
            }
        }
        return None;
    }
    let id = match decode_doc_id_at(input, 18) {
        Some(id) => id,
        None => {
            proof {
                assert forall|id: Seq<u8>, c: Seq<u8>|
                    id.len() == 16 implies input@ != enc_received(id, c) by {
                    lemma_enc_received_parts(id, c);
                    if input@ == enc_received(id, c) {
                        assert(input@.subrange(18, 54) == uuid_str(id));
                    }
                }
            }
            return None;
        },
    };
    let mid = recv_mid_vec();
    if !match_bytes_at(input, 54, &mid) {
        proof {
            assert forall|id2: Seq<u8>, c: Seq<u8>| id2.len() == 16 implies input@ != enc_received(
                id2,
                c,
            ) by {
                lemma_enc_received_parts(id2, c);
                if input@ == enc_received(id2, c) {
                    assert(input@.subrange(54, 67) == recv_mid());
                }
            }
        }
        return None;
    }
    let scanned = scan_string(input, 67);
    match scanned {
        None => {
            proof {
                assert forall|id2: Seq<u8>, c: Seq<u8>|
                    id2.len() == 16 implies input@ != enc_received(id2, c) by {
                    lemma_enc_received_parts(id2, c);
                    if input@ == enc_received(id2, c) {
                        assert(input@.skip(67) == esc(c) + seq![34u8] + seq![125u8, 125u8]);
                        lemma_unesc_of_esc(c, seq![125u8, 125u8]);
                    }
                }
            }
            return None;
        },
        Some((content, qpos)) => {
            if !(qpos == n - 3 && input[n - 2] == 125 && input[n - 1] == 125) {
                proof {
                    assert forall|id2: Seq<u8>, c: Seq<u8>|
                        id2.len() == 16 implies input@ != enc_received(id2, c) by {
                        lemma_enc_received_parts(id2, c);
                        if input@ == enc_received(id2, c) {
                            let tail = esc(c) + seq![34u8] + seq![125u8, 125u8];
                            assert(input@.skip(67) == tail);
                            lemma_unesc_of_esc(c, seq![125u8, 125u8]);
                            assert(unesc(input@.skip(67)) matches Some(q) && q.1 == esc(c).len());
                            assert(qpos - 67 == esc(c).len());
                            assert(n == 70 + esc(c).len());
                            assert(input@[n - 2] == tail[n - 2 - 67]);
                            assert(input@[n - 1] == tail[n - 1 - 67]);
                        }
                    }
                }
                return None;
            }
            proof {
                lemma_unesc_sound(input@.skip(67));
                assert(unesc(input@.skip(67)) matches Some(q) && q.0 == content@ && q.1 == qpos
                    - 67);
                assert(esc(content@) == input@.skip(67).take(qpos - 67));
                assert(input@.skip(67)[qpos - 67] == input@[qpos as int]);
                let e = enc_received(id@, content@);
                lemma_enc_received_parts(id@, content@);
                assert(e.len() == 70 + esc(content@).len());
                assert(esc(content@).len() == qpos - 67);
                assert(e.len() == n);
                assert forall|i: int| 0 <= i < n implies input@[i] == e[i] by {
                    if i < 18 {
                        assert(input@.subrange(0, 18)[i] == input@[i]);
                        assert(e.subrange(0, 18)[i] == e[i]);
                        assert(input@.subrange(0, 18) == recv_prefix());
                    } else if i < 54 {
                        assert(input@.subrange(18, 54)[i - 18] == input@[i]);
                        assert(e.subrange(18, 54)[i - 18] == e[i]);
                        assert(input@.subrange(18, 54) == uuid_str(id@));
                    } else if i < 67 {
                        assert(input@.subrange(54, 67)[i - 54] == input@[i]);
                        assert(e.subrange(54, 67)[i - 54] == e[i]);
                        assert(input@.subrange(54, 67) == recv_mid());
                    } else {
                        let tail = esc(content@) + seq![34u8] + seq![125u8, 125u8];
                        assert(e.skip(67) == tail);
                        assert(e.skip(67)[i - 67] == e[i]);
                        if i < qpos {
                            assert(input@.skip(67).take(qpos - 67)[i - 67] == input@[i]);
                            assert(tail[i - 67] == esc(content@)[i - 67]);
                        } else if i == qpos {
                            assert(input@[i] == 34);
                            assert(tail[i - 67] == 34);
                        } else {
                            assert(input@[i] == 125);
                            assert(tail[i - 67] == 125);
                        }
                    }
                }
                assert(input@ =~= e);
                assert forall|id2: Seq<u8>, c2: Seq<u8>|
                    id2.len() == 16 && input@ == enc_received(id2, c2) implies id@ == id2
                    && content@ == c2 by {
                    lemma_enc_received_parts(id2, c2);
                    assert(input@.subrange(18, 54) == uuid_str(id2));
                    assert(input@.skip(67) == esc(c2) + seq![34u8] + seq![125u8, 125u8]);
                    lemma_unesc_of_esc(c2, seq![125u8, 125u8]);
                    assert(unesc(input@.skip(67)) matches Some(q2) && q2.0 == c2);
                }
            }
            Some(DocumentReceivedEvent { payload: DocumentPayload { id, content } })
        },
    }
}

/// Decode a wire buffer as a vectorized event.
///
/// Exactly the wire forms of well-formed events are accepted: a decoded
/// event re-encodes to the input, and every encoding decodes to the event
/// that produced it. Everything else is rejected.
pub fn decode_vectorized(input: &Vec<u8>) -> (r: Option<DocumentVectorizedEvent>)
    ensures
        r matches Some(ev) ==> ev.wf() && input@ == enc_vectorized(ev.id@, ev.vector.deep_view()),
        forall|id: Seq<u8>, toks: Seq<Seq<u8>>|
            id.len() == 16 && (forall|j: int| 0 <= j < toks.len() ==> is_num_token(
                #[trigger] toks[j],
            )) && input@ == enc_vectorized(id, toks) ==> (r matches Some(ev) && ev.id@ == id
                && ev.vector.deep_view() == toks),
{
    let n = input.len();
    if n < 57 {
        proof {
            assert forall|id: Seq<u8>, toks: Seq<Seq<u8>>|
                id.len() == 16 implies input@ != enc_vectorized(id, toks) by {
                lemma_enc_vectorized_parts(id, toks);
            }
        }
        return None;
    }
    let pre = vect_prefix_vec();
    if !match_bytes_at(input, 0, &pre) {
        proof {
            assert forall|id: Seq<u8>, toks: Seq<Seq<u8>>|
                id.len() == 16 implies input@ != enc_vectorized(id, toks) by {
                lemma_enc_vectorized_parts(id, toks);
                if input@ == enc_vectorized(id, toks) {
                    assert(input@.subrange(0, 7) == vect_prefix());
                }
            }
        }
        return None;
    }
    let id = match decode_doc_id_at(input, 7) {
        Some(id) => id,
        None => {
            proof {
                assert forall|id: Seq<u8>, toks: Seq<Seq<u8>>|
                    id.len() == 16 implies input@ != enc_vectorized(id, toks) by {
                    lemma_enc_vectorized_parts(id, toks);
                    if input@ == enc_vectorized(id, toks) {
                        assert(input@.subrange(7, 43) == uuid_str(id));
                    }
                }
            }
            return None;
        },
    };
    let mid = vect_mid_vec();
    if !match_bytes_at(input, 43, &mid) {
        proof {
            assert forall|id2: Seq<u8>, toks: Seq<Seq<u8>>|
                id2.len() == 16 implies input@ != enc_vectorized(id2, toks) by {
                lemma_enc_vectorized_parts(id2, toks);
                if input@ == enc_vectorized(id2, toks) {
                    assert(input@.subrange(43, 55) == vect_mid());
                }
            }
        }
        return None;
    }
    let scanned = scan_tokens(input, 55);
    match scanned {
        None => {
            proof {
                assert forall|id2: Seq<u8>, toks: Seq<Seq<u8>>|
                    id2.len() == 16 && (forall|j: int| 0 <= j < toks.len() ==> is_num_token(
                        #[trigger] toks[j],
                    )) implies input@ != enc_vectorized(id2, toks) by {
                    lemma_enc_vectorized_parts(id2, toks);
                    if input@ == enc_vectorized(id2, toks) {
                        assert(input@.skip(55) == join_tokens(toks) + seq![93u8] + seq![125u8]);
                        lemma_parse_tokens_of_join(toks, seq![125u8]);
                    }
                }
            }
            return None;
        },
        Some((vector, bpos)) => {
            if !(bpos == n - 2 && input[n - 1] == 125) {
                proof {
                    assert forall|id2: Seq<u8>, toks: Seq<Seq<u8>>|
                        id2.len() == 16 && (forall|j: int| 0 <= j < toks.len() ==> is_num_token(
                            #[trigger] toks[j],
                        )) implies input@ != enc_vectorized(id2, toks) by {
                        lemma_enc_vectorized_parts(id2, toks);
                        if input@ == enc_vectorized(id2, toks) {
                            let tail = join_tokens(toks) + seq![93u8] + seq![125u8];
                            assert(input@.skip(55) == tail);
                            lemma_parse_tokens_of_join(toks, seq![125u8]);
                            assert(parse_tokens(input@.skip(55)) matches Some(q) && q.1
                                == join_tokens(toks).len());
                            assert(bpos - 55 == join_tokens(toks).len());
                            assert(n == 57 + join_tokens(toks).len());
                            assert(input@[n - 1] == tail[n - 1 - 55]);
                        }
                    }
                }
                return None;
            }
            proof {
                lemma_parse_tokens_sound(input@.skip(55));
                assert(parse_tokens(input@.skip(55)) matches Some(q) && q.0 == vector.deep_view()
                    && q.1 == bpos - 55);
                let toks = vector.deep_view();
                assert(join_tokens(toks) == input@.skip(55).take(bpos - 55));
                assert(input@.skip(55)[bpos - 55] == input@[bpos as int]);
                let e = enc_vectorized(id@, toks);
                lemma_enc_vectorized_parts(id@, toks);
                assert(join_tokens(toks).len() == bpos - 55);
                assert(e.len() == n);
                assert forall|i: int| 0 <= i < n implies input@[i] == e[i] by {
                    if i < 7 {
                        assert(input@.subrange(0, 7)[i] == input@[i]);
                        assert(e.subrange(0, 7)[i] == e[i]);
                        assert(input@.subrange(0, 7) == vect_prefix());
                    } else if i < 43 {
                        assert(input@.subrange(7, 43)[i - 7] == input@[i]);
                        assert(e.subrange(7, 43)[i - 7] == e[i]);
                        assert(input@.subrange(7, 43) == uuid_str(id@));
                    } else if i < 55 {
                        assert(input@.subrange(43, 55)[i - 43] == input@[i]);
                        assert(e.subrange(43, 55)[i - 43] == e[i]);
                        assert(input@.subrange(43, 55) == vect_mid());
                    } else {
                        let tail = join_tokens(toks) + seq![93u8] + seq![125u8];
                        assert(e.skip(55) == tail);
                        assert(e.skip(55)[i - 55] == e[i]);
                        if i < bpos {
                            assert(input@.skip(55).take(bpos - 55)[i - 55] == input@[i]);
                            assert(tail[i - 55] == join_tokens(toks)[i - 55]);
                        } else if i == bpos {
                            assert(input@[i] == 93);
                            assert(tail[i - 55] == 93);
                        } else {
                            assert(input@[i] == 125);
                            assert(tail[i - 55] == 125);
                        }
                    }
                }
                assert(input@ =~= e);
                assert forall|id2: Seq<u8>, toks2: Seq<Seq<u8>>|
                    id2.len() == 16 && (forall|j: int| 0 <= j < toks2.len() ==> is_num_token(
                        #[trigger] toks2[j],
                    )) && input@ == enc_vectorized(id2, toks2) implies id@ == id2
                    && vector.deep_view() == toks2 by {
                    lemma_enc_vectorized_parts(id2, toks2);
                    assert(input@.subrange(7, 43) == uuid_str(id2));
                    assert(input@.skip(55) == join_tokens(toks2) + seq![93u8] + seq![125u8]);
                    lemma_parse_tokens_of_join(toks2, seq![125u8]);
                    assert(parse_tokens(input@.skip(55)) matches Some(q2) && q2.0 == toks2);
                }
            }
            Some(DocumentVectorizedEvent { id, vector })
        },
    }
}

} // verus!
