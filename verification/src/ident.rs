//! Document identifiers and their lossless text encoding.
//!
//! A document identifier is a 128-bit value assigned once at ingestion. On the
//! wire and in the point store it travels as its canonical hyphenated
//! lowercase hexadecimal form (36 bytes, `xxxxxxxx-xxxx-xxxx-xxxx-xxxxxxxxxxxx`).
//! The encoding is proved reversible: decoding the text form reproduces the
//! original 16 bytes exactly, so the identifier observed at the store equals
//! the identifier assigned at ingestion.

use vstd::prelude::*;

verus! {

/// A 128-bit document identifier, held as its 16 raw bytes in the order the
/// canonical text form prints them.
pub struct DocId {
    bytes: Vec<u8>,
}

impl View for DocId {
    type V = Seq<u8>;

    closed spec fn view(&self) -> Seq<u8> {
        self.bytes@
    }
}

impl DocId {
    /// A well-formed identifier holds exactly 16 bytes.
    pub open spec fn wf(&self) -> bool {
        self@.len() == 16
    }

    /// Build an identifier from raw bytes; succeeds exactly when 16 bytes are given.
    pub fn from_bytes(bytes: Vec<u8>) -> (r: Option<DocId>)
        ensures
            r matches Some(id) ==> id.wf() && id@ == bytes@,
            r is Some <==> bytes@.len() == 16,
    {
        if bytes.len() == 16 {
            Some(DocId { bytes })
        } else {
            None
        }
    }

    /// The identifier's raw bytes.
    pub fn as_bytes(&self) -> (r: &Vec<u8>)
        ensures
            r@ == self@,
    {
        &self.bytes
    }
}

impl Clone for DocId {
    fn clone(&self) -> (r: DocId)
        ensures
            r@ == self@,
    {
        let mut bytes: Vec<u8> = Vec::new();
        let mut i: usize = 0;
        while i < self.bytes.len()
            invariant
                i <= self.bytes@.len(),
                bytes@ == self.bytes@.take(i as int),
            decreases self.bytes@.len() - i,
        {
            bytes.push(self.bytes[i]);
            proof {
                assert(bytes@ =~= self.bytes@.take(i as int + 1));
            }
            i += 1;
        }
        proof {
            assert(bytes@ =~= self.bytes@);
        }
        DocId { bytes }
    }
}

/// The lowercase hexadecimal digit for a nibble value.
pub open spec fn hex_digit(n: int) -> u8
    recommends
        0 <= n < 16,
{
    if n < 10 {
        (48 + n) as u8
    } else {
        (87 + n) as u8
    }
}

/// Encode one nibble as its lowercase hexadecimal digit.
pub fn hex_digit_of(n: u8) -> (r: u8)
    requires
        n < 16,
    ensures
        r == hex_digit(n as int),
{
    if n < 10 {
        48 + n
    } else {
        87 + n
    }
}

/// Whether a byte is a lowercase hexadecimal digit.
pub open spec fn is_lower_hex(b: u8) -> bool {
    (48 <= b && b <= 57) || (97 <= b && b <= 102)
}

/// The value of a lowercase hexadecimal digit.
pub open spec fn lower_hex_val(b: u8) -> int
    recommends
        is_lower_hex(b),
{
    if 48 <= b && b <= 57 {
        b - 48
    } else {
        b - 87
    }
}

/// The value of one hexadecimal digit, or nothing for any other byte.
/// Only the canonical lowercase digits are accepted.
pub fn hex_val(b: u8) -> (r: Option<u8>)
    ensures
        r is Some <==> is_lower_hex(b),
        r matches Some(v) ==> v < 16 && v as int == lower_hex_val(b) && hex_digit(v as int) == b,
        r is None ==> forall|n: int| 0 <= n < 16 ==> hex_digit(n) != b,
{
    if 48 <= b && b <= 57 {
        Some(b - 48)
    } else if 97 <= b && b <= 102 {
        Some(b - 97 + 10)
    } else {
        None
    }
}

/// Whether text position `i` of the canonical form holds a hyphen.
pub open spec fn is_hyphen_pos(i: int) -> bool {
    i == 8 || i == 13 || i == 18 || i == 23
}

/// The nibble printed at non-hyphen text position `i`.
pub open spec fn nibble_index(i: int) -> int
    recommends
        0 <= i < 36,
        !is_hyphen_pos(i),
{
    if i < 8 {
        i
    } else if i < 13 {
        i - 1
    } else if i < 18 {
        i - 2
    } else if i < 23 {
        i - 3
    } else {
        i - 4
    }
}

/// The text position at which nibble `j` is printed.
pub open spec fn nibble_pos(j: int) -> int
    recommends
        0 <= j < 32,
{
    if j < 8 {
        j
    } else if j < 12 {
        j + 1
    } else if j < 16 {
        j + 2
    } else if j < 20 {
        j + 3
    } else {
        j + 4
    }
}

/// Nibble `j` of an identifier: the high or low half of byte `j / 2`.
pub open spec fn nibble_of(s: Seq<u8>, j: int) -> int
    recommends
        s.len() == 16,
        0 <= j < 32,
{
    if j % 2 == 0 {
        s[j / 2] as int / 16
    } else {
        s[j / 2] as int % 16
    }
}

/// The byte printed at text position `i` of the canonical form of `s`.
pub open spec fn id_char(s: Seq<u8>, i: int) -> u8
    recommends
        s.len() == 16,
        0 <= i < 36,
{
    if is_hyphen_pos(i) {
        45
    } else {
        hex_digit(nibble_of(s, nibble_index(i)))
    }
}

/// The canonical hyphenated lowercase text form of a 16-byte identifier.
pub open spec fn uuid_str(s: Seq<u8>) -> Seq<u8>
    recommends
        s.len() == 16,
{
    Seq::new(36, |i: int| id_char(s, i))
}

/// Two identifiers with the same canonical text form are the same identifier.
pub proof fn lemma_uuid_str_injective(a: Seq<u8>, b: Seq<u8>)
    requires
        a.len() == 16,
        b.len() == 16,
        uuid_str(a) == uuid_str(b),
    ensures
        a == b,
{
    assert forall|k: int| 0 <= k < 16 implies a[k] == b[k] by {
        let ph = nibble_pos(2 * k);
        let pl = nibble_pos(2 * k + 1);
        assert(0 <= ph < 36 && !is_hyphen_pos(ph));
        assert(0 <= pl < 36 && !is_hyphen_pos(pl));
        assert(uuid_str(a)[ph] == id_char(a, ph));
        assert(uuid_str(b)[ph] == id_char(b, ph));
        assert(uuid_str(a)[pl] == id_char(a, pl));
        assert(uuid_str(b)[pl] == id_char(b, pl));
        assert(nibble_index(ph) == 2 * k);
        assert(nibble_index(pl) == 2 * k + 1);
        assert(hex_digit(nibble_of(a, 2 * k)) == hex_digit(nibble_of(b, 2 * k)));
        assert(hex_digit(nibble_of(a, 2 * k + 1)) == hex_digit(nibble_of(b, 2 * k + 1)));
        assert(nibble_of(a, 2 * k) == nibble_of(b, 2 * k));
        assert(nibble_of(a, 2 * k + 1) == nibble_of(b, 2 * k + 1));
        assert(a[k] as int == (a[k] as int / 16) * 16 + a[k] as int % 16);
        assert(b[k] as int == (b[k] as int / 16) * 16 + b[k] as int % 16);
    }
    assert(a =~= b);
}

/// The text position of nibble `j`, as executable code.
fn nibble_pos_at(j: usize) -> (r: usize)
    requires
        j < 32,
    ensures
        r as int == nibble_pos(j as int),
        r < 36,
        !is_hyphen_pos(r as int),
        nibble_index(r as int) == j as int,
{
    if j < 8 {
        j
    } else if j < 12 {
        j + 1
    } else if j < 16 {
        j + 2
    } else if j < 20 {
        j + 3
    } else {
        j + 4
    }
}

/// Encode an identifier in its canonical hyphenated lowercase text form.
pub fn encode_doc_id(id: &DocId) -> (r: Vec<u8>)
    requires
        id.wf(),
    ensures
        r@ == uuid_str(id@),
{
    let mut r: Vec<u8> = Vec::new();
    let mut i: usize = 0;
    while i < 36
        invariant
            id.wf(),
            i <= 36,
            r@ == uuid_str(id@).take(i as int),
        decreases 36 - i,
    {
        if i == 8 || i == 13 || i == 18 || i == 23 {
            r.push(45);
        } else {
            let j: usize = if i < 8 {
                i
            } else if i < 13 {
                i - 1
            } else if i < 18 {
                i - 2
            } else if i < 23 {
                i - 3
            } else {
                i - 4
            };
            let b = id.bytes[j / 2];
            let n = if j % 2 == 0 {
                b / 16
            } else {
                b % 16
            };
            let d = hex_digit_of(n);
            r.push(d);
        }
        proof {
            assert(r@ =~= uuid_str(id@).take(i as int + 1));
        }
        i += 1;
    }
    proof {
        assert(r@ =~= uuid_str(id@));
    }
    r
}

/// Decode a canonical identifier text form found at `start` in `input`.
///
/// Succeeds exactly on the canonical form: decoding reproduces the encoded
/// identifier, and every identifier's encoding is accepted.
pub fn decode_doc_id_at(input: &Vec<u8>, start: usize) -> (r: Option<DocId>)
    requires
        start + 36 <= input@.len(),
    ensures
        r matches Some(id) ==> id.wf() && input@.subrange(start as int, start as int + 36)
            == uuid_str(id@),
        forall|s: Seq<u8>|
            s.len() == 16 && input@.subrange(start as int, start as int + 36) == uuid_str(s)
                ==> (r matches Some(id) && id@ == s),
{
    let ghost region = input@.subrange(start as int, start as int + 36);
    let n = input.len();
    proof {
        assert(start + 36 <= n);
    }
    if input[start + 8] != 45 || input[start + 13] != 45 || input[start + 18] != 45 || input[start
        + 23] != 45 {
        proof {
            assert forall|s: Seq<u8>| s.len() == 16 implies region != uuid_str(s) by {
                if region == uuid_str(s) {
                    assert(region[8] == input@[start + 8]);
                    assert(region[13] == input@[start + 13]);
                    assert(region[18] == input@[start + 18]);
                    assert(region[23] == input@[start + 23]);
                    assert(uuid_str(s)[8] == 45 && uuid_str(s)[13] == 45 && uuid_str(s)[18] == 45
                        && uuid_str(s)[23] == 45);
                }
            }
        }
        return None;
    }
    let mut bytes: Vec<u8> = Vec::new();
    let mut j: usize = 0;
    while j < 16
        invariant
            start + 36 <= input@.len(),
            start + 36 <= n,
            n == input@.len(),
            region == input@.subrange(start as int, start as int + 36),
            j <= 16,
            bytes@.len() == j,
            forall|k: int|
                0 <= k < j ==> hex_digit(#[trigger] nibble_of(bytes@, 2 * k)) == region[nibble_pos(
                    2 * k,
                )] && hex_digit(nibble_of(bytes@, 2 * k + 1)) == region[nibble_pos(2 * k + 1)],
        decreases 16 - j,
    {
        let ph = nibble_pos_at(2 * j);
        let pl = nibble_pos_at(2 * j + 1);
        let hi_opt = hex_val(input[start + ph]);
        let lo_opt = hex_val(input[start + pl]);
        let (hi, lo) = match (hi_opt, lo_opt) {
            (Some(hi), Some(lo)) => (hi, lo),
            _ => {
                proof {
                    assert forall|s: Seq<u8>| s.len() == 16 implies region != uuid_str(s) by {
                        if region == uuid_str(s) {
                            assert(region[ph as int] == input@[start + ph]);
                            assert(region[pl as int] == input@[start + pl]);
                            assert(uuid_str(s)[ph as int] == hex_digit(nibble_of(s, 2 * (j as int))));
                            assert(uuid_str(s)[pl as int] == hex_digit(
                                nibble_of(s, 2 * (j as int) + 1),
                            ));
                            assert(0 <= nibble_of(s, 2 * (j as int)) < 16);
                            assert(0 <= nibble_of(s, 2 * (j as int) + 1) < 16);
                        }
                    }
                }
                return None;
            },
        };
        let b = hi * 16 + lo;
        proof {
            assert(b as int / 16 == hi as int && b as int % 16 == lo as int);
        }
        let ghost prev = bytes@;
        bytes.push(b);
        proof {
            assert(bytes@[j as int] == b);
            assert forall|k: int|
                0 <= k < j + 1 implies hex_digit(#[trigger] nibble_of(bytes@, 2 * k))
                == region[nibble_pos(2 * k)] && hex_digit(nibble_of(bytes@, 2 * k + 1))
                == region[nibble_pos(2 * k + 1)] by {
                if k < j {
                    assert(bytes@[k] == prev[k]);
                    assert(nibble_of(bytes@, 2 * k) == nibble_of(prev, 2 * k));
                    assert(nibble_of(bytes@, 2 * k + 1) == nibble_of(prev, 2 * k + 1));
                    assert(hex_digit(nibble_of(prev, 2 * k)) == region[nibble_pos(2 * k)]);
                } else {
                    assert(nibble_of(bytes@, 2 * k) == hi as int);
                    assert(nibble_of(bytes@, 2 * k + 1) == lo as int);
                    assert(region[ph as int] == input@[start + ph]);
                    assert(region[pl as int] == input@[start + pl]);
                }
            }
        }
        j += 1;
    }
    let id = DocId { bytes };
    proof {
        assert forall|i: int| 0 <= i < 36 implies region[i] == uuid_str(id@)[i] by {
            if is_hyphen_pos(i) {
                assert(region[i] == input@[start + i]);
            } else {
                let k = nibble_index(i);
                assert(0 <= k < 32);
                assert(nibble_pos(k) == i);
                assert(uuid_str(id@)[i] == id_char(id@, i));
                assert(hex_digit(nibble_of(id@, 2 * (k / 2))) == region[nibble_pos(2 * (k / 2))]);
                if k % 2 == 1 {
                    assert(hex_digit(nibble_of(id@, 2 * (k / 2) + 1)) == region[nibble_pos(
                        2 * (k / 2) + 1,
                    )]);
                }
            }
        }
        assert(region =~= uuid_str(id@));
        assert forall|s: Seq<u8>|
            s.len() == 16 && region == uuid_str(s) implies id@ == s by {
            lemma_uuid_str_injective(id@, s);
        }
    }
    Some(id)
}

/// Decode a whole buffer as a canonical identifier text form.
pub fn decode_doc_id(input: &Vec<u8>) -> (r: Option<DocId>)
    ensures
        r matches Some(id) ==> id.wf() && input@ == uuid_str(id@),
        forall|s: Seq<u8>| s.len() == 16 && input@ == uuid_str(s) ==> (r matches Some(id) && id@
            == s),
{
    if input.len() != 36 {
        proof {
            assert forall|s: Seq<u8>| s.len() == 16 implies input@ != uuid_str(s) by {
                assert(uuid_str(s).len() == 36);
            }
        }
        return None;
    }
    proof {
        assert(input@.subrange(0, 36) =~= input@);
    }
    decode_doc_id_at(input, 0)
}

/// Relies on uuid::Uuid::new_v4: a freshly generated version-4 RFC 4122
/// identifier, returned as its 16 raw bytes in canonical print order. The
/// generator fixes the high nibble of byte 6 to 4 and the top two bits of
/// byte 8 to binary 10; the other 122 bits are random, so nothing more is
/// stated of them.
#[verifier::external_body]
fn fresh_id_bytes() -> (r: Vec<u8>)
    ensures
        r@.len() == 16,
        r@[6] as int / 16 == 4,
        r@[8] as int / 64 == 2,
{
    uuid::Uuid::new_v4().as_bytes().to_vec()
}

/// Generate a fresh document identifier at ingestion: a version-4
/// identifier with the variant bits of RFC 4122.
pub fn fresh_doc_id() -> (r: DocId)
    ensures
        r.wf(),
        nibble_of(r@, 12) == 4,
{
    DocId { bytes: fresh_id_bytes() }
}

} // verus!
