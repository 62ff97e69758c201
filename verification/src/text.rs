//! Escaping of document content inside a JSON string literal.
//!
//! Content bytes travel on the wire between two quotes. A quote or backslash
//! in the content takes a two-byte escape, a control byte the six-byte
//! `\u00xy` form, and every other byte stands for itself. Unescaping is
//! proved to be the exact inverse: whatever was escaped is recovered, and
//! whatever unescapes re-escapes to the consumed bytes.

use vstd::prelude::*;

use crate::ident::{hex_digit, is_lower_hex, lower_hex_val, hex_val};

verus! {

/// The escaped form of one content byte.
pub open spec fn esc_byte(b: u8) -> Seq<u8> {
    if b == 34 {
        seq![92u8, 34u8]
    } else if b == 92 {
        seq![92u8, 92u8]
    } else if b < 32 {
        seq![92u8, 117u8, 48u8, 48u8, hex_digit(b as int / 16), hex_digit(b as int % 16)]
    } else {
        seq![b]
    }
}

/// The escaped form of a whole content sequence.
pub open spec fn esc(s: Seq<u8>) -> Seq<u8>
    decreases s.len(),
{
    if s.len() == 0 {
        Seq::<u8>::empty()
    } else {
        esc_byte(s[0]) + esc(s.skip(1))
    }
}

/// One step of unescaping: the first content byte encoded at the head of a
/// string body, with the number of wire bytes it occupies.
pub open spec fn unesc_step(s: Seq<u8>) -> Option<(u8, int)>
    recommends
        s.len() > 0,
{
    if s[0] == 92 {
        if s.len() >= 2 && s[1] == 34 {
            Some((34u8, 2int))
        } else if s.len() >= 2 && s[1] == 92 {
            Some((92u8, 2int))
        } else if s.len() >= 6 && s[1] == 117 && s[2] == 48 && s[3] == 48 && is_lower_hex(s[4])
            && is_lower_hex(s[5]) && lower_hex_val(s[4]) * 16 + lower_hex_val(s[5]) < 32 {
            Some(((lower_hex_val(s[4]) * 16 + lower_hex_val(s[5])) as u8, 6int))
        } else {
            None
        }
    } else if s[0] == 34 || s[0] < 32 {
        None
    } else {
        Some((s[0], 1int))
    }
}

/// Unescape a string body up to its first unescaped closing quote: the
/// decoded content and the index of that quote.
pub open spec fn unesc(s: Seq<u8>) -> Option<(Seq<u8>, int)>
    decreases s.len(),
{
    if s.len() == 0 {
        None
    } else if s[0] == 34 {
        Some((Seq::<u8>::empty(), 0int))
    } else {
        match unesc_step(s) {
            None => None,
            Some((b, k)) => if 1 <= k <= s.len() {
                match unesc(s.skip(k)) {
                    None => None,
                    Some((t, q)) => Some((seq![b] + t, k + q)),
                }
            } else {
                None
            },
        }
    }
}

/// Unescaping is a left inverse of escaping: the escaped form of any
/// content, followed by a closing quote, unescapes to exactly that content,
/// with the quote found right after the escaped bytes.
pub proof fn lemma_unesc_of_esc(c: Seq<u8>, rest: Seq<u8>)
    ensures
        unesc(esc(c) + seq![34u8] + rest) matches Some(p) && p.0 == c && p.1 == esc(c).len(),
    decreases c.len(),
{
    let s = esc(c) + seq![34u8] + rest;
    if c.len() == 0 {
        assert(esc(c) =~= Seq::<u8>::empty());
        assert(s[0] == 34);
        assert(unesc(s) matches Some(p) && p.0 =~= c && p.1 == 0);
    } else {
        let b0 = c[0];
        let eb = esc_byte(b0);
        let ctail = c.skip(1);
        let tail = esc(ctail) + seq![34u8] + rest;
        assert(esc(c) == eb + esc(ctail));
        assert(s =~= eb + tail);
        let k = eb.len() as int;
        if b0 == 34 {
            assert(s[0] == 92 && s[1] == 34);
            assert(unesc_step(s) == Some((34u8, 2int)));
        } else if b0 == 92 {
            assert(s[0] == 92 && s[1] == 92);
            assert(unesc_step(s) == Some((92u8, 2int)));
        } else if b0 < 32 {
            assert(s[0] == 92 && s[1] == 117 && s[2] == 48 && s[3] == 48);
            assert(s[4] == hex_digit(b0 as int / 16) && s[5] == hex_digit(b0 as int % 16));
            assert(0 <= b0 as int / 16 < 16 && 0 <= b0 as int % 16 < 16);
            assert(is_lower_hex(s[4]) && lower_hex_val(s[4]) == b0 as int / 16);
            assert(is_lower_hex(s[5]) && lower_hex_val(s[5]) == b0 as int % 16);
            assert(lower_hex_val(s[4]) * 16 + lower_hex_val(s[5]) == b0 as int);
            assert(unesc_step(s) == Some((b0, 6int)));
        } else {
            assert(s[0] == b0 && b0 >= 32 && b0 != 34 && b0 != 92);
            assert(unesc_step(s) == Some((b0, 1int)));
        }
        assert(unesc_step(s) == Some((b0, k)));
        assert(1 <= k <= s.len());
        assert(s.skip(k) =~= tail);
        lemma_unesc_of_esc(ctail, rest);
        assert(unesc(tail) matches Some(pt) && pt.0 == ctail && pt.1 == esc(ctail).len());
        assert(unesc(s) matches Some(p) && p.0 == seq![b0] + ctail && p.1 == k + esc(ctail).len());
        assert(seq![b0] + ctail =~= c);
    }
}

/// Whatever unescapes re-escapes to the consumed bytes: the prefix before
/// the closing quote is the escaped form of the decoded content.
pub proof fn lemma_unesc_sound(s: Seq<u8>)
    ensures
        unesc(s) matches Some(p) ==> {
            &&& 0 <= p.1 < s.len()
            &&& esc(p.0) == s.take(p.1)
            &&& s[p.1] == 34
        },
    decreases s.len(),
{
    if s.len() == 0 {
    } else if s[0] == 34 {
        assert(esc(Seq::<u8>::empty()) =~= s.take(0));
    } else {
        match unesc_step(s) {
            None => {},
            Some((b, k)) => {
                if 1 <= k <= s.len() {
                    if s[0] == 92 {
                        if s.len() >= 2 && s[1] == 34 {
                            assert(esc_byte(b) =~= s.take(k));
                        } else if s.len() >= 2 && s[1] == 92 {
                            assert(esc_byte(b) =~= s.take(k));
                        } else {
                            let v = lower_hex_val(s[4]) * 16 + lower_hex_val(s[5]);
                            assert(0 <= lower_hex_val(s[4]) < 16 && 0 <= lower_hex_val(s[5]) < 16);
                            assert(b as int == v && v < 32);
                            assert(b as int / 16 == lower_hex_val(s[4]) && b as int % 16
                                == lower_hex_val(s[5]));
                            assert(hex_digit(lower_hex_val(s[4])) == s[4]);
                            assert(hex_digit(lower_hex_val(s[5])) == s[5]);
                            assert(esc_byte(b) =~= s.take(k));
                        }
                    } else {
                        assert(esc_byte(b) =~= s.take(k));
                    }
                    match unesc(s.skip(k)) {
                        None => {},
                        Some((t, q)) => {
                            lemma_unesc_sound(s.skip(k));
                            assert(esc(t) == s.skip(k).take(q));
                            assert((seq![b] + t).skip(1) =~= t);
                            assert(esc(seq![b] + t) == esc_byte(b) + esc(t));
                            assert(esc_byte(b) + esc(t) =~= s.take(k + q));
                            assert(s.skip(k)[q] == s[k + q]);
                        },
                    }
                }
            },
        }
    }
}

/// Append the escaped form of `content` to `out`.
pub fn write_escaped(out: &mut Vec<u8>, content: &Vec<u8>) -> (r: ())
    ensures
        final(out)@ == old(out)@ + esc(content@),
{
    let n = content.len();
    let mut i: usize = 0;
    proof {
        assert(out@ =~= old(out)@ + esc(content@.take(0)));
    }
    while i < n
        invariant
            n == content@.len(),
            i <= n,
            out@ == old(out)@ + esc(content@.take(i as int)),
        decreases n - i,
    {
        let b = content[i];
        let ghost pre = out@;
        if b == 34 {
            out.push(92);
            out.push(34);
        } else if b == 92 {
            out.push(92);
            out.push(92);
        } else if b < 32 {
            out.push(92);
            out.push(117);
            out.push(48);
            out.push(48);
            let hi = b / 16;
            let lo = b % 16;
            out.push(crate::ident::hex_digit_of(hi));
            out.push(crate::ident::hex_digit_of(lo));
        } else {
            out.push(b);
        }
        proof {
            assert(out@ =~= pre + esc_byte(b));
            lemma_esc_snoc(content@.take(i as int + 1));
            assert(content@.take(i as int + 1).drop_last() =~= content@.take(i as int));
            assert(content@.take(i as int + 1).last() == b);
            assert(out@ =~= old(out)@ + esc(content@.take(i as int + 1)));
        }
        i += 1;
    }
    proof {
        assert(content@.take(n as int) =~= content@);
    }
}

/// Escaping a sequence ending in one more byte appends that byte's escape.
proof fn lemma_esc_snoc(s: Seq<u8>)
    requires
        s.len() > 0,
    ensures
        esc(s) == esc(s.drop_last()) + esc_byte(s.last()),
    decreases s.len(),
{
    if s.len() == 1 {
        assert(s.skip(1) =~= Seq::<u8>::empty());
        assert(esc(s.skip(1)) =~= Seq::<u8>::empty());
        assert(s.drop_last() =~= Seq::<u8>::empty());
        assert(esc(s) =~= esc_byte(s[0]));
        assert(esc(s.drop_last()) + esc_byte(s.last()) =~= esc_byte(s[0]));
    } else {
        lemma_esc_snoc(s.skip(1));
        assert(s.skip(1).drop_last() =~= s.drop_last().skip(1));
        assert(s.skip(1).last() == s.last());
        assert(s.drop_last()[0] == s[0]);
        assert(s.drop_last().len() > 0);
        assert(esc(s.drop_last()) == esc_byte(s[0]) + esc(s.drop_last().skip(1)));
        assert(esc(s) == esc_byte(s[0]) + esc(s.skip(1)));
        assert(esc(s.skip(1)) == esc(s.drop_last().skip(1)) + esc_byte(s.last()));
        assert(esc_byte(s[0]) + (esc(s.drop_last().skip(1)) + esc_byte(s.last())) =~= (esc_byte(
            s[0],
        ) + esc(s.drop_last().skip(1))) + esc_byte(s.last()));
    }
}

/// Scan an escaped string body from `start` up to its closing quote,
/// following the spec parser exactly: the decoded content and the absolute
/// index of the quote.
pub fn scan_string(input: &Vec<u8>, start: usize) -> (r: Option<(Vec<u8>, usize)>)
    requires
        start <= input@.len(),
    ensures
        r matches Some(p) ==> {
            &&& start <= p.1 < input@.len()
            &&& unesc(input@.skip(start as int)) matches Some(q) && q.0 == p.0@ && q.1 == p.1
                - start
        },
        r is None ==> unesc(input@.skip(start as int)) is None,
{
    let n = input.len();
    let mut acc: Vec<u8> = Vec::new();
    let mut i: usize = start;
    while i < n
        invariant
            start <= i <= n,
            n == input@.len(),
            unesc(input@.skip(i as int)) matches Some(q) ==> unesc(input@.skip(start as int))
                matches Some(q2) && q2.0 == acc@ + q.0 && q2.1 == q.1 + (i - start),
            unesc(input@.skip(i as int)) is None ==> unesc(input@.skip(start as int)) is None,
        decreases n - i,
    {
        let ghost s_i = input@.skip(i as int);
        proof {
            assert(s_i.len() == n - i);
            assert forall|d: int| 0 <= d < s_i.len() implies s_i[d] == input@[i + d] by {}
        }
        let b = input[i];
        if b == 34 {
            proof {
                assert(s_i[0] == 34);
                assert(unesc(s_i) matches Some(q) && q.0 == Seq::<u8>::empty() && q.1 == 0);
                assert(acc@ + Seq::<u8>::empty() =~= acc@);
            }
            return Some((acc, i));
        }
        let (v, k): (u8, usize) = if b == 92 {
            if i + 1 < n && input[i + 1] == 34 {
                (34, 2)
            } else if i + 1 < n && input[i + 1] == 92 {
                (92, 2)
            } else if n - i > 5 && input[i + 1] == 117 && input[i + 2] == 48 && input[i + 3] == 48 {
                let h4 = hex_val(input[i + 4]);
                let h5 = hex_val(input[i + 5]);
                match (h4, h5) {
                    (Some(h4), Some(h5)) => {
                        let v = h4 * 16 + h5;
                        if v < 32 {
                            (v, 6)
                        } else {
                            proof {
                                assert(unesc_step(s_i) is None);
                                assert(unesc(s_i) is None);
                            }
                            return None;
                        }
                    },
                    _ => {
                        proof {
                            assert(unesc_step(s_i) is None);
                            assert(unesc(s_i) is None);
                        }
                        return None;
                    },
                }
            } else {
                proof {
                    assert(unesc_step(s_i) is None);
                    assert(unesc(s_i) is None);
                }
                return None;
            }
        } else if b < 32 {
            proof {
                assert(unesc_step(s_i) is None);
                assert(unesc(s_i) is None);
            }
            return None;
        } else {
            (b, 1)
        };
        proof {
            assert(unesc_step(s_i) == Some((v, k as int)));
            assert(1 <= k as int <= s_i.len());
            assert(s_i.skip(k as int) =~= input@.skip(i as int + k as int));
        }
        let ghost acc_pre = acc@;
        acc.push(v);
        proof {
            let s_next = input@.skip(i as int + k as int);
            match unesc(s_next) {
                Some(qn) => {
                    assert(unesc(s_i) matches Some(q) && q.0 == seq![v] + qn.0 && q.1 == k + qn.1);
                    assert(acc_pre + (seq![v] + qn.0) =~= acc@ + qn.0);
                },
                None => {
                    assert(unesc(s_i) is None);
                },
            }
        }
        i += k;
    }
    proof {
        assert(input@.skip(i as int).len() == 0);
        assert(unesc(input@.skip(i as int)) is None);
    }
    None
}

} // verus!
