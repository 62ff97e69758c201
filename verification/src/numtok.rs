//! Embedding vector elements on the wire.
//!
//! A vector element travels as a JSON number token. The codec never
//! reinterprets a token numerically: the wire carries the exact bytes the
//! producer wrote, joined by commas inside brackets, and splitting the list
//! recovers every token byte for byte. Each token is held to the JSON
//! number grammar, checked by a small state machine.

use vstd::prelude::*;

verus! {

/// Grammar states: 0 start, 1 after minus, 2 integer zero, 3 integer
/// digits, 4 after dot, 5 fraction digits, 6 after exponent mark, 7 after
/// exponent sign, 8 exponent digits, 9 dead.
pub open spec fn is_digit(b: u8) -> bool {
    48 <= b && b <= 57
}

/// One transition of the JSON number grammar.
pub open spec fn num_step(st: int, b: u8) -> int {
    if st == 0 {
        if b == 45 {
            1
        } else if b == 48 {
            2
        } else if 49 <= b && b <= 57 {
            3
        } else {
            9
        }
    } else if st == 1 {
        if b == 48 {
            2
        } else if 49 <= b && b <= 57 {
            3
        } else {
            9
        }
    } else if st == 2 {
        if b == 46 {
            4
        } else if b == 101 || b == 69 {
            6
        } else {
            9
        }
    } else if st == 3 {
        if is_digit(b) {
            3
        } else if b == 46 {
            4
        } else if b == 101 || b == 69 {
            6
        } else {
            9
        }
    } else if st == 4 {
        if is_digit(b) {
            5
        } else {
            9
        }
    } else if st == 5 {
        if is_digit(b) {
            5
        } else if b == 101 || b == 69 {
            6
        } else {
            9
        }
    } else if st == 6 {
        if b == 43 || b == 45 {
            7
        } else if is_digit(b) {
            8
        } else {
            9
        }
    } else if st == 7 {
        if is_digit(b) {
            8
        } else {
            9
        }
    } else if st == 8 {
        if is_digit(b) {
            8
        } else {
            9
        }
    } else {
        9
    }
}

/// The grammar state after reading all of `s`.
pub open spec fn num_state(s: Seq<u8>) -> int
    decreases s.len(),
{
    if s.len() == 0 {
        0
    } else {
        num_step(num_state(s.drop_last()), s.last())
    }
}

/// Whether `s` is a complete JSON number token.
pub open spec fn is_num_token(s: Seq<u8>) -> bool {
    num_state(s) == 2 || num_state(s) == 3 || num_state(s) == 5 || num_state(s) == 8
}

/// The bytes the number grammar can consume; commas, brackets and quotes
/// are not among them.
pub open spec fn is_num_char(b: u8) -> bool {
    is_digit(b) || b == 45 || b == 43 || b == 46 || b == 101 || b == 69
}

/// A number token is nonempty and holds number characters only.
pub proof fn lemma_num_token_chars(s: Seq<u8>)
    requires
        num_state(s) != 9,
    ensures
        forall|i: int| 0 <= i < s.len() ==> is_num_char(#[trigger] s[i]),
    decreases s.len(),
{
    if s.len() == 0 {
    } else {
        assert(num_state(s) == num_step(num_state(s.drop_last()), s.last()));
        assert(num_state(s.drop_last()) != 9);
        lemma_num_token_chars(s.drop_last());
        assert(is_num_char(s.last()));
        assert forall|i: int| 0 <= i < s.len() implies is_num_char(#[trigger] s[i]) by {
            if i < s.len() - 1 {
                assert(s.drop_last()[i] == s[i]);
            }
        }
    }
}

/// One transition of the grammar, as executable code.
fn num_step_at(st: u8, b: u8) -> (r: u8)
    requires
        st <= 9,
    ensures
        r as int == num_step(st as int, b),
        r <= 9,
{
    if st == 0 {
        if b == 45 {
            1
        } else if b == 48 {
            2
        } else if 49 <= b && b <= 57 {
            3
        } else {
            9
        }
    } else if st == 1 {
        if b == 48 {
            2
        } else if 49 <= b && b <= 57 {
            3
        } else {
            9
        }
    } else if st == 2 {
        if b == 46 {
            4
        } else if b == 101 || b == 69 {
            6
        } else {
            9
        }
    } else if st == 3 {
        if 48 <= b && b <= 57 {
            3
        } else if b == 46 {
            4
        } else if b == 101 || b == 69 {
            6
        } else {
            9
        }
    } else if st == 4 {
        if 48 <= b && b <= 57 {
            5
        } else {
            9
        }
    } else if st == 5 {
        if 48 <= b && b <= 57 {
            5
        } else if b == 101 || b == 69 {
            6
        } else {
            9
        }
    } else if st == 6 {
        if b == 43 || b == 45 {
            7
        } else if 48 <= b && b <= 57 {
            8
        } else {
            9
        }
    } else if st == 7 {
        if 48 <= b && b <= 57 {
            8
        } else {
            9
        }
    } else if st == 8 {
        if 48 <= b && b <= 57 {
            8
        } else {
            9
        }
    } else {
        9
    }
}

/// Check a buffer against the JSON number grammar.
pub fn check_num_token(t: &Vec<u8>) -> (r: bool)
    ensures
        r == is_num_token(t@),
{
    let n = t.len();
    let mut st: u8 = 0;
    let mut i: usize = 0;
    proof {
        assert(t@.take(0) =~= Seq::<u8>::empty());
    }
    while i < n
        invariant
            i <= n,
            n == t@.len(),
            st <= 9,
            st as int == num_state(t@.take(i as int)),
        decreases n - i,
    {
        let b = t[i];
        st = num_step_at(st, b);
        proof {
            assert(t@.take(i as int + 1).drop_last() =~= t@.take(i as int));
            assert(t@.take(i as int + 1).last() == b);
        }
        i += 1;
    }
    proof {
        assert(t@.take(n as int) =~= t@);
    }
    st == 2 || st == 3 || st == 5 || st == 8
}

/// Tokens joined by commas, as they stand inside the wire's brackets.
pub open spec fn join_tokens(ts: Seq<Seq<u8>>) -> Seq<u8>
    decreases ts.len(),
{
    if ts.len() == 0 {
        Seq::<u8>::empty()
    } else if ts.len() == 1 {
        ts[0]
    } else {
        ts[0] + seq![44u8] + join_tokens(ts.skip(1))
    }
}

/// Joining one more token appends a comma and that token.
pub proof fn lemma_join_snoc(ts: Seq<Seq<u8>>, t: Seq<u8>)
    ensures
        ts.len() == 0 ==> join_tokens(ts.push(t)) == t,
        ts.len() > 0 ==> join_tokens(ts.push(t)) == join_tokens(ts) + seq![44u8] + t,
    decreases ts.len(),
{
    let u = ts.push(t);
    if ts.len() == 0 {
        assert(u.len() == 1 && u[0] == t);
    } else if ts.len() == 1 {
        assert(u.len() == 2);
        assert(u[0] == ts[0]);
        assert(u.skip(1) =~= Seq::<Seq<u8>>::empty().push(t));
        lemma_join_snoc(Seq::<Seq<u8>>::empty(), t);
        assert(join_tokens(u) == ts[0] + seq![44u8] + t);
        assert(join_tokens(ts) == ts[0]);
    } else {
        assert(u.len() >= 2);
        assert(u[0] == ts[0]);
        assert(u.skip(1) =~= ts.skip(1).push(t));
        lemma_join_snoc(ts.skip(1), t);
        assert(join_tokens(u) == ts[0] + seq![44u8] + (join_tokens(ts.skip(1)) + seq![44u8] + t));
        assert(join_tokens(ts) == ts[0] + seq![44u8] + join_tokens(ts.skip(1)));
        assert(ts[0] + seq![44u8] + (join_tokens(ts.skip(1)) + seq![44u8] + t) =~= (ts[0]
            + seq![44u8] + join_tokens(ts.skip(1))) + seq![44u8] + t);
    }
}

/// The head token of a list body: the bytes before the first comma or
/// closing bracket, with that delimiter's index.
pub open spec fn split_head(s: Seq<u8>) -> Option<(Seq<u8>, int)>
    decreases s.len(),
{
    if s.len() == 0 {
        None
    } else if s[0] == 44 || s[0] == 93 {
        Some((Seq::<u8>::empty(), 0int))
    } else {
        match split_head(s.skip(1)) {
            None => None,
            Some((t, k)) => Some((seq![s[0]] + t, k + 1)),
        }
    }
}

/// The head token is the prefix before its delimiter.
pub proof fn lemma_split_head_sound(s: Seq<u8>)
    ensures
        split_head(s) matches Some(p) ==> {
            &&& 0 <= p.1 < s.len()
            &&& p.0 == s.take(p.1)
            &&& (s[p.1] == 44 || s[p.1] == 93)
        },
    decreases s.len(),
{
    if s.len() == 0 {
    } else if s[0] == 44 || s[0] == 93 {
        assert(Seq::<u8>::empty() =~= s.take(0));
    } else {
        lemma_split_head_sound(s.skip(1));
        match split_head(s.skip(1)) {
            None => {},
            Some((t, k)) => {
                assert(t == s.skip(1).take(k));
                assert(seq![s[0]] + t =~= s.take(k + 1));
                assert(s.skip(1)[k] == s[k + 1]);
            },
        }
    }
}

/// A delimiter-free prefix followed by a delimiter splits at that delimiter.
pub proof fn lemma_split_head_of(t: Seq<u8>, rest: Seq<u8>)
    requires
        forall|i: int| 0 <= i < t.len() ==> t[i] != 44 && #[trigger] t[i] != 93,
        rest.len() > 0,
        rest[0] == 44 || rest[0] == 93,
    ensures
        split_head(t + rest) matches Some(p) && p.0 == t && p.1 == t.len(),
    decreases t.len(),
{
    let s = t + rest;
    if t.len() == 0 {
        assert(s =~= rest);
        assert(s[0] == 44 || s[0] == 93);
        assert(split_head(s) matches Some(p) && p.0 =~= t && p.1 == 0);
    } else {
        assert(s[0] == t[0] && t[0] != 44 && t[0] != 93);
        assert(s.skip(1) =~= t.skip(1) + rest);
        assert forall|i: int| 0 <= i < t.skip(1).len() implies t.skip(1)[i] != 44
            && #[trigger] t.skip(1)[i] != 93 by {
            assert(t.skip(1)[i] == t[i + 1]);
        }
        lemma_split_head_of(t.skip(1), rest);
        assert(split_head(s.skip(1)) matches Some(p1) && p1.0 == t.skip(1) && p1.1 == t.len() - 1);
        assert(seq![s[0]] + t.skip(1) =~= t);
    }
}

/// Parse a bracketed list body, from just after the opening bracket up to
/// the matching closing bracket: the tokens and the bracket's index.
pub open spec fn parse_tokens(s: Seq<u8>) -> Option<(Seq<Seq<u8>>, int)>
    decreases s.len(),
{
    if s.len() == 0 {
        None
    } else if s[0] == 93 {
        Some((Seq::<Seq<u8>>::empty(), 0int))
    } else {
        match split_head(s) {
            None => None,
            Some((t, k)) => if !is_num_token(t) {
                None
            } else if 0 <= k < s.len() && s[k] == 93 {
                Some((seq![t], k))
            } else if 0 <= k && k + 1 < s.len() {
                match parse_tokens(s.skip(k + 1)) {
                    None => None,
                    Some((ts, q)) => if ts.len() == 0 {
                        None
                    } else {
                        Some((seq![t] + ts, k + 1 + q))
                    },
                }
            } else {
                None
            },
        }
    }
}

/// Parsing is a left inverse of joining: a joined list of valid tokens,
/// followed by the closing bracket, parses to exactly those tokens.
pub proof fn lemma_parse_tokens_of_join(ts: Seq<Seq<u8>>, rest: Seq<u8>)
    requires
        forall|j: int| 0 <= j < ts.len() ==> is_num_token(#[trigger] ts[j]),
    ensures
        parse_tokens(join_tokens(ts) + seq![93u8] + rest) matches Some(p) && p.0 == ts && p.1
            == join_tokens(ts).len(),
    decreases ts.len(),
{
    let s = join_tokens(ts) + seq![93u8] + rest;
    if ts.len() == 0 {
        assert(join_tokens(ts) =~= Seq::<u8>::empty());
        assert(s[0] == 93);
        assert(parse_tokens(s) matches Some(p) && p.0 =~= ts && p.1 == 0);
    } else if ts.len() == 1 {
        let t = ts[0];
        assert(is_num_token(t));
        assert(num_state(t) != 9);
        lemma_num_token_chars(t);
        assert(t.len() > 0);
        assert forall|i: int| 0 <= i < t.len() implies t[i] != 44 && #[trigger] t[i] != 93 by {
            assert(is_num_char(t[i]));
        }
        assert(join_tokens(ts) == t);
        assert(s =~= t + (seq![93u8] + rest));
        lemma_split_head_of(t, seq![93u8] + rest);
        assert(split_head(s) matches Some(ph) && ph.0 == t && ph.1 == t.len());
        assert(s[0] == t[0]);
        assert(is_num_char(t[0]));
        assert(s[0] != 93);
        assert(s[t.len() as int] == (seq![93u8] + rest)[0]);
        assert(s[t.len() as int] == 93);
        assert(0 <= t.len() < s.len());
        assert(parse_tokens(s) matches Some(p) && p.0 == seq![t] && p.1 == t.len());
        assert(seq![t] =~= ts);
    } else {
        let t = ts[0];
        let tl = ts.skip(1);
        assert(is_num_token(t));
        assert(num_state(t) != 9);
        lemma_num_token_chars(t);
        assert(t.len() > 0);
        assert forall|i: int| 0 <= i < t.len() implies t[i] != 44 && #[trigger] t[i] != 93 by {
            assert(is_num_char(t[i]));
        }
        let back = seq![44u8] + (join_tokens(tl) + seq![93u8] + rest);
        assert(join_tokens(ts) == t + seq![44u8] + join_tokens(tl));
        assert(s =~= t + back);
        lemma_split_head_of(t, back);
        assert(split_head(s) matches Some(ph) && ph.0 == t && ph.1 == t.len());
        let k = t.len() as int;
        assert(s[0] == t[0] && is_num_char(t[0]) && s[0] != 93);
        assert(s[k] == back[0]);
        assert(s[k] == 44);
        assert(k + 1 < s.len());
        assert(s.skip(k + 1) =~= join_tokens(tl) + seq![93u8] + rest);
        assert forall|j: int| 0 <= j < tl.len() implies is_num_token(#[trigger] tl[j]) by {
            assert(tl[j] == ts[j + 1]);
        }
        lemma_parse_tokens_of_join(tl, rest);
        assert(parse_tokens(s.skip(k + 1)) matches Some(pr) && pr.0 == tl && pr.1 == join_tokens(
            tl,
        ).len());
        assert(tl.len() > 0);
        assert(parse_tokens(s) matches Some(p) && p.0 == seq![t] + tl && p.1 == k + 1
            + join_tokens(tl).len());
        assert(seq![t] + tl =~= ts);
        assert(join_tokens(ts).len() == k + 1 + join_tokens(tl).len());
    }
}

/// Whatever parses re-joins to the consumed bytes, and every parsed token
/// is a valid number token.
pub proof fn lemma_parse_tokens_sound(s: Seq<u8>)
    ensures
        parse_tokens(s) matches Some(p) ==> {
            &&& 0 <= p.1 < s.len()
            &&& join_tokens(p.0) == s.take(p.1)
            &&& s[p.1] == 93
            &&& forall|j: int| 0 <= j < p.0.len() ==> is_num_token(#[trigger] p.0[j])
        },
    decreases s.len(),
{
    if s.len() == 0 {
    } else if s[0] == 93 {
        assert(join_tokens(Seq::<Seq<u8>>::empty()) =~= s.take(0));
    } else {
        lemma_split_head_sound(s);
        match split_head(s) {
            None => {},
            Some((t, k)) => {
                if is_num_token(t) {
                    if 0 <= k < s.len() && s[k] == 93 {
                        assert(join_tokens(seq![t]) == t);
                        assert(t == s.take(k));
                        assert forall|j: int|
                            0 <= j < seq![t].len() implies is_num_token(
                            #[trigger] seq![t][j],
                        ) by {}
                    } else if 0 <= k && k + 1 < s.len() {
                        lemma_parse_tokens_sound(s.skip(k + 1));
                        match parse_tokens(s.skip(k + 1)) {
                            None => {},
                            Some((ts2, q)) => {
                                if ts2.len() > 0 {
                                    let whole = seq![t] + ts2;
                                    assert(whole.skip(1) =~= ts2);
                                    assert(whole.len() >= 2);
                                    assert(join_tokens(whole) == t + seq![44u8] + join_tokens(
                                        ts2,
                                    ));
                                    assert(join_tokens(ts2) == s.skip(k + 1).take(q));
                                    assert(s[k] == 44);
                                    assert forall|d: int|
                                        0 <= d < q implies #[trigger] s.skip(k + 1).take(q)[d]
                                        == s[k + 1 + d] by {}
                                    assert(t + seq![44u8] + join_tokens(ts2) =~= s.take(
                                        k + 1 + q,
                                    ));
                                    assert(s.skip(k + 1)[q] == s[k + 1 + q]);
                                    assert forall|j: int|
                                        0 <= j < whole.len() implies is_num_token(
                                        #[trigger] whole[j],
                                    ) by {
                                        if j > 0 {
                                            assert(whole[j] == ts2[j - 1]);
                                        }
                                    }
                                }
                            },
                        }
                    }
                }
            },
        }
    }
}

/// Append every byte of `src` to `out`.
pub fn push_all(out: &mut Vec<u8>, src: &Vec<u8>)
    ensures
        final(out)@ == old(out)@ + src@,
{
    let n = src.len();
    let mut i: usize = 0;
    proof {
        assert(out@ =~= old(out)@ + src@.take(0));
    }
    while i < n
        invariant
            i <= n,
            n == src@.len(),
            out@ == old(out)@ + src@.take(i as int),
        decreases n - i,
    {
        out.push(src[i]);
        proof {
            assert(out@ =~= old(out)@ + src@.take(i as int + 1));
        }
        i += 1;
    }
    proof {
        assert(src@.take(n as int) =~= src@);
    }
}

/// Append the joined token list to `out`.
pub fn write_tokens(out: &mut Vec<u8>, toks: &Vec<Vec<u8>>)
    ensures
        final(out)@ == old(out)@ + join_tokens(toks.deep_view()),
{
    let n = toks.len();
    let mut k: usize = 0;
    proof {
        assert(toks.deep_view().take(0) =~= Seq::<Seq<u8>>::empty());
        assert(out@ =~= old(out)@ + join_tokens(toks.deep_view().take(0)));
    }
    while k < n
        invariant
            k <= n,
            n == toks@.len(),
            toks.deep_view().len() == n,
            out@ == old(out)@ + join_tokens(toks.deep_view().take(k as int)),
        decreases n - k,
    {
        if k > 0 {
            out.push(44);
        }
        push_all(out, &toks[k]);
        proof {
            let dv = toks.deep_view();
            assert(dv[k as int] == toks@[k as int]@);
            assert(dv.take(k as int).push(dv[k as int]) =~= dv.take(k as int + 1));
            lemma_join_snoc(dv.take(k as int), dv[k as int]);
            if k == 0 {
                assert(dv.take(0).len() == 0);
                assert(out@ =~= old(out)@ + join_tokens(dv.take(1)));
            } else {
                assert(out@ =~= old(out)@ + join_tokens(dv.take(k as int + 1)));
            }
        }
        k += 1;
    }
    proof {
        assert(toks.deep_view().take(n as int) =~= toks.deep_view());
    }
}

/// Scan a list body from `start` to the first comma or closing bracket,
/// following the spec splitter exactly.
fn scan_to_delim(input: &Vec<u8>, start: usize) -> (r: Option<(Vec<u8>, usize)>)
    requires
        start <= input@.len(),
    ensures
        r matches Some(p) ==> {
            &&& start <= p.1 < input@.len()
            &&& split_head(input@.skip(start as int)) matches Some(q) && q.0 == p.0@ && q.1 == p.1
                - start
        },
        r is None ==> split_head(input@.skip(start as int)) is None,
{
    let n = input.len();
    let mut acc: Vec<u8> = Vec::new();
    let mut i: usize = start;
    while i < n
        invariant
            start <= i <= n,
            n == input@.len(),
            split_head(input@.skip(i as int)) matches Some(q) ==> split_head(
                input@.skip(start as int),
            ) matches Some(q2) && q2.0 == acc@ + q.0 && q2.1 == q.1 + (i - start),
            split_head(input@.skip(i as int)) is None ==> split_head(input@.skip(start as int))
                is None,
        decreases n - i,
    {
        let ghost s_i = input@.skip(i as int);
        proof {
            assert(s_i.len() == n - i);
            assert forall|d: int| 0 <= d < s_i.len() implies s_i[d] == input@[i + d] by {}
        }
        let b = input[i];
        if b == 44 || b == 93 {
            proof {
                assert(s_i[0] == b);
                assert(split_head(s_i) matches Some(q) && q.0 == Seq::<u8>::empty() && q.1 == 0);
                assert(acc@ + Seq::<u8>::empty() =~= acc@);
            }
            return Some((acc, i));
        }
        let ghost acc_pre = acc@;
        acc.push(b);
        proof {
            assert(s_i[0] == b && b != 44 && b != 93);
            assert(s_i.skip(1) =~= input@.skip(i as int + 1));
            match split_head(input@.skip(i as int + 1)) {
                Some(qn) => {
                    assert(split_head(s_i) matches Some(q) && q.0 == seq![b] + qn.0 && q.1 == 1
                        + qn.1);
                    assert(acc_pre + (seq![b] + qn.0) =~= acc@ + qn.0);
                },
                None => {
                    assert(split_head(s_i) is None);
                },
            }
        }
        i += 1;
    }
    proof {
        assert(input@.skip(i as int).len() == 0);
        assert(split_head(input@.skip(i as int)) is None);
    }
    None
}

/// Scan a bracketed list body from `start` up to its closing bracket,
/// following the spec parser exactly: the tokens and the absolute index of
/// the bracket.
pub fn scan_tokens(input: &Vec<u8>, start: usize) -> (r: Option<(Vec<Vec<u8>>, usize)>)
    requires
        start <= input@.len(),
    ensures
        r matches Some(p) ==> {
            &&& start <= p.1 < input@.len()
            &&& parse_tokens(input@.skip(start as int)) matches Some(q) && q.0 == p.0.deep_view()
                && q.1 == p.1 - start
        },
        r is None ==> parse_tokens(input@.skip(start as int)) is None,
{
    let n = input.len();
    if start >= n {
        proof {
            assert(input@.skip(start as int).len() == 0);
        }
        return None;
    }
    if input[start] == 93 {
        let toks: Vec<Vec<u8>> = Vec::new();
        proof {
            assert(input@.skip(start as int)[0] == 93);
            assert(toks.deep_view() =~= Seq::<Seq<u8>>::empty());
        }
        return Some((toks, start));
    }
    let mut toks: Vec<Vec<u8>> = Vec::new();
    let mut i: usize = start;
    loop
        invariant
            start <= i <= n,
            n == input@.len(),
            parse_tokens(input@.skip(i as int)) matches Some(q) ==> (q.0.len() > 0 ==> (
            parse_tokens(input@.skip(start as int)) matches Some(q2) && q2.0 == toks.deep_view()
                + q.0 && q2.1 == q.1 + (i - start))),
            parse_tokens(input@.skip(i as int)) matches Some(q) ==> (q.0.len() == 0
                ==> parse_tokens(input@.skip(start as int)) is None),
            parse_tokens(input@.skip(i as int)) is None ==> parse_tokens(
                input@.skip(start as int),
            ) is None,
        decreases n - i,
    {
        let ghost s_i = input@.skip(i as int);
        proof {
            assert(s_i.len() == n - i);
            assert forall|d: int| 0 <= d < s_i.len() implies s_i[d] == input@[i + d] by {}
        }
        let head = scan_to_delim(input, i);
        match head {
            None => {
                proof {
                    if s_i.len() > 0 && s_i[0] == 93 {
                        assert(split_head(s_i) is Some);
                    }
                    assert(parse_tokens(s_i) is None);
                }
                return None;
            },
            Some((tokv, dpos)) => {
                proof {
                    lemma_split_head_sound(s_i);
                }
                let ok = check_num_token(&tokv);
                if !ok {
                    proof {
                        assert(split_head(s_i) matches Some(qh) && qh.0 == tokv@);
                        if s_i[0] == 93 {
                            assert(split_head(s_i) matches Some(qh2) && qh2.1 == 0 && qh2.0
                                == Seq::<u8>::empty());
                            assert(parse_tokens(s_i) matches Some(qe) && qe.0.len() == 0);
                        } else {
                            assert(parse_tokens(s_i) is None);
                        }
                    }
                    return None;
                }
                let d = input[dpos];
                let ghost k = dpos - i;
                proof {
                    assert(s_i[k as int] == input@[dpos as int]);
                    assert(s_i[0] != 93 || k == 0);
                }
                if d == 93 {
                    if i == dpos {
                        // an empty token never passes the grammar
                        proof {
                            assert(tokv@.len() == 0);
                            assert(!is_num_token(tokv@));
                        }
                        return None;
                    }
                    let ghost toks_pre = toks.deep_view();
                    toks.push(tokv);
                    proof {
                        assert(s_i[0] != 93);
                        assert(parse_tokens(s_i) matches Some(q) && q.0 == seq![tokv@] && q.1
                            == k);
                        assert(tokv.deep_view() =~= tokv@);
                        assert(toks.deep_view() =~~= toks_pre + seq![tokv@]);
                    }
                    return Some((toks, dpos));
                }
                // the delimiter is a comma: another token must follow
                proof {
                    assert(input@[dpos as int] == 44);
                    assert(s_i[k as int] == 44);
                }
                if dpos + 1 >= n {
                    proof {
                        assert(k + 1 >= s_i.len());
                        assert(s_i[0] != 93 || k == 0);
                        if s_i[0] == 93 {
                            assert(s_i[0] == 44);
                        }
                        assert(parse_tokens(s_i) is None);
                    }
                    return None;
                }
                if i == dpos {
                    proof {
                        assert(tokv@.len() == 0);
                        assert(!is_num_token(tokv@));
                    }
                    return None;
                }
                let ghost toks_pre = toks.deep_view();
                toks.push(tokv);
                proof {
                    assert(s_i[0] != 93);
                    assert(k + 1 < s_i.len());
                    assert(s_i.skip(k + 1) =~= input@.skip(dpos as int + 1));
                    assert(tokv.deep_view() =~= tokv@);
                    assert(toks.deep_view() =~~= toks_pre + seq![tokv@]);
                    match parse_tokens(input@.skip(dpos as int + 1)) {
                        Some(qn) => {
                            if qn.0.len() > 0 {
                                assert(parse_tokens(s_i) matches Some(q) && q.0 == seq![tokv@]
                                    + qn.0 && q.1 == k + 1 + qn.1);
                                assert(toks_pre + (seq![tokv@] + qn.0) =~= (toks_pre
                                    + seq![tokv@]) + qn.0);
                            } else {
                                assert(parse_tokens(s_i) is None);
                            }
                        },
                        None => {
                            assert(parse_tokens(s_i) is None);
                        },
                    }
                }
                i = dpos + 1;
            },
        }
    }
}

} // verus!
