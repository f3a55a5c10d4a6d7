//! The full-text query built from a question.
use vstd::prelude::*;
use crate::text::{char_is_space, chars_of, is_unicode_space, string_of};

verus! {

/// What `char::is_alphanumeric` answers for a character.
pub uninterp spec fn alphanumeric(c: char) -> bool;

/// Relies on `char::is_alphanumeric` (Unicode Alphabetic or Numeric).
#[verifier::external_body]
fn char_is_alphanumeric(c: char) -> (r: bool)
    ensures
        r == alphanumeric(c),
{
    c.is_alphanumeric()
}

/// The pieces of `s` between whitespace characters (empty pieces included).
pub open spec fn split_ws(s: Seq<char>) -> Seq<Seq<char>>
    decreases s.len(),
{
    if s.len() == 0 {
        seq![seq![]]
    } else {
        let prev = split_ws(s.drop_last());
        if is_unicode_space(s.last()) {
            prev.push(seq![])
        } else {
            prev.update(prev.len() - 1, prev.last().push(s.last()))
        }
    }
}

/// The alphanumeric characters of a token, in order.
pub open spec fn sanitize(w: Seq<char>) -> Seq<char>
    decreases w.len(),
{
    if w.len() == 0 {
        seq![]
    } else {
        sanitize(w.drop_last()) + if alphanumeric(w.last()) {
            seq![w.last()]
        } else {
            seq![]
        }
    }
}

/// A sanitized token is used when its UTF-8 encoding is longer than one byte.
pub open spec fn long_enough(t: Seq<char>) -> bool {
    t.len() >= 2 || (t.len() == 1 && t[0] as u32 >= 0x80)
}

/// The prefix terms (`token*`) of the usable tokens, in order.
pub open spec fn fts_terms(words: Seq<Seq<char>>) -> Seq<Seq<char>>
    decreases words.len(),
{
    if words.len() == 0 {
        seq![]
    } else {
        let t = sanitize(words.last());
        fts_terms(words.drop_last()) + if long_enough(t) {
            seq![t.push('*')]
        } else {
            seq![]
        }
    }
}

/// The terms joined by single spaces.
pub open spec fn join_spaced(ts: Seq<Seq<char>>) -> Seq<char>
    decreases ts.len(),
{
    if ts.len() == 0 {
        seq![]
    } else if ts.len() == 1 {
        ts[0]
    } else {
        join_spaced(ts.drop_last()).push(' ') + ts.last()
    }
}

/// The full-text query for `input`, or none when no token is usable.
pub open spec fn fts_query(input: Seq<char>) -> Option<Seq<char>> {
    let ts = fts_terms(split_ws(input));
    if ts.len() == 0 {
        None
    } else {
        Some(join_spaced(ts))
    }
}

/// Keeps only the alphanumeric characters of a token.
pub fn sanitize_fts_token(token: &str) -> (r: String)
    ensures
        r@ == sanitize(token@),
{
    let v = chars_of(token);
    let mut out: Vec<char> = Vec::new();
    let mut i: usize = 0;
    while i < v.len()
        invariant
            i <= v.len(),
            v@ == token@,
            out@ == sanitize(v@.subrange(0, i as int)),
        decreases v.len() - i,
    {
        let c = v[i];
        assert(v@.subrange(0, i + 1).drop_last() =~= v@.subrange(0, i as int));
        if char_is_alphanumeric(c) {
            out.push(c);
        }
        assert(out@ =~= sanitize(v@.subrange(0, i + 1)));
        i = i + 1;
    }
    assert(v@.subrange(0, v.len() as int) =~= v@);
    string_of(&out)
}

fn join_terms(ts: &Vec<Vec<char>>) -> (r: Vec<char>)
    ensures
        r@ == join_spaced(ts@.map_values(|t: Vec<char>| t@)),
{
    let ghost all = ts@.map_values(|t: Vec<char>| t@);
    let mut out: Vec<char> = Vec::new();
    let mut k: usize = 0;
    while k < ts.len()
        invariant
            k <= ts.len(),
            all == ts@.map_values(|t: Vec<char>| t@),
            out@ == join_spaced(all.subrange(0, k as int)),
        decreases ts.len() - k,
    {
        assert(all.subrange(0, k + 1).drop_last() =~= all.subrange(0, k as int));
        if k > 0 {
            out.push(' ');
        }
        let t = &ts[k];
        let mut j: usize = 0;
        let ghost base = out@;
        while j < t.len()
            invariant
                j <= t.len(),
                out@ == base + t@.subrange(0, j as int),
            decreases t.len() - j,
        {
            out.push(t[j]);
            j = j + 1;
            assert(out@ =~= base + t@.subrange(0, j as int));
        }
        assert(t@.subrange(0, t.len() as int) =~= t@);
        assert(out@ =~= join_spaced(all.subrange(0, k + 1)));
        k = k + 1;
    }
    assert(all.subrange(0, ts.len() as int) =~= all);
    out
}

/// Builds the prefix query for the full-text index: whitespace tokens, each
/// reduced to its alphanumeric characters, those of one byte or less dropped,
/// each suffixed with `*`, joined by spaces; none when no token is left.
pub fn build_fts_query(input: &str) -> (r: Option<String>)
    ensures
        r matches Some(q) ==> fts_query(input@) == Some(q@),
        r is None ==> fts_query(input@) is None,
{
    let v = chars_of(input);
    let ghost s = v@;
    let mut terms: Vec<Vec<char>> = Vec::new();
    let mut cur: Vec<char> = Vec::new();
    let mut i: usize = 0;
    while i < v.len()
        invariant
            i <= v.len(),
            s == v@,
            split_ws(s.subrange(0, i as int)).len() >= 1,
            terms@.map_values(|t: Vec<char>| t@) == fts_terms(
                split_ws(s.subrange(0, i as int)).drop_last(),
            ),
            cur@ == sanitize(split_ws(s.subrange(0, i as int)).last()),
        decreases v.len() - i,
    {
        let c = v[i];
        let ghost prev = split_ws(s.subrange(0, i as int));
        assert(s.subrange(0, i + 1).drop_last() =~= s.subrange(0, i as int));
        let ghost next = split_ws(s.subrange(0, i + 1));
        if char_is_space(c, false) {
            assert(next == prev.push(seq![]));
            assert(next.drop_last() =~= prev);
            assert(prev.drop_last() =~= prev.subrange(0, prev.len() - 1));
            let long = cur.len() >= 2 || (cur.len() == 1 && (cur[0] as u32) >= 0x80);
            if long {
                let mut t = cur;
                t.push('*');
                terms.push(t);
            }
            assert(terms@.map_values(|t: Vec<char>| t@) =~= fts_terms(next.drop_last()));
            cur = Vec::new();
            assert(cur@ =~= sanitize(next.last()));
        } else {
            assert(next == prev.update(prev.len() - 1, prev.last().push(c)));
            assert(next.drop_last() =~= prev.drop_last());
            assert(prev.last().push(c).drop_last() =~= prev.last());
            if char_is_alphanumeric(c) {
                cur.push(c);
            }
            assert(cur@ =~= sanitize(next.last()));
        }
        i = i + 1;
    }
    assert(s.subrange(0, v.len() as int) =~= s);
    let ghost parts = split_ws(s);
    assert(parts.drop_last().push(parts.last()) =~= parts);
    let long = cur.len() >= 2 || (cur.len() == 1 && (cur[0] as u32) >= 0x80);
    if long {
        let mut t = cur;
        t.push('*');
        terms.push(t);
    }
    assert(terms@.map_values(|t: Vec<char>| t@) =~= fts_terms(parts));
    if terms.len() == 0 {
        None
    } else {
        let q = join_terms(&terms);
        Some(string_of(&q))
    }
}

/// Every character is alphanumeric, a space, or the prefix mark `*`.
pub open spec fn query_alphabet(q: Seq<char>) -> bool {
    forall|i: int| 0 <= i < q.len() ==> alphanumeric(#[trigger] q[i]) || q[i] == ' ' || q[i] == '*'
}

proof fn lemma_sanitize_alphanumeric(w: Seq<char>)
    ensures
        forall|i: int| 0 <= i < sanitize(w).len() ==> alphanumeric(#[trigger] sanitize(w)[i]),
    decreases w.len(),
{
    if w.len() > 0 {
        lemma_sanitize_alphanumeric(w.drop_last());
        let prev = sanitize(w.drop_last());
        assert forall|i: int| 0 <= i < sanitize(w).len() implies alphanumeric(
            #[trigger] sanitize(w)[i],
        ) by {
            if i < prev.len() {
                assert(sanitize(w)[i] == prev[i]);
            }
        }
    }
}

proof fn lemma_terms_alphabet(words: Seq<Seq<char>>)
    ensures
        forall|k: int| 0 <= k < fts_terms(words).len() ==> query_alphabet(#[trigger] fts_terms(words)[k]),
    decreases words.len(),
{
    if words.len() > 0 {
        lemma_terms_alphabet(words.drop_last());
        let prev = fts_terms(words.drop_last());
        let t = sanitize(words.last());
        lemma_sanitize_alphanumeric(words.last());
        assert forall|k: int| 0 <= k < fts_terms(words).len() implies query_alphabet(
            #[trigger] fts_terms(words)[k],
        ) by {
            if k < prev.len() {
                assert(fts_terms(words)[k] == prev[k]);
            } else {
                let term = t.push('*');
                assert(fts_terms(words)[k] == term);
                assert forall|i: int| 0 <= i < term.len() implies alphanumeric(#[trigger] term[i])
                    || term[i] == ' ' || term[i] == '*' by {
                    if i < t.len() {
                        assert(term[i] == t[i]);
                    }
                }
            }
        }
    }
}

proof fn lemma_join_alphabet(ts: Seq<Seq<char>>)
    requires
        forall|k: int| 0 <= k < ts.len() ==> query_alphabet(#[trigger] ts[k]),
    ensures
        query_alphabet(join_spaced(ts)),
    decreases ts.len(),
{
    if ts.len() > 1 {
        let init = ts.drop_last();
        assert forall|k: int| 0 <= k < init.len() implies query_alphabet(#[trigger] init[k]) by {
            assert(init[k] == ts[k]);
        }
        lemma_join_alphabet(init);
        let a = join_spaced(init).push(' ');
        let b = ts.last();
        assert(query_alphabet(b));
        assert forall|i: int| 0 <= i < (a + b).len() implies alphanumeric(#[trigger] (a + b)[i])
            || (a + b)[i] == ' ' || (a + b)[i] == '*' by {
            if i < a.len() - 1 {
                assert((a + b)[i] == join_spaced(init)[i]);
            } else if i >= a.len() {
                assert((a + b)[i] == b[i - a.len()]);
            }
        }
    } else if ts.len() == 1 {
        assert(query_alphabet(ts[0]));
    }
}

/// The full-text query holds only alphanumeric characters, the spaces between
/// terms and the `*` that ends each term.
pub proof fn lemma_fts_query_alphabet(input: Seq<char>)
    ensures
        fts_query(input) matches Some(q) ==> query_alphabet(q),
{
    let ts = fts_terms(split_ws(input));
    lemma_terms_alphabet(split_ws(input));
    if ts.len() > 0 {
        lemma_join_alphabet(ts);
    }
}

} // verus!
