//! Token Substitution Engine: literal whole-token replacement of the fixed
//! scaffold placeholder tokens.
//!
//! Substitution is plain text replacement: every occurrence of the token is
//! replaced, scanning left to right without overlap, including occurrences
//! embedded inside longer identifiers.

use vstd::prelude::*;

use crate::ascii::push_all;

verus! {

/// `s` with every occurrence of `tok` replaced by `rep`, scanning left to
/// right without overlap, as literal text substitution.
pub open spec fn replaced(s: Seq<u8>, tok: Seq<u8>, rep: Seq<u8>) -> Seq<u8>
    recommends
        tok.len() > 0,
    decreases s.len(),
{
    if s.len() == 0 {
        s
    } else if tok.len() > 0 && s.len() >= tok.len() && s.take(tok.len() as int) == tok {
        rep + replaced(s.skip(tok.len() as int), tok, rep)
    } else {
        seq![s[0]] + replaced(s.skip(1), tok, rep)
    }
}

/// `tok` occurs in `s` at position `k`.
pub open spec fn occurs_at(s: Seq<u8>, tok: Seq<u8>, k: int) -> bool {
    0 <= k && k + tok.len() <= s.len() && s.subrange(k, k + tok.len()) == tok
}

/// `tok` occurs somewhere in `s`.
pub open spec fn contains_token(s: Seq<u8>, tok: Seq<u8>) -> bool {
    exists|k: int| occurs_at(s, tok, k)
}

/// Whether `tok` occurs in `s` at position `i`.
pub fn match_at(s: &[u8], tok: &[u8], i: usize) -> (r: bool)
    requires
        i <= s@.len(),
    ensures
        r == occurs_at(s@, tok@, i as int),
{
    if tok.len() > s.len() - i {
        assert(!occurs_at(s@, tok@, i as int));
        return false;
    }
    let mut j: usize = 0;
    while j < tok.len()
        invariant
            j <= tok@.len(),
            i + tok@.len() <= s@.len(),
            s@.len() <= usize::MAX,
            forall|k: int| 0 <= k < j ==> s@[i + k] == tok@[k],
        decreases tok@.len() - j,
    {
        if s[i + j] != tok[j] {
            assert(s@.subrange(i as int, i + tok@.len()) != tok@) by {
                assert(s@.subrange(i as int, i + tok@.len())[j as int] == s@[i + j]);
            }
            return false;
        }
        j = j + 1;
    }
    assert(s@.subrange(i as int, i + tok@.len()) =~= tok@);
    true
}

/// Replace every occurrence of `tok` in `s` by `rep`, scanning left to right.
pub fn replace_all(s: &[u8], tok: &[u8], rep: &[u8]) -> (r: Vec<u8>)
    requires
        tok@.len() > 0,
    ensures
        r@ == replaced(s@, tok@, rep@),
{
    let mut out: Vec<u8> = Vec::new();
    let mut i: usize = 0;
    proof {
        assert(s@.skip(0) =~= s@);
        assert(out@ + replaced(s@, tok@, rep@) =~= replaced(s@, tok@, rep@));
    }
    while i < s.len()
        invariant
            i <= s@.len(),
            tok@.len() > 0,
            s@.len() == s.len(),
            replaced(s@, tok@, rep@) == out@ + replaced(s@.skip(i as int), tok@, rep@),
        decreases s@.len() - i,
    {
        let ghost pre = out@;
        let ghost sub = s@.skip(i as int);
        if match_at(s, tok, i) {
            push_all(&mut out, rep);
            proof {
                assert(sub.take(tok@.len() as int) =~= s@.subrange(i as int, i + tok@.len()));
                assert(replaced(sub, tok@, rep@) == rep@ + replaced(
                    sub.skip(tok@.len() as int),
                    tok@,
                    rep@,
                ));
                assert(sub.skip(tok@.len() as int) =~= s@.skip(i + tok@.len()));
                assert(out@ + replaced(s@.skip(i + tok@.len()), tok@, rep@) =~= pre + replaced(
                    sub,
                    tok@,
                    rep@,
                ));
            }
            i = i + tok.len();
        } else {
            out.push(s[i]);
            proof {
                assert(!(sub.len() >= tok@.len() && sub.take(tok@.len() as int) == tok@)) by {
                    if sub.len() >= tok@.len() {
                        assert(sub.take(tok@.len() as int) =~= s@.subrange(
                            i as int,
                            i + tok@.len(),
                        ));
                    }
                }
                assert(replaced(sub, tok@, rep@) == seq![sub[0]] + replaced(
                    sub.skip(1),
                    tok@,
                    rep@,
                ));
                assert(sub.skip(1) =~= s@.skip(i as int + 1));
                assert(out@ + replaced(s@.skip(i as int + 1), tok@, rep@) =~= pre + replaced(
                    sub,
                    tok@,
                    rep@,
                ));
            }
            i = i + 1;
        }
    }
    proof {
        assert(s@.skip(s@.len() as int) =~= Seq::<u8>::empty());
        assert(out@ + replaced(s@.skip(s@.len() as int), tok@, rep@) =~= out@);
    }
    out
}

/// Substitution leaves token-free content unchanged: on content with no
/// occurrence of the token, replacement is the identity.
pub proof fn lemma_replace_identity(s: Seq<u8>, tok: Seq<u8>, rep: Seq<u8>)
    requires
        tok.len() > 0,
        !contains_token(s, tok),
    ensures
        replaced(s, tok, rep) == s,
    decreases s.len(),
{
    if s.len() == 0 {
    } else {
        if s.len() >= tok.len() && s.take(tok.len() as int) == tok {
            assert(s.subrange(0, tok.len() as int) =~= s.take(tok.len() as int));
            assert(occurs_at(s, tok, 0));
        }
        assert forall|k: int| !occurs_at(s.skip(1), tok, k) by {
            if occurs_at(s.skip(1), tok, k) {
                assert(s.subrange(k + 1, k + 1 + tok.len()) =~= s.skip(1).subrange(
                    k,
                    k + tok.len(),
                ));
                assert(occurs_at(s, tok, k + 1));
            }
        }
        lemma_replace_identity(s.skip(1), tok, rep);
        assert(seq![s[0]] + s.skip(1) =~= s);
    }
}

/// Token substitution is confluent: once the content holds no occurrence of
/// the token, running the same substitution again is a no-op.
pub proof fn lemma_substitution_confluent(s: Seq<u8>, tok: Seq<u8>, rep: Seq<u8>)
    requires
        tok.len() > 0,
        !contains_token(replaced(s, tok, rep), tok),
    ensures
        replaced(replaced(s, tok, rep), tok, rep) == replaced(s, tok, rep),
{
    lemma_replace_identity(replaced(s, tok, rep), tok, rep);
}


/// `p` is a prefix of `s`.
pub open spec fn is_prefix(p: Seq<u8>, s: Seq<u8>) -> bool {
    p.len() <= s.len() && s.take(p.len() as int) == p
}

/// Token and replacement cannot recombine into the token: the replacement
/// holds no occurrence of the token, no non-empty suffix of the replacement is
/// a proper prefix of the token, no non-empty proper suffix of the token is a
/// prefix of the replacement, and the replacement occurs in the token at most
/// as its very start.
pub open spec fn no_overlap(tok: Seq<u8>, rep: Seq<u8>) -> bool {
    &&& rep.len() > 0
    &&& !contains_token(rep, tok)
    &&& forall|k: int|
        0 < k <= rep.len() && k < tok.len() ==> #[trigger] rep.skip(rep.len() - k) != tok.take(k)
    &&& forall|k: int| 0 < k < tok.len() ==> !is_prefix(#[trigger] tok.skip(tok.len() - k), rep)
    &&& forall|a: int|
        1 <= a && a + rep.len() <= tok.len() ==> #[trigger] tok.subrange(a, a + rep.len()) != rep
}

/// Index view of a prefix.
proof fn lemma_prefix_index(p: Seq<u8>, s: Seq<u8>)
    requires
        is_prefix(p, s),
    ensures
        forall|j: int| 0 <= j < p.len() ==> p[j] == s[j],
{
    assert forall|j: int| 0 <= j < p.len() implies p[j] == s[j] by {
        assert(s.take(p.len() as int)[j] == s[j]);
    }
}

/// Prefixes from indexes.
proof fn lemma_prefix_intro(p: Seq<u8>, s: Seq<u8>)
    requires
        p.len() <= s.len(),
        forall|j: int| 0 <= j < p.len() ==> p[j] == s[j],
    ensures
        is_prefix(p, s),
{
    assert(s.take(p.len() as int) =~= p);
}

/// Index view of an occurrence.
proof fn lemma_occurs_index(s: Seq<u8>, tok: Seq<u8>, k: int)
    requires
        occurs_at(s, tok, k),
    ensures
        forall|j: int| 0 <= j < tok.len() ==> tok[j] == s[k + j],
{
    assert forall|j: int| 0 <= j < tok.len() implies tok[j] == s[k + j] by {
        assert(s.subrange(k, k + tok.len())[j] == s[k + j]);
    }
}

/// Occurrences from indexes.
proof fn lemma_occurs_intro(s: Seq<u8>, tok: Seq<u8>, k: int)
    requires
        0 <= k,
        k + tok.len() <= s.len(),
        forall|j: int| 0 <= j < tok.len() ==> tok[j] == s[k + j],
    ensures
        occurs_at(s, tok, k),
{
    assert(s.subrange(k, k + tok.len()) =~= tok);
}

/// A tail of the token that is a prefix of substituted content was already a
/// prefix of the content itself.
proof fn lemma_token_tail_prefix(s: Seq<u8>, tok: Seq<u8>, rep: Seq<u8>, k: int)
    requires
        tok.len() > 0,
        no_overlap(tok, rep),
        1 <= k < tok.len(),
        is_prefix(tok.skip(k), replaced(s, tok, rep)),
    ensures
        is_prefix(tok.skip(k), s),
    decreases s.len(),
{
    let t = tok.skip(k);
    let r = replaced(s, tok, rep);
    assert(t.len() == tok.len() - k);
    lemma_prefix_index(t, r);
    if s.len() == 0 {
        assert(r.len() == 0);
        assert(false);
    } else if s.len() >= tok.len() && s.take(tok.len() as int) == tok {
        let s2 = s.skip(tok.len() as int);
        let r2 = replaced(s2, tok, rep);
        assert(r == rep + r2);
        if rep.len() >= t.len() {
            assert(forall|j: int| 0 <= j < t.len() ==> #[trigger] t[j] == rep[j]);
            lemma_prefix_intro(t, rep);
            assert(!is_prefix(tok.skip(tok.len() - (tok.len() - k)), rep));
            assert(false);
        } else {
            assert(tok.subrange(k, k + rep.len()) =~= rep) by {
                assert(forall|j: int| 0 <= j < rep.len() ==> #[trigger] t[j] == rep[j]);
                assert(forall|j: int| 0 <= j < rep.len() ==> #[trigger] tok.subrange(
                    k,
                    k + rep.len(),
                )[j] == tok[k + j]);
            }
            assert(1 <= k && k + rep.len() <= tok.len());
            assert(false);
        }
    } else {
        let s2 = s.skip(1);
        let r2 = replaced(s2, tok, rep);
        assert(r == seq![s[0]] + r2);
        assert(t[0] == r[0]);
        assert(r[0] == s[0]);
        if k + 1 < tok.len() {
            let t2 = tok.skip(k + 1);
            assert forall|j: int| 0 <= j < t2.len() implies #[trigger] t2[j] == r2[j] by {
                assert(t2[j] == tok[k + 1 + j]);
                assert(t[j + 1] == tok[k + 1 + j]);
                assert(t[j + 1] == r[j + 1]);
                assert(r[j + 1] == r2[j]);
            }
            lemma_prefix_intro(t2, r2);
            lemma_token_tail_prefix(s2, tok, rep, k + 1);
            lemma_prefix_index(t2, s2);
            assert forall|j: int| 0 <= j < t.len() implies #[trigger] t[j] == s[j] by {
                if j == 0 {
                } else {
                    assert(t[j] == tok[k + j]);
                    assert(t2[j - 1] == tok[k + j]);
                    assert(t2[j - 1] == s2[j - 1]);
                    assert(s2[j - 1] == s[j]);
                }
            }
            lemma_prefix_intro(t, s);
        } else {
            assert(t.len() == 1);
            lemma_prefix_intro(t, s);
        }
    }
}

/// After substitution no occurrence of the token remains, as long as token and
/// replacement cannot recombine into the token.
pub proof fn lemma_no_tokens_remain(s: Seq<u8>, tok: Seq<u8>, rep: Seq<u8>)
    requires
        tok.len() > 0,
        no_overlap(tok, rep),
    ensures
        !contains_token(replaced(s, tok, rep), tok),
    decreases s.len(),
{
    let r = replaced(s, tok, rep);
    if s.len() == 0 {
        assert forall|k: int| !occurs_at(r, tok, k) by {
            assert(r.len() == 0);
        }
    } else if s.len() >= tok.len() && s.take(tok.len() as int) == tok {
        let s2 = s.skip(tok.len() as int);
        let r2 = replaced(s2, tok, rep);
        assert(r == rep + r2);
        lemma_no_tokens_remain(s2, tok, rep);
        assert forall|k: int| !occurs_at(r, tok, k) by {
            if occurs_at(r, tok, k) {
                lemma_occurs_index(r, tok, k);
                if k + tok.len() <= rep.len() {
                    lemma_occurs_intro(rep, tok, k);
                    assert(contains_token(rep, tok));
                    assert(false);
                } else if k < rep.len() {
                    let w = rep.len() - k;
                    assert(0 < w <= rep.len() && w < tok.len());
                    assert(rep.skip(rep.len() - w) =~= tok.take(w)) by {
                        assert(forall|j: int| 0 <= j < w ==> #[trigger] rep.skip(k)[j] == rep[k
                            + j]);
                        assert(forall|j: int| 0 <= j < w ==> #[trigger] tok.take(w)[j] == tok[j]);
                        assert(forall|j: int| 0 <= j < w ==> tok[j] == r[k + j]);
                        assert(forall|j: int| 0 <= j < w ==> #[trigger] r[k + j] == rep[k + j]);
                    }
                    assert(false);
                } else {
                    lemma_occurs_intro(r2, tok, k - rep.len());
                    assert(false);
                }
            }
        }
    } else {
        let s2 = s.skip(1);
        let r2 = replaced(s2, tok, rep);
        assert(r == seq![s[0]] + r2);
        lemma_no_tokens_remain(s2, tok, rep);
        assert forall|k: int| !occurs_at(r, tok, k) by {
            if occurs_at(r, tok, k) {
                lemma_occurs_index(r, tok, k);
                if k >= 1 {
                    lemma_occurs_intro(r2, tok, k - 1);
                    assert(false);
                } else {
                    assert(tok[0] == r[0]);
                    assert(r[0] == s[0]);
                    if tok.len() == 1 {
                        assert(s.take(tok.len() as int) =~= tok);
                        assert(false);
                    } else {
                        assert forall|j: int|
                            0 <= j < tok.len() - 1 implies #[trigger] tok.skip(1)[j] == r2[j] by {
                            assert(tok.skip(1)[j] == tok[1 + j]);
                            assert(tok[1 + j] == r[1 + j]);
                            assert(r[1 + j] == r2[j]);
                        }
                        lemma_prefix_intro(tok.skip(1), r2);
                        lemma_token_tail_prefix(s2, tok, rep, 1);
                        lemma_prefix_index(tok.skip(1), s2);
                        assert(s.take(tok.len() as int) =~= tok) by {
                            assert(forall|j: int| 1 <= j < tok.len() ==> tok.skip(1)[j - 1]
                                == tok[j]);
                            assert(forall|j: int| 1 <= j < tok.len() ==> #[trigger] s2[j - 1]
                                == s[j]);
                        }
                        assert(false);
                    }
                }
            }
        }
    }
}

/// Token substitution is confluent outright when token and replacement cannot
/// recombine: one pass removes every occurrence of the token, and a second
/// pass with the same forms is a no-op.
pub proof fn lemma_substitution_confluent_no_overlap(s: Seq<u8>, tok: Seq<u8>, rep: Seq<u8>)
    requires
        tok.len() > 0,
        no_overlap(tok, rep),
    ensures
        !contains_token(replaced(s, tok, rep), tok),
        replaced(replaced(s, tok, rep), tok, rep) == replaced(s, tok, rep),
{
    lemma_no_tokens_remain(s, tok, rep);
    lemma_replace_identity(replaced(s, tok, rep), tok, rep);
}


} // verus!
