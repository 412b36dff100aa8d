//! The corpus shard formats: raw text shards whose documents are separated
//! by a sentinel byte, and tokenized binary shards of big-endian 16-bit
//! token ids with a sentinel id as document boundary. Zero-length spans
//! between sentinels are skipped.

use vstd::prelude::*;

use crate::bpe_state::{find_byte, lemma_find_byte_bounds};
use crate::token::Token;

verus! {

/// The nonempty spans of `bytes` between occurrences of `sep`.
pub open spec fn raw_segments(bytes: Seq<u8>, sep: u8) -> Seq<Seq<u8>>
    decreases bytes.len(),
    via raw_segments_dec
{
    if bytes.len() == 0 {
        Seq::empty()
    } else {
        let i = find_byte(bytes, sep, 0);
        let seg = bytes.subrange(0, i);
        let rest = if i == bytes.len() {
            Seq::empty()
        } else {
            raw_segments(bytes.skip(i + 1), sep)
        };
        if seg.len() == 0 {
            rest
        } else {
            seq![seg] + rest
        }
    }
}

#[via_fn]
proof fn raw_segments_dec(bytes: Seq<u8>, sep: u8) {
    if bytes.len() > 0 {
        lemma_find_byte_bounds(bytes, sep, 0);
    }
}

/// Splits `bytes` at every occurrence of `sep`, dropping empty spans.
pub fn split_on_byte(bytes: &Vec<u8>, sep: u8) -> (segs: Vec<Vec<u8>>)
    ensures
        segs@.map_values(|s: Vec<u8>| s@) == raw_segments(bytes@, sep),
{
    let n = bytes.len();
    let mut segs: Vec<Vec<u8>> = Vec::new();
    let mut p: usize = 0;
    proof {
        assert(bytes@.skip(0) =~= bytes@);
        assert(segs@.map_values(|s: Vec<u8>| s@) =~= Seq::<Seq<u8>>::empty());
    }
    while p < n
        invariant
            p <= n,
            n == bytes@.len(),
            raw_segments(bytes@, sep) == segs@.map_values(|s: Vec<u8>| s@) + raw_segments(
                bytes@.skip(p as int),
                sep,
            ),
        decreases n - p,
    {
        let ghost p0 = p as int;
        let ghost suffix = bytes@.skip(p as int);
        let sep_at = crate::bpe_state::find_byte_exec(bytes, sep, p);
        proof {
            crate::bpe_state::lemma_find_byte_skip(bytes@, sep, p as int, 0);
            assert(find_byte(suffix, sep, 0) == sep_at - p);
        }
        let mut seg: Vec<u8> = Vec::new();
        let mut q = p;
        while q < sep_at
            invariant
                p <= q <= sep_at <= n,
                n == bytes@.len(),
                seg@ == bytes@.subrange(p as int, q as int),
            decreases sep_at - q,
        {
            let b = bytes[q];
            seg.push(b);
            proof {
                assert(seg@ =~= bytes@.subrange(p as int, q + 1));
            }
            q = q + 1;
        }
        proof {
            assert(suffix.subrange(0, sep_at - p) =~= bytes@.subrange(p as int, sep_at as int));
            assert(seg@ == suffix.subrange(0, sep_at - p));
        }
        let ghost segs_prev = segs@;
        if seg.len() > 0 {
            segs.push(seg);
            proof {
                assert(segs@.map_values(|s: Vec<u8>| s@) =~= segs_prev.map_values(
                    |s: Vec<u8>| s@,
                ).push(suffix.subrange(0, sep_at - p)));
            }
        }
        proof {
            let seg_spec = suffix.subrange(0, sep_at - p0);
            if sep_at == n {
                assert(bytes@.skip(n as int) =~= Seq::<u8>::empty());
                assert(raw_segments(Seq::<u8>::empty(), sep) =~= Seq::<Seq<u8>>::empty());
                assert(raw_segments(suffix, sep) == (if seg_spec.len() == 0 {
                    Seq::<Seq<u8>>::empty()
                } else {
                    seq![seg_spec] + Seq::<Seq<u8>>::empty()
                }));
                if seg_spec.len() != 0 {
                    assert(segs_prev.map_values(|s: Vec<u8>| s@).push(seg_spec)
                        =~= segs_prev.map_values(|s: Vec<u8>| s@) + (seq![seg_spec]
                        + Seq::<Seq<u8>>::empty()));
                }
                assert(segs@.map_values(|s: Vec<u8>| s@) + raw_segments(
                    bytes@.skip(n as int),
                    sep,
                ) =~= segs@.map_values(|s: Vec<u8>| s@));
            } else {
                assert(suffix.skip(sep_at - p0 + 1) =~= bytes@.skip(sep_at + 1));
                if seg_spec.len() == 0 {
                    assert(raw_segments(suffix, sep) == raw_segments(
                        bytes@.skip(sep_at + 1),
                        sep,
                    ));
                } else {
                    assert(raw_segments(suffix, sep) == seq![seg_spec] + raw_segments(
                        bytes@.skip(sep_at + 1),
                        sep,
                    ));
                    assert(segs_prev.map_values(|s: Vec<u8>| s@) + (seq![seg_spec]
                        + raw_segments(bytes@.skip(sep_at + 1), sep)) =~= segs@.map_values(
                        |s: Vec<u8>| s@,
                    ) + raw_segments(bytes@.skip(sep_at + 1), sep));
                }
            }
        }
        if sep_at == n {
            p = n;
        } else {
            p = sep_at + 1;
        }
    }
    proof {
        assert(bytes@.skip(n as int) =~= Seq::<u8>::empty());
        assert(segs@.map_values(|s: Vec<u8>| s@) + Seq::<Seq<u8>>::empty() =~= segs@.map_values(
            |s: Vec<u8>| s@,
        ));
    }
    segs
}

/// The big-endian byte pair of one token id.
pub open spec fn token_bytes(t: Token) -> Seq<u8> {
    seq![(t.0 / 256) as u8, (t.0 % 256) as u8]
}

/// One document's ids followed by the document-boundary sentinel 0xFFFF.
pub open spec fn doc_bytes(doc: Seq<Token>) -> Seq<u8>
    decreases doc.len(),
{
    if doc.len() == 0 {
        Seq::empty()
    } else {
        doc_bytes(doc.drop_last()) + token_bytes(doc.last())
    }
}

/// A tokenized corpus shard: each document's big-endian ids, a 0xFFFF
/// sentinel after each document.
pub open spec fn shard_bytes(docs: Seq<Seq<Token>>) -> Seq<u8>
    decreases docs.len(),
{
    if docs.len() == 0 {
        Seq::empty()
    } else {
        shard_bytes(docs.drop_last()) + doc_bytes(docs.last()) + seq![255u8, 255u8]
    }
}

/// Encodes documents as a tokenized shard, as `shard_bytes` describes.
pub fn encode_shard(docs: &Vec<Vec<Token>>) -> (out: Vec<u8>)
    ensures
        out@ == shard_bytes(docs@.map_values(|d: Vec<Token>| d@)),
{
    let ghost all = docs@.map_values(|d: Vec<Token>| d@);
    let n = docs.len();
    let mut out: Vec<u8> = Vec::new();
    let mut i: usize = 0;
    proof {
        assert(all.subrange(0, 0) =~= Seq::<Seq<Token>>::empty());
        assert(out@ =~= shard_bytes(all.subrange(0, 0)));
    }
    while i < n
        invariant
            i <= n,
            n == docs@.len(),
            all == docs@.map_values(|d: Vec<Token>| d@),
            out@ == shard_bytes(all.subrange(0, i as int)),
        decreases n - i,
    {
        let doc = &docs[i];
        let ghost dseq = all[i as int];
        proof {
            assert(doc@ == dseq);
        }
        let m = doc.len();
        let mut j: usize = 0;
        proof {
            assert(dseq.subrange(0, 0) =~= Seq::<Token>::empty());
            assert(out@ + doc_bytes(dseq.subrange(0, 0)) =~= out@);
        }
        let ghost out_start = out@;
        while j < m
            invariant
                j <= m,
                m == doc@.len(),
                doc@ == dseq,
                out@ == out_start + doc_bytes(dseq.subrange(0, j as int)),
            decreases m - j,
        {
            let t = doc[j];
            out.push((t.0 / 256) as u8);
            out.push((t.0 % 256) as u8);
            proof {
                assert(dseq.subrange(0, j + 1).drop_last() =~= dseq.subrange(0, j as int));
                assert(dseq.subrange(0, j + 1).last() == dseq[j as int]);
                assert(out@ =~= out_start + doc_bytes(dseq.subrange(0, j + 1)));
            }
            j = j + 1;
        }
        out.push(255);
        out.push(255);
        proof {
            assert(dseq.subrange(0, m as int) =~= dseq);
            assert(all.subrange(0, i + 1).drop_last() =~= all.subrange(0, i as int));
            assert(all.subrange(0, i + 1).last() == dseq);
            assert(out@ =~= shard_bytes(all.subrange(0, i as int)) + doc_bytes(dseq) + seq![
                255u8,
                255u8,
            ]);
        }
        i = i + 1;
    }
    proof {
        assert(all.subrange(0, n as int) =~= all);
    }
    out
}

/// The token ids read from an even-length byte stream, big endian.
pub open spec fn shard_tokens(bytes: Seq<u8>) -> Seq<Token>
    decreases bytes.len(),
{
    if bytes.len() < 2 {
        Seq::empty()
    } else {
        seq![Token((((bytes[0] as u16) * 256 + (bytes[1] as u16))) as u16)] + shard_tokens(bytes.skip(2))
    }
}

/// The nonempty documents of a token stream, split at the 0xFFFF sentinel.
pub open spec fn split_docs(tokens: Seq<Token>) -> Seq<Seq<Token>>
    decreases tokens.len(),
    via split_docs_dec
{
    if tokens.len() == 0 {
        Seq::empty()
    } else {
        let i = find_token(tokens, Token(0xFFFF), 0);
        let doc = tokens.subrange(0, i);
        let rest = if i == tokens.len() {
            Seq::empty()
        } else {
            split_docs(tokens.skip(i + 1))
        };
        if doc.len() == 0 {
            rest
        } else {
            seq![doc] + rest
        }
    }
}

/// The first position at or after `from` where `t` occurs, or the length.
pub open spec fn find_token(tokens: Seq<Token>, t: Token, from: int) -> int
    decreases tokens.len() - from,
{
    if from < 0 || from >= tokens.len() {
        tokens.len() as int
    } else if tokens[from] == t {
        from
    } else {
        find_token(tokens, t, from + 1)
    }
}

pub proof fn lemma_find_token_bounds(tokens: Seq<Token>, t: Token, from: int)
    requires
        0 <= from <= tokens.len(),
    ensures
        from <= find_token(tokens, t, from) <= tokens.len(),
    decreases tokens.len() - from,
{
    if from < tokens.len() && tokens[from] != t {
        lemma_find_token_bounds(tokens, t, from + 1);
    }
}

#[via_fn]
proof fn split_docs_dec(tokens: Seq<Token>) {
    if tokens.len() > 0 {
        lemma_find_token_bounds(tokens, Token(0xFFFF), 0);
    }
}

/// What decoding a shard yields: `None` for an odd byte count, otherwise
/// the nonempty documents between sentinels.
pub open spec fn decode_shard_spec(bytes: Seq<u8>) -> Option<Seq<Seq<Token>>> {
    if bytes.len() % 2 != 0 {
        None
    } else {
        Some(split_docs(shard_tokens(bytes)))
    }
}

/// Decodes a tokenized shard, as `decode_shard_spec` describes.
pub fn decode_shard(bytes: &Vec<u8>) -> (r: Option<Vec<Vec<Token>>>)
    ensures
        decode_shard_spec(bytes@) is None <==> r is None,
        r matches Some(docs) ==> decode_shard_spec(bytes@) == Some(
            docs@.map_values(|d: Vec<Token>| d@),
        ),
{
    let n = bytes.len();
    if n % 2 != 0 {
        return None;
    }
    let mut tokens: Vec<Token> = Vec::new();
    let mut p: usize = 0;
    proof {
        assert(bytes@.skip(0) =~= bytes@);
        assert(tokens@ + shard_tokens(bytes@) =~= shard_tokens(bytes@));
    }
    while p < n
        invariant
            p <= n,
            p % 2 == 0,
            n % 2 == 0,
            n == bytes@.len(),
            shard_tokens(bytes@) == tokens@ + shard_tokens(bytes@.skip(p as int)),
        decreases n - p,
    {
        let hi = bytes[p];
        let lo = bytes[p + 1];
        let t = Token((hi as u16) * 256 + (lo as u16));
        let ghost rest = bytes@.skip(p as int);
        proof {
            assert(rest[0] == bytes@[p as int]);
            assert(rest[1] == bytes@[p + 1]);
            assert(rest.skip(2) =~= bytes@.skip(p + 2));
            assert(shard_tokens(rest) == seq![t] + shard_tokens(bytes@.skip(p + 2)));
            assert(tokens@ + (seq![t] + shard_tokens(bytes@.skip(p + 2))) =~= tokens@.push(t)
                + shard_tokens(bytes@.skip(p + 2)));
        }
        tokens.push(t);
        p = p + 2;
    }
    proof {
        assert(bytes@.skip(n as int) =~= Seq::<u8>::empty());
        assert(tokens@ + Seq::<Token>::empty() =~= tokens@);
        assert(tokens@ == shard_tokens(bytes@));
    }
    let ghost all = tokens@;
    let m = tokens.len();
    let mut docs: Vec<Vec<Token>> = Vec::new();
    let mut q: usize = 0;
    proof {
        assert(all.skip(0) =~= all);
        assert(docs@.map_values(|d: Vec<Token>| d@) =~= Seq::<Seq<Token>>::empty());
    }
    while q < m
        invariant
            q <= m,
            m == tokens@.len(),
            all == tokens@,
            split_docs(all) == docs@.map_values(|d: Vec<Token>| d@) + split_docs(
                all.skip(q as int),
            ),
        decreases m - q,
    {
        let ghost q0 = q as int;
        let ghost suffix = all.skip(q as int);
        let mut sep_at = q;
        while sep_at < m && tokens[sep_at].0 != 0xFFFF
            invariant
                q <= sep_at <= m,
                m == tokens@.len(),
                all == tokens@,
                forall|k: int| q <= k < sep_at ==> (#[trigger] all[k]) != Token(0xFFFF),
            decreases m - sep_at,
        {
            sep_at = sep_at + 1;
        }
        proof {
            lemma_find_token_within(all, Token(0xFFFF), q as int, sep_at as int);
            lemma_find_token_skip(all, Token(0xFFFF), q as int);
            assert(find_token(suffix, Token(0xFFFF), 0) == sep_at - q);
        }
        let mut doc: Vec<Token> = Vec::new();
        let mut w = q;
        while w < sep_at
            invariant
                q <= w <= sep_at <= m,
                m == tokens@.len(),
                all == tokens@,
                doc@ == all.subrange(q as int, w as int),
            decreases sep_at - w,
        {
            let t = tokens[w];
            doc.push(t);
            proof {
                assert(doc@ =~= all.subrange(q as int, w + 1));
            }
            w = w + 1;
        }
        proof {
            assert(suffix.subrange(0, sep_at - q) =~= all.subrange(q as int, sep_at as int));
            assert(doc@ == suffix.subrange(0, sep_at - q));
        }
        let ghost docs_prev = docs@;
        if doc.len() > 0 {
            docs.push(doc);
            proof {
                assert(docs@.map_values(|d: Vec<Token>| d@) =~= docs_prev.map_values(
                    |d: Vec<Token>| d@,
                ).push(suffix.subrange(0, sep_at - q)));
            }
        }
        proof {
            let doc_spec = suffix.subrange(0, sep_at - q0);
            if sep_at == m {
                assert(all.skip(m as int) =~= Seq::<Token>::empty());
                assert(split_docs(Seq::<Token>::empty()) =~= Seq::<Seq<Token>>::empty());
                assert(split_docs(suffix) == (if doc_spec.len() == 0 {
                    Seq::<Seq<Token>>::empty()
                } else {
                    seq![doc_spec] + Seq::<Seq<Token>>::empty()
                }));
                if doc_spec.len() != 0 {
                    assert(docs_prev.map_values(|d: Vec<Token>| d@).push(doc_spec)
                        =~= docs_prev.map_values(|d: Vec<Token>| d@) + (seq![doc_spec]
                        + Seq::<Seq<Token>>::empty()));
                }
                assert(docs@.map_values(|d: Vec<Token>| d@) + split_docs(all.skip(m as int))
                    =~= docs@.map_values(|d: Vec<Token>| d@));
            } else {
                assert(suffix.skip(sep_at - q0 + 1) =~= all.skip(sep_at + 1));
                if doc_spec.len() == 0 {
                    assert(split_docs(suffix) == split_docs(all.skip(sep_at + 1)));
                } else {
                    assert(split_docs(suffix) == seq![doc_spec] + split_docs(
                        all.skip(sep_at + 1),
                    ));
                    assert(docs_prev.map_values(|d: Vec<Token>| d@) + (seq![doc_spec]
                        + split_docs(all.skip(sep_at + 1))) =~= docs@.map_values(
                        |d: Vec<Token>| d@,
                    ) + split_docs(all.skip(sep_at + 1)));
                }
            }
        }
        if sep_at == m {
            q = m;
        } else {
            q = sep_at + 1;
        }
    }
    proof {
        assert(all.skip(m as int) =~= Seq::<Token>::empty());
        assert(docs@.map_values(|d: Vec<Token>| d@) + Seq::<Seq<Token>>::empty()
            =~= docs@.map_values(|d: Vec<Token>| d@));
    }
    Some(docs)
}

/// If positions `[from, k)` lack `t` and `k` is its position or the end,
/// `find_token` returns `k`.
proof fn lemma_find_token_within(tokens: Seq<Token>, t: Token, from: int, k: int)
    requires
        0 <= from <= k <= tokens.len(),
        forall|j: int| from <= j < k ==> (#[trigger] tokens[j]) != t,
        k == tokens.len() || tokens[k] == t,
    ensures
        find_token(tokens, t, from) == k,
    decreases k - from,
{
    if from < k {
        lemma_find_token_within(tokens, t, from + 1, k);
    }
}

/// `find_token` seen from a suffix.
proof fn lemma_find_token_skip(tokens: Seq<Token>, t: Token, p: int)
    requires
        0 <= p <= tokens.len(),
    ensures
        find_token(tokens.skip(p), t, 0) == find_token(tokens, t, p) - p,
{
    lemma_find_token_skip_at(tokens, t, p, 0);
}

proof fn lemma_find_token_skip_at(tokens: Seq<Token>, t: Token, p: int, q: int)
    requires
        0 <= p <= tokens.len(),
        0 <= q,
    ensures
        find_token(tokens.skip(p), t, q) == find_token(tokens, t, p + q) - p,
    decreases tokens.len() - p - q,
{
    if p + q >= tokens.len() {
        lemma_find_token_bounds(tokens, t, tokens.len() as int);
    } else if tokens.skip(p)[q] == t {
    } else {
        lemma_find_token_skip_at(tokens, t, p, q + 1);
    }
}

} // verus!
