//! Token and pair occurrence counts, combinable across independent
//! partitions, and the selection of this round's merge candidates.

use vstd::prelude::*;

use crate::config::{ForbiddenPatterns, TrainConfig, SCALE};
use crate::count::{sat_add, Count};
use crate::token::Token;

verus! {

/// The packed map key of an adjacent pair: left id in the high 16 bits.
pub open spec fn pair_key(left: u16, right: u16) -> u32 {
    ((left as u32) * 65536 + (right as u32)) as u32
}

/// The count stored for `key`, or zero when absent.
pub open spec fn find_count(pairs: Seq<(u32, u64)>, key: u32) -> u64
    decreases pairs.len(),
{
    if pairs.len() == 0 {
        0
    } else if pairs.first().0 == key {
        pairs.first().1
    } else {
        find_count(pairs.drop_first(), key)
    }
}

/// Strictly ascending keys: every entry's key is smaller than all later
/// ones.
pub open spec fn keys_ascending(pairs: Seq<(u32, u64)>) -> bool {
    forall|i: int, j: int| 0 <= i < j < pairs.len() ==> (#[trigger] pairs[i]).0 < (#[trigger] pairs[j]).0
}

/// Accumulates how often each token and each adjacent token pair occurs.
/// Two histograms built over disjoint partitions combine by element-wise
/// count sum, so parallel counting and sequential counting agree.
pub struct TokenHistogram {
    tokens: Vec<u64>,
    pairs: Vec<(u32, u64)>,
}

impl TokenHistogram {
    /// The pair entries, ascending by packed key, every count nonzero.
    pub closed spec fn pairs_spec(self) -> Seq<(u32, u64)> {
        self.pairs@
    }

    /// The count of the adjacent pair (`left`, `right`).
    pub closed spec fn pair_count(self, left: u16, right: u16) -> u64 {
        find_count(self.pairs@, pair_key(left, right))
    }

    /// The count registered for `token`.
    pub closed spec fn token_count(self, token: u16) -> u64 {
        self.tokens@[token as int]
    }

    /// Well-formedness: one count slot per possible id, and a pair table
    /// with strictly ascending keys and nonzero counts.
    pub closed spec fn wf(self) -> bool {
        &&& self.tokens@.len() == 65536
        &&& keys_ascending(self.pairs@)
        &&& forall|i: int| 0 <= i < self.pairs@.len() ==> (#[trigger] self.pairs@[i]).1 > 0
    }

    /// A histogram with every count zero.
    pub fn new() -> (h: TokenHistogram)
        ensures
            h.wf(),
            forall|t: u16| h.token_count(t) == 0,
            forall|l: u16, r: u16| h.pair_count(l, r) == 0,
            h.pairs_spec().len() == 0,
    {
        let tokens: Vec<u64> = vec![0u64; 65536];
        let h = TokenHistogram { tokens, pairs: Vec::new() };
        h
    }

    /// Counts one occurrence of `token`.
    pub fn register(&mut self, token: Token)
        requires
            old(self).wf(),
        ensures
            final(self).wf(),
            forall|t: u16|
                final(self).token_count(t) == if t == token.0 {
                    sat_add(old(self).token_count(t), 1)
                } else {
                    old(self).token_count(t)
                },
            final(self).pairs_spec() == old(self).pairs_spec(),
    {
        self.register_n(token, 1);
    }

    /// Counts `n` occurrences of `token`.
    pub fn register_n(&mut self, token: Token, n: u64)
        requires
            old(self).wf(),
        ensures
            final(self).wf(),
            forall|t: u16|
                final(self).token_count(t) == if t == token.0 {
                    sat_add(old(self).token_count(t), n)
                } else {
                    old(self).token_count(t)
                },
            final(self).pairs_spec() == old(self).pairs_spec(),
    {
        let idx = token.index();
        let c = self.tokens[idx];
        let bumped = if c > u64::MAX - n {
            u64::MAX
        } else {
            c + n
        };
        self.tokens.set(idx, bumped);
    }

    /// Counts one occurrence of the adjacent pair (`left`, `right`).
    pub fn register_pair(&mut self, left: Token, right: Token)
        requires
            old(self).wf(),
        ensures
            final(self).wf(),
            forall|a: u16, b: u16|
                final(self).pair_count(a, b) == if a == left.0 && b == right.0 {
                    sat_add(old(self).pair_count(a, b), 1)
                } else {
                    old(self).pair_count(a, b)
                },
            forall|t: u16| final(self).token_count(t) == old(self).token_count(t),
    {
        let key = (left.0 as u32) * 65536 + (right.0 as u32);
        proof {
            assert(key == pair_key(left.0, right.0));
        }
        self.add_pair_count(key, 1);
        proof {
            lemma_pair_key_injective();
            assert forall|a: u16, b: u16|
                self.pair_count(a, b) == (if a == left.0 && b == right.0 {
                    sat_add(old(self).pair_count(a, b), 1)
                } else {
                    old(self).pair_count(a, b)
                }) by {
                assert(self.pair_count(a, b) == find_count(self.pairs_spec(), pair_key(a, b)));
                assert(old(self).pair_count(a, b) == find_count(
                    old(self).pairs_spec(),
                    pair_key(a, b),
                ));
                if pair_key(a, b) == key {
                    assert(a == left.0 && b == right.0);
                }
            }
        }
    }

    /// Adds `n` to the count stored under `key`.
    fn add_pair_count(&mut self, key: u32, n: u64)
        requires
            old(self).wf(),
            n > 0,
        ensures
            final(self).wf(),
            forall|k: u32|
                find_count(final(self).pairs_spec(), k) == if k == key {
                    sat_add(find_count(old(self).pairs_spec(), k), n)
                } else {
                    find_count(old(self).pairs_spec(), k)
                },
            final(self).tokens@ == old(self).tokens@,
    {
        let ghost orig = self.pairs@;
        let len = self.pairs.len();
        let mut i: usize = 0;
        while i < len && self.pairs[i].0 < key
            invariant
                i <= len,
                len == self.pairs@.len(),
                self.pairs@ == orig,
                forall|j: int| 0 <= j < i ==> (#[trigger] self.pairs@[j]).0 < key,
            decreases len - i,
        {
            i = i + 1;
        }
        if i < len && self.pairs[i].0 == key {
            let entry = self.pairs[i];
            let bumped = if entry.1 > u64::MAX - n {
                u64::MAX
            } else {
                entry.1 + n
            };
            self.pairs.set(i, (key, bumped));
            proof {
                lemma_find_count_update(orig, self.pairs@, i as int, n);
            }
        } else {
            self.pairs.insert(i, (key, n));
            proof {
                lemma_find_count_insert(orig, self.pairs@, i as int, key, n);
            }
        }
    }

    /// Element-wise, saturating sum with `other`: afterwards every token
    /// and pair count is the sum of the two. Combination is associative and
    /// commutative, so any reduction order over partitions yields the same
    /// totals.
    pub fn combine(&mut self, other: TokenHistogram)
        requires
            old(self).wf(),
            other.wf(),
        ensures
            final(self).wf(),
            forall|t: u16|
                final(self).token_count(t) == sat_add(
                    old(self).token_count(t),
                    other.token_count(t),
                ),
            forall|l: u16, r: u16|
                final(self).pair_count(l, r) == sat_add(
                    old(self).pair_count(l, r),
                    other.pair_count(l, r),
                ),
    {
        let mut t: usize = 0;
        while t < 65536
            invariant
                t <= 65536,
                self.pairs@ == old(self).pairs@,
                self.tokens@.len() == 65536,
                other.wf(),
                forall|j: int|
                    t <= j < 65536 ==> (#[trigger] self.tokens@[j]) == old(self).tokens@[j],
                forall|j: int|
                    0 <= j < t ==> (#[trigger] self.tokens@[j]) == sat_add(
                        old(self).tokens@[j],
                        other.tokens@[j],
                    ),
            decreases 65536 - t,
        {
            let a = self.tokens[t];
            let b = other.tokens[t];
            let s = if a > u64::MAX - b {
                u64::MAX
            } else {
                a + b
            };
            self.tokens.set(t, s);
            t = t + 1;
        }
        let ghost mid = *self;
        let n = other.pairs.len();
        let mut i: usize = 0;
        proof {
            assert(other.pairs@.subrange(0, 0) =~= Seq::<(u32, u64)>::empty());
            assert forall|k: u32|
                find_count(self.pairs_spec(), k) == sat_add(
                    find_count(mid.pairs_spec(), k),
                    find_count(other.pairs@.subrange(0, 0), k),
                ) by {
                assert(find_count(Seq::<(u32, u64)>::empty(), k) == 0);
            }
        }
        while i < n
            invariant
                i <= n,
                n == other.pairs@.len(),
                other.wf(),
                self.wf(),
                self.tokens@ == mid.tokens@,
                forall|k: u32|
                    find_count(self.pairs_spec(), k) == sat_add(
                        find_count(mid.pairs_spec(), k),
                        find_count(other.pairs@.subrange(0, i as int), k),
                    ),
            decreases n - i,
        {
            let entry = other.pairs[i];
            let ghost prefix = other.pairs@.subrange(0, i as int);
            proof {
                assert(forall|j: int| 0 <= j < i ==> (#[trigger] prefix[j]).0 < entry.0);
                lemma_find_count_no_key(prefix, entry.0);
                assert(other.pairs@.subrange(0, i + 1) =~= prefix.push(entry));
            }
            let ghost before = self.pairs_spec();
            self.add_pair_count(entry.0, entry.1);
            proof {
                assert forall|k: u32|
                    find_count(self.pairs_spec(), k) == sat_add(
                        find_count(mid.pairs_spec(), k),
                        find_count(other.pairs@.subrange(0, i + 1), k),
                    ) by {
                    lemma_find_count_push(prefix, entry, k);
                    if k == entry.0 {
                        crate::count::lemma_sat_add_associative(
                            find_count(mid.pairs_spec(), k),
                            0,
                            entry.1,
                        );
                    }
                }
            }
            i = i + 1;
        }
        proof {
            assert(other.pairs@.subrange(0, n as int) =~= other.pairs@);
            assert forall|l: u16, r: u16|
                self.pair_count(l, r) == sat_add(
                    old(self).pair_count(l, r),
                    other.pair_count(l, r),
                ) by {
                assert(self.pair_count(l, r) == find_count(self.pairs_spec(), pair_key(l, r)));
                assert(mid.pairs_spec() == old(self).pairs_spec());
                assert(other.pair_count(l, r) == find_count(other.pairs@, pair_key(l, r)));
                assert(old(self).pair_count(l, r) == find_count(
                    mid.pairs_spec(),
                    pair_key(l, r),
                ));
            }
        }
    }

    /// The stored count of the pair (`left`, `right`); zero when it was
    /// never registered.
    pub fn get_pair(&self, left: Token, right: Token) -> (c: Count)
        requires
            self.wf(),
        ensures
            c.0 == self.pair_count(left.0, right.0),
    {
        let key = (left.0 as u32) * 65536 + (right.0 as u32);
        let n = self.pairs.len();
        let mut i: usize = 0;
        proof {
            assert(key == pair_key(left.0, right.0));
            assert(self.pairs@.skip(0) =~= self.pairs@);
        }
        while i < n
            invariant
                i <= n,
                n == self.pairs@.len(),
                self.wf(),
                key == pair_key(left.0, right.0),
                find_count(self.pairs@, key) == find_count(self.pairs@.skip(i as int), key),
            decreases n - i,
        {
            let entry = self.pairs[i];
            proof {
                assert(self.pairs@.skip(i as int).first() == self.pairs@[i as int]);
                assert(self.pairs@.skip(i as int).drop_first() =~= self.pairs@.skip(i + 1));
            }
            if entry.0 == key {
                return Count(entry.1);
            }
            i = i + 1;
        }
        proof {
            assert(self.pairs@.skip(n as int) =~= Seq::<(u32, u64)>::empty());
            assert(find_count(Seq::<(u32, u64)>::empty(), key) == 0);
        }
        Count(0)
    }

    /// How many distinct pairs have a nonzero count.
    pub fn len_pairs(&self) -> (c: Count)
        ensures
            c.0 == self.pairs_spec().len(),
    {
        Count(self.pairs.len() as u64)
    }

    /// The stored count of `token`.
    pub fn get_token(&self, token: Token) -> (c: Count)
        requires
            self.wf(),
        ensures
            c.0 == self.token_count(token.0),
    {
        Count(self.tokens[token.index()])
    }
}

/// The left id packed into `key`.
pub open spec fn unpack_left(key: u32) -> u16 {
    (key / 65536) as u16
}

/// The right id packed into `key`.
pub open spec fn unpack_right(key: u32) -> u16 {
    (key % 65536) as u16
}

/// The candidate order: larger count first; among equal counts, the smaller
/// packed key (lexicographic on (left, right)) first, as the explicit
/// tie-break.
pub open spec fn cand_before(a: (u32, u64), b: (u32, u64)) -> bool {
    a.1 > b.1 || (a.1 == b.1 && a.0 < b.0)
}

/// `x` inserted in front of the first entry it precedes.
pub open spec fn insert_desc(x: (u32, u64), s: Seq<(u32, u64)>) -> Seq<(u32, u64)>
    decreases s.len(),
{
    if s.len() == 0 {
        seq![x]
    } else if cand_before(x, s.first()) {
        seq![x] + s
    } else {
        seq![s.first()] + insert_desc(x, s.drop_first())
    }
}

/// The entries ordered by `cand_before`: insertion sort.
pub open spec fn sort_desc(s: Seq<(u32, u64)>) -> Seq<(u32, u64)>
    decreases s.len(),
{
    if s.len() == 0 {
        Seq::empty()
    } else {
        insert_desc(s.last(), sort_desc(s.drop_last()))
    }
}

/// Whether the merged byte string would exceed the configured cap.
pub open spec fn too_long(merged_len: int, max_len: Option<usize>) -> bool {
    match max_len {
        Option::Some(m) => merged_len > m,
        Option::None => false,
    }
}

/// The selection scan over candidates in order: stop at the first candidate
/// below `eta * top`; skip, without blocking, a candidate out of the
/// vocabulary, over the length cap, or matching a forbidden pattern; skip a
/// candidate whose left is blocked as left or whose right is blocked as
/// right; accept the rest, blocking the accepted right as future left and
/// the accepted left as future right.
pub open spec fn select_rec(
    cands: Seq<(u32, u64)>,
    blocked_left: Set<u16>,
    blocked_right: Set<u16>,
    top: u64,
    eta: int,
    vocab: Seq<Seq<u8>>,
    max_len: Option<usize>,
    patterns: ForbiddenPatterns,
) -> Seq<(u16, u16)>
    decreases cands.len(),
{
    if cands.len() == 0 {
        Seq::empty()
    } else {
        let key = cands.first().0;
        let cnt = cands.first().1;
        let l = unpack_left(key);
        let r = unpack_right(key);
        let rest = cands.drop_first();
        if (cnt as int) * (SCALE as int) < eta * (top as int) {
            Seq::empty()
        } else if l as int >= vocab.len() || r as int >= vocab.len() {
            select_rec(rest, blocked_left, blocked_right, top, eta, vocab, max_len, patterns)
        } else if too_long(vocab[l as int].len() + vocab[r as int].len() as int, max_len) {
            select_rec(rest, blocked_left, blocked_right, top, eta, vocab, max_len, patterns)
        } else if patterns.matches_spec(vocab[l as int] + vocab[r as int]) {
            select_rec(rest, blocked_left, blocked_right, top, eta, vocab, max_len, patterns)
        } else if blocked_left.contains(l) || blocked_right.contains(r) {
            select_rec(rest, blocked_left, blocked_right, top, eta, vocab, max_len, patterns)
        } else {
            seq![(l, r)] + select_rec(
                rest,
                blocked_left.insert(r),
                blocked_right.insert(l),
                top,
                eta,
                vocab,
                max_len,
                patterns,
            )
        }
    }
}

/// What `merges_to_add` returns: the selection scan over the histogram's
/// candidates in descending-count order, the first sorted count as
/// `top_count`, and the threshold from the eta scheduler at progress `t`.
pub open spec fn selected_spec(
    h: TokenHistogram,
    vocab: Seq<Seq<u8>>,
    config: TrainConfig,
    t: int,
) -> Seq<(u16, u16)> {
    let sorted = sort_desc(h.pairs_spec());
    if sorted.len() == 0 {
        Seq::empty()
    } else {
        select_rec(
            sorted,
            Set::empty(),
            Set::empty(),
            sorted.first().1,
            config.eta.for_t_spec(t),
            vocab,
            config.max_token_length,
            config.forbidden_patterns,
        )
    }
}

/// The id pairs of a token-pair list.
pub open spec fn token_pairs_view(s: Seq<(Token, Token)>) -> Seq<(u16, u16)> {
    s.map_values(|p: (Token, Token)| (p.0.0, p.1.0))
}

impl TokenHistogram {
    /// This round's ordered batch of non-conflicting merge candidates, as
    /// `selected_spec` describes: pairs are visited in descending-count
    /// order (ties broken by ascending ids); the scan stops at the first
    /// pair whose count falls below the eta threshold of the top count;
    /// length-capped, forbidden, and blocked pairs are skipped; an accepted
    /// pair blocks its right member as a later left and its left member as
    /// a later right, so no position can be claimed by two merges of one
    /// batch. `tokens` is the byte string of every token id, `t` the
    /// training progress in millionths.
    pub fn merges_to_add(&self, tokens: &Vec<Vec<u8>>, config: &TrainConfig, t: u64) -> (r: Vec<
        (Token, Token),
    >)
        requires
            self.wf(),
            config.wf(),
            t <= SCALE,
        ensures
            token_pairs_view(r@) == selected_spec(*self, tokens.deep_view(), *config, t as int),
    {
        let ghost vocab = tokens.deep_view();
        let eta = config.eta.for_t(t);
        let n = self.pairs.len();
        let mut sorted: Vec<(u32, u64)> = Vec::new();
        let mut i: usize = 0;
        proof {
            assert(self.pairs@.subrange(0, 0) =~= Seq::<(u32, u64)>::empty());
        }
        while i < n
            invariant
                i <= n,
                n == self.pairs@.len(),
                sorted@ == sort_desc(self.pairs@.subrange(0, i as int)),
            decreases n - i,
        {
            let x = self.pairs[i];
            let slen = sorted.len();
            let mut j: usize = 0;
            while j < slen && !cand_before_exec(x, sorted[j])
                invariant
                    j <= slen,
                    slen == sorted@.len(),
                    sorted@ == sort_desc(self.pairs@.subrange(0, i as int)),
                    forall|k: int| 0 <= k < j ==> !cand_before(x, #[trigger] sorted@[k]),
                decreases slen - j,
            {
                j = j + 1;
            }
            let ghost before = sorted@;
            sorted.insert(j, x);
            proof {
                lemma_insert_desc_at(before, x, j as int);
                assert(sorted@ =~= before.subrange(0, j as int) + seq![x] + before.skip(j as int));
                assert(sorted@ == insert_desc(x, before));
                let sub1 = self.pairs@.subrange(0, i + 1);
                assert(sub1.drop_last() =~= self.pairs@.subrange(0, i as int));
                assert(sub1.last() == self.pairs@[i as int]);
            }
            i = i + 1;
        }
        proof {
            assert(self.pairs@.subrange(0, n as int) =~= self.pairs@);
        }
        let mut out: Vec<(Token, Token)> = Vec::new();
        if sorted.len() == 0 {
            proof {
                assert(token_pairs_view(out@) =~= Seq::<(u16, u16)>::empty());
            }
            return out;
        }
        let top = sorted[0].1;
        let ghost sel_full = selected_spec(*self, vocab, *config, t as int);
        let m = sorted.len();
        let mut blocked_left: Vec<bool> = vec![false; 65536];
        let mut blocked_right: Vec<bool> = vec![false; 65536];
        let ghost mut bl: Set<u16> = Set::empty();
        let ghost mut br: Set<u16> = Set::empty();
        let mut p: usize = 0;
        proof {
            assert(sorted@.skip(0) =~= sorted@);
            assert(token_pairs_view(out@) =~= Seq::<(u16, u16)>::empty());
        }
        while p < m
            invariant
                p <= m,
                m == sorted@.len(),
                self.wf(),
                config.wf(),
                t <= SCALE,
                vocab == tokens.deep_view(),
                eta == config.eta.for_t_spec(t as int),
                eta <= SCALE,
                sorted@ == sort_desc(self.pairs@),
                m > 0,
                top == sorted@[0].1,
                sel_full == selected_spec(*self, vocab, *config, t as int),
                blocked_left@.len() == 65536,
                blocked_right@.len() == 65536,
                forall|x: u16| blocked_left@[x as int] == bl.contains(x),
                forall|x: u16| blocked_right@[x as int] == br.contains(x),
                sel_full == token_pairs_view(out@) + select_rec(
                    sorted@.skip(p as int),
                    bl,
                    br,
                    top,
                    eta as int,
                    vocab,
                    config.max_token_length,
                    config.forbidden_patterns,
                ),
            decreases m - p,
        {
            let entry = sorted[p];
            let key = entry.0;
            let cnt = entry.1;
            let l16 = (key / 65536) as u16;
            let r16 = (key % 65536) as u16;
            let ghost rest = sorted@.skip(p as int);
            proof {
                assert(rest.first() == sorted@[p as int]);
                assert(rest.drop_first() =~= sorted@.skip(p + 1));
                assert(l16 == unpack_left(key));
                assert(r16 == unpack_right(key));
            }
            proof {
                assert(cnt as int * SCALE as int <= u64::MAX as int * SCALE as int)
                    by (nonlinear_arith)
                    requires
                        cnt <= u64::MAX,
                ;
                assert(eta as int * top as int <= SCALE as int * u64::MAX as int)
                    by (nonlinear_arith)
                    requires
                        eta <= SCALE,
                        top <= u64::MAX,
                ;
            }
            if (cnt as u128) * (SCALE as u128) < (eta as u128) * (top as u128) {
                proof {
                    assert(select_rec(
                        rest,
                        bl,
                        br,
                        top,
                        eta as int,
                        vocab,
                        config.max_token_length,
                        config.forbidden_patterns,
                    ) == Seq::<(u16, u16)>::empty());
                    assert(token_pairs_view(out@) + Seq::<(u16, u16)>::empty()
                        =~= token_pairs_view(out@));
                }
                return out;
            } else {
                let skip_this: bool;
                if (l16 as usize) >= tokens.len() || (r16 as usize) >= tokens.len() {
                    skip_this = true;
                } else {
                    let merged = concat_bytes(&tokens[l16 as usize], &tokens[r16 as usize]);
                    proof {
                        assert(merged@ == vocab[l16 as int] + vocab[r16 as int]);
                    }
                    let over_cap = match config.max_token_length {
                        Option::Some(cap) => merged.len() > cap,
                        Option::None => false,
                    };
                    if over_cap {
                        skip_this = true;
                    } else if config.forbidden_patterns.is_match(&merged) {
                        skip_this = true;
                    } else if blocked_left[l16 as usize] || blocked_right[r16 as usize] {
                        skip_this = true;
                    } else {
                        skip_this = false;
                    }
                }
                if skip_this {
                    proof {
                        assert(select_rec(
                            rest,
                            bl,
                            br,
                            top,
                            eta as int,
                            vocab,
                            config.max_token_length,
                            config.forbidden_patterns,
                        ) == select_rec(
                            sorted@.skip(p + 1),
                            bl,
                            br,
                            top,
                            eta as int,
                            vocab,
                            config.max_token_length,
                            config.forbidden_patterns,
                        ));
                    }
                } else {
                    let ghost out_prev = out@;
                    out.push((Token(l16), Token(r16)));
                    blocked_left.set(r16 as usize, true);
                    blocked_right.set(l16 as usize, true);
                    proof {
                        let bl2 = bl.insert(r16);
                        let br2 = br.insert(l16);
                        assert(select_rec(
                            rest,
                            bl,
                            br,
                            top,
                            eta as int,
                            vocab,
                            config.max_token_length,
                            config.forbidden_patterns,
                        ) == seq![(l16, r16)] + select_rec(
                            sorted@.skip(p + 1),
                            bl2,
                            br2,
                            top,
                            eta as int,
                            vocab,
                            config.max_token_length,
                            config.forbidden_patterns,
                        ));
                        assert(token_pairs_view(out@) =~= token_pairs_view(out_prev).push(
                            (l16, r16),
                        ));
                        assert(token_pairs_view(out_prev) + (seq![(l16, r16)] + select_rec(
                            sorted@.skip(p + 1),
                            bl2,
                            br2,
                            top,
                            eta as int,
                            vocab,
                            config.max_token_length,
                            config.forbidden_patterns,
                        )) =~= token_pairs_view(out@) + select_rec(
                            sorted@.skip(p + 1),
                            bl2,
                            br2,
                            top,
                            eta as int,
                            vocab,
                            config.max_token_length,
                            config.forbidden_patterns,
                        ));
                        bl = bl2;
                        br = br2;
                        assert forall|x: u16| blocked_left@[x as int] == bl.contains(x) by {}
                        assert forall|x: u16| blocked_right@[x as int] == br.contains(x) by {}
                    }
                }
                p = p + 1;
            }
        }
        proof {
            assert(sorted@.skip(m as int) =~= Seq::<(u32, u64)>::empty());
            assert(select_rec(
                sorted@.skip(m as int),
                bl,
                br,
                top,
                eta as int,
                vocab,
                config.max_token_length,
                config.forbidden_patterns,
            ) == Seq::<(u16, u16)>::empty());
            assert(token_pairs_view(out@) + Seq::<(u16, u16)>::empty() =~= token_pairs_view(
                out@,
            ));
        }
        out
    }
}

/// Whether `a` precedes `b` in the candidate order.
fn cand_before_exec(a: (u32, u64), b: (u32, u64)) -> (r: bool)
    ensures
        r == cand_before(a, b),
{
    a.1 > b.1 || (a.1 == b.1 && a.0 < b.0)
}

/// Inserting at the first position whose entry `x` precedes realizes
/// `insert_desc`.
proof fn lemma_insert_desc_at(s: Seq<(u32, u64)>, x: (u32, u64), j: int)
    requires
        0 <= j <= s.len(),
        forall|k: int| 0 <= k < j ==> !cand_before(x, #[trigger] s[k]),
        j == s.len() || cand_before(x, s[j]),
    ensures
        insert_desc(x, s) == s.subrange(0, j) + seq![x] + s.skip(j),
    decreases j,
{
    if j == 0 {
        if s.len() == 0 {
            assert(insert_desc(x, s) =~= s.subrange(0, 0) + seq![x] + s.skip(0));
        } else {
            assert(cand_before(x, s.first()));
            assert(insert_desc(x, s) =~= s.subrange(0, 0) + seq![x] + s.skip(0));
        }
    } else {
        assert(!cand_before(x, s[0]));
        let rest = s.drop_first();
        assert forall|k: int| 0 <= k < j - 1 implies !cand_before(x, #[trigger] rest[k]) by {
            assert(rest[k] == s[k + 1]);
        }
        if j < s.len() {
            assert(rest[j - 1] == s[j]);
        }
        lemma_insert_desc_at(rest, x, j - 1);
        assert(seq![s.first()] + (rest.subrange(0, j - 1) + seq![x] + rest.skip(j - 1)) =~= s.subrange(0, j) + seq![x] + s.skip(j));
    }
}

/// The byte strings of the two operands, concatenated.
fn concat_bytes(a: &Vec<u8>, b: &Vec<u8>) -> (out: Vec<u8>)
    ensures
        out@ == a@ + b@,
{
    let mut out: Vec<u8> = Vec::new();
    let mut i: usize = 0;
    while i < a.len()
        invariant
            i <= a@.len(),
            out@ == a@.subrange(0, i as int),
        decreases a@.len() - i,
    {
        let x = a[i];
        out.push(x);
        proof {
            assert(out@ =~= a@.subrange(0, i + 1));
        }
        i = i + 1;
    }
    let mut j: usize = 0;
    proof {
        assert(a@.subrange(0, a@.len() as int) =~= a@);
        assert(out@ + b@.subrange(0, 0) =~= out@);
    }
    while j < b.len()
        invariant
            j <= b@.len(),
            out@ == a@ + b@.subrange(0, j as int),
        decreases b@.len() - j,
    {
        let x = b[j];
        out.push(x);
        proof {
            assert(out@ =~= a@ + b@.subrange(0, j + 1));
        }
        j = j + 1;
    }
    proof {
        assert(out@ =~= a@ + b@);
    }
    out
}

/// The selection scan never returns a pair whose left is already blocked
/// as left or whose right is already blocked as right, and no token of an
/// earlier accepted pair reappears on the conflicting side of a later one.
proof fn lemma_select_no_conflicts(
    cands: Seq<(u32, u64)>,
    blocked_left: Set<u16>,
    blocked_right: Set<u16>,
    top: u64,
    eta: int,
    vocab: Seq<Seq<u8>>,
    max_len: Option<usize>,
    patterns: ForbiddenPatterns,
)
    ensures
        ({
            let sel = select_rec(cands, blocked_left, blocked_right, top, eta, vocab, max_len, patterns);
            &&& forall|k: int|
                0 <= k < sel.len() ==> !blocked_left.contains((#[trigger] sel[k]).0)
                    && !blocked_right.contains(sel[k].1)
            &&& forall|k1: int, k2: int|
                0 <= k1 < k2 < sel.len() ==> (#[trigger] sel[k2]).0 != (#[trigger] sel[k1]).1
                    && sel[k2].1 != sel[k1].0
        }),
    decreases cands.len(),
{
    if cands.len() > 0 {
        let key = cands.first().0;
        let cnt = cands.first().1;
        let l = unpack_left(key);
        let r = unpack_right(key);
        let rest = cands.drop_first();
        let sel = select_rec(cands, blocked_left, blocked_right, top, eta, vocab, max_len, patterns);
        if (cnt as int) * (SCALE as int) < eta * (top as int) {
        } else {
            let accepted = !(l as int >= vocab.len() || r as int >= vocab.len()) && !too_long(
                vocab[l as int].len() + vocab[r as int].len() as int,
                max_len,
            ) && !patterns.matches_spec(vocab[l as int] + vocab[r as int]) && !(
            blocked_left.contains(l) || blocked_right.contains(r));
            let bl2 = if accepted {
                blocked_left.insert(r)
            } else {
                blocked_left
            };
            let br2 = if accepted {
                blocked_right.insert(l)
            } else {
                blocked_right
            };
            lemma_select_no_conflicts(rest, bl2, br2, top, eta, vocab, max_len, patterns);
            let tail = select_rec(rest, bl2, br2, top, eta, vocab, max_len, patterns);
            let shift = if accepted {
                1int
            } else {
                0int
            };
            assert forall|k: int|
                0 <= k < sel.len() implies !blocked_left.contains((#[trigger] sel[k]).0)
                && !blocked_right.contains(sel[k].1) by {
                if accepted && k == 0 {
                    assert(sel[0] == (l, r));
                } else {
                    assert(sel[k] == tail[k - shift]);
                    assert(!bl2.contains(tail[k - shift].0));
                    assert(!br2.contains(tail[k - shift].1));
                }
            }
            assert forall|k1: int, k2: int|
                0 <= k1 < k2 < sel.len() implies (#[trigger] sel[k2]).0 != (#[trigger] sel[k1]).1
                && sel[k2].1 != sel[k1].0 by {
                assert(sel[k2] == tail[k2 - shift]);
                assert(!bl2.contains(tail[k2 - shift].0));
                assert(!br2.contains(tail[k2 - shift].1));
                if accepted && k1 == 0 {
                    assert(sel[0] == (l, r));
                    assert(bl2.contains(r) && br2.contains(l));
                } else {
                    assert(sel[k1] == tail[k1 - shift]);
                }
            }
        }
    }

}

/// Every selected pair lies inside the vocabulary, respects the length
/// cap, and matches no forbidden pattern.
proof fn lemma_select_filters(
    cands: Seq<(u32, u64)>,
    blocked_left: Set<u16>,
    blocked_right: Set<u16>,
    top: u64,
    eta: int,
    vocab: Seq<Seq<u8>>,
    max_len: Option<usize>,
    patterns: ForbiddenPatterns,
)
    ensures
        ({
            let sel = select_rec(cands, blocked_left, blocked_right, top, eta, vocab, max_len, patterns);
            forall|k: int|
                0 <= k < sel.len() ==> {
                    let p = #[trigger] sel[k];
                    &&& (p.0 as int) < vocab.len()
                    &&& (p.1 as int) < vocab.len()
                    &&& !too_long(vocab[p.0 as int].len() + vocab[p.1 as int].len() as int, max_len)
                    &&& !patterns.matches_spec(vocab[p.0 as int] + vocab[p.1 as int])
                }
        }),
    decreases cands.len(),
{
    if cands.len() > 0 {
        let key = cands.first().0;
        let cnt = cands.first().1;
        let l = unpack_left(key);
        let r = unpack_right(key);
        let rest = cands.drop_first();
        let sel = select_rec(cands, blocked_left, blocked_right, top, eta, vocab, max_len, patterns);
        if (cnt as int) * (SCALE as int) < eta * (top as int) {
        } else {
            let accepted = !(l as int >= vocab.len() || r as int >= vocab.len()) && !too_long(
                vocab[l as int].len() + vocab[r as int].len() as int,
                max_len,
            ) && !patterns.matches_spec(vocab[l as int] + vocab[r as int]) && !(
            blocked_left.contains(l) || blocked_right.contains(r));
            let bl2 = if accepted {
                blocked_left.insert(r)
            } else {
                blocked_left
            };
            let br2 = if accepted {
                blocked_right.insert(l)
            } else {
                blocked_right
            };
            lemma_select_filters(rest, bl2, br2, top, eta, vocab, max_len, patterns);
            let tail = select_rec(rest, bl2, br2, top, eta, vocab, max_len, patterns);
            let shift = if accepted {
                1int
            } else {
                0int
            };
            assert forall|k: int|
                0 <= k < sel.len() implies {
                let p = #[trigger] sel[k];
                &&& (p.0 as int) < vocab.len()
                &&& (p.1 as int) < vocab.len()
                &&& !too_long(vocab[p.0 as int].len() + vocab[p.1 as int].len() as int, max_len)
                &&& !patterns.matches_spec(vocab[p.0 as int] + vocab[p.1 as int])
            } by {
                if accepted && k == 0 {
                    assert(sel[0] == (l, r));
                } else {
                    assert(sel[k] == tail[k - shift]);
                }
            }
        }
    }

}

/// Every selected pair comes from a candidate entry whose count clears the
/// `eta * top` threshold.
proof fn lemma_select_threshold(
    cands: Seq<(u32, u64)>,
    blocked_left: Set<u16>,
    blocked_right: Set<u16>,
    top: u64,
    eta: int,
    vocab: Seq<Seq<u8>>,
    max_len: Option<usize>,
    patterns: ForbiddenPatterns,
)
    ensures
        ({
            let sel = select_rec(cands, blocked_left, blocked_right, top, eta, vocab, max_len, patterns);
            forall|k: int|
                0 <= k < sel.len() ==> exists|idx: int|
                    0 <= idx < cands.len() && (#[trigger] cands[idx]).0 == pair_key(
                        (#[trigger] sel[k]).0,
                        sel[k].1,
                    ) && (cands[idx].1 as int) * (SCALE as int) >= eta * (top as int)
        }),
    decreases cands.len(),
{
    if cands.len() > 0 {
        let key = cands.first().0;
        let cnt = cands.first().1;
        let l = unpack_left(key);
        let r = unpack_right(key);
        let rest = cands.drop_first();
        let sel = select_rec(cands, blocked_left, blocked_right, top, eta, vocab, max_len, patterns);
        if (cnt as int) * (SCALE as int) < eta * (top as int) {
        } else {
            let accepted = !(l as int >= vocab.len() || r as int >= vocab.len()) && !too_long(
                vocab[l as int].len() + vocab[r as int].len() as int,
                max_len,
            ) && !patterns.matches_spec(vocab[l as int] + vocab[r as int]) && !(
            blocked_left.contains(l) || blocked_right.contains(r));
            let bl2 = if accepted {
                blocked_left.insert(r)
            } else {
                blocked_left
            };
            let br2 = if accepted {
                blocked_right.insert(l)
            } else {
                blocked_right
            };
            lemma_select_threshold(rest, bl2, br2, top, eta, vocab, max_len, patterns);
            let tail = select_rec(rest, bl2, br2, top, eta, vocab, max_len, patterns);
            let shift = if accepted {
                1int
            } else {
                0int
            };
            assert forall|k: int|
                0 <= k < sel.len() implies exists|idx: int|
                0 <= idx < cands.len() && (#[trigger] cands[idx]).0 == pair_key(
                    (#[trigger] sel[k]).0,
                    sel[k].1,
                ) && (cands[idx].1 as int) * (SCALE as int) >= eta * (top as int) by {
                if accepted && k == 0 {
                    assert(pair_key(l, r) == key) by {
                        lemma_unpack_pack(key);
                    }
                    assert(cands[0].0 == pair_key(sel[0].0, sel[0].1));
                } else {
                    assert(sel[k] == tail[k - shift]);
                    let idx0 = choose|idx: int|
                        0 <= idx < rest.len() && (#[trigger] rest[idx]).0 == pair_key(
                            tail[k - shift].0,
                            tail[k - shift].1,
                        ) && (rest[idx].1 as int) * (SCALE as int) >= eta * (top as int);
                    assert(cands[idx0 + 1] == rest[idx0]);
                }
            }
        }
    }
}

/// Unpacking a packed key and repacking gives the key back.
proof fn lemma_unpack_pack(key: u32)
    ensures
        pair_key(unpack_left(key), unpack_right(key)) == key,
{
    vstd::arithmetic::div_mod::lemma_fundamental_div_mod(key as int, 65536);
    assert((key as int) / 65536 < 65536 && 0 <= (key as int) / 65536 && 0 <= (key as int) % 65536
        < 65536) by (nonlinear_arith)
        requires
            0 <= key as int <= 4294967295,
    ;
}

/// Membership survives `insert_desc`.
proof fn lemma_insert_desc_contains(x: (u32, u64), s: Seq<(u32, u64)>, y: (u32, u64))
    ensures
        insert_desc(x, s).contains(y) <==> (y == x || s.contains(y)),
    decreases s.len(),
{
    if s.len() == 0 {
        assert(insert_desc(x, s) =~= seq![x]);
        if y == x {
            assert(insert_desc(x, s)[0] == y);
        }
        if insert_desc(x, s).contains(y) {
            let j = choose|j: int| 0 <= j < insert_desc(x, s).len() && insert_desc(x, s)[j] == y;
            assert(y == x);
        }
    } else if cand_before(x, s.first()) {
        let w = seq![x] + s;
        assert(insert_desc(x, s) == w);
        if y == x {
            assert(w[0] == y);
        }
        if s.contains(y) {
            let j = choose|j: int| 0 <= j < s.len() && s[j] == y;
            assert(w[j + 1] == y);
        }
        if w.contains(y) && y != x {
            let j = choose|j: int| 0 <= j < w.len() && w[j] == y;
            assert(j > 0);
            assert(s[j - 1] == y);
        }
    } else {
        lemma_insert_desc_contains(x, s.drop_first(), y);
        let tail = insert_desc(x, s.drop_first());
        let w = seq![s.first()] + tail;
        assert(insert_desc(x, s) == w);
        if y == x {
            let j = choose|j: int| 0 <= j < tail.len() && tail[j] == y;
            assert(w[j + 1] == y);
        }
        if s.contains(y) {
            let j = choose|j: int| 0 <= j < s.len() && s[j] == y;
            if j == 0 {
                assert(w[0] == y);
            } else {
                assert(s.drop_first()[j - 1] == y);
                assert(s.drop_first().contains(y));
                let j2 = choose|j2: int| 0 <= j2 < tail.len() && tail[j2] == y;
                assert(w[j2 + 1] == y);
            }
        }
        if w.contains(y) && y != x && !s.contains(y) {
            let j = choose|j: int| 0 <= j < w.len() && w[j] == y;
            if j == 0 {
                assert(s[0] == y);
            } else {
                assert(tail[j - 1] == y);
                assert(tail.contains(y));
                assert(s.drop_first().contains(y));
                let j2 = choose|j2: int| 0 <= j2 < s.drop_first().len() && s.drop_first()[j2] == y;
                assert(s[j2 + 1] == y);
            }
        }
    }
}

/// Sorting preserves membership.
proof fn lemma_sort_desc_contains(s: Seq<(u32, u64)>, y: (u32, u64))
    ensures
        sort_desc(s).contains(y) <==> s.contains(y),
    decreases s.len(),
{
    if s.len() > 0 {
        lemma_sort_desc_contains(s.drop_last(), y);
        lemma_insert_desc_contains(s.last(), sort_desc(s.drop_last()), y);
        if s.contains(y) {
            let j = choose|j: int| 0 <= j < s.len() && s[j] == y;
            if j == s.len() - 1 {
                assert(y == s.last());
            } else {
                assert(s.drop_last()[j] == y);
                assert(s.drop_last().contains(y));
            }
        }
        if sort_desc(s).contains(y) {
            if y == s.last() {
                assert(s[s.len() - 1] == y);
            } else {
                let j = choose|j: int| 0 <= j < s.drop_last().len() && s.drop_last()[j] == y;
                assert(s[j] == y);
            }
        }
    }
}

/// An entry present in a strictly ascending list is what `find_count`
/// returns for its key.
proof fn lemma_find_count_at(s: Seq<(u32, u64)>, idx: int)
    requires
        keys_ascending(s),
        0 <= idx < s.len(),
    ensures
        find_count(s, s[idx].0) == s[idx].1,
    decreases idx,
{
    if idx == 0 {
        assert(s.first() == s[0]);
    } else {
        assert(s.first() == s[0]);
        assert(s[0].0 < s[idx].0);
        assert forall|a: int, b: int|
            0 <= a < b < s.drop_first().len() implies (#[trigger] s.drop_first()[a]).0
            < (#[trigger] s.drop_first()[b]).0 by {
            assert(s.drop_first()[a] == s[a + 1]);
            assert(s.drop_first()[b] == s[b + 1]);
        }
        assert(s.drop_first()[idx - 1] == s[idx]);
        lemma_find_count_at(s.drop_first(), idx - 1);
    }
}

/// No accepted batch lets one token be the right member of one pair and
/// the left member of another: the blocked sets guarantee that no corpus
/// position can be claimed by two merges selected in the same round.
pub proof fn lemma_batch_no_conflicts(
    h: TokenHistogram,
    vocab: Seq<Seq<u8>>,
    config: TrainConfig,
    t: int,
)
    ensures
        ({
            let sel = selected_spec(h, vocab, config, t);
            forall|i: int, j: int|
                0 <= i < sel.len() && 0 <= j < sel.len() && i != j ==> (#[trigger] sel[i]).1 != (
                #[trigger] sel[j]).0
        }),
{
    let sorted = sort_desc(h.pairs_spec());
    if sorted.len() > 0 {
        lemma_select_no_conflicts(
            sorted,
            Set::empty(),
            Set::empty(),
            sorted.first().1,
            config.eta.for_t_spec(t),
            vocab,
            config.max_token_length,
            config.forbidden_patterns,
        );
    }
}

/// Threshold correctness: every returned candidate's stored pair count
/// clears `eta * top_count`, and is nonzero; equivalently, no candidate
/// below the cutoff is ever returned.
pub proof fn lemma_batch_threshold(h: TokenHistogram, vocab: Seq<Seq<u8>>, config: TrainConfig, t: int)
    requires
        h.wf(),
    ensures
        ({
            let sel = selected_spec(h, vocab, config, t);
            let sorted = sort_desc(h.pairs_spec());
            forall|k: int|
                0 <= k < sel.len() ==> (h.pair_count((#[trigger] sel[k]).0, sel[k].1) as int) * (
                SCALE as int) >= config.eta.for_t_spec(t) * (sorted.first().1 as int)
                    && h.pair_count(sel[k].0, sel[k].1) > 0
        }),
{
    let sorted = sort_desc(h.pairs_spec());
    let sel = selected_spec(h, vocab, config, t);
    if sorted.len() > 0 {
        let eta = config.eta.for_t_spec(t);
        let top = sorted.first().1;
        lemma_select_threshold(
            sorted,
            Set::empty(),
            Set::empty(),
            top,
            eta,
            vocab,
            config.max_token_length,
            config.forbidden_patterns,
        );
        assert forall|k: int|
            0 <= k < sel.len() implies (h.pair_count((#[trigger] sel[k]).0, sel[k].1) as int) * (
            SCALE as int) >= eta * (top as int) && h.pair_count(sel[k].0, sel[k].1) > 0 by {
            let idx = choose|idx: int|
                0 <= idx < sorted.len() && (#[trigger] sorted[idx]).0 == pair_key(
                    sel[k].0,
                    sel[k].1,
                ) && (sorted[idx].1 as int) * (SCALE as int) >= eta * (top as int);
            let entry = sorted[idx];
            assert(sorted.contains(entry));
            lemma_sort_desc_contains(h.pairs_spec(), entry);
            assert(h.pairs_spec().contains(entry));
            let j = choose|j: int| 0 <= j < h.pairs_spec().len() && h.pairs_spec()[j] == entry;
            lemma_find_count_at(h.pairs_spec(), j);
            assert(h.pair_count(sel[k].0, sel[k].1) == entry.1);
        }
    }
}

/// Every returned candidate respects the length cap and the forbidden
/// patterns: a filtered pair is skipped, never returned.
pub proof fn lemma_batch_filters(h: TokenHistogram, vocab: Seq<Seq<u8>>, config: TrainConfig, t: int)
    ensures
        ({
            let sel = selected_spec(h, vocab, config, t);
            forall|k: int|
                0 <= k < sel.len() ==> {
                    let p = #[trigger] sel[k];
                    &&& (p.0 as int) < vocab.len()
                    &&& (p.1 as int) < vocab.len()
                    &&& !too_long(
                        vocab[p.0 as int].len() + vocab[p.1 as int].len() as int,
                        config.max_token_length,
                    )
                    &&& !config.forbidden_patterns.matches_spec(
                        vocab[p.0 as int] + vocab[p.1 as int],
                    )
                }
        }),
{
    let sorted = sort_desc(h.pairs_spec());
    if sorted.len() > 0 {
        lemma_select_filters(
            sorted,
            Set::empty(),
            Set::empty(),
            sorted.first().1,
            config.eta.for_t_spec(t),
            vocab,
            config.max_token_length,
            config.forbidden_patterns,
        );
    }
}

/// No entry precedes an earlier one: the list is ordered by the candidate
/// order.
pub open spec fn ord_sorted(s: Seq<(u32, u64)>) -> bool {
    forall|i: int, j: int|
        0 <= i < j < s.len() ==> !cand_before(#[trigger] s[j], #[trigger] s[i])
}

/// The candidate order is transitive.
proof fn lemma_cand_before_trans(a: (u32, u64), b: (u32, u64), c: (u32, u64))
    requires
        cand_before(a, b),
        cand_before(b, c),
    ensures
        cand_before(a, c),
{
}

/// `insert_desc` keeps the list ordered.
proof fn lemma_insert_desc_sorted(x: (u32, u64), s: Seq<(u32, u64)>)
    requires
        ord_sorted(s),
    ensures
        ord_sorted(insert_desc(x, s)),
    decreases s.len(),
{
    if s.len() == 0 {
        assert(insert_desc(x, s) =~= seq![x]);
    } else if cand_before(x, s.first()) {
        let w = seq![x] + s;
        assert(insert_desc(x, s) == w);
        assert forall|i: int, j: int|
            0 <= i < j < w.len() implies !cand_before(#[trigger] w[j], #[trigger] w[i]) by {
            if i == 0 {
                assert(w[j] == s[j - 1]);
                if cand_before(s[j - 1], x) {
                    lemma_cand_before_trans(s[j - 1], x, s.first());
                    if j - 1 == 0 {
                        assert(cand_before(s.first(), s.first()));
                    } else {
                        assert(s.first() == s[0]);
                        assert(!cand_before(s[j - 1], s[0]));
                    }
                }
            } else {
                assert(w[i] == s[i - 1] && w[j] == s[j - 1]);
            }
        }
    } else {
        let tail = insert_desc(x, s.drop_first());
        let w = seq![s.first()] + tail;
        assert(insert_desc(x, s) == w);
        assert forall|a: int, b: int|
            0 <= a < b < s.drop_first().len() implies !cand_before(
            #[trigger] s.drop_first()[b],
            #[trigger] s.drop_first()[a],
        ) by {
            assert(s.drop_first()[a] == s[a + 1]);
            assert(s.drop_first()[b] == s[b + 1]);
        }
        lemma_insert_desc_sorted(x, s.drop_first());
        assert forall|i: int, j: int|
            0 <= i < j < w.len() implies !cand_before(#[trigger] w[j], #[trigger] w[i]) by {
            if i == 0 {
                assert(w[j] == tail[j - 1]);
                lemma_insert_desc_contains(x, s.drop_first(), tail[j - 1]);
                if tail[j - 1] == x {
                    assert(!cand_before(x, s.first()));
                } else {
                    let k = choose|k: int|
                        0 <= k < s.drop_first().len() && s.drop_first()[k] == tail[j - 1];
                    assert(s[k + 1] == tail[j - 1]);
                    assert(s.first() == s[0]);
                    assert(!cand_before(s[k + 1], s[0]));
                }
            } else {
                assert(w[i] == tail[i - 1] && w[j] == tail[j - 1]);
            }
        }
    }
}

/// The sorted candidate list is ordered.
proof fn lemma_sort_desc_sorted(s: Seq<(u32, u64)>)
    ensures
        ord_sorted(sort_desc(s)),
    decreases s.len(),
{
    if s.len() > 0 {
        lemma_sort_desc_sorted(s.drop_last());
        lemma_insert_desc_sorted(s.last(), sort_desc(s.drop_last()));
    }
}

/// Two selected pairs stem from two candidates in the same order.
spec fn ordered_witness(cands: Seq<(u32, u64)>, p1: (u16, u16), p2: (u16, u16)) -> bool {
    exists|idx1: int, idx2: int|
        0 <= idx1 < idx2 < cands.len() && (#[trigger] cands[idx1]).0 == pair_key(p1.0, p1.1) && (
        #[trigger] cands[idx2]).0 == pair_key(p2.0, p2.1)
}

/// Selected pairs keep the candidates' order: an earlier selected pair
/// comes from an earlier candidate.
proof fn lemma_select_ordered(
    cands: Seq<(u32, u64)>,
    blocked_left: Set<u16>,
    blocked_right: Set<u16>,
    top: u64,
    eta: int,
    vocab: Seq<Seq<u8>>,
    max_len: Option<usize>,
    patterns: ForbiddenPatterns,
)
    ensures
        ({
            let sel = select_rec(cands, blocked_left, blocked_right, top, eta, vocab, max_len, patterns);
            forall|k1: int, k2: int|
                0 <= k1 < k2 < sel.len() ==> ordered_witness(
                    cands,
                    #[trigger] sel[k1],
                    #[trigger] sel[k2],
                )
        }),
    decreases cands.len(),
{
    if cands.len() == 0 {
        assert(select_rec(
            cands,
            blocked_left,
            blocked_right,
            top,
            eta,
            vocab,
            max_len,
            patterns,
        ).len() == 0);
    } else {
        let key = cands.first().0;
        let cnt = cands.first().1;
        let l = unpack_left(key);
        let r = unpack_right(key);
        let rest = cands.drop_first();
        let sel = select_rec(cands, blocked_left, blocked_right, top, eta, vocab, max_len, patterns);
        if (cnt as int) * (SCALE as int) < eta * (top as int) {
            assert(sel.len() == 0);
        } else {
            let accepted = !(l as int >= vocab.len() || r as int >= vocab.len()) && !too_long(
                vocab[l as int].len() + vocab[r as int].len() as int,
                max_len,
            ) && !patterns.matches_spec(vocab[l as int] + vocab[r as int]) && !(
            blocked_left.contains(l) || blocked_right.contains(r));
            let bl2 = if accepted {
                blocked_left.insert(r)
            } else {
                blocked_left
            };
            let br2 = if accepted {
                blocked_right.insert(l)
            } else {
                blocked_right
            };
            lemma_select_ordered(rest, bl2, br2, top, eta, vocab, max_len, patterns);
            lemma_select_threshold(rest, bl2, br2, top, eta, vocab, max_len, patterns);
            let tail = select_rec(rest, bl2, br2, top, eta, vocab, max_len, patterns);
            let shift = if accepted {
                1int
            } else {
                0int
            };
            assert forall|k1: int, k2: int|
                0 <= k1 < k2 < sel.len() implies ordered_witness(
                cands,
                #[trigger] sel[k1],
                #[trigger] sel[k2],
            ) by {
                assert(sel[k2] == tail[k2 - shift]);
                if accepted && k1 == 0 {
                    lemma_unpack_pack(key);
                    assert(exists|jdx: int|
                        0 <= jdx < rest.len() && (#[trigger] rest[jdx]).0 == pair_key(
                            tail[k2 - 1].0,
                            tail[k2 - 1].1,
                        ) && (rest[jdx].1 as int) * (SCALE as int) >= eta * (top as int));
                    let jdx = choose|jdx: int|
                        0 <= jdx < rest.len() && (#[trigger] rest[jdx]).0 == pair_key(
                            tail[k2 - 1].0,
                            tail[k2 - 1].1,
                        ) && (rest[jdx].1 as int) * (SCALE as int) >= eta * (top as int);
                    assert(cands[jdx + 1] == rest[jdx]);
                    assert(sel[0] == (l, r));
                    assert(cands[0].0 == pair_key(sel[0].0, sel[0].1));
                    assert(0 < jdx + 1 < cands.len());
                    assert(cands[jdx + 1].0 == pair_key(sel[k2].0, sel[k2].1));
                    assert(ordered_witness(cands, sel[k1], sel[k2]));
                } else {
                    assert(sel[k1] == tail[k1 - shift]);
                    assert(exists|jdx1: int, jdx2: int|
                        0 <= jdx1 < jdx2 < rest.len() && (#[trigger] rest[jdx1]).0 == pair_key(
                            tail[k1 - shift].0,
                            tail[k1 - shift].1,
                        ) && (#[trigger] rest[jdx2]).0 == pair_key(
                            tail[k2 - shift].0,
                            tail[k2 - shift].1,
                        ));
                    let (jdx1, jdx2) = choose|jdx1: int, jdx2: int|
                        0 <= jdx1 < jdx2 < rest.len() && (#[trigger] rest[jdx1]).0 == pair_key(
                            tail[k1 - shift].0,
                            tail[k1 - shift].1,
                        ) && (#[trigger] rest[jdx2]).0 == pair_key(
                            tail[k2 - shift].0,
                            tail[k2 - shift].1,
                        );
                    assert(cands[jdx1 + 1] == rest[jdx1]);
                    assert(cands[jdx2 + 1] == rest[jdx2]);
                    assert(0 <= jdx1 + 1 < jdx2 + 1 < cands.len());
                    assert(cands[jdx1 + 1].0 == pair_key(sel[k1].0, sel[k1].1));
                    assert(cands[jdx2 + 1].0 == pair_key(sel[k2].0, sel[k2].1));
                    assert(ordered_witness(cands, sel[k1], sel[k2]));
                }
            }
        }
    }
}

/// The batch comes back in descending-count order: an earlier returned
/// pair never has a smaller stored count than a later one.
pub proof fn lemma_batch_descending(
    h: TokenHistogram,
    vocab: Seq<Seq<u8>>,
    config: TrainConfig,
    t: int,
)
    requires
        h.wf(),
    ensures
        ({
            let sel = selected_spec(h, vocab, config, t);
            forall|k1: int, k2: int|
                0 <= k1 < k2 < sel.len() ==> h.pair_count((#[trigger] sel[k1]).0, sel[k1].1)
                    >= h.pair_count((#[trigger] sel[k2]).0, sel[k2].1)
        }),
{
    let sorted = sort_desc(h.pairs_spec());
    let sel = selected_spec(h, vocab, config, t);
    if sorted.len() > 0 {
        let eta = config.eta.for_t_spec(t);
        let top = sorted.first().1;
        lemma_sort_desc_sorted(h.pairs_spec());
        lemma_select_ordered(
            sorted,
            Set::empty(),
            Set::empty(),
            top,
            eta,
            vocab,
            config.max_token_length,
            config.forbidden_patterns,
        );
        assert forall|k1: int, k2: int|
            0 <= k1 < k2 < sel.len() implies h.pair_count((#[trigger] sel[k1]).0, sel[k1].1)
            >= h.pair_count((#[trigger] sel[k2]).0, sel[k2].1) by {
            assert(ordered_witness(sorted, sel[k1], sel[k2]));
            let (idx1, idx2) = choose|idx1: int, idx2: int|
                0 <= idx1 < idx2 < sorted.len() && (#[trigger] sorted[idx1]).0 == pair_key(
                    sel[k1].0,
                    sel[k1].1,
                ) && (#[trigger] sorted[idx2]).0 == pair_key(sel[k2].0, sel[k2].1);
            assert(!cand_before(sorted[idx2], sorted[idx1]));
            assert(sorted[idx1].1 >= sorted[idx2].1);
            let e1 = sorted[idx1];
            let e2 = sorted[idx2];
            assert(sorted.contains(e1));
            assert(sorted.contains(e2));
            lemma_sort_desc_contains(h.pairs_spec(), e1);
            lemma_sort_desc_contains(h.pairs_spec(), e2);
            let j1 = choose|j: int| 0 <= j < h.pairs_spec().len() && h.pairs_spec()[j] == e1;
            let j2 = choose|j: int| 0 <= j < h.pairs_spec().len() && h.pairs_spec()[j] == e2;
            lemma_find_count_at(h.pairs_spec(), j1);
            lemma_find_count_at(h.pairs_spec(), j2);
        }
    }
}

/// Completeness at the top: when the highest-sorted candidate lies in the
/// vocabulary, respects the length cap, and matches no forbidden pattern,
/// it is returned, and first.
pub proof fn lemma_top_candidate_selected(
    h: TokenHistogram,
    vocab: Seq<Seq<u8>>,
    config: TrainConfig,
    t: int,
)
    requires
        config.eta.for_t_spec(t) <= SCALE as int,
        sort_desc(h.pairs_spec()).len() > 0,
        ({
            let head = sort_desc(h.pairs_spec()).first();
            let l = unpack_left(head.0);
            let r = unpack_right(head.0);
            &&& (l as int) < vocab.len()
            &&& (r as int) < vocab.len()
            &&& !too_long(vocab[l as int].len() + vocab[r as int].len() as int, config.max_token_length)
            &&& !config.forbidden_patterns.matches_spec(vocab[l as int] + vocab[r as int])
        }),
    ensures
        selected_spec(h, vocab, config, t).len() > 0,
        selected_spec(h, vocab, config, t).first() == (
            unpack_left(sort_desc(h.pairs_spec()).first().0),
            unpack_right(sort_desc(h.pairs_spec()).first().0),
        ),
{
    let sorted = sort_desc(h.pairs_spec());
    let head = sorted.first();
    let eta = config.eta.for_t_spec(t);
    let top = head.1;
    assert((head.1 as int) * (SCALE as int) >= eta * (top as int)) by (nonlinear_arith)
        requires
            eta <= SCALE as int,
            top == head.1,
            head.1 >= 0,
    ;
    let l = unpack_left(head.0);
    let r = unpack_right(head.0);
    assert(!Set::<u16>::empty().contains(l) && !Set::<u16>::empty().contains(r));
    let sel = select_rec(
        sorted,
        Set::empty(),
        Set::empty(),
        top,
        eta,
        vocab,
        config.max_token_length,
        config.forbidden_patterns,
    );
    assert(sel == seq![(l, r)] + select_rec(
        sorted.drop_first(),
        Set::empty().insert(r),
        Set::empty().insert(l),
        top,
        eta,
        vocab,
        config.max_token_length,
        config.forbidden_patterns,
    ));
}

/// Distinct (left, right) pairs pack to distinct keys.
proof fn lemma_pair_key_injective()
    ensures
        forall|a: u16, b: u16, c: u16, d: u16|
            #[trigger] pair_key(a, b) == #[trigger] pair_key(c, d) ==> a == c && b == d,
{
    assert forall|a: u16, b: u16, c: u16, d: u16|
        #[trigger] pair_key(a, b) == #[trigger] pair_key(c, d) implies a == c && b == d by {
        assert(a as int * 65536 + b as int == c as int * 65536 + d as int ==> a == c && b == d)
            by (nonlinear_arith)
            requires
                a < 65536 && b < 65536 && c < 65536 && d < 65536,
        ;
    }
}

/// Updating the count at one index changes `find_count` for that key alone
/// (keys being distinct).
proof fn lemma_find_count_update(orig: Seq<(u32, u64)>, upd: Seq<(u32, u64)>, i: int, n: u64)
    requires
        keys_ascending(orig),
        0 <= i < orig.len(),
        upd.len() == orig.len(),
        upd[i].0 == orig[i].0,
        upd[i].1 == sat_add(orig[i].1, n),
        forall|j: int| 0 <= j < orig.len() && j != i ==> upd[j] == orig[j],
    ensures
        forall|k: u32|
            find_count(upd, k) == if k == orig[i].0 {
                sat_add(find_count(orig, k), n)
            } else {
                find_count(orig, k)
            },
    decreases orig.len(),
{
    if orig.len() > 0 {
        if i == 0 {
            assert(upd.drop_first() =~= orig.drop_first());
            assert forall|k: u32|
                find_count(upd, k) == (if k == orig[i].0 {
                    sat_add(find_count(orig, k), n)
                } else {
                    find_count(orig, k)
                }) by {
                if k != orig[0].0 {
                    assert(find_count(upd, k) == find_count(upd.drop_first(), k));
                }
            }
        } else {
            assert forall|a: int, b: int|
                0 <= a < b < orig.drop_first().len() implies (#[trigger] orig.drop_first()[a]).0
                < (#[trigger] orig.drop_first()[b]).0 by {
                assert(orig.drop_first()[a] == orig[a + 1]);
                assert(orig.drop_first()[b] == orig[b + 1]);
            }
            assert(upd.drop_first().len() == orig.drop_first().len());
            assert(upd.drop_first()[i - 1] == upd[i]);
            assert(orig.drop_first()[i - 1] == orig[i]);
            assert forall|j: int|
                0 <= j < orig.drop_first().len() && j != i - 1 implies upd.drop_first()[j]
                == orig.drop_first()[j] by {
                assert(upd.drop_first()[j] == upd[j + 1]);
                assert(orig.drop_first()[j] == orig[j + 1]);
            }
            lemma_find_count_update(orig.drop_first(), upd.drop_first(), i - 1, n);
            assert(upd.first() == orig.first());
            assert forall|k: u32|
                find_count(upd, k) == (if k == orig[i].0 {
                    sat_add(find_count(orig, k), n)
                } else {
                    find_count(orig, k)
                }) by {
                assert(orig.drop_first()[i - 1] == orig[i]);
                assert(orig.first() == orig[0]);
                assert(upd.len() > 0);
                if k == orig.first().0 {
                    assert(orig[0].0 < orig[i].0);
                    assert(orig[i].0 != k);
                    assert(find_count(upd, k) == upd.first().1);
                    assert(find_count(orig, k) == orig.first().1);
                } else {
                    assert(find_count(upd, k) == find_count(upd.drop_first(), k));
                    assert(find_count(orig, k) == find_count(orig.drop_first(), k));
                }
            }
        }
    }
}

/// Inserting a fresh key changes `find_count` for that key alone.
proof fn lemma_find_count_insert(orig: Seq<(u32, u64)>, upd: Seq<(u32, u64)>, i: int, key: u32, n: u64)
    requires
        keys_ascending(orig),
        0 <= i <= orig.len(),
        forall|j: int| 0 <= j < i ==> (#[trigger] orig[j]).0 < key,
        forall|j: int| i <= j < orig.len() ==> (#[trigger] orig[j]).0 > key,
        upd == orig.insert(i, (key, n)),
    ensures
        forall|k: u32|
            find_count(upd, k) == if k == key {
                sat_add(find_count(orig, k), n)
            } else {
                find_count(orig, k)
            },
    decreases orig.len(),
{
    lemma_find_count_no_key(orig, key);
    if i == 0 {
        assert(upd.first() == (key, n));
        assert(upd.drop_first() =~= orig);
        assert forall|k: u32|
            find_count(upd, k) == (if k == key {
                sat_add(find_count(orig, k), n)
            } else {
                find_count(orig, k)
            }) by {
            if k == key {
                assert(find_count(orig, k) == 0);
                assert(find_count(upd, k) == n);
            }
        }
    } else {
        assert(upd.first() == orig.first());
        assert(upd.drop_first() =~= orig.drop_first().insert(i - 1, (key, n)));
        assert forall|a: int, b: int|
            0 <= a < b < orig.drop_first().len() implies (#[trigger] orig.drop_first()[a]).0
            < (#[trigger] orig.drop_first()[b]).0 by {
            assert(orig.drop_first()[a] == orig[a + 1]);
            assert(orig.drop_first()[b] == orig[b + 1]);
        }
        assert forall|j: int| 0 <= j < i - 1 implies (#[trigger] orig.drop_first()[j]).0
            < key by {
            assert(orig.drop_first()[j] == orig[j + 1]);
        }
        assert forall|j: int|
            i - 1 <= j < orig.drop_first().len() implies (#[trigger] orig.drop_first()[j]).0
            > key by {
            assert(orig.drop_first()[j] == orig[j + 1]);
        }
        lemma_find_count_insert(orig.drop_first(), upd.drop_first(), i - 1, key, n);
        assert forall|k: u32|
            find_count(upd, k) == (if k == key {
                sat_add(find_count(orig, k), n)
            } else {
                find_count(orig, k)
            }) by {
            assert(orig.first() == orig[0]);
            assert(orig[0].0 < key);
            assert(upd.len() > 0);
            if k == orig.first().0 {
                assert(k != key);
                assert(find_count(upd, k) == upd.first().1);
                assert(find_count(orig, k) == orig.first().1);
            } else {
                assert(find_count(upd, k) == find_count(upd.drop_first(), k));
                assert(find_count(orig, k) == find_count(orig.drop_first(), k));
            }
        }
    }
}

/// A key larger than every stored key is absent.
proof fn lemma_find_count_no_key(pairs: Seq<(u32, u64)>, key: u32)
    requires
        forall|j: int| 0 <= j < pairs.len() ==> (#[trigger] pairs[j]).0 != key,
    ensures
        find_count(pairs, key) == 0,
    decreases pairs.len(),
{
    if pairs.len() > 0 {
        lemma_find_count_no_key(pairs.drop_first(), key);
    }
}

/// Appending an entry whose key is absent from `s` adds its count under its
/// key and changes nothing else.
proof fn lemma_find_count_push(s: Seq<(u32, u64)>, entry: (u32, u64), k: u32)
    requires
        forall|j: int| 0 <= j < s.len() ==> (#[trigger] s[j]).0 != entry.0,
    ensures
        find_count(s.push(entry), k) == if k == entry.0 {
            entry.1
        } else {
            find_count(s, k)
        },
    decreases s.len(),
{
    if s.len() == 0 {
        let p = s.push(entry);
        assert(p.len() == 1);
        assert(p.first() == entry);
        assert(p.drop_first() =~= Seq::<(u32, u64)>::empty());
        assert(find_count(p.drop_first(), k) == 0);
        if k == entry.0 {
            assert(find_count(p, k) == entry.1);
        } else {
            assert(find_count(p, k) == find_count(p.drop_first(), k));
            assert(find_count(s, k) == 0);
        }
    } else {
        assert(s.push(entry).first() == s.first());
        assert(s.push(entry).drop_first() =~= s.drop_first().push(entry));
        lemma_find_count_push(s.drop_first(), entry, k);
    }
}

/// Equal pair tables give equal pair counts.
pub proof fn lemma_pair_count_from_pairs(h1: TokenHistogram, h2: TokenHistogram)
    requires
        h1.pairs_spec() == h2.pairs_spec(),
    ensures
        forall|a: u16, b: u16| h1.pair_count(a, b) == h2.pair_count(a, b),
{
}

/// Two strictly ascending, positive-count tables with the same counts for
/// every key are the same table.
proof fn lemma_counts_determine_table(s1: Seq<(u32, u64)>, s2: Seq<(u32, u64)>)
    requires
        keys_ascending(s1),
        keys_ascending(s2),
        forall|i: int| 0 <= i < s1.len() ==> (#[trigger] s1[i]).1 > 0,
        forall|i: int| 0 <= i < s2.len() ==> (#[trigger] s2[i]).1 > 0,
        forall|k: u32| find_count(s1, k) == find_count(s2, k),
    ensures
        s1 == s2,
    decreases s1.len() + s2.len(),
{
    if s1.len() == 0 && s2.len() == 0 {
        assert(s1 =~= s2);
    } else if s1.len() == 0 {
        lemma_find_count_at(s2, 0);
        assert(find_count(s1, s2[0].0) == 0);
        assert(s2.first() == s2[0]);
        assert(false);
    } else if s2.len() == 0 {
        lemma_find_count_at(s1, 0);
        assert(find_count(s2, s1[0].0) == 0);
        assert(s1.first() == s1[0]);
        assert(false);
    } else {
        let k1 = s1[0].0;
        let k2 = s2[0].0;
        lemma_find_count_at(s1, 0);
        lemma_find_count_at(s2, 0);
        if k1 < k2 {
            assert forall|j: int| 0 <= j < s2.len() implies (#[trigger] s2[j]).0 != k1 by {
                if j > 0 {
                    assert(s2[0].0 < s2[j].0);
                }
            }
            lemma_find_count_no_key(s2, k1);
            assert(false);
        } else if k2 < k1 {
            assert forall|j: int| 0 <= j < s1.len() implies (#[trigger] s1[j]).0 != k2 by {
                if j > 0 {
                    assert(s1[0].0 < s1[j].0);
                }
            }
            lemma_find_count_no_key(s1, k2);
            assert(false);
        } else {
            assert(s1.first() == s1[0] && s2.first() == s2[0]);
            assert(s1[0].1 == find_count(s1, k1));
            assert(s2[0].1 == find_count(s2, k1));
            assert(s1[0] == s2[0]);
            let d1 = s1.drop_first();
            let d2 = s2.drop_first();
            assert forall|a: int, b: int|
                0 <= a < b < d1.len() implies (#[trigger] d1[a]).0 < (#[trigger] d1[b]).0 by {
                assert(d1[a] == s1[a + 1]);
                assert(d1[b] == s1[b + 1]);
            }
            assert forall|a: int, b: int|
                0 <= a < b < d2.len() implies (#[trigger] d2[a]).0 < (#[trigger] d2[b]).0 by {
                assert(d2[a] == s2[a + 1]);
                assert(d2[b] == s2[b + 1]);
            }
            assert forall|i: int| 0 <= i < d1.len() implies (#[trigger] d1[i]).1 > 0 by {
                assert(d1[i] == s1[i + 1]);
            }
            assert forall|i: int| 0 <= i < d2.len() implies (#[trigger] d2[i]).1 > 0 by {
                assert(d2[i] == s2[i + 1]);
            }
            assert forall|k: u32| find_count(d1, k) == find_count(d2, k) by {
                if k == k1 {
                    assert forall|j: int| 0 <= j < d1.len() implies (#[trigger] d1[j]).0 != k by {
                        assert(d1[j] == s1[j + 1]);
                        assert(s1[0].0 < s1[j + 1].0);
                    }
                    assert forall|j: int| 0 <= j < d2.len() implies (#[trigger] d2[j]).0 != k by {
                        assert(d2[j] == s2[j + 1]);
                        assert(s2[0].0 < s2[j + 1].0);
                    }
                    lemma_find_count_no_key(d1, k);
                    lemma_find_count_no_key(d2, k);
                } else {
                    assert(find_count(s1, k) == find_count(d1, k));
                    assert(find_count(s2, k) == find_count(d2, k));
                }
            }
            lemma_counts_determine_table(d1, d2);
            assert forall|i: int| 0 <= i < s1.len() implies s1[i] == s2[i] by {
                if i > 0 {
                    assert(d1[i - 1] == s1[i]);
                    assert(d2[i - 1] == s2[i]);
                }
            }
            assert(s1 =~= s2);
        }
    }
}

/// Two well-formed histograms with the same count for every pair hold the
/// same pair table: pointwise counts pin the candidate list, whatever
/// order the pairs were registered or combined in.
pub proof fn lemma_counts_determine_histogram(h1: TokenHistogram, h2: TokenHistogram)
    requires
        h1.wf(),
        h2.wf(),
        forall|a: u16, b: u16| h1.pair_count(a, b) == h2.pair_count(a, b),
    ensures
        h1.pairs_spec() == h2.pairs_spec(),
{
    assert forall|k: u32| find_count(h1.pairs_spec(), k) == find_count(h2.pairs_spec(), k) by {
        lemma_unpack_pack(k);
        let a = unpack_left(k);
        let b = unpack_right(k);
        assert(h1.pair_count(a, b) == find_count(h1.pairs_spec(), pair_key(a, b)));
        assert(h2.pair_count(a, b) == find_count(h2.pairs_spec(), pair_key(a, b)));
    }
    lemma_counts_determine_table(h1.pairs_spec(), h2.pairs_spec());
}

/// Combining histograms is commutative: both orders give the same
/// per-token and per-pair counts.
pub proof fn lemma_combine_commutative(a: TokenHistogram, b: TokenHistogram)
    ensures
        forall|t: u16|
            sat_add(a.token_count(t), b.token_count(t)) == sat_add(
                b.token_count(t),
                a.token_count(t),
            ),
        forall|l: u16, r: u16|
            sat_add(a.pair_count(l, r), b.pair_count(l, r)) == sat_add(
                b.pair_count(l, r),
                a.pair_count(l, r),
            ),
{
}

/// Combining histograms is associative: any grouping of partitions gives
/// the same per-token and per-pair counts.
pub proof fn lemma_combine_associative(a: TokenHistogram, b: TokenHistogram, c: TokenHistogram)
    ensures
        forall|t: u16|
            sat_add(sat_add(a.token_count(t), b.token_count(t)), c.token_count(t)) == sat_add(
                a.token_count(t),
                sat_add(b.token_count(t), c.token_count(t)),
            ),
        forall|l: u16, r: u16|
            sat_add(sat_add(a.pair_count(l, r), b.pair_count(l, r)), c.pair_count(l, r))
                == sat_add(
                a.pair_count(l, r),
                sat_add(b.pair_count(l, r), c.pair_count(l, r)),
            ),
{
}

} // verus!
