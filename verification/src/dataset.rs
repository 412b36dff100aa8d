//! In-memory corpora of token chunks: counting adjacent pairs into a
//! histogram, splitting work into independent partitions, re-tokenizing in
//! place, and the training rounds that tie counting, selection, and rule
//! application together.

use vstd::prelude::*;

use crate::bpe_state::BpeState;
use crate::config::{TrainConfig, TrainResult, SCALE};
use crate::count::{sat_add, Count};
use crate::histogram::TokenHistogram;
use crate::token::{MergeRule, Token, Tokenizer};

verus! {

/// The capped 64-bit value of an unbounded count.
pub open spec fn sat_cap(n: int) -> u64 {
    if n > u64::MAX {
        u64::MAX
    } else if n < 0 {
        0
    } else {
        n as u64
    }
}

/// How many windows among the first `i` positions of `chunk` hold the
/// adjacent pair (`a`, `b`). A window at position `p` pairs `chunk[p]`
/// with `chunk[p + 1]`.
pub open spec fn pairs_prefix(chunk: Seq<Token>, i: int, a: u16, b: u16) -> int
    decreases i,
{
    if i <= 0 || i >= chunk.len() {
        0
    } else {
        pairs_prefix(chunk, i - 1, a, b) + if chunk[i - 1].0 == a && chunk[i].0 == b {
            1int
        } else {
            0int
        }
    }
}

/// How many windows among the first `i` positions of `chunk` have `t` as
/// their left member.
pub open spec fn lefts_prefix(chunk: Seq<Token>, i: int, t: u16) -> int
    decreases i,
{
    if i <= 0 || i >= chunk.len() {
        0
    } else {
        lefts_prefix(chunk, i - 1, t) + if chunk[i - 1].0 == t {
            1int
        } else {
            0int
        }
    }
}

/// The pair occurrences of one whole chunk.
pub open spec fn pairs_in_chunk(chunk: Seq<Token>, a: u16, b: u16) -> int {
    pairs_prefix(chunk, chunk.len() - 1, a, b)
}

/// The left-member occurrences of one whole chunk.
pub open spec fn lefts_in_chunk(chunk: Seq<Token>, t: u16) -> int {
    lefts_prefix(chunk, chunk.len() - 1, t)
}

/// The pair occurrences of a chunk list: windows never span chunks.
pub open spec fn pairs_total(chunks: Seq<Seq<Token>>, a: u16, b: u16) -> int
    decreases chunks.len(),
{
    if chunks.len() == 0 {
        0
    } else {
        pairs_total(chunks.drop_last(), a, b) + pairs_in_chunk(chunks.last(), a, b)
    }
}

/// The left-member occurrences of a chunk list.
pub open spec fn lefts_total(chunks: Seq<Seq<Token>>, t: u16) -> int
    decreases chunks.len(),
{
    if chunks.len() == 0 {
        0
    } else {
        lefts_total(chunks.drop_last(), t) + lefts_in_chunk(chunks.last(), t)
    }
}

/// Occurrence counts are non-negative.
proof fn lemma_pairs_prefix_nonneg(chunk: Seq<Token>, i: int, a: u16, b: u16)
    ensures
        pairs_prefix(chunk, i, a, b) >= 0,
    decreases i,
{
    if !(i <= 0 || i >= chunk.len()) {
        lemma_pairs_prefix_nonneg(chunk, i - 1, a, b);
    }
}

proof fn lemma_lefts_prefix_nonneg(chunk: Seq<Token>, i: int, t: u16)
    ensures
        lefts_prefix(chunk, i, t) >= 0,
    decreases i,
{
    if !(i <= 0 || i >= chunk.len()) {
        lemma_lefts_prefix_nonneg(chunk, i - 1, t);
    }
}

proof fn lemma_pairs_total_nonneg(chunks: Seq<Seq<Token>>, a: u16, b: u16)
    ensures
        pairs_total(chunks, a, b) >= 0,
    decreases chunks.len(),
{
    if chunks.len() > 0 {
        lemma_pairs_total_nonneg(chunks.drop_last(), a, b);
        lemma_pairs_prefix_nonneg(chunks.last(), chunks.last().len() - 1, a, b);
    }
}

proof fn lemma_lefts_total_nonneg(chunks: Seq<Seq<Token>>, t: u16)
    ensures
        lefts_total(chunks, t) >= 0,
    decreases chunks.len(),
{
    if chunks.len() > 0 {
        lemma_lefts_total_nonneg(chunks.drop_last(), t);
        lemma_lefts_prefix_nonneg(chunks.last(), chunks.last().len() - 1, t);
    }
}

/// Chunk-list occurrence counts add up over concatenation: counting a
/// corpus split into partitions, in any grouping, totals the same as
/// counting it whole.
pub proof fn lemma_pairs_total_concat(x: Seq<Seq<Token>>, y: Seq<Seq<Token>>, a: u16, b: u16)
    ensures
        pairs_total(x + y, a, b) == pairs_total(x, a, b) + pairs_total(y, a, b),
    decreases y.len(),
{
    if y.len() == 0 {
        assert(x + y =~= x);
    } else {
        lemma_pairs_total_concat(x, y.drop_last(), a, b);
        assert((x + y).drop_last() =~= x + y.drop_last());
        assert((x + y).last() == y.last());
    }
}

/// The left-member analogue of `lemma_pairs_total_concat`.
pub proof fn lemma_lefts_total_concat(x: Seq<Seq<Token>>, y: Seq<Seq<Token>>, t: u16)
    ensures
        lefts_total(x + y, t) == lefts_total(x, t) + lefts_total(y, t),
    decreases y.len(),
{
    if y.len() == 0 {
        assert(x + y =~= x);
    } else {
        lemma_lefts_total_concat(x, y.drop_last(), t);
        assert((x + y).drop_last() =~= x + y.drop_last());
        assert((x + y).last() == y.last());
    }
}

/// Capped counts add: combining two saturated partial counts equals the
/// saturated total.
pub proof fn lemma_sat_cap_add(x: int, y: int)
    requires
        x >= 0,
        y >= 0,
    ensures
        sat_add(sat_cap(x), sat_cap(y)) == sat_cap(x + y),
{
}

/// Counting a corpus split into two partitions and combining the partial
/// histograms yields the same per-pair and per-token counts as counting
/// the corpus whole; with `combine`'s commutativity and associativity,
/// any order and grouping of partitions gives identical totals.
pub proof fn lemma_partition_counting(
    chunks1: Seq<Seq<Token>>,
    chunks2: Seq<Seq<Token>>,
    a: u16,
    b: u16,
    t: u16,
)
    ensures
        sat_add(
            sat_cap(pairs_total(chunks1, a, b)),
            sat_cap(pairs_total(chunks2, a, b)),
        ) == sat_cap(pairs_total(chunks1 + chunks2, a, b)),
        sat_add(
            sat_cap(lefts_total(chunks1, t)),
            sat_cap(lefts_total(chunks2, t)),
        ) == sat_cap(lefts_total(chunks1 + chunks2, t)),
{
    lemma_pairs_total_nonneg(chunks1, a, b);
    lemma_pairs_total_nonneg(chunks2, a, b);
    lemma_lefts_total_nonneg(chunks1, t);
    lemma_lefts_total_nonneg(chunks2, t);
    lemma_pairs_total_concat(chunks1, chunks2, a, b);
    lemma_lefts_total_concat(chunks1, chunks2, t);
    lemma_sat_cap_add(pairs_total(chunks1, a, b), pairs_total(chunks2, a, b));
    lemma_sat_cap_add(lefts_total(chunks1, t), lefts_total(chunks2, t));
}

/// A corpus partition that can enumerate its adjacent token pairs and be
/// split further for parallel counting.
pub trait DatasetIterator where Self: Sized {
    /// The documents this partition holds, as token sequences.
    spec fn chunks_spec(&self) -> Seq<Seq<Token>>;

    /// Registers into `hist` every adjacent pair of every document, and
    /// every pair's left member.
    fn for_each_token_pair(self, hist: &mut TokenHistogram)
        requires
            old(hist).wf(),
        ensures
            final(hist).wf(),
            forall|a: u16, b: u16|
                final(hist).pair_count(a, b) == sat_cap(
                    old(hist).pair_count(a, b) + pairs_total(self.chunks_spec(), a, b),
                ),
            forall|t: u16|
                final(hist).token_count(t) == sat_cap(
                    old(hist).token_count(t) + lefts_total(self.chunks_spec(), t),
                ),
    ;

    /// Splits this partition into independent parts that together hold
    /// exactly the same documents in the same order.
    fn split_work(self, parallelism: usize) -> (parts: Vec<Self>)
        ensures
            flatten_chunks(parts@.map_values(|p: Self| p.chunks_spec())) == self.chunks_spec(),
    ;
}

/// The documents of a list of partitions, in order.
pub open spec fn flatten_chunks(parts: Seq<Seq<Seq<Token>>>) -> Seq<Seq<Token>>
    decreases parts.len(),
{
    if parts.len() == 0 {
        Seq::empty()
    } else {
        flatten_chunks(parts.drop_last()) + parts.last()
    }
}

/// A corpus held in memory as tokenized documents.
pub struct InMemoryDataset {
    chunks: Vec<Vec<Token>>,
}

/// An iteration state over an in-memory corpus: a copy of its documents.
pub struct InMemoryDatasetIter {
    chunks: Vec<Vec<Token>>,
}

/// A copy of a token sequence.
fn clone_chunk(chunk: &Vec<Token>) -> (out: Vec<Token>)
    ensures
        out@ == chunk@,
{
    let mut out: Vec<Token> = Vec::new();
    let mut i: usize = 0;
    while i < chunk.len()
        invariant
            i <= chunk@.len(),
            out@ == chunk@.subrange(0, i as int),
        decreases chunk@.len() - i,
    {
        let t = chunk[i];
        out.push(t);
        proof {
            assert(out@ =~= chunk@.subrange(0, i + 1));
        }
        i = i + 1;
    }
    proof {
        assert(out@ =~= chunk@);
    }
    out
}

impl InMemoryDataset {
    /// The documents, as token sequences.
    pub closed spec fn chunks_spec(self) -> Seq<Seq<Token>> {
        self.chunks@.map_values(|c: Vec<Token>| c@)
    }

    /// A corpus over the given documents.
    pub fn new(chunks: Vec<Vec<Token>>) -> (d: InMemoryDataset)
        ensures
            d.chunks_spec() == chunks@.map_values(|c: Vec<Token>| c@),
    {
        InMemoryDataset { chunks }
    }

    /// An iteration state holding the same documents.
    pub fn iter(&self) -> (it: InMemoryDatasetIter)
        ensures
            it.chunks_spec() == self.chunks_spec(),
    {
        let n = self.chunks.len();
        let mut chunks: Vec<Vec<Token>> = Vec::new();
        let mut i: usize = 0;
        while i < n
            invariant
                i <= n,
                n == self.chunks@.len(),
                chunks@.len() == i,
                forall|j: int| 0 <= j < i ==> (#[trigger] chunks@[j])@ == self.chunks@[j]@,
            decreases n - i,
        {
            let c = clone_chunk(&self.chunks[i]);
            chunks.push(c);
            i = i + 1;
        }
        let it = InMemoryDatasetIter { chunks };
        proof {
            assert(it.chunks_spec() =~= self.chunks_spec());
        }
        it
    }

    /// Re-tokenizes every document in place with the given tokenizer,
    /// which applies only its new rules.
    pub fn update_tokenizer(&mut self, tokenizer: Tokenizer)
        requires
            tokenizer.wf(),
        ensures
            final(self).chunks_spec().len() == old(self).chunks_spec().len(),
            forall|i: int|
                0 <= i < old(self).chunks_spec().len() ==> final(self).chunks_spec()[i]
                    == tokenizer.tokenize_spec(#[trigger] old(self).chunks_spec()[i]),
    {
        let n = self.chunks.len();
        let mut i: usize = 0;
        while i < n
            invariant
                i <= n,
                n == self.chunks@.len(),
                tokenizer.wf(),
                forall|j: int|
                    i <= j < n ==> (#[trigger] self.chunks@[j])@ == old(self).chunks_spec()[j],
                forall|j: int|
                    0 <= j < i ==> (#[trigger] self.chunks@[j])@ == tokenizer.tokenize_spec(
                        old(self).chunks_spec()[j],
                    ),
            decreases n - i,
        {
            let replaced = tokenizer.tokenize(&self.chunks[i]);
            self.chunks.set(i, replaced);
            i = i + 1;
        }
    }
}

impl DatasetIterator for InMemoryDatasetIter {
    closed spec fn chunks_spec(&self) -> Seq<Seq<Token>> {
        self.chunks@.map_values(|c: Vec<Token>| c@)
    }

    fn for_each_token_pair(self, hist: &mut TokenHistogram) {
        let ghost all = self.chunks_spec();
        let n = self.chunks.len();
        let mut ci: usize = 0;
        proof {
            assert(all.subrange(0, 0) =~= Seq::<Seq<Token>>::empty());
        }
        while ci < n
            invariant
                ci <= n,
                n == self.chunks@.len(),
                all == self.chunks_spec(),
                hist.wf(),
                forall|a: u16, b: u16|
                    hist.pair_count(a, b) == sat_cap(
                        old(hist).pair_count(a, b) + pairs_total(
                            all.subrange(0, ci as int),
                            a,
                            b,
                        ),
                    ),
                forall|t: u16|
                    hist.token_count(t) == sat_cap(
                        old(hist).token_count(t) + lefts_total(all.subrange(0, ci as int), t),
                    ),
            decreases n - ci,
        {
            let chunk = &self.chunks[ci];
            let ghost cseq = all[ci as int];
            proof {
                assert(chunk@ == cseq);
            }
            let clen = chunk.len();
            if clen >= 1 {
                let mut p: usize = 0;
                while p + 1 < clen
                    invariant
                        p < clen,
                        clen == cseq.len(),
                        chunk@ == cseq,
                        ci < n,
                        all == self.chunks_spec(),
                        n == self.chunks@.len(),
                        chunk == &self.chunks[ci as int],
                        hist.wf(),
                        forall|a: u16, b: u16|
                            hist.pair_count(a, b) == sat_cap(
                                old(hist).pair_count(a, b) + pairs_total(
                                    all.subrange(0, ci as int),
                                    a,
                                    b,
                                ) + pairs_prefix(cseq, p as int, a, b),
                            ),
                        forall|t: u16|
                            hist.token_count(t) == sat_cap(
                                old(hist).token_count(t) + lefts_total(
                                    all.subrange(0, ci as int),
                                    t,
                                ) + lefts_prefix(cseq, p as int, t),
                            ),
                    decreases clen - p,
                {
                    let left = chunk[p];
                    let right = chunk[p + 1];
                    let ghost before = *hist;
                    hist.register_pair(left, right);
                    let ghost mid = *hist;
                    hist.register(left);
                    proof {
                        assert forall|a: u16, b: u16|
                            hist.pair_count(a, b) == sat_cap(
                                old(hist).pair_count(a, b) + pairs_total(
                                    all.subrange(0, ci as int),
                                    a,
                                    b,
                                ) + pairs_prefix(cseq, p + 1, a, b),
                            ) by {
                            let s0 = old(hist).pair_count(a, b) + pairs_total(
                                all.subrange(0, ci as int),
                                a,
                                b,
                            ) + pairs_prefix(cseq, p as int, a, b);
                            lemma_pairs_total_nonneg(all.subrange(0, ci as int), a, b);
                            lemma_pairs_prefix_nonneg(cseq, p as int, a, b);
                            assert(before.pair_count(a, b) == sat_cap(s0));
                            assert(hist.pairs_spec() == mid.pairs_spec());
                            crate::histogram::lemma_pair_count_from_pairs(*hist, mid);
                            assert(hist.pair_count(a, b) == mid.pair_count(a, b));
                            assert(mid.pair_count(a, b) == (if a == left.0 && b == right.0 {
                                sat_add(before.pair_count(a, b), 1)
                            } else {
                                before.pair_count(a, b)
                            }));
                            assert(pairs_prefix(cseq, p + 1, a, b) == pairs_prefix(
                                cseq,
                                p as int,
                                a,
                                b,
                            ) + if cseq[p as int].0 == a && cseq[p + 1].0 == b {
                                1int
                            } else {
                                0int
                            });
                            if a == left.0 && b == right.0 {
                                lemma_sat_cap_step(s0);
                            }
                        }
                        assert forall|t: u16|
                            hist.token_count(t) == sat_cap(
                                old(hist).token_count(t) + lefts_total(
                                    all.subrange(0, ci as int),
                                    t,
                                ) + lefts_prefix(cseq, p + 1, t),
                            ) by {
                            let s0 = old(hist).token_count(t) + lefts_total(
                                all.subrange(0, ci as int),
                                t,
                            ) + lefts_prefix(cseq, p as int, t);
                            lemma_lefts_total_nonneg(all.subrange(0, ci as int), t);
                            lemma_lefts_prefix_nonneg(cseq, p as int, t);
                            assert(before.token_count(t) == sat_cap(s0));
                            assert(mid.token_count(t) == before.token_count(t));
                            assert(hist.token_count(t) == (if t == left.0 {
                                sat_add(mid.token_count(t), 1)
                            } else {
                                mid.token_count(t)
                            }));
                            assert(lefts_prefix(cseq, p + 1, t) == lefts_prefix(
                                cseq,
                                p as int,
                                t,
                            ) + if cseq[p as int].0 == t {
                                1int
                            } else {
                                0int
                            });
                            if t == left.0 {
                                lemma_sat_cap_step(s0);
                            }
                        }
                    }
                    p = p + 1;
                }
                proof {
                    assert(p == clen - 1);
                    assert(pairs_prefix(cseq, p as int, 0, 0) == pairs_in_chunk(cseq, 0, 0));
                }
            }
            proof {
                assert(all.subrange(0, ci + 1).drop_last() =~= all.subrange(0, ci as int));
                assert(all.subrange(0, ci + 1).last() == cseq);
                assert forall|a: u16, b: u16|
                    hist.pair_count(a, b) == sat_cap(
                        old(hist).pair_count(a, b) + pairs_total(
                            all.subrange(0, ci + 1),
                            a,
                            b,
                        ),
                    ) by {
                    if cseq.len() == 0 {
                        assert(pairs_in_chunk(cseq, a, b) == 0);
                    } else {
                        assert(pairs_in_chunk(cseq, a, b) == pairs_prefix(
                            cseq,
                            cseq.len() - 1,
                            a,
                            b,
                        ));
                    }
                }
                assert forall|t: u16|
                    hist.token_count(t) == sat_cap(
                        old(hist).token_count(t) + lefts_total(all.subrange(0, ci + 1), t),
                    ) by {
                    if cseq.len() == 0 {
                        assert(lefts_in_chunk(cseq, t) == 0);
                    }
                }
            }
            ci = ci + 1;
        }
        proof {
            assert(all.subrange(0, n as int) =~= all);
        }
    }

    fn split_work(self, parallelism: usize) -> (parts: Vec<Self>) {
        let mut group_size = if parallelism == 0 {
            1
        } else {
            let total = self.chunks.len();
            let q = total / parallelism;
            if total % parallelism == 0 || q == usize::MAX {
                q
            } else {
                q + 1
            }
        };
        if group_size == 0 {
            group_size = 1;
        }
        let n = self.chunks.len();
        let mut parts: Vec<InMemoryDatasetIter> = Vec::new();
        let mut i: usize = 0;
        proof {
            assert(parts@.map_values(|p: InMemoryDatasetIter| p.chunks_spec())
                =~= Seq::<Seq<Seq<Token>>>::empty());
            assert(self.chunks_spec().subrange(0, 0) =~= Seq::<Seq<Token>>::empty());
        }
        while i < n
            invariant
                i <= n,
                n == self.chunks@.len(),
                group_size >= 1,
                flatten_chunks(parts@.map_values(|p: InMemoryDatasetIter| p.chunks_spec()))
                    == self.chunks_spec().subrange(0, i as int),
            decreases n - i,
        {
            let mut group: Vec<Vec<Token>> = Vec::new();
            let start = i;
            while i < n && i - start < group_size
                invariant
                    start <= i <= n,
                    n == self.chunks@.len(),
                    i - start <= group_size,
                    group@.len() == i - start,
                    forall|j: int|
                        0 <= j < i - start ==> (#[trigger] group@[j])@ == self.chunks@[start + j]@,
                decreases n - i,
            {
                let c = clone_chunk(&self.chunks[i]);
                group.push(c);
                i = i + 1;
            }
            let part = InMemoryDatasetIter { chunks: group };
            let ghost parts_prev = parts@;
            parts.push(part);
            proof {
                let mapped = parts@.map_values(|p: InMemoryDatasetIter| p.chunks_spec());
                let mapped_prev = parts_prev.map_values(|p: InMemoryDatasetIter| p.chunks_spec());
                assert(mapped.drop_last() =~= mapped_prev);
                assert(mapped.last() == part.chunks_spec());
                assert(part.chunks_spec() =~= self.chunks_spec().subrange(
                    start as int,
                    i as int,
                ));
                assert(self.chunks_spec().subrange(0, start as int) + self.chunks_spec().subrange(
                    start as int,
                    i as int,
                ) =~= self.chunks_spec().subrange(0, i as int));
            }
        }
        proof {
            assert(self.chunks_spec().subrange(0, n as int) =~= self.chunks_spec());
        }
        parts
    }
}

/// A histogram whose counts are exactly the capped occurrence totals of
/// `chunks`.
pub open spec fn counts_match(h: TokenHistogram, chunks: Seq<Seq<Token>>) -> bool {
    &&& h.wf()
    &&& forall|a: u16, b: u16|
        h.pair_count(a, b) == sat_cap(pairs_total(chunks, a, b))
    &&& forall|t: u16| h.token_count(t) == sat_cap(lefts_total(chunks, t))
}

/// The histogram counted over `chunks`. Its pair table is pinned by the
/// counts, so any counting order yields this value.
pub open spec fn counted_histogram(chunks: Seq<Seq<Token>>) -> TokenHistogram {
    choose|h: TokenHistogram| counts_match(h, chunks)
}

/// The merge rules created by appending `pairs` in order, the first fresh
/// id being `start`.
pub open spec fn rules_from_pairs(start: int, pairs: Seq<(u16, u16)>) -> Seq<MergeRule> {
    Seq::new(
        pairs.len(),
        |i: int| MergeRule {
            left: Token(pairs[i].0),
            right: Token(pairs[i].1),
            result: Token((start + i) as u16),
        },
    )
}

/// Training progress as a fraction of the target, in millionths, capped at
/// one.
pub open spec fn progress_spec(additional: int, target: int) -> int {
    if target <= 0 {
        SCALE as int
    } else if additional * (SCALE as int) / target > SCALE as int {
        SCALE as int
    } else {
        additional * (SCALE as int) / target
    }
}

/// How many rules one training round adds: the whole selected batch, or as
/// much of it as the 16-bit id space still has room for.
pub open spec fn round_added(chunks: Seq<Seq<Token>>, state: BpeState, config: TrainConfig) -> int {
    let hist = counted_histogram(chunks);
    let t = progress_spec(state.merges_spec().len() as int, config.target_vocab_size as int);
    let selected = crate::histogram::selected_spec(hist, state.vocab_spec(), config, t);
    let room = 65536 - state.vocab_spec().len();
    if selected.len() <= room {
        selected.len() as int
    } else {
        room as int
    }
}

impl InMemoryDataset {
    /// One training round: counts every adjacent pair over the documents,
    /// selects this round's merge batch, and appends each selected pair as
    /// a new rule, re-checking the length cap before each append. Returns
    /// how many rules were added. The caller persists the new log lines
    /// and re-tokenizes with the new rules.
    #[verifier::loop_isolation(false)]
    pub fn train_step(&self, state: &mut BpeState, config: &TrainConfig) -> (r: TrainResult)
        requires
            old(state).wf(),
            config.wf(),
            config.target_vocab_size > 0,
        ensures
            final(state).wf(),
            ({
                let hist = counted_histogram(self.chunks_spec());
                let t = progress_spec(
                    old(state).merges_spec().len() as int,
                    config.target_vocab_size as int,
                );
                let selected = crate::histogram::selected_spec(
                    hist,
                    old(state).vocab_spec(),
                    *config,
                    t,
                );
                let added = round_added(self.chunks_spec(), *old(state), *config);
                &&& final(state).merges_spec() == old(state).merges_spec() + rules_from_pairs(
                    old(state).vocab_spec().len() as int,
                    selected.take(added),
                )
                &&& r.new_token_count.0 == added
            }),
    {
        let mut hist = TokenHistogram::new();
        self.iter().for_each_token_pair(&mut hist);
        let ghost chunks = self.chunks_spec();
        proof {
            assert forall|a: u16, b: u16|
                hist.pair_count(a, b) == sat_cap(pairs_total(chunks, a, b)) by {
                lemma_pairs_total_nonneg(chunks, a, b);
            }
            assert forall|t: u16| hist.token_count(t) == sat_cap(lefts_total(chunks, t)) by {
                lemma_lefts_total_nonneg(chunks, t);
            }
            assert(counts_match(hist, chunks));
            assert(counts_match(counted_histogram(chunks), chunks));
            crate::histogram::lemma_counts_determine_histogram(hist, counted_histogram(chunks));
        }
        let vocab = state.vocab();
        let additional = state.additional_vocab_size();
        let target = config.target_vocab_size;
        let scaled = (additional as u64) * SCALE;
        let ratio = scaled / (target as u64);
        let t = if ratio > SCALE {
            SCALE
        } else {
            ratio
        };
        proof {
            assert(t == progress_spec(additional as int, target as int));
        }
        let merges = hist.merges_to_add(&vocab, config, t);
        let ghost selected = crate::histogram::token_pairs_view(merges@);
        proof {
            assert(selected == crate::histogram::selected_spec(
                counted_histogram(chunks),
                old(state).vocab_spec(),
                *config,
                t as int,
            ));
            crate::histogram::lemma_batch_filters(
                counted_histogram(chunks),
                old(state).vocab_spec(),
                *config,
                t as int,
            );
        }
        let ghost start_len = state.vocab_spec().len() as int;
        let room = 65536 - state.additional_vocab_size() - 256;
        let take_n = if merges.len() <= room {
            merges.len()
        } else {
            room
        };
        proof {
            assert(take_n as int == round_added(chunks, *old(state), *config));
        }
        let mut i: usize = 0;
        while i < take_n
            invariant
                i <= take_n,
                state.wf(),
                state.vocab_spec().len() == start_len + i,
                state.merges_spec() == old(state).merges_spec() + rules_from_pairs(
                    start_len,
                    selected.take(i as int),
                ),
                forall|j: int|
                    0 <= j < start_len ==> (#[trigger] state.vocab_spec()[j]) == old(
                        state,
                    ).vocab_spec()[j],
            decreases take_n - i,
        {
            let pair = merges[i];
            proof {
                assert(selected[i as int] == (pair.0.0, pair.1.0));
                assert((pair.0.0 as int) < old(state).vocab_spec().len());
                assert((pair.1.0 as int) < old(state).vocab_spec().len());
            }
            let left_len = state.at_token(pair.0).len();
            let right_len = state.at_token(pair.1).len();
            let over = match config.max_token_length {
                Option::Some(cap) => left_len > cap || right_len > cap - left_len,
                Option::None => false,
            };
            if over {
                proof {
                    assert(state.vocab_spec()[pair.0.0 as int] == old(
                        state,
                    ).vocab_spec()[pair.0.0 as int]);
                    assert(state.vocab_spec()[pair.1.0 as int] == old(
                        state,
                    ).vocab_spec()[pair.1.0 as int]);
                    assert(!crate::histogram::too_long(
                        old(state).vocab_spec()[pair.0.0 as int].len() + old(
                            state,
                        ).vocab_spec()[pair.1.0 as int].len() as int,
                        config.max_token_length,
                    ));
                    assert(false);
                }
            } else {
                state.add_token(pair.0, pair.1);
                proof {
                    assert(state.merges_spec() =~= old(state).merges_spec() + rules_from_pairs(
                        start_len,
                        selected.take(i + 1),
                    ));
                }
            }
            i = i + 1;
        }
        TrainResult { new_token_count: Count::new(take_n as u64) }
    }

    /// Documents read from one raw text shard: the shard's bytes are split
    /// at every 0xFF separator, empty spans are skipped, and each document
    /// is tokenized from its bytes.
    pub fn from_raw_bytes(data: &Vec<u8>, tokenizer: &Tokenizer) -> (d: InMemoryDataset)
        requires
            tokenizer.wf(),
        ensures
            d.chunks_spec() == crate::shard::raw_segments(data@, 0xFF).map_values(
                |seg: Seq<u8>| tokenizer.tokenize_spec(crate::token::byte_tokens(seg)),
            ),
    {
        let segments = crate::shard::split_on_byte(data, 0xFF);
        let ghost segs = crate::shard::raw_segments(data@, 0xFF);
        let n = segments.len();
        let mut chunks: Vec<Vec<Token>> = Vec::new();
        let mut i: usize = 0;
        while i < n
            invariant
                i <= n,
                n == segments@.len(),
                tokenizer.wf(),
                segments@.map_values(|s: Vec<u8>| s@) == segs,
                chunks@.len() == i,
                forall|j: int|
                    0 <= j < i ==> (#[trigger] chunks@[j])@ == tokenizer.tokenize_spec(
                        crate::token::byte_tokens(segs[j]),
                    ),
            decreases n - i,
        {
            let tokens = tokenizer.tokenize_bytes(&segments[i]);
            proof {
                assert(segments@[i as int]@ == segs[i as int]);
            }
            chunks.push(tokens);
            i = i + 1;
        }
        let d = InMemoryDataset { chunks };
        proof {
            assert(d.chunks_spec() =~= segs.map_values(
                |seg: Seq<u8>| tokenizer.tokenize_spec(crate::token::byte_tokens(seg)),
            ));
        }
        d
    }

    /// Drives training rounds until the vocabulary reaches the target
    /// size: count, select, append, re-tokenize with only the new rules,
    /// repeat. Stops early if a round adds no rule at all, which means no
    /// further candidate exists under the current policy.
    pub fn train_vocabulary(&mut self, state: &mut BpeState, config: &TrainConfig)
        requires
            old(state).wf(),
            config.wf(),
            config.target_vocab_size > 0,
        ensures
            final(state).wf(),
            old(state).merges_spec().len() <= final(state).merges_spec().len(),
            final(state).merges_spec().subrange(0, old(state).merges_spec().len() as int) == old(
                state,
            ).merges_spec(),
            final(state).merges_spec().len() > config.target_vocab_size || round_added(
                final(self).chunks_spec(),
                *final(state),
                *config,
            ) == 0,
    {
        loop
            invariant
                state.wf(),
                config.wf(),
                config.target_vocab_size > 0,
                old(state).merges_spec().len() <= state.merges_spec().len(),
                state.merges_spec().subrange(0, old(state).merges_spec().len() as int) == old(
                    state,
                ).merges_spec(),
            decreases 65536 - state.merges_spec().len(),
        {
            let ghost st0 = *state;
            let result = self.train_step(state, config);
            proof {
                assert(state.merges_spec().subrange(0, st0.merges_spec().len() as int)
                    =~= st0.merges_spec());
                assert(state.merges_spec().subrange(0, old(state).merges_spec().len() as int)
                    =~= old(state).merges_spec());
            }
            if result.new_token_count.into_inner() == 0 {
                proof {
                    assert(round_added(self.chunks_spec(), st0, *config) == 0);
                    assert(state.merges_spec() =~= st0.merges_spec());
                    crate::bpe_state::lemma_vocab_determined_by_rules(st0, *state);
                    assert(round_added(self.chunks_spec(), *state, *config) == 0);
                }
                return ;
            }
            if state.additional_vocab_size() > config.target_vocab_size {
                return ;
            }
            let mut tokenizer = state.tokenizer();
            tokenizer.set_new(Some(result.new_token_count.into_inner() as usize));
            self.update_tokenizer(tokenizer);
        }
    }
}

/// Saturating one more occurrence extends a capped sum by one.
proof fn lemma_sat_cap_step(s0: int)
    requires
        s0 >= 0,
    ensures
        sat_add(sat_cap(s0), 1) == sat_cap(s0 + 1),
{
}

} // verus!
