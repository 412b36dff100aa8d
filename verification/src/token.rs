//! Tokens, merge rules, and the tokenizer that applies merge rules to
//! token sequences.

use vstd::prelude::*;

verus! {

/// A vocabulary identifier. Ids 0..=255 stand for the single byte of the same
/// value; ids from 256 on are merge results, assigned in creation order.
#[derive(Clone, Copy, PartialEq, Eq, PartialOrd, Ord, Hash, Debug, Structural)]
pub struct Token(pub u16);

impl Token {
    pub fn new(id: u16) -> (t: Token)
        ensures
            t.0 == id,
    {
        Token(id)
    }

    /// The id as a usize, for indexing vocabulary tables.
    pub fn index(self) -> (i: usize)
        ensures
            i == self.0,
    {
        self.0 as usize
    }

    /// The raw 16-bit id.
    pub fn into_inner(self) -> (i: u16)
        ensures
            i == self.0,
    {
        self.0
    }
}

/// One merge rule: adjacent tokens `left` and `right` fuse into `result`.
#[derive(Clone, Copy, PartialEq, Eq, Debug, Structural)]
pub struct MergeRule {
    pub left: Token,
    pub right: Token,
    pub result: Token,
}

/// One left-to-right, non-overlapping merge pass of a single rule over a
/// token sequence: at each position, if the current and next token are
/// (`left`, `right`), both are replaced by `result` and the scan advances
/// past them; otherwise the current token is kept and the scan advances
/// by one.
pub open spec fn merge_pass(s: Seq<Token>, left: Token, right: Token, result: Token) -> Seq<Token>
    decreases s.len(),
{
    if s.len() < 2 {
        s
    } else if s[0] == left && s[1] == right {
        seq![result] + merge_pass(s.skip(2), left, right, result)
    } else {
        seq![s[0]] + merge_pass(s.skip(1), left, right, result)
    }
}

/// The rules `rules[from..to]` applied in storage order, each as one
/// `merge_pass`.
pub open spec fn apply_rules(s: Seq<Token>, rules: Seq<MergeRule>, from: int, to: int) -> Seq<Token>
    decreases to - from,
{
    if from < 0 || from >= to || to > rules.len() {
        s
    } else {
        apply_rules(
            merge_pass(s, rules[from].left, rules[from].right, rules[from].result),
            rules,
            from + 1,
            to,
        )
    }
}

/// The sequence of single-byte tokens for a byte string.
pub open spec fn byte_tokens(bytes: Seq<u8>) -> Seq<Token> {
    Seq::new(bytes.len(), |i: int| Token(bytes[i] as u16))
}

/// An immutable snapshot of an ordered merge-rule list. The cursor `new`
/// marks how many trailing rules are "new": only those are applied when
/// tokenizing, so a corpus that is already tokenized under the older rules
/// can be brought up to date in one cheap pass.
#[derive(Clone, Debug)]
pub struct Tokenizer {
    rules: Vec<MergeRule>,
    new: usize,
}

impl Tokenizer {
    pub closed spec fn rules_spec(self) -> Seq<MergeRule> {
        self.rules@
    }

    pub closed spec fn new_spec(self) -> int {
        self.new as int
    }

    pub closed spec fn wf(self) -> bool {
        self.new <= self.rules@.len()
    }

    /// What `tokenize` returns: the last `new` rules applied in order.
    pub closed spec fn tokenize_spec(self, s: Seq<Token>) -> Seq<Token> {
        apply_rules(s, self.rules@, self.rules@.len() - self.new_spec(), self.rules@.len() as int)
    }

    /// A tokenizer over the given rules, all of them counting as new.
    pub fn from_rules(rules: Vec<MergeRule>) -> (t: Tokenizer)
        ensures
            t.rules_spec() == rules@,
            t.new_spec() == rules@.len(),
            t.wf(),
    {
        let new = rules.len();
        Tokenizer { rules, new }
    }

    /// Sets how many trailing rules count as new; `None` means all of them
    /// (a first full pass over raw data). A count beyond the number of rules
    /// is clamped to it.
    pub fn set_new(&mut self, new: Option<usize>)
        ensures
            final(self).rules_spec() == old(self).rules_spec(),
            final(self).new_spec() == match new {
                Option::Some(n) => if n <= old(self).rules_spec().len() {
                    n as int
                } else {
                    old(self).rules_spec().len() as int
                },
                Option::None => old(self).rules_spec().len() as int,
            },
            final(self).wf(),
    {
        let limit = self.rules.len();
        self.new = match new {
            Option::Some(n) => if n <= limit {
                n
            } else {
                limit
            },
            Option::None => limit,
        };
    }

    /// One merge pass of a single rule, as `merge_pass` describes.
    fn run_pass(tokens: &Vec<Token>, rule: &MergeRule) -> (out: Vec<Token>)
        ensures
            out@ == merge_pass(tokens@, rule.left, rule.right, rule.result),
    {
        let ghost all = tokens@;
        let ghost l = rule.left;
        let ghost r = rule.right;
        let ghost res = rule.result;
        let n = tokens.len();
        let mut out: Vec<Token> = Vec::new();
        let mut i: usize = 0;
        proof {
            assert(all.skip(0) =~= all);
            assert(out@ + merge_pass(all, l, r, res) =~= merge_pass(all, l, r, res));
        }
        while i < n
            invariant
                i <= n,
                n == all.len(),
                tokens@ == all,
                rule.left == l && rule.right == r && rule.result == res,
                merge_pass(all, l, r, res) == out@ + merge_pass(all.skip(i as int), l, r, res),
            decreases n - i,
        {
            let ghost rest = all.skip(i as int);
            if i + 1 < n && tokens[i].0 == rule.left.0 && tokens[i + 1].0 == rule.right.0 {
                proof {
                    assert(rest[0] == l && rest[1] == r);
                    assert(rest.skip(2) =~= all.skip(i + 2));
                    assert(merge_pass(rest, l, r, res) == seq![res] + merge_pass(
                        all.skip(i + 2),
                        l,
                        r,
                        res,
                    ));
                    assert(out@ + merge_pass(rest, l, r, res) =~= (out@ + seq![res]) + merge_pass(
                        all.skip(i + 2),
                        l,
                        r,
                        res,
                    ));
                }
                out.push(rule.result);
                i = i + 2;
            } else {
                proof {
                    assert(rest[0] == all[i as int]);
                    if rest.len() >= 2 {
                        assert(rest[1] == all[i + 1]);
                    }
                    assert(rest.skip(1) =~= all.skip(i + 1));
                    assert(merge_pass(rest, l, r, res) == seq![all[i as int]] + merge_pass(
                        all.skip(i + 1),
                        l,
                        r,
                        res,
                    ));
                    assert(out@ + merge_pass(rest, l, r, res) =~= (out@ + seq![all[i as int]])
                        + merge_pass(all.skip(i + 1), l, r, res));
                }
                let kept = tokens[i];
                out.push(kept);
                i = i + 1;
            }
        }
        proof {
            assert(all.skip(n as int) =~= Seq::<Token>::empty());
            assert(merge_pass(Seq::<Token>::empty(), l, r, res) =~= Seq::<Token>::empty());
            assert(out@ + Seq::<Token>::empty() =~= out@);
        }
        out
    }

    /// Applies the last `new` rules, in storage order, each as one
    /// non-overlapping left-to-right pass.
    pub fn tokenize(&self, tokens: &Vec<Token>) -> (out: Vec<Token>)
        requires
            self.wf(),
        ensures
            out@ == self.tokenize_spec(tokens@),
    {
        let ghost rules = self.rules@;
        let len = self.rules.len();
        let start = len - self.new;
        let mut cur: Vec<Token> = Vec::new();
        let mut j: usize = 0;
        while j < tokens.len()
            invariant
                j <= tokens@.len(),
                cur@ == tokens@.subrange(0, j as int),
            decreases tokens@.len() - j,
        {
            let t = tokens[j];
            cur.push(t);
            proof {
                assert(cur@ =~= tokens@.subrange(0, j + 1));
            }
            j = j + 1;
        }
        proof {
            assert(cur@ =~= tokens@);
        }
        let mut k = start;
        while k < len
            invariant
                start <= k <= len,
                len == rules.len(),
                self.rules@ == rules,
                cur@ == apply_rules(tokens@, rules, start as int, k as int),
            decreases len - k,
        {
            let rule = self.rules[k];
            let next = Self::run_pass(&cur, &rule);
            proof {
                lemma_apply_rules_snoc(tokens@, rules, start as int, k as int);
            }
            cur = next;
            k = k + 1;
        }
        cur
    }

    /// Maps each byte to its single-byte token, then applies the new rules.
    pub fn tokenize_bytes(&self, bytes: &Vec<u8>) -> (out: Vec<Token>)
        requires
            self.wf(),
        ensures
            out@ == self.tokenize_spec(byte_tokens(bytes@)),
    {
        let mut tokens: Vec<Token> = Vec::new();
        let mut i: usize = 0;
        while i < bytes.len()
            invariant
                i <= bytes@.len(),
                tokens@ == byte_tokens(bytes@.subrange(0, i as int)),
            decreases bytes@.len() - i,
        {
            let b = bytes[i];
            tokens.push(Token(b as u16));
            proof {
                assert(tokens@ =~= byte_tokens(bytes@.subrange(0, i + 1)));
            }
            i = i + 1;
        }
        proof {
            assert(bytes@.subrange(0, bytes@.len() as int) =~= bytes@);
        }
        self.tokenize(&tokens)
    }
}

/// Applying rules `[from, to)` splits at any midpoint: the later rules
/// pick up where the earlier ones left off.
pub proof fn lemma_apply_rules_split(s: Seq<Token>, rules: Seq<MergeRule>, from: int, mid: int, to: int)
    requires
        0 <= from <= mid <= to <= rules.len(),
    ensures
        apply_rules(s, rules, from, to) == apply_rules(
            apply_rules(s, rules, from, mid),
            rules,
            mid,
            to,
        ),
    decreases mid - from,
{
    if from < mid {
        let s1 = merge_pass(s, rules[from].left, rules[from].right, rules[from].result);
        lemma_apply_rules_split(s1, rules, from + 1, mid, to);
        assert(apply_rules(s, rules, from, to) == apply_rules(s1, rules, from + 1, to));
        assert(apply_rules(s, rules, from, mid) == apply_rules(s1, rules, from + 1, mid));
    }
}

/// Applying the first `k` rules of a list equals applying its length-`k`
/// prefix whole.
proof fn lemma_apply_rules_prefix(s: Seq<Token>, rules: Seq<MergeRule>, from: int, k: int)
    requires
        0 <= from <= k <= rules.len(),
    ensures
        apply_rules(s, rules.subrange(0, k), from, k) == apply_rules(s, rules, from, k),
    decreases k - from,
{
    if from < k {
        assert(rules.subrange(0, k)[from] == rules[from]);
        let s1 = merge_pass(s, rules[from].left, rules[from].right, rules[from].result);
        lemma_apply_rules_prefix(s1, rules, from + 1, k);
    }
}

/// Incremental equivalence: tokenizing in one full pass equals tokenizing
/// with the older rule subset first and then re-tokenizing the result with
/// only the newly added rules.
pub proof fn lemma_incremental_tokenize(
    full: Tokenizer,
    older: Tokenizer,
    newer: Tokenizer,
    k: int,
    s: Seq<Token>,
)
    requires
        0 <= k <= full.rules_spec().len(),
        full.new_spec() == full.rules_spec().len(),
        older.rules_spec() == full.rules_spec().subrange(0, k),
        older.new_spec() == k,
        newer.rules_spec() == full.rules_spec(),
        newer.new_spec() == full.rules_spec().len() - k,
    ensures
        full.tokenize_spec(s) == newer.tokenize_spec(older.tokenize_spec(s)),
{
    let rules = full.rules_spec();
    let n = rules.len() as int;
    lemma_apply_rules_prefix(s, rules, 0, k);
    assert(older.tokenize_spec(s) == apply_rules(s, rules, 0, k));
    lemma_apply_rules_split(s, rules, 0, k, n);
}

/// No window of `s` holds the adjacent pair (`left`, `right`).
pub open spec fn no_adjacent(s: Seq<Token>, left: Token, right: Token) -> bool {
    forall|p: int| 0 <= p < s.len() - 1 ==> !(s[p] == left && (#[trigger] s[p + 1]) == right)
}

/// A merge pass yields a nonempty result whose head is either the merge
/// result or the original head.
proof fn lemma_merge_pass_head(s: Seq<Token>, l: Token, r: Token, res: Token)
    requires
        s.len() > 0,
    ensures
        merge_pass(s, l, r, res).len() > 0,
        merge_pass(s, l, r, res)[0] == res || merge_pass(s, l, r, res)[0] == s[0],
{
}

/// After one pass of a rule whose result differs from both operands, no
/// window holds that rule's pair any more.
proof fn lemma_merge_pass_removes(s: Seq<Token>, l: Token, r: Token, res: Token)
    requires
        res != l,
        res != r,
    ensures
        no_adjacent(merge_pass(s, l, r, res), l, r),
    decreases s.len(),
{
    if s.len() < 2 {
        if s.len() == 1 {
            assert(no_adjacent(s, l, r));
        }
    } else if s[0] == l && s[1] == r {
        lemma_merge_pass_removes(s.skip(2), l, r, res);
        let tail = merge_pass(s.skip(2), l, r, res);
        let w = seq![res] + tail;
        assert forall|p: int| 0 <= p < w.len() - 1 implies !(w[p] == l && (#[trigger] w[p + 1])
            == r) by {
            if p == 0 {
                assert(w[0] == res);
            } else {
                assert(tail[p - 1 + 1] == tail[p]);
                assert(w[p] == tail[p - 1] && w[p + 1] == tail[p]);
            }
        }
    } else {
        lemma_merge_pass_removes(s.skip(1), l, r, res);
        let tail = merge_pass(s.skip(1), l, r, res);
        let w = seq![s[0]] + tail;
        assert forall|p: int| 0 <= p < w.len() - 1 implies !(w[p] == l && (#[trigger] w[p + 1])
            == r) by {
            if p == 0 {
                if s.len() >= 2 {
                    lemma_merge_pass_head(s.skip(1), l, r, res);
                    assert(tail[0] == res || tail[0] == s[1]);
                }
            } else {
                assert(tail[p - 1 + 1] == tail[p]);
                assert(w[p] == tail[p - 1] && w[p + 1] == tail[p]);
            }
        }
    }
}

/// A pass of a rule finds nothing to merge in a sequence without its pair:
/// the sequence comes back unchanged.
proof fn lemma_merge_pass_identity(s: Seq<Token>, l: Token, r: Token, res: Token)
    requires
        no_adjacent(s, l, r),
    ensures
        merge_pass(s, l, r, res) == s,
    decreases s.len(),
{
    if s.len() >= 2 {
        assert(s[0int + 1] == s[1]);
        assert(!(s[0] == l && s[1] == r));
        assert(no_adjacent(s.skip(1), l, r)) by {
            assert forall|p: int|
                0 <= p < s.skip(1).len() - 1 implies !(s.skip(1)[p] == l && (#[trigger] s.skip(
                1,
            )[p + 1]) == r) by {
                assert(s[p + 1 + 1] == s[p + 2]);
                assert(s.skip(1)[p] == s[p + 1] && s.skip(1)[p + 1] == s[p + 2]);
            }
        }
        lemma_merge_pass_identity(s.skip(1), l, r, res);
        assert(merge_pass(s, l, r, res) =~= s);
    }
}

/// A pass of another rule whose result differs from this rule's operands
/// cannot create this rule's pair.
proof fn lemma_merge_pass_keeps_no_adjacent(
    s: Seq<Token>,
    l1: Token,
    r1: Token,
    l2: Token,
    r2: Token,
    res2: Token,
)
    requires
        no_adjacent(s, l1, r1),
        res2 != l1,
        res2 != r1,
    ensures
        no_adjacent(merge_pass(s, l2, r2, res2), l1, r1),
    decreases s.len(),
{
    if s.len() < 2 {
    } else if s[0] == l2 && s[1] == r2 {
        assert(no_adjacent(s.skip(2), l1, r1)) by {
            assert forall|p: int|
                0 <= p < s.skip(2).len() - 1 implies !(s.skip(2)[p] == l1 && (#[trigger] s.skip(
                2,
            )[p + 1]) == r1) by {
                assert(s[p + 2 + 1] == s[p + 3]);
                assert(s.skip(2)[p] == s[p + 2] && s.skip(2)[p + 1] == s[p + 3]);
            }
        }
        lemma_merge_pass_keeps_no_adjacent(s.skip(2), l1, r1, l2, r2, res2);
        let tail = merge_pass(s.skip(2), l2, r2, res2);
        let w = seq![res2] + tail;
        assert forall|p: int| 0 <= p < w.len() - 1 implies !(w[p] == l1 && (#[trigger] w[p + 1])
            == r1) by {
            if p == 0 {
                assert(w[0] == res2);
            } else {
                assert(tail[p - 1 + 1] == tail[p]);
                assert(w[p] == tail[p - 1] && w[p + 1] == tail[p]);
            }
        }
    } else {
        assert(no_adjacent(s.skip(1), l1, r1)) by {
            assert forall|p: int|
                0 <= p < s.skip(1).len() - 1 implies !(s.skip(1)[p] == l1 && (#[trigger] s.skip(
                1,
            )[p + 1]) == r1) by {
                assert(s[p + 1 + 1] == s[p + 2]);
                assert(s.skip(1)[p] == s[p + 1] && s.skip(1)[p + 1] == s[p + 2]);
            }
        }
        lemma_merge_pass_keeps_no_adjacent(s.skip(1), l1, r1, l2, r2, res2);
        let tail = merge_pass(s.skip(1), l2, r2, res2);
        let w = seq![s[0]] + tail;
        assert forall|p: int| 0 <= p < w.len() - 1 implies !(w[p] == l1 && (#[trigger] w[p + 1])
            == r1) by {
            if p == 0 {
                if s.len() >= 2 {
                    lemma_merge_pass_head(s.skip(1), l2, r2, res2);
                    assert(tail[0] == res2 || tail[0] == s[1]);
                    assert(!(s[0] == l1 && s[1] == r1));
                }
            } else {
                assert(tail[p - 1 + 1] == tail[p]);
                assert(w[p] == tail[p - 1] && w[p + 1] == tail[p]);
            }
        }
    }
}

/// A rule list built by creation order: every rule's result token differs
/// from the operands of that rule and of every earlier rule. Vocabulary
/// states produce exactly such lists, since a rule's result id is always
/// fresh.
pub open spec fn results_fresh(rules: Seq<MergeRule>) -> bool {
    forall|i: int, j: int|
        0 <= i <= j < rules.len() ==> (#[trigger] rules[j]).result != (#[trigger] rules[i]).left
            && rules[j].result != rules[i].right
}

/// Later passes of a fresh rule list keep every earlier rule's pair absent.
proof fn lemma_apply_rules_keeps_no_adjacent(
    s: Seq<Token>,
    rules: Seq<MergeRule>,
    from: int,
    to: int,
    l: Token,
    r: Token,
)
    requires
        0 <= from <= to <= rules.len(),
        no_adjacent(s, l, r),
        forall|j: int|
            from <= j < to ==> (#[trigger] rules[j]).result != l && rules[j].result != r,
    ensures
        no_adjacent(apply_rules(s, rules, from, to), l, r),
    decreases to - from,
{
    if from < to {
        lemma_merge_pass_keeps_no_adjacent(
            s,
            l,
            r,
            rules[from].left,
            rules[from].right,
            rules[from].result,
        );
        let s1 = merge_pass(s, rules[from].left, rules[from].right, rules[from].result);
        lemma_apply_rules_keeps_no_adjacent(s1, rules, from + 1, to, l, r);
    }
}

/// After a full application of a fresh rule list, no rule's pair remains
/// adjacent anywhere.
proof fn lemma_apply_rules_leaves_no_pairs(s: Seq<Token>, rules: Seq<MergeRule>, from: int, to: int)
    requires
        0 <= from <= to <= rules.len(),
        results_fresh(rules),
    ensures
        forall|i: int|
            from <= i < to ==> no_adjacent(
                apply_rules(s, rules, from, to),
                (#[trigger] rules[i]).left,
                rules[i].right,
            ),
    decreases to - from,
{
    if from < to {
        let s1 = merge_pass(s, rules[from].left, rules[from].right, rules[from].result);
        lemma_apply_rules_leaves_no_pairs(s1, rules, from + 1, to);
        lemma_merge_pass_removes(s, rules[from].left, rules[from].right, rules[from].result);
        lemma_apply_rules_keeps_no_adjacent(
            s1,
            rules,
            from + 1,
            to,
            rules[from].left,
            rules[from].right,
        );
    }
}

/// Applying rules to a sequence in which none of their pairs occurs
/// changes nothing.
proof fn lemma_apply_rules_identity(s: Seq<Token>, rules: Seq<MergeRule>, from: int, to: int)
    requires
        0 <= from <= to <= rules.len(),
        forall|i: int|
            from <= i < to ==> no_adjacent(s, (#[trigger] rules[i]).left, rules[i].right),
    ensures
        apply_rules(s, rules, from, to) == s,
    decreases to - from,
{
    if from < to {
        lemma_merge_pass_identity(s, rules[from].left, rules[from].right, rules[from].result);
        lemma_apply_rules_identity(s, rules, from + 1, to);
    }
}

/// Idempotence: a sequence already fully merged under a fresh rule list
/// comes back unchanged when tokenized again with all rules counting as
/// new.
pub proof fn lemma_tokenize_idempotent(tok: Tokenizer, s: Seq<Token>)
    requires
        tok.new_spec() == tok.rules_spec().len(),
        results_fresh(tok.rules_spec()),
    ensures
        tok.tokenize_spec(tok.tokenize_spec(s)) == tok.tokenize_spec(s),
{
    let rules = tok.rules_spec();
    let n = rules.len() as int;
    let once = apply_rules(s, rules, 0, n);
    lemma_apply_rules_leaves_no_pairs(s, rules, 0, n);
    lemma_apply_rules_identity(once, rules, 0, n);
}

/// A well-formed vocabulary state's rule list is fresh: result ids are
/// assigned in increasing order, above every operand.
pub proof fn lemma_state_rules_fresh(s: crate::bpe_state::BpeState)
    requires
        s.wf(),
    ensures
        results_fresh(s.merges_spec()),
{
    let rules = s.merges_spec();
    assert forall|i: int, j: int|
        0 <= i <= j < rules.len() implies (#[trigger] rules[j]).result != (
    #[trigger] rules[i]).left && rules[j].result != rules[i].right by {
        assert(rules[j].result.0 == 256 + j);
        assert((rules[i].left.0 as int) < 256 + i);
        assert((rules[i].right.0 as int) < 256 + i);
    }
}

/// Applying rules `[from, to)` and then rule `to` equals applying `[from, to+1)`.
proof fn lemma_apply_rules_snoc(s: Seq<Token>, rules: Seq<MergeRule>, from: int, to: int)
    requires
        0 <= from <= to < rules.len(),
    ensures
        merge_pass(
            apply_rules(s, rules, from, to),
            rules[to].left,
            rules[to].right,
            rules[to].result,
        ) == apply_rules(s, rules, from, to + 1),
    decreases to - from,
{
    let passed = merge_pass(
        apply_rules(s, rules, from, to),
        rules[to].left,
        rules[to].right,
        rules[to].result,
    );
    if from == to {
        assert(apply_rules(s, rules, from, to) == s);
        assert(apply_rules(s, rules, to, to + 1) == apply_rules(passed, rules, to + 1, to + 1));
        assert(apply_rules(passed, rules, to + 1, to + 1) == passed);
    } else {
        let s1 = merge_pass(s, rules[from].left, rules[from].right, rules[from].result);
        lemma_apply_rules_snoc(s1, rules, from + 1, to);
        assert(apply_rules(s, rules, from, to) == apply_rules(s1, rules, from + 1, to));
        assert(apply_rules(s, rules, from, to + 1) == apply_rules(s1, rules, from + 1, to + 1));
    }
}

} // verus!
