//! The vocabulary state: every token's byte string, the ordered merge-rule
//! log, and the text codec of that log.
//!
//! The log is plain text, one merge rule per line, `"<left> <right>
//! <result>"` in base 10. Loading replays the log in order and fails on any
//! malformed line or on a `result` id that does not equal the vocabulary
//! size reached so far. Writing the file itself is left to the caller: the
//! codec here turns state into bytes and back, exactly.

use vstd::prelude::*;

use crate::token::{MergeRule, Token};

verus! {

/// Whether `b` is an ASCII decimal digit.
pub open spec fn is_digit(b: u8) -> bool {
    48 <= b <= 57
}

/// Whether every byte of `s` is an ASCII decimal digit.
pub open spec fn all_digits(s: Seq<u8>) -> bool {
    forall|i: int| 0 <= i < s.len() ==> is_digit(#[trigger] s[i])
}

/// The canonical decimal digit string of `n` (no sign, no leading zeros).
pub open spec fn dec_digits(n: int) -> Seq<u8>
    decreases n,
{
    if n < 10 {
        seq![(48 + if n < 0 { 0 } else { n }) as u8]
    } else {
        dec_digits(n / 10) + seq![(48 + n % 10) as u8]
    }
}

/// The numeric value of a digit string, read most significant first.
pub open spec fn dec_value(s: Seq<u8>) -> int
    decreases s.len(),
{
    if s.len() == 0 {
        0
    } else {
        dec_value(s.drop_last()) * 10 + (s.last() - 48)
    }
}

/// The first position at or after `from` where `b` occurs in `s`, or
/// `s.len()` if there is none.
pub open spec fn find_byte(s: Seq<u8>, b: u8, from: int) -> int
    decreases s.len() - from,
{
    if from < 0 || from >= s.len() {
        s.len() as int
    } else if s[from] == b {
        from
    } else {
        find_byte(s, b, from + 1)
    }
}

/// A log line parses when it is exactly three space-separated decimal
/// fields, each nonempty and at most 65535.
pub open spec fn parse_line_spec(s: Seq<u8>) -> Option<(u16, u16, u16)> {
    let i = find_byte(s, 32, 0);
    let j = find_byte(s, 32, i + 1);
    let f1 = s.subrange(0, i);
    let f2 = s.subrange(i + 1, j);
    let f3 = s.subrange(j + 1, s.len() as int);
    if i < s.len() && j < s.len() && field_ok(f1) && field_ok(f2) && field_ok(f3) {
        Some((dec_value(f1) as u16, dec_value(f2) as u16, dec_value(f3) as u16))
    } else {
        None
    }
}

/// A nonempty, all-digit field whose value fits a token id.
pub open spec fn field_ok(s: Seq<u8>) -> bool {
    s.len() > 0 && all_digits(s) && dec_value(s) <= 65535
}

/// `find_byte` stays between its start position and the sequence length.
pub proof fn lemma_find_byte_bounds(s: Seq<u8>, b: u8, from: int)
    requires
        0 <= from <= s.len(),
    ensures
        from <= find_byte(s, b, from) <= s.len(),
    decreases s.len() - from,
{
    if from < s.len() && s[from] != b {
        lemma_find_byte_bounds(s, b, from + 1);
    }
}

/// The whole log parses when every newline-separated line does; a trailing
/// newline after the last line is accepted.
pub open spec fn parse_log_spec(s: Seq<u8>) -> Option<Seq<(u16, u16, u16)>>
    decreases s.len(),
    via parse_log_spec_dec
{
    if s.len() == 0 {
        Some(Seq::empty())
    } else {
        let i = find_byte(s, 10, 0);
        match parse_line_spec(s.subrange(0, i)) {
            Option::None => None,
            Option::Some(t) => if i == s.len() {
                Some(seq![t])
            } else {
                match parse_log_spec(s.skip(i + 1)) {
                    Option::None => None,
                    Option::Some(rest) => Some(seq![t] + rest),
                }
            },
        }
    }
}

#[via_fn]
proof fn parse_log_spec_dec(s: Seq<u8>) {
    if s.len() > 0 {
        lemma_find_byte_bounds(s, 10, 0);
    }
}

/// The log line of one rule: left, right, result in base 10, space
/// separated, newline terminated.
pub open spec fn line_spec(rule: MergeRule) -> Seq<u8> {
    dec_digits(rule.left.0 as int) + seq![32u8] + dec_digits(rule.right.0 as int) + seq![32u8]
        + dec_digits(rule.result.0 as int) + seq![10u8]
}

/// The log text of a rule list: its lines in order.
pub open spec fn render_spec(rules: Seq<MergeRule>) -> Seq<u8>
    decreases rules.len(),
{
    if rules.len() == 0 {
        Seq::empty()
    } else {
        line_spec(rules.first()) + render_spec(rules.drop_first())
    }
}

/// Appends the canonical decimal digits of `n` to `out`.
fn push_decimal(n: u16, out: &mut Vec<u8>)
    ensures
        final(out)@ == old(out)@ + dec_digits(n as int),
    decreases n,
{
    if n < 10 {
        out.push(48 + n as u8);
        proof {
            assert(final(out)@ =~= old(out)@ + dec_digits(n as int));
        }
    } else {
        push_decimal(n / 10, out);
        out.push(48 + (n % 10) as u8);
        proof {
            assert(final(out)@ =~= old(out)@ + dec_digits(n as int));
        }
    }
}

/// Appends the log line of one rule to `out`.
fn push_line(rule: &MergeRule, out: &mut Vec<u8>)
    ensures
        final(out)@ == old(out)@ + line_spec(*rule),
{
    push_decimal(rule.left.0, out);
    out.push(32);
    push_decimal(rule.right.0, out);
    out.push(32);
    push_decimal(rule.result.0, out);
    out.push(10);
    proof {
        assert(final(out)@ =~= old(out)@ + line_spec(*rule));
    }
}

/// The log line of a single rule, for incremental appends to a persisted
/// log.
pub fn render_line(rule: &MergeRule) -> (out: Vec<u8>)
    ensures
        out@ == line_spec(*rule),
{
    let mut out: Vec<u8> = Vec::new();
    push_line(rule, &mut out);
    proof {
        assert(out@ =~= line_spec(*rule));
    }
    out
}

/// The 256 single-byte entries every vocabulary starts from.
pub open spec fn byte_vocab() -> Seq<Seq<u8>> {
    Seq::new(256, |i: int| seq![i as u8])
}

/// Replaying a log fails on the first malformed line or out-of-sequence
/// rule.
#[derive(Clone, Copy, PartialEq, Eq, Debug, Structural)]
pub enum LoadError {
    /// A line is not three space-separated decimal token ids.
    Malformed,
    /// A `result` id does not equal the vocabulary size reached so far, or
    /// an operand id refers to a token that did not exist yet.
    OutOfSequence,
}

/// Removing a token can fail; every failure leaves the state unchanged.
#[derive(Clone, Copy, PartialEq, Eq, Debug, Structural)]
pub enum RemoveError {
    /// The id is not in the vocabulary.
    NotInVocab,
    /// The id is one of the 256 fixed byte tokens.
    ByteToken,
    /// A merge rule still references the token as left or right operand.
    Referenced,
}

/// The vocabulary state: the byte string of every token and the ordered
/// merge-rule log. Entry `i < 256` is the single byte `i`; entry `256 + k`
/// is the concatenation its rule `k` describes, computed once when the rule
/// is added and never recomputed at lookup time.
pub struct BpeState {
    vocab: Vec<Vec<u8>>,
    merges: Vec<MergeRule>,
}

impl BpeState {
    /// The byte string of every token, in id order.
    pub closed spec fn vocab_spec(self) -> Seq<Seq<u8>> {
        self.vocab.deep_view()
    }

    /// The merge rules, in creation order.
    pub closed spec fn merges_spec(self) -> Seq<MergeRule> {
        self.merges@
    }

    /// Well-formedness: one vocabulary entry per byte value plus one per
    /// rule; rule `k` produces token `256 + k` from two previously existing
    /// tokens, and the cached byte string is their concatenation.
    pub open spec fn wf(self) -> bool {
        &&& self.vocab_spec().len() == 256 + self.merges_spec().len()
        &&& self.vocab_spec().len() <= 65536
        &&& forall|i: int|
            0 <= i < 256 ==> (#[trigger] self.vocab_spec()[i]) == seq![i as u8]
        &&& forall|i: int|
            0 <= i < self.merges_spec().len() ==> {
                let r = #[trigger] self.merges_spec()[i];
                &&& r.result.0 == 256 + i
                &&& (r.left.0 as int) < 256 + i
                &&& (r.right.0 as int) < 256 + i
                &&& self.vocab_spec()[256 + i] == self.vocab_spec()[r.left.0 as int]
                    + self.vocab_spec()[r.right.0 as int]
            }
    }

    /// The empty state: the 256 single-byte tokens and no merge rules.
    pub fn empty() -> (s: BpeState)
        ensures
            s.wf(),
            s.merges_spec().len() == 0,
            s.vocab_spec() == byte_vocab(),
    {
        let mut vocab: Vec<Vec<u8>> = Vec::new();
        let mut i: usize = 0;
        while i < 256
            invariant
                i <= 256,
                vocab.deep_view().len() == i,
                forall|j: int| 0 <= j < i ==> (#[trigger] vocab.deep_view()[j]) == seq![j as u8],
            decreases 256 - i,
        {
            let mut entry: Vec<u8> = Vec::new();
            entry.push(i as u8);
            proof {
                assert(entry@ =~= seq![i as u8]);
            }
            let ghost prev = vocab.deep_view();
            vocab.push(entry);
            proof {
                assert(vocab.deep_view() =~~= prev.push(entry@));
            }
            i = i + 1;
        }
        let s = BpeState { vocab, merges: Vec::new() };
        proof {
            assert(s.vocab_spec() =~= byte_vocab());
        }
        s
    }

    /// How many tokens beyond the 256 byte tokens exist; equally, how many
    /// merge rules there are.
    pub fn additional_vocab_size(&self) -> (n: usize)
        ensures
            n == self.merges_spec().len(),
    {
        self.merges.len()
    }

    /// The byte string of `token`.
    pub fn at_token(&self, token: Token) -> (bytes: &Vec<u8>)
        requires
            (token.0 as int) < self.vocab_spec().len(),
        ensures
            bytes@ == self.vocab_spec()[token.0 as int],
    {
        &self.vocab[token.index()]
    }

    /// Every token id currently in the vocabulary, in order.
    pub fn tokens(&self) -> (ts: Vec<Token>)
        requires
            self.wf(),
        ensures
            ts@.len() == self.vocab_spec().len(),
            forall|i: int| 0 <= i < ts@.len() ==> (#[trigger] ts@[i]).0 == i,
    {
        let n = self.vocab.len();
        let mut ts: Vec<Token> = Vec::new();
        let mut i: usize = 0;
        while i < n
            invariant
                i <= n,
                n <= 65536,
                ts@.len() == i,
                forall|j: int| 0 <= j < i ==> (#[trigger] ts@[j]).0 == j,
            decreases n - i,
        {
            ts.push(Token(i as u16));
            i = i + 1;
        }
        ts
    }

    /// A copy of every token's byte string, in id order.
    pub fn vocab(&self) -> (v: Vec<Vec<u8>>)
        ensures
            v.deep_view() == self.vocab_spec(),
    {
        let n = self.vocab.len();
        let mut v: Vec<Vec<u8>> = Vec::new();
        let mut i: usize = 0;
        while i < n
            invariant
                i <= n,
                n == self.vocab@.len(),
                v.deep_view().len() == i,
                forall|j: int|
                    0 <= j < i ==> (#[trigger] v.deep_view()[j]) == self.vocab_spec()[j],
            decreases n - i,
        {
            let entry = clone_bytes(&self.vocab[i]);
            let ghost prev = v.deep_view();
            v.push(entry);
            proof {
                assert(v.deep_view() =~~= prev.push(entry@));
            }
            i = i + 1;
        }
        proof {
            assert(v.deep_view() =~= self.vocab_spec());
        }
        v
    }

    /// The operands whose merge produced `token`, or `None` for a byte
    /// token or an id outside the vocabulary.
    pub fn split_token(&self, token: Token) -> (r: Option<(Token, Token)>)
        requires
            self.wf(),
        ensures
            r matches Some(pair) ==> 256 <= token.0 && (token.0 as int) < self.vocab_spec().len()
                && pair == (
                self.merges_spec()[token.0 - 256].left,
                self.merges_spec()[token.0 - 256].right,
            ),
            r is None ==> token.0 < 256 || (token.0 as int) >= self.vocab_spec().len(),
    {
        if token.0 >= 256 && (token.0 as usize) < self.vocab.len() {
            let rule = self.merges[(token.0 - 256) as usize];
            Some((rule.left, rule.right))
        } else {
            None
        }
    }

    /// A tokenizer snapshot of the current rule list, all rules counting as
    /// new.
    pub fn tokenizer(&self) -> (t: crate::token::Tokenizer)
        ensures
            t.rules_spec() == self.merges_spec(),
            t.new_spec() == self.merges_spec().len(),
            t.wf(),
    {
        let n = self.merges.len();
        let mut rules: Vec<MergeRule> = Vec::new();
        let mut i: usize = 0;
        while i < n
            invariant
                i <= n,
                n == self.merges@.len(),
                rules@ == self.merges@.subrange(0, i as int),
            decreases n - i,
        {
            let rule = self.merges[i];
            rules.push(rule);
            proof {
                assert(rules@ =~= self.merges@.subrange(0, i + 1));
            }
            i = i + 1;
        }
        proof {
            assert(rules@ =~= self.merges@);
        }
        crate::token::Tokenizer::from_rules(rules)
    }

    /// Concatenates the operands' byte strings, appends the rule, and grows
    /// the vocabulary by one; returns the fresh token. The caller persists
    /// the line `render_line` gives for the new rule.
    pub fn add_token(&mut self, left: Token, right: Token) -> (t: Token)
        requires
            old(self).wf(),
            (left.0 as int) < old(self).vocab_spec().len(),
            (right.0 as int) < old(self).vocab_spec().len(),
            old(self).vocab_spec().len() < 65536,
        ensures
            final(self).wf(),
            t.0 == old(self).vocab_spec().len(),
            final(self).merges_spec() == old(self).merges_spec().push(
                MergeRule { left, right, result: t },
            ),
            final(self).vocab_spec() == old(self).vocab_spec().push(
                old(self).vocab_spec()[left.0 as int] + old(self).vocab_spec()[right.0 as int],
            ),
    {
        let mut bytes = clone_bytes(&self.vocab[left.index()]);
        let right_bytes = &self.vocab[right.index()];
        let mut j: usize = 0;
        while j < right_bytes.len()
            invariant
                j <= right_bytes@.len(),
                bytes@ == old(self).vocab_spec()[left.0 as int] + right_bytes@.subrange(
                    0,
                    j as int,
                ),
                right_bytes@ == old(self).vocab_spec()[right.0 as int],
            decreases right_bytes@.len() - j,
        {
            let b = right_bytes[j];
            bytes.push(b);
            proof {
                assert(bytes@ =~= old(self).vocab_spec()[left.0 as int]
                    + right_bytes@.subrange(0, j + 1));
            }
            j = j + 1;
        }
        proof {
            assert(bytes@ =~= old(self).vocab_spec()[left.0 as int] + old(
                self,
            ).vocab_spec()[right.0 as int]);
        }
        let new_token = Token(self.vocab.len() as u16);
        self.merges.push(MergeRule { left, right, result: new_token });
        self.vocab.push(bytes);
        proof {
            assert(self.vocab_spec() =~~= old(self).vocab_spec().push(
                old(self).vocab_spec()[left.0 as int] + old(self).vocab_spec()[right.0 as int],
            ));
            assert forall|i: int| 0 <= i < self.merges_spec().len() implies {
                let r = #[trigger] self.merges_spec()[i];
                &&& r.result.0 == 256 + i
                &&& (r.left.0 as int) < 256 + i
                &&& (r.right.0 as int) < 256 + i
                &&& self.vocab_spec()[256 + i] == self.vocab_spec()[r.left.0 as int]
                    + self.vocab_spec()[r.right.0 as int]
            } by {
                if i < old(self).merges_spec().len() {
                    assert(old(self).wf());
                    assert(self.merges_spec()[i] == old(self).merges_spec()[i]);
                }
            }
        }
        new_token
    }

    /// Replays a persisted log text in order, reconstructing every byte
    /// string. Fails on a malformed line, and on a rule whose `result` id
    /// does not equal the vocabulary size reached so far or whose operands
    /// did not exist yet.
    pub fn from_log(bytes: &Vec<u8>) -> (r: Result<BpeState, LoadError>)
        ensures
            r == Err::<BpeState, LoadError>(LoadError::Malformed) <==> parse_log_spec(bytes@)
                is None,
            r == Err::<BpeState, LoadError>(LoadError::OutOfSequence) <==> (parse_log_spec(bytes@)
                matches Some(ts) && !triples_wf(ts)),
            r matches Ok(s) <==> (parse_log_spec(bytes@) matches Some(ts) && triples_wf(ts)),
            r matches Ok(s) ==> s.wf() && (parse_log_spec(bytes@) matches Some(ts)
                && s.merges_spec() == rules_of_triples(ts)),
    {
        let parsed = match parse_log(bytes) {
            Option::None => {
                return Err(LoadError::Malformed);
            },
            Option::Some(v) => v,
        };
        let ghost ts = parsed@;
        let mut state = BpeState::empty();
        let n = parsed.len();
        let mut k: usize = 0;
        while k < n
            invariant
                k <= n,
                n == ts.len(),
                parsed@ == ts,
                state.wf(),
                state.merges_spec() == rules_of_triples(ts.subrange(0, k as int)),
                state.vocab_spec().len() == 256 + k,
                triples_wf(ts.subrange(0, k as int)),
                parse_log_spec(bytes@) == Some(ts),
            decreases n - k,
        {
            let t = parsed[k];
            if (t.2 as usize) != 256 + k || (t.0 as usize) >= 256 + k || (t.1 as usize) >= 256
                + k {
                proof {
                    assert(ts[k as int] == t);
                    assert(!triples_wf(ts));
                }
                return Err(LoadError::OutOfSequence);
            }
            let added = state.add_token(Token(t.0), Token(t.1));
            proof {
                assert(added.0 == t.2);
                assert(state.merges_spec() =~= rules_of_triples(ts.subrange(0, k + 1)));
                assert(forall|j: int|
                    0 <= j < k + 1 ==> {
                        let x = #[trigger] ts.subrange(0, k + 1)[j];
                        x == ts.subrange(0, k as int + 1)[j]
                    });
                assert(triples_wf(ts.subrange(0, k + 1))) by {
                    assert(forall|j: int|
                        0 <= j < k + 1 ==> ts.subrange(0, k + 1)[j] == #[trigger] ts[j]);
                }
            }
            k = k + 1;
        }
        proof {
            assert(ts.subrange(0, n as int) =~= ts);
        }
        Ok(state)
    }

    /// Removes `token` and renumbers every later token id downward by one,
    /// rewriting all affected rules. Fails, leaving the state unchanged, if
    /// the id is outside the vocabulary, is a fixed byte token, or is still
    /// referenced by a rule. O(vocabulary size); the persisted log must be
    /// rewritten afterwards from `render_log`.
    #[verifier::loop_isolation(false)]
    pub fn remove_token_unsynced(&mut self, token: Token) -> (r: Result<(), RemoveError>)
        requires
            old(self).wf(),
        ensures
            final(self).wf(),
            r == Err::<(), RemoveError>(RemoveError::NotInVocab) <==> (token.0 as int) >= old(
                self,
            ).vocab_spec().len(),
            r == Err::<(), RemoveError>(RemoveError::ByteToken) <==> token.0 < 256 && (
            token.0 as int) < old(self).vocab_spec().len(),
            r == Err::<(), RemoveError>(RemoveError::Referenced) <==> (256 <= token.0 && (
            token.0 as int) < old(self).vocab_spec().len() && exists|k: int|
                0 <= k < old(self).merges_spec().len() && ((#[trigger] old(
                    self,
                ).merges_spec()[k]).left == token || old(self).merges_spec()[k].right == token)),
            r is Err ==> *final(self) == *old(self),
            r is Ok ==> final(self).vocab_spec() == old(self).vocab_spec().remove(token.0 as int)
                && final(self).merges_spec() == renumber_rules(
                old(self).merges_spec(),
                token.0 as int,
            ),
    {
        let idx = token.index();
        if idx >= self.vocab.len() {
            return Err(RemoveError::NotInVocab);
        }
        if token.0 < 256 {
            return Err(RemoveError::ByteToken);
        }
        let n = self.merges.len();
        let mut k: usize = 0;
        while k < n
            invariant
                k <= n,
                n == self.merges@.len(),
                forall|j: int|
                    0 <= j < k ==> (#[trigger] self.merges@[j]).left != token
                        && self.merges@[j].right != token,
            decreases n - k,
        {
            let rule = self.merges[k];
            if rule.left.0 == token.0 || rule.right.0 == token.0 {
                return Err(RemoveError::Referenced);
            }
            k = k + 1;
        }
        let ghost old_vocab = self.vocab_spec();
        let ghost old_merges = self.merges@;
        self.vocab.remove(idx);
        self.merges.remove(idx - 256);
        proof {
            assert(self.vocab_spec() =~~= old_vocab.remove(idx as int));
        }
        let ghost target = renumber_rules(old_merges, idx as int);
        let ghost removed = old_merges.remove(idx - 256);
        let m2 = self.merges.len();
        let mut m: usize = 0;
        while m < m2
            invariant
                m <= m2,
                m2 == self.merges@.len(),
                m2 == removed.len(),
                target.len() == removed.len(),
                idx >= 256,
                self.vocab_spec() == old_vocab.remove(idx as int),
                forall|j: int| m <= j < m2 ==> self.merges@[j] == removed[j],
                forall|j: int| 0 <= j < m ==> self.merges@[j] == target[j],
                forall|j: int|
                    0 <= j < removed.len() ==> #[trigger] target[j] == (MergeRule {
                        left: shift_token(removed[j].left, idx as int),
                        right: shift_token(removed[j].right, idx as int),
                        result: shift_token(removed[j].result, idx as int),
                    }),
            decreases m2 - m,
        {
            let rule = self.merges[m];
            let left = if rule.left.0 > token.0 {
                Token(rule.left.0 - 1)
            } else {
                rule.left
            };
            let right = if rule.right.0 > token.0 {
                Token(rule.right.0 - 1)
            } else {
                rule.right
            };
            let result = if rule.result.0 > token.0 {
                Token(rule.result.0 - 1)
            } else {
                rule.result
            };
            self.merges.set(m, MergeRule { left, right, result });
            m = m + 1;
        }
        proof {
            assert(self.merges@ =~= target);
            lemma_renumber_wf(old_vocab, old_merges, idx as int);
            assert(self.wf());
        }
        Ok(())
    }

    /// The full log text of the current rule list.
    pub fn render_log(&self) -> (out: Vec<u8>)
        ensures
            out@ == render_spec(self.merges_spec()),
    {
        let n = self.merges.len();
        let mut out: Vec<u8> = Vec::new();
        let mut i: usize = 0;
        proof {
            assert(self.merges@.subrange(0, 0) =~= Seq::<MergeRule>::empty());
            assert(out@ =~= render_spec(self.merges@.subrange(0, 0)));
        }
        while i < n
            invariant
                i <= n,
                n == self.merges@.len(),
                out@ == render_spec(self.merges@.subrange(0, i as int)),
            decreases n - i,
        {
            let rule = self.merges[i];
            push_line(&rule, &mut out);
            proof {
                let prefix = self.merges@.subrange(0, i as int);
                let one = seq![self.merges@[i as int]];
                lemma_render_concat(prefix, one);
                assert(prefix + one =~= self.merges@.subrange(0, i + 1));
                assert(one.drop_first() =~= Seq::<MergeRule>::empty());
                assert(render_spec(Seq::<MergeRule>::empty()) =~= Seq::<u8>::empty());
                assert(render_spec(one) =~= line_spec(self.merges@[i as int]));
            }
            i = i + 1;
        }
        proof {
            assert(self.merges@.subrange(0, n as int) =~= self.merges@);
        }
        out
    }
}

/// The raw (left, right, result) id triples of a rule list.
pub open spec fn triples_of(rules: Seq<MergeRule>) -> Seq<(u16, u16, u16)> {
    rules.map_values(|r: MergeRule| (r.left.0, r.right.0, r.result.0))
}

/// The rule list of raw id triples.
pub open spec fn rules_of_triples(ts: Seq<(u16, u16, u16)>) -> Seq<MergeRule> {
    Seq::new(
        ts.len(),
        |i: int| MergeRule { left: Token(ts[i].0), right: Token(ts[i].1), result: Token(ts[i].2) },
    )
}

/// Replayable triples: rule `k` produces token `256 + k` from two tokens
/// that already existed.
pub open spec fn triples_wf(ts: Seq<(u16, u16, u16)>) -> bool {
    forall|k: int|
        0 <= k < ts.len() ==> {
            let t = #[trigger] ts[k];
            t.2 == 256 + k && (t.0 as int) < 256 + k && (t.1 as int) < 256 + k
        }
}

/// The position of the first occurrence of `b` at or after `p + q` in `s`,
/// seen from the suffix starting at `p`.
pub(crate) proof fn lemma_find_byte_skip(s: Seq<u8>, b: u8, p: int, q: int)
    requires
        0 <= p <= s.len(),
        0 <= q,
    ensures
        find_byte(s.skip(p), b, q) == find_byte(s, b, p + q) - p,
    decreases s.len() - p - q,
{
    if p + q >= s.len() {
        lemma_find_byte_bounds(s, b, s.len() as int);
    } else if s.skip(p)[q] == b {
    } else {
        lemma_find_byte_skip(s, b, p, q + 1);
    }
}

/// If `s[k]` is the first occurrence of `b` at or after `from`, `find_byte`
/// returns `k`.
proof fn lemma_find_byte_first(s: Seq<u8>, b: u8, from: int, k: int)
    requires
        0 <= from <= k < s.len(),
        s[k] == b,
        forall|j: int| from <= j < k ==> s[j] != b,
    ensures
        find_byte(s, b, from) == k,
    decreases k - from,
{
    if from < k {
        lemma_find_byte_first(s, b, from + 1, k);
    }
}

/// If `b` does not occur at or after `from`, `find_byte` returns the length.
proof fn lemma_find_byte_none(s: Seq<u8>, b: u8, from: int)
    requires
        0 <= from <= s.len(),
        forall|j: int| from <= j < s.len() ==> s[j] != b,
    ensures
        find_byte(s, b, from) == s.len(),
    decreases s.len() - from,
{
    if from < s.len() {
        lemma_find_byte_none(s, b, from + 1);
    }
}

/// The value of a digit string is non-negative.
proof fn lemma_dec_value_nonneg(s: Seq<u8>)
    requires
        all_digits(s),
    ensures
        dec_value(s) >= 0,
    decreases s.len(),
{
    if s.len() > 0 {
        assert(all_digits(s.drop_last()));
        lemma_dec_value_nonneg(s.drop_last());
    }
}

/// Finds the first occurrence of `b` at or after `from`, or the length.
pub(crate) fn find_byte_exec(s: &Vec<u8>, b: u8, from: usize) -> (i: usize)
    requires
        from <= s@.len(),
    ensures
        i == find_byte(s@, b, from as int),
        from <= i <= s@.len(),
{
    let n = s.len();
    let mut j = from;
    while j < n
        invariant
            from <= j <= n,
            n == s@.len(),
            find_byte(s@, b, from as int) == find_byte(s@, b, j as int),
            forall|k: int| from <= k < j ==> s@[k] != b,
        decreases n - j,
    {
        if s[j] == b {
            proof {
                lemma_find_byte_bounds(s@, b, j as int);
            }
            return j;
        }
        j = j + 1;
    }
    proof {
        lemma_find_byte_none(s@, b, from as int);
    }
    n
}

/// Parses the decimal field `s[start..end]`; `Some` exactly when it is a
/// nonempty digit string whose value fits a token id.
fn parse_field(s: &Vec<u8>, start: usize, end: usize) -> (r: Option<u16>)
    requires
        start <= end <= s@.len(),
    ensures
        field_ok(s@.subrange(start as int, end as int)) ==> r == Some(
            dec_value(s@.subrange(start as int, end as int)) as u16,
        ),
        !field_ok(s@.subrange(start as int, end as int)) ==> r is None,
{
    let ghost field = s@.subrange(start as int, end as int);
    if start == end {
        return None;
    }
    let mut acc: u32 = 0;
    let mut over: bool = false;
    let mut k = start;
    while k < end
        invariant
            start <= k <= end <= s@.len(),
            field == s@.subrange(start as int, end as int),
            all_digits(s@.subrange(start as int, k as int)),
            !over ==> acc == dec_value(s@.subrange(start as int, k as int)) && acc <= 65535,
            over ==> dec_value(s@.subrange(start as int, k as int)) > 65535,
        decreases end - k,
    {
        let b = s[k];
        if b < 48 || b > 57 {
            proof {
                assert(field[k - start] == s@[k as int]);
                assert(!is_digit(field[k - start]));
            }
            return None;
        }
        let ghost prefix = s@.subrange(start as int, k as int);
        let ghost prefix1 = s@.subrange(start as int, k + 1);
        proof {
            assert(prefix1.drop_last() =~= prefix);
            assert(prefix1.last() == s@[k as int]);
            assert(all_digits(prefix1));
            if over {
                lemma_dec_value_nonneg(prefix);
                assert(dec_value(prefix1) == dec_value(prefix) * 10 + (s@[k as int] - 48));
            }
        }
        if !over {
            let next = acc * 10 + (b - 48) as u32;
            if next > 65535 {
                over = true;
            } else {
                acc = next;
            }
        }
        k = k + 1;
    }
    proof {
        assert(s@.subrange(start as int, end as int) =~= field);
    }
    if over {
        None
    } else {
        Some(acc as u16)
    }
}

/// Parses one log line; `Some` exactly when it is three space-separated
/// decimal token ids.
fn parse_line(line: &Vec<u8>) -> (r: Option<(u16, u16, u16)>)
    ensures
        r == parse_line_spec(line@),
{
    let n = line.len();
    let i = find_byte_exec(line, 32, 0);
    if i == n {
        return None;
    }
    let j = find_byte_exec(line, 32, i + 1);
    if j == n {
        return None;
    }
    let f1 = parse_field(line, 0, i);
    let f2 = parse_field(line, i + 1, j);
    let f3 = parse_field(line, j + 1, n);
    proof {
        assert(line@.subrange(j + 1, n as int) =~= line@.subrange(j + 1, line@.len() as int));
    }
    match (f1, f2, f3) {
        (Some(a), Some(b), Some(c)) => Some((a, b, c)),
        _ => None,
    }
}

/// A token id after removal of the token at `idx`: ids above `idx` move
/// down by one, ids below stay.
pub open spec fn shift_token(t: Token, idx: int) -> Token {
    if t.0 > idx {
        Token((t.0 - 1) as u16)
    } else {
        t
    }
}

/// The rule list after removal of the token at `idx`: its own rule is
/// dropped and every id above `idx` moves down by one.
pub open spec fn renumber_rules(rules: Seq<MergeRule>, idx: int) -> Seq<MergeRule> {
    rules.remove(idx - 256).map_values(
        |r: MergeRule| MergeRule {
            left: shift_token(r.left, idx),
            right: shift_token(r.right, idx),
            result: shift_token(r.result, idx),
        },
    )
}

/// Removing an unreferenced non-byte token and renumbering keeps the state
/// well formed.
proof fn lemma_renumber_wf(vocab: Seq<Seq<u8>>, merges: Seq<MergeRule>, idx: int)
    requires
        vocab.len() == 256 + merges.len(),
        vocab.len() <= 65536,
        forall|i: int| 0 <= i < 256 ==> (#[trigger] vocab[i]) == seq![i as u8],
        forall|i: int|
            0 <= i < merges.len() ==> {
                let r = #[trigger] merges[i];
                &&& r.result.0 == 256 + i
                &&& (r.left.0 as int) < 256 + i
                &&& (r.right.0 as int) < 256 + i
                &&& vocab[256 + i] == vocab[r.left.0 as int] + vocab[r.right.0 as int]
            },
        256 <= idx < vocab.len(),
        forall|k: int|
            0 <= k < merges.len() ==> (#[trigger] merges[k]).left.0 != idx
                && merges[k].right.0 != idx,
    ensures
        vocab.remove(idx).len() == 256 + renumber_rules(merges, idx).len(),
        vocab.remove(idx).len() <= 65536,
        forall|i: int| 0 <= i < 256 ==> (#[trigger] vocab.remove(idx)[i]) == seq![i as u8],
        forall|i: int|
            0 <= i < renumber_rules(merges, idx).len() ==> {
                let r = #[trigger] renumber_rules(merges, idx)[i];
                &&& r.result.0 == 256 + i
                &&& (r.left.0 as int) < 256 + i
                &&& (r.right.0 as int) < 256 + i
                &&& vocab.remove(idx)[256 + i] == vocab.remove(idx)[r.left.0 as int]
                    + vocab.remove(idx)[r.right.0 as int]
            },
{
    let v2 = vocab.remove(idx);
    let m2 = renumber_rules(merges, idx);
    let d = idx - 256;
    assert(forall|i: int| 0 <= i < idx ==> v2[i] == vocab[i]);
    assert(forall|i: int| idx <= i < v2.len() ==> v2[i] == vocab[i + 1]);
    assert(forall|j: int| 0 <= j < d ==> merges.remove(d)[j] == merges[j]);
    assert(forall|j: int|
        d <= j < merges.remove(d).len() ==> merges.remove(d)[j] == merges[j + 1]);
    assert forall|i: int| 0 <= i < m2.len() implies {
        let r = #[trigger] m2[i];
        &&& r.result.0 == 256 + i
        &&& (r.left.0 as int) < 256 + i
        &&& (r.right.0 as int) < 256 + i
        &&& v2[256 + i] == v2[r.left.0 as int] + v2[r.right.0 as int]
    } by {
        let p = if i < d {
            i
        } else {
            i + 1
        };
        let orig = merges[p];
        assert(m2[i] == MergeRule {
            left: shift_token(orig.left, idx),
            right: shift_token(orig.right, idx),
            result: shift_token(orig.result, idx),
        });
        assert(orig.result.0 == 256 + p);
        assert(orig.left.0 != idx && orig.right.0 != idx);
        assert(v2[256 + i] == vocab[256 + p]);
        assert(v2[shift_token(orig.left, idx).0 as int] == vocab[orig.left.0 as int]);
        assert(v2[shift_token(orig.right, idx).0 as int] == vocab[orig.right.0 as int]);
    }
}

/// Prefixing a parse result, `None` passing through.
spec fn prepend_parsed(acc: Seq<(u16, u16, u16)>, rest: Option<Seq<(u16, u16, u16)>>) -> Option<
    Seq<(u16, u16, u16)>,
> {
    match rest {
        Option::None => None,
        Option::Some(r) => Some(acc + r),
    }
}

/// Parses the whole log text, as `parse_log_spec` describes.
fn parse_log(bytes: &Vec<u8>) -> (r: Option<Vec<(u16, u16, u16)>>)
    ensures
        parse_log_spec(bytes@) is None ==> r is None,
        parse_log_spec(bytes@) matches Some(ts) ==> r matches Some(v) && v@ == ts,
{
    let n = bytes.len();
    let mut acc: Vec<(u16, u16, u16)> = Vec::new();
    let mut p: usize = 0;
    proof {
        assert(bytes@.skip(0) =~= bytes@);
        assert(Seq::<(u16, u16, u16)>::empty() + parse_log_spec(bytes@)->Some_0 =~= parse_log_spec(
            bytes@,
        )->Some_0);
    }
    while p < n
        invariant
            p <= n,
            n == bytes@.len(),
            parse_log_spec(bytes@) == prepend_parsed(acc@, parse_log_spec(bytes@.skip(p as int))),
        decreases n - p,
    {
        let ghost suffix = bytes@.skip(p as int);
        let nl = find_byte_exec(bytes, 10, p);
        proof {
            lemma_find_byte_skip(bytes@, 10, p as int, 0);
            assert(find_byte(suffix, 10, 0) == nl - p);
        }
        let mut line: Vec<u8> = Vec::new();
        let mut q = p;
        while q < nl
            invariant
                p <= q <= nl <= n,
                n == bytes@.len(),
                line@ == bytes@.subrange(p as int, q as int),
            decreases nl - q,
        {
            let b = bytes[q];
            line.push(b);
            proof {
                assert(line@ =~= bytes@.subrange(p as int, q + 1));
            }
            q = q + 1;
        }
        proof {
            assert(suffix.subrange(0, nl - p) =~= bytes@.subrange(p as int, nl as int));
            assert(line@ == suffix.subrange(0, nl - p));
        }
        match parse_line(&line) {
            Option::None => {
                return None;
            },
            Option::Some(t) => {
                let ghost acc_prev = acc@;
                acc.push(t);
                if nl == n {
                    proof {
                        assert(parse_log_spec(suffix) == Some(seq![t]));
                        assert(bytes@.skip(n as int) =~= Seq::<u8>::empty());
                        assert(parse_log_spec(bytes@.skip(n as int)) == Some(
                            Seq::<(u16, u16, u16)>::empty(),
                        ));
                        assert(acc_prev + seq![t] =~= acc@);
                        assert(acc@ + Seq::<(u16, u16, u16)>::empty() =~= acc@);
                    }
                    p = n;
                } else {
                    proof {
                        assert(suffix.skip(nl - p + 1) =~= bytes@.skip(nl + 1));
                    }
                    p = nl + 1;
                    proof {
                        let tail = parse_log_spec(bytes@.skip(p as int));
                        match tail {
                            Option::None => {
                                assert(parse_log_spec(suffix) is None);
                            },
                            Option::Some(rest) => {
                                assert(parse_log_spec(suffix) == Some(seq![t] + rest));
                                assert(acc_prev + (seq![t] + rest) =~= acc@ + rest);
                            },
                        }
                    }
                }
            },
        }
    }
    proof {
        assert(bytes@.skip(n as int) =~= Seq::<u8>::empty());
        assert(parse_log_spec(bytes@.skip(n as int)) == Some(Seq::<(u16, u16, u16)>::empty()));
        assert(acc@ + Seq::<(u16, u16, u16)>::empty() =~= acc@);
    }
    Some(acc)
}

/// A byte-for-byte copy of a byte string.
fn clone_bytes(v: &Vec<u8>) -> (out: Vec<u8>)
    ensures
        out@ == v@,
{
    let out = v.clone();
    proof {
        assert(out@ =~= v@);
    }
    out
}

/// The canonical digits of a non-negative number are nonempty digits.
proof fn lemma_dec_digits_are_digits(n: int)
    requires
        n >= 0,
    ensures
        dec_digits(n).len() >= 1,
        all_digits(dec_digits(n)),
    decreases n,
{
    if n >= 10 {
        lemma_dec_digits_are_digits(n / 10);
        let d = dec_digits(n);
        let prefix = dec_digits(n / 10);
        assert forall|i: int| 0 <= i < d.len() implies is_digit(#[trigger] d[i]) by {
            if i < prefix.len() {
                assert(d[i] == prefix[i]);
            }
        }
    }
}

/// Reading back the canonical digits of `n` gives `n`.
proof fn lemma_dec_value_of_digits(n: int)
    requires
        n >= 0,
    ensures
        dec_value(dec_digits(n)) == n,
    decreases n,
{
    if n < 10 {
        let d = dec_digits(n);
        assert(d.drop_last() =~= Seq::<u8>::empty());
        assert(dec_value(Seq::<u8>::empty()) == 0);
        assert(dec_value(d) == dec_value(d.drop_last()) * 10 + (d.last() - 48));
        assert(d.last() == (48 + n) as u8);
    } else {
        lemma_dec_value_of_digits(n / 10);
        let d = dec_digits(n);
        assert(d.drop_last() =~= dec_digits(n / 10));
        assert(d.last() == 48 + n % 10);
    }
}

/// The body of a log line: the three ids without the trailing newline.
spec fn line_body(rule: MergeRule) -> Seq<u8> {
    dec_digits(rule.left.0 as int) + seq![32u8] + dec_digits(rule.right.0 as int) + seq![32u8]
        + dec_digits(rule.result.0 as int)
}

/// A rendered line body parses back to the rule's id triple.
proof fn lemma_parse_line_of_body(rule: MergeRule)
    ensures
        parse_line_spec(line_body(rule)) == Some((rule.left.0, rule.right.0, rule.result.0)),
{
    let d1 = dec_digits(rule.left.0 as int);
    let d2 = dec_digits(rule.right.0 as int);
    let d3 = dec_digits(rule.result.0 as int);
    lemma_dec_digits_are_digits(rule.left.0 as int);
    lemma_dec_digits_are_digits(rule.right.0 as int);
    lemma_dec_digits_are_digits(rule.result.0 as int);
    lemma_dec_value_of_digits(rule.left.0 as int);
    lemma_dec_value_of_digits(rule.right.0 as int);
    lemma_dec_value_of_digits(rule.result.0 as int);
    let s = line_body(rule);
    let i = d1.len() as int;
    let j = i + 1 + d2.len() as int;
    assert(s[i] == 32);
    assert(s[j] == 32);
    assert forall|k: int| 0 <= k < i implies s[k] != 32 by {
        assert(s[k] == d1[k]);
        assert(is_digit(d1[k]));
    }
    assert forall|k: int| i + 1 <= k < j implies s[k] != 32 by {
        assert(s[k] == d2[k - i - 1]);
        assert(is_digit(d2[k - i - 1]));
    }
    lemma_find_byte_first(s, 32, 0, i);
    lemma_find_byte_first(s, 32, i + 1, j);
    assert(s.subrange(0, i) =~= d1);
    assert(s.subrange(i + 1, j) =~= d2);
    assert(s.subrange(j + 1, s.len() as int) =~= d3);
}

/// A rendered log parses back to the rule list's id triples.
pub proof fn lemma_parse_of_render(rules: Seq<MergeRule>)
    ensures
        parse_log_spec(render_spec(rules)) == Some(triples_of(rules)),
    decreases rules.len(),
{
    if rules.len() == 0 {
        assert(triples_of(rules) =~= Seq::<(u16, u16, u16)>::empty());
    } else {
        let rule = rules.first();
        let rest = rules.drop_first();
        lemma_parse_of_render(rest);
        let body = line_body(rule);
        let s = render_spec(rules);
        assert(s == line_spec(rule) + render_spec(rest));
        assert(line_spec(rule) =~= body + seq![10u8]);
        lemma_dec_digits_are_digits(rule.left.0 as int);
        lemma_dec_digits_are_digits(rule.right.0 as int);
        lemma_dec_digits_are_digits(rule.result.0 as int);
        let i = body.len() as int;
        assert(s[i] == 10);
        assert forall|k: int| 0 <= k < i implies s[k] != 10 by {
            assert(s[k] == body[k]);
            let d1 = dec_digits(rule.left.0 as int);
            let d2 = dec_digits(rule.right.0 as int);
            let d3 = dec_digits(rule.result.0 as int);
            if k < d1.len() {
                assert(body[k] == d1[k]);
                assert(is_digit(d1[k]));
            } else if k == d1.len() {
                assert(body[k] == 32);
            } else if k < d1.len() + 1 + d2.len() {
                assert(body[k] == d2[k - d1.len() - 1]);
                assert(is_digit(d2[k - d1.len() - 1]));
            } else if k == d1.len() + 1 + d2.len() {
                assert(body[k] == 32);
            } else {
                assert(body[k] == d3[k - d1.len() - d2.len() - 2]);
                assert(is_digit(d3[k - d1.len() - d2.len() - 2]));
            }
        }
        lemma_find_byte_first(s, 10, 0, i);
        assert(s.subrange(0, i) =~= body);
        lemma_parse_line_of_body(rule);
        assert(i < s.len());
        assert(s.skip(i + 1) =~= render_spec(rest));
        let t = (rule.left.0, rule.right.0, rule.result.0);
        assert(parse_log_spec(s) == Some(seq![t] + triples_of(rest)));
        assert(seq![t] + triples_of(rest) =~= triples_of(rules));
    }
}

/// A well-formed state's triples are replayable, and carry exactly its
/// rules.
pub proof fn lemma_triples_of_wf_state(s: BpeState)
    requires
        s.wf(),
    ensures
        triples_wf(triples_of(s.merges_spec())),
        rules_of_triples(triples_of(s.merges_spec())) == s.merges_spec(),
{
    assert(rules_of_triples(triples_of(s.merges_spec())) =~= s.merges_spec());
}

/// Two well-formed states over the same rules agree on the first `n` byte
/// strings.
proof fn lemma_vocab_eq_upto(a: BpeState, b: BpeState, n: int)
    requires
        a.wf(),
        b.wf(),
        a.merges_spec() == b.merges_spec(),
        0 <= n <= a.vocab_spec().len(),
    ensures
        forall|i: int| 0 <= i < n ==> a.vocab_spec()[i] == b.vocab_spec()[i],
    decreases n,
{
    if n > 0 {
        lemma_vocab_eq_upto(a, b, n - 1);
        let i = n - 1;
        if i >= 256 {
            let r = a.merges_spec()[i - 256];
            assert(a.vocab_spec()[i] == a.vocab_spec()[r.left.0 as int] + a.vocab_spec()[r.right.0 as int]);
            assert(b.vocab_spec()[i] == b.vocab_spec()[r.left.0 as int] + b.vocab_spec()[r.right.0 as int]);
        }
    }
}

/// The byte strings of a well-formed state are determined by its rule list:
/// after any round trip through the log, every token's byte string is
/// identical.
pub proof fn lemma_vocab_determined_by_rules(a: BpeState, b: BpeState)
    requires
        a.wf(),
        b.wf(),
        a.merges_spec() == b.merges_spec(),
    ensures
        a.vocab_spec() == b.vocab_spec(),
{
    lemma_vocab_eq_upto(a, b, a.vocab_spec().len() as int);
    assert(a.vocab_spec() =~= b.vocab_spec());
}

/// `render_spec` distributes over concatenation of rule lists.
proof fn lemma_render_concat(a: Seq<MergeRule>, b: Seq<MergeRule>)
    ensures
        render_spec(a + b) == render_spec(a) + render_spec(b),
    decreases a.len(),
{
    if a.len() == 0 {
        assert(a + b =~= b);
        assert(render_spec(a) + render_spec(b) =~= render_spec(b));
    } else {
        assert((a + b).drop_first() =~= a.drop_first() + b);
        lemma_render_concat(a.drop_first(), b);
        assert(render_spec(a + b) =~= render_spec(a) + render_spec(b));
    }
}

} // verus!
