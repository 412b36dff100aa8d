//! Training configuration: the eta threshold scheduler, the target size,
//! and the filters that disqualify candidate merges.

use vstd::prelude::*;

use crate::count::Count;

verus! {

/// Fixed-point scale: a fraction in [0, 1] is stored as an integer in
/// [0, SCALE], in millionths.
pub const SCALE: u64 = 1_000_000;

/// Linear interpolation from `a` to `b`, evaluated at `num / den` of the way,
/// rounding the interpolated step down.
pub open spec fn interp(a: int, b: int, num: int, den: int) -> int {
    if b >= a {
        a + (b - a) * num / den
    } else {
        a - (a - b) * num / den
    }
}

/// Maps training progress t in [0, SCALE] to a threshold fraction in
/// [0, SCALE]: a constant, one linear ramp, or two linear segments joined at
/// a split point.
#[derive(Clone, Copy, PartialEq, Eq, Debug, Structural)]
pub enum EtaScheduler {
    Constant(u64),
    Linear(u64, u64),
    PiecewiseLinearTwo(u64, u64, u64, u64),
}

impl EtaScheduler {
    /// All stored fractions lie in [0, SCALE].
    pub open spec fn wf(self) -> bool {
        match self {
            EtaScheduler::Constant(v) => v <= SCALE,
            EtaScheduler::Linear(start, end) => start <= SCALE && end <= SCALE,
            EtaScheduler::PiecewiseLinearTwo(split, v0, v1, v2) => split <= SCALE && v0 <= SCALE
                && v1 <= SCALE && v2 <= SCALE,
        }
    }

    /// The threshold fraction at progress `t`.
    pub open spec fn for_t_spec(self, t: int) -> int {
        match self {
            EtaScheduler::Constant(v) => v as int,
            EtaScheduler::Linear(start, end) => interp(start as int, end as int, t, SCALE as int),
            EtaScheduler::PiecewiseLinearTwo(split, v0, v1, v2) => if t < split {
                interp(v0 as int, v1 as int, t, split as int)
            } else if split < SCALE {
                interp(v1 as int, v2 as int, t - split, SCALE as int - split)
            } else {
                v1 as int
            },
        }
    }

    /// A scheduler that returns `value` at every progress.
    pub fn constant(value: u64) -> (s: EtaScheduler)
        requires
            value <= SCALE,
        ensures
            s == EtaScheduler::Constant(value),
            s.wf(),
    {
        EtaScheduler::Constant(value)
    }

    /// A scheduler ramping linearly from `start` at progress 0 to `end` at
    /// progress SCALE.
    pub fn linear_transition(start: u64, end: u64) -> (s: EtaScheduler)
        requires
            start <= SCALE,
            end <= SCALE,
        ensures
            s == EtaScheduler::Linear(start, end),
            s.wf(),
    {
        EtaScheduler::Linear(start, end)
    }

    /// A scheduler with two linear segments: from `values[0]` to `values[1]`
    /// over [0, split_point), then from `values[1]` to `values[2]` over
    /// [split_point, SCALE].
    pub fn piecewise_linear_two(split_point: u64, values: [u64; 3]) -> (s: EtaScheduler)
        requires
            split_point <= SCALE,
            values[0] <= SCALE,
            values[1] <= SCALE,
            values[2] <= SCALE,
        ensures
            s == EtaScheduler::PiecewiseLinearTwo(split_point, values[0], values[1], values[2]),
            s.wf(),
    {
        EtaScheduler::PiecewiseLinearTwo(split_point, values[0], values[1], values[2])
    }

    /// Evaluates the scheduler at progress `t`.
    pub fn for_t(&self, t: u64) -> (r: u64)
        requires
            self.wf(),
            t <= SCALE,
        ensures
            r == self.for_t_spec(t as int),
            r <= SCALE,
    {
        match *self {
            EtaScheduler::Constant(v) => v,
            EtaScheduler::Linear(start, end) => interp_exec(start, end, t, SCALE),
            EtaScheduler::PiecewiseLinearTwo(split, v0, v1, v2) => {
                if t < split {
                    interp_exec(v0, v1, t, split)
                } else if split < SCALE {
                    interp_exec(v1, v2, t - split, SCALE - split)
                } else {
                    v1
                }
            },
        }
    }
}

/// Executable counterpart of `interp`, for fractions within [0, SCALE].
fn interp_exec(a: u64, b: u64, num: u64, den: u64) -> (r: u64)
    requires
        a <= SCALE,
        b <= SCALE,
        0 < den <= SCALE,
        num <= den,
    ensures
        r == interp(a as int, b as int, num as int, den as int),
        r <= SCALE,
{
    if b >= a {
        let diff = b - a;
        proof {
            assert(diff as int * num as int <= SCALE as int * SCALE as int) by (nonlinear_arith)
                requires
                    diff <= SCALE,
                    num <= SCALE,
            ;
            assert(diff as int * num as int / den as int <= diff as int) by (nonlinear_arith)
                requires
                    num <= den,
                    0 < den,
            ;
        }
        let step = diff * num / den;
        a + step
    } else {
        let diff = a - b;
        proof {
            assert(diff as int * num as int <= SCALE as int * SCALE as int) by (nonlinear_arith)
                requires
                    diff <= SCALE,
                    num <= SCALE,
            ;
            assert(diff as int * num as int / den as int <= diff as int) by (nonlinear_arith)
                requires
                    num <= den,
                    0 < den,
            ;
        }
        let step = diff * num / den;
        a - step
    }
}

/// Whether any of the given regular-expression patterns matches somewhere in
/// the haystack bytes. Stands for what `regex::bytes::RegexSet::is_match`
/// returns; it depends on the patterns and the haystack alone.
pub uninterp spec fn regex_set_match(patterns: Seq<Seq<char>>, haystack: Seq<u8>) -> bool;

/// A set of byte-oriented regular expressions that disqualify a candidate
/// merge whose resulting byte string they match.
pub struct ForbiddenPatterns {
    patterns: Vec<String>,
    set: regex::bytes::RegexSet,
}

#[verifier::external_type_specification]
#[verifier::external_body]
pub struct ExRegexSet(regex::bytes::RegexSet);

impl ForbiddenPatterns {
    /// The pattern texts this set was built from.
    pub closed spec fn pats_spec(self) -> Seq<Seq<char>> {
        self.patterns.deep_view()
    }

    /// Whether this set matches the haystack.
    pub open spec fn matches_spec(self, haystack: Seq<u8>) -> bool {
        regex_set_match(self.pats_spec(), haystack)
    }

    /// Compiles the given patterns; `None` if one of them is not a valid
    /// regular expression.
    pub fn new(patterns: Vec<String>) -> (r: Option<ForbiddenPatterns>)
        ensures
            r matches Some(fp) ==> fp.pats_spec() == patterns.deep_view(),
    {
        match compile_set(&patterns) {
            Some(set) => Some(ForbiddenPatterns { patterns, set }),
            None => None,
        }
    }

    /// The empty set, which matches nothing.
    pub fn empty() -> (r: ForbiddenPatterns)
        ensures
            r.pats_spec().len() == 0,
    {
        ForbiddenPatterns { patterns: Vec::new(), set: empty_set() }
    }

    /// Tests the haystack against the set.
    pub fn is_match(&self, haystack: &Vec<u8>) -> (r: bool)
        ensures
            r == self.matches_spec(haystack@),
            self.pats_spec().len() == 0 ==> !r,
    {
        set_is_match(self, haystack)
    }
}

/// Relies on `regex::bytes::RegexSet::new`: compiles the patterns into a set,
/// returning `None` if one of them is rejected.
#[verifier::external_body]
fn compile_set(patterns: &Vec<String>) -> (r: Option<regex::bytes::RegexSet>) {
    regex::bytes::RegexSet::new(patterns).ok()
}

/// Relies on `regex::bytes::RegexSet::empty`: the set built from no patterns.
#[verifier::external_body]
fn empty_set() -> (r: regex::bytes::RegexSet) {
    regex::bytes::RegexSet::empty()
}

/// Relies on `regex::bytes::RegexSet::is_match`: whether any pattern of the
/// set matches the haystack. The result is a function of the pattern texts
/// and the haystack alone, here named `regex_set_match`; an empty set never
/// matches anything, as the crate documents.
#[verifier::external_body]
fn set_is_match(fp: &ForbiddenPatterns, haystack: &Vec<u8>) -> (r: bool)
    ensures
        r == regex_set_match(fp.pats_spec(), haystack@),
        fp.pats_spec().len() == 0 ==> !r,
{
    fp.set.is_match(haystack.as_slice())
}

/// The policy knobs of one training run.
pub struct TrainConfig {
    /// Threshold scheduler over training progress.
    pub eta: EtaScheduler,
    /// A candidate merge whose byte string would be longer than this is
    /// skipped.
    pub max_token_length: Option<usize>,
    /// Training stops once this many merge rules exist.
    pub target_vocab_size: usize,
    /// A candidate merge whose byte string matches one of these patterns is
    /// skipped.
    pub forbidden_patterns: ForbiddenPatterns,
}

impl TrainConfig {
    pub open spec fn wf(self) -> bool {
        self.eta.wf()
    }
}

impl Default for TrainConfig {
    /// A constant threshold of one half, no length cap, no forbidden
    /// patterns, and a target of 50 000 merges.
    fn default() -> (c: TrainConfig)
        ensures
            c.eta == EtaScheduler::Constant((SCALE / 2) as u64),
            c.max_token_length is None,
            c.target_vocab_size == 50_000,
            c.forbidden_patterns.pats_spec().len() == 0,
            c.wf(),
    {
        TrainConfig {
            eta: EtaScheduler::Constant(SCALE / 2),
            max_token_length: None,
            target_vocab_size: 50_000,
            forbidden_patterns: ForbiddenPatterns::empty(),
        }
    }
}

/// What one training round reports: how many merge rules it added.
#[derive(Clone, Copy, PartialEq, Eq, Debug, Structural)]
pub struct TrainResult {
    pub new_token_count: Count,
}

} // verus!
