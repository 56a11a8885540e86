//! Scoring: per-field approximate-match scores from the `fuse_rust` engine,
//! decoded into exact fixed-point millionths, and their weighted per-record
//! aggregation.
//!
//! A score is a relevance measure in `[0, 1]`: `0` is an exact match at the
//! expected position, `1` no viable alignment. The matcher hands scores back
//! as IEEE 754 bit patterns; `score_millionths` maps such a pattern to
//! `floor(value * 1_000_000)`, clamped into `[0, 1_000_000]`, and all
//! aggregation, ranking and the relevance cutoff work on those exact
//! integers. Values closer than a millionth collapse into one rank, where
//! insertion order decides.

use vstd::arithmetic::div_mod::{lemma_basic_div, lemma_multiply_divide_lt};
use vstd::arithmetic::power2::{
    lemma2_to64, lemma2_to64_rest, lemma_pow2_adds, lemma_pow2_strictly_increases, lemma_pow2_unfold, pow2,
};
use vstd::prelude::*;
use vstd::string::StringSliceAdditionalSpecFns;
use vstd::utf8::{decode_utf8, encode_utf8, is_char_boundary, valid_utf8};

verus! {

/// The worst (and largest representable) score: no similarity at all.
pub const WORST_SCORE: u64 = 1_000_000;

/// Field text longer than this many UTF-8 bytes is never handed to the
/// matcher and scores worst; it keeps the matcher's internal 32-bit
/// position arithmetic in range.
pub const MAX_TEXT_BYTES: usize = 0x3000_0000;

/// The queried pattern is cut to at most this many UTF-8 bytes before
/// matching; the matcher's bit-parallel algorithm holds one mask bit per
/// pattern byte after case folding, and folding at most doubles the byte
/// length, so the folded pattern stays within its 64-bit mask.
pub const MAX_PATTERN_BYTES: usize = 32;

/// Match tolerance configuration.
///
/// `location` and `distance` parameterize where in the field text a match is
/// expected to start and how quickly relevance decays with positional drift;
/// `distance = 1` all but demands the expected position. `threshold_permille`
/// holds the internal search-effort threshold in `[0, 1]`, in per-mille units
/// (it bounds the alignments the matcher explores, not the output).
/// `max_pattern_length` is carried for the matcher's configuration record.
#[derive(Clone, Copy)]
pub struct MatchConfig {
    pub location: i32,
    pub distance: i32,
    pub threshold_permille: u32,
    pub max_pattern_length: i32,
    pub case_sensitive: bool,
    pub tokenize: bool,
}

impl MatchConfig {
    /// A configuration the engine can hand to the matcher: a non-negative,
    /// moderate expected position (so the matcher's 32-bit position sums
    /// cannot overflow) and a positive decay distance (the matcher divides
    /// positional drift by it).
    pub open spec fn well_formed(self) -> bool {
        &&& 0 <= self.location <= 0x3fff_ffff
        &&& self.distance >= 1
    }
}

/// Relative contribution of each record field to the aggregate score, in
/// per-mille units.
#[derive(Clone, Copy)]
pub struct FieldWeightScheme {
    pub title_weight: u32,
    pub url_weight: u32,
}

impl FieldWeightScheme {
    /// Weights an aggregate can be formed from: something is weighted, and
    /// each weight stays in the per-mille range.
    pub open spec fn well_formed(self) -> bool {
        &&& self.title_weight <= 1000
        &&& self.url_weight <= 1000
        &&& self.title_weight + self.url_weight > 0
    }
}

/// What `fuse_rust::Fuse::search_text_in_string` returns for a given
/// configuration, query and text: `None` when nothing in the text resembles
/// the query (or the query is empty), otherwise the bit pattern of the
/// relevance score. The crate computes it from its arguments alone, so the
/// result is a function of them.
pub uninterp spec fn fuse_score_bits(
    location: i32,
    distance: i32,
    threshold_permille: u32,
    case_sensitive: bool,
    tokenize: bool,
    query: Seq<char>,
    text: Seq<char>,
) -> Option<u64>;

/// Relies on `fuse_rust::Fuse::search_text_in_string`: scoring is a pure
/// function of the configuration, the query and the text, and an empty
/// query yields no pattern and scores `None`. The per-mille threshold is
/// converted to the fraction the matcher's configuration record wants, and
/// the returned score to its bit pattern. The `requires` keep out the
/// inputs on which the crate panics or divides by zero: a pattern that
/// could exceed 64 bytes after case folding (its bit mask would overflow),
/// a non-empty query against empty text (its match-range extraction
/// rejects an empty mask), an oversized text or far location (32-bit
/// position sums), and a zero distance (drift is divided by it).
#[verifier::external_body]
fn fuse_search_bits(cfg: &MatchConfig, query: &str, text: &str) -> (r: Option<u64>)
    requires
        cfg.well_formed(),
        encode_utf8(query@).len() <= MAX_PATTERN_BYTES,
        query@.len() == 0 || 0 < encode_utf8(text@).len() <= MAX_TEXT_BYTES,
    ensures
        r == fuse_score_bits(
            cfg.location,
            cfg.distance,
            cfg.threshold_permille,
            cfg.case_sensitive,
            cfg.tokenize,
            query@,
            text@,
        ),
        query@.len() == 0 ==> r is None,
{
    let mut engine = fuse_rust::Fuse {
        location: cfg.location,
        distance: cfg.distance,
        threshold: cfg.threshold_permille.into(),
        max_pattern_length: cfg.max_pattern_length,
        is_case_sensitive: cfg.case_sensitive,
        tokenize: cfg.tokenize,
    };
    let mut scale = engine.threshold;
    scale = 1000u32.into();
    engine.threshold = engine.threshold / scale;
    engine.search_text_in_string(query, text).map(|sr| sr.score.to_bits())
}

/// `floor(value * 1_000_000)` of the finite non-negative IEEE 754 double
/// with bit pattern `bits`, clamped into `[0, 1_000_000]`.
///
/// Values at or above one (and the non-finite patterns, whose exponent
/// field is maximal) clamp to the worst score; a set sign bit clamps to
/// zero; subnormal magnitudes are far below one millionth, so they floor
/// to zero (the formula keeps the implicit mantissa bit, which changes no
/// rounded result there).
pub open spec fn score_millionths(bits: u64) -> int {
    let exp = ((bits >> 52) & 0x7ff) as int;
    let frac = (bits & 0x000f_ffff_ffff_ffff) as int;
    if bits & 0x8000_0000_0000_0000 != 0 {
        0
    } else if exp >= 1023 {
        WORST_SCORE as int
    } else if exp == 0 {
        0
    } else {
        (frac + 0x0010_0000_0000_0000) * 1_000_000 / pow2((1075 - exp) as nat) as int
    }
}

/// Two raised to `e`, as a 128-bit value.
fn pow2_u128(e: u64) -> (d: u128)
    requires
        e <= 72,
    ensures
        d == pow2(e as nat),
{
    proof {
        lemma2_to64();
        lemma2_to64_rest();
        lemma_pow2_adds(64, 8);
    }
    let mut d: u128 = 1;
    let mut k: u64 = 0;
    while k < e
        invariant
            k <= e <= 72,
            d == pow2(k as nat),
            pow2(72) == 0x1000000000000000000,
        decreases e - k,
    {
        proof {
            lemma_pow2_unfold((k + 1) as nat);
            if k + 1 < 72 {
                lemma_pow2_strictly_increases((k + 1) as nat, 72);
            }
        }
        d = d * 2;
        k = k + 1;
    }
    d
}

/// Decodes a score bit pattern into exact millionths.
pub fn score_millionths_exec(bits: u64) -> (m: u64)
    ensures
        m == score_millionths(bits),
        m <= WORST_SCORE,
{
    if bits & 0x8000_0000_0000_0000u64 != 0 {
        return 0;
    }
    let exp: u64 = (bits >> 52u64) & 0x7ff;
    let frac: u64 = bits & 0x000f_ffff_ffff_ffff;
    proof {
        assert((bits >> 52u64) & 0x7ff < 0x800) by (bit_vector);
        assert(bits & 0x000f_ffff_ffff_ffff < 0x0010_0000_0000_0000) by (bit_vector);
    }
    if exp >= 1023 {
        return WORST_SCORE;
    }
    if exp == 0 {
        return 0;
    }
    let shift: u64 = 1075 - exp;
    let mant: u128 = frac as u128 + 0x0010_0000_0000_0000;
    let scaled: u128 = mant * 1_000_000;
    proof {
        lemma2_to64();
        lemma2_to64_rest();
        lemma_pow2_adds(53, 20);
        assert(mant < pow2(53));
        assert(scaled < pow2(53) * 0x100000);
    }
    if shift >= 73 {
        proof {
            if shift > 73 {
                lemma_pow2_strictly_increases(73, shift as nat);
            }
            lemma_basic_div(scaled as int, pow2(shift as nat) as int);
        }
        return 0;
    }
    let d = pow2_u128(shift);
    proof {
        lemma_pow2_adds(53, (shift - 53) as nat);
        if shift > 53 {
            lemma_pow2_strictly_increases(53, shift as nat);
        }
        assert(mant < d);
        assert(scaled < d * 1_000_000);
        lemma_multiply_divide_lt(scaled as int, d as int, 1_000_000);
    }
    let q: u128 = scaled / d;
    q as u64
}

/// The score of one field text against the query, in millionths: worst when
/// the query is empty, the field empty or oversized, or the matcher found
/// nothing; otherwise the matcher's score, floored into millionths.
pub open spec fn field_score_millionths(cfg: MatchConfig, query: Seq<char>, text: Seq<char>) -> int {
    if query.len() == 0 || encode_utf8(text).len() == 0 || encode_utf8(text).len() > MAX_TEXT_BYTES {
        WORST_SCORE as int
    } else {
        match fuse_score_bits(
            cfg.location,
            cfg.distance,
            cfg.threshold_permille,
            cfg.case_sensitive,
            cfg.tokenize,
            query,
            text,
        ) {
            Some(bits) => score_millionths(bits),
            None => WORST_SCORE as int,
        }
    }
}

/// Scores one field text against the query.
pub fn field_score(cfg: &MatchConfig, query: &str, text: &str) -> (m: u64)
    requires
        cfg.well_formed(),
        encode_utf8(query@).len() <= MAX_PATTERN_BYTES,
    ensures
        m == field_score_millionths(*cfg, query@, text@),
        m <= WORST_SCORE,
{
    if query.is_empty() || text.is_empty() || text.as_bytes().len() > MAX_TEXT_BYTES {
        proof {
            if text@.len() == 0 {
                assert(encode_utf8(text@) =~= Seq::<u8>::empty());
            }
        }
        return WORST_SCORE;
    }
    proof {
        vstd::utf8::encode_utf8_decode_utf8(text@);
        if encode_utf8(text@).len() == 0 {
            assert(encode_utf8(text@) =~= Seq::<u8>::empty());
            assert(decode_utf8(Seq::<u8>::empty()) =~= Seq::<char>::empty());
            assert(text@.len() == 0);
        }
    }
    match fuse_search_bits(cfg, query, text) {
        None => WORST_SCORE,
        Some(bits) => score_millionths_exec(bits),
    }
}

/// The aggregate score of a record: the weighted sum of its per-field
/// scores, normalized by the weight sum (weights need not total one).
pub open spec fn record_score_millionths(
    cfg: MatchConfig,
    w: FieldWeightScheme,
    query: Seq<char>,
    r: crate::record::RecordView,
) -> int {
    (w.title_weight * field_score_millionths(cfg, query, r.title) + w.url_weight
        * field_score_millionths(cfg, query, r.url)) / (w.title_weight + w.url_weight) as int
}

/// Scores one record against the query.
pub fn score_record(
    cfg: &MatchConfig,
    w: &FieldWeightScheme,
    query: &str,
    r: &crate::record::Record,
) -> (m: u64)
    requires
        cfg.well_formed(),
        w.well_formed(),
        encode_utf8(query@).len() <= MAX_PATTERN_BYTES,
    ensures
        m == record_score_millionths(*cfg, *w, query@, r@),
        m <= WORST_SCORE,
{
    let t = field_score(cfg, query, r.title.as_str());
    let u = field_score(cfg, query, r.url.as_str());
    let tw = w.title_weight as u64;
    let uw = w.url_weight as u64;
    proof {
        assert(tw * t <= 1000 * 1_000_000 && uw * u <= 1000 * 1_000_000) by (nonlinear_arith)
            requires
                tw <= 1000 && uw <= 1000 && t <= 1_000_000 && u <= 1_000_000,
        ;
        assert(tw * t + uw * u < (tw + uw) * 1_000_001) by (nonlinear_arith)
            requires
                t <= 1_000_000 && u <= 1_000_000 && tw + uw > 0,
        ;
        lemma_multiply_divide_lt((tw * t + uw * u) as int, (tw + uw) as int, 1_000_001);
    }
    (tw * t + uw * u) / (tw + uw)
}

/// The truncation point of a query: its full byte length when within the
/// pattern budget, else the nearest character boundary at or below it.
pub open spec fn boundary_at_or_below(bytes: Seq<u8>, i: int) -> int
    decreases i,
{
    if i <= 0 {
        0
    } else if is_char_boundary(bytes, i) {
        i
    } else {
        boundary_at_or_below(bytes, i - 1)
    }
}

/// How many leading UTF-8 bytes of the query are kept.
pub open spec fn query_cut(q: Seq<char>) -> int {
    let bytes = encode_utf8(q);
    if bytes.len() <= MAX_PATTERN_BYTES {
        bytes.len() as int
    } else {
        boundary_at_or_below(bytes, MAX_PATTERN_BYTES as int)
    }
}

/// The query as matched: cut to the pattern budget at a character boundary.
pub open spec fn truncated_query(q: Seq<char>) -> Seq<char> {
    decode_utf8(encode_utf8(q).subrange(0, query_cut(q)))
}

/// Cuts an over-long query to the pattern budget, at a character boundary.
pub fn truncate_query<'a>(q: &'a str) -> (r: &'a str)
    ensures
        r@ == truncated_query(q@),
        encode_utf8(r@).len() <= MAX_PATTERN_BYTES,
{
    proof {
        vstd::utf8::encode_utf8_valid_utf8(q@);
        vstd::utf8::encode_utf8_decode_utf8(q@);
    }
    let ghost bytes = encode_utf8(q@);
    if q.as_bytes().len() <= MAX_PATTERN_BYTES {
        proof {
            assert(bytes.subrange(0, bytes.len() as int) =~= bytes);
        }
        return q;
    }
    let mut cut: usize = MAX_PATTERN_BYTES;
    proof {
        vstd::utf8::is_char_boundary_start_end_of_seq(bytes);
    }
    while !q.is_char_boundary(cut)
        invariant
            0 <= cut <= MAX_PATTERN_BYTES,
            bytes == q.spec_bytes(),
            valid_utf8(bytes),
            is_char_boundary(bytes, 0),
            boundary_at_or_below(bytes, MAX_PATTERN_BYTES as int) == boundary_at_or_below(
                bytes,
                cut as int,
            ),
        decreases cut,
    {
        proof {
            assert(cut != 0);
        }
        cut -= 1;
    }
    proof {
        assert(boundary_at_or_below(bytes, cut as int) == cut);
        assert(query_cut(q@) == cut);
    }
    let (head, _) = q.split_at(cut);
    proof {
        vstd::utf8::encode_utf8_decode_utf8(head@);
        assert(encode_utf8(head@) == bytes.subrange(0, cut as int));
    }
    head
}

} // verus!
