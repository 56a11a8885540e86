//! The search engine facade: one record store and one match configuration,
//! exposing the operations the host consumes — load, add, remove, search.

use vstd::prelude::*;
use vstd::utf8::{decode_utf8, encode_utf8, valid_utf8};

use crate::codec;
use crate::rank;
use crate::record::{Record, RecordView};
use crate::score;
use crate::score::{FieldWeightScheme, MatchConfig};
use crate::store::{keeps_other_id, RecordStore};

verus! {

/// The documented default match tolerance: a match is expected near the
/// start of a field, with a generous positional decay, moderate search
/// effort, case folding, and the query taken as one literal pattern.
pub open spec fn default_match_config() -> MatchConfig {
    MatchConfig {
        location: 0,
        distance: 100,
        threshold_permille: 400,
        max_pattern_length: 32,
        case_sensitive: false,
        tokenize: false,
    }
}

/// The reference field weights: title six tenths, url four tenths.
pub open spec fn default_weights() -> FieldWeightScheme {
    FieldWeightScheme { title_weight: 600, url_weight: 400 }
}

/// The aggregate score of every record against an already-truncated query,
/// by store position.
pub open spec fn search_scores(
    cfg: MatchConfig,
    w: FieldWeightScheme,
    q: Seq<char>,
    recs: Seq<RecordView>,
) -> Seq<u64> {
    Seq::new(recs.len(), |k: int| score::record_score_millionths(cfg, w, q, recs[k]) as u64)
}

/// The byte buffer a search returns: every record is scored against the
/// truncated query, all records are ranked ascending by score with ties in
/// insertion order, those at or above the relevance cutoff are dropped, and
/// the survivors are encoded as `url NUL title` lines in rank order.
pub open spec fn search_output(
    cfg: MatchConfig,
    w: FieldWeightScheme,
    query: Seq<char>,
    recs: Seq<RecordView>,
) -> Seq<u8> {
    let scores = search_scores(cfg, w, score::truncated_query(query), recs);
    encode_utf8(codec::output_content(recs, rank::surviving_ranked(scores)))
}

/// The engine: a record store, a match configuration and a weight scheme,
/// owned exclusively; every operation completes fully before returning.
pub struct SearchEngine {
    config: MatchConfig,
    weights: FieldWeightScheme,
    store: RecordStore,
}

impl SearchEngine {
    /// The engine's match configuration.
    pub closed spec fn match_config(&self) -> MatchConfig {
        self.config
    }

    /// The engine's field weight scheme.
    pub closed spec fn weight_scheme(&self) -> FieldWeightScheme {
        self.weights
    }

    /// The records the engine currently holds, in insertion order.
    pub closed spec fn records(&self) -> Seq<RecordView> {
        self.store@
    }

    /// The engine's invariant: its configuration and weights can be handed
    /// to the matcher. Established by `new` and preserved by every
    /// operation.
    pub open spec fn wf(&self) -> bool {
        self.match_config().well_formed() && self.weight_scheme().well_formed()
    }

    /// An engine with an empty store and the documented defaults.
    pub fn new() -> (e: Self)
        ensures
            e.wf(),
            e.records() == Seq::<RecordView>::empty(),
            e.match_config() == default_match_config(),
            e.weight_scheme() == default_weights(),
    {
        SearchEngine {
            config: MatchConfig {
                location: 0,
                distance: 100,
                threshold_permille: 400,
                max_pattern_length: 32,
                case_sensitive: false,
                tokenize: false,
            },
            weights: FieldWeightScheme { title_weight: 600, url_weight: 400 },
            store: RecordStore::new(),
        }
    }

    /// Replaces the whole store with the records decoded from `buffer`.
    /// If the buffer is not valid UTF-8 the store is left completely
    /// unchanged; malformed lines in a valid buffer are dropped
    /// individually, and a valid buffer with no well-formed line installs
    /// an empty store.
    pub fn load_dataset(&mut self, buffer: &[u8])
        ensures
            final(self).match_config() == old(self).match_config(),
            final(self).weight_scheme() == old(self).weight_scheme(),
            valid_utf8(buffer@) ==> final(self).records() == codec::parse_content(
                decode_utf8(buffer@),
            ),
            !valid_utf8(buffer@) ==> final(self).records() == old(self).records(),
    {
        match codec::decode_records(buffer) {
            Some(records) => self.store.replace(records),
            None => {},
        }
    }

    /// Appends the records decoded from `buffer` after the current end,
    /// preserving their order; identifiers may duplicate existing ones. If
    /// the buffer is not valid UTF-8 the store is left completely
    /// unchanged.
    pub fn add_entries(&mut self, buffer: &[u8])
        ensures
            final(self).match_config() == old(self).match_config(),
            final(self).weight_scheme() == old(self).weight_scheme(),
            valid_utf8(buffer@) ==> final(self).records() == old(self).records()
                + codec::parse_content(decode_utf8(buffer@)),
            !valid_utf8(buffer@) ==> final(self).records() == old(self).records(),
    {
        match codec::decode_records(buffer) {
            Some(records) => self.store.append(records),
            None => {},
        }
    }

    /// Removes every record whose identifier equals `id`, preserving the
    /// relative order of the survivors. A no-op if nothing matches.
    pub fn remove_entry(&mut self, id: &str)
        ensures
            final(self).match_config() == old(self).match_config(),
            final(self).weight_scheme() == old(self).weight_scheme(),
            final(self).records() == old(self).records().filter(keeps_other_id(id@)),
    {
        self.store.remove_by_id(id);
    }

    /// How many records the engine currently holds.
    pub fn record_count(&self) -> (n: usize)
        ensures
            n == self.records().len(),
    {
        self.store.len()
    }

    /// A read-only view of the record at store position `i`.
    pub fn record(&self, i: usize) -> (r: &Record)
        requires
            i < self.records().len(),
        ensures
            r@ == self.records()[i as int],
    {
        self.store.get(i)
    }

    /// Scores every record against `query`, ranks them ascending by score
    /// (ties in insertion order), drops everything at or above the
    /// relevance cutoff and returns the survivors as an output buffer.
    /// The store is never mutated; no record survives with a score at or
    /// above the cutoff; an empty buffer comes back when nothing survives.
    pub fn search(&self, query: &str) -> (out: Vec<u8>)
        requires
            self.wf(),
        ensures
            out@ == search_output(self.match_config(), self.weight_scheme(), query@, self.records()),
    {
        let pattern = score::truncate_query(query);
        let ghost q = score::truncated_query(query@);
        let ghost expected = search_scores(self.config, self.weights, q, self.store@);
        let n = self.store.len();
        let mut scores: Vec<u64> = Vec::new();
        let mut i: usize = 0;
        while i < n
            invariant
                self.wf(),
                n == self.records().len(),
                pattern@ == q,
                encode_utf8(pattern@).len() <= score::MAX_PATTERN_BYTES,
                expected == search_scores(self.config, self.weights, q, self.store@),
                i <= n,
                scores@.len() == i,
                forall|k: int| 0 <= k < i ==> scores@[k] == expected[k],
            decreases n - i,
        {
            let m = score::score_record(&self.config, &self.weights, pattern, self.store.get(i));
            scores.push(m);
            i += 1;
        }
        proof {
            assert(scores@ =~= expected);
        }
        let ranked = rank::rank(&scores);
        let ghost rv = ranked@.map_values(|x: usize| x as int);
        proof {
            rank::lemma_rank_properties(scores@);
        }
        let mut survivors: Vec<usize> = Vec::new();
        let rn = ranked.len();
        let mut j: usize = 0;
        proof {
            assert(rv.take(0).filter(rank::below_cutoff(scores@)) =~= Seq::<int>::empty()) by {
                reveal(Seq::filter);
            }
            assert(survivors@.map_values(|x: usize| x as int) =~= Seq::<int>::empty());
        }
        while j < rn
            invariant
                rn == ranked@.len(),
                rv == ranked@.map_values(|x: usize| x as int),
                rv == rank::rank_indices(scores@),
                scores@ == expected,
                scores@.len() == n,
                n == self.records().len(),
                forall|k: int| 0 <= k < rv.len() ==> 0 <= #[trigger] rv[k] < n,
                j <= rn,
                forall|k: int| 0 <= k < survivors@.len() ==> #[trigger] survivors@[k] < n,
                survivors@.map_values(|x: usize| x as int) == rv.take(j as int).filter(
                    rank::below_cutoff(scores@),
                ),
            decreases rn - j,
        {
            let ghost prefix = rv.take(j as int);
            let ghost sv = survivors@.map_values(|x: usize| x as int);
            let cand = ranked[j];
            proof {
                assert(rv[j as int] == ranked@[j as int] as int);
            }
            let keep = scores[cand] < rank::RELEVANCE_CUTOFF;
            if keep {
                survivors.push(cand);
            }
            proof {
                let cur = rv.take(j + 1);
                assert(cur =~= prefix.push(rv[j as int]));
                assert(cur.drop_last() == prefix);
                assert(cur.last() == rv[j as int]);
                let pred = rank::below_cutoff(scores@);
                assert(keep == pred(rv[j as int]));
                reveal(Seq::filter);
                if keep {
                    assert(cur.filter(pred) == prefix.filter(pred).push(cur.last()));
                    assert(survivors@.map_values(|x: usize| x as int) =~= sv.push(rv[j as int]));
                } else {
                    assert(cur.filter(pred) == prefix.filter(pred));
                    assert(survivors@.map_values(|x: usize| x as int) == sv);
                }
            }
            j += 1;
        }
        proof {
            assert(rv.take(rn as int) =~= rv);
        }
        codec::encode_results(&self.store, &survivors)
    }
}

} // verus!
