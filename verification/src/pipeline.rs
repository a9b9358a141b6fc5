//! The driver: dictionary and text to the rendered score. Load the
//! weight table (with optional top-K truncation of the dictionary),
//! tokenize the whole text, average the weights of the first N tokens
//! (all of them without a limit), and render six fractional digits.

use vstd::prelude::*;
use crate::dict::DictError;
use crate::dict::build_weight_table;
use crate::dict::dict_entries_of;
use crate::dict::dict_map;
use crate::dict::entry_views;
use crate::dict::keep_len;
use crate::dict::load_frequency_dict;
use crate::dict::spec_max_count;
use crate::score::compute_readability;
use crate::score::spec_fixed6;
use crate::score::sum_counts;
use crate::tokenize::spec_tokens;
use crate::tokenize::tokenize_english_words;

verus! {

/// Why a run produced no score.
#[derive(Clone, Copy, Debug, PartialEq, Eq, Structural)]
pub enum PipelineError {
    /// The dictionary could not be turned into a weight table.
    Dict(DictError),
    /// The text holds no token to score (so no division by zero either).
    NoWords,
}

/// Score a text against an already-extracted dictionary entry list. The
/// result is pinned for every input: the empty-dictionary error exactly
/// when truncation keeps no entry; otherwise the no-words error exactly
/// when no token is considered; otherwise the six-digit rendering of
/// (summed counts of the considered tokens) / (max kept count * their
/// number), counts read from the last-write-wins mapping of the kept
/// entries.
pub fn score_entries(
    entries: &Vec<(String, u64)>,
    text: &str,
    top_k: Option<usize>,
    top_n: Option<usize>,
) -> (r: Result<Vec<char>, PipelineError>)
    ensures
        ({
            let kept = entry_views(entries@).take(keep_len(entries@.len(), top_k) as int);
            let toks = spec_tokens(text@);
            let considered = toks.take(keep_len(toks.len(), top_n) as int);
            if kept.len() == 0 {
                r == Err::<Vec<char>, PipelineError>(PipelineError::Dict(DictError::EmptyDict))
            } else if considered.len() == 0 {
                r == Err::<Vec<char>, PipelineError>(PipelineError::NoWords)
            } else {
                match r {
                    Ok(s) => s@ == spec_fixed6(
                        sum_counts(dict_map(kept), considered),
                        spec_max_count(kept) * considered.len(),
                    ),
                    Err(_) => false,
                }
            }
        }),
{
    let table = match build_weight_table(entries, top_k) {
        Ok(t) => t,
        Err(e) => {
            return Err(PipelineError::Dict(e));
        },
    };
    let tokens = tokenize_english_words(text);
    let score = match compute_readability(&tokens, &table, top_n) {
        Some(s) => s,
        None => {
            return Err(PipelineError::NoWords);
        },
    };
    Ok(score.to_fixed6())
}

/// The whole pipeline on raw inputs: parse the dictionary JSON, read its
/// entries, and score the text against them. The result is pinned for
/// every input, as a function of the two texts and the two limits: the
/// dictionary's parse or shape error, the empty-dictionary error exactly
/// when truncation keeps no entry, the no-words error exactly when no
/// token is considered, and otherwise the rendered score of the kept
/// entries over the considered tokens.
pub fn run_readability(
    dict_content: &str,
    text: &str,
    top_k: Option<usize>,
    top_n: Option<usize>,
) -> (r: Result<Vec<char>, PipelineError>)
    ensures
        ({
            let toks = spec_tokens(text@);
            let considered = toks.take(keep_len(toks.len(), top_n) as int);
            match dict_entries_of(dict_content@) {
                Err(e) => r == Err::<Vec<char>, PipelineError>(PipelineError::Dict(e)),
                Ok(es) => {
                    let kept = es.take(keep_len(es.len(), top_k) as int);
                    if kept.len() == 0 {
                        r == Err::<Vec<char>, PipelineError>(
                            PipelineError::Dict(DictError::EmptyDict),
                        )
                    } else if considered.len() == 0 {
                        r == Err::<Vec<char>, PipelineError>(PipelineError::NoWords)
                    } else {
                        match r {
                            Ok(s) => s@ == spec_fixed6(
                                sum_counts(dict_map(kept), considered),
                                spec_max_count(kept) * considered.len(),
                            ),
                            Err(_) => false,
                        }
                    }
                },
            }
        }),
{
    let table = match load_frequency_dict(dict_content, top_k) {
        Ok(t) => t,
        Err(e) => {
            return Err(PipelineError::Dict(e));
        },
    };
    let tokens = tokenize_english_words(text);
    let score = match compute_readability(&tokens, &table, top_n) {
        Some(s) => s,
        None => {
            return Err(PipelineError::NoWords);
        },
    };
    Ok(score.to_fixed6())
}

} // verus!
