//! The frequency dictionary: parsing its JSON form into entries, optional
//! top-K truncation, and the normalized weight table built from them.

use vstd::prelude::*;
use crate::json::{
    json_array_of, json_parse_ok, json_str_of, json_u64_of, json_value_of, parse_json_value,
};

verus! {

/// Why a frequency dictionary was rejected.
#[derive(Clone, Copy, Debug, PartialEq, Eq, Structural)]
pub enum DictError {
    /// The content is not well-formed JSON.
    InvalidJson,
    /// The top level of the document is not an array.
    NotArray,
    /// An entry is not an array.
    EntryNotArray,
    /// An entry is an array of other than exactly two elements.
    EntryNotPair,
    /// The first element of an entry is not a string.
    WordNotString,
    /// The second element of an entry is not a non-negative integer.
    CountNotInteger,
    /// No entries are left after truncation.
    EmptyDict,
}

/// The views of an entry vector: each word as its character sequence.
pub open spec fn entry_views(s: Seq<(String, u64)>) -> Seq<(Seq<char>, u64)> {
    s.map_values(|p: (String, u64)| (p.0@, p.1))
}

/// How many entries a dictionary of length `len` keeps under an optional
/// top-K truncation: the first min(K, len).
pub open spec fn keep_len(len: nat, top_k: Option<usize>) -> nat {
    match top_k {
        Some(k) => if k < len {
            k as nat
        } else {
            len
        },
        None => len,
    }
}

/// The word-to-count mapping of an entry sequence: every word maps to the
/// count of its last occurrence (last write wins on duplicates).
pub open spec fn dict_map(entries: Seq<(Seq<char>, u64)>) -> Map<Seq<char>, u64>
    decreases entries.len(),
{
    if entries.len() == 0 {
        Map::empty()
    } else {
        dict_map(entries.drop_last()).insert(entries.last().0, entries.last().1)
    }
}

/// The largest count among the entries, with a floor of 1 so that it can
/// serve as a divisor.
pub open spec fn spec_max_count(entries: Seq<(Seq<char>, u64)>) -> int
    decreases entries.len(),
{
    if entries.len() == 0 {
        1
    } else {
        let rest = spec_max_count(entries.drop_last());
        if entries.last().1 >= rest {
            entries.last().1 as int
        } else {
            rest
        }
    }
}

/// No word occurs twice among the entries.
pub open spec fn distinct_words(entries: Seq<(Seq<char>, u64)>) -> bool {
    forall|i: int, j: int|
        0 <= i < j < entries.len() ==> #[trigger] entries[i].0 != #[trigger] entries[j].0
}

/// A dictionary's mapping holds exactly the words that occur among its
/// entries; with a truncated sequence, exactly the words of the kept
/// prefix, never a word that only occurs beyond it.
pub proof fn lemma_dict_map_domain(entries: Seq<(Seq<char>, u64)>, w: Seq<char>)
    ensures
        dict_map(entries).contains_key(w) <==> exists|i: int|
            0 <= i < entries.len() && #[trigger] entries[i].0 == w,
    decreases entries.len(),
{
    if entries.len() > 0 {
        lemma_dict_map_domain(entries.drop_last(), w);
        if entries.last().0 == w {
            assert(entries[entries.len() - 1].0 == w);
        } else if dict_map(entries).contains_key(w) {
            let i = choose|i: int|
                0 <= i < entries.drop_last().len() && #[trigger] entries.drop_last()[i].0 == w;
            assert(entries[i].0 == w);
        } else {
            assert forall|i: int| 0 <= i < entries.len() implies #[trigger] entries[i].0 != w by {
                if i < entries.len() - 1 {
                    assert(entries.drop_last()[i].0 != w);
                }
            }
        }
    }
}

/// When no word repeats, every entry's word maps to that entry's count.
pub proof fn lemma_dict_map_distinct(entries: Seq<(Seq<char>, u64)>, i: int)
    requires
        distinct_words(entries),
        0 <= i < entries.len(),
    ensures
        dict_map(entries).contains_key(entries[i].0),
        dict_map(entries)[entries[i].0] == entries[i].1,
    decreases entries.len(),
{
    if i < entries.len() - 1 {
        assert(entries.drop_last()[i] == entries[i]);
        lemma_dict_map_distinct(entries.drop_last(), i);
        assert(entries[i].0 != entries.last().0);
    }
}

/// Every count in a dictionary's mapping lies between 0 and the largest
/// kept count, so every weight count / max lies in [0, 1].
pub proof fn lemma_counts_at_most_max(entries: Seq<(Seq<char>, u64)>, w: Seq<char>)
    requires
        dict_map(entries).contains_key(w),
    ensures
        dict_map(entries)[w] <= spec_max_count(entries),
        spec_max_count(entries) >= 1,
    decreases entries.len(),
{
    lemma_max_count_bounds(entries);
    if entries.len() > 0 {
        if entries.last().0 != w {
            lemma_counts_at_most_max(entries.drop_last(), w);
        }
        lemma_max_count_monotone(entries);
    }
}

/// Position of `w` among the entry words: the first match, or None when
/// no entry's word is `w`.
fn find_word(v: &Vec<(String, u64)>, w: &String) -> (r: Option<usize>)
    ensures
        match r {
            Some(j) => j < v@.len() && entry_views(v@)[j as int].0 == w@,
            None => forall|l: int| 0 <= l < v@.len() ==> (#[trigger] entry_views(v@)[l]).0 != w@,
        },
{
    let m = v.len();
    let mut j: usize = 0;
    while j < m
        invariant
            j <= m == v@.len(),
            forall|l: int| 0 <= l < j ==> (#[trigger] entry_views(v@)[l]).0 != w@,
        decreases m - j,
    {
        if v[j].0.eq(w) {
            return Some(j);
        }
        j = j + 1;
    }
    None
}

/// Every single entry's count is at most the maximum count.
proof fn lemma_max_count_ge_entry(entries: Seq<(Seq<char>, u64)>, i: int)
    requires
        0 <= i < entries.len(),
    ensures
        entries[i].1 <= spec_max_count(entries),
    decreases entries.len(),
{
    lemma_max_count_monotone(entries);
    if i < entries.len() - 1 {
        lemma_max_count_ge_entry(entries.drop_last(), i);
    }
}

/// A maximum above the floor of 1 is attained by some entry.
proof fn lemma_max_count_witness(entries: Seq<(Seq<char>, u64)>)
    requires
        spec_max_count(entries) >= 2,
    ensures
        exists|i: int|
            0 <= i < entries.len() && #[trigger] entries[i].1 == spec_max_count(entries),
    decreases entries.len(),
{
    if entries.len() > 0 {
        if entries.last().1 == spec_max_count(entries) {
            assert(entries[entries.len() - 1].1 == spec_max_count(entries));
        } else {
            lemma_max_count_witness(entries.drop_last());
            let i = choose|i: int|
                0 <= i < entries.drop_last().len() && #[trigger] entries.drop_last()[i].1
                    == spec_max_count(entries.drop_last());
            assert(entries[i].1 == spec_max_count(entries));
        }
    }
}

/// When no word among the entries repeats and some count is positive,
/// the mapping attains the maximum: some word's count equals the shared
/// divisor, so its weight is exactly 1. (With a duplicate overwriting
/// the most frequent word's count, or with every count zero, the
/// maximum weight falls short of 1, since the divisor is drawn from the
/// entries before deduplication and floored at 1.)
pub proof fn lemma_max_weight_attained(entries: Seq<(Seq<char>, u64)>)
    requires
        distinct_words(entries),
        exists|j: int| 0 <= j < entries.len() && #[trigger] entries[j].1 >= 1,
    ensures
        exists|w: Seq<char>|
            #[trigger] dict_map(entries).contains_key(w) && dict_map(entries)[w]
                == spec_max_count(entries),
{
    let j = choose|j: int| 0 <= j < entries.len() && #[trigger] entries[j].1 >= 1;
    lemma_max_count_ge_entry(entries, j);
    lemma_max_count_bounds(entries);
    if spec_max_count(entries) == 1 {
        lemma_dict_map_distinct(entries, j);
        assert(dict_map(entries).contains_key(entries[j].0) && dict_map(entries)[entries[j].0]
            == spec_max_count(entries));
    } else {
        lemma_max_count_witness(entries);
        let i = choose|i: int|
            0 <= i < entries.len() && #[trigger] entries[i].1 == spec_max_count(entries);
        lemma_dict_map_distinct(entries, i);
        assert(dict_map(entries).contains_key(entries[i].0) && dict_map(entries)[entries[i].0]
            == spec_max_count(entries));
    }
}

/// Truncation law: the mapping of the entries kept under a top-K limit
/// holds exactly the words among the first min(K, length) entries, and
/// never a word that only occurs beyond that prefix.
pub proof fn lemma_truncation_keeps_prefix_words(
    entries: Seq<(Seq<char>, u64)>,
    top_k: Option<usize>,
    w: Seq<char>,
)
    ensures
        ({
            let keep = keep_len(entries.len(), top_k) as int;
            dict_map(entries.take(keep)).contains_key(w) <==> exists|i: int|
                0 <= i < keep && #[trigger] entries[i].0 == w
        }),
{
    let keep = keep_len(entries.len(), top_k) as int;
    let kept = entries.take(keep);
    lemma_dict_map_domain(kept, w);
    if dict_map(kept).contains_key(w) {
        let i = choose|i: int| 0 <= i < kept.len() && #[trigger] kept[i].0 == w;
        assert(entries[i].0 == w);
    }
    if exists|i: int| 0 <= i < keep && #[trigger] entries[i].0 == w {
        let i = choose|i: int| 0 <= i < keep && #[trigger] entries[i].0 == w;
        assert(kept[i].0 == w);
    }
}

/// Dropping the last entry cannot raise the maximum count.
proof fn lemma_max_count_monotone(entries: Seq<(Seq<char>, u64)>)
    requires
        entries.len() > 0,
    ensures
        spec_max_count(entries.drop_last()) <= spec_max_count(entries),
        entries.last().1 <= spec_max_count(entries),
{
}

/// The maximum count fits in u64.
proof fn lemma_max_count_bounds(entries: Seq<(Seq<char>, u64)>)
    ensures
        1 <= spec_max_count(entries) <= u64::MAX,
    decreases entries.len(),
{
    if entries.len() > 0 {
        lemma_max_count_bounds(entries.drop_last());
    }
}

/// A normalized weight table. The weight of a word is the exact rational
/// count / max_count, so the table holds each word's raw count and the
/// shared divisor max_count rather than materializing the quotients.
#[derive(Debug)]
pub struct WeightTable {
    entries: Vec<(String, u64)>,
    max_count: u64,
}

impl View for WeightTable {
    type V = Map<Seq<char>, u64>;

    /// The mapping from word to raw count.
    closed spec fn view(&self) -> Map<Seq<char>, u64> {
        dict_map(entry_views(self.entries@))
    }
}

impl WeightTable {
    /// The divisor all weights share: the largest raw count among the kept
    /// entries (floored at 1), the count of the most frequent word.
    pub closed spec fn spec_max(&self) -> u64 {
        self.max_count
    }

    /// Well-formed: no word twice, a positive divisor, and no count above
    /// it, so every weight count / max lies in [0, 1].
    pub closed spec fn wf(&self) -> bool {
        &&& distinct_words(entry_views(self.entries@))
        &&& self.max_count >= 1
        &&& forall|i: int|
            0 <= i < self.entries@.len() ==> #[trigger] self.entries@[i].1 <= self.max_count
    }

    /// Every count a well-formed table maps a word to is at most its
    /// divisor: no weight exceeds 1.
    pub proof fn lemma_counts_bounded(&self, w: Seq<char>)
        requires
            self.wf(),
            self@.contains_key(w),
        ensures
            self@[w] <= self.spec_max(),
    {
        lemma_dict_map_domain(entry_views(self.entries@), w);
        let i = choose|i: int|
            0 <= i < entry_views(self.entries@).len() && #[trigger] entry_views(
                self.entries@,
            )[i].0 == w;
        lemma_dict_map_distinct(entry_views(self.entries@), i);
    }

    /// The shared divisor, for forming weights.
    pub fn max_count(&self) -> (r: u64)
        ensures
            r == self.spec_max(),
            self.wf() ==> r >= 1,
    {
        self.max_count
    }

    /// The raw count of `word`: Some exactly when the word is in the
    /// table, and then the count of its last occurrence in the source.
    pub fn count_of(&self, word: &String) -> (r: Option<u64>)
        requires
            self.wf(),
        ensures
            r == (if self@.contains_key(word@) {
                Some(self@[word@])
            } else {
                None::<u64>
            }),
    {
        let ghost views = entry_views(self.entries@);
        match find_word(&self.entries, word) {
            Some(j) => {
                proof {
                    lemma_dict_map_distinct(views, j as int);
                }
                Some(self.entries[j].1)
            },
            None => {
                proof {
                    lemma_dict_map_domain(views, word@);
                }
                None
            },
        }
    }
}

/// Build the weight table from an entry list, truncated to its first
/// min(K, length) entries when a top-K limit is given. The divisor is the
/// largest kept raw count (floored at 1); each kept word maps to the
/// count of its last kept occurrence. Fails exactly when no entry is
/// kept, and only with the empty-dictionary error.
pub fn build_weight_table(entries: &Vec<(String, u64)>, top_k: Option<usize>) -> (r: Result<
    WeightTable,
    DictError,
>)
    ensures
        ({
            let kept = entry_views(entries@).take(keep_len(entries@.len(), top_k) as int);
            match r {
                Err(e) => e == DictError::EmptyDict && kept.len() == 0,
                Ok(t) => {
                    &&& kept.len() > 0
                    &&& t.wf()
                    &&& t@ == dict_map(kept)
                    &&& t.spec_max() == spec_max_count(kept)
                },
            }
        }),
{
    let n = entries.len();
    let keep: usize = match top_k {
        Some(k) => if k < n {
            k
        } else {
            n
        },
        None => n,
    };
    let ghost kept = entry_views(entries@).take(keep as int);
    proof {
        assert(keep as int == keep_len(entries@.len(), top_k) as int);
    }
    if keep == 0 {
        return Err(DictError::EmptyDict);
    }

    // The divisor: the largest kept count, floored at 1.
    let mut max_count: u64 = 1;
    let mut i: usize = 0;
    proof {
        assert(kept.take(0) =~= Seq::<(Seq<char>, u64)>::empty());
    }
    while i < keep
        invariant
            i <= keep <= entries@.len(),
            kept == entry_views(entries@).take(keep as int),
            max_count == spec_max_count(kept.take(i as int)),
        decreases keep - i,
    {
        let c = entries[i].1;
        proof {
            assert(kept.take(i + 1).drop_last() =~= kept.take(i as int));
            assert(kept.take(i + 1).last() == kept[i as int]);
            assert(kept[i as int].1 == entries@[i as int].1);
            lemma_max_count_bounds(kept.take(i + 1));
        }
        if c > max_count {
            max_count = c;
        }
        i = i + 1;
    }
    proof {
        assert(kept.take(keep as int) =~= kept);
    }

    // Deduplicate, last write wins: overwrite in place or append.
    let mut out: Vec<(String, u64)> = Vec::new();
    let mut i: usize = 0;
    proof {
        assert(entry_views(out@) =~= Seq::<(Seq<char>, u64)>::empty());
        assert(dict_map(entry_views(out@)) =~= dict_map(kept.take(0)));
    }
    while i < keep
        invariant
            i <= keep <= entries@.len(),
            kept == entry_views(entries@).take(keep as int),
            max_count == spec_max_count(kept),
            distinct_words(entry_views(out@)),
            dict_map(entry_views(out@)) == dict_map(kept.take(i as int)),
            forall|j: int| 0 <= j < out@.len() ==> #[trigger] entry_views(out@)[j].1 <= max_count,
        decreases keep - i,
    {
        let w = entries[i].0.clone();
        let c = entries[i].1;
        proof {
            assert(kept.take(i + 1).drop_last() =~= kept.take(i as int));
            assert(kept.take(i + 1).last() == kept[i as int]);
            assert(kept[i as int] == (entries@[i as int].0@, entries@[i as int].1));
            lemma_max_count_monotone(kept.take(i + 1));
            lemma_max_count_le_total(kept, i + 1);
        }
        let ghost old_out = out@;
        match find_word(&out, &w) {
            Some(j) => {
                out[j].1 = c;
                proof {
                    assert(entry_views(out@) =~= entry_views(old_out).update(j as int, (w@, c)));
                    lemma_dict_map_overwrite(entry_views(old_out), j as int, c);
                }
            },
            None => {
                out.push((w, c));
                proof {
                    assert(entry_views(out@) =~= entry_views(old_out).push((w@, c)));
                    assert(entry_views(out@).drop_last() =~= entry_views(old_out));
                    lemma_dict_map_domain(entry_views(old_out), w@);
                }
            },
        }
        proof {
            assert(dict_map(entry_views(out@)) =~= dict_map(kept.take(i + 1)));
        }
        i = i + 1;
    }
    proof {
        assert(kept.take(keep as int) =~= kept);
        lemma_max_count_bounds(kept);
        assert forall|l: int| 0 <= l < out@.len() implies #[trigger] out@[l].1 <= max_count by {
            assert(entry_views(out@)[l].1 == out@[l].1);
        }
    }
    Ok(WeightTable { entries: out, max_count })
}

/// Overwriting the count of a word already present changes the mapping
/// exactly as appending that (word, count) pair would.
proof fn lemma_dict_map_overwrite(entries: Seq<(Seq<char>, u64)>, j: int, c: u64)
    requires
        distinct_words(entries),
        0 <= j < entries.len(),
    ensures
        distinct_words(entries.update(j, (entries[j].0, c))),
        dict_map(entries.update(j, (entries[j].0, c))) == dict_map(entries).insert(
            entries[j].0,
            c,
        ),
    decreases entries.len(),
{
    let w = entries[j].0;
    let updated = entries.update(j, (w, c));
    assert forall|a: int, b: int| 0 <= a < b < updated.len() implies #[trigger] updated[a].0
        != #[trigger] updated[b].0 by {
        assert(entries[a].0 != entries[b].0);
    }
    if j == entries.len() - 1 {
        assert(updated.drop_last() =~= entries.drop_last());
        assert(dict_map(updated) =~= dict_map(entries).insert(w, c));
    } else {
        assert(updated.drop_last() =~= entries.drop_last().update(j, (w, c)));
        assert(entries.drop_last()[j] == entries[j]);
        lemma_dict_map_overwrite(entries.drop_last(), j, c);
        assert(entries.last().0 != w);
        assert(updated.last() == entries.last());
        assert(dict_map(updated) == dict_map(entries.drop_last()).insert(w, c).insert(
            entries.last().0,
            entries.last().1,
        ));
        assert(dict_map(updated) =~= dict_map(entries).insert(w, c));
    }
}

/// What one JSON value yields as a dictionary entry: a two-element array
/// of a string and a u64 count, or the shape error it breaks.
pub open spec fn entry_of(v: serde_json::Value) -> Result<(Seq<char>, u64), DictError> {
    match json_array_of(v) {
        None => Err(DictError::EntryNotArray),
        Some(a) => if a.len() != 2 {
            Err(DictError::EntryNotPair)
        } else {
            match json_str_of(a[0]) {
                None => Err(DictError::WordNotString),
                Some(w) => match json_u64_of(a[1]) {
                    None => Err(DictError::CountNotInteger),
                    Some(c) => Ok((w, c)),
                },
            }
        },
    }
}

/// The entry list a sequence of JSON values yields, or the error of its
/// first offending element.
pub open spec fn entries_of(a: Seq<serde_json::Value>) -> Result<
    Seq<(Seq<char>, u64)>,
    DictError,
>
    decreases a.len(),
{
    if a.len() == 0 {
        Ok(Seq::empty())
    } else {
        match entries_of(a.drop_last()) {
            Err(e) => Err(e),
            Ok(es) => match entry_of(a.last()) {
                Err(e) => Err(e),
                Ok(p) => Ok(es.push(p)),
            },
        }
    }
}

/// What a dictionary document yields: the parse error, the top-level
/// shape error, the first entry's shape error, or the entry list. A
/// function of the text alone, so loading is deterministic.
pub open spec fn dict_entries_of(s: Seq<char>) -> Result<Seq<(Seq<char>, u64)>, DictError> {
    if !json_parse_ok(s) {
        Err(DictError::InvalidJson)
    } else {
        match json_array_of(json_value_of(s)) {
            None => Err(DictError::NotArray),
            Some(a) => entries_of(a),
        }
    }
}

/// An error among the first j elements decides the whole sequence.
proof fn lemma_entries_of_error(a: Seq<serde_json::Value>, j: int, e: DictError)
    requires
        0 <= j <= a.len(),
        entries_of(a.take(j)) == Err::<Seq<(Seq<char>, u64)>, DictError>(e),
    ensures
        entries_of(a) == Err::<Seq<(Seq<char>, u64)>, DictError>(e),
    decreases a.len() - j,
{
    if j < a.len() {
        assert(a.take(j + 1).drop_last() =~= a.take(j));
        lemma_entries_of_error(a, j + 1, e);
    } else {
        assert(a.take(j) =~= a);
    }
}

/// Read the entry list out of a parsed JSON value: a top-level array of
/// [word, count] entries, each an array of exactly two elements. The
/// result is exactly what the spec-level extraction yields: the same
/// entries, or the same first error.
fn extract_entries(doc: &serde_json::Value) -> (r: Result<Vec<(String, u64)>, DictError>)
    ensures
        ({
            let spec_r = match json_array_of(*doc) {
                None => Err(DictError::NotArray),
                Some(a) => entries_of(a),
            };
            match r {
                Ok(items) => spec_r matches Ok(es) && entry_views(items@) == es,
                Err(e) => spec_r matches Err(e2) && e == e2,
            }
        }),
{
    let arr = match doc.as_array() {
        Some(a) => a,
        None => {
            return Err(DictError::NotArray);
        },
    };
    let n = arr.len();
    let mut items: Vec<(String, u64)> = Vec::new();
    let mut i: usize = 0;
    proof {
        assert(arr@.take(0) =~= Seq::<serde_json::Value>::empty());
        assert(entry_views(items@) =~= Seq::<(Seq<char>, u64)>::empty());
    }
    while i < n
        invariant
            i <= n == arr@.len(),
            json_array_of(*doc) == Some(arr@),
            entries_of(arr@.take(i as int)) == Ok::<Seq<(Seq<char>, u64)>, DictError>(
                entry_views(items@),
            ),
        decreases n - i,
    {
        proof {
            assert(arr@.take(i + 1).drop_last() =~= arr@.take(i as int));
            assert(arr@.take(i + 1).last() == arr@[i as int]);
        }
        let entry = match arr[i].as_array() {
            Some(a) => a,
            None => {
                proof {
                    lemma_entries_of_error(arr@, i + 1, DictError::EntryNotArray);
                }
                return Err(DictError::EntryNotArray);
            },
        };
        if entry.len() != 2 {
            proof {
                lemma_entries_of_error(arr@, i + 1, DictError::EntryNotPair);
            }
            return Err(DictError::EntryNotPair);
        }
        let word = match entry[0].as_str() {
            Some(s) => s,
            None => {
                proof {
                    lemma_entries_of_error(arr@, i + 1, DictError::WordNotString);
                }
                return Err(DictError::WordNotString);
            },
        };
        let count = match entry[1].as_u64() {
            Some(c) => c,
            None => {
                proof {
                    lemma_entries_of_error(arr@, i + 1, DictError::CountNotInteger);
                }
                return Err(DictError::CountNotInteger);
            },
        };
        let ghost old_items = items@;
        items.push((word.to_owned(), count));
        proof {
            assert(entry_of(arr@[i as int]) == Ok::<(Seq<char>, u64), DictError>((word@, count)));
            assert(entry_views(items@) =~= entry_views(old_items).push((word@, count)));
        }
        i = i + 1;
    }
    proof {
        assert(arr@.take(n as int) =~= arr@);
    }
    Ok(items)
}

/// Load a frequency dictionary from its JSON text: parse it, read the
/// [word, count] entries, keep the first min(K, length) under a top-K
/// limit, and build the normalized weight table from what is kept. The
/// result is pinned for every input: the parse or shape error that
/// `dict_entries_of` yields, the empty-dictionary error exactly when
/// truncation keeps no entry, and otherwise the table of the kept
/// entries — a function of the content and the limit alone.
pub fn load_frequency_dict(content: &str, top_k: Option<usize>) -> (r: Result<
    WeightTable,
    DictError,
>)
    ensures
        ({
            match dict_entries_of(content@) {
                Err(e) => r == Err::<WeightTable, DictError>(e),
                Ok(es) => {
                    let kept = es.take(keep_len(es.len(), top_k) as int);
                    match r {
                        Err(e) => e == DictError::EmptyDict && kept.len() == 0,
                        Ok(t) => {
                            &&& kept.len() > 0
                            &&& t.wf()
                            &&& t@ == dict_map(kept)
                            &&& t.spec_max() == spec_max_count(kept)
                        },
                    }
                },
            }
        }),
{
    let doc = match parse_json_value(content) {
        Ok(v) => v,
        Err(_) => {
            return Err(DictError::InvalidJson);
        },
    };
    let items = match extract_entries(&doc) {
        Ok(it) => it,
        Err(e) => {
            return Err(e);
        },
    };
    build_weight_table(&items, top_k)
}

/// Every count in a prefix is at most the maximum over the whole sequence.
proof fn lemma_max_count_le_total(entries: Seq<(Seq<char>, u64)>, i: int)
    requires
        0 <= i <= entries.len(),
    ensures
        spec_max_count(entries.take(i)) <= spec_max_count(entries),
    decreases entries.len() - i,
{
    if i < entries.len() {
        lemma_max_count_le_total(entries, i + 1);
        assert(entries.take(i + 1).drop_last() =~= entries.take(i));
        lemma_max_count_monotone(entries.take(i + 1));
    } else {
        assert(entries.take(i) =~= entries);
    }
}

} // verus!

