//! Word tokenization: maximal runs of ASCII letters, optionally extended
//! over a single apostrophe followed by another letter run (contractions
//! such as "can't"), scanned left to right and ASCII-lowercased.

use vstd::prelude::*;

verus! {

/// An ASCII letter, the only kind of character a word token is made of.
pub open spec fn is_ascii_letter(c: char) -> bool {
    ('a' <= c && c <= 'z') || ('A' <= c && c <= 'Z')
}

/// ASCII case folding of one character: 'A'..'Z' map to 'a'..'z',
/// every other character is unchanged.
pub open spec fn lower_char(c: char) -> char {
    if 'A' <= c && c <= 'Z' {
        ((c as u32) + 32) as char
    } else {
        c
    }
}

/// Character-wise ASCII case folding of a sequence.
pub open spec fn lower_seq(s: Seq<char>) -> Seq<char> {
    s.map_values(|c: char| lower_char(c))
}

/// First position at or after `i` that does not hold an ASCII letter:
/// the end of the letter run starting at `i`.
pub open spec fn letter_run_end(s: Seq<char>, i: int) -> int
    recommends
        0 <= i <= s.len(),
    decreases s.len() - i,
    when i <= s.len()
{
    if i < s.len() && is_ascii_letter(s[i]) {
        letter_run_end(s, i + 1)
    } else {
        i
    }
}

/// End of the token that starts at `i` (a letter): the letter run from
/// `i`, extended over one apostrophe and a second letter run when the
/// apostrophe is directly followed by a letter.
pub open spec fn token_end(s: Seq<char>, i: int) -> int
    recommends
        0 <= i < s.len() && is_ascii_letter(s[i]),
{
    let j = letter_run_end(s, i);
    if j + 1 < s.len() && s[j] == '\'' && is_ascii_letter(s[j + 1]) {
        letter_run_end(s, j + 1)
    } else {
        j
    }
}

/// The tokens of `s` from position `i` on: at each letter, the token up
/// to `token_end` is taken (case-folded); every other character is a
/// separator and is skipped.
pub open spec fn spec_tokens_from(s: Seq<char>, i: int) -> Seq<Seq<char>>
    recommends
        0 <= i,
    decreases s.len() - i,
    when 0 <= i <= s.len()
    via spec_tokens_from_decreases
{
    if i >= s.len() {
        Seq::empty()
    } else if !is_ascii_letter(s[i]) {
        spec_tokens_from(s, i + 1)
    } else {
        seq![lower_seq(s.subrange(i, token_end(s, i)))] + spec_tokens_from(s, token_end(s, i))
    }
}

#[via_fn]
proof fn spec_tokens_from_decreases(s: Seq<char>, i: int) {
    if 0 <= i && i < s.len() && is_ascii_letter(s[i]) {
        lemma_token_end_bounds(s, i);
    }
}

/// The token sequence of a whole text.
pub open spec fn spec_tokens(s: Seq<char>) -> Seq<Seq<char>> {
    spec_tokens_from(s, 0)
}

/// The views of a vector of tokens.
pub open spec fn token_views(ts: Seq<String>) -> Seq<Seq<char>> {
    ts.map_values(|t: String| t@)
}

/// A letter run ends within the string, holds letters throughout, and
/// stops right before a non-letter.
pub proof fn lemma_letter_run_end_bounds(s: Seq<char>, i: int)
    requires
        0 <= i <= s.len(),
    ensures
        i <= letter_run_end(s, i) <= s.len(),
        forall|k: int| i <= k < letter_run_end(s, i) ==> is_ascii_letter(s[k]),
        letter_run_end(s, i) < s.len() ==> !is_ascii_letter(s[letter_run_end(s, i)]),
    decreases s.len() - i,
{
    if i < s.len() && is_ascii_letter(s[i]) {
        lemma_letter_run_end_bounds(s, i + 1);
    }
}

/// A token starting at a letter is nonempty and ends within the string.
pub proof fn lemma_token_end_bounds(s: Seq<char>, i: int)
    requires
        0 <= i < s.len(),
        is_ascii_letter(s[i]),
    ensures
        i < token_end(s, i) <= s.len(),
{
    lemma_letter_run_end_bounds(s, i);
    let j = letter_run_end(s, i);
    assert(letter_run_end(s, i) == letter_run_end(s, i + 1));
    if j + 1 < s.len() && s[j] == '\'' && is_ascii_letter(s[j + 1]) {
        lemma_letter_run_end_bounds(s, j + 1);
    }
}

fn is_letter(c: char) -> (r: bool)
    ensures
        r == is_ascii_letter(c),
{
    let u = c as u32;
    (97 <= u && u <= 122) || (65 <= u && u <= 90)
}

/// Relies on String::push: it appends exactly the one character.
#[verifier::external_body]
fn push_char(s: &mut String, c: char)
    ensures
        final(s)@ == old(s)@.push(c),
{
    s.push(c);
}

/// Fold one character: 'A'..'Z' drop to 'a'..'z' by adding 32, the
/// distance between the ASCII cases; everything else stays.
fn fold_char(c: char) -> (r: char)
    ensures
        r == lower_char(c),
{
    let u = c as u32;
    if 65 <= u && u <= 90 {
        ((u + 32) as u8) as char
    } else {
        c
    }
}

/// Character-wise ASCII case folding of a string.
fn ascii_lower(s: &str) -> (r: String)
    ensures
        r@ == lower_seq(s@),
{
    let n = s.unicode_len();
    let mut out = String::new();
    let mut i: usize = 0;
    proof {
        assert(lower_seq(s@).take(0) =~= Seq::<char>::empty());
    }
    while i < n
        invariant
            i <= n == s@.len(),
            out@ == lower_seq(s@).take(i as int),
        decreases n - i,
    {
        let c = s.get_char(i);
        push_char(&mut out, fold_char(c));
        proof {
            assert(lower_seq(s@).take(i + 1) =~= lower_seq(s@).take(i as int).push(
                lower_char(s@[i as int]),
            ));
        }
        i = i + 1;
    }
    proof {
        assert(lower_seq(s@).take(n as int) =~= lower_seq(s@));
    }
    out
}

/// Scan the letter run that starts at `start`.
fn scan_letter_run(text: &str, start: usize, n: usize) -> (j: usize)
    requires
        text@.len() == n,
        start <= n,
    ensures
        j == letter_run_end(text@, start as int),
        start <= j <= n,
{
    proof {
        lemma_letter_run_end_bounds(text@, start as int);
    }
    let mut j: usize = start;
    while j < n && is_letter(text.get_char(j))
        invariant
            text@.len() == n,
            start <= j <= n,
            letter_run_end(text@, start as int) == letter_run_end(text@, j as int),
        decreases n - j,
    {
        j = j + 1;
    }
    j
}

/// Find where the token that starts at `i` (a letter) ends.
fn scan_token_end(text: &str, i: usize, n: usize) -> (end: usize)
    requires
        text@.len() == n,
        i < n,
        is_ascii_letter(text@[i as int]),
    ensures
        end == token_end(text@, i as int),
        i < end <= n,
{
    proof {
        lemma_token_end_bounds(text@, i as int);
    }
    let j = scan_letter_run(text, i, n);
    if n - j > 1 {
        let cj = text.get_char(j);
        if cj == '\'' && is_letter(text.get_char(j + 1)) {
            return scan_letter_run(text, j + 1, n);
        }
    }
    j
}

/// Extract the lowercase word tokens of `text`, in order of occurrence:
/// maximal ASCII-letter runs, optionally extended over one apostrophe
/// followed by another letter run; everything else separates tokens.
pub fn tokenize_english_words(text: &str) -> (tokens: Vec<String>)
    ensures
        token_views(tokens@) == spec_tokens(text@),
{
    let n = text.unicode_len();
    let mut tokens: Vec<String> = Vec::new();
    let mut i: usize = 0;
    proof {
        assert(token_views(tokens@) + spec_tokens_from(text@, 0) =~= spec_tokens_from(text@, 0));
    }
    while i < n
        invariant
            text@.len() == n,
            i <= n,
            token_views(tokens@) + spec_tokens_from(text@, i as int) == spec_tokens(text@),
        decreases n - i,
    {
        let c = text.get_char(i);
        if is_letter(c) {
            let end = scan_token_end(text, i, n);
            let tok = text.substring_char(i, end);
            let low = ascii_lower(tok);
            let ghost old_tokens = tokens@;
            tokens.push(low);
            proof {
                assert(token_views(tokens@) =~= token_views(old_tokens).push(low@));
                assert(token_views(tokens@) + spec_tokens_from(text@, end as int)
                    =~= token_views(old_tokens) + spec_tokens_from(text@, i as int));
            }
            i = end;
        } else {
            i = i + 1;
        }
    }
    proof {
        assert(token_views(tokens@) + spec_tokens_from(text@, i as int) =~= token_views(tokens@));
    }
    tokens
}

} // verus!
