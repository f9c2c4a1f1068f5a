//! Fingerprints: the digest that a hashing tool prints, taken from its output.
//!
//! A hashing tool prints the digest of a file as the first word of its output.
//! Whether the tool ran at all, and what it printed, is the driver's to find out;
//! what counts as the digest is decided here.

use vstd::prelude::*;

verus! {

/// Whether `c` is white space as Unicode has it (`White_Space`).
pub open spec fn is_space(c: char) -> bool {
    let n = c as u32;
    ||| 0x09 <= n <= 0x0D
    ||| n == 0x20
    ||| n == 0x85
    ||| n == 0xA0
    ||| n == 0x1680
    ||| 0x2000 <= n <= 0x200A
    ||| n == 0x2028
    ||| n == 0x2029
    ||| n == 0x202F
    ||| n == 0x205F
    ||| n == 0x3000
}

/// How many characters at the front of `s` are white space (`space` true),
/// or are not (`space` false).
pub open spec fn run_length(s: Seq<char>, space: bool) -> nat
    decreases s.len(),
{
    if s.len() > 0 && is_space(s[0]) == space {
        1 + run_length(s.drop_first(), space)
    } else {
        0
    }
}

/// Where the first word of `s` starts: behind the leading white space.
pub open spec fn word_start(s: Seq<char>) -> int {
    run_length(s, true) as int
}

/// Where the first word of `s` ends: at the first white space behind its start,
/// or at the end of `s`.
pub open spec fn word_end(s: Seq<char>) -> int {
    word_start(s) + run_length(s.skip(word_start(s)), false)
}

/// The first word of `s`: its longest stretch of characters other than white
/// space that only white space precedes. Text that is all white space has none.
pub open spec fn first_word(s: Seq<char>) -> Option<Seq<char>> {
    if word_start(s) == s.len() {
        None
    } else {
        Some(s.subrange(word_start(s), word_end(s)))
    }
}

/// The fingerprint that a run of the hashing tool yields: the first word of
/// what it printed, if it reported success and printed a word.
pub open spec fn fingerprint_of(success: bool, output: Seq<char>) -> Option<Seq<char>> {
    if success {
        first_word(output)
    } else {
        None
    }
}

/// A run is `k` long when the first `k` characters are of its kind and the
/// one behind them, if there is one, is not.
pub proof fn lemma_run_length(s: Seq<char>, space: bool, k: int)
    requires
        0 <= k <= s.len(),
        forall|i: int| 0 <= i < k ==> is_space(#[trigger] s[i]) == space,
        k < s.len() ==> is_space(s[k]) != space,
    ensures
        run_length(s, space) == k,
    decreases k,
{
    if k > 0 {
        let rest = s.drop_first();
        lemma_run_length(rest, space, k - 1);
    }
}

/// A run ends inside the text or at its end; its characters are of its kind,
/// and the character behind it is not.
pub proof fn lemma_run_length_bounds(s: Seq<char>, space: bool)
    ensures
        run_length(s, space) <= s.len(),
        forall|i: int| 0 <= i < run_length(s, space) ==> is_space(#[trigger] s[i]) == space,
        run_length(s, space) < s.len() ==> is_space(s[run_length(s, space) as int]) != space,
    decreases s.len(),
{
    if s.len() > 0 && is_space(s[0]) == space {
        let rest = s.drop_first();
        lemma_run_length_bounds(rest, space);
        assert forall|i: int| 0 <= i < run_length(s, space) implies is_space(#[trigger] s[i])
            == space by {
            if i > 0 {
                assert(s[i] == rest[i - 1]);
            }
        }
    }
}

/// What the first word is, said without counting: white space and nothing
/// else stands before it, it is not empty and holds no white space, and white
/// space or the end of the text follows it.
pub proof fn lemma_first_word_shape(s: Seq<char>)
    ensures
        0 <= word_start(s) <= word_end(s) <= s.len(),
        forall|i: int| 0 <= i < word_start(s) ==> is_space(#[trigger] s[i]),
        forall|i: int| word_start(s) <= i < word_end(s) ==> !is_space(#[trigger] s[i]),
        word_end(s) < s.len() ==> is_space(s[word_end(s)]),
        first_word(s) is Some ==> word_start(s) < word_end(s),
        first_word(s) is Some ==> first_word(s)->0.len() > 0,
        first_word(s) is None <==> forall|i: int| 0 <= i < s.len() ==> is_space(#[trigger] s[i]),
{
    let from = word_start(s);
    lemma_run_length_bounds(s, true);
    let tail = s.skip(from);
    lemma_run_length_bounds(tail, false);
    let to = word_end(s);
    assert forall|i: int| from <= i < to implies !is_space(#[trigger] s[i]) by {
        assert(s[i] == tail[i - from]);
    }
}

/// Tells whether `c` separates the words of a text.
pub fn is_whitespace(c: char) -> (b: bool)
    ensures
        b == is_space(c),
{
    let n: u32 = c as u32;
    (0x09 <= n && n <= 0x0D) || n == 0x20 || n == 0x85 || n == 0xA0 || n == 0x1680 || (0x2000 <= n
        && n <= 0x200A) || n == 0x2028 || n == 0x2029 || n == 0x202F || n == 0x205F || n == 0x3000
}

/// Returns the first word of `text`, or `None` where `text` is empty or all
/// white space.
pub fn first_token(text: &str) -> (word: Option<String>)
    ensures
        word is Some <==> first_word(text@) is Some,
        word matches Some(w) ==> first_word(text@) == Some(w@),
{
    let n: usize = text.unicode_len();
    let mut from: usize = 0;
    while from < n && is_whitespace(text.get_char(from))
        invariant
            n == text@.len(),
            from <= n,
            forall|i: int| 0 <= i < from ==> is_space(#[trigger] text@[i]),
        decreases n - from,
    {
        from = from + 1;
    }
    proof {
        lemma_run_length(text@, true, from as int);
    }
    if from == n {
        return None;
    }
    let mut to: usize = from;
    while to < n && !is_whitespace(text.get_char(to))
        invariant
            n == text@.len(),
            from <= to <= n,
            forall|i: int| from <= i < to ==> !is_space(#[trigger] text@[i]),
        decreases n - to,
    {
        to = to + 1;
    }
    proof {
        let tail = text@.skip(from as int);
        lemma_run_length(tail, false, to - from);
    }
    Some(text.substring_char(from, to).to_owned())
}

/// Returns the fingerprint that a run of the hashing tool yields. `success`
/// says whether the tool reported success, `output` is what it printed. A run
/// that failed, or that printed no word, yields none.
pub fn fingerprint_from_output(success: bool, output: &str) -> (fingerprint: Option<String>)
    ensures
        fingerprint is Some <==> fingerprint_of(success, output@) is Some,
        fingerprint matches Some(f) ==> fingerprint_of(success, output@) == Some(f@),
        fingerprint matches Some(f) ==> f@.len() > 0,
{
    if success {
        proof {
            lemma_first_word_shape(output@);
        }
        first_token(output)
    } else {
        None
    }
}

} // verus!
