//! Text normalization ahead of n-gram extraction.
//!
//! Raw text is lower-cased and split into Unicode words; the words are then
//! rejoined with a `'_'` separator prefixed to each word, so that word
//! boundaries become an in-band symbol that participates in n-grams.
use vstd::prelude::*;
use unicode_segmentation::UnicodeSegmentation;

verus! {

/// The character sequence that `str::to_lowercase` produces for `s`.
pub uninterp spec fn lower_of(s: Seq<char>) -> Seq<char>;

/// The Unicode words that `unicode-segmentation`'s `unicode_words` splits `s` into.
pub uninterp spec fn words_of(s: Seq<char>) -> Seq<Seq<char>>;

/// Whether `char::is_numeric` holds of `c`.
pub uninterp spec fn is_numeric_char(c: char) -> bool;

/// Relies on `str::to_lowercase` of std: the result depends on the characters alone.
pub assume_specification[ str::to_lowercase ](s: &str) -> (r: String)
    ensures
        r@ == lower_of(s@),
;

/// Relies on `char::is_numeric` of std: a Unicode property of the character alone.
pub assume_specification[ char::is_numeric ](c: char) -> (r: bool)
    ensures
        r == is_numeric_char(c),
;

/// Relies on `unicode_segmentation::UnicodeSegmentation::unicode_words`: the
/// segmentation (UAX #29 word boundaries, keeping only pieces that contain an
/// alphanumeric character) depends on the characters alone.
#[verifier::external_body]
pub(crate) fn unicode_words_vec(s: &str) -> (r: Vec<String>)
    ensures
        r.deep_view() == words_of(s@),
{
    s.unicode_words().map(|w| w.to_string()).collect()
}

/// Whether `c` is ASCII punctuation, as `char::is_ascii_punctuation` defines it:
/// one of the four ASCII ranges `!..=/`, `:..=@`, `[..=`` ` `` and `{..=~`.
pub open spec fn is_ascii_punct(c: char) -> bool {
    ('!' <= c && c <= '/') || (':' <= c && c <= '@') || ('[' <= c && c <= '`') || ('{' <= c && c
        <= '~')
}

/// Executable check for [`is_ascii_punct`].
pub fn char_is_ascii_punct(c: char) -> (r: bool)
    ensures
        r == is_ascii_punct(c),
{
    ('!' <= c && c <= '/') || (':' <= c && c <= '@') || ('[' <= c && c <= '`') || ('{' <= c && c
        <= '~')
}

/// The words of `ws` joined into one sequence, a `'_'` prefixed to each word.
pub open spec fn sep_join(ws: Seq<Seq<char>>) -> Seq<char>
    decreases ws.len(),
{
    if ws.len() == 0 {
        Seq::empty()
    } else {
        sep_join(ws.drop_last()) + seq!['_'] + ws.last()
    }
}

/// The normalized form of raw text `s`: lower-cased, split into Unicode
/// words, rejoined with a `'_'` prefixed to each word.
pub open spec fn normal_text(s: Seq<char>) -> Seq<char> {
    sep_join(words_of(lower_of(s)))
}

/// Normalizes raw text: lower-cases it, splits it into Unicode words, and
/// rejoins the words with a `'_'` prefixed to each word.
pub fn normalize(text: &str) -> (r: String)
    ensures
        r@ == normal_text(text@),
{
    let low = text.to_lowercase();
    let words = unicode_words_vec(low.as_str());
    let mut out = String::new();
    let n = words.len();
    let mut i: usize = 0;
    while i < n
        invariant
            0 <= i <= n,
            n == words@.len(),
            words.deep_view() == words_of(lower_of(text@)),
            out@ == sep_join(words.deep_view().take(i as int)),
        decreases n - i,
    {
        out.append("_");
        out.append(words[i].as_str());
        proof {
            reveal_strlit("_");
            let ws = words.deep_view();
            assert(ws[i as int] == words@[i as int]@);
            assert(ws.take(i + 1).drop_last() =~= ws.take(i as int));
            assert(ws.take(i + 1).last() == ws[i as int]);
            assert("_"@ =~= seq!['_']);
        }
        i = i + 1;
    }
    proof {
        assert(words.deep_view().take(n as int) =~= words.deep_view());
    }
    out
}

} // verus!
