//! Calls into the `regex` crate that the wire format relies on.
use regex::Regex;
use vstd::prelude::*;

verus! {

/// The texts of capture groups 1 and 2 of the match that `regex::Regex::captures` finds when
/// `pattern` is compiled with `regex::Regex::new` and run on `text`; `None` when the pattern
/// does not compile, nothing matches, or one of the two groups takes no part in the match.
pub uninterp spec fn pair_captures(pattern: Seq<char>, text: Seq<char>) -> Option<(Seq<char>, Seq<char>)>;

/// The pieces that `regex::Regex::split` cuts `text` into when `pattern` is compiled with
/// `regex::Regex::new`; `None` when the pattern does not compile.
pub uninterp spec fn split_pieces(pattern: Seq<char>, text: Seq<char>) -> Option<Seq<Seq<char>>>;

/// True when `c` is an ASCII letter, an ASCII digit or `_`; each of these is a word character
/// (`\w`) for `regex`.
pub open spec fn ascii_word_char(c: char) -> bool {
    ('0' <= c && c <= '9') || ('a' <= c && c <= 'z') || ('A' <= c && c <= 'Z') || c == '_'
}

/// True when `s` is one or more ASCII digits.
pub open spec fn ascii_digits(s: Seq<char>) -> bool {
    s.len() > 0 && forall|i: int| 0 <= i < s.len() ==> '0' <= #[trigger] s[i] && s[i] <= '9'
}

/// True when `s` is one or more ASCII word characters.
pub open spec fn ascii_word(s: Seq<char>) -> bool {
    s.len() > 0 && forall|i: int| 0 <= i < s.len() ==> ascii_word_char(#[trigger] s[i])
}

/// True when `text` is `piece_no:`, the digits `d`, `ehash:` and the word `h`, with or without
/// one newline after it.
pub open spec fn piece_pattern_text(text: Seq<char>, d: Seq<char>, h: Seq<char>) -> bool {
    &&& ascii_digits(d)
    &&& ascii_word(h)
    &&& (text == "piece_no:"@ + d + "ehash:"@ + h || text == "piece_no:"@ + d + "ehash:"@ + h + "\n"@)
}

/// Compiles `pattern` with `regex::Regex::new` and runs `Regex::captures` on `text`; gives the
/// texts of capture groups 1 and 2. The contract names that result, and states one fact of it
/// for the pattern `piece_no:(\w+)ehash:(\w+)`: on a text made of `piece_no:`, ASCII digits
/// `d`, `ehash:` and ASCII word characters `h` (and perhaps a final newline), the groups are
/// `d` and `h`. The match starts at the text's start (the leftmost place), and with
/// leftmost-first (backtracking) semantics the greedy first group can end only before the one
/// `ehash:` that the text holds (it holds one colon after `piece_no:`), while the greedy second
/// group takes every word character after it, up to the end or the newline.
#[verifier::external_body]
pub(crate) fn capture_pair(pattern: &str, text: &str) -> (r: Option<(String, String)>)
    ensures
        match r {
            Some((a, b)) => pair_captures(pattern@, text@) == Some((a@, b@)),
            None => pair_captures(pattern@, text@) is None,
        },
        forall|d: Seq<char>, h: Seq<char>|
            pattern@ == "piece_no:(\\w+)ehash:(\\w+)"@ && #[trigger] piece_pattern_text(text@, d, h)
                ==> r is Some && r.unwrap().0@ == d && r.unwrap().1@ == h,
{
    let re = match Regex::new(pattern) {
        Ok(re) => re,
        Err(_) => return None,
    };
    let caps = re.captures(text)?;
    match (caps.get(1), caps.get(2)) {
        (Some(a), Some(b)) => Some((a.as_str().to_string(), b.as_str().to_string())),
        _ => None,
    }
}

/// Compiles `pattern` with `regex::Regex::new` and collects what `Regex::split` yields on
/// `text`. The contract names that result and states one fact that the crate's source shows:
/// the split iterator always yields at least one piece (the text after the last match).
#[verifier::external_body]
pub(crate) fn split_by(pattern: &str, text: &str) -> (r: Option<Vec<String>>)
    ensures
        match r {
            Some(v) => split_pieces(pattern@, text@) == Some(v.deep_view()) && v.len() >= 1,
            None => split_pieces(pattern@, text@) is None,
        },
{
    match Regex::new(pattern) {
        Ok(re) => Some(re.split(text).map(|s| s.to_string()).collect()),
        Err(_) => None,
    }
}

} // verus!
