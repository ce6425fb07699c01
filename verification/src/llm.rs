use vstd::prelude::*;
use crate::text::{chars_of, push_str, string_from_chars};

verus! {

broadcast use vstd::seq_lib::group_seq_properties;

/// The characters with the Unicode `White_Space` property (`char::is_whitespace`).
pub open spec fn is_white_space(c: char) -> bool {
    let u = c as u32;
    ||| 0x09 <= u <= 0x0D
    ||| u == 0x20
    ||| u == 0x85
    ||| u == 0xA0
    ||| u == 0x1680
    ||| 0x2000 <= u <= 0x200A
    ||| u == 0x2028
    ||| u == 0x2029
    ||| u == 0x202F
    ||| u == 0x205F
    ||| u == 0x3000
}

/// Whether a character is white space.
pub fn white_space(c: char) -> (b: bool)
    ensures
        b == is_white_space(c),
{
    let u = c as u32;
    (0x09 <= u && u <= 0x0D) || u == 0x20 || u == 0x85 || u == 0xA0 || u == 0x1680
        || (0x2000 <= u && u <= 0x200A) || u == 0x2028 || u == 0x2029 || u == 0x202F
        || u == 0x205F || u == 0x3000
}

/// `s` without its leading characters that satisfy `p`.
pub open spec fn strip_start(s: Seq<char>, p: spec_fn(char) -> bool) -> Seq<char>
    decreases s.len(),
{
    if s.len() > 0 && p(s[0]) { strip_start(s.drop_first(), p) } else { s }
}

/// `s` without its trailing characters that satisfy `p`.
pub open spec fn strip_end(s: Seq<char>, p: spec_fn(char) -> bool) -> Seq<char>
    decreases s.len(),
{
    if s.len() > 0 && p(s.last()) { strip_end(s.drop_last(), p) } else { s }
}

/// `s` without the leading and trailing characters that satisfy `p`.
pub open spec fn strip_both(s: Seq<char>, p: spec_fn(char) -> bool) -> Seq<char> {
    strip_end(strip_start(s, p), p)
}

/// An API key as read from the environment: white space trimmed, then
/// double quotes, then single quotes stripped from both ends.
pub open spec fn cleaned_key(raw: Seq<char>) -> Seq<char> {
    let a = strip_both(raw, |c: char| is_white_space(c));
    let b = strip_both(a, |c: char| c == '"');
    strip_both(b, |c: char| c == '\'')
}

/// Whether `c` is stripped: white space for `kind == 0`, else equal to `ch`.
fn strips(c: char, kind: u8, ch: char) -> (b: bool)
    ensures
        b == (if kind == 0 { is_white_space(c) } else { c == ch }),
{
    if kind == 0 { white_space(c) } else { c == ch }
}

/// The characters of `v` without the leading and trailing ones that are
/// white space (`kind == 0`) or equal to `ch` (otherwise).
fn strip_chars(v: &Vec<char>, kind: u8, ch: char) -> (r: Vec<char>)
    ensures
        kind == 0 ==> r@ == strip_both(v@, |c: char| is_white_space(c)),
        kind != 0 ==> r@ == strip_both(v@, |c: char| c == ch),
{
    let ghost p = if kind == 0 { |c: char| is_white_space(c) } else { |c: char| c == ch };
    let mut lo: usize = 0;
    while lo < v.len() && strips(v[lo], kind, ch)
        invariant
            lo <= v@.len(),
            p == (if kind == 0 { |c: char| is_white_space(c) } else { |c: char| c == ch }),
            strip_start(v@, p) == strip_start(v@.skip(lo as int), p),
        decreases v.len() - lo,
    {
        proof {
            assert(v@.skip(lo as int)[0] == v@[lo as int]);
            assert(v@.skip(lo as int).drop_first() == v@.skip(lo + 1));
        }
        lo += 1;
    }
    proof {
        if lo < v@.len() {
            assert(v@.skip(lo as int)[0] == v@[lo as int]);
        }
    }
    let mut hi: usize = v.len();
    while hi > lo && strips(v[hi - 1], kind, ch)
        invariant
            lo <= hi <= v@.len(),
            p == (if kind == 0 { |c: char| is_white_space(c) } else { |c: char| c == ch }),
            strip_start(v@, p) == v@.subrange(lo as int, v@.len() as int),
            strip_both(v@, p) == strip_end(v@.subrange(lo as int, hi as int), p),
        decreases hi,
    {
        proof {
            assert(v@.subrange(lo as int, hi as int).last() == v@[hi - 1]);
            assert(v@.subrange(lo as int, hi as int).drop_last() == v@.subrange(lo as int, hi - 1));
        }
        hi -= 1;
    }
    proof {
        if hi > lo {
            assert(v@.subrange(lo as int, hi as int).last() == v@[hi - 1]);
        }
    }
    crate::text::slice_chars(v, lo, hi)
}

/// Trims an API key read from the environment.
pub fn clean_api_key(raw: &str) -> (key: String)
    ensures
        key@ == cleaned_key(raw@),
{
    let v = chars_of(raw);
    let a = strip_chars(&v, 0, ' ');
    let b = strip_chars(&a, 1, '"');
    let c = strip_chars(&b, 1, '\'');
    string_from_chars(&c)
}

/// The text sent to the model: the context, then the question.
pub open spec fn prompt_text(context: Seq<char>, question: Seq<char>) -> Seq<char> {
    context + "\n\nBased on the above code structure, answer this question:\n"@ + question
}

/// Builds the prompt from the graph context and the question.
pub fn build_prompt(context: &str, question: &str) -> (prompt: String)
    ensures
        prompt@ == prompt_text(context@, question@),
{
    let mut v = chars_of(context);
    push_str(&mut v, "\n\nBased on the above code structure, answer this question:\n");
    push_str(&mut v, question);
    string_from_chars(&v)
}

/// The model endpoint for a key.
pub open spec fn endpoint_url(key: Seq<char>) -> Seq<char> {
    "https://generativelanguage.googleapis.com/v1beta/models/gemini-1.5-flash:generateContent?key="@ + key
}

/// Builds the model endpoint for a key.
pub fn gemini_url(key: &str) -> (url: String)
    ensures
        url@ == endpoint_url(key@),
{
    let mut v = chars_of("https://generativelanguage.googleapis.com/v1beta/models/gemini-1.5-flash:generateContent?key=");
    push_str(&mut v, key);
    string_from_chars(&v)
}

/// The answer from the text of the first part of the first candidate of a
/// model reply, or the error for a reply without one.
pub fn answer_text(first_part: Option<String>) -> (answer: Result<String, String>)
    ensures
        first_part matches Some(t) ==> (answer matches Ok(a) && a@ == t@),
        first_part is None ==> (answer matches Err(e) && e@ == "Failed to parse Gemini response structure"@),
{
    match first_part {
        Some(t) => Ok(t),
        None => Err(string_from_chars(&chars_of("Failed to parse Gemini response structure"))),
    }
}

} // verus!
