//! Reflow free-form whitespace-separated text into fixed-width, fully
//! justified lines: every produced line is padded with spaces so its printed
//! width equals the caller-supplied target width, with padding distributed as
//! evenly as possible across inter-word gaps, earlier gaps absorbing any
//! indivisible remainder.

pub mod justify;
pub mod laws;
pub mod pack;
pub mod tokenize;

use vstd::prelude::*;
use crate::justify::render;
use crate::justify::render_lines;
use crate::pack::has_oversize;
use crate::pack::lemma_pack_none_iff;
use crate::pack::pack;
use crate::pack::pack_words;
use crate::tokenize::tokenize;
use crate::tokenize::words_of;

verus! {

/// The whole transformation on the mathematical level: tokenize `s`, pack the
/// words greedily at width `w`, justify and join the lines; an input with a
/// word longer than `w` yields the empty text.
pub open spec fn transform_spec(s: Seq<char>, w: int) -> Seq<char> {
    match pack_words(words_of(s), w) {
        None => Seq::empty(),
        Some(lines) => render_lines(lines, w),
    }
}

/// Reflow `input` into fully justified lines of printed width `line_width`,
/// joined by single newlines; the empty text results when the input has no
/// words or some word is longer than `line_width`. Widths and word lengths
/// count characters (Unicode scalar values), not bytes.
pub fn transform(input: &str, line_width: u32) -> (r: String)
    ensures
        r@ == transform_spec(input@, line_width as int),
{
    let width = line_width as usize;
    let words = tokenize(input);
    match pack(&words, width) {
        Ok(lines) => render(&lines, width),
        Err(_) => String::new(),
    }
}

/// Reflow as `transform` does, but surface the failure: a word longer than
/// `line_width` is returned as the error instead of being collapsed into an
/// empty result.
pub fn try_transform<'a>(input: &'a str, line_width: u32) -> (r: Result<String, &'a str>)
    ensures
        match r {
            Ok(t) => {
                &&& pack_words(words_of(input@), line_width as int) is Some
                &&& t@ == transform_spec(input@, line_width as int)
            },
            Err(word) => {
                &&& words_of(input@).contains(word@)
                &&& word@.len() > line_width
                &&& transform_spec(input@, line_width as int) == Seq::<char>::empty()
            },
        },
        r is Err <==> has_oversize(words_of(input@), line_width as int),
{
    let width = line_width as usize;
    let words = tokenize(input);
    proof {
        lemma_pack_none_iff(Seq::empty(), words_of(input@), line_width as int);
    }
    match pack(&words, width) {
        Ok(lines) => Ok(render(&lines, width)),
        Err(word) => Err(word),
    }
}

} // verus!
