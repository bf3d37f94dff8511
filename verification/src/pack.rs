//! Greedy line packing: words are assigned in order to the current line while
//! the feasibility test holds — after taking the word, every gap of the line
//! could still receive at least one padding space on average — and otherwise
//! open a new line; a word longer than the target width makes packing fail.

use vstd::prelude::*;
use vstd::string::StrSliceExecFns;
use crate::tokenize::word_ok;

verus! {

/// Sum of the word lengths of a line (no separators, no padding).
pub open spec fn line_syms(line: Seq<Seq<char>>) -> int
    decreases line.len(),
{
    if line.len() == 0 {
        0
    } else {
        line.first().len() + line_syms(line.drop_first())
    }
}

pub proof fn lemma_syms_nonneg(line: Seq<Seq<char>>)
    ensures
        line_syms(line) >= 0,
    decreases line.len(),
{
    if line.len() > 0 {
        lemma_syms_nonneg(line.drop_first());
    }
}

pub proof fn lemma_syms_push(line: Seq<Seq<char>>, w: Seq<char>)
    ensures
        line_syms(line.push(w)) == line_syms(line) + w.len(),
    decreases line.len(),
{
    reveal_with_fuel(line_syms, 3);
    if line.len() == 0 {
        assert(line.push(w).drop_first() =~= Seq::<Seq<char>>::empty());
    } else {
        assert(line.push(w).first() == line.first());
        assert(line.push(w).drop_first() =~= line.drop_first().push(w));
        lemma_syms_push(line.drop_first(), w);
    }
}

/// The feasibility test: a word of length `wl` may join a line holding `n`
/// words and `sym` symbols at width `w` only when, after taking the word,
/// the remaining slack still averages at least one space per gap (the line
/// gains one gap for each word after the first, so `n` gaps in all).
pub open spec fn pad_okay(sym: int, n: int, wl: int, w: int) -> bool {
    &&& sym + wl <= w
    &&& (w - (sym + wl)) / n >= 1
}

/// Feed one word into the packed lines: join the last open line when
/// feasible, else start a new line, else fail (the word is too long).
pub open spec fn pack_step(lines: Seq<Seq<Seq<char>>>, word: Seq<char>, w: int) -> Option<Seq<Seq<Seq<char>>>> {
    if lines.len() > 0 && pad_okay(
        line_syms(lines.last()),
        lines.last().len() as int,
        word.len() as int,
        w,
    ) {
        Some(lines.update(lines.len() - 1, lines.last().push(word)))
    } else if word.len() <= w {
        Some(lines.push(seq![word]))
    } else {
        None
    }
}

/// Pack the words `ws`, in order, onto the lines already built.
pub open spec fn pack_fold(lines: Seq<Seq<Seq<char>>>, ws: Seq<Seq<char>>, w: int) -> Option<Seq<Seq<Seq<char>>>>
    decreases ws.len(),
{
    if ws.len() == 0 {
        Some(lines)
    } else {
        match pack_step(lines, ws.first(), w) {
            None => None,
            Some(next) => pack_fold(next, ws.drop_first(), w),
        }
    }
}

/// Pack a word sequence into justifiable lines at width `w`, or fail when
/// some word alone cannot fit.
pub open spec fn pack_words(ws: Seq<Seq<char>>, w: int) -> Option<Seq<Seq<Seq<char>>>> {
    pack_fold(Seq::empty(), ws, w)
}

/// Some word of `ws` is longer than the width `w`.
pub open spec fn has_oversize(ws: Seq<Seq<char>>, w: int) -> bool {
    exists|i: int| 0 <= i < ws.len() && #[trigger] ws[i].len() > w
}

/// Packing fails exactly when some word is longer than the width.
pub proof fn lemma_pack_none_iff(lines: Seq<Seq<Seq<char>>>, ws: Seq<Seq<char>>, w: int)
    ensures
        pack_fold(lines, ws, w) is None <==> has_oversize(ws, w),
    decreases ws.len(),
{
    if ws.len() == 0 {
    } else {
        let word = ws.first();
        match pack_step(lines, word, w) {
            None => {
                if lines.len() > 0 {
                    lemma_syms_nonneg(lines.last());
                }
                assert(word.len() > w);
                assert(ws[0].len() > w);
            },
            Some(next) => {
                lemma_pack_none_iff(next, ws.drop_first(), w);
                if lines.len() > 0 {
                    lemma_syms_nonneg(lines.last());
                }
                assert(word.len() <= w);
                assert(has_oversize(ws.drop_first(), w) <==> has_oversize(ws, w)) by {
                    if has_oversize(ws.drop_first(), w) {
                        let i = choose|i: int|
                            0 <= i < ws.drop_first().len() && #[trigger] ws.drop_first()[i].len() > w;
                        assert(ws[i + 1].len() > w);
                    }
                    if has_oversize(ws, w) {
                        let i = choose|i: int| 0 <= i < ws.len() && #[trigger] ws[i].len() > w;
                        assert(i != 0);
                        assert(ws.drop_first()[i - 1].len() > w);
                    }
                }
            },
        }
    }
}

/// A line as packing leaves it: non-empty, made of well-formed words, and
/// with at least one space of slack per gap (`line.len() - 1` gaps).
pub open spec fn line_wf_at(line: Seq<Seq<char>>, w: int) -> bool {
    &&& line.len() >= 1
    &&& line_syms(line) + line.len() - 1 <= w
    &&& forall|j: int| 0 <= j < line.len() ==> word_ok(#[trigger] line[j])
}

pub open spec fn lines_wf_at(lines: Seq<Seq<Seq<char>>>, w: int) -> bool {
    forall|i: int| 0 <= i < lines.len() ==> line_wf_at(#[trigger] lines[i], w)
}

/// Packing well-formed words preserves line well-formedness.
pub proof fn lemma_pack_fold_wf(lines: Seq<Seq<Seq<char>>>, ws: Seq<Seq<char>>, w: int)
    requires
        lines_wf_at(lines, w),
        forall|k: int| 0 <= k < ws.len() ==> word_ok(#[trigger] ws[k]),
        pack_fold(lines, ws, w) is Some,
    ensures
        lines_wf_at(pack_fold(lines, ws, w)->Some_0, w),
    decreases ws.len(),
{
    if ws.len() > 0 {
        let word = ws.first();
        let next = pack_step(lines, word, w)->Some_0;
        assert(lines_wf_at(next, w)) by {
            if lines.len() > 0 && pad_okay(
                line_syms(lines.last()),
                lines.last().len() as int,
                word.len() as int,
                w,
            ) {
                let last = lines.last();
                let n = last.len() as int;
                let sym = line_syms(last);
                let grown = last.push(word);
                lemma_syms_push(last, word);
                assert((w - (sym + word.len())) / n >= 1);
                assert(w - (sym + word.len()) >= n) by {
                    let slack = w - (sym + word.len());
                    assert(slack >= 0);
                    assert(slack / n >= 1);
                    assert(slack >= n) by (nonlinear_arith)
                        requires n >= 1, slack >= 0, slack / n >= 1,
                    ;
                }
                assert(line_syms(grown) + grown.len() - 1 <= w);
                assert(forall|j: int| 0 <= j < grown.len() ==> word_ok(#[trigger] grown[j])) by {
                    assert(forall|j: int| 0 <= j < last.len() ==> grown[j] == last[j]);
                    assert(grown[last.len() as int] == word);
                    assert(word_ok(word));
                }
                assert(line_wf_at(grown, w));
                assert(forall|i: int| 0 <= i < next.len() ==> line_wf_at(#[trigger] next[i], w)) by {
                    assert(forall|i: int| 0 <= i < lines.len() - 1 ==> next[i] == lines[i]);
                    assert(next[lines.len() - 1] == grown);
                }
            } else {
                assert(word.len() <= w);
                assert(line_wf_at(seq![word], w)) by {
                    reveal_with_fuel(line_syms, 3);
                    assert(seq![word].first() == word);
                    assert(seq![word].drop_first() =~= Seq::<Seq<char>>::empty());
                    assert(line_syms(seq![word]) == word.len());
                }
                assert(forall|i: int| 0 <= i < lines.len() ==> next[i] == lines[i]);
                assert(next[lines.len() as int] == seq![word]);
            }
        }
        assert(forall|k: int| 0 <= k < ws.drop_first().len()
            ==> word_ok(#[trigger] ws.drop_first()[k])) by {
            assert(forall|k: int| 0 <= k < ws.drop_first().len() ==> ws.drop_first()[k] == ws[k + 1]);
        }
        lemma_pack_fold_wf(next, ws.drop_first(), w);
    }
}

/// One line under construction: its words, in order, and the sum of their
/// lengths.
pub struct Line<'a> {
    pub words: Vec<&'a str>,
    pub symbols: usize,
}

impl<'a> View for Line<'a> {
    type V = Seq<Seq<char>>;

    open spec fn view(&self) -> Seq<Seq<char>> {
        self.words@.map_values(|w: &str| w@)
    }
}

impl<'a> Line<'a> {
    /// The stored symbol count matches the words.
    pub open spec fn wf(self) -> bool {
        self.symbols == line_syms(self@)
    }

    /// Open a line holding the single word `word`.
    pub fn new(word: &'a str) -> (l: Line<'a>)
        ensures
            l.wf(),
            l@ == seq![word@],
            l.symbols == word@.len(),
    {
        let symbols = word.unicode_len();
        let l = Line { words: vec![word], symbols };
        proof {
            reveal_with_fuel(line_syms, 3);
            assert(l@ =~= seq![word@]);
            assert(l@.first() == word@);
            assert(l@.drop_first() =~= Seq::<Seq<char>>::empty());
        }
        l
    }

    /// Append `word` to the line and account for its length.
    pub fn push(&mut self, word: &'a str)
        requires
            old(self).wf(),
            old(self).symbols + word@.len() <= usize::MAX,
        ensures
            final(self).wf(),
            final(self)@ == old(self)@.push(word@),
            final(self).symbols == old(self).symbols + word@.len(),
    {
        let wl = word.unicode_len();
        self.words.push(word);
        self.symbols = self.symbols + wl;
        proof {
            assert(self@ =~= old(self)@.push(word@));
            lemma_syms_push(old(self)@, word@);
        }
    }
}

/// The views of a vector of lines.
pub open spec fn lines_view(lines: Seq<Line<'_>>) -> Seq<Seq<Seq<char>>> {
    lines.map_values(|l: Line<'_>| l@)
}

/// A line as the packer keeps it at width `w`: non-empty, with at least one
/// space of slack per gap.
pub open spec fn line_budget(l: Seq<Seq<char>>, w: int) -> bool {
    l.len() >= 1 && line_syms(l) + l.len() - 1 <= w
}

/// Pack `words` into lines at width `width`; a word longer than `width`
/// is returned as the error.
pub fn pack<'a>(words: &Vec<&'a str>, width: usize) -> (r: Result<Vec<Line<'a>>, &'a str>)
    ensures
        match r {
            Ok(lines) => {
                &&& pack_words(words@.map_values(|w: &str| w@), width as int)
                    == Some(lines_view(lines@))
                &&& forall|i: int| 0 <= i < lines@.len() ==> (#[trigger] lines@[i]).wf()
                &&& forall|i: int| 0 <= i < lines@.len()
                    ==> line_budget((#[trigger] lines@[i])@, width as int)
            },
            Err(word) => {
                &&& pack_words(words@.map_values(|w: &str| w@), width as int) is None
                &&& words@.map_values(|w: &str| w@).contains(word@)
                &&& word@.len() > width
            },
        },
{
    let ghost ws = words@.map_values(|w: &str| w@);
    let mut lines: Vec<Line<'a>> = Vec::new();
    let mut i: usize = 0;
    proof {
        assert(ws.skip(0) =~= ws);
        assert(lines_view(lines@) =~= Seq::<Seq<Seq<char>>>::empty());
    }
    while i < words.len()
        invariant
            i <= words.len(),
            ws == words@.map_values(|w: &str| w@),
            ws.len() == words@.len(),
            pack_words(ws, width as int)
                == pack_fold(lines_view(lines@), ws.skip(i as int), width as int),
            forall|k: int| 0 <= k < lines@.len() ==> (#[trigger] lines@[k]).wf(),
            forall|k: int| 0 <= k < lines@.len()
                ==> line_budget((#[trigger] lines@[k])@, width as int),
        decreases words.len() - i,
    {
        let ghost prev = lines_view(lines@);
        let ghost rest = ws.skip(i as int);
        let word = words[i];
        let wl = word.unicode_len();
        proof {
            assert(ws[i as int] == word@);
            assert(rest.first() == ws[i as int]);
            assert(rest.drop_first() =~= ws.skip(i + 1 as int));
        }
        // Whether the word may join the last open line.
        let mut feasible: bool = false;
        if lines.len() > 0 && wl <= width {
            let last_idx = lines.len() - 1;
            let sym = lines[last_idx].symbols;
            let n = lines[last_idx].words.len();
            proof {
                assert(lines@[last_idx as int].wf());
                assert(line_budget(lines@[last_idx as int]@, width as int));
                assert(lines@[last_idx as int]@.len() == lines@[last_idx as int].words@.len());
            }
            let rem = width - wl;
            if sym <= rem {
                feasible = (rem - sym) / n >= 1;
            }
        }
        proof {
            if prev.len() > 0 {
                assert(prev.last() == lines@.last()@);
                lemma_syms_nonneg(prev.last());
            }
            assert(feasible <==> (prev.len() > 0 && pad_okay(
                line_syms(prev.last()),
                prev.last().len() as int,
                word@.len() as int,
                width as int,
            )));
        }
        if feasible {
            let last_idx = lines.len() - 1;
            let mut last = lines.remove(last_idx);
            proof {
                assert(last.symbols + word@.len() <= width);
            }
            last.push(word);
            lines.push(last);
            proof {
                let grown = prev.last().push(word@);
                assert(lines_view(lines@) =~= prev.update(prev.len() - 1, grown));
                assert(pack_step(prev, word@, width as int) == Some(lines_view(lines@)));
                // the grown line keeps one space of slack per gap
                let n = prev.last().len() as int;
                let slack = width - (line_syms(prev.last()) + word@.len());
                assert(slack / n >= 1);
                assert(slack >= n) by (nonlinear_arith)
                    requires n >= 1, slack >= 0, slack / n >= 1,
                ;
                lemma_syms_push(prev.last(), word@);
                assert(line_budget(grown, width as int));
                assert(forall|k: int| 0 <= k < lines@.len() ==> (#[trigger] lines@[k]).wf());
            }
        } else if wl <= width {
            let l = Line::new(word);
            lines.push(l);
            proof {
                assert(lines_view(lines@) =~= prev.push(seq![word@]));
                assert(pack_step(prev, word@, width as int) == Some(lines_view(lines@)));
                assert(line_budget(seq![word@], width as int)) by {
                    reveal_with_fuel(line_syms, 3);
                    assert(seq![word@].first() == word@);
                    assert(seq![word@].drop_first() =~= Seq::<Seq<char>>::empty());
                }
            }
        } else {
            proof {
                assert(pack_step(prev, word@, width as int) is None);
                assert(pack_words(ws, width as int) is None);
                assert(ws.contains(word@)) by {
                    assert(ws[i as int] == word@);
                }
            }
            return Err(word);
        }
        i += 1;
    }
    proof {
        assert(ws.skip(words@.len() as int) =~= Seq::<Seq<char>>::empty());
    }
    Ok(lines)
}

} // verus!
