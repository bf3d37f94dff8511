//! The laws of the transformation, stated and proved over the spec model:
//! exact printed width of every line, preservation of the word sequence,
//! idempotence, the failure and empty-input conditions, and the left bias of
//! the remainder padding.

use vstd::prelude::*;
use vstd::arithmetic::div_mod::lemma_div_pos_is_pos;
use vstd::arithmetic::div_mod::lemma_fundamental_div_mod;
use vstd::arithmetic::div_mod::lemma_mod_division_less_than_divisor;
use crate::justify::gap_pad;
use crate::justify::justify_from;
use crate::justify::justify_line;
use crate::justify::render_lines;
use crate::justify::spaces;
use crate::pack::has_oversize;
use crate::pack::lemma_pack_fold_wf;
use crate::pack::lemma_pack_none_iff;
use crate::pack::line_syms;
use crate::pack::line_wf_at;
use crate::pack::lines_wf_at;
use crate::pack::pack_words;
use crate::pack::pack_fold;
use crate::pack::pack_step;
use crate::pack::pad_okay;
use crate::tokenize::is_space_char;
use crate::tokenize::lemma_tok_fold_app;
use crate::tokenize::lemma_words_of_ok;
use crate::tokenize::no_space;
use crate::tokenize::tok_close;
use crate::tokenize::tok_fold;
use crate::tokenize::tok_step;
use crate::tokenize::word_ok;
use crate::tokenize::words_of;
use crate::transform_spec;

verus! {

/// The extra padding still to hand out from gap `i` on: one space for each
/// of the first `diff % gaps` gaps not yet passed.
spec fn rem_extra(diff: int, gaps: int, i: int) -> int {
    if diff % gaps > i {
        diff % gaps - i
    } else {
        0
    }
}

/// Length of the justified tail of a multi-word line.
proof fn lemma_justify_from_len(line: Seq<Seq<char>>, i: int, diff: int, gaps: int)
    requires
        gaps == line.len() - 1,
        gaps >= 1,
        diff >= 0,
        0 <= i < line.len(),
    ensures
        justify_from(line, i, diff, gaps).len()
            == line_syms(line.skip(i)) + (gaps - i) * (diff / gaps) + rem_extra(diff, gaps, i),
    decreases line.len() - i,
{
    let q = diff / gaps;
    let r = diff % gaps;
    lemma_mod_division_less_than_divisor(diff, gaps);
    lemma_div_pos_is_pos(diff, gaps);
    assert(0 <= r < gaps && q >= 0);
    assert(line.skip(i).first() == line[i]);
    assert(line.skip(i).drop_first() =~= line.skip(i + 1));
    if i == line.len() - 1 {
        assert(line.skip(i).len() == 1);
        assert(line_syms(line.skip(i)) == line[i].len() + line_syms(line.skip(i + 1)));
        assert(line.skip(i + 1) =~= Seq::<Seq<char>>::empty());
        assert(line_syms(line.skip(i)) == line[i].len());
        assert((gaps - i) * q == 0) by (nonlinear_arith)
            requires gaps == i,
        ;
        assert(rem_extra(diff, gaps, i) == 0);
    } else {
        lemma_justify_from_len(line, i + 1, diff, gaps);
        assert(justify_from(line, i, diff, gaps).len()
            == line[i].len() + gap_pad(diff, gaps, i) + justify_from(line, i + 1, diff, gaps).len());
        assert(line_syms(line.skip(i)) == line[i].len() + line_syms(line.skip(i + 1)));
        assert((gaps - i) * q == (gaps - i - 1) * q + q) by (nonlinear_arith);
        assert(gap_pad(diff, gaps, i) + rem_extra(diff, gaps, i + 1)
            == q + rem_extra(diff, gaps, i));
    }
}

/// A line the packer built is justified to exactly the target width.
pub proof fn lemma_justify_line_len(line: Seq<Seq<char>>, w: int)
    requires
        line.len() >= 1,
        line_syms(line) >= 0,
        line_syms(line) <= w,
    ensures
        justify_line(line, w).len() == w,
{
    let diff = w - line_syms(line);
    if line.len() == 1 {
        assert(line_syms(line) == line[0].len() + line_syms(line.drop_first()));
        assert(line.drop_first() =~= Seq::<Seq<char>>::empty());
        assert(line_syms(line) == line[0].len());
        assert(spaces(diff).len() == diff);
    } else {
        let gaps = line.len() - 1;
        let q = diff / gaps;
        let r = diff % gaps;
        lemma_justify_from_len(line, 0, diff, gaps);
        assert(line.skip(0) =~= line);
        lemma_fundamental_div_mod(diff, gaps);
        lemma_mod_division_less_than_divisor(diff, gaps);
        assert(0 <= r < gaps);
        assert(rem_extra(diff, gaps, 0) == r);
        assert(gaps * q + r == diff);
    }
}

/// WIDTH INVARIANT. When packing succeeds on a non-empty word sequence,
/// every line of the output has printed width exactly `w`: the output is
/// `lines.len()` segments of `w` characters, each the justified form of one
/// packed line, separated by single newlines.
pub proof fn lemma_width_invariant(s: Seq<char>, w: int, lines: Seq<Seq<Seq<char>>>, i: int)
    requires
        pack_words(words_of(s), w) == Some(lines),
        0 <= i < lines.len(),
    ensures
        justify_line(lines[i], w).len() == w,
        transform_spec(s, w).len() == lines.len() * (w + 1) - 1,
        transform_spec(s, w).subrange(i * (w + 1), i * (w + 1) + w)
            == justify_line(lines[i], w),
        i < lines.len() - 1 ==> transform_spec(s, w)[i * (w + 1) + w] == '\n',
{
    lemma_words_of_ok(s);
    lemma_pack_fold_wf(Seq::empty(), words_of(s), w);
    assert(line_wf_at(lines[i], w));
    crate::pack::lemma_syms_nonneg(lines[i]);
    lemma_justify_line_len(lines[i], w);
    lemma_render_len(lines, w);
    lemma_output_lines(lines, w, i);
}

/// The printed length of a successful non-empty output: `lines` lines of
/// width `w`, separated by `lines.len() - 1` newlines.
pub proof fn lemma_render_len(lines: Seq<Seq<Seq<char>>>, w: int)
    requires
        lines.len() >= 1,
        lines_wf_at(lines, w),
    ensures
        render_lines(lines, w).len() == lines.len() * (w + 1) - 1,
    decreases lines.len(),
{
    assert(line_wf_at(lines.first(), w));
    crate::pack::lemma_syms_nonneg(lines.first());
    lemma_justify_line_len(lines.first(), w);
    if lines.len() == 1 {
        assert(1 * (w + 1) - 1 == w);
    } else {
        assert(lines_wf_at(lines.drop_first(), w)) by {
            assert(forall|k: int| 0 <= k < lines.drop_first().len()
                ==> lines.drop_first()[k] == lines[k + 1]);
        }
        lemma_render_len(lines.drop_first(), w);
        assert(lines.len() * (w + 1) - 1
            == w + 1 + ((lines.len() - 1) * (w + 1) - 1)) by (nonlinear_arith);
    }
}

/// The output text decomposes into the justified lines: line `i` occupies
/// exactly the characters `i * (w + 1)` up to `i * (w + 1) + w` of the
/// rendered text — so every printed line has width exactly `w` — and a
/// single newline follows each line but the last.
pub proof fn lemma_output_lines(lines: Seq<Seq<Seq<char>>>, w: int, i: int)
    requires
        lines_wf_at(lines, w),
        0 <= i < lines.len(),
    ensures
        render_lines(lines, w).subrange(i * (w + 1), i * (w + 1) + w)
            == justify_line(lines[i], w),
        i < lines.len() - 1 ==> render_lines(lines, w)[i * (w + 1) + w] == '\n',
    decreases i,
{
    let out = render_lines(lines, w);
    assert(line_wf_at(lines.first(), w));
    crate::pack::lemma_syms_nonneg(lines.first());
    lemma_justify_line_len(lines.first(), w);
    let j0 = justify_line(lines.first(), w);
    lemma_render_len(lines, w);
    if i == 0 {
        assert(0 * (w + 1) == 0) by (nonlinear_arith);
        if lines.len() == 1 {
            assert(out.subrange(0, w) =~= j0);
        } else {
            assert(out == j0 + seq!['\n'] + render_lines(lines.drop_first(), w));
            assert(out.subrange(0, w) =~= j0);
            assert(out[w] == '\n');
        }
    } else {
        let rest = lines.drop_first();
        assert(lines_wf_at(rest, w)) by {
            assert(forall|k: int| 0 <= k < rest.len() ==> rest[k] == lines[k + 1]);
        }
        lemma_output_lines(rest, w, i - 1);
        lemma_render_len(rest, w);
        assert(out == j0 + seq!['\n'] + render_lines(rest, w));
        let tail = render_lines(rest, w);
        assert(i * (w + 1) == (i - 1) * (w + 1) + (w + 1)) by (nonlinear_arith);
        assert((i - 1) * (w + 1) >= 0 && (i - 1) * (w + 1) + w <= tail.len()) by (nonlinear_arith)
            requires
                1 <= i < lines.len(),
                w >= 0,
                tail.len() == (lines.len() - 1) * (w + 1) - 1,
        ;
        assert(out.subrange(i * (w + 1), i * (w + 1) + w)
            =~= tail.subrange((i - 1) * (w + 1), (i - 1) * (w + 1) + w));
        assert(rest[i - 1] == lines[i]);
        if i < lines.len() - 1 {
            assert(0 <= (i - 1) * (w + 1) + w < tail.len()) by (nonlinear_arith)
                requires
                    1 <= i < lines.len() - 1,
                    w >= 0,
                    tail.len() == (lines.len() - 1) * (w + 1) - 1,
            ;
            assert(i * (w + 1) + w == (w + 1) + ((i - 1) * (w + 1) + w)) by (nonlinear_arith);
            assert(out[i * (w + 1) + w] == tail[(i - 1) * (w + 1) + w]);
        }
    }
}

/// FAILURE CONDITION. An input with a word longer than the width transforms
/// to the empty text.
pub proof fn lemma_failure_condition(s: Seq<char>, w: int, i: int)
    requires
        0 <= i < words_of(s).len(),
        words_of(s)[i].len() > w,
    ensures
        transform_spec(s, w) == Seq::<char>::empty(),
{
    assert(has_oversize(words_of(s), w));
    lemma_pack_none_iff(Seq::empty(), words_of(s), w);
}

/// All-whitespace text tokenizes from a closed state to the same state.
proof fn lemma_tok_fold_all_space(done: Seq<Seq<char>>, s: Seq<char>)
    requires
        forall|i: int| 0 <= i < s.len() ==> is_space_char(s[i]),
    ensures
        tok_fold(done, Seq::empty(), s) == (done, Seq::<char>::empty()),
    decreases s.len(),
{
    if s.len() > 0 {
        assert(is_space_char(s[0]));
        assert(forall|i: int| 0 <= i < s.drop_first().len()
            ==> is_space_char(#[trigger] s.drop_first()[i])) by {
            assert(forall|i: int| 0 <= i < s.drop_first().len() ==> s.drop_first()[i] == s[i + 1]);
        }
        lemma_tok_fold_all_space(done, s.drop_first());
    }
}

/// EMPTY INPUT. Empty or all-whitespace input transforms to the empty text.
pub proof fn lemma_empty_input(s: Seq<char>, w: int)
    requires
        forall|i: int| 0 <= i < s.len() ==> is_space_char(s[i]),
    ensures
        transform_spec(s, w) == Seq::<char>::empty(),
{
    lemma_tok_fold_all_space(Seq::empty(), s);
    assert(words_of(s) =~= Seq::<Seq<char>>::empty());
    assert(pack_words(words_of(s), w) == Some(Seq::<Seq<Seq<char>>>::empty()));
}

/// Whitespace-free text only extends the open word.
proof fn lemma_tok_fold_nonspace(done: Seq<Seq<char>>, cur: Seq<char>, t: Seq<char>)
    requires
        no_space(t),
    ensures
        tok_fold(done, cur, t).0 == done,
        tok_fold(done, cur, t).1 == cur + t,
    decreases t.len(),
{
    if t.len() == 0 {
        assert(cur + t =~= cur);
    } else {
        assert(!is_space_char(t[0]));
        assert(no_space(t.drop_first())) by {
            assert(forall|i: int| 0 <= i < t.drop_first().len() ==> t.drop_first()[i] == t[i + 1]);
        }
        lemma_tok_fold_nonspace(done, cur.push(t[0]), t.drop_first());
        assert(cur.push(t[0]) + t.drop_first() =~= cur + t);
    }
}

/// A non-empty block of whitespace closes the open word and nothing more.
proof fn lemma_tok_fold_space_block(done: Seq<Seq<char>>, cur: Seq<char>, t: Seq<char>)
    requires
        t.len() >= 1,
        forall|i: int| 0 <= i < t.len() ==> is_space_char(t[i]),
    ensures
        tok_fold(done, cur, t) == (tok_close((done, cur)), Seq::<char>::empty()),
{
    assert(is_space_char(t[0]));
    let st = tok_step(done, cur, t[0]);
    assert(st == (tok_close((done, cur)), Seq::<char>::empty()));
    assert(forall|i: int| 0 <= i < t.drop_first().len()
        ==> is_space_char(#[trigger] t.drop_first()[i])) by {
        assert(forall|i: int| 0 <= i < t.drop_first().len() ==> t.drop_first()[i] == t[i + 1]);
    }
    lemma_tok_fold_all_space(st.0, t.drop_first());
}

/// The words of all the lines, in order.
pub open spec fn flat_words(lines: Seq<Seq<Seq<char>>>) -> Seq<Seq<char>>
    decreases lines.len(),
{
    if lines.len() == 0 {
        Seq::empty()
    } else {
        lines.first() + flat_words(lines.drop_first())
    }
}

proof fn lemma_flat_app(a: Seq<Seq<Seq<char>>>, b: Seq<Seq<Seq<char>>>)
    ensures
        flat_words(a + b) == flat_words(a) + flat_words(b),
    decreases a.len(),
{
    if a.len() == 0 {
        assert(a + b =~= b);
        assert(flat_words(a) + flat_words(b) =~= flat_words(b));
    } else {
        assert((a + b).first() == a.first());
        assert((a + b).drop_first() =~= a.drop_first() + b);
        lemma_flat_app(a.drop_first(), b);
        assert(a.first() + (flat_words(a.drop_first()) + flat_words(b))
            =~= (a.first() + flat_words(a.drop_first())) + flat_words(b));
    }
}

/// Each packing step appends exactly the word it consumed.
proof fn lemma_flat_step(lines: Seq<Seq<Seq<char>>>, word: Seq<char>, w: int)
    requires
        pack_step(lines, word, w) is Some,
    ensures
        flat_words(pack_step(lines, word, w)->Some_0) == flat_words(lines).push(word),
{
    reveal_with_fuel(flat_words, 3);
    let n = lines.len();
    if n > 0 && pad_okay(line_syms(lines.last()), lines.last().len() as int, word.len() as int, w) {
        let grown = lines.last().push(word);
        let upd = lines.update(n - 1, grown);
        assert(upd =~= lines.take(n - 1) + seq![grown]);
        assert(lines =~= lines.take(n - 1) + seq![lines.last()]);
        lemma_flat_app(lines.take(n - 1), seq![grown]);
        lemma_flat_app(lines.take(n - 1), seq![lines.last()]);
        assert(flat_words(seq![grown]) =~= grown) by {
            assert(seq![grown].first() == grown);
            assert(seq![grown].drop_first() =~= Seq::<Seq<Seq<char>>>::empty());
        }
        assert(flat_words(seq![lines.last()]) =~= lines.last()) by {
            assert(seq![lines.last()].first() == lines.last());
            assert(seq![lines.last()].drop_first() =~= Seq::<Seq<Seq<char>>>::empty());
        }
        assert(flat_words(upd) =~= flat_words(lines).push(word));
    } else {
        let pushed = lines.push(seq![word]);
        assert(pushed =~= lines + seq![seq![word]]);
        lemma_flat_app(lines, seq![seq![word]]);
        assert(flat_words(seq![seq![word]]) =~= seq![word]) by {
            assert(seq![seq![word]].first() == seq![word]);
            assert(seq![seq![word]].drop_first() =~= Seq::<Seq<Seq<char>>>::empty());
        }
        assert(flat_words(pushed) =~= flat_words(lines).push(word));
    }
}

/// Packing keeps every word, in order: the lines flatten back to the input.
proof fn lemma_pack_flatten(lines: Seq<Seq<Seq<char>>>, ws: Seq<Seq<char>>, w: int)
    requires
        pack_fold(lines, ws, w) is Some,
    ensures
        flat_words(pack_fold(lines, ws, w)->Some_0) == flat_words(lines) + ws,
    decreases ws.len(),
{
    if ws.len() == 0 {
        assert(flat_words(lines) + ws =~= flat_words(lines));
    } else {
        let next = pack_step(lines, ws.first(), w)->Some_0;
        lemma_flat_step(lines, ws.first(), w);
        lemma_pack_flatten(next, ws.drop_first(), w);
        assert(flat_words(lines).push(ws.first()) + ws.drop_first() =~= flat_words(lines) + ws);
    }
}

/// Tokenizing the justified tail of a multi-word line recovers its words.
proof fn lemma_justify_from_tok(done: Seq<Seq<char>>, line: Seq<Seq<char>>, i: int, diff: int, gaps: int)
    requires
        gaps == line.len() - 1,
        gaps >= 1,
        diff >= gaps,
        0 <= i < line.len(),
        forall|j: int| 0 <= j < line.len() ==> word_ok(#[trigger] line[j]),
    ensures
        tok_fold(done, Seq::empty(), justify_from(line, i, diff, gaps)).0
            == done + line.subrange(i, line.len() - 1),
        tok_fold(done, Seq::empty(), justify_from(line, i, diff, gaps)).1 == line.last(),
    decreases line.len() - i,
{
    lemma_mod_division_less_than_divisor(diff, gaps);
    lemma_fundamental_div_mod(diff, gaps);
    let q = diff / gaps;
    let r = diff % gaps;
    assert(q >= 1) by (nonlinear_arith)
        requires
            gaps >= 1,
            diff >= gaps,
            0 <= r < gaps,
            diff == gaps * q + r,
    ;
    if i == line.len() - 1 {
        lemma_tok_fold_nonspace(done, Seq::empty(), line[i]);
        assert(Seq::<char>::empty() + line[i] =~= line[i]);
        assert(done + line.subrange(i, line.len() - 1) =~= done);
        assert(line[i] == line.last());
    } else {
        let g = gap_pad(diff, gaps, i);
        assert(g >= 1);
        let a = line[i];
        let sp = spaces(g);
        let rest = justify_from(line, i + 1, diff, gaps);
        assert(justify_from(line, i, diff, gaps) == a + sp + rest);
        assert(a + sp + rest =~= (a + sp) + rest);
        lemma_tok_fold_app(done, Seq::empty(), a + sp, rest);
        lemma_tok_fold_app(done, Seq::empty(), a, sp);
        lemma_tok_fold_nonspace(done, Seq::empty(), a);
        assert(Seq::<char>::empty() + a =~= a);
        assert(word_ok(line[i]));
        assert(a.len() >= 1);
        assert(forall|k: int| 0 <= k < sp.len() ==> is_space_char(sp[k]));
        lemma_tok_fold_space_block(done, a, sp);
        assert(tok_fold(done, Seq::empty(), a + sp) == (done.push(a), Seq::<char>::empty()));
        lemma_justify_from_tok(done.push(a), line, i + 1, diff, gaps);
        assert(done.push(a) + line.subrange(i + 1, line.len() - 1)
            =~= done + line.subrange(i, line.len() - 1));
    }
}

/// Tokenizing one justified line recovers its words.
proof fn lemma_justify_line_tok(done: Seq<Seq<char>>, line: Seq<Seq<char>>, w: int)
    requires
        line_wf_at(line, w),
    ensures
        tok_close(tok_fold(done, Seq::empty(), justify_line(line, w))) == done + line,
{
    let diff = w - line_syms(line);
    if line.len() == 1 {
        assert(word_ok(line[0]));
        assert(line_syms(line) == line[0].len() + line_syms(line.drop_first()));
        assert(line.drop_first() =~= Seq::<Seq<char>>::empty());
        assert(diff >= 0);
        let t = line[0] + spaces(diff);
        if diff == 0 {
            assert(t =~= line[0]);
            lemma_tok_fold_nonspace(done, Seq::empty(), line[0]);
            assert(Seq::<char>::empty() + line[0] =~= line[0]);
            assert(tok_close(tok_fold(done, Seq::empty(), t)) == done.push(line[0]));
            assert(done.push(line[0]) =~= done + line) by {
                assert(line =~= seq![line[0]]);
            }
        } else {
            lemma_tok_fold_app(done, Seq::empty(), line[0], spaces(diff));
            lemma_tok_fold_nonspace(done, Seq::empty(), line[0]);
            assert(Seq::<char>::empty() + line[0] =~= line[0]);
            assert(forall|k: int| 0 <= k < spaces(diff).len()
                ==> is_space_char(#[trigger] spaces(diff)[k]));
            lemma_tok_fold_space_block(done, line[0], spaces(diff));
            assert(tok_fold(done, Seq::empty(), t) == (done.push(line[0]), Seq::<char>::empty()));
            assert(done.push(line[0]) =~= done + line) by {
                assert(line =~= seq![line[0]]);
            }
        }
    } else {
        let gaps = line.len() - 1;
        lemma_justify_from_tok(done, line, 0, diff, gaps);
        let st = tok_fold(done, Seq::empty(), justify_line(line, w));
        assert(st.1 == line.last());
        assert(line.last().len() >= 1);
        assert(tok_close(st) == st.0.push(line.last()));
        assert((done + line.subrange(0, line.len() - 1)).push(line.last()) =~= done + line);
    }
}

/// Tokenizing the rendered output recovers all the packed words, in order.
proof fn lemma_render_tok(done: Seq<Seq<char>>, lines: Seq<Seq<Seq<char>>>, w: int)
    requires
        lines_wf_at(lines, w),
    ensures
        tok_close(tok_fold(done, Seq::empty(), render_lines(lines, w))) == done + flat_words(lines),
    decreases lines.len(),
{
    reveal_with_fuel(flat_words, 3);
    if lines.len() == 0 {
        assert(done + flat_words(lines) =~= done);
    } else if lines.len() == 1 {
        assert(line_wf_at(lines.first(), w));
        lemma_justify_line_tok(done, lines.first(), w);
        assert(done + lines.first() =~= done + flat_words(lines)) by {
            assert(flat_words(lines.drop_first()) =~= Seq::<Seq<char>>::empty());
            assert(flat_words(lines) =~= lines.first());
        }
    } else {
        let first = lines.first();
        let a = justify_line(first, w);
        let nl = seq!['\n'];
        let rest = render_lines(lines.drop_first(), w);
        assert(render_lines(lines, w) == a + nl + rest);
        assert(a + nl + rest =~= (a + nl) + rest);
        lemma_tok_fold_app(done, Seq::empty(), a + nl, rest);
        lemma_tok_fold_app(done, Seq::empty(), a, nl);
        assert(line_wf_at(first, w));
        lemma_justify_line_tok(done, first, w);
        let st = tok_fold(done, Seq::empty(), a);
        assert(is_space_char(nl[0]));
        assert(forall|k: int| 0 <= k < nl.len() ==> is_space_char(nl[k]));
        lemma_tok_fold_space_block(st.0, st.1, nl);
        assert(tok_fold(st.0, st.1, nl) == (done + first, Seq::<char>::empty()));
        assert(lines_wf_at(lines.drop_first(), w)) by {
            assert(forall|k: int| 0 <= k < lines.drop_first().len()
                ==> lines.drop_first()[k] == lines[k + 1]);
        }
        lemma_render_tok(done + first, lines.drop_first(), w);
        assert(done + first + flat_words(lines.drop_first()) =~= done + flat_words(lines));
    }
}

/// WORD ROUND-TRIP. When packing succeeds, splitting the output on
/// whitespace yields exactly the input's ordered word sequence: justification
/// never drops, reorders or alters a word.
pub proof fn lemma_word_round_trip(s: Seq<char>, w: int)
    requires
        pack_words(words_of(s), w) is Some,
    ensures
        words_of(transform_spec(s, w)) == words_of(s),
{
    let ws = words_of(s);
    let lines = pack_words(ws, w)->Some_0;
    lemma_words_of_ok(s);
    lemma_pack_fold_wf(Seq::empty(), ws, w);
    lemma_pack_flatten(Seq::empty(), ws, w);
    assert(flat_words(Seq::<Seq<Seq<char>>>::empty()) + ws =~= ws);
    lemma_render_tok(Seq::empty(), lines, w);
    assert(Seq::<Seq<char>>::empty() + flat_words(lines) =~= flat_words(lines));
    assert(transform_spec(s, w) == render_lines(lines, w));
}

/// IDEMPOTENCE. Re-justifying already-justified text at the same width is a
/// fixed point: when the first call succeeds, transforming its output again
/// returns that output unchanged.
pub proof fn lemma_idempotent(s: Seq<char>, w: int)
    requires
        pack_words(words_of(s), w) is Some,
    ensures
        transform_spec(transform_spec(s, w), w) == transform_spec(s, w),
{
    lemma_word_round_trip(s, w);
    let t = transform_spec(s, w);
    assert(words_of(t) == words_of(s));
    assert(pack_words(words_of(t), w) == pack_words(words_of(s), w));
}

/// LEFT-BIASED REMAINDER. When the padding does not divide evenly over the
/// gaps of a multi-word line, the earliest gaps take the extra space: each of
/// the first `diff % gaps` gaps is one space wider than every later gap, and
/// gap widths never increase from left to right.
pub proof fn lemma_left_biased_remainder(diff: int, gaps: int, i: int, j: int)
    requires
        diff >= 0,
        gaps >= 1,
        0 <= i <= j < gaps,
    ensures
        gap_pad(diff, gaps, i) >= gap_pad(diff, gaps, j),
        i < diff % gaps <= j ==> gap_pad(diff, gaps, i) == gap_pad(diff, gaps, j) + 1,
        gap_pad(diff, gaps, i) == diff / gaps + if i < diff % gaps { 1int } else { 0int },
{
}

} // verus!
