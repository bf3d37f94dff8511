//! Padding distribution and rendering: each packed line is padded with
//! spaces so its printed width equals the target width, the slack spread as
//! evenly as possible over the inter-word gaps with earlier gaps taking any
//! remainder; a single-word line takes all padding as trailing spaces; the
//! justified lines are joined by single newlines.

use vstd::prelude::*;
use vstd::arithmetic::div_mod::lemma_fundamental_div_mod;
use vstd::string::StringExecFns;
use crate::pack::Line;
use crate::pack::line_budget;
use crate::pack::line_syms;
use crate::pack::lines_view;

verus! {

/// `n` spaces (none when `n` is negative).
pub open spec fn spaces(n: int) -> Seq<char> {
    Seq::new(if n < 0 { 0 } else { n as nat }, |i: int| ' ')
}

/// Padding of gap `i` of a line with `gaps` gaps and `diff` padding spaces to
/// distribute: every gap takes `diff / gaps`, and each of the first
/// `diff % gaps` gaps — the earliest — takes one more.
pub open spec fn gap_pad(diff: int, gaps: int, i: int) -> int {
    diff / gaps + if i < diff % gaps { 1int } else { 0int }
}

/// The justified text of words `i..` of a multi-word line: each word but the
/// last is followed by its gap's padding; the last word ends the line.
pub open spec fn justify_from(line: Seq<Seq<char>>, i: int, diff: int, gaps: int) -> Seq<char>
    decreases line.len() - i,
{
    if i < 0 || i >= line.len() {
        Seq::empty()
    } else if i == line.len() - 1 {
        line[i]
    } else {
        line[i] + spaces(gap_pad(diff, gaps, i)) + justify_from(line, i + 1, diff, gaps)
    }
}

/// One justified line: padding fills the printed width up to `w`; a
/// single-word line takes the whole difference as trailing spaces.
pub open spec fn justify_line(line: Seq<Seq<char>>, w: int) -> Seq<char> {
    let diff = w - line_syms(line);
    if line.len() == 1 {
        line[0] + spaces(diff)
    } else {
        justify_from(line, 0, diff, line.len() - 1)
    }
}

/// The rendered output: justified lines joined by single newlines, with no
/// separator after the last line.
pub open spec fn render_lines(lines: Seq<Seq<Seq<char>>>, w: int) -> Seq<char>
    decreases lines.len(),
{
    if lines.len() == 0 {
        Seq::empty()
    } else if lines.len() == 1 {
        justify_line(lines.first(), w)
    } else {
        justify_line(lines.first(), w) + seq!['\n'] + render_lines(lines.drop_first(), w)
    }
}

/// Append `n` spaces to `out`.
fn append_spaces(out: &mut String, n: usize)
    ensures
        final(out)@ == old(out)@ + spaces(n as int),
{
    let mut k: usize = 0;
    proof {
        assert(old(out)@ + spaces(0) =~= old(out)@);
    }
    while k < n
        invariant
            k <= n,
            out@ == old(out)@ + spaces(k as int),
        decreases n - k,
    {
        out.append(" ");
        proof {
            reveal_strlit(" ");
            assert(old(out)@ + spaces(k as int) + " "@ =~= old(out)@ + spaces(k + 1 as int));
        }
        k += 1;
    }
}

/// Append the justified form of `line` to `out`.
pub fn justify_into(line: &Line<'_>, width: usize, out: &mut String)
    requires
        line.wf(),
        line_budget(line@, width as int),
    ensures
        final(out)@ == old(out)@ + justify_line(line@, width as int),
{
    let n = line.words.len();
    proof {
        assert(line@.len() == n as int);
    }
    let diff = width - line.symbols;
    if n == 1 {
        let w0 = line.words[0];
        out.append(w0);
        append_spaces(out, diff);
        proof {
            assert(old(out)@ + w0@ + spaces(diff as int)
                =~= old(out)@ + (line@[0] + spaces(diff as int)));
        }
    } else {
        let gaps = n - 1;
        let pad = diff / gaps;
        let extra = diff % gaps;
        proof {
            lemma_fundamental_div_mod(diff as int, gaps as int);
            assert(justify_from(line@, 0, diff as int, gaps as int)
                =~= Seq::<char>::empty() + justify_from(line@, 0, diff as int, gaps as int));
        }
        let mut i: usize = 0;
        while i < n
            invariant
                line.wf(),
                line_budget(line@, width as int),
                n == line@.len(),
                n == line.words@.len(),
                2 <= n,
                gaps == n - 1,
                diff == width - line.symbols,
                pad == diff as int / gaps as int,
                extra == diff as int % gaps as int,
                i <= n,
                out@ + justify_from(line@, i as int, diff as int, gaps as int)
                    == old(out)@ + justify_from(line@, 0, diff as int, gaps as int),
            decreases n - i,
        {
            let wi = line.words[i];
            proof {
                assert(line@[i as int] == wi@);
            }
            out.append(wi);
            if i < gaps {
                let g: usize = if i < extra {
                    proof {
                        assert(pad + 1 <= diff) by {
                            lemma_fundamental_div_mod(diff as int, gaps as int);
                            assert(diff as int == gaps as int * pad as int + extra as int);
                            assert(extra as int >= 1);
                            assert(gaps as int >= 1);
                            assert(pad as int >= 0);
                            assert(gaps as int * pad as int >= pad as int) by (nonlinear_arith)
                                requires gaps as int >= 1, pad as int >= 0,
                            ;
                        }
                    }
                    pad + 1
                } else {
                    pad
                };
                append_spaces(out, g);
                proof {
                    assert(g as int == gap_pad(diff as int, gaps as int, i as int));
                }
            }
            proof {
                let li = line@;
                let d = diff as int;
                let gp = gaps as int;
                let ii = i as int;
                if ii == n - 1 {
                    assert(justify_from(li, ii, d, gp) == li[ii]);
                    assert(justify_from(li, ii + 1, d, gp) =~= Seq::<char>::empty());
                    assert(out@ + justify_from(li, ii + 1, d, gp)
                        =~= old(out)@ + justify_from(li, 0, d, gp));
                } else {
                    assert(justify_from(li, ii, d, gp)
                        == li[ii] + spaces(gap_pad(d, gp, ii)) + justify_from(li, ii + 1, d, gp));
                    assert(out@ + justify_from(li, ii + 1, d, gp)
                        =~= old(out)@ + justify_from(li, 0, d, gp));
                }
            }
            i += 1;
        }
        proof {
            assert(justify_from(line@, n as int, diff as int, gaps as int)
                =~= Seq::<char>::empty());
            assert(out@ =~= out@ + justify_from(line@, n as int, diff as int, gaps as int));
        }
    }
}

/// Render the packed lines: each justified to `width`, joined by newlines.
pub fn render(lines: &Vec<Line<'_>>, width: usize) -> (out: String)
    requires
        forall|k: int| 0 <= k < lines@.len() ==> (#[trigger] lines@[k]).wf(),
        forall|k: int| 0 <= k < lines@.len()
            ==> line_budget((#[trigger] lines@[k])@, width as int),
    ensures
        out@ == render_lines(lines_view(lines@), width as int),
{
    let ghost lv = lines_view(lines@);
    let mut out = String::new();
    let mut i: usize = 0;
    proof {
        assert(lv.skip(0) =~= lv);
        assert(out@ + render_lines(lv, width as int) =~= render_lines(lv, width as int));
    }
    while i < lines.len()
        invariant
            lv == lines_view(lines@),
            lv.len() == lines@.len(),
            forall|k: int| 0 <= k < lines@.len() ==> (#[trigger] lines@[k]).wf(),
            forall|k: int| 0 <= k < lines@.len()
                ==> line_budget((#[trigger] lines@[k])@, width as int),
            i <= lines@.len(),
            out@ + render_lines(lv.skip(i as int), width as int)
                == render_lines(lv, width as int),
        decreases lines@.len() - i,
    {
        let li = &lines[i];
        proof {
            assert(lv[i as int] == lines@[i as int]@);
            assert(lv.skip(i as int).first() == lv[i as int]);
            assert(lv.skip(i as int).drop_first() =~= lv.skip(i + 1 as int));
        }
        let ghost out_before = out@;
        justify_into(li, width, &mut out);
        if i + 1 < lines.len() {
            out.append("\n");
            proof {
                reveal_strlit("\n");
                assert("\n"@ =~= seq!['\n']);
                assert(lv.skip(i as int).len() >= 2);
                assert(render_lines(lv.skip(i as int), width as int)
                    == justify_line(lv[i as int], width as int) + seq!['\n']
                        + render_lines(lv.skip(i + 1 as int), width as int));
                assert(out@ + render_lines(lv.skip(i + 1 as int), width as int)
                    =~= out_before + render_lines(lv.skip(i as int), width as int));
            }
        } else {
            proof {
                assert(lv.skip(i as int).len() == 1);
                assert(render_lines(lv.skip(i as int), width as int)
                    == justify_line(lv[i as int], width as int));
                assert(lv.skip(i + 1 as int) =~= Seq::<Seq<Seq<char>>>::empty());
                assert(out@ + render_lines(lv.skip(i + 1 as int), width as int)
                    =~= out_before + render_lines(lv.skip(i as int), width as int));
            }
        }
        i += 1;
    }
    proof {
        assert(lv.skip(lines@.len() as int) =~= Seq::<Seq<Seq<char>>>::empty());
        assert(out@ =~= out@ + render_lines(lv.skip(lines@.len() as int), width as int));
    }
    out
}

} // verus!
