//! Splitting input text into words: maximal runs of non-whitespace
//! characters, in left-to-right order, with all whitespace discarded.

use vstd::prelude::*;
use vstd::string::StrSliceExecFns;

verus! {

/// A word separator: one of the Unicode white-space characters, the same set
/// that `char::is_whitespace` recognises.
pub open spec fn is_space_char(c: char) -> bool {
    ||| c == ' '
    ||| c == '\t'
    ||| c == '\n'
    ||| c == '\u{0B}'
    ||| c == '\u{0C}'
    ||| c == '\r'
    ||| c == '\u{85}'
    ||| c == '\u{A0}'
    ||| c == '\u{1680}'
    ||| c == '\u{2000}'
    ||| c == '\u{2001}'
    ||| c == '\u{2002}'
    ||| c == '\u{2003}'
    ||| c == '\u{2004}'
    ||| c == '\u{2005}'
    ||| c == '\u{2006}'
    ||| c == '\u{2007}'
    ||| c == '\u{2008}'
    ||| c == '\u{2009}'
    ||| c == '\u{200A}'
    ||| c == '\u{2028}'
    ||| c == '\u{2029}'
    ||| c == '\u{202F}'
    ||| c == '\u{205F}'
    ||| c == '\u{3000}'
}

/// Runtime test for `is_space_char`.
pub fn is_space(c: char) -> (b: bool)
    ensures
        b == is_space_char(c),
{
    c == ' ' || c == '\t' || c == '\n' || c == '\u{0B}' || c == '\u{0C}' || c == '\r'
        || c == '\u{85}' || c == '\u{A0}' || c == '\u{1680}' || c == '\u{2000}'
        || c == '\u{2001}' || c == '\u{2002}' || c == '\u{2003}' || c == '\u{2004}'
        || c == '\u{2005}' || c == '\u{2006}' || c == '\u{2007}' || c == '\u{2008}'
        || c == '\u{2009}' || c == '\u{200A}' || c == '\u{2028}' || c == '\u{2029}'
        || c == '\u{202F}' || c == '\u{205F}' || c == '\u{3000}'
}

/// A word holds at least one character and no whitespace.
pub open spec fn no_space(w: Seq<char>) -> bool {
    forall|j: int| 0 <= j < w.len() ==> !is_space_char(w[j])
}

/// A well-formed word: non-empty and free of whitespace.
pub open spec fn word_ok(w: Seq<char>) -> bool {
    w.len() >= 1 && no_space(w)
}

/// Every word of the sequence is well-formed.
pub open spec fn words_ok(ws: Seq<Seq<char>>) -> bool {
    forall|k: int| 0 <= k < ws.len() ==> word_ok(#[trigger] ws[k])
}

/// One step of the tokenizer: feed character `c` into the state `(done, cur)`,
/// where `done` holds the finished words and `cur` the word being read.
pub open spec fn tok_step(done: Seq<Seq<char>>, cur: Seq<char>, c: char) -> (Seq<Seq<char>>, Seq<char>) {
    if is_space_char(c) {
        if cur.len() == 0 {
            (done, cur)
        } else {
            (done.push(cur), Seq::empty())
        }
    } else {
        (done, cur.push(c))
    }
}

/// Run the tokenizer over `s`, starting from the state `(done, cur)`.
pub open spec fn tok_fold(done: Seq<Seq<char>>, cur: Seq<char>, s: Seq<char>) -> (Seq<Seq<char>>, Seq<char>)
    decreases s.len(),
{
    if s.len() == 0 {
        (done, cur)
    } else {
        let st = tok_step(done, cur, s[0]);
        tok_fold(st.0, st.1, s.drop_first())
    }
}

/// Close the tokenizer state: a still-open word becomes the last word.
pub open spec fn tok_close(st: (Seq<Seq<char>>, Seq<char>)) -> Seq<Seq<char>> {
    if st.1.len() == 0 {
        st.0
    } else {
        st.0.push(st.1)
    }
}

/// The words of a text: maximal runs of non-whitespace characters, in order.
pub open spec fn words_of(s: Seq<char>) -> Seq<Seq<char>> {
    tok_close(tok_fold(Seq::empty(), Seq::empty(), s))
}

/// Folding one more character equals stepping the fold of the prefix.
pub proof fn lemma_tok_fold_snoc(done: Seq<Seq<char>>, cur: Seq<char>, s: Seq<char>, c: char)
    ensures
        tok_fold(done, cur, s.push(c)) == ({
            let st = tok_fold(done, cur, s);
            tok_step(st.0, st.1, c)
        }),
    decreases s.len(),
{
    reveal_with_fuel(tok_fold, 3);
    if s.len() == 0 {
        assert(s.push(c)[0] == c);
        assert(s.push(c).drop_first() =~= Seq::<char>::empty());
    } else {
        assert(s.push(c)[0] == s[0]);
        assert(s.push(c).drop_first() =~= s.drop_first().push(c));
        let st = tok_step(done, cur, s[0]);
        lemma_tok_fold_snoc(st.0, st.1, s.drop_first(), c);
    }
    let lhs = tok_fold(done, cur, s.push(c));
    let st = tok_fold(done, cur, s);
    let rhs = tok_step(st.0, st.1, c);
    assert(lhs =~= rhs);
}

/// The fold over a concatenation runs the two parts in turn.
pub proof fn lemma_tok_fold_app(done: Seq<Seq<char>>, cur: Seq<char>, a: Seq<char>, b: Seq<char>)
    ensures
        tok_fold(done, cur, a + b) == ({
            let st = tok_fold(done, cur, a);
            tok_fold(st.0, st.1, b)
        }),
    decreases a.len(),
{
    if a.len() == 0 {
        assert(a + b =~= b);
    } else {
        assert((a + b)[0] == a[0]);
        assert((a + b).drop_first() =~= a.drop_first() + b);
        let st = tok_step(done, cur, a[0]);
        lemma_tok_fold_app(st.0, st.1, a.drop_first(), b);
    }
}

/// The tokenizer only produces well-formed words.
pub proof fn lemma_tok_fold_ok(done: Seq<Seq<char>>, cur: Seq<char>, s: Seq<char>)
    requires
        words_ok(done),
        no_space(cur),
    ensures
        words_ok(tok_fold(done, cur, s).0),
        no_space(tok_fold(done, cur, s).1),
    decreases s.len(),
{
    if s.len() > 0 {
        let st = tok_step(done, cur, s[0]);
        if is_space_char(s[0]) {
            if cur.len() > 0 {
                assert(words_ok(done.push(cur))) by {
                    assert(forall|k: int| 0 <= k < done.len() ==> done.push(cur)[k] == done[k]);
                    assert(done.push(cur)[done.len() as int] == cur);
                }
            }
        } else {
            assert(no_space(cur.push(s[0]))) by {
                assert(forall|j: int| 0 <= j < cur.len() ==> cur.push(s[0])[j] == cur[j]);
                assert(cur.push(s[0])[cur.len() as int] == s[0]);
            }
        }
        lemma_tok_fold_ok(st.0, st.1, s.drop_first());
    }
}

/// Every word that tokenization yields is non-empty and free of whitespace.
pub proof fn lemma_words_of_ok(s: Seq<char>)
    ensures
        words_ok(words_of(s)),
{
    lemma_tok_fold_ok(Seq::empty(), Seq::empty(), s);
    let st = tok_fold(Seq::empty(), Seq::empty(), s);
    if st.1.len() > 0 {
        assert(forall|k: int| 0 <= k < st.0.len() ==> st.0.push(st.1)[k] == st.0[k]);
        assert(st.0.push(st.1)[st.0.len() as int] == st.1);
    }
}

/// Split `s` into its words, each returned as a slice of `s`.
pub fn tokenize<'a>(s: &'a str) -> (words: Vec<&'a str>)
    ensures
        words@.map_values(|w: &str| w@) == words_of(s@),
{
    let n = s.unicode_len();
    let mut words: Vec<&'a str> = Vec::new();
    let mut start: usize = 0;
    let mut in_word: bool = false;
    let mut i: usize = 0;
    while i < n
        invariant
            n == s@.len(),
            i <= n,
            in_word ==> start < i,
            tok_fold(Seq::empty(), Seq::empty(), s@.take(i as int)).0
                == words@.map_values(|w: &str| w@),
            tok_fold(Seq::empty(), Seq::empty(), s@.take(i as int)).1
                == (if in_word { s@.subrange(start as int, i as int) } else { Seq::<char>::empty() }),
        decreases n - i,
    {
        let c = s.get_char(i);
        proof {
            assert(s@.take(i as int).push(s@[i as int]) =~= s@.take(i + 1 as int));
            lemma_tok_fold_snoc(Seq::empty(), Seq::empty(), s@.take(i as int), s@[i as int]);
        }
        if is_space(c) {
            if in_word {
                let w = s.substring_char(start, i);
                words.push(w);
                proof {
                    assert(words@.map_values(|w: &str| w@)
                        =~= words@.drop_last().map_values(|w: &str| w@).push(w@));
                }
                in_word = false;
            }
        } else {
            if !in_word {
                start = i;
                in_word = true;
            }
            proof {
                assert(s@.subrange(start as int, i as int).push(s@[i as int])
                    =~= s@.subrange(start as int, i + 1 as int));
            }
        }
        i += 1;
    }
    proof {
        assert(s@.take(n as int) =~= s@);
    }
    if in_word {
        let w = s.substring_char(start, n);
        words.push(w);
        proof {
            assert(words@.map_values(|w: &str| w@)
                =~= words@.drop_last().map_values(|w: &str| w@).push(w@));
        }
    }
    words
}

} // verus!
