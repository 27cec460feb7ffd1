//! Wrapping a name into the few short lines that fit the centre of a wheel.

use vstd::prelude::*;
use vstd::utf8::encode_utf8;
use crate::text::{is_whitespace, string_of, unicode_whitespace};
use crate::tokens::texts;

verus! {

/// The sign that stands for what was cut off.
pub const ELLIPSIS: char = '…';

/// The pieces of `s` from position `i` on, where `cur` holds the characters
/// of the piece that is being read. A piece is a maximal run of characters
/// that are no whitespace.
pub open spec fn pieces_from(s: Seq<char>, i: int, cur: Seq<char>) -> Seq<Seq<char>>
    decreases s.len() - i,
{
    if i < 0 || i >= s.len() {
        if cur.len() > 0 {
            seq![cur]
        } else {
            seq![]
        }
    } else if !unicode_whitespace(s[i]) {
        pieces_from(s, i + 1, cur.push(s[i]))
    } else if cur.len() > 0 {
        seq![cur] + pieces_from(s, i + 1, seq![])
    } else {
        pieces_from(s, i + 1, seq![])
    }
}

/// The pieces of `s` between whitespace, in order.
pub open spec fn pieces(s: Seq<char>) -> Seq<Seq<char>> {
    pieces_from(s, 0, seq![])
}

/// The pieces of a text between whitespace.
pub fn split_whitespace(s: &[char]) -> (r: Vec<Vec<char>>)
    ensures
        texts(r@) == pieces(s@),
{
    let mut out: Vec<Vec<char>> = Vec::new();
    let mut cur: Vec<char> = Vec::new();
    let ghost mut done: Seq<Seq<char>> = seq![];
    let mut i: usize = 0;
    proof {
        assert(texts(out@) =~= done);
    }
    while i < s.len()
        invariant
            i <= s.len(),
            pieces(s@) == done + pieces_from(s@, i as int, cur@),
            texts(out@) == done,
        decreases s.len() - i,
    {
        let c = s[i];
        if !is_whitespace(c) {
            cur.push(c);
        } else if cur.len() > 0 {
            proof {
                let ghost tail = pieces_from(s@, i + 1, seq![]);
                assert(pieces_from(s@, i as int, cur@) == seq![cur@] + tail);
                assert(done + (seq![cur@] + tail) =~= done.push(cur@) + tail);
                assert(texts(out@.push(cur)) =~= done.push(cur@));
                done = done.push(cur@);
            }
            out.push(cur);
            cur = Vec::new();
        } else {
            proof {
                assert(cur@ =~= seq![]);
            }
        }
        i += 1;
    }
    if cur.len() > 0 {
        proof {
            assert(pieces_from(s@, i as int, cur@) == seq![cur@]);
            assert(done + seq![cur@] =~= done.push(cur@));
            assert(texts(out@.push(cur)) =~= done.push(cur@));
        }
        out.push(cur);
    } else {
        proof {
            assert(done + pieces_from(s@, i as int, cur@) =~= done);
        }
    }
    out
}

/// The number of bytes that a text takes as a string.
pub open spec fn byte_len(s: Seq<char>) -> usize {
    encode_utf8(s).len() as usize
}

/// The number of bytes that a text takes as a string.
pub fn byte_length(s: &[char]) -> (n: usize)
    ensures
        n == byte_len(s@),
{
    let text = string_of(s);
    text.as_str().len()
}

/// The lines that are full and the line that is being filled.
pub struct Wrapping {
    pub out: Seq<Seq<char>>,
    pub line: Seq<char>,
}

/// The word cut to `max_chars` characters, the last of them the ellipsis.
pub open spec fn cut_word(word: Seq<char>, max_chars: usize) -> Seq<char> {
    word.take(max_chars - 1).push(ELLIPSIS)
}

/// The state after one more word: the word joins the line where the line
/// stays within `max_chars` bytes; else the line is closed and the word
/// starts the next one, or stands cut on a line of its own where it has
/// more than `max_chars` characters. A word that finds all lines full is
/// left out.
pub open spec fn with_word(st: Wrapping, word: Seq<char>, max_chars: usize, max_lines: usize) -> Wrapping {
    let sep: int = if st.line.len() == 0 {
        0
    } else {
        1
    };
    if byte_len(st.line) + sep + byte_len(word) <= max_chars {
        Wrapping {
            out: st.out,
            line: if st.line.len() == 0 {
                word
            } else {
                st.line.push(' ') + word
            },
        }
    } else {
        let closed = if st.line.len() > 0 {
            st.out.push(st.line)
        } else {
            st.out
        };
        if st.line.len() > 0 && closed.len() == max_lines {
            Wrapping { out: closed, line: seq![] }
        } else if word.len() > max_chars {
            Wrapping { out: closed.push(cut_word(word, max_chars)), line: seq![] }
        } else {
            Wrapping { out: closed, line: word }
        }
    }
}

/// The state after the words from position `i` on, or after as many of
/// them as it takes to fill all lines.
pub open spec fn with_words(
    words: Seq<Seq<char>>,
    i: int,
    st: Wrapping,
    max_chars: usize,
    max_lines: usize,
) -> Wrapping
    decreases words.len() - i,
{
    if i < 0 || i >= words.len() {
        st
    } else {
        let next = with_word(st, words[i], max_chars, max_lines);
        if next.out.len() == max_lines {
            next
        } else {
            with_words(words, i + 1, next, max_chars, max_lines)
        }
    }
}

/// The number of pieces in all lines together.
pub open spec fn pieces_in(lines: Seq<Seq<char>>) -> nat
    decreases lines.len(),
{
    if lines.len() == 0 {
        0
    } else {
        pieces_in(lines.drop_last()) + pieces(lines.last()).len()
    }
}

/// The line with an ellipsis at its end, where it has none.
pub open spec fn with_ellipsis(line: Seq<char>) -> Seq<char> {
    if line.len() > 0 && line.last() == ELLIPSIS {
        line
    } else {
        line.push(ELLIPSIS)
    }
}

/// The lines as they are shown: the line that was being filled is closed
/// where there is room for it, and the last line ends in an ellipsis where
/// all lines are full and words were left out.
pub open spec fn finished(st: Wrapping, words: nat, max_lines: usize) -> Seq<Seq<char>> {
    let lines = if st.line.len() > 0 && st.out.len() < max_lines {
        st.out.push(st.line)
    } else {
        st.out
    };
    if lines.len() == max_lines && lines.len() > 0 && words > pieces_in(lines) {
        lines.update(lines.len() - 1, with_ellipsis(lines.last()))
    } else {
        lines
    }
}

/// The lines joined by line breaks.
pub open spec fn joined(lines: Seq<Seq<char>>) -> Seq<char>
    decreases lines.len(),
{
    if lines.len() == 0 {
        seq![]
    } else if lines.len() == 1 {
        lines[0]
    } else {
        joined(lines.drop_last()).push('\n') + lines.last()
    }
}

/// The text wrapped into at most `max_lines` lines of at most `max_chars`
/// characters, word by word. Nothing fits no line and no width.
pub open spec fn wrapped(text: Seq<char>, max_chars: usize, max_lines: usize) -> Seq<char> {
    if max_chars == 0 || max_lines == 0 {
        seq![]
    } else {
        let words = pieces(text);
        let st = with_words(words, 0, Wrapping { out: seq![], line: seq![] }, max_chars, max_lines);
        joined(finished(st, words.len(), max_lines))
    }
}

proof fn lemma_pieces_in_grows(lines: Seq<Seq<char>>, n: int)
    requires
        0 <= n <= lines.len(),
    ensures
        pieces_in(lines.take(n)) <= pieces_in(lines),
    decreases lines.len() - n,
{
    if n < lines.len() {
        lemma_pieces_in_grows(lines, n + 1);
        assert(lines.take(n + 1).drop_last() =~= lines.take(n));
    } else {
        assert(lines.take(n) =~= lines);
    }
}

fn join_lines(lines: &Vec<Vec<char>>) -> (r: Vec<char>)
    ensures
        r@ == joined(texts(lines@)),
{
    let ghost all = texts(lines@);
    let mut out: Vec<char> = Vec::new();
    let mut i: usize = 0;
    proof {
        assert(all.take(0) =~= Seq::<Seq<char>>::empty());
    }
    while i < lines.len()
        invariant
            i <= lines.len(),
            all == texts(lines@),
            out@ == joined(all.take(i as int)),
        decreases lines.len() - i,
    {
        let ghost before = out@;
        if i > 0 {
            out.push('\n');
        }
        let line = &lines[i];
        let ghost start = out@;
        let mut k: usize = 0;
        while k < line.len()
            invariant
                k <= line.len(),
                out@ == start + line@.take(k as int),
            decreases line.len() - k,
        {
            out.push(line[k]);
            proof {
                assert(line@.take(k + 1) =~= line@.take(k as int).push(line@[k as int]));
                assert(out@ =~= start + line@.take(k + 1));
            }
            k += 1;
        }
        proof {
            assert(line@.take(line.len() as int) =~= line@);
            let next = all.take(i + 1);
            assert(next.drop_last() =~= all.take(i as int));
            assert(next.last() == line@);
            if i == 0 {
                assert(next.len() == 1);
                assert(out@ =~= next[0]);
            }
        }
        i += 1;
    }
    proof {
        assert(all.take(lines.len() as int) =~= all);
    }
    out
}

/// Wraps a text, word by word, into at most `max_lines` lines; a line
/// takes words while it stays within `max_chars` bytes. A word of more than
/// `max_chars` characters is cut and ends in an ellipsis, and so does the
/// last line where words were left out.
pub fn greedy_wrap(text: &str, max_chars: usize, max_lines: usize) -> (r: String)
    ensures
        r@ == wrapped(text@, max_chars, max_lines),
{
    if max_chars == 0 || max_lines == 0 {
        return String::new();
    }
    let cs = crate::text::chars_of(text);
    let mut words = split_whitespace(cs.as_slice());
    let ghost all = texts(words@);
    let ghost first = Wrapping { out: seq![], line: seq![] };
    let total = words.len();
    proof {
        assert(all.len() == words@.len());
    }
    let mut out: Vec<Vec<char>> = Vec::new();
    let mut line: Vec<char> = Vec::new();
    let mut i: usize = 0;
    let mut full = false;
    proof {
        assert(texts(out@) =~= Seq::<Seq<char>>::empty());
        assert(line@ =~= Seq::<char>::empty());
    }
    while i < total && !full
        invariant
            i <= total,
            total == words.len(),
            all == texts(words@),
            all == pieces(text@),
            max_chars > 0,
            max_lines > 0,
            first == (Wrapping { out: seq![], line: seq![] }),
            !full ==> texts(out@).len() < max_lines && with_words(
                all,
                0,
                first,
                max_chars,
                max_lines,
            ) == with_words(
                all,
                i as int,
                Wrapping { out: texts(out@), line: line@ },
                max_chars,
                max_lines,
            ),
            full ==> with_words(all, 0, first, max_chars, max_lines) == (Wrapping {
                out: texts(out@),
                line: line@,
            }),
        decreases total - i,
    {
        let word = &words[i];
        let ghost st = Wrapping { out: texts(out@), line: line@ };
        let ghost before = texts(out@);
        proof {
            assert(all[i as int] == word@);
            assert(before.len() == out@.len());
        }
        let sep: u128 = if line.len() == 0 {
            0
        } else {
            1
        };
        let need: u128 = (byte_length(line.as_slice()) as u128) + sep + (byte_length(
            word.as_slice(),
        ) as u128);
        if need <= max_chars as u128 {
            if line.len() > 0 {
                line.push(' ');
            }
            let ghost start = line@;
            let mut k: usize = 0;
            while k < word.len()
                invariant
                    k <= word.len(),
                    line@ == start + word@.take(k as int),
                decreases word.len() - k,
            {
                line.push(word[k]);
                proof {
                    assert(word@.take(k + 1) =~= word@.take(k as int).push(word@[k as int]));
                    assert(line@ =~= start + word@.take(k + 1));
                }
                k += 1;
            }
            proof {
                assert(word@.take(word.len() as int) =~= word@);
                if st.line.len() == 0 {
                    assert(line@ =~= word@);
                }
            }
        } else {
            let mut stop = false;
            if line.len() > 0 {
                proof {
                    assert(texts(out@.push(line)) =~= before.push(line@));
                }
                out.push(line);
                line = Vec::new();
                if out.len() == max_lines {
                    stop = true;
                }
            }
            proof {
                assert(line@ =~= Seq::<char>::empty());
            }
            if !stop {
                let ghost closed = texts(out@);
                if word.len() > max_chars {
                    let mut cut: Vec<char> = Vec::new();
                    let mut k: usize = 0;
                    while k < max_chars - 1
                        invariant
                            k <= max_chars - 1,
                            max_chars - 1 < word.len(),
                            cut@ == word@.take(k as int),
                        decreases max_chars - 1 - k,
                    {
                        cut.push(word[k]);
                        proof {
                            assert(word@.take(k + 1) =~= word@.take(k as int).push(word@[k as int]));
                        }
                        k += 1;
                    }
                    cut.push(ELLIPSIS);
                    proof {
                        assert(texts(out@.push(cut)) =~= closed.push(cut@));
                    }
                    out.push(cut);
                } else {
                    let mut k: usize = 0;
                    while k < word.len()
                        invariant
                            k <= word.len(),
                            line@ == word@.take(k as int),
                        decreases word.len() - k,
                    {
                        line.push(word[k]);
                        proof {
                            assert(word@.take(k + 1) =~= word@.take(k as int).push(word@[k as int]));
                        }
                        k += 1;
                    }
                    proof {
                        assert(word@.take(word.len() as int) =~= word@);
                    }
                }
            }
        }
        proof {
            let next = Wrapping { out: texts(out@), line: line@ };
            assert(next == with_word(st, all[i as int], max_chars, max_lines));
            assert(texts(out@).len() == out@.len());
        }
        if out.len() == max_lines {
            full = true;
        }
        i += 1;
    }
    let ghost st = with_words(all, 0, first, max_chars, max_lines);
    proof {
        assert(st == (Wrapping { out: texts(out@), line: line@ }));
        assert(texts(out@).len() == out@.len());
    }
    if line.len() > 0 && out.len() < max_lines {
        proof {
            assert(texts(out@.push(line)) =~= texts(out@).push(line@));
        }
        out.push(line);
    }
    let ghost lines = texts(out@);
    proof {
        assert(lines.len() == out@.len());
    }
    if out.len() == max_lines {
        let shown = count_shown(&out, total);
        if shown {
            let n = out.len();
            let last = &out[n - 1];
            proof {
                assert(lines[n - 1] == last@);
            }
            if !(last.len() > 0 && last[last.len() - 1] == ELLIPSIS) {
                let mut longer: Vec<char> = Vec::new();
                let mut k: usize = 0;
                while k < last.len()
                    invariant
                        k <= last.len(),
                        longer@ == last@.take(k as int),
                    decreases last.len() - k,
                {
                    longer.push(last[k]);
                    proof {
                        assert(last@.take(k + 1) =~= last@.take(k as int).push(last@[k as int]));
                    }
                    k += 1;
                }
                proof {
                    assert(last@.take(last.len() as int) =~= last@);
                }
                longer.push(ELLIPSIS);
                proof {
                    assert(texts(out@.update(n - 1, longer)) =~= lines.update(
                        n - 1,
                        with_ellipsis(lines[n - 1]),
                    ));
                }
                out.set(n - 1, longer);
            } else {
                proof {
                    assert(lines.update(n - 1, with_ellipsis(lines[n - 1])) =~= lines);
                }
            }
        }
    }
    let text = join_lines(&out);
    string_of(text.as_slice())
}

/// Whether fewer pieces stand in the lines than there are words.
fn count_shown(lines: &Vec<Vec<char>>, words: usize) -> (r: bool)
    ensures
        r == (words > pieces_in(texts(lines@))),
{
    let ghost all = texts(lines@);
    if words == 0 {
        return false;
    }
    let mut n: usize = 0;
    let mut i: usize = 0;
    proof {
        assert(all.take(0) =~= Seq::<Seq<char>>::empty());
    }
    while i < lines.len()
        invariant
            i <= lines.len(),
            all == texts(lines@),
            n == pieces_in(all.take(i as int)),
            n < words,
        decreases lines.len() - i,
    {
        let found = split_whitespace(lines[i].as_slice());
        proof {
            assert(all.take(i + 1).drop_last() =~= all.take(i as int));
            assert(all.take(i + 1).last() == lines@[i as int]@);
            assert(texts(found@).len() == found@.len());
            lemma_pieces_in_grows(all, i + 1);
        }
        if found.len() >= words - n {
            return false;
        }
        n = n + found.len();
        i += 1;
    }
    proof {
        assert(all.take(lines.len() as int) =~= all);
    }
    true
}

} // verus!
