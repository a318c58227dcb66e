//! Splitting text into lines.
//!
//! A line ends at a newline, or at a carriage return directly followed by a
//! newline; neither ending belongs to the line. A final line needs no ending,
//! and an ending at the very end of the text opens no empty last line.
use vstd::prelude::*;
use vstd::utf8::*;
use crate::chars::{lemma_encode_push, lemma_encode_split, slice_chars, utf8_width};

verus! {

/// `i` is the position of the first newline in `s`.
pub open spec fn is_first_newline(s: Seq<char>, i: int) -> bool {
    &&& 0 <= i < s.len()
    &&& s[i] == '\n'
    &&& forall|j: int| 0 <= j < i ==> s[j] != '\n'
}

/// `t` without the carriage return at its end, if it has one.
pub open spec fn strip_cr(t: Seq<char>) -> Seq<char> {
    if t.len() > 0 && t.last() == '\r' {
        t.drop_last()
    } else {
        t
    }
}

/// The lines of `s`, in order.
pub open spec fn lines_of(s: Seq<char>) -> Seq<Seq<char>>
    decreases s.len(),
{
    if s.len() == 0 {
        Seq::empty()
    } else if exists|i: int| is_first_newline(s, i) {
        let i = choose|i: int| is_first_newline(s, i);
        seq![strip_cr(s.take(i))] + lines_of(s.skip(i + 1))
    } else {
        seq![s]
    }
}

/// Where `s` has its first newline at `i`, its lines are the text before it
/// and then the lines of the rest.
pub proof fn lemma_lines_at_newline(s: Seq<char>, i: int)
    requires
        is_first_newline(s, i),
    ensures
        lines_of(s) == seq![strip_cr(s.take(i))] + lines_of(s.skip(i + 1)),
{
    let c = choose|c: int| is_first_newline(s, c);
    assert(is_first_newline(s, c));
    if c < i {
        assert(s[c] != '\n');
    } else if i < c {
        assert(s[i] != '\n');
    }
}

/// The lines of `text`, each a view into `text`.
pub fn lines<'a>(text: &'a str) -> (r: Vec<&'a str>)
    ensures
        r.deep_view() == lines_of(text@),
{
    let ghost s = text@;
    let mut r: Vec<&'a str> = Vec::new();
    let mut byte: usize = 0;
    let mut start_byte: usize = 0;
    let ghost mut start: int = 0;
    let mut prev_cr = false;
    let mut in_line = false;
    let total = text.as_bytes().len();
    assert(s.skip(0) =~= s);
    for c in it: text.chars()
        invariant
            s == text@,
            total == encode_utf8(s).len(),
            it.seq() == s,
            0 <= start <= it.index() <= s.len(),
            byte == encode_utf8(s.take(it.index() as int)).len(),
            start_byte == encode_utf8(s.take(start)).len(),
            forall|j: int| start <= j < it.index() ==> s[j] != '\n',
            prev_cr == (start < it.index() && s[it.index() - 1] == '\r'),
            in_line == (start < it.index()),
            lines_of(s) == r.deep_view() + lines_of(s.skip(start)),
    {
        let ghost pos = it.index() as int;
        proof {
            lemma_encode_split(s, pos + 1);
            assert(s.take(pos + 1) =~= s.take(pos).push(c));
            lemma_encode_push(s.take(pos), c);
            assert(pos < s.len());
        }
        let width = utf8_width(c);
        if c == '\n' {
            let end_byte = if prev_cr {
                byte - 1
            } else {
                byte
            };
            let ghost end: int = if prev_cr {
                pos - 1
            } else {
                pos
            };
            proof {
                if prev_cr {
                    assert(s.take(pos) =~= s.take(pos - 1).push('\r'));
                    lemma_encode_push(s.take(pos - 1), '\r');
                }
            }
            let line = slice_chars(text, Ghost(start), Ghost(end), start_byte, end_byte);
            proof {
                let rest = s.skip(start);
                assert(is_first_newline(rest, pos - start));
                lemma_lines_at_newline(rest, pos - start);
                assert(rest.skip(pos - start + 1) =~= s.skip(pos + 1));
                assert(strip_cr(rest.take(pos - start)) =~= s.subrange(start, end));
            }
            let ghost before = r.deep_view();
            r.push(line);
            proof {
                assert(r.deep_view() =~= before.push(line@));
                assert(lines_of(s) =~= r.deep_view() + lines_of(s.skip(pos + 1)));
                start = pos + 1;
            }
            start_byte = byte + width;
            prev_cr = false;
            in_line = false;
        } else {
            prev_cr = c == '\r';
            in_line = true;
        }
        byte = byte + width;
    }
    if in_line {
        proof {
            let rest = s.skip(start);
            assert(!exists|i: int| is_first_newline(rest, i));
            assert(lines_of(rest) == seq![rest]);
            assert(s.take(s.len() as int) =~= s);
        }
        let line = slice_chars(text, Ghost(start), Ghost(s.len() as int), start_byte, byte);
        let ghost before = r.deep_view();
        r.push(line);
        proof {
            assert(s.subrange(start, s.len() as int) =~= s.skip(start));
            assert(r.deep_view() =~= before.push(line@));
            assert(lines_of(s) =~= r.deep_view());
        }
    } else {
        proof {
            assert(s.skip(start).len() == 0);
            assert(lines_of(s) =~= r.deep_view());
        }
    }
    r
}

} // verus!
