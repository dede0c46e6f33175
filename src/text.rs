//! Characters, strings, words and lines.

use crate::numeric::{dec_digits, hex64, hex_char, hex_digits};
use vstd::prelude::*;
use vstd::std_specs::iter::IteratorSpec;
use vstd::string::*;

verus! {

broadcast use vstd::string::group_string_axioms;

/// Relies on `String::push`: the character is appended at the end.
#[verifier::external_body]
pub(crate) fn push_char(s: &mut String, c: char)
    ensures
        final(s)@ == old(s)@.push(c),
{
    s.push(c);
}

/// Appends `t` to `s`.
pub fn push_str(s: &mut String, t: &str)
    ensures
        final(s)@ == old(s)@ + t@,
{
    s.append(t);
}

/// The characters of `s`, in order.
pub fn chars_of(s: &str) -> (r: Vec<char>)
    ensures
        r@ == s@,
{
    let mut it = s.chars();
    let mut out: Vec<char> = Vec::new();
    loop
        invariant
            out@ + it.remaining() == s@,
            it.decrease() is Some,
        ensures
            out@ == s@,
        decreases it.decrease()->0,
    {
        match it.next() {
            Some(c) => {
                out.push(c);
            },
            None => {
                assert(out@ =~= s@);
                break;
            },
        }
    }
    out
}

/// A string holding `s[lo..hi]`.
pub fn string_from(s: &Vec<char>, lo: usize, hi: usize) -> (r: String)
    requires
        lo <= hi <= s@.len(),
    ensures
        r@ == s@.subrange(lo as int, hi as int),
{
    let mut out = String::new();
    let mut i: usize = lo;
    while i < hi
        invariant
            lo <= i <= hi <= s@.len(),
            out@ == s@.subrange(lo as int, i as int),
        decreases hi - i,
    {
        push_char(&mut out, s[i]);
        i = i + 1;
        assert(out@ =~= s@.subrange(lo as int, i as int));
    }
    out
}

/// Appends the low `width` hexadecimal digits of `n`, zero-padded.
pub fn push_hex(s: &mut String, n: u64, width: usize)
    ensures
        final(s)@ == old(s)@ + hex_digits(n as nat, width as nat),
    decreases width,
{
    if width == 0 {
        assert(final(s)@ =~= old(s)@ + hex_digits(n as nat, width as nat));
    } else {
        push_hex(s, n / 16, width - 1);
        push_char(s, char_of_digit((n % 16) as u32));
        assert(final(s)@ =~= old(s)@ + hex_digits(n as nat, width as nat));
    }
}

fn char_of_digit(d: u32) -> (c: char)
    requires
        d < 16,
    ensures
        c == hex_char(d as nat),
{
    if d < 10 {
        ((('0' as u8) + d as u8) as char)
    } else {
        ((('a' as u8) + (d - 10) as u8) as char)
    }
}

/// Appends `0x` and the 16 hexadecimal digits of `n`.
pub fn push_hex64(s: &mut String, n: u64)
    ensures
        final(s)@ == old(s)@ + hex64(n),
{
    push_char(s, '0');
    push_char(s, 'x');
    push_hex(s, n, 16);
    assert(final(s)@ =~= old(s)@ + hex64(n));
}

/// Appends `n` in decimal.
pub fn push_dec(s: &mut String, n: u64)
    ensures
        final(s)@ == old(s)@ + dec_digits(n as nat),
    decreases n,
{
    if n < 10 {
        push_char(s, char_of_digit(n as u32));
        assert(final(s)@ =~= old(s)@ + dec_digits(n as nat));
    } else {
        push_dec(s, n / 10);
        push_char(s, char_of_digit((n % 10) as u32));
        assert(final(s)@ =~= old(s)@ + dec_digits(n as nat));
    }
}

/// White space as Unicode's `White_Space` property has it.
pub open spec fn is_space(c: char) -> bool {
    c == ' ' || ('\t' <= c && c <= '\r') || c == '\u{85}' || c == '\u{a0}' || c == '\u{1680}' || (
    '\u{2000}' <= c && c <= '\u{200a}') || c == '\u{2028}' || c == '\u{2029}' || c == '\u{202f}'
        || c == '\u{205f}' || c == '\u{3000}'
}

fn is_space_char(c: char) -> (r: bool)
    ensures
        r == is_space(c),
{
    c == ' ' || ('\t' <= c && c <= '\r') || c == '\u{85}' || c == '\u{a0}' || c == '\u{1680}' || (
    '\u{2000}' <= c && c <= '\u{200a}') || c == '\u{2028}' || c == '\u{2029}' || c == '\u{202f}'
        || c == '\u{205f}' || c == '\u{3000}'
}

/// The words finished so far and the word being read, after one more character.
pub open spec fn word_step(st: (Seq<Seq<char>>, Seq<char>), c: char) -> (Seq<Seq<char>>, Seq<char>) {
    if is_space(c) {
        if st.1.len() > 0 {
            (st.0.push(st.1), Seq::empty())
        } else {
            (st.0, Seq::empty())
        }
    } else {
        (st.0, st.1.push(c))
    }
}

pub open spec fn word_scan(s: Seq<char>) -> (Seq<Seq<char>>, Seq<char>)
    decreases s.len(),
{
    if s.len() == 0 {
        (Seq::empty(), Seq::empty())
    } else {
        word_step(word_scan(s.drop_last()), s.last())
    }
}

/// The maximal runs of characters that are not white space, in order.
pub open spec fn words(s: Seq<char>) -> Seq<Seq<char>> {
    let st = word_scan(s);
    if st.1.len() > 0 {
        st.0.push(st.1)
    } else {
        st.0
    }
}

/// `ranges` picks, out of `s`, exactly the sequences of `parts`.
pub open spec fn ranges_pick(s: Seq<char>, ranges: Seq<(usize, usize)>, parts: Seq<Seq<char>>) -> bool {
    &&& ranges.len() == parts.len()
    &&& forall|k: int|
        0 <= k < ranges.len() ==> {
            &&& (#[trigger] ranges[k]).0 <= ranges[k].1 <= s.len()
            &&& s.subrange(ranges[k].0 as int, ranges[k].1 as int) == parts[k]
        }
}

/// The positions of the words of `s[lo..hi]`.
pub fn word_ranges(s: &Vec<char>, lo: usize, hi: usize) -> (r: Vec<(usize, usize)>)
    requires
        lo <= hi <= s@.len(),
    ensures
        ranges_pick(s@, r@, words(s@.subrange(lo as int, hi as int))),
{
    let mut out: Vec<(usize, usize)> = Vec::new();
    let mut start: usize = lo;
    let mut i: usize = lo;
    while i < hi
        invariant
            lo <= start <= i <= hi <= s@.len(),
            ranges_pick(s@, out@, word_scan(s@.subrange(lo as int, i as int)).0),
            word_scan(s@.subrange(lo as int, i as int)).1 == s@.subrange(start as int, i as int),
        decreases hi - i,
    {
        assert(s@.subrange(lo as int, i + 1).drop_last() =~= s@.subrange(lo as int, i as int));
        assert(s@.subrange(lo as int, i + 1).last() == s@[i as int]);
        if is_space_char(s[i]) {
            if start < i {
                out.push((start, i));
            }
            start = i + 1;
        } else {
            assert(s@.subrange(start as int, i + 1) =~= s@.subrange(start as int, i as int).push(
                s@[i as int],
            ));
        }
        i = i + 1;
        proof {
            let st2 = word_scan(s@.subrange(lo as int, i as int));
            assert(st2.1 =~= s@.subrange(start as int, i as int));
            assert forall|k: int| 0 <= k < out@.len() implies {
                &&& (#[trigger] out@[k]).0 <= out@[k].1 <= s@.len()
                &&& s@.subrange(out@[k].0 as int, out@[k].1 as int) == st2.0[k]
            } by {}
        }
    }
    if start < hi {
        out.push((start, hi));
    }
    proof {
        let w = words(s@.subrange(lo as int, hi as int));
        assert forall|k: int| 0 <= k < out@.len() implies {
            &&& (#[trigger] out@[k]).0 <= out@[k].1 <= s@.len()
            &&& s@.subrange(out@[k].0 as int, out@[k].1 as int) == w[k]
        } by {}
    }
    out
}

/// `parts` written one after another, a single space between two of them.
pub open spec fn join_words(parts: Seq<Seq<char>>) -> Seq<char>
    decreases parts.len(),
{
    if parts.len() == 0 {
        Seq::empty()
    } else if parts.len() == 1 {
        parts[0]
    } else {
        join_words(parts.drop_last()).push(' ') + parts.last()
    }
}

/// Joining one more part adds a space and the part.
pub proof fn lemma_join_push(parts: Seq<Seq<char>>, w: Seq<char>)
    requires
        parts.len() >= 1,
    ensures
        join_words(parts.push(w)) == join_words(parts).push(' ') + w,
{
    assert(parts.push(w).drop_last() =~= parts);
}

/// Every part is a word: not empty, and free of white space.
pub open spec fn all_words(parts: Seq<Seq<char>>) -> bool {
    forall|k: int|
        0 <= k < parts.len() ==> {
            &&& (#[trigger] parts[k]).len() > 0
            &&& forall|j: int| 0 <= j < parts[k].len() ==> !is_space(#[trigger] parts[k][j])
        }
}

proof fn lemma_word_scan_append(pre: Seq<char>, t: Seq<char>)
    requires
        forall|j: int| 0 <= j < t.len() ==> !is_space(#[trigger] t[j]),
    ensures
        word_scan(pre + t) == (word_scan(pre).0, word_scan(pre).1 + t),
    decreases t.len(),
{
    if t.len() == 0 {
        assert(pre + t =~= pre);
        assert(word_scan(pre).1 + t =~= word_scan(pre).1);
    } else {
        assert((pre + t).drop_last() =~= pre + t.drop_last());
        assert((pre + t).last() == t.last());
        lemma_word_scan_append(pre, t.drop_last());
        assert(word_scan(pre).1 + t.drop_last() + seq![t.last()] =~= word_scan(pre).1 + t);
        assert((word_scan(pre).1 + t.drop_last()).push(t.last()) =~= word_scan(pre).1 + t);
    }
}

proof fn lemma_word_scan_join(parts: Seq<Seq<char>>)
    requires
        parts.len() >= 1,
        all_words(parts),
    ensures
        word_scan(join_words(parts)) == (parts.drop_last(), parts.last()),
    decreases parts.len(),
{
    if parts.len() == 1 {
        assert(Seq::<char>::empty() + parts[0] =~= parts[0]);
        assert(parts[0] == parts[0]);
        lemma_word_scan_append(Seq::empty(), parts[0]);
        assert(Seq::<char>::empty() + parts[0] =~= parts[0]);
        assert(parts.drop_last() =~= Seq::<Seq<char>>::empty());
    } else {
        let dl = parts.drop_last();
        assert(all_words(dl)) by {
            assert forall|k: int| 0 <= k < dl.len() implies {
                &&& (#[trigger] dl[k]).len() > 0
                &&& forall|j: int| 0 <= j < dl[k].len() ==> !is_space(#[trigger] dl[k][j])
            } by {
                assert(dl[k] == parts[k]);
            }
        }
        lemma_word_scan_join(dl);
        let jd = join_words(dl);
        assert(jd.push(' ').drop_last() =~= jd);
        assert(dl.drop_last().push(dl.last()) =~= dl);
        assert(parts.last() == parts[parts.len() - 1]);
        lemma_word_scan_append(jd.push(' '), parts.last());
    }
}

/// Words joined by single spaces split back into the same words.
pub proof fn lemma_words_join(parts: Seq<Seq<char>>)
    requires
        all_words(parts),
    ensures
        words(join_words(parts)) == parts,
{
    if parts.len() == 0 {
        assert(words(join_words(parts)) =~= parts);
    } else {
        lemma_word_scan_join(parts);
        assert(parts.last() == parts[parts.len() - 1]);
        assert(parts.drop_last().push(parts.last()) =~= parts);
    }
}

/// A line without the carriage return that ends it, if any.
pub open spec fn strip_cr(l: Seq<char>) -> Seq<char> {
    if l.len() > 0 && l.last() == '\r' {
        l.drop_last()
    } else {
        l
    }
}

/// The lines finished so far and the line being read, after one more character.
pub open spec fn line_step(st: (Seq<Seq<char>>, Seq<char>), c: char) -> (Seq<Seq<char>>, Seq<char>) {
    if c == '\n' {
        (st.0.push(strip_cr(st.1)), Seq::empty())
    } else {
        (st.0, st.1.push(c))
    }
}

pub open spec fn line_scan(s: Seq<char>) -> (Seq<Seq<char>>, Seq<char>)
    decreases s.len(),
{
    if s.len() == 0 {
        (Seq::empty(), Seq::empty())
    } else {
        line_step(line_scan(s.drop_last()), s.last())
    }
}

/// The lines of `s`: each ends at a line feed, which a carriage return may
/// precede; the last one needs no line feed, and an empty text has none.
pub open spec fn lines(s: Seq<char>) -> Seq<Seq<char>> {
    let st = line_scan(s);
    if st.1.len() > 0 {
        st.0.push(st.1)
    } else {
        st.0
    }
}

/// The positions of the lines of `s`.
pub fn line_ranges(s: &Vec<char>) -> (r: Vec<(usize, usize)>)
    ensures
        ranges_pick(s@, r@, lines(s@)),
{
    let mut out: Vec<(usize, usize)> = Vec::new();
    let mut start: usize = 0;
    let mut i: usize = 0;
    while i < s.len()
        invariant
            start <= i <= s@.len(),
            ranges_pick(s@, out@, line_scan(s@.subrange(0, i as int)).0),
            line_scan(s@.subrange(0, i as int)).1 == s@.subrange(start as int, i as int),
        decreases s@.len() - i,
    {
        assert(s@.subrange(0, i + 1).drop_last() =~= s@.subrange(0, i as int));
        assert(s@.subrange(0, i + 1).last() == s@[i as int]);
        if s[i] == '\n' {
            let ghost cur = s@.subrange(start as int, i as int);
            if start < i && s[i - 1] == '\r' {
                assert(cur.drop_last() =~= s@.subrange(start as int, i - 1));
                out.push((start, i - 1));
            } else {
                out.push((start, i));
            }
            start = i + 1;
        } else {
            assert(s@.subrange(start as int, i + 1) =~= s@.subrange(start as int, i as int).push(
                s@[i as int],
            ));
        }
        i = i + 1;
        proof {
            let st2 = line_scan(s@.subrange(0, i as int));
            assert(st2.1 =~= s@.subrange(start as int, i as int));
            assert forall|k: int| 0 <= k < out@.len() implies {
                &&& (#[trigger] out@[k]).0 <= out@[k].1 <= s@.len()
                &&& s@.subrange(out@[k].0 as int, out@[k].1 as int) == st2.0[k]
            } by {}
        }
    }
    assert(s@.subrange(0, i as int) =~= s@);
    if start < s.len() {
        out.push((start, s.len()));
    }
    proof {
        let l = lines(s@);
        assert forall|k: int| 0 <= k < out@.len() implies {
            &&& (#[trigger] out@[k]).0 <= out@[k].1 <= s@.len()
            &&& s@.subrange(out@[k].0 as int, out@[k].1 as int) == l[k]
        } by {}
    }
    out
}

/// The lines of `text`, as `lines` has them.
pub fn split_lines(text: &str) -> (r: Vec<String>)
    ensures
        r@.len() == lines(text@).len(),
        forall|k: int| 0 <= k < r@.len() ==> (#[trigger] r@[k])@ == lines(text@)[k],
{
    let s = chars_of(text);
    let ranges = line_ranges(&s);
    let mut out: Vec<String> = Vec::new();
    let mut k: usize = 0;
    while k < ranges.len()
        invariant
            k <= ranges@.len(),
            s@ == text@,
            ranges_pick(s@, ranges@, lines(s@)),
            out@.len() == k,
            forall|j: int| 0 <= j < k ==> (#[trigger] out@[j])@ == lines(s@)[j],
        decreases ranges@.len() - k,
    {
        let (a, b) = ranges[k];
        assert(ranges@[k as int] == (a, b));
        out.push(string_from(&s, a, b));
        k = k + 1;
    }
    out
}

} // verus!
