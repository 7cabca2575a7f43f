//! Extraction of a document's text for translation: per-entry lines are
//! trimmed and joined, entries are joined with newlines, and line breaks
//! that interrupt a sentence are turned back into spaces.

use vstd::prelude::*;

use crate::chars::{char_is_space, chars_of, is_space, spec_trim, string_of, trim_chars};
use crate::subtitle::clean::{is_ascii_letter, char_is_ascii_letter};
use crate::subtitle::Subtitle;
use crate::subtitle::clean::texts_of;
use crate::translation::{spec_lines, split_lines};

verus! {

/// Lines joined with single newlines.
pub open spec fn join_nl(ls: Seq<Seq<char>>) -> Seq<char>
    decreases ls.len(),
{
    if ls.len() == 0 {
        Seq::empty()
    } else {
        ls[0].add(tail_nl(ls.skip(1)))
    }
}

pub open spec fn tail_nl(ls: Seq<Seq<char>>) -> Seq<char>
    decreases ls.len(),
{
    if ls.len() == 0 {
        Seq::empty()
    } else {
        seq!['\n'].add(ls[0]).add(tail_nl(ls.skip(1)))
    }
}

/// The lines of one text, each trimmed of surrounding whitespace.
pub open spec fn trimmed_lines(t: Seq<char>) -> Seq<Seq<char>> {
    spec_lines(t).map_values(|l: Seq<char>| spec_trim(l))
}

/// The raw extracted text: every entry's trimmed lines joined with
/// newlines, and the entries themselves joined with newlines.
pub open spec fn spec_extract_raw(texts: Seq<Seq<char>>) -> Seq<char> {
    join_nl(texts.map_values(|t: Seq<char>| join_nl(trimmed_lines(t))))
}

/// A character after which a line break interrupts a sentence: a letter, a
/// digit, a comma, a semicolon or a colon.
pub open spec fn is_join_char(c: char) -> bool {
    let u = c as u32;
    is_ascii_letter(c) || (0x30 <= u && u <= 0x39) || c == ',' || c == ';' || c == ':'
}

fn char_is_join_char(c: char) -> (r: bool)
    ensures
        r == is_join_char(c),
{
    let u = c as u32;
    char_is_ascii_letter(c) || (0x30 <= u && u <= 0x39) || c == ',' || c == ';' || c == ':'
}

/// A capital letter or a digit: the shape of an initial or a numbering.
pub open spec fn is_cap_or_digit(c: char) -> bool {
    let u = c as u32;
    (0x41 <= u && u <= 0x5a) || (0x30 <= u && u <= 0x39)
}

fn char_is_cap_or_digit(c: char) -> (r: bool)
    ensures
        r == is_cap_or_digit(c),
{
    let u = c as u32;
    (0x41 <= u && u <= 0x5a) || (0x30 <= u && u <= 0x39)
}

/// Replace a newline directly after a sentence-continuing character by a
/// space.
pub open spec fn join_broken_lines(s: Seq<char>) -> Seq<char>
    decreases s.len(),
{
    if s.len() == 0 {
        Seq::empty()
    } else if s.len() >= 2 && is_join_char(s[0]) && s[1] == '\n' {
        seq![s[0], ' '].add(join_broken_lines(s.skip(2)))
    } else {
        seq![s[0]].add(join_broken_lines(s.skip(1)))
    }
}

/// Replace the newline after an initial or a numbering (whitespace, one
/// capital or digit, a period) by a space.
pub open spec fn join_initials(s: Seq<char>) -> Seq<char>
    decreases s.len(),
{
    if s.len() == 0 {
        Seq::empty()
    } else if s.len() >= 4 && is_space(s[0]) && is_cap_or_digit(s[1]) && s[2] == '.' && s[3]
        == '\n' {
        seq![s[0], s[1], '.', ' '].add(join_initials(s.skip(4)))
    } else {
        seq![s[0]].add(join_initials(s.skip(1)))
    }
}

/// Replace a free-standing dash before a line break by a dash between
/// spaces.
pub open spec fn join_dash_lines(s: Seq<char>) -> Seq<char>
    decreases s.len(),
{
    if s.len() == 0 {
        Seq::empty()
    } else if s.len() >= 3 && is_space(s[0]) && s[1] == '-' && s[2] == '\n' {
        seq![' ', '-', ' '].add(join_dash_lines(s.skip(3)))
    } else {
        seq![s[0]].add(join_dash_lines(s.skip(1)))
    }
}

/// All three sentence-joining passes, in order.
pub open spec fn spec_join_sentences(s: Seq<char>) -> Seq<char> {
    join_dash_lines(join_initials(join_broken_lines(s)))
}

fn exec_join_broken_lines(v: &Vec<char>) -> (r: Vec<char>)
    ensures
        r@ == join_broken_lines(v@),
{
    let n = v.len();
    let mut out: Vec<char> = Vec::new();
    let mut i: usize = 0;
    proof {
        assert(v@.skip(0) =~= v@);
        assert(out@.add(join_broken_lines(v@.skip(0))) =~= join_broken_lines(v@));
    }
    while i < n
        invariant
            i <= n,
            n == v@.len(),
            join_broken_lines(v@) == out@.add(join_broken_lines(v@.skip(i as int))),
        decreases n - i,
    {
        let ghost u = v@.skip(i as int);
        proof {
            assert(u[0] == v@[i as int]);
            assert(u.len() >= 2 ==> u[1] == v@[i + 1]);
            assert(u.skip(1) =~= v@.skip(i + 1 as int));
            assert(u.len() >= 2 ==> u.skip(2) =~= v@.skip(i + 2 as int));
        }
        if n - i >= 2 && char_is_join_char(v[i]) && v[i + 1] == '\n' {
            let ghost prev = out@;
            out.push(v[i]);
            out.push(' ');
            proof {
                assert(out@ =~= prev.add(seq![u[0], ' ']));
                assert(out@.add(join_broken_lines(v@.skip(i + 2 as int))) =~= prev.add(
                    join_broken_lines(u),
                ));
            }
            i = i + 2;
        } else {
            out.push(v[i]);
            proof {
                assert(out@.add(join_broken_lines(v@.skip(i + 1 as int)))
                    =~= out@.drop_last().add(join_broken_lines(u)));
            }
            i = i + 1;
        }
    }
    proof {
        assert(v@.skip(n as int) =~= Seq::<char>::empty());
        assert(out@.add(join_broken_lines(v@.skip(n as int))) =~= out@);
    }
    out
}

fn exec_join_initials(v: &Vec<char>) -> (r: Vec<char>)
    ensures
        r@ == join_initials(v@),
{
    let n = v.len();
    let mut out: Vec<char> = Vec::new();
    let mut i: usize = 0;
    proof {
        assert(v@.skip(0) =~= v@);
        assert(out@.add(join_initials(v@.skip(0))) =~= join_initials(v@));
    }
    while i < n
        invariant
            i <= n,
            n == v@.len(),
            join_initials(v@) == out@.add(join_initials(v@.skip(i as int))),
        decreases n - i,
    {
        let ghost u = v@.skip(i as int);
        proof {
            assert(u[0] == v@[i as int]);
            assert(u.len() >= 2 ==> u[1] == v@[i + 1]);
            assert(u.len() >= 3 ==> u[2] == v@[i + 2]);
            assert(u.len() >= 4 ==> u[3] == v@[i + 3]);
            assert(u.skip(1) =~= v@.skip(i + 1 as int));
            assert(u.len() >= 4 ==> u.skip(4) =~= v@.skip(i + 4 as int));
        }
        if n - i >= 4 && char_is_space(v[i]) && char_is_cap_or_digit(v[i + 1]) && v[i + 2] == '.'
            && v[i + 3] == '\n' {
            let ghost prev = out@;
            out.push(v[i]);
            out.push(v[i + 1]);
            out.push('.');
            out.push(' ');
            proof {
                assert(out@ =~= prev.add(seq![u[0], u[1], '.', ' ']));
                assert(out@.add(join_initials(v@.skip(i + 4 as int))) =~= prev.add(
                    join_initials(u),
                ));
            }
            i = i + 4;
        } else {
            out.push(v[i]);
            proof {
                assert(out@.add(join_initials(v@.skip(i + 1 as int))) =~= out@.drop_last().add(
                    join_initials(u),
                ));
            }
            i = i + 1;
        }
    }
    proof {
        assert(v@.skip(n as int) =~= Seq::<char>::empty());
        assert(out@.add(join_initials(v@.skip(n as int))) =~= out@);
    }
    out
}

fn exec_join_dash_lines(v: &Vec<char>) -> (r: Vec<char>)
    ensures
        r@ == join_dash_lines(v@),
{
    let n = v.len();
    let mut out: Vec<char> = Vec::new();
    let mut i: usize = 0;
    proof {
        assert(v@.skip(0) =~= v@);
        assert(out@.add(join_dash_lines(v@.skip(0))) =~= join_dash_lines(v@));
    }
    while i < n
        invariant
            i <= n,
            n == v@.len(),
            join_dash_lines(v@) == out@.add(join_dash_lines(v@.skip(i as int))),
        decreases n - i,
    {
        let ghost u = v@.skip(i as int);
        proof {
            assert(u[0] == v@[i as int]);
            assert(u.len() >= 2 ==> u[1] == v@[i + 1]);
            assert(u.len() >= 3 ==> u[2] == v@[i + 2]);
            assert(u.skip(1) =~= v@.skip(i + 1 as int));
            assert(u.len() >= 3 ==> u.skip(3) =~= v@.skip(i + 3 as int));
        }
        if n - i >= 3 && char_is_space(v[i]) && v[i + 1] == '-' && v[i + 2] == '\n' {
            let ghost prev = out@;
            out.push(' ');
            out.push('-');
            out.push(' ');
            proof {
                assert(out@ =~= prev.add(seq![' ', '-', ' ']));
                assert(out@.add(join_dash_lines(v@.skip(i + 3 as int))) =~= prev.add(
                    join_dash_lines(u),
                ));
            }
            i = i + 3;
        } else {
            out.push(v[i]);
            proof {
                assert(out@.add(join_dash_lines(v@.skip(i + 1 as int))) =~= out@.drop_last().add(
                    join_dash_lines(u),
                ));
            }
            i = i + 1;
        }
    }
    proof {
        assert(v@.skip(n as int) =~= Seq::<char>::empty());
        assert(out@.add(join_dash_lines(v@.skip(n as int))) =~= out@);
    }
    out
}

/// Turn line breaks that interrupt a sentence back into spaces: after a
/// sentence-continuing character, after an initial, and after a free-
/// standing dash.
pub fn join_sentences(text: String) -> (r: String)
    ensures
        r@ == spec_join_sentences(text@),
{
    let v = chars_of(text.as_str());
    let v = exec_join_broken_lines(&v);
    let v = exec_join_initials(&v);
    let v = exec_join_dash_lines(&v);
    string_of(&v)
}

/// One entry's text with every line trimmed, lines joined with newlines.
fn entry_extract(text: &str) -> (r: Vec<char>)
    ensures
        r@ == join_nl(trimmed_lines(text@)),
{
    let lines = split_lines(text);
    let n = lines.len();
    let ghost tl = trimmed_lines(text@);
    let mut out: Vec<char> = Vec::new();
    proof {
        assert(lines.deep_view().len() == lines@.len());
        assert(tl.len() == n);
    }
    if n == 0 {
        proof {
            assert(join_nl(tl) =~= Seq::<char>::empty());
        }
        return out;
    }
    let first = trim_chars(&chars_of(lines[0].as_str()));
    let ghost out0 = out@;
    let fn_ = first.len();
    let mut c: usize = 0;
    while c < fn_
        invariant
            c <= fn_,
            fn_ == first@.len(),
            out@ == out0.add(first@.take(c as int)),
        decreases fn_ - c,
    {
        out.push(first[c]);
        proof {
            assert(out0.add(first@.take(c + 1 as int)) =~= out0.add(first@.take(c as int)).push(
                first@[c as int],
            ));
        }
        c = c + 1;
    }
    let mut k: usize = 1;
    proof {
        assert(first@.take(fn_ as int) =~= first@);
        assert(first@ =~= tl[0]);
        assert(out@.add(tail_nl(tl.skip(1))) =~= join_nl(tl));
    }
    while k < n
        invariant
            1 <= k <= n,
            n == lines@.len(),
            n == tl.len(),
            lines.deep_view() == spec_lines(text@),
            tl == trimmed_lines(text@),
            out@.add(tail_nl(tl.skip(k as int))) == join_nl(tl),
        decreases n - k,
    {
        let t = trim_chars(&chars_of(lines[k].as_str()));
        let ghost prev = out@;
        out.push('\n');
        let tn = t.len();
        let mut c2: usize = 0;
        while c2 < tn
            invariant
                c2 <= tn,
                tn == t@.len(),
                out@ == prev.push('\n').add(t@.take(c2 as int)),
            decreases tn - c2,
        {
            out.push(t[c2]);
            proof {
                assert(prev.push('\n').add(t@.take(c2 + 1 as int)) =~= prev.push('\n').add(
                    t@.take(c2 as int),
                ).push(t@[c2 as int]));
            }
            c2 = c2 + 1;
        }
        proof {
            assert(t@.take(tn as int) =~= t@);
            assert(t@ =~= tl[k as int]);
            assert(tl.skip(k as int)[0] == tl[k as int]);
            assert(tl.skip(k as int).skip(1) =~= tl.skip(k + 1 as int));
            assert(out@ =~= prev.add(seq!['\n'].add(tl[k as int])));
            assert(out@.add(tail_nl(tl.skip(k + 1 as int))) =~= prev.add(
                tail_nl(tl.skip(k as int)),
            ));
        }
        k = k + 1;
    }
    proof {
        assert(tl.skip(n as int) =~= Seq::<Seq<char>>::empty());
        assert(out@.add(tail_nl(tl.skip(n as int))) =~= out@);
    }
    out
}

/// The whole document's text for translation: per-entry trimmed lines,
/// entries joined with newlines, sentence-interrupting line breaks undone.
pub fn extract_text(subtitles: &Vec<Subtitle>) -> (r: String)
    ensures
        r@ == spec_join_sentences(spec_extract_raw(texts_of(subtitles@))),
{
    let n = subtitles.len();
    let ghost me = texts_of(subtitles@).map_values(|t: Seq<char>| join_nl(trimmed_lines(t)));
    let mut raw: Vec<char> = Vec::new();
    proof {
        assert(me.len() == n);
    }
    if n == 0 {
        proof {
            assert(spec_extract_raw(texts_of(subtitles@)) =~= Seq::<char>::empty());
        }
        let v = exec_join_broken_lines(&raw);
        let v = exec_join_initials(&v);
        let v = exec_join_dash_lines(&v);
        return string_of(&v);
    }
    let first = entry_extract(subtitles[0].text.as_str());
    let fn_ = first.len();
    let ghost raw0 = raw@;
    let mut c: usize = 0;
    while c < fn_
        invariant
            c <= fn_,
            fn_ == first@.len(),
            raw@ == raw0.add(first@.take(c as int)),
        decreases fn_ - c,
    {
        raw.push(first[c]);
        proof {
            assert(raw0.add(first@.take(c + 1 as int)) =~= raw0.add(first@.take(c as int)).push(
                first@[c as int],
            ));
        }
        c = c + 1;
    }
    let mut k: usize = 1;
    proof {
        assert(first@.take(fn_ as int) =~= first@);
        assert(first@ =~= me[0]);
        assert(raw@.add(tail_nl(me.skip(1))) =~= join_nl(me));
    }
    while k < n
        invariant
            1 <= k <= n,
            n == subtitles@.len(),
            n == me.len(),
            me == texts_of(subtitles@).map_values(|t: Seq<char>| join_nl(trimmed_lines(t))),
            raw@.add(tail_nl(me.skip(k as int))) == join_nl(me),
        decreases n - k,
    {
        let t = entry_extract(subtitles[k].text.as_str());
        let ghost prev = raw@;
        raw.push('\n');
        let tn = t.len();
        let mut c2: usize = 0;
        while c2 < tn
            invariant
                c2 <= tn,
                tn == t@.len(),
                raw@ == prev.push('\n').add(t@.take(c2 as int)),
            decreases tn - c2,
        {
            raw.push(t[c2]);
            proof {
                assert(prev.push('\n').add(t@.take(c2 + 1 as int)) =~= prev.push('\n').add(
                    t@.take(c2 as int),
                ).push(t@[c2 as int]));
            }
            c2 = c2 + 1;
        }
        proof {
            assert(t@.take(tn as int) =~= t@);
            assert(t@ =~= me[k as int]);
            assert(me.skip(k as int)[0] == me[k as int]);
            assert(me.skip(k as int).skip(1) =~= me.skip(k + 1 as int));
            assert(raw@ =~= prev.add(seq!['\n'].add(me[k as int])));
            assert(raw@.add(tail_nl(me.skip(k + 1 as int))) =~= prev.add(
                tail_nl(me.skip(k as int)),
            ));
        }
        k = k + 1;
    }
    proof {
        assert(me.skip(n as int) =~= Seq::<Seq<char>>::empty());
        assert(raw@.add(tail_nl(me.skip(n as int))) =~= raw@);
    }
    let v = exec_join_broken_lines(&raw);
    let v = exec_join_initials(&v);
    let v = exec_join_dash_lines(&v);
    string_of(&v)
}

} // verus!
