//! Normalization of subtitle texts before extraction: formatting artifacts
//! are removed and a word split across two adjacent entries by a trailing
//! hyphen is reattached.

use vstd::prelude::*;

use crate::chars::{
    char_is_space, chars_of, collapse_spaces, is_space, spec_collapse_spaces, spec_trim,
    string_of, trim_chars,
};
use crate::subtitle::Subtitle;
use crate::tokenize::{lemma_run_len_is, run_len, sub_chars};

verus! {

/// An ASCII letter.
pub open spec fn is_ascii_letter(c: char) -> bool {
    let u = c as u32;
    (0x41 <= u && u <= 0x5a) || (0x61 <= u && u <= 0x7a)
}

pub fn char_is_ascii_letter(c: char) -> (r: bool)
    ensures
        r == is_ascii_letter(c),
{
    let u = c as u32;
    (0x41 <= u && u <= 0x5a) || (0x61 <= u && u <= 0x7a)
}

/// An ASCII word character: a letter, a digit or an underscore.
pub open spec fn is_word_char(c: char) -> bool {
    let u = c as u32;
    is_ascii_letter(c) || (0x30 <= u && u <= 0x39) || u == 0x5f
}

pub fn char_is_word_char(c: char) -> (r: bool)
    ensures
        r == is_word_char(c),
{
    let u = c as u32;
    char_is_ascii_letter(c) || (0x30 <= u && u <= 0x39) || u == 0x5f
}

/// Remove every occurrence of the two characters `\h`, a formatting artifact
/// of some caption sources.
pub open spec fn strip_slash_h(s: Seq<char>) -> Seq<char>
    decreases s.len(),
{
    if s.len() == 0 {
        Seq::empty()
    } else if s[0] == '\\' && s.len() > 1 && s[1] == 'h' {
        strip_slash_h(s.skip(2))
    } else {
        seq![s[0]].add(strip_slash_h(s.skip(1)))
    }
}

/// Index of the first `>` before any newline, or `-1` when a newline or the
/// end comes first: the closing bracket of an HTML tag.
pub open spec fn close_pos(s: Seq<char>) -> int
    decreases s.len(),
{
    if s.len() == 0 {
        -1
    } else if s[0] == '>' {
        0
    } else if s[0] == '\n' {
        -1
    } else {
        let r = close_pos(s.skip(1));
        if r < 0 {
            -1
        } else {
            1 + r
        }
    }
}

proof fn lemma_close_pos_found(s: Seq<char>, k: int)
    requires
        0 <= k < s.len(),
        s[k] == '>',
        forall|j: int| 0 <= j < k ==> #[trigger] s[j] != '>' && s[j] != '\n',
    ensures
        close_pos(s) == k,
    decreases k,
{
    if k > 0 {
        let r = s.skip(1);
        assert(forall|j: int| 0 <= j < k - 1 ==> #[trigger] r[j] != '>' && r[j] != '\n');
        lemma_close_pos_found(r, k - 1);
    }
}

proof fn lemma_close_pos_none(s: Seq<char>, k: int)
    requires
        0 <= k <= s.len(),
        k < s.len() ==> s[k] == '\n',
        k == s.len() || s[k] == '\n',
        forall|j: int| 0 <= j < k ==> #[trigger] s[j] != '>' && s[j] != '\n',
    ensures
        close_pos(s) == -1,
    decreases k,
{
    if s.len() > 0 && k > 0 {
        let r = s.skip(1);
        assert(forall|j: int| 0 <= j < k - 1 ==> #[trigger] r[j] != '>' && r[j] != '\n');
        lemma_close_pos_none(r, k - 1);
    }
}

/// Remove every HTML tag: a `<`, the nearest following `>` on the same line,
/// and everything between them.
pub open spec fn strip_tags(s: Seq<char>) -> Seq<char>
    decreases s.len(),
{
    if s.len() == 0 {
        Seq::empty()
    } else if s[0] == '<' && close_pos(s.skip(1)) >= 0 && close_pos(s.skip(1)) + 2 <= s.len() {
        strip_tags(s.skip(close_pos(s.skip(1)) + 2))
    } else {
        seq![s[0]].add(strip_tags(s.skip(1)))
    }
}

/// Whether a whitespace run holds a carriage return with whitespace on both
/// sides of it.
pub open spec fn has_inner_cr(r: Seq<char>) -> bool {
    exists|i: int| 1 <= i <= r.len() - 2 && r[i] == '\r'
}

/// Replace each whitespace run that holds an inner carriage return by one
/// space.
pub open spec fn strip_cr_runs(s: Seq<char>) -> Seq<char>
    decreases s.len(),
{
    if s.len() == 0 {
        Seq::empty()
    } else if is_space(s[0]) {
        let n = run_len(s) as int;
        if 1 <= n <= s.len() {
            if has_inner_cr(s.take(n)) {
                seq![' '].add(strip_cr_runs(s.skip(n)))
            } else {
                s.take(n).add(strip_cr_runs(s.skip(n)))
            }
        } else {
            Seq::empty()
        }
    } else {
        seq![s[0]].add(strip_cr_runs(s.skip(1)))
    }
}

/// Whether a whitespace run holds a newline.
pub open spec fn has_nl(r: Seq<char>) -> bool {
    exists|i: int| 0 <= i < r.len() && r[i] == '\n'
}

/// Replace each whitespace run that holds a newline by a single newline.
pub open spec fn squeeze_newlines(s: Seq<char>) -> Seq<char>
    decreases s.len(),
{
    if s.len() == 0 {
        Seq::empty()
    } else if is_space(s[0]) {
        let n = run_len(s) as int;
        if 1 <= n <= s.len() {
            if has_nl(s.take(n)) {
                seq!['\n'].add(squeeze_newlines(s.skip(n)))
            } else {
                s.take(n).add(squeeze_newlines(s.skip(n)))
            }
        } else {
            Seq::empty()
        }
    } else {
        seq![s[0]].add(squeeze_newlines(s.skip(1)))
    }
}

/// Length of the maximal leading run of word characters.
pub open spec fn word_run_len(s: Seq<char>) -> nat
    decreases s.len(),
{
    if s.len() == 0 {
        0
    } else if !is_word_char(s[0]) {
        0
    } else {
        (1 + word_run_len(s.skip(1))) as nat
    }
}

proof fn lemma_word_run_len_is(s: Seq<char>, k: int)
    requires
        0 <= k <= s.len(),
        forall|j: int| 0 <= j < k ==> is_word_char(#[trigger] s[j]),
        k < s.len() ==> !is_word_char(s[k]),
    ensures
        word_run_len(s) == k,
    decreases k,
{
    if k > 0 {
        let r = s.skip(1);
        assert(forall|j: int| 0 <= j < k - 1 ==> is_word_char(#[trigger] r[j]));
        lemma_word_run_len_is(r, k - 1);
    }
}

/// Reattach a word split by a hyphen at a line break inside one text: a
/// letter, a hyphen and a newline followed by a word fragment and one
/// whitespace character become the joined word followed by the newline.
pub open spec fn join_hyphen_breaks(s: Seq<char>) -> Seq<char>
    decreases s.len(),
{
    if s.len() == 0 {
        Seq::empty()
    } else if s.len() >= 3 && is_ascii_letter(s[0]) && s[1] == '-' && s[2] == '\n'
        && 3 + word_run_len(s.skip(3)) < s.len() && is_space(
        s[3 + word_run_len(s.skip(3)) as int],
    ) {
        let w = word_run_len(s.skip(3)) as int;
        seq![s[0]].add(s.subrange(3, 3 + w)).add(seq!['\n']).add(join_hyphen_breaks(s.skip(4 + w)))
    } else {
        seq![s[0]].add(join_hyphen_breaks(s.skip(1)))
    }
}

/// The whole normalization of one text: `\h` artifacts and HTML tags
/// removed, space runs collapsed, whitespace runs around carriage returns
/// and newlines squeezed, hyphen line breaks joined, ends trimmed.
pub open spec fn spec_clean(s: Seq<char>) -> Seq<char> {
    spec_trim(
        join_hyphen_breaks(
            squeeze_newlines(strip_cr_runs(spec_collapse_spaces(strip_tags(strip_slash_h(s))))),
        ),
    )
}

fn exec_strip_slash_h(v: &Vec<char>) -> (r: Vec<char>)
    ensures
        r@ == strip_slash_h(v@),
{
    let n = v.len();
    let mut out: Vec<char> = Vec::new();
    let mut i: usize = 0;
    proof {
        assert(v@.skip(0) =~= v@);
        assert(out@.add(strip_slash_h(v@.skip(0))) =~= strip_slash_h(v@));
    }
    while i < n
        invariant
            i <= n,
            n == v@.len(),
            strip_slash_h(v@) == out@.add(strip_slash_h(v@.skip(i as int))),
        decreases n - i,
    {
        let ghost u = v@.skip(i as int);
        proof {
            assert(u[0] == v@[i as int]);
            assert(i + 1 < n ==> u[1] == v@[i + 1 as int]);
            assert(u.skip(1) =~= v@.skip(i + 1 as int));
            assert(i + 2 <= n ==> u.skip(2) =~= v@.skip(i + 2 as int));
        }
        if v[i] == '\\' && i + 1 < n && v[i + 1] == 'h' {
            i = i + 2;
        } else {
            out.push(v[i]);
            proof {
                assert(out@.add(strip_slash_h(v@.skip(i + 1 as int))) =~= out@.drop_last().add(
                    strip_slash_h(u),
                ));
            }
            i = i + 1;
        }
    }
    proof {
        assert(v@.skip(n as int) =~= Seq::<char>::empty());
        assert(out@.add(strip_slash_h(v@.skip(n as int))) =~= out@);
    }
    out
}

fn exec_strip_tags(v: &Vec<char>) -> (r: Vec<char>)
    ensures
        r@ == strip_tags(v@),
{
    let n = v.len();
    let mut out: Vec<char> = Vec::new();
    let mut i: usize = 0;
    proof {
        assert(v@.skip(0) =~= v@);
        assert(out@.add(strip_tags(v@.skip(0))) =~= strip_tags(v@));
    }
    while i < n
        invariant
            i <= n,
            n == v@.len(),
            strip_tags(v@) == out@.add(strip_tags(v@.skip(i as int))),
        decreases n - i,
    {
        let ghost u = v@.skip(i as int);
        proof {
            assert(u[0] == v@[i as int]);
            assert(u.skip(1) =~= v@.skip(i + 1 as int));
        }
        let mut matched = false;
        if v[i] == '<' {
            // look for the closing `>` before any newline
            let mut j: usize = i + 1;
            while j < n && v[j] != '>' && v[j] != '\n'
                invariant
                    i + 1 <= j <= n,
                    n == v@.len(),
                    forall|m: int| i + 1 <= m < j ==> #[trigger] v@[m] != '>' && v@[m] != '\n',
                decreases n - j,
            {
                j = j + 1;
            }
            let ghost tail = u.skip(1);
            proof {
                assert(forall|m: int|
                    0 <= m < j - i - 1 ==> #[trigger] tail[m] != '>' && tail[m] != '\n');
            }
            if j < n && v[j] == '>' {
                proof {
                    lemma_close_pos_found(tail, j - i - 1);
                    assert(u.skip(close_pos(u.skip(1)) + 2) =~= v@.skip(j + 1 as int));
                }
                matched = true;
                i = j + 1;
            } else {
                proof {
                    lemma_close_pos_none(tail, j - i - 1);
                }
            }
        }
        if !matched {
            out.push(v[i]);
            proof {
                assert(out@.add(strip_tags(v@.skip(i + 1 as int))) =~= out@.drop_last().add(
                    strip_tags(u),
                ));
            }
            i = i + 1;
        }
    }
    proof {
        assert(v@.skip(n as int) =~= Seq::<char>::empty());
        assert(out@.add(strip_tags(v@.skip(n as int))) =~= out@);
    }
    out
}

/// Scan the whitespace run starting at `i` and report whether it holds a
/// carriage return away from its edges, and whether it holds a newline.
fn scan_space_run(v: &Vec<char>, i: usize) -> (r: (usize, bool, bool))
    requires
        i < v@.len(),
        is_space(v@[i as int]),
    ensures
        i < r.0 <= v@.len(),
        r.0 - i == run_len(v@.skip(i as int)),
        r.1 == has_inner_cr(v@.subrange(i as int, r.0 as int)),
        r.2 == has_nl(v@.subrange(i as int, r.0 as int)),
{
    let n = v.len();
    let mut j: usize = i + 1;
    while j < n && char_is_space(v[j])
        invariant
            i < j <= n,
            n == v@.len(),
            is_space(v@[i as int]),
            forall|m: int| i <= m < j ==> is_space(#[trigger] v@[m]),
        decreases n - j,
    {
        j = j + 1;
    }
    let ghost u = v@.skip(i as int);
    proof {
        assert(forall|m: int| 0 < m < j - i ==> is_space(#[trigger] u[m]) == is_space(u[0]));
        assert(j - i < u.len() ==> is_space(u[j - i]) != is_space(u[0]));
        lemma_run_len_is(u, j - i);
    }
    let ghost run = v@.subrange(i as int, j as int);
    let mut has_cr = false;
    let mut found_nl = false;
    let mut m: usize = i;
    while m < j
        invariant
            i <= m <= j <= n,
            n == v@.len(),
            run == v@.subrange(i as int, j as int),
            has_cr == exists|t: int| 1 <= t <= m - i - 1 && t <= run.len() - 2 && run[t] == '\r',
            found_nl == exists|t: int| 0 <= t < m - i && run[t] == '\n',
        decreases j - m,
    {
        proof {
            assert(run[m - i] == v@[m as int]);
        }
        if m > i && m + 1 < j && v[m] == '\r' {
            proof {
                if v@[m as int] == '\r' {
                    assert(1 <= m - i <= run.len() - 2 && run[m - i] == '\r');
                }
            }
            has_cr = true;
        }
        if v[m] == '\n' {
            found_nl = true;
        }
        m = m + 1;
    }
    (j, has_cr, found_nl)
}

fn exec_strip_cr_runs(v: &Vec<char>) -> (r: Vec<char>)
    ensures
        r@ == strip_cr_runs(v@),
{
    let n = v.len();
    let mut out: Vec<char> = Vec::new();
    let mut i: usize = 0;
    proof {
        assert(v@.skip(0) =~= v@);
        assert(out@.add(strip_cr_runs(v@.skip(0))) =~= strip_cr_runs(v@));
    }
    while i < n
        invariant
            i <= n,
            n == v@.len(),
            strip_cr_runs(v@) == out@.add(strip_cr_runs(v@.skip(i as int))),
        decreases n - i,
    {
        let ghost u = v@.skip(i as int);
        proof {
            assert(u[0] == v@[i as int]);
            assert(u.skip(1) =~= v@.skip(i + 1 as int));
        }
        if char_is_space(v[i]) {
            let (j, has_cr, _) = scan_space_run(v, i);
            proof {
                assert(u.take(j - i) =~= v@.subrange(i as int, j as int));
                assert(u.skip(j - i) =~= v@.skip(j as int));
            }
            if has_cr {
                let ghost prev = out@;
                out.push(' ');
                proof {
                    assert(out@.add(strip_cr_runs(v@.skip(j as int))) =~= prev.add(
                        strip_cr_runs(u),
                    ));
                }
            } else {
                let run = sub_chars(v, i, j);
                let ghost prev = out@;
                let mut k: usize = 0;
                let rn = run.len();
                while k < rn
                    invariant
                        k <= rn,
                        rn == run@.len(),
                        out@ == prev.add(run@.take(k as int)),
                    decreases rn - k,
                {
                    out.push(run[k]);
                    proof {
                        assert(prev.add(run@.take(k + 1 as int)) =~= prev.add(
                            run@.take(k as int),
                        ).push(run@[k as int]));
                    }
                    k = k + 1;
                }
                proof {
                    assert(run@.take(rn as int) =~= run@);
                    assert(out@.add(strip_cr_runs(v@.skip(j as int))) =~= prev.add(
                        strip_cr_runs(u),
                    ));
                }
            }
            i = j;
        } else {
            out.push(v[i]);
            proof {
                assert(out@.add(strip_cr_runs(v@.skip(i + 1 as int))) =~= out@.drop_last().add(
                    strip_cr_runs(u),
                ));
            }
            i = i + 1;
        }
    }
    proof {
        assert(v@.skip(n as int) =~= Seq::<char>::empty());
        assert(out@.add(strip_cr_runs(v@.skip(n as int))) =~= out@);
    }
    out
}

fn exec_squeeze_newlines(v: &Vec<char>) -> (r: Vec<char>)
    ensures
        r@ == squeeze_newlines(v@),
{
    let n = v.len();
    let mut out: Vec<char> = Vec::new();
    let mut i: usize = 0;
    proof {
        assert(v@.skip(0) =~= v@);
        assert(out@.add(squeeze_newlines(v@.skip(0))) =~= squeeze_newlines(v@));
    }
    while i < n
        invariant
            i <= n,
            n == v@.len(),
            squeeze_newlines(v@) == out@.add(squeeze_newlines(v@.skip(i as int))),
        decreases n - i,
    {
        let ghost u = v@.skip(i as int);
        proof {
            assert(u[0] == v@[i as int]);
            assert(u.skip(1) =~= v@.skip(i + 1 as int));
        }
        if char_is_space(v[i]) {
            let (j, _, found_nl) = scan_space_run(v, i);
            proof {
                assert(u.take(j - i) =~= v@.subrange(i as int, j as int));
                assert(u.skip(j - i) =~= v@.skip(j as int));
            }
            if found_nl {
                let ghost prev = out@;
                out.push('\n');
                proof {
                    assert(out@.add(squeeze_newlines(v@.skip(j as int))) =~= prev.add(
                        squeeze_newlines(u),
                    ));
                }
            } else {
                let run = sub_chars(v, i, j);
                let ghost prev = out@;
                let mut k: usize = 0;
                let rn = run.len();
                while k < rn
                    invariant
                        k <= rn,
                        rn == run@.len(),
                        out@ == prev.add(run@.take(k as int)),
                    decreases rn - k,
                {
                    out.push(run[k]);
                    proof {
                        assert(prev.add(run@.take(k + 1 as int)) =~= prev.add(
                            run@.take(k as int),
                        ).push(run@[k as int]));
                    }
                    k = k + 1;
                }
                proof {
                    assert(run@.take(rn as int) =~= run@);
                    assert(out@.add(squeeze_newlines(v@.skip(j as int))) =~= prev.add(
                        squeeze_newlines(u),
                    ));
                }
            }
            i = j;
        } else {
            out.push(v[i]);
            proof {
                assert(out@.add(squeeze_newlines(v@.skip(i + 1 as int))) =~= out@.drop_last().add(
                    squeeze_newlines(u),
                ));
            }
            i = i + 1;
        }
    }
    proof {
        assert(v@.skip(n as int) =~= Seq::<char>::empty());
        assert(out@.add(squeeze_newlines(v@.skip(n as int))) =~= out@);
    }
    out
}

fn exec_join_hyphen_breaks(v: &Vec<char>) -> (r: Vec<char>)
    ensures
        r@ == join_hyphen_breaks(v@),
{
    let n = v.len();
    let mut out: Vec<char> = Vec::new();
    let mut i: usize = 0;
    proof {
        assert(v@.skip(0) =~= v@);
        assert(out@.add(join_hyphen_breaks(v@.skip(0))) =~= join_hyphen_breaks(v@));
    }
    while i < n
        invariant
            i <= n,
            n == v@.len(),
            join_hyphen_breaks(v@) == out@.add(join_hyphen_breaks(v@.skip(i as int))),
        decreases n - i,
    {
        let ghost u = v@.skip(i as int);
        proof {
            assert(u[0] == v@[i as int]);
            assert(u.len() >= 2 ==> u[1] == v@[i + 1]);
            assert(u.len() >= 3 ==> u[2] == v@[i + 2]);
            assert(u.skip(1) =~= v@.skip(i + 1 as int));
        }
        let mut matched = false;
        if n - i > 2 && char_is_ascii_letter(v[i]) && v[i + 1] == '-' && v[i + 2] == '\n' {
            // scan the word fragment after the newline
            let mut j: usize = i + 3;
            while j < n && char_is_word_char(v[j])
                invariant
                    i + 3 <= j <= n,
                    n == v@.len(),
                    forall|m: int| i + 3 <= m < j ==> is_word_char(#[trigger] v@[m]),
                decreases n - j,
            {
                j = j + 1;
            }
            let ghost frag = u.skip(3);
            proof {
                assert(frag =~= v@.skip(i + 3 as int));
                assert(forall|m: int| 0 <= m < j - i - 3 ==> is_word_char(#[trigger] frag[m]));
                assert(j - i - 3 < frag.len() ==> !is_word_char(frag[j - i - 3]));
                lemma_word_run_len_is(frag, j - i - 3);
            }
            if j < n && char_is_space(v[j]) {
                matched = true;
                let ghost prev = out@;
                out.push(v[i]);
                let mut k: usize = i + 3;
                while k < j
                    invariant
                        i + 3 <= k <= j <= n,
                        n == v@.len(),
                        out@ == prev.push(v@[i as int]).add(
                            v@.subrange(i + 3 as int, k as int),
                        ),
                    decreases j - k,
                {
                    out.push(v[k]);
                    proof {
                        assert(v@.subrange(i + 3 as int, k + 1 as int) =~= v@.subrange(
                            i + 3 as int,
                            k as int,
                        ).push(v@[k as int]));
                        assert(prev.push(v@[i as int]).add(
                            v@.subrange(i + 3 as int, k + 1 as int),
                        ) =~= prev.push(v@[i as int]).add(
                            v@.subrange(i + 3 as int, k as int),
                        ).push(v@[k as int]));
                    }
                    k = k + 1;
                }
                out.push('\n');
                proof {
                    let w = word_run_len(u.skip(3)) as int;
                    assert(u.subrange(3, 3 + w) =~= v@.subrange(i + 3 as int, j as int));
                    assert(u.skip(4 + w) =~= v@.skip(j + 1 as int));
                    assert(out@ =~= prev.add(
                        seq![u[0]].add(u.subrange(3, 3 + w)).add(seq!['\n']),
                    ));
                    assert(out@.add(join_hyphen_breaks(v@.skip(j + 1 as int))) =~= prev.add(
                        join_hyphen_breaks(u),
                    ));
                }
                i = j + 1;
            }
        }
        if !matched {
            out.push(v[i]);
            proof {
                assert(out@.add(join_hyphen_breaks(v@.skip(i + 1 as int)))
                    =~= out@.drop_last().add(join_hyphen_breaks(u)));
            }
            i = i + 1;
        }
    }
    proof {
        assert(v@.skip(n as int) =~= Seq::<char>::empty());
        assert(out@.add(join_hyphen_breaks(v@.skip(n as int))) =~= out@);
    }
    out
}

fn clean_chars(text: &str) -> (r: Vec<char>)
    ensures
        r@ == spec_clean(text@),
{
    let v = chars_of(text);
    let v = exec_strip_slash_h(&v);
    let v = exec_strip_tags(&v);
    let v = collapse_spaces(&v);
    let v = exec_strip_cr_runs(&v);
    let v = exec_squeeze_newlines(&v);
    let v = exec_join_hyphen_breaks(&v);
    trim_chars(&v)
}

/// Normalize one text: see `spec_clean`.
pub fn clean(text: &str) -> (r: String)
    ensures
        r@ == spec_clean(text@),
{
    let v = clean_chars(text);
    string_of(&v)
}

/// Index of the first plain space in `s`, or `s.len()` when there is none.
pub open spec fn space_pos(s: Seq<char>) -> nat
    decreases s.len(),
{
    if s.len() == 0 {
        0
    } else if s[0] == ' ' {
        0
    } else {
        (1 + space_pos(s.skip(1))) as nat
    }
}

proof fn lemma_space_pos_is(s: Seq<char>, k: int)
    requires
        0 <= k <= s.len(),
        forall|j: int| 0 <= j < k ==> #[trigger] s[j] != ' ',
        k < s.len() ==> s[k] == ' ',
    ensures
        space_pos(s) == k,
    decreases k,
{
    if k > 0 {
        let r = s.skip(1);
        assert(forall|j: int| 0 <= j < k - 1 ==> #[trigger] r[j] != ' ');
        lemma_space_pos_is(r, k - 1);
    }
}

/// An entry text that ends abruptly: a letter directly followed by a hyphen
/// at the very end.
pub open spec fn ends_letter_hyphen(s: Seq<char>) -> bool {
    s.len() >= 2 && is_ascii_letter(s[s.len() - 2]) && s.last() == '-'
}

/// The continuation repair for one adjacent pair of texts: when the first
/// ends with a letter and a hyphen and the second contains a space, the
/// second's first space-delimited token moves (trimmed) to the end of the
/// first, and the one separating space is dropped with it.
pub open spec fn hyphen_merge(a: Seq<char>, b: Seq<char>) -> (Seq<char>, Seq<char>) {
    let p = space_pos(b) as int;
    if ends_letter_hyphen(a) && p < b.len() {
        (a.add(spec_trim(b.take(p))), b.skip(p + 1))
    } else {
        (a, b)
    }
}

/// One left-to-right pass of the continuation repair over adjacent texts.
/// A pair is looked at once; a chain of three or more hyphen-broken entries
/// is not re-examined.
pub open spec fn repair_from(cur: Seq<char>, rest: Seq<Seq<char>>) -> Seq<Seq<char>>
    decreases rest.len(),
{
    if rest.len() == 0 {
        seq![cur]
    } else {
        let m = hyphen_merge(cur, rest[0]);
        seq![m.0].add(repair_from(m.1, rest.skip(1)))
    }
}

/// The continuation repair over a whole document's texts.
pub open spec fn repair_texts(texts: Seq<Seq<char>>) -> Seq<Seq<char>> {
    if texts.len() == 0 {
        Seq::empty()
    } else {
        repair_from(texts[0], texts.skip(1))
    }
}

/// The texts of a sequence of entries.
pub open spec fn texts_of(subs: Seq<Subtitle>) -> Seq<Seq<char>> {
    subs.map_values(|e: Subtitle| e.text@)
}

/// Executable form of `hyphen_merge` on character vectors.
fn exec_hyphen_merge(a: Vec<char>, b: Vec<char>) -> (r: (Vec<char>, Vec<char>))
    ensures
        r.0@ == hyphen_merge(a@, b@).0,
        r.1@ == hyphen_merge(a@, b@).1,
{
    let n = a.len();
    let ends = n >= 2 && char_is_ascii_letter(a[n - 2]) && a[n - 1] == '-';
    if !ends {
        return (a, b);
    }
    let bn = b.len();
    let mut p: usize = 0;
    while p < bn && b[p] != ' '
        invariant
            p <= bn,
            bn == b@.len(),
            forall|j: int| 0 <= j < p ==> #[trigger] b@[j] != ' ',
        decreases bn - p,
    {
        p = p + 1;
    }
    proof {
        lemma_space_pos_is(b@, p as int);
    }
    if p >= bn {
        return (a, b);
    }
    let word = trim_chars(&sub_chars(&b, 0, p));
    let rest = sub_chars(&b, p + 1, bn);
    let mut joined = a;
    let ghost a0 = joined@;
    let wn = word.len();
    let mut k: usize = 0;
    while k < wn
        invariant
            k <= wn,
            wn == word@.len(),
            joined@ == a0.add(word@.take(k as int)),
        decreases wn - k,
    {
        joined.push(word[k]);
        proof {
            assert(a0.add(word@.take(k + 1 as int)) =~= a0.add(word@.take(k as int)).push(
                word@[k as int],
            ));
        }
        k = k + 1;
    }
    proof {
        assert(word@.take(wn as int) =~= word@);
        assert(b@.take(p as int) =~= b@.subrange(0, p as int));
        assert(b@.skip(p + 1 as int) =~= b@.subrange(p + 1 as int, bn as int));
    }
    (joined, rest)
}

/// Normalize every entry's text, then run the continuation repair once over
/// adjacent entries, left to right.  Index and timing fields are untouched.
pub fn clean_subtitles(subtitles: &mut Vec<Subtitle>)
    ensures
        final(subtitles)@.len() == old(subtitles)@.len(),
        forall|k: int|
            0 <= k < old(subtitles)@.len() ==> {
                &&& (#[trigger] final(subtitles)@[k]).num == old(subtitles)@[k].num
                &&& final(subtitles)@[k].start_time == old(subtitles)@[k].start_time
                &&& final(subtitles)@[k].end_time == old(subtitles)@[k].end_time
            },
        texts_of(final(subtitles)@) == repair_texts(
            texts_of(old(subtitles)@).map_values(|t: Seq<char>| spec_clean(t)),
        ),
{
    let ghost cleaned_spec = texts_of(old(subtitles)@).map_values(|t: Seq<char>| spec_clean(t));
    let n = subtitles.len();
    if n == 0 {
        proof {
            assert(texts_of(subtitles@) =~= repair_texts(cleaned_spec));
        }
        return ;
    }
    let mut cleaned: Vec<Vec<char>> = Vec::new();
    let mut i: usize = 0;
    while i < n
        invariant
            i <= n,
            n == subtitles@.len(),
            subtitles@ == old(subtitles)@,
            cleaned_spec == texts_of(old(subtitles)@).map_values(|t: Seq<char>| spec_clean(t)),
            cleaned@.len() == i,
            forall|k: int| 0 <= k < i ==> (#[trigger] cleaned@[k])@ == cleaned_spec[k],
        decreases n - i,
    {
        let c = clean_chars(subtitles[i].text.as_str());
        cleaned.push(c);
        i = i + 1;
    }
    let mut repaired: Vec<Vec<char>> = Vec::new();
    let mut cur = sub_chars(&cleaned[0], 0, cleaned[0].len());
    let mut j: usize = 1;
    proof {
        assert(cleaned_spec.len() == n);
        assert(cur@ =~= cleaned@[0]@);
        assert(repaired.deep_view().add(repair_from(cur@, cleaned_spec.skip(1)))
            =~~= repair_texts(cleaned_spec));
    }
    while j < n
        invariant
            1 <= j <= n,
            n == cleaned@.len(),
            n == cleaned_spec.len(),
            repaired@.len() == j - 1,
            forall|k: int| 0 <= k < n ==> (#[trigger] cleaned@[k])@ == cleaned_spec[k],
            repair_texts(cleaned_spec) == repaired.deep_view().add(
                repair_from(cur@, cleaned_spec.skip(j as int)),
            ),
        decreases n - j,
    {
        let nxt = sub_chars(&cleaned[j], 0, cleaned[j].len());
        let ghost cur0 = cur@;
        proof {
            assert(nxt@ =~= cleaned_spec[j as int]);
            assert(cleaned_spec.skip(j as int)[0] == cleaned_spec[j as int]);
            assert(cleaned_spec.skip(j as int).skip(1) =~= cleaned_spec.skip(j + 1 as int));
        }
        let merged = exec_hyphen_merge(cur, nxt);
        let ghost m = hyphen_merge(cur0, cleaned_spec[j as int]);
        let ghost prev = repaired.deep_view();
        repaired.push(merged.0);
        cur = merged.1;
        proof {
            assert(repaired.deep_view() =~~= prev.push(m.0));
            assert(repair_from(cur0, cleaned_spec.skip(j as int)) =~= seq![m.0].add(
                repair_from(m.1, cleaned_spec.skip(j + 1 as int)),
            ));
            assert(prev.push(m.0).add(repair_from(m.1, cleaned_spec.skip(j + 1 as int)))
                =~= prev.add(repair_from(cur0, cleaned_spec.skip(j as int))));
        }
        j = j + 1;
    }
    let ghost prev = repaired.deep_view();
    let ghost curv = cur@;
    repaired.push(cur);
    proof {
        assert(cleaned_spec.skip(n as int) =~= Seq::<Seq<char>>::empty());
        assert(repair_from(curv, cleaned_spec.skip(n as int)) =~= seq![curv]);
        assert(repaired.deep_view() =~~= prev.add(seq![curv]));
        assert(repaired.deep_view() == repair_texts(cleaned_spec));
    }
    let mut result: Vec<Subtitle> = Vec::new();
    let mut k: usize = 0;
    while k < n
        invariant
            k <= n,
            n == subtitles@.len(),
            n == repaired@.len(),
            subtitles@ == old(subtitles)@,
            result@.len() == k,
            forall|m: int|
                0 <= m < k ==> {
                    &&& (#[trigger] result@[m]).num == old(subtitles)@[m].num
                    &&& result@[m].start_time == old(subtitles)@[m].start_time
                    &&& result@[m].end_time == old(subtitles)@[m].end_time
                    &&& result@[m].text@ == repaired.deep_view()[m]
                },
        decreases n - k,
    {
        let text = string_of(&repaired[k]);
        let e = &subtitles[k];
        result.push(
            Subtitle { num: e.num, start_time: e.start_time, end_time: e.end_time, text },
        );
        k = k + 1;
    }
    *subtitles = result;
    proof {
        assert(texts_of(subtitles@) =~~= repair_texts(cleaned_spec));
    }
}

} // verus!
