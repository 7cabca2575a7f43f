//! Book sections extracted for translation, and where their files go.

use vstd::prelude::*;

use crate::chars::{chars_of, is_space, push_chars, string_of};
use crate::subtitle::path::join_path;
use crate::translation::{nl_pos, spec_lines};
use crate::tokenize::sub_chars;

verus! {

/// One section of a book: its title, its position in the book, and its
/// extracted text.
#[derive(Debug, Clone, PartialEq)]
pub struct BookSection {
    pub title: String,
    pub index: usize,
    pub content: String,
}

impl BookSection {
    pub fn new(title: String, index: usize, content: String) -> (r: BookSection)
        ensures
            r.title == title,
            r.index == index,
            r.content == content,
    {
        BookSection { title, index, content }
    }
}

/// The directory of a book's translations under a base path.
pub fn book_path(base_path: &str, book_title: &str) -> (r: String)
    ensures
        r@ == join_path(base_path@, book_title@),
{
    let base = chars_of(base_path);
    let title = chars_of(book_title);
    if title.len() > 0 && title[0] == '/' {
        return string_of(&title);
    }
    if base.len() == 0 {
        return string_of(&title);
    }
    let mut out = base;
    if !(out[out.len() - 1] == '/') {
        out.push('/');
    }
    let ghost mid = out@;
    let n = title.len();
    let mut i: usize = 0;
    while i < n
        invariant
            i <= n,
            n == title@.len(),
            out@ == mid.add(title@.take(i as int)),
        decreases n - i,
    {
        out.push(title[i]);
        proof {
            assert(mid.add(title@.take(i + 1 as int)) =~= mid.add(title@.take(i as int)).push(
                title@[i as int],
            ));
        }
        i = i + 1;
    }
    proof {
        assert(title@.take(n as int) =~= title@);
        assert(out@ =~= join_path(base_path@, book_title@));
    }
    string_of(&out)
}

/// The decimal digit character of `d`.
pub open spec fn digit_char(d: int) -> char {
    if d == 0 {
        '0'
    } else if d == 1 {
        '1'
    } else if d == 2 {
        '2'
    } else if d == 3 {
        '3'
    } else if d == 4 {
        '4'
    } else if d == 5 {
        '5'
    } else if d == 6 {
        '6'
    } else if d == 7 {
        '7'
    } else if d == 8 {
        '8'
    } else {
        '9'
    }
}

/// The decimal digits of `n`, most significant first.
pub open spec fn dec_chars(n: int) -> Seq<char>
    decreases n,
{
    if n < 10 {
        seq![digit_char(n)]
    } else {
        dec_chars(n / 10).push(digit_char(n % 10))
    }
}

fn exec_digit_char(d: usize) -> (r: char)
    requires
        d < 10,
    ensures
        r == digit_char(d as int),
{
    if d == 0 {
        '0'
    } else if d == 1 {
        '1'
    } else if d == 2 {
        '2'
    } else if d == 3 {
        '3'
    } else if d == 4 {
        '4'
    } else if d == 5 {
        '5'
    } else if d == 6 {
        '6'
    } else if d == 7 {
        '7'
    } else if d == 8 {
        '8'
    } else {
        '9'
    }
}

fn dec_string(n: usize) -> (r: Vec<char>)
    ensures
        r@ == dec_chars(n as int),
        r@.len() >= 1,
    decreases n,
{
    if n < 10 {
        let mut v: Vec<char> = Vec::new();
        v.push(exec_digit_char(n));
        proof {
            assert(v@ =~= seq![digit_char(n as int)]);
        }
        v
    } else {
        let mut v = dec_string(n / 10);
        v.push(exec_digit_char(n % 10));
        v
    }
}

/// The decimal digits of `n`, left-padded with zeros to at least three
/// characters: how section files are numbered so they sort correctly.
pub open spec fn padded_index(n: int) -> Seq<char> {
    let ds = dec_chars(n);
    if ds.len() >= 3 {
        ds
    } else if ds.len() == 2 {
        seq!['0'].add(ds)
    } else {
        seq!['0', '0'].add(ds)
    }
}

/// The file of one section under the book's directory:
/// `<index, zero-padded to three>-<title>.md`.
pub fn section_path(book_path: &str, section: &BookSection) -> (r: String)
    ensures
        r@ == join_path(
            book_path@,
            padded_index(section.index as int).add("-"@).add(section.title@).add(".md"@),
        ),
{
    let ds = dec_string(section.index);
    let mut name: Vec<char> = Vec::new();
    if ds.len() == 1 {
        name.push('0');
        name.push('0');
    } else if ds.len() == 2 {
        name.push('0');
    }
    let ghost zeros = name@;
    let n = ds.len();
    let mut i: usize = 0;
    while i < n
        invariant
            i <= n,
            n == ds@.len(),
            name@ == zeros.add(ds@.take(i as int)),
        decreases n - i,
    {
        name.push(ds[i]);
        proof {
            assert(zeros.add(ds@.take(i + 1 as int)) =~= zeros.add(ds@.take(i as int)).push(
                ds@[i as int],
            ));
        }
        i = i + 1;
    }
    proof {
        assert(ds@.take(n as int) =~= ds@);
        assert(name@ =~= padded_index(section.index as int));
    }
    push_chars(&mut name, "-");
    push_chars(&mut name, section.title.as_str());
    push_chars(&mut name, ".md");
    let name_s = string_of(&name);
    let joined = book_path_join(book_path, name_s.as_str());
    joined
}

/// Join a file name under the book directory.
fn book_path_join(base: &str, name: &str) -> (r: String)
    ensures
        r@ == join_path(base@, name@),
{
    book_path(base, name)
}

/// Whether a text is whitespace only.
pub open spec fn all_space(s: Seq<char>) -> bool {
    forall|i: int| 0 <= i < s.len() ==> is_space(#[trigger] s[i])
}

/// Remove every whitespace-only line that ends with a newline; the rest of
/// the text, including a whitespace-only final fragment, stays as it is.
pub open spec fn spec_clean_text(s: Seq<char>) -> Seq<char>
    decreases s.len(),
{
    if s.len() == 0 {
        Seq::empty()
    } else {
        let p = nl_pos(s) as int;
        if p == s.len() {
            s
        } else if 0 <= p < s.len() {
            let seg = s.take(p + 1);
            if all_space(seg) {
                spec_clean_text(s.skip(p + 1))
            } else {
                seg.add(spec_clean_text(s.skip(p + 1)))
            }
        } else {
            Seq::empty()
        }
    }
}

/// Remove the whitespace-only lines of a text.
pub fn clean_text(s: &str) -> (r: String)
    ensures
        r@ == spec_clean_text(s@),
{
    let v = chars_of(s);
    let n = v.len();
    let mut out: Vec<char> = Vec::new();
    let mut i: usize = 0;
    proof {
        assert(v@.skip(0) =~= v@);
        assert(out@.add(spec_clean_text(v@.skip(0))) =~= spec_clean_text(v@));
    }
    while i < n
        invariant
            i <= n,
            n == v@.len(),
            v@ == s@,
            spec_clean_text(v@) == out@.add(spec_clean_text(v@.skip(i as int))),
        decreases n - i,
    {
        let ghost u = v@.skip(i as int);
        // find the end of the current line and whether it is blank
        let mut j: usize = i;
        let mut blank = true;
        while j < n && v[j] != '\n'
            invariant
                i <= j <= n,
                n == v@.len(),
                forall|m: int| i <= m < j ==> #[trigger] v@[m] != '\n',
                blank == all_space(v@.subrange(i as int, j as int)),
            decreases n - j,
        {
            if !crate::chars::char_is_space(v[j]) {
                proof {
                    let sr = v@.subrange(i as int, j + 1 as int);
                    assert(sr[j - i] == v@[j as int]);
                }
                blank = false;
            }
            proof {
                let sr0 = v@.subrange(i as int, j as int);
                let sr1 = v@.subrange(i as int, j + 1 as int);
                assert(sr1 =~= sr0.push(v@[j as int]));
                if blank {
                    assert(all_space(sr1)) by {
                        assert(forall|m: int| 0 <= m < sr0.len() ==> is_space(#[trigger] sr0[m]));
                        assert(forall|m: int|
                            0 <= m < sr1.len() ==> sr1[m] == if m < sr0.len() {
                                sr0[m]
                            } else {
                                v@[j as int]
                            });
                    }
                }
            }
            j = j + 1;
        }
        proof {
            crate::translation::lemma_nl_pos(u);
            assert(forall|m: int| 0 <= m < j - i ==> #[trigger] u[m] == v@[i + m]);
            if nl_pos(u) < j - i {
                assert(u[nl_pos(u) as int] == '\n');
            }
            if nl_pos(u) > j - i && j < n {
                assert(u[j - i] != '\n');
            }
            assert(nl_pos(u) == j - i);
        }
        if j == n {
            // final fragment without newline: kept whole
            let ghost prev = out@;
            let mut k: usize = i;
            while k < n
                invariant
                    i <= k <= n,
                    n == v@.len(),
                    out@ == prev.add(v@.subrange(i as int, k as int)),
                decreases n - k,
            {
                out.push(v[k]);
                proof {
                    assert(v@.subrange(i as int, k + 1 as int) =~= v@.subrange(
                        i as int,
                        k as int,
                    ).push(v@[k as int]));
                }
                k = k + 1;
            }
            proof {
                assert(v@.subrange(i as int, n as int) =~= u);
                assert(spec_clean_text(u) =~= u);
                assert(v@.skip(n as int) =~= Seq::<char>::empty());
                assert(out@.add(spec_clean_text(v@.skip(n as int))) =~= prev.add(
                    spec_clean_text(u),
                ));
            }
            i = n;
        } else {
            let ghost seg = u.take(j - i + 1);
            proof {
                assert(seg =~= v@.subrange(i as int, j + 1 as int));
                assert(u.skip(j - i + 1) =~= v@.skip(j + 1 as int));
                let sr = v@.subrange(i as int, j as int);
                assert(forall|m: int|
                    0 <= m < seg.len() ==> seg[m] == if m < sr.len() {
                        sr[m]
                    } else {
                        v@[j as int]
                    });
                if blank {
                    assert(all_space(seg));
                } else {
                    let w = choose|m: int| 0 <= m < sr.len() && !is_space(sr[m]);
                    assert(!is_space(seg[w]));
                }
            }
            if blank {
                i = j + 1;
            } else {
                let ghost prev = out@;
                let mut k: usize = i;
                while k < j + 1
                    invariant
                        i <= k <= j + 1 <= n,
                        n == v@.len(),
                        out@ == prev.add(v@.subrange(i as int, k as int)),
                    decreases j + 1 - k,
                {
                    out.push(v[k]);
                    proof {
                        assert(v@.subrange(i as int, k + 1 as int) =~= v@.subrange(
                            i as int,
                            k as int,
                        ).push(v@[k as int]));
                    }
                    k = k + 1;
                }
                proof {
                    assert(out@ =~= prev.add(seg));
                    assert(out@.add(spec_clean_text(v@.skip(j + 1 as int))) =~= prev.add(
                        spec_clean_text(u),
                    ));
                }
                i = j + 1;
            }
        }
    }
    proof {
        assert(v@.skip(n as int) =~= Seq::<char>::empty());
        assert(out@.add(spec_clean_text(v@.skip(n as int))) =~= out@);
    }
    string_of(&out)
}

/// Length of the maximal leading whitespace run.
pub open spec fn leading_space_len(s: Seq<char>) -> nat
    decreases s.len(),
{
    if s.len() == 0 {
        0
    } else if !is_space(s[0]) {
        0
    } else {
        (1 + leading_space_len(s.skip(1))) as nat
    }
}

proof fn lemma_leading_space_len_is(s: Seq<char>, k: int)
    requires
        0 <= k <= s.len(),
        forall|j: int| 0 <= j < k ==> is_space(#[trigger] s[j]),
        k < s.len() ==> !is_space(s[k]),
    ensures
        leading_space_len(s) == k,
    decreases k,
{
    if k > 0 {
        let r = s.skip(1);
        assert(forall|j: int| 0 <= j < k - 1 ==> is_space(#[trigger] r[j]));
        lemma_leading_space_len_is(r, k - 1);
    }
}

/// A section title with a leading heading marker removed: leading
/// whitespace, one `#`, and the whitespace after it.
pub open spec fn spec_clean_section_title(s: Seq<char>) -> Seq<char> {
    let a = leading_space_len(s) as int;
    if a < s.len() && s[a] == '#' {
        let b = leading_space_len(s.skip(a + 1)) as int;
        s.skip(a + 1 + b)
    } else {
        s
    }
}

/// Strip the heading marker from a section title.
pub fn clean_section_title(s: &str) -> (r: String)
    ensures
        r@ == spec_clean_section_title(s@),
{
    let v = chars_of(s);
    let n = v.len();
    let mut a: usize = 0;
    while a < n && crate::chars::char_is_space(v[a])
        invariant
            a <= n,
            n == v@.len(),
            forall|j: int| 0 <= j < a ==> is_space(#[trigger] v@[j]),
        decreases n - a,
    {
        a = a + 1;
    }
    proof {
        lemma_leading_space_len_is(v@, a as int);
    }
    if !(a < n && v[a] == '#') {
        return string_of(&v);
    }
    let mut b: usize = a + 1;
    while b < n && crate::chars::char_is_space(v[b])
        invariant
            a + 1 <= b <= n,
            n == v@.len(),
            forall|j: int| a + 1 <= j < b ==> is_space(#[trigger] v@[j]),
        decreases n - b,
    {
        b = b + 1;
    }
    proof {
        let u = v@.skip(a + 1 as int);
        assert(forall|j: int| 0 <= j < b - a - 1 ==> is_space(#[trigger] u[j]));
        assert(b - a - 1 < u.len() ==> !is_space(u[b - a - 1]));
        lemma_leading_space_len_is(u, b - a - 1);
    }
    let rest = sub_chars(&v, b, n);
    proof {
        assert(rest@ =~= v@.skip(b as int));
    }
    string_of(&rest)
}

} // verus!
