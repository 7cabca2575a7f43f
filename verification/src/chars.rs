//! Character-level helpers shared by the tokenizer and the text cleaners:
//! the white-space predicate and conversions between `&str` and `Vec<char>`.

use vstd::prelude::*;
use vstd::string::StrSliceExecFns;

verus! {

/// The Unicode white-space characters: the separators recognised by
/// `str::split_whitespace`, and the characters the tokenizer places in
/// whitespace tokens.
pub open spec fn is_space(c: char) -> bool {
    let u = c as u32;
    (0x09 <= u && u <= 0x0d) || u == 0x20 || u == 0x85 || u == 0xa0 || u == 0x1680 || (0x2000
        <= u && u <= 0x200a) || u == 0x2028 || u == 0x2029 || u == 0x202f || u == 0x205f || u
        == 0x3000
}

/// Executable form of `is_space`.
pub fn char_is_space(c: char) -> (r: bool)
    ensures
        r == is_space(c),
{
    let u = c as u32;
    (0x09 <= u && u <= 0x0d) || u == 0x20 || u == 0x85 || u == 0xa0 || u == 0x1680 || (0x2000
        <= u && u <= 0x200a) || u == 0x2028 || u == 0x2029 || u == 0x202f || u == 0x205f || u
        == 0x3000
}

/// The characters of `s`, in order.
pub fn chars_of(s: &str) -> (r: Vec<char>)
    ensures
        r@ == s@,
{
    let n = s.unicode_len();
    let mut r: Vec<char> = Vec::new();
    let mut i: usize = 0;
    while i < n
        invariant
            n == s@.len(),
            i <= n,
            r@ == s@.take(i as int),
        decreases n - i,
    {
        let c = s.get_char(i);
        r.push(c);
        proof {
            assert(s@.take(i + 1 as int) =~= s@.take(i as int).push(s@[i as int]));
        }
        i = i + 1;
    }
    proof {
        assert(s@.take(n as int) =~= s@);
    }
    r
}

/// Relies on `String` implementing `FromIterator<char>`: collecting the
/// characters of `v` yields the string whose characters are exactly `v`.
#[verifier::external_body]
pub fn string_of(v: &Vec<char>) -> (r: String)
    ensures
        r@ == v@,
{
    v.iter().collect()
}

/// Append the characters of `s` to `buf`.
pub fn push_chars(buf: &mut Vec<char>, s: &str)
    ensures
        final(buf)@ == old(buf)@ + s@,
{
    let n = s.unicode_len();
    let mut i: usize = 0;
    while i < n
        invariant
            i <= n,
            n == s@.len(),
            buf@ == old(buf)@ + s@.take(i as int),
        decreases n - i,
    {
        let c = s.get_char(i);
        buf.push(c);
        proof {
            assert(old(buf)@ + s@.take(i + 1 as int) =~= (old(buf)@ + s@.take(i as int)).push(
                s@[i as int],
            ));
        }
        i = i + 1;
    }
    proof {
        assert(s@.take(n as int) =~= s@);
    }
}

/// Collapse every run of two or more space characters to a single space;
/// other characters, including newlines, are untouched.
pub open spec fn spec_collapse_spaces(s: Seq<char>) -> Seq<char>
    decreases s.len(),
{
    if s.len() == 0 {
        Seq::empty()
    } else if s[0] == ' ' && s.len() > 1 && s[1] == ' ' {
        spec_collapse_spaces(s.skip(1))
    } else {
        seq![s[0]].add(spec_collapse_spaces(s.skip(1)))
    }
}

/// Executable form of `spec_collapse_spaces`.
pub fn collapse_spaces(v: &Vec<char>) -> (r: Vec<char>)
    ensures
        r@ == spec_collapse_spaces(v@),
{
    let n = v.len();
    let mut out: Vec<char> = Vec::new();
    let mut i: usize = 0;
    proof {
        assert(v@.skip(0) =~= v@);
        assert(out@.add(spec_collapse_spaces(v@.skip(0))) =~= spec_collapse_spaces(v@));
    }
    while i < n
        invariant
            i <= n,
            n == v@.len(),
            spec_collapse_spaces(v@) == out@.add(spec_collapse_spaces(v@.skip(i as int))),
        decreases n - i,
    {
        let ghost suf = v@.skip(i as int);
        proof {
            assert(suf.skip(1) =~= v@.skip(i + 1 as int));
            assert(suf[0] == v@[i as int]);
            assert(i + 1 < n ==> suf[1] == v@[i + 1 as int]);
        }
        if !(v[i] == ' ' && i + 1 < n && v[i + 1] == ' ') {
            out.push(v[i]);
            proof {
                assert(out@.add(spec_collapse_spaces(v@.skip(i + 1 as int)))
                    =~= out@.drop_last().add(spec_collapse_spaces(suf)));
            }
        }
        i = i + 1;
    }
    proof {
        assert(v@.skip(n as int) =~= Seq::<char>::empty());
        assert(out@.add(spec_collapse_spaces(v@.skip(n as int))) =~= out@);
    }
    out
}

/// Drop one leading and one trailing space character, if present: the
/// artifacts an empty allocation can leave at the edges of a rebuilt text.
pub open spec fn spec_trim_space_ends(s: Seq<char>) -> Seq<char> {
    let a = if s.len() > 0 && s[0] == ' ' {
        s.skip(1)
    } else {
        s
    };
    if a.len() > 0 && a.last() == ' ' {
        a.drop_last()
    } else {
        a
    }
}

/// Executable form of `spec_trim_space_ends`.
pub fn trim_space_ends(v: &Vec<char>) -> (r: Vec<char>)
    ensures
        r@ == spec_trim_space_ends(v@),
{
    let n = v.len();
    let from: usize = if n > 0 && v[0] == ' ' {
        1
    } else {
        0
    };
    let to: usize = if n > from && v[n - 1] == ' ' {
        n - 1
    } else {
        n
    };
    let mut out: Vec<char> = Vec::new();
    let mut i: usize = from;
    while i < to
        invariant
            from <= i <= to <= n,
            n == v@.len(),
            out@ == v@.subrange(from as int, i as int),
        decreases to - i,
    {
        out.push(v[i]);
        proof {
            assert(v@.subrange(from as int, i + 1 as int) =~= v@.subrange(
                from as int,
                i as int,
            ).push(v@[i as int]));
        }
        i = i + 1;
    }
    proof {
        let a = if v@.len() > 0 && v@[0] == ' ' {
            v@.skip(1)
        } else {
            v@
        };
        if a.len() > 0 && a.last() == ' ' {
            assert(out@ =~= a.drop_last());
        } else {
            assert(out@ =~= a);
        }
    }
    out
}

/// Drop all leading whitespace.
pub open spec fn spec_trim_start(s: Seq<char>) -> Seq<char>
    decreases s.len(),
{
    if s.len() > 0 && is_space(s[0]) {
        spec_trim_start(s.skip(1))
    } else {
        s
    }
}

/// Drop all trailing whitespace.
pub open spec fn spec_trim_end(s: Seq<char>) -> Seq<char>
    decreases s.len(),
{
    if s.len() > 0 && is_space(s.last()) {
        spec_trim_end(s.drop_last())
    } else {
        s
    }
}

/// Drop all leading and trailing whitespace.
pub open spec fn spec_trim(s: Seq<char>) -> Seq<char> {
    spec_trim_end(spec_trim_start(s))
}

proof fn lemma_trim_start_is(s: Seq<char>, k: int)
    requires
        0 <= k <= s.len(),
        forall|j: int| 0 <= j < k ==> is_space(#[trigger] s[j]),
        k < s.len() ==> !is_space(s[k]),
    ensures
        spec_trim_start(s) == s.skip(k),
    decreases k,
{
    if k == 0 {
        assert(s.skip(0) =~= s);
    } else {
        let r = s.skip(1);
        assert(forall|j: int| 0 <= j < k - 1 ==> is_space(#[trigger] r[j]));
        assert(k - 1 < r.len() ==> !is_space(r[k - 1]));
        lemma_trim_start_is(r, k - 1);
        assert(r.skip(k - 1) =~= s.skip(k));
    }
}

proof fn lemma_trim_end_is(s: Seq<char>, k: int)
    requires
        0 <= k <= s.len(),
        forall|j: int| k <= j < s.len() ==> is_space(#[trigger] s[j]),
        k > 0 ==> !is_space(s[k - 1]),
    ensures
        spec_trim_end(s) == s.take(k),
    decreases s.len() - k,
{
    if k == s.len() {
        assert(s.take(k) =~= s);
    } else {
        let r = s.drop_last();
        assert(forall|j: int| k <= j < r.len() ==> is_space(#[trigger] r[j]));
        lemma_trim_end_is(r, k);
        assert(r.take(k) =~= s.take(k));
    }
}

/// The characters of `v` with leading and trailing whitespace dropped.
pub fn trim_chars(v: &Vec<char>) -> (r: Vec<char>)
    ensures
        r@ == spec_trim(v@),
{
    let n = v.len();
    let mut from: usize = 0;
    while from < n && char_is_space(v[from])
        invariant
            from <= n,
            n == v@.len(),
            forall|j: int| 0 <= j < from ==> is_space(#[trigger] v@[j]),
        decreases n - from,
    {
        from = from + 1;
    }
    let mut to: usize = n;
    while to > from && char_is_space(v[to - 1])
        invariant
            from <= to <= n,
            n == v@.len(),
            forall|j: int| to <= j < n ==> is_space(#[trigger] v@[j]),
            forall|j: int| 0 <= j < from ==> is_space(#[trigger] v@[j]),
        decreases to,
    {
        to = to - 1;
    }
    let mut out: Vec<char> = Vec::new();
    let mut i: usize = from;
    while i < to
        invariant
            from <= i <= to <= n,
            n == v@.len(),
            out@ == v@.subrange(from as int, i as int),
        decreases to - i,
    {
        out.push(v[i]);
        proof {
            assert(v@.subrange(from as int, i + 1 as int) =~= v@.subrange(
                from as int,
                i as int,
            ).push(v@[i as int]));
        }
        i = i + 1;
    }
    proof {
        lemma_trim_start_is(v@, from as int);
        let m = v@.skip(from as int);
        assert(forall|j: int| to - from <= j < m.len() ==> is_space(#[trigger] m[j]));
        assert(to - from > 0 ==> !is_space(m[to - from - 1]));
        lemma_trim_end_is(m, to - from);
        assert(m.take(to - from) =~= v@.subrange(from as int, to as int));
    }
    out
}

} // verus!
