//! Pairing of a source text with its translation, line by line, and the
//! flattened stream of word allocations across all line pairs.

use vstd::prelude::*;

use crate::chars::{chars_of, string_of};
use crate::error::AlignError;
use crate::proportional::{total_count, ProportionalIter};
use crate::tokenize::{spec_words, sub_chars};

verus! {

/// Index of the first newline in `s`, or `s.len()` when there is none.
pub open spec fn nl_pos(s: Seq<char>) -> nat
    decreases s.len(),
{
    if s.len() == 0 {
        0
    } else if s[0] == '\n' {
        0
    } else {
        (1 + nl_pos(s.skip(1))) as nat
    }
}

pub proof fn lemma_nl_pos(s: Seq<char>)
    ensures
        nl_pos(s) <= s.len(),
        nl_pos(s) < s.len() ==> s[nl_pos(s) as int] == '\n',
        forall|j: int| 0 <= j < nl_pos(s) ==> #[trigger] s[j] != '\n',
    decreases s.len(),
{
    if s.len() > 0 && s[0] != '\n' {
        lemma_nl_pos(s.skip(1));
        assert forall|j: int| 0 <= j < nl_pos(s) implies #[trigger] s[j] != '\n' by {
            if j > 0 {
                assert(s.skip(1)[j - 1] != '\n');
            }
        }
    }
}

/// One trailing carriage return is dropped from a newline-terminated line.
pub open spec fn strip_cr(l: Seq<char>) -> Seq<char> {
    if l.len() > 0 && l.last() == '\r' {
        l.drop_last()
    } else {
        l
    }
}

/// The lines of a text: segments terminated by `\n` (with a preceding `\r`
/// dropped), plus a final unterminated segment when it is non-empty.
pub open spec fn spec_lines(s: Seq<char>) -> Seq<Seq<char>>
    decreases s.len(),
{
    if s.len() == 0 {
        Seq::empty()
    } else {
        let p = nl_pos(s) as int;
        if p == s.len() {
            seq![s]
        } else if 0 <= p < s.len() {
            seq![strip_cr(s.take(p))].add(spec_lines(s.skip(p + 1)))
        } else {
            Seq::empty()
        }
    }
}

/// Split a text into its lines.
pub fn split_lines(text: &str) -> (r: Vec<String>)
    ensures
        r.deep_view() == spec_lines(text@),
{
    let v = chars_of(text);
    let n = v.len();
    let mut out: Vec<String> = Vec::new();
    let mut i: usize = 0;
    proof {
        assert(v@.skip(0) =~= v@);
        assert(out.deep_view().add(spec_lines(v@.skip(0))) =~= spec_lines(v@));
    }
    while i < n
        invariant
            i <= n,
            n == v@.len(),
            v@ == text@,
            spec_lines(v@) == out.deep_view().add(spec_lines(v@.skip(i as int))),
        decreases n - i,
    {
        let ghost suf = v@.skip(i as int);
        let mut j: usize = i;
        while j < n && v[j] != '\n'
            invariant
                i <= j <= n,
                n == v@.len(),
                forall|m: int| i <= m < j ==> #[trigger] v@[m] != '\n',
            decreases n - j,
        {
            j = j + 1;
        }
        proof {
            lemma_nl_pos(suf);
            assert(forall|m: int| 0 <= m < j - i ==> #[trigger] suf[m] == v@[i + m]);
            assert(j < n ==> suf[j - i] == '\n');
            if nl_pos(suf) < j - i {
                assert(suf[nl_pos(suf) as int] == '\n');
                assert(v@[i + nl_pos(suf)] == '\n');
            }
            if nl_pos(suf) > j - i {
                assert(j - i < suf.len());
                assert(suf[j - i] != '\n');
            }
            assert(nl_pos(suf) == j - i);
        }
        if j == n {
            let line = string_of(&sub_chars(&v, i, n));
            let ghost prev = out.deep_view();
            out.push(line);
            proof {
                assert(suf =~= v@.subrange(i as int, n as int));
                assert(spec_lines(suf) =~= seq![suf]);
                assert(out.deep_view() =~= prev.push(suf));
                assert(prev.push(suf).add(spec_lines(v@.skip(n as int))) =~= prev.add(
                    spec_lines(suf),
                ));
            }
            i = n;
        } else {
            let end: usize = if j > i && v[j - 1] == '\r' {
                j - 1
            } else {
                j
            };
            let line = string_of(&sub_chars(&v, i, end));
            let ghost prev = out.deep_view();
            out.push(line);
            proof {
                assert(suf.take(j - i) =~= v@.subrange(i as int, j as int));
                if j > i && v@[j - 1] == '\r' {
                    assert(strip_cr(suf.take(j - i)) =~= v@.subrange(i as int, end as int));
                } else {
                    assert(strip_cr(suf.take(j - i)) =~= v@.subrange(i as int, end as int));
                }
                assert(suf.skip(j - i + 1) =~= v@.skip(j + 1 as int));
                assert(spec_lines(suf) =~= seq![strip_cr(suf.take(j - i))].add(
                    spec_lines(v@.skip(j + 1 as int)),
                ));
                assert(out.deep_view() =~= prev.push(v@.subrange(i as int, end as int)));
                assert(prev.push(v@.subrange(i as int, end as int)).add(
                    spec_lines(v@.skip(j + 1 as int)),
                ) =~= prev.add(spec_lines(suf)));
            }
            i = j + 1;
        }
    }
    proof {
        assert(v@.skip(n as int) =~= Seq::<char>::empty());
        assert(out.deep_view().add(spec_lines(v@.skip(n as int))) =~= out.deep_view());
    }
    out
}

/// One line of the source text paired with the corresponding line of the
/// translated text.
#[derive(Debug, Clone, PartialEq)]
pub struct Translation {
    pub source_text: String,
    pub target_text: String,
}

impl Translation {
    pub fn new(source_text: &str, target_text: &str) -> (r: Translation)
        ensures
            r.source_text@ == source_text@,
            r.target_text@ == target_text@,
    {
        Translation { source_text: source_text.to_owned(), target_text: target_text.to_owned() }
    }

    /// Pair the lines of a source text with the lines of its translation.
    /// Fails exactly when the two texts have different line counts, and then
    /// carries both counts so the caller can tell the user what to fix.
    pub fn from_source_and_target(source: &str, target: &str) -> (r: Result<
        Vec<Translation>,
        AlignError,
    >)
        ensures
            ({
                let sl = spec_lines(source@);
                let tl = spec_lines(target@);
                match r {
                    Ok(v) => {
                        &&& sl.len() == tl.len()
                        &&& v@.len() == sl.len()
                        &&& forall|i: int|
                            0 <= i < v@.len() ==> (#[trigger] v@[i]).source_text@ == sl[i]
                                && v@[i].target_text@ == tl[i]
                    },
                    Err(e) => sl.len() != tl.len() && e == (AlignError::LineCountMismatch {
                        expected: sl.len() as usize,
                        got: tl.len() as usize,
                    }),
                }
            }),
    {
        let sv = split_lines(source);
        let tv = split_lines(target);
        proof {
            assert(sv.deep_view().len() == sv@.len());
            assert(tv.deep_view().len() == tv@.len());
        }
        if sv.len() != tv.len() {
            return Err(AlignError::LineCountMismatch { expected: sv.len(), got: tv.len() });
        }
        let n = sv.len();
        let mut out: Vec<Translation> = Vec::new();
        let mut i: usize = 0;
        while i < n
            invariant
                i <= n,
                n == sv@.len() == tv@.len(),
                sv.deep_view() == spec_lines(source@),
                tv.deep_view() == spec_lines(target@),
                out@.len() == i,
                forall|k: int|
                    0 <= k < i ==> (#[trigger] out@[k]).source_text@ == sv.deep_view()[k]
                        && out@[k].target_text@ == tv.deep_view()[k],
            decreases n - i,
        {
            let t = Translation::new(sv[i].as_str(), tv[i].as_str());
            out.push(t);
            i = i + 1;
        }
        Ok(out)
    }
}

/// The two texts of each pair, as character sequences.
pub open spec fn translation_views(v: Seq<Translation>) -> Seq<(Seq<char>, Seq<char>)> {
    v.map_values(|t: Translation| (t.source_text@, t.target_text@))
}

/// A pair that admits no proportional distribution: the source line has no
/// words while the target line has some.
pub open spec fn degenerate_pair(p: (Seq<char>, Seq<char>)) -> bool {
    spec_words(p.0).len() == 0 && spec_words(p.1).len() > 0
}

/// The word allocations of one line pair, from source word `k` on: source
/// word `k` receives the target words numbered `total_count(s, t, k)` up to
/// `total_count(s, t, k + 1)`.
pub open spec fn line_allocs(sw: Seq<Seq<char>>, tw: Seq<Seq<char>>, k: int) -> Seq<
    (Seq<char>, Seq<Seq<char>>),
>
    decreases sw.len() - k,
{
    let s = sw.len() as int;
    let t = tw.len() as int;
    if k < 0 || k >= s {
        Seq::empty()
    } else {
        seq![(sw[k], tw.subrange(total_count(s, t, k), total_count(s, t, k + 1)))].add(
            line_allocs(sw, tw, k + 1),
        )
    }
}

/// The flattened allocation stream of a sequence of line pairs, in document
/// order.
pub open spec fn spec_allocations(pairs: Seq<(Seq<char>, Seq<char>)>) -> Seq<
    (Seq<char>, Seq<Seq<char>>),
>
    decreases pairs.len(),
{
    if pairs.len() == 0 {
        Seq::empty()
    } else {
        line_allocs(spec_words(pairs[0].0), spec_words(pairs[0].1), 0).add(
            spec_allocations(pairs.skip(1)),
        )
    }
}

/// The model of an executable allocation: the source word and the target
/// words, as character sequences.
pub open spec fn alloc_views(v: Seq<(String, Vec<String>)>) -> Seq<(Seq<char>, Seq<Seq<char>>)> {
    v.map_values(|a: (String, Vec<String>)| (a.0@, a.1.deep_view()))
}

proof fn lemma_allocations_snoc(pairs: Seq<(Seq<char>, Seq<char>)>, i: int)
    requires
        0 <= i < pairs.len(),
    ensures
        spec_allocations(pairs.take(i + 1)) == spec_allocations(pairs.take(i)).add(
            line_allocs(spec_words(pairs[i].0), spec_words(pairs[i].1), 0),
        ),
    decreases i,
{
    let whole = pairs.take(i + 1);
    if i == 0 {
        assert(whole.skip(1) =~= Seq::<(Seq<char>, Seq<char>)>::empty());
        assert(pairs.take(0) =~= Seq::<(Seq<char>, Seq<char>)>::empty());
        assert(spec_allocations(pairs.take(i + 1)) =~= spec_allocations(pairs.take(i)).add(
            line_allocs(spec_words(pairs[i].0), spec_words(pairs[i].1), 0),
        ));
    } else {
        let rest = pairs.skip(1);
        lemma_allocations_snoc(rest, i - 1);
        assert(whole.skip(1) =~= rest.take(i));
        assert(pairs.take(i).skip(1) =~= rest.take(i - 1));
        assert(rest[i - 1] == pairs[i]);
        assert(whole[0] == pairs[0]);
        assert(pairs.take(i)[0] == pairs[0]);
        assert(spec_allocations(pairs.take(i + 1)) =~= spec_allocations(pairs.take(i)).add(
            line_allocs(spec_words(pairs[i].0), spec_words(pairs[i].1), 0),
        ));
    }
}

/// The flattened stream of word allocations of a paired document.
pub trait VecExt {
    /// The line pairs held, as character sequences.
    spec fn pairs_view(&self) -> Seq<(Seq<char>, Seq<char>)>;

    /// Concatenate, in order, the word allocations of every line pair.
    /// Fails exactly when some pair is degenerate (no source words, some
    /// target words).
    fn proportioned(&self) -> (r: Result<Vec<(String, Vec<String>)>, AlignError>)
        ensures
            ({
                let pairs = self.pairs_view();
                match r {
                    Ok(v) => {
                        &&& alloc_views(v@) == spec_allocations(pairs)
                        &&& forall|i: int|
                            0 <= i < pairs.len() ==> !degenerate_pair(#[trigger] pairs[i])
                    },
                    Err(e) => {
                        &&& e == AlignError::DegenerateSourceLine
                        &&& exists|i: int|
                            0 <= i < pairs.len() && degenerate_pair(#[trigger] pairs[i])
                    },
                }
            }),
    ;
}

impl VecExt for Vec<Translation> {
    open spec fn pairs_view(&self) -> Seq<(Seq<char>, Seq<char>)> {
        translation_views(self@)
    }

    fn proportioned(&self) -> (r: Result<Vec<(String, Vec<String>)>, AlignError>) {
        let ghost pairs = self.pairs_view();
        let n = self.len();
        let mut out: Vec<(String, Vec<String>)> = Vec::new();
        let mut i: usize = 0;
        proof {
            assert(pairs.take(0) =~= Seq::<(Seq<char>, Seq<char>)>::empty());
            assert(alloc_views(out@) =~= spec_allocations(pairs.take(0)));
        }
        while i < n
            invariant
                i <= n,
                n == self@.len(),
                pairs == self.pairs_view(),
                pairs.len() == n,
                alloc_views(out@) == spec_allocations(pairs.take(i as int)),
                forall|k: int| 0 <= k < i ==> !degenerate_pair(#[trigger] pairs[k]),
            decreases n - i,
        {
            let t = &self[i];
            proof {
                assert(pairs[i as int] == (t.source_text@, t.target_text@));
            }
            let mut it = match ProportionalIter::new(t.source_text.as_str(), t.target_text.as_str()) {
                Ok(it) => it,
                Err(e) => {
                    proof {
                        assert(degenerate_pair(pairs[i as int]));
                    }
                    return Err(e);
                },
            };
            let ghost sw = spec_words(t.source_text@);
            let ghost tw = spec_words(t.target_text@);
            loop
                invariant_except_break
                    it.wf(),
                    it.src_words() == sw,
                    it.tgt_words() == tw,
                    alloc_views(out@).add(line_allocs(sw, tw, it.spec_src_idx()))
                        == spec_allocations(pairs.take(i as int)).add(line_allocs(sw, tw, 0)),
                ensures
                    alloc_views(out@) == spec_allocations(pairs.take(i as int)).add(
                        line_allocs(sw, tw, 0),
                    ),
                decreases sw.len() - it.spec_src_idx(),
            {
                let ghost k = it.spec_src_idx();
                let ghost prev_it = it;
                proof {
                    it.lemma_words_len();
                }
                match it.next() {
                    Some(a) => {
                        let ghost prev = alloc_views(out@);
                        out.push(a);
                        proof {
                            assert(alloc_views(out@) =~= prev.push((a.0@, a.1.deep_view())));
                            assert(a.0@ == sw[k]);
                            assert(a.1.deep_view() == tw.subrange(
                                total_count(sw.len() as int, tw.len() as int, k),
                                total_count(sw.len() as int, tw.len() as int, k + 1),
                            ));
                            assert(line_allocs(sw, tw, k) =~= seq![
                                (a.0@, a.1.deep_view()),
                            ].add(line_allocs(sw, tw, k + 1)));
                            assert(alloc_views(out@).add(line_allocs(sw, tw, k + 1)) =~= prev.add(
                                line_allocs(sw, tw, k),
                            ));
                        }
                    },
                    None => {
                        proof {
                            assert(line_allocs(sw, tw, it.spec_src_idx()) =~= Seq::<
                                (Seq<char>, Seq<Seq<char>>),
                            >::empty());
                            assert(alloc_views(out@).add(
                                line_allocs(sw, tw, it.spec_src_idx()),
                            ) =~= alloc_views(out@));
                        }
                        break ;
                    },
                }
            }
            proof {
                lemma_allocations_snoc(pairs, i as int);
                assert(spec_allocations(pairs.take(i + 1 as int)) =~= alloc_views(out@));
            }
            i = i + 1;
        }
        proof {
            assert(pairs.take(n as int) =~= pairs);
        }
        Ok(out)
    }
}

} // verus!
