//! Lossless tokenization: the text of a document entry is decomposed into a
//! gap-free, order-preserving sequence of word and whitespace tokens whose
//! concatenation reproduces the input exactly.

use vstd::prelude::*;

use crate::chars::{char_is_space, chars_of, is_space, string_of};

verus! {

/// One fragment of a text: a maximal run of non-whitespace characters
/// (`Word`) or of whitespace characters (`Space`).
#[derive(Debug, Clone, PartialEq, Eq)]
pub enum Token {
    Word(String),
    Space(String),
}

impl Token {
    /// The characters of the fragment.
    pub open spec fn text(self) -> Seq<char> {
        match self {
            Token::Word(s) => s@,
            Token::Space(s) => s@,
        }
    }

    /// Whether the fragment is a whitespace run.
    pub open spec fn is_space_token(self) -> bool {
        self is Space
    }

    /// The model of a token: its kind (true for whitespace) and its text.
    pub open spec fn model(self) -> (bool, Seq<char>) {
        (self.is_space_token(), self.text())
    }
}

/// The models of a sequence of tokens.
pub open spec fn token_models(ts: Seq<Token>) -> Seq<(bool, Seq<char>)> {
    ts.map_values(|tk: Token| tk.model())
}

/// Length of the maximal leading run of characters that share the first
/// character's whitespace-ness.
pub open spec fn run_len(s: Seq<char>) -> nat
    decreases s.len(),
{
    if s.len() == 0 {
        0
    } else if s.len() == 1 {
        1
    } else if is_space(s[1]) == is_space(s[0]) {
        (1 + run_len(s.skip(1))) as nat
    } else {
        1
    }
}

pub proof fn lemma_run_len_bounds(s: Seq<char>)
    requires
        s.len() > 0,
    ensures
        1 <= run_len(s) <= s.len(),
    decreases s.len(),
{
    if s.len() > 1 && is_space(s[1]) == is_space(s[0]) {
        lemma_run_len_bounds(s.skip(1));
    }
}

/// A maximal uniform prefix of length `k` pins down `run_len`.
pub proof fn lemma_run_len_is(s: Seq<char>, k: int)
    requires
        0 < k <= s.len(),
        forall|j: int| 0 < j < k ==> is_space(#[trigger] s[j]) == is_space(s[0]),
        k < s.len() ==> is_space(s[k]) != is_space(s[0]),
    ensures
        run_len(s) == k,
    decreases k,
{
    if k == 1 {
    } else {
        let r = s.skip(1);
        assert(forall|j: int| 0 < j < k - 1 ==> is_space(#[trigger] r[j]) == is_space(r[0]));
        assert(k - 1 < r.len() ==> is_space(r[k - 1]) != is_space(r[0]));
        lemma_run_len_is(r, k - 1);
    }
}

/// The tokenization of a text: each token is a pair of its whitespace-ness
/// and its characters.
pub open spec fn spec_tokens(s: Seq<char>) -> Seq<(bool, Seq<char>)>
    decreases s.len(),
{
    if s.len() == 0 {
        Seq::empty()
    } else {
        let n = run_len(s) as int;
        if 1 <= n <= s.len() {
            seq![(is_space(s[0]), s.take(n))].add(spec_tokens(s.skip(n)))
        } else {
            Seq::empty()
        }
    }
}

/// Concatenation of the texts of a sequence of tokens.
pub open spec fn cat_tokens(ts: Seq<(bool, Seq<char>)>) -> Seq<char>
    decreases ts.len(),
{
    if ts.len() == 0 {
        Seq::empty()
    } else {
        ts[0].1.add(cat_tokens(ts.skip(1)))
    }
}

/// Lossless round trip: concatenating the tokens of a text reproduces the
/// text exactly, for every text.
pub proof fn lemma_tokens_lossless(s: Seq<char>)
    ensures
        cat_tokens(spec_tokens(s)) == s,
    decreases s.len(),
{
    if s.len() == 0 {
        assert(cat_tokens(spec_tokens(s)) =~= s);
    } else {
        lemma_run_len_bounds(s);
        let n = run_len(s) as int;
        lemma_tokens_lossless(s.skip(n));
        let ts = spec_tokens(s);
        assert(ts.skip(1) =~= spec_tokens(s.skip(n)));
        assert(s.take(n).add(s.skip(n)) =~= s);
    }
}

/// The word texts of a token sequence, in order.
pub open spec fn words_of_tokens(ts: Seq<(bool, Seq<char>)>) -> Seq<Seq<char>>
    decreases ts.len(),
{
    if ts.len() == 0 {
        Seq::empty()
    } else {
        let rest = words_of_tokens(ts.skip(1));
        if ts[0].0 {
            rest
        } else {
            seq![ts[0].1].add(rest)
        }
    }
}

/// The whitespace-separated words of a text, in order.
pub open spec fn spec_words(s: Seq<char>) -> Seq<Seq<char>> {
    words_of_tokens(spec_tokens(s))
}

/// The characters `v[from..to]`.
pub fn sub_chars(v: &Vec<char>, from: usize, to: usize) -> (r: Vec<char>)
    requires
        from <= to <= v@.len(),
    ensures
        r@ == v@.subrange(from as int, to as int),
{
    let mut r: Vec<char> = Vec::new();
    let mut i: usize = from;
    while i < to
        invariant
            from <= i <= to <= v@.len(),
            r@ == v@.subrange(from as int, i as int),
        decreases to - i,
    {
        r.push(v[i]);
        proof {
            assert(v@.subrange(from as int, i + 1 as int) =~= v@.subrange(
                from as int,
                i as int,
            ).push(v@[i as int]));
        }
        i = i + 1;
    }
    r
}

/// Decompose a text into its tokens.  The second ensures clause is the
/// lossless round-trip guarantee.
pub fn tokenize(text: &str) -> (r: Vec<Token>)
    ensures
        token_models(r@) == spec_tokens(text@),
        cat_tokens(token_models(r@)) == text@,
{
    let v = chars_of(text);
    let n = v.len();
    let mut out: Vec<Token> = Vec::new();
    let mut i: usize = 0;
    proof {
        assert(v@.skip(0) =~= v@);
        assert(token_models(out@) =~= Seq::<(bool, Seq<char>)>::empty());
        assert(token_models(out@).add(spec_tokens(v@.skip(0))) =~= spec_tokens(v@));
    }
    while i < n
        invariant
            i <= n,
            n == v@.len(),
            v@ == text@,
            spec_tokens(v@) == token_models(out@).add(spec_tokens(v@.skip(i as int))),
        decreases n - i,
    {
        let b = char_is_space(v[i]);
        let mut j: usize = i + 1;
        while j < n && char_is_space(v[j]) == b
            invariant
                i < j <= n,
                n == v@.len(),
                b == is_space(v@[i as int]),
                forall|m: int| i < m < j ==> is_space(#[trigger] v@[m]) == is_space(v@[i as int]),
            decreases n - j,
        {
            j = j + 1;
        }
        let run = sub_chars(&v, i, j);
        let text_run = string_of(&run);
        let tk = if b {
            Token::Space(text_run)
        } else {
            Token::Word(text_run)
        };
        proof {
            let suf = v@.skip(i as int);
            assert(forall|m: int| 0 < m < j - i ==> is_space(#[trigger] suf[m]) == is_space(suf[0]));
            assert(j - i < suf.len() ==> is_space(suf[j - i]) != is_space(suf[0]));
            lemma_run_len_is(suf, j - i);
            assert(suf.take(j - i) =~= v@.subrange(i as int, j as int));
            assert(suf.skip(j - i) =~= v@.skip(j as int));
            assert(token_models(out@.push(tk)) =~= token_models(out@).push(tk.model()));
            assert(spec_tokens(suf) =~= seq![tk.model()].add(spec_tokens(v@.skip(j as int))));
            assert(token_models(out@).add(spec_tokens(suf)) =~= token_models(
                out@.push(tk),
            ).add(spec_tokens(v@.skip(j as int))));
        }
        out.push(tk);
        i = j;
    }
    proof {
        assert(v@.skip(n as int) =~= Seq::<char>::empty());
        assert(token_models(out@).add(spec_tokens(v@.skip(n as int))) =~= token_models(out@));
        lemma_tokens_lossless(text@);
    }
    out
}

/// The whitespace-separated words of a text, as owned strings.
pub fn words(text: &str) -> (r: Vec<String>)
    ensures
        r.deep_view() == spec_words(text@),
{
    let toks = tokenize(text);
    let n = toks.len();
    let mut out: Vec<String> = Vec::new();
    let mut i: usize = 0;
    proof {
        assert(token_models(toks@).skip(0) =~= token_models(toks@));
    }
    while i < n
        invariant
            i <= n,
            n == toks@.len(),
            token_models(toks@) == spec_tokens(text@),
            spec_words(text@) == out.deep_view().add(
                words_of_tokens(token_models(toks@).skip(i as int)),
            ),
        decreases n - i,
    {
        let ghost ms = token_models(toks@);
        proof {
            assert(ms.skip(i as int).skip(1) =~= ms.skip(i + 1 as int));
            assert(ms.skip(i as int)[0] == toks@[i as int].model());
        }
        match &toks[i] {
            Token::Word(w) => {
                let w2 = w.clone();
                let ghost prev = out.deep_view();
                out.push(w2);
                proof {
                    assert(out.deep_view() =~= prev.push(w2@));
                    assert(prev.push(w2@).add(words_of_tokens(ms.skip(i + 1 as int))) =~= prev.add(
                        words_of_tokens(ms.skip(i as int)),
                    ));
                }
            },
            Token::Space(_) => {},
        }
        i = i + 1;
    }
    proof {
        assert(token_models(toks@).skip(n as int) =~= Seq::<(bool, Seq<char>)>::empty());
        assert(out.deep_view().add(words_of_tokens(token_models(toks@).skip(n as int))) =~= out.deep_view());
    }
    out
}

} // verus!
