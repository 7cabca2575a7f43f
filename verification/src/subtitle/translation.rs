//! The aligner: rewrite every entry's text by walking its tokens in lockstep
//! with the flattened allocation stream, substituting each word and copying
//! whitespace verbatim.

use vstd::prelude::*;

use crate::chars::{
    collapse_spaces, push_chars, spec_collapse_spaces, spec_trim_space_ends, string_of,
    trim_space_ends,
};
use crate::error::AlignError;
use crate::subtitle::Subtitle;
use crate::tokenize::{spec_tokens, token_models, tokenize, Token};
use crate::translation::{
    alloc_views, degenerate_pair, spec_allocations, spec_lines, translation_views, Translation,
    VecExt,
};

verus! {

/// Target words joined by single spaces: the replacement text for one word
/// token.
pub open spec fn join_spaces(ws: Seq<Seq<char>>) -> Seq<char>
    decreases ws.len(),
{
    if ws.len() == 0 {
        Seq::empty()
    } else {
        ws[0].add(tail_join(ws.skip(1)))
    }
}

pub open spec fn tail_join(ws: Seq<Seq<char>>) -> Seq<char>
    decreases ws.len(),
{
    if ws.len() == 0 {
        Seq::empty()
    } else {
        seq![' '].add(ws[0]).add(tail_join(ws.skip(1)))
    }
}

/// Walk the tokens of one entry against the allocation stream from `pos`:
/// whitespace is copied verbatim; each word token must equal, character for
/// character, the source word of the next allocation, and is replaced by
/// that allocation's target words joined with single spaces.  On success the
/// result is the raw rebuilt text and the next stream position; on failure
/// it reports `(mismatch, expected word, observed token, position)`, where
/// `mismatch` is false when the stream was exhausted instead.
pub open spec fn walk_entry(
    ts: Seq<(bool, Seq<char>)>,
    allocs: Seq<(Seq<char>, Seq<Seq<char>>)>,
    pos: int,
) -> Result<(Seq<char>, int), (bool, Seq<char>, Seq<char>, int)>
    decreases ts.len(),
{
    if ts.len() == 0 {
        Ok((Seq::empty(), pos))
    } else if ts[0].0 {
        match walk_entry(ts.skip(1), allocs, pos) {
            Ok(rp) => Ok((ts[0].1.add(rp.0), rp.1)),
            Err(e) => Err(e),
        }
    } else if !(0 <= pos < allocs.len()) {
        Err((false, Seq::empty(), ts[0].1, pos))
    } else if allocs[pos].0 != ts[0].1 {
        Err((true, allocs[pos].0, ts[0].1, pos))
    } else {
        match walk_entry(ts.skip(1), allocs, pos + 1) {
            Ok(rp) => Ok((join_spaces(allocs[pos].1).add(rp.0), rp.1)),
            Err(e) => Err(e),
        }
    }
}

/// The final text of a rebuilt entry: runs of spaces collapsed, then one
/// leading and one trailing space artifact removed.  Interior newlines are
/// untouched.
pub open spec fn finish_text(raw: Seq<char>) -> Seq<char> {
    spec_trim_space_ends(spec_collapse_spaces(raw))
}

/// Walk every entry text in order, threading the stream position through.
pub open spec fn walk_batch(
    texts: Seq<Seq<char>>,
    allocs: Seq<(Seq<char>, Seq<Seq<char>>)>,
    pos: int,
) -> Result<(Seq<Seq<char>>, int), (bool, Seq<char>, Seq<char>, int)>
    decreases texts.len(),
{
    if texts.len() == 0 {
        Ok((Seq::empty(), pos))
    } else {
        match walk_entry(spec_tokens(texts[0]), allocs, pos) {
            Ok(rp) => match walk_batch(texts.skip(1), allocs, rp.1) {
                Ok(rp2) => Ok((seq![finish_text(rp.0)].add(rp2.0), rp2.1)),
                Err(e) => Err(e),
            },
            Err(e) => Err(e),
        }
    }
}

/// What `align` promises: the result is `Ok` exactly when no line pair is
/// degenerate, every entry's walk succeeds, and the allocation stream is
/// fully consumed; each failure carries its defect.
pub open spec fn aligned(
    subs: Seq<Subtitle>,
    pairs: Seq<(Seq<char>, Seq<char>)>,
    r: Result<Vec<Subtitle>, AlignError>,
) -> bool {
    let texts = subs.map_values(|e: Subtitle| e.text@);
    if exists|i: int| 0 <= i < pairs.len() && degenerate_pair(#[trigger] pairs[i]) {
        r == Err::<Vec<Subtitle>, AlignError>(AlignError::DegenerateSourceLine)
    } else {
        let allocs = spec_allocations(pairs);
        match walk_batch(texts, allocs, 0) {
            Ok(rp) => {
                if rp.1 == allocs.len() {
                    match r {
                        Ok(out) => {
                            &&& out@.len() == subs.len()
                            &&& forall|i: int|
                                0 <= i < subs.len() ==> {
                                    &&& (#[trigger] out@[i]).num == subs[i].num
                                    &&& out@[i].start_time == subs[i].start_time
                                    &&& out@[i].end_time == subs[i].end_time
                                    &&& out@[i].text@ == rp.0[i]
                                }
                        },
                        Err(_) => false,
                    }
                } else {
                    r == Err::<Vec<Subtitle>, AlignError>(AlignError::StreamExhaustion)
                }
            },
            Err(e) => {
                if e.0 {
                    r matches Err(AlignError::TokenSyncMismatch {
                        expected_word,
                        observed_token,
                        position,
                    }) && expected_word@ == e.1 && observed_token@ == e.2 && position as int == e.3
                } else {
                    r == Err::<Vec<Subtitle>, AlignError>(AlignError::StreamExhaustion)
                }
            },
        }
    }
}

/// Rebuild the text of one entry from the allocation stream.
fn align_entry(entry_text: &str, allocs: &Vec<(String, Vec<String>)>, pos: usize) -> (r: Result<
    (Vec<char>, usize),
    AlignError,
>)
    requires
        pos <= allocs@.len(),
    ensures
        ({
            let av = alloc_views(allocs@);
            match walk_entry(spec_tokens(entry_text@), av, pos as int) {
                Ok(rp) => r matches Ok(p) && p.0@ == rp.0 && p.1 as int == rp.1 && pos <= p.1
                    <= allocs@.len(),
                Err(e) => {
                    if e.0 {
                        r matches Err(AlignError::TokenSyncMismatch {
                            expected_word,
                            observed_token,
                            position,
                        }) && expected_word@ == e.1 && observed_token@ == e.2 && position as int
                            == e.3
                    } else {
                        r == Err::<(Vec<char>, usize), AlignError>(AlignError::StreamExhaustion)
                    }
                },
            }
        }),
{
    let toks = tokenize(entry_text);
    let n = toks.len();
    let ghost tm = token_models(toks@);
    let ghost av = alloc_views(allocs@);
    let mut buf: Vec<char> = Vec::new();
    let mut p: usize = pos;
    let mut i: usize = 0;
    proof {
        assert(tm.skip(0) =~= tm);
        assert(av.len() == allocs@.len());
    }
    while i < n
        invariant
            i <= n,
            n == toks@.len(),
            tm == token_models(toks@),
            tm == spec_tokens(entry_text@),
            av == alloc_views(allocs@),
            av.len() == allocs@.len(),
            pos <= p <= allocs@.len(),
            walk_entry(tm, av, pos as int) == (match walk_entry(tm.skip(i as int), av, p as int) {
                Ok(rp) => Ok::<(Seq<char>, int), (bool, Seq<char>, Seq<char>, int)>(
                    (buf@.add(rp.0), rp.1),
                ),
                Err(e) => Err(e),
            }),
        decreases n - i,
    {
        let ghost suf = tm.skip(i as int);
        proof {
            assert(suf[0] == toks@[i as int].model());
            assert(suf.skip(1) =~= tm.skip(i + 1 as int));
        }
        match &toks[i] {
            Token::Space(sp) => {
                let ghost buf0 = buf@;
                push_chars(&mut buf, sp.as_str());
                proof {
                    let rest = walk_entry(tm.skip(i + 1 as int), av, p as int);
                    match rest {
                        Ok(rp) => {
                            assert(buf0.add(sp@.add(rp.0)) =~= buf0.add(sp@).add(rp.0));
                        },
                        Err(_) => {},
                    }
                }
            },
            Token::Word(w) => {
                if p >= allocs.len() {
                    return Err(AlignError::StreamExhaustion);
                }
                let matches_source = w.eq(&allocs[p].0);
                proof {
                    assert(av[p as int] == (allocs@[p as int].0@, allocs@[p as int].1.deep_view()));
                }
                if !matches_source {
                    return Err(
                        AlignError::TokenSyncMismatch {
                            expected_word: allocs[p].0.clone(),
                            observed_token: w.clone(),
                            position: p,
                        },
                    );
                }
                let targets = &allocs[p].1;
                let m = targets.len();
                let ghost wsd = targets.deep_view();
                let ghost buf0 = buf@;
                proof {
                    assert(wsd.len() == targets@.len());
                    assert(wsd == av[p as int].1);
                }
                if m > 0 {
                    push_chars(&mut buf, targets[0].as_str());
                    let mut j: usize = 1;
                    proof {
                        assert(buf@.add(tail_join(wsd.skip(1))) =~= buf0.add(join_spaces(wsd)));
                    }
                    while j < m
                        invariant
                            1 <= j <= m,
                            m == wsd.len(),
                            m == targets@.len(),
                            wsd == targets.deep_view(),
                            buf@.add(tail_join(wsd.skip(j as int))) == buf0.add(join_spaces(wsd)),
                        decreases m - j,
                    {
                        let ghost bufj = buf@;
                        buf.push(' ');
                        push_chars(&mut buf, targets[j].as_str());
                        proof {
                            let tj = wsd.skip(j as int);
                            assert(tj[0] == wsd[j as int]);
                            assert(tj.skip(1) =~= wsd.skip(j + 1 as int));
                            assert(buf@ =~= bufj.add(seq![' ']).add(wsd[j as int]));
                            assert(buf@.add(tail_join(wsd.skip(j + 1 as int))) =~= bufj.add(
                                seq![' '].add(wsd[j as int]).add(tail_join(wsd.skip(j + 1 as int))),
                            ));
                        }
                        j = j + 1;
                    }
                    proof {
                        assert(wsd.skip(m as int) =~= Seq::<Seq<char>>::empty());
                        assert(buf@.add(tail_join(wsd.skip(m as int))) =~= buf@);
                    }
                } else {
                    proof {
                        assert(join_spaces(wsd) =~= Seq::<char>::empty());
                        assert(buf@ =~= buf0.add(join_spaces(wsd)));
                    }
                }
                proof {
                    let rest = walk_entry(tm.skip(i + 1 as int), av, p + 1 as int);
                    match rest {
                        Ok(rp) => {
                            assert(buf0.add(join_spaces(wsd).add(rp.0)) =~= buf0.add(
                                join_spaces(wsd),
                            ).add(rp.0));
                        },
                        Err(_) => {},
                    }
                }
                p = p + 1;
            },
        }
        i = i + 1;
    }
    proof {
        assert(tm.skip(n as int) =~= Seq::<(bool, Seq<char>)>::empty());
        assert(buf@.add(Seq::<char>::empty()) =~= buf@);
    }
    Ok((buf, p))
}

/// Rewrite every entry's text from the translations' allocation stream.
/// The entries come back in order with index and timing untouched; the
/// operation fails as a whole on the first defect, rewriting nothing.
pub fn align(subtitles: &Vec<Subtitle>, translations: &Vec<Translation>) -> (r: Result<
    Vec<Subtitle>,
    AlignError,
>)
    ensures
        aligned(subtitles@, translation_views(translations@), r),
{
    let ghost pairs = translation_views(translations@);
    let ghost texts = subtitles@.map_values(|e: Subtitle| e.text@);
    let allocs = match translations.proportioned() {
        Ok(a) => a,
        Err(e) => {
            return Err(e);
        },
    };
    let ghost av = alloc_views(allocs@);
    let n = subtitles.len();
    let mut out: Vec<Subtitle> = Vec::new();
    let mut pos: usize = 0;
    let mut i: usize = 0;
    proof {
        assert(texts.skip(0) =~= texts);
    }
    while i < n
        invariant
            i <= n,
            n == subtitles@.len(),
            texts == subtitles@.map_values(|e: Subtitle| e.text@),
            texts.len() == n,
            av == alloc_views(allocs@),
            av == spec_allocations(pairs),
            av.len() == allocs@.len(),
            pairs == translation_views(translations@),
            forall|k: int| 0 <= k < pairs.len() ==> !degenerate_pair(#[trigger] pairs[k]),
            pos <= allocs@.len(),
            out@.len() == i,
            forall|k: int|
                0 <= k < i ==> {
                    &&& (#[trigger] out@[k]).num == subtitles@[k].num
                    &&& out@[k].start_time == subtitles@[k].start_time
                    &&& out@[k].end_time == subtitles@[k].end_time
                },
            walk_batch(texts, av, 0) == (match walk_batch(texts.skip(i as int), av, pos as int) {
                Ok(rp) => Ok::<(Seq<Seq<char>>, int), (bool, Seq<char>, Seq<char>, int)>(
                    (out@.map_values(|e: Subtitle| e.text@).add(rp.0), rp.1),
                ),
                Err(e) => Err(e),
            }),
        decreases n - i,
    {
        let entry = &subtitles[i];
        proof {
            assert(texts.skip(i as int)[0] == texts[i as int]);
            assert(texts[i as int] == entry.text@);
            assert(texts.skip(i as int).skip(1) =~= texts.skip(i + 1 as int));
        }
        match align_entry(entry.text.as_str(), &allocs, pos) {
            Ok(built) => {
                let cleaned = trim_space_ends(&collapse_spaces(&built.0));
                let text = string_of(&cleaned);
                let ghost prev = out@.map_values(|e: Subtitle| e.text@);
                out.push(
                    Subtitle {
                        num: entry.num,
                        start_time: entry.start_time,
                        end_time: entry.end_time,
                        text,
                    },
                );
                pos = built.1;
                proof {
                    assert(out@.map_values(|e: Subtitle| e.text@) =~= prev.push(
                        finish_text(built.0@),
                    ));
                    let rest = walk_batch(texts.skip(i + 1 as int), av, pos as int);
                    match rest {
                        Ok(rp) => {
                            assert(prev.push(finish_text(built.0@)).add(rp.0) =~= prev.add(
                                seq![finish_text(built.0@)].add(rp.0),
                            ));
                        },
                        Err(_) => {},
                    }
                }
            },
            Err(err) => {
                return Err(err);
            },
        }
        i = i + 1;
    }
    proof {
        assert(texts.skip(n as int) =~= Seq::<Seq<char>>::empty());
        assert(out@.map_values(|e: Subtitle| e.text@).add(Seq::<Seq<char>>::empty()) =~= out@
            .map_values(|e: Subtitle| e.text@));
    }
    if pos != allocs.len() {
        return Err(AlignError::StreamExhaustion);
    }
    Ok(out)
}

/// The pairing of two line sequences, in order.
pub open spec fn zip_lines(sl: Seq<Seq<char>>, tl: Seq<Seq<char>>) -> Seq<(Seq<char>, Seq<char>)> {
    Seq::new(sl.len(), |i: int| (sl[i], tl[i]))
}

/// Pair the extracted text with the translated text line by line, then
/// align the entries against the resulting allocation stream.
pub fn translated_subtitles(
    source_subtitles: &Vec<Subtitle>,
    subtitle_text: &str,
    translated_text: &str,
) -> (r: Result<Vec<Subtitle>, AlignError>)
    ensures
        ({
            let sl = spec_lines(subtitle_text@);
            let tl = spec_lines(translated_text@);
            if sl.len() != tl.len() {
                r == Err::<Vec<Subtitle>, AlignError>(
                    AlignError::LineCountMismatch { expected: sl.len() as usize, got: tl.len() as usize },
                )
            } else {
                aligned(source_subtitles@, zip_lines(sl, tl), r)
            }
        }),
{
    let translations = match Translation::from_source_and_target(subtitle_text, translated_text) {
        Ok(t) => t,
        Err(e) => {
            return Err(e);
        },
    };
    proof {
        assert(translation_views(translations@) =~= zip_lines(
            spec_lines(subtitle_text@),
            spec_lines(translated_text@),
        ));
    }
    align(source_subtitles, &translations)
}

} // verus!
