//! Subtitle metadata of a remote video, modelled as plain values: the
//! network fetch and the URL type stay with the caller, which hands in the
//! per-language subtitle tracks and takes back the usable choices.

use vstd::prelude::*;

use crate::chars::push_chars;

verus! {

/// One downloadable subtitle variant of a video.
#[derive(Debug, Clone, PartialEq)]
pub struct SubtitleChoice {
    pub lang: String,
    pub format: String,
    pub location: String,
}

impl SubtitleChoice {
    pub fn new(lang: String, format: String, location: String) -> (r: SubtitleChoice)
        ensures
            r.lang == lang,
            r.format == format,
            r.location == location,
    {
        SubtitleChoice { lang, format, location }
    }

    /// A one-line description of the choice, for listing to the user.
    pub fn describe(&self) -> (r: String)
        ensures
            r@ == "Language: "@ + self.lang@ + ", Format: "@ + self.format@,
    {
        let mut out = String::new();
        out.append("Language: ");
        out.append(self.lang.as_str());
        out.append(", Format: ");
        out.append(self.format.as_str());
        out
    }
}

/// One subtitle track as the video's metadata lists it: format and address
/// may each be missing.
#[derive(Debug, Clone, PartialEq)]
pub struct SubtitleTrack {
    pub ext: Option<String>,
    pub url: Option<String>,
}

/// What a video offers: its title, its channel if any, and its usable
/// subtitle choices.
#[derive(Debug, Clone, PartialEq)]
pub struct VideoInfo {
    pub name: String,
    pub channel: Option<String>,
    pub choices: Vec<SubtitleChoice>,
}

impl VideoInfo {
    pub fn new(name: String, channel: Option<String>, choices: Vec<SubtitleChoice>) -> (r:
        VideoInfo)
        ensures
            r.name == name,
            r.channel == channel,
            r.choices == choices,
    {
        VideoInfo { name, channel, choices }
    }
}

/// A track is usable when both its format and its address are present and
/// the format is one the rest of the pipeline can read.
pub open spec fn usable_track(t: SubtitleTrack) -> bool {
    &&& t.ext is Some
    &&& t.url is Some
    &&& (t.ext->0@ == "vtt"@ || t.ext->0@ == "srt"@)
}

/// The model of one choice: language, format and address.
pub open spec fn choice_model(c: SubtitleChoice) -> (Seq<char>, Seq<char>, Seq<char>) {
    (c.lang@, c.format@, c.location@)
}

/// The usable choices of one language's tracks, in order.
pub open spec fn lang_choices(lang: Seq<char>, tracks: Seq<SubtitleTrack>) -> Seq<
    (Seq<char>, Seq<char>, Seq<char>),
>
    decreases tracks.len(),
{
    if tracks.len() == 0 {
        Seq::empty()
    } else {
        let rest = lang_choices(lang, tracks.skip(1));
        if usable_track(tracks[0]) {
            seq![(lang, tracks[0].ext->0@, tracks[0].url->0@)].add(rest)
        } else {
            rest
        }
    }
}

/// The usable choices of a whole subtitle listing, language by language.
pub open spec fn spec_choices(subs: Seq<(String, Vec<SubtitleTrack>)>) -> Seq<
    (Seq<char>, Seq<char>, Seq<char>),
>
    decreases subs.len(),
{
    if subs.len() == 0 {
        Seq::empty()
    } else {
        lang_choices(subs[0].0@, subs[0].1@).add(spec_choices(subs.skip(1)))
    }
}

/// Compare two strings character by character.
pub fn str_eq(a: &str, b: &str) -> (r: bool)
    ensures
        r == (a@ == b@),
{
    let n = a.unicode_len();
    let m = b.unicode_len();
    if n != m {
        proof {
            assert(a@ != b@);
        }
        return false;
    }
    let mut i: usize = 0;
    while i < n
        invariant
            i <= n,
            n == a@.len(),
            n == b@.len(),
            forall|j: int| 0 <= j < i ==> #[trigger] a@[j] == b@[j],
        decreases n - i,
    {
        if a.get_char(i) != b.get_char(i) {
            return false;
        }
        i = i + 1;
    }
    proof {
        assert(a@ =~= b@);
    }
    true
}

/// Keep, in listing order, every track with a format and an address whose
/// format the pipeline can read, as a `SubtitleChoice`.
pub fn subtitle_choices(subs: &Vec<(String, Vec<SubtitleTrack>)>) -> (r: Vec<SubtitleChoice>)
    ensures
        r@.map_values(|c: SubtitleChoice| choice_model(c)) == spec_choices(subs@),
{
    let n = subs.len();
    let mut out: Vec<SubtitleChoice> = Vec::new();
    let mut i: usize = 0;
    proof {
        assert(subs@.skip(0) =~= subs@);
        assert(out@.map_values(|c: SubtitleChoice| choice_model(c)).add(
            spec_choices(subs@.skip(0)),
        ) =~= spec_choices(subs@));
    }
    while i < n
        invariant
            i <= n,
            n == subs@.len(),
            spec_choices(subs@) == out@.map_values(|c: SubtitleChoice| choice_model(c)).add(
                spec_choices(subs@.skip(i as int)),
            ),
        decreases n - i,
    {
        let lang = &subs[i].0;
        let tracks = &subs[i].1;
        let m = tracks.len();
        let mut k: usize = 0;
        proof {
            assert(subs@.skip(i as int)[0] == subs@[i as int]);
            assert(subs@.skip(i as int).skip(1) =~= subs@.skip(i + 1 as int));
            assert(tracks@.skip(0) =~= tracks@);
        }
        while k < m
            invariant
                k <= m,
                m == tracks@.len(),
                tracks@ == subs@[i as int].1@,
                lang@ == subs@[i as int].0@,
                i < n == subs@.len(),
                spec_choices(subs@) == out@.map_values(|c: SubtitleChoice| choice_model(c)).add(
                    lang_choices(subs@[i as int].0@, tracks@.skip(k as int)),
                ).add(spec_choices(subs@.skip(i + 1 as int))),
            decreases m - k,
        {
            let t = &tracks[k];
            proof {
                assert(tracks@.skip(k as int)[0] == tracks@[k as int]);
                assert(tracks@.skip(k as int).skip(1) =~= tracks@.skip(k + 1 as int));
            }
            let usable = match (&t.ext, &t.url) {
                (Some(e), Some(_)) => str_eq(e.as_str(), "vtt") || str_eq(e.as_str(), "srt"),
                _ => false,
            };
            if usable {
                let choice = match (&t.ext, &t.url) {
                    (Some(e), Some(u)) => SubtitleChoice {
                        lang: lang.clone(),
                        format: e.clone(),
                        location: u.clone(),
                    },
                    _ => SubtitleChoice {
                        lang: lang.clone(),
                        format: String::new(),
                        location: String::new(),
                    },
                };
                let ghost prev = out@.map_values(|c: SubtitleChoice| choice_model(c));
                out.push(choice);
                proof {
                    assert(out@.map_values(|c: SubtitleChoice| choice_model(c)) =~= prev.push(
                        choice_model(choice),
                    ));
                    assert(prev.push(choice_model(choice)).add(
                        lang_choices(subs@[i as int].0@, tracks@.skip(k + 1 as int)),
                    ) =~= prev.add(lang_choices(subs@[i as int].0@, tracks@.skip(k as int))));
                }
            }
            k = k + 1;
        }
        proof {
            assert(tracks@.skip(m as int) =~= Seq::<SubtitleTrack>::empty());
            assert(lang_choices(subs@[i as int].0@, tracks@.skip(m as int)) =~= Seq::<
                (Seq<char>, Seq<char>, Seq<char>),
            >::empty());
            assert(out@.map_values(|c: SubtitleChoice| choice_model(c)).add(
                lang_choices(subs@[i as int].0@, tracks@.skip(m as int)),
            ) =~= out@.map_values(|c: SubtitleChoice| choice_model(c)));
        }
        i = i + 1;
    }
    proof {
        assert(subs@.skip(n as int) =~= Seq::<(String, Vec<SubtitleTrack>)>::empty());
        assert(out@.map_values(|c: SubtitleChoice| choice_model(c)).add(
            spec_choices(subs@.skip(n as int)),
        ) =~= out@.map_values(|c: SubtitleChoice| choice_model(c)));
    }
    out
}

/// The index of the first choice with the given language and format, if
/// any.
pub fn find_subtitle_choice(choices: &Vec<SubtitleChoice>, lang: &str, format: &str) -> (r: Option<
    usize,
>)
    ensures
        ({
            match r {
                Some(i) => {
                    &&& i < choices@.len()
                    &&& choices@[i as int].lang@ == lang@
                    &&& choices@[i as int].format@ == format@
                    &&& forall|j: int|
                        0 <= j < i ==> !((#[trigger] choices@[j]).lang@ == lang@
                            && choices@[j].format@ == format@)
                },
                None => forall|j: int|
                    0 <= j < choices@.len() ==> !((#[trigger] choices@[j]).lang@ == lang@
                        && choices@[j].format@ == format@),
            }
        }),
{
    let n = choices.len();
    let mut i: usize = 0;
    while i < n
        invariant
            i <= n,
            n == choices@.len(),
            forall|j: int|
                0 <= j < i ==> !((#[trigger] choices@[j]).lang@ == lang@ && choices@[j].format@
                    == format@),
        decreases n - i,
    {
        if str_eq(choices[i].lang.as_str(), lang) && str_eq(choices[i].format.as_str(), format) {
            return Some(i);
        }
        i = i + 1;
    }
    None
}

} // verus!
