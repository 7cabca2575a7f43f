//! Construction of subtitle file paths.  Paths are plain strings; a file
//! name is what follows the last slash, and an extension is what follows
//! the last dot of the file name when that dot is not its first character.

use vstd::prelude::*;

use crate::chars::{chars_of, push_chars, string_of};

verus! {

/// Why a subtitle path could not be built.
#[derive(Debug, Clone, PartialEq, Eq)]
pub enum PathError {
    /// An explicit file argument must name an `srt` file.
    MissingSrtExtension,
}

/// Index of the last occurrence of `c` in `s`, or `-1`.
pub open spec fn last_pos(s: Seq<char>, c: char) -> int
    decreases s.len(),
{
    if s.len() == 0 {
        -1
    } else if s.last() == c {
        s.len() - 1
    } else {
        last_pos(s.drop_last(), c)
    }
}

proof fn lemma_last_pos_is(s: Seq<char>, c: char, k: int)
    requires
        0 <= k < s.len(),
        s[k] == c,
        forall|j: int| k < j < s.len() ==> #[trigger] s[j] != c,
    ensures
        last_pos(s, c) == k,
    decreases s.len(),
{
    if k == s.len() - 1 {
    } else {
        let r = s.drop_last();
        assert(forall|j: int| k < j < r.len() ==> #[trigger] r[j] != c);
        lemma_last_pos_is(r, c, k);
    }
}

proof fn lemma_last_pos_none(s: Seq<char>, c: char)
    requires
        forall|j: int| 0 <= j < s.len() ==> #[trigger] s[j] != c,
    ensures
        last_pos(s, c) == -1,
    decreases s.len(),
{
    if s.len() > 0 {
        let r = s.drop_last();
        assert(forall|j: int| 0 <= j < r.len() ==> #[trigger] r[j] != c);
        lemma_last_pos_none(r, c);
    }
}

/// Find the last occurrence of `c`: whether one exists, and its index.
fn find_last(v: &Vec<char>, c: char) -> (r: (bool, usize))
    ensures
        r.0 ==> r.1 < v@.len() && last_pos(v@, c) == r.1 as int,
        !r.0 ==> last_pos(v@, c) == -1,
{
    let n = v.len();
    let mut i: usize = n;
    while i > 0
        invariant
            i <= n,
            n == v@.len(),
            forall|j: int| i <= j < n ==> #[trigger] v@[j] != c,
        decreases i,
    {
        if v[i - 1] == c {
            proof {
                lemma_last_pos_is(v@, c, i - 1);
            }
            return (true, i - 1);
        }
        i = i - 1;
    }
    proof {
        lemma_last_pos_none(v@, c);
    }
    (false, 0)
}

/// Whether the path's file name has an extension: a dot after the last
/// slash that does not begin the file name.
pub open spec fn has_extension(s: Seq<char>) -> bool {
    last_pos(s, '.') > last_pos(s, '/') + 1
}

/// The path without its extension (the dot goes too); the path itself when
/// it has none.
pub open spec fn strip_extension(s: Seq<char>) -> Seq<char> {
    if has_extension(s) {
        s.take(last_pos(s, '.'))
    } else {
        s
    }
}

/// The extension of the path's file name; meaningful only when
/// `has_extension` holds.
pub open spec fn extension_of(s: Seq<char>) -> Seq<char> {
    s.skip(last_pos(s, '.') + 1)
}

/// Replace the extension: the old one is dropped, and a non-empty `e` is
/// appended after a dot.
pub open spec fn set_extension(s: Seq<char>, e: Seq<char>) -> Seq<char> {
    let b = strip_extension(s);
    if e.len() == 0 {
        b
    } else {
        b.add(seq!['.']).add(e)
    }
}

/// Executable form of `set_extension` over character vectors.
fn exec_set_extension(v: &Vec<char>, e: &Vec<char>) -> (r: Vec<char>)
    ensures
        r@ == set_extension(v@, e@),
{
    let n = v.len();
    let dot = find_last(v, '.');
    let slash = find_last(v, '/');
    let stripped_end: usize = if dot.0 && dot.1 >= 1 && (!slash.0 || dot.1 - 1 > slash.1) {
        dot.1
    } else {
        n
    };
    proof {
        if has_extension(v@) {
            assert(stripped_end as int == last_pos(v@, '.'));
        } else {
            assert(stripped_end == n);
        }
    }
    let mut out: Vec<char> = Vec::new();
    let mut i: usize = 0;
    while i < stripped_end
        invariant
            i <= stripped_end <= n,
            n == v@.len(),
            out@ == v@.take(i as int),
        decreases stripped_end - i,
    {
        out.push(v[i]);
        proof {
            assert(v@.take(i + 1 as int) =~= v@.take(i as int).push(v@[i as int]));
        }
        i = i + 1;
    }
    proof {
        assert(out@ =~= strip_extension(v@));
    }
    if e.len() == 0 {
        return out;
    }
    out.push('.');
    let ghost mid = out@;
    let en = e.len();
    let mut k: usize = 0;
    while k < en
        invariant
            k <= en,
            en == e@.len(),
            out@ == mid.add(e@.take(k as int)),
        decreases en - k,
    {
        out.push(e[k]);
        proof {
            assert(mid.add(e@.take(k + 1 as int)) =~= mid.add(e@.take(k as int)).push(
                e@[k as int],
            ));
        }
        k = k + 1;
    }
    proof {
        assert(e@.take(en as int) =~= e@);
        assert(out@ =~= strip_extension(v@).add(seq!['.']).add(e@));
    }
    out
}

/// Join one path segment onto a base, as paths are pushed: an absolute
/// segment replaces the base, an empty base disappears, and otherwise one
/// separating slash stands between them.
pub open spec fn join_path(a: Seq<char>, b: Seq<char>) -> Seq<char> {
    if b.len() > 0 && b[0] == '/' {
        b
    } else if a.len() == 0 {
        b
    } else if a.last() == '/' {
        a.add(b)
    } else {
        a.add(seq!['/']).add(b)
    }
}

/// Executable form of `join_path`, appending onto a character vector.
fn exec_join_path(a: Vec<char>, b: &str) -> (r: Vec<char>)
    ensures
        r@ == join_path(a@, b@),
{
    let bs = chars_of(b);
    if bs.len() > 0 && bs[0] == '/' {
        return bs;
    }
    if a.len() == 0 {
        return bs;
    }
    let mut out = a;
    if !(out[out.len() - 1] == '/') {
        out.push('/');
    }
    let ghost mid = out@;
    let n = bs.len();
    let mut i: usize = 0;
    while i < n
        invariant
            i <= n,
            n == bs@.len(),
            out@ == mid.add(bs@.take(i as int)),
        decreases n - i,
    {
        out.push(bs[i]);
        proof {
            assert(mid.add(bs@.take(i + 1 as int)) =~= mid.add(bs@.take(i as int)).push(
                bs@[i as int],
            ));
        }
        i = i + 1;
    }
    proof {
        assert(bs@.take(n as int) =~= bs@);
        assert(out@ =~= join_path(a@, b@));
    }
    out
}

/// The language that names the target subtitle file: the argument's, the
/// configuration's, or the fixed fallback.
pub open spec fn spec_target_lang(arg_lang: Option<String>, config_lang: Option<String>) -> Seq<
    char,
> {
    match arg_lang {
        Some(l) => l@,
        None => match config_lang {
            Some(l) => l@,
            None => "translated"@,
        },
    }
}

/// Derive the target subtitle path from the source path: the source
/// extension is dropped and `<lang>.srt` takes its place.
pub fn build_subtitle_path_from_path(
    path: String,
    arg_lang: Option<String>,
    config_lang: Option<String>,
) -> (r: String)
    ensures
        r@ == set_extension(
            set_extension(path@, Seq::<char>::empty()),
            spec_target_lang(arg_lang, config_lang).add(".srt"@),
        ),
{
    let ghost lang_view = spec_target_lang(arg_lang, config_lang);
    let lang: String = match arg_lang {
        Some(l) => l,
        None => match config_lang {
            Some(l) => l,
            None => {
                let t = String::new();
                let mut t = t;
                t.append("translated");
                t
            },
        },
    };
    let mut ext = chars_of(lang.as_str());
    push_chars(&mut ext, ".srt");
    let v = chars_of(path.as_str());
    let empty: Vec<char> = Vec::new();
    let stripped = exec_set_extension(&v, &empty);
    let out = exec_set_extension(&stripped, &ext);
    proof {
        assert(ext@ == lang_view.add(".srt"@));
    }
    string_of(&out)
}

/// The view of an optional string.
pub open spec fn opt_view(o: Option<String>) -> Option<Seq<char>> {
    match o {
        Some(s) => Some(s@),
        None => None,
    }
}

/// The file path of a subtitle under a base directory: an optional channel
/// directory, then `<title>.<lang>.srt`, or `<title>.srt` without a
/// language.
pub open spec fn spec_sub_path(
    base: Seq<char>,
    title: Seq<char>,
    lang: Option<Seq<char>>,
    channel: Option<Seq<char>>,
) -> Seq<char> {
    let dir = match channel {
        Some(c) => join_path(base, c),
        None => base,
    };
    let name = match lang {
        Some(l) => title.add(seq!['.']).add(l).add(".srt"@),
        None => title.add(".srt"@),
    };
    join_path(dir, name)
}

/// Build the path of a subtitle file under a base directory.
pub fn subtitle_sub_path(
    base_path: String,
    title: &str,
    lang: &Option<String>,
    channel: &Option<String>,
) -> (r: String)
    ensures
        r@ == spec_sub_path(base_path@, title@, opt_view(*lang), opt_view(*channel)),
{
    let base = chars_of(base_path.as_str());
    let dir = match channel {
        Some(c) => exec_join_path(base, c.as_str()),
        None => base,
    };
    let mut name = chars_of(title);
    match lang {
        Some(l) => {
            name.push('.');
            push_chars(&mut name, l.as_str());
            push_chars(&mut name, ".srt");
        },
        None => {
            push_chars(&mut name, ".srt");
        },
    }
    let name_s = string_of(&name);
    let out = exec_join_path(dir, name_s.as_str());
    string_of(&out)
}

/// Choose where the subtitle file goes.  An explicit file must already name
/// an `srt` file; otherwise the file name is built under the argument path
/// or, failing that, the configured path.
pub fn build_subtitle_path(
    arg_file: Option<String>,
    arg_path: Option<String>,
    config_path: Option<String>,
    title: &str,
    lang: &Option<String>,
    channel: &Option<String>,
) -> (r: Result<String, PathError>)
    requires
        arg_file is Some || arg_path is Some || config_path is Some,
    ensures
        ({
            match arg_file {
                Some(f) => {
                    if has_extension(f@) && extension_of(f@) == "srt"@ {
                        r matches Ok(p) && p@ == f@
                    } else {
                        r == Err::<String, PathError>(PathError::MissingSrtExtension)
                    }
                },
                None => match arg_path {
                    Some(p) => r matches Ok(x) && x@ == spec_sub_path(
                        p@,
                        title@,
                        opt_view(*lang),
                        opt_view(*channel),
                    ),
                    None => match config_path {
                        Some(cp) => r matches Ok(x) && x@ == spec_sub_path(
                            cp@,
                            title@,
                            opt_view(*lang),
                            opt_view(*channel),
                        ),
                        None => true,
                    },
                },
            }
        }),
{
    match arg_file {
        Some(f) => {
            let v = chars_of(f.as_str());
            let dot = find_last(&v, '.');
            let slash = find_last(&v, '/');
            let good = if dot.0 && dot.1 >= 1 && (!slash.0 || dot.1 - 1 > slash.1) {
                let n = v.len();
                if n - dot.1 == 4 {
                    v[dot.1 + 1] == 's' && v[dot.1 + 2] == 'r' && v[dot.1 + 3] == 't'
                } else {
                    false
                }
            } else {
                false
            };
            proof {
                reveal_strlit("srt");
                assert("srt"@.len() == 3 && "srt"@[0] == 's' && "srt"@[1] == 'r' && "srt"@[2]
                    == 't');
                if has_extension(f@) {
                    let lp = last_pos(f@, '.');
                    let ext = extension_of(f@);
                    assert(ext.len() == f@.len() - lp - 1);
                    if ext.len() == 3 {
                        assert(ext[0] == f@[lp + 1]);
                        assert(ext[1] == f@[lp + 2]);
                        assert(ext[2] == f@[lp + 3]);
                    }
                    if good {
                        assert(ext =~= "srt"@);
                    } else {
                        assert(ext != "srt"@);
                    }
                }
            }
            if good {
                Ok(f)
            } else {
                Err(PathError::MissingSrtExtension)
            }
        },
        None => match arg_path {
            Some(p) => Ok(subtitle_sub_path(p, title, lang, channel)),
            None => match config_path {
                Some(cp) => Ok(subtitle_sub_path(cp, title, lang, channel)),
                None => Err(PathError::MissingSrtExtension),
            },
        },
    }
}

} // verus!
