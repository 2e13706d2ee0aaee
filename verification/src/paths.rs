//! Validation of card file paths: a candidate path is trimmed of surrounding
//! whitespace, must be non-empty, must not name a directory, and must name a
//! markdown file. Paths are treated as slash-separated; whether the path
//! names a directory is a fact about the file system and is handed in by the
//! caller.

use vstd::prelude::*;
use vstd::string::StrSliceExecFns;

verus! {

/// Why a candidate card path was rejected.
#[derive(Clone, Copy, Debug, PartialEq, Eq, Structural)]
pub enum PathError {
    /// The path is empty once trimmed.
    EmptyPath,
    /// The path names a directory.
    IsDirectory,
    /// The path does not name a markdown file.
    NotMarkdown,
}

/// ASCII whitespace, as trimming treats it.
pub open spec fn spec_is_space(c: char) -> bool {
    c == ' ' || c == '\t' || c == '\n' || c == '\r' || c == '\u{b}' || c == '\u{c}'
}

/// The index of the last occurrence of a character, `-1` if it never occurs.
pub open spec fn spec_last_index(s: Seq<char>, c: char) -> int
    decreases s.len(),
{
    if s.len() == 0 {
        -1
    } else if s[s.len() - 1] == c {
        s.len() - 1
    } else {
        spec_last_index(s.drop_last(), c)
    }
}

/// The index of the first character that is not whitespace; the length if
/// every character is.
pub open spec fn spec_trim_start(s: Seq<char>) -> int
    decreases s.len(),
{
    if s.len() == 0 {
        0
    } else if spec_is_space(s[0]) {
        1 + spec_trim_start(s.drop_first())
    } else {
        0
    }
}

/// One past the index of the last character that is not whitespace; zero if
/// every character is.
pub open spec fn spec_trim_end(s: Seq<char>) -> int
    decreases s.len(),
{
    if s.len() == 0 {
        0
    } else if spec_is_space(s[s.len() - 1]) {
        spec_trim_end(s.drop_last())
    } else {
        s.len() as int
    }
}

/// The string with surrounding whitespace removed.
pub open spec fn spec_trimmed(s: Seq<char>) -> Seq<char> {
    if spec_trim_start(s) >= spec_trim_end(s) {
        Seq::empty()
    } else {
        s.subrange(spec_trim_start(s), spec_trim_end(s))
    }
}

/// What the trim bounds mean: everything before the start and from the end
/// on is whitespace, and the characters at the bounds are not.
pub proof fn lemma_trim_bounds(s: Seq<char>)
    ensures
        0 <= spec_trim_start(s) <= s.len(),
        0 <= spec_trim_end(s) <= s.len(),
        forall|k: int| 0 <= k < spec_trim_start(s) ==> spec_is_space(s[k]),
        forall|k: int| spec_trim_end(s) <= k < s.len() ==> spec_is_space(s[k]),
        spec_trim_start(s) < s.len() ==> !spec_is_space(s[spec_trim_start(s)]),
        spec_trim_end(s) > 0 ==> !spec_is_space(s[spec_trim_end(s) - 1]),
    decreases s.len(),
{
    if s.len() == 0 {
    } else {
        if spec_is_space(s[0]) {
            lemma_trim_bounds(s.drop_first());
            let rest = s.drop_first();
            assert forall|k: int| 0 <= k < spec_trim_start(s) implies spec_is_space(s[k]) by {
                if k > 0 {
                    assert(rest[k - 1] == s[k]);
                    assert(spec_is_space(rest[k - 1]));
                }
            }
            if spec_trim_start(s) < s.len() {
                assert(rest[spec_trim_start(s) - 1] == s[spec_trim_start(s)]);
            }
        }
        if spec_is_space(s[s.len() - 1]) {
            lemma_trim_bounds(s.drop_last());
            let head = s.drop_last();
            assert(forall|k: int| 0 <= k < head.len() ==> head[k] == s[k]);
        }
    }
}

/// Whether a slash-separated path names a markdown file: the name after the
/// last separator has an extension after its last dot — a dot that neither
/// starts the name nor ends it empty-handed — and that extension is `md` in
/// either case.
pub open spec fn spec_is_markdown(s: Seq<char>) -> bool {
    let name = s.subrange(spec_last_index(s, '/') + 1, s.len() as int);
    let dot = spec_last_index(name, '.');
    if dot <= 0 {
        false
    } else {
        let ext = name.subrange(dot + 1, name.len() as int);
        &&& ext.len() == 2
        &&& (ext[0] == 'm' || ext[0] == 'M')
        &&& (ext[1] == 'd' || ext[1] == 'D')
    }
}

/// The index of the last occurrence of a character in a string, if any.
fn last_index_of_char(s: &str, c: char) -> (res: Option<usize>)
    ensures
        res matches Some(i) ==> i < s@.len() && spec_last_index(s@, c) == i,
        res is None ==> spec_last_index(s@, c) == -1,
{
    let n = s.unicode_len();
    let mut i: usize = n;
    proof {
        assert(s@.take(n as int) =~= s@);
    }
    while i > 0
        invariant
            i <= n,
            n == s@.len(),
            spec_last_index(s@, c) == spec_last_index(s@.take(i as int), c),
        decreases i,
    {
        i = i - 1;
        let ch = s.get_char(i);
        proof {
            assert(s@.take(i as int + 1).drop_last() =~= s@.take(i as int));
            assert(s@.take(i as int + 1)[i as int] == s@[i as int]);
        }
        if ch == c {
            return Some(i);
        }
    }
    proof {
        assert(s@.take(0) =~= Seq::<char>::empty());
    }
    None
}

/// Whether the path names a markdown file: its file name carries the
/// extension `md`, compared without regard to ASCII case.
pub fn is_markdown(path: &str) -> (r: bool)
    ensures
        r == spec_is_markdown(path@),
{
    let n = path.unicode_len();
    let start: usize = match last_index_of_char(path, '/') {
        Some(i) => i + 1,
        None => 0,
    };
    let name = path.substring_char(start, n);
    proof {
        assert(name@ == path@.subrange(spec_last_index(path@, '/') + 1, path@.len() as int));
    }
    let dot = last_index_of_char(name, '.');
    match dot {
        None => false,
        Some(d) => {
            if d == 0 {
                return false;
            }
            let m = name.unicode_len();
            if m < 3 || d != m - 3 {
                proof {
                    let nm = name@;
                    let ext = nm.subrange(spec_last_index(nm, '.') + 1, nm.len() as int);
                    assert(ext.len() == nm.len() - d - 1);
                }
                return false;
            }
            let c0 = name.get_char(d + 1);
            let c1 = name.get_char(d + 2);
            proof {
                let nm = name@;
                let ext = nm.subrange(d as int + 1, nm.len() as int);
                assert(ext.len() == 2);
                assert(ext[0] == nm[d as int + 1]);
                assert(ext[1] == nm[d as int + 2]);
            }
            (c0 == 'm' || c0 == 'M') && (c1 == 'd' || c1 == 'D')
        },
    }
}

/// Validate a candidate card path: trim surrounding whitespace, reject an
/// empty result, a path that names a directory (whether it does is a fact
/// about the file system, handed in by the caller), and a path that does not
/// name a markdown file; return the trimmed path otherwise.
pub fn validate_file(path: &str, is_directory: bool) -> (res: Result<String, PathError>)
    ensures
        res matches Ok(p) ==> {
            &&& p@ == spec_trimmed(path@)
            &&& spec_trimmed(path@).len() > 0
            &&& !is_directory
            &&& spec_is_markdown(spec_trimmed(path@))
        },
        res matches Err(e) ==> match e {
            PathError::EmptyPath => spec_trimmed(path@).len() == 0,
            PathError::IsDirectory => spec_trimmed(path@).len() > 0 && is_directory,
            PathError::NotMarkdown => spec_trimmed(path@).len() > 0 && !is_directory
                && !spec_is_markdown(spec_trimmed(path@)),
        },
{
    proof {
        lemma_trim_bounds(path@);
    }
    let n = path.unicode_len();
    let mut start: usize = 0;
    while start < n && is_space_char(path.get_char(start))
        invariant
            start <= n,
            n == path@.len(),
            forall|k: int| 0 <= k < start ==> spec_is_space(path@[k]),
        decreases n - start,
    {
        start = start + 1;
    }
    proof {
        if start != spec_trim_start(path@) {
            if start < spec_trim_start(path@) {
                assert(spec_is_space(path@[start as int]));
            } else {
                assert(spec_is_space(path@[spec_trim_start(path@)]));
            }
        }
    }
    let mut end: usize = n;
    while end > start && is_space_char(path.get_char(end - 1))
        invariant
            start <= end <= n,
            n == path@.len(),
            forall|k: int| end <= k < n ==> spec_is_space(path@[k]),
            start == spec_trim_start(path@),
        decreases end,
    {
        end = end - 1;
    }
    proof {
        if end != spec_trim_end(path@) {
            if end < spec_trim_end(path@) {
                assert(spec_is_space(path@[spec_trim_end(path@) - 1]));
            } else if end > start {
                assert(spec_is_space(path@[end - 1]));
            } else {
                assert(end == start);
                assert(spec_trim_end(path@) < start);
                assert(spec_is_space(path@[spec_trim_end(path@)]));
            }
        }
        assert(end == spec_trim_end(path@) || (end == start && start >= spec_trim_end(path@)));
    }
    if end <= start {
        return Err(PathError::EmptyPath);
    }
    let trimmed = path.substring_char(start, end);
    proof {
        assert(trimmed@ == spec_trimmed(path@));
    }
    if is_directory {
        return Err(PathError::IsDirectory);
    }
    if !is_markdown(trimmed) {
        return Err(PathError::NotMarkdown);
    }
    Ok(trimmed.to_owned())
}

/// Whether a character is ASCII whitespace.
fn is_space_char(c: char) -> (r: bool)
    ensures
        r == spec_is_space(c),
{
    c == ' ' || c == '\t' || c == '\n' || c == '\r' || c == '\u{b}' || c == '\u{c}'
}

} // verus!
