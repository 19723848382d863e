use vstd::prelude::*;

verus! {

/// The index of the last occurrence of `c` in `s`, or -1 when `c` does not occur.
pub open spec fn last_index_of(s: Seq<char>, c: char) -> int
    decreases s.len(),
{
    if s.len() == 0 {
        -1
    } else if s.last() == c {
        s.len() - 1
    } else {
        last_index_of(s.drop_last(), c)
    }
}

pub proof fn lemma_last_index_of(s: Seq<char>, c: char)
    ensures
        -1 <= last_index_of(s, c) < s.len(),
        last_index_of(s, c) >= 0 ==> s[last_index_of(s, c)] == c,
        forall|j: int| last_index_of(s, c) < j < s.len() ==> s[j] != c,
    decreases s.len(),
{
    if s.len() > 0 && s.last() != c {
        lemma_last_index_of(s.drop_last(), c);
        assert forall|j: int| last_index_of(s, c) < j < s.len() implies s[j] != c by {
            if j < s.len() - 1 {
                assert(s[j] == s.drop_last()[j]);
            }
        }
    }
}

/// The last component of a path: what follows its last `/`.
pub open spec fn file_name(p: Seq<char>) -> Seq<char> {
    p.subrange(last_index_of(p, '/') + 1, p.len() as int)
}

/// The extension of a path: what follows the last `.` of its file name, where
/// that dot is not the name's first character.
pub open spec fn extension(p: Seq<char>) -> Option<Seq<char>> {
    let f = file_name(p);
    let d = last_index_of(f, '.');
    if d > 0 {
        Some(f.subrange(d + 1, f.len() as int))
    } else {
        None
    }
}

/// The file name of a path without its extension.
pub open spec fn stem(p: Seq<char>) -> Seq<char> {
    let f = file_name(p);
    let d = last_index_of(f, '.');
    if d > 0 {
        f.subrange(0, d)
    } else {
        f
    }
}

/// `c` is the lower-case ASCII letter or digit `lower`, in either case.
pub open spec fn char_matches(c: char, lower: char) -> bool {
    c == lower || ('a' <= lower <= 'z' && c as u32 + 32 == lower as u32)
}

/// `e` is one of the recognised media extensions `mp3`, `wav` and `ogg`,
/// compared without regard to ASCII case.
pub open spec fn is_media_extension(e: Seq<char>) -> bool {
    e.len() == 3 && ((char_matches(e[0], 'm') && char_matches(e[1], 'p') && char_matches(e[2], '3'))
        || (char_matches(e[0], 'w') && char_matches(e[1], 'a') && char_matches(e[2], 'v'))
        || (char_matches(e[0], 'o') && char_matches(e[1], 'g') && char_matches(e[2], 'g')))
}

/// A path that may stand in the catalog: its extension is a media extension.
pub open spec fn is_media_path(p: Seq<char>) -> bool {
    match extension(p) {
        Some(e) => is_media_extension(e),
        None => false,
    }
}

/// `p` lies inside the directory `root`: it is `root`, a `/`, and more.
pub open spec fn is_under(p: Seq<char>, root: Seq<char>) -> bool {
    root.len() < p.len() && p.subrange(0, root.len() as int) == root && p[root.len() as int] == '/'
}

/// Why a title could not be derived from a path.
#[derive(Debug, Clone, Copy, PartialEq, Eq, Structural)]
pub enum TitleError {
    /// The path has no file name before its extension.
    InvalidFilename,
}

fn last_index_exec(s: &str, c: char) -> (r: Option<usize>)
    ensures
        match r {
            Some(i) => i == last_index_of(s@, c),
            None => last_index_of(s@, c) == -1,
        },
{
    let n = s.unicode_len();
    let mut i: usize = n;
    proof {
        lemma_last_index_of(s@, c);
    }
    while i > 0
        invariant
            i <= n == s@.len(),
            forall|j: int| i <= j < n ==> s@[j] != c,
            -1 <= last_index_of(s@, c) < n,
            last_index_of(s@, c) >= 0 ==> s@[last_index_of(s@, c)] == c,
            forall|j: int| last_index_of(s@, c) < j < n ==> s@[j] != c,
        decreases i,
    {
        if s.get_char(i - 1) == c {
            return Some(i - 1);
        }
        i = i - 1;
    }
    None
}

fn char_matches_exec(c: char, lower: char) -> (r: bool)
    ensures
        r == char_matches(c, lower),
{
    c == lower || ('a' <= lower && lower <= 'z' && (c as u32) + 32 == (lower as u32))
}

/// The file name of `path`.
pub fn file_name_of(path: &str) -> (r: String)
    ensures
        r@ == file_name(path@),
{
    let n = path.unicode_len();
    proof {
        lemma_last_index_of(path@, '/');
    }
    let start: usize = match last_index_exec(path, '/') {
        Some(i) => i + 1,
        None => 0,
    };
    path.substring_char(start, n).to_string()
}

/// Whether `path` names a media file that the catalog may hold.
pub fn is_media_file(path: &str) -> (r: bool)
    ensures
        r == is_media_path(path@),
{
    let name = file_name_of(path);
    let f = name.as_str();
    proof {
        lemma_last_index_of(f@, '.');
    }
    match last_index_exec(f, '.') {
        Some(d) => {
            if d == 0 {
                return false;
            }
            let n = f.unicode_len();
            if n - d - 1 != 3 {
                return false;
            }
            let a = f.get_char(d + 1);
            let b = f.get_char(d + 2);
            let c = f.get_char(d + 3);
            let ghost e = f@.subrange(d + 1, n as int);
            assert(e[0] == a && e[1] == b && e[2] == c);
            (char_matches_exec(a, 'm') && char_matches_exec(b, 'p') && char_matches_exec(c, '3'))
                || (char_matches_exec(a, 'w') && char_matches_exec(b, 'a') && char_matches_exec(c, 'v'))
                || (char_matches_exec(a, 'o') && char_matches_exec(b, 'g') && char_matches_exec(c, 'g'))
        },
        None => false,
    }
}

/// The title of the file at `path`: its file name without the extension.
/// Fails when that leaves nothing.
pub fn title_from_filename(path: &str) -> (r: Result<String, TitleError>)
    ensures
        stem(path@).len() > 0 ==> (r matches Ok(t) && t@ == stem(path@)),
        stem(path@).len() == 0 ==> r == Err::<String, TitleError>(TitleError::InvalidFilename),
{
    let name = file_name_of(path);
    let f = name.as_str();
    proof {
        lemma_last_index_of(f@, '.');
    }
    let end: usize = match last_index_exec(f, '.') {
        Some(d) => if d > 0 { d } else { f.unicode_len() },
        None => f.unicode_len(),
    };
    if end == 0 {
        return Err(TitleError::InvalidFilename);
    }
    let t = f.substring_char(0, end).to_string();
    assert(t@ =~= stem(path@));
    Ok(t)
}

/// Whether `path` lies inside the directory `root`.
pub fn is_under_root(path: &str, root: &str) -> (r: bool)
    ensures
        r == is_under(path@, root@),
{
    let n = path.unicode_len();
    let m = root.unicode_len();
    if m >= n {
        return false;
    }
    let mut i: usize = 0;
    while i < m
        invariant
            m < n,
            n == path@.len(),
            m == root@.len(),
            i <= m,
            forall|j: int| 0 <= j < i ==> path@[j] == root@[j],
        decreases m - i,
    {
        if path.get_char(i) != root.get_char(i) {
            assert(path@.subrange(0, m as int)[i as int] != root@[i as int]);
            return false;
        }
        i = i + 1;
    }
    assert(path@.subrange(0, m as int) =~= root@);
    path.get_char(m) == '/'
}

} // verus!
