//! Paths as texts.

use vstd::prelude::*;

verus! {

/// The kind of system whose paths are meant.
#[derive(Debug, Clone, Copy, PartialEq, Eq, Structural)]
pub enum System {
    Unix,
    Windows,
}

/// Whether a character separates the parts of a path.
pub open spec fn is_separator(c: char, system: System) -> bool {
    c == '/' || (system == System::Windows && c == '\\')
}

/// Whether a path is a drive of Windows and nothing else.
pub open spec fn is_drive(path: Seq<char>, system: System) -> bool {
    system == System::Windows && path.len() == 2 && path[1] == ':' && ('a' <= path[0] <= 'z' || 'A'
        <= path[0] <= 'Z')
}

/// A relative path below a directory.
pub open spec fn joined_path(base: Seq<char>, relative: Seq<char>, system: System) -> Seq<char> {
    if base.len() == 0 || is_separator(base.last(), system) || is_drive(base, system) {
        base + relative
    } else if system == System::Windows {
        base + "\\"@ + relative
    } else {
        base + "/"@ + relative
    }
}

/// A relative path below a directory.
pub fn join_path(base: &str, relative: &str, system: System) -> (path: String)
    ensures
        path@ == joined_path(base@, relative@, system),
{
    let len: usize = base.unicode_len();
    let mut path = base.to_owned();
    let mut closed = true;
    if len > 0 {
        let last: char = base.get_char(len - 1);
        let separator = last == '/' || (system == System::Windows && last == '\\');
        let drive = if system == System::Windows && len == 2 && last == ':' {
            let first: char = base.get_char(0);
            ('a' <= first && first <= 'z') || ('A' <= first && first <= 'Z')
        } else {
            false
        };
        closed = separator || drive;
    }
    if !closed {
        if system == System::Windows {
            path.append("\\");
        } else {
            path.append("/");
        }
    }
    path.append(relative);
    path
}

/// The length of a path without the separators at its end and the parts `.` there.
pub open spec fn trimmed_len(path: Seq<char>, n: int) -> int
    decreases n,
{
    if n <= 0 {
        0
    } else if path[n - 1] == '/' {
        trimmed_len(path, n - 1)
    } else if n >= 2 && path[n - 1] == '.' && path[n - 2] == '/' {
        trimmed_len(path, n - 1)
    } else {
        n
    }
}

/// Where the part of a path that ends at `n` starts.
pub open spec fn part_start(path: Seq<char>, n: int) -> int
    decreases n,
{
    if n <= 0 {
        0
    } else if path[n - 1] == '/' {
        n
    } else {
        part_start(path, n - 1)
    }
}

/// Where the file name of a path starts and ends: its last part, unless that is `.`
/// or `..` or there is none.
pub open spec fn file_name_range(path: Seq<char>) -> Option<(int, int)> {
    let end = trimmed_len(path, path.len() as int);
    let start = part_start(path, end);
    let name = path.subrange(start, end);
    if name.len() == 0 || name == seq!['.'] || name == seq!['.', '.'] {
        None
    } else {
        Some((start, end))
    }
}

proof fn lemma_trimmed_len(path: Seq<char>, n: int)
    requires
        0 <= n <= path.len(),
    ensures
        0 <= trimmed_len(path, n) <= n,
    decreases n,
{
    if n > 0 {
        lemma_trimmed_len(path, n - 1);
    }
}

proof fn lemma_part_start(path: Seq<char>, n: int)
    requires
        0 <= n <= path.len(),
    ensures
        0 <= part_start(path, n) <= n,
    decreases n,
{
    if n > 0 {
        lemma_part_start(path, n - 1);
    }
}

/// Where the file name of a path starts and ends.
pub fn find_file_name(path: &str) -> (range: Option<(usize, usize)>)
    ensures
        match range {
            Some((start, end)) => file_name_range(path@) == Some((start as int, end as int))
                && start < end <= path@.len(),
            None => file_name_range(path@) is None,
        },
{
    let len: usize = path.unicode_len();
    let mut end: usize = len;
    while end > 0 && (path.get_char(end - 1) == '/' || (end >= 2 && path.get_char(end - 1) == '.'
        && path.get_char(end - 2) == '/'))
        invariant
            end <= len,
            len == path@.len(),
            trimmed_len(path@, len as int) == trimmed_len(path@, end as int),
        decreases end,
    {
        end -= 1;
    }
    let mut start: usize = end;
    while start > 0 && path.get_char(start - 1) != '/'
        invariant
            start <= end <= len,
            len == path@.len(),
            part_start(path@, end as int) == part_start(path@, start as int),
        decreases start,
    {
        start -= 1;
    }
    let ghost name = path@.subrange(start as int, end as int);
    if start == end {
        return None;
    }
    if end - start == 1 && path.get_char(start) == '.' {
        assert(name =~= seq!['.']);
        return None;
    }
    if end - start == 2 && path.get_char(start) == '.' && path.get_char(start + 1) == '.' {
        assert(name =~= seq!['.', '.']);
        return None;
    }
    proof {
        if name == seq!['.'] {
            assert(name.len() == 1);
            assert(name[0] == '.');
        }
        if name == seq!['.', '.'] {
            assert(name.len() == 2);
            assert(name[0] == '.' && name[1] == '.');
        }
    }
    Some((start, end))
}

/// Where the last dot of a file name stands that is not its first character; the end
/// of the name where there is none.
pub open spec fn stem_end(path: Seq<char>, start: int, end: int, at: int) -> int
    decreases at - start,
{
    if at <= start {
        end
    } else if path[at] == '.' {
        at
    } else {
        stem_end(path, start, end, at - 1)
    }
}

/// A path with another extension. A path without a file name stays as it is.
pub open spec fn with_extension_of(path: Seq<char>, extension: Seq<char>) -> Seq<char> {
    match file_name_range(path) {
        None => path,
        Some((start, end)) => path.take(stem_end(path, start, end, end - 1)) + "."@ + extension,
    }
}

/// A path with another extension.
pub fn with_extension(path: &str, extension: &str) -> (changed: String)
    ensures
        changed@ == with_extension_of(path@, extension@),
{
    match find_file_name(path) {
        None => path.to_owned(),
        Some((start, end)) => {
            let mut at: usize = end - 1;
            while at > start && path.get_char(at) != '.'
                invariant
                    start <= at < end <= path@.len(),
                    stem_end(path@, start as int, end as int, end - 1) == stem_end(
                        path@,
                        start as int,
                        end as int,
                        at as int,
                    ),
                decreases at,
            {
                at -= 1;
            }
            let cut: usize = if at > start {
                at
            } else {
                end
            };
            let stem = path.substring_char(0, cut);
            assert(stem@ =~= path@.take(cut as int));
            let mut changed = stem.to_owned();
            changed.append(".");
            changed.append(extension);
            changed
        },
    }
}

/// Whether a text is a part of a path: it is not empty and holds no slash.
pub open spec fn is_part(text: Seq<char>) -> bool {
    text.len() > 0 && !text.contains('/')
}

/// Whether a text is a directory before a file name: nothing, or a path that ends with a
/// slash.
pub open spec fn is_directory(text: Seq<char>) -> bool {
    text.len() == 0 || text.last() == '/'
}

pub(crate) proof fn lemma_part_is_found(dir: Seq<char>, name: Seq<char>)
    requires
        is_directory(dir),
        is_part(name),
        name != seq!['.'],
        name != seq!['.', '.'],
    ensures
        file_name_range(dir + name) == Some(
            (dir.len() as int, (dir + name).len() as int),
        ),
{
    let path = dir + name;
    let n = path.len() as int;
    let start = dir.len() as int;
    assert forall|i: int| start <= i < n implies #[trigger] path[i] != '/' by {
        assert(path[i] == name[i - start]);
        assert(name.contains(name[i - start]));
    }
    assert(trimmed_len(path, n) == n) by {
        assert(path[n - 1] != '/');
        if n >= 2 && path[n - 1] == '.' && path[n - 2] == '/' {
            assert(n - 2 < start);
            assert(name =~= seq!['.']);
        }
    }
    lemma_part_starts(path, start, n);
    assert(path.subrange(start, n) =~= name);
}

proof fn lemma_part_starts(path: Seq<char>, start: int, n: int)
    requires
        0 <= start <= n <= path.len(),
        start == 0 || path[start - 1] == '/',
        forall|i: int| start <= i < n ==> #[trigger] path[i] != '/',
    ensures
        part_start(path, n) == start,
    decreases n - start,
{
    if n > start {
        assert(path[n - 1] != '/');
        lemma_part_starts(path, start, n - 1);
    }
}

proof fn lemma_stem_ends(path: Seq<char>, start: int, end: int, at: int, dot: int)
    requires
        0 <= start <= at < end <= path.len(),
        start < dot <= at && path[dot] == '.' || dot == end,
        forall|i: int| start < i <= at && i > dot ==> #[trigger] path[i] != '.',
        dot == end ==> forall|i: int| start < i <= at ==> #[trigger] path[i] != '.',
    ensures
        stem_end(path, start, end, at) == dot,
    decreases at - start,
{
    if at > start && path[at] != '.' {
        lemma_stem_ends(path, start, end, at - 1, dot);
    }
}

/// Another extension takes the place of the one that a file has, behind the last dot in its
/// name, and its directory and the rest of its name stay; a file without one gets it, and so
/// does one whose only dot is the first character of its name.
pub proof fn law_extension_is_replaced(
    dir: Seq<char>,
    stem: Seq<char>,
    old_extension: Seq<char>,
    extension: Seq<char>,
)
    requires
        is_directory(dir),
        is_part(stem),
        !old_extension.contains('/'),
        !old_extension.contains('.'),
    ensures
        stem != seq!['.'] || old_extension.len() > 0 ==> with_extension_of(
            dir + (stem + seq!['.'] + old_extension),
            extension,
        ) == dir + stem + seq!['.'] + extension,
        !stem.contains('.') ==> with_extension_of(dir + stem, extension) == dir + stem + seq!['.']
            + extension,
        !stem.contains('.') ==> with_extension_of(dir + (seq!['.'] + stem), extension) == dir + (
        seq!['.'] + stem) + seq!['.'] + extension,
{
    reveal_strlit(".");
    assert("."@ =~= seq!['.']);
    let start = dir.len() as int;
    if stem != seq!['.'] || old_extension.len() > 0 {
        let name = stem + seq!['.'] + old_extension;
        let path = dir + name;
        let dot = start + stem.len();
        assert(!name.contains('/')) by {
            if name.contains('/') {
                let i = choose|i: int| 0 <= i < name.len() && name[i] == '/';
                if i < stem.len() {
                    assert(stem.contains(stem[i]));
                } else if i > stem.len() {
                    assert(old_extension.contains(old_extension[i - stem.len() - 1]));
                }
            }
        }
        assert(name != seq!['.', '.']) by {
            if name == seq!['.', '.'] {
                assert(stem =~= seq!['.']) by {
                    assert(name.len() == 2);
                    assert(name[0] == stem[0]);
                }
                assert(old_extension.len() == 0);
            }
        }
        assert(name.len() >= 2);
        lemma_part_is_found(dir, name);
        assert forall|i: int| dot < i < path.len() implies #[trigger] path[i] != '.' by {
            assert(path[i] == old_extension[i - dot - 1]);
            assert(old_extension.contains(old_extension[i - dot - 1]));
        }
        lemma_stem_ends(path, start, path.len() as int, path.len() - 1, dot);
        assert(path.take(dot) =~= dir + stem);
    }
    if !stem.contains('.') {
        let path = dir + stem;
        assert(stem != seq!['.']) by {
            if stem == seq!['.'] {
                assert(stem.contains(stem[0]));
            }
        }
        assert(stem != seq!['.', '.']) by {
            if stem == seq!['.', '.'] {
                assert(stem.contains(stem[0]));
            }
        }
        lemma_part_is_found(dir, stem);
        let end = path.len() as int;
        assert forall|i: int| start < i < end implies #[trigger] path[i] != '.' by {
            assert(path[i] == stem[i - start]);
            assert(stem.contains(stem[i - start]));
        }
        lemma_stem_ends(path, start, end, end - 1, end);
        assert(path.take(end) =~= path);
        let hidden = seq!['.'] + stem;
        let other = dir + hidden;
        assert(!hidden.contains('/')) by {
            if hidden.contains('/') {
                let i = choose|i: int| 0 <= i < hidden.len() && hidden[i] == '/';
                assert(stem.contains(stem[i - 1]));
            }
        }
        assert(hidden != seq!['.', '.']) by {
            if hidden == seq!['.', '.'] {
                assert(stem[0] == hidden[1]);
                assert(stem.contains(stem[0]));
            }
        }
        assert(hidden != seq!['.']) by {
            assert(hidden.len() >= 2);
        }
        lemma_part_is_found(dir, hidden);
        let last = other.len() as int;
        assert forall|i: int| start < i < last implies #[trigger] other[i] != '.' by {
            assert(other[i] == stem[i - start - 1]);
            assert(stem.contains(stem[i - start - 1]));
        }
        lemma_stem_ends(other, start, last, last - 1, last);
        assert(other.take(last) =~= other);
    }
}

/// A relative path below a directory is the directory, one separator of the system, and the
/// path; a directory that ends with a separator, and none at all, need no other.
pub proof fn law_joined_paths(base: Seq<char>, relative: Seq<char>)
    ensures
        base.len() > 0 && base.last() != '/' ==> joined_path(base, relative, System::Unix) == base
            + seq!['/'] + relative,
        base.len() == 0 || base.last() == '/' ==> joined_path(base, relative, System::Unix) == base
            + relative,
        base.len() > 2 && base.last() != '/' && base.last() != '\\' ==> joined_path(
            base,
            relative,
            System::Windows,
        ) == base + seq!['\\'] + relative,
        base.len() > 0 && (base.last() == '/' || base.last() == '\\') ==> joined_path(
            base,
            relative,
            System::Windows,
        ) == base + relative,
{
    reveal_strlit("/");
    reveal_strlit("\\");
    assert("/"@ =~= seq!['/']);
    assert("\\"@ =~= seq!['\\']);
}

} // verus!
