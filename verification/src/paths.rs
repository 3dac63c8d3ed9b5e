//! Paths as texts: a directory and a name joined by a slash, and the parts
//! of the last component.

use vstd::prelude::*;
use crate::text::to_chars;

verus! {

/// The path of the entry `name` of the directory `dir`.
pub open spec fn joined(dir: Seq<char>, name: Seq<char>) -> Seq<char> {
    dir + seq!['/'] + name
}

/// The position of the last `c` in `s`, or -1 where `s` holds none.
pub open spec fn last_index_of(s: Seq<char>, c: char) -> int
    decreases s.len(),
{
    if s.len() == 0 {
        -1
    } else if s.last() == c {
        s.len() - 1
    } else {
        last_index_of(s.drop_last(), c)
    }
}

/// The last component of a path: what follows its last slash.
pub open spec fn file_name(path: Seq<char>) -> Seq<char> {
    path.skip(last_index_of(path, '/') + 1)
}

/// The component `..`, which names the directory above and no file.
pub open spec fn parent_mark() -> Seq<char> {
    seq!['.', '.']
}

/// Whether a file name splits into a stem and an extension: it holds a dot
/// that is not its first character, and it is not the component `..`.
pub open spec fn splits_at_dot(name: Seq<char>) -> bool {
    last_index_of(name, '.') > 0 && name != parent_mark()
}

/// The file name of a path up to its last dot; the whole file name where it
/// does not split; nothing where the path ends in `..`.
pub open spec fn file_stem(path: Seq<char>) -> Seq<char> {
    let name = file_name(path);
    if name == parent_mark() {
        Seq::empty()
    } else if splits_at_dot(name) {
        name.take(last_index_of(name, '.'))
    } else {
        name
    }
}

/// What follows the last dot of the file name of a path, where it splits.
pub open spec fn extension(path: Seq<char>) -> Option<Seq<char>> {
    let name = file_name(path);
    if splits_at_dot(name) {
        Some(name.skip(last_index_of(name, '.') + 1))
    } else {
        None
    }
}

/// The extension of application bundles.
pub open spec fn bundle_extension() -> Seq<char> {
    seq!['a', 'p', 'p']
}

/// A path names an application bundle where its extension is exactly `app`.
pub open spec fn is_bundle_path(path: Seq<char>) -> bool {
    extension(path) == Some(bundle_extension())
}

/// The path of the entry `name` of the directory `dir`.
pub fn join(dir: &str, name: &str) -> (r: String)
    ensures
        r@ == joined(dir@, name@),
{
    let mut out = String::from_str(dir);
    proof {
        reveal_strlit("/");
    }
    out.append("/");
    out.append(name);
    assert("/"@ =~= seq!['/']);
    out
}

/// The position of the last `c` at or after `start`, counted from `start`.
fn find_last_from(s: &Vec<char>, c: char, start: usize) -> (r: Option<usize>)
    requires
        start <= s.len(),
    ensures
        match r {
            Some(i) => start <= i < s.len() && last_index_of(s@.skip(start as int), c) == i - start,
            None => last_index_of(s@.skip(start as int), c) == -1,
        },
{
    let ghost tail = s@.skip(start as int);
    let mut i: usize = s.len();
    assert(tail.take(i - start) =~= tail);
    while i > start
        invariant
            start <= i <= s.len(),
            tail == s@.skip(start as int),
            last_index_of(tail, c) == last_index_of(tail.take(i - start), c),
        decreases i,
    {
        if s[i - 1] == c {
            return Some(i - 1);
        }
        assert(tail.take(i - start).drop_last() =~= tail.take(i - 1 - start));
        i -= 1;
    }
    None
}

/// Where the stem of a path begins and ends, and whether an extension
/// follows it.
fn stem_bounds(chars: &Vec<char>) -> (r: (usize, usize, bool))
    ensures
        r.0 <= r.1 <= chars.len(),
        r.0 == last_index_of(chars@, '/') + 1,
        r.2 == splits_at_dot(file_name(chars@)),
        r.2 ==> r.1 < chars.len() && r.1 - r.0 == last_index_of(file_name(chars@), '.'),
        chars@.subrange(r.0 as int, r.1 as int) == file_stem(chars@),
{
    assert(chars@.skip(0) =~= chars@);
    let start: usize = match find_last_from(chars, '/', 0) {
        Some(i) => i + 1,
        None => 0,
    };
    let n: usize = chars.len();
    let ghost name = file_name(chars@);
    let two_dots = n - start == 2 && chars[start] == '.' && chars[start + 1] == '.';
    assert(two_dots == (name == parent_mark())) by {
        if two_dots {
            assert(name =~= parent_mark());
        }
        if name == parent_mark() {
            assert(name.len() == 2);
            assert(name[0] == '.' && name[1] == '.');
        }
    }
    if two_dots {
        assert(chars@.subrange(start as int, start as int) =~= Seq::empty());
        return (start, start, false);
    }
    let end: usize = match find_last_from(chars, '.', start) {
        Some(d) => if d > start {
            d
        } else {
            n
        },
        None => n,
    };
    assert(chars@.subrange(start as int, end as int) =~= name.take(end - start));
    assert(name.take(name.len() as int) =~= name);
    (start, end, end < n)
}

/// The file name of a path up to its last dot; the whole file name where it
/// does not split into a stem and an extension.
pub fn stem_of(path: &str) -> (r: String)
    ensures
        r@ == file_stem(path@),
{
    let chars = to_chars(path);
    let (start, end, _) = stem_bounds(&chars);
    String::from_str(path.substring_char(start, end))
}

/// Whether the extension of a path is exactly `app`.
pub fn has_bundle_extension(path: &str) -> (r: bool)
    ensures
        r == is_bundle_path(path@),
{
    let chars = to_chars(path);
    let (start, end, splits) = stem_bounds(&chars);
    if !splits {
        return false;
    }
    let n: usize = chars.len();
    let ghost name = file_name(path@);
    let ghost ext = name.skip(end - start + 1);
    assert(ext =~= path@.subrange(end + 1, n as int));
    let r = n - end == 4 && chars[end + 1] == 'a' && chars[end + 2] == 'p' && chars[end + 3] == 'p';
    assert(r == (ext == bundle_extension())) by {
        if r {
            assert(ext =~= bundle_extension());
        }
        if ext == bundle_extension() {
            assert(ext.len() == 3);
            assert(ext[0] == 'a' && ext[1] == 'p' && ext[2] == 'p');
        }
    }
    r
}

} // verus!
