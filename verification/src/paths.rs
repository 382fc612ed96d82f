//! Paths as the downloader handles them: a path ending in `/` names a
//! directory; otherwise its directory is everything up to its last `/`.

use vstd::prelude::*;
use crate::text::{
    chars_of, copy_range, lemma_rfind_char, lemma_rfind_char_at, rfind_char, rfind_char_exec,
    string_of,
};

verus! {

/// A path that ends in `/` names a directory.
pub open spec fn is_dir_path(s: Seq<char>) -> bool {
    s.len() > 0 && s.last() == '/'
}

/// The directory part of a path: everything up to and including its last `/`.
pub open spec fn dir_part(s: Seq<char>) -> Seq<char> {
    s.take(rfind_char(s, '/')->0 + 1)
}

/// The file name of a path: the characters after its last `/`.
pub open spec fn file_name(s: Seq<char>) -> Seq<char> {
    s.skip(rfind_char(s, '/')->0 + 1)
}

/// Whether `loc` names a directory (ends in `/`).
pub fn is_dir(loc: &String) -> (r: bool)
    ensures
        r == is_dir_path(loc@),
{
    let v = chars_of(loc.as_str());
    v.len() > 0 && v[v.len() - 1] == '/'
}

/// The directory of `full_loc`: the path itself where it ends in `/`, and
/// otherwise the path up to and including its last `/`.
pub fn get_dir(full_loc: String) -> (r: String)
    requires
        full_loc@.contains('/'),
    ensures
        r@ == dir_part(full_loc@),
        is_dir_path(full_loc@) ==> r@ == full_loc@,
{
    proof {
        lemma_rfind_char(full_loc@, '/');
    }
    let v = chars_of(full_loc.as_str());
    let i = rfind_char_exec(&v, '/').unwrap();
    let n = v.len();
    assert(i < n);
    let dir = copy_range(&v, 0, i + 1);
    assert(dir@ =~= dir_part(full_loc@));
    proof {
        if is_dir_path(full_loc@) {
            assert(dir@ =~= full_loc@);
        }
    }
    string_of(&dir)
}

/// The file name of `full_loc`: what follows its last `/`.
pub fn get_filename(full_loc: &String) -> (r: String)
    requires
        full_loc@.contains('/'),
    ensures
        r@ == file_name(full_loc@),
{
    proof {
        lemma_rfind_char(full_loc@, '/');
    }
    let v = chars_of(full_loc.as_str());
    let slash = rfind_char_exec(&v, '/').unwrap();
    let n = v.len();
    assert(slash < n);
    let name = copy_range(&v, slash + 1, n);
    assert(name@ =~= file_name(full_loc@));
    string_of(&name)
}

/// A directory and a name in it, with one `/` between them where the
/// directory does not already end in one.
pub open spec fn joined(dir: Seq<char>, name: Seq<char>) -> Seq<char> {
    if is_dir_path(dir) {
        dir + name
    } else {
        dir + seq!['/'] + name
    }
}

/// The path of `name` in the directory `dir`.
pub fn join_path(dir: &String, name: &String) -> (r: String)
    ensures
        r@ == joined(dir@, name@),
        r@.contains('/'),
{
    let mut v = chars_of(dir.as_str());
    let n = chars_of(name.as_str());
    if !(v.len() > 0 && v[v.len() - 1] == '/') {
        v.push('/');
    }
    let mut tail = copy_range(&n, 0, n.len());
    assert(tail@ =~= name@);
    v.append(&mut tail);
    assert(v@ =~= joined(dir@, name@));
    proof {
        let at = if is_dir_path(dir@) { dir@.len() - 1 } else { dir@.len() as int };
        assert(v@[at] == '/');
    }
    string_of(&v)
}

/// A name without `/` joined to a directory is split back into that
/// directory (with its `/`) and that name.
pub proof fn lemma_join_split(dir: Seq<char>, name: Seq<char>)
    requires
        !name.contains('/'),
    ensures
        joined(dir, name).contains('/'),
        file_name(joined(dir, name)) == name,
        dir_part(joined(dir, name)) == (if is_dir_path(dir) { dir } else { dir.push('/') }),
{
    let d = if is_dir_path(dir) { dir } else { dir.push('/') };
    let p = joined(dir, name);
    assert(p =~= d + name);
    let at = d.len() - 1;
    assert(p[at] == '/');
    assert forall|j: int| at < j < p.len() implies p[j] != '/' by {
        assert(p[j] == name[j - at - 1]);
    }
    lemma_rfind_char_at(p, '/', at);
    lemma_rfind_char(p, '/');
    assert(p.skip(at + 1) =~= name);
    assert(p.take(at + 1) =~= d);
}

/// For a path with a `/`: its directory part names a directory, taking the
/// directory part again changes nothing, the file name holds no `/`, and the
/// directory part followed by the file name is the path itself.
pub proof fn lemma_path_split(s: Seq<char>)
    requires
        s.contains('/'),
    ensures
        is_dir_path(dir_part(s)),
        dir_part(dir_part(s)) == dir_part(s),
        !file_name(s).contains('/'),
        dir_part(s) + file_name(s) == s,
{
    lemma_rfind_char(s, '/');
    let i = rfind_char(s, '/')->0;
    let d = dir_part(s);
    assert(d.last() == '/');
    lemma_rfind_char(d, '/');
    assert(d.take(i + 1) =~= d);
    let tail = s.skip(i + 1);
    assert(d + tail =~= s);
    assert forall|j: int| 0 <= j < tail.len() implies tail[j] != '/' by {
        assert(tail[j] == s[i + 1 + j]);
    }
}

} // verus!
