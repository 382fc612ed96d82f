//! Adding an entry to the `remoteFiles:` list of a configuration's text.

use vstd::prelude::*;
use crate::config::{
    key_local_dir, key_name, key_name_to_save_as, key_remote_dir, local_dir_key, name_key,
    name_to_save_as_key, remote_dir_key,
};
use crate::text::{
    chars_of, copy_range, lemma_rfind_char, rfind_char, rfind_char_exec, string_of, string_views,
};

verus! {

/// The start of an entry: a line break, `{`, a line break and the indent of
/// the first field.
pub open spec fn open_head() -> Seq<char> {
    seq!['\r', '\n', '{', '\r', '\n', ' ', ' ']
}

/// What separates two fields of an entry: `;`, a line break and an indent.
pub open spec fn field_sep() -> Seq<char> {
    seq![';', '\r', '\n', ' ', ' ']
}

/// The end of an entry: `;`, a line break and `}`.
pub open spec fn entry_close() -> Seq<char> {
    seq![';', '\r', '\n', '}']
}

/// One field of an entry: its key, a space and its value.
pub open spec fn field(key: Seq<char>, value: Seq<char>) -> Seq<char> {
    key + seq![' '] + value
}

/// An entry as it is written:
/// `\r\n{\r\n  remoteDir: R;\r\n  localDir: L;\r\n  name: N;\r\n  nameToSaveAs: S;\r\n}`.
pub open spec fn entry_body(
    remote_dir: Seq<char>,
    local_dir: Seq<char>,
    name: Seq<char>,
    save_as: Seq<char>,
) -> Seq<char> {
    open_head() + field(key_remote_dir(), remote_dir) + field_sep() + field(
        key_local_dir(),
        local_dir,
    ) + field_sep() + field(key_name(), name) + field_sep() + field(key_name_to_save_as(), save_as)
        + entry_close()
}

/// The text written after the last entry of a list: a comma, then the entry.
pub open spec fn entry_text(
    remote_dir: Seq<char>,
    local_dir: Seq<char>,
    name: Seq<char>,
    save_as: Seq<char>,
) -> Seq<char> {
    seq![','] + entry_body(remote_dir, local_dir, name, save_as)
}

/// The name to save as: the fifth field where there is one, and otherwise
/// the file's own name (the fourth).
pub open spec fn save_as_field(file: Seq<Seq<char>>) -> Seq<char> {
    if file.len() == 4 {
        file[3]
    } else {
        file[4]
    }
}

/// Where the entry goes: just after the last `}`.
pub open spec fn insertion_point(text: Seq<char>) -> int {
    rfind_char(text, '}')->0 + 1
}

/// The text with the entry that `file` describes (configuration name,
/// remote directory, local directory, name, and optionally the name to save
/// as) written after its last `}`.
pub open spec fn with_entry(text: Seq<char>, file: Seq<Seq<char>>) -> Seq<char> {
    let k = insertion_point(text);
    text.take(k) + entry_text(file[1], file[2], file[3], save_as_field(file)) + text.skip(k)
}

/// Appends the characters of `tail` to `out`.
fn push_all(out: &mut Vec<char>, tail: &[char])
    ensures
        final(out)@ == old(out)@ + tail@,
{
    let mut i: usize = 0;
    while i < tail.len()
        invariant
            i <= tail@.len(),
            out@ =~= old(out)@ + tail@.take(i as int),
        decreases tail@.len() - i,
    {
        out.push(tail[i]);
        i = i + 1;
    }
    assert(tail@.take(tail@.len() as int) =~= tail@);
}

/// Appends one field, `key value`, to `out`.
fn push_field(out: &mut Vec<char>, key: &[char], value: &str)
    ensures
        final(out)@ == old(out)@ + field(key@, value@),
{
    push_all(out, key);
    out.push(' ');
    let v = chars_of(value);
    push_all(out, &v);
    assert(out@ =~= old(out)@ + field(key@, value@));
}

/// The configuration text `b` with the entry that `file` describes added
/// after its last `}`.
pub fn add_entry_text(b: &String, file: &Vec<String>) -> (r: String)
    requires
        file@.len() >= 4,
        b@.contains('}'),
    ensures
        r@ == with_entry(b@, string_views(file@)),
{
    proof {
        lemma_rfind_char(b@, '}');
    }
    let ghost f = string_views(file@);
    let v = chars_of(b.as_str());
    let n = v.len();
    let last = rfind_char_exec(&v, '}').unwrap();
    assert(last < n);
    let k = last + 1;
    let mut out = copy_range(&v, 0, k);
    let tail = copy_range(&v, k, n);
    assert(out@ =~= b@.take(k as int));
    assert(tail@ =~= b@.skip(k as int));
    let save_as = if file.len() == 4 {
        file[3].as_str()
    } else {
        file[4].as_str()
    };
    assert(save_as@ == save_as_field(f));
    let ghost start = out@;
    out.push(',');
    push_all(&mut out, &['\r', '\n', '{', '\r', '\n', ' ', ' ']);
    push_field(&mut out, &remote_dir_key(), file[1].as_str());
    push_all(&mut out, &[';', '\r', '\n', ' ', ' ']);
    push_field(&mut out, &local_dir_key(), file[2].as_str());
    push_all(&mut out, &[';', '\r', '\n', ' ', ' ']);
    push_field(&mut out, &name_key(), file[3].as_str());
    push_all(&mut out, &[';', '\r', '\n', ' ', ' ']);
    push_field(&mut out, &name_to_save_as_key(), save_as);
    push_all(&mut out, &[';', '\r', '\n', '}']);
    push_all(&mut out, &tail);
    assert(out@ =~= with_entry(b@, f));
    string_of(&out)
}

} // verus!
