//! What loading gives back after an entry has been added to a configuration.

use vstd::prelude::*;
use crate::config::{
    after_key, config_defined, config_spec, entry_of_piece, has_required_keys,
    host_value, key_host, key_password, key_remote_files, key_user, remote_body, remote_entries,
    remote_list, remote_list_defined, remote_pieces, remote_section, ConfigView,
    break_remotefile_defined, break_remotefile_spec, break_line_spec, entry_defined, entry_spec, is_remote_entry,
    key_local_dir, key_name, key_name_to_save_as, key_remote_dir, single, DownloadableView,
};
use crate::edit::{
    entry_body, entry_close, entry_text, field, field_sep, insertion_point, open_head, save_as_field,
    with_entry,
};
use crate::text::{
    contains, find, is_first_occurrence, lemma_find, lemma_find_in_common_prefix,
    lemma_no_first_char,
    lemma_no_occurrence_concat, lemma_occurrence_covers, lemma_rfind_char, lemma_rfind_char_at,
    lemma_split_concat, lemma_split_without_separator, lemma_trim_leading_space, occurs_at, trim,
};

verus! {

/// The characters that the fixed parts of an entry are made of hold none of
/// the keys' first letters, and the keys hold no space, `;` or `,`.
proof fn lemma_entry_characters()
    ensures
        !open_head().contains('r'),
        !open_head().contains('l'),
        !open_head().contains('n'),
        !field_sep().contains('l'),
        !field_sep().contains('n'),
        !open_head().contains(','),
        !field_sep().contains(','),
        !entry_close().contains(','),
        !key_remote_dir().contains(' '),
        !key_local_dir().contains(' '),
        !key_name().contains(' '),
        !key_name_to_save_as().contains(' '),
        !key_remote_dir().contains(';'),
        !key_local_dir().contains(';'),
        !key_name().contains(';'),
        !key_name_to_save_as().contains(';'),
        !key_remote_dir().contains(','),
        !key_local_dir().contains(','),
        !key_name().contains(','),
        !key_name_to_save_as().contains(','),
        !key_remote_dir().contains('l'),
        !key_remote_dir().contains('n'),
        !key_local_dir().contains('n'),
{
}

/// A field `key v` that follows text without `key`, and whose value ends at
/// the `;` that begins `rest`, is read back as `v` trimmed.
proof fn lemma_read_field(p: Seq<char>, key: Seq<char>, v: Seq<char>, rest: Seq<char>)
    requires
        key.len() > 0,
        !contains(p, key),
        p.len() == 0 || !key.contains(p.last()),
        !v.contains(';'),
        rest.len() > 0,
        rest[0] == ';',
    ensures
        contains(p + field(key, v) + rest, key),
        find(p + field(key, v) + rest, key) == Some(p.len() as int),
        break_line_spec(p + field(key, v) + rest, key) == Some(trim(v)),
{
    let s = p + field(key, v) + rest;
    let at = p.len() as int;
    assert(s.subrange(at, at + key.len()) =~= key);
    assert forall|j: int| 0 <= j < at implies !occurs_at(s, key, j) by {
        if occurs_at(s, key, j) {
            if j + key.len() <= at {
                assert(s.subrange(j, j + key.len()) =~= p.subrange(j, j + key.len()));
                assert(occurs_at(p, key, j));
            } else {
                lemma_occurrence_covers(s, key, j, at - 1);
                assert(s[at - 1] == p.last());
            }
        }
    }
    assert(is_first_occurrence(s, key, at));
    lemma_find(s, key);
    let a = after_key(s, key);
    assert(a =~= seq![' '] + v + rest);
    let semi = single(';');
    let q = (v.len() + 1) as int;
    assert(a.subrange(q, q + 1) =~= semi);
    assert forall|j: int| 0 <= j < q implies !occurs_at(a, semi, j) by {
        if occurs_at(a, semi, j) {
            lemma_occurrence_covers(a, semi, j, j);
            if j > 0 {
                assert(a[j] == v[j - 1]);
            }
        }
    }
    assert(is_first_occurrence(a, semi, q));
    lemma_find(a, semi);
    assert(a.take(q) =~= seq![' '] + v);
    lemma_trim_leading_space(v);
}

/// Text without `key`, followed by another field with a value without `key`
/// and by a separator, still holds no `key`, and ends with a space.
proof fn lemma_clear_after_field(x: Seq<char>, other: Seq<char>, v: Seq<char>, key: Seq<char>)
    requires
        key.len() > 0,
        !contains(x, key),
        x.len() > 0,
        !key.contains(x.last()),
        !contains(other, key),
        other.len() > 0,
        !key.contains(' '),
        !key.contains(';'),
        !field_sep().contains(key[0]),
        !contains(v, key),
    ensures
        !contains(x + field(other, v) + field_sep(), key),
        (x + field(other, v) + field_sep()).last() == ' ',
{
    let a1 = x + other;
    lemma_no_occurrence_concat(x, other, key);
    let sp = seq![' '];
    assert(!sp.contains(key[0])) by {
        if key[0] == ' ' {
            assert(key.contains(key[0]));
        }
    }
    lemma_no_first_char(sp, key);
    let a2 = a1 + sp;
    lemma_no_occurrence_concat(a1, sp, key);
    let a3 = a2 + v;
    assert(a2.last() == ' ');
    lemma_no_occurrence_concat(a2, v, key);
    lemma_no_first_char(field_sep(), key);
    let a4 = a3 + field_sep();
    assert(field_sep()[0] == ';');
    lemma_no_occurrence_concat(a3, field_sep(), key);
    assert(x + field(other, v) + field_sep() =~= a4);
}

/// A value that can be written into an entry and read back: it holds no `;`
/// and no `,`, and none of the entry's keys.
pub open spec fn plain_value(v: Seq<char>) -> bool {
    &&& !v.contains(';')
    &&& !v.contains(',')
    &&& !contains(v, key_remote_dir())
    &&& !contains(v, key_local_dir())
    &&& !contains(v, key_name())
    &&& !contains(v, key_name_to_save_as())
}

proof fn lemma_no_char_concat(x: Seq<char>, y: Seq<char>, c: char)
    requires
        !x.contains(c),
        !y.contains(c),
    ensures
        !(x + y).contains(c),
{
    assert forall|i: int| 0 <= i < (x + y).len() implies (x + y)[i] != c by {
        if i < x.len() {
            assert((x + y)[i] == x[i]);
        } else {
            assert((x + y)[i] == y[i - x.len()]);
        }
    }
}

/// None of the keys of an entry occurs in the entry's fixed text before it.
proof fn lemma_keys_apart()
    ensures
        !contains(open_head(), key_remote_dir()),
        !contains(open_head(), key_local_dir()),
        !contains(open_head(), key_name()),
        !contains(open_head(), key_name_to_save_as()),
        !contains(key_remote_dir(), key_local_dir()),
        !contains(key_remote_dir(), key_name()),
        !contains(key_remote_dir(), key_name_to_save_as()),
        !contains(key_local_dir(), key_name()),
        !contains(key_local_dir(), key_name_to_save_as()),
        !contains(key_name(), key_name_to_save_as()),
        open_head().last() == ' ',
        field_sep()[0] == ';',
        entry_close()[0] == ';',
{
    lemma_entry_characters();
    let k1 = key_remote_dir();
    let k2 = key_local_dir();
    let k3 = key_name();
    let k4 = key_name_to_save_as();
    assert(k1[0] == 'r' && k2[0] == 'l' && k3[0] == 'n' && k4[0] == 'n');
    lemma_no_first_char(open_head(), k1);
    lemma_no_first_char(open_head(), k2);
    lemma_no_first_char(open_head(), k3);
    lemma_no_first_char(open_head(), k4);
    lemma_no_first_char(k1, k2);
    lemma_no_first_char(k1, k3);
    lemma_no_first_char(k1, k4);
    lemma_no_first_char(k2, k3);
    lemma_no_first_char(k2, k4);
    assert forall|j: int| !occurs_at(k3, k4, j) by {}
}

/// The text of an entry before its local directory field.
spec fn before_local(r: Seq<char>) -> Seq<char> {
    open_head() + field(key_remote_dir(), r) + field_sep()
}

/// The text of an entry before its name field.
spec fn before_name(r: Seq<char>, l: Seq<char>) -> Seq<char> {
    before_local(r) + field(key_local_dir(), l) + field_sep()
}

/// The text of an entry before its save-as field.
spec fn before_save_as(r: Seq<char>, l: Seq<char>, n: Seq<char>) -> Seq<char> {
    before_name(r, l) + field(key_name(), n) + field_sep()
}

/// The text before each field of an entry holds none of the keys that follow.
proof fn lemma_prefixes_clear(r: Seq<char>, l: Seq<char>, n: Seq<char>)
    requires
        plain_value(r),
        plain_value(l),
        plain_value(n),
    ensures
        !contains(before_local(r), key_local_dir()),
        !contains(before_name(r, l), key_name()),
        !contains(before_save_as(r, l, n), key_name_to_save_as()),
        before_local(r).last() == ' ',
        before_name(r, l).last() == ' ',
        before_save_as(r, l, n).last() == ' ',
{
    lemma_entry_characters();
    lemma_keys_apart();
    let k1 = key_remote_dir();
    let k2 = key_local_dir();
    let k3 = key_name();
    let k4 = key_name_to_save_as();
    assert(k2[0] == 'l' && k3[0] == 'n' && k4[0] == 'n');
    lemma_clear_after_field(open_head(), k1, r, k2);
    lemma_clear_after_field(open_head(), k1, r, k3);
    lemma_clear_after_field(open_head(), k1, r, k4);
    lemma_clear_after_field(before_local(r), k2, l, k3);
    lemma_clear_after_field(before_local(r), k2, l, k4);
    lemma_clear_after_field(before_name(r, l), k3, n, k4);
}

proof fn lemma_entry_remote_dir(r: Seq<char>, l: Seq<char>, n: Seq<char>, sa: Seq<char>)
    requires
        plain_value(r),
    ensures
        contains(entry_body(r, l, n, sa), key_remote_dir()),
        break_line_spec(entry_body(r, l, n, sa), key_remote_dir()) == Some(trim(r)),
{
    lemma_entry_characters();
    lemma_keys_apart();
    let sep = field_sep();
    let rest = sep + field(key_local_dir(), l) + sep + field(key_name(), n) + sep + field(
        key_name_to_save_as(),
        sa,
    ) + entry_close();
    assert(entry_body(r, l, n, sa) =~= open_head() + field(key_remote_dir(), r) + rest);
    lemma_read_field(open_head(), key_remote_dir(), r, rest);
}

proof fn lemma_entry_local_dir(r: Seq<char>, l: Seq<char>, n: Seq<char>, sa: Seq<char>)
    requires
        plain_value(r),
        plain_value(l),
    ensures
        contains(entry_body(r, l, n, sa), key_local_dir()),
        break_line_spec(entry_body(r, l, n, sa), key_local_dir()) == Some(trim(l)),
{
    lemma_entry_characters();
    lemma_prefixes_clear(r, l, l);
    let sep = field_sep();
    let rest = sep + field(key_name(), n) + sep + field(key_name_to_save_as(), sa) + entry_close();
    assert(entry_body(r, l, n, sa) =~= before_local(r) + field(key_local_dir(), l) + rest);
    lemma_read_field(before_local(r), key_local_dir(), l, rest);
}

proof fn lemma_entry_name(r: Seq<char>, l: Seq<char>, n: Seq<char>, sa: Seq<char>)
    requires
        plain_value(r),
        plain_value(l),
        plain_value(n),
    ensures
        contains(entry_body(r, l, n, sa), key_name()),
        break_line_spec(entry_body(r, l, n, sa), key_name()) == Some(trim(n)),
{
    lemma_entry_characters();
    lemma_prefixes_clear(r, l, n);
    let rest = field_sep() + field(key_name_to_save_as(), sa) + entry_close();
    assert(entry_body(r, l, n, sa) =~= before_name(r, l) + field(key_name(), n) + rest);
    lemma_read_field(before_name(r, l), key_name(), n, rest);
}

proof fn lemma_entry_save_as(r: Seq<char>, l: Seq<char>, n: Seq<char>, sa: Seq<char>)
    requires
        plain_value(r),
        plain_value(l),
        plain_value(n),
        plain_value(sa),
    ensures
        break_line_spec(entry_body(r, l, n, sa), key_name_to_save_as()) == Some(trim(sa)),
{
    lemma_entry_characters();
    lemma_prefixes_clear(r, l, n);
    assert(entry_body(r, l, n, sa) =~= before_save_as(r, l, n) + field(key_name_to_save_as(), sa)
        + entry_close());
    lemma_read_field(before_save_as(r, l, n), key_name_to_save_as(), sa, entry_close());
}

/// An entry written from plain values is read back as an entry whose fields
/// are those values, trimmed.
pub proof fn lemma_entry_body_reads(r: Seq<char>, l: Seq<char>, n: Seq<char>, sa: Seq<char>)
    requires
        plain_value(r),
        plain_value(l),
        plain_value(n),
        plain_value(sa),
    ensures
        is_remote_entry(entry_body(r, l, n, sa)),
        entry_defined(entry_body(r, l, n, sa)),
        entry_spec(entry_body(r, l, n, sa)) == (DownloadableView {
            client_dir: trim(l),
            server_dir: trim(r),
            filename: trim(n),
            clientfile_namescheme: trim(sa),
        }),
{
    lemma_entry_remote_dir(r, l, n, sa);
    lemma_entry_local_dir(r, l, n, sa);
    lemma_entry_name(r, l, n, sa);
    lemma_entry_save_as(r, l, n, sa);
}

/// An entry written from plain values holds no comma.
pub proof fn lemma_entry_body_no_comma(r: Seq<char>, l: Seq<char>, n: Seq<char>, sa: Seq<char>)
    requires
        plain_value(r),
        plain_value(l),
        plain_value(n),
        plain_value(sa),
    ensures
        !entry_body(r, l, n, sa).contains(','),
{
    lemma_entry_characters();
    let sp = seq![' '];
    assert forall|k: Seq<char>, v: Seq<char>|
        !k.contains(',') && plain_value(v) implies !#[trigger] field(k, v).contains(',') by {
        lemma_no_char_concat(k, sp, ',');
        lemma_no_char_concat(k + sp, v, ',');
    }
    let p1 = open_head();
    let sep = field_sep();
    let f1 = field(key_remote_dir(), r);
    let f2 = field(key_local_dir(), l);
    let f3 = field(key_name(), n);
    let f4 = field(key_name_to_save_as(), sa);
    lemma_no_char_concat(p1, f1, ',');
    lemma_no_char_concat(p1 + f1, sep, ',');
    lemma_no_char_concat(p1 + f1 + sep, f2, ',');
    lemma_no_char_concat(p1 + f1 + sep + f2, sep, ',');
    lemma_no_char_concat(p1 + f1 + sep + f2 + sep, f3, ',');
    lemma_no_char_concat(p1 + f1 + sep + f2 + sep + f3, sep, ',');
    lemma_no_char_concat(p1 + f1 + sep + f2 + sep + f3 + sep, f4, ',');
    lemma_no_char_concat(p1 + f1 + sep + f2 + sep + f3 + sep + f4, entry_close(), ',');
}

/// The field `key` occurs, and the `;` that ends its value comes before
/// position `k`.
pub open spec fn field_ends_before(s: Seq<char>, key: Seq<char>, k: int) -> bool {
    &&& contains(s, key)
    &&& contains(after_key(s, key), single(';'))
    &&& find(s, key)->0 + key.len() + find(after_key(s, key), single(';'))->0 < k
}

/// A field that ends before position `k` reads the same in any text that
/// agrees with this one on its first `k` characters.
proof fn lemma_field_kept(s: Seq<char>, s2: Seq<char>, key: Seq<char>, k: int)
    requires
        0 <= k <= s.len(),
        k <= s2.len(),
        s.take(k) == s2.take(k),
        field_ends_before(s, key, k),
    ensures
        contains(s2, key),
        break_line_spec(s2, key) == break_line_spec(s, key),
{
    let semi = single(';');
    lemma_find(s, key);
    lemma_find(after_key(s, key), semi);
    let i = find(s, key)->0;
    let q = find(after_key(s, key), semi)->0;
    assert(occurs_at(s, key, i));
    assert(occurs_at(after_key(s, key), semi, q));
    lemma_find_in_common_prefix(s, s2, key, k);
    let a = after_key(s, key);
    let a2 = after_key(s2, key);
    let m = k - (i + key.len());
    assert(a.take(m) =~= s.take(k).skip(i + key.len()));
    assert(a2.take(m) =~= s2.take(k).skip(i + key.len()));
    lemma_find_in_common_prefix(a, a2, semi, m);
    assert(a.take(q) =~= a2.take(q));
}

/// The list is closed the way the format writes it: its last `}` is followed
/// by one ASCII character (the `]` that closes the list) and then by the
/// text's last `;`.
pub open spec fn list_closes_after_last_entry(s: Seq<char>) -> bool {
    let t = s.skip(insertion_point(s));
    &&& s.contains('}')
    &&& t.len() >= 2
    &&& t[0] <= '\u{7f}'
    &&& t[1] == ';'
    &&& !t.skip(2).contains(';')
}

/// `remoteFiles:` occurs, and ends before position `k`.
pub open spec fn section_starts_before(s: Seq<char>, k: int) -> bool {
    contains(s, key_remote_files()) && find(s, key_remote_files())->0 + key_remote_files().len()
        <= k
}

/// Written after the last entry of a closed list, a text that starts with a
/// comma becomes part of the list: the list of the new text is the old list
/// followed by it.
proof fn lemma_remote_list_extended(s: Seq<char>, ent: Seq<char>)
    requires
        remote_list_defined(s),
        list_closes_after_last_entry(s),
        section_starts_before(s, insertion_point(s)),
    ensures
        remote_list_defined(s.take(insertion_point(s)) + ent + s.skip(insertion_point(s))),
        remote_list(s.take(insertion_point(s)) + ent + s.skip(insertion_point(s))) == remote_list(s)
            + ent,
{
    lemma_rfind_char(s, '}');
    let k = insertion_point(s);
    let a = s.take(k);
    let tl = s.skip(k);
    let s2 = a + ent + tl;
    let kr = key_remote_files();
    assert(s.take(k) =~= s2.take(k));
    lemma_find(s, kr);
    assert(occurs_at(s, kr, find(s, kr)->0));
    lemma_find_in_common_prefix(s, s2, kr, k);
    let r = find(s, kr)->0 + kr.len();
    let b = s.subrange(r, k);
    let sec = remote_section(s);
    let sec2 = remote_section(s2);
    assert(sec =~= b + tl);
    assert(sec2 =~= b + ent + tl);
    let last = (b.len() + 1) as int;
    assert forall|j: int| last < j < sec.len() implies sec[j] != ';' by {
        assert(sec[j] == tl.skip(2)[j - b.len() - 2]);
    }
    lemma_rfind_char_at(sec, ';', last);
    let last2 = (b.len() + ent.len() + 1) as int;
    assert forall|j: int| last2 < j < sec2.len() implies sec2[j] != ';' by {
        assert(sec2[j] == tl.skip(2)[j - b.len() - ent.len() - 2]);
    }
    lemma_rfind_char_at(sec2, ';', last2);
    assert(remote_body(s) =~= b);
    assert(remote_body(s2) =~= b + ent);
    assert(sec2[last2 - 1] == tl[0]);
    let open = single('[');
    lemma_find(b, open);
    assert(occurs_at(b, open, find(b, open)->0));
    assert(b.take(b.len() as int) =~= (b + ent).take(b.len() as int));
    lemma_find_in_common_prefix(b, b + ent, open, b.len() as int);
    let c = find(b, open)->0;
    assert((b + ent).skip(c + 1) =~= b.skip(c + 1) + ent);
}

/// The server's fields and `remoteFiles:` all come before the last entry of
/// the list ends.
pub open spec fn header_before_last_entry(s: Seq<char>) -> bool {
    let k = insertion_point(s);
    &&& field_ends_before(s, key_host(), k)
    &&& field_ends_before(s, key_user(), k)
    &&& field_ends_before(s, key_password(), k)
    &&& section_starts_before(s, k)
}

/// The entry that `file` describes, as it is read back: its values trimmed.
pub open spec fn added_entry(file: Seq<Seq<char>>) -> DownloadableView {
    DownloadableView {
        client_dir: trim(file[2]),
        server_dir: trim(file[1]),
        filename: trim(file[3]),
        clientfile_namescheme: trim(save_as_field(file)),
    }
}

/// Adding an entry to a `remoteFiles:` list that is closed after its last
/// entry, then reading the list, gives the old entries followed by the new
/// one. This holds for a list that can be read, where `remoteFiles:` comes
/// before the last entry, and for plain values (no `;`, no `,`, none of the
/// entry's keys).
pub proof fn lemma_added_entry_extends_list(s: Seq<char>, file: Seq<Seq<char>>)
    requires
        break_remotefile_defined(s),
        list_closes_after_last_entry(s),
        section_starts_before(s, insertion_point(s)),
        file.len() >= 4,
        plain_value(file[1]),
        plain_value(file[2]),
        plain_value(file[3]),
        plain_value(save_as_field(file)),
    ensures
        break_remotefile_defined(with_entry(s, file)),
        remote_entries(with_entry(s, file)) == remote_entries(s).push(added_entry(file)),
        break_remotefile_spec(with_entry(s, file)) == Some(
            remote_entries(s).push(added_entry(file)),
        ),
{
    lemma_rfind_char(s, '}');
    let k = insertion_point(s);
    let e = entry_body(file[1], file[2], file[3], save_as_field(file));
    let ent = entry_text(file[1], file[2], file[3], save_as_field(file));
    let s2 = with_entry(s, file);
    assert(s2 == s.take(k) + ent + s.skip(k));
    lemma_remote_list_extended(s, ent);
    lemma_entry_body_reads(file[1], file[2], file[3], save_as_field(file));
    lemma_entry_body_no_comma(file[1], file[2], file[3], save_as_field(file));
    let list = remote_list(s);
    assert(remote_list(s2) =~= list + seq![','] + e);
    lemma_split_concat(list, e, ',');
    lemma_split_without_separator(e, ',');
    let ps = remote_pieces(s);
    let ps2 = remote_pieces(s2);
    assert(ps2 =~= ps.push(e));
    let entry = entry_spec(e);
    assert(entry == added_entry(file));
    assert(ps.push(e).drop_last() =~= ps);
    assert(entry_of_piece(e) == Some(entry));
    assert(remote_entries(s2) =~= remote_entries(s).push(entry));
    assert forall|j: int|
        0 <= j < ps2.len() && is_remote_entry(#[trigger] ps2[j]) implies entry_defined(ps2[j]) by {
        if j < ps.len() {
            assert(ps2[j] == ps[j]);
        }
    }
}

/// Adding an entry to a configuration, then loading it, gives the
/// configuration as it was, with the new entry (its values trimmed) at the
/// end of its list. This holds for a configuration that loads, whose list is
/// closed after its last entry and comes after the server's fields, and for
/// plain values (no `;`, no `,`, none of the entry's keys).
pub proof fn lemma_added_entry_is_loaded(s: Seq<char>, file: Seq<Seq<char>>)
    requires
        has_required_keys(s),
        config_defined(s),
        list_closes_after_last_entry(s),
        header_before_last_entry(s),
        file.len() >= 4,
        plain_value(file[1]),
        plain_value(file[2]),
        plain_value(file[3]),
        plain_value(save_as_field(file)),
    ensures
        has_required_keys(with_entry(s, file)),
        config_defined(with_entry(s, file)),
        config_spec(with_entry(s, file)) == (ConfigView {
            host: config_spec(s).host,
            port: config_spec(s).port,
            user: config_spec(s).user,
            pass: config_spec(s).pass,
            remote_downloadable: config_spec(s).remote_downloadable.push(added_entry(file)),
        }),
{
    lemma_rfind_char(s, '}');
    let k = insertion_point(s);
    let ent = entry_text(file[1], file[2], file[3], save_as_field(file));
    let s2 = with_entry(s, file);
    assert(s2 == s.take(k) + ent + s.skip(k));
    assert(s.take(k) =~= s2.take(k));
    lemma_field_kept(s, s2, key_host(), k);
    lemma_field_kept(s, s2, key_user(), k);
    lemma_field_kept(s, s2, key_password(), k);
    assert(host_value(s2) == host_value(s));
    lemma_added_entry_extends_list(s, file);
}

/// `remoteFiles:` cannot begin in text that lacks it and end inside a
/// `remoteFiles:` that follows.
proof fn lemma_no_earlier_section(p: Seq<char>, s: Seq<char>)
    requires
        !contains(p, key_remote_files()),
        s.len() >= key_remote_files().len(),
        s.take(key_remote_files().len() as int) == key_remote_files(),
    ensures
        find(p + s, key_remote_files()) == Some(p.len() as int),
{
    let kr = key_remote_files();
    let t = p + s;
    let at = p.len() as int;
    assert(t.subrange(at, at + kr.len()) =~= s.take(kr.len() as int));
    assert forall|j: int| 0 <= j < at implies !occurs_at(t, kr, j) by {
        if occurs_at(t, kr, j) {
            if j + kr.len() <= at {
                assert(t.subrange(j, j + kr.len()) =~= p.subrange(j, j + kr.len()));
                assert(occurs_at(p, kr, j));
            } else {
                let q = j + kr.len() - 1;
                lemma_occurrence_covers(t, kr, j, q);
                assert(t[q] == s[q - at]);
                assert(s[q - at] == s.take(kr.len() as int)[q - at]);
                assert(kr[q - at] != ':');
            }
        }
    }
    assert(is_first_occurrence(t, kr, at));
    lemma_find(t, kr);
}

/// Text before `remoteFiles:` that does not itself hold `remoteFiles:`
/// (such as the server's fields) does not change what the list reads.
pub proof fn lemma_text_before_list(p: Seq<char>, s: Seq<char>)
    requires
        !contains(p, key_remote_files()),
        s.len() >= key_remote_files().len(),
        s.take(key_remote_files().len() as int) == key_remote_files(),
    ensures
        break_remotefile_defined(p + s) == break_remotefile_defined(s),
        break_remotefile_spec(p + s) == break_remotefile_spec(s),
{
    let kr = key_remote_files();
    lemma_no_earlier_section(p, s);
    lemma_no_earlier_section(Seq::<char>::empty(), s);
    assert(Seq::<char>::empty() + s =~= s);
    assert(contains(p + s, kr));
    assert(contains(s, kr));
    assert(remote_section(p + s) =~= remote_section(s));
}

} // verus!
