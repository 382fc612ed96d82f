//! The configuration format: `key: value;` lines for the server and the
//! credentials, and a `remoteFiles:` list of `{ ... }` entries separated by
//! commas, each naming a remote directory, a local directory, a file name and
//! optionally the name to save the file as.

use vstd::prelude::*;
use crate::text::{
    chars_of, contains, contains_exec, copy_range, find, find_exec, is_first_occurrence,
    is_whitespace, lemma_find,
    lemma_rfind_char, lemma_trim_edges, occurs_at, parse_u16, parse_u16_exec, rfind_char,
    rfind_char_exec, split, split_exec, string_of, trim, trim_exec, views,
};

verus! {

/// `host:`
pub open spec fn key_host() -> Seq<char> {
    seq!['h', 'o', 's', 't', ':']
}

/// `user:`
pub open spec fn key_user() -> Seq<char> {
    seq!['u', 's', 'e', 'r', ':']
}

/// `password:`
pub open spec fn key_password() -> Seq<char> {
    seq!['p', 'a', 's', 's', 'w', 'o', 'r', 'd', ':']
}

/// `password`, the word whose absence the report of missing fields names.
pub open spec fn word_password() -> Seq<char> {
    seq!['p', 'a', 's', 's', 'w', 'o', 'r', 'd']
}

/// `remoteFiles:`
pub open spec fn key_remote_files() -> Seq<char> {
    seq!['r', 'e', 'm', 'o', 't', 'e', 'F', 'i', 'l', 'e', 's', ':']
}

/// `remoteDir:`
pub open spec fn key_remote_dir() -> Seq<char> {
    seq!['r', 'e', 'm', 'o', 't', 'e', 'D', 'i', 'r', ':']
}

/// `localDir:`
pub open spec fn key_local_dir() -> Seq<char> {
    seq!['l', 'o', 'c', 'a', 'l', 'D', 'i', 'r', ':']
}

/// `name:`
pub open spec fn key_name() -> Seq<char> {
    seq!['n', 'a', 'm', 'e', ':']
}

/// `nameToSaveAs:`
pub open spec fn key_name_to_save_as() -> Seq<char> {
    seq!['n', 'a', 'm', 'e', 'T', 'o', 'S', 'a', 'v', 'e', 'A', 's', ':']
}

/// The characters of `host:`.
pub(crate) fn host_key() -> (r: Vec<char>)
    ensures
        r@ == key_host(),
{
    vec!['h', 'o', 's', 't', ':']
}

/// The characters of `user:`.
pub(crate) fn user_key() -> (r: Vec<char>)
    ensures
        r@ == key_user(),
{
    vec!['u', 's', 'e', 'r', ':']
}

/// The characters of `password:`.
pub(crate) fn password_key() -> (r: Vec<char>)
    ensures
        r@ == key_password(),
{
    vec!['p', 'a', 's', 's', 'w', 'o', 'r', 'd', ':']
}

/// The characters of `password`.
pub(crate) fn password_word() -> (r: Vec<char>)
    ensures
        r@ == word_password(),
{
    vec!['p', 'a', 's', 's', 'w', 'o', 'r', 'd']
}

/// The characters of `remoteFiles:`.
pub(crate) fn remote_files_key() -> (r: Vec<char>)
    ensures
        r@ == key_remote_files(),
{
    vec!['r', 'e', 'm', 'o', 't', 'e', 'F', 'i', 'l', 'e', 's', ':']
}

/// The characters of `remoteDir:`.
pub(crate) fn remote_dir_key() -> (r: Vec<char>)
    ensures
        r@ == key_remote_dir(),
{
    vec!['r', 'e', 'm', 'o', 't', 'e', 'D', 'i', 'r', ':']
}

/// The characters of `localDir:`.
pub(crate) fn local_dir_key() -> (r: Vec<char>)
    ensures
        r@ == key_local_dir(),
{
    vec!['l', 'o', 'c', 'a', 'l', 'D', 'i', 'r', ':']
}

/// The characters of `name:`.
pub(crate) fn name_key() -> (r: Vec<char>)
    ensures
        r@ == key_name(),
{
    vec!['n', 'a', 'm', 'e', ':']
}

/// The characters of `nameToSaveAs:`.
pub(crate) fn name_to_save_as_key() -> (r: Vec<char>)
    ensures
        r@ == key_name_to_save_as(),
{
    vec!['n', 'a', 'm', 'e', 'T', 'o', 'S', 'a', 'v', 'e', 'A', 's', ':']
}

/// A one-character pattern.
pub open spec fn single(c: char) -> Seq<char> {
    seq![c]
}

/// What follows the first occurrence of `key` in `input`.
pub open spec fn after_key(input: Seq<char>, key: Seq<char>) -> Seq<char> {
    input.skip(find(input, key)->0 + key.len())
}

/// The value of `key`: what lies between its first occurrence and the next
/// `;`, without surrounding white space; nothing when `key` does not occur or
/// no `;` follows it (there is no value to get).
pub open spec fn break_line_spec(input: Seq<char>, key: Seq<char>) -> Option<Seq<char>> {
    let rest = after_key(input, key);
    if contains(input, key) && contains(rest, single(';')) {
        Some(trim(rest.take(find(rest, single(';'))->0)))
    } else {
        None
    }
}

/// The view of an optional character vector.
pub open spec fn opt_chars(o: Option<Vec<char>>) -> Option<Seq<char>> {
    match o {
        Some(v) => Some(v@),
        None => None,
    }
}

/// The view of an optional string.
pub open spec fn opt_string(o: Option<String>) -> Option<Seq<char>> {
    match o {
        Some(v) => Some(v@),
        None => None,
    }
}

/// The value of `key` in `input`.
fn break_line_chars(input: &[char], key: &[char]) -> (r: Option<Vec<char>>)
    ensures
        opt_chars(r) == break_line_spec(input@, key@),
{
    proof {
        lemma_find(input@, key@);
    }
    match find_exec(input, key) {
        None => None,
        Some(i) => {
            assert(occurs_at(input@, key@, i as int));
            let klen = key.len();
            let ilen = input.len();
            assert(i + klen <= ilen);
            let rest = copy_range(input, i + klen, ilen);
            assert(rest@ =~= after_key(input@, key@));
            let semi = vec![';'];
            assert(semi@ =~= single(';'));
            proof {
                lemma_find(rest@, semi@);
            }
            match find_exec(&rest, &semi) {
                None => None,
                Some(j) => {
                    let value = copy_range(&rest, 0, j);
                    assert(value@ =~= rest@.take(j as int));
                    Some(trim_exec(&value))
                },
            }
        },
    }
}

/// One file to fetch, as one entry of the `remoteFiles:` list gives it.
#[derive(Debug)]
pub struct Downloadable {
    /// `localDir:`, where the file is saved.
    pub client_dir: String,
    /// `remoteDir:`, where the file is on the server.
    pub server_dir: String,
    /// `name:`, the file's name on the server.
    pub filename: String,
    /// `nameToSaveAs:`, the local name; the server's name where it is absent.
    pub clientfile_namescheme: String,
}

/// The mathematical value of a `Downloadable`.
pub struct DownloadableView {
    pub client_dir: Seq<char>,
    pub server_dir: Seq<char>,
    pub filename: Seq<char>,
    pub clientfile_namescheme: Seq<char>,
}

impl View for Downloadable {
    type V = DownloadableView;

    open spec fn view(&self) -> DownloadableView {
        DownloadableView {
            client_dir: self.client_dir@,
            server_dir: self.server_dir@,
            filename: self.filename@,
            clientfile_namescheme: self.clientfile_namescheme@,
        }
    }
}

/// The views of a sequence of entries.
pub open spec fn entries_view(v: Seq<Downloadable>) -> Seq<DownloadableView> {
    v.map_values(|d: Downloadable| d@)
}

/// A piece of the list is an entry when it names a remote directory, a local
/// directory and a file name.
pub open spec fn is_remote_entry(p: Seq<char>) -> bool {
    &&& contains(p, key_remote_dir())
    &&& contains(p, key_local_dir())
    &&& contains(p, key_name())
}

/// Every value that an entry must have has a value to get: a `;` follows
/// its local directory, its remote directory and its name. (A save-as name
/// without one falls back to the name.)
pub open spec fn entry_defined(p: Seq<char>) -> bool {
    &&& break_line_spec(p, key_local_dir()) is Some
    &&& break_line_spec(p, key_remote_dir()) is Some
    &&& break_line_spec(p, key_name()) is Some
}

/// The entry that a piece of the list describes.
pub open spec fn entry_spec(p: Seq<char>) -> DownloadableView {
    DownloadableView {
        client_dir: break_line_spec(p, key_local_dir())->0,
        server_dir: break_line_spec(p, key_remote_dir())->0,
        filename: break_line_spec(p, key_name())->0,
        clientfile_namescheme: match break_line_spec(p, key_name_to_save_as()) {
            Some(n) => n,
            None => break_line_spec(p, key_name())->0,
        },
    }
}

/// A piece of the list read as an entry, or nothing when it is not one.
pub open spec fn entry_of_piece(p: Seq<char>) -> Option<DownloadableView> {
    if is_remote_entry(p) {
        Some(entry_spec(p))
    } else {
        None
    }
}

/// The entries among the pieces of the list, in order.
pub open spec fn entries_of(pieces: Seq<Seq<char>>) -> Seq<DownloadableView> {
    pieces.filter_map(|p: Seq<char>| entry_of_piece(p))
}

/// What follows `remoteFiles:`.
pub open spec fn remote_section(s: Seq<char>) -> Seq<char> {
    after_key(s, key_remote_files())
}

/// The remote section cut before the character that precedes its last `;`.
pub open spec fn remote_body(s: Seq<char>) -> Seq<char> {
    let sec = remote_section(s);
    sec.take(rfind_char(sec, ';')->0 - 1)
}

/// The text of the list: what follows the first `[` of the body.
pub open spec fn remote_list(s: Seq<char>) -> Seq<char> {
    let body = remote_body(s);
    body.skip(find(body, single('['))->0 + 1)
}

/// Cutting out the list does not fail: `remoteFiles:` occurs; a `;` follows
/// it, not as its first character, and the character before the last `;` is
/// ASCII (the cut falls on a character boundary); the body holds a `[`.
pub open spec fn remote_list_defined(s: Seq<char>) -> bool {
    let sec = remote_section(s);
    &&& contains(s, key_remote_files())
    &&& rfind_char(sec, ';') is Some
    &&& rfind_char(sec, ';')->0 >= 1
    &&& sec[rfind_char(sec, ';')->0 - 1] <= '\u{7f}'
    &&& contains(remote_body(s), single('['))
}

/// The pieces of the list, separated by commas.
pub open spec fn remote_pieces(s: Seq<char>) -> Seq<Seq<char>> {
    split(remote_list(s), ',')
}

/// Reading the list does not fail: it can be cut out, and every entry in it
/// can be read.
pub open spec fn break_remotefile_defined(s: Seq<char>) -> bool {
    &&& remote_list_defined(s)
    &&& forall|k: int|
        0 <= k < remote_pieces(s).len() && is_remote_entry(#[trigger] remote_pieces(s)[k])
            ==> entry_defined(remote_pieces(s)[k])
}

/// The entries of the `remoteFiles:` list.
pub open spec fn remote_entries(s: Seq<char>) -> Seq<DownloadableView> {
    entries_of(remote_pieces(s))
}

/// The entries of the list, or nothing when it has none.
pub open spec fn break_remotefile_spec(s: Seq<char>) -> Option<Seq<DownloadableView>> {
    if remote_entries(s).len() > 0 {
        Some(remote_entries(s))
    } else {
        None
    }
}

/// Reads one piece of the list as an entry; `None` where a value cannot be read.
fn entry_chars(p: &[char]) -> (r: Option<Downloadable>)
    requires
        is_remote_entry(p@),
    ensures
        r is Some <==> entry_defined(p@),
        r matches Some(d) ==> d@ == entry_spec(p@),
{
    let local = local_dir_key();
    let remote = remote_dir_key();
    let name = name_key();
    let save_as = name_to_save_as_key();
    let client_dir = match break_line_chars(p, &local) {
        Some(v) => v,
        None => return None,
    };
    let server_dir = match break_line_chars(p, &remote) {
        Some(v) => v,
        None => return None,
    };
    let filename = match break_line_chars(p, &name) {
        Some(v) => v,
        None => return None,
    };
    let namescheme = match break_line_chars(p, &save_as) {
        Some(v) => v,
        None => copy_range(&filename, 0, filename.len()),
    };
    assert(filename@.subrange(0, filename@.len() as int) =~= filename@);
    Some(
        Downloadable {
            client_dir: string_of(&client_dir),
            server_dir: string_of(&server_dir),
            filename: string_of(&filename),
            clientfile_namescheme: string_of(&namescheme),
        },
    )
}

/// Cuts the list text out of a configuration; `None` where that fails.
fn remote_list_chars(s: &[char]) -> (r: Option<Vec<char>>)
    ensures
        r is Some <==> remote_list_defined(s@),
        r matches Some(l) ==> l@ == remote_list(s@),
{
    let key = remote_files_key();
    proof {
        lemma_find(s@, key@);
    }
    let i = match find_exec(s, &key) {
        Some(i) => i,
        None => return None,
    };
    assert(occurs_at(s@, key@, i as int));
    let klen = key.len();
    let slen = s.len();
    assert(i + klen <= slen);
    let sec = copy_range(s, i + klen, slen);
    assert(sec@ =~= remote_section(s@));
    let b = match rfind_char_exec(&sec, ';') {
        Some(b) => b,
        None => return None,
    };
    proof {
        lemma_rfind_char(sec@, ';');
    }
    if b < 1 {
        return None;
    }
    if sec[b - 1] > '\u{7f}' {
        return None;
    }
    let body = copy_range(&sec, 0, b - 1);
    assert(body@ =~= remote_body(s@));
    let open = vec!['['];
    assert(open@ =~= single('['));
    proof {
        lemma_find(body@, open@);
    }
    let c = match find_exec(&body, &open) {
        Some(c) => c,
        None => return None,
    };
    assert(occurs_at(body@, open@, c as int));
    let list = copy_range(&body, c + 1, body.len());
    assert(list@ =~= remote_list(s@));
    Some(list)
}

/// Reads the `remoteFiles:` list; `None` in the outer option where that fails.
fn remote_files_chars(s: &[char]) -> (r: Option<Option<Vec<Downloadable>>>)
    ensures
        r is Some <==> break_remotefile_defined(s@),
        r matches Some(o) ==> match o {
            Some(v) => break_remotefile_spec(s@) == Some(entries_view(v@)),
            None => break_remotefile_spec(s@) is None,
        },
{
    let list = match remote_list_chars(s) {
        Some(l) => l,
        None => return None,
    };
    let pieces = split_exec(&list, ',');
    let ghost ps = remote_pieces(s@);
    assert(views(pieces@) == ps);
    let mut out: Vec<Downloadable> = Vec::new();
    let mut k: usize = 0;
    assert(ps.take(0) =~= Seq::<Seq<char>>::empty());
    assert(entries_view(out@) =~= entries_of(ps.take(0)));
    while k < pieces.len()
        invariant
            k <= pieces@.len() == ps.len(),
            views(pieces@) == ps,
            ps == remote_pieces(s@),
            remote_list_defined(s@),
            entries_view(out@) == entries_of(ps.take(k as int)),
            forall|j: int| 0 <= j < k && is_remote_entry(#[trigger] ps[j]) ==> entry_defined(ps[j]),
        decreases pieces@.len() - k,
    {
        let p = &pieces[k];
        assert(p@ == ps[k as int]);
        let ghost before = entries_of(ps.take(k as int));
        assert(ps.take(k + 1).drop_last() =~= ps.take(k as int));
        assert(ps.take(k + 1).last() == ps[k as int]);
        let ghost f = |q: Seq<char>| entry_of_piece(q);
        assert(entries_of(ps.take(k + 1)) == ps.take(k + 1).filter_map(f));
        let local = local_dir_key();
        let remote = remote_dir_key();
        let name = name_key();
        if contains_exec(p, &remote) && contains_exec(p, &local) && contains_exec(p, &name) {
            match entry_chars(p) {
                Some(d) => {
                    out.push(d);
                    assert(entries_view(out@) =~= before + seq![entry_spec(ps[k as int])]);
                },
                None => {
                    return None;
                },
            }
        } else {
            assert(entries_view(out@) =~= before);
        }
        k = k + 1;
    }
    assert(ps.take(ps.len() as int) =~= ps);
    if out.len() > 0 {
        Some(Some(out))
    } else {
        Some(None)
    }
}

/// A server to fetch files from, with the files to fetch.
#[derive(Debug)]
pub struct Config {
    /// The server's address, without the port.
    pub host: String,
    /// The server's port; 21, the FTP port, where the configuration names none.
    pub port: u16,
    /// The user to log in as.
    pub user: String,
    /// The user's password.
    pub pass: String,
    /// The files to fetch, in the order of the `remoteFiles:` list.
    pub remote_downloadable: Vec<Downloadable>,
}

/// The mathematical value of a `Config`.
pub struct ConfigView {
    pub host: Seq<char>,
    pub port: u16,
    pub user: Seq<char>,
    pub pass: Seq<char>,
    pub remote_downloadable: Seq<DownloadableView>,
}

impl View for Config {
    type V = ConfigView;

    open spec fn view(&self) -> ConfigView {
        ConfigView {
            host: self.host@,
            port: self.port,
            user: self.user@,
            pass: self.pass@,
            remote_downloadable: entries_view(self.remote_downloadable@),
        }
    }
}

/// Which of the required fields a configuration lacks, as its report names them.
#[derive(Debug, Clone, Copy, PartialEq, Eq, Structural)]
pub struct MissingFields {
    /// `host:` does not occur.
    pub host: bool,
    /// `user:` does not occur.
    pub username: bool,
    /// `password` does not occur at all.
    pub password: bool,
}

/// The port used where the host value names none.
pub const DEFAULT_PORT: u16 = 21;

/// The value of `host:` names a port: it holds a `:`.
pub open spec fn host_has_port(h: Seq<char>) -> bool {
    contains(h, single(':'))
}

/// The host itself: what precedes the first `:`, trimmed; the whole value
/// where it holds no `:`.
pub open spec fn host_part(h: Seq<char>) -> Seq<char> {
    if host_has_port(h) {
        trim(h.take(find(h, single(':'))->0))
    } else {
        h
    }
}

/// The text of the port: what lies between the first and the second `:`
/// (or the end), trimmed.
pub open spec fn port_text(h: Seq<char>) -> Seq<char> {
    let after = h.skip(find(h, single(':'))->0 + 1);
    match find(after, single(':')) {
        Some(j) => trim(after.take(j)),
        None => trim(after),
    }
}

/// The port: the number that the port text denotes, or 21 without a `:`.
pub open spec fn port_part(h: Seq<char>) -> u16 {
    if host_has_port(h) {
        parse_u16(port_text(h))->0
    } else {
        DEFAULT_PORT
    }
}

/// Reading the port does not fail: where the host value holds a `:`, the port
/// text is a 16-bit decimal number.
pub open spec fn port_defined(h: Seq<char>) -> bool {
    host_has_port(h) ==> parse_u16(port_text(h)) is Some
}

/// The configuration holds `host:`, `user:` and `password:`.
pub open spec fn has_required_keys(s: Seq<char>) -> bool {
    &&& contains(s, key_host())
    &&& contains(s, key_user())
    &&& contains(s, key_password())
}

/// The value of `host:`.
pub open spec fn host_value(s: Seq<char>) -> Seq<char> {
    break_line_spec(s, key_host())->0
}

/// Loading the configuration does not fail: where it holds the required
/// keys, each has a value (a `;` follows it), the port can be read, and the
/// `remoteFiles:` list can be read and holds at least one entry.
pub open spec fn config_defined(s: Seq<char>) -> bool {
    has_required_keys(s) ==> {
        &&& break_line_spec(s, key_host()) is Some
        &&& break_line_spec(s, key_user()) is Some
        &&& break_line_spec(s, key_password()) is Some
        &&& break_remotefile_defined(s)
        &&& remote_entries(s).len() > 0
        &&& port_defined(host_value(s))
    }
}

/// The configuration that a text with the required keys describes.
pub open spec fn config_spec(s: Seq<char>) -> ConfigView {
    ConfigView {
        host: host_part(host_value(s)),
        port: port_part(host_value(s)),
        user: break_line_spec(s, key_user())->0,
        pass: break_line_spec(s, key_password())->0,
        remote_downloadable: remote_entries(s),
    }
}

/// The report on a text that lacks a required key.
pub open spec fn missing_fields(s: Seq<char>) -> MissingFields {
    MissingFields {
        host: !contains(s, key_host()),
        username: !contains(s, key_user()),
        password: !contains(s, word_password()),
    }
}

/// What loading a configuration gives: the configuration where the required
/// keys occur, the report of what is missing where they do not.
pub open spec fn load_result(s: Seq<char>, r: Result<Config, MissingFields>) -> bool {
    match r {
        Ok(c) => has_required_keys(s) && c@ == config_spec(s),
        Err(m) => !has_required_keys(s) && m == missing_fields(s),
    }
}

/// Splits a host value into host and port; `None` where the port cannot be read.
fn host_and_port(h: &[char]) -> (r: Option<(Vec<char>, u16)>)
    ensures
        r is Some <==> port_defined(h@),
        r matches Some((host, port)) ==> host@ == host_part(h@) && port == port_part(h@),
{
    let colon = vec![':'];
    assert(colon@ =~= single(':'));
    proof {
        lemma_find(h@, colon@);
    }
    match find_exec(h, &colon) {
        None => {
            let host = copy_range(h, 0, h.len());
            assert(host@ =~= h@);
            Some((host, DEFAULT_PORT))
        },
        Some(i) => {
            assert(occurs_at(h@, colon@, i as int));
            let host = trim_exec(&copy_range(h, 0, i));
            assert(h@.subrange(0, i as int) =~= h@.take(i as int));
            let hlen = h.len();
            assert(i + 1 <= hlen);
            let after = copy_range(h, i + 1, hlen);
            assert(after@ =~= h@.skip(i + 1));
            proof {
                lemma_find(after@, colon@);
            }
            let text = match find_exec(&after, &colon) {
                Some(j) => {
                    assert(occurs_at(after@, colon@, j as int));
                    let t = copy_range(&after, 0, j);
                    assert(t@ =~= after@.take(j as int));
                    trim_exec(&t)
                },
                None => trim_exec(&after),
            };
            assert(text@ == port_text(h@));
            match parse_u16_exec(&text) {
                Some(port) => Some((host, port)),
                None => None,
            }
        },
    }
}

/// Loads a configuration; `None` where loading fails.
fn load_chars(s: &[char]) -> (r: Option<Result<Config, MissingFields>>)
    ensures
        r is Some <==> config_defined(s@),
        r matches Some(res) ==> load_result(s@, res),
{
    let hk = host_key();
    let uk = user_key();
    let pk = password_key();
    let has_host = contains_exec(s, &hk);
    let has_user = contains_exec(s, &uk);
    let has_pass = contains_exec(s, &pk);
    if has_host && has_user && has_pass {
        let host_line = match break_line_chars(s, &hk) {
            Some(v) => v,
            None => return None,
        };
        let user = match break_line_chars(s, &uk) {
            Some(v) => v,
            None => return None,
        };
        let pass = match break_line_chars(s, &pk) {
            Some(v) => v,
            None => return None,
        };
        let files = match remote_files_chars(s) {
            Some(Some(f)) => f,
            _ => return None,
        };
        let (host, port) = match host_and_port(&host_line) {
            Some(hp) => hp,
            None => return None,
        };
        Some(
            Ok(
                Config {
                    host: string_of(&host),
                    port,
                    user: string_of(&user),
                    pass: string_of(&pass),
                    remote_downloadable: files,
                },
            ),
        )
    } else {
        let pw = password_word();
        let has_password = contains_exec(s, &pw);
        Some(Err(MissingFields { host: !has_host, username: !has_user, password: !has_password }))
    }
}

impl Config {
    /// Reads a configuration from the text of its file. Gives the
    /// configuration where `host:`, `user:` and `password:` occur, and
    /// otherwise which of them are missing.
    #[allow(non_snake_case)]
    pub fn Config(buff: &mut String) -> (r: Result<Config, MissingFields>)
        requires
            config_defined(old(buff)@),
        ensures
            *final(buff) == *old(buff),
            load_result(old(buff)@, r),
    {
        let s = chars_of(buff.as_str());
        load_chars(&s).unwrap()
    }

    /// Whether `Config::Config` can read this text: it either lacks a
    /// required key, or every value that loading reads can be read.
    pub fn is_loadable(buff: &String) -> (r: bool)
        ensures
            r == config_defined(buff@),
    {
        let s = chars_of(buff.as_str());
        load_chars(&s).is_some()
    }

    /// The value of the field `line` in `input`: what lies between the first
    /// occurrence of `line` and the next `;`, without surrounding white
    /// space; `None` where there is no value to get (`line` does not occur,
    /// or no `;` follows it).
    pub fn break_line(input: &mut String, line: &str) -> (r: Option<String>)
        ensures
            *final(input) == *old(input),
            opt_string(r) == break_line_spec(old(input)@, line@),
    {
        let s = chars_of(input.as_str());
        let key = chars_of(line);
        match break_line_chars(&s, &key) {
            Some(v) => Some(string_of(&v)),
            None => None,
        }
    }

    /// The entries of the `remoteFiles:` list, in order; `None` where the list
    /// holds none.
    pub fn break_remotefile(input: &mut String) -> (r: Option<Vec<Downloadable>>)
        requires
            break_remotefile_defined(old(input)@),
        ensures
            *final(input) == *old(input),
            match r {
                Some(v) => break_remotefile_spec(old(input)@) == Some(entries_view(v@)),
                None => break_remotefile_spec(old(input)@) is None,
            },
    {
        let s = chars_of(input.as_str());
        remote_files_chars(&s).unwrap()
    }

    /// The number of pieces, separated by commas, in the `remoteFiles:`
    /// list, entries or not; `None` where the list cannot be cut out.
    pub fn remote_list_len(input: &String) -> (r: Option<usize>)
        ensures
            match r {
                Some(n) => remote_list_defined(input@) && n == remote_pieces(input@).len(),
                None => !remote_list_defined(input@),
            },
    {
        let s = chars_of(input.as_str());
        match remote_list_chars(&s) {
            Some(list) => {
                let pieces = split_exec(&list, ',');
                Some(pieces.len())
            },
            None => None,
        }
    }

    /// Whether `Config::break_remotefile` can read this text.
    pub fn can_break_remotefile(input: &String) -> (r: bool)
        ensures
            r == break_remotefile_defined(input@),
    {
        let s = chars_of(input.as_str());
        remote_files_chars(&s).is_some()
    }
}

/// The report on a configuration that lacks required fields: `Missing `,
/// then `"host" `, `"username" ` and `"password" ` for each that is missing,
/// then a line break.
pub open spec fn missing_message(m: MissingFields) -> Seq<char> {
    "Missing "@ + (if m.host {
        "\"host\" "@
    } else {
        Seq::<char>::empty()
    }) + (if m.username {
        "\"username\" "@
    } else {
        Seq::<char>::empty()
    }) + (if m.password {
        "\"password\" "@
    } else {
        Seq::<char>::empty()
    }) + "\n"@
}

impl MissingFields {
    /// The report to show the user.
    pub fn message(&self) -> (r: String)
        ensures
            r@ == missing_message(*self),
    {
        let mut r = String::from_str("Missing ");
        if self.host {
            r.append("\"host\" ");
        }
        if self.username {
            r.append("\"username\" ");
        }
        if self.password {
            r.append("\"password\" ");
        }
        r.append("\n");
        assert(r@ =~= missing_message(*self));
        r
    }
}

/// A configuration whose host names no port is served on port 21.
pub proof fn lemma_default_port(s: Seq<char>)
    requires
        has_required_keys(s),
        !host_has_port(host_value(s)),
    ensures
        config_spec(s).port == 21,
        config_spec(s).host == host_value(s),
{
}

/// An entry without `nameToSaveAs:` is saved under its name on the server.
pub proof fn lemma_save_as_defaults_to_name(p: Seq<char>)
    requires
        is_remote_entry(p),
        !contains(p, key_name_to_save_as()),
    ensures
        entry_spec(p).clientfile_namescheme == entry_spec(p).filename,
{
}

/// A value read from a field neither starts nor ends with white space.
pub proof fn lemma_break_line_trimmed(input: Seq<char>, key: Seq<char>)
    ensures
        break_line_spec(input, key) matches Some(v) ==> (v.len() > 0 ==> !is_whitespace(v[0])
            && !is_whitespace(v.last())),
{
    let rest = after_key(input, key);
    lemma_trim_edges(rest.take(find(rest, single(';'))->0));
}


/// The value of a field is exactly what is written between its key and the
/// next `;`, trimmed, with or without a space after the key: in
/// `p + key + v + rest`, where the key first occurs right after `p`, `v`
/// holds no `;` and `rest` starts with `;`, the value read for `key` is
/// `trim(v)`.
pub proof fn lemma_break_line_reads_value(
    p: Seq<char>,
    key: Seq<char>,
    v: Seq<char>,
    rest: Seq<char>,
)
    requires
        forall|j: int| 0 <= j < p.len() ==> !occurs_at(p + key, key, j),
        !v.contains(';'),
        rest.len() > 0,
        rest[0] == ';',
    ensures
        break_line_spec(p + key + v + rest, key) == Some(trim(v)),
{
    let s = p + key + v + rest;
    let at = p.len() as int;
    assert(s.subrange(at, at + key.len()) =~= key);
    assert(occurs_at(s, key, at));
    assert forall|j: int| 0 <= j < at implies !occurs_at(s, key, j) by {
        if occurs_at(s, key, j) {
            assert(s.subrange(j, j + key.len()) =~= (p + key).subrange(j, j + key.len()));
            assert(occurs_at(p + key, key, j));
        }
    }
    assert(is_first_occurrence(s, key, at));
    lemma_find(s, key);
    let after = after_key(s, key);
    assert(after =~= v + rest);
    let semi = single(';');
    let vl = v.len() as int;
    assert(after.subrange(vl, vl + 1) =~= semi);
    assert(occurs_at(after, semi, vl));
    assert forall|j: int| 0 <= j < vl implies !occurs_at(after, semi, j) by {
        if occurs_at(after, semi, j) {
            assert(after.subrange(j, j + 1)[0] == after[j]);
            assert(after[j] == v[j]);
        }
    }
    assert(is_first_occurrence(after, semi, vl));
    lemma_find(after, semi);
    assert(after.take(vl) =~= v);
}

} // verus!
