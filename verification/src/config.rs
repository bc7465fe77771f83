//! Configuration: the settings file's fields, their validation, and the
//! small decisions of the configuration page.

use vstd::prelude::*;
use crate::text::{chars_of, is_blank, push_char, push_decimal, push_str, starts_with, starts_with_chars, string_of, trimmed};
use crate::token::{token_refusal, validate_token};

verus! {

broadcast use vstd::utf8::group_utf8_lib;

/// Largest per-file size limit that may be configured: 1 TiB.
pub const ONE_TB: u64 = 1099511627776;

/// The configuration file's contents. Every field is optional; a missing
/// field leaves the built-in default (or the command line) in charge.
pub struct Config {
    pub addr: Option<String>,
    pub port: Option<u16>,
    pub name: Option<String>,
    pub save_dir: Option<String>,
    pub max_size: Option<u64>,
    pub token: Option<String>,
    pub prefer_ip: Option<String>,
}

impl Config {
    /// A configuration with no field set.
    pub fn empty() -> (r: Config)
        ensures
            r.addr is None && r.port is None && r.name is None && r.save_dir is None
                && r.max_size is None && r.token is None && r.prefer_ip is None,
    {
        Config { addr: None, port: None, name: None, save_dir: None, max_size: None, token: None, prefer_ip: None }
    }
}

/// Why a configuration is refused, or `None` when every set field is valid.
/// Fields are checked in order: port, address, size limit, token.
pub open spec fn config_refusal(cfg: Config) -> Option<Seq<char>> {
    if cfg.port matches Some(p) && p == 0 {
        Some("端口不能为 0"@)
    } else if cfg.addr matches Some(a) && trimmed(a@).len() == 0 {
        Some("监听地址不能为空"@)
    } else if cfg.max_size matches Some(s) && s == 0 {
        Some("单文件上限必须大于 0"@)
    } else if cfg.max_size matches Some(s) && s > ONE_TB {
        Some("单文件上限不能超过 1 TB"@)
    } else if cfg.token matches Some(t) && token_refusal(t@) is Some {
        Some("token 不合法："@ + token_refusal(cfg.token->0@)->0)
    } else {
        None
    }
}

/// Checks each set field: the port is not 0, the address is not blank,
/// the size limit is between 1 byte and 1 TiB, the token follows the token
/// rules. Unset fields always pass.
pub fn validate(cfg: &Config) -> (r: Result<(), String>)
    ensures
        r is Ok <==> config_refusal(*cfg) is None,
        r matches Err(e) ==> config_refusal(*cfg) == Some(e@),
{
    if let Some(p) = cfg.port {
        if p == 0 {
            return Err(text("端口不能为 0"));
        }
    }
    if let Some(a) = &cfg.addr {
        if is_blank(a.as_str()) {
            return Err(text("监听地址不能为空"));
        }
    }
    if let Some(s) = cfg.max_size {
        if s == 0 {
            return Err(text("单文件上限必须大于 0"));
        }
        if s > ONE_TB {
            return Err(text("单文件上限不能超过 1 TB"));
        }
    }
    if let Some(t) = &cfg.token {
        match validate_token(t.as_str()) {
            Ok(()) => {},
            Err(e) => {
                let mut m = String::new();
                push_str(&mut m, "token 不合法：");
                push_str(&mut m, e.as_str());
                return Err(m);
            },
        }
    }
    Ok(())
}

fn text(s: &str) -> (r: String)
    ensures
        r@ == s@,
{
    s.to_owned()
}

/// The first of two optional settings that is set.
pub open spec fn either<T>(first: Option<T>, second: Option<T>) -> Option<T> {
    match first {
        Some(v) => Some(v),
        None => second,
    }
}

/// Layers the command line over the configuration file, field by field:
/// a value given on the command line always wins.
pub fn merge_config(cli: Config, file: Config) -> (r: Config)
    ensures
        r.addr == either(cli.addr, file.addr),
        r.port == either(cli.port, file.port),
        r.name == either(cli.name, file.name),
        r.save_dir == either(cli.save_dir, file.save_dir),
        r.max_size == either(cli.max_size, file.max_size),
        r.token == either(cli.token, file.token),
        r.prefer_ip == either(cli.prefer_ip, file.prefer_ip),
{
    Config {
        addr: match cli.addr { Some(v) => Some(v), None => file.addr },
        port: match cli.port { Some(v) => Some(v), None => file.port },
        name: match cli.name { Some(v) => Some(v), None => file.name },
        save_dir: match cli.save_dir { Some(v) => Some(v), None => file.save_dir },
        max_size: match cli.max_size { Some(v) => Some(v), None => file.max_size },
        token: match cli.token { Some(v) => Some(v), None => file.token },
        prefer_ip: match cli.prefer_ip { Some(v) => Some(v), None => file.prefer_ip },
    }
}

/// A value given on the command line is never overridden by the file, and
/// the file fills in what the command line leaves unset.
pub proof fn law_cli_wins<T>(cli: Option<T>, file: Option<T>)
    ensures
        cli is Some ==> either(cli, file) == cli,
        cli is None ==> either(cli, file) == file,
{
}

/// Query of `GET /api/list_dir`: the token and the directory to list.
pub struct ListDirQuery {
    pub t: String,
    pub path: Option<String>,
}

/// Query of `GET /api/check_port`: the token and the address to try.
pub struct CheckPortQuery {
    pub t: String,
    pub addr: String,
    pub port: u16,
}

/// What the directory browser is asked to show.
pub enum ListDirTarget {
    /// The top-level entries (drive letters on Windows, `/` elsewhere).
    Roots,
    /// The user's home directory.
    Home,
    /// The given directory.
    Path(String),
}

/// `roots` asks for the top-level entries, a blank path for the home
/// directory; anything else is a directory to list.
pub fn list_dir_target(path: Option<String>) -> (r: ListDirTarget)
    ensures
        ({
            let raw = match path { Some(p) => p@, None => Seq::<char>::empty() };
            &&& raw == "roots"@ ==> r is Roots
            &&& raw != "roots"@ && trimmed(raw).len() == 0 ==> r is Home
            &&& raw != "roots"@ && trimmed(raw).len() != 0 ==> (r matches ListDirTarget::Path(p) && p@ == raw)
        }),
{
    let raw = match path {
        Some(p) => p,
        None => String::new(),
    };
    let roots = text("roots");
    if raw == roots {
        return ListDirTarget::Roots;
    }
    if is_blank(raw.as_str()) {
        ListDirTarget::Home
    } else {
        ListDirTarget::Path(raw)
    }
}

/// A directory entry worth showing: a directory whose name does not start
/// with `.`.
pub open spec fn shown_entry(e: (String, bool)) -> bool {
    e.1 && !(e.0@.len() > 0 && e.0@[0] == '.')
}

/// The names of the shown entries, in order.
pub open spec fn shown_names(entries: Seq<(String, bool)>) -> Seq<Seq<char>>
    decreases entries.len(),
{
    if entries.len() == 0 {
        Seq::empty()
    } else if shown_entry(entries.last()) {
        shown_names(entries.drop_last()).push(entries.last().0@)
    } else {
        shown_names(entries.drop_last())
    }
}

/// Of the entries of a directory, as `(name, is_dir)`, keeps the names of
/// the directories that are not hidden: files mean nothing to a directory
/// picker, and dot-entries are noise.
pub fn visible_directories(entries: Vec<(String, bool)>) -> (r: Vec<String>)
    ensures
        r@.map_values(|s: String| s@) == shown_names(entries@),
{
    let mut r: Vec<String> = Vec::new();
    let mut i: usize = 0;
    while i < entries.len()
        invariant
            i <= entries@.len(),
            r@.map_values(|s: String| s@) == shown_names(entries@.take(i as int)),
        decreases entries.len() - i,
    {
        let (name, is_dir) = (&entries[i].0, entries[i].1);
        let ghost before = r@.map_values(|s: String| s@);
        proof {
            assert(entries@.take(i + 1).drop_last() =~= entries@.take(i as int));
            assert(entries@.take(i + 1).last() == entries@[i as int]);
        }
        let v = chars_of(name.as_str());
        let hidden = v.len() > 0 && v[0] == '.';
        if is_dir && !hidden {
            r.push(name.clone());
            proof {
                assert(r@.map_values(|s: String| s@) =~= before.push(name@));
            }
        }
        i = i + 1;
    }
    assert(entries@.take(entries@.len() as int) =~= entries@);
    r
}

/// A top-level entry of the directory browser: the name shown and the path
/// opened.
pub struct RootEntry {
    pub name: String,
    pub path: String,
}

/// `str::split('\0')`: the pieces between NUL characters, in order (one
/// empty piece for empty text).
pub open spec fn nul_pieces(s: Seq<char>) -> Seq<Seq<char>>
    decreases s.len(),
{
    if s.len() == 0 {
        seq![Seq::empty()]
    } else if s.last() == '\0' {
        nul_pieces(s.drop_last()).push(Seq::empty())
    } else {
        let p = nul_pieces(s.drop_last());
        p.update(p.len() - 1, p.last().push(s.last()))
    }
}

/// `s` without its trailing `\` characters.
pub open spec fn without_trailing_backslashes(s: Seq<char>) -> Seq<char>
    decreases s.len(),
{
    if s.len() > 0 && s.last() == '\\' {
        without_trailing_backslashes(s.drop_last())
    } else {
        s
    }
}

/// The drive entries of a drive listing, given as `(name, path)`: each
/// non-empty piece is a drive's root path (`C:\`), shown without its
/// trailing backslashes (`C:`).
pub open spec fn drive_entries(pieces: Seq<Seq<char>>) -> Seq<(Seq<char>, Seq<char>)>
    decreases pieces.len(),
{
    if pieces.len() == 0 {
        Seq::empty()
    } else if pieces.last().len() == 0 {
        drive_entries(pieces.drop_last())
    } else {
        drive_entries(pieces.drop_last()).push((without_trailing_backslashes(pieces.last()), pieces.last()))
    }
}

proof fn lemma_nul_pieces_nonempty(s: Seq<char>)
    ensures
        nul_pieces(s).len() >= 1,
    decreases s.len(),
{
    if s.len() > 0 {
        lemma_nul_pieces_nonempty(s.drop_last());
    }
}

fn root_entry(piece: &Vec<char>) -> (r: RootEntry)
    ensures
        r.name@ == without_trailing_backslashes(piece@),
        r.path@ == piece@,
{
    let mut end: usize = piece.len();
    assert(piece@.take(end as int) =~= piece@);
    while end > 0 && piece[end - 1] == '\\'
        invariant
            end <= piece@.len(),
            without_trailing_backslashes(piece@) == without_trailing_backslashes(piece@.take(end as int)),
        decreases end,
    {
        proof {
            assert(piece@.take(end as int).drop_last() =~= piece@.take(end - 1));
        }
        end = end - 1;
    }
    proof {
        if end > 0 {
            assert(piece@.take(end as int).last() == piece@[end - 1]);
        }
    }
    let mut name: Vec<char> = Vec::new();
    let mut i: usize = 0;
    while i < end
        invariant
            i <= end <= piece@.len(),
            name@ == piece@.take(i as int),
        decreases end - i,
    {
        name.push(piece[i]);
        proof {
            assert(name@ =~= piece@.take(i + 1));
        }
        i = i + 1;
    }
    RootEntry { name: string_of(name.as_slice()), path: string_of(piece.as_slice()) }
}

/// The drives of a Windows drive listing (`C:\\0D:\\0\0`, as the system
/// returns it): one entry per non-empty NUL-separated piece, in order.
pub fn drive_roots(listing: &str) -> (r: Vec<RootEntry>)
    ensures
        r@.map_values(|e: RootEntry| (e.name@, e.path@)) == drive_entries(nul_pieces(listing@)),
{
    let v = chars_of(listing);
    let mut out: Vec<RootEntry> = Vec::new();
    let mut cur: Vec<char> = Vec::new();
    let mut i: usize = 0;
    while i < v.len()
        invariant
            i <= v@.len(),
            v@.len() == v.len(),
            nul_pieces(v@.take(i as int)).len() >= 1,
            cur@ == nul_pieces(v@.take(i as int)).last(),
            out@.map_values(|e: RootEntry| (e.name@, e.path@))
                == drive_entries(nul_pieces(v@.take(i as int)).drop_last()),
        decreases v.len() - i,
    {
        let ghost before = v@.take(i as int);
        let ghost after = v@.take(i + 1);
        proof {
            assert(after.drop_last() =~= before);
            assert(after.last() == v@[i as int]);
            lemma_nul_pieces_nonempty(before);
        }
        let c = v[i];
        if c == '\0' {
            let ghost old_out = out@.map_values(|e: RootEntry| (e.name@, e.path@));
            if cur.len() > 0 {
                let e = root_entry(&cur);
                out.push(e);
                proof {
                    assert(nul_pieces(after).drop_last() =~= nul_pieces(before));
                    let pb = nul_pieces(before);
                    assert(pb.drop_last().push(pb.last()) =~= pb);
                    assert(out@.map_values(|e: RootEntry| (e.name@, e.path@)) =~= old_out.push((without_trailing_backslashes(cur@), cur@)));
                }
            } else {
                proof {
                    assert(nul_pieces(after).drop_last() =~= nul_pieces(before));
                    let pb = nul_pieces(before);
                    assert(pb.drop_last().push(pb.last()) =~= pb);
                }
            }
            cur = Vec::new();
            proof {
                assert(cur@ =~= nul_pieces(after).last());
            }
        } else {
            cur.push(c);
            proof {
                let pb = nul_pieces(before);
                assert(nul_pieces(after).drop_last() =~= pb.drop_last());
                assert(cur@ =~= nul_pieces(after).last());
            }
        }
        i = i + 1;
    }
    proof {
        assert(v@.take(v@.len() as int) =~= v@);
        let p = nul_pieces(v@);
        assert(p.drop_last().push(p.last()) =~= p);
    }
    if cur.len() > 0 {
        let ghost old_out = out@.map_values(|e: RootEntry| (e.name@, e.path@));
        let e = root_entry(&cur);
        out.push(e);
        proof {
            assert(out@.map_values(|e: RootEntry| (e.name@, e.path@)) =~= old_out.push((without_trailing_backslashes(cur@), cur@)));
        }
    }
    out
}

/// The single top-level entry elsewhere than on Windows: `/`.
pub fn unix_roots() -> (r: Vec<RootEntry>)
    ensures
        r@.len() == 1,
        r@[0].name@ == seq!['/'],
        r@[0].path@ == seq!['/'],
{
    let mut name = String::new();
    push_char(&mut name, '/');
    let mut path = String::new();
    push_char(&mut path, '/');
    let mut r: Vec<RootEntry> = Vec::new();
    r.push(RootEntry { name, path });
    r
}

/// `\\?\UNC\` on Windows verbatim UNC paths.
pub open spec fn verbatim_unc() -> Seq<char> {
    seq!['\\', '\\', '?', '\\', 'U', 'N', 'C', '\\']
}

/// `\\?\` on Windows verbatim paths.
pub open spec fn verbatim() -> Seq<char> {
    seq!['\\', '\\', '?', '\\']
}

/// A path as shown to the user: Windows verbatim prefixes removed
/// (`\\?\D:\foo` → `D:\foo`, `\\?\UNC\server\share` → `\\server\share`).
pub open spec fn displayed_path(p: Seq<char>) -> Seq<char> {
    if starts_with(p, verbatim_unc()) {
        seq!['\\', '\\'] + p.subrange(8, p.len() as int)
    } else if starts_with(p, verbatim()) {
        p.subrange(4, p.len() as int)
    } else {
        p
    }
}

/// Strips Windows verbatim prefixes from a path for display.
pub fn display_path(p: &str) -> (r: String)
    ensures
        r@ == displayed_path(p@),
{
    let v = chars_of(p);
    let unc: [char; 8] = ['\\', '\\', '?', '\\', 'U', 'N', 'C', '\\'];
    let vb: [char; 4] = ['\\', '\\', '?', '\\'];
    assert(unc@ =~= verbatim_unc());
    assert(vb@ =~= verbatim());
    let mut out: Vec<char> = Vec::new();
    let start: usize;
    if starts_with_chars(v.as_slice(), &unc) {
        out.push('\\');
        out.push('\\');
        start = 8;
    } else if starts_with_chars(v.as_slice(), &vb) {
        start = 4;
    } else {
        start = 0;
    }
    let ghost head = out@;
    let mut i: usize = start;
    while i < v.len()
        invariant
            start <= i <= v@.len(),
            out@ == head + v@.subrange(start as int, i as int),
        decreases v.len() - i,
    {
        out.push(v[i]);
        proof {
            assert(out@ =~= head + v@.subrange(start as int, i + 1));
        }
        i = i + 1;
    }
    proof {
        if start == 0 {
            assert(v@.subrange(0, v@.len() as int) =~= v@);
        }
        assert(out@ =~= displayed_path(p@));
    }
    string_of(out.as_slice())
}

/// What `GET /api/check_port` does with a query.
pub enum PortCheck {
    /// The server's own port: reported free, since the server itself holds it.
    Own,
    /// Any other port: try to bind this `addr:port` and report the outcome.
    Probe(String),
}

/// The server's own port needs no probe; any other is probed at the
/// queried address.
pub fn port_check(q: &CheckPortQuery, own_port: u16) -> (r: PortCheck)
    ensures
        q.port == own_port ==> r is Own,
        q.port != own_port ==> (r matches PortCheck::Probe(b)
            && b@ == q.addr@ + seq![':'] + crate::text::decimal(q.port as nat)),
{
    if q.port == own_port {
        PortCheck::Own
    } else {
        PortCheck::Probe(bind_address(q.addr.as_str(), q.port))
    }
}

/// The extension a configuration file that could not be parsed is renamed
/// to: `toml.bad-<seconds since the epoch>`.
pub fn backup_extension(unix_secs: u64) -> (r: String)
    ensures
        r@ == "toml.bad-"@ + crate::text::decimal(unix_secs as nat),
{
    let mut s = String::new();
    push_str(&mut s, "toml.bad-");
    push_decimal(&mut s, unix_secs);
    s
}

/// `addr:port`, the text a listener is bound to.
pub fn bind_address(addr: &str, port: u16) -> (r: String)
    ensures
        r@ == addr@ + seq![':'] + crate::text::decimal(port as nat),
{
    let mut s = String::new();
    push_str(&mut s, addr);
    push_char(&mut s, ':');
    push_decimal(&mut s, port as u64);
    s
}

} // verus!
