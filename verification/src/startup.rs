//! Start-up decisions: which token, device name and save directory the
//! server runs with, which ports it tries, the address shown in the QR
//! code, and the home page it serves.

use vstd::prelude::*;
use crate::net::{dotted, push_dotted, Ipv4};
use crate::text::{chars_of, decimal, is_blank, push_char, push_decimal, push_str, string_of, trimmed};
use crate::token::{generate_token, is_lower_hex, token_refusal, validate_token};

verus! {

/// Size limit of one transferred file when neither the command line nor
/// the configuration file sets one: 10 GiB.
pub const DEFAULT_MAX_SIZE: u64 = 10737418240;

/// Listen address when none is configured.
pub const DEFAULT_ADDR: &'static str = "0.0.0.0";

/// First port tried when none is configured.
pub const DEFAULT_PORT: u16 = 8080;

/// How many consecutive ports are tried from [`DEFAULT_PORT`].
pub const PROBE_RANGE: u16 = 50;

/// Rounds of port probing for a process started by the "restart now"
/// button, whose predecessor may still hold the port (100 ms apart).
pub const RESTART_RETRY_MAX: u32 = 20;

/// The token the server runs with. A token from the command line wins
/// over one from the configuration file; whichever is used must pass the
/// token rules, else start-up stops with the reason. With neither, a
/// fresh random token is made.
pub fn resolve_token(cli: Option<String>, file: Option<String>) -> (r: Result<String, String>)
    ensures
        cli matches Some(t) ==> (match token_refusal(t@) {
            None => r matches Ok(v) && v == t,
            Some(why) => r matches Err(e) && e@ == "--token 无效："@ + why,
        }),
        cli is None ==> (file matches Some(t) ==> (match token_refusal(t@) {
            None => r matches Ok(v) && v == t,
            Some(why) => r matches Err(e) && e@ == "config.toml token 无效："@ + why,
        })),
        cli is None && file is None ==> (r matches Ok(g) && g@.len() == 16
            && (forall|i: int| 0 <= i < g@.len() ==> is_lower_hex(#[trigger] g@[i]))
            && token_refusal(g@) is None),
{
    match cli {
        Some(t) => match validate_token(t.as_str()) {
            Ok(()) => Ok(t),
            Err(why) => {
                let mut m = String::new();
                push_str(&mut m, "--token 无效：");
                push_str(&mut m, why.as_str());
                Err(m)
            },
        },
        None => match file {
            Some(t) => match validate_token(t.as_str()) {
                Ok(()) => Ok(t),
                Err(why) => {
                    let mut m = String::new();
                    push_str(&mut m, "config.toml token 无效：");
                    push_str(&mut m, why.as_str());
                    Err(m)
                },
            },
            None => Ok(generate_token()),
        },
    }
}

/// The device name: a configured name that is not blank, else the host
/// name, else `qrctrl`.
pub open spec fn chosen_name(configured: Option<String>, host: Option<String>) -> Seq<char> {
    if configured is Some && trimmed(configured->0@).len() > 0 {
        configured->0@
    } else {
        match host {
            Some(h) => h@,
            None => "qrctrl"@,
        }
    }
}

/// Picks the device name shown on the phone and in the window title.
/// `host` is the machine's host name where it could be read as UTF-8.
pub fn resolve_name(configured: Option<String>, host: Option<String>) -> (r: String)
    ensures
        r@ == chosen_name(configured, host),
{
    if let Some(n) = configured {
        if !is_blank(n.as_str()) {
            return n;
        }
    }
    match host {
        Some(h) => h,
        None => "qrctrl".to_owned(),
    }
}

/// A configured device name is kept whenever it holds a character other
/// than whitespace; one made only of whitespace (or empty) counts as not
/// configured.
pub proof fn law_name_kept_unless_blank(name: String, host: Option<String>)
    ensures
        (exists|k: int| 0 <= k < name@.len() && !crate::text::is_whitespace(#[trigger] name@[k]))
            ==> chosen_name(Some(name), host) == name@,
        (forall|k: int| 0 <= k < name@.len() ==> crate::text::is_whitespace(#[trigger] name@[k]))
            ==> chosen_name(Some(name), host) == chosen_name(None, host),
{
    crate::text::lemma_trimmed_shape(name@);
}

/// `base` joined with a relative `name` the way `PathBuf::join` does it: a
/// separator is put between them unless `base` is empty or already ends
/// with one (`/`, or the platform's separator `sep`).
pub open spec fn joined_path(base: Seq<char>, name: Seq<char>, sep: char) -> Seq<char> {
    if base.len() == 0 {
        name
    } else if base.last() == '/' || base.last() == sep {
        base + name
    } else {
        base.push(sep) + name
    }
}

/// The default save directory: `qrctrl` in the downloads directory, or in
/// the current directory when there is none.
pub open spec fn default_save_dir(downloads: Option<Seq<char>>, sep: char) -> Seq<char> {
    joined_path(
        match downloads {
            Some(d) => d,
            None => seq!['.'],
        },
        "qrctrl"@,
        sep,
    )
}

/// The save directory: one given on the command line or in the
/// configuration file is used exactly as given, unless it is empty;
/// otherwise the default.
pub open spec fn chosen_save_dir(given: Option<Seq<char>>, downloads: Option<Seq<char>>, sep: char) -> Seq<char> {
    if given is Some && given->0.len() > 0 {
        given->0
    } else {
        default_save_dir(downloads, sep)
    }
}

/// Picks the save directory. `downloads` is the user's downloads directory
/// where the system has one, `sep` the platform's path separator.
pub fn resolve_save_dir(given: Option<String>, downloads: Option<String>, sep: char) -> (r: String)
    ensures
        r@ == chosen_save_dir(
            match given { Some(p) => Some(p@), None => None },
            match downloads { Some(d) => Some(d@), None => None },
            sep,
        ),
{
    if let Some(p) = given {
        if !p.as_str().is_empty() {
            return p;
        }
    }
    let base = match downloads {
        Some(d) => d,
        None => {
            let mut dot = String::new();
            push_char(&mut dot, '.');
            dot
        },
    };
    let v = chars_of(base.as_str());
    let mut out = String::new();
    push_str(&mut out, base.as_str());
    if v.len() > 0 && v[v.len() - 1] != '/' && v[v.len() - 1] != sep {
        push_char(&mut out, sep);
    }
    push_str(&mut out, "qrctrl");
    proof {
        if v@.len() > 0 {
            assert(v@.last() == v@[v@.len() - 1]);
        }
    }
    out
}

/// Resolving the save directory again from the directory it chose gives
/// the same directory: saving the configuration and restarting never
/// nests the directory one level deeper.
pub proof fn law_save_dir_is_stable(given: Option<Seq<char>>, downloads: Option<Seq<char>>, sep: char)
    ensures
        chosen_save_dir(Some(chosen_save_dir(given, downloads, sep)), downloads, sep) == chosen_save_dir(given, downloads, sep),
{
    reveal_strlit("qrctrl");
    let d = default_save_dir(downloads, sep);
    assert(d.len() > 0);
}

/// The ports to try, in order: only the requested one, or `8080..8130`
/// when none was requested.
pub fn port_candidates(requested: Option<u16>) -> (r: Vec<u16>)
    ensures
        requested matches Some(p) ==> r@ == seq![p],
        requested is None ==> r@.len() == PROBE_RANGE
            && (forall|i: int| 0 <= i < r@.len() ==> #[trigger] r@[i] == DEFAULT_PORT + i),
{
    let mut v: Vec<u16> = Vec::new();
    match requested {
        Some(p) => {
            v.push(p);
        },
        None => {
            let mut port: u16 = DEFAULT_PORT;
            while port < DEFAULT_PORT + PROBE_RANGE
                invariant
                    DEFAULT_PORT <= port <= DEFAULT_PORT + PROBE_RANGE,
                    v@.len() == port - DEFAULT_PORT,
                    forall|i: int| 0 <= i < v@.len() ==> #[trigger] v@[i] == DEFAULT_PORT + i,
                decreases DEFAULT_PORT + PROBE_RANGE - port,
            {
                v.push(port);
                port = port + 1;
            }
        },
    }
    v
}

/// Rounds of probing: a restarted process retries for about two seconds,
/// any other start fails at the first round.
pub fn probe_attempts(restart_child: bool) -> (r: u32)
    ensures
        r == (if restart_child { RESTART_RETRY_MAX } else { 1u32 }),
{
    if restart_child { RESTART_RETRY_MAX } else { 1 }
}

/// What port probing does after a bind attempt.
pub enum ProbeStep {
    /// The port was bound: use it.
    Chosen(u16),
    /// Try the candidate at `index` in round `round`.
    Try { round: u32, index: usize },
    /// Pause 100 ms, then try the first candidate in round `round`.
    PauseThenTry { round: u32 },
    /// Every round failed: start-up stops.
    Exhausted,
}

/// The next step of port probing after trying candidate `index` in round
/// `round` (`bound` says whether the bind succeeded): the first candidate
/// that binds is used; candidates are tried in order, round after round,
/// with a pause between rounds, until `attempts` rounds have failed.
pub fn probe_after(candidates: &[u16], attempts: u32, round: u32, index: usize, bound: bool) -> (r: ProbeStep)
    requires
        index < candidates@.len(),
        round < attempts,
    ensures
        bound ==> r == ProbeStep::Chosen(candidates@[index as int]),
        !bound && index + 1 < candidates@.len() ==> r == (ProbeStep::Try { round: round, index: (index + 1) as usize }),
        !bound && index + 1 == candidates@.len() && round + 1 < attempts ==> r == (ProbeStep::PauseThenTry { round: (round + 1) as u32 }),
        !bound && index + 1 == candidates@.len() && round + 1 == attempts ==> r is Exhausted,
{
    if bound {
        ProbeStep::Chosen(candidates[index])
    } else if index < candidates.len() - 1 {
        ProbeStep::Try { round, index: index + 1 }
    } else if round + 1 < attempts {
        ProbeStep::PauseThenTry { round: round + 1 }
    } else {
        ProbeStep::Exhausted
    }
}

/// Why start-up stops when probing is exhausted: for a requested port, that
/// port and the bind error; for the default range, [`ports_taken_text`].
pub fn probe_failure_message(addr: &str, requested: Option<u16>, cause: &str) -> (r: String)
    ensures
        requested matches Some(p) ==> r@ == "端口 "@ + addr@ + seq![':'] + decimal(p as nat)
            + " 绑定失败（被占用或权限不足）："@ + cause@,
        requested is None ==> r@ == ports_taken_text(addr@),
{
    match requested {
        Some(p) => {
            let mut m = String::new();
            push_str(&mut m, "端口 ");
            push_str(&mut m, addr);
            push_char(&mut m, ':');
            push_decimal(&mut m, p as u64);
            push_str(&mut m, " 绑定失败（被占用或权限不足）：");
            push_str(&mut m, cause);
            m
        },
        None => ports_taken_message(addr),
    }
}

/// Why start-up stops when every port of the default range is taken.
pub open spec fn ports_taken_text(addr: Seq<char>) -> Seq<char> {
    "端口范围 "@ + addr + seq![':'] + decimal(DEFAULT_PORT as nat) + seq!['-']
        + decimal((DEFAULT_PORT + PROBE_RANGE - 1) as nat) + " 全部被占用，请用 --port 指定其他端口"@
}

/// The message for a default port range that is fully taken.
pub fn ports_taken_message(addr: &str) -> (r: String)
    ensures
        r@ == ports_taken_text(addr@),
{
    let mut m = String::new();
    push_str(&mut m, "端口范围 ");
    push_str(&mut m, addr);
    push_char(&mut m, ':');
    push_decimal(&mut m, DEFAULT_PORT as u64);
    push_char(&mut m, '-');
    push_decimal(&mut m, (DEFAULT_PORT + PROBE_RANGE - 1) as u64);
    push_str(&mut m, " 全部被占用，请用 --port 指定其他端口");
    m
}

/// The address the phone opens: `http://<ip>:<port>/?t=<token>`, with
/// `localhost` where no LAN address was found.
pub open spec fn scan_url_text(ip: Option<Ipv4>, port: u16, token: Seq<char>) -> Seq<char> {
    "http://"@ + (match ip {
        Some(a) => dotted(a),
        None => "localhost"@,
    }) + seq![':'] + decimal(port as nat) + "/?t="@ + token
}

/// The URL encoded in the QR code.
pub fn scan_url(ip: Option<Ipv4>, port: u16, token: &str) -> (r: String)
    ensures
        r@ == scan_url_text(ip, port, token@),
{
    let mut s = String::new();
    push_str(&mut s, "http://");
    match ip {
        Some(a) => push_dotted(&mut s, &a),
        None => push_str(&mut s, "localhost"),
    }
    push_char(&mut s, ':');
    push_decimal(&mut s, port as u64);
    push_str(&mut s, "/?t=");
    push_str(&mut s, token);
    s
}

/// The URLs of the addresses after the first, listed in the start-up
/// banner for phones on another network.
pub fn other_urls(ips: &[Ipv4], port: u16, token: &str) -> (r: Vec<String>)
    ensures
        ips@.len() == 0 ==> r@.len() == 0,
        ips@.len() > 0 ==> r@.len() == ips@.len() - 1,
        forall|i: int| 0 <= i < r@.len() ==> #[trigger] r@[i]@ == scan_url_text(Some(ips@[i + 1]), port, token@),
{
    let mut out: Vec<String> = Vec::new();
    let mut i: usize = 1;
    while i < ips.len()
        invariant
            1 <= i,
            ips@.len() == ips.len(),
            i <= ips@.len() || (ips@.len() == 0 && i == 1),
            out@.len() == i - 1,
            forall|k: int| 0 <= k < out@.len() ==> #[trigger] out@[k]@ == scan_url_text(Some(ips@[k + 1]), port, token@),
        decreases ips.len() - i,
    {
        out.push(scan_url(Some(ips[i]), port, token));
        i = i + 1;
    }
    out
}

/// The text after the last `t=` of a URL (its token), or nothing.
pub open spec fn token_in_url_text(url: Seq<char>) -> Seq<char> {
    match crate::text::last_occurrence_before(url, seq!['t', '='], url.len() as int) {
        Some(k) => url.subrange(k + 2, url.len() as int),
        None => Seq::empty(),
    }
}

/// The token part of a URL, as the banner repeats it for each address.
pub fn token_in_url(url: &str) -> (r: String)
    ensures
        r@ == token_in_url_text(url@),
{
    let v = chars_of(url);
    let pat: [char; 2] = ['t', '='];
    assert(pat@ =~= seq!['t', '=']);
    match crate::text::find_last(v.as_slice(), &pat) {
        Some(k) => {
            proof {
                lemma_last_occurrence_in_bounds(v@, seq!['t', '='], v@.len() as int);
                assert(crate::text::occurs_at(v@, seq!['t', '='], k as int));
                assert(k + 2 <= v@.len());
                assert(v@.len() == v.len());
            }
            let mut out: Vec<char> = Vec::new();
            let mut i: usize = k + 2;
            while i < v.len()
                invariant
                    k + 2 <= i <= v@.len(),
                    v@.len() == v.len(),
                    out@ == v@.subrange(k + 2, i as int),
                decreases v.len() - i,
            {
                out.push(v[i]);
                proof {
                    assert(out@ =~= v@.subrange(k + 2, i + 1));
                }
                i = i + 1;
            }
            string_of(out.as_slice())
        },
        None => {
            let r = String::new();
            assert(r@ =~= Seq::<char>::empty());
            r
        },
    }
}

proof fn lemma_last_token_marker(url: Seq<char>, pre: Seq<char>, token: Seq<char>, j: int)
    requires
        url == pre + seq!['t', '='] + token,
        pre.len() + 1 <= j <= url.len(),
        forall|k: int| 0 <= k < token.len() ==> #[trigger] token[k] != '=',
    ensures
        crate::text::last_occurrence_before(url, seq!['t', '='], j) == Some(pre.len() as int),
    decreases j,
{
    if j > pre.len() + 1 {
        if j < url.len() {
            if j - 1 == pre.len() + 1 {
                assert(url[j - 1] == '=');
            } else {
                assert(url[j] == token[j - pre.len() - 2]);
            }
            assert(url.subrange(j - 1, j + 1)[0] == url[j - 1]);
            assert(url.subrange(j - 1, j + 1)[1] == url[j]);
        }
        lemma_last_token_marker(url, pre, token, j - 1);
    } else {
        assert(url.subrange(pre.len() as int, pre.len() + 2int) =~= seq!['t', '=']);
    }
}

/// The token the banner repeats for each further address is the scan
/// URL's token, for any token without `=` (every valid token is made of
/// letters and digits).
pub proof fn law_banner_repeats_the_token(ip: Option<Ipv4>, port: u16, token: Seq<char>)
    requires
        forall|k: int| 0 <= k < token.len() ==> #[trigger] token[k] != '=',
    ensures
        token_in_url_text(scan_url_text(ip, port, token)) == token,
{
    reveal_strlit("/?t=");
    let url = scan_url_text(ip, port, token);
    let host = match ip {
        Some(a) => dotted(a),
        None => "localhost"@,
    };
    let pre = "http://"@ + host + seq![':'] + decimal(port as nat) + seq!['/', '?'];
    assert(url =~= pre + seq!['t', '='] + token);
    lemma_last_token_marker(url, pre, token, url.len() as int);
    assert(url.subrange(pre.len() + 2int, url.len() as int) =~= token);
}

/// An occurrence found before `j` lies inside the text.
pub proof fn lemma_last_occurrence_in_bounds(hay: Seq<char>, needle: Seq<char>, j: int)
    ensures
        crate::text::last_occurrence_before(hay, needle, j) matches Some(k)
            ==> 0 <= k < j && crate::text::occurs_at(hay, needle, k),
    decreases j,
{
    if j > 0 && !crate::text::occurs_at(hay, needle, j - 1) {
        lemma_last_occurrence_in_bounds(hay, needle, j - 1);
    }
}

} // verus!
