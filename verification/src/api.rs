//! Bodies of the configuration page's JSON API: the current settings, the
//! outcome of saving, the LAN interfaces, the directory browser and the
//! port check. Objects are written compactly with their keys in
//! alphabetical order, as `serde_json` writes a `json!` object.

use vstd::prelude::*;
use crate::config::RootEntry;
use crate::json::{json_string, push_json_string};
use crate::net::{dotted, network_text, ones, push_dotted, LanInterface};
use crate::text::{decimal, push_char, push_decimal, push_str};

verus! {

/// Texts joined by commas.
pub open spec fn joined(items: Seq<Seq<char>>) -> Seq<char>
    decreases items.len(),
{
    if items.len() == 0 {
        Seq::empty()
    } else if items.len() == 1 {
        items[0]
    } else {
        joined(items.drop_last()) + seq![','] + items.last()
    }
}

/// A JSON array of already written values.
pub open spec fn json_array(items: Seq<Seq<char>>) -> Seq<char> {
    seq!['['] + joined(items) + seq![']']
}

/// `true` or `false`.
pub open spec fn json_bool(b: bool) -> Seq<char> {
    if b { "true"@ } else { "false"@ }
}

/// A string or `null`.
pub open spec fn json_opt_string(s: Option<Seq<char>>) -> Seq<char> {
    match s {
        Some(v) => json_string(v),
        None => "null"@,
    }
}

fn push_bool(out: &mut String, b: bool)
    ensures
        final(out)@ == old(out)@ + json_bool(b),
{
    if b {
        push_str(out, "true");
    } else {
        push_str(out, "false");
    }
}

fn push_opt_string(out: &mut String, s: &Option<String>)
    ensures
        final(out)@ == old(out)@ + json_opt_string(match s { Some(v) => Some(v@), None => None }),
{
    match s {
        Some(v) => push_json_string(out, v.as_str()),
        None => push_str(out, "null"),
    }
}

/// `{"ok":true}`: the request was carried out.
pub open spec fn ok_text() -> Seq<char> {
    "{\"ok\":true}"@
}

/// The reply to a successful save or restart request.
pub fn ok_reply() -> (r: String)
    ensures
        r@ == ok_text(),
{
    let mut s = String::new();
    push_str(&mut s, "{\"ok\":true}");
    s
}

/// `{"error":<message>,"ok":false}`.
pub open spec fn failure_text(message: Seq<char>) -> Seq<char> {
    "{\"error\":"@ + json_string(message) + ",\"ok\":false}"@
}

/// The reply to a refused or failed save, with the reason.
pub fn failure_reply(message: &str) -> (r: String)
    ensures
        r@ == failure_text(message@),
{
    let mut s = String::new();
    push_str(&mut s, "{\"error\":");
    push_json_string(&mut s, message);
    push_str(&mut s, ",\"ok\":false}");
    s
}

/// Why a save failed when the file could not be written.
pub fn write_failure_message(cause: &str) -> (r: String)
    ensures
        r@ == "写入失败："@ + cause@,
{
    let mut s = String::new();
    push_str(&mut s, "写入失败：");
    push_str(&mut s, cause);
    s
}

/// The settings the server runs with, as the configuration page shows them.
pub struct RunningConfig {
    pub addr: String,
    pub port: u16,
    pub name: String,
    pub save_dir: String,
    pub max_size: u64,
    pub token: String,
    pub prefer_ip: Option<String>,
}

/// The running settings as a JSON object.
pub open spec fn running_config_text(c: RunningConfig) -> Seq<char> {
    "{\"addr\":"@ + json_string(c.addr@) + ",\"max_size\":"@ + decimal(c.max_size as nat)
        + ",\"name\":"@ + json_string(c.name@) + ",\"port\":"@ + decimal(c.port as nat)
        + ",\"prefer_ip\":"@ + json_opt_string(match c.prefer_ip { Some(v) => Some(v@), None => None })
        + ",\"save_dir\":"@ + json_string(c.save_dir@) + ",\"token\":"@ + json_string(c.token@) + "}"@
}

/// The reply of `GET /api/config`.
pub fn running_config_json(c: &RunningConfig) -> (r: String)
    ensures
        r@ == running_config_text(*c),
{
    let mut s = String::new();
    push_str(&mut s, "{\"addr\":");
    push_json_string(&mut s, c.addr.as_str());
    push_str(&mut s, ",\"max_size\":");
    push_decimal(&mut s, c.max_size);
    push_str(&mut s, ",\"name\":");
    push_json_string(&mut s, c.name.as_str());
    push_str(&mut s, ",\"port\":");
    push_decimal(&mut s, c.port as u64);
    push_str(&mut s, ",\"prefer_ip\":");
    push_opt_string(&mut s, &c.prefer_ip);
    push_str(&mut s, ",\"save_dir\":");
    push_json_string(&mut s, c.save_dir.as_str());
    push_str(&mut s, ",\"token\":");
    push_json_string(&mut s, c.token.as_str());
    push_str(&mut s, "}");
    s
}

/// The outcome of a port check: the server's own port is free and marked
/// as such; another port is free when it could be bound.
pub open spec fn port_check_text(own: bool, free: bool) -> Seq<char> {
    if own { "{\"free\":true,\"self\":true}"@ } else { "{\"free\":"@ + json_bool(free) + "}"@ }
}

/// The reply of `GET /api/check_port`.
pub fn port_check_json(own: bool, free: bool) -> (r: String)
    ensures
        r@ == port_check_text(own, free),
{
    let mut s = String::new();
    if own {
        push_str(&mut s, "{\"free\":true,\"self\":true}");
    } else {
        push_str(&mut s, "{\"free\":");
        push_bool(&mut s, free);
        push_str(&mut s, "}");
    }
    s
}

/// Prefix length of an interface's netmask.
pub open spec fn prefix_of(i: LanInterface) -> nat {
    ones(i.netmask.octets@[0] as nat) + ones(i.netmask.octets@[1] as nat)
        + ones(i.netmask.octets@[2] as nat) + ones(i.netmask.octets@[3] as nat)
}

/// One LAN interface as the configuration page lists it; `prefer` is the
/// interface's subnet prefix for `--prefer-ip`, computed by the caller.
pub open spec fn interface_text(i: LanInterface, prefer: Seq<char>) -> Seq<char> {
    "{\"cidr\":"@ + json_string(network_text(i) + seq!['/'] + decimal(prefix_of(i)))
        + ",\"ip\":"@ + json_string(dotted(i.ip)) + ",\"name\":"@ + json_string(i.name@)
        + ",\"netmask\":"@ + json_string(dotted(i.netmask)) + ",\"network\":"@
        + json_string(network_text(i)) + ",\"prefer\":"@ + json_string(prefer)
        + ",\"prefix_len\":"@ + decimal(prefix_of(i)) + "}"@
}

/// The interfaces, with their subnet prefixes, as a JSON array.
pub open spec fn interfaces_text(ifaces: Seq<LanInterface>, prefers: Seq<Seq<char>>) -> Seq<char> {
    json_array(Seq::new(ifaces.len(), |k: int| interface_text(ifaces[k], prefers[k])))
}

fn interface_json(i: &LanInterface) -> (r: String)
    ensures
        r@ == interface_text(*i, crate::net::leading_octets(i.ip, crate::net::prefix_segments(prefix_of(*i)))),
{
    let prefer = i.prefer_prefix();
    let cidr = i.cidr();
    let network = i.network();
    let mut net_text = String::new();
    push_dotted(&mut net_text, &network);
    proof {
        assert(dotted(network) =~= network_text(*i)) by {
            assert(network.octets@[0] == (i.ip.octets@[0] & i.netmask.octets@[0]));
            assert(network.octets@[1] == (i.ip.octets@[1] & i.netmask.octets@[1]));
            assert(network.octets@[2] == (i.ip.octets@[2] & i.netmask.octets@[2]));
            assert(network.octets@[3] == (i.ip.octets@[3] & i.netmask.octets@[3]));
        }
    }
    let mut s = String::new();
    push_str(&mut s, "{\"cidr\":");
    push_json_string(&mut s, cidr.as_str());
    push_str(&mut s, ",\"ip\":");
    let mut ip = String::new();
    push_dotted(&mut ip, &i.ip);
    push_json_string(&mut s, ip.as_str());
    push_str(&mut s, ",\"name\":");
    push_json_string(&mut s, i.name.as_str());
    push_str(&mut s, ",\"netmask\":");
    let mut mask = String::new();
    push_dotted(&mut mask, &i.netmask);
    push_json_string(&mut s, mask.as_str());
    push_str(&mut s, ",\"network\":");
    push_json_string(&mut s, net_text.as_str());
    push_str(&mut s, ",\"prefer\":");
    push_json_string(&mut s, prefer.as_str());
    push_str(&mut s, ",\"prefix_len\":");
    let p = i.prefix_len();
    push_decimal(&mut s, p as u64);
    push_str(&mut s, "}");
    proof {
        assert(ip@ =~= dotted(i.ip));
        assert(mask@ =~= dotted(i.netmask));
        assert(s@ =~= interface_text(*i, prefer@));
    }
    s
}

/// The reply of `GET /api/local_ips`: each interface with its address,
/// netmask, network, CIDR, prefix length, name and subnet prefix.
pub fn interfaces_json(ifaces: &[LanInterface]) -> (r: String)
    ensures
        r@ == interfaces_text(ifaces@, Seq::new(ifaces@.len(), |k: int|
            crate::net::leading_octets(ifaces@[k].ip, crate::net::prefix_segments(prefix_of(ifaces@[k]))))),
{
    let ghost prefers = Seq::new(ifaces@.len(), |k: int|
        crate::net::leading_octets(ifaces@[k].ip, crate::net::prefix_segments(prefix_of(ifaces@[k]))));
    let ghost items = Seq::new(ifaces@.len(), |k: int| interface_text(ifaces@[k], prefers[k]));
    let mut body = String::new();
    let mut i: usize = 0;
    while i < ifaces.len()
        invariant
            i <= ifaces@.len(),
            ifaces@.len() == ifaces.len(),
            items.len() == ifaces@.len(),
            forall|k: int| 0 <= k < items.len() ==> #[trigger] items[k] == interface_text(ifaces@[k], prefers[k]),
            forall|k: int| 0 <= k < ifaces@.len() ==> #[trigger] prefers[k]
                == crate::net::leading_octets(ifaces@[k].ip, crate::net::prefix_segments(prefix_of(ifaces@[k]))),
            body@ == joined(items.take(i as int)),
        decreases ifaces.len() - i,
    {
        let item = interface_json(&ifaces[i]);
        if i > 0 {
            push_char(&mut body, ',');
        }
        push_str(&mut body, item.as_str());
        proof {
            let t = items.take(i + 1);
            assert(t.drop_last() =~= items.take(i as int));
            assert(t.last() == items[i as int]);
            assert(body@ =~= joined(t));
        }
        i = i + 1;
    }
    let mut s = String::new();
    push_char(&mut s, '[');
    push_str(&mut s, body.as_str());
    push_char(&mut s, ']');
    proof {
        assert(items.take(items.len() as int) =~= items);
        assert(s@ =~= interfaces_text(ifaces@, prefers));
    }
    s
}

/// A directory of the directory browser.
pub open spec fn dir_entry_text(name: Seq<char>) -> Seq<char> {
    "{\"is_dir\":true,\"name\":"@ + json_string(name) + "}"@
}

/// A directory listing: the directory shown, its parent (`null` at the
/// top) and its subdirectories.
pub open spec fn listing_text(current: Seq<char>, parent: Option<Seq<char>>, names: Seq<Seq<char>>) -> Seq<char> {
    "{\"current\":"@ + json_string(current) + ",\"entries\":"@
        + json_array(Seq::new(names.len(), |k: int| dir_entry_text(names[k])))
        + ",\"parent\":"@ + json_opt_string(parent) + "}"@
}

/// The reply of `GET /api/list_dir` for a directory.
pub fn listing_json(current: &str, parent: &Option<String>, names: &[String]) -> (r: String)
    ensures
        r@ == listing_text(current@, match parent { Some(p) => Some(p@), None => None },
            names@.map_values(|n: String| n@)),
{
    let ghost nv = names@.map_values(|n: String| n@);
    let ghost items = Seq::new(nv.len(), |k: int| dir_entry_text(nv[k]));
    let mut body = String::new();
    let mut i: usize = 0;
    while i < names.len()
        invariant
            i <= names@.len(),
            names@.len() == names.len(),
            nv == names@.map_values(|n: String| n@),
            items == Seq::new(nv.len(), |k: int| dir_entry_text(nv[k])),
            body@ == joined(items.take(i as int)),
        decreases names.len() - i,
    {
        let ghost before = body@;
        if i > 0 {
            push_char(&mut body, ',');
        }
        push_str(&mut body, "{\"is_dir\":true,\"name\":");
        push_json_string(&mut body, names[i].as_str());
        push_str(&mut body, "}");
        proof {
            let t = items.take(i + 1);
            assert(t.drop_last() =~= items.take(i as int));
            assert(t.last() == items[i as int]);
            assert(nv[i as int] == names@[i as int]@);
            assert(body@ =~= joined(t));
        }
        i = i + 1;
    }
    let mut s = String::new();
    push_str(&mut s, "{\"current\":");
    push_json_string(&mut s, current);
    push_str(&mut s, ",\"entries\":");
    push_char(&mut s, '[');
    push_str(&mut s, body.as_str());
    push_char(&mut s, ']');
    push_str(&mut s, ",\"parent\":");
    push_opt_string(&mut s, parent);
    push_str(&mut s, "}");
    proof {
        assert(items.take(items.len() as int) =~= items);
        assert(s@ =~= listing_text(current@, match parent { Some(p) => Some(p@), None => None }, nv));
    }
    s
}

/// A top-level entry of the directory browser.
pub open spec fn root_entry_text(e: RootEntry) -> Seq<char> {
    "{\"is_dir\":true,\"name\":"@ + json_string(e.name@) + ",\"path\":"@ + json_string(e.path@) + "}"@
}

/// The top-level view of the directory browser.
pub open spec fn roots_text(entries: Seq<RootEntry>) -> Seq<char> {
    "{\"current\":\"roots\",\"entries\":"@
        + json_array(Seq::new(entries.len(), |k: int| root_entry_text(entries[k])))
        + ",\"is_roots\":true,\"parent\":null}"@
}

/// The reply of `GET /api/list_dir?path=roots`.
pub fn roots_json(entries: &[RootEntry]) -> (r: String)
    ensures
        r@ == roots_text(entries@),
{
    let ghost items = Seq::new(entries@.len(), |k: int| root_entry_text(entries@[k]));
    let mut body = String::new();
    let mut i: usize = 0;
    while i < entries.len()
        invariant
            i <= entries@.len(),
            entries@.len() == entries.len(),
            items == Seq::new(entries@.len(), |k: int| root_entry_text(entries@[k])),
            body@ == joined(items.take(i as int)),
        decreases entries.len() - i,
    {
        if i > 0 {
            push_char(&mut body, ',');
        }
        push_str(&mut body, "{\"is_dir\":true,\"name\":");
        push_json_string(&mut body, entries[i].name.as_str());
        push_str(&mut body, ",\"path\":");
        push_json_string(&mut body, entries[i].path.as_str());
        push_str(&mut body, "}");
        proof {
            let t = items.take(i + 1);
            assert(t.drop_last() =~= items.take(i as int));
            assert(t.last() == items[i as int]);
            assert(body@ =~= joined(t));
        }
        i = i + 1;
    }
    let mut s = String::new();
    push_str(&mut s, "{\"current\":\"roots\",\"entries\":");
    push_char(&mut s, '[');
    push_str(&mut s, body.as_str());
    push_char(&mut s, ']');
    push_str(&mut s, ",\"is_roots\":true,\"parent\":null}");
    proof {
        assert(items.take(items.len() as int) =~= items);
    }
    s
}

} // verus!
