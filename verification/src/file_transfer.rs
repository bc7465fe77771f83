//! File transfer rules: safe file names, conflict renaming, download headers,
//! the one-shot transfer registry and the upload size limit.

use vstd::prelude::*;
use crate::text::{chars_of, push_char, push_str, string_of};
use crate::token::is_lower_hex;

verus! {

broadcast use vstd::utf8::group_utf8_lib;

// ---------------------------------------------------------------------------
// File names
// ---------------------------------------------------------------------------

/// Path separators: both the Unix `/` and the Windows `\`.
pub open spec fn is_separator(c: char) -> bool {
    c == '/' || c == '\\'
}

/// The name `.` of the current directory.
pub open spec fn dot() -> Seq<char> {
    seq!['.']
}

/// The name `..` of the parent directory.
pub open spec fn dot_dot() -> Seq<char> {
    seq!['.', '.']
}

/// A path component that names a file: not empty, not `.`, not `..`.
pub open spec fn is_name(seg: Seq<char>) -> bool {
    seg.len() > 0 && seg != dot() && seg != dot_dot()
}

/// Closing a component: the last file-naming component seen so far, and
/// whether a `..` component has been seen.
pub open spec fn close_component(cur: Seq<char>, last: Option<Seq<char>>, parent: bool) -> (Option<Seq<char>>, bool) {
    (if is_name(cur) { Some(cur) } else { last }, parent || cur == dot_dot())
}

/// Scanning a path left to right: the component being read, the last
/// file-naming component already closed, and whether a `..` was closed.
pub open spec fn scan_path(s: Seq<char>) -> (Seq<char>, Option<Seq<char>>, bool)
    decreases s.len(),
{
    if s.len() == 0 {
        (Seq::empty(), None, false)
    } else {
        let prev = scan_path(s.drop_last());
        let c = s.last();
        if is_separator(c) {
            let closed = close_component(prev.0, prev.1, prev.2);
            (Seq::empty(), closed.0, closed.1)
        } else {
            (prev.0.push(c), prev.1, prev.2)
        }
    }
}

/// The file name kept from an uploaded name: the last component of the path
/// that is neither empty nor `.`; nothing at all when any component is `..`
/// or when no component names a file.
pub open spec fn sanitized(s: Seq<char>) -> Option<Seq<char>> {
    let st = scan_path(s);
    let closed = close_component(st.0, st.1, st.2);
    if closed.1 {
        None
    } else {
        closed.0
    }
}

/// A file name holds no separator and is not `.`, `..` or empty.
pub open spec fn is_plain_file_name(n: Seq<char>) -> bool {
    is_name(n) && forall|i: int| 0 <= i < n.len() ==> !is_separator(#[trigger] n[i])
}

proof fn lemma_scan_path_shape(s: Seq<char>)
    ensures
        forall|i: int| 0 <= i < scan_path(s).0.len() ==> !is_separator(#[trigger] scan_path(s).0[i]),
        scan_path(s).1 matches Some(n) ==> is_plain_file_name(n),
    decreases s.len(),
{
    if s.len() > 0 {
        lemma_scan_path_shape(s.drop_last());
        let prev = scan_path(s.drop_last());
        if !is_separator(s.last()) {
            assert forall|i: int| 0 <= i < scan_path(s).0.len() implies !is_separator(#[trigger] scan_path(s).0[i]) by {
                if i < prev.0.len() {
                    assert(scan_path(s).0[i] == prev.0[i]);
                }
            }
        }
    }
}

/// Whatever is uploaded, a kept name is a plain file name: it cannot climb
/// out of the save directory or name a directory.
pub proof fn lemma_sanitized_is_plain(s: Seq<char>)
    ensures
        sanitized(s) matches Some(n) ==> is_plain_file_name(n),
{
    lemma_scan_path_shape(s);
}

proof fn lemma_scan_plain(s: Seq<char>)
    requires
        forall|i: int| 0 <= i < s.len() ==> !is_separator(#[trigger] s[i]),
    ensures
        scan_path(s) == (s, None::<Seq<char>>, false),
    decreases s.len(),
{
    if s.len() > 0 {
        lemma_scan_plain(s.drop_last());
        assert(!is_separator(s[s.len() - 1]));
        assert(s.drop_last().push(s.last()) =~= s);
    }
}

/// Sanitizing is idempotent: a kept name, uploaded again, is kept as it is.
pub proof fn law_sanitize_is_idempotent(s: Seq<char>)
    ensures
        sanitized(s) matches Some(n) ==> sanitized(n) == Some(n),
{
    lemma_scan_path_shape(s);
    if let Some(n) = sanitized(s) {
        lemma_scan_plain(n);
    }
}

proof fn lemma_scan_cur(s: Seq<char>)
    ensures
        scan_path(s).0.len() <= s.len(),
        scan_path(s).0 == s.subrange(s.len() - scan_path(s).0.len(), s.len() as int),
        s.len() - scan_path(s).0.len() == 0 || is_separator(s[s.len() - scan_path(s).0.len() - 1]),
        forall|k: int| s.len() - scan_path(s).0.len() <= k < s.len() ==> !is_separator(#[trigger] s[k]),
    decreases s.len(),
{
    if s.len() > 0 {
        let t = s.drop_last();
        lemma_scan_cur(t);
        let c = s.last();
        if is_separator(c) {
            assert(s.subrange(s.len() as int, s.len() as int) =~= Seq::<char>::empty());
        } else {
            let j = t.len() - scan_path(t).0.len();
            assert(scan_path(s).0 =~= s.subrange(j, s.len() as int));
            assert forall|k: int| j <= k < s.len() implies !is_separator(#[trigger] s[k]) by {
                if k < t.len() {
                    assert(s[k] == t[k]);
                }
            }
            if j > 0 {
                assert(s[j - 1] == t[j - 1]);
            }
        }
    }
}

proof fn lemma_cur_is_dot_dot(t: Seq<char>, k: int)
    requires
        parent_component_at(t, k),
        k + 2 == t.len(),
    ensures
        scan_path(t).0 == dot_dot(),
{
    lemma_scan_cur(t);
    let j = t.len() - scan_path(t).0.len();
    if j > k {
        assert(!is_separator(t[j - 1]));
    } else if j < k {
        assert(!is_separator(t[k - 1]));
    }
    assert(j == k);
    assert(scan_path(t).0 =~= dot_dot());
}

proof fn lemma_scan_parent(s: Seq<char>, k: int)
    requires
        parent_component_at(s, k),
        k + 2 < s.len(),
    ensures
        scan_path(s).2,
    decreases s.len(),
{
    let t = s.drop_last();
    if k + 2 < s.len() - 1 {
        assert(parent_component_at(t, k)) by {
            assert(t[k] == s[k] && t[k + 1] == s[k + 1] && t[k + 2] == s[k + 2]);
            if k > 0 {
                assert(t[k - 1] == s[k - 1]);
            }
        }
        lemma_scan_parent(t, k);
    } else {
        assert(parent_component_at(t, k)) by {
            assert(t[k] == s[k] && t[k + 1] == s[k + 1]);
            if k > 0 {
                assert(t[k - 1] == s[k - 1]);
            }
        }
        lemma_cur_is_dot_dot(t, k);
    }
}

/// What sanitizing keeps is a plain file name (not empty, `.` or `..`, no
/// separator) that sanitizing keeps again as it is; any name with a `..`
/// component is refused.
pub proof fn law_sanitize_filename(s: Seq<char>)
    ensures
        sanitized(s) matches Some(n) ==> is_plain_file_name(n) && sanitized(n) == Some(n),
        has_parent_component(s) ==> sanitized(s) is None,
{
    lemma_sanitized_is_plain(s);
    law_sanitize_is_idempotent(s);
    if has_parent_component(s) {
        let k = choose|k: int| #[trigger] parent_component_at(s, k);
        if k + 2 < s.len() {
            lemma_scan_parent(s, k);
        } else {
            lemma_cur_is_dot_dot(s, k);
        }
    }
}

/// A name is kept as it is by sanitizing exactly when it is a plain file
/// name.
pub proof fn law_plain_names_sanitize_to_themselves(n: Seq<char>)
    ensures
        sanitized(n) == Some(n) <==> is_plain_file_name(n),
{
    lemma_sanitized_is_plain(n);
    if is_plain_file_name(n) {
        lemma_scan_plain(n);
    }
}

/// `..` stands as a whole path component of `s` at position `k`.
pub open spec fn parent_component_at(s: Seq<char>, k: int) -> bool {
    0 <= k && k + 2 <= s.len() && s[k] == '.' && s[k + 1] == '.' && (k == 0 || is_separator(s[k - 1]))
        && (k + 2 == s.len() || is_separator(s[k + 2]))
}

/// Some path component of `s` is `..`.
pub open spec fn has_parent_component(s: Seq<char>) -> bool {
    exists|k: int| #[trigger] parent_component_at(s, k)
}

/// `s` starts at a root (`/x`, `\x`, `\\server\x`).
pub open spec fn is_rooted(s: Seq<char>) -> bool {
    s.len() > 0 && is_separator(s[0])
}

/// `s` starts with a drive letter (`C:`).
pub open spec fn has_drive(s: Seq<char>) -> bool {
    s.len() >= 2 && s[1] == ':' && (('a' <= s[0] && s[0] <= 'z') || ('A' <= s[0] && s[0] <= 'Z'))
}

/// A relative path that cannot leave the directory it is joined to: no
/// root, no drive, no `..` component.
pub open spec fn stays_inside(s: Seq<char>) -> bool {
    !is_rooted(s) && !has_drive(s) && !has_parent_component(s)
}

/// Whether a name, joined to a directory, stays inside it (see
/// [`stays_inside`]): `d/x` and `a.txt` do, `/etc/x`, `C:\\x` and `../x` do not.
pub fn is_contained_name(s: &str) -> (r: bool)
    ensures
        r == stays_inside(s@),
{
    let v = chars_of(s);
    let n = v.len();
    if n > 0 && (v[0] == '/' || v[0] == '\\') {
        return false;
    }
    if n >= 2 && v[1] == ':' && (('a' <= v[0] && v[0] <= 'z') || ('A' <= v[0] && v[0] <= 'Z')) {
        return false;
    }
    let mut k: usize = 0;
    while n > 0 && k < n - 1
        invariant
            n == v@.len(),
            n == v.len(),
            v@ == s@,
            k <= n,
            forall|j: int| 0 <= j < k ==> !#[trigger] parent_component_at(v@, j),
        decreases n - k,
    {
        if v[k] == '.' && v[k + 1] == '.' && (k == 0 || v[k - 1] == '/' || v[k - 1] == '\\')
            && (k + 2 == n || v[k + 2] == '/' || v[k + 2] == '\\') {
            assert(parent_component_at(v@, k as int));
            return false;
        }
        k = k + 1;
    }
    assert forall|j: int| !#[trigger] parent_component_at(v@, j) by {
        if 0 <= j && j + 2 <= n {
            assert(j < k);
        }
    }
    true
}

/// Reduces an uploaded name to a bare file name, refusing path traversal:
/// `/etc/passwd` gives `passwd`, `a\b\c.txt` gives `c.txt`, and `../x`,
/// `..`, `.` and the empty name give nothing.
pub fn sanitize_filename(raw: &str) -> (r: Option<String>)
    ensures
        r matches Some(n) ==> sanitized(raw@) == Some(n@),
        r is None ==> sanitized(raw@) is None,
        r matches Some(n) ==> is_plain_file_name(n@),
        r matches Some(n) ==> sanitized(n@) == Some(n@),
        has_parent_component(raw@) ==> r is None,
{
    proof {
        law_sanitize_filename(raw@);
    }
    let v = chars_of(raw);
    let mut cur: Vec<char> = Vec::new();
    let mut last: Option<Vec<char>> = None;
    let mut parent = false;
    let mut i: usize = 0;
    while i < v.len()
        invariant
            i <= v@.len(),
            v@ == raw@,
            scan_path(v@.take(i as int)) == (cur@, match last { Some(l) => Some(l@), None => None::<Seq<char>> }, parent),
        decreases v.len() - i,
    {
        let c = v[i];
        proof {
            assert(v@.take(i + 1).drop_last() =~= v@.take(i as int));
            assert(v@.take(i + 1).last() == c);
        }
        if c == '/' || c == '\\' {
            let is_dd = cur.len() == 2 && cur[0] == '.' && cur[1] == '.';
            let is_d = cur.len() == 1 && cur[0] == '.';
            proof {
                if is_dd { assert(cur@ =~= dot_dot()); }
                if !is_dd { assert(cur@ != dot_dot()); }
                if is_d { assert(cur@ =~= dot()); }
                if !is_d { assert(cur@ != dot()); }
            }
            if cur.len() > 0 && !is_d && !is_dd {
                last = Some(cur);
            }
            parent = parent || is_dd;
            cur = Vec::new();
            proof {
                assert(cur@ =~= Seq::<char>::empty());
            }
        } else {
            cur.push(c);
        }
        i = i + 1;
    }
    assert(v@.take(v@.len() as int) =~= v@);
    let is_dd = cur.len() == 2 && cur[0] == '.' && cur[1] == '.';
    let is_d = cur.len() == 1 && cur[0] == '.';
    proof {
        if is_dd { assert(cur@ =~= dot_dot()); }
        if !is_dd { assert(cur@ != dot_dot()); }
        if is_d { assert(cur@ =~= dot()); }
        if !is_d { assert(cur@ != dot()); }
        lemma_sanitized_is_plain(raw@);
        law_sanitize_is_idempotent(raw@);
    }
    if parent || is_dd {
        return None;
    }
    if cur.len() > 0 && !is_d {
        return Some(string_of(cur.as_slice()));
    }
    match last {
        Some(l) => Some(string_of(l.as_slice())),
        None => None,
    }
}

// ---------------------------------------------------------------------------
// Conflict renaming
// ---------------------------------------------------------------------------

/// Position of the last `.` in `s`, if any.
pub open spec fn last_dot(s: Seq<char>) -> Option<int>
    decreases s.len(),
{
    if s.len() == 0 {
        None
    } else if s.last() == '.' {
        Some(s.len() - 1)
    } else {
        last_dot(s.drop_last())
    }
}

proof fn lemma_last_dot_bounds(s: Seq<char>)
    ensures
        last_dot(s) matches Some(i) ==> 0 <= i < s.len(),
    decreases s.len(),
{
    if s.len() > 0 && s.last() != '.' {
        lemma_last_dot_bounds(s.drop_last());
    }
}

/// Where the extension starts: at the last `.` unless that dot is the first
/// character (a dot file has no extension); at the end when there is none.
pub open spec fn ext_start(s: Seq<char>) -> int {
    match last_dot(s) {
        Some(i) => if i > 0 { i } else { s.len() as int },
        None => s.len() as int,
    }
}

/// The name with `_` and a suffix inserted before its extension:
/// `movie.mkv` with `a3c7f8d2` gives `movie_a3c7f8d2.mkv`.
pub open spec fn with_suffix(name: Seq<char>, suffix: Seq<char>) -> Seq<char> {
    let e = ext_start(name);
    name.subrange(0, e) + seq!['_'] + suffix + name.subrange(e, name.len() as int)
}

/// Eight lower-case hex digits.
pub open spec fn is_short_id(s: Seq<char>) -> bool {
    s.len() == 8 && forall|i: int| 0 <= i < 8 ==> is_lower_hex(#[trigger] s[i])
}

/// A hyphenated lower-case UUID: 36 characters, `-` at 8, 13, 18 and 23,
/// hex digits elsewhere.
pub open spec fn is_uuid_text(s: Seq<char>) -> bool {
    s.len() == 36 && forall|i: int|
        0 <= i < 36 ==> if i == 8 || i == 13 || i == 18 || i == 23 {
            #[trigger] s[i] == '-'
        } else {
            is_lower_hex(s[i])
        }
}

/// A fresh random version-4 UUID in its hyphenated lower-case text form
/// (`uuid::Uuid::new_v4().to_string()`). Only the shape of the text is
/// stated; its digits are random.
#[verifier::external_body]
fn new_uuid_text() -> (r: String)
    ensures
        is_uuid_text(r@),
{
    uuid::Uuid::new_v4().to_string()
}

proof fn lemma_last_dot_at(s: Seq<char>, i: int)
    requires
        0 <= i < s.len(),
        s[i] == '.',
        forall|k: int| i < k < s.len() ==> s[k] != '.',
    ensures
        last_dot(s) == Some(i),
    decreases s.len(),
{
    if i < s.len() - 1 {
        assert(s.last() != '.');
        let t = s.drop_last();
        assert forall|k: int| i < k < t.len() implies t[k] != '.' by {
            assert(t[k] == s[k]);
        }
        lemma_last_dot_at(t, i);
    }
}

proof fn lemma_no_dot(s: Seq<char>)
    requires
        forall|k: int| 0 <= k < s.len() ==> s[k] != '.',
    ensures
        last_dot(s) is None,
    decreases s.len(),
{
    if s.len() > 0 {
        assert(s.last() != '.');
        let t = s.drop_last();
        assert forall|k: int| 0 <= k < t.len() implies t[k] != '.' by {
            assert(t[k] == s[k]);
        }
        lemma_no_dot(t);
    }
}

/// The conflict name built from a UUID: the name with `_` and the UUID's
/// first eight hex digits before its extension.
pub fn conflict_name(name: &str, uuid: &str) -> (r: String)
    requires
        is_uuid_text(uuid@),
    ensures
        r@ == with_suffix(name@, uuid@.take(8)),
        is_short_id(uuid@.take(8)),
{
    let v = chars_of(name);
    let mut e: usize = v.len();
    let mut k: usize = v.len();
    while k > 0 && v[k - 1] != '.'
        invariant
            k <= v@.len(),
            v@ == name@,
            forall|j: int| k <= j < v@.len() ==> v@[j] != '.',
        decreases k,
    {
        k = k - 1;
    }
    proof {
        if k > 0 {
            lemma_last_dot_at(v@, k - 1);
        } else {
            lemma_no_dot(v@);
        }
    }
    if k > 1 {
        e = k - 1;
    }
    assert(e == ext_start(v@));
    let idc = chars_of(uuid);
    let mut sfx: Vec<char> = Vec::new();
    let mut t: usize = 0;
    while t < 8
        invariant
            t <= 8,
            idc@ == uuid@,
            is_uuid_text(uuid@),
            sfx@ == idc@.take(t as int),
        decreases 8 - t,
    {
        sfx.push(idc[t]);
        proof {
            assert(sfx@ =~= idc@.take(t + 1));
        }
        t = t + 1;
    }
    let mut out: Vec<char> = Vec::new();
    let mut i: usize = 0;
    while i < e
        invariant
            i <= e <= v@.len(),
            out@ == v@.subrange(0, i as int),
        decreases e - i,
    {
        out.push(v[i]);
        proof {
            assert(out@ =~= v@.subrange(0, i + 1));
        }
        i = i + 1;
    }
    out.push('_');
    let ghost mid = out@;
    let mut j: usize = 0;
    while j < 8
        invariant
            j <= 8,
            sfx@.len() == 8,
            out@ == mid + sfx@.take(j as int),
        decreases 8 - j,
    {
        out.push(sfx[j]);
        proof {
            assert(out@ =~= mid + sfx@.take(j + 1));
        }
        j = j + 1;
    }
    let ghost mid2 = out@;
    let mut m: usize = e;
    while m < v.len()
        invariant
            e <= m <= v@.len(),
            out@ == mid2 + v@.subrange(e as int, m as int),
        decreases v.len() - m,
    {
        out.push(v[m]);
        proof {
            assert(out@ =~= mid2 + v@.subrange(e as int, m + 1));
        }
        m = m + 1;
    }
    proof {
        assert(sfx@.take(8) =~= sfx@);
        assert(is_short_id(sfx@)) by {
            assert forall|q: int| 0 <= q < 8 implies is_lower_hex(#[trigger] sfx@[q]) by {
                assert(sfx@[q] == uuid@[q]);
            }
        }
        assert(out@ =~= with_suffix(name@, sfx@));
    }
    string_of(out.as_slice())
}

/// The file name to save an upload under: the name itself when no file of
/// that name exists (`taken` is false), else the name with `_` and eight
/// random hex digits before its extension (`movie.mkv` → `movie_a3c7f8d2.mkv`,
/// `README` → `README_a3c7f8d2`).
/// The random digits are the first eight of a UUID drawn for this call.
pub fn resolve_conflict(name: &str, taken: bool) -> (r: String)
    ensures
        !taken ==> r@ == name@,
        taken ==> exists|sfx: Seq<char>| is_short_id(sfx) && r@ == with_suffix(name@, sfx),
        taken ==> exists|u: Seq<char>| is_uuid_text(u) && r@ == with_suffix(name@, u.take(8)),
{
    if !taken {
        return name.to_owned();
    }
    let id = new_uuid_text();
    let r = conflict_name(name, id.as_str());
    proof {
        assert(is_short_id(id@.take(8)));
    }
    r
}

/// Different suffixes give different conflict names for the same name:
/// two uploads renamed with different random digits never collide.
pub proof fn law_conflict_names_differ(name: Seq<char>, a: Seq<char>, b: Seq<char>)
    requires
        a.len() == b.len(),
        a != b,
    ensures
        with_suffix(name, a) != with_suffix(name, b),
{
    let e = ext_start(name);
    assert(0 <= e <= name.len()) by {
        lemma_last_dot_bounds(name);
    }
    if with_suffix(name, a) == with_suffix(name, b) {
        assert(a =~= b) by {
            assert forall|k: int| 0 <= k < a.len() implies a[k] == b[k] by {
                assert(with_suffix(name, a)[e + 1 + k] == a[k]);
                assert(with_suffix(name, b)[e + 1 + k] == b[k]);
            }
        }
    }
}

// ---------------------------------------------------------------------------
// Download headers
// ---------------------------------------------------------------------------

/// Bytes kept as they are in a percent-encoded file name: ASCII letters,
/// digits and `-`, `_`, `.`, `~`.
pub open spec fn is_unreserved(b: u8) -> bool {
    (65 <= b <= 90) || (97 <= b <= 122) || (48 <= b <= 57) || b == 45 || b == 95 || b == 46 || b == 126
}

/// Upper-case hex digit of `n < 16`.
pub open spec fn hex_upper(n: nat) -> char {
    if n < 10 {
        (n + 48) as char
    } else {
        (n + 55) as char
    }
}

/// How one byte of the UTF-8 name is written.
pub open spec fn pct_byte(b: u8) -> Seq<char> {
    if is_unreserved(b) {
        seq![b as char]
    } else {
        seq!['%', hex_upper((b / 16) as nat), hex_upper((b % 16) as nat)]
    }
}

/// RFC 3986 percent-encoding of a byte sequence.
pub open spec fn pct_encode(bytes: Seq<u8>) -> Seq<char>
    decreases bytes.len(),
{
    if bytes.len() == 0 {
        Seq::empty()
    } else {
        pct_encode(bytes.drop_last()) + pct_byte(bytes.last())
    }
}

/// A character a percent-encoded name may hold: an unreserved ASCII
/// character or `%`.
pub open spec fn is_pct_char(c: char) -> bool {
    c == '%' || ('A' <= c && c <= 'Z') || ('a' <= c && c <= 'z') || ('0' <= c && c <= '9') || c == '-'
        || c == '_' || c == '.' || c == '~'
}

/// Whatever the file name, its encoding holds only unreserved ASCII and
/// `%` escapes, so the download header can always be formed.
pub proof fn law_encoded_name_is_header_safe(bytes: Seq<u8>)
    ensures
        forall|k: int| 0 <= k < pct_encode(bytes).len() ==> is_pct_char(#[trigger] pct_encode(bytes)[k]),
    decreases bytes.len(),
{
    if bytes.len() > 0 {
        law_encoded_name_is_header_safe(bytes.drop_last());
        let head = pct_encode(bytes.drop_last());
        let b = bytes.last();
        let tail = pct_byte(b);
        assert forall|k: int| 0 <= k < tail.len() implies is_pct_char(#[trigger] tail[k]) by {
            if !is_unreserved(b) && k > 0 {
                let n: nat = if k == 1 { (b / 16) as nat } else { (b % 16) as nat };
                assert(n < 16);
                assert(tail[k] == hex_upper(n));
            }
        }
        assert forall|k: int| 0 <= k < pct_encode(bytes).len() implies is_pct_char(#[trigger] pct_encode(bytes)[k]) by {
            if k < head.len() {
                assert(pct_encode(bytes)[k] == head[k]);
            } else {
                assert(pct_encode(bytes)[k] == tail[k - head.len()]);
            }
        }
    }
}

/// How many bytes percent-encoding escapes.
pub open spec fn escaped_count(bytes: Seq<u8>) -> nat
    decreases bytes.len(),
{
    if bytes.len() == 0 {
        0
    } else {
        escaped_count(bytes.drop_last()) + (if is_unreserved(bytes.last()) { 0nat } else { 1nat })
    }
}

/// The encoding is two characters longer than the name's UTF-8 bytes for
/// every escaped byte.
pub proof fn law_encoded_length(bytes: Seq<u8>)
    ensures
        pct_encode(bytes).len() == bytes.len() + 2 * escaped_count(bytes),
    decreases bytes.len(),
{
    if bytes.len() > 0 {
        law_encoded_length(bytes.drop_last());
    }
}

/// The value of an upper-case hex digit.
pub open spec fn hex_value(c: char) -> int {
    if '0' <= c && c <= '9' {
        (c as int) - 48
    } else {
        (c as int) - 55
    }
}

/// RFC 3986 percent-decoding: `%XX` gives the byte `0xXX`, any other
/// character the byte of its code.
pub open spec fn pct_decode(s: Seq<char>) -> Seq<u8>
    decreases s.len(),
{
    if s.len() == 0 {
        Seq::empty()
    } else if s[0] == '%' && s.len() >= 3 {
        seq![(hex_value(s[1]) * 16 + hex_value(s[2])) as u8] + pct_decode(s.subrange(3, s.len() as int))
    } else {
        seq![s[0] as u8] + pct_decode(s.drop_first())
    }
}

proof fn lemma_pct_encode_front(bytes: Seq<u8>)
    requires
        bytes.len() > 0,
    ensures
        pct_encode(bytes) == pct_byte(bytes[0]) + pct_encode(bytes.drop_first()),
    decreases bytes.len(),
{
    if bytes.len() == 1 {
        assert(bytes.drop_last() =~= Seq::<u8>::empty());
        assert(bytes.drop_first() =~= Seq::<u8>::empty());
        assert(pct_encode(bytes) =~= pct_byte(bytes[0]) + pct_encode(bytes.drop_first()));
    } else {
        lemma_pct_encode_front(bytes.drop_last());
        assert(bytes.drop_last().drop_first() =~= bytes.drop_first().drop_last());
        assert(bytes.drop_first().last() == bytes.last());
        assert(pct_encode(bytes) =~= pct_byte(bytes[0]) + pct_encode(bytes.drop_first()));
    }
}

/// Percent-decoding the encoding of a name gives its UTF-8 bytes back.
pub proof fn law_encoding_decodes_back(bytes: Seq<u8>)
    ensures
        pct_decode(pct_encode(bytes)) == bytes,
    decreases bytes.len(),
{
    if bytes.len() == 0 {
        assert(pct_encode(bytes) =~= Seq::<char>::empty());
    } else {
        lemma_pct_encode_front(bytes);
        law_encoding_decodes_back(bytes.drop_first());
        let x = bytes[0];
        let rest = pct_encode(bytes.drop_first());
        let s = pct_byte(x) + rest;
        if is_unreserved(x) {
            assert(s[0] == x as char);
            assert(s[0] != '%');
            assert(s.drop_first() =~= rest);
            assert((x as char) as u8 == x);
        } else {
            let hi = (x / 16) as nat;
            let lo = (x % 16) as nat;
            assert(s[0] == '%' && s[1] == hex_upper(hi) && s[2] == hex_upper(lo));
            assert(hex_value(hex_upper(hi)) == hi);
            assert(hex_value(hex_upper(lo)) == lo);
            assert(s.subrange(3, s.len() as int) =~= rest);
            assert((hi * 16 + lo) as u8 == x);
        }
        assert(pct_decode(s) =~= seq![x] + bytes.drop_first());
        assert(seq![x] + bytes.drop_first() =~= bytes);
    }
}

/// Percent-encodes a file name for an RFC 5987 `filename*` parameter: the
/// UTF-8 bytes of the name, each kept when unreserved, else written `%XX`.
pub fn percent_encode_filename(name: &str) -> (r: String)
    ensures
        r@ == pct_encode(vstd::utf8::encode_utf8(name@)),
{
    let bytes = name.as_bytes();
    let mut out = String::new();
    let mut i: usize = 0;
    while i < bytes.len()
        invariant
            i <= bytes@.len(),
            bytes@ == vstd::utf8::encode_utf8(name@),
            out@ == pct_encode(bytes@.take(i as int)),
        decreases bytes.len() - i,
    {
        let b = bytes[i];
        let ghost before = out@;
        if (65 <= b && b <= 90) || (97 <= b && b <= 122) || (48 <= b && b <= 57) || b == 45 || b == 95
            || b == 46 || b == 126 {
            push_char(&mut out, b as char);
        } else {
            let hi: u8 = b / 16;
            let lo: u8 = b % 16;
            let ch = if hi < 10 { (hi + 48) as char } else { (hi + 55) as char };
            let cl = if lo < 10 { (lo + 48) as char } else { (lo + 55) as char };
            push_char(&mut out, '%');
            push_char(&mut out, ch);
            push_char(&mut out, cl);
        }
        proof {
            assert(out@ =~= before + pct_byte(b));
            assert(bytes@.take(i + 1).drop_last() =~= bytes@.take(i as int));
        }
        i = i + 1;
    }
    assert(bytes@.take(bytes@.len() as int) =~= bytes@);
    out
}

/// The `Content-Disposition` value of a download.
pub open spec fn disposition_text(name: Seq<char>) -> Seq<char> {
    "attachment; filename*=UTF-8''"@ + pct_encode(vstd::utf8::encode_utf8(name))
}

/// `attachment; filename*=UTF-8''<percent-encoded name>`: makes the browser
/// save the file under its own (possibly non-ASCII) name.
pub fn content_disposition(name: &str) -> (r: String)
    ensures
        r@ == disposition_text(name@),
{
    let mut s = String::new();
    push_str(&mut s, "attachment; filename*=UTF-8''");
    let enc = percent_encode_filename(name);
    push_str(&mut s, enc.as_str());
    s
}

// ---------------------------------------------------------------------------
// Transfer registry
// ---------------------------------------------------------------------------

/// How long a registered transfer stays valid: five minutes, in milliseconds.
pub const ENTRY_TTL_MS: u64 = 300_000;

/// An upload the phone announced and may now send (`POST /upload/{id}`).
pub struct UploadMeta {
    pub name: String,
    pub size: u64,
    /// Registration time, in milliseconds of the server's monotonic clock.
    pub created_at: u64,
}

/// A file the phone may now fetch (`GET /download/{id}`).
pub struct DownloadMeta {
    pub path: String,
    pub name: String,
    pub size: u64,
    pub mime: String,
    /// Registration time, in milliseconds of the server's monotonic clock.
    pub created_at: u64,
}

/// The reply to a finished upload: the name the file was saved under.
pub struct UploadResponse {
    pub name: String,
}

/// Entries that carry their registration time.
pub trait Timestamped {
    spec fn created(&self) -> u64;

    fn created_at(&self) -> (r: u64)
        ensures
            r == self.created(),
    ;
}

impl Timestamped for UploadMeta {
    open spec fn created(&self) -> u64 {
        self.created_at
    }

    fn created_at(&self) -> (r: u64) {
        self.created_at
    }
}

impl Timestamped for DownloadMeta {
    open spec fn created(&self) -> u64 {
        self.created_at
    }

    fn created_at(&self) -> (r: u64) {
        self.created_at
    }
}

/// An entry registered at `created` is still valid at `now`: less than the
/// time to live has passed (no time has passed if the clock reads earlier).
pub open spec fn is_alive(created: u64, now: u64) -> bool {
    (now as int) - (created as int) < ENTRY_TTL_MS as int
}

/// Executable form of [`is_alive`].
pub fn alive_at(created: u64, now: u64) -> (r: bool)
    ensures
        r == is_alive(created, now),
{
    if now <= created {
        true
    } else {
        now - created < ENTRY_TTL_MS
    }
}

/// A table of one-shot transfers keyed by id.
pub struct Table<M> {
    entries: Vec<(String, M)>,
}

impl<M> Table<M> {
    /// Some entry has id `k`.
    pub closed spec fn has(&self, k: Seq<char>) -> bool {
        exists|i: int| 0 <= i < self.entries@.len() && (#[trigger] self.entries@[i]).0@ == k
    }

    /// No id occurs twice.
    pub closed spec fn wf(&self) -> bool {
        forall|i: int, j: int|
            0 <= i < self.entries@.len() && 0 <= j < self.entries@.len() && i != j
                ==> (#[trigger] self.entries@[i]).0@ != (#[trigger] self.entries@[j]).0@
    }

    /// The entries as a map from id to what was registered.
    pub closed spec fn contents(&self) -> Map<Seq<char>, M> {
        Map::new(
            |k: Seq<char>| self.has(k),
            |k: Seq<char>|
                self.entries@[choose|i: int|
                    0 <= i < self.entries@.len() && (#[trigger] self.entries@[i]).0@ == k].1,
        )
    }

    proof fn lemma_entry(&self, i: int)
        requires
            self.wf(),
            0 <= i < self.entries@.len(),
        ensures
            self.contents().dom().contains(self.entries@[i].0@),
            self.contents()[self.entries@[i].0@] == self.entries@[i].1,
    {
        let k = self.entries@[i].0@;
        assert(self.has(k));
        let j = choose|j: int| 0 <= j < self.entries@.len() && (#[trigger] self.entries@[j]).0@ == k;
        assert(j == i);
    }

    /// An empty table.
    pub fn new() -> (r: Self)
        ensures
            r.wf(),
            r.contents() == Map::<Seq<char>, M>::empty(),
    {
        let r = Table { entries: Vec::new() };
        assert(r.contents() =~= Map::<Seq<char>, M>::empty());
        r
    }

    /// Index of the entry with id `id`, if any.
    fn find(&self, id: &String) -> (r: Option<usize>)
        ensures
            r matches Some(i) ==> i < self.entries@.len() && self.entries@[i as int].0@ == id@,
            r is None ==> !self.has(id@),
    {
        let mut i: usize = 0;
        while i < self.entries.len()
            invariant
                i <= self.entries@.len(),
                forall|j: int| 0 <= j < i ==> (#[trigger] self.entries@[j]).0@ != id@,
            decreases self.entries.len() - i,
        {
            if self.entries[i].0 == *id {
                return Some(i);
            }
            i = i + 1;
        }
        None
    }

    /// Registers `meta` under `id`, replacing what the id held before.
    pub fn insert(&mut self, id: String, meta: M)
        requires
            old(self).wf(),
        ensures
            final(self).wf(),
            final(self).contents() == old(self).contents().insert(id@, meta),
    {
        let ghost old_entries = self.entries@;
        let ghost k = id@;
        match self.find(&id) {
            Some(i) => {
                self.entries.set(i, (id, meta));
                proof {
                    assert(self.wf()) by {
                        assert forall|a: int, b: int|
                            0 <= a < self.entries@.len() && 0 <= b < self.entries@.len() && a != b
                                implies (#[trigger] self.entries@[a]).0@ != (#[trigger] self.entries@[b]).0@ by {
                            assert(old_entries[a].0@ != old_entries[b].0@);
                        }
                    }
                    assert forall|q: Seq<char>| #[trigger] self.contents().dom().contains(q)
                        <==> old(self).contents().insert(k, meta).dom().contains(q) by {
                        if self.has(q) {
                            let a = choose|a: int| 0 <= a < self.entries@.len() && (#[trigger] self.entries@[a]).0@ == q;
                            if a != i {
                                assert(old_entries[a] == self.entries@[a]);
                                assert(old(self).has(q));
                            }
                        }
                        if old(self).has(q) {
                            let a = choose|a: int| 0 <= a < old_entries.len() && (#[trigger] old_entries[a]).0@ == q;
                            if a != i {
                                assert(old_entries[a] == self.entries@[a]);
                            } else {
                                assert(self.entries@[a].0@ == q);
                            }
                            assert(self.has(q));
                        }
                        if q == k {
                            assert(self.entries@[i as int].0@ == k);
                            assert(self.has(q));
                        }
                    }
                    assert forall|q: Seq<char>| #[trigger] self.contents().dom().contains(q)
                        implies self.contents()[q] == old(self).contents().insert(k, meta)[q] by {
                        let a = choose|a: int| 0 <= a < self.entries@.len() && (#[trigger] self.entries@[a]).0@ == q;
                        self.lemma_entry(a);
                        if a != i {
                            assert(old_entries[a] == self.entries@[a]);
                            old(self).lemma_entry(a);
                        }
                    }
                    assert(self.contents() =~= old(self).contents().insert(k, meta));
                }
            }
            None => {
                self.entries.push((id, meta));
                proof {
                    let n = old_entries.len() as int;
                    assert(self.wf()) by {
                        assert forall|a: int, b: int|
                            0 <= a < self.entries@.len() && 0 <= b < self.entries@.len() && a != b
                                implies (#[trigger] self.entries@[a]).0@ != (#[trigger] self.entries@[b]).0@ by {
                            if a < n && b < n {
                                assert(old_entries[a] == self.entries@[a]);
                                assert(old_entries[b] == self.entries@[b]);
                            } else if a < n {
                                assert(old_entries[a] == self.entries@[a]);
                                assert(!(old_entries[a].0@ == k));
                            } else {
                                assert(old_entries[b] == self.entries@[b]);
                                assert(!(old_entries[b].0@ == k));
                            }
                        }
                    }
                    assert forall|q: Seq<char>| #[trigger] self.contents().dom().contains(q)
                        <==> old(self).contents().insert(k, meta).dom().contains(q) by {
                        if self.has(q) {
                            let a = choose|a: int| 0 <= a < self.entries@.len() && (#[trigger] self.entries@[a]).0@ == q;
                            if a < n {
                                assert(old_entries[a] == self.entries@[a]);
                                assert(old(self).has(q));
                            }
                        }
                        if old(self).has(q) {
                            let a = choose|a: int| 0 <= a < old_entries.len() && (#[trigger] old_entries[a]).0@ == q;
                            assert(old_entries[a] == self.entries@[a]);
                            assert(self.has(q));
                        }
                        if q == k {
                            assert(self.entries@[n].0@ == k);
                            assert(self.has(q));
                        }
                    }
                    assert forall|q: Seq<char>| #[trigger] self.contents().dom().contains(q)
                        implies self.contents()[q] == old(self).contents().insert(k, meta)[q] by {
                        let a = choose|a: int| 0 <= a < self.entries@.len() && (#[trigger] self.entries@[a]).0@ == q;
                        self.lemma_entry(a);
                        if a < n {
                            assert(old_entries[a] == self.entries@[a]);
                            old(self).lemma_entry(a);
                        }
                    }
                    assert(self.contents() =~= old(self).contents().insert(k, meta));
                }
            }
        }
    }

    /// Removes and returns the entry with id `id`: an id can be used once.
    pub fn take(&mut self, id: &str) -> (r: Option<M>)
        requires
            old(self).wf(),
        ensures
            final(self).wf(),
            final(self).contents() == old(self).contents().remove(id@),
            old(self).contents().dom().contains(id@) ==> r == Some(old(self).contents()[id@]),
            !old(self).contents().dom().contains(id@) ==> r is None,
    {
        let key = id.to_owned();
        let ghost k = id@;
        let ghost old_entries = self.entries@;
        match self.find(&key) {
            None => {
                assert(self.contents() =~= old(self).contents().remove(k));
                None
            }
            Some(i) => {
                proof {
                    old(self).lemma_entry(i as int);
                }
                let (_, meta) = self.entries.remove(i);
                proof {
                    let n = old_entries.len() as int;
                    assert forall|a: int| 0 <= a < self.entries@.len() implies
                        #[trigger] self.entries@[a] == old_entries[if a < i { a } else { a + 1 }] by {}
                    assert(self.wf()) by {
                        assert forall|a: int, b: int|
                            0 <= a < self.entries@.len() && 0 <= b < self.entries@.len() && a != b
                                implies (#[trigger] self.entries@[a]).0@ != (#[trigger] self.entries@[b]).0@ by {
                            let a2 = if a < i { a } else { a + 1 };
                            let b2 = if b < i { b } else { b + 1 };
                            assert(old_entries[a2].0@ != old_entries[b2].0@);
                        }
                    }
                    assert forall|q: Seq<char>| #[trigger] self.contents().dom().contains(q)
                        <==> old(self).contents().remove(k).dom().contains(q) by {
                        if self.has(q) {
                            let a = choose|a: int| 0 <= a < self.entries@.len() && (#[trigger] self.entries@[a]).0@ == q;
                            let a2 = if a < i { a } else { a + 1 };
                            assert(old_entries[a2].0@ == q);
                            assert(old(self).has(q));
                            assert(a2 != i);
                            assert(q != k);
                        }
                        if old(self).has(q) && q != k {
                            let a = choose|a: int| 0 <= a < old_entries.len() && (#[trigger] old_entries[a]).0@ == q;
                            assert(a != i);
                            let a2 = if a < i { a } else { a - 1 };
                            assert(self.entries@[a2] == old_entries[a]);
                            assert(self.has(q));
                        }
                    }
                    assert forall|q: Seq<char>| #[trigger] self.contents().dom().contains(q)
                        implies self.contents()[q] == old(self).contents().remove(k)[q] by {
                        let a = choose|a: int| 0 <= a < self.entries@.len() && (#[trigger] self.entries@[a]).0@ == q;
                        self.lemma_entry(a);
                        let a2 = if a < i { a } else { a + 1 };
                        old(self).lemma_entry(a2);
                    }
                    assert(self.contents() =~= old(self).contents().remove(k));
                }
                Some(meta)
            }
        }
    }
}

impl<M: Timestamped> Table<M> {
    /// Drops every entry whose time to live has run out at `now`.
    pub fn retain_alive(&mut self, now: u64)
        requires
            old(self).wf(),
        ensures
            final(self).wf(),
            final(self).contents() == Map::new(
                |q: Seq<char>| old(self).contents().dom().contains(q) && is_alive(old(self).contents()[q].created(), now),
                |q: Seq<char>| old(self).contents()[q],
            ),
    {
        let ghost target = Map::new(
            |q: Seq<char>| old(self).contents().dom().contains(q) && is_alive(old(self).contents()[q].created(), now),
            |q: Seq<char>| old(self).contents()[q],
        );
        let mut src: Vec<(String, M)> = Vec::new();
        std::mem::swap(&mut src, &mut self.entries);
        let ghost orig = src@;
        assert(orig == old(self).entries@);
        let mut kept: Vec<(String, M)> = Vec::new();
        let mut rest: Vec<(String, M)> = Vec::new();
        // Walk the entries from the back so that each can be moved out with `pop`.
        let ghost mut from: Seq<int> = Seq::empty();
        while src.len() > 0
            invariant
                src@ == orig.take(src@.len() as int),
                src@.len() <= orig.len(),
                kept@.len() == from.len(),
                forall|p: int| 0 <= p < from.len() ==> src@.len() <= #[trigger] from[p] < orig.len(),
                forall|p: int| 0 <= p < from.len() ==> #[trigger] kept@[p] == orig[from[p]],
                forall|p: int, r: int| 0 <= p < r < from.len() ==> #[trigger] from[p] > #[trigger] from[r],
                forall|p: int| 0 <= p < from.len() ==> is_alive((#[trigger] kept@[p]).1.created(), now),
                forall|j: int| src@.len() <= j < orig.len() && is_alive(orig[j].1.created(), now)
                    ==> exists|p: int| 0 <= p < from.len() && #[trigger] from[p] == j,
                forall|a: int, b: int|
                    0 <= a < orig.len() && 0 <= b < orig.len() && a != b
                        ==> (#[trigger] orig[a]).0@ != (#[trigger] orig[b]).0@,
            decreases src.len(),
        {
            let e = src.pop().unwrap();
            let ghost j = src@.len() as int;
            let ghost from0 = from;
            proof {
                assert(orig.take(j + 1).drop_last() =~= orig.take(j));
                assert(e == orig[j]);
            }
            let t = e.1.created_at();
            if alive_at(t, now) {
                kept.push(e);
                proof {
                    from = from.push(j);
                }
            } else {
                rest.push(e);
            }
            proof {
                assert forall|jj: int| src@.len() <= jj < orig.len() && is_alive(orig[jj].1.created(), now)
                    implies exists|p: int| 0 <= p < from.len() && #[trigger] from[p] == jj by {
                    if jj == j {
                        assert(from[from.len() - 1] == jj);
                    } else {
                        let p = choose|p: int| 0 <= p < from0.len() && #[trigger] from0[p] == jj;
                        assert(from[p] == from0[p]);
                    }
                }
            }
        }
        // `kept` holds the live entries newest first; put them back in registration order.
        let mut out: Vec<(String, M)> = Vec::new();
        let ghost kept_all = kept@;
        let ghost from_all = from;
        while kept.len() > 0
            invariant
                kept@ == kept_all.take(kept@.len() as int),
                kept@.len() <= kept_all.len(),
                out@.len() + kept@.len() == kept_all.len(),
                forall|p: int| 0 <= p < out@.len() ==> #[trigger] out@[p] == kept_all[kept_all.len() - 1 - p],
            decreases kept.len(),
        {
            let e = kept.pop().unwrap();
            out.push(e);
            proof {
                assert(kept_all.take(kept@.len() + 1int).drop_last() =~= kept_all.take(kept@.len() as int));
            }
        }
        self.entries = out;
        proof {
            let m = kept_all.len() as int;
            assert forall|p: int| 0 <= p < m implies #[trigger] self.entries@[p] == orig[from_all[m - 1 - p]] by {
                assert(self.entries@[p] == kept_all[m - 1 - p]);
            }
            assert(self.wf()) by {
                assert forall|a: int, b: int|
                    0 <= a < self.entries@.len() && 0 <= b < self.entries@.len() && a != b
                        implies (#[trigger] self.entries@[a]).0@ != (#[trigger] self.entries@[b]).0@ by {
                    assert(self.entries@[a] == orig[from_all[m - 1 - a]]);
                    assert(self.entries@[b] == orig[from_all[m - 1 - b]]);
                    if m - 1 - a < m - 1 - b {
                        assert(from_all[m - 1 - a] > from_all[m - 1 - b]);
                    } else {
                        assert(from_all[m - 1 - b] > from_all[m - 1 - a]);
                    }
                }
            }
            assert forall|q: Seq<char>| #[trigger] self.contents().dom().contains(q) <==> target.dom().contains(q) by {
                if self.has(q) {
                    let a = choose|a: int| 0 <= a < self.entries@.len() && (#[trigger] self.entries@[a]).0@ == q;
                    let j = from_all[m - 1 - a];
                    assert(self.entries@[a] == orig[j]);
                    assert(kept_all[m - 1 - a] == orig[j]);
                    old(self).lemma_entry(j);
                }
                if target.dom().contains(q) {
                    assert(old(self).has(q));
                    let j = choose|j: int| 0 <= j < orig.len() && (#[trigger] orig[j]).0@ == q;
                    old(self).lemma_entry(j);
                    let p = choose|p: int| 0 <= p < from_all.len() && #[trigger] from_all[p] == j;
                    assert(self.entries@[m - 1 - p] == orig[j]);
                    assert(self.has(q));
                }
            }
            assert forall|q: Seq<char>| #[trigger] self.contents().dom().contains(q) implies self.contents()[q] == target[q] by {
                let a = choose|a: int| 0 <= a < self.entries@.len() && (#[trigger] self.entries@[a]).0@ == q;
                self.lemma_entry(a);
                let j = from_all[m - 1 - a];
                assert(self.entries@[a] == orig[j]);
                old(self).lemma_entry(j);
            }
            assert(self.contents() =~= target);
        }
    }
}

/// The in-memory registry of announced uploads and offered downloads.
pub struct TransferRegistry {
    uploads: Table<UploadMeta>,
    downloads: Table<DownloadMeta>,
}

impl TransferRegistry {
    /// Both tables are well formed.
    pub closed spec fn wf(&self) -> bool {
        self.uploads.wf() && self.downloads.wf()
    }

    /// Announced uploads by id.
    pub closed spec fn uploads(&self) -> Map<Seq<char>, UploadMeta> {
        self.uploads.contents()
    }

    /// Offered downloads by id.
    pub closed spec fn downloads(&self) -> Map<Seq<char>, DownloadMeta> {
        self.downloads.contents()
    }

    /// An empty registry.
    pub fn new() -> (r: Self)
        ensures
            r.wf(),
            r.uploads() == Map::<Seq<char>, UploadMeta>::empty(),
            r.downloads() == Map::<Seq<char>, DownloadMeta>::empty(),
    {
        TransferRegistry { uploads: Table::new(), downloads: Table::new() }
    }

    /// Registers an announced upload under a fresh random id, which it returns.
    pub fn register_upload(&mut self, meta: UploadMeta) -> (id: String)
        requires
            old(self).wf(),
        ensures
            final(self).wf(),
            is_uuid_text(id@),
            final(self).uploads() == old(self).uploads().insert(id@, meta),
            final(self).downloads() == old(self).downloads(),
    {
        let id = new_uuid_text();
        let key = id.clone();
        self.uploads.insert(key, meta);
        id
    }

    /// Registers an offered download under a fresh random id, which it returns.
    pub fn register_download(&mut self, meta: DownloadMeta) -> (id: String)
        requires
            old(self).wf(),
        ensures
            final(self).wf(),
            is_uuid_text(id@),
            final(self).downloads() == old(self).downloads().insert(id@, meta),
            final(self).uploads() == old(self).uploads(),
    {
        let id = new_uuid_text();
        let key = id.clone();
        self.downloads.insert(key, meta);
        id
    }

    /// Takes the upload announced under `id`; the id is spent.
    pub fn take_upload(&mut self, id: &str) -> (r: Option<UploadMeta>)
        requires
            old(self).wf(),
        ensures
            final(self).wf(),
            final(self).uploads() == old(self).uploads().remove(id@),
            final(self).downloads() == old(self).downloads(),
            old(self).uploads().dom().contains(id@) ==> r == Some(old(self).uploads()[id@]),
            !old(self).uploads().dom().contains(id@) ==> r is None,
    {
        self.uploads.take(id)
    }

    /// Takes the download offered under `id`; the id is spent.
    pub fn take_download(&mut self, id: &str) -> (r: Option<DownloadMeta>)
        requires
            old(self).wf(),
        ensures
            final(self).wf(),
            final(self).downloads() == old(self).downloads().remove(id@),
            final(self).uploads() == old(self).uploads(),
            old(self).downloads().dom().contains(id@) ==> r == Some(old(self).downloads()[id@]),
            !old(self).downloads().dom().contains(id@) ==> r is None,
    {
        self.downloads.take(id)
    }

    /// Forgets every entry registered five minutes or more before `now`.
    pub fn cleanup_expired(&mut self, now: u64)
        requires
            old(self).wf(),
        ensures
            final(self).wf(),
            final(self).uploads() == Map::new(
                |q: Seq<char>| old(self).uploads().dom().contains(q) && is_alive(old(self).uploads()[q].created_at, now),
                |q: Seq<char>| old(self).uploads()[q],
            ),
            final(self).downloads() == Map::new(
                |q: Seq<char>| old(self).downloads().dom().contains(q) && is_alive(old(self).downloads()[q].created_at, now),
                |q: Seq<char>| old(self).downloads()[q],
            ),
    {
        self.uploads.retain_alive(now);
        self.downloads.retain_alive(now);
    }
}

/// A transfer id works once: after registering `meta` under `id`, taking
/// `id` yields `meta`, and a second take finds nothing.
pub proof fn law_transfer_id_is_one_shot<M>(before: Map<Seq<char>, M>, id: Seq<char>, meta: M)
    ensures
        before.insert(id, meta).dom().contains(id),
        before.insert(id, meta)[id] == meta,
        !before.insert(id, meta).remove(id).dom().contains(id),
{
}

/// Cleaning up keeps exactly the entries that are still alive and never
/// changes what a kept entry holds.
pub proof fn law_cleanup_keeps_live_entries(before: Map<Seq<char>, UploadMeta>, now: u64, id: Seq<char>)
    requires
        before.dom().contains(id),
    ensures
        ({
            let after = Map::new(
                |q: Seq<char>| before.dom().contains(q) && is_alive(before[q].created_at, now),
                |q: Seq<char>| before[q],
            );
            &&& after.dom().contains(id) <==> (now as int) < (before[id].created_at as int) + ENTRY_TTL_MS
            &&& after.dom().contains(id) ==> after[id] == before[id]
        }),
{
}

// ---------------------------------------------------------------------------
// Upload size limit
// ---------------------------------------------------------------------------

/// What to do with the next chunk of an upload body.
pub enum UploadStep {
    /// Write the chunk; this many bytes have now been received.
    Continue(u64),
    /// The body exceeds the size limit: stop and delete the partial file.
    TooLarge,
}

/// Accounts for a received chunk of `chunk_len` bytes after `total` bytes:
/// the upload may continue while the running total stays within `max_size`.
pub fn upload_step(total: u64, chunk_len: u64, max_size: u64) -> (r: UploadStep)
    ensures
        (total as int) + (chunk_len as int) > max_size as int ==> r is TooLarge,
        (total as int) + (chunk_len as int) <= max_size as int ==> r == UploadStep::Continue((total + chunk_len) as u64),
{
    if chunk_len > max_size || total > max_size - chunk_len {
        UploadStep::TooLarge
    } else {
        UploadStep::Continue(total + chunk_len)
    }
}

/// The running total after accepting `chunks` in order, or `None` once the
/// limit is exceeded.
pub open spec fn accepted_total(chunks: Seq<u64>, max_size: u64) -> Option<int>
    decreases chunks.len(),
{
    if chunks.len() == 0 {
        Some(0)
    } else {
        match accepted_total(chunks.drop_last(), max_size) {
            Some(t) => if t + chunks.last() <= max_size { Some(t + chunks.last()) } else { None },
            None => None,
        }
    }
}

/// An upload that is accepted to the end never stored more than
/// `max_size` bytes, and stored exactly the sum of its chunks.
pub proof fn law_upload_within_limit(chunks: Seq<u64>, max_size: u64)
    ensures
        accepted_total(chunks, max_size) matches Some(t) ==> 0 <= t <= max_size
            && t == chunks.fold_left(0int, |acc: int, c: u64| acc + c),
    decreases chunks.len(),
{
    if chunks.len() > 0 {
        law_upload_within_limit(chunks.drop_last(), max_size);
        chunks.lemma_fold_left_split(0int, |acc: int, c: u64| acc + c, chunks.len() - 1);
        assert(chunks.subrange(0, chunks.len() - 1) =~= chunks.drop_last());
        let last = chunks.subrange(chunks.len() - 1, chunks.len() as int);
        assert(last =~= seq![chunks.last()]);
        reveal_with_fuel(vstd::seq::Seq::fold_left, 2);
    }
}

} // verus!
