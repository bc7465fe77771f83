//! Embedded static files of the web pages.

use vstd::prelude::*;
use crate::text::{chars_of, push_char, push_str, replace_all, replace_chars, string_of};

verus! {

broadcast use vstd::utf8::group_utf8_lib;

/// `std::str::from_utf8`: the text whose UTF-8 encoding is `bytes`, or
/// `None` when `bytes` is not valid UTF-8.
#[verifier::external_body]
fn utf8_text(bytes: &'static [u8]) -> (r: Option<&'static str>)
    ensures
        r matches Some(t) ==> vstd::utf8::encode_utf8(t@) == bytes@,
        r is None <==> !vstd::utf8::valid_utf8(bytes@),
{
    std::str::from_utf8(bytes).ok()
}

/// Reads an embedded file as text. `data` is the embedded file's bytes when
/// the file exists and is stored in the binary; the text is returned when
/// those bytes are valid UTF-8.
pub fn read_str(data: Option<&'static [u8]>) -> (r: Option<&'static str>)
    ensures
        r matches Some(t) ==> data matches Some(b) && vstd::utf8::encode_utf8(t@) == b@,
        r is None <==> (data is None || !vstd::utf8::valid_utf8(data->0@)),
{
    match data {
        None => None,
        Some(bytes) => utf8_text(bytes),
    }
}

/// `s` without its leading `/` characters.
pub open spec fn without_leading_slashes(s: Seq<char>) -> Seq<char>
    decreases s.len(),
{
    if s.len() > 0 && s[0] == '/' {
        without_leading_slashes(s.drop_first())
    } else {
        s
    }
}

/// The embedded file a request path names: the path without its leading
/// slashes (`/css/app.css` → `css/app.css`).
pub fn asset_name(uri_path: &str) -> (r: String)
    ensures
        r@ == without_leading_slashes(uri_path@),
{
    let v = chars_of(uri_path);
    let mut i: usize = 0;
    assert(v@.subrange(0, v@.len() as int) =~= v@);
    while i < v.len() && v[i] == '/'
        invariant
            i <= v@.len(),
            without_leading_slashes(v@) == without_leading_slashes(v@.subrange(i as int, v@.len() as int)),
        decreases v.len() - i,
    {
        proof {
            assert(v@.subrange(i as int, v@.len() as int).drop_first() =~= v@.subrange(i + 1, v@.len() as int));
        }
        i = i + 1;
    }
    let mut out: Vec<char> = Vec::new();
    let start = i;
    while i < v.len()
        invariant
            start <= i <= v@.len(),
            out@ == v@.subrange(start as int, i as int),
        decreases v.len() - i,
    {
        out.push(v[i]);
        proof {
            assert(out@ =~= v@.subrange(start as int, i + 1));
        }
        i = i + 1;
    }
    proof {
        let rest = v@.subrange(start as int, v@.len() as int);
        assert(out@ =~= rest);
        if rest.len() > 0 {
            assert(rest[0] == v@[start as int]);
        }
    }
    string_of(out.as_slice())
}

/// The MIME type `mime_guess` gives a file path: the first type its table
/// lists for the path's extension, `application/octet-stream` when none.
pub uninterp spec fn guessed_mime(path: Seq<char>) -> Seq<char>;

/// `mime_guess::from_path(path).first_or_octet_stream()`, as text; its
/// result is named [`guessed_mime`].
#[verifier::external_body]
fn guess_mime(path: &str) -> (r: String)
    ensures
        r@ == guessed_mime(path@),
{
    mime_guess::from_path(path).first_or_octet_stream().as_ref().to_owned()
}

/// The `Content-Type` an embedded file is served with.
pub fn asset_content_type(name: &str) -> (r: String)
    ensures
        r@ == guessed_mime(name@),
{
    guess_mime(name)
}

/// The HTML entity for one character of text placed in a page: `&`, `<`,
/// `>`, `"` and `'` become entities, every other character stays.
pub open spec fn html_escape_char(c: char) -> Seq<char> {
    if c == '&' {
        seq!['&', 'a', 'm', 'p', ';']
    } else if c == '<' {
        seq!['&', 'l', 't', ';']
    } else if c == '>' {
        seq!['&', 'g', 't', ';']
    } else if c == '"' {
        seq!['&', 'q', 'u', 'o', 't', ';']
    } else if c == '\'' {
        seq!['&', '#', '3', '9', ';']
    } else {
        seq![c]
    }
}

/// Text escaped character by character.
pub open spec fn escaped_html(s: Seq<char>) -> Seq<char>
    decreases s.len(),
{
    if s.len() == 0 {
        Seq::empty()
    } else {
        escaped_html(s.drop_last()) + html_escape_char(s.last())
    }
}

/// A character that would end an attribute value or open a tag.
pub open spec fn is_markup(c: char) -> bool {
    c == '<' || c == '>' || c == '"' || c == '\''
}

fn push_escaped(out: &mut String, c: char)
    ensures
        final(out)@ == old(out)@ + html_escape_char(c),
{
    let ghost start = out@;
    if c == '&' {
        push_char(out, '&'); push_char(out, 'a'); push_char(out, 'm'); push_char(out, 'p'); push_char(out, ';');
    } else if c == '<' {
        push_char(out, '&'); push_char(out, 'l'); push_char(out, 't'); push_char(out, ';');
    } else if c == '>' {
        push_char(out, '&'); push_char(out, 'g'); push_char(out, 't'); push_char(out, ';');
    } else if c == '"' {
        push_char(out, '&'); push_char(out, 'q'); push_char(out, 'u'); push_char(out, 'o'); push_char(out, 't'); push_char(out, ';');
    } else if c == '\'' {
        push_char(out, '&'); push_char(out, '#'); push_char(out, '3'); push_char(out, '9'); push_char(out, ';');
    } else {
        push_char(out, c);
    }
    assert(out@ =~= start + html_escape_char(c));
}

/// Escapes the HTML metacharacters of a text (the device name comes from
/// the command line, the configuration file or the host name, none of
/// which limits its characters).
pub fn escape_html(s: &str) -> (r: String)
    ensures
        r@ == escaped_html(s@),
{
    let v = chars_of(s);
    let mut out = String::new();
    let mut i: usize = 0;
    while i < v.len()
        invariant
            i <= v@.len(),
            out@ == escaped_html(v@.take(i as int)),
        decreases v.len() - i,
    {
        push_escaped(&mut out, v[i]);
        proof {
            assert(v@.take(i + 1).drop_last() =~= v@.take(i as int));
        }
        i = i + 1;
    }
    assert(v@.take(v@.len() as int) =~= v@);
    out
}

/// Escaped text holds none of `<`, `>`, `"`, `'`: whatever the device name,
/// it cannot open a tag or leave the attribute or element it is put in.
pub proof fn law_escaped_has_no_markup(s: Seq<char>)
    ensures
        forall|i: int| 0 <= i < escaped_html(s).len() ==> !is_markup(#[trigger] escaped_html(s)[i]),
    decreases s.len(),
{
    if s.len() > 0 {
        law_escaped_has_no_markup(s.drop_last());
        let head = escaped_html(s.drop_last());
        let tail = html_escape_char(s.last());
        assert forall|i: int| 0 <= i < escaped_html(s).len() implies !is_markup(#[trigger] escaped_html(s)[i]) by {
            if i < head.len() {
                assert(escaped_html(s)[i] == head[i]);
            } else {
                assert(escaped_html(s)[i] == tail[i - head.len()]);
            }
        }
    }
}

/// The theme placeholder of the home page template.
pub open spec fn theme_marker() -> Seq<char> {
    "data-theme=\"__THEME__\""@
}

/// The device-name placeholder of the home page template.
pub open spec fn title_marker() -> Seq<char> {
    "<title>__DEVICE_NAME__</title>"@
}

/// The home page: the template with its theme placeholder set to the
/// current theme and its title placeholder set to the escaped device name.
pub open spec fn index_page_text(template: Seq<char>, theme: Seq<char>, name: Seq<char>) -> Seq<char> {
    replace_all(
        replace_all(template, theme_marker(), "data-theme=\""@ + theme + "\""@),
        title_marker(),
        "<title>"@ + escaped_html(name) + "</title>"@,
    )
}

/// Fills the home page template. The theme is one of the three fixed theme
/// names and is written as it is; the device name is escaped.
pub fn index_page(template: &str, theme: &str, name: &str) -> (r: String)
    ensures
        r@ == index_page_text(template@, theme@, name@),
{
    proof {
        reveal_strlit("data-theme=\"__THEME__\"");
        reveal_strlit("<title>__DEVICE_NAME__</title>");
    }
    let page = chars_of(template);
    let theme_pat = chars_of("data-theme=\"__THEME__\"");
    let mut theme_attr = String::new();
    push_str(&mut theme_attr, "data-theme=\"");
    push_str(&mut theme_attr, theme);
    push_str(&mut theme_attr, "\"");
    let theme_rep = chars_of(theme_attr.as_str());
    let with_theme = replace_chars(page.as_slice(), theme_pat.as_slice(), theme_rep.as_slice());
    let title_pat = chars_of("<title>__DEVICE_NAME__</title>");
    let escaped = escape_html(name);
    let mut title = String::new();
    push_str(&mut title, "<title>");
    push_str(&mut title, escaped.as_str());
    push_str(&mut title, "</title>");
    let title_rep = chars_of(title.as_str());
    let done = replace_chars(with_theme.as_slice(), title_pat.as_slice(), title_rep.as_slice());
    string_of(done.as_slice())
}

} // verus!
