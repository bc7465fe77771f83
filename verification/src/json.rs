//! JSON text for the reply messages: string quoting as `serde_json` writes it.

use vstd::prelude::*;
use crate::text::{chars_of, push_char};
use crate::token::hex_digit;

verus! {

/// How one character is written inside a JSON string: `"` and `\` and the
/// control characters below U+0020 are escaped (the short forms where JSON has
/// one, `\u00xx` with lower-case hex otherwise); everything else is kept.
pub open spec fn json_escape_char(c: char) -> Seq<char> {
    if c == '"' {
        seq!['\\', '"']
    } else if c == '\\' {
        seq!['\\', '\\']
    } else if c == '\u{8}' {
        seq!['\\', 'b']
    } else if c == '\t' {
        seq!['\\', 't']
    } else if c == '\n' {
        seq!['\\', 'n']
    } else if c == '\u{c}' {
        seq!['\\', 'f']
    } else if c == '\r' {
        seq!['\\', 'r']
    } else if (c as u32) < 0x20 {
        seq!['\\', 'u', '0', '0', hex_digit(((c as u32) / 16) as nat), hex_digit(((c as u32) % 16) as nat)]
    } else {
        seq![c]
    }
}

/// The escaped body of a JSON string.
pub open spec fn json_escape(s: Seq<char>) -> Seq<char>
    decreases s.len(),
{
    if s.len() == 0 {
        Seq::empty()
    } else {
        json_escape(s.drop_last()) + json_escape_char(s.last())
    }
}

/// A JSON string literal holding `s`.
pub open spec fn json_string(s: Seq<char>) -> Seq<char> {
    seq!['"'] + json_escape(s) + seq!['"']
}

/// The value of a JSON hex digit (either case).
pub open spec fn json_hex_value(c: char) -> int {
    if '0' <= c && c <= '9' {
        (c as int) - 48
    } else if 'a' <= c && c <= 'f' {
        (c as int) - 87
    } else {
        (c as int) - 55
    }
}

/// The character a two-character escape `\e` stands for in JSON
/// (RFC 8259, section 7).
pub open spec fn json_short_escape(e: char) -> char {
    if e == 'b' {
        '\u{8}'
    } else if e == 'f' {
        '\u{c}'
    } else if e == 'n' {
        '\n'
    } else if e == 'r' {
        '\r'
    } else if e == 't' {
        '\t'
    } else {
        e
    }
}

/// What a JSON parser reads from the body of a string: `\uXXXX` is the
/// character with that code, `\e` the character the escape stands for,
/// any other character itself.
pub open spec fn json_unescape(s: Seq<char>) -> Seq<char>
    decreases s.len(),
{
    if s.len() == 0 {
        Seq::empty()
    } else if s[0] == '\\' && s.len() >= 6 && s[1] == 'u' {
        seq![((json_hex_value(s[2]) * 4096 + json_hex_value(s[3]) * 256 + json_hex_value(s[4]) * 16
            + json_hex_value(s[5])) as u32) as char] + json_unescape(s.subrange(6, s.len() as int))
    } else if s[0] == '\\' && s.len() >= 2 {
        seq![json_short_escape(s[1])] + json_unescape(s.subrange(2, s.len() as int))
    } else {
        seq![s[0]] + json_unescape(s.drop_first())
    }
}

proof fn lemma_json_escape_front(s: Seq<char>)
    requires
        s.len() > 0,
    ensures
        json_escape(s) == json_escape_char(s[0]) + json_escape(s.drop_first()),
    decreases s.len(),
{
    if s.len() == 1 {
        assert(s.drop_last() =~= Seq::<char>::empty());
        assert(s.drop_first() =~= Seq::<char>::empty());
        assert(json_escape(s) =~= json_escape_char(s[0]) + json_escape(s.drop_first()));
    } else {
        lemma_json_escape_front(s.drop_last());
        assert(s.drop_last().drop_first() =~= s.drop_first().drop_last());
        assert(s.drop_first().last() == s.last());
        assert(json_escape(s) =~= json_escape_char(s[0]) + json_escape(s.drop_first()));
    }
}

/// A JSON parser reads back exactly the text that was escaped: no two
/// characters share an escape, so the phone receives the very text sent.
pub proof fn law_json_escape_reads_back(s: Seq<char>)
    ensures
        json_unescape(json_escape(s)) == s,
    decreases s.len(),
{
    if s.len() == 0 {
        assert(json_escape(s) =~= Seq::<char>::empty());
    } else {
        lemma_json_escape_front(s);
        law_json_escape_reads_back(s.drop_first());
        let c = s[0];
        let rest = json_escape(s.drop_first());
        let e = json_escape_char(c) + rest;
        if c == '"' || c == '\\' || c == '\u{8}' || c == '\t' || c == '\n' || c == '\u{c}' || c == '\r' {
            assert(e[0] == '\\' && e[1] != 'u');
            assert(e.subrange(2, e.len() as int) =~= rest);
            assert(json_short_escape(e[1]) == c);
        } else if (c as u32) < 0x20 {
            let v = c as u32;
            let hi = (v / 16) as nat;
            let lo = (v % 16) as nat;
            assert(e[0] == '\\' && e[1] == 'u' && e[2] == '0' && e[3] == '0');
            assert(e[4] == hex_digit(hi) && e[5] == hex_digit(lo));
            assert(json_hex_value(hex_digit(hi)) == hi);
            assert(json_hex_value(hex_digit(lo)) == lo);
            assert(e.subrange(6, e.len() as int) =~= rest);
            assert((hi * 16 + lo) == v);
            vstd::utf8::char_u32_cast(c, v);
            assert((((hi * 16 + lo) as int) as u32) == v);
        } else {
            assert(e[0] == c);
            assert(e.drop_first() =~= rest);
        }
        assert(json_unescape(e) =~= seq![c] + s.drop_first());
        assert(seq![c] + s.drop_first() =~= s);
    }
}

fn push_escaped_char(out: &mut String, c: char)
    ensures
        final(out)@ == old(out)@ + json_escape_char(c),
{
    let ghost start = out@;
    if c == '"' {
        push_char(out, '\\');
        push_char(out, '"');
    } else if c == '\\' {
        push_char(out, '\\');
        push_char(out, '\\');
    } else if c == '\u{8}' {
        push_char(out, '\\');
        push_char(out, 'b');
    } else if c == '\t' {
        push_char(out, '\\');
        push_char(out, 't');
    } else if c == '\n' {
        push_char(out, '\\');
        push_char(out, 'n');
    } else if c == '\u{c}' {
        push_char(out, '\\');
        push_char(out, 'f');
    } else if c == '\r' {
        push_char(out, '\\');
        push_char(out, 'r');
    } else if (c as u32) < 0x20 {
        let v: u8 = c as u8;
        let hi: u8 = v / 16;
        let lo: u8 = v % 16;
        let ch = if hi < 10 { (hi + 48) as char } else { (hi + 87) as char };
        let cl = if lo < 10 { (lo + 48) as char } else { (lo + 87) as char };
        push_char(out, '\\');
        push_char(out, 'u');
        push_char(out, '0');
        push_char(out, '0');
        push_char(out, ch);
        push_char(out, cl);
        assert(ch == hex_digit(((c as u32) / 16) as nat));
        assert(cl == hex_digit(((c as u32) % 16) as nat));
    } else {
        push_char(out, c);
    }
    assert(out@ =~= start + json_escape_char(c));
}

/// Appends `s` as a JSON string literal, quotes included.
pub fn push_json_string(out: &mut String, s: &str)
    ensures
        final(out)@ == old(out)@ + json_string(s@),
{
    let v = chars_of(s);
    let ghost start = out@;
    push_char(out, '"');
    let mut i: usize = 0;
    while i < v.len()
        invariant
            i <= v@.len(),
            v@ == s@,
            out@ == start + seq!['"'] + json_escape(v@.take(i as int)),
        decreases v.len() - i,
    {
        push_escaped_char(out, v[i]);
        proof {
            assert(v@.take(i + 1).drop_last() =~= v@.take(i as int));
            assert(out@ =~= start + seq!['"'] + json_escape(v@.take(i + 1)));
        }
        i = i + 1;
    }
    push_char(out, '"');
    assert(v@.take(v@.len() as int) =~= v@);
    assert(out@ =~= start + json_string(s@));
}

} // verus!
