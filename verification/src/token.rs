//! Access tokens: the random per-launch token and the rules for a token
//! chosen by the user.

use vstd::prelude::*;
use crate::text::{decimal, push_char, push_decimal, push_str};

verus! {

broadcast use vstd::utf8::group_utf8_lib;

/// Shortest token the user may choose.
pub const MIN_TOKEN_LEN: usize = 4;

/// Longest token the user may choose.
pub const MAX_TOKEN_LEN: usize = 64;

/// ASCII letters and digits.
pub open spec fn is_ascii_alphanumeric(c: char) -> bool {
    ('0' <= c && c <= '9') || ('a' <= c && c <= 'z') || ('A' <= c && c <= 'Z')
}

/// Lower-case hex digits.
pub open spec fn is_lower_hex(c: char) -> bool {
    ('0' <= c && c <= '9') || ('a' <= c && c <= 'f')
}

/// The lower-case hex digit of `n < 16`.
pub open spec fn hex_digit(n: nat) -> char {
    if n < 10 {
        (n + 48) as char
    } else {
        (n + 87) as char
    }
}

/// Two lower-case hex digits of a byte, high nibble first.
pub open spec fn byte_hex(b: u8) -> Seq<char> {
    seq![hex_digit((b / 16) as nat), hex_digit((b % 16) as nat)]
}

/// The lower-case hex encoding of a byte sequence.
pub open spec fn hex_of(bytes: Seq<u8>) -> Seq<char>
    decreases bytes.len(),
{
    if bytes.len() == 0 {
        Seq::empty()
    } else {
        hex_of(bytes.drop_last()) + byte_hex(bytes.last())
    }
}

/// Why a user-chosen token is refused, or `None` when it is accepted.
/// Lengths are counted in UTF-8 bytes, as the length limits are checked first.
pub open spec fn token_refusal(s: Seq<char>) -> Option<Seq<char>> {
    let n = vstd::utf8::encode_utf8(s).len();
    if n < MIN_TOKEN_LEN {
        Some("token 至少 "@ + decimal(MIN_TOKEN_LEN as nat) + " 个字符"@)
    } else if n > MAX_TOKEN_LEN {
        Some("token 至多 "@ + decimal(MAX_TOKEN_LEN as nat) + " 个字符"@)
    } else if !(forall|i: int| 0 <= i < s.len() ==> is_ascii_alphanumeric(#[trigger] s[i])) {
        Some("token 只能包含 ASCII 字母和数字"@)
    } else {
        None
    }
}

/// Checks a token given with `--token` or in the configuration file:
/// 4 to 64 characters, ASCII letters and digits only.
pub fn validate_token(s: &str) -> (r: Result<(), String>)
    ensures
        r is Ok <==> token_refusal(s@) is None,
        r matches Err(e) ==> token_refusal(s@) == Some(e@),
{
    let n = s.as_bytes().len();
    if n < MIN_TOKEN_LEN {
        let mut e = String::new();
        push_str(&mut e, "token 至少 ");
        push_decimal(&mut e, MIN_TOKEN_LEN as u64);
        push_str(&mut e, " 个字符");
        return Err(e);
    }
    if n > MAX_TOKEN_LEN {
        let mut e = String::new();
        push_str(&mut e, "token 至多 ");
        push_decimal(&mut e, MAX_TOKEN_LEN as u64);
        push_str(&mut e, " 个字符");
        return Err(e);
    }
    let count = s.unicode_len();
    let mut i: usize = 0;
    while i < count
        invariant
            count == s@.len(),
            i <= count,
            MIN_TOKEN_LEN <= vstd::utf8::encode_utf8(s@).len() <= MAX_TOKEN_LEN,
            forall|j: int| 0 <= j < i ==> is_ascii_alphanumeric(#[trigger] s@[j]),
        decreases count - i,
    {
        let c = s.get_char(i);
        if !(('0' <= c && c <= '9') || ('a' <= c && c <= 'z') || ('A' <= c && c <= 'Z')) {
            let mut e = String::new();
            push_str(&mut e, "token 只能包含 ASCII 字母和数字");
            proof {
                assert(!is_ascii_alphanumeric(s@[i as int]));
                assert(e@ =~= "token 只能包含 ASCII 字母和数字"@);
            }
            return Err(e);
        }
        i = i + 1;
    }
    Ok(())
}

/// Eight bytes from the thread-local random generator (`rand::rng().random()`).
#[verifier::external_body]
fn random_bytes() -> [u8; 8] {
    rand::Rng::random(&mut rand::rng())
}

/// The lower-case hex encoding of `bytes`, two digits per byte.
pub fn hex_token(bytes: &[u8]) -> (r: String)
    ensures
        r@ == hex_of(bytes@),
{
    let mut s = String::new();
    let mut i: usize = 0;
    while i < bytes.len()
        invariant
            i <= bytes@.len(),
            s@ == hex_of(bytes@.take(i as int)),
        decreases bytes.len() - i,
    {
        let b = bytes[i];
        let hi: u8 = b / 16;
        let lo: u8 = b % 16;
        let ch = if hi < 10 { (hi + 48) as char } else { (hi + 87) as char };
        let cl = if lo < 10 { (lo + 48) as char } else { (lo + 87) as char };
        push_char(&mut s, ch);
        push_char(&mut s, cl);
        proof {
            assert(bytes@.take(i + 1).drop_last() =~= bytes@.take(i as int));
            assert(s@ =~= hex_of(bytes@.take(i + 1)));
        }
        i = i + 1;
    }
    assert(bytes@.take(bytes@.len() as int) =~= bytes@);
    s
}

/// The encoding of `n` bytes has `2n` characters, all lower-case hex digits.
pub proof fn lemma_hex_of_shape(bytes: Seq<u8>)
    ensures
        hex_of(bytes).len() == 2 * bytes.len(),
        forall|i: int| 0 <= i < hex_of(bytes).len() ==> is_lower_hex(#[trigger] hex_of(bytes)[i]),
    decreases bytes.len(),
{
    if bytes.len() > 0 {
        lemma_hex_of_shape(bytes.drop_last());
        let b = bytes.last();
        assert(byte_hex(b)[0] == hex_digit((b / 16) as nat));
        assert(byte_hex(b)[1] == hex_digit((b % 16) as nat));
        assert forall|i: int| 0 <= i < hex_of(bytes).len() implies is_lower_hex(#[trigger] hex_of(bytes)[i]) by {
            if i < hex_of(bytes.drop_last()).len() {
                assert(hex_of(bytes)[i] == hex_of(bytes.drop_last())[i]);
            }
        }
    }
}

/// A fresh random token: 16 lower-case hex characters, which every check of
/// `validate_token` accepts.
pub fn generate_token() -> (r: String)
    ensures
        r@.len() == 16,
        forall|i: int| 0 <= i < r@.len() ==> is_lower_hex(#[trigger] r@[i]),
        token_refusal(r@) is None,
{
    let bytes = random_bytes();
    let r = hex_token(&bytes);
    proof {
        lemma_hex_of_shape(bytes@);
        lemma_ascii_len(r@);
        assert forall|i: int| 0 <= i < r@.len() implies is_ascii_alphanumeric(#[trigger] r@[i]) by {
            assert(is_lower_hex(r@[i]));
        }
    }
    r
}

/// For ASCII text the UTF-8 length is the number of characters.
pub proof fn lemma_ascii_len(s: Seq<char>)
    requires
        forall|i: int| 0 <= i < s.len() ==> is_lower_hex(#[trigger] s[i]) || is_ascii_alphanumeric(s[i]),
    ensures
        vstd::utf8::encode_utf8(s).len() == s.len(),
{
    assert(vstd::utf8::is_ascii_chars(s)) by {
        assert forall|i: int| 0 <= i < s.len() implies (#[trigger] s[i]) as u32 <= 0x7f by {
            assert(is_lower_hex(s[i]) || is_ascii_alphanumeric(s[i]));
        }
    }
    vstd::utf8::is_ascii_chars_encode_utf8(s);
}

} // verus!
