//! Access control shared by every HTTP and WebSocket route.

use vstd::prelude::*;

verus! {

/// The `?t=<token>` query parameter of every route.
pub struct TokenQuery {
    pub t: String,
}

/// Proof that a request carried the server's token.
pub struct Authed;

/// A request is let in exactly when it carries a `t` parameter equal to the
/// server's token; a missing or different token is refused.
pub fn authorize(query: Option<TokenQuery>, token: &str) -> (r: Option<Authed>)
    ensures
        r is Some <==> (query matches Some(q) && q.t@ == token@),
{
    match query {
        None => None,
        Some(q) => {
            let expected = token.to_owned();
            if q.t == expected {
                Some(Authed)
            } else {
                None
            }
        },
    }
}

} // verus!
