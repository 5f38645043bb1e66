//! The decision half of the verification-token flow.
//!
//! A user either has no token row, a row whose token or expiry column is
//! unusable, a row whose token has expired, or a row with a token still
//! valid. The storage engine reads the row and acts; which action is owed is
//! decided here, over plain values.

use vstd::prelude::*;

verus! {

/// One stored verification-token row, as plain values: the token column, if
/// non-null, and the expiry as a unix timestamp, if non-null and within the
/// calendar range the engine's time handling accepts.
#[derive(Debug)]
pub struct TokenRow {
    pub token: Option<String>,
    pub valid_until: Option<i64>,
}

/// What the verification-token path must do next.
#[derive(Clone, Copy, PartialEq, Eq, Structural, Debug)]
pub enum TokenAction {
    /// A still-valid token is there: hand it back unchanged.
    UseExisting,
    /// The row's token has expired: overwrite it with a fresh one.
    Refresh,
    /// No usable row is there: insert a fresh one.
    Create,
}

/// Decides the verification-token flow. An existing token is returned only
/// while its expiry lies strictly after `now`; a row whose token has expired
/// is refreshed in place; a missing row — or one whose token or expiry
/// column is unusable — is created anew.
pub fn token_action(row: Option<TokenRow>, now: i64) -> (r: TokenAction)
    ensures
        (r is UseExisting) == ({
            &&& row matches Some(w)
            &&& w.token is Some
            &&& w.valid_until matches Some(v)
            &&& v > now
        }),
        (r is Refresh) == ({
            &&& row matches Some(w)
            &&& w.token is Some
            &&& w.valid_until matches Some(v)
            &&& v <= now
        }),
        (r is Create) == !({
            &&& row matches Some(w)
            &&& w.token is Some
            &&& w.valid_until is Some
        }),
{
    match row {
        Some(w) => match (w.token, w.valid_until) {
            (Some(_), Some(v)) => {
                if v > now {
                    TokenAction::UseExisting
                } else {
                    TokenAction::Refresh
                }
            },
            _ => TokenAction::Create,
        },
        None => TokenAction::Create,
    }
}

} // verus!
