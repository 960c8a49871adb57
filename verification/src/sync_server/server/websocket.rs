//! A vault's websocket: its parameters and which updates it passes on.
use vstd::prelude::*;

use crate::text::same_text;

verus! {

/// The path parameters of the websocket of a vault.
#[derive(Debug, Clone, PartialEq)]
pub struct WebsocketPathParams {
    pub vault_id: String,
}

/// Whether a vault update that came from `origin_device` goes out over the
/// websocket of `own_device`: every update does but those that the device
/// itself made.
pub fn forwards_update(own_device: &str, origin_device: Option<&str>) -> (r: bool)
    ensures
        r == !(origin_device matches Some(origin) && origin@ == own_device@),
{
    match origin_device {
        Some(origin) => !same_text(origin, own_device),
        None => true,
    }
}

} // verus!
