//! Who may access a vault.
use vstd::prelude::*;

use super::config::{allows, first_with_token, users_view, AccessView, User, UserConfig, VaultAccess};
use super::errors::{message_error, permission_denied_error, unauthorized_error, SyncServerError};
use crate::text::concat3;

verus! {

/// Whether the user may access the vault.
pub fn may_access(user: &User, vault_id: &str) -> (r: bool)
    ensures
        r == allows(user@.access, vault_id@),
{
    match &user.vault_access {
        VaultAccess::AllowAccessToAll => true,
        VaultAccess::AllowList(list) => {
            let ghost allowed = list.allowed@.map_values(|v: String| v@);
            assert(user@.access == AccessView::List(allowed));
            let mut i: usize = 0;
            while i < list.allowed.len()
                invariant
                    allowed == list.allowed@.map_values(|v: String| v@),
                    user@.access == AccessView::List(allowed),
                    0 <= i <= allowed.len(),
                    forall|k: int| 0 <= k < i ==> allowed[k] != vault_id@,
                decreases list.allowed.len() - i,
            {
                proof {
                    assert(allowed[i as int] == list.allowed@[i as int]@);
                }
                if crate::text::same_text(list.allowed[i].as_str(), vault_id) {
                    proof {
                        assert(allowed[i as int] == vault_id@);
                        assert(allowed.contains(vault_id@));
                    }
                    return true;
                }
                i = i + 1;
            }
            proof {
                if allowed.contains(vault_id@) {
                    let k = choose|k: int| 0 <= k < allowed.len() && allowed[k] == vault_id@;
                    assert(allowed[k] != vault_id@);
                }
            }
            false
        },
    }
}

/// Authenticates the user of `token` and checks that they may access the
/// vault: the user, an `Unauthorized` error for an unknown token, or a
/// `PermissionDeniedError` for a vault they may not access.
pub fn auth(users: &UserConfig, token: &str, vault_id: &str) -> (r: Result<User, SyncServerError>)
    ensures
        match first_with_token(users_view(users.user_tokens@), token@, 0) {
            None => r matches Err(SyncServerError::Unauthorized(e)) && e.message@ == "Invalid token"@,
            Some(i) => if allows(users_view(users.user_tokens@)[i].access, vault_id@) {
                r matches Ok(u) && u@ == users_view(users.user_tokens@)[i]
            } else {
                r matches Err(SyncServerError::PermissionDeniedError(e)) && e.message@
                    == "Permission denied for vault `"@ + vault_id@ + "`"@
            },
        },
{
    let user = match users.get_user(token) {
        Some(user) => user.duplicate(),
        None => {
            return Err(unauthorized_error(message_error("Invalid token".to_string())));
        },
    };
    if may_access(&user, vault_id) {
        Ok(user)
    } else {
        let message = concat3("Permission denied for vault `", &vault_id.to_string(), "`");
        Err(permission_denied_error(message_error(message)))
    }
}

} // verus!
