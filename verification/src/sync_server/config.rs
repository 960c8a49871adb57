//! The server's configuration and its users.
use vstd::prelude::*;

use rand::Rng as _;
use crate::text::{same_text, string_from_all_chars};

verus! {

/// The configuration of the server.
#[derive(Debug, Clone)]
pub struct Config {
    pub database: DatabaseConfig,
    pub server: ServerConfig,
    pub users: UserConfig,
}

/// Where the database is and how many connections may be open to it.
#[derive(Debug, Clone)]
pub struct DatabaseConfig {
    pub sqlite_url: String,
    pub max_connections: u32,
}

/// Where the server listens and how large a request body may be.
#[derive(Debug, Clone)]
pub struct ServerConfig {
    pub host: String,
    pub port: u16,
    pub max_body_size_mb: usize,
}

impl ServerConfig {
    /// The largest request body that the server takes, in bytes.
    pub fn max_body_size_bytes(&self) -> (n: usize)
        requires
            self.max_body_size_mb * 1024 * 1024 <= usize::MAX,
        ensures
            n == self.max_body_size_mb * 1024 * 1024,
    {
        self.max_body_size_mb * 1024 * 1024
    }
}

/// The users that may access the server.
#[derive(Debug, Clone)]
pub struct UserConfig {
    pub user_tokens: Vec<User>,
}

/// A user, the token that authenticates them, and the vaults they may access.
#[derive(Debug, Clone)]
pub struct User {
    pub name: String,
    pub token: String,
    pub vault_access: VaultAccess,
}

/// The vaults that a user may access.
#[derive(Debug, Clone)]
pub enum VaultAccess {
    AllowAccessToAll,
    AllowList(AllowListedVaults),
}

/// The vaults that a user may access when not all of them.
#[derive(Debug, Clone)]
pub struct AllowListedVaults {
    pub allowed: Vec<String>,
}

/// The mathematical value of the vaults a user may access: all, or a list.
pub enum AccessView {
    All,
    List(Seq<Seq<char>>),
}

/// The mathematical value of a user.
pub struct UserView {
    pub name: Seq<char>,
    pub token: Seq<char>,
    pub access: AccessView,
}

impl View for User {
    type V = UserView;

    open spec fn view(&self) -> UserView {
        UserView {
            name: self.name@,
            token: self.token@,
            access: match self.vault_access {
                VaultAccess::AllowAccessToAll => AccessView::All,
                VaultAccess::AllowList(list) => AccessView::List(
                    list.allowed@.map_values(|v: String| v@),
                ),
            },
        }
    }
}

/// The views of the users.
pub open spec fn users_view(users: Seq<User>) -> Seq<UserView> {
    users.map_values(|u: User| u@)
}

/// The index of the first user from `from` on whose token is `token`.
pub open spec fn first_with_token(users: Seq<UserView>, token: Seq<char>, from: int) -> Option<int>
    decreases users.len() - from,
{
    if from < 0 || from >= users.len() {
        None
    } else if users[from].token == token {
        Some(from)
    } else {
        first_with_token(users, token, from + 1)
    }
}

/// Whether the access lets a user into the vault.
pub open spec fn allows(access: AccessView, vault_id: Seq<char>) -> bool {
    match access {
        AccessView::All => true,
        AccessView::List(allowed) => allowed.contains(vault_id),
    }
}


/// A copy of a list of strings.
fn copy_strings(strings: &Vec<String>) -> (r: Vec<String>)
    ensures
        r@.map_values(|s: String| s@) == strings@.map_values(|s: String| s@),
{
    let mut r: Vec<String> = Vec::new();
    let mut i: usize = 0;
    while i < strings.len()
        invariant
            0 <= i <= strings@.len(),
            r@.map_values(|s: String| s@) == strings@.take(i as int).map_values(|s: String| s@),
        decreases strings.len() - i,
    {
        let ghost before = r@;
        let copy = strings[i].clone();
        r.push(copy);
        proof {
            assert(strings@.take(i + 1) =~= strings@.take(i as int).push(strings@[i as int]));
            assert(r@ =~= before.push(copy));
            assert(r@.map_values(|s: String| s@) =~= before.map_values(|s: String| s@).push(copy@));
            assert(strings@.take(i + 1).map_values(|s: String| s@) =~= strings@.take(i as int).map_values(|s: String| s@).push(strings@[i as int]@));
        }
        i = i + 1;
    }
    proof {
        assert(strings@.take(i as int) =~= strings@);
    }
    r
}

impl User {
    /// A copy of the user.
    pub fn duplicate(&self) -> (r: User)
        ensures
            r@ == self@,
    {
        let vault_access = match &self.vault_access {
            VaultAccess::AllowAccessToAll => VaultAccess::AllowAccessToAll,
            VaultAccess::AllowList(list) => VaultAccess::AllowList(
                AllowListedVaults { allowed: copy_strings(&list.allowed) },
            ),
        };
        User { name: self.name.clone(), token: self.token.clone(), vault_access }
    }
}

impl UserConfig {
    /// The first user whose token is `token`.
    pub fn get_user(&self, token: &str) -> (r: Option<&User>)
        ensures
            match first_with_token(users_view(self.user_tokens@), token@, 0) {
                Some(i) => r matches Some(u) && u@ == users_view(self.user_tokens@)[i],
                None => r is None,
            },
    {
        let ghost users = users_view(self.user_tokens@);
        let mut i: usize = 0;
        while i < self.user_tokens.len()
            invariant
                users == users_view(self.user_tokens@),
                0 <= i <= users.len(),
                first_with_token(users, token@, 0) == first_with_token(users, token@, i as int),
            decreases self.user_tokens.len() - i,
        {
            let user = &self.user_tokens[i];
            proof {
                assert(users[i as int] == user@);
            }
            if same_text(user.token.as_str(), token) {
                return Some(user);
            }
            i = i + 1;
        }
        None
    }
}

/// `rand`'s `Alphanumeric` sample from the thread-local generator: a random
/// ASCII letter or digit.
#[verifier::external_body]
fn random_alphanumeric() -> (c: char)
    ensures
        ('A' <= c <= 'Z') || ('a' <= c <= 'z') || ('0' <= c <= '9'),
{
    char::from(rand::thread_rng().sample(rand::distributions::Alphanumeric))
}

/// A random token of 64 ASCII letters and digits.
pub fn get_random_token() -> (token: String)
    ensures
        token@.len() == 64,
        forall|k: int|
            0 <= k < token@.len() ==> ('A' <= #[trigger] token@[k] <= 'Z') || ('a' <= token@[k] <= 'z')
                || ('0' <= token@[k] <= '9'),
{
    let mut chars: Vec<char> = Vec::new();
    while chars.len() < 64
        invariant
            chars@.len() <= 64,
            forall|k: int|
                0 <= k < chars@.len() ==> ('A' <= #[trigger] chars@[k] <= 'Z') || ('a' <= chars@[k]
                    <= 'z') || ('0' <= chars@[k] <= '9'),
        decreases 64 - chars.len(),
    {
        chars.push(random_alphanumeric());
    }
    string_from_all_chars(&chars)
}

/// The users when none are configured: an administrator with access to all
/// vaults and a random token.
pub fn default_users() -> (users: Vec<User>)
    ensures
        users@.len() == 1,
        users@[0].name@ == "admin"@,
        users@[0].token@.len() == 64,
        users@[0].vault_access is AllowAccessToAll,
{
    let mut users: Vec<User> = Vec::new();
    users.push(
        User {
            name: "admin".to_string(),
            token: get_random_token(),
            vault_access: VaultAccess::AllowAccessToAll,
        },
    );
    users
}

impl Default for UserConfig {
    fn default() -> (c: Self)
        ensures
            c.user_tokens@.len() == 1,
            c.user_tokens@[0].name@ == "admin"@,
            c.user_tokens@[0].token@.len() == 64,
            c.user_tokens@[0].vault_access is AllowAccessToAll,
    {
        UserConfig { user_tokens: default_users() }
    }
}

impl Default for VaultAccess {
    fn default() -> (v: Self)
        ensures
            v is AllowAccessToAll,
    {
        VaultAccess::AllowAccessToAll
    }
}

impl Default for AllowListedVaults {
    fn default() -> (v: Self)
        ensures
            v.allowed@.len() == 0,
    {
        AllowListedVaults { allowed: Vec::new() }
    }
}

} // verus!
