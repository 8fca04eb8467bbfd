//! The token gate: when to refresh the access token, and what the OAuth
//! requests carry. The requests themselves are sent by the caller.

use vstd::prelude::*;
use vstd::string::StringExecFns;
use crate::messages::{params_view, push_param};

verus! {

/// The `installed` section of a client configuration file.
#[derive(Debug)]
pub struct ConfigInstalled {
    pub client_id: String,
    pub client_secret: String,
    pub auth_uri: String,
    pub token_uri: String,
}

/// A client configuration file.
#[derive(Debug)]
pub struct Config {
    pub installed: ConfigInstalled,
}

/// Why new tokens could not be taken in.
#[derive(Debug, Clone, Copy, PartialEq, Eq, Structural)]
pub enum AuthError {
    /// The expiry time does not fit.
    InvalidExpiry,
}

/// The tokens held, as plain values; times are seconds since the Unix epoch.
pub struct TokenView {
    pub refresh: Seq<char>,
    pub access: Seq<char>,
    pub expiry: Option<u64>,
}

/// The refresh token, the access token, and when to treat the latter as expired.
pub struct TokenState {
    refresh_token: String,
    access_token: String,
    expiry: Option<u64>,
}

impl View for TokenState {
    type V = TokenView;

    closed spec fn view(&self) -> TokenView {
        TokenView { refresh: self.refresh_token@, access: self.access_token@, expiry: self.expiry }
    }
}

/// Two thirds of a lifetime, rounded down: tokens are renewed well before
/// they lapse.
pub open spec fn two_thirds(n: u64) -> int {
    (n as int * 2) / 3
}

/// Whether a request must first renew the access token: there is none yet,
/// or the time `now` is past its expiry.
pub open spec fn refresh_due(t: TokenView, now: u64) -> bool {
    t.access.len() == 0 || (t.expiry matches Some(et) && now > et)
}

/// When a token that lives `expires_in` seconds from `now` is treated as expired.
pub fn expiry_after(now: u64, expires_in: u64) -> (r: Option<u64>)
    ensures
        r matches Some(et) ==> et == now + two_thirds(expires_in),
        r is None <==> now + two_thirds(expires_in) > u64::MAX,
{
    let part: u64 = expires_in / 3 * 2 + (expires_in % 3) * 2 / 3;
    assert(part == two_thirds(expires_in)) by (nonlinear_arith)
        requires
            part == expires_in / 3 * 2 + (expires_in % 3) * 2 / 3,
    ;
    now.checked_add(part)
}

impl TokenState {
    /// No tokens yet.
    pub fn new() -> (r: TokenState)
        ensures
            r@.refresh.len() == 0,
            r@.access.len() == 0,
            r@.expiry is None,
    {
        TokenState { refresh_token: String::new(), access_token: String::new(), expiry: None }
    }

    pub fn access_token(&self) -> (r: String)
        ensures
            r@ == self@.access,
    {
        self.access_token.clone()
    }

    pub fn refresh_token(&self) -> (r: String)
        ensures
            r@ == self@.refresh,
    {
        self.refresh_token.clone()
    }

    pub fn set_refresh_token(&mut self, rt: &str)
        ensures
            final(self)@ == (TokenView { refresh: rt@, ..old(self)@ }),
    {
        self.refresh_token = String::from_str(rt);
    }

    /// Whether the access token must be renewed before a request at `now`.
    pub fn needs_refresh(&self, now: u64) -> (r: bool)
        ensures
            r == refresh_due(self@, now),
    {
        if self.access_token.as_str().is_empty() {
            return true;
        }
        match self.expiry {
            Some(et) => now > et,
            None => false,
        }
    }

    /// Takes in a renewed access token that lives `expires_in` seconds from `now`.
    pub fn apply_refresh(&mut self, access_token: String, expires_in: u64, now: u64) -> (r: Result<
        (),
        AuthError,
    >)
        ensures
            r is Err <==> now + two_thirds(expires_in) > u64::MAX,
            r is Err ==> final(self)@ == old(self)@,
            r is Ok ==> final(self)@ == (TokenView {
                access: access_token@,
                expiry: Some((now + two_thirds(expires_in)) as u64),
                ..old(self)@
            }),
    {
        match expiry_after(now, expires_in) {
            None => Err(AuthError::InvalidExpiry),
            Some(et) => {
                self.access_token = access_token;
                self.expiry = Some(et);
                Ok(())
            },
        }
    }

    /// Takes in the tokens that exchanging an authorisation code gave.
    pub fn apply_exchange(
        &mut self,
        refresh_token: String,
        access_token: String,
        expires_in: u64,
        now: u64,
    ) -> (r: Result<(), AuthError>)
        ensures
            r is Err <==> now + two_thirds(expires_in) > u64::MAX,
            r is Err ==> final(self)@ == old(self)@,
            r is Ok ==> final(self)@ == (TokenView {
                refresh: refresh_token@,
                access: access_token@,
                expiry: Some((now + two_thirds(expires_in)) as u64),
            }),
    {
        match expiry_after(now, expires_in) {
            None => Err(AuthError::InvalidExpiry),
            Some(et) => {
                self.refresh_token = refresh_token;
                self.access_token = access_token;
                self.expiry = Some(et);
                Ok(())
            },
        }
    }
}

/// The scopes asked for: read-only access to mail, or access to modify it.
pub open spec fn auth_scope_spec(readonly: bool) -> Seq<char> {
    "profile"@ + if readonly {
        " https://www.googleapis.com/auth/gmail.readonly"@
    } else {
        " https://www.googleapis.com/auth/gmail.modify"@
    }
}

/// The scopes to ask for: read-only access to mail, or access to modify it.
pub fn auth_scope(readonly: bool) -> (r: String)
    ensures
        r@ == auth_scope_spec(readonly),
{
    let mut scope = String::from_str("profile");
    if readonly {
        scope.append(" https://www.googleapis.com/auth/gmail.readonly");
    } else {
        scope.append(" https://www.googleapis.com/auth/gmail.modify");
    }
    scope
}

/// The query of the address that a user opens to grant access.
pub fn auth_params(client_id: &str, redirect_uri: &str, readonly: bool) -> (r: Vec<(String, String)>)
    ensures
        params_view(r@) == seq![
            ("client_id"@, client_id@),
            ("redirect_uri"@, redirect_uri@),
            ("response_type"@, "code"@),
            ("scope"@, auth_scope_spec(readonly)),
        ],
{
    let mut v: Vec<(String, String)> = Vec::new();
    push_param(&mut v, "client_id", client_id);
    push_param(&mut v, "redirect_uri", redirect_uri);
    push_param(&mut v, "response_type", "code");
    let scope = auth_scope(readonly);
    push_param(&mut v, "scope", scope.as_str());
    assert(params_view(v@) =~= seq![
        ("client_id"@, client_id@),
        ("redirect_uri"@, redirect_uri@),
        ("response_type"@, "code"@),
        ("scope"@, auth_scope_spec(readonly)),
    ]);
    v
}

/// The form that exchanges an authorisation code for tokens.
pub fn exchange_params(
    code: &str,
    client_id: &str,
    client_secret: &str,
    redirect_uri: &str,
) -> (r: Vec<(String, String)>)
    ensures
        params_view(r@) == seq![
            ("code"@, code@),
            ("client_id"@, client_id@),
            ("client_secret"@, client_secret@),
            ("redirect_uri"@, redirect_uri@),
            ("grant_type"@, "authorization_code"@),
        ],
{
    let mut v: Vec<(String, String)> = Vec::new();
    push_param(&mut v, "code", code);
    push_param(&mut v, "client_id", client_id);
    push_param(&mut v, "client_secret", client_secret);
    push_param(&mut v, "redirect_uri", redirect_uri);
    push_param(&mut v, "grant_type", "authorization_code");
    assert(params_view(v@) =~= seq![
        ("code"@, code@),
        ("client_id"@, client_id@),
        ("client_secret"@, client_secret@),
        ("redirect_uri"@, redirect_uri@),
        ("grant_type"@, "authorization_code"@),
    ]);
    v
}

/// The form that renews the access token.
pub fn refresh_params(client_id: &str, client_secret: &str, refresh_token: &str) -> (r: Vec<
    (String, String),
>)
    ensures
        params_view(r@) == seq![
            ("client_id"@, client_id@),
            ("client_secret"@, client_secret@),
            ("refresh_token"@, refresh_token@),
            ("grant_type"@, "refresh_token"@),
        ],
{
    let mut v: Vec<(String, String)> = Vec::new();
    push_param(&mut v, "client_id", client_id);
    push_param(&mut v, "client_secret", client_secret);
    push_param(&mut v, "refresh_token", refresh_token);
    push_param(&mut v, "grant_type", "refresh_token");
    assert(params_view(v@) =~= seq![
        ("client_id"@, client_id@),
        ("client_secret"@, client_secret@),
        ("refresh_token"@, refresh_token@),
        ("grant_type"@, "refresh_token"@),
    ]);
    v
}

} // verus!
