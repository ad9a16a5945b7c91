//! Access to the OpenSky Network: client credentials and the bearer token that they are
//! exchanged for.

use vstd::prelude::*;
use vstd::string::*;

verus! {

/// Seconds before its expiry at which a token is no longer used.
pub const REFRESH_MARGIN_S: u64 = 30;

/// A token and the second since the epoch at which it expires.
#[derive(Debug)]
pub struct BearerToken {
    pub bearer: String,
    pub expires_at_s: u64,
}

/// The credentials of a client and the token that it holds.
#[derive(Debug)]
pub struct OpenSkyAuth {
    pub client_id: String,
    pub client_secret: String,
    pub token: Option<BearerToken>,
}

/// The content of an `OpenSkyAuth`; the token with its expiry.
pub struct AuthView {
    pub client_id: Seq<char>,
    pub client_secret: Seq<char>,
    pub token: Option<(Seq<char>, int)>,
}

impl View for OpenSkyAuth {
    type V = AuthView;

    open spec fn view(&self) -> AuthView {
        AuthView {
            client_id: self.client_id@,
            client_secret: self.client_secret@,
            token: match self.token {
                Some(t) => Some((t.bearer@, t.expires_at_s as int)),
                None => None,
            },
        }
    }
}

impl AuthView {
    /// The token that may be used at a moment: one that does not expire within the
    /// margin.
    pub open spec fn usable(self, now_s: int) -> Option<Seq<char>> {
        match self.token {
            Some((bearer, expires_at_s)) => if now_s + REFRESH_MARGIN_S < expires_at_s {
                Some(bearer)
            } else {
                None
            },
            None => None,
        }
    }

    /// The same client with a token that was obtained at a moment and is valid for some
    /// seconds. Moments beyond the 64-bit numbers are cut off.
    pub open spec fn holding(self, bearer: Seq<char>, expires_in_s: int, now_s: int) -> AuthView {
        AuthView {
            token: Some(
                (
                    bearer,
                    if now_s + expires_in_s > u64::MAX {
                        u64::MAX as int
                    } else {
                        now_s + expires_in_s
                    },
                ),
            ),
            ..self
        }
    }
}

impl OpenSkyAuth {
    /// A client without a token; none where a credential is missing.
    pub fn from_credentials(client_id: Option<String>, client_secret: Option<String>) -> (r: Option<
        OpenSkyAuth,
    >)
        ensures
            r is Some <==> client_id is Some && client_secret is Some,
            r matches Some(auth) ==> auth@ == (AuthView {
                client_id: client_id->0@,
                client_secret: client_secret->0@,
                token: None,
            }),
    {
        match (client_id, client_secret) {
            (Some(client_id), Some(client_secret)) => Some(
                OpenSkyAuth { client_id, client_secret, token: None },
            ),
            _ => None,
        }
    }

    /// The token that may be used at a moment.
    pub fn cached_bearer(&self, now_s: u64) -> (r: Option<String>)
        ensures
            crate::text::opt_text(r) == self@.usable(now_s as int),
    {
        match &self.token {
            Some(t) => if t.expires_at_s > REFRESH_MARGIN_S && now_s < t.expires_at_s
                - REFRESH_MARGIN_S {
                Some(t.bearer.clone())
            } else {
                None
            },
            None => None,
        }
    }

    /// Keeps a token that was obtained at a moment and is valid for some seconds.
    pub fn store_token(&mut self, bearer: String, expires_in_s: u64, now_s: u64)
        ensures
            final(self)@ == old(self)@.holding(bearer@, expires_in_s as int, now_s as int),
    {
        let expires_at_s: u64 = if expires_in_s > u64::MAX - now_s {
            u64::MAX
        } else {
            now_s + expires_in_s
        };
        self.token = Some(BearerToken { bearer, expires_at_s });
    }
}

/// A stored token is given back exactly until half a minute before it expires.
pub proof fn token_is_reused_until_margin(
    auth: AuthView,
    bearer: Seq<char>,
    expires_in_s: u64,
    stored_s: u64,
    now_s: u64,
)
    requires
        stored_s + expires_in_s <= u64::MAX,
    ensures
        auth.holding(bearer, expires_in_s as int, stored_s as int).usable(now_s as int) == (if now_s
            + REFRESH_MARGIN_S < stored_s + expires_in_s {
            Some(bearer)
        } else {
            None
        }),
{
}

/// What a token is asked for with: the client credentials.
#[derive(Debug)]
pub struct TokenRequest {
    pub grant_type: String,
    pub client_id: String,
    pub client_secret: String,
}

/// How a request gets access.
#[derive(Debug)]
pub enum Access {
    /// Without credentials.
    Anonymous,
    /// With a token that is at hand.
    Bearer(String),
    /// With a token that is to be asked for first.
    Exchange(TokenRequest),
}

/// The content of an `Access`.
pub enum AccessView {
    Anonymous,
    Bearer(Seq<char>),
    Exchange { grant_type: Seq<char>, client_id: Seq<char>, client_secret: Seq<char> },
}

impl View for Access {
    type V = AccessView;

    open spec fn view(&self) -> AccessView {
        match *self {
            Access::Anonymous => AccessView::Anonymous,
            Access::Bearer(t) => AccessView::Bearer(t@),
            Access::Exchange(q) => AccessView::Exchange {
                grant_type: q.grant_type@,
                client_id: q.client_id@,
                client_secret: q.client_secret@,
            },
        }
    }
}

/// The exchange of a client's credentials for a token.
pub open spec fn exchange_of(auth: AuthView) -> AccessView {
    AccessView::Exchange {
        grant_type: "client_credentials"@,
        client_id: auth.client_id,
        client_secret: auth.client_secret,
    }
}

/// How a request gets access at a moment: with the token at hand where it may be used,
/// else with a new one in exchange for the credentials. Without a client it is anonymous.
pub open spec fn access_of(auth: Option<AuthView>, now_s: int) -> AccessView {
    match auth {
        Some(auth) => match auth.usable(now_s) {
            Some(bearer) => AccessView::Bearer(bearer),
            None => exchange_of(auth),
        },
        None => AccessView::Anonymous,
    }
}

/// How a request gets access at a moment.
pub fn access(auth: Option<&OpenSkyAuth>, now_s: u64) -> (r: Access)
    ensures
        r@ == access_of(
            match auth {
                Some(auth) => Some(auth@),
                None => None,
            },
            now_s as int,
        ),
{
    match auth {
        Some(auth) => match auth.cached_bearer(now_s) {
            Some(bearer) => Access::Bearer(bearer),
            None => Access::Exchange(
                TokenRequest {
                    grant_type: "client_credentials".to_owned(),
                    client_id: auth.client_id.clone(),
                    client_secret: auth.client_secret.clone(),
                },
            ),
        },
        None => Access::Anonymous,
    }
}

/// A client without a token asks for one with its credentials. Once it holds one, requests
/// carry that token until half a minute before it expires; from then on the same
/// credentials are exchanged again.
pub proof fn credentials_are_exchanged_once_per_token(
    auth: AuthView,
    bearer: Seq<char>,
    expires_in_s: u64,
    stored_s: u64,
    now_s: u64,
)
    requires
        stored_s + expires_in_s <= u64::MAX,
    ensures
        auth.token is None ==> access_of(Some(auth), now_s as int) == exchange_of(auth),
        access_of(
            Some(auth.holding(bearer, expires_in_s as int, stored_s as int)),
            now_s as int,
        ) == (if now_s + REFRESH_MARGIN_S < stored_s + expires_in_s {
            AccessView::Bearer(bearer)
        } else {
            exchange_of(auth)
        }),
{
}

/// The content of a client is that of its fields.
pub proof fn content_of_client(x: OpenSkyAuth)
    ensures
        x@.client_id == x.client_id@,
        x@.client_secret == x.client_secret@,
        x.token is None ==> x@.token is None,
        x.token matches Some(t) ==> x@.token == Some((t.bearer@, t.expires_at_s as int)),
{
}

/// A token may be used exactly while more than thirty seconds are left until it expires, and
/// keeping one changes nothing else of the client.
pub proof fn tokens_are_used_until_thirty_seconds_before_they_expire(
    auth: AuthView,
    bearer: Seq<char>,
    expires_in_s: u64,
    stored_s: u64,
    now_s: u64,
)
    requires
        stored_s + expires_in_s <= u64::MAX,
    ensures
        ({
            let held = auth.holding(bearer, expires_in_s as int, stored_s as int);
            &&& held.client_id == auth.client_id
            &&& held.client_secret == auth.client_secret
            &&& stored_s + expires_in_s - now_s > 30 ==> held.usable(now_s as int) == Some(bearer)
            &&& stored_s + expires_in_s - now_s <= 30 ==> held.usable(now_s as int) is None
        }),
        auth.token is None ==> auth.usable(now_s as int) is None,
{
}

/// A token that is valid beyond the 64-bit seconds is taken to expire with the last of them.
pub proof fn tokens_expire_with_the_last_second(
    auth: AuthView,
    bearer: Seq<char>,
    expires_in_s: u64,
    stored_s: u64,
    now_s: u64,
)
    requires
        stored_s + expires_in_s > u64::MAX,
    ensures
        ({
            let held = auth.holding(bearer, expires_in_s as int, stored_s as int);
            &&& u64::MAX - now_s > 30 ==> held.usable(now_s as int) == Some(bearer)
            &&& u64::MAX - now_s <= 30 ==> held.usable(now_s as int) is None
        }),
{
}

/// What is exchanged for a token are the credentials of the client, under the name of that
/// grant. Without a client nothing is sent along.
pub proof fn exchanges_carry_the_credentials(auth: AuthView, now_s: int)
    ensures
        auth.usable(now_s) is None ==> access_of(Some(auth), now_s) == (AccessView::Exchange {
            grant_type: "client_credentials"@,
            client_id: auth.client_id,
            client_secret: auth.client_secret,
        }),
        auth.usable(now_s) matches Some(bearer) ==> access_of(Some(auth), now_s)
            == AccessView::Bearer(bearer),
        access_of(None, now_s) is Anonymous,
{
}

} // verus!
