//! The REST API's rules: the mock bearer token that login hands out, and the
//! check that the protected routes (echo, telemetry ingestion) make before
//! they answer.

use vstd::prelude::*;

verus! {

/// Mock bearer token returned by the login route and required by the
/// protected routes.
pub const MOCK_BEARER_TOKEN: &'static str = "vibes-mock-bearer-token";

/// The bearer token that a request to a protected route carries.
#[derive(Clone, Debug)]
pub struct MockTokenAuth {
    /// The token after `Bearer ` in the `Authorization` header.
    pub token: String,
}

/// Payload accepted and returned by the echo route.
#[derive(Clone, Debug)]
pub struct EchoPayload {
    /// The text that is echoed back.
    pub message: String,
}

/// Payload accepted by the login route.
#[derive(Clone, Debug)]
pub struct LoginRequest {
    /// Username supplied by the caller.
    pub username: String,
    /// Password supplied by the caller.
    pub password: String,
}

/// Response of the login route.
#[derive(Clone, Debug)]
pub struct LoginResponse {
    /// The bearer token to present to the protected routes.
    pub token: String,
}

/// Why a request to a protected route is refused.
#[derive(Clone, Copy, Debug, PartialEq, Eq, Structural)]
pub enum ApiError {
    /// The bearer token is not the one that login hands out (HTTP 401).
    Unauthorized,
}

impl ApiError {
    /// The HTTP status code of the error.
    pub fn status_code(&self) -> (code: u16)
        ensures
            *self == ApiError::Unauthorized ==> code == 401,
    {
        match self {
            ApiError::Unauthorized => 401,
        }
    }
}

/// `<String as PartialEq<&str>>::eq`: whether `a` holds the text of `b`.
#[verifier::external_body]
fn string_matches(a: &String, b: &str) -> (r: bool)
    ensures
        r == (a@ == b@),
{
    a == b
}

/// Whether `auth` carries the mock bearer token.
pub open spec fn is_authorized(auth: MockTokenAuth) -> bool {
    auth.token@ == MOCK_BEARER_TOKEN@
}

/// Accepts a request whose bearer token is the mock token, and refuses any
/// other as unauthorized.
pub fn authorize(auth: &MockTokenAuth) -> (res: Result<(), ApiError>)
    ensures
        res is Ok <==> is_authorized(*auth),
        res is Err ==> res == Err::<(), ApiError>(ApiError::Unauthorized),
{
    if string_matches(&auth.token, MOCK_BEARER_TOKEN) {
        Ok(())
    } else {
        Err(ApiError::Unauthorized)
    }
}

/// The routes of the REST API.
#[derive(Clone, Copy, Debug)]
pub struct Api;

impl Api {
    /// Issues the mock bearer token; the credentials are not checked.
    pub fn login(&self, payload: LoginRequest) -> (res: LoginResponse)
        ensures
            res.token@ == MOCK_BEARER_TOKEN@,
    {
        let _ = payload;
        LoginResponse { token: MOCK_BEARER_TOKEN.to_owned() }
    }

    /// Echoes `payload` unchanged to an authorized caller.
    pub fn echo(&self, auth: &MockTokenAuth, payload: EchoPayload) -> (res: Result<
        EchoPayload,
        ApiError,
    >)
        ensures
            is_authorized(*auth) ==> res == Ok::<EchoPayload, ApiError>(payload),
            !is_authorized(*auth) ==> res == Err::<EchoPayload, ApiError>(ApiError::Unauthorized),
    {
        authorize(auth)?;
        Ok(payload)
    }

    /// Hands a telemetry record back unchanged to an authorized caller.
    pub fn ingest<R>(&self, auth: &MockTokenAuth, record: R) -> (res: Result<R, ApiError>)
        ensures
            is_authorized(*auth) ==> res == Ok::<R, ApiError>(record),
            !is_authorized(*auth) ==> res == Err::<R, ApiError>(ApiError::Unauthorized),
    {
        authorize(auth)?;
        Ok(record)
    }
}

/// The token that login hands out is accepted by every protected route: a
/// request that carries it is authorized.
pub proof fn lemma_login_token_is_authorized(response: LoginResponse)
    requires
        response.token@ == MOCK_BEARER_TOKEN@,
    ensures
        is_authorized(MockTokenAuth { token: response.token }),
{
}

} // verus!
