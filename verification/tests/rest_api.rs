use vibes::rest_api::{
    authorize, Api, ApiError, EchoPayload, LoginRequest, MockTokenAuth, MOCK_BEARER_TOKEN,
};

fn login(api: &Api) -> String {
    api.login(LoginRequest {
        username: String::from("user"),
        password: String::from("pass"),
    })
    .token
}

#[test]
fn login_returns_mock_token() {
    let api = Api;
    let token = api.login(LoginRequest {
        username: String::from("demo"),
        password: String::from("secret"),
    });
    assert_eq!(token.token, MOCK_BEARER_TOKEN);
}

#[test]
fn echo_round_trips_payload() {
    let api = Api;
    let token = login(&api);
    let payload = EchoPayload {
        message: String::from("Hello, Vibes!"),
    };
    let response = api
        .echo(&MockTokenAuth { token }, payload.clone())
        .expect("authorized echo");
    assert_eq!(response.message, payload.message);
}

#[test]
fn echo_rejects_invalid_token() {
    let api = Api;
    let payload = EchoPayload {
        message: String::from("Hello, Vibes!"),
    };
    let response = api.echo(
        &MockTokenAuth {
            token: String::from("wrong-token"),
        },
        payload,
    );
    assert_eq!(response.unwrap_err(), ApiError::Unauthorized);
    assert_eq!(ApiError::Unauthorized.status_code(), 401);
}

#[test]
fn ingest_parses_json_payload() {
    let api = Api;
    let token = login(&api);
    let record = (String::from("Temperature reading"), 3_i32, 0.618_f64);
    let parsed = api
        .ingest(&MockTokenAuth { token }, record)
        .expect("authorized ingest");
    assert_eq!(parsed.0, "Temperature reading");
    assert_eq!(parsed.1, 3);
    assert!((parsed.2 - 0.618).abs() < f64::EPSILON);
}

#[test]
fn ingest_rejects_invalid_token() {
    let api = Api;
    let record = (String::from("Temperature reading"), 3_i32, 0.618_f64);
    let result = api.ingest(
        &MockTokenAuth {
            token: String::from("vibes-mock-bearer-token "),
        },
        record,
    );
    assert_eq!(result.unwrap_err(), ApiError::Unauthorized);
}

#[test]
fn authorize_accepts_only_the_mock_token() {
    assert!(authorize(&MockTokenAuth {
        token: MOCK_BEARER_TOKEN.to_string()
    })
    .is_ok());
    assert_eq!(
        authorize(&MockTokenAuth {
            token: String::new()
        }),
        Err(ApiError::Unauthorized)
    );
}
