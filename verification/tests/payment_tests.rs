use base64::Engine;
use x402_router::amount::DomainU256;
use x402_router::config::Config;
use x402_router::payment::{
    build_payment_requirements, gate_after_settle, gate_after_verify, gate_begin,
    payment_required_response, GateStep, SettleDecision, SettleResponse, VerifyDecision,
    VerifyResponse,
};

fn test_config() -> Config {
    Config {
        test_mode: false,
        port: 3402,
        facilitator_url: "https://facilitator.example".to_string(),
        facilitator_signer: "0xSIGNER".to_string(),
        wallet_address: "0xWALLET".to_string(),
        payment_network: "base".to_string(),
        payment_token_address: "0xTOKEN".to_string(),
        payment_token_symbol: "TOK".to_string(),
        payment_token_decimals: 2,
        payment_token_name: "Token".to_string(),
        payment_token_version: "1".to_string(),
        fal_key: "test-provider-key".to_string(),
        public_url: "http://localhost:3402".to_string(),
        endpoints_config_path: "endpoints.ron".to_string(),
        s3_endpoint: "https://nyc3.example".to_string(),
        s3_bucket: "bucket".to_string(),
        s3_region: "nyc3".to_string(),
        s3_access_key: "test-access-key".to_string(),
        s3_secret_key: "test-secret-key".to_string(),
        s3_cdn_url: "https://cdn.example/".to_string(),
        database_url: "postgres://localhost/db".to_string(),
    }
}

fn price(human: &str, decimals: u8) -> DomainU256 {
    DomainU256::from_human_amount(human, decimals).unwrap()
}

#[test]
fn requirement_carries_route_price_and_configured_token() {
    let config = test_config();
    let amount = price("10", 2);
    let req = build_payment_requirements(&config, &amount, "/fox", "a fox");
    assert_eq!(req.scheme, "permit");
    assert_eq!(req.network, "base");
    assert_eq!(req.max_amount_required, "1000");
    assert_eq!(req.resource, "/fox");
    assert_eq!(req.description, "a fox");
    assert_eq!(req.mime_type, "application/json");
    assert_eq!(req.pay_to, "0xWALLET");
    assert_eq!(req.max_timeout_seconds, 300);
    assert_eq!(req.asset, "0xTOKEN");
    let extra = req.extra.unwrap();
    assert_eq!(extra.token, "TOK");
    assert_eq!(extra.address, "0xTOKEN");
    assert_eq!(extra.decimals, 2);
    assert_eq!(extra.name, "Token");
    assert_eq!(extra.version, "1");
    assert_eq!(extra.facilitator_signer, "0xSIGNER");
    assert!(extra.minimum_amount);
}

#[test]
fn missing_credential_yields_one_requirement_challenge() {
    let config = test_config();
    let amount = price("10", 2);
    let resp = payment_required_response(&config, &amount, "/fox", "a fox");
    assert_eq!(resp.x402_version, 1);
    assert_eq!(resp.accepts.len(), 1);
    assert!(resp.error.is_none());
    assert_eq!(resp.accepts[0].asset, "0xTOKEN");
    assert_eq!(resp.accepts[0].network, "base");
    assert_eq!(resp.accepts[0].pay_to, "0xWALLET");
    assert_eq!(resp.accepts[0].max_amount_required, "1000");
}

#[test]
fn gate_challenges_without_a_header() {
    let config = test_config();
    let amount = price("10", 2);
    match gate_begin(&config, &amount, "/fox", "a fox", None) {
        GateStep::Challenge(c) => {
            assert_eq!(c.x402_version, 1);
            assert_eq!(c.accepts.len(), 1);
        },
        _ => panic!("expected a challenge"),
    }
}

#[test]
fn gate_rejects_malformed_base64() {
    let config = test_config();
    let amount = price("10", 2);
    match gate_begin(&config, &amount, "/fox", "a fox", Some("!!not base64!!")) {
        GateStep::BadRequest(m) => assert_eq!(m, "invalid payment encoding"),
        _ => panic!("expected a bad request"),
    }
}

#[test]
fn gate_rejects_base64_that_is_not_json() {
    let config = test_config();
    let amount = price("10", 2);
    let header = base64::engine::general_purpose::STANDARD.encode("not json at all");
    match gate_begin(&config, &amount, "/fox", "a fox", Some(&header)) {
        GateStep::BadRequest(m) => assert_eq!(m, "invalid payment JSON"),
        _ => panic!("expected a bad request"),
    }
}

#[test]
fn gate_proceeds_on_a_decodable_credential() {
    let config = test_config();
    let amount = price("10", 2);
    let header = base64::engine::general_purpose::STANDARD.encode("{\"signature\":\"0xabc\"}");
    match gate_begin(&config, &amount, "/fox", "a fox", Some(&header)) {
        GateStep::Proceed(vr) => {
            assert_eq!(vr.x402_version, 1);
            assert_eq!(vr.payment_requirements.max_amount_required, "1000");
            assert_eq!(vr.payment_requirements.asset, "0xTOKEN");
        },
        _ => panic!("expected to proceed to verification"),
    }
}

#[test]
fn verify_failure_surfaces_the_facilitator_reason() {
    let outcome = Ok(VerifyResponse {
        is_valid: false,
        invalid_reason: Some("expired permit".to_string()),
        payer: None,
    });
    match gate_after_verify(outcome) {
        VerifyDecision::Rejected(m) => assert_eq!(m, "expired permit"),
        _ => panic!("expected a rejection"),
    }
}

#[test]
fn verify_transport_failure_is_upstream() {
    match gate_after_verify(Err("connection refused".to_string())) {
        VerifyDecision::Upstream(m) => assert_eq!(m, "connection refused"),
        _ => panic!("expected an upstream error"),
    }
}

#[test]
fn valid_payment_goes_on_to_settlement() {
    let outcome = Ok(VerifyResponse { is_valid: true, invalid_reason: None, payer: None });
    assert!(matches!(gate_after_verify(outcome), VerifyDecision::Settle));
}

#[test]
fn settlement_success_carries_transaction_and_payer() {
    let outcome = Ok(SettleResponse {
        success: true,
        network: "base".to_string(),
        transaction: Some("0xtx".to_string()),
        error_reason: None,
        payer: Some("0xpayer".to_string()),
    });
    match gate_after_settle(outcome) {
        SettleDecision::Settled { transaction, payer } => {
            assert_eq!(transaction.as_deref(), Some("0xtx"));
            assert_eq!(payer.as_deref(), Some("0xpayer"));
        },
        _ => panic!("expected settlement"),
    }
}

#[test]
fn settlement_failure_surfaces_the_reason() {
    let outcome = Ok(SettleResponse {
        success: false,
        network: "base".to_string(),
        transaction: None,
        error_reason: Some("insufficient allowance".to_string()),
        payer: None,
    });
    match gate_after_settle(outcome) {
        SettleDecision::Rejected(m) => assert_eq!(m, "insufficient allowance"),
        _ => panic!("expected a rejection"),
    }
}

#[test]
fn settlement_transport_failure_is_upstream() {
    match gate_after_settle(Err("bad gateway".to_string())) {
        SettleDecision::Upstream(m) => assert_eq!(m, "bad gateway"),
        _ => panic!("expected an upstream error"),
    }
}
