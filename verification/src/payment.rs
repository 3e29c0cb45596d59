//! The payment gate: the HTTP-402 challenge / verify / settle protocol run
//! in front of the generation pipeline. Each request is terminal within one
//! request/response cycle; verify and settle are always performed together,
//! in that order, and no payment is reused across requests.

use vstd::prelude::*;
use crate::amount::{canonical_dec_chars, dec_str_val, DomainU256};
use crate::config::Config;

verus! {

/// One payment requirement offered to the caller in a 402 challenge.
pub struct PaymentRequirements {
    pub scheme: String,
    pub network: String,
    pub max_amount_required: String,
    pub resource: String,
    pub description: String,
    pub mime_type: String,
    pub pay_to: String,
    pub max_timeout_seconds: u64,
    pub asset: String,
    pub extra: Option<RequirementExtra>,
}

/// Token metadata attached to a payment requirement.
pub struct RequirementExtra {
    pub token: String,
    pub address: String,
    pub decimals: u8,
    pub name: String,
    pub version: String,
    pub facilitator_signer: String,
    pub minimum_amount: bool,
}

/// The body of a 402 response: the protocol version and the requirements
/// the caller may satisfy.
pub struct PaymentRequiredResponse {
    pub x402_version: u32,
    pub accepts: Vec<PaymentRequirements>,
    pub error: Option<String>,
}

/// What is posted to the facilitator's verify and settle endpoints.
pub struct VerifyRequest {
    pub x402_version: u32,
    pub payment_payload: serde_json::Value,
    pub payment_requirements: PaymentRequirements,
}

/// The facilitator's answer to a verify call.
pub struct VerifyResponse {
    pub is_valid: bool,
    pub invalid_reason: Option<String>,
    pub payer: Option<String>,
}

/// The facilitator's answer to a settle call.
pub struct SettleResponse {
    pub success: bool,
    pub network: String,
    pub transaction: Option<String>,
    pub error_reason: Option<String>,
    pub payer: Option<String>,
}

#[verifier::external_type_specification]
#[verifier::external_body]
pub struct ExJsonValue(serde_json::Value);

/// What decoding a string from standard base64 yields, if anything: a
/// function of the characters alone.
pub uninterp spec fn b64_decode_of(s: Seq<char>) -> Option<Seq<u8>>;

/// Relies on base64's standard-alphabet engine (`STANDARD.decode`): the
/// result is a function of the input characters alone.
#[verifier::external_body]
fn base64_decode(s: &str) -> (r: Option<Vec<u8>>)
    ensures
        match r {
            Some(v) => b64_decode_of(s@) == Some(v@),
            None => b64_decode_of(s@) is None,
        },
{
    base64::Engine::decode(&base64::engine::general_purpose::STANDARD, s).ok()
}

/// Whether a byte sequence parses as one JSON document: a function of the
/// bytes alone.
pub uninterp spec fn is_json(b: Seq<u8>) -> bool;

/// Relies on `serde_json::from_slice`: parses the bytes as a JSON document;
/// success is a function of the bytes alone.
#[verifier::external_body]
fn parse_json_value(b: &[u8]) -> (r: Option<serde_json::Value>)
    ensures
        r is Some <==> is_json(b@),
{
    serde_json::from_slice(b).ok()
}

/// When a requirement offers exactly the route's price and the configured
/// token, wallet and network.
pub open spec fn requirement_matches(
    r: PaymentRequirements,
    config: Config,
    amount_val: nat,
    resource: Seq<char>,
    description: Seq<char>,
) -> bool {
    &&& r.scheme@ == "permit"@
    &&& r.network@ == config.payment_network@
    &&& canonical_dec_chars(r.max_amount_required@)
    &&& dec_str_val(r.max_amount_required@) == amount_val
    &&& r.resource@ == resource
    &&& r.description@ == description
    &&& r.mime_type@ == "application/json"@
    &&& r.pay_to@ == config.wallet_address@
    &&& r.max_timeout_seconds == 300
    &&& r.asset@ == config.payment_token_address@
    &&& (r.extra matches Some(e) && e.token@ == config.payment_token_symbol@ && e.address@
        == config.payment_token_address@ && e.decimals == config.payment_token_decimals
        && e.name@ == config.payment_token_name@ && e.version@
        == config.payment_token_version@ && e.facilitator_signer@
        == config.facilitator_signer@ && e.minimum_amount == true)
}

/// Build the requirement for a route: its price in raw units, the
/// configured token and wallet, and the token metadata.
pub fn build_payment_requirements(
    config: &Config,
    amount: &DomainU256,
    resource: &str,
    description: &str,
) -> (r: PaymentRequirements)
    requires
        amount.wf(),
    ensures
        requirement_matches(r, *config, amount.value(), resource@, description@),
{
    proof {
        reveal_strlit("permit");
        reveal_strlit("application/json");
    }
    PaymentRequirements {
        scheme: String::from_str("permit"),
        network: config.payment_network.clone(),
        max_amount_required: amount.to_decimal_string(),
        resource: String::from_str(resource),
        description: String::from_str(description),
        mime_type: String::from_str("application/json"),
        pay_to: config.wallet_address.clone(),
        max_timeout_seconds: 300,
        asset: config.payment_token_address.clone(),
        extra: Some(
            RequirementExtra {
                token: config.payment_token_symbol.clone(),
                address: config.payment_token_address.clone(),
                decimals: config.payment_token_decimals,
                name: config.payment_token_name.clone(),
                version: config.payment_token_version.clone(),
                facilitator_signer: config.facilitator_signer.clone(),
                minimum_amount: true,
            },
        ),
    }
}

/// Build the 402 challenge body: version 1, exactly one requirement, no
/// error text.
pub fn payment_required_response(
    config: &Config,
    amount: &DomainU256,
    resource: &str,
    description: &str,
) -> (r: PaymentRequiredResponse)
    requires
        amount.wf(),
    ensures
        r.x402_version == 1,
        r.accepts@.len() == 1,
        requirement_matches(r.accepts@[0], *config, amount.value(), resource@, description@),
        r.error is None,
{
    let req = build_payment_requirements(config, amount, resource, description);
    let mut accepts: Vec<PaymentRequirements> = Vec::new();
    accepts.push(req);
    PaymentRequiredResponse { x402_version: 1, accepts, error: None }
}

/// The first step of the payment check, decided from the request's credential
/// alone.
pub enum GateStep {
    /// No credential was presented: answer 402 with this challenge.
    Challenge(PaymentRequiredResponse),
    /// The credential is not base64-encoded JSON: answer 400 with this
    /// message.
    BadRequest(String),
    /// The credential decoded; verify it with the facilitator, then settle.
    Proceed(VerifyRequest),
}

/// Begin the payment check for one request: without a credential, challenge;
/// with a malformed credential, reject; otherwise hand back the request to
/// put to the facilitator's verify and settle endpoints.
pub fn gate_begin(
    config: &Config,
    amount: &DomainU256,
    resource: &str,
    description: &str,
    payment_header: Option<&str>,
) -> (r: GateStep)
    requires
        amount.wf(),
    ensures
        (payment_header is None) <==> (r is Challenge),
        r matches GateStep::Challenge(c) ==> c.x402_version == 1 && c.accepts@.len() == 1
            && requirement_matches(
            c.accepts@[0],
            *config,
            amount.value(),
            resource@,
            description@,
        ) && c.error is None,
        (r is BadRequest) <==> (payment_header matches Some(h) && !(b64_decode_of(h@) matches
        Some(b) && is_json(b))),
        (payment_header matches Some(h) && b64_decode_of(h@) is None) ==> (r matches
        GateStep::BadRequest(m) && m@ == "invalid payment encoding"@),
        (payment_header matches Some(h) && b64_decode_of(h@) matches Some(b) && !is_json(b))
            ==> (r matches GateStep::BadRequest(m) && m@ == "invalid payment JSON"@),
        (r is Proceed) <==> (payment_header matches Some(h) && b64_decode_of(h@) matches Some(
            b,
        ) && is_json(b)),
        r matches GateStep::Proceed(vr) ==> vr.x402_version == 1 && requirement_matches(
            vr.payment_requirements,
            *config,
            amount.value(),
            resource@,
            description@,
        ),
{
    proof {
        reveal_strlit("invalid payment encoding");
        reveal_strlit("invalid payment JSON");
    }
    match payment_header {
        None => GateStep::Challenge(
            payment_required_response(config, amount, resource, description),
        ),
        Some(payment) => {
            let decoded = match base64_decode(payment) {
                Some(b) => b,
                None => {
                    return GateStep::BadRequest(String::from_str("invalid payment encoding"));
                },
            };
            let payload = match parse_json_value(decoded.as_slice()) {
                Some(v) => v,
                None => {
                    return GateStep::BadRequest(String::from_str("invalid payment JSON"));
                },
            };
            let requirements = build_payment_requirements(config, amount, resource, description);
            GateStep::Proceed(
                VerifyRequest {
                    x402_version: 1,
                    payment_payload: payload,
                    payment_requirements: requirements,
                },
            )
        },
    }
}

/// What to do after the facilitator answered (or failed to answer) the
/// verify call.
pub enum VerifyDecision {
    /// The facilitator was unreachable or answered abnormally: answer 502
    /// with this message.
    Upstream(String),
    /// The facilitator judged the payment invalid: answer 402 with its
    /// reason.
    Rejected(String),
    /// The payment verified: settle it next.
    Settle,
}

/// The reason text of a facilitator answer, or empty when it gave none.
pub open spec fn reason_of(r: Option<String>) -> Seq<char> {
    match r {
        Some(s) => s@,
        None => Seq::<char>::empty(),
    }
}

/// Decide from the verify call's outcome: a transport or upstream failure
/// is surfaced as such, an invalid payment is rejected with the
/// facilitator's reason, and only a valid payment goes on to settlement.
pub fn gate_after_verify(outcome: Result<VerifyResponse, String>) -> (r: VerifyDecision)
    ensures
        (r is Upstream) <==> (outcome is Err),
        outcome matches Err(e) ==> (r matches VerifyDecision::Upstream(m) && m@ == e@),
        (r is Rejected) <==> (outcome matches Ok(v) && !v.is_valid),
        outcome matches Ok(v) ==> (!v.is_valid ==> (r matches VerifyDecision::Rejected(m) && m@
            == reason_of(v.invalid_reason))),
        (r is Settle) <==> (outcome matches Ok(v) && v.is_valid),
{
    match outcome {
        Err(e) => VerifyDecision::Upstream(e),
        Ok(v) => {
            if v.is_valid {
                VerifyDecision::Settle
            } else {
                match v.invalid_reason {
                    Some(reason) => VerifyDecision::Rejected(reason),
                    None => VerifyDecision::Rejected(String::new()),
                }
            }
        },
    }
}

/// The terminal outcome of the payment check, decided from the settle call.
pub enum SettleDecision {
    /// The facilitator was unreachable or answered abnormally: answer 502
    /// with this message.
    Upstream(String),
    /// Settlement failed: answer 402 with the facilitator's reason.
    Rejected(String),
    /// The payment is settled; the request proceeds.
    Settled { transaction: Option<String>, payer: Option<String> },
}

/// Decide from the settle call's outcome: a transport or upstream failure
/// is surfaced as such, a failed settlement is rejected with the
/// facilitator's reason, and a settled payment carries its transaction id
/// and payer onward.
pub fn gate_after_settle(outcome: Result<SettleResponse, String>) -> (r: SettleDecision)
    ensures
        (r is Upstream) <==> (outcome is Err),
        outcome matches Err(e) ==> (r matches SettleDecision::Upstream(m) && m@ == e@),
        (r is Rejected) <==> (outcome matches Ok(s) && !s.success),
        outcome matches Ok(s) ==> (!s.success ==> (r matches SettleDecision::Rejected(m) && m@
            == reason_of(s.error_reason))),
        (r is Settled) <==> (outcome matches Ok(s) && s.success),
        outcome matches Ok(s) ==> (s.success ==> (r matches SettleDecision::Settled {
            transaction,
            payer,
        } && transaction == s.transaction && payer == s.payer)),
{
    match outcome {
        Err(e) => SettleDecision::Upstream(e),
        Ok(s) => {
            if s.success {
                SettleDecision::Settled { transaction: s.transaction, payer: s.payer }
            } else {
                match s.error_reason {
                    Some(reason) => SettleDecision::Rejected(reason),
                    None => SettleDecision::Rejected(String::new()),
                }
            }
        },
    }
}

} // verus!
