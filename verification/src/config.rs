//! Process configuration: one immutable value constructed at startup and
//! handed by reference into every component.

use vstd::prelude::*;

verus! {

/// Everything the service needs to know at startup.
pub struct Config {
    pub test_mode: bool,
    pub port: u16,
    pub facilitator_url: String,
    pub facilitator_signer: String,
    pub wallet_address: String,
    pub payment_network: String,
    pub payment_token_address: String,
    pub payment_token_symbol: String,
    pub payment_token_decimals: u8,
    pub payment_token_name: String,
    pub payment_token_version: String,
    pub fal_key: String,
    pub public_url: String,
    pub endpoints_config_path: String,
    pub s3_endpoint: String,
    pub s3_bucket: String,
    pub s3_region: String,
    pub s3_access_key: String,
    pub s3_secret_key: String,
    pub s3_cdn_url: String,
    pub database_url: String,
}

} // verus!
