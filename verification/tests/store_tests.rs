use x402_router::config::Config;
use x402_router::store::{cdn_url, CacheStore, ObjectStore};

fn test_config() -> Config {
    Config {
        test_mode: false,
        port: 3402,
        facilitator_url: "https://facilitator.example".to_string(),
        facilitator_signer: "0xSIGNER".to_string(),
        wallet_address: "0xWALLET".to_string(),
        payment_network: "base".to_string(),
        payment_token_address: "0xTOKEN".to_string(),
        payment_token_symbol: "TOK".to_string(),
        payment_token_decimals: 2,
        payment_token_name: "Token".to_string(),
        payment_token_version: "1".to_string(),
        fal_key: "test-provider-key".to_string(),
        public_url: "http://localhost:3402".to_string(),
        endpoints_config_path: "endpoints.ron".to_string(),
        s3_endpoint: "https://nyc3.example".to_string(),
        s3_bucket: "bucket".to_string(),
        s3_region: "nyc3".to_string(),
        s3_access_key: "test-access-key".to_string(),
        s3_secret_key: "test-secret-key".to_string(),
        s3_cdn_url: "https://cdn.example//".to_string(),
        database_url: "postgres://localhost/db".to_string(),
    }
}

fn insert(
    cache: &mut CacheStore,
    path: &str,
    hash: &str,
    url: &str,
    created_at: i64,
    expires_at: i64,
) -> u128 {
    cache.insert_media(
        path,
        "a prompt",
        hash,
        "key",
        url,
        "image",
        42,
        None,
        None,
        created_at,
        expires_at,
    )
}

#[test]
fn lookup_finds_a_live_record() {
    let mut cache = CacheStore::new();
    insert(&mut cache, "/fox", "h1", "u1", 100, 1000);
    let rec = cache.find_by_prompt_hash("h1", "/fox", 500).unwrap();
    assert_eq!(rec.s3_url, "u1");
    assert!(cache.find_by_prompt_hash("h2", "/fox", 500).is_none());
    assert!(cache.find_by_prompt_hash("h1", "/owl", 500).is_none());
}

#[test]
fn lookup_never_returns_an_expired_record() {
    let mut cache = CacheStore::new();
    insert(&mut cache, "/fox", "h1", "u1", 100, 400);
    assert!(cache.find_by_prompt_hash("h1", "/fox", 400).is_none());
    assert!(cache.find_by_prompt_hash("h1", "/fox", 399).is_some());
}

#[test]
fn lookup_returns_the_most_recent_record() {
    let mut cache = CacheStore::new();
    insert(&mut cache, "/fox", "h1", "older", 100, 1000);
    insert(&mut cache, "/fox", "h1", "newer", 200, 1000);
    insert(&mut cache, "/fox", "h1", "middle", 150, 1000);
    let rec = cache.find_by_prompt_hash("h1", "/fox", 500).unwrap();
    assert_eq!(rec.s3_url, "newer");
}

#[test]
fn inserts_get_distinct_ids() {
    let mut cache = CacheStore::new();
    let a = insert(&mut cache, "/fox", "h1", "u1", 100, 1000);
    let b = insert(&mut cache, "/fox", "h2", "u2", 100, 1000);
    assert_ne!(a, b);
    assert_eq!(cache.record_count(), 2);
}

#[test]
fn find_expired_returns_exactly_the_expired_rows() {
    let mut cache = CacheStore::new();
    insert(&mut cache, "/fox", "h1", "u1", 100, 400);
    insert(&mut cache, "/fox", "h2", "u2", 100, 900);
    let expired = cache.find_expired(500);
    assert_eq!(expired.len(), 1);
    assert_eq!(expired[0].prompt_hash, "h1");
    assert!(cache.find_expired(100).is_empty());
}

#[test]
fn delete_by_id_is_idempotent() {
    let mut cache = CacheStore::new();
    let id = insert(&mut cache, "/fox", "h1", "u1", 100, 1000);
    cache.delete_by_id(id);
    assert_eq!(cache.record_count(), 0);
    cache.delete_by_id(id);
    assert_eq!(cache.record_count(), 0);
}

#[test]
fn object_store_put_get_delete() {
    let mut store = ObjectStore::new();
    assert!(store.get("fox/a.png").is_none());
    store.upload_file("fox/a.png", vec![1, 2, 3], "image/png");
    let o = store.get("fox/a.png").unwrap();
    assert_eq!(o.bytes, vec![1, 2, 3]);
    assert_eq!(o.content_type, "image/png");
    assert!(o.world_readable);
    store.delete_file("fox/a.png");
    assert!(store.get("fox/a.png").is_none());
}

#[test]
fn upload_replaces_and_leaves_other_keys_alone() {
    let mut store = ObjectStore::new();
    store.upload_file("a", vec![1], "image/png");
    store.upload_file("b", vec![2], "image/gif");
    store.upload_file("a", vec![9, 9], "image/png");
    assert_eq!(store.get("a").unwrap().bytes, vec![9, 9]);
    assert_eq!(store.get("b").unwrap().bytes, vec![2]);
    store.delete_file("a");
    assert!(store.get("a").is_none());
    assert_eq!(store.get("b").unwrap().bytes, vec![2]);
}

#[test]
fn cdn_url_strips_trailing_slashes_once() {
    let config = test_config();
    assert_eq!(cdn_url(&config, "fox/a.png"), "https://cdn.example/fox/a.png");
}
