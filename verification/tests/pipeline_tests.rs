use sha2::Digest;
use x402_router::config::Config;
use x402_router::json_tree::JsonTree;
use x402_router::pipeline::{
    build_request_body, content_type_for, effective_prompt, gif_url, image_url, json_quote,
    object_key, replay_after_generate, run_pipeline, scratch_path, transcode_args, PipelineError,
};
use x402_router::routes::{EndpointDef, PostProcess};
use x402_router::store::{CacheStore, ObjectStore};

fn test_config() -> Config {
    Config {
        test_mode: false,
        port: 3402,
        facilitator_url: "https://facilitator.example".to_string(),
        facilitator_signer: "0xSIGNER".to_string(),
        wallet_address: "0xWALLET".to_string(),
        payment_network: "base".to_string(),
        payment_token_address: "0xTOKEN".to_string(),
        payment_token_symbol: "TOK".to_string(),
        payment_token_decimals: 2,
        payment_token_name: "Token".to_string(),
        payment_token_version: "1".to_string(),
        fal_key: "test-provider-key".to_string(),
        public_url: "http://localhost:3402/".to_string(),
        endpoints_config_path: "endpoints.ron".to_string(),
        s3_endpoint: "https://nyc3.example".to_string(),
        s3_bucket: "bucket".to_string(),
        s3_region: "nyc3".to_string(),
        s3_access_key: "test-access-key".to_string(),
        s3_secret_key: "test-secret-key".to_string(),
        s3_cdn_url: "https://cdn.example".to_string(),
        database_url: "postgres://localhost/db".to_string(),
    }
}

fn fox_endpoint() -> EndpointDef {
    EndpointDef {
        route: "/fox".to_string(),
        quality: "low".to_string(),
        path: "/fox".to_string(),
        fal_model: "fal-ai/flux/schnell".to_string(),
        cost: "10".to_string(),
        description: "a fox picture".to_string(),
        response_url_path: "images.0.url".to_string(),
        request_params: vec![("num_images".to_string(), "1".to_string())],
        default_prompt: "a fun colorful surreal meme illustration".to_string(),
        media_type: "image".to_string(),
        output_extension: "png".to_string(),
        post_process: PostProcess::Keep,
    }
}

fn gif_endpoint() -> EndpointDef {
    EndpointDef {
        route: "/gif".to_string(),
        quality: "low".to_string(),
        path: "/gif".to_string(),
        fal_model: "fal-ai/fast-animatediff".to_string(),
        cost: "20".to_string(),
        description: "an animation".to_string(),
        response_url_path: "video.url".to_string(),
        request_params: Vec::new(),
        default_prompt: "a fun random weird surreal animated meme".to_string(),
        media_type: "gif".to_string(),
        output_extension: "gif".to_string(),
        post_process: PostProcess::FfmpegToGif {
            input_extension: "mp4".to_string(),
            ffmpeg_args: vec!["-vf".to_string(), "fps=10".to_string()],
        },
    }
}

fn provider_ok(url: &str) -> Result<JsonTree, String> {
    Ok(JsonTree::Obj(vec![(
        "images".to_string(),
        JsonTree::Arr(vec![JsonTree::Obj(vec![(
            "url".to_string(),
            JsonTree::Str(url.to_string()),
        )])]),
    )]))
}

fn sha256_hex(s: &str) -> String {
    let mut hasher = sha2::Sha256::new();
    hasher.update(s.as_bytes());
    hex::encode(hasher.finalize())
}

#[test]
fn end_to_end_miss_then_hit() {
    let config = test_config();
    let endpoint = fox_endpoint();
    let mut cache = CacheStore::new();
    let mut store = ObjectStore::new();

    let first = run_pipeline(
        &config,
        &endpoint,
        Some("a red fox"),
        "low",
        Some("0xtx".to_string()),
        Some("0xpayer".to_string()),
        &mut cache,
        &mut store,
        1000,
        2000,
        provider_ok("https://provider.example/result.png"),
        Ok(vec![7, 7, 7]),
        Err("transcode not used".to_string()),
        true,
        true,
    )
    .unwrap();

    let key = format!("fox/{}.png", sha256_hex("a red fox"));
    assert!(!first.cached);
    assert_eq!(first.prompt, "a red fox");
    assert_eq!(first.media_type, "image");
    assert_eq!(first.quality, "low");
    assert_eq!(first.url, format!("https://cdn.example/{}", key));

    let stored = store.get(&key).unwrap();
    assert_eq!(stored.bytes, vec![7, 7, 7]);
    assert_eq!(stored.content_type, "image/png");
    assert!(stored.world_readable);

    let rec = cache.find_by_prompt_hash(&sha256_hex("a red fox"), "/fox", 1500).unwrap();
    assert_eq!(rec.payment_tx.as_deref(), Some("0xtx"));
    assert_eq!(rec.payer_address.as_deref(), Some("0xpayer"));
    assert_eq!(rec.s3_url, first.url);
    assert_eq!(rec.expires_at, 2000);

    // A second identical request hits the cache: no provider or store work
    // is needed, which is why its outcomes may be failures here.
    let second = run_pipeline(
        &config,
        &endpoint,
        Some("  A RED FOX "),
        "low",
        None,
        None,
        &mut cache,
        &mut store,
        1500,
        2500,
        Err("provider must not be called".to_string()),
        Err("download must not happen".to_string()),
        Err("transcode must not happen".to_string()),
        false,
        false,
    )
    .unwrap();
    assert!(second.cached);
    assert_eq!(second.url, first.url);
    assert_eq!(cache.record_count(), 1);
}

#[test]
fn replay_is_cached_with_the_same_url() {
    let config = test_config();
    let endpoint = fox_endpoint();
    let mut cache = CacheStore::new();
    let mut store = ObjectStore::new();
    let (first, second) = replay_after_generate(
        &config,
        &endpoint,
        Some("a red fox"),
        "low",
        Some("0xtx".to_string()),
        None,
        &mut cache,
        &mut store,
        1000,
        2000,
        1500,
        provider_ok("https://provider.example/result.png"),
        Ok(vec![7, 7, 7]),
        Err("transcode not used".to_string()),
    );
    let a = first.unwrap();
    let b = second.unwrap();
    assert!(!a.cached);
    assert!(b.cached);
    assert_eq!(b.url, a.url);
}

#[test]
fn provider_failure_leaves_no_trace() {
    let config = test_config();
    let endpoint = fox_endpoint();
    let mut cache = CacheStore::new();
    let mut store = ObjectStore::new();
    let r = run_pipeline(
        &config,
        &endpoint,
        Some("a red fox"),
        "low",
        None,
        None,
        &mut cache,
        &mut store,
        1000,
        2000,
        Err("boom".to_string()),
        Ok(vec![1]),
        Ok(vec![2]),
        true,
        true,
    );
    match r {
        Err(PipelineError::Provider(m)) => assert_eq!(m, "boom"),
        _ => panic!("expected a provider error"),
    }
    assert_eq!(cache.record_count(), 0);
    let key = format!("fox/{}.png", sha256_hex("a red fox"));
    assert!(store.get(&key).is_none());
}

#[test]
fn missing_result_url_is_a_provider_error() {
    let config = test_config();
    let endpoint = fox_endpoint();
    let mut cache = CacheStore::new();
    let mut store = ObjectStore::new();
    let r = run_pipeline(
        &config,
        &endpoint,
        Some("a red fox"),
        "low",
        None,
        None,
        &mut cache,
        &mut store,
        1000,
        2000,
        Ok(JsonTree::Obj(vec![("status".to_string(), JsonTree::Str("done".to_string()))])),
        Ok(vec![1]),
        Ok(vec![2]),
        true,
        true,
    );
    assert!(matches!(r, Err(PipelineError::Provider(_))));
    assert_eq!(cache.record_count(), 0);
}

#[test]
fn download_failure_is_reported() {
    let config = test_config();
    let endpoint = fox_endpoint();
    let mut cache = CacheStore::new();
    let mut store = ObjectStore::new();
    let r = run_pipeline(
        &config,
        &endpoint,
        Some("a red fox"),
        "low",
        None,
        None,
        &mut cache,
        &mut store,
        1000,
        2000,
        provider_ok("https://provider.example/result.png"),
        Err("connection reset".to_string()),
        Ok(vec![2]),
        true,
        true,
    );
    match r {
        Err(PipelineError::Download(m)) => assert_eq!(m, "connection reset"),
        _ => panic!("expected a download error"),
    }
    assert_eq!(cache.record_count(), 0);
}

#[test]
fn transcode_failure_leaves_no_object_and_no_record() {
    let config = test_config();
    let endpoint = gif_endpoint();
    let mut cache = CacheStore::new();
    let mut store = ObjectStore::new();
    let r = run_pipeline(
        &config,
        &endpoint,
        Some("a dancing toad"),
        "low",
        None,
        None,
        &mut cache,
        &mut store,
        1000,
        2000,
        Ok(JsonTree::Obj(vec![(
            "video".to_string(),
            JsonTree::Obj(vec![(
                "url".to_string(),
                JsonTree::Str("https://provider.example/result.mp4".to_string()),
            )]),
        )])),
        Ok(vec![1, 2, 3]),
        Err("ffmpeg exited with status 1".to_string()),
        true,
        true,
    );
    match r {
        Err(PipelineError::Transcode(m)) => assert_eq!(m, "ffmpeg exited with status 1"),
        _ => panic!("expected a transcode error"),
    }
    assert_eq!(cache.record_count(), 0);
    let key = format!("gif/{}.gif", sha256_hex("a dancing toad"));
    assert!(store.get(&key).is_none());
}

#[test]
fn transcoded_bytes_are_what_gets_stored() {
    let config = test_config();
    let endpoint = gif_endpoint();
    let mut cache = CacheStore::new();
    let mut store = ObjectStore::new();
    let r = run_pipeline(
        &config,
        &endpoint,
        None,
        "low",
        None,
        None,
        &mut cache,
        &mut store,
        1000,
        2000,
        Ok(JsonTree::Obj(vec![(
            "video".to_string(),
            JsonTree::Obj(vec![(
                "url".to_string(),
                JsonTree::Str("https://provider.example/result.mp4".to_string()),
            )]),
        )])),
        Ok(vec![1, 2, 3]),
        Ok(vec![9, 8]),
        true,
        true,
    )
    .unwrap();
    assert_eq!(r.prompt, "a fun random weird surreal animated meme");
    let key = format!("gif/{}.gif", sha256_hex("a fun random weird surreal animated meme"));
    let stored = store.get(&key).unwrap();
    assert_eq!(stored.bytes, vec![9, 8]);
    assert_eq!(stored.content_type, "image/gif");
}

#[test]
fn refused_record_insert_still_returns_the_artifact() {
    let config = test_config();
    let endpoint = fox_endpoint();
    let mut cache = CacheStore::new();
    let mut store = ObjectStore::new();
    let r = run_pipeline(
        &config,
        &endpoint,
        Some("a red fox"),
        "low",
        None,
        None,
        &mut cache,
        &mut store,
        1000,
        2000,
        provider_ok("https://provider.example/result.png"),
        Ok(vec![7]),
        Ok(vec![0]),
        true,
        false,
    )
    .unwrap();
    assert!(!r.cached);
    assert_eq!(cache.record_count(), 0);
    let key = format!("fox/{}.png", sha256_hex("a red fox"));
    assert!(store.get(&key).is_some());
}

#[test]
fn refused_upload_aborts_before_the_cache_write() {
    let config = test_config();
    let endpoint = fox_endpoint();
    let mut cache = CacheStore::new();
    let mut store = ObjectStore::new();
    let r = run_pipeline(
        &config,
        &endpoint,
        Some("a red fox"),
        "low",
        None,
        None,
        &mut cache,
        &mut store,
        1000,
        2000,
        provider_ok("https://provider.example/result.png"),
        Ok(vec![7]),
        Ok(vec![0]),
        false,
        true,
    );
    assert!(matches!(r, Err(PipelineError::Storage(_))));
    assert_eq!(cache.record_count(), 0);
    let key = format!("fox/{}.png", sha256_hex("a red fox"));
    assert!(store.get(&key).is_none());
}

#[test]
fn effective_prompt_falls_back_to_the_default() {
    assert_eq!(effective_prompt(Some("x"), "d"), "x");
    assert_eq!(effective_prompt(None, "d"), "d");
}

#[test]
fn object_key_strips_leading_slashes() {
    assert_eq!(object_key("/fox", "abc", "png"), "fox/abc.png");
    assert_eq!(object_key("//fox", "abc", "png"), "fox/abc.png");
    assert_eq!(object_key("fox", "abc", "png"), "fox/abc.png");
}

#[test]
fn scratch_path_is_under_the_scratch_directory() {
    assert_eq!(scratch_path("abc", "mp4"), "tmp/abc.mp4");
}

#[test]
fn content_types_follow_the_fixed_table() {
    assert_eq!(content_type_for("png"), "image/png");
    assert_eq!(content_type_for("jpg"), "image/jpeg");
    assert_eq!(content_type_for("jpeg"), "image/jpeg");
    assert_eq!(content_type_for("gif"), "image/gif");
    assert_eq!(content_type_for("mp4"), "video/mp4");
    assert_eq!(content_type_for("webp"), "image/webp");
    assert_eq!(content_type_for("tar"), "application/octet-stream");
}

#[test]
fn transcode_args_wrap_the_route_arguments() {
    let args = vec!["-vf".to_string(), "fps=10".to_string()];
    let r = transcode_args("tmp/in.mp4", &args, "tmp/out.gif");
    assert_eq!(r, vec!["-i", "tmp/in.mp4", "-vf", "fps=10", "-y", "tmp/out.gif"]);
}

#[test]
fn legacy_urls_strip_trailing_slashes() {
    let config = test_config();
    assert_eq!(image_url(&config, "a.png"), "http://localhost:3402/images/a.png");
    assert_eq!(gif_url(&config, "a.gif"), "http://localhost:3402/gifs/a.gif");
}

#[test]
fn json_quote_escapes_specials() {
    assert_eq!(json_quote("plain"), "\"plain\"");
    assert_eq!(json_quote("a\"b"), "\"a\\\"b\"");
    assert_eq!(json_quote("a\\b"), "\"a\\\\b\"");
    assert_eq!(json_quote("a\nb"), "\"a\\nb\"");
    assert_eq!(json_quote("a\u{1}b"), "\"a\\u0001b\"");
}

#[test]
fn request_body_merges_template_and_prompt() {
    let params = vec![
        ("num_images".to_string(), "1".to_string()),
        ("prompt".to_string(), "\"overridden\"".to_string()),
        ("size".to_string(), "\"square\"".to_string()),
    ];
    let body = build_request_body(&params, "a red fox");
    assert_eq!(body, "{\"num_images\":1,\"size\":\"square\",\"prompt\":\"a red fox\"}");
    let parsed: serde_json::Value = serde_json::from_str(&body).unwrap();
    assert_eq!(parsed["prompt"], serde_json::Value::String("a red fox".to_string()));
}
