use x402_router::json_tree::{extract_url, ExtractError, JsonTree};

fn provider_response() -> JsonTree {
    JsonTree::Obj(vec![
        (
            "images".to_string(),
            JsonTree::Arr(vec![JsonTree::Obj(vec![
                ("url".to_string(), JsonTree::Str("https://cdn.example/one.png".to_string())),
                ("width".to_string(), JsonTree::Num("512".to_string())),
            ])]),
        ),
        ("seed".to_string(), JsonTree::Num("7".to_string())),
    ])
}

#[test]
fn numeric_segments_index_sequences() {
    let r = extract_url(&provider_response(), "images.0.url").unwrap();
    assert_eq!(r, "https://cdn.example/one.png");
}

#[test]
fn plus_prefixed_numeric_segment_still_indexes() {
    let r = extract_url(&provider_response(), "images.+0.url").unwrap();
    assert_eq!(r, "https://cdn.example/one.png");
}

#[test]
fn missing_key_is_not_found() {
    assert_eq!(
        extract_url(&provider_response(), "video.url").unwrap_err(),
        ExtractError::NotFound
    );
}

#[test]
fn out_of_range_index_is_not_found() {
    assert_eq!(
        extract_url(&provider_response(), "images.1.url").unwrap_err(),
        ExtractError::NotFound
    );
}

#[test]
fn numeric_segment_on_a_mapping_is_not_found() {
    assert_eq!(
        extract_url(&provider_response(), "0.url").unwrap_err(),
        ExtractError::NotFound
    );
}

#[test]
fn non_string_leaf_is_rejected() {
    assert_eq!(
        extract_url(&provider_response(), "images.0.width").unwrap_err(),
        ExtractError::NotAString
    );
}

#[test]
fn stepping_into_a_scalar_is_not_found() {
    assert_eq!(
        extract_url(&provider_response(), "seed.url").unwrap_err(),
        ExtractError::NotFound
    );
}

#[test]
fn single_segment_path() {
    let t = JsonTree::Obj(vec![(
        "url".to_string(),
        JsonTree::Str("https://cdn.example/two.gif".to_string()),
    )]);
    assert_eq!(extract_url(&t, "url").unwrap(), "https://cdn.example/two.gif");
}

#[test]
fn huge_numeric_segment_is_treated_as_a_key() {
    // A value past usize is no index; on a mapping it is looked up as text.
    let t = JsonTree::Obj(vec![(
        "99999999999999999999999999".to_string(),
        JsonTree::Str("found".to_string()),
    )]);
    assert_eq!(extract_url(&t, "99999999999999999999999999").unwrap(), "found");
}
