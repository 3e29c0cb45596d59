use x402_router::routes::{
    default_quality, group_by_route, quality_infos, sort_by_quality, validate, ConfigError,
    EndpointDef, PostProcess,
};

fn def(route: &str, quality: &str, cost: &str) -> EndpointDef {
    EndpointDef {
        route: route.to_string(),
        quality: quality.to_string(),
        path: route.to_string(),
        fal_model: format!("model-{}-{}", route.trim_start_matches('/'), quality),
        cost: cost.to_string(),
        description: format!("{} at {}", route, quality),
        response_url_path: "images.0.url".to_string(),
        request_params: Vec::new(),
        default_prompt: "a fun colorful surreal meme illustration".to_string(),
        media_type: "image".to_string(),
        output_extension: "png".to_string(),
        post_process: PostProcess::Keep,
    }
}

#[test]
fn default_quality_is_low() {
    assert_eq!(default_quality(), "low");
}

#[test]
fn validate_accepts_a_well_formed_table() {
    let defs = vec![def("/fox", "low", "10"), def("/fox", "high", "25"), def("/owl", "low", "1.5")];
    assert!(validate(&defs, 2).is_ok());
}

#[test]
fn validate_rejects_bad_cost() {
    let defs = vec![def("/fox", "low", "ten")];
    assert_eq!(validate(&defs, 2).unwrap_err(), ConfigError::BadCost);
}

#[test]
fn validate_rejects_missing_default_quality() {
    let defs = vec![def("/fox", "low", "10"), def("/owl", "high", "25")];
    assert_eq!(validate(&defs, 2).unwrap_err(), ConfigError::MissingDefault);
}

#[test]
fn validate_rejects_duplicate_route_and_quality() {
    let defs = vec![def("/fox", "low", "10"), def("/fox", "low", "25")];
    assert_eq!(validate(&defs, 2).unwrap_err(), ConfigError::DuplicatePair);
}

#[test]
fn find_variant_returns_the_matching_definition() {
    let defs = vec![def("/fox", "low", "10"), def("/fox", "high", "25"), def("/owl", "low", "3")];
    let table = group_by_route(defs);
    let d = table.find_variant("/fox", "high").unwrap();
    assert_eq!(d.cost, "25");
    assert!(table.find_variant("/fox", "medium").is_none());
    assert!(table.find_variant("/cat", "low").is_none());
}

#[test]
fn find_variant_last_definition_wins_on_duplicates() {
    let defs = vec![def("/fox", "low", "10"), def("/fox", "low", "99")];
    let table = group_by_route(defs);
    let d = table.find_variant("/fox", "low").unwrap();
    assert_eq!(d.cost, "99");
}

#[test]
fn qualities_of_lists_each_quality_once() {
    let defs = vec![
        def("/fox", "low", "10"),
        def("/fox", "high", "25"),
        def("/owl", "low", "3"),
        def("/fox", "high", "30"),
    ];
    let table = group_by_route(defs);
    let qs = table.qualities_of("/fox");
    assert_eq!(qs, vec!["low".to_string(), "high".to_string()]);
    assert_eq!(table.qualities_of("/cat"), Vec::<String>::new());
}

#[test]
fn quality_infos_carries_raw_costs() {
    let defs = vec![def("/fox", "low", "10"), def("/fox", "high", "2.5"), def("/owl", "low", "3")];
    let table = group_by_route(defs);
    let infos = quality_infos(&table, "/fox", 2).unwrap();
    assert_eq!(infos.len(), 2);
    assert_eq!(infos[0].quality, "low");
    assert_eq!(infos[0].cost, "10");
    assert_eq!(infos[0].cost_raw, "1000");
    assert_eq!(infos[1].quality, "high");
    assert_eq!(infos[1].cost_raw, "250");
}

#[test]
fn route_names_lists_each_route_once() {
    let defs = vec![
        def("/fox", "low", "10"),
        def("/owl", "low", "3"),
        def("/fox", "high", "25"),
    ];
    let table = group_by_route(defs);
    assert_eq!(table.route_names(), vec!["/fox".to_string(), "/owl".to_string()]);
}

#[test]
fn quality_entries_sort_by_tier_name() {
    let defs = vec![
        def("/fox", "medium", "15"),
        def("/fox", "low", "10"),
        def("/fox", "high", "25"),
    ];
    let table = group_by_route(defs);
    let infos = sort_by_quality(quality_infos(&table, "/fox", 2).unwrap());
    let names: Vec<&str> = infos.iter().map(|q| q.quality.as_str()).collect();
    assert_eq!(names, vec!["high", "low", "medium"]);
    assert_eq!(infos[1].cost_raw, "1000");
}

#[test]
fn quality_infos_fails_on_a_bad_cost() {
    let defs = vec![def("/fox", "low", "nope")];
    let table = group_by_route(defs);
    assert!(quality_infos(&table, "/fox", 2).is_err());
}
