use magellan::embed::{base_url_of, counts_of_hashes, symbol_embed_text, symbol_fact_embed_text, HashEmbedder, OllamaEmbedder, OpenAICompatEmbedder};

#[test]
fn test_hash_embedder_dimension() {
    let embedder = HashEmbedder::new(128);
    assert_eq!(embedder.dimension(), 128);
}

#[test]
fn hash_embedder_counts_each_token_once_per_occurrence() {
    let embedder = HashEmbedder::new(16);
    let counts = embedder.slot_counts("fn parse_rust fn");
    assert_eq!(counts.len(), 16);
    assert_eq!(counts.iter().sum::<u64>(), 4);
    let again = embedder.slot_counts("fn parse_rust fn");
    assert_eq!(counts, again);
}

#[test]
fn base_url_drops_trailing_slashes() {
    assert_eq!(base_url_of("http://localhost:11434///"), "http://localhost:11434");
    assert_eq!(base_url_of("http://x"), "http://x");
    let o = OllamaEmbedder::new("http://h/", "m");
    assert_eq!(o.base_url, "http://h");
    assert_eq!(o.model, "m");
    let a = OpenAICompatEmbedder::new("http://h//", "m", "k");
    assert_eq!((a.base_url.as_str(), a.model.as_str(), a.api_key.as_str()), ("http://h", "m", "k"));
}

#[test]
fn symbol_fact_text_joins_name_file_and_kind() {
    assert_eq!(symbol_fact_embed_text(&Some("parse".to_string()), "src/a.rs", "fn"), "Symbol parse src/a.rs fn");
    assert_eq!(symbol_fact_embed_text(&None, "src/a.rs", "fn"), "Symbol src/a.rs fn");
}

#[test]
fn test_symbol_embed_text() {
    // fqn, canonical_fqn, display_fqn, file_path, kind_normalized, language
    let fields = vec![
        Some("magellan::parse_rust".to_string()),
        None,
        None,
        None,
        Some("function".to_string()),
        Some("rust".to_string()),
    ];
    let text = symbol_embed_text("Symbol", "parse_rust", &fields);
    assert!(text.contains("Symbol"));
    assert!(text.contains("parse_rust"));
    assert!(text.contains("magellan::parse_rust"));
    assert!(text.contains("function"));
    assert!(text.contains("rust"));
    assert_eq!(text, "Symbol parse_rust magellan::parse_rust function rust");
}

#[test]
fn token_hashes_land_in_their_slots() {
    // positions 0, 1, 2 with hashes 3, 5, 3 over 4 slots: 3, (1 + 1) = 2, (2 + 3) % 4 = 1
    assert_eq!(counts_of_hashes(&vec![3, 5, 3], 4), vec![0, 1, 1, 1]);
    assert_eq!(counts_of_hashes(&vec![7, 7], 2), vec![1, 1]);
    assert_eq!(counts_of_hashes(&vec![], 3), vec![0, 0, 0]);
}

#[test]
fn slot_counts_agree_with_the_token_hashes() {
    let embedder = HashEmbedder::new(16);
    let text = "Parse the_FILE parse";
    let hashes: Vec<u64> = ["parse", "the", "file", "parse"]
        .iter()
        .map(|t| xxhash_rust::xxh3::xxh3_64(t.as_bytes()))
        .collect();
    assert_eq!(embedder.slot_counts(text), counts_of_hashes(&hashes, 16));
}
