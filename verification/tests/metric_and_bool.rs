use vectaraft::types::{parse_bool, Metric};

#[test]
fn metric_parsing_is_case_insensitive_with_l2_fallback() {
    assert_eq!(Metric::from_str("cosine"), Metric::Cosine);
    assert_eq!(Metric::from_str("Cosine"), Metric::Cosine);
    assert_eq!(Metric::from_str("COSINE"), Metric::Cosine);
    assert_eq!(Metric::from_str("ip"), Metric::IP);
    assert_eq!(Metric::from_str("IP"), Metric::IP);
    assert_eq!(Metric::from_str("inner_product"), Metric::IP);
    assert_eq!(Metric::from_str("Inner_Product"), Metric::IP);
    assert_eq!(Metric::from_str("l2"), Metric::L2);
    assert_eq!(Metric::from_str(""), Metric::L2);
    assert_eq!(Metric::from_str("anything"), Metric::L2);
}

#[test]
fn bool_parsing() {
    assert_eq!(parse_bool("1"), Some(true));
    assert_eq!(parse_bool("true"), Some(true));
    assert_eq!(parse_bool("YES"), Some(true));
    assert_eq!(parse_bool("On"), Some(true));
    assert_eq!(parse_bool("0"), Some(false));
    assert_eq!(parse_bool("false"), Some(false));
    assert_eq!(parse_bool("no"), Some(false));
    assert_eq!(parse_bool("OFF"), Some(false));
    assert_eq!(parse_bool(""), None);
    assert_eq!(parse_bool("2"), None);
    assert_eq!(parse_bool("truth"), None);
}
