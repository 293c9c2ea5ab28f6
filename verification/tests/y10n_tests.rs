use y10n::Language;
use y10n::ParseError;
use y10n::Y10n;
use y10n::Yaml;
use y10n::merge_yaml;

fn quality_as_f64(lang: &Language) -> f64 {
    lang.quality.num as f64 / lang.quality.den as f64
}

fn text(s: &str) -> Yaml {
    Yaml::Text(s.to_string())
}

fn mapping(entries: Vec<(&str, Yaml)>) -> Yaml {
    Yaml::Mapping(entries.into_iter().map(|(k, v)| (k.to_string(), v)).collect())
}

fn expect_text<'a>(tree: &'a Yaml, key: &str) -> &'a String {
    match tree.get(&key.to_string()) {
        Some(Yaml::Text(s)) => s,
        Some(_) => panic!("value under {} is not a string", key),
        None => panic!("no value under {}", key),
    }
}

#[test]
fn language_from_segment() {
    let lang = Language::from("en-US");
    assert!(lang.is_ok());
    let lang = lang.unwrap();
    assert_eq!("en", lang.code);
    assert_eq!(Some("US".to_string()), lang.region);
    assert_eq!(1.0, quality_as_f64(&lang));
}

#[test]
fn parse_langs_simple() {
    let header = "en-US,en;q=0.5";
    let langs = y10n::parse_accept_language(&header);
    assert_eq!(langs.len(), 2);
}

#[test]
fn parse_langs_multi() {
    let header = "en-US,en;q=0.7,de-DE;q=0.3";
    let langs = y10n::parse_accept_language(&header);
    assert_eq!(langs.len(), 3);
    let de = langs.get(2).unwrap();
    assert_eq!("de", de.code);
    assert_eq!(0.3, quality_as_f64(de));
}

#[test]
fn y10n_localize() {
    let mut y10n = Y10n::new();
    y10n.insert_translation(
        "en".to_string(),
        mapping(vec![("greeting", text("hi")), ("secret", text("pancakes"))]),
    );
    y10n.insert_translation("de".to_string(), mapping(vec![("greeting", text("moin moin"))]));

    let en = Language::from("en").expect("Failed to parse!");
    let de = Language::from("de").expect("Failed to parse!");
    let value = y10n.localize(&[de, en]);

    assert_eq!(expect_text(&value, "greeting"), "moin moin");
    assert_eq!(expect_text(&value, "secret"), "pancakes");
}

#[test]
fn segment_with_quality_only() {
    let lang = Language::from("de;q=0.5").unwrap();
    assert_eq!("de", lang.code);
    assert_eq!(None, lang.region);
    assert_eq!(0.5, quality_as_f64(&lang));
}

#[test]
fn segment_with_region_and_quality() {
    let lang = Language::from("de-DE;q=0.3").unwrap();
    assert_eq!("de", lang.code);
    assert_eq!(Some("DE".to_string()), lang.region);
    assert_eq!(0.3, quality_as_f64(&lang));
}

#[test]
fn empty_header_yields_no_languages() {
    let langs = y10n::parse_accept_language("");
    assert_eq!(langs.len(), 0);
}

#[test]
fn malformed_segment_is_rejected() {
    assert!(matches!(Language::from(""), Err(ParseError::Malformed)));
    assert!(matches!(Language::from("!!!"), Err(ParseError::Malformed)));
    assert!(matches!(Language::from(";,;"), Err(ParseError::Malformed)));
}

#[test]
fn header_drops_malformed_segments() {
    let langs = y10n::parse_accept_language("!!,en,??");
    assert_eq!(langs.len(), 1);
    assert_eq!("en", langs[0].code);
}

#[test]
fn segment_with_leading_space_still_parses() {
    let lang = Language::from(" en-US").unwrap();
    assert_eq!("en", lang.code);
    assert_eq!(Some("US".to_string()), lang.region);
}

#[test]
fn header_with_spaces_after_commas() {
    let langs = y10n::parse_accept_language("en-US, en;q=0.7");
    assert_eq!(langs.len(), 2);
    assert_eq!("en", langs[0].code);
    assert_eq!("en", langs[1].code);
    assert_eq!(0.7, quality_as_f64(&langs[1]));
}

#[test]
fn quality_edge_cases() {
    // A quality clause without a usable number is read as zero.
    assert_eq!(0.0, quality_as_f64(&Language::from("de;q=").unwrap()));
    assert_eq!(0.0, quality_as_f64(&Language::from("de;q=junk").unwrap()));
    // A weight above one is no usable preference.
    assert_eq!(0.0, quality_as_f64(&Language::from("de;q=2").unwrap()));
    assert_eq!(0.0, quality_as_f64(&Language::from("de;q=1.5").unwrap()));
    // Equivalent spellings of the same weight.
    assert_eq!(0.5, quality_as_f64(&Language::from("de;q=0.50").unwrap()));
    assert_eq!(0.5, quality_as_f64(&Language::from("de;q=.5").unwrap()));
    assert_eq!(1.0, quality_as_f64(&Language::from("de;q=1").unwrap()));
    assert_eq!(1.0, quality_as_f64(&Language::from("de;q=1.000").unwrap()));
    // Trailing content after the number is ignored.
    assert_eq!(0.5, quality_as_f64(&Language::from("de;q=0.5xyz").unwrap()));
}

#[test]
fn merge_appends_sequences() {
    let mut dest = mapping(vec![("tags", Yaml::Sequence(vec![text("a"), text("b")]))]);
    let src = mapping(vec![("tags", Yaml::Sequence(vec![text("c")]))]);
    merge_yaml(&mut dest, src);
    match dest.get(&"tags".to_string()) {
        Some(Yaml::Sequence(items)) => {
            assert_eq!(items.len(), 3);
            assert!(matches!(&items[0], Yaml::Text(s) if s == "a"));
            assert!(matches!(&items[1], Yaml::Text(s) if s == "b"));
            assert!(matches!(&items[2], Yaml::Text(s) if s == "c"));
        },
        _ => panic!("tags did not merge to a sequence"),
    }
}

#[test]
fn merge_scalar_overrides() {
    let mut dest = mapping(vec![("x", Yaml::Number(1))]);
    let src = mapping(vec![("x", Yaml::Number(2))]);
    merge_yaml(&mut dest, src);
    match dest.get(&"x".to_string()) {
        Some(Yaml::Number(n)) => assert_eq!(*n, 2),
        _ => panic!("x was not overridden by a number"),
    }
}

#[test]
fn merge_empty_tree_is_identity() {
    let mut dest = mapping(vec![("x", Yaml::Number(1)), ("y", text("keep"))]);
    let src = mapping(vec![]);
    merge_yaml(&mut dest, src);
    match dest.get(&"x".to_string()) {
        Some(Yaml::Number(n)) => assert_eq!(*n, 1),
        _ => panic!("x changed"),
    }
    assert_eq!(expect_text(&dest, "y"), "keep");
    match &dest {
        Yaml::Mapping(entries) => assert_eq!(entries.len(), 2),
        _ => panic!("destination is no longer a map"),
    }
}

#[test]
fn merge_inserts_new_keys() {
    let mut dest = mapping(vec![("a", Yaml::Number(1))]);
    let src = mapping(vec![("b", Yaml::Number(2))]);
    merge_yaml(&mut dest, src);
    assert!(dest.get(&"a".to_string()).is_some());
    assert!(dest.get(&"b".to_string()).is_some());
}

#[test]
fn merge_recurses_into_nested_maps() {
    let mut dest = mapping(vec![("outer", mapping(vec![("kept", text("v")), ("hit", text("lo"))]))]);
    let src = mapping(vec![("outer", mapping(vec![("hit", text("hi"))]))]);
    merge_yaml(&mut dest, src);
    let outer = dest.get(&"outer".to_string()).expect("outer vanished");
    assert_eq!(expect_text(outer, "kept"), "v");
    assert_eq!(expect_text(outer, "hit"), "hi");
}

#[test]
fn resolve_without_matches_is_empty() {
    let mut y10n = Y10n::new();
    y10n.insert_translation("en".to_string(), mapping(vec![("greeting", text("hi"))]));
    let fr = Language::from("fr").unwrap();
    let value = y10n.localize(&[fr]);
    match &value {
        Yaml::Mapping(entries) => assert_eq!(entries.len(), 0),
        _ => panic!("resolution did not yield a map"),
    }
}

#[test]
fn resolve_with_empty_preferences_is_empty() {
    let mut y10n = Y10n::new();
    y10n.insert_translation("en".to_string(), mapping(vec![("greeting", text("hi"))]));
    let value = y10n.localize(&[]);
    match &value {
        Yaml::Mapping(entries) => assert_eq!(entries.len(), 0),
        _ => panic!("resolution did not yield a map"),
    }
}

#[test]
fn languages_lists_loaded_codes() {
    let mut y10n = Y10n::new();
    y10n.insert_translation("en".to_string(), mapping(vec![]));
    y10n.insert_translation("de".to_string(), mapping(vec![]));
    let names = y10n.languages();
    assert_eq!(names.len(), 2);
    assert!(names.contains(&"en".to_string()));
    assert!(names.contains(&"de".to_string()));
}

#[test]
fn reloading_a_language_replaces_its_tree() {
    let mut y10n = Y10n::new();
    y10n.insert_translation("en".to_string(), mapping(vec![("greeting", text("old"))]));
    y10n.insert_translation("en".to_string(), mapping(vec![("greeting", text("new"))]));
    assert_eq!(y10n.languages().len(), 1);
    let en = Language::from("en").unwrap();
    let value = y10n.localize(&[en]);
    assert_eq!(expect_text(&value, "greeting"), "new");
}

#[test]
fn underscore_counts_as_word_character() {
    let lang = Language::from("en_US").unwrap();
    assert_eq!("en_US", lang.code);
    assert_eq!(None, lang.region);
}

#[test]
fn dash_without_region_still_reaches_quality() {
    let lang = Language::from("en-;q=0.5").unwrap();
    assert_eq!("en", lang.code);
    assert_eq!(None, lang.region);
    assert_eq!(0.5, quality_as_f64(&lang));
}

#[test]
fn get_on_a_scalar_is_none() {
    let tree = Yaml::Number(1);
    assert!(tree.get(&"x".to_string()).is_none());
}

#[test]
fn header_order_is_kept_not_quality_sorted() {
    let langs = y10n::parse_accept_language("de;q=0.1,en;q=0.9");
    assert_eq!(langs.len(), 2);
    assert_eq!("de", langs[0].code);
    assert_eq!("en", langs[1].code);
}
