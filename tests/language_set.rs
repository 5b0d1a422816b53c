use embedded_lang::{Language, LanguageSet, LanguageStringObject};

fn leaf(s: &str) -> LanguageStringObject {
    LanguageStringObject::Direct(s.to_string())
}

fn english() -> Language {
    Language::new(
        "English".to_string(),
        "en".to_string(),
        vec![
            ("hello_msg".to_string(), leaf("hello world!")),
            ("tree".to_string(), leaf("tree")),
            ("mustard".to_string(), leaf("mustard")),
            (
                "category".to_string(),
                LanguageStringObject::Category(vec![(
                    "category2".to_string(),
                    LanguageStringObject::Category(vec![("foo".to_string(), leaf("bar"))]),
                )]),
            ),
        ],
        vec![],
    )
}

fn french() -> Language {
    Language::new(
        "Français".to_string(),
        "fr".to_string(),
        vec![("tree".to_string(), leaf("arbre"))],
        vec![],
    )
}

#[test]
fn test_current_language() {
    let mut set = LanguageSet::new("fr", vec![english(), french()]);

    assert_eq!(set.current_language().unwrap().short_name(), "fr");
    set.set_language("en");
    assert_eq!(set.current_language().unwrap().short_name(), "en");
}

#[test]
fn test_fallback_language() {
    let mut set = LanguageSet::new("fr", vec![english(), french()]);

    assert_eq!(set.fallback_language().unwrap().short_name(), "fr");
    set.set_fallback_language("en");
    assert_eq!(set.fallback_language().unwrap().short_name(), "en");
}

#[test]
fn test_add_language() {
    let mut set = LanguageSet::new("fr", vec![french()]);

    set.add_language(english());

    assert_eq!(set.set_language("en"), true);
}

#[test]
fn test_set_fallback_language() {
    let mut set = LanguageSet::new("fr", vec![english(), french()]);

    assert_eq!(set.set_fallback_language("en"), true);
    assert_eq!(set.fallback_language().unwrap().short_name(), "en");

    assert_eq!(set.set_fallback_language("foo"), false);
    assert_eq!(set.fallback_language().unwrap().short_name(), "en");
}

#[test]
fn test_set_language() {
    let mut set = LanguageSet::new("fr", vec![english(), french()]);

    assert_eq!(set.set_language("en"), true);
    assert_eq!(set.current_language().unwrap().short_name(), "en");

    assert_eq!(set.set_language("foo"), false);
    assert_eq!(set.current_language().unwrap().short_name(), "en");
}

#[test]
fn test_get_from_lang() {
    let mut set = LanguageSet::new("fr", vec![english(), french()]);
    set.set_fallback_language("en");

    assert_eq!(set.get_from_lang("fr", "tree"), Some("arbre"));
    assert_eq!(set.get_from_lang("fr", "mustard"), None);
    assert_eq!(set.get_from_lang("en", "nope"), None);
}

#[test]
fn language_set_test_get() {
    let mut set = LanguageSet::new("fr", vec![english(), french()]);
    set.set_fallback_language("en");

    assert_eq!(set.get("tree"), Some("arbre"));
    assert_eq!(set.get("mustard"), Some("mustard"));
    assert_eq!(set.get("nope"), None);
}

#[test]
fn test_index() {
    let mut set = LanguageSet::new("fr", vec![english(), french()]);
    set.set_fallback_language("en");

    assert_eq!(set["tree"], "arbre".to_string());
    assert_eq!(set["mustard"], "mustard".to_string());
    assert_eq!(set["nope"], "".to_string());
}

#[test]
fn test_get_string() {
    let mut set = LanguageSet::new("fr", vec![english(), french()]);
    set.set_fallback_language("en");

    assert_eq!(
        LanguageSet::new("fr", vec![english(), french()])
            .get("foobar")
            .unwrap_or_default(),
        ""
    );
    assert_eq!(set.get("foobar").unwrap_or_default(), "");
    assert_eq!(set.get("mustard").unwrap_or_default(), "mustard");
}

#[test]
fn end_to_end_two_tier_lookup() {
    let mut set = LanguageSet::new("fr", vec![english(), french()]);
    assert_eq!(set.current_language().unwrap().short_name(), "fr");
    assert_eq!(set.get("tree"), Some("arbre"));
    assert_eq!(set.get("category\\category2\\foo"), None);
    assert_eq!(set.get_from_lang("en", "category\\category2\\foo"), Some("bar"));
    assert_eq!(set.set_fallback_language("en"), true);
    assert_eq!(set.get("category\\category2\\foo"), Some("bar"));
    assert_eq!(set.get_or_empty("absent"), "");
    assert_eq!(&set["absent"], "");
}

#[test]
fn current_wins_over_fallback() {
    let mut set = LanguageSet::new("en", vec![english(), french()]);
    assert_eq!(set.set_language("fr"), true);
    assert_eq!(set.get("tree"), Some("arbre"));
    assert_eq!(set.get("hello_msg"), Some("hello world!"));
}

#[test]
fn same_current_and_fallback_is_one_lookup() {
    let set = LanguageSet::new("en", vec![english(), french()]);
    for key in ["tree", "mustard", "nope", "category\\category2\\foo", ""] {
        assert_eq!(set.get(key), set.get_from_lang("en", key));
    }
}

#[test]
fn verify_reports_extra_keys() {
    let en = Language::new(
        "English".to_string(),
        "en".to_string(),
        vec![("tree".to_string(), leaf("tree"))],
        vec![],
    );
    let fr = Language::new(
        "Français".to_string(),
        "fr".to_string(),
        vec![("tree".to_string(), leaf("arbre")), ("extra".to_string(), leaf("x"))],
        vec![],
    );
    let set = LanguageSet::new("en", vec![en, fr]);
    let mut report = set.verify();
    report.sort();
    assert_eq!(
        report,
        vec![
            ("en".to_string(), vec![]),
            ("fr".to_string(), vec!["extra".to_string()]),
        ]
    );
}

#[test]
fn verify_without_fallback_is_empty() {
    let set = LanguageSet::new("de", vec![english(), french()]);
    assert_eq!(set.verify(), vec![]);
    assert_eq!(set.get("tree"), None);
    assert!(set.current_language().is_none());
}

#[test]
fn later_language_of_a_code_wins() {
    let other_fr = Language::new(
        "Français".to_string(),
        "fr".to_string(),
        vec![("tree".to_string(), leaf("arbre2"))],
        vec![],
    );
    let mut set = LanguageSet::new("fr", vec![french(), other_fr]);
    assert_eq!(set.get("tree"), Some("arbre2"));
    assert_eq!(set.all_languages().len(), 1);
    set.add_language(french());
    assert_eq!(set.get("tree"), Some("arbre"));
    set.add_language(english());
    let mut codes: Vec<&str> = set.all_languages().iter().map(|l| l.short_name()).collect();
    codes.sort();
    assert_eq!(codes, vec!["en", "fr"]);
}

#[test]
fn resources_fall_back() {
    let en = Language::new(
        "English".to_string(),
        "en".to_string(),
        vec![],
        vec![
            ("license".to_string(), b"MIT".to_vec()),
            ("font".to_string(), vec![1, 2, 3]),
        ],
    );
    let fr = Language::new(
        "Français".to_string(),
        "fr".to_string(),
        vec![],
        vec![("font".to_string(), vec![0xff])],
    );
    let mut set = LanguageSet::new("en", vec![en, fr]);
    set.set_language("fr");
    assert_eq!(set.binary_resource("font"), Some(&[0xffu8][..]));
    assert_eq!(set.binary_resource("license"), Some(&b"MIT"[..]));
    assert_eq!(set.utf8_resource("license"), Some("MIT"));
    assert_eq!(set.utf8_resource("font"), Some("\u{1}\u{2}\u{3}"));
    assert_eq!(set.binary_resource("none"), None);
}
