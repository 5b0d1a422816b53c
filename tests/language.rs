use embedded_lang::{Language, LanguageStringObject};

fn leaf(s: &str) -> LanguageStringObject {
    LanguageStringObject::Direct(s.to_string())
}

fn english() -> Language {
    Language::new(
        "English".to_string(),
        "en".to_string(),
        vec![
            ("hello_msg".to_string(), leaf("hello world!")),
            ("tree".to_string(), leaf("tree")),
            ("mustard".to_string(), leaf("mustard")),
            (
                "category".to_string(),
                LanguageStringObject::Category(vec![(
                    "category2".to_string(),
                    LanguageStringObject::Category(vec![("foo".to_string(), leaf("bar"))]),
                )]),
            ),
        ],
        vec![],
    )
}

#[test]
fn test_short_name() {
    let lang = english();
    assert_eq!(lang.short_name(), "en");
}

#[test]
fn test_name() {
    let lang = english();
    assert_eq!(lang.name(), "English");
}

#[test]
fn language_test_get() {
    let lang = english();

    assert_eq!(lang.get("hello_msg"), Some("hello world!"));
    assert_eq!(lang.get("goodbye_msg"), None);
}

#[test]
fn test_embedded_language() {
    let lang = english();
    assert_eq!(lang.get("hello_msg"), Some("hello world!"));
}

#[test]
fn test_embedded_resources() {
    let lang = Language::new(
        "English".to_string(),
        "en".to_string(),
        vec![("hello_msg".to_string(), leaf("hello world!"))],
        vec![("license_file".to_string(), b"MIT License".to_vec())],
    );
    assert_eq!(lang.get("hello_msg"), Some("hello world!"));
    assert_eq!(lang.binary_resource("license_file"), Some(&b"MIT License"[..]));
    assert_eq!(lang.utf8_resource("license_file"), Some("MIT License"));
}

#[test]
fn nested_key_is_found() {
    let lang = english();
    assert_eq!(lang.get("category\\category2\\foo"), Some("bar"));
}

#[test]
fn category_is_not_a_string() {
    let lang = english();
    assert_eq!(lang.get("category"), None);
    assert_eq!(lang.get("category\\category2"), None);
}

#[test]
fn path_through_a_string_misses() {
    let lang = english();
    assert_eq!(lang.get("tree\\extra"), None);
    assert_eq!(lang.get("tree\\"), None);
}

#[test]
fn empty_key_misses() {
    let lang = english();
    assert_eq!(lang.get(""), None);
    assert_eq!(lang.get("\\"), None);
}

#[test]
fn empty_segment_names_an_empty_key() {
    let lang = Language::new(
        "Test".to_string(),
        "xx".to_string(),
        vec![(
            "".to_string(),
            LanguageStringObject::Category(vec![("a".to_string(), leaf("found"))]),
        )],
        vec![],
    );
    assert_eq!(lang.get("\\a"), Some("found"));
    assert_eq!(lang.get("a"), None);
}

#[test]
fn first_of_two_equal_keys_counts() {
    let lang = Language::new(
        "Test".to_string(),
        "xx".to_string(),
        vec![("k".to_string(), leaf("first")), ("k".to_string(), leaf("second"))],
        vec![],
    );
    assert_eq!(lang.get("k"), Some("first"));
    let flat = lang.strings();
    assert_eq!(flat, vec![("k".to_string(), "first".to_string())]);
}

#[test]
fn strings_are_flattened_with_separator() {
    let lang = english();
    let mut flat = lang.strings();
    flat.sort();
    assert_eq!(
        flat,
        vec![
            ("category\\category2\\foo".to_string(), "bar".to_string()),
            ("hello_msg".to_string(), "hello world!".to_string()),
            ("mustard".to_string(), "mustard".to_string()),
            ("tree".to_string(), "tree".to_string()),
        ]
    );
}

#[test]
fn flatten_prefixes_own_key() {
    let node = LanguageStringObject::Category(vec![
        ("a".to_string(), leaf("1")),
        ("b".to_string(), LanguageStringObject::Category(vec![("c".to_string(), leaf("2"))])),
    ]);
    let mut flat = node.flatten("root");
    flat.sort();
    assert_eq!(
        flat,
        vec![
            ("root\\a".to_string(), "1".to_string()),
            ("root\\b\\c".to_string(), "2".to_string()),
        ]
    );
    assert_eq!(leaf("x").flatten("k"), vec![("k".to_string(), "x".to_string())]);
}

#[test]
fn flatten_all_with_and_without_root() {
    let table = vec![("a".to_string(), leaf("1"))];
    assert_eq!(
        LanguageStringObject::flatten_all(&table, None),
        vec![("a".to_string(), "1".to_string())]
    );
    assert_eq!(
        LanguageStringObject::flatten_all(&table, Some("p")),
        vec![("p\\a".to_string(), "1".to_string())]
    );
    assert_eq!(LanguageStringObject::flatten_all(&vec![], None), vec![]);
}

#[test]
fn invalid_utf8_resource_is_a_miss() {
    let lang = Language::new(
        "Test".to_string(),
        "xx".to_string(),
        vec![],
        vec![("font".to_string(), vec![0xff, 0xfe, 0x00])],
    );
    assert_eq!(lang.utf8_resource("font"), None);
    assert_eq!(lang.binary_resource("font"), Some(&[0xffu8, 0xfe, 0x00][..]));
    assert_eq!(lang.binary_resource("other"), None);
    assert_eq!(lang.utf8_resource("other"), None);
}

#[test]
fn attachments_are_set_and_replaced() {
    let mut lang = english();
    assert_eq!(lang.attachment("meta"), None);
    lang.attach("meta", serde_json::Value::Bool(true));
    assert_eq!(lang.attachment("meta"), Some(&serde_json::Value::Bool(true)));
    lang.attach("meta", serde_json::Value::String("x".to_string()));
    assert_eq!(lang.attachment("meta"), Some(&serde_json::Value::String("x".to_string())));
    assert_eq!(lang.attachment("other"), None);
}

#[test]
fn flat_keys_agree_with_get() {
    let lang = english();
    let flat = lang.strings();
    assert_eq!(flat.len(), 4);
    for (key, value) in &flat {
        assert_eq!(lang.get(key), Some(value.as_str()));
    }
}

#[test]
fn flat_keys_are_distinct() {
    let node = LanguageStringObject::Category(vec![
        ("a".to_string(), LanguageStringObject::Category(vec![("b".to_string(), leaf("1"))])),
        ("b".to_string(), LanguageStringObject::Category(vec![("a".to_string(), leaf("2"))])),
        ("ab".to_string(), leaf("3")),
    ]);
    let mut keys: Vec<String> = node.flatten("r").into_iter().map(|(k, _)| k).collect();
    keys.sort();
    assert_eq!(keys, vec!["r\\a\\b".to_string(), "r\\ab".to_string(), "r\\b\\a".to_string()]);
}
