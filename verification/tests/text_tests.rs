use thyme::text::{contains_char, push_decimal, str_eq};
use thyme::ids::IdGenerator;
use thyme::assets::has_asset_extension;

#[test]
fn decimal_numbers_are_appended() {
    let mut s = String::from("item");
    push_decimal(&mut s, 0);
    assert_eq!(s, "item0");
    let mut t = String::new();
    push_decimal(&mut t, 1905);
    assert_eq!(t, "1905");
    let mut u = String::from("x");
    push_decimal(&mut u, u64::MAX);
    assert_eq!(u, format!("x{}", u64::MAX));
}

#[test]
fn characters_are_found_in_strings() {
    assert!(contains_char("parent/child", '/'));
    assert!(!contains_char("button", '/'));
    assert!(!contains_char("", 'a'));
    assert!(contains_char("näive", 'ä'));
}

#[test]
fn strings_compare_by_content() {
    assert!(str_eq("abc", "abc"));
    assert!(!str_eq("abc", "abd"));
    assert!(!str_eq("abc", "ab"));
}

#[test]
fn repeated_ids_get_a_counter() {
    let mut ids = IdGenerator::new();
    assert_eq!(ids.generate_id("label".to_string()), "label");
    assert_eq!(ids.generate_id("label".to_string()), "label1");
    assert_eq!(ids.generate_id("button".to_string()), "button");
    assert_eq!(ids.generate_id("label".to_string()), "label2");
    assert_eq!(ids.generate_id("button".to_string()), "button1");
}

#[test]
fn generated_ids_are_distinct() {
    let mut ids = IdGenerator::new();
    let mut seen: Vec<String> = Vec::new();
    for _ in 0..25 {
        let id = ids.generate_id("row".to_string());
        assert!(!seen.contains(&id));
        seen.push(id);
    }
    assert_eq!(seen[10], "row10");
}

#[test]
fn asset_files_are_chosen_by_extension() {
    let extensions = vec!["png".to_string(), "jpg".to_string()];
    assert!(has_asset_extension("png", &extensions));
    assert!(has_asset_extension("jpg", &extensions));
    assert!(!has_asset_extension("ttf", &extensions));
    assert!(!has_asset_extension("PNG", &extensions));
    assert!(!has_asset_extension("", &Vec::new()));
}
