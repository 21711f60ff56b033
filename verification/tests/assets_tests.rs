use thyme::assets::{directory_assets, keyed_by_stem, listed_assets};

#[test]
fn named_files_are_keyed_by_stem() {
    let paths = vec!["themes/dark.yml".to_string(), "fonts/Roboto.ttf".to_string(), "".to_string()];
    let r = keyed_by_stem(&paths);
    assert_eq!(
        r,
        vec![
            ("dark".to_string(), "themes/dark.yml".to_string()),
            ("Roboto".to_string(), "fonts/Roboto.ttf".to_string()),
        ]
    );
}

#[test]
fn directory_files_with_a_wanted_extension_are_assets() {
    let entries = vec![
        ("img/a.png".to_string(), true),
        ("img/b.jpg".to_string(), true),
        ("img/sub.png".to_string(), false),
        ("img/c".to_string(), true),
    ];
    let r = directory_assets(&entries, &vec!["png".to_string(), "".to_string()]);
    assert_eq!(
        r,
        vec![("a".to_string(), "img/a.png".to_string()), ("c".to_string(), "img/c".to_string())]
    );
}

#[test]
fn listed_files_are_joined_to_the_base_directory() {
    let files = vec!["themes/a.yml".to_string(), "b.yaml".to_string()];
    assert_eq!(
        listed_assets("base", &files),
        vec![("a".to_string(), "base/themes/a.yml".to_string()), ("b".to_string(), "base/b.yaml".to_string())]
    );
    assert!(listed_assets("base", &Vec::new()).is_empty());
}
