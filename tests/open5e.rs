use ttrpg::open5e::{class_url, first_result, lookup_url, spell_url, Class, Open5eResponse};

fn class(slug: &str, name: &str) -> Class {
    Class { slug: slug.to_string(), name: name.to_string() }
}

#[test]
fn query_address_keeps_the_slug() {
    assert_eq!(
        lookup_url("classes", "Paladin"),
        "https://api.open5e.com/classes/?slug=Paladin"
    );
}

#[test]
fn class_address_lowercases_the_slug() {
    assert_eq!(class_url("PaLaDiN"), "https://api.open5e.com/classes/?slug=paladin");
}

#[test]
fn spell_address_lowercases_the_slug() {
    assert_eq!(spell_url("Fire-Shield"), "https://api.open5e.com/spells/?slug=fire-shield");
}

#[test]
fn first_of_an_empty_page_is_none() {
    let page: Open5eResponse<Class> =
        Open5eResponse { count: 0, next: None, previous: None, results: vec![] };
    assert!(first_result(page).is_none());
}

#[test]
fn first_of_a_page_is_its_first_record() {
    let page = Open5eResponse {
        count: 2,
        next: Some("https://api.open5e.com/classes/?page=2".to_string()),
        previous: None,
        results: vec![class("bard", "Bard"), class("cleric", "Cleric")],
    };
    let first = first_result(page).unwrap();
    assert_eq!(first.slug, "bard");
    assert_eq!(first.name, "Bard");
}
