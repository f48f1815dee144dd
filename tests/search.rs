use iskwet::{index, search_uuid, search_word, Dictionary, LangMap, Query, Word};

fn strings(items: &[&str]) -> Vec<String> {
    items.iter().map(|s| s.to_string()).collect()
}

fn word(uuid: &str, defs: &[(&str, &[&str])]) -> Word {
    let mut w = Word::new();
    w.uuid = uuid.to_string();
    for (lang, items) in defs {
        w.definitions.insert(lang.to_string(), strings(items));
    }
    w
}

fn uuids(ws: &[Word]) -> Vec<String> {
    ws.iter().map(|w| w.uuid.clone()).collect()
}

fn cat_and_dog() -> Dictionary {
    Dictionary::from_words(vec![
        word("1", &[("en", &["cat", "feline"])]),
        word("2", &[("en", &["dog"])]),
    ])
}

#[test]
fn index_says_hello() {
    assert_eq!(index(), "Hello, world!");
}

#[test]
fn example_store_lookups() {
    let dict = cat_and_dog();
    let found = search_uuid(&dict, "2".to_string()).expect("word 2 is in the store");
    assert_eq!(found.uuid, "2");
    assert_eq!(found.definitions.get(&"en".to_string()), Some(&strings(&["dog"])));

    assert_eq!(uuids(&search_word(&dict, "en".to_string(), "cat".to_string())), vec!["1"]);
    assert!(search_word(&dict, "fr".to_string(), "chat".to_string()).is_empty());
}

#[test]
fn uuid_lookup_not_found() {
    let dict = cat_and_dog();
    assert!(search_uuid(&dict, "3".to_string()).is_none());
    assert!(search_uuid(&dict, "".to_string()).is_none());
    assert!(search_uuid(&Dictionary::new(), "1".to_string()).is_none());
}

#[test]
fn uuid_lookup_is_case_sensitive() {
    let dict = Dictionary::from_words(vec![word("abc", &[])]);
    assert!(search_uuid(&dict, "ABC".to_string()).is_none());
    assert!(search_uuid(&dict, "abc".to_string()).is_some());
}

#[test]
fn uuid_lookup_returns_first_of_duplicates() {
    let mut first = word("x", &[]);
    first.description = "first".to_string();
    let mut second = word("x", &[]);
    second.description = "second".to_string();
    let dict = Dictionary::from_words(vec![word("a", &[]), first, second]);
    let found = search_uuid(&dict, "x".to_string()).unwrap();
    assert_eq!(found.description, "first");
}

#[test]
fn uuid_lookup_returns_the_whole_word() {
    let mut w = word("w", &[("en", &["a", "b"])]);
    w.synonyms.insert("en".to_string(), strings(&["s1"]));
    w.antonyms.insert("de".to_string(), strings(&["a1", "a2"]));
    w.dependencies = strings(&["root"]);
    w.dependers = strings(&["d1", "d2"]);
    w.description = "text".to_string();
    let dict = Dictionary::from_words(vec![word("other", &[]), w]);
    let found = search_uuid(&dict, "w".to_string()).unwrap();
    assert_eq!(found.definitions.get(&"en".to_string()), Some(&strings(&["a", "b"])));
    assert_eq!(found.synonyms.get(&"en".to_string()), Some(&strings(&["s1"])));
    assert_eq!(found.antonyms.get(&"de".to_string()), Some(&strings(&["a1", "a2"])));
    assert_eq!(found.antonyms.get(&"en".to_string()), None);
    assert_eq!(found.dependencies, strings(&["root"]));
    assert_eq!(found.dependers, strings(&["d1", "d2"]));
    assert_eq!(found.description, "text");
}

#[test]
fn word_search_keeps_store_order() {
    let dict = Dictionary::from_words(vec![
        word("1", &[("en", &["x", "y"])]),
        word("2", &[("en", &["z"])]),
        word("3", &[("en", &["y"])]),
        word("4", &[("en", &["y"]), ("fr", &["y"])]),
    ]);
    assert_eq!(uuids(&search_word(&dict, "en".to_string(), "y".to_string())), vec!["1", "3", "4"]);
    assert_eq!(uuids(&search_word(&dict, "fr".to_string(), "y".to_string())), vec!["4"]);
}

#[test]
fn word_search_matches_whole_definitions_only() {
    let dict = Dictionary::from_words(vec![word("1", &[("en", &["wildcat"])])]);
    assert!(search_word(&dict, "en".to_string(), "cat".to_string()).is_empty());
    assert_eq!(uuids(&search_word(&dict, "en".to_string(), "wildcat".to_string())), vec!["1"]);
}

#[test]
fn word_search_no_match_is_empty() {
    let dict = cat_and_dog();
    assert!(search_word(&dict, "en".to_string(), "bird".to_string()).is_empty());
    assert!(search_word(&Dictionary::new(), "en".to_string(), "cat".to_string()).is_empty());
}

#[test]
fn word_search_twice_gives_same_results() {
    let dict = cat_and_dog();
    let once = search_word(&dict, "en".to_string(), "dog".to_string());
    let twice = search_word(&dict, "en".to_string(), "dog".to_string());
    assert_eq!(uuids(&once), uuids(&twice));
    let again = search_word(&Dictionary::from_words(once), "en".to_string(), "dog".to_string());
    assert_eq!(uuids(&again), vec!["2"]);
}

#[test]
fn word_search_skips_words_missing_the_language() {
    let dict = Dictionary::from_words(vec![
        word("1", &[("fr", &["chat"])]),
        word("2", &[]),
        word("3", &[("en", &["cat"]), ("fr", &["chat"])]),
    ]);
    assert_eq!(uuids(&search_word(&dict, "fr".to_string(), "chat".to_string())), vec!["1", "3"]);
    assert_eq!(uuids(&search_word(&dict, "en".to_string(), "cat".to_string())), vec!["3"]);
}

#[test]
fn find_and_find_all_by_query() {
    let dict = cat_and_dog();
    let q = Query::Definition { lang: "en".to_string(), text: "feline".to_string() };
    assert_eq!(dict.find(&q).map(|w| w.uuid), Some("1".to_string()));
    assert_eq!(uuids(&dict.find_all(&q)), vec!["1"]);
    let q = Query::Uuid("2".to_string());
    assert!(q.matches(&dict.words[1]));
    assert!(!q.matches(&dict.words[0]));
    assert_eq!(uuids(&dict.find_all(&q)), vec!["2"]);
    assert!(dict.find(&Query::Uuid("9".to_string())).is_none());
}

#[test]
fn store_keeps_every_word() {
    let dict = cat_and_dog();
    assert_eq!(dict.len(), 2);
    assert_eq!(Dictionary::new().len(), 0);
    assert_eq!(uuids(&dict.words), vec!["1", "2"]);
}

#[test]
fn new_word_is_empty() {
    let w = Word::new();
    assert_eq!(w.uuid, "");
    assert!(w.definitions.entries.is_empty());
    assert!(w.synonyms.entries.is_empty());
    assert!(w.antonyms.entries.is_empty());
    assert!(w.dependencies.is_empty());
    assert!(w.dependers.is_empty());
    assert_eq!(w.description, "");
}

#[test]
fn lang_map_insert_replaces() {
    let mut m = LangMap::new();
    m.insert("en".to_string(), strings(&["a"]));
    m.insert("fr".to_string(), strings(&["b"]));
    m.insert("en".to_string(), strings(&["c", "d"]));
    assert_eq!(m.entries.len(), 2);
    assert_eq!(m.get(&"en".to_string()), Some(&strings(&["c", "d"])));
    assert_eq!(m.get(&"fr".to_string()), Some(&strings(&["b"])));
    assert_eq!(m.get(&"de".to_string()), None);
}

#[test]
fn word_clone_keeps_fields() {
    let mut w = word("7", &[("en", &["seven"])]);
    w.dependers = strings(&["8"]);
    let c = w.clone();
    assert_eq!(c.uuid, "7");
    assert_eq!(c.definitions.get(&"en".to_string()), Some(&strings(&["seven"])));
    assert_eq!(c.dependers, strings(&["8"]));
}
