use dictd::config::FallbackConfig;
use dictd::dictionary::{Dictionary, MatchStrategy};
use dictd::registry::{Dictionaries, RegisterError, WordSearchError};

fn dictionary(short: &str, long: &str, entries: &[(&str, &str)]) -> Dictionary {
    let mut d = Dictionary::new_empty(short.to_string(), long.to_string());
    for (w, t) in entries {
        d.push_word(w.as_bytes(), t.as_bytes()).unwrap();
    }
    d.compress_dictionary().unwrap();
    d
}

fn two() -> Dictionaries {
    let mut dicts = Dictionaries::new();
    dicts
        .register(dictionary(
            "web1913",
            "Webster 1913",
            &[("apple", "A round fruit"), ("apply", "To put to use"), ("pear", "A fruit")],
        ))
        .unwrap();
    dicts
        .register(dictionary(
            "wn",
            "WordNet",
            &[("apple", "fruit with red or yellow or green skin"), ("application", "a program")],
        ))
        .unwrap();
    dicts
}

fn pair(a: &str, b: &str) -> (Vec<u8>, Vec<u8>) {
    (a.as_bytes().to_vec(), b.as_bytes().to_vec())
}

#[test]
fn wildcards_select_everything() {
    let dicts = two();
    assert_eq!(dicts.filter_dicts(b"all"), vec![0, 1]);
    assert_eq!(dicts.filter_dicts(b"*"), vec![0, 1]);
    assert_eq!(dicts.filter_dicts(b"!"), vec![0, 1]);
    assert!(Dictionaries::wildcard(b"all"));
    assert!(!Dictionaries::wildcard(b"ALL"));
    assert!(!Dictionaries::wildcard(b""));
    assert_eq!(Dictionaries::new().filter_dicts(b"*"), Vec::<usize>::new());
}

#[test]
fn a_name_selects_its_dictionary() {
    let dicts = two();
    assert_eq!(dicts.filter_dicts(b"web1913"), vec![0]);
    assert_eq!(dicts.filter_dicts(b"wn"), vec![1]);
    assert_eq!(dicts.filter_dicts(b"nope"), Vec::<usize>::new());
    assert_eq!(dicts.filter_dicts(b"WN"), Vec::<usize>::new());
    assert_eq!(dicts.filter_dicts(b""), Vec::<usize>::new());
    assert_eq!(dicts.position(b"wn"), Some(1));
    assert_eq!(dicts.position(b"nope"), None);
    assert_eq!(dicts.get(1).map(|d| d.name()), Some("wn"));
    assert!(dicts.get(2).is_none());
    assert_eq!(dicts.len(), 2);
}

#[test]
fn show_databases_keeps_the_order_of_registration() {
    let dicts = two();
    let expected = vec![
        ("web1913".to_string(), "Webster 1913".to_string()),
        ("wn".to_string(), "WordNet".to_string()),
    ];
    assert_eq!(dicts.show_databases(), expected);
    assert_eq!(dicts.show_databases(), expected);
    assert_eq!(Dictionaries::new().show_databases(), Vec::<(String, String)>::new());
}

#[test]
fn lookup_collects_definitions_in_order() {
    let dicts = two();
    assert_eq!(
        dicts.lookup_word(b"apple", b"*"),
        Ok(vec![
            pair("web1913 \"Webster 1913\"", "A round fruit"),
            pair("wn \"WordNet\"", "fruit with red or yellow or green skin"),
        ])
    );
    assert_eq!(
        dicts.lookup_word(b"Apple", b"wn"),
        Ok(vec![pair("wn \"WordNet\"", "fruit with red or yellow or green skin")])
    );
    assert_eq!(dicts.lookup_word(b"pear", b"all"), Ok(vec![pair("web1913 \"Webster 1913\"", "A fruit")]));
}

#[test]
fn lookup_tells_missing_database_from_missing_word() {
    let dicts = two();
    assert_eq!(dicts.lookup_word(b"apple", b"nope"), Err(WordSearchError::DbNotFoundErr));
    assert_eq!(dicts.lookup_word(b"banana", b"nope"), Err(WordSearchError::DbNotFoundErr));
    assert_eq!(dicts.lookup_word(b"banana", b"web1913"), Err(WordSearchError::WordNotFoundErr));
    assert_eq!(dicts.lookup_word(b"banana", b"!"), Err(WordSearchError::WordNotFoundErr));
    assert_eq!(dicts.lookup_word(b"pear", b"wn"), Err(WordSearchError::WordNotFoundErr));
    assert_eq!(Dictionaries::new().lookup_word(b"apple", b"*"), Err(WordSearchError::DbNotFoundErr));
}

#[test]
fn match_gives_one_head_word_for_each_dictionary() {
    let dicts = two();
    assert_eq!(
        dicts.match_word(b"app", b"*", MatchStrategy::Prefix),
        Ok(vec![pair("web1913", "apple"), pair("wn", "apple")])
    );
    assert_eq!(
        dicts.match_word(b"appli", b"*", MatchStrategy::Prefix),
        Ok(vec![pair("wn", "application")])
    );
    assert_eq!(
        dicts.match_word(b"APPLY", b"web1913", MatchStrategy::Exact),
        Ok(vec![pair("web1913", "apply")])
    );
    assert_eq!(
        dicts.match_word(b"app", b"web1913", MatchStrategy::Exact),
        Err(WordSearchError::WordNotFoundErr)
    );
    assert_eq!(
        dicts.match_word(b"zebra", b"all", MatchStrategy::Prefix),
        Err(WordSearchError::WordNotFoundErr)
    );
    assert_eq!(
        dicts.match_word(b"app", b"nope", MatchStrategy::Prefix),
        Err(WordSearchError::DbNotFoundErr)
    );
}

#[test]
fn dictionary_answers_matches_on_its_own() {
    let d = dictionary("d", "D", &[("Beta", "2"), ("alpha", "1"), ("alphabet", "3")]);
    assert_eq!(d.get_word_matches(b"ALPHA", MatchStrategy::Exact), vec![b"alpha".to_vec()]);
    assert_eq!(d.get_word_matches(b"alp", MatchStrategy::Exact), Vec::<Vec<u8>>::new());
    assert_eq!(d.get_word_matches(b"alp", MatchStrategy::Prefix), vec![b"alpha".to_vec()]);
    assert_eq!(d.get_word_matches(b"alphab", MatchStrategy::Prefix), vec![b"alphabet".to_vec()]);
    assert_eq!(d.get_word_matches(b"b", MatchStrategy::Prefix), vec![b"Beta".to_vec()]);
    assert_eq!(d.get_word_matches(b"beta", MatchStrategy::Exact), vec![b"Beta".to_vec()]);
    assert_eq!(d.get_word_matches(b"c", MatchStrategy::Prefix), Vec::<Vec<u8>>::new());
    assert_eq!(d.get_both_names(), b"d \"D\"".to_vec());
    assert_eq!(d.get_word_meaning(b"BETA"), Some(b"2".to_vec()));
}

#[test]
fn registering_under_a_taken_name_replaces() {
    let mut dicts = two();
    dicts.register(dictionary("web1913", "Webster, revised", &[("apple", "Revised")])).unwrap();
    assert_eq!(dicts.len(), 2);
    assert_eq!(
        dicts.show_databases(),
        vec![
            ("web1913".to_string(), "Webster, revised".to_string()),
            ("wn".to_string(), "WordNet".to_string()),
        ]
    );
    assert_eq!(
        dicts.lookup_word(b"apple", b"web1913"),
        Ok(vec![pair("web1913 \"Webster, revised\"", "Revised")])
    );
    assert_eq!(dicts.lookup_word(b"pear", b"web1913"), Err(WordSearchError::WordNotFoundErr));
}

#[test]
fn only_frozen_dictionaries_are_registered() {
    let mut dicts = Dictionaries::new();
    let mut open = Dictionary::new_empty("open".to_string(), "Open".to_string());
    open.push_word(b"a", b"b").unwrap();
    assert_eq!(dicts.register(open), Err(RegisterError::NotFrozen));
    assert_eq!(dicts.len(), 0);
    assert_eq!(dicts.lookup_word(b"a", b"open"), Err(WordSearchError::DbNotFoundErr));
}

#[test]
fn what_was_stored_last_is_what_lookup_returns() {
    let entries = [("Apple", "first"), ("pear", "a fruit"), ("apple", "second"), ("plum", "")];
    let mut dicts = Dictionaries::new();
    dicts.register(dictionary("fruits", "Fruits", &entries)).unwrap();
    for (i, (word, text)) in entries.iter().enumerate() {
        let is_last = entries[i + 1..]
            .iter()
            .all(|(later, _)| later.to_ascii_lowercase() != word.to_ascii_lowercase());
        if is_last {
            assert_eq!(
                dicts.lookup_word(word.as_bytes(), b"fruits"),
                Ok(vec![pair("fruits \"Fruits\"", text)])
            );
        }
    }
    assert_eq!(dicts.lookup_word(b"APPLE", b"fruits"), Ok(vec![pair("fruits \"Fruits\"", "second")]));
}

#[test]
fn fallbacks_are_named_for_missing_words_only() {
    let mut with = dictionary("remote", "Remote", &[("apple", "local")]);
    with.set_fallback(Some(FallbackConfig::new("wn".to_string(), "dict.org".to_string(), 2628)));
    assert_eq!(with.fallback().map(|f| (f.db(), f.host(), f.port())), Some(("wn", "dict.org", 2628)));
    let mut dicts = two();
    dicts.register(with).unwrap();
    assert_eq!(dicts.fallback_targets(b"banana", b"*"), vec![2]);
    assert_eq!(dicts.fallback_targets(b"banana", b"remote"), vec![2]);
    assert_eq!(dicts.fallback_targets(b"apple", b"*"), Vec::<usize>::new());
    assert_eq!(dicts.fallback_targets(b"banana", b"wn"), Vec::<usize>::new());
    assert_eq!(dicts.fallback_targets(b"banana", b"nope"), Vec::<usize>::new());
}
