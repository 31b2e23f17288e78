use dictd::config::FallbackConfig;
use dictd::dictionary::{Dictionary, MatchStrategy};
use dictd::protocol::{
    answer, farewell_line, greeting_line, parse_command, parse_item, parse_request,
    parse_strategy, render_databases, render_definitions, render_matches, render_strategies,
    reply_define, reply_match, respond, upstream_for, Command, ItemToShow, Request,
    MAX_LINE_BYTES,
};
use dictd::registry::{Dictionaries, WordSearchError};

fn dictionary(short: &str, long: &str, entries: &[(&str, &str)]) -> Dictionary {
    let mut d = Dictionary::new_empty(short.to_string(), long.to_string());
    for (w, t) in entries {
        d.push_word(w.as_bytes(), t.as_bytes()).unwrap();
    }
    d.compress_dictionary().unwrap();
    d
}

fn two() -> Dictionaries {
    let mut dicts = Dictionaries::new();
    dicts
        .register(dictionary(
            "web1913",
            "Webster 1913",
            &[("apple", "A round fruit\nof the apple tree\n"), ("apply", "To put to use")],
        ))
        .unwrap();
    dicts.register(dictionary("wn", "WordNet", &[("apple", "a pome")])).unwrap();
    dicts
}

fn text(lines: &[Vec<u8>]) -> Vec<String> {
    lines.iter().map(|l| String::from_utf8(l.clone()).unwrap()).collect()
}

fn said(dicts: &Dictionaries, line: &str) -> (Vec<String>, bool) {
    let reply = respond(dicts, line.as_bytes());
    (text(&reply.lines), reply.close)
}

#[test]
fn verbs_are_recognized_in_any_case() {
    assert_eq!(parse_command(b"DEFINE"), Some(Command::Define));
    assert_eq!(parse_command(b"define"), Some(Command::Define));
    assert_eq!(parse_command(b"Match"), Some(Command::Match));
    assert_eq!(parse_command(b"show"), Some(Command::Show));
    assert_eq!(parse_command(b"CLIENT"), Some(Command::Client));
    assert_eq!(parse_command(b"STATUS"), Some(Command::Status));
    assert_eq!(parse_command(b"OPTION"), Some(Command::SetOption));
    assert_eq!(parse_command(b"AUTH"), Some(Command::Auth));
    assert_eq!(parse_command(b"SASLAUTH"), Some(Command::SaslAuth));
    assert_eq!(parse_command(b"SASLRESP"), Some(Command::SaslResp));
    assert_eq!(parse_command(b"quit"), Some(Command::Quit));
    assert_eq!(parse_command(b"HELP"), None);
    assert_eq!(parse_command(b""), None);
    assert_eq!(parse_command(b"DEFINES"), None);
    assert_eq!(parse_command(b"\"QUIT\""), None);
}

#[test]
fn items_and_strategies_are_recognized_in_any_case() {
    assert_eq!(parse_item(b"DB"), Some(ItemToShow::Databases));
    assert_eq!(parse_item(b"databases"), Some(ItemToShow::Databases));
    assert_eq!(parse_item(b"Strat"), Some(ItemToShow::Strategies));
    assert_eq!(parse_item(b"STRATEGIES"), Some(ItemToShow::Strategies));
    assert_eq!(parse_item(b"info"), Some(ItemToShow::Info));
    assert_eq!(parse_item(b"SERVER"), Some(ItemToShow::Server));
    assert_eq!(parse_item(b"client"), Some(ItemToShow::Client));
    assert_eq!(parse_item(b"DATABASE"), None);
    assert_eq!(parse_strategy(b"EXACT"), Some(MatchStrategy::Exact));
    assert_eq!(parse_strategy(b"prefix"), Some(MatchStrategy::Prefix));
    assert_eq!(parse_strategy(b"FUZZY"), None);
    assert_eq!(parse_strategy(b""), None);
}

#[test]
fn lines_become_requests() {
    match parse_request(b"DEFINE \"web1913\" 'Apple'  \r\n") {
        Request::Define { database, word } => {
            assert_eq!(database, b"web1913".to_vec());
            assert_eq!(word, b"Apple".to_vec());
        }
        other => panic!("{:?}", other),
    }
    match parse_request(b"match * \"prefix\" app extra words") {
        Request::Match { database, strategy, word } => {
            assert_eq!(database, b"*".to_vec());
            assert_eq!(strategy, MatchStrategy::Prefix);
            assert_eq!(word, b"app".to_vec());
        }
        other => panic!("{:?}", other),
    }
    assert!(matches!(parse_request(b"SHOW DB"), Request::ShowDatabases));
    assert!(matches!(parse_request(b"show \"databases\""), Request::ShowDatabases));
    assert!(matches!(parse_request(b"SHOW STRAT"), Request::ShowStrategies));
    assert!(matches!(parse_request(b"SHOW strategies"), Request::ShowStrategies));
    assert!(matches!(parse_request(b"QUIT"), Request::Quit));
    assert!(matches!(parse_request(b"quit now"), Request::Quit));
    assert!(matches!(parse_request(b"MATCH web1913 FUZZY app"), Request::UnknownStrategy));
    assert!(matches!(parse_request(b"DEFINE web1913"), Request::SyntaxError));
    assert!(matches!(parse_request(b"DEFINE"), Request::SyntaxError));
    assert!(matches!(parse_request(b"MATCH web1913 EXACT"), Request::SyntaxError));
    assert!(matches!(parse_request(b"SHOW"), Request::SyntaxError));
    assert!(matches!(parse_request(b"SHOW NONSENSE"), Request::SyntaxError));
    match parse_request(b"Show Info") {
        Request::Unimplemented { verb } => assert_eq!(verb, b"Show".to_vec()),
        other => panic!("{:?}", other),
    }
    match parse_request(b"auth user secret") {
        Request::Unimplemented { verb } => assert_eq!(verb, b"auth".to_vec()),
        other => panic!("{:?}", other),
    }
    match parse_request(b"HELP me") {
        Request::UnknownCommand { verb } => assert_eq!(verb, b"HELP".to_vec()),
        other => panic!("{:?}", other),
    }
    match parse_request(b"") {
        Request::UnknownCommand { verb } => assert_eq!(verb, Vec::<u8>::new()),
        other => panic!("{:?}", other),
    }
    match parse_request(b" QUIT") {
        Request::UnknownCommand { verb } => assert_eq!(verb, Vec::<u8>::new()),
        other => panic!("{:?}", other),
    }
    match parse_request(b"CLIENT kdict 0.1 on Linux ") {
        Request::Client { identity } => assert_eq!(identity, b"kdict 0.1 on Linux".to_vec()),
        other => panic!("{:?}", other),
    }
    match parse_request(b"CLIENT") {
        Request::Client { identity } => assert_eq!(identity, Vec::<u8>::new()),
        other => panic!("{:?}", other),
    }
}

#[test]
fn definitions_are_rendered_with_cr_lf_inside() {
    let dicts = two();
    assert_eq!(
        said(&dicts, "DEFINE * Apple"),
        (
            vec![
                "150 2 definitions retrieved".to_string(),
                "151 \"Apple\" web1913 \"Webster 1913\"".to_string(),
                "A round fruit\r\nof the apple tree\r\n".to_string(),
                ".".to_string(),
                "151 \"Apple\" wn \"WordNet\"".to_string(),
                "a pome".to_string(),
                ".".to_string(),
                "250 ok".to_string(),
            ],
            false
        )
    );
}

#[test]
fn matches_are_rendered_one_per_line() {
    let dicts = two();
    assert_eq!(
        said(&dicts, "MATCH all prefix app"),
        (
            vec![
                "152 2 matches found".to_string(),
                "web1913 \"apple\"".to_string(),
                "wn \"apple\"".to_string(),
                ".".to_string(),
                "250 ok".to_string(),
            ],
            false
        )
    );
    assert_eq!(
        said(&dicts, "MATCH web1913 exact APPLY"),
        (
            vec![
                "152 1 matches found".to_string(),
                "web1913 \"apply\"".to_string(),
                ".".to_string(),
                "250 ok".to_string(),
            ],
            false
        )
    );
    assert_eq!(said(&dicts, "MATCH wn exact apply"), (vec!["552 No match".to_string()], false));
    assert_eq!(
        said(&dicts, "MATCH nope exact apply"),
        (vec!["550 invalid database, use SHOW DB for list".to_string()], true)
    );
}

#[test]
fn listings() {
    let dicts = two();
    assert_eq!(
        said(&dicts, "SHOW DATABASES"),
        (
            vec![
                "110 2 databases present".to_string(),
                "web1913 \"Webster 1913\"".to_string(),
                "wn \"WordNet\"".to_string(),
                "all \"All databases\"".to_string(),
                ".".to_string(),
                "250 ok".to_string(),
            ],
            false
        )
    );
    assert_eq!(
        said(&dicts, "SHOW STRAT"),
        (
            vec![
                "111 2 strategies present".to_string(),
                "EXACT \"Match headwords exactly\"".to_string(),
                "PREFIX \"Match prefixes\"".to_string(),
                ".".to_string(),
                "250 ok".to_string(),
            ],
            false
        )
    );
    assert_eq!(
        said(&Dictionaries::new(), "show db"),
        (
            vec![
                "110 0 databases present".to_string(),
                "all \"All databases\"".to_string(),
                ".".to_string(),
                "250 ok".to_string(),
            ],
            false
        )
    );
    assert_eq!(text(&render_databases(&dicts)), said(&dicts, "SHOW DB").0);
    assert_eq!(text(&render_strategies()), said(&dicts, "SHOW STRATEGIES").0);
}

#[test]
fn errors_close_the_session() {
    let dicts = two();
    assert_eq!(said(&dicts, "HELP"), (vec!["500 Unknown command 'HELP'".to_string()], true));
    assert_eq!(said(&dicts, ""), (vec!["500 Unknown command ''".to_string()], true));
    assert_eq!(
        said(&dicts, "SHOW NONSENSE"),
        (vec!["501 syntax error, illegal parameters".to_string()], true)
    );
    assert_eq!(
        said(&dicts, "DEFINE web1913"),
        (vec!["501 syntax error, illegal parameters".to_string()], true)
    );
    assert_eq!(said(&dicts, "show server"), (vec!["502 'show' unimplemented".to_string()], true));
    assert_eq!(said(&dicts, "STATUS"), (vec!["502 'STATUS' unimplemented".to_string()], true));
    assert_eq!(said(&dicts, "option mime"), (vec!["502 'option' unimplemented".to_string()], true));
    assert_eq!(
        said(&dicts, "MATCH web1913 soundex app"),
        (vec!["551 invalid strategy, use SHOW STRAT for list".to_string()], true)
    );
    assert_eq!(said(&dicts, "QUIT"), (Vec::<String>::new(), true));
    assert_eq!(said(&dicts, "CLIENT me"), (vec!["250 ok".to_string()], false));
}

#[test]
fn replies_follow_from_what_the_registry_answered() {
    let found = vec![(b"d \"D\"".to_vec(), b"one\ntwo".to_vec())];
    let reply = reply_define(b"w", &Ok(found.clone()));
    assert_eq!(
        text(&reply.lines),
        vec!["150 1 definitions retrieved", "151 \"w\" d \"D\"", "one\r\ntwo", ".", "250 ok"]
    );
    assert!(!reply.close);
    assert_eq!(text(&render_definitions(b"w", &found)), text(&reply.lines));
    let reply = reply_define(b"w", &Err(WordSearchError::DbNotFoundErr));
    assert_eq!(text(&reply.lines), vec!["550 invalid database, use SHOW DB for list"]);
    assert!(reply.close);
    let reply = reply_define(b"w", &Err(WordSearchError::WordNotFoundErr));
    assert_eq!(text(&reply.lines), vec!["552 No match"]);
    assert!(!reply.close);
    let heads = vec![(b"d".to_vec(), b"word".to_vec()), (b"e".to_vec(), b"wording".to_vec())];
    let reply = reply_match(&Ok(heads.clone()));
    assert_eq!(
        text(&reply.lines),
        vec!["152 2 matches found", "d \"word\"", "e \"wording\"", ".", "250 ok"]
    );
    assert_eq!(text(&render_matches(&heads)), text(&reply.lines));
    assert!(reply_match(&Err(WordSearchError::DbNotFoundErr)).close);
    assert!(!reply_match(&Err(WordSearchError::WordNotFoundErr)).close);
    let many: Vec<(Vec<u8>, Vec<u8>)> = (0..12).map(|i| (b"d".to_vec(), vec![b'a' + i])).collect();
    assert_eq!(text(&render_matches(&many))[0], "152 12 matches found");
}

#[test]
fn answer_serves_a_parsed_request() {
    let dicts = two();
    let request = Request::Define { database: b"wn".to_vec(), word: b"apple".to_vec() };
    let reply = answer(&dicts, &request);
    assert_eq!(
        text(&reply.lines),
        vec!["150 1 definitions retrieved", "151 \"apple\" wn \"WordNet\"", "a pome", ".", "250 ok"]
    );
}

#[test]
fn fixed_lines() {
    assert_eq!(greeting_line(), b"220 dict 0.1.0".to_vec());
    assert_eq!(farewell_line(), b"221 bye".to_vec());
    assert_eq!(MAX_LINE_BYTES, 1024);
}

#[test]
fn upstream_servers_are_offered_when_nothing_is_found() {
    let mut remote = dictionary("remote", "Remote", &[("apple", "local")]);
    remote.set_fallback(Some(FallbackConfig::new("wn".to_string(), "dict.org".to_string(), 2628)));
    let mut dicts = two();
    dicts.register(remote).unwrap();
    let ask = |line: &str| {
        upstream_for(&dicts, &parse_request(line.as_bytes()))
            .into_iter()
            .map(|u| (u.host, u.port, String::from_utf8(u.command).unwrap()))
            .collect::<Vec<_>>()
    };
    assert_eq!(
        ask("DEFINE remote banana"),
        vec![("dict.org".to_string(), 2628, "DEFINE wn banana\n".to_string())]
    );
    assert_eq!(
        ask("DEFINE * banana"),
        vec![("dict.org".to_string(), 2628, "DEFINE wn banana\n".to_string())]
    );
    assert!(ask("DEFINE remote apple").is_empty());
    assert!(ask("DEFINE * apply").is_empty());
    assert!(ask("DEFINE wn banana").is_empty());
    assert!(ask("DEFINE nope banana").is_empty());
    assert!(ask("MATCH remote exact banana").is_empty());
    assert!(ask("QUIT").is_empty());
}

#[test]
fn matches_come_back_as_they_were_stored() {
    let mut dicts = Dictionaries::new();
    dicts.register(dictionary("names", "Names", &[("Paris", "a city"), ("PARIS Hilton", "x")])).unwrap();
    assert_eq!(
        said(&dicts, "MATCH names prefix par"),
        (
            vec![
                "152 1 matches found".to_string(),
                "names \"Paris\"".to_string(),
                ".".to_string(),
                "250 ok".to_string(),
            ],
            false
        )
    );
    assert_eq!(
        said(&dicts, "MATCH names exact paris"),
        (
            vec![
                "152 1 matches found".to_string(),
                "names \"Paris\"".to_string(),
                ".".to_string(),
                "250 ok".to_string(),
            ],
            false
        )
    );
    assert_eq!(
        said(&dicts, "DEFINE names PARIS"),
        (
            vec![
                "150 1 definitions retrieved".to_string(),
                "151 \"PARIS\" names \"Names\"".to_string(),
                "a city".to_string(),
                ".".to_string(),
                "250 ok".to_string(),
            ],
            false
        )
    );
}
