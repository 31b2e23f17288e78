use dictd::config::{
    path_separator, stem_of, Config, DatabaseConfig, FallbackConfig, ServerConfig,
};

fn database(name: Option<&str>, short: Option<&str>, path: &str) -> DatabaseConfig {
    DatabaseConfig::new(name.map(str::to_string), short.map(str::to_string), path.to_string(), None)
}

#[test]
fn short_name_comes_from_the_file_name() {
    let sep = std::path::MAIN_SEPARATOR;
    let path = format!("{sep}data{sep}dicts{sep}web1913.dict.dz");
    let db = database(None, None, &path);
    assert_eq!(db.short_name(), "web1913");
    assert_eq!(db.name(), "web1913");
    assert_eq!(db.path(), path);
    assert!(db.fallback().is_none());
}

#[test]
fn configured_names_win() {
    let db = database(Some("Webster 1913"), Some("web"), "/data/web1913.dict");
    assert_eq!(db.short_name(), "web");
    assert_eq!(db.name(), "Webster 1913");
    let only_short = database(None, Some("web"), "/data/web1913.dict");
    assert_eq!(only_short.short_name(), "web");
    assert_eq!(only_short.name(), "web");
    let only_long = database(Some("Webster 1913"), None, "web1913.dict");
    assert_eq!(only_long.short_name(), "web1913");
    assert_eq!(only_long.name(), "Webster 1913");
}

#[test]
fn names_for_a_given_separator() {
    let db = database(None, None, "C:\\dicts\\rus_eng.dict.gz");
    assert_eq!(db.short_name_with('\\'), "rus_eng");
    assert_eq!(db.name_with('\\'), "rus_eng");
    assert_eq!(db.short_name_with('/'), "C:\\dicts\\rus_eng");
    let named = database(Some("Long"), Some("short"), "x/y.z");
    assert_eq!(named.short_name_with('/'), "short");
    assert_eq!(named.name_with('/'), "Long");
}

#[test]
fn stems() {
    assert_eq!(stem_of("/a/b/c.d.e", '/'), "c");
    assert_eq!(stem_of("c.d", '/'), "c");
    assert_eq!(stem_of("plain", '/'), "plain");
    assert_eq!(stem_of("/a.b/plain", '/'), "plain");
    assert_eq!(stem_of("/a/b/", '/'), "");
    assert_eq!(stem_of("/a/.hidden", '/'), "");
    assert_eq!(stem_of("", '/'), "");
    assert_eq!(stem_of("/słownik/źródło.dict", '/'), "źródło");
    assert_eq!(stem_of("a.b.c", '.'), "c");
}

#[test]
fn fallback_is_handed_out() {
    let fallback = FallbackConfig::new("wn".to_string(), "dict.org".to_string(), 2628);
    assert_eq!(fallback.db(), "wn");
    assert_eq!(fallback.host(), "dict.org");
    assert_eq!(fallback.port(), 2628);
    let db = DatabaseConfig::new(None, None, "a.dict".to_string(), Some(fallback));
    let f = db.fallback().unwrap();
    assert_eq!((f.db(), f.host(), f.port()), ("wn", "dict.org", 2628));
}

#[test]
fn configuration_hands_out_its_parts() {
    let config = Config::new(
        ServerConfig::new("127.0.0.1".to_string(), 2628),
        vec![database(None, None, "a.dict"), database(None, Some("b"), "x.dict")],
    );
    assert_eq!(config.host(), "127.0.0.1");
    assert_eq!(config.port(), 2628);
    assert_eq!(config.databases().len(), 2);
    assert_eq!(config.databases()[0].short_name(), "a");
    assert_eq!(config.databases()[1].short_name(), "b");
    let server = ServerConfig::new("localhost".to_string(), 1);
    assert_eq!((server.host(), server.port()), ("localhost", 1));
}

#[test]
fn a_path_that_ends_in_z_names_a_gzip_file() {
    assert!(database(None, None, "/data/web1913.dict.dz").is_gzip());
    assert!(database(None, None, "/data/rus_eng_full.dict.gz").is_gzip());
    assert!(database(None, None, "z").is_gzip());
    assert!(!database(None, None, "/data/web1913.dict").is_gzip());
    assert!(!database(None, None, "/data/web1913.dict.Z").is_gzip());
    assert!(!database(None, None, "").is_gzip());
}

#[test]
fn file_names_are_cut_at_the_separator_of_the_platform() {
    let sep = path_separator();
    assert!(sep == '/' || sep == '\\');
    if std::path::MAIN_SEPARATOR == '/' || std::path::MAIN_SEPARATOR == '\\' {
        assert_eq!(sep, std::path::MAIN_SEPARATOR);
    }
    let db = database(None, None, "dir/sub\\file.dict.dz");
    assert_eq!(db.short_name(), db.short_name_with(sep));
    assert_eq!(db.name(), db.name_with(sep));
    assert!(db.short_name() == "sub\\file" || db.short_name() == "file");
}
