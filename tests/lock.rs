use phpp::config::{GlobalConfig, Packagist, Repositories};
use phpp::error::ComposerError;
use phpp::json::Composer;
use phpp::package::{ComposerLock, Version, P2};
use phpp::search::Search;

fn named(name: &str, version: &str) -> Version {
    Version {
        name: Some(name.to_string()),
        version: version.to_string(),
        version_normalized: format!("{}.0", version),
        source: None,
        dist: None,
        require: None,
        require_dev: None,
        autoload: None,
    }
}

#[test]
fn deleted_packages_are_the_difference() {
    let old = ComposerLock {
        packages: vec![named("a/a", "1.0.0"), named("b/b", "1.0.0"), named("c/c", "1.0.0")],
    };
    let new = ComposerLock {
        packages: vec![named("b/b", "1.0.0")],
    };
    let mut gone = old.get_deleteing_packages(&new).unwrap();
    gone.sort();
    assert_eq!(gone, vec!["a/a".to_string(), "c/c".to_string()]);
    assert!(new.get_deleteing_packages(&old).unwrap().is_empty());
}

#[test]
fn find_version_by_name() {
    let lock = ComposerLock {
        packages: vec![named("a/a", "1.0.0"), named("b/b", "2.0.0")],
    };
    assert_eq!(lock.find_version("b/b").unwrap().version, "2.0.0");
    assert!(lock.find_version("c/c").is_none());
}

#[test]
fn cache_paths() {
    assert_eq!(
        P2::repo_dir_name("https://repo.packagist.org//p2/"),
        "https---repo.packagist.org--p2-"
    );
    assert_eq!(P2::repo_dir_name("http://localhost:8080"), "http---localhost-8080");
    assert_eq!(P2::provider_file_name("foo/bar"), "provider-foo-bar.json");
    assert_eq!(
        ComposerLock::archive_file_name("abc"),
        "a9993e364706816aba3e25717850c26c9cd0d89d.zip"
    );
}

#[test]
fn global_config_keys() {
    let mut config = GlobalConfig::empty();
    assert_eq!(
        config.set("repo.packagist", "composer", &Some("https://mirror".to_string())),
        Ok(())
    );
    let repo = config.repositories.as_ref().unwrap();
    assert_eq!(repo.packagist._type, "composer");
    assert_eq!(repo.packagist.url, "https://mirror");
    assert_eq!(config.set("repo.packagist", "composer", &None), Ok(()));
    assert!(config.repositories.is_some());
    assert_eq!(
        config.set("other.key", "x", &None),
        Err(ComposerError::UnknownConfigKey)
    );
    assert_eq!(config.unset("repo.packagist"), Ok(()));
    assert!(config.repositories.is_none());
    assert_eq!(config.unset("nope"), Err(ComposerError::UnknownConfigKey));
}

fn manifest() -> Composer {
    Composer {
        require: None,
        repositories: None,
        autoload: None,
    }
}

#[test]
fn manifest_requirements() {
    let mut composer = manifest();
    composer.insert("foo/bar", &None).unwrap();
    composer.insert("baz/qux", &Some("^1.0".to_string())).unwrap();
    composer.insert("last/one", &Some("2.0".to_string())).unwrap();
    composer.set_version("foo/bar", "1.2.3");
    composer.set_version("baz/qux", "1.5.0");
    assert_eq!(
        composer.requirements(),
        vec![
            ("foo/bar".to_string(), "1.2.3".to_string()),
            ("baz/qux".to_string(), "^1.0".to_string()),
            ("last/one".to_string(), "2.0".to_string()),
        ]
    );
    composer.only_remove("foo/bar");
    assert_eq!(
        composer.requirements(),
        vec![
            ("last/one".to_string(), "2.0".to_string()),
            ("baz/qux".to_string(), "^1.0".to_string()),
        ]
    );
    composer.insert("baz/qux", &Some("^2.0".to_string())).unwrap();
    assert_eq!(composer.requirements()[1].1, "^2.0");
}

#[test]
fn package_url_precedence() {
    let mut composer = manifest();
    let empty = GlobalConfig::empty();
    assert_eq!(
        composer.get_package_url(&empty).unwrap(),
        "https://repo.packagist.org//p2/"
    );
    let global = GlobalConfig {
        repositories: Some(Repositories {
            packagist: Packagist {
                _type: "composer".to_string(),
                url: "https://global".to_string(),
            },
        }),
    };
    assert_eq!(composer.get_package_url(&global).unwrap(), "https://global/p2/");
    composer
        .set(
            false,
            "repo.packagist",
            &Some("composer".to_string()),
            &Some("https://local".to_string()),
        )
        .unwrap();
    assert_eq!(composer.get_package_url(&global).unwrap(), "https://local/p2/");
    composer.set(true, "repo.packagist", &None, &None).unwrap();
    assert!(composer.repositories.is_none());
    assert_eq!(
        composer.set(false, "nope", &None, &None),
        Err(ComposerError::UnknownConfigKey)
    );
}

#[test]
fn diagnostics_stop_at_four() {
    let list: Vec<(String, String)> = (0..6)
        .map(|i| (format!("p/{}(1.0.0)", i), ">=9.0".to_string()))
        .collect();
    let lines = Composer::php_version_lines("root/pkg", "^1", &list);
    assert_eq!(lines.len(), 4);
    assert_eq!(lines[0], "root/pkg(^1) -> .. -> p/0(1.0.0) need PHP version is >=9.0");
    let ext = Composer::extension_lines("root/pkg", "*", &vec![("a/b(1.0)".to_string(), "intl".to_string())]);
    assert_eq!(
        ext,
        vec!["root/pkg(*) -> .. -> a/b(1.0) need ext-intl,it is missing from your system. Install or enable PHP's intl extension.".to_string()]
    );
}

#[test]
fn search_request_and_lines() {
    let search = Search::new("guzzle");
    assert_eq!(
        search.url(),
        "https://packagist.org/search.json?q=guzzle&per_page=15"
    );
    assert_eq!(
        Search::result_line("a/b", "desc", "https://x"),
        format!("\x1b]8;;https://x\x07{:30}\x1b]8;;\x07 desc", "a/b")
    );
}
