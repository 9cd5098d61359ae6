use phpp::error::ComposerError;
use phpp::io::ErrWriter;
use phpp::json::Composer;
use phpp::package::{ComposerLock, Context, Require, Version, P2};

#[derive(Debug, Default)]
struct TestWriter {
    buffer: Vec<u8>,
}

impl TestWriter {
    fn output(&self) -> String {
        String::from_utf8(self.buffer.clone()).unwrap()
    }
}

impl ErrWriter for TestWriter {
    fn write(&mut self, s: &str) {
        self.buffer.extend_from_slice(s.as_bytes());
    }
}

fn record(name: &str, version: &str, normalized: &str, require: &[(&str, &str)]) -> Version {
    Version {
        name: Some(name.to_string()),
        version: version.to_string(),
        version_normalized: normalized.to_string(),
        source: None,
        dist: None,
        require: if require.is_empty() {
            None
        } else {
            Some(Require::Entries(
                require
                    .iter()
                    .map(|(n, c)| (n.to_string(), c.to_string()))
                    .collect(),
            ))
        },
        require_dev: None,
        autoload: None,
    }
}

/// A registry that serves each package's answer from memory.
struct Registry {
    answers: Vec<(String, Vec<Version>)>,
    asked: Vec<String>,
}

impl Registry {
    fn new() -> Self {
        Registry {
            answers: Vec::new(),
            asked: Vec::new(),
        }
    }

    fn serve(&mut self, name: &str, records: Vec<Version>) {
        self.answers.push((name.to_string(), records));
    }

    fn fetch(&mut self, name: &str) -> Option<P2> {
        self.asked.push(name.to_string());
        for (n, records) in self.answers.iter() {
            if n == name {
                let copies = records
                    .iter()
                    .map(|r| {
                        let require = match &r.require {
                            Some(Require::Entries(e)) => Some(Require::Entries(e.clone())),
                            Some(Require::String(s)) => Some(Require::String(s.clone())),
                            None => None,
                        };
                        Version {
                            name: r.name.clone(),
                            version: r.version.clone(),
                            version_normalized: r.version_normalized.clone(),
                            source: None,
                            dist: None,
                            require,
                            require_dev: None,
                            autoload: None,
                        }
                    })
                    .collect();
                return Some(P2 {
                    packages: vec![(name.to_string(), copies)],
                });
            }
        }
        None
    }
}

fn context(php: &str, modules: &str) -> Context {
    Context::new(&format!("PHP {} (cli) (built: May  1 2024)", php), modules).unwrap()
}

/// Resolves each requirement as the install command does and returns the lock.
fn get_lock(
    require: &[(&str, &str)],
    registry: &mut Registry,
    mut ctx: Context,
    stderr: &mut TestWriter,
) -> Result<(ComposerLock, Vec<Option<String>>), ComposerError> {
    let mut pins = Vec::new();
    for (name, version) in require {
        let constraint = if *version == "*" {
            None
        } else {
            Some(version.to_string())
        };
        ctx.push_root(name.to_string(), constraint);
        while let Some(next) = ctx.next_fetch()? {
            let meta = registry.fetch(&next);
            ctx.on_metadata(meta)?;
        }
        pins.push(ctx.first_package.clone());
        Composer::eprint_php_version(name, version, &ctx.php_version_error, stderr)?;
        Composer::eprint_extensions(name, version, &ctx.php_extensions_error, stderr)?;
    }
    Ok((ComposerLock::new(ctx), pins))
}

#[test]
fn simple() {
    let mut registry = Registry::new();
    registry.serve("foo/bar", vec![record("foo/bar", "1.2.3", "1.2.3.0", &[])]);
    let mut stderr = TestWriter::default();
    let (lock, _) = get_lock(
        &[("foo/bar", "1.2.3")],
        &mut registry,
        context("8.2.0", ""),
        &mut stderr,
    )
    .unwrap();
    assert_eq!(registry.asked, vec!["foo/bar".to_string()]);
    assert_eq!(lock.packages.len(), 1);
    let version = &lock.packages[0];
    assert_eq!(version.version, "1.2.3".to_owned());
    assert_eq!(version.name, Some("foo/bar".to_string()));
    assert!(stderr.output().is_empty())
}

#[test]
fn one_depend() {
    let mut registry = Registry::new();
    registry.serve(
        "foo/bar",
        vec![record("foo/bar", "1.2.3", "1.2.3.0", &[("foo2/bar2", "2.3.0")])],
    );
    registry.serve("foo2/bar2", vec![record("foo/bar", "2.3.0", "2.3.0.0", &[])]);
    let mut stderr = TestWriter::default();
    let (lock, _) = get_lock(
        &[("foo/bar", "1.2.3")],
        &mut registry,
        context("8.2.0", ""),
        &mut stderr,
    )
    .unwrap();
    assert_eq!(
        registry.asked,
        vec!["foo/bar".to_string(), "foo2/bar2".to_string()]
    );
    assert_eq!(lock.packages.len(), 2);
    let version = &lock.packages[0];
    assert_eq!(version.version, "1.2.3".to_owned());
    let bar2_version = &lock.packages[1];
    assert_eq!(bar2_version.version, "2.3.0".to_owned());
    assert_eq!(bar2_version.name, Some("foo2/bar2".to_string()));
    assert!(stderr.output().is_empty())
}

#[test]
fn last_stable() {
    let mut registry = Registry::new();
    registry.serve(
        "foo/bar",
        vec![
            record("foo/bar", "1.3.0-rc1", "1.3.0.1", &[]),
            record("foo/bar", "1.2.3", "1.2.3.0", &[]),
        ],
    );
    let mut stderr = TestWriter::default();
    let (lock, pins) = get_lock(
        &[("foo/bar", "*")],
        &mut registry,
        context("8.2.0", ""),
        &mut stderr,
    )
    .unwrap();
    let version = &lock.packages[0];
    assert_eq!(version.version, "1.2.3".to_owned());
    assert_eq!(pins, vec![Some("1.2.3".to_string())]);
    assert!(stderr.output().is_empty())
}

#[test]
fn php_version() {
    let mut registry = Registry::new();
    registry.serve(
        "foo/bar",
        vec![
            record("foo/bar", "1.2.3", "1.2.3.0", &[("php", ">=8.3.0")]),
            record("foo/bar", "1.1.0", "1.1.0.0", &[("php", ">=8.0.0")]),
        ],
    );
    let mut stderr = TestWriter::default();
    let mut ctx = context("8.1.0", "");
    ctx.php_version = "8.2.0".to_owned();
    let error = get_lock(&[("foo/bar", "*")], &mut registry, ctx, &mut stderr).unwrap_err();
    assert!(matches!(error, ComposerError::PhpVersion));
    assert_eq!(
        stderr.output(),
        "foo/bar(*) -> .. -> foo/bar(1.2.3) need PHP version is >=8.3.0"
    );
}

#[test]
fn php_extensions() {
    let mut registry = Registry::new();
    registry.serve(
        "foo/bar",
        vec![record("foo/bar", "1.2.3", "1.2.3.0", &[("ext-dom", "*")])],
    );
    let mut stderr = TestWriter::default();
    let mut ctx = context("8.2.0", "Core\ndom\n");
    ctx.php_extensions = vec![];
    let error = get_lock(&[("foo/bar", "*")], &mut registry, ctx, &mut stderr).unwrap_err();
    assert!(matches!(error, ComposerError::PhpVersion));
    assert_eq!(
        stderr.output(),
        "foo/bar(*) -> .. -> foo/bar(1.2.3) need ext-dom,it is missing from your system. Install or enable PHP's dom extension."
    );
}

#[test]
fn extension_present_is_no_violation() {
    let mut registry = Registry::new();
    registry.serve(
        "foo/bar",
        vec![record("foo/bar", "1.2.3", "1.2.3.0", &[("ext-dom", "*")])],
    );
    let mut stderr = TestWriter::default();
    let (lock, _) = get_lock(
        &[("foo/bar", "*")],
        &mut registry,
        context("8.2.0", "Core\ndom\n"),
        &mut stderr,
    )
    .unwrap();
    assert_eq!(lock.packages.len(), 1);
    assert!(stderr.output().is_empty());
}

#[test]
fn auto_choise_version() {
    let mut registry = Registry::new();
    registry.serve(
        "foo/bar",
        vec![
            record("foo/bar", "2.2.3", "2.2.3.0", &[]),
            record("foo/bar", "1.2.3", "1.2.3.0", &[]),
        ],
    );
    let mut stderr = TestWriter::default();
    let (lock, _) = get_lock(
        &[("foo/bar", "^1")],
        &mut registry,
        context("8.2.0", ""),
        &mut stderr,
    )
    .unwrap();
    assert_eq!(lock.packages.len(), 1);
    let version = &lock.packages[0];
    assert_eq!(version.version, "1.2.3".to_owned());
    assert!(stderr.output().is_empty())
}

#[test]
fn cycles_and_repeats_lock_each_name_once() {
    let mut registry = Registry::new();
    registry.serve(
        "a/a",
        vec![record("a/a", "1.0.0", "1.0.0.0", &[("b/b", "^1"), ("c/c", "^1")])],
    );
    registry.serve(
        "b/b",
        vec![record("b/b", "1.0.0", "1.0.0.0", &[("a/a", "^1"), ("c/c", "^1")])],
    );
    registry.serve("c/c", vec![record("c/c", "1.1.0", "1.1.0.0", &[])]);
    let mut stderr = TestWriter::default();
    let (lock, _) = get_lock(
        &[("a/a", "^1"), ("c/c", "*")],
        &mut registry,
        context("8.2.0", ""),
        &mut stderr,
    )
    .unwrap();
    let names: Vec<String> = lock
        .packages
        .iter()
        .map(|p| p.name.clone().unwrap())
        .collect();
    assert_eq!(names, vec!["a/a", "b/b", "c/c"]);
    assert_eq!(registry.asked, vec!["a/a", "b/b", "c/c"]);
}

#[test]
fn missing_dependency_is_left_out() {
    let mut registry = Registry::new();
    registry.serve(
        "foo/bar",
        vec![record("foo/bar", "1.2.3", "1.2.3.0", &[("gone/away", "^1")])],
    );
    let mut stderr = TestWriter::default();
    let (lock, _) = get_lock(
        &[("foo/bar", "*")],
        &mut registry,
        context("8.2.0", ""),
        &mut stderr,
    )
    .unwrap();
    assert_eq!(lock.packages.len(), 1);
}

#[test]
fn answer_without_the_package_is_malformed() {
    let mut ctx = context("8.2.0", "");
    ctx.push_root("foo/bar".to_string(), None);
    assert_eq!(ctx.next_fetch(), Ok(Some("foo/bar".to_string())));
    let meta = P2 {
        packages: vec![(
            "other/pkg".to_string(),
            vec![record("other/pkg", "1.0.0", "1.0.0.0", &[])],
        )],
    };
    assert_eq!(ctx.on_metadata(Some(meta)), Err(ComposerError::MalformedMetadata));
}

#[test]
fn empty_answer_is_malformed() {
    let list: Vec<Version> = Vec::new();
    assert_eq!(
        P2::select_version("foo/bar", &list, &None),
        Err(ComposerError::MalformedMetadata)
    );
}

#[test]
fn no_match_is_an_error() {
    let list = vec![
        record("foo/bar", "2.2.3", "2.2.3.0", &[]),
        record("foo/bar", "1.2.3", "1.2.3.0", &[]),
    ];
    assert_eq!(
        P2::select_version("foo/bar", &list, &Some("^3".to_string())),
        Err(ComposerError::NoMatchingVersion)
    );
    let unstable = vec![record("foo/bar", "1.3.0-rc1", "1.3.0.1", &[])];
    assert_eq!(
        P2::select_version("foo/bar", &unstable, &None),
        Err(ComposerError::NoMatchingVersion)
    );
    assert_eq!(
        P2::select_version("foo/bar", &list, &Some("^1".to_string())),
        Ok(1)
    );
}

#[test]
fn locking_line_is_reported() {
    let mut registry = Registry::new();
    registry.serve("foo/bar", vec![record("foo/bar", "1.2.3", "1.2.3.0", &[])]);
    let mut ctx = context("8.2.0", "");
    ctx.push_root("foo/bar".to_string(), Some("^1.2".to_string()));
    let next = ctx.next_fetch().unwrap().unwrap();
    let line = ctx.on_metadata(registry.fetch(&next)).unwrap();
    assert_eq!(line, Some("  - Locking foo/bar(1.2.3)".to_string()));
    assert_eq!(ctx.next_fetch(), Ok(None));
}

#[test]
fn runtime_probes_are_read() {
    let ctx = Context::new(
        "PHP 8.1.2-1ubuntu2.17 (cli) (built: May  1 2024 10:10:07) (NTS)",
        "[PHP Modules]\r\nCore\ndate\n",
    )
    .unwrap();
    assert_eq!(ctx.php_version, "8.1.2");
    assert_eq!(ctx.php_extensions, vec!["[PHP Modules]", "Core", "date"]);
    assert!(ctx.exists_extension("date"));
    assert!(!ctx.exists_extension("dom"));
    assert!(matches!(
        Context::new("no version here", ""),
        Err(ComposerError::GetPhpVersionFailed)
    ));
}

#[test]
fn unmatched_dependency_fails_resolution() {
    let mut registry = Registry::new();
    registry.serve(
        "foo/bar",
        vec![record("foo/bar", "1.2.3", "1.2.3.0", &[("dep/one", "^5")])],
    );
    registry.serve("dep/one", vec![record("dep/one", "1.0.0", "1.0.0.0", &[])]);
    let mut stderr = TestWriter::default();
    let error = get_lock(
        &[("foo/bar", "*")],
        &mut registry,
        context("8.2.0", ""),
        &mut stderr,
    )
    .unwrap_err();
    assert_eq!(error, ComposerError::NoMatchingVersion);
}

#[test]
fn requirements_are_visited_in_declared_order() {
    let mut registry = Registry::new();
    registry.serve(
        "root/pkg",
        vec![record(
            "root/pkg",
            "1.0.0",
            "1.0.0.0",
            &[("z/z", "^1"), ("php", ">=7.0"), ("a/a", "^1"), ("ext-json", "*")],
        )],
    );
    registry.serve("z/z", vec![record("z/z", "1.0.0", "1.0.0.0", &[])]);
    registry.serve("a/a", vec![record("a/a", "1.0.0", "1.0.0.0", &[])]);
    let mut stderr = TestWriter::default();
    let (lock, _) = get_lock(
        &[("root/pkg", "*")],
        &mut registry,
        context("8.2.0", "json\n"),
        &mut stderr,
    )
    .unwrap();
    assert_eq!(registry.asked, vec!["root/pkg", "z/z", "a/a"]);
    assert_eq!(lock.packages.len(), 3);
}
