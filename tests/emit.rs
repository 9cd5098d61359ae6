use phpp::autoload::{FilesData, Psr4Data, StaticData};
use phpp::package::{Autoload, AutoloadEnum, ComposerLock, PsrValue, Version};

fn package(name: &str, psr4: Vec<(&str, &str)>, files: Vec<&str>) -> Version {
    Version {
        name: Some(name.to_string()),
        version: "1.0.0".to_string(),
        version_normalized: "1.0.0.0".to_string(),
        source: None,
        dist: None,
        require: None,
        require_dev: None,
        autoload: Some(AutoloadEnum::Psr(Autoload {
            psr4: Some(
                psr4.into_iter()
                    .map(|(k, v)| (k.to_string(), PsrValue::String(v.to_string())))
                    .collect(),
            ),
            psr0: None,
            classmap: None,
            files: if files.is_empty() {
                None
            } else {
                Some(files.into_iter().map(|f| f.to_string()).collect())
            },
        })),
    }
}

const PSR4_HEADER: &str = "<?php\n\n// autoload_psr4.php @generated by phpp\n\n$vendorDir = dirname(__DIR__);\n$baseDir = dirname($vendorDir);\n        \nreturn array(\n";

#[test]
fn psr4_file_is_sorted_by_prefix_descending() {
    let mut data = Psr4Data::empty();
    data.push_dir(&"A\\".to_string(), (true, "/a/a/src".to_string()), true);
    data.push_dir(&"A\\B\\".to_string(), (false, "/lib/".to_string()), true);
    data.push_dir(&"A\\".to_string(), (true, "/a/a/src".to_string()), true);
    data.push_dir(&"A\\".to_string(), (true, "/a/a/more".to_string()), true);
    let text = data.render();
    let expected = format!(
        "{}    'A\\\\B\\\\' => array(\n        $baseDir . '/lib',\n    ),\n    'A\\\\' => array(\n        $vendorDir . '/a/a/src',$vendorDir . '/a/a/more',\n    ),\n);",
        PSR4_HEADER
    );
    assert_eq!(text, expected);
}

#[test]
fn psr4_file_reads_back() {
    let mut data = Psr4Data::empty();
    data.push_dir(&"Foo\\Bar\\".to_string(), (true, "/foo/bar/src".to_string()), true);
    data.push_dir(&"Foo\\Bar\\".to_string(), (false, "/app".to_string()), true);
    data.push_dir(&"Zed\\".to_string(), (true, "/zed/zed/lib".to_string()), true);
    let back = Psr4Data::parse(&data.render());
    assert_eq!(
        back.entries(),
        vec![
            ("Zed\\".to_string(), vec![(true, "/zed/zed/lib".to_string())]),
            (
                "Foo\\Bar\\".to_string(),
                vec![
                    (true, "/foo/bar/src".to_string()),
                    (false, "/app".to_string())
                ]
            ),
        ]
    );
}

#[test]
fn lock_directories_are_merged() {
    let lock = ComposerLock {
        packages: vec![
            package("foo/bar", vec![("Foo\\", "src/")], vec!["src/helpers.php"]),
            package("baz/qux", vec![("Baz\\", ""), ("Foo\\", "extra")], vec![]),
        ],
    };
    let mut data = Psr4Data::empty();
    data.append_lock(&lock);
    data.append_lock(&lock);
    assert_eq!(
        data.entries(),
        vec![
            (
                "Foo\\".to_string(),
                vec![
                    (true, "/foo/bar/src".to_string()),
                    (true, "/baz/qux/extra".to_string())
                ]
            ),
            ("Baz\\".to_string(), vec![(true, "/baz/qux".to_string())]),
        ]
    );
}

#[test]
fn files_are_keyed_by_sha1() {
    let mut files = FilesData::empty();
    assert_eq!(files.insert(true, "abc".to_string()), None);
    assert_eq!(
        files.entries(),
        vec![(
            "a9993e364706816aba3e25717850c26c9cd0d89d".to_string(),
            (true, "abc".to_string())
        )]
    );
    assert_eq!(
        files.insert(false, "abc".to_string()),
        Some((true, "abc".to_string()))
    );
    assert_eq!(files.entries().len(), 1);
}

#[test]
fn files_file_and_static_sections() {
    let lock = ComposerLock {
        packages: vec![package("foo/bar", vec![("Foo\\", "src")], vec!["boot.php"])],
    };
    let mut files = FilesData::empty();
    files.append_lock(&lock);
    let entries = files.entries();
    assert_eq!(entries.len(), 1);
    let key = entries[0].0.clone();
    assert_eq!(key.len(), 40);
    assert_eq!(
        files.render(),
        format!(
            "<?php\n\n// autoload_files.php @generated by phpp\n\n$vendorDir = dirname(__DIR__);\n$baseDir = dirname($vendorDir);\n\nreturn array(\n    '{}' => $vendorDir . '/foo/bar/boot.php',\n\n);",
            key
        )
    );
    let mut psr4 = Psr4Data::empty();
    psr4.append_lock(&lock);
    psr4.push_dir(&"Foo\\Baz\\".to_string(), (false, "/lib".to_string()), true);
    psr4.push_dir(&"Bar\\".to_string(), (false, "/bar".to_string()), true);
    let data = StaticData::from(&files, &psr4);
    assert_eq!(
        data.files,
        format!("        '{}' => __DIR__ . '/..' . '/foo/bar/boot.php',\n", key)
    );
    assert_eq!(
        data.psr4_length,
        "        'F' => array (\n            'Foo\\\\' => 4,\n            'Foo\\\\Baz\\\\' => 8,\n        ),\n        'B' => array (\n            'Bar\\\\' => 4,\n        ),\n"
    );
    assert_eq!(
        data.psr4_dir,
        "        'Foo\\\\Baz\\\\' => array(\n            0=> __DIR__ . '/../..' . '/lib',\n        ),\n        'Foo\\\\' => array(\n            0=> __DIR__ . '/..' . '/foo/bar/src',\n        ),\n        'Bar\\\\' => array(\n            0=> __DIR__ . '/../..' . '/bar',\n        ),\n"
    );
    let filled = data.fill("A{{files}}B{{len}}C{{dir}}", "{{files}}", "{{len}}", "{{dir}}");
    assert_eq!(
        filled,
        format!("A{}B{}C{}", data.files, data.psr4_length, data.psr4_dir)
    );
}

#[test]
fn update_produces_all_three_texts() {
    let lock = ComposerLock {
        packages: vec![package("foo/bar", vec![("Foo\\", "src")], vec![])],
    };
    let (psr4, files, data) = lock.update_autoload_files(None, None);
    assert_eq!(psr4, lock.write_psr4(None));
    assert_eq!(files, lock.write_autoload_files(None));
    assert!(psr4.contains("'Foo\\\\' => array(\n        $vendorDir . '/foo/bar/src',"));
    assert_eq!(data.files, "");
    assert_eq!(
        data.psr4_dir,
        "        'Foo\\\\' => array(\n            0=> __DIR__ . '/..' . '/foo/bar/src',\n        ),\n"
    );
}

#[test]
fn list_valued_prefixes_add_each_directory() {
    let mut pkg = package("foo/bar", vec![], vec![]);
    if let Some(AutoloadEnum::Psr(auto)) = &mut pkg.autoload {
        auto.psr4 = Some(vec![(
            "Foo\\".to_string(),
            PsrValue::Array(vec!["src/".to_string(), "lib".to_string()]),
        )]);
    }
    let lock = ComposerLock { packages: vec![pkg] };
    let mut data = Psr4Data::empty();
    data.append_lock(&lock);
    assert!(data.is_wf());
    assert_eq!(
        data.entries(),
        vec![(
            "Foo\\".to_string(),
            vec![
                (true, "/foo/bar/src".to_string()),
                (true, "/foo/bar/lib".to_string())
            ]
        )]
    );
}
