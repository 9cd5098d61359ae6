use phpp::autoload::de::{Cursor, Token};
use phpp::autoload::{FilesData, Psr4Data};

#[test]
fn de_it_works() {
    let mut cursor = Cursor::new("return array(");
    assert_eq!(cursor.advance(), Some(Token::Return));
    assert_eq!(cursor.advance(), Some(Token::Space));
    assert_eq!(cursor.advance(), Some(Token::ArrayStart));
    assert_eq!(cursor.advance(), None);

    let mut cursor = Cursor::new("'aaa\\bbb/ccc'return");
    assert_eq!(
        cursor.advance(),
        Some(Token::Literal("aaa\\bbb/ccc".to_string()))
    );
    assert_eq!(cursor.advance(), Some(Token::Return));

    let mut cursor = Cursor::new("$baseDir  ");
    assert_eq!(cursor.advance(), Some(Token::BaseDir));
    assert_eq!(cursor.advance(), Some(Token::Space));
    assert_eq!(cursor.advance(), None);

    let mut cursor = Cursor::new("$vendorDir  return");
    assert_eq!(cursor.advance(), Some(Token::VendorDir));
    assert_eq!(cursor.advance(), Some(Token::Space));
    assert_eq!(cursor.advance(), Some(Token::Return));

    let mut cursor = Cursor::new("$vendorDir . '/voku/portable-ascii/src/voku'");
    assert_eq!(cursor.advance(), Some(Token::VendorDir));
    assert_eq!(cursor.advance(), Some(Token::Space));
    assert_eq!(cursor.advance(), Some(Token::Dot));
    assert_eq!(cursor.advance(), Some(Token::Space));
    assert_eq!(
        cursor.advance(),
        Some(Token::Literal("/voku/portable-ascii/src/voku".to_string()))
    );
}

#[test]
fn test_parse_psr4() {
    let content = r#"return array(
        'voku\\' => array(
            $vendorDir . '/voku/portable-ascii/src/voku',
        ),
        'Webmozart\\Assert\\' => array(
            $baseDir . '/webmozart/assert/src',
            $vendorDir . '/webmozart/assert/src2',
        ),"#;
    let res = Psr4Data::parse(content);
    let entries = res.entries();
    assert_eq!(entries.len(), 2);
    assert_eq!(entries[0].0, "voku\\");
    assert_eq!(
        entries[0].1,
        vec![(true, "/voku/portable-ascii/src/voku".to_string())]
    );
    assert_eq!(entries[1].0, "Webmozart\\Assert\\");
    assert_eq!(
        entries[1].1,
        vec![
            (false, "/webmozart/assert/src".to_string()),
            (true, "/webmozart/assert/src2".to_string())
        ]
    );
}

#[test]
fn test_real_files_parse() {
    let files = FilesData::new(None);
    assert!(files.entries().is_empty());
}

#[test]
fn unclosed_literal_gives_no_token() {
    let mut cursor = Cursor::new("'abc def'");
    assert_eq!(cursor.advance(), None);
}

#[test]
fn arrow_and_separators() {
    let mut cursor = Cursor::new("=> , ) =x");
    assert_eq!(cursor.advance(), Some(Token::Arrow));
    assert_eq!(cursor.advance(), Some(Token::Space));
    assert_eq!(cursor.advance(), Some(Token::ArraySplit));
    assert_eq!(cursor.advance(), Some(Token::Space));
    assert_eq!(cursor.advance(), Some(Token::ArrayEnd));
    assert_eq!(cursor.advance(), Some(Token::Space));
    assert_eq!(cursor.advance(), Some(Token::Other));
    assert_eq!(cursor.advance(), Some(Token::Other));
    assert_eq!(cursor.advance(), None);
}

#[test]
fn files_map_parses_back() {
    let content = "<?php\n\n// autoload_files.php @generated by phpp\n\n$vendorDir = dirname(__DIR__);\n$baseDir = dirname($vendorDir);\n\nreturn array(\n    'abc123' => $vendorDir . '/foo/bar/src/helpers.php',\n    'def456' => $baseDir . '/boot.php',\n\n);";
    let files = FilesData::parse(content);
    let entries = files.entries();
    assert_eq!(
        entries,
        vec![
            (
                "abc123".to_string(),
                (true, "/foo/bar/src/helpers.php".to_string())
            ),
            ("def456".to_string(), (false, "/boot.php".to_string())),
        ]
    );
}
