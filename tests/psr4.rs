use phpp::psr4::de::{Cursor, Token};
use phpp::psr4::Psr4Data;

#[test]
fn it_works() {
    let mut cursor = Cursor::new("return array(");
    assert_eq!(cursor.advance(), Some(Token::Return));
    assert_eq!(cursor.advance(), Some(Token::Space));
    assert_eq!(cursor.advance(), Some(Token::ArrayStart));
    assert_eq!(cursor.advance(), None);

    let mut cursor = Cursor::new("'aaa\\bbb/ccc'return");
    assert_eq!(
        cursor.advance(),
        Some(Token::Literal("aaa\\bbb/ccc".to_string()))
    );
    assert_eq!(cursor.advance(), Some(Token::Return));

    let mut cursor = Cursor::new("$var  ");
    assert_eq!(cursor.advance(), Some(Token::Var));
    assert_eq!(cursor.advance(), Some(Token::Space));
    assert_eq!(cursor.advance(), None);

    let mut cursor = Cursor::new("$var  return");
    assert_eq!(cursor.advance(), Some(Token::Var));
    assert_eq!(cursor.advance(), Some(Token::Space));
    assert_eq!(cursor.advance(), Some(Token::Return));

    let mut cursor = Cursor::new("$vendorDir . '/voku/portable-ascii/src/voku'");
    assert_eq!(cursor.advance(), Some(Token::Var));
    assert_eq!(cursor.advance(), Some(Token::Space));
    assert_eq!(cursor.advance(), Some(Token::Dot));
    assert_eq!(cursor.advance(), Some(Token::Space));
    assert_eq!(
        cursor.advance(),
        Some(Token::Literal("/voku/portable-ascii/src/voku".to_string()))
    );
}

#[test]
fn plain_reader_keeps_directories() {
    let content = r#"return array(
        'voku\\' => array(
            $vendorDir . '/voku/portable-ascii/src/voku',
        ),
        'Webmozart\\Assert\\' => array(
            $vendorDir . '/webmozart/assert/src',
            $vendorDir . '/webmozart/assert/src2',
        ),"#;
    let data = Psr4Data::new(content);
    assert_eq!(
        data.entries(),
        vec![
            (
                "voku\\".to_string(),
                vec!["/voku/portable-ascii/src/voku".to_string()]
            ),
            (
                "Webmozart\\Assert\\".to_string(),
                vec![
                    "/webmozart/assert/src".to_string(),
                    "/webmozart/assert/src2".to_string()
                ]
            ),
        ]
    );
}

#[test]
fn variable_must_be_followed_by_space_or_paren() {
    let mut cursor = Cursor::new("$var,");
    assert_eq!(cursor.advance(), None);
    let mut cursor = Cursor::new("'a.b'");
    assert_eq!(cursor.advance(), None);
}
