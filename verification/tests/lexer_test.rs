use compiler::lexer::token::Token;
use compiler::lexer::{Error, Lexer, Position};

#[test]
fn tokenize() {
    let input = "  \n\tprogram;:=_aaa1_b0 vAr:VAR 1234567890 Var6".as_bytes();
    let mut lexer = Lexer::new(input).unwrap();

    assert_eq!(lexer.next_token().unwrap(), Some(Token::Program));
    assert_eq!(lexer.next_token().unwrap(), Some(Token::Semicolon));
    assert_eq!(lexer.next_token().unwrap(), Some(Token::Assign));
    assert_eq!(lexer.next_token().unwrap(), Some(Token::Id("_aaa1_b0".into())));
    assert_eq!(lexer.next_token().unwrap(), Some(Token::Id("vAr".into())));
    assert_eq!(lexer.next_token().unwrap(), Some(Token::Colon));
    assert_eq!(lexer.next_token().unwrap(), Some(Token::Var));
    assert_eq!(lexer.next_token().unwrap(), Some(Token::Number(1234567890)));
    assert_eq!(lexer.next_token().unwrap(), Some(Token::Id("Var6".into())));
    assert_eq!(lexer.next_token().unwrap(), None);
}

#[test]
fn non_ascii_is_invalid() {
    let input = "你好，世界。".as_bytes();
    let invalid_byte = input[0];

    let mut lexer = Lexer::new(input).unwrap();
    let result = lexer.next().unwrap();

    match result.unwrap_err() {
        Error::InvalidByte(byte, position) => {
            assert_eq!(byte, invalid_byte);
            assert_eq!(position, Position::new(1, 0));
        }
        _ => panic!(),
    }
}

#[test]
fn invalid_byte_position() {
    let input = "program\nprog\x01ram".as_bytes();
    let invalid_byte = b'\x01';
    let invalid_pos = Position::new(2, 4);

    let mut lexer = Lexer::new(input).unwrap();
    let result = lexer.nth(2).unwrap();

    match result.unwrap_err() {
        Error::InvalidByte(byte, position) => {
            assert_eq!(byte, invalid_byte);
            assert_eq!(position, invalid_pos);
        }
        _ => panic!(),
    }
}

#[test]
fn it_works() {
    let program = "program demo;\nvar a, b: integer;\nbegin\n  a := 10;\n  if a > (b + 2) then b := a - 1 else b := 0;\n  while b < 3 do b := b + 1\nend\n";
    let expected = "(1,_)\n(11,demo)\n(20,_)\n(4,_)\n(11,a)\n(21,_)\n(11,b)\n(22,_)\n(5,_)\n(20,_)\n(2,_)\n(11,a)\n(23,_)\n(12,10)\n(20,_)\n(6,_)\n(11,a)\n(18,_)\n(15,_)\n(11,b)\n(13,_)\n(12,2)\n(16,_)\n(7,_)\n(11,b)\n(23,_)\n(11,a)\n(14,_)\n(12,1)\n(8,_)\n(11,b)\n(23,_)\n(12,0)\n(20,_)\n(10,_)\n(11,b)\n(19,_)\n(12,3)\n(9,_)\n(11,b)\n(23,_)\n(11,b)\n(13,_)\n(12,1)\n(3,_)\n";
    let mut lexer = Lexer::new(program.as_bytes()).unwrap();
    let mut result = String::new();
    while let Some(x) = lexer.next() {
        result.push_str(&x.unwrap().to_string());
        result.push('\n');
    }
    assert_eq!(result, expected);
}

#[test]
fn equal_sign_and_colon_are_told_apart() {
    let mut lexer = Lexer::new(": = :=:".as_bytes()).unwrap();
    assert_eq!(lexer.next_token().unwrap(), Some(Token::Colon));
    assert_eq!(lexer.next_token().unwrap(), Some(Token::Equal));
    assert_eq!(lexer.next_token().unwrap(), Some(Token::Assign));
    assert_eq!(lexer.next_token().unwrap(), Some(Token::Colon));
    assert_eq!(lexer.next_token().unwrap(), None);
    assert_eq!(lexer.next_token().unwrap(), None);
}

#[test]
fn reserved_words_in_three_spellings() {
    let mut lexer = Lexer::new("begin Begin BEGIN bEGIN while While WHILE do DO then else end integer if".as_bytes()).unwrap();
    let expected = vec![
        Token::Begin,
        Token::Begin,
        Token::Begin,
        Token::Id("bEGIN".to_string()),
        Token::While,
        Token::While,
        Token::While,
        Token::Do,
        Token::Do,
        Token::Then,
        Token::Else,
        Token::End,
        Token::Integer,
        Token::If,
    ];
    for token in expected {
        assert_eq!(lexer.next_token().unwrap(), Some(token));
    }
    assert_eq!(lexer.next_token().unwrap(), None);
}

#[test]
fn number_beyond_32_bits_wraps_around() {
    let mut lexer = Lexer::new("4294967296 4294967301 007".as_bytes()).unwrap();
    assert_eq!(lexer.next_token().unwrap(), Some(Token::Number(0)));
    assert_eq!(lexer.next_token().unwrap(), Some(Token::Number(5)));
    assert_eq!(lexer.next_token().unwrap(), Some(Token::Number(7)));
}

#[test]
fn lexing_goes_on_after_an_invalid_byte() {
    let mut lexer = Lexer::new("a\n\n  *b".as_bytes()).unwrap();
    assert_eq!(lexer.next().unwrap().unwrap(), Token::Id("a".to_string()));
    match lexer.next().unwrap().unwrap_err() {
        Error::InvalidByte(byte, position) => {
            assert_eq!(byte, b'*');
            assert_eq!(position, Position::new(3, 2));
        }
        _ => panic!(),
    }
    assert_eq!(lexer.next().unwrap().unwrap(), Token::Id("b".to_string()));
    assert!(lexer.next().is_none());
    assert!(lexer.nth(5).is_none());
}

#[test]
fn token_text_and_serial_numbers() {
    assert_eq!(Token::Program.serial_id(), 1);
    assert_eq!(Token::While.serial_id(), 10);
    assert_eq!(Token::Id("x".to_string()).serial_id(), 11);
    assert_eq!(Token::Number(3).serial_id(), 12);
    assert_eq!(Token::Assign.serial_id(), 23);
    assert_eq!(Token::Id("count".to_string()).to_string(), "(11,count)");
    assert_eq!(Token::Number(4096).to_string(), "(12,4096)");
    assert_eq!(Token::Number(0).to_string(), "(12,0)");
    assert_eq!(Token::Semicolon.to_string(), "(20,_)");
}
