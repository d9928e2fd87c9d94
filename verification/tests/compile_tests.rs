use blohai::codegen::CodeGenError;
use blohai::lex::{LexError, Operator, Token};
use blohai::parse::ParseError;
use blohai::symbols::DuplicateDeclarationError;
use blohai::{compile, compile_with_entry, CompileError};

const PREFIX: [u8; 31] = [
    0x00, 0x61, 0x73, 0x6d, 0x01, 0x00, 0x00, 0x00, 0x01, 0x05, 0x01, 0x60, 0x00, 0x01, 0x7f, 0x03,
    0x02, 0x01, 0x00, 0x07, 0x0a, 0x01, 0x06, 0x5f, 0x73, 0x74, 0x61, 0x72, 0x74, 0x00, 0x00,
];

fn module_with_code_section(code_section: &[u8]) -> Vec<u8> {
    let mut bytes = PREFIX.to_vec();
    bytes.extend_from_slice(code_section);
    bytes
}

#[test]
fn compiles_a_number_literal() {
    assert_eq!(
        compile("7;"),
        Ok(module_with_code_section(&[0x0a, 0x07, 0x01, 0x05, 0x00, 0x41, 0x07, 0x0f, 0x0b]))
    );
}

#[test]
fn compiles_number_literals_of_every_size() {
    assert_eq!(
        compile("0;"),
        Ok(module_with_code_section(&[0x0a, 0x07, 0x01, 0x05, 0x00, 0x41, 0x00, 0x0f, 0x0b]))
    );
    assert_eq!(
        compile("-1;"),
        Ok(module_with_code_section(&[0x0a, 0x07, 0x01, 0x05, 0x00, 0x41, 0x7f, 0x0f, 0x0b]))
    );
    assert_eq!(
        compile("200;"),
        Ok(module_with_code_section(&[0x0a, 0x08, 0x01, 0x06, 0x00, 0x41, 0xc8, 0x01, 0x0f, 0x0b]))
    );
    assert_eq!(
        compile("2147483647;"),
        Ok(module_with_code_section(&[
            0x0a, 0x0b, 0x01, 0x09, 0x00, 0x41, 0xff, 0xff, 0xff, 0xff, 0x07, 0x0f, 0x0b,
        ]))
    );
    assert_eq!(
        compile("-2147483648;"),
        Ok(module_with_code_section(&[
            0x0a, 0x0b, 0x01, 0x09, 0x00, 0x41, 0x80, 0x80, 0x80, 0x80, 0x78, 0x0f, 0x0b,
        ]))
    );
}

#[test]
fn compiles_a_parenthesised_sum() {
    assert_eq!(
        compile("(3 + 4);"),
        Ok(module_with_code_section(&[
            0x0a, 0x0a, 0x01, 0x08, 0x00, 0x41, 0x03, 0x41, 0x04, 0x6a, 0x0f, 0x0b,
        ]))
    );
}

#[test]
fn compiles_nested_operations() {
    assert_eq!(
        compile("(3 * (4 - 1));"),
        Ok(module_with_code_section(&[
            0x0a, 0x0d, 0x01, 0x0b, 0x00, 0x41, 0x03, 0x41, 0x04, 0x41, 0x01, 0x6b, 0x6c, 0x0f,
            0x0b,
        ]))
    );
}

#[test]
fn compiles_declarations_and_their_use() {
    assert_eq!(
        compile("var x = 5; var y; (x / y);"),
        Ok(module_with_code_section(&[
            0x0a, 0x10, 0x01, 0x0e, 0x01, 0x02, 0x7f, 0x41, 0x05, 0x21, 0x00, 0x20, 0x00, 0x20,
            0x01, 0x6d, 0x0f, 0x0b,
        ]))
    );
}

#[test]
fn layout_of_the_text_does_not_matter() {
    let plain = compile("var x=2;(x*3);");
    assert!(plain.is_ok());
    assert_eq!(compile("  var x = 2 ;\n\t( x * 3 ) ;\r\n"), plain);
}

#[test]
fn empty_text_compiles_to_the_header() {
    assert_eq!(compile(""), Ok(vec![0x00, 0x61, 0x73, 0x6d, 0x01, 0x00, 0x00, 0x00]));
    assert_eq!(compile(" \n"), Ok(vec![0x00, 0x61, 0x73, 0x6d, 0x01, 0x00, 0x00, 0x00]));
}

#[test]
fn compiling_twice_gives_the_same_bytes() {
    let source = "var a = 1; var b = (a + 41); (b * 2 - a / 3);";
    let first = compile(source);
    let second = compile(source);
    assert!(first.is_ok());
    assert_eq!(first, second);
    let broken = "var a; (a + unknown);";
    assert_eq!(compile(broken), compile(broken));
}

#[test]
fn duplicate_declaration_fails_first() {
    assert_eq!(
        compile("var x; var x;"),
        Err(CompileError::DuplicateDeclaration(DuplicateDeclarationError { name: String::from("x") }))
    );
    assert_eq!(
        compile("var x; @ ) var x;"),
        Err(CompileError::DuplicateDeclaration(DuplicateDeclarationError { name: String::from("x") }))
    );
}

#[test]
fn undeclared_name_is_a_lexical_error() {
    assert_eq!(
        compile("(x + 1);"),
        Err(CompileError::Lex(LexError::UnknownSymbol { text: String::from("x") }))
    );
}

#[test]
fn strange_character_is_a_lexical_error() {
    assert_eq!(
        compile("(3 $ 4);"),
        Err(CompileError::Lex(LexError::UnrecognizedToken { text: String::from("$"), position: 3 }))
    );
    assert_eq!(
        compile(") ( 3.5"),
        Err(CompileError::Lex(LexError::UnrecognizedToken { text: String::from("."), position: 5 }))
    );
}

#[test]
fn missing_operand_is_a_syntax_error() {
    assert_eq!(
        compile("(3 + ;"),
        Err(CompileError::Parse(ParseError::UnexpectedToken {
            found: Token::Semicolon,
            expected_description: String::from("an expression"),
        }))
    );
}

#[test]
fn unmatched_parenthesis_is_a_syntax_error() {
    assert_eq!(compile("(3 + 4"), Err(CompileError::Parse(ParseError::UnexpectedEndOfInput)));
}

#[test]
fn minus_directly_before_digits_is_a_sign() {
    assert_eq!(
        compile("4 -1;"),
        Err(CompileError::Parse(ParseError::UnexpectedToken {
            found: Token::Number(-1),
            expected_description: String::from("';'"),
        }))
    );
    assert!(compile("4 - 1;").is_ok());
    assert!(compile("4 - -1;").is_ok());
}

#[test]
fn assignment_outside_a_declaration_is_a_syntax_error() {
    assert_eq!(
        compile("var x; x = 2;"),
        Err(CompileError::Parse(ParseError::UnexpectedToken {
            found: Token::Operator(Operator::Assign),
            expected_description: String::from("';'"),
        }))
    );
}

#[test]
fn declarations_alone_have_no_value_to_return() {
    assert_eq!(
        compile("var x; var y;"),
        Err(CompileError::CodeGen(CodeGenError::UnsupportedConstruct))
    );
}

#[test]
fn two_expression_statements_are_unsupported() {
    assert_eq!(compile("1; 2;"), Err(CompileError::CodeGen(CodeGenError::UnsupportedConstruct)));
}

#[test]
fn earlier_steps_fail_before_later_ones() {
    assert_eq!(
        compile("var x; ( y"),
        Err(CompileError::Lex(LexError::UnknownSymbol { text: String::from("y") }))
    );
    assert_eq!(compile("var x; ("), Err(CompileError::Parse(ParseError::UnexpectedEndOfInput)));
}

#[test]
fn many_variables_need_counts_of_two_bytes() {
    let mut source = String::new();
    for index in 0..130 {
        source.push_str(&format!("var v{} = {};\n", index, index + 1));
    }
    source.push_str("(v0 + v129);");
    let bytes = compile(&source).unwrap();
    assert_eq!(bytes[..31], PREFIX);
    // 130 stores, two reads, the sum and the end, behind the slots. A store
    // takes four bytes while its constant is below 64, five while its slot is
    // below 128, and six from there on.
    let stores = 63 * 4 + 65 * 5 + 2 * 6;
    let body_length: usize = 4 + stores + 2 + 3 + 1 + 2;
    assert_eq!(body_length, 601);
    let payload_length = 1 + 2 + body_length;
    assert_eq!(bytes[31], 0x0a);
    assert_eq!(bytes[32..34], [(payload_length & 0x7f) as u8 | 0x80, (payload_length >> 7) as u8]);
    assert_eq!(bytes[34], 0x01);
    assert_eq!(bytes[35..37], [(body_length & 0x7f) as u8 | 0x80, (body_length >> 7) as u8]);
    assert_eq!(bytes[37..41], [0x01, 0x82, 0x01, 0x7f]);
    assert_eq!(bytes.len(), 31 + 3 + payload_length);
    assert_eq!(bytes[bytes.len() - 8..], [0x20, 0x00, 0x20, 0x81, 0x01, 0x6a, 0x0f, 0x0b]);
}

#[test]
fn entry_name_can_be_chosen() {
    assert_eq!(compile_with_entry("7;", "_start"), compile("7;"));
    assert_eq!(
        compile_with_entry("7;", "run"),
        Ok(vec![
            0x00, 0x61, 0x73, 0x6d, 0x01, 0x00, 0x00, 0x00, 0x01, 0x05, 0x01, 0x60, 0x00, 0x01,
            0x7f, 0x03, 0x02, 0x01, 0x00, 0x07, 0x07, 0x01, 0x03, 0x72, 0x75, 0x6e, 0x00, 0x00,
            0x0a, 0x07, 0x01, 0x05, 0x00, 0x41, 0x07, 0x0f, 0x0b,
        ])
    );
    assert_eq!(
        compile_with_entry("(x + 1);", "run"),
        Err(CompileError::Lex(LexError::UnknownSymbol { text: String::from("x") }))
    );
}
