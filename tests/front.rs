use script::ast::Ast;
use script::errors::Error;
use script::lexer::Lexer;
use script::parser::Parser;
use script::token::Kind;

fn kinds(src: &str) -> Vec<Kind> {
    Lexer::new(src).collect().unwrap().iter().map(|t| t.kind).collect()
}

#[test]
fn operators_take_one_or_two_characters() {
    assert_eq!(
        kinds("a <= 10 != b = c == d < e ! f"),
        vec![Kind::Id, Kind::Lte, Kind::Int, Kind::NotEq, Kind::Id, Kind::Assign, Kind::Id, Kind::Eq, Kind::Id, Kind::Lt, Kind::Id, Kind::Not, Kind::Id]
    );
}

#[test]
fn keywords_and_identifiers() {
    assert_eq!(
        kinds("if else while for fun $x _y9"),
        vec![Kind::If, Kind::Else, Kind::While, Kind::For, Kind::Fun, Kind::Id, Kind::Id]
    );
}

#[test]
fn comments_and_whitespace_are_skipped() {
    let toks = Lexer::new("  // note\n\t42 // end").collect().unwrap();
    assert_eq!(toks.len(), 1);
    assert_eq!(toks[0].value, "42");
    assert_eq!(toks[0].at.start, 11);
    assert_eq!(toks[0].at.end, 13);
}

#[test]
fn string_escapes_are_unescaped() {
    let toks = Lexer::new("\"a\\n\\t\\\"\\\\\"").collect().unwrap();
    assert_eq!(toks[0].kind, Kind::Str);
    assert_eq!(toks[0].value, "a\n\t\"\\");
}

#[test]
fn unknown_character_is_a_syntax_error() {
    assert!(matches!(Lexer::new("1 # 2").collect(), Err(Error::SyntaxError(2))));
}

#[test]
fn unterminated_string_ends_early() {
    assert!(matches!(Lexer::new("\"abc").collect(), Err(Error::UnexpectedEOF)));
}

#[test]
fn next_op_reads_one_operator() {
    let mut lx = Lexer::new(">=");
    let tk = lx.next_op().unwrap();
    assert_eq!(tk.kind, Kind::Gte);
    assert!(lx.is_empty());
    assert!(matches!(Lexer::new("@").next_op(), Err(Error::SyntaxError(0))));
}

#[test]
fn statements_take_their_shapes() {
    let mut p = Parser::new(Lexer::new("while x { } if 1 { } else { } { } y = [1, 2,];")).unwrap();
    assert!(matches!(p.next().unwrap(), Some(Ast::Loop(..))));
    assert!(matches!(p.next().unwrap(), Some(Ast::IfElse(_, _, _, Some(_)))));
    assert!(matches!(p.next().unwrap(), Some(Ast::Block(_, ref v)) if v.is_empty()));
    match p.next().unwrap() {
        Some(Ast::Sttm(e)) => match *e {
            Ast::BinOp(tk, _, rhs) => {
                assert_eq!(tk.kind, Kind::Assign);
                assert!(matches!(*rhs, Ast::Lst(ref v, _) if v.len() == 2));
            }
            other => panic!("unexpected {:?}", other),
        },
        other => panic!("unexpected {:?}", other),
    }
    assert!(p.is_empty());
    assert!(p.next().unwrap().is_none());
}

#[test]
fn missing_semicolon_is_an_unexpected_token() {
    let mut p = Parser::new(Lexer::new("1 2")).unwrap();
    match p.next() {
        Err(Error::UnexpectedToken(tk, expected)) => {
            assert_eq!(tk.value, "2");
            assert_eq!(expected, vec![Kind::Semi]);
        }
        other => panic!("unexpected {:?}", other),
    }
}

#[test]
fn premature_end_is_reported() {
    let mut p = Parser::new(Lexer::new("print(1")).unwrap();
    assert!(matches!(p.next(), Err(Error::UnexpectedEOF)));
}

#[test]
fn huge_literal_is_a_parsing_error() {
    let mut p = Parser::new(Lexer::new("99999999999999999999;")).unwrap();
    assert!(matches!(p.next(), Err(Error::ParsingError(_))));
}

#[test]
fn spans_cover_their_nodes() {
    let mut p = Parser::new(Lexer::new("ab + cd;")).unwrap();
    let ast = p.next().unwrap().unwrap();
    let at = ast.at();
    assert_eq!((at.start, at.end), (0, 7));
    assert_eq!(ast.pretty(), "statement");
}

#[test]
fn reports_point_at_the_offending_character() {
    let src = "x = 1;\ny = #;";
    let e = Lexer::new(src).collect().unwrap_err();
    assert!(matches!(e, Error::SyntaxError(11)));
    assert_eq!(e.pretty(src), "syntax error\n(2, 5): | y = #;\n        |     ^");
}

#[test]
fn messages_name_the_error() {
    assert_eq!(Error::StackUnderflow.message(), "Stack Underflow");
    assert_eq!(Error::JumpTargetNotFound(3).message(), "Jump with unknown target 3");
    assert_eq!(Error::GlobalNotFound("y".to_string()).message(), "Global variable 'y' not found");
}

#[test]
fn integer_text_lexes_back_to_the_integer() {
    for n in [0i64, 5, 42, 9000, i64::MAX] {
        let text = script::text::int_to_string(n);
        let toks = Lexer::new(&text).collect().unwrap();
        assert_eq!(toks.len(), 1);
        assert_eq!(toks[0].kind, Kind::Int);
        assert_eq!(script::text::parse_decimal(&toks[0].value), Some(n));
    }
}

#[test]
fn parse_errors_name_the_token() {
    let mut p = Parser::new(Lexer::new("1 + ;")).unwrap();
    match p.next() {
        Err(Error::UnexpectedToken(tk, expected)) => {
            assert_eq!(tk.kind, Kind::Semi);
            assert_eq!(expected, vec![Kind::Int, Kind::Str, Kind::Id, Kind::LPar]);
        }
        other => panic!("unexpected {:?}", other),
    }
    let mut q = Parser::new(Lexer::new("if 1 { } else 2;")).unwrap();
    match q.next() {
        Err(Error::UnexpectedToken(tk, expected)) => {
            assert_eq!(tk.value, "2");
            assert_eq!(expected, vec![Kind::If, Kind::LBraces]);
        }
        other => panic!("unexpected {:?}", other),
    }
}

#[test]
fn precedence_nests_products_under_sums() {
    let mut p = Parser::new(Lexer::new("1 + 2 * 3 < 4;")).unwrap();
    match p.next().unwrap() {
        Some(Ast::Sttm(e)) => match *e {
            Ast::BinOp(lt, sum, _) => {
                assert_eq!(lt.kind, Kind::Lt);
                match *sum {
                    Ast::BinOp(plus, _, prod) => {
                        assert_eq!(plus.kind, Kind::Add);
                        assert!(matches!(*prod, Ast::BinOp(ref t, _, _) if t.kind == Kind::Mul));
                    }
                    other => panic!("unexpected {:?}", other),
                }
            }
            other => panic!("unexpected {:?}", other),
        },
        other => panic!("unexpected {:?}", other),
    }
}
