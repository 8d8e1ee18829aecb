use vea::ast::{BinOp, Expr, Lit, Stmt};
use vea::diag::{DiagMsg, Severity, ValueKind};
use vea::interp::Value;
use vea::span::Span;
use vea::token::{LexErr, Sym, Token};

fn lex_tokens(src: &str) -> Vec<vea::span::Spanned<Token>> {
    let (toks, _) = vea::lex(src.as_bytes());
    toks.expect("tokenizing always yields a token list")
}

fn lex_kinds(src: &str) -> Vec<Token> {
    lex_tokens(src).into_iter().map(|t| t.node).collect()
}

#[test]
fn escape_decoding_yields_three_characters() {
    // 'a\nb' lexes to the 3-character string a, newline, b
    let toks = lex_kinds("'a\\nb'");
    assert_eq!(toks.len(), 1);
    assert_eq!(toks[0], Token::Str(vec![b'a', b'\n', b'b']));
    let (_, diags) = vea::lex("'a\\nb'".as_bytes());
    assert!(diags.is_empty());
}

#[test]
fn all_escapes_decode() {
    let toks = lex_kinds("'\\n\\t\\r\\0\\\\\\''");
    assert_eq!(toks.len(), 1);
    assert_eq!(toks[0], Token::Str(vec![10, 9, 13, 0, 92, 39]));
}

#[test]
fn invalid_escape_invalidates_the_whole_literal() {
    // 'a\qb' yields an invalid-escape diagnostic and an error token
    let src = "'a\\qb'";
    let (toks, diags) = vea::lex(src.as_bytes());
    let toks = toks.unwrap();
    assert_eq!(toks.len(), 1);
    assert_eq!(toks[0].node, Token::Error(LexErr::InvalidStringEscape));
    assert_eq!(toks[0].span, Span { start: 0, end: 6 });
    assert_eq!(diags.len(), 1);
    assert_eq!(diags[0].message, DiagMsg::InvalidStringEscape);
    assert_eq!(diags[0].labels[0].span, Span { start: 0, end: 6 });
}

#[test]
fn compound_shift_assign_is_one_token() {
    // <<= lexes to one compound token, never three
    let toks = lex_kinds("<<=");
    assert_eq!(toks, vec![Token::Sym(Sym::ShlEq)]);
    let toks = lex_kinds(">>=");
    assert_eq!(toks, vec![Token::Sym(Sym::ShrEq)]);
    // a space breaks the spelling apart
    let toks = lex_kinds("<< =");
    assert_eq!(toks, vec![Token::Sym(Sym::Shl), Token::Sym(Sym::Eq)]);
    let toks = lex_kinds("< <=");
    assert_eq!(toks, vec![Token::Sym(Sym::Lt), Token::Sym(Sym::Le)]);
}

#[test]
fn let_statement_lexes_parses_and_evaluates() {
    // let x = 0; -> 5 tokens, one let node spanning them all,
    // an environment with x bound to 0 and empty output
    let src = "let x = 0;";
    let toks = lex_tokens(src);
    let kinds: Vec<Token> = toks.iter().map(|t| t.node.clone()).collect();
    assert_eq!(
        kinds,
        vec![
            Token::Sym(Sym::Let),
            Token::Ident(b"x".to_vec()),
            Token::Sym(Sym::Eq),
            Token::Number(0),
            Token::Sym(Sym::Semi),
        ]
    );
    let (prog, diags) = vea::parse(&toks);
    let prog = prog.unwrap();
    assert!(diags.is_empty());
    assert_eq!(prog.len(), 1);
    assert_eq!(prog[0].span, Span { start: 0, end: 5 });
    match &prog[0].node {
        Stmt::Let { ident, init } => {
            assert_eq!(ident, &b"x".to_vec());
            assert!(matches!(init.node, Expr::Lit(Lit::Int(0))));
        }
        _ => panic!("expected a let-binding node"),
    }
    let env = vea::interp(&toks, &prog).expect("evaluation succeeds");
    assert_eq!(env.get(b"x"), Some(Value::Int(0)));
    assert!(env.output().is_empty());
}

#[test]
fn conditional_executes_then_branch_unconditionally() {
    // if { let y = 1; } -> one conditional node with no else branch;
    // the inner let runs unconditionally
    let src = "if { let y = 1; }";
    let toks = lex_tokens(src);
    let (prog, diags) = vea::parse(&toks);
    let prog = prog.unwrap();
    assert!(diags.is_empty());
    assert_eq!(prog.len(), 1);
    match &prog[0].node {
        Stmt::If { then_branch, else_branch } => {
            assert!(else_branch.is_none());
            assert!(matches!(then_branch.node, Stmt::Block { .. }));
        }
        _ => panic!("expected a conditional node"),
    }
    let env = vea::interp(&toks, &prog).expect("evaluation succeeds");
    assert_eq!(env.get(b"y"), Some(Value::Int(1)));
}

#[test]
fn lone_unmatched_character_yields_one_anchored_diagnostic() {
    // a lone @ yields one lexical diagnostic anchored at offset 0 and
    // an otherwise empty token list
    let (toks, diags) = vea::lex(b"@");
    assert_eq!(toks.unwrap().len(), 0);
    assert_eq!(diags.len(), 1);
    assert_eq!(diags[0].severity, Severity::Error);
    assert_eq!(diags[0].message, DiagMsg::UnexpectedCharacter);
    assert_eq!(diags[0].labels.len(), 1);
    assert_eq!(diags[0].labels[0].span, Span { start: 0, end: 1 });
}

#[test]
fn digit_run_overflow_is_marked_never_wrapped() {
    // one past the 64-bit signed maximum
    let toks = lex_kinds("9223372036854775808");
    assert_eq!(toks, vec![Token::Error(LexErr::IntegerOverflow)]);
    // the maximum itself is fine
    let toks = lex_kinds("9223372036854775807");
    assert_eq!(toks, vec![Token::Number(9223372036854775807)]);
    // leading zeros do not overflow a small value
    let toks = lex_kinds("00000000000000000000000000007");
    assert_eq!(toks, vec![Token::Number(7)]);
}

#[test]
fn keywords_take_priority_only_on_exact_spelling() {
    let toks = lex_kinds("let letx if else print true false while for _");
    assert_eq!(
        toks,
        vec![
            Token::Sym(Sym::Let),
            Token::Ident(b"letx".to_vec()),
            Token::Sym(Sym::If),
            Token::Sym(Sym::Else),
            Token::Sym(Sym::Print),
            Token::Sym(Sym::True),
            Token::Sym(Sym::False),
            Token::Sym(Sym::While),
            Token::Sym(Sym::For),
            Token::Ident(b"_".to_vec()),
        ]
    );
}

#[test]
fn whitespace_and_comments_never_change_the_token_sequence() {
    let plain = lex_kinds("let x = 1 + 2;");
    let spaced = lex_kinds("  let\t\tx\n=\n1    +\r\n2 ;  ");
    let commented = lex_kinds("let x = // bound\n 1 + // one\n 2;// done");
    assert_eq!(plain, spaced);
    assert_eq!(plain, commented);
    assert_eq!(plain.len(), 7);
}

#[test]
fn unterminated_string_recovers_by_one_byte() {
    let (toks, diags) = vea::lex(b"' x");
    let kinds: Vec<Token> = toks.unwrap().into_iter().map(|t| t.node).collect();
    // the quote is skipped with one diagnostic; lexing resumes
    assert_eq!(kinds, vec![Token::Ident(b"x".to_vec())]);
    assert_eq!(diags.len(), 1);
    assert_eq!(diags[0].labels[0].span, Span { start: 0, end: 1 });
}

#[test]
fn parser_recovers_and_reports_each_unexpected_token() {
    let src = "; let x = 1; ;";
    let toks = lex_tokens(src);
    let (prog, diags) = vea::parse(&toks);
    assert_eq!(prog.unwrap().len(), 1);
    assert_eq!(diags.len(), 2);
    assert_eq!(diags[0].message, DiagMsg::UnexpectedToken);
    // anchored at the byte range of the offending tokens
    assert_eq!(diags[0].labels[0].span, Span { start: 0, end: 1 });
    assert_eq!(diags[1].labels[0].span, Span { start: 13, end: 14 });
}

#[test]
fn else_if_chains_nest_in_the_else_slot() {
    let src = "if { } else if { let z = 2; }";
    let toks = lex_tokens(src);
    let (prog, diags) = vea::parse(&toks);
    let prog = prog.unwrap();
    assert!(diags.is_empty());
    assert_eq!(prog.len(), 1);
    match &prog[0].node {
        Stmt::If { else_branch, .. } => match else_branch {
            Some(e) => assert!(matches!(e.node, Stmt::If { .. })),
            None => panic!("expected an else-if chain"),
        },
        _ => panic!("expected a conditional node"),
    }
    let env = vea::interp(&toks, &prog).expect("evaluation succeeds");
    // with no condition slot, only the then-branch runs: the else
    // slot's chain is never executed
    assert_eq!(env.get(b"z"), None);
}

#[test]
fn blocks_share_one_environment() {
    let src = "{ let a = 1; { let b = 2; } } let c = 3;";
    let toks = lex_tokens(src);
    let (prog, _) = vea::parse(&toks);
    let prog = prog.unwrap();
    let env = vea::interp(&toks, &prog).expect("evaluation succeeds");
    assert_eq!(env.get(b"a"), Some(Value::Int(1)));
    assert_eq!(env.get(b"b"), Some(Value::Int(2)));
    assert_eq!(env.get(b"c"), Some(Value::Int(3)));
}

#[test]
fn later_bindings_overwrite_earlier_ones() {
    let src = "let x = 1; let x = 2;";
    let toks = lex_tokens(src);
    let (prog, _) = vea::parse(&toks);
    let prog = prog.unwrap();
    let env = vea::interp(&toks, &prog).expect("evaluation succeeds");
    assert_eq!(env.get(b"x"), Some(Value::Int(2)));
}

#[test]
fn expressions_compute_with_parentheses_reentering_atom_position() {
    let src = "let x = (1 + 2) * (6 / 2);";
    let toks = lex_tokens(src);
    let (prog, diags) = vea::parse(&toks);
    let prog = prog.unwrap();
    assert!(diags.is_empty());
    let env = vea::interp(&toks, &prog).expect("evaluation succeeds");
    assert_eq!(env.get(b"x"), Some(Value::Int(9)));
}

#[test]
fn comparisons_and_equality_yield_booleans() {
    let src = "let a = 1 < 2; let b = 2 <= 1; let c = 3 = 3; let d = 3 != 4; let e = !(1 > 0);";
    let toks = lex_tokens(src);
    let (prog, diags) = vea::parse(&toks);
    let prog = prog.unwrap();
    assert!(diags.is_empty());
    let env = vea::interp(&toks, &prog).expect("evaluation succeeds");
    assert_eq!(env.get(b"a"), Some(Value::Bool(true)));
    assert_eq!(env.get(b"b"), Some(Value::Bool(false)));
    assert_eq!(env.get(b"c"), Some(Value::Bool(true)));
    assert_eq!(env.get(b"d"), Some(Value::Bool(true)));
    assert_eq!(env.get(b"e"), Some(Value::Bool(false)));
}

#[test]
fn unbound_identifier_is_a_fatal_error_with_a_byte_span() {
    let src = "let x = missing;";
    let toks = lex_tokens(src);
    let (prog, _) = vea::parse(&toks);
    let prog = prog.unwrap();
    let diag = vea::interp(&toks, &prog).expect_err("evaluation fails");
    assert_eq!(diag.message, DiagMsg::UnboundIdentifier);
    // anchored at the access node's bytes in the original source
    assert_eq!(diag.labels[0].span, Span { start: 8, end: 15 });
}

#[test]
fn type_mismatch_names_expected_and_actual_kinds() {
    let src = "let x = 'a' + 1;";
    let toks = lex_tokens(src);
    let (prog, _) = vea::parse(&toks);
    let prog = prog.unwrap();
    let diag = vea::interp(&toks, &prog).expect_err("evaluation fails");
    assert_eq!(
        diag.message,
        DiagMsg::TypeMismatch { expected: ValueKind::Integer, actual: ValueKind::Str }
    );
    assert_eq!(diag.labels[0].span, Span { start: 8, end: 11 });
}

#[test]
fn unary_not_requires_a_boolean() {
    let src = "let x = !1;";
    let toks = lex_tokens(src);
    let (prog, _) = vea::parse(&toks);
    let prog = prog.unwrap();
    let diag = vea::interp(&toks, &prog).expect_err("evaluation fails");
    assert_eq!(
        diag.message,
        DiagMsg::TypeMismatch { expected: ValueKind::Boolean, actual: ValueKind::Integer }
    );
}

#[test]
fn division_by_zero_is_its_own_fatal_error() {
    let src = "let x = 1 / 0;";
    let toks = lex_tokens(src);
    let (prog, _) = vea::parse(&toks);
    let prog = prog.unwrap();
    let diag = vea::interp(&toks, &prog).expect_err("evaluation fails");
    assert_eq!(diag.message, DiagMsg::DivisionByZero);
}

#[test]
fn arithmetic_overflow_is_a_fatal_error_not_a_wraparound() {
    let src = "let x = 9223372036854775807 + 1;";
    let toks = lex_tokens(src);
    let (prog, _) = vea::parse(&toks);
    let prog = prog.unwrap();
    let diag = vea::interp(&toks, &prog).expect_err("evaluation fails");
    assert_eq!(diag.message, DiagMsg::IntegerOverflow);
}

#[test]
fn lexical_overflow_propagates_to_one_runtime_error() {
    // the overflow-marked token parses as a literal and raises the
    // propagated error only when evaluated
    let src = "let x = 99999999999999999999;";
    let toks = lex_tokens(src);
    let (prog, diags) = vea::parse(&toks);
    let prog = prog.unwrap();
    assert!(diags.is_empty());
    assert_eq!(prog.len(), 1);
    let diag = vea::interp(&toks, &prog).expect_err("evaluation fails");
    assert_eq!(diag.message, DiagMsg::IntegerOverflow);
    assert_eq!(diag.labels[0].span, Span { start: 8, end: 28 });
}

#[test]
fn string_values_bind_and_compare_by_kind_rules() {
    let src = "let s = 'hi'; let t = s;";
    let toks = lex_tokens(src);
    let (prog, _) = vea::parse(&toks);
    let prog = prog.unwrap();
    let env = vea::interp(&toks, &prog).expect("evaluation succeeds");
    assert_eq!(env.get(b"t"), Some(Value::Str(b"hi".to_vec())));
    // equality on strings is a type mismatch, not a comparison
    let src2 = "let u = 'a' = 'a';";
    let toks2 = lex_tokens(src2);
    let (prog2, _) = vea::parse(&toks2);
    let prog2 = prog2.unwrap();
    let diag = vea::interp(&toks2, &prog2).expect_err("evaluation fails");
    assert!(matches!(diag.message, DiagMsg::TypeMismatch { .. }));
}

#[test]
fn reserved_extension_keywords_have_no_grammar_production() {
    let src = "while";
    let toks = lex_tokens(src);
    let (prog, diags) = vea::parse(&toks);
    assert_eq!(prog.unwrap().len(), 0);
    assert_eq!(diags.len(), 1);
    assert_eq!(diags[0].message, DiagMsg::UnexpectedToken);
}

#[test]
fn every_operator_spelling_lexes_longest_first() {
    let ops = vec![
        ("+", Sym::Plus),
        ("+=", Sym::PlusEq),
        ("-", Sym::Minus),
        ("-=", Sym::MinusEq),
        ("*", Sym::Star),
        ("*=", Sym::StarEq),
        ("/", Sym::Slash),
        ("/=", Sym::SlashEq),
        ("=", Sym::Eq),
        ("!", Sym::Bang),
        ("==", Sym::EqEq),
        ("!=", Sym::Ne),
        (">", Sym::Gt),
        (">=", Sym::Ge),
        ("<", Sym::Lt),
        ("<=", Sym::Le),
        ("~", Sym::Tilde),
        ("|", Sym::Pipe),
        ("|=", Sym::PipeEq),
        ("&", Sym::And),
        ("&=", Sym::AndEq),
        ("^", Sym::Caret),
        ("^=", Sym::CaretEq),
        ("?", Sym::Question),
        ("%", Sym::Percent),
        ("%=", Sym::PercentEq),
        ("<<", Sym::Shl),
        ("<<=", Sym::ShlEq),
        (">>", Sym::Shr),
        (">>=", Sym::ShrEq),
        ("{", Sym::LeftBrace),
        ("}", Sym::RightBrace),
        ("[", Sym::LeftBracket),
        ("]", Sym::RightBracket),
        ("(", Sym::LeftParen),
        (")", Sym::RightParen),
        (",", Sym::Comma),
        (";", Sym::Semi),
    ];
    for (spelling, sym) in ops {
        let toks = lex_kinds(spelling);
        assert_eq!(toks, vec![Token::Sym(sym)], "spelling {:?}", spelling);
    }
}

#[test]
fn token_spans_cover_their_source_bytes() {
    let toks = lex_tokens("let abc = 42;");
    let spans: Vec<Span> = toks.iter().map(|t| t.span).collect();
    assert_eq!(
        spans,
        vec![
            Span { start: 0, end: 3 },
            Span { start: 4, end: 7 },
            Span { start: 8, end: 9 },
            Span { start: 10, end: 12 },
            Span { start: 12, end: 13 },
        ]
    );
}

#[test]
fn group_and_unary_nodes_span_their_tokens() {
    let src = "let x = -(1);";
    let toks = lex_tokens(src);
    let (prog, diags) = vea::parse(&toks);
    let prog = prog.unwrap();
    assert!(diags.is_empty());
    match &prog[0].node {
        Stmt::Let { init, .. } => {
            assert!(matches!(init.node, Expr::Neg(_)));
            // tokens: let x = - ( 1 ) ; -> the initializer covers - ( 1 )
            assert_eq!(init.span, Span { start: 3, end: 7 });
        }
        _ => panic!("expected a let-binding node"),
    }
    let env = vea::interp(&toks, &prog).expect("evaluation succeeds");
    assert_eq!(env.get(b"x"), Some(Value::Int(-1)));
}

#[test]
fn binary_nodes_carry_their_operator() {
    let src = "let x = 6 / 2;";
    let toks = lex_tokens(src);
    let (prog, _) = vea::parse(&toks);
    let prog = prog.unwrap();
    match &prog[0].node {
        Stmt::Let { init, .. } => match &init.node {
            Expr::Bin(op, _, _) => assert_eq!(*op, BinOp::Div),
            _ => panic!("expected a binary node"),
        },
        _ => panic!("expected a let-binding node"),
    }
    let env = vea::interp(&toks, &prog).expect("evaluation succeeds");
    assert_eq!(env.get(b"x"), Some(Value::Int(3)));
}

#[test]
fn empty_input_runs_through_the_whole_pipeline() {
    let (toks, lex_diags) = vea::lex(b"");
    let toks = toks.unwrap();
    assert!(toks.is_empty());
    assert!(lex_diags.is_empty());
    let (prog, parse_diags) = vea::parse(&toks);
    let prog = prog.unwrap();
    assert!(prog.is_empty());
    assert!(parse_diags.is_empty());
    let env = vea::interp(&toks, &prog).expect("evaluation succeeds");
    assert_eq!(env.get(b"x"), None);
    assert!(env.output().is_empty());
}

#[test]
fn conditional_without_block_is_a_syntax_error() {
    let src = "if let x = 1;";
    let toks = lex_tokens(src);
    let (prog, diags) = vea::parse(&toks);
    // the bare `if` is skipped and reported; the let still parses
    assert_eq!(prog.unwrap().len(), 1);
    assert_eq!(diags.len(), 1);
    assert_eq!(diags[0].message, DiagMsg::UnexpectedToken);
    assert_eq!(diags[0].labels[0].span, Span { start: 0, end: 2 });
}
