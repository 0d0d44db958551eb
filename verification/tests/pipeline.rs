use sbl::ast::{build_tree, fold_stream, ASTNode, FoldedStreamNode, TopLevelNode};
use sbl::errors::{FrontendError, NameMapError, ParseError, StructureError};
use sbl::namemap::{extract_name_map, NameMap, NameMapNode};
use sbl::numeric_literal::NumericLiteral;
use sbl::tokenizer::{tokenizer, Token};

fn folded(program: &str) -> Vec<FoldedStreamNode> {
    fold_stream(tokenizer(program.to_string()).unwrap()).unwrap()
}

fn name_map(program: &str) -> Result<NameMap, NameMapError> {
    extract_name_map(build_tree(tokenizer(program.to_string()).unwrap()).unwrap())
}

#[test]
fn exp_fold() {
    let program = "?main [] @main {\"Hello world!\\n\".}";
    let program = tokenizer(program.to_string()).unwrap();
    println!("{:?}", fold_stream(program));
}

#[test]
fn exp_extract_top_level() {
    let program = "@main{1b{\"Hello world!\\n\".}if}@other main";
    let program = tokenizer(program.to_string()).unwrap();
    println!("{:?}", program);
    let program = build_tree(program).unwrap();
    println!("{:?}", program);
}

#[test]
fn exp() {
    let program = "@main { \"Hello world!\" . } ; this be hello world".to_string();
    let program = tokenizer(program).unwrap();
    let program = build_tree(program).unwrap();
    let program = extract_name_map(program).unwrap();

    println!("{:?}", program);
}

#[test]
fn fold_groups_by_kind() {
    let nodes = folded("a [ b { c } ] d");
    assert_eq!(
        nodes,
        vec![
            FoldedStreamNode::Ident("a".to_string()),
            FoldedStreamNode::Square(vec![
                FoldedStreamNode::Ident("b".to_string()),
                FoldedStreamNode::Curly(vec![FoldedStreamNode::Ident("c".to_string())]),
            ]),
            FoldedStreamNode::Ident("d".to_string()),
        ]
    );
}

#[test]
fn fold_retains_comments_in_scope() {
    let nodes = folded("{ x ; doc\n }");
    assert_eq!(
        nodes,
        vec![FoldedStreamNode::Curly(vec![
            FoldedStreamNode::Ident("x".to_string()),
            FoldedStreamNode::Comment(" doc".to_string()),
        ])]
    );
}

#[test]
fn mismatched_close_is_fatal() {
    let tokens = tokenizer("@f { ]".to_string()).unwrap();
    assert_eq!(
        fold_stream(tokens),
        Err(StructureError::MismatchedClose { at: 3 })
    );
}

#[test]
fn unmatched_close_is_fatal() {
    let tokens = tokenizer("a ]".to_string()).unwrap();
    assert_eq!(
        fold_stream(tokens),
        Err(StructureError::UnexpectedClose { at: 1 })
    );
}

#[test]
fn unterminated_open_is_fatal() {
    let tokens = tokenizer("a { b".to_string()).unwrap();
    assert_eq!(
        fold_stream(tokens),
        Err(StructureError::Unterminated { open_at: 1 })
    );
}

#[test]
fn nesting_past_the_bound_is_fatal() {
    let mut program = String::new();
    for _ in 0..65 {
        program.push('[');
    }
    for _ in 0..65 {
        program.push(']');
    }
    let tokens = tokenizer(program).unwrap();
    assert_eq!(
        fold_stream(tokens),
        Err(StructureError::NestingTooDeep { at: 64 })
    );
}

#[test]
fn nesting_at_the_bound_folds() {
    let mut program = String::new();
    for _ in 0..64 {
        program.push('[');
    }
    for _ in 0..64 {
        program.push(']');
    }
    let tokens = tokenizer(program).unwrap();
    assert!(fold_stream(tokens).is_ok());
}

fn parse_one(program: &str) -> ASTNode {
    let nodes = folded(program);
    let (node, _next) = ASTNode::new(&nodes, 0).unwrap();
    node
}

#[test]
fn sigil_dispatch_plain_binding() {
    assert_eq!(parse_one("::count"), ASTNode::Dec("count".to_string()));
}

#[test]
fn sigil_dispatch_typed_binding() {
    let node = parse_one("::count : int");
    match node {
        ASTNode::DecTyped(name, tc) => {
            assert_eq!(name, "count");
            assert_eq!(tc.type_name_components, vec!["int".to_string()]);
            assert_eq!(tc.variable, None);
        }
        other => panic!("wrong form: {:?}", other),
    }
}

#[test]
fn sigil_dispatch_pointer_sized() {
    assert_eq!(
        parse_one(":#buf[10]"),
        ASTNode::DecPointerSized(
            "buf".to_string(),
            vec![ASTNode::NumericLiteral(NumericLiteral::SysInt(10))]
        )
    );
}

#[test]
fn sigil_dispatch_pointer_variable() {
    assert_eq!(
        parse_one(":#buf[]"),
        ASTNode::DecPointerVariable("buf".to_string())
    );
}

#[test]
fn sigil_dispatch_raw_pointer() {
    assert_eq!(parse_one(":#buf"), ASTNode::DecPointer("buf".to_string()));
}

#[test]
fn sigil_dispatch_assign() {
    assert_eq!(parse_one("$:x"), ASTNode::Assign("x".to_string()));
}

#[test]
fn sigil_dispatch_index_assign() {
    assert_eq!(
        parse_one("$:x[2]"),
        ASTNode::IndexAssign(
            "x".to_string(),
            vec![ASTNode::NumericLiteral(NumericLiteral::SysInt(2))]
        )
    );
}

#[test]
fn sigil_dispatch_address() {
    assert_eq!(parse_one("#x"), ASTNode::Address("x".to_string()));
}

#[test]
fn sigil_dispatch_read_address() {
    assert_eq!(parse_one("$x"), ASTNode::ReadAddress("x".to_string()));
}

#[test]
fn bare_forms_parse_to_themselves() {
    assert_eq!(parse_one("dup"), ASTNode::Ident("dup".to_string()));
    assert_eq!(parse_one("'a'"), ASTNode::CharLiteral('a'));
    assert_eq!(
        parse_one("\"hi\""),
        ASTNode::StringLiteral("hi".to_string())
    );
    assert_eq!(
        parse_one("[ 1 2 ]"),
        ASTNode::Square(vec![
            ASTNode::NumericLiteral(NumericLiteral::SysInt(1)),
            ASTNode::NumericLiteral(NumericLiteral::SysInt(2)),
        ])
    );
}

#[test]
fn malformed_sigil_sequence_is_fatal() {
    let nodes = folded(":: 5");
    assert_eq!(
        ASTNode::new(&nodes, 0),
        Err(ParseError::MissingIdent { at: 2 })
    );
    let nodes = folded("$ 5");
    assert_eq!(
        ASTNode::new(&nodes, 0),
        Err(ParseError::MalformedSigils { at: 0 })
    );
}

#[test]
fn typing_without_square_group_is_fatal() {
    let tokens = tokenizer("?f x".to_string()).unwrap();
    assert_eq!(
        build_tree(tokens),
        Err(FrontendError::Parse(ParseError::MalformedTyping { at: 2 }))
    );
}

#[test]
fn truncated_declaration_is_fatal() {
    let tokens = tokenizer("@f".to_string()).unwrap();
    assert_eq!(
        build_tree(tokens),
        Err(FrontendError::Parse(ParseError::UnexpectedEnd { at: 2 }))
    );
    let nodes = folded("::");
    assert_eq!(
        ASTNode::new(&nodes, 0),
        Err(ParseError::UnexpectedEnd { at: 2 })
    );
}

#[test]
fn undecodable_literal_in_a_body_is_fatal() {
    let tokens = tokenizer("@f { 1.5i }".to_string()).unwrap();
    assert_eq!(
        build_tree(tokens),
        Err(FrontendError::Parse(ParseError::Literal {
            at: 0,
            err: sbl::errors::LiteralError::InvalidBody
        }))
    );
}

#[test]
fn unexpected_top_level_is_fatal() {
    let tokens = tokenizer("5".to_string()).unwrap();
    assert_eq!(
        build_tree(tokens),
        Err(FrontendError::Parse(ParseError::UnexpectedTopLevel { at: 0 }))
    );
}

#[test]
fn build_tree_reads_words_typings_and_comments() {
    let tokens = tokenizer("; doc\n?main [] @main { } @other main".to_string()).unwrap();
    let tree = build_tree(tokens).unwrap();
    assert_eq!(
        tree,
        vec![
            TopLevelNode::Comment(" doc".to_string()),
            TopLevelNode::Typing("main".to_string(), vec![]),
            TopLevelNode::WordDeclare("main".to_string(), ASTNode::Curly(vec![])),
            TopLevelNode::WordDeclare(
                "other".to_string(),
                ASTNode::Ident("main".to_string())
            ),
        ]
    );
}

#[test]
fn hello_world_name_map() {
    let map = name_map("@main { \"Hello world!\\n\" . }").unwrap();
    let entry = map.get(&"main".to_string()).unwrap();
    assert_eq!(
        *entry,
        NameMapNode::Word {
            implementation: vec![
                ASTNode::StringLiteral("Hello world!\n".to_string()),
                ASTNode::Ident(".".to_string()),
            ],
            depends_on: vec![".".to_string()],
        }
    );
    assert_eq!(map.entry_count(), 1);
}

#[test]
fn dependencies_are_collapsed() {
    let map = name_map("@w { a b a c }").unwrap();
    match map.get(&"w".to_string()).unwrap() {
        NameMapNode::Word { depends_on, .. } => {
            assert_eq!(
                *depends_on,
                vec!["a".to_string(), "b".to_string(), "c".to_string()]
            );
        }
        other => panic!("wrong entry: {:?}", other),
    }
}

#[test]
fn alias_and_constant_entries() {
    let map = name_map("@a { } @b a @c 5u8 @d \"text\"").unwrap();
    assert_eq!(
        *map.get(&"b".to_string()).unwrap(),
        NameMapNode::AliasedWord("a".to_string())
    );
    assert_eq!(
        *map.get(&"c".to_string()).unwrap(),
        NameMapNode::NumericConst(NumericLiteral::Uint(8, 5))
    );
    assert_eq!(
        *map.get(&"d".to_string()).unwrap(),
        NameMapNode::StringConst("text".to_string())
    );
    assert!(map.get(&"e".to_string()).is_none());
    assert_eq!(map.entry_count(), 4);
}

#[test]
fn duplicate_declaration_is_fatal() {
    assert_eq!(
        name_map("@a { } @a { }"),
        Err(NameMapError::DuplicateDeclaration {
            name: "a".to_string()
        })
    );
}

#[test]
fn duplicate_with_different_bodies_is_still_fatal() {
    assert_eq!(
        name_map("@x {1} @x {2}"),
        Err(NameMapError::DuplicateDeclaration {
            name: "x".to_string()
        })
    );
}

#[test]
fn bad_word_value_is_fatal() {
    assert_eq!(
        name_map("@x ::y"),
        Err(NameMapError::BadWordValue { at: 0 })
    );
}

#[test]
fn typing_annotations_pass_the_map_by() {
    let map = name_map("?f [ -a +a ] @f { dup }").unwrap();
    assert_eq!(map.entry_count(), 1);
    assert!(map.contains_key(&"f".to_string()));
}
