use libsmac::block_tree::{flatten_branch, lex_branch, BlockTree, Branch, Chunk, ChunkValue};
use libsmac::error::LexErrorKind;
use libsmac::token::TokenType;

fn source_text(chunk: &Chunk) -> &str {
    match chunk.value() {
        ChunkValue::Source(s) => s.as_str(),
        _ => panic!("expected a source chunk"),
    }
}

fn block_of(chunk: &Chunk) -> &Branch {
    match chunk.value() {
        ChunkValue::Block(b) => b,
        _ => panic!("expected a block chunk"),
    }
}

fn collect(source: &str) -> (BlockTree, Vec<(usize, String)>) {
    let mut tree = BlockTree::new(source, 0);
    let indents = tree.collect_indents().expect("indentation should be clean");
    (tree, indents)
}

#[test]
fn collect_indents_keeps_surviving_lines() {
    let (_, indents) = collect("a\n    b\n\n   \nc\n");
    assert_eq!(indents.len(), 3);
    assert_eq!(indents[0], (0, "a".to_string()));
    assert_eq!(indents[1], (4, "b".to_string()));
    assert_eq!(indents[2], (0, "c".to_string()));
}

#[test]
fn indent_counts_leading_spaces() {
    let mut tree = BlockTree::new("", 0);
    assert_eq!(tree.indent("abc"), 0);
    assert_eq!(tree.indent("    abc"), 4);
    assert_eq!(tree.indent("  "), 2);
}

#[test]
fn tab_indentation_is_malformed() {
    let mut tree = BlockTree::new("a\n\tb\n", 0);
    let err = tree.collect_indents().expect_err("tabs must be rejected");
    assert_eq!(err.kind, LexErrorKind::MalformedIndentation);
    assert_eq!(err.position.start, 1);
}

#[test]
fn three_rising_indents_nest_once_per_level() {
    let (mut tree, indents) = collect("a\n    b\n        c\n");
    let root = tree.tree(&indents);
    assert_eq!(root.value.len(), 2);
    assert_eq!(source_text(&root.value[0]), "a");
    let level1 = block_of(&root.value[1]);
    assert_eq!(level1.value.len(), 2);
    assert_eq!(source_text(&level1.value[0]), "b");
    let level2 = block_of(&level1.value[1]);
    assert_eq!(level2.value.len(), 1);
    assert_eq!(source_text(&level2.value[0]), "c");
}

#[test]
fn dedent_closes_the_nested_branch_once() {
    let (mut tree, indents) = collect("outer\n    inner\nouter2\n");
    let root = tree.tree(&indents);
    assert_eq!(root.value.len(), 3);
    assert_eq!(source_text(&root.value[0]), "outer");
    let nested = block_of(&root.value[1]);
    assert_eq!(nested.value.len(), 1);
    assert_eq!(source_text(&nested.value[0]), "inner");
    assert_eq!(source_text(&root.value[2]), "outer2");
}

#[test]
fn siblings_after_a_deep_block_rejoin_their_level() {
    let (mut tree, indents) = collect("a\n        deep\n    mid\nb\n");
    let root = tree.tree(&indents);
    assert_eq!(root.value.len(), 4);
    assert_eq!(source_text(&root.value[0]), "a");
    let deep = block_of(&root.value[1]);
    assert_eq!(deep.value.len(), 1);
    assert_eq!(source_text(&deep.value[0]), "deep");
    let mid = block_of(&root.value[2]);
    assert_eq!(mid.value.len(), 1);
    assert_eq!(source_text(&mid.value[0]), "mid");
    assert_eq!(source_text(&root.value[3]), "b");
}

#[test]
fn empty_source_builds_an_empty_branch() {
    let (mut tree, indents) = collect("");
    let root = tree.tree(&indents);
    assert_eq!(root.value.len(), 0);
}

#[test]
fn lex_branch_replaces_sources_with_token_sets() {
    let (mut tree, indents) = collect("let x = 12\n    y\n");
    let root = tree.tree(&indents);
    let lexed = lex_branch(&root).expect("both lines lex cleanly");
    assert_eq!(lexed.value.len(), 2);
    match lexed.value[0].value() {
        ChunkValue::Token(ts) => {
            assert_eq!(ts.len(), 4);
            assert_eq!(ts[0].content().as_str(), "let");
            assert_eq!(ts[3].content().as_str(), "12");
        }
        _ => panic!("expected a token chunk"),
    }
    match lexed.value[1].value() {
        ChunkValue::Block(inner) => match inner.value[0].value() {
            ChunkValue::Token(ts) => {
                assert_eq!(ts.len(), 1);
                assert_eq!(ts[0].content().as_str(), "y");
            }
            _ => panic!("expected a token chunk"),
        },
        _ => panic!("expected a block chunk"),
    }
}

#[test]
fn flatten_concatenates_tokens_in_order() {
    let (mut tree, indents) = collect("let x = 12\n    y\nz\n");
    let root = tree.tree(&indents);
    let lexed = lex_branch(&root).expect("all lines lex cleanly");
    let flat = flatten_branch(&lexed);
    let texts: Vec<&str> = flat.iter().map(|t| t.content().as_str()).collect();
    assert_eq!(texts, vec!["let", "x", "=", "12", "y", "z"]);
    assert_eq!(*flat[2].token_type(), TokenType::Operator);
    assert_eq!(*flat[3].token_type(), TokenType::IntLiteral);
}

#[test]
fn lex_branch_reports_the_first_failure() {
    let (mut tree, indents) = collect("good\n    1.2.3\n");
    let root = tree.tree(&indents);
    let err = lex_branch(&root).expect_err("the nested line is malformed");
    assert_eq!(err.kind, LexErrorKind::MalformedNumber);
}
