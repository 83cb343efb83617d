use config::directive::{Directive, ParseError};

#[test]
fn test_simple_directives() {
    let mut directive = Directive::new("root");
    assert!(directive.parse("key arg0 arg1;").is_ok());
    assert_eq!(directive.name, "root");
    assert_eq!(directive.args.len(), 0);
    assert_eq!(directive.directives.len(), 1);
    assert_eq!(directive.directives[0].name, "key");
    assert_eq!(directive.directives[0].args.len(), 2);
    assert_eq!(directive.directives[0].args[0], "arg0");
    assert_eq!(directive.directives[0].args[1], "arg1");
}

#[test]
fn single_directive_round_trip() {
    let mut root = Directive::new("root");
    assert!(root.parse("a b;").is_ok());
    assert_eq!(root.directives.len(), 1);
    assert_eq!(root.directives[0].name, "a");
    assert_eq!(root.directives[0].args, vec!["b"]);
    assert_eq!(root.directives[0].directives.len(), 0);
}

#[test]
fn simple_block() {
    let mut root = Directive::new("root");
    assert!(root.parse("a { b; }").is_ok());
    assert_eq!(root.directives.len(), 1);
    let a = &root.directives[0];
    assert_eq!(a.name, "a");
    assert_eq!(a.args.len(), 0);
    assert_eq!(a.directives.len(), 1);
    let b = &a.directives[0];
    assert_eq!(b.name, "b");
    assert_eq!(b.args.len(), 0);
    assert_eq!(b.directives.len(), 0);
}

#[test]
fn comments_are_elided() {
    let mut with_comment = Directive::new("root");
    assert!(with_comment.parse("# comment\na b;").is_ok());
    let mut without = Directive::new("root");
    assert!(without.parse("a b;").is_ok());
    assert_eq!(with_comment, without);
}

#[test]
fn nested_blocks() {
    let mut root = Directive::new("root");
    assert!(root.parse("a b { c d; e f { g; } }").is_ok());
    assert_eq!(root.directives.len(), 1);
    let a = &root.directives[0];
    assert_eq!(a.name, "a");
    assert_eq!(a.args, vec!["b"]);
    assert_eq!(a.directives.len(), 2);
    let c = &a.directives[0];
    assert_eq!(c.name, "c");
    assert_eq!(c.args, vec!["d"]);
    assert_eq!(c.directives.len(), 0);
    let e = &a.directives[1];
    assert_eq!(e.name, "e");
    assert_eq!(e.args, vec!["f"]);
    assert_eq!(e.directives.len(), 1);
    let g = &e.directives[0];
    assert_eq!(g.name, "g");
    assert_eq!(g.args.len(), 0);
    assert_eq!(g.directives.len(), 0);
}

#[test]
fn unmatched_close_is_fatal() {
    let mut root = Directive::new("root");
    assert_eq!(root.parse("a;}"), Err(ParseError::UnbalancedBlock));
    assert_eq!(root.directives.len(), 1);
    assert_eq!(root.directives[0].name, "a");
}

#[test]
fn children_count_matches_terminators() {
    let mut root = Directive::new("root");
    assert!(root.parse("x 1;y 2;z;").is_ok());
    assert_eq!(root.directives.len(), 3);
    assert_eq!(root.directives[0].name, "x");
    assert_eq!(root.directives[1].name, "y");
    assert_eq!(root.directives[2].name, "z");
}

#[test]
fn empty_directive_is_discarded() {
    let mut root = Directive::new("root");
    assert!(root.parse(";;").is_ok());
    assert_eq!(root.directives.len(), 0);
}

#[test]
fn line_end_discards_pending_words() {
    let mut root = Directive::new("root");
    assert!(root.parse("a\n;").is_ok());
    assert_eq!(root.directives.len(), 0);
}

#[test]
fn unclosed_block_is_dropped() {
    let mut root = Directive::new("root");
    assert!(root.parse("a { b;").is_ok());
    assert_eq!(root.directives.len(), 0);
}

#[test]
fn words_before_close_are_discarded() {
    let mut root = Directive::new("root");
    assert!(root.parse("a { b }").is_ok());
    assert_eq!(root.directives.len(), 1);
    assert_eq!(root.directives[0].name, "a");
    assert_eq!(root.directives[0].directives.len(), 0);
}

#[test]
fn nameless_block_desynchronizes_the_stack() {
    let mut root = Directive::new("root");
    assert_eq!(root.parse("{ b; }"), Err(ParseError::UnbalancedBlock));
    assert_eq!(root.directives.len(), 1);
    assert_eq!(root.directives[0].name, "b");
}

fn tree_depth(d: &Directive<'_>) -> usize {
    if d.directives.is_empty() { 0 } else { 1 + forest_depth(&d.directives) }
}

fn forest_depth(ds: &[Directive<'_>]) -> usize {
    ds.iter().map(tree_depth).max().unwrap_or(0)
}

#[test]
fn tree_depth_matches_brace_nesting() {
    let mut flat = Directive::new("root");
    assert!(flat.parse("a b;c;").is_ok());
    assert_eq!(forest_depth(&flat.directives), 0);

    let mut nested = Directive::new("root");
    assert!(nested.parse("a b { c d; e f { g; } }").is_ok());
    assert_eq!(forest_depth(&nested.directives), 2);
}

#[test]
fn parse_appends_to_existing_children() {
    let mut root = Directive::new("root");
    assert!(root.parse("a;").is_ok());
    assert!(root.parse("b;").is_ok());
    assert_eq!(root.directives.len(), 2);
    assert_eq!(root.directives[0].name, "a");
    assert_eq!(root.directives[1].name, "b");
}
