use editor_core::object::{expand_selection, select_next_sibling, select_prev_sibling, shrink_selection};
use editor_core::parsed::table_of;
use editor_core::selection::Selection;
use editor_core::syntax::Syntax;
use editor_core::tree::{Row, SyntaxTree};
use ropey::Rope;

fn parse(language: tree_sitter::Language, source: &str, within: Option<(usize, usize)>) -> tree_sitter::Tree {
    let mut parser = tree_sitter::Parser::new();
    parser.set_language(language).unwrap();
    if let Some((start, end)) = within {
        let range = tree_sitter::Range {
            start_byte: start,
            end_byte: end,
            start_point: tree_sitter::Point { row: 0, column: start },
            end_point: tree_sitter::Point { row: 0, column: end },
        };
        parser.set_included_ranges(&[range]).unwrap();
    }
    parser.parse(source, None).unwrap()
}

fn copy_children<'a>(
    node: tree_sitter::Node<'a>,
    at: usize,
    tree: &mut SyntaxTree,
    nodes: &mut Vec<tree_sitter::Node<'a>>,
) {
    for i in 0..node.child_count() {
        let child = node.child(i).unwrap();
        let k = tree.add_child(at, child.start_byte(), child.end_byte()).unwrap();
        assert_eq!(k, nodes.len());
        nodes.push(child);
        copy_children(child, k, tree, nodes);
    }
}

// The tree as a table of nodes, and the parser's node for every row of it.
fn table(parsed: &tree_sitter::Tree) -> (SyntaxTree, Vec<tree_sitter::Node<'_>>) {
    let root = parsed.root_node();
    let mut tree = SyntaxTree::new(root.start_byte(), root.end_byte()).unwrap();
    let mut nodes = vec![root];
    copy_children(root, 0, &mut tree, &mut nodes);
    let read = table_of(parsed).unwrap();
    assert_eq!(read.len(), tree.len());
    for i in 0..tree.len() {
        assert_eq!(read.node(i), tree.node(i));
    }
    (read, nodes)
}

fn ends(selection: &Selection) -> Vec<(usize, usize)> {
    selection.ranges().iter().map(|r| (r.anchor, r.head)).collect()
}

fn place(source: &str, part: &str) -> (usize, usize) {
    let start = source.find(part).unwrap();
    (start, start + part.len())
}

const RUST: &str = "fn main() { let x = 1; }";

#[test]
fn expand_from_a_name_to_its_statement_to_the_block() {
    let parsed = parse(tree_sitter_rust::language(), RUST, None);
    let (tree, _) = table(&parsed);
    let syntax = Syntax::new(0, RUST.len(), tree);
    let text = Rope::from_str(RUST);
    let (from, to) = place(RUST, "x");
    let grown = expand_selection(&syntax, text.slice(..), Selection::single(from, to));
    assert_eq!(ends(&grown), vec![place(RUST, "let x = 1;")]);
    assert_eq!(ends(&grown), vec![(12, 22)]);
    let grown = expand_selection(&syntax, text.slice(..), grown);
    assert_eq!(ends(&grown), vec![place(RUST, "{ let x = 1; }")]);
    assert_eq!(ends(&grown), vec![(10, 24)]);
}

#[test]
fn expand_from_the_space_after_a_name() {
    let parsed = parse(tree_sitter_rust::language(), RUST, None);
    let (tree, _) = table(&parsed);
    let syntax = Syntax::new(0, RUST.len(), tree);
    let text = Rope::from_str(RUST);
    let grown = expand_selection(&syntax, text.slice(..), Selection::single(17, 18));
    assert_eq!(ends(&grown), vec![place(RUST, "let x = 1;")]);
    let grown = expand_selection(&syntax, text.slice(..), grown);
    assert_eq!(ends(&grown), vec![(10, 24)]);
}

const PAGE: &str = "<p>hi</p><script>let x = 1;</script>";

// A page and the script in it, which lies between `<script>` and
// `</script>`, as one syntax of two layers.
fn with_script(page: &str) -> Syntax {
    let markup = parse(tree_sitter_html::language(), page, None);
    let (tree, _) = table(&markup);
    let mut syntax = Syntax::new(0, page.len(), tree);
    let start = place(page, "<script>").1;
    let end = place(page, "</script>").0;
    let script = parse(tree_sitter_javascript::language(), page, Some((start, end)));
    let (tree, _) = table(&script);
    let root = syntax.root();
    syntax.add_layer(root, start, end, tree).unwrap();
    syntax
}

fn page() -> Syntax {
    with_script(PAGE)
}

const SPACED: &str = "<p>hi</p><script> let x = 1; </script>";

#[test]
fn expand_reaches_the_embedded_root_and_then_its_host() {
    let syntax = with_script(SPACED);
    let text = Rope::from_str(SPACED);
    let (from, to) = place(SPACED, "x");
    let grown = expand_selection(&syntax, text.slice(..), Selection::single(from, to));
    assert_eq!(ends(&grown), vec![place(SPACED, "x = 1")]);
    let grown = expand_selection(&syntax, text.slice(..), grown);
    assert_eq!(ends(&grown), vec![place(SPACED, "let x = 1;")]);
    // The root of the embedded tree begins at its first word and ends where
    // the script ends.
    let grown = expand_selection(&syntax, text.slice(..), grown);
    assert_eq!(ends(&grown), vec![place(SPACED, "let x = 1; ")]);
    // The next step crosses into the markup, to the node that the script
    // was parsed from.
    let grown = expand_selection(&syntax, text.slice(..), grown);
    assert_eq!(ends(&grown), vec![place(SPACED, " let x = 1; ")]);
    // That node's span resets into the embedded layer, whose root does not
    // span it: the selection falls back to the root.
    let again = expand_selection(&syntax, text.slice(..), grown);
    assert_eq!(ends(&again), vec![place(SPACED, "let x = 1; ")]);
}

#[test]
fn expand_leaves_the_embedded_layer_for_its_host() {
    let syntax = page();
    let text = Rope::from_str(PAGE);
    let (from, to) = place(PAGE, "x");
    let grown = expand_selection(&syntax, text.slice(..), Selection::single(from, to));
    assert_eq!(ends(&grown), vec![place(PAGE, "x = 1")]);
    // The statement is all there is in the embedded tree: this is the span
    // of its root.
    let grown = expand_selection(&syntax, text.slice(..), grown);
    assert_eq!(ends(&grown), vec![place(PAGE, "let x = 1;")]);
    // The next step crosses into the markup.
    let grown = expand_selection(&syntax, text.slice(..), grown);
    assert_eq!(ends(&grown), vec![place(PAGE, "<script>let x = 1;</script>")]);
    let grown = expand_selection(&syntax, text.slice(..), grown);
    assert_eq!(ends(&grown), vec![(0, PAGE.len())]);
}

#[test]
fn shrink_enters_the_embedded_layer() {
    let syntax = page();
    let text = Rope::from_str(PAGE);
    let (from, to) = place(PAGE, "<script>let x = 1;</script>");
    let shrunk = shrink_selection(&syntax, text.slice(..), Selection::single(from, to));
    assert_eq!(ends(&shrunk), vec![place(PAGE, "<script>")]);
    let next = select_next_sibling(&syntax, text.slice(..), shrunk);
    assert_eq!(ends(&next), vec![place(PAGE, "let x = 1;")]);
    // The selection resets into the embedded layer, where the statement has
    // no sibling and nothing but the root above it.
    let next = select_next_sibling(&syntax, text.slice(..), next);
    assert_eq!(ends(&next), vec![place(PAGE, "let x = 1;")]);
    let mut cursor = syntax.walk();
    let (start, end) = place(PAGE, "let x = 1;");
    cursor.reset_to_byte_range(start, end);
    assert!(cursor.layer() != syntax.root());
    // The statement has the span that the layer was parsed from: going down
    // leads to the root of the layer, not to the statement's first child.
    assert!(cursor.goto_first_child());
    assert_eq!((cursor.node().start, cursor.node().end), (start, end));
    assert_eq!(cursor.node().parent, None);
}

#[test]
fn sibling_round_trip_in_a_parsed_tree() {
    let parsed = parse(tree_sitter_rust::language(), RUST, None);
    let (tree, _) = table(&parsed);
    let syntax = Syntax::new(0, RUST.len(), tree);
    let text = Rope::from_str(RUST);
    let (from, to) = place(RUST, "=");
    let there = select_next_sibling(&syntax, text.slice(..), Selection::single(from, to));
    assert_eq!(ends(&there), vec![place(RUST, "1")]);
    let back = select_prev_sibling(&syntax, text.slice(..), there);
    assert_eq!(ends(&back), vec![(from, to)]);
}

const LONGER: &str = "struct P { a: u8 }\n\nfn f(p: &P) -> u8 {\n    if p.a > 1 { p.a } else { g(1, 2) }\n}\n";

#[test]
fn the_table_finds_what_the_parser_finds() {
    for source in [RUST, LONGER] {
        let parsed = parse(tree_sitter_rust::language(), source, None);
        let (tree, _) = table(&parsed);
        let root = parsed.root_node();
        for start in 0..=source.len() {
            for end in 0..=source.len() {
                let found = tree.descendant_for_byte_range(0, start, end);
                let expected = root.descendant_for_byte_range(start, end).unwrap();
                assert_eq!(
                    (tree.start_byte(found), tree.end_byte(found)),
                    (expected.start_byte(), expected.end_byte())
                );
            }
        }
    }
}

#[test]
fn the_table_finds_what_the_parser_finds_in_markup() {
    let parsed = parse(tree_sitter_html::language(), PAGE, None);
    let (tree, nodes) = table(&parsed);
    let root = parsed.root_node();
    for start in 0..=PAGE.len() {
        for end in start..=PAGE.len() {
            let found = tree.descendant_for_byte_range(0, start, end);
            let expected = root.descendant_for_byte_range(start, end).unwrap();
            assert_eq!(nodes[found].id(), expected.id());
        }
    }
}

#[test]
fn the_table_links_nodes_as_the_parser_does() {
    for source in [RUST, LONGER] {
        let parsed = parse(tree_sitter_rust::language(), source, None);
        let (tree, nodes) = table(&parsed);
        assert_eq!(tree.len(), nodes.len());
        for (i, node) in nodes.iter().enumerate() {
            assert_eq!(tree.start_byte(i), node.start_byte());
            assert_eq!(tree.end_byte(i), node.end_byte());
            assert_eq!(tree.parent(i).map(|k| nodes[k].id()), node.parent().map(|n| n.id()));
            assert_eq!(tree.first_child(i).map(|k| nodes[k].id()), node.child(0).map(|n| n.id()));
            assert_eq!(
                tree.next_sibling(i).map(|k| nodes[k].id()),
                node.next_sibling().map(|n| n.id())
            );
            assert_eq!(
                tree.prev_sibling(i).map(|k| nodes[k].id()),
                node.prev_sibling().map(|n| n.id())
            );
        }
    }
}

#[test]
fn a_parsed_tree_is_read_root_first() {
    let parsed = parse(tree_sitter_rust::language(), RUST, None);
    let tree = table_of(&parsed).unwrap();
    // source_file, function_item, `fn`, the name, ...
    assert_eq!((tree.start_byte(0), tree.end_byte(0)), (0, 24));
    assert_eq!(tree.parent(1), Some(0));
    assert_eq!((tree.start_byte(2), tree.end_byte(2)), (0, 2));
    assert_eq!((tree.start_byte(3), tree.end_byte(3)), (3, 7));
    assert_eq!(tree.parent(3), Some(1));
    assert_eq!(tree.prev_sibling(3), Some(2));
    let count = {
        fn count(node: tree_sitter::Node) -> usize {
            (0..node.child_count()).map(|i| count(node.child(i).unwrap())).sum::<usize>() + 1
        }
        count(parsed.root_node())
    };
    assert_eq!(tree.len(), count);
}

#[test]
fn an_empty_text_parses_to_a_root_alone() {
    let parsed = parse(tree_sitter_rust::language(), "", None);
    let tree = table_of(&parsed).unwrap();
    assert_eq!(tree.len(), 1);
    assert_eq!((tree.start_byte(0), tree.end_byte(0)), (0, 0));
    let syntax = Syntax::new(0, 0, tree);
    let text = Rope::from_str("");
    let grown = expand_selection(&syntax, text.slice(..), Selection::single(0, 0));
    assert_eq!(ends(&grown), vec![(0, 0)]);
    let shrunk = shrink_selection(&syntax, text.slice(..), Selection::single(0, 0));
    assert_eq!(ends(&shrunk), vec![(0, 0)]);
    let next = select_next_sibling(&syntax, text.slice(..), Selection::single(0, 0));
    assert_eq!(ends(&next), vec![(0, 0)]);
}

fn rows_below(node: tree_sitter::Node, depth: usize, rows: &mut Vec<Row>) {
    for i in 0..node.child_count() {
        let child = node.child(i).unwrap();
        rows.push(Row { depth: depth + 1, start: child.start_byte(), end: child.end_byte() });
        rows_below(child, depth + 1, rows);
    }
}

#[test]
fn a_parsed_tree_is_the_tree_of_its_rows() {
    for source in [RUST, LONGER, ""] {
        let parsed = parse(tree_sitter_rust::language(), source, None);
        let root = parsed.root_node();
        let mut rows = vec![];
        rows_below(root, 0, &mut rows);
        let from_rows = SyntaxTree::from_rows(root.start_byte(), root.end_byte(), &rows).unwrap();
        let read = table_of(&parsed).unwrap();
        assert_eq!(read.len(), rows.len() + 1);
        assert_eq!(read.len(), from_rows.len());
        for i in 0..read.len() {
            assert_eq!(read.node(i), from_rows.node(i));
        }
    }
}

#[test]
fn a_page_with_its_script_is_laid_out() {
    assert!(page().is_laid_out());
    // Between the tags of the spaced page lies more than the text node.
    let spaced = with_script(SPACED);
    assert!(spaced.is_nested());
    assert!(!spaced.is_laid_out());
}
