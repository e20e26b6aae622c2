use editor_core::object::{
    expand_selection, in_bounds, select_next_sibling, select_node_impl, select_prev_sibling,
    shrink_selection, Motion,
};
use editor_core::selection::{Range, Selection};
use editor_core::syntax::Syntax;
use editor_core::tree::SyntaxTree;
use ropey::Rope;

// The tree of `fn main() { let x = 1; }`:
// root 0..24
//   item 0..24
//     fn 0..2
//     name 3..7
//     parameters 7..9
//     block 10..24
//       open 10..11
//       statement 12..22
//         let 12..15
//         pattern 16..17
//         equals 18..19
//         value 20..21
//         semicolon 21..22
//       close 23..24
fn sample() -> SyntaxTree {
    let mut tree = SyntaxTree::new(0, 24).unwrap();
    let item = tree.add_child(0, 0, 24).unwrap();
    tree.add_child(item, 0, 2).unwrap();
    tree.add_child(item, 3, 7).unwrap();
    tree.add_child(item, 7, 9).unwrap();
    let block = tree.add_child(item, 10, 24).unwrap();
    tree.add_child(block, 10, 11).unwrap();
    let statement = tree.add_child(block, 12, 22).unwrap();
    tree.add_child(statement, 12, 15).unwrap();
    tree.add_child(statement, 16, 17).unwrap();
    tree.add_child(statement, 18, 19).unwrap();
    tree.add_child(statement, 20, 21).unwrap();
    tree.add_child(statement, 21, 22).unwrap();
    tree.add_child(block, 23, 24).unwrap();
    tree
}

const SOURCE: &str = "fn main() { let x = 1; }";

fn ends(selection: &Selection) -> Vec<(usize, usize)> {
    selection.ranges().iter().map(|r| (r.anchor, r.head)).collect()
}

#[test]
fn expand_grows_to_the_enclosing_node() {
    let syntax = Syntax::new(0, 24, sample());
    let text = Rope::from_str(SOURCE);
    let grown = expand_selection(&syntax, text.slice(..), Selection::single(16, 17));
    assert_eq!(ends(&grown), vec![(12, 22)]);
    let grown = expand_selection(&syntax, text.slice(..), grown);
    assert_eq!(ends(&grown), vec![(10, 24)]);
    let grown = expand_selection(&syntax, text.slice(..), grown);
    assert_eq!(ends(&grown), vec![(0, 24)]);
    // Nothing is left above.
    let grown = expand_selection(&syntax, text.slice(..), grown);
    assert_eq!(ends(&grown), vec![(0, 24)]);
}

#[test]
fn expand_snaps_a_loose_range_to_a_node() {
    let syntax = Syntax::new(0, 24, sample());
    let text = Rope::from_str(SOURCE);
    let grown = expand_selection(&syntax, text.slice(..), Selection::single(17, 18));
    assert_eq!(ends(&grown), vec![(12, 22)]);
    let grown = expand_selection(&syntax, text.slice(..), Selection::single(5, 12));
    assert_eq!(ends(&grown), vec![(0, 24)]);
}

#[test]
fn expand_contains_what_was_selected() {
    let syntax = Syntax::new(0, 24, sample());
    let text = Rope::from_str(SOURCE);
    for from in 0..=24 {
        for to in from..=24 {
            let grown = expand_selection(&syntax, text.slice(..), Selection::single(from, to));
            let r = grown.ranges()[0];
            assert!(r.from() <= from && to <= r.to());
        }
    }
}

#[test]
fn expand_keeps_the_direction() {
    let syntax = Syntax::new(0, 24, sample());
    let text = Rope::from_str(SOURCE);
    let backward = expand_selection(&syntax, text.slice(..), Selection::single(17, 16));
    assert_eq!(ends(&backward), vec![(22, 12)]);
    let forward = expand_selection(&syntax, text.slice(..), Selection::single(16, 17));
    assert_eq!(ends(&forward), vec![(12, 22)]);
    let empty = expand_selection(&syntax, text.slice(..), Selection::single(16, 16));
    assert_eq!(ends(&empty), vec![(16, 17)]);
}

#[test]
fn every_operation_keeps_the_direction() {
    let syntax = Syntax::new(0, 24, sample());
    let text = Rope::from_str(SOURCE);
    let backward = Selection::single(22, 12);
    let shrunk = shrink_selection(&syntax, text.slice(..), backward.clone());
    assert_eq!(ends(&shrunk), vec![(15, 12)]);
    let next = select_next_sibling(&syntax, text.slice(..), backward.clone());
    assert_eq!(ends(&next), vec![(24, 23)]);
    let prev = select_prev_sibling(&syntax, text.slice(..), backward);
    assert_eq!(ends(&prev), vec![(11, 10)]);
}

#[test]
fn operations_treat_every_range_alone() {
    let syntax = Syntax::new(0, 24, sample());
    let text = Rope::from_str(SOURCE);
    let selection = Selection::new(
        vec![Range::new(16, 17), Range::new(7, 3), Range::new(16, 17)],
        1,
    );
    let grown = expand_selection(&syntax, text.slice(..), selection);
    assert_eq!(ends(&grown), vec![(12, 22), (24, 0), (12, 22)]);
    assert_eq!(grown.primary_index(), 1);
    assert_eq!(grown.len(), 3);
    let none = expand_selection(&syntax, text.slice(..), Selection::new(vec![], 0));
    assert_eq!(none.len(), 0);
}

#[test]
fn shrink_selects_the_first_child() {
    let syntax = Syntax::new(0, 24, sample());
    let text = Rope::from_str(SOURCE);
    let shrunk = shrink_selection(&syntax, text.slice(..), Selection::single(10, 24));
    assert_eq!(ends(&shrunk), vec![(10, 11)]);
    let shrunk = shrink_selection(&syntax, text.slice(..), Selection::single(12, 22));
    assert_eq!(ends(&shrunk), vec![(12, 15)]);
    // A node without children stays selected.
    let shrunk = shrink_selection(&syntax, text.slice(..), Selection::single(16, 17));
    assert_eq!(ends(&shrunk), vec![(16, 17)]);
}

#[test]
fn shrink_then_expand_contains_the_node() {
    let syntax = Syntax::new(0, 24, sample());
    let text = Rope::from_str(SOURCE);
    let shrunk = shrink_selection(&syntax, text.slice(..), Selection::single(12, 22));
    let back = expand_selection(&syntax, text.slice(..), shrunk);
    assert_eq!(ends(&back), vec![(12, 22)]);
    // The item is the sole child of the root and has its span.
    let shrunk = shrink_selection(&syntax, text.slice(..), Selection::single(0, 24));
    assert_eq!(ends(&shrunk), vec![(0, 2)]);
    let back = expand_selection(&syntax, text.slice(..), shrunk);
    assert_eq!(ends(&back), vec![(0, 24)]);
}

#[test]
fn sibling_selection_steps_along_the_row() {
    let syntax = Syntax::new(0, 24, sample());
    let text = Rope::from_str(SOURCE);
    let next = select_next_sibling(&syntax, text.slice(..), Selection::single(16, 17));
    assert_eq!(ends(&next), vec![(18, 19)]);
    let prev = select_prev_sibling(&syntax, text.slice(..), next);
    assert_eq!(ends(&prev), vec![(16, 17)]);
    let prev = select_prev_sibling(&syntax, text.slice(..), prev);
    assert_eq!(ends(&prev), vec![(12, 15)]);
}

#[test]
fn sibling_selection_looks_one_level_up() {
    let syntax = Syntax::new(0, 24, sample());
    let text = Rope::from_str(SOURCE);
    // The semicolon is the last child of the statement: the sibling of the
    // statement is selected.
    let next = select_next_sibling(&syntax, text.slice(..), Selection::single(21, 22));
    assert_eq!(ends(&next), vec![(23, 24)]);
    // `let` is the first child of the statement.
    let prev = select_prev_sibling(&syntax, text.slice(..), Selection::single(12, 15));
    assert_eq!(ends(&prev), vec![(10, 11)]);
    // The closing brace is the last child of the block, which is the last
    // child of the item: the brace stays selected.
    let next = select_next_sibling(&syntax, text.slice(..), Selection::single(23, 24));
    assert_eq!(ends(&next), vec![(23, 24)]);
    // The root has nothing beside it and nothing above it.
    let syntax = Syntax::new(0, 24, SyntaxTree::new(0, 24).unwrap());
    let next = select_next_sibling(&syntax, text.slice(..), Selection::single(3, 7));
    assert_eq!(ends(&next), vec![(0, 24)]);
}

#[test]
fn select_node_impl_applies_the_motion() {
    let syntax = Syntax::new(0, 24, sample());
    let text = Rope::from_str(SOURCE);
    let selection = Selection::single(12, 22);
    let by_motion = |motion| ends(&select_node_impl(&syntax, text.slice(..), selection.clone(), motion));
    assert_eq!(by_motion(Motion::FirstChild), vec![(12, 15)]);
    assert_eq!(by_motion(Motion::NextSibling), vec![(23, 24)]);
    assert_eq!(by_motion(Motion::PrevSibling), vec![(10, 11)]);
}

#[test]
fn offsets_are_characters_not_bytes() {
    // `é` takes two bytes and `日本` six.
    let source = "é = \"日本\";";
    let text = Rope::from_str(source);
    assert_eq!(text.len_chars(), 9);
    assert_eq!(text.len_bytes(), 14);
    // root 0..14: name 0..2, equals 3..4, string 5..13, semicolon 13..14
    let mut tree = SyntaxTree::new(0, 14).unwrap();
    tree.add_child(0, 0, 2).unwrap();
    tree.add_child(0, 3, 4).unwrap();
    let string = tree.add_child(0, 5, 13).unwrap();
    tree.add_child(string, 6, 12).unwrap();
    tree.add_child(0, 13, 14).unwrap();
    let syntax = Syntax::new(0, 14, tree);
    // The second character of the string's content.
    let grown = expand_selection(&syntax, text.slice(..), Selection::single(6, 7));
    assert_eq!(ends(&grown), vec![(5, 7)]);
    let grown = expand_selection(&syntax, text.slice(..), grown);
    assert_eq!(ends(&grown), vec![(4, 8)]);
    let grown = expand_selection(&syntax, text.slice(..), grown);
    assert_eq!(ends(&grown), vec![(0, 9)]);
    let next = select_next_sibling(&syntax, text.slice(..), Selection::single(0, 1));
    assert_eq!(ends(&next), vec![(2, 3)]);
    let next = select_next_sibling(&syntax, text.slice(..), next);
    assert_eq!(ends(&next), vec![(4, 8)]);
}

#[test]
fn a_node_that_ends_inside_a_character_selects_up_to_that_character() {
    let text = Rope::from_str("aé");
    // The node ends after the first byte of `é`.
    let mut tree = SyntaxTree::new(0, 3).unwrap();
    tree.add_child(0, 0, 2).unwrap();
    let syntax = Syntax::new(0, 3, tree);
    let shrunk = shrink_selection(&syntax, text.slice(..), Selection::single(0, 2));
    assert_eq!(ends(&shrunk), vec![(0, 1)]);
}

#[test]
fn in_bounds_checks_selection_and_syntax_against_the_text() {
    let text = Rope::from_str(SOURCE);
    let syntax = Syntax::new(0, 24, sample());
    assert!(in_bounds(&syntax, text.slice(..), &Selection::single(0, 24)));
    assert!(in_bounds(&syntax, text.slice(..), &Selection::single(24, 24)));
    assert!(!in_bounds(&syntax, text.slice(..), &Selection::single(0, 25)));
    assert!(!in_bounds(&syntax, text.slice(..), &Selection::single(25, 0)));
    // A tree that was parsed from a longer text.
    let longer = Syntax::new(0, 25, SyntaxTree::new(0, 25).unwrap());
    assert!(!in_bounds(&longer, text.slice(..), &Selection::single(0, 1)));
    // The selection counts characters, the tree bytes.
    let text = Rope::from_str("éé");
    let syntax = Syntax::new(0, 4, SyntaxTree::new(0, 4).unwrap());
    assert!(in_bounds(&syntax, text.slice(..), &Selection::single(0, 2)));
    assert!(!in_bounds(&syntax, text.slice(..), &Selection::single(0, 3)));
    let syntax = Syntax::new(0, 5, SyntaxTree::new(0, 5).unwrap());
    assert!(!in_bounds(&syntax, text.slice(..), &Selection::single(0, 2)));
    // A slice of a text is a text.
    let text = Rope::from_str(SOURCE);
    let syntax = Syntax::new(0, 7, SyntaxTree::new(0, 7).unwrap());
    assert!(in_bounds(&syntax, text.slice(..7), &Selection::single(0, 7)));
    assert!(!in_bounds(&syntax, text.slice(..7), &Selection::single(0, 8)));
}

#[test]
fn expand_crosses_into_the_enclosing_layer() {
    // root 0..50: head 0..10, host 10..20, tail 20..50
    let mut markup = SyntaxTree::new(0, 50).unwrap();
    markup.add_child(0, 0, 10).unwrap();
    markup.add_child(0, 10, 20).unwrap();
    markup.add_child(0, 20, 50).unwrap();
    // root 10..20: first 10..14, second 15..20
    let mut embedded = SyntaxTree::new(10, 20).unwrap();
    embedded.add_child(0, 10, 14).unwrap();
    embedded.add_child(0, 15, 20).unwrap();
    let mut syntax = Syntax::new(0, 50, markup);
    let root = syntax.root();
    syntax.add_layer(root, 10, 20, embedded).unwrap();
    let text = Rope::from_str("0123456789012345678901234567890123456789012345678901234567");
    let grown = expand_selection(&syntax, text.slice(..), Selection::single(11, 12));
    assert_eq!(ends(&grown), vec![(10, 14)]);
    let grown = expand_selection(&syntax, text.slice(..), grown);
    assert_eq!(ends(&grown), vec![(10, 20)]);
    // The root of the embedded tree and its host have the same span: the
    // selection grows past both.
    let grown = expand_selection(&syntax, text.slice(..), grown);
    assert_eq!(ends(&grown), vec![(0, 50)]);
    // Shrinking the host enters the embedded layer.
    let shrunk = shrink_selection(&syntax, text.slice(..), Selection::single(0, 50));
    assert_eq!(ends(&shrunk), vec![(0, 10)]);
    let next = select_next_sibling(&syntax, text.slice(..), shrunk);
    assert_eq!(ends(&next), vec![(10, 20)]);
}

#[test]
fn shrinking_to_an_empty_child_loses_the_node() {
    // root 0..10
    //   item 0..10
    //     mark 0..0
    //     word 0..3
    //     rest 3..10
    let mut tree = SyntaxTree::new(0, 10).unwrap();
    let item = tree.add_child(0, 0, 10).unwrap();
    tree.add_child(item, 0, 0).unwrap();
    tree.add_child(item, 0, 3).unwrap();
    tree.add_child(item, 3, 10).unwrap();
    let syntax = Syntax::new(0, 10, tree);
    let text = Rope::from_str("0123456789");
    let shrunk = shrink_selection(&syntax, text.slice(..), Selection::single(0, 10));
    assert_eq!(ends(&shrunk), vec![(0, 0)]);
    // The empty range belongs to the word that begins there.
    let back = expand_selection(&syntax, text.slice(..), shrunk);
    assert_eq!(ends(&back), vec![(0, 3)]);
}

#[test]
fn sibling_round_trip_stops_below_a_chain_of_equal_spans() {
    // root 0..20
    //   one 0..5
    //   two 5..10
    //     inner 5..10
    //       innermost 5..10
    //   three 10..20
    let mut tree = SyntaxTree::new(0, 20).unwrap();
    tree.add_child(0, 0, 5).unwrap();
    let two = tree.add_child(0, 5, 10).unwrap();
    tree.add_child(0, 10, 20).unwrap();
    let inner = tree.add_child(two, 5, 10).unwrap();
    tree.add_child(inner, 5, 10).unwrap();
    let syntax = Syntax::new(0, 20, tree);
    let text = Rope::from_str("01234567890123456789");
    let there = select_next_sibling(&syntax, text.slice(..), Selection::single(0, 5));
    assert_eq!(ends(&there), vec![(5, 10)]);
    // The range resets to the innermost node, whose parent has no sibling
    // either: the step ends where it began.
    let back = select_prev_sibling(&syntax, text.slice(..), there);
    assert_eq!(ends(&back), vec![(5, 10)]);
    // One level less and the step leads back.
    let mut tree = SyntaxTree::new(0, 20).unwrap();
    tree.add_child(0, 0, 5).unwrap();
    let two = tree.add_child(0, 5, 10).unwrap();
    tree.add_child(0, 10, 20).unwrap();
    tree.add_child(two, 5, 10).unwrap();
    let syntax = Syntax::new(0, 20, tree);
    let there = select_next_sibling(&syntax, text.slice(..), Selection::single(0, 5));
    let back = select_prev_sibling(&syntax, text.slice(..), there);
    assert_eq!(ends(&back), vec![(0, 5)]);
}

#[test]
fn a_last_child_of_a_last_child_stays_selected() {
    // root 0..5
    //   a 0..1
    //   parent 2..5
    //     first 2..3
    //     second 4..5
    let mut tree = SyntaxTree::new(0, 5).unwrap();
    tree.add_child(0, 0, 1).unwrap();
    let parent = tree.add_child(0, 2, 5).unwrap();
    tree.add_child(parent, 2, 3).unwrap();
    tree.add_child(parent, 4, 5).unwrap();
    let syntax = Syntax::new(0, 5, tree);
    let text = Rope::from_str("a b c");
    let next = select_next_sibling(&syntax, text.slice(..), Selection::single(4, 5));
    assert_eq!(ends(&next), vec![(4, 5)]);
    // To the left the parent has a sibling.
    let prev = select_prev_sibling(&syntax, text.slice(..), Selection::single(2, 3));
    assert_eq!(ends(&prev), vec![(0, 1)]);
}

#[test]
fn a_first_child_of_a_first_child_stays_selected() {
    // root 0..5
    //   parent 0..3
    //     first 0..1
    //     second 2..3
    //   b 4..5
    let mut tree = SyntaxTree::new(0, 5).unwrap();
    let parent = tree.add_child(0, 0, 3).unwrap();
    tree.add_child(0, 4, 5).unwrap();
    tree.add_child(parent, 0, 1).unwrap();
    tree.add_child(parent, 2, 3).unwrap();
    let syntax = Syntax::new(0, 5, tree);
    let text = Rope::from_str("a b c");
    let prev = select_prev_sibling(&syntax, text.slice(..), Selection::single(0, 1));
    assert_eq!(ends(&prev), vec![(0, 1)]);
    // To the right the parent has a sibling.
    let next = select_next_sibling(&syntax, text.slice(..), Selection::single(2, 3));
    assert_eq!(ends(&next), vec![(4, 5)]);
    // The direction is kept when nothing moves.
    let prev = select_prev_sibling(&syntax, text.slice(..), Selection::single(1, 0));
    assert_eq!(ends(&prev), vec![(1, 0)]);
}

#[test]
fn shrinking_onto_a_host_and_growing_keeps_the_node() {
    // root 0..30: host 0..10, tail 10..30
    let mut markup = SyntaxTree::new(0, 30).unwrap();
    markup.add_child(0, 0, 10).unwrap();
    markup.add_child(0, 10, 30).unwrap();
    // root 0..10: first 0..4, second 5..10
    let mut embedded = SyntaxTree::new(0, 10).unwrap();
    embedded.add_child(0, 0, 4).unwrap();
    embedded.add_child(0, 5, 10).unwrap();
    let mut syntax = Syntax::new(0, 30, markup);
    let root = syntax.root();
    syntax.add_layer(root, 0, 10, embedded).unwrap();
    assert!(syntax.is_laid_out());
    let text = Rope::from_str("012345678901234567890123456789");
    let shrunk = shrink_selection(&syntax, text.slice(..), Selection::single(0, 30));
    assert_eq!(ends(&shrunk), vec![(0, 10)]);
    // The host's span resets into the embedded layer; growing it climbs out
    // of that layer and past the host.
    let back = expand_selection(&syntax, text.slice(..), shrunk);
    assert_eq!(ends(&back), vec![(0, 30)]);
}

#[test]
fn a_sibling_that_hosts_a_layer_leads_back_through_its_host() {
    // root 0..30: one 0..10, host 10..20, tail 20..30
    let mut markup = SyntaxTree::new(0, 30).unwrap();
    markup.add_child(0, 0, 10).unwrap();
    markup.add_child(0, 10, 20).unwrap();
    markup.add_child(0, 20, 30).unwrap();
    // root 10..20: first 10..14, second 15..20
    let mut embedded = SyntaxTree::new(10, 20).unwrap();
    embedded.add_child(0, 10, 14).unwrap();
    embedded.add_child(0, 15, 20).unwrap();
    let mut syntax = Syntax::new(0, 30, markup);
    let root = syntax.root();
    syntax.add_layer(root, 10, 20, embedded).unwrap();
    assert!(syntax.is_laid_out());
    let text = Rope::from_str("012345678901234567890123456789");
    let there = select_next_sibling(&syntax, text.slice(..), Selection::single(0, 10));
    assert_eq!(ends(&there), vec![(10, 20)]);
    // The host's span resets to the root of the embedded layer, which has no
    // sibling; the host above it has one.
    let back = select_prev_sibling(&syntax, text.slice(..), there);
    assert_eq!(ends(&back), vec![(0, 10)]);
    // From a node of the embedded layer's tree the step stays in that tree.
    let inside = select_next_sibling(&syntax, text.slice(..), Selection::single(10, 14));
    assert_eq!(ends(&inside), vec![(15, 20)]);
}
