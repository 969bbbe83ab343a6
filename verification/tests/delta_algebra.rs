use mace::delta::{Builder, Delta, Operation};
use mace::position::Position;
use mace::size::Size;
use mace::text::Text;

fn text_of(s: &str) -> Text {
    let lines: Vec<Vec<char>> = s.split('\n').map(|l| l.chars().collect()).collect();
    Text::from_lines(lines)
}

fn lines_of(t: &Text) -> Vec<String> {
    t.as_lines().iter().map(|l| l.iter().collect()).collect()
}

fn sz(line: usize, column: usize) -> Size {
    Size { line, column }
}

#[test]
fn apply_insert_within_line() {
    // "ab" with "X" inserted at column 1 gives "aXb".
    let base = text_of("ab");
    let mut b = Builder::new();
    b.retain(sz(0, 1));
    b.insert(text_of("X"));
    let d = b.build();
    let mut t = base;
    t.apply_delta(&d);
    assert_eq!(lines_of(&t), vec!["aXb".to_string()]);
}

#[test]
fn apply_delete_within_line() {
    // "abc" with the "b" deleted gives "ac".
    let base = text_of("abc");
    let mut b = Builder::new();
    b.retain(sz(0, 1));
    b.delete(sz(0, 1));
    let d = b.build();
    let mut t = base;
    t.apply_delta(&d);
    assert_eq!(lines_of(&t), vec!["ac".to_string()]);
}

#[test]
fn apply_multiline_insert() {
    // Splitting "ab" at column 1 by inserting a line break gives "a", "b".
    let base = text_of("ab");
    let mut b = Builder::new();
    b.retain(sz(0, 1));
    b.insert(text_of("\n"));
    let d = b.build();
    let mut t = base;
    t.apply_delta(&d);
    assert_eq!(lines_of(&t), vec!["a".to_string(), "b".to_string()]);
}

#[test]
fn apply_delete_line_break() {
    // Deleting the line break of "a", "b" joins the lines into "ab".
    let base = text_of("a\nb");
    let mut b = Builder::new();
    b.retain(sz(0, 1));
    b.delete(sz(1, 0));
    let d = b.build();
    let mut t = base;
    t.apply_delta(&d);
    assert_eq!(lines_of(&t), vec!["ab".to_string()]);
}

#[test]
fn identity_changes_nothing() {
    let base = text_of("hello\nworld");
    let d = Delta::identity();
    let mut t = base;
    t.apply_delta(&d);
    assert_eq!(lines_of(&t), vec!["hello".to_string(), "world".to_string()]);
}

fn insert_at(col: usize, s: &str) -> Delta {
    let mut b = Builder::new();
    b.retain(sz(0, col));
    b.insert(text_of(s));
    b.build()
}

#[test]
fn compose_applies_in_sequence() {
    // A inserts "X" at 1 in "ab" -> "aXb"; B deletes the "a" of "aXb".
    let base = text_of("ab");
    let a = insert_at(1, "X");
    let mut b = Builder::new();
    b.delete(sz(0, 1));
    let bd = b.build();

    let mut stepwise = base.applied(&a);
    stepwise.apply_delta(&bd);

    let composed = a.compose(bd);
    let direct = text_of("ab").applied(&composed);
    assert_eq!(lines_of(&direct), lines_of(&stepwise));
    assert_eq!(lines_of(&direct), vec!["Xb".to_string()]);
}

#[test]
fn compose_is_associative_in_effect() {
    // Three deltas chained on "abcd": both groupings give the same text.
    let base = text_of("abcd");
    let a = insert_at(2, "X");
    // against "abXcd":
    let mut b = Builder::new();
    b.retain(sz(0, 1));
    b.delete(sz(0, 2));
    let bd = b.build();
    // against "acd" (output of a then b):
    let c = insert_at(3, "Y");

    let left = a.clone().compose(bd.clone()).compose(c.clone());
    let right = a.compose(bd.compose(c));
    let t1 = base.applied(&left);
    let t2 = text_of("abcd").applied(&right);
    assert_eq!(lines_of(&t1), lines_of(&t2));
    assert_eq!(lines_of(&t1), vec!["acdY".to_string()]);
}

#[test]
fn transform_diamond_converges() {
    // Both authored against "ab": ours inserts "X" at 1; theirs inserts "Y"
    // at 0. Applying ours then theirs-transformed equals theirs then
    // ours-transformed.
    let base = text_of("ab");
    let ours = insert_at(1, "X");
    let theirs = insert_at(0, "Y");

    let (ours_after, theirs_after) = ours.clone().transform(theirs.clone());
    let one = base.applied(&ours).applied(&theirs_after);
    let two = text_of("ab").applied(&theirs).applied(&ours_after);
    assert_eq!(lines_of(&one), lines_of(&two));
    // Ours (the first argument) is ordered before theirs only at the same
    // point; here the offsets differ.
    assert_eq!(lines_of(&one), vec!["YaXb".to_string()]);
}

#[test]
fn transform_same_point_orders_first_argument_first() {
    let base = text_of("ab");
    let first = insert_at(1, "X");
    let second = insert_at(1, "Y");
    let (first_after, second_after) = first.clone().transform(second.clone());
    let one = base.applied(&first).applied(&second_after);
    let two = text_of("ab").applied(&second).applied(&first_after);
    assert_eq!(lines_of(&one), lines_of(&two));
    assert_eq!(lines_of(&one), vec!["aXYb".to_string()]);
}

#[test]
fn transform_of_overlapping_deletions_converges() {
    // Both against "abcdef": ours deletes "bcd", theirs deletes "cde".
    let base = text_of("abcdef");
    let mut o = Builder::new();
    o.retain(sz(0, 1));
    o.delete(sz(0, 3));
    let ours = o.build();
    let mut t = Builder::new();
    t.retain(sz(0, 2));
    t.delete(sz(0, 3));
    let theirs = t.build();

    let (ours_after, theirs_after) = ours.clone().transform(theirs.clone());
    let one = base.applied(&ours).applied(&theirs_after);
    let two = text_of("abcdef").applied(&theirs).applied(&ours_after);
    assert_eq!(lines_of(&one), lines_of(&two));
    // Text deleted by either side stays deleted.
    assert_eq!(lines_of(&one), vec!["af".to_string()]);
}

#[test]
fn transform_of_deletion_against_insertion_converges() {
    // Against "ab\ncd": ours deletes the line break, theirs inserts "Z" at
    // the start of the second line.
    let base = text_of("ab\ncd");
    let mut o = Builder::new();
    o.retain(sz(0, 2));
    o.delete(sz(1, 0));
    let ours = o.build();
    let mut t = Builder::new();
    t.retain(sz(1, 0));
    t.insert(text_of("Z"));
    let theirs = t.build();

    let (ours_after, theirs_after) = ours.clone().transform(theirs.clone());
    let one = base.applied(&ours).applied(&theirs_after);
    let two = text_of("ab\ncd").applied(&theirs).applied(&ours_after);
    assert_eq!(lines_of(&one), lines_of(&two));
    assert_eq!(lines_of(&one), vec!["abZcd".to_string()]);
}

#[test]
fn compose_insertion_then_overlapping_deletion() {
    // A inserts "XY" at 1 in "ab" -> "aXYb"; B deletes "XYb" from "aXYb".
    let a = insert_at(1, "XY");
    let mut b = Builder::new();
    b.retain(sz(0, 1));
    b.delete(sz(0, 3));
    let bd = b.build();
    let composed = a.compose(bd);
    let direct = text_of("ab").applied(&composed);
    assert_eq!(lines_of(&direct), vec!["a".to_string()]);
}

#[test]
fn invert_restores_base_text() {
    let base = text_of("hello\nworld");
    let mut b = Builder::new();
    b.retain(sz(0, 2));
    b.delete(sz(1, 1));
    b.insert(text_of("NEW\nLINES"));
    let d = b.build();

    let applied = base.applied(&d);
    let inverse = d.invert(&base);
    let restored = applied.applied(&inverse);
    assert_eq!(lines_of(&restored), vec!["hello".to_string(), "world".to_string()]);
}

#[test]
fn invert_recovers_deleted_text() {
    let base = text_of("abc");
    let mut b = Builder::new();
    b.retain(sz(0, 1));
    b.delete(sz(0, 1));
    let d = b.build();
    let applied = base.applied(&d);
    assert_eq!(lines_of(&applied), vec!["ac".to_string()]);
    let inverse = d.invert(&base);
    let restored = applied.applied(&inverse);
    assert_eq!(lines_of(&restored), vec!["abc".to_string()]);
}

#[test]
fn builder_drops_trailing_retain() {
    let mut b = Builder::new();
    b.retain(sz(0, 1));
    b.insert(text_of("X"));
    b.retain(sz(0, 5));
    let d = b.build();
    assert_eq!(d.operations().len(), 2);
}

#[test]
fn builder_skips_empty_operations() {
    let mut b = Builder::new();
    b.retain(sz(0, 0));
    b.insert(Text::new());
    b.delete(sz(0, 0));
    let d = b.build();
    assert_eq!(d.operations().len(), 0);
}

#[test]
fn applies_to_checks_measures() {
    let base = text_of("ab");
    let mut b = Builder::new();
    b.retain(sz(0, 1));
    b.delete(sz(0, 5));
    let d = b.build();
    assert!(!d.applies_to(&base));
    let mut ok = Builder::new();
    ok.retain(sz(0, 1));
    ok.delete(sz(0, 1));
    let okd = ok.build();
    assert!(okd.applies_to(&base));
}

#[test]
fn operations_report_their_kind() {
    let r = Operation::Retain(sz(1, 0));
    let i = Operation::Insert(text_of("x"));
    let d = Operation::Delete(sz(0, 1));
    assert!(r.is_retain() && !r.is_insert() && !r.is_delete());
    assert!(i.is_insert());
    assert!(d.is_delete());
}

#[test]
fn positions_order_line_first() {
    let a = Position { line: 0, column: 9 };
    let b = Position { line: 1, column: 0 };
    assert!(a.lt(&b));
    assert!(a.le(&b));
    assert!(!b.le(&a));
    assert_eq!(a.min(b), a);
    assert_eq!(a.max(b), b);
}
