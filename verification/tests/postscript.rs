//! The operand stack of calculator code.

use tnviz::postscript::{Code, Slot};

#[test]
fn copies_count_from_the_top() {
    let code = Code::new(vec![Slot::X, Slot::Y, Slot::Var(0)]);
    assert_eq!(code.index_of(Slot::Var(0), 3), 0);
    assert_eq!(code.index_of(Slot::X, 3), 2);
    // With two temporaries above the stack.
    assert_eq!(code.index_of(Slot::Y, 5), 3);
}

#[test]
fn words_are_separated_by_spaces() {
    let mut code = Code::new(vec![]);
    code.word("1");
    code.word("add");
    code.push(Slot::X);
    assert_eq!(code.to_text(), "1 add ");
    assert_eq!(code.depth(), 1);
}

#[test]
fn values_leave_after_their_last_use() {
    let mut code = Code::new(vec![Slot::X, Slot::Y, Slot::Var(0)]);
    let last = [(Slot::X, 0), (Slot::Y, 1), (Slot::Var(0), 0)];
    code.free(&last, 0);
    // The top is popped directly; X is rolled up from below Y first.
    assert_eq!(code.to_text(), "pop 2 -1 roll pop ");
    assert_eq!(code.depth(), 1);
    assert_eq!(code.index_of(Slot::Y, 1), 0);
    code.free(&last, 1);
    assert_eq!(code.to_text(), "pop 2 -1 roll pop pop ");
    assert_eq!(code.depth(), 0);
}

#[test]
fn unused_values_leave_first() {
    let mut code = Code::new(vec![Slot::X, Slot::Y]);
    // A later entry replaces an earlier one; Y is never used.
    let last = [(Slot::X, 3), (Slot::X, 5)];
    code.free(&last, usize::MAX);
    assert_eq!(code.to_text(), "pop ");
    code.free(&last, 3);
    assert_eq!(code.depth(), 1);
    code.free(&last, 5);
    assert_eq!(code.to_text(), "pop pop ");
}
