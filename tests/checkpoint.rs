use adoc_parser::checkpoint_iterator::{CheckpointIterator, PopError};

fn stream(text: &str) -> CheckpointIterator<char> {
    CheckpointIterator::new(text.chars().collect())
}

#[test]
fn new_stream_starts_at_zero() {
    let s = stream("abc");
    assert_eq!(s.current_position(), 0);
}

#[test]
fn step_returns_items_in_order_then_none() {
    let mut s = stream("ab");
    assert_eq!(s.step(), Some('a'));
    assert_eq!(s.step(), Some('b'));
    assert_eq!(s.current_position(), 2);
    assert_eq!(s.step(), None);
    assert_eq!(s.current_position(), 2);
}

#[test]
fn pop_rewinds_to_push() {
    let mut s = stream("abcdef");
    assert_eq!(s.step(), Some('a'));
    assert_eq!(s.push(), 1);
    assert_eq!(s.step(), Some('b'));
    assert_eq!(s.step(), Some('c'));
    assert_eq!(s.step(), Some('d'));
    assert_eq!(s.pop(), Ok(1));
    assert_eq!(s.current_position(), 1);
    assert_eq!(s.step(), Some('b'));
    assert_eq!(s.step(), Some('c'));
    assert_eq!(s.step(), Some('d'));
    assert_eq!(s.step(), Some('e'));
}

#[test]
fn drop_keeps_what_was_read() {
    let mut s = stream("abcdef");
    assert_eq!(s.push(), 0);
    assert_eq!(s.step(), Some('a'));
    assert_eq!(s.step(), Some('b'));
    assert_eq!(s.step(), Some('c'));
    assert_eq!(s.drop(), Ok(0));
    assert_eq!(s.current_position(), 3);
    assert_eq!(s.step(), Some('d'));
}

#[test]
fn nested_pops_replay_everything() {
    let mut s = stream("abcdef");
    s.push();
    assert_eq!(s.step(), Some('a'));
    s.push();
    assert_eq!(s.step(), Some('b'));
    assert_eq!(s.step(), Some('c'));
    assert_eq!(s.pop(), Ok(1));
    assert_eq!(s.step(), Some('b'));
    assert_eq!(s.pop(), Ok(0));
    assert_eq!(s.current_position(), 0);
    let all: Vec<char> = (0..6).map(|_| s.step().unwrap()).collect();
    assert_eq!(all, vec!['a', 'b', 'c', 'd', 'e', 'f']);
}

#[test]
fn inner_pop_then_outer_pop_without_reading() {
    let mut s = stream("xyz");
    s.push();
    s.push();
    assert_eq!(s.step(), Some('x'));
    assert_eq!(s.step(), Some('y'));
    assert_eq!(s.pop(), Ok(0));
    assert_eq!(s.pop(), Ok(0));
    assert_eq!(s.step(), Some('x'));
    assert_eq!(s.step(), Some('y'));
    assert_eq!(s.step(), Some('z'));
    assert_eq!(s.step(), None);
}

#[test]
fn inner_drop_then_outer_pop_rewinds_both() {
    let mut s = stream("abc");
    s.push();
    s.push();
    assert_eq!(s.step(), Some('a'));
    assert_eq!(s.drop(), Ok(0));
    assert_eq!(s.step(), Some('b'));
    assert_eq!(s.pop(), Ok(0));
    assert_eq!(s.step(), Some('a'));
    assert_eq!(s.step(), Some('b'));
}

#[test]
fn pop_and_drop_on_empty_stack_fail() {
    let mut s = stream("a");
    assert_eq!(s.pop(), Err(PopError::PopOnEmptyStack));
    assert_eq!(s.drop(), Err(PopError::PopOnEmptyStack));
    assert_eq!(s.step(), Some('a'));
}

#[test]
fn take_while_keeps_the_first_failing_item() {
    let mut s = stream("aaab");
    let run = s.take_while_ref(|c| c == 'a');
    assert_eq!(run, vec!['a', 'a', 'a']);
    assert_eq!(s.current_position(), 3);
    assert_eq!(s.step(), Some('b'));
}

#[test]
fn take_while_after_rewind_reads_replayed_items() {
    let mut s = stream("aab");
    s.push();
    s.step();
    s.step();
    s.step();
    s.pop().unwrap();
    let run = s.take_while_ref(|c| c == 'a');
    assert_eq!(run, vec!['a', 'a']);
    assert_eq!(s.step(), Some('b'));
}

#[test]
fn take_while_on_empty_run() {
    let mut s = stream("b");
    assert!(s.take_while_ref(|c| c == 'a').is_empty());
    assert_eq!(s.step(), Some('b'));
}

#[test]
fn error_is_located_at_the_position() {
    let mut s = stream("abc");
    s.step();
    s.step();
    let e = s.error(String::from("oops"));
    assert_eq!(e.start, 2);
    assert_eq!(e.end, 2);
    assert_eq!(e.message, "oops");
}

#[test]
fn peek_item_does_not_consume() {
    let mut s = stream("q");
    assert_eq!(s.peek_item(), Some('q'));
    assert_eq!(s.current_position(), 0);
    assert_eq!(s.step(), Some('q'));
}
