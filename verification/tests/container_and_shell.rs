use xmodem::shell::{interpret_line, Command, KeyAction, ParseError, ShellReply, key_action};
use xmodem::stack_vec::StackVec;

fn arg_storage(capacity: usize) -> StackVec<Vec<u8>> {
    let mut storage: Vec<Vec<u8>> = Vec::new();
    for _ in 0..capacity {
        storage.push(Vec::new());
    }
    StackVec::new(storage)
}

#[test]
fn stack_vec_new_is_empty_with_given_capacity() {
    let v: StackVec<u8> = StackVec::new(vec![0; 4]);
    assert_eq!(v.len(), 0);
    assert_eq!(v.capacity(), 4);
    assert!(v.is_empty());
    assert!(!v.is_full());
}

#[test]
fn stack_vec_with_len_keeps_prefix() {
    let v = StackVec::with_len(vec![10u8, 20, 30, 40], 2);
    assert_eq!(v.len(), 2);
    assert_eq!(v.capacity(), 4);
    assert_eq!(v.as_slice(), &[10, 20]);
}

#[test]
fn stack_vec_push_until_full() {
    let mut v: StackVec<u8> = StackVec::new(vec![0; 2]);
    assert_eq!(v.push(1), Ok(()));
    assert_eq!(v.push(2), Ok(()));
    assert!(v.is_full());
    assert_eq!(v.push(3), Err(()));
    assert_eq!(v.as_slice(), &[1, 2]);
    assert_eq!(v.capacity(), 2);
}

#[test]
fn stack_vec_pop_returns_last() {
    let mut v = StackVec::with_len(vec![5u8, 6, 7], 3);
    assert_eq!(v.pop(), Some(7));
    assert_eq!(v.pop(), Some(6));
    assert_eq!(v.len(), 1);
    assert_eq!(v.capacity(), 3);
    assert_eq!(v.pop(), Some(5));
    assert_eq!(v.pop(), None);
}

#[test]
fn stack_vec_truncate_keeps_prefix_and_capacity() {
    let mut v = StackVec::with_len(vec![1u8, 2, 3, 4], 4);
    v.truncate(2);
    assert_eq!(v.as_slice(), &[1, 2]);
    assert_eq!(v.capacity(), 4);
    v.truncate(9);
    assert_eq!(v.as_slice(), &[1, 2]);
}

#[test]
fn stack_vec_into_slice_and_iter() {
    let mut v: StackVec<u8> = StackVec::new(vec![0; 3]);
    let _ = v.push(8);
    let _ = v.push(9);
    assert_eq!(v.iter(), &[8, 9]);
    let s = v.into_slice();
    assert_eq!(s, vec![8, 9]);
}

#[test]
fn stack_vec_as_mut_slice_writes_through() {
    let mut v = StackVec::with_len(vec![1u8, 2, 3], 3);
    v.as_mut_slice()[1] = 9;
    assert_eq!(v.as_slice(), &[1, 9, 3]);
    v.iter_mut()[0] = 7;
    assert_eq!(v.as_slice(), &[7, 9, 3]);
}

#[test]
fn stack_vec_into_iter_yields_in_order() {
    let mut v: StackVec<u8> = StackVec::new(vec![0; 3]);
    let _ = v.push(4);
    let _ = v.push(5);
    let mut it = v.into_iter();
    assert_eq!(it.next(), Some(4));
    assert_eq!(it.next(), Some(5));
    assert_eq!(it.next(), None);
}

#[test]
fn command_parse_splits_on_spaces() {
    let cmd = Command::parse(b"echo hello  world ", arg_storage(8)).expect("parses");
    assert_eq!(cmd.path(), &b"echo".to_vec());
    let args = cmd.into_args();
    assert_eq!(args, vec![b"echo".to_vec(), b"hello".to_vec(), b"world".to_vec()]);
}

#[test]
fn command_parse_empty_line() {
    assert!(matches!(Command::parse(b"   ", arg_storage(4)), Err(ParseError::Empty)));
    assert!(matches!(Command::parse(b"", arg_storage(4)), Err(ParseError::Empty)));
}

#[test]
fn command_parse_too_many_args() {
    assert!(matches!(
        Command::parse(b"a b c", arg_storage(2)),
        Err(ParseError::TooManyArgs)
    ));
}

#[test]
fn interpret_line_dispatch() {
    match interpret_line(b"echo one two", arg_storage(8)) {
        ShellReply::Echo(args) => {
            assert_eq!(args, vec![b"one".to_vec(), b"two".to_vec()]);
        },
        _ => panic!("expected an echo reply"),
    }
    assert!(matches!(interpret_line(b"welcome", arg_storage(8)), ShellReply::Welcome));
    match interpret_line(b"ls -l", arg_storage(8)) {
        ShellReply::Unknown(path) => assert_eq!(path, b"ls".to_vec()),
        _ => panic!("expected an unknown-command reply"),
    }
    assert!(matches!(interpret_line(b"  ", arg_storage(8)), ShellReply::Silent));
    assert!(matches!(interpret_line(b"a b c", arg_storage(2)), ShellReply::TooManyArgs));
}

#[test]
fn key_action_decisions() {
    assert_eq!(key_action(b'\r', 0, 512), KeyAction::Submit);
    assert_eq!(key_action(b'\n', 3, 512), KeyAction::Submit);
    assert_eq!(key_action(8, 2, 512), KeyAction::Erase);
    assert_eq!(key_action(127, 0, 512), KeyAction::Ignore);
    assert_eq!(key_action(b'x', 3, 512), KeyAction::Append);
    assert_eq!(key_action(b'x', 512, 512), KeyAction::Bell);
    assert_eq!(key_action(200, 3, 512), KeyAction::Bell);
}
