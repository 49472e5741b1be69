use tiny_regex_rs::matcher::{
    make_epsilon_transitions_and_insert, propogate_state, ActiveSet, MAX_DEPTH,
};
use tiny_regex_rs::{matches_nfa, NfaStateInfo, Regex};

fn thread(state: u8, start: usize, end: Option<usize>) -> NfaStateInfo {
    NfaStateInfo { state, start, end }
}

fn threads(set: &ActiveSet) -> Vec<NfaStateInfo> {
    (0..set.len()).map(|k| set.get(k)).collect()
}

#[test]
fn new_set_is_empty() {
    let set = ActiveSet::new();
    assert_eq!(0, set.len());
}

#[test]
fn split_orders_threads_by_preference() {
    // 0: Split(1, 3)  1: a  2: Jmp(0)  3: b
    let regex = Regex::compile(b"a*b").unwrap();
    let mut set = ActiveSet::new();
    make_epsilon_transitions_and_insert(&regex, thread(0, 0, None), 0, &mut set, MAX_DEPTH);
    assert_eq!(vec![thread(1, 0, None), thread(3, 0, None)], threads(&set));
}

#[test]
fn lazy_split_prefers_the_way_out() {
    // 0: Split(2, 1)  1: a  2: Unused
    let regex = Regex::compile(b"a?").unwrap();
    let mut set = ActiveSet::new();
    make_epsilon_transitions_and_insert(&regex, thread(0, 3, None), 7, &mut set, MAX_DEPTH);
    assert_eq!(vec![thread(2, 3, Some(7)), thread(1, 3, None)], threads(&set));
}

#[test]
fn first_thread_keeps_its_state() {
    let regex = Regex::compile(b"ab").unwrap();
    let mut set = ActiveSet::new();
    make_epsilon_transitions_and_insert(&regex, thread(1, 2, None), 5, &mut set, MAX_DEPTH);
    make_epsilon_transitions_and_insert(&regex, thread(1, 4, None), 5, &mut set, MAX_DEPTH);
    make_epsilon_transitions_and_insert(&regex, thread(0, 5, None), 5, &mut set, MAX_DEPTH);
    assert_eq!(vec![thread(1, 2, None), thread(0, 5, None)], threads(&set));
}

#[test]
fn arriving_at_unused_ends_the_match() {
    let regex = Regex::compile(b"ab").unwrap();
    let mut set = ActiveSet::new();
    make_epsilon_transitions_and_insert(&regex, thread(2, 1, None), 3, &mut set, MAX_DEPTH);
    assert_eq!(vec![thread(2, 1, Some(3))], threads(&set));
}

#[test]
fn exhausted_depth_lets_nothing_in() {
    let regex = Regex::compile(b"ab").unwrap();
    let mut set = ActiveSet::new();
    make_epsilon_transitions_and_insert(&regex, thread(0, 0, None), 0, &mut set, 0);
    assert_eq!(0, set.len());
}

#[test]
fn state_outside_the_program_is_ignored() {
    let regex = Regex::compile(b"ab").unwrap();
    let mut set = ActiveSet::new();
    make_epsilon_transitions_and_insert(&regex, thread(31, 0, None), 0, &mut set, MAX_DEPTH);
    make_epsilon_transitions_and_insert(&regex, thread(255, 0, None), 0, &mut set, MAX_DEPTH);
    assert_eq!(0, set.len());
}

#[test]
fn consuming_thread_moves_on() {
    let regex = Regex::compile(b"a*b").unwrap();
    let mut next = ActiveSet::new();
    propogate_state(&regex, thread(1, 0, None), b'a', 0, &mut next);
    assert_eq!(vec![thread(1, 0, None), thread(3, 0, None)], threads(&next));
}

#[test]
fn rejected_thread_is_dropped() {
    let regex = Regex::compile(b"a*b").unwrap();
    let mut next = ActiveSet::new();
    propogate_state(&regex, thread(1, 0, None), b'x', 0, &mut next);
    assert_eq!(0, next.len());
}

#[test]
fn thread_reaches_the_end_of_the_program() {
    let regex = Regex::compile(b"a*b").unwrap();
    let mut next = ActiveSet::new();
    propogate_state(&regex, thread(3, 2, None), b'b', 6, &mut next);
    assert_eq!(vec![thread(4, 2, Some(7))], threads(&next));
}

#[test]
fn finished_thread_keeps_its_end() {
    let regex = Regex::compile(b"a*b").unwrap();
    let mut next = ActiveSet::new();
    propogate_state(&regex, thread(4, 2, Some(7)), b'z', 9, &mut next);
    assert_eq!(vec![thread(4, 2, Some(7))], threads(&next));
}

#[test]
fn end_instruction_consumes_nothing() {
    let regex = Regex::compile(b"a$").unwrap();
    let mut next = ActiveSet::new();
    propogate_state(&regex, thread(1, 0, None), b'a', 1, &mut next);
    assert_eq!(0, next.len());
    assert_eq!(None, matches_nfa(&regex, b"ab"));
    assert_eq!(Some((1, 2)), matches_nfa(&regex, b"ba"));
}
