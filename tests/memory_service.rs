use session_memory::codec::{content_of, decode, encode, Message};
use session_memory::memory::{
    admit_compaction, context_key, decode_lines, delete_keys, delete_last_decision, delete_last_range,
    encode_batch, memory_response, plan_read, DeleteLastOutcome,
};
use session_memory::registry::CleanupRegistry;

fn msg(role: &str, content: &str) -> Message {
    Message { role: role.to_string(), content: content.to_string() }
}

fn lines(items: &[&str]) -> Vec<String> {
    items.iter().map(|s| s.to_string()).collect()
}

// Pushes each line to the front in turn, as the store's list push does.
fn push_front(list: &mut Vec<String>, values: &[String]) -> i64 {
    for v in values {
        list.insert(0, v.clone());
    }
    list.len() as i64
}

fn window(list: &[String], stop: u64) -> Vec<String> {
    let n = std::cmp::min(list.len(), stop as usize + 1);
    list[..n].to_vec()
}

#[test]
fn encode_joins_role_and_content() {
    assert_eq!(encode(&msg("user", "hi")), "user: hi");
    assert_eq!(encode(&msg("assistant", "")), "assistant: ");
}

#[test]
fn round_trip_keeps_message() {
    for (role, content) in [("user", "hi"), ("a:", "b: c"), ("system", ""), ("", "x"), ("tool", "naïve: ünïcode")] {
        let m = decode(&encode(&msg(role, content))).unwrap();
        assert_eq!(m.role, role);
        assert_eq!(m.content, content);
    }
}

#[test]
fn decode_splits_on_first_delimiter() {
    let m = decode("user: a: b").unwrap();
    assert_eq!(m.role, "user");
    assert_eq!(m.content, "a: b");
    let m = decode("a:: c").unwrap();
    assert_eq!(m.role, "a:");
    assert_eq!(m.content, "c");
}

#[test]
fn decode_drops_line_without_delimiter() {
    assert!(decode("garbage").is_none());
    assert!(decode("user:hi").is_none());
    assert!(decode("").is_none());
    assert!(decode(":").is_none());
}

#[test]
fn content_of_line_without_delimiter_is_empty() {
    assert_eq!(content_of("user: hello"), "hello");
    assert_eq!(content_of("broken"), "");
}

#[test]
fn read_skips_corrupt_lines() {
    let raw = lines(&["user: hi", "broken", "assistant: hello: there"]);
    let r = memory_response(&raw, Some("summary".to_string()));
    assert_eq!(r.messages.len(), 2);
    assert_eq!(r.messages[0].role, "user");
    assert_eq!(r.messages[1].content, "hello: there");
    assert_eq!(r.context, Some("summary".to_string()));
    assert_eq!(decode_lines(&lines(&["x", "y"])).len(), 0);
}

#[test]
fn read_of_absent_session_is_empty() {
    let r = memory_response(&Vec::new(), None);
    assert!(r.messages.is_empty());
    assert!(r.context.is_none());
}

#[test]
fn read_plan_uses_inclusive_window() {
    let p = plan_read("s1", 3);
    assert_eq!(p.list_key, "s1");
    assert_eq!(p.context_key, "s1_context");
    assert_eq!(p.stop, 3);
    assert_eq!(context_key("abc"), "abc_context");
}

#[test]
fn window_bound_holds_for_many_batches() {
    let window_size: u64 = 3;
    let mut list: Vec<String> = Vec::new();
    for k in 0..10 {
        let batch = vec![msg("user", &format!("q{}", k)), msg("assistant", &format!("a{}", k))];
        push_front(&mut list, &encode_batch(&batch));
        let r = memory_response(&window(&list, plan_read("s", window_size).stop), None);
        assert!(r.messages.len() as u64 <= window_size + 1);
    }
    let r = memory_response(&window(&list, window_size), None);
    assert_eq!(r.messages.len(), 4);
    assert_eq!(r.messages[0].content, "a9");
}

#[test]
fn encode_batch_keeps_order() {
    let b = encode_batch(&vec![msg("user", "1"), msg("assistant", "2")]);
    assert_eq!(b, lines(&["user: 1", "assistant: 2"]));
}

#[test]
fn registry_admits_once_until_release() {
    let mut reg = CleanupRegistry::new();
    assert!(!reg.is_in_flight("s"));
    assert!(reg.try_admit("s"));
    assert!(reg.is_in_flight("s"));
    assert!(!reg.try_admit("s"));
    assert!(!reg.try_admit("s"));
    assert!(reg.try_admit("t"));
    reg.release("s");
    assert!(!reg.is_in_flight("s"));
    assert!(reg.is_in_flight("t"));
    assert!(reg.try_admit("s"));
    reg.release("absent");
    assert!(reg.is_in_flight("s"));
}

#[test]
fn admission_requires_list_past_window() {
    let mut reg = CleanupRegistry::new();
    assert!(!admit_compaction(&mut reg, "s", 3, 3));
    assert!(!reg.is_in_flight("s"));
    assert!(!admit_compaction(&mut reg, "s", -1, 3));
    assert!(admit_compaction(&mut reg, "s", 4, 3));
    assert!(reg.is_in_flight("s"));
    assert!(!admit_compaction(&mut reg, "s", 9, 3));
}

#[test]
fn concrete_scenario_one_compaction() {
    let window_size: u64 = 3;
    let mut reg = CleanupRegistry::new();
    let mut list: Vec<String> = Vec::new();
    let mut started = 0;
    let len = push_front(&mut list, &encode_batch(&vec![msg("user", "hi")]));
    assert_eq!(list, lines(&["user: hi"]));
    assert_eq!(len, 1);
    if admit_compaction(&mut reg, "s", len, window_size) {
        started += 1;
    }
    assert_eq!(started, 0);
    for c in ["a", "b", "c"] {
        let len = push_front(&mut list, &encode_batch(&vec![msg("user", c)]));
        if admit_compaction(&mut reg, "s", len, window_size) {
            started += 1;
        }
    }
    assert_eq!(list.len(), 4);
    assert_eq!(started, 1);
    let r = memory_response(&window(&list, window_size), None);
    assert_eq!(r.messages.len(), 4);
    assert_eq!(r.messages[0].content, "c");
    assert!(r.context.is_none());
    // further appends while the task runs start nothing more
    let len = push_front(&mut list, &encode_batch(&vec![msg("user", "d")]));
    assert!(!admit_compaction(&mut reg, "s", len, window_size));
    reg.release("s");
    assert!(admit_compaction(&mut reg, "s", len, window_size));
}

#[test]
fn delete_last_guard_refuses_repeat() {
    let mut list = lines(&["user: m0", "assistant: m1", "user: m2"]);
    let (start, stop) = delete_last_range(2).unwrap();
    assert_eq!((start, stop), (0, 1));
    let read = window(&list, stop);
    assert_eq!(delete_last_decision(&read, 2, "m0"), DeleteLastOutcome::Trim { keep_from: 2 });
    list.drain(..2);
    assert_eq!(list, lines(&["user: m2"]));
    let read = window(&list, stop);
    assert_eq!(delete_last_decision(&read, 2, "m0"), DeleteLastOutcome::Mismatch);
}

#[test]
fn delete_last_rejects_empty_and_zero() {
    assert_eq!(delete_last_range(0), None);
    assert_eq!(delete_last_decision(&Vec::new(), 2, "x"), DeleteLastOutcome::Mismatch);
    assert_eq!(delete_last_decision(&lines(&["user: x"]), 0, "x"), DeleteLastOutcome::Mismatch);
    assert_eq!(delete_last_decision(&lines(&["user: y"]), 1, "x"), DeleteLastOutcome::Mismatch);
    assert_eq!(delete_last_decision(&lines(&["broken"]), 1, ""), DeleteLastOutcome::Trim { keep_from: 1 });
}

#[test]
fn delete_removes_list_and_context_keys() {
    assert_eq!(delete_keys("s1"), lines(&["s1", "s1_context"]));
    let mut store: std::collections::HashMap<String, String> = std::collections::HashMap::new();
    for k in delete_keys("absent") {
        store.remove(&k);
    }
    assert!(store.is_empty());
}
