use watcher_shell::envelope::{
    encode_add_directory, encode_list_directories, encode_remove_directory, Command,
};
use watcher_shell::relay::{
    error_line_action, output_line_action, ExitStatus, LineBuffer, Relay, RelayAction, WorkerEvent,
};
use watcher_shell::supervisor::Supervisor;

fn decoded_path(line: &str) -> String {
    let v: serde_json::Value = serde_json::from_str(line).unwrap();
    assert_eq!(v["type"], "add_directory");
    v["payload"]["path"].as_str().unwrap().to_string()
}

fn emitted(actions: &[RelayAction]) -> Vec<String> {
    let mut out = Vec::new();
    for a in actions {
        if let RelayAction::Emit(s) = a {
            out.push(s.clone());
        }
    }
    out
}

#[test]
fn add_directory_plain_path() {
    assert_eq!(
        encode_add_directory("/tmp/x"),
        "{\"type\":\"add_directory\",\"payload\":{\"path\":\"/tmp/x\"}}"
    );
}

#[test]
fn add_directory_round_trips_awkward_paths() {
    let paths = [
        "/home/user/My Documents",
        "C:\\Users\\me",
        "/tmp/with \"quotes\"",
        "/tmp/line\nbreak",
        "/tmp/tab\tand\rreturn",
        "/tmp/ctl\u{1}\u{1f}\u{8}\u{c}",
        "/tmp/ünïcödé/日本/🙂",
        "",
    ];
    for p in paths {
        let line = encode_add_directory(p);
        assert!(!line.contains('\n'));
        assert_eq!(decoded_path(&line), p);
    }
}

#[test]
fn control_characters_use_lower_case_hex() {
    assert_eq!(
        encode_add_directory("\u{1f}"),
        "{\"type\":\"add_directory\",\"payload\":{\"path\":\"\\u001f\"}}"
    );
    assert_eq!(
        encode_add_directory("a\nb"),
        "{\"type\":\"add_directory\",\"payload\":{\"path\":\"a\\nb\"}}"
    );
}

#[test]
fn remove_directory_and_list() {
    assert_eq!(
        encode_remove_directory("42"),
        "{\"type\":\"remove_directory\",\"payload\":{\"id\":\"42\"}}"
    );
    assert_eq!(encode_list_directories(), "{\"type\":\"get_directories\"}");
    let c = Command::RemoveDirectory { id: "a\"b".to_string() };
    let v: serde_json::Value = serde_json::from_str(&c.encode()).unwrap();
    assert_eq!(v["payload"]["id"], "a\"b");
    assert_eq!(Command::GetDirectories.encode(), encode_list_directories());
}

#[test]
fn send_without_worker_is_dropped() {
    let s: Supervisor<u32> = Supervisor::new();
    assert!(!s.is_running());
    assert_eq!(s.outbound("{\"type\":\"get_directories\"}"), None);
    assert_eq!(s.command_line(&Command::GetDirectories), None);
}

#[test]
fn install_replace_and_shutdown() {
    let mut s: Supervisor<u32> = Supervisor::new();
    assert_eq!(s.install(1), None);
    assert!(s.is_running());
    assert_eq!(s.outbound("hello"), Some("hello\n".to_string()));
    assert_eq!(s.install(2), Some(1));
    assert_eq!(s.worker, Some(2));
    assert_eq!(s.shutdown(), Some(2));
    assert_eq!(s.shutdown(), None);
    assert!(!s.is_running());
    assert_eq!(s.outbound("hello"), None);
}

#[test]
fn respawn_resumes_sending() {
    let mut s: Supervisor<u32> = Supervisor::new();
    s.install(7);
    assert_eq!(s.shutdown(), Some(7));
    assert_eq!(s.command_line(&Command::GetDirectories), None);
    s.install(8);
    assert_eq!(
        s.command_line(&Command::GetDirectories),
        Some("{\"type\":\"get_directories\"}\n".to_string())
    );
}

#[test]
fn split_line_is_delivered_whole() {
    let mut b = LineBuffer::new();
    assert!(b.push(b"{\"a\"").is_empty());
    assert!(b.push(b":1}").is_empty());
    assert_eq!(b.push(b"\n"), vec![b"{\"a\":1}".to_vec()]);
    assert!(b.push(b"").is_empty());
}

#[test]
fn several_lines_in_one_chunk() {
    let mut b = LineBuffer::new();
    assert_eq!(
        b.push(b"one\n\ntwo\nthr"),
        vec![b"one".to_vec(), b"".to_vec(), b"two".to_vec()]
    );
    assert_eq!(b.push(b"ee\n"), vec![b"three".to_vec()]);
}

#[test]
fn relay_joins_chunks_into_one_event() {
    let mut r = Relay::new();
    let a = r.on_event(WorkerEvent::Stdout(b"{\"a\"".to_vec()));
    assert!(a.is_empty());
    let a = r.on_event(WorkerEvent::Stdout(b":1}\n".to_vec()));
    assert_eq!(emitted(&a), vec!["{\"a\":1}".to_string()]);
}

#[test]
fn blank_lines_give_no_event() {
    let mut r = Relay::new();
    let a = r.on_event(WorkerEvent::Stdout(b"\n   \n\t \r\n".to_vec()));
    assert_eq!(a.len(), 3);
    assert!(a.iter().all(|x| matches!(x, RelayAction::Skip)));
    let a = r.on_event(WorkerEvent::Stdout("\u{3000}\u{a0}\n".as_bytes().to_vec()));
    assert!(matches!(a[0], RelayAction::Skip));
}

#[test]
fn output_is_trimmed_not_otherwise_changed() {
    assert!(matches!(
        output_line_action(b"  {\"x\": [1, 2]} \r"),
        RelayAction::Emit(ref s) if s == "{\"x\": [1, 2]}"
    ));
    assert!(matches!(
        output_line_action("\u{2003}é\u{2003}".as_bytes()),
        RelayAction::Emit(ref s) if s == "é"
    ));
}

#[test]
fn invalid_utf8_is_dropped() {
    assert!(matches!(output_line_action(&[0xff, 0xfe, b'a']), RelayAction::Undecodable));
    assert!(matches!(error_line_action(&[0xc3]), RelayAction::Undecodable));
    let mut r = Relay::new();
    let a = r.on_event(WorkerEvent::Stdout(vec![0xff, b'\n', b'o', b'k', b'\n']));
    assert!(matches!(a[0], RelayAction::Undecodable));
    assert_eq!(emitted(&a), vec!["ok".to_string()]);
}

#[test]
fn error_stream_goes_to_diagnostics() {
    let mut r = Relay::new();
    let a = r.on_event(WorkerEvent::Stderr(b"  warn: x \n".to_vec()));
    assert_eq!(a.len(), 1);
    assert!(matches!(a[0], RelayAction::ErrorOutput(ref s) if s == "  warn: x "));
    assert!(emitted(&a).is_empty());
}

#[test]
fn host_failures_and_exit_are_reported() {
    let mut r = Relay::new();
    let a = r.on_event(WorkerEvent::Error("pipe closed".to_string()));
    assert!(matches!(a[0], RelayAction::Failed(ref s) if s == "pipe closed"));
    let st = ExitStatus { code: Some(1), signal: None };
    let a = r.on_event(WorkerEvent::Terminated(st));
    assert_eq!(a.len(), 1);
    assert!(matches!(a[0], RelayAction::Terminated(x) if x == st));
}

#[test]
fn end_to_end_add_directory_and_event() {
    let mut s: Supervisor<Vec<String>> = Supervisor::new();
    s.install(Vec::new());
    let cmd = Command::AddDirectory { path: "/tmp/x".to_string() };
    let line = s.command_line(&cmd).unwrap();
    assert_eq!(
        line,
        "{\"type\":\"add_directory\",\"payload\":{\"path\":\"/tmp/x\"}}\n"
    );
    s.worker.as_mut().unwrap().push(line);
    let mut r = Relay::new();
    let out = "{\"type\":\"directories\",\"items\":[{\"id\":\"1\",\"path\":\"/tmp/x\"}]}";
    let a = r.on_event(WorkerEvent::Stdout(format!("{}\n", out).into_bytes()));
    assert_eq!(emitted(&a), vec![out.to_string()]);
}
