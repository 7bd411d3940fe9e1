use std::path::PathBuf;

use shadow_pane::cli::{launch_args, mode_of, Mode, PLUGIN_ID};
use shadow_pane::herdr::{
    broadcast_targets, context_of, current_args, label_of, list_args, list_tab_panes,
    read_visible, resolve_context, run_json, send_key, send_text, spawn, visible_text, Context,
    ContextSource, PaneFields, PaneInfo,
};
use shadow_pane::herdr_socket::{
    candidate_paths_with, config_dir, join, read_response, reply_text, ConnectStep, JsonAt,
    SocketClient, SocketError,
};
use shadow_pane::text::decimal_of;

fn ctx() -> Context {
    Context {
        pane_id: "w1:p1".to_string(),
        tab_id: "w1:t1".to_string(),
        workspace_id: "w1".to_string(),
    }
}

fn fields(pane: &str, tab: &str) -> PaneFields {
    PaneFields {
        pane_id: pane.to_string(),
        tab_id: tab.to_string(),
        workspace_id: "w1".to_string(),
        agent: Some("helix".to_string()),
        agent_status: Some("idle".to_string()),
        terminal_title_stripped: Some("title".to_string()),
        cwd: Some("/tmp".to_string()),
    }
}

fn ids(panes: &[PaneInfo]) -> Vec<&str> {
    panes.iter().map(|p| p.pane_id.as_str()).collect()
}

#[test]
fn read_request_parses_pane_read_result() {
    let mut client = SocketClient::new();
    let line = client.read_visible("w1:p1", 999).unwrap();
    assert!(line.ends_with('\n'));
    let v: serde_json::Value = serde_json::from_str(&line).unwrap();
    assert_eq!(v["id"], "shadow-pane:1");
    assert_eq!(v["method"], "pane.read");
    assert_eq!(v["params"]["pane_id"], "w1:p1");
    assert_eq!(v["params"]["source"], "visible");
    assert_eq!(v["params"]["lines"], 999);
    assert_eq!(v["params"]["format"], "ansi");
    assert_eq!(v["params"]["strip_ansi"], true);
    let response = r#"{"id":"shadow-pane:1","result":{"read":{"text":"host# \u001b[31merr","truncated":false}}}"#;
    let text = read_response(&format!("{response}\n")).unwrap();
    assert_eq!(text, "host# \u{1b}[31merr");
}

#[test]
fn error_response_surfaces_code() {
    let response =
        r#"{"id":"x","error":{"code":"pane_not_found","message":"pane not found: w1:p9"}}"#;
    let mut client = SocketClient::new();
    assert!(client.read_visible("w1:p9", 999).is_ok());
    let err = read_response(response).unwrap_err().message();
    assert!(err.contains("pane_not_found"), "got: {err}");
    assert_eq!(err, "pane_not_found: pane not found: w1:p9");
}

#[test]
fn candidate_paths_honor_env_override() {
    let paths: Vec<PathBuf> = candidate_paths_with(
        Some(b"/tmp/override.sock".to_vec()),
        Some(b"work".to_vec()),
        config_dir(None, Some(b"/home/u".to_vec())),
    )
    .into_iter()
    .map(|p| PathBuf::from(String::from_utf8(p).unwrap()))
    .collect();
    assert_eq!(paths[0], PathBuf::from("/tmp/override.sock"));
    let session_sock = paths
        .iter()
        .find(|p| p.ends_with("sessions/work/herdr.sock"));
    assert!(session_sock.is_some(), "session socket must be a candidate");
    assert_eq!(paths[1], PathBuf::from("/home/u/.config/herdr/sessions/work/herdr.sock"));
    assert_eq!(paths[2], PathBuf::from("/home/u/.config/herdr/herdr.sock"));
}

#[test]
fn candidate_paths_without_session_or_directory() {
    let dir = config_dir(Some(b"/x".to_vec()), Some(b"/home/u".to_vec()));
    assert_eq!(dir, Some(b"/x/herdr".to_vec()));
    assert_eq!(candidate_paths_with(None, None, dir), vec![b"/x/herdr/herdr.sock".to_vec()]);
    assert!(candidate_paths_with(None, Some(b"work".to_vec()), None).is_empty());
    assert_eq!(config_dir(None, None), None);
}

#[test]
fn paths_join_like_paths() {
    let cases: [(&str, &str); 7] =
        [("/a", "b"), ("/a/", "b"), ("", "b"), ("/a", "/b"), ("a", ""), ("", ""), ("/", "b")];
    for (a, b) in cases {
        let joined = PathBuf::from(a).join(b);
        assert_eq!(join(a.as_bytes(), b.as_bytes()), joined.to_str().unwrap().as_bytes());
    }
}

#[test]
fn requests_are_numbered() {
    let mut client = SocketClient::new();
    client.read_visible("p", 1).unwrap();
    let line = client.read_visible("p\n\"q\"", 10).unwrap();
    assert_eq!(line.matches('\n').count(), 1);
    let v: serde_json::Value = serde_json::from_str(&line).unwrap();
    assert_eq!(v["id"], "shadow-pane:2");
    assert_eq!(v["params"]["pane_id"], "p\n\"q\"");
    assert_eq!(v["params"]["lines"], 10);
}

#[test]
fn replies_fail_in_their_ways() {
    assert!(matches!(read_response(""), Err(SocketError::Closed)));
    assert_eq!(SocketError::Closed.message(), "herdr socket closed");
    assert!(matches!(read_response("not json\n"), Err(SocketError::Malformed(_))));
    assert!(matches!(read_response("\n"), Err(SocketError::Malformed(_))));
    let message = read_response("{").unwrap_err().message();
    assert!(message.contains("line 1"), "got: {message}");
    assert!(matches!(read_response("{}"), Err(SocketError::NoText)));
    assert!(matches!(read_response("[1]"), Err(SocketError::NoText)));
    let other = r#"{"result":{"read":{"text":5}}}"#;
    assert!(matches!(read_response(other), Err(SocketError::NoText)));
    assert_eq!(SocketError::NoText.message(), "pane.read response missing read.text");
    let bare = r#"{"error":null,"result":{"read":{"text":"x"}}}"#;
    assert_eq!(read_response(bare).unwrap_err().message(), "error: unknown error");
    assert_eq!(SocketError::Encode("e".to_string()).message(), "e");
    assert_eq!(read_response(r#"  {"result":{"read":{"text":"x"}}}  "#).unwrap(), "x");
}

#[test]
fn a_reply_with_an_error_brings_no_text() {
    let text = |s: &str| JsonAt::Text(s.to_string());
    assert_eq!(
        reply_text(JsonAt::Absent, JsonAt::Absent, JsonAt::Absent, text("t")).unwrap(),
        "t"
    );
    let err = reply_text(JsonAt::Other, text("c"), JsonAt::Other, text("t")).unwrap_err();
    assert_eq!(err.message(), "c: unknown error");
}

#[test]
fn connecting_tries_the_paths_in_order() {
    let mut connecting = SocketClient::connect(vec![b"/a".to_vec(), b"/b".to_vec()]);
    assert!(matches!(connecting.step(), ConnectStep::Try(p) if p == b"/a"));
    connecting.failed("refused");
    assert!(matches!(connecting.step(), ConnectStep::Try(p) if p == b"/b"));
    connecting.failed("missing");
    assert!(matches!(connecting.step(), ConnectStep::GiveUp(e) if e == "connect /b: missing"));
    let none = SocketClient::connect(Vec::new());
    assert!(matches!(none.step(),
        ConnectStep::GiveUp(e) if e == "no herdr socket path candidate found"));
}

#[test]
fn commands_are_spelled_out() {
    assert_eq!(send_text("p", "a b"), vec!["pane", "send-text", "p", "a b"]);
    assert_eq!(send_key("p", "enter"), vec!["pane", "send-keys", "p", "enter"]);
    assert_eq!(
        read_visible("p", 999),
        vec!["pane", "read", "p", "--source", "visible", "--lines", "999", "--format", "text"]
    );
    assert_eq!(current_args(), vec!["pane", "current", "--current"]);
    assert_eq!(list_args(&ctx()), vec!["pane", "list", "--workspace", "w1"]);
    assert_eq!(
        launch_args(),
        vec![
            "plugin", "pane", "open", "--plugin", PLUGIN_ID, "--entrypoint", "console",
            "--placement", "overlay"
        ]
    );
}

#[test]
fn numbers_are_written_in_base_ten() {
    assert_eq!(decimal_of(0), "0");
    assert_eq!(decimal_of(10), "10");
    assert_eq!(decimal_of(u64::MAX), u64::MAX.to_string());
}

#[test]
fn failed_runs_are_reported() {
    assert_eq!(spawn(true, b"noise"), Ok(()));
    assert_eq!(spawn(false, b"  no such pane\n"), Err("no such pane".to_string()));
    assert_eq!(visible_text(true, b"a\xffb", b""), Ok("a\u{fffd}b".to_string()));
    assert_eq!(visible_text(false, b"a", b"gone\n"), Err("gone".to_string()));
    let args = vec!["pane".to_string(), "list".to_string()];
    assert_eq!(run_json(&args, true, b""), Ok(()));
    assert_eq!(run_json(&args, false, b" bad \n"), Err("herdr pane list failed: bad".to_string()));
}

#[test]
fn the_context_comes_from_the_environment_or_from_herdr() {
    let some = |s: &str| Some(s.to_string());
    match resolve_context(some("p"), some("t"), some("w"), false) {
        ContextSource::Known(c) => {
            assert_eq!((c.pane_id, c.tab_id, c.workspace_id),
                ("p".to_string(), "t".to_string(), "w".to_string()));
        }
        _ => panic!("not known"),
    }
    assert!(matches!(resolve_context(some("p"), some(""), some("w"), true), ContextSource::Ask));
    assert!(matches!(resolve_context(some("p"), None, some("w"), false), ContextSource::Outside));
    assert_eq!(context_of(fields("a", "t")).tab_id, "t");
}

#[test]
fn the_panes_of_the_tab_are_listed_with_the_own_one_last() {
    let panes = list_tab_panes(
        &ctx(),
        &[
            fields("w1:p1", "w1:t1"),
            fields("w1:p2", "w1:t1"),
            fields("w1:p3", "w1:t2"),
            fields("w1:p4", "w1:t1"),
        ],
    );
    assert_eq!(ids(&panes), vec!["w1:p2", "w1:p4", "w1:p1"]);
    assert!(panes[2].is_self);
    assert_eq!(panes[0].title, Some("title".to_string()));
    let targets = broadcast_targets(&ctx(), &panes).unwrap();
    assert_eq!(ids(&targets), vec!["w1:p2", "w1:p4"]);
    assert_eq!(
        broadcast_targets(&ctx(), &panes[2..]).unwrap_err(),
        "no other panes in tab w1:t1 — nothing to broadcast to"
    );
}

#[test]
fn labels_name_the_agent_or_the_shell() {
    let panes = list_tab_panes(&ctx(), &[fields("w1:p2", "w1:t1")]);
    assert_eq!(label_of(&panes[0]), "w1:p2 helix");
    let shell = PaneInfo { agent: None, ..panes[0].clone() };
    assert_eq!(label_of(&shell), "w1:p2 shell");
}

#[test]
fn the_first_argument_decides_the_mode() {
    assert_eq!(mode_of(Some("launch"), true, true), Mode::Launch);
    assert_eq!(mode_of(Some("--version"), false, false), Mode::Version);
    assert_eq!(mode_of(Some("version"), false, false), Mode::Version);
    assert_eq!(mode_of(Some("other"), true, true), Mode::DebugRead);
    assert_eq!(mode_of(None, false, true), Mode::DebugList);
    assert_eq!(mode_of(None, false, false), Mode::Console);
}
