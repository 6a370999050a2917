use pool::plugin::{
    check_frame_size, frame_file_names, init_outcome, install_name, plugin_root, render_outcome, rgba_len,
    HostConfig, HostError, Manifest, PluginKind, Reply, INIT_TIMEOUT_MS, PROTOCOL_VERSION, RENDER_TIMEOUT_MS,
};

fn manifest(name: &str, program: &str) -> Manifest {
    Manifest {
        name: name.to_string(),
        version: "0.1.0".to_string(),
        description: String::new(),
        kind: PluginKind::Command { program: program.to_string(), args: vec!["plugin.py".to_string()] },
    }
}

#[test]
fn manifest_roundtrip() {
    let m = manifest("hello", "python3");
    assert_eq!(m.name, "hello");
    assert!(m.validate().is_ok());
}

#[test]
fn manifest_rejects_empty_program() {
    let m = manifest("x", "");
    assert!(m.validate().is_err());
    assert_eq!(m.validate(), Err("manifest: empty program".to_string()));
}

#[test]
fn manifest_rejects_blank_name_first() {
    assert_eq!(manifest("  \t", "").validate(), Err("manifest: empty name".to_string()));
    assert_eq!(manifest("n", " \n ").validate(), Err("manifest: empty program".to_string()));
}

#[test]
fn reply_text() {
    assert_eq!(Reply::Ready.to_text(), "ready");
    assert_eq!(Reply::Done.to_text(), "done");
    let s = Reply::Error { message: "boom".to_string() }.to_text();
    assert!(s.contains("boom"));
    assert_eq!(s, "error: boom");
}

#[test]
fn handshake_outcomes() {
    assert_eq!(init_outcome(Reply::Ready), Ok(()));
    assert_eq!(init_outcome(Reply::Error { message: "no".to_string() }), Err(HostError::Plugin("no".to_string())));
    assert_eq!(init_outcome(Reply::Done), Err(HostError::Protocol("unexpected done on init".to_string())));
    assert_eq!(render_outcome(Reply::Done), Ok(()));
    assert_eq!(render_outcome(Reply::Ready), Err(HostError::Protocol("unexpected ready".to_string())));
    assert_eq!(render_outcome(Reply::Error { message: "e".to_string() }), Err(HostError::Plugin("e".to_string())));
}

#[test]
fn frame_sizes_are_checked() {
    assert_eq!(rgba_len(32, 32), 4096);
    assert_eq!(check_frame_size("bad input", 4096, 4096), Ok(()));
    assert_eq!(
        check_frame_size("bad input", 10, 4096),
        Err(HostError::Protocol("bad input size: 10 != 4096".to_string()))
    );
}

#[test]
fn install_names_must_be_safe() {
    assert_eq!(install_name(&manifest("hello-python_2", "p")), Ok("hello-python_2".to_string()));
    assert_eq!(install_name(&manifest("プラグイン", "p")), Err(HostError::Protocol("unsafe plugin name".to_string())));
    assert_eq!(install_name(&manifest("a b", "p")), Err(HostError::Protocol("unsafe plugin name".to_string())));
    assert_eq!(install_name(&manifest("../evil", "p")), Err(HostError::Protocol("unsafe plugin name".to_string())));
    assert_eq!(install_name(&manifest("", "p")), Err(HostError::Protocol("unsafe plugin name".to_string())));
}

#[test]
fn frame_files_are_named_per_request() {
    let (a, b) = frame_file_names(4242, 7);
    assert_eq!(a, "pool-in-4242-7.rgba");
    assert_eq!(b, "pool-out-4242-7.rgba");
}

#[test]
fn plugin_archive_root() {
    let file = "plugin.toml";
    assert_eq!(plugin_root(Some("top".to_string()), vec!["a".to_string()], file), Ok("top".to_string()));
    assert_eq!(plugin_root(None, vec!["only".to_string()], file), Ok("only".to_string()));
    assert!(plugin_root(None, vec![], file).is_err());
    assert_eq!(
        plugin_root(None, vec!["a".to_string(), "b".to_string()], file),
        Err("zip: plugin.toml が見つからない（直下か単一フォルダに配置）".to_string())
    );
}

#[test]
fn host_error_messages() {
    assert_eq!(HostError::Timeout("plugin reply").message(), "plugin reply timed out");
    assert_eq!(HostError::Spawn("x".to_string()).message(), "spawn failed: x");
    assert_eq!(HostError::Protocol("x".to_string()).message(), "protocol error: x");
    assert_eq!(HostError::Plugin("x".to_string()).message(), "plugin error: x");
    assert_eq!(HostError::Exited.message(), "plugin exited");
    assert_eq!(HostError::Io("x".to_string()).message(), "io error: x");
    assert_eq!(PROTOCOL_VERSION, 1);
}

#[test]
fn frame_files_never_collide() {
    let (in1, out1) = frame_file_names(7, 1);
    let (in11, out11) = frame_file_names(7, 11);
    assert_ne!(in1, out1);
    assert_ne!(in1, in11);
    assert_ne!(out1, out11);
    assert_ne!(frame_file_names(71, 1).0, frame_file_names(7, 11).0);
}

#[test]
fn host_waits_ten_and_thirty_seconds() {
    let c = HostConfig::with_workdir("/tmp/frames".to_string());
    assert_eq!(c.workdir, "/tmp/frames");
    assert_eq!((c.init_timeout_ms, c.render_timeout_ms), (10_000, 30_000));
    assert_eq!((INIT_TIMEOUT_MS, RENDER_TIMEOUT_MS), (10_000, 30_000));
}
