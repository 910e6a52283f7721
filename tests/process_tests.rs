use incremental_upload::hashing::{content_hash, HashCache};
use incremental_upload::pool::{PoolError, PoolState, Worker, WorkerMessage, WorkerState};
use incremental_upload::process::{ProcessError, SubprocessResult, SubprocessTask};
use incremental_upload::vars::VariableReplace;

fn vars() -> VariableReplace {
    let mut v = VariableReplace::new();
    v.add("source", "/data");
    v.add("workdir", "/work");
    v.add("path", "a b.txt");
    v
}

#[test]
fn step_is_substituted_and_split() {
    let cmd = vec!["scp \"$source/$path\" host:".to_string()];
    let t = SubprocessTask::from_command_line(&cmd, "$workdir", &vars(), None, Some("/bin"), ":").ok().unwrap();
    assert_eq!(t.program, "scp");
    assert_eq!(t.args, vec!["/data/a b.txt", "host:"]);
    assert_eq!(t.workdir, "/work");
    assert_eq!(t.path_env, "/bin:/work");
    assert_eq!(t.raw_divided, vec!["scp", "/data/a b.txt", "host:"]);
}

#[test]
fn plus_keeps_a_step_whole() {
    let cmd = vec!["+run it".to_string()];
    let t = SubprocessTask::from_command_line(&cmd, "/w", &vars(), None, None, ";").ok().unwrap();
    assert_eq!(t.program, "run it");
    assert!(t.args.is_empty());
    assert_eq!(t.path_env, "/w");
}

#[test]
fn previous_result_is_available() {
    let last = SubprocessResult { stdout: "out".to_string(), stderr: "err".to_string(), exitcode: -3 };
    let cmd = vec!["echo".to_string(), "$last-stdout".to_string(), "$last-exitcode".to_string()];
    let t = SubprocessTask::from_command_line(&cmd, "/w", &vars(), Some(&last), None, ":").ok().unwrap();
    assert_eq!(t.args, vec!["out", "-3"]);
}

#[test]
fn empty_step_is_refused() {
    let cmd: Vec<String> = vec![];
    assert!(matches!(SubprocessTask::from_command_line(&cmd, "/w", &vars(), None, None, ":"), Err(ProcessError::EmptyCommand)));
}

#[test]
fn output_is_judged_and_normalized() {
    let ok = SubprocessResult::from_output(Some(0), b"  line1\r\nline2\r\n", b"\xEF\xBB\xBFwarn\r").ok().unwrap();
    assert_eq!(ok.stdout, "line1\nline2");
    assert_eq!(ok.stderr, "warn");
    assert_eq!(ok.exitcode, 0);
    match SubprocessResult::from_output(Some(2), b"x\n", b"") {
        Err(ProcessError::Failed { code, stdout, stderr }) => {
            assert_eq!(code, 2);
            assert_eq!(stdout, "x");
            assert_eq!(stderr, "");
        }
        _ => panic!("expected a failure"),
    }
    assert!(matches!(SubprocessResult::from_output(None, b"", b""), Err(ProcessError::Terminated)));
    let spaced = "\u{3000}\u{a0} x y\u{2009}\t";
    let r = SubprocessResult::from_output(Some(0), spaced.as_bytes(), b"").ok().unwrap();
    assert_eq!(r.stdout, spaced.trim());
    assert_eq!(r.stdout, "x y");
}

#[test]
fn sha1_hex_of_contents() {
    assert_eq!(content_hash(b"abc"), "a9993e364706816aba3e25717850c26c9cd0d89d");
    assert_eq!(content_hash(&[0u8; 5000]).len(), 40);
    assert_eq!(content_hash(b""), "da39a3ee5e6b4b0d3255bfef95601890afd80709");
    let mut c = HashCache::new();
    assert_eq!(c.cached("f"), None);
    assert_eq!(c.record("f", b"abc"), "a9993e364706816aba3e25717850c26c9cd0d89d");
    assert_eq!(c.cached("f").unwrap(), "a9993e364706816aba3e25717850c26c9cd0d89d");
}

#[test]
fn pool_never_runs_more_than_its_size() {
    let mut p = PoolState::new(2);
    assert_eq!(p.size(), 2);
    assert_eq!(p.dispatch(), Ok(Some(0)));
    assert_eq!(p.dispatch(), Ok(Some(1)));
    assert_eq!(p.dispatch(), Ok(None));
    assert_eq!(p.dispatch(), Ok(None));
    assert_eq!(p.workers.iter().filter(|w| **w == WorkerState::Busy).count(), 2);
    p.task_finished(1, true);
    assert_eq!(p.dispatch(), Ok(Some(1)));
    p.task_finished(0, false);
    assert_eq!(p.dispatch(), Ok(None));
    assert!(p.has_live_worker());
    p.task_finished(1, false);
    assert!(!p.has_live_worker());
    assert!(p.close());
    assert!(!p.close());
    assert_eq!(p.dispatch(), Err(PoolError::Closed));
    p.all_stopped();
    assert!(p.workers.iter().all(|w| *w == WorkerState::Terminated));
}

#[test]
fn worker_stops_after_failure_or_terminate() {
    let mut w = Worker::new(7);
    assert!(w.receive(&WorkerMessage::Task(())));
    assert!(w.is_busy());
    assert!(w.finish(true));
    assert!(!w.is_busy() && !w.is_terminated());
    assert!(w.receive(&WorkerMessage::Task(())));
    assert!(!w.finish(false));
    assert!(w.is_terminated() && w.failed);
    let mut v = Worker::new(1);
    assert!(!v.receive(&WorkerMessage::<()>::Terminate));
    assert!(v.is_terminated() && !v.failed);
}
