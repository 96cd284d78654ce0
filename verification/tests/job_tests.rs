use psh::exec::Status;
use psh::job::{wait_report, Job, JobStatus, JobTable, WaitReport};

fn make_job(pgid: libc::pid_t, pids: &[libc::pid_t], cmd: &str) -> Job {
    Job { pgid, pids: pids.to_vec(), command: cmd.into(), status: JobStatus::Running }
}

#[test]
fn job_table_tracks_background() {
    let mut table = JobTable::new();
    let num = table.insert(make_job(100, &[100], "sleep 10 &"));
    assert_eq!(num, 1);
    assert_eq!(table.get(1).unwrap().pgid, 100);
    assert!(matches!(table.get(1).unwrap().status, JobStatus::Running));
}

#[test]
fn job_table_reap_updates_status() {
    let mut table = JobTable::new();
    table.insert(make_job(100, &[100], "sleep 10 &"));
    let wstatus = 0;
    let result = table.reap(100, wstatus);
    assert_eq!(result, Some(1));
    let job = table.get(1).unwrap();
    assert!(matches!(job.status, JobStatus::Done(ref s) if s.is_success()));
}

#[test]
fn job_table_reap_pipeline() {
    let mut table = JobTable::new();
    table.insert(make_job(100, &[100, 101, 102], "cat | grep | sort"));
    table.reap(101, 0);
    assert!(matches!(table.get(1).unwrap().status, JobStatus::Running));
    table.reap(100, 0);
    assert!(matches!(table.get(1).unwrap().status, JobStatus::Running));
    table.reap(102, 0);
    assert!(matches!(table.get(1).unwrap().status, JobStatus::Done(_)));
}

#[test]
fn collect_done_frees_slots() {
    let mut table = JobTable::new();
    table.insert(make_job(100, &[100], "cmd1 &"));
    table.insert(make_job(200, &[200], "cmd2 &"));
    table.reap(100, 0);
    let done = table.collect_done();
    assert_eq!(done.len(), 1);
    assert_eq!(done[0].0, 1);
    assert!(table.get(1).is_none());
    assert!(table.get(2).is_some());
}

#[test]
fn slot_reuse() {
    let mut table = JobTable::new();
    table.insert(make_job(100, &[100], "first &"));
    table.insert(make_job(200, &[200], "second &"));
    table.reap(100, 0);
    table.collect_done();
    let num = table.insert(make_job(300, &[300], "third &"));
    assert_eq!(num, 1);
    assert_eq!(table.get(1).unwrap().pgid, 300);
}

#[test]
fn find_by_pgid() {
    let mut table = JobTable::new();
    table.insert(make_job(100, &[100, 101], "pipeline"));
    assert_eq!(table.find_by_pgid(100), Some(1));
    assert_eq!(table.find_by_pgid(999), None);
}

#[test]
fn find_by_pid() {
    let mut table = JobTable::new();
    table.insert(make_job(100, &[100, 101], "pipeline"));
    assert_eq!(table.find_by_pid(101), Some(1));
    assert_eq!(table.find_by_pid(999), None);
}

#[test]
fn stopped_status() {
    let mut table = JobTable::new();
    table.insert(make_job(100, &[100], "vim"));
    let wstatus = (libc::SIGTSTP << 8) | 0x7f;
    table.reap(100, wstatus);
    assert!(matches!(table.get(1).unwrap().status, JobStatus::Stopped));
}

// ── Further cases ───────────────────────────────────────

#[test]
fn job_exit_code_recorded() {
    let mut table = JobTable::new();
    table.insert(make_job(100, &[100], "false"));
    table.reap(100, 1 << 8);
    assert_eq!(table.get(1).unwrap().status, JobStatus::Done(Status("1".into())));
}

#[test]
fn job_signal_recorded() {
    let mut table = JobTable::new();
    table.insert(make_job(100, &[100], "sleep 100"));
    table.reap(100, libc::SIGKILL);
    assert_eq!(table.get(1).unwrap().status, JobStatus::Done(Status(format!("signal {}", libc::SIGKILL))));
}

#[test]
fn job_reap_unknown_pid_changes_nothing() {
    let mut table = JobTable::new();
    table.insert(make_job(100, &[100], "cmd"));
    assert_eq!(table.reap(555, 0), None);
    assert!(matches!(table.get(1).unwrap().status, JobStatus::Running));
    assert_eq!(table.get(1).unwrap().pids, vec![100]);
}

#[test]
fn job_remove_then_get() {
    let mut table = JobTable::new();
    table.insert(make_job(100, &[100], "a"));
    table.insert(make_job(200, &[200], "b"));
    table.remove(1);
    assert!(table.get(1).is_none());
    assert_eq!(table.get(2).unwrap().pgid, 200);
    table.remove(0);
    table.remove(9);
    assert_eq!(table.get(2).unwrap().pgid, 200);
    assert_eq!(table.current_job(), Some(2));
}

#[test]
fn job_current_and_iter() {
    let mut table = JobTable::new();
    assert_eq!(table.current_job(), None);
    table.insert(make_job(100, &[100], "a"));
    table.insert(make_job(200, &[200], "b"));
    table.insert(make_job(300, &[300], "c"));
    table.remove(3);
    assert_eq!(table.current_job(), Some(2));
    table.remove(1);
    let listed: Vec<(usize, libc::pid_t)> = table.iter().into_iter().map(|(n, j)| (n, j.pgid)).collect();
    assert_eq!(listed, vec![(2, 200)]);
}

#[test]
fn job_get_mut_changes_job() {
    let mut table = JobTable::new();
    table.insert(make_job(100, &[100], "a"));
    table.get_mut(1).unwrap().status = JobStatus::Stopped;
    assert!(matches!(table.get(1).unwrap().status, JobStatus::Stopped));
    assert!(table.get_mut(2).is_none());
}

#[test]
fn job_collect_done_returns_commands_in_order() {
    let mut table = JobTable::new();
    table.insert(make_job(100, &[100], "one"));
    table.insert(make_job(200, &[200], "two"));
    table.insert(make_job(300, &[300], "three"));
    table.reap(300, 0);
    table.reap(100, 0);
    let done = table.collect_done();
    assert_eq!(done, vec![(1, "one".to_string()), (3, "three".to_string())]);
    assert!(table.collect_done().is_empty());
    assert!(table.get(2).is_some());
}

#[test]
fn job_default_table_is_empty() {
    let table = JobTable::default();
    assert!(table.get(1).is_none());
    assert_eq!(table.current_job(), None);
}

#[test]
fn job_wait_report_decodes() {
    assert_eq!(wait_report(0), WaitReport::Exited(0));
    assert_eq!(wait_report(3 << 8), WaitReport::Exited(3));
    assert_eq!(wait_report(libc::SIGKILL), WaitReport::Signaled(libc::SIGKILL));
    assert_eq!(wait_report((libc::SIGTSTP << 8) | 0x7f), WaitReport::Stopped);
}

#[test]
fn job_reap_report_applies_report() {
    let mut table = JobTable::new();
    table.insert(make_job(100, &[100, 101], "a | b"));
    assert_eq!(table.reap_report(100, WaitReport::Signaled(15)), Some(1));
    assert!(matches!(table.get(1).unwrap().status, JobStatus::Running));
    assert_eq!(table.reap_report(101, WaitReport::Signaled(15)), Some(1));
    assert_eq!(table.get(1).unwrap().status, JobStatus::Done(Status("signal 15".into())));
    assert_eq!(table.reap_report(7, WaitReport::Stopped), None);
}
