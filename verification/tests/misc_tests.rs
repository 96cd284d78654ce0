use psh::ast::{Program, Word};
use psh::exec::{Shell, Status};
use psh::signal::{pending_signals, take_pending_from, SignalInfo};

#[test]
fn status_basics() {
    assert!(Status::ok().is_success());
    assert_eq!(Status::from_code(0), Status::ok());
    assert_eq!(Status::from_code(2), Status("2".into()));
    assert_eq!(Status::from_code(-3), Status("-3".into()));
    assert!(!Status::from_code(1).is_success());
    assert_eq!(Status::err("boom"), Status("boom".into()));
}

#[test]
fn shell_run_reports_missing_evaluator() {
    let mut sh = Shell::new(7, vec![("USER".to_string(), "ann".to_string())]);
    let st = sh.run(&Program { commands: vec![] });
    assert!(!st.is_success());
    assert_eq!(sh.env.get_value("user"), psh::value::Val::scalar("ann"));
    assert_eq!(sh.env.get_value("USER"), psh::value::Val::scalar("ann"));
    assert!(sh.jobs.current_job().is_none());
}

#[test]
fn word_display() {
    assert_eq!(Word::Literal("a".into()).to_string(), "a");
    assert_eq!(Word::Quoted("a b".into()).to_string(), "'a b'");
    assert_eq!(Word::Var("x".into()).to_string(), "$x");
    assert_eq!(Word::Index("x".into(), Box::new(Word::Literal("2".into()))).to_string(), "$x(2)");
    assert_eq!(Word::Count("x".into()).to_string(), "$#x");
    assert_eq!(Word::CommandSub(vec![]).to_string(), "`{...}");
    assert_eq!(Word::ProcessSub(vec![]).to_string(), "<{...}");
    assert_eq!(
        Word::Concat(vec![Word::Var("a".into()), Word::Literal(".c".into())]).to_string(),
        "$a.c"
    );
    assert_eq!(Word::Stringify("x".into()).to_string(), "$\"x");
}

#[test]
fn signal_pending_keeps_fired_in_order() {
    let counts = [("sigchld", 0u64), ("sigint", 2), ("sigtstp", 0), ("sighup", 1)];
    assert_eq!(pending_signals(&counts), vec![("sigint", 2), ("sighup", 1)]);
    assert!(pending_signals(&[("sigint", 0)]).is_empty());
    let info = SignalInfo { signum: 2, name: "sigint" };
    assert_eq!(info.name, "sigint");
}

#[test]
fn signal_check_order() {
    assert_eq!(take_pending_from(0, 0, 0, 0, 0, 0, 0), vec![]);
    assert_eq!(
        take_pending_from(1, 0, 0, 2, 0, 0, 3),
        vec![("sigchld", 1), ("sigcont", 2), ("sigterm", 3)]
    );
}
