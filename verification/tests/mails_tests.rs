use poomas::mails::{join_cmdline, CommandStatusMail, JobDuration};
use poomas::Config;

fn config() -> Config {
    Config {
        target: "target".to_owned(),
        email: "email".to_owned(),
        passwd: "passwd".to_owned(),
        smtp: "smtp".to_owned(),
    }
}

fn outcome(exit_code: Option<i32>) -> CommandStatusMail {
    CommandStatusMail {
        cmdline: vec!["foo".to_owned(), "bar".to_owned(), "baz".to_owned()],
        duration: JobDuration::new(1, 24),
        exit_code,
        jobname: Some("greatest".to_owned()),
    }
}

#[test]
fn test_mail_creation() {
    let status = outcome(Some(0));
    let body = status.create_email(&config());

    assert!(body.contains("foo bar baz"));
    assert!(body.contains("To: <target>"));
    assert!(body.contains("From: <email>"));
    assert!(body.contains("1.024 s"));
    assert!(body.contains("code: 0"));
    assert!(body.contains("Job name: greatest"));
}

#[test]
fn report_fields_are_exact() {
    let body = outcome(Some(0)).build_report();
    assert_eq!(
        body,
        "Command: foo bar baz\nExecution time: 1.024 s\nExit code: 0\nJob name: greatest"
    );
    assert!(body.contains("foo bar baz"));
    assert!(body.contains("1.024 s"));
    assert!(body.contains("Exit code: 0"));
    assert!(body.contains("Job name: greatest"));
}

#[test]
fn signal_termination_shows_no_code() {
    let body = outcome(None).build_report();
    assert!(body.contains("Exit code: killed by a signal\n"));
    let code_line = body
        .lines()
        .find(|l| l.starts_with("Exit code: "))
        .unwrap();
    assert_eq!(code_line, "Exit code: killed by a signal");
    assert!(!code_line.chars().any(|c| c.is_ascii_digit()));
}

#[test]
fn negative_exit_code_is_signed() {
    let body = outcome(Some(-9)).build_report();
    assert!(body.contains("Exit code: -9\n"));
}

#[test]
fn missing_job_name_reads_none() {
    let status = CommandStatusMail {
        cmdline: vec!["true".to_owned()],
        duration: JobDuration::new(0, 0),
        exit_code: Some(0),
        jobname: None,
    };
    let body = status.build_report();
    assert!(body.ends_with("Job name: none"));
    assert!(body.contains("Execution time: 0.000 s"));
}

#[test]
fn join_cmdline_single_spaces() {
    assert_eq!(join_cmdline(&vec![]), "");
    assert_eq!(join_cmdline(&vec!["one".to_owned()]), "one");
    assert_eq!(
        join_cmdline(&vec!["a".to_owned(), "b c".to_owned(), "d".to_owned()]),
        "a b c d"
    );
}
