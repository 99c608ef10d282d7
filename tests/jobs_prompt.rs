use oursh::jobs::{notice_line, poll, Job, JobStatus};
use oursh::prompt::Prompt;

#[test]
fn finished_job_is_reported_once_and_removed() {
    let mut jobs = vec![Job { id: 1, pid: 4242 }, Job { id: 2, pid: 4343 }];
    let lines = poll(&mut jobs, &vec![JobStatus::Exited(0), JobStatus::StillAlive]);
    assert_eq!(vec!["[1]+\tExit(0)\t4242".to_string()], lines);
    assert!(lines[0].contains("1") && lines[0].contains("4242"));
    assert_eq!(vec![Job { id: 2, pid: 4343 }], jobs);
    let later = poll(&mut jobs, &vec![JobStatus::StillAlive]);
    assert!(later.is_empty());
    assert_eq!(1, jobs.len());
    assert_eq!(2, jobs[0].id);
}

#[test]
fn signaled_and_failed_jobs_leave() {
    let mut jobs = vec![Job { id: 3, pid: 10 }, Job { id: 4, pid: 11 }, Job { id: 5, pid: 12 }];
    let lines = poll(
        &mut jobs,
        &vec![
            JobStatus::Signaled("SIGKILL".to_string()),
            JobStatus::Failed("ECHILD".to_string()),
            JobStatus::Other,
        ],
    );
    assert_eq!(
        vec!["[3]+\tSIGKILL\t10".to_string(), "err: ECHILD".to_string(), "unhandled".to_string()],
        lines
    );
    assert_eq!(vec![Job { id: 5, pid: 12 }], jobs);
}

#[test]
fn negative_exit_code_and_large_ids() {
    let l = notice_line(Job { id: 1234567890, pid: 99999 }, &JobStatus::Exited(-3));
    assert_eq!(Some("[1234567890]+\tExit(-3)\t99999".to_string()), l);
    assert_eq!(None, notice_line(Job { id: 1, pid: 1 }, &JobStatus::StillAlive));
}

#[test]
fn plain_prompts() {
    assert_eq!("$ ", Prompt::new().display());
    assert_eq!(Prompt::DEFAULT_FORMAT, Prompt::new().display());
    assert_eq!("sh-4.4$ ", Prompt::new().sh_style().display());
}

#[test]
fn styled_prompts() {
    assert_eq!(
        "\x1b[38;5;1m\x1b[7mour$h\x1b[39m\x1b[m ",
        Prompt::new().short_style().display()
    );
    assert_eq!(
        "\x1b[38;5;1mme\x1b[39m@\x1b[38;5;4mbox\x1b[39m:\x1b[38;5;2m/tmp\x1b[39m $ ",
        Prompt::new().nixpulvis_style("me", "box", "/tmp").display()
    );
    assert_eq!(
        "\x1b[7m\x1b[38;5;2m box $ \x1b[38;5;3m \x1b[38;5;1m \x1b[38;5;5m \x1b[38;5;6m \x1b[39m\x1b[m ",
        Prompt::new().long_style("box").display()
    );
}
