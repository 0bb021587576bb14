use aurashell::jobs::{add_job, drain_done, list_jobs, mark_pid_reaped, report_done, JobState, JobTable};

fn table() -> JobTable {
    let mut t = JobTable::new();
    assert_eq!(add_job(&mut t, 100, vec![100, 101], "sleep 10 | cat".to_string()), 1);
    assert_eq!(add_job(&mut t, 200, vec![200], "make".to_string()), 2);
    t
}

#[test]
fn jobs_are_numbered_and_listed() {
    let t = table();
    assert_eq!(t.next_id(), 3);
    assert_eq!(
        list_jobs(&t),
        "[1]  Running    sleep 10 | cat &\n[2]  Running    make &\n"
    );
}

#[test]
fn a_job_is_done_when_all_its_children_are_reaped() {
    let mut t = table();
    mark_pid_reaped(&mut t, 101);
    assert!(drain_done(&mut t).is_empty());
    mark_pid_reaped(&mut t, 100);
    mark_pid_reaped(&mut t, 999);
    assert_eq!(list_jobs(&t), "[2]  Running    make &\n");
    let done = drain_done(&mut t);
    assert_eq!(done.len(), 1);
    assert_eq!(done[0].id, 1);
    assert_eq!(done[0].state, JobState::Done);
    assert!(done[0].pids.is_empty());
    assert_eq!(report_done(&done), "[1]+ Done       sleep 10 | cat\n");
    assert!(drain_done(&mut t).is_empty());
    assert_eq!(list_jobs(&t), "[2]  Running    make &\n");
}

#[test]
fn draining_keeps_the_running_jobs_in_order() {
    let mut t = JobTable::new();
    for pid in 1..5 {
        add_job(&mut t, pid, vec![pid], format!("job{}", pid));
    }
    mark_pid_reaped(&mut t, 1);
    mark_pid_reaped(&mut t, 3);
    let done = drain_done(&mut t);
    assert_eq!(done.iter().map(|j| j.id).collect::<Vec<_>>(), [1, 3]);
    assert_eq!(list_jobs(&t), "[2]  Running    job2 &\n[4]  Running    job4 &\n");
    assert_eq!(add_job(&mut t, 9, vec![9], "last".to_string()), 5);
}

#[test]
fn an_empty_table_lists_nothing() {
    assert_eq!(list_jobs(&JobTable::new()), "");
    assert_eq!(report_done(&[]), "");
}
