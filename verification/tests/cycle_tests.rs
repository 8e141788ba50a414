use coredns_k8s_sync::cycle::{next_step, NextStep, RunRequests, Stage};

#[test]
fn stages_follow_each_other_while_they_succeed() {
    assert_eq!(next_step(Stage::Collect, true), NextStep::Run(Stage::WriteFragments));
    assert_eq!(next_step(Stage::WriteFragments, true), NextStep::Run(Stage::Merge));
    assert_eq!(next_step(Stage::Merge, true), NextStep::Run(Stage::Reload));
    assert_eq!(next_step(Stage::Reload, true), NextStep::Wait);
}

#[test]
fn failed_stage_ends_the_cycle() {
    assert_eq!(next_step(Stage::Collect, false), NextStep::Wait);
    assert_eq!(next_step(Stage::WriteFragments, false), NextStep::Wait);
    assert_eq!(next_step(Stage::Merge, false), NextStep::Wait);
    assert_eq!(next_step(Stage::Reload, false), NextStep::Wait);
}

fn stages_run(results: &[bool]) -> Vec<Stage> {
    let mut run = Vec::new();
    let mut stage = Stage::Collect;
    for succeeded in results {
        run.push(stage);
        match next_step(stage, *succeeded) {
            NextStep::Run(next) => stage = next,
            NextStep::Wait => break,
        }
    }
    run
}

#[test]
fn cycle_without_failure_runs_every_stage_once() {
    assert_eq!(
        stages_run(&[true, true, true, true, true, true]),
        vec![Stage::Collect, Stage::WriteFragments, Stage::Merge, Stage::Reload]
    );
}

#[test]
fn nothing_is_merged_when_a_fragment_was_not_written() {
    assert_eq!(
        stages_run(&[true, false, true, true]),
        vec![Stage::Collect, Stage::WriteFragments]
    );
}

#[test]
fn nothing_is_reloaded_when_the_merge_failed() {
    assert_eq!(
        stages_run(&[true, true, false, true]),
        vec![Stage::Collect, Stage::WriteFragments, Stage::Merge]
    );
}

#[test]
fn many_requests_are_served_by_one_cycle() {
    let mut requests = RunRequests::new();
    assert!(!requests.take());
    requests.request();
    requests.request();
    requests.request();
    assert!(requests.take());
    assert!(!requests.take());
    requests.request();
    assert!(requests.take());
    assert!(!requests.take());
}
