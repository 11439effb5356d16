use z0rdl::download::{chunk_outcomes, tally, DownloadOutcome};
use z0rdl::plan::DownloadPlan;

#[test]
fn one_failure_is_isolated() {
    let plan = DownloadPlan::new(7, &vec![1], 4);
    let ids0 = plan.fetch_ids(0);
    assert_eq!(ids0, vec![0, 2, 3]);
    let results0: Vec<Result<(), String>> = ids0
        .iter()
        .map(|&id| if id == 2 { Err("connection reset".to_string()) } else { Ok(()) })
        .collect();
    let out0 = chunk_outcomes(&plan, 0, &results0);
    assert_eq!(out0.len(), 4);
    assert!(matches!(out0[0], DownloadOutcome::Success));
    assert!(matches!(out0[1], DownloadOutcome::Skipped));
    match &out0[2] {
        DownloadOutcome::Failed(reason) => assert_eq!(reason, "connection reset"),
        other => panic!("expected a failure, got {:?}", other),
    }
    assert!(matches!(out0[3], DownloadOutcome::Success));

    let ids1 = plan.fetch_ids(1);
    let results1: Vec<Result<(), String>> = ids1.iter().map(|_| Ok(())).collect();
    let out1 = chunk_outcomes(&plan, 1, &results1);
    assert!(out1.iter().all(|o| matches!(o, DownloadOutcome::Success)));

    let mut all = out0;
    all.extend(out1);
    let report = tally(&all);
    assert_eq!(report.succeeded, 6);
    assert_eq!(report.failed, 1);
    assert_eq!(report.skipped, 1);
}

#[test]
fn padding_outcomes_are_skipped() {
    let plan = DownloadPlan::new(4, &vec![], 3);
    let ids = plan.fetch_ids(1);
    assert_eq!(ids, vec![3, 4]);
    let out = chunk_outcomes(&plan, 1, &vec![Ok(()), Err("disk full".to_string())]);
    assert!(matches!(out[0], DownloadOutcome::Success));
    assert!(matches!(out[1], DownloadOutcome::Failed(_)));
    assert!(matches!(out[2], DownloadOutcome::Skipped));
}

#[test]
fn tally_of_nothing() {
    let report = tally(&vec![]);
    assert_eq!((report.succeeded, report.failed, report.skipped), (0, 0, 0));
}
