use z0rdl::plan::DownloadPlan;

fn all_fetch_ids(plan: &DownloadPlan) -> Vec<usize> {
    let mut ids = Vec::new();
    for k in 0..plan.chunk_count() {
        ids.extend(plan.fetch_ids(k));
    }
    ids
}

#[test]
fn empty_archive_two_full_chunks() {
    let plan = DownloadPlan::new(999, &vec![], 500);
    assert_eq!(plan.len(), 1000);
    assert_eq!(plan.chunk_count(), 2);
    assert_eq!(plan.chunk_range(0), (0, 500));
    assert_eq!(plan.chunk_range(1), (500, 1000));
    for id in 0..1000 {
        assert!(plan.needs(id));
    }
    assert_eq!(plan.fetch_ids(0), (0..500).collect::<Vec<usize>>());
    assert_eq!(plan.fetch_ids(1), (500..1000).collect::<Vec<usize>>());
}

#[test]
fn archived_first_chunk_needs_no_fetches() {
    let present: Vec<usize> = (0..500).collect();
    let plan = DownloadPlan::new(999, &present, 500);
    assert_eq!(plan.fetch_ids(0).len(), 0);
    assert_eq!(plan.fetch_ids(1).len(), 500);
    assert_eq!(plan.fetch_ids(1)[0], 500);
    assert_eq!(plan.fetch_ids(1)[499], 999);
}

#[test]
fn length_is_whole_chunks_covering_range() {
    assert_eq!(DownloadPlan::new(1000, &vec![], 500).len(), 1500);
    assert_eq!(DownloadPlan::new(0, &vec![], 1).len(), 1);
    assert_eq!(DownloadPlan::new(0, &vec![], 4).len(), 4);
    assert_eq!(DownloadPlan::new(7, &vec![], 3).len(), 9);
    assert_eq!(DownloadPlan::new(8, &vec![], 3).len(), 9);
    assert_eq!(DownloadPlan::new(9, &vec![], 3).len(), 12);
    for max_id in 0..40usize {
        for chunk in 1..9usize {
            let plan = DownloadPlan::new(max_id, &vec![], chunk);
            assert_eq!(plan.len() % chunk, 0);
            assert!(plan.len() >= max_id + 1);
            assert!(plan.len() <= max_id + chunk);
        }
    }
}

#[test]
fn padding_is_never_fetched() {
    let plan = DownloadPlan::new(6, &vec![], 4);
    assert_eq!(plan.len(), 8);
    assert!(plan.needs(6));
    assert!(!plan.needs(7));
    assert_eq!(plan.fetch_ids(1), vec![4, 5, 6]);
}

#[test]
fn present_ids_are_cleared_and_out_of_range_ignored() {
    let plan = DownloadPlan::new(9, &vec![2, 5, 5, 100, 9], 4);
    assert_eq!(plan.len(), 12);
    let expected = [true, true, false, true, true, false, true, true, true, false, false, false];
    for (id, want) in expected.iter().enumerate() {
        assert_eq!(plan.needs(id), *want, "id {}", id);
    }
    assert_eq!(plan.max_id(), 9);
    assert_eq!(plan.chunk_size(), 4);
}

#[test]
fn chunks_cover_plan_once() {
    let plan = DownloadPlan::new(22, &vec![1, 7, 8, 20], 5);
    let mut covered = Vec::new();
    for k in 0..plan.chunk_count() {
        let (first, end) = plan.chunk_range(k);
        assert_eq!(first, covered.len());
        for id in first..end {
            covered.push(plan.needs(id));
        }
    }
    assert_eq!(covered.len(), plan.len());
    let needed: Vec<usize> = (0..plan.len()).filter(|&i| plan.needs(i)).collect();
    assert_eq!(all_fetch_ids(&plan), needed);
}

#[test]
fn second_run_fetches_nothing_archived() {
    let plan = DownloadPlan::new(11, &vec![3], 4);
    let first_run = all_fetch_ids(&plan);
    assert_eq!(first_run.len(), 11);
    // every fetch but ID 6 succeeded
    let mut present = vec![3];
    present.extend(first_run.iter().copied().filter(|&id| id != 6));
    let again = DownloadPlan::new(11, &present, 4);
    assert_eq!(all_fetch_ids(&again), vec![6]);
    let done: Vec<usize> = (0..12).collect();
    let finished = DownloadPlan::new(11, &done, 4);
    assert_eq!(all_fetch_ids(&finished), Vec::<usize>::new());
}
