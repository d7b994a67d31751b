use oj::ranking::{rank_list_source, RankListSource};
use oj::api_analysis::{APIPostUsers, RankListScoringRule, RankListTieBreaker};
use oj::ranking::{
    assign_ranks, contest_members, contest_submission_log, fastest_case_times, rank_order, ratio_choice,
    score_table, sorted_ids, submission_count_key, submission_time_key, tie_keys, user_id_list, RankEntry,
    RatioChoice, ScoreRecordKey,
};
use oj::records::{RecordUserProblem, SubmissionRecords};

fn entry(user_id: usize, score_key: i64, score_class: u64, tie_key: usize) -> RankEntry {
    RankEntry { user_id, score_key, score_class, tie_key }
}

#[test]
fn rank_order_sorts_by_score_then_id() {
    let es = vec![entry(0, 100, 1, 0), entry(1, 300, 3, 0), entry(2, 100, 1, 0), entry(3, 200, 2, 0)];
    let order = rank_order(&es, None);
    assert_eq!(order, vec![1, 3, 0, 2]);
    let ranks = assign_ranks(&es, None, &order);
    assert_eq!(ranks, vec![1, 2, 3, 3]);
    let order = rank_order(&es, Some(RankListTieBreaker::UserID));
    assert_eq!(order, vec![1, 3, 0, 2]);
    assert_eq!(assign_ranks(&es, Some(RankListTieBreaker::UserID), &order), vec![1, 2, 3, 4]);
}

#[test]
fn tie_breakers_use_their_key() {
    let es = vec![entry(0, 50, 7, 4), entry(1, 50, 7, 2), entry(2, 50, 7, 2), entry(3, 10, 1, 0)];
    let order = rank_order(&es, Some(RankListTieBreaker::SubmissionTime));
    assert_eq!(order, vec![1, 2, 0, 3]);
    assert_eq!(assign_ranks(&es, Some(RankListTieBreaker::SubmissionTime), &order), vec![1, 1, 3, 4]);
    let order = rank_order(&es, Some(RankListTieBreaker::SubmissionCount));
    assert_eq!(order, vec![1, 2, 0, 3]);
}

#[test]
fn equal_keys_but_different_totals_do_not_share() {
    let es = vec![entry(0, 100, 10, 0), entry(1, 100, 11, 0)];
    let order = rank_order(&es, None);
    assert_eq!(assign_ranks(&es, None, &order), vec![1, 2]);
}

#[test]
fn empty_rank_list() {
    let es: Vec<RankEntry> = vec![];
    let order = rank_order(&es, None);
    assert!(order.is_empty());
    assert!(assign_ranks(&es, None, &order).is_empty());
}

#[test]
fn submission_keys() {
    let log = vec![3, 1, 3, 2];
    assert_eq!(submission_time_key(&log, 3), 2);
    assert_eq!(submission_time_key(&log, 1), 1);
    assert_eq!(submission_time_key(&log, 9), 4);
    assert_eq!(submission_count_key(&log, 3), 2);
    assert_eq!(submission_count_key(&log, 9), 0);
    assert_eq!(contest_submission_log(&vec![(1, 5), (2, 6), (1, 7)], 1), vec![5, 7]);
}

#[test]
fn tie_keys_follow_the_rule() {
    let mut rec = SubmissionRecords::new();
    rec.record_submission(1, 0, 0, 10, true, &vec![1]);
    rec.record_submission(2, 0, 0, 10, true, &vec![1]);
    rec.record_submission(1, 0, 0, 10, true, &vec![1]);
    let users = vec![1, 2, 3];
    assert_eq!(tie_keys(&rec, None, None, Some(RankListTieBreaker::SubmissionTime), &users), vec![2, 1, 3]);
    assert_eq!(
        tie_keys(&rec, None, Some(RankListScoringRule::Highest), Some(RankListTieBreaker::SubmissionTime), &users),
        vec![0, 1, 2]
    );
    assert_eq!(tie_keys(&rec, None, None, Some(RankListTieBreaker::SubmissionCount), &users), vec![2, 1, 0]);
    assert_eq!(tie_keys(&rec, None, None, None, &users), vec![0, 0, 0]);
}

#[test]
fn scores_are_chosen_by_rule() {
    let records = vec![
        ScoreRecordKey { contest_id: 0, user_id: 1, problem_id: 0, score_keys: vec![5000, 10000, 10000, 3000] },
        ScoreRecordKey { contest_id: 0, user_id: 2, problem_id: 1, score_keys: vec![0] },
    ];
    let t = score_table(&records, None, &vec![1, 2], &vec![0, 1], Some(RankListScoringRule::Highest));
    assert_eq!(t[0], vec![Some((0, 2)), None]);
    assert_eq!(t[1], vec![None, Some((1, 0))]);
    let t = score_table(&records, None, &vec![1], &vec![0], Some(RankListScoringRule::Latest));
    assert_eq!(t[0], vec![Some((0, 3))]);
    let t = score_table(&records, Some(4), &vec![1], &vec![0], None);
    assert_eq!(t[0], vec![None]);
}

#[test]
fn members_and_sorted_problems() {
    let users = vec![
        APIPostUsers { id: Some(0), name: "root".to_string() },
        APIPostUsers { id: Some(1), name: "a".to_string() },
        APIPostUsers { id: Some(2), name: "b".to_string() },
    ];
    assert_eq!(contest_members(&users, &vec![2, 0]), vec![0, 2]);
    assert_eq!(user_id_list(&users), vec![0, 1, 2]);
    assert_eq!(sorted_ids(&vec![3, 1, 2, 1]), vec![1, 1, 2, 3]);
}

#[test]
fn fastest_times_and_ratio_choice() {
    let records = vec![
        RecordUserProblem { user_id: 1, problem_id: 0, score_keys: vec![0], min_time: vec![30, 40] },
        RecordUserProblem { user_id: 2, problem_id: 0, score_keys: vec![0], min_time: vec![20, 50] },
        RecordUserProblem { user_id: 3, problem_id: 0, score_keys: vec![0], min_time: vec![] },
        RecordUserProblem { user_id: 1, problem_id: 1, score_keys: vec![0], min_time: vec![] },
    ];
    assert_eq!(fastest_case_times(&records, 0), Some(vec![20, 40]));
    assert_eq!(fastest_case_times(&records, 1), None);
    assert!(matches!(ratio_choice(&records, 0, 2), RatioChoice::Timed(1)));
    match ratio_choice(&records, 0, 3) {
        RatioChoice::Untimed(v) => assert_eq!(v, vec![2]),
        other => panic!("unexpected {:?}", other),
    }
    assert!(matches!(ratio_choice(&records, 0, 9), RatioChoice::Absent));
}

#[test]
fn the_rank_list_source_depends_on_ratios() {
    match rank_list_source(&vec![false, true, false, true]) {
        RankListSource::DynamicRanking(v) => assert_eq!(v, vec![1, 3]),
        RankListSource::ContestList => panic!("expected the dynamic ranking"),
    }
    assert!(matches!(rank_list_source(&vec![false, false]), RankListSource::ContestList));
    assert!(matches!(rank_list_source(&vec![]), RankListSource::ContestList));
}
