use oj::config_analysis::ConfigLanguage;
use oj::api_analysis::{
    get_job_judge, list_jobs, APIPostJob, APIPostResponse, APIPostResponseResult, APIPostResponseState,
    APIPostUsers, GetJobInfo, JobListError, PostContest,
};
use oj::records::SubmissionRecords;
use oj::server::{
    file_failed, file_judged, keep_identity, locate_job, rejudge_target, startup_plan, JobLocation, OjState,
    ServiceError, StartupAction, StartupError,
};
use oj::time_format::{now_time_string, parse_time};

fn s(x: &str) -> String {
    x.to_string()
}

fn job(user: usize, contest: usize, problem: usize) -> APIPostJob {
    APIPostJob { source_code: s("int main(){}"), language: s("C"), user_id: user, contest_id: contest, problem_id: problem }
}

fn langs() -> Vec<ConfigLanguage> {
    vec![ConfigLanguage { name: s("C"), file_name: s("main.c"), command: vec![s("cc")] }]
}

fn users() -> Vec<APIPostUsers> {
    vec![
        APIPostUsers { id: Some(0), name: s("root") },
        APIPostUsers { id: Some(1), name: s("alice") },
        APIPostUsers { id: Some(2), name: s("bob") },
    ]
}

fn response_at(created: &str, job: APIPostJob) -> APIPostResponse {
    let mut r = APIPostResponse::new();
    r.created_time = s(created);
    r.submission = job;
    r
}

#[test]
fn times_are_read_in_the_job_format() {
    let a = parse_time("2022-08-27T02:05:29.000Z").unwrap();
    let b = parse_time("2022-08-27T02:05:29.001Z").unwrap();
    assert!(a < b);
    assert_eq!(a.1, 0);
    assert_eq!(b.1, 1_000_000);
    assert!(parse_time("2022-08-27 02:05:29").is_none());
    assert!(parse_time(&now_time_string()).is_some());
}

#[test]
fn job_filter_window_is_inclusive() {
    let r = response_at("2022-08-27T02:05:29.000Z", job(1, 0, 2));
    let mut info = GetJobInfo::new();
    info.from = Some(s("2022-08-27T02:05:29.000Z"));
    info.to = Some(s("2022-08-27T02:05:29.000Z"));
    assert!(get_job_judge(&info, &users(), &r));
    info.from = Some(s("2022-08-27T02:05:29.001Z"));
    assert!(!get_job_judge(&info, &users(), &r));
}

#[test]
fn job_filter_checks_each_given_field() {
    let mut r = response_at("2022-08-27T02:05:29.000Z", job(1, 3, 2));
    r.state = APIPostResponseState::Finished;
    r.result = APIPostResponseResult::Accepted;
    let mut info = GetJobInfo::new();
    assert!(get_job_judge(&info, &users(), &r));
    info.user_name = Some(s("nobody"));
    assert!(!get_job_judge(&info, &users(), &r));
    info.user_name = Some(s("alice"));
    assert!(get_job_judge(&info, &users(), &r));
    info.problem_id = Some(2);
    info.contest_id = Some(3);
    info.language = Some(s("C"));
    info.state = Some(APIPostResponseState::Finished);
    info.result = Some(APIPostResponseResult::Accepted);
    assert!(get_job_judge(&info, &users(), &r));
    info.user_id = Some(9);
    assert!(!get_job_judge(&info, &users(), &r));
    info.user_id = None;
    info.language = Some(s("Rust"));
    assert!(!get_job_judge(&info, &users(), &r));
}

#[test]
fn job_listing_filters_and_refuses_bad_times() {
    let jobs = vec![
        response_at("2022-08-27T02:05:29.000Z", job(1, 0, 2)),
        response_at("2022-08-27T02:05:30.000Z", job(2, 0, 2)),
        response_at("2022-08-27T02:05:31.000Z", job(1, 0, 5)),
    ];
    let mut info = GetJobInfo::new();
    info.user_id = Some(1);
    assert_eq!(list_jobs(&info, &users(), &jobs).unwrap(), vec![0, 2]);
    info.from = Some(s("2022-08-27T02:05:30.000Z"));
    assert_eq!(list_jobs(&info, &users(), &jobs).unwrap(), vec![2]);
    info.to = Some(s("yesterday"));
    assert_eq!(list_jobs(&info, &users(), &jobs).unwrap_err(), JobListError::InvalidTime);
    let bad = vec![response_at("not a time", job(1, 0, 2))];
    assert_eq!(list_jobs(&GetJobInfo::new(), &users(), &bad).unwrap_err(), JobListError::UnreadableJob);
}

#[test]
fn users_register_and_rename() {
    let mut st = OjState::new();
    let a = st.post_users(APIPostUsers { id: None, name: s("alice") }).unwrap();
    assert_eq!(a.id, Some(1));
    let b = st.post_users(APIPostUsers { id: None, name: s("bob") }).unwrap();
    assert_eq!(b.id, Some(2));
    match st.post_users(APIPostUsers { id: None, name: s("alice") }) {
        Err(ServiceError::BadRequest(e)) => {
            assert_eq!(e.code, 1);
            assert_eq!(e.reason, "ERR_INVALID_ARGUMENT");
            assert_eq!(e.message, "User name alice already exists.");
        },
        other => panic!("unexpected {:?}", other),
    }
    match st.post_users(APIPostUsers { id: Some(7), name: s("carol") }) {
        Err(ServiceError::NotFound(e)) => {
            assert_eq!(e.code, 3);
            assert_eq!(e.reason, "ERR_NOT_FOUND");
            assert_eq!(e.message, "User 7 not found");
        },
        other => panic!("unexpected {:?}", other),
    }
    let c = st.post_users(APIPostUsers { id: Some(1), name: s("carol") }).unwrap();
    assert_eq!(c.id, Some(1));
    assert_eq!(st.users[1].name, "carol");
    assert_eq!(st.user_names, vec![s("root"), s("carol"), s("bob")]);
    // A second rename keeps every user's name in the name list.
    st.post_users(APIPostUsers { id: Some(2), name: s("dave") }).unwrap();
    assert_eq!(st.user_names, vec![s("root"), s("carol"), s("dave")]);
    assert!(st.post_users(APIPostUsers { id: None, name: s("carol") }).is_err());
    assert_eq!(st.user_ids, vec![0, 1, 2]);
}

#[test]
fn contests_are_created_and_replaced() {
    let mut st = OjState::new();
    st.add_problem_ids(&vec![0, 1]);
    st.post_users(APIPostUsers { id: None, name: s("alice") }).unwrap();
    let mut c = PostContest::new();
    c.name = s("round");
    c.user_ids = vec![0, 1];
    c.problem_ids = vec![1];
    c.submission_limit = 2;
    let made = st.post_contests(c.clone()).unwrap();
    assert_eq!(made.id, Some(1));
    let second = st.post_contests(c.clone()).unwrap();
    assert_eq!(second.id, Some(2));
    let mut bad = c.clone();
    bad.problem_ids = vec![9];
    match st.post_contests(bad) {
        Err(ServiceError::NotFound(e)) => assert_eq!(e.message, "Contest 114514 not found."),
        other => panic!("unexpected {:?}", other),
    }
    let mut upd = c.clone();
    upd.id = Some(2);
    upd.name = s("final");
    assert_eq!(st.post_contests(upd).unwrap().name, "final");
    assert_eq!(st.contests[1].name, "final");
    let mut missing = c.clone();
    missing.id = Some(5);
    match st.post_contests(missing) {
        Err(ServiceError::NotFound(e)) => assert_eq!(e.message, "Contest 5 not found."),
        other => panic!("unexpected {:?}", other),
    }
    assert_eq!(st.get_contest_id(2).unwrap().name, "final");
    assert!(st.get_contest_id(3).is_err());
}

#[test]
fn jobs_are_checked_before_they_are_taken() {
    let mut st = OjState::new();
    st.add_problem_ids(&vec![0, 1]);
    let now = parse_time("2022-08-27T10:00:00.000Z").unwrap();
    match st.submit_job(&job(0, 0, 5), &langs(), now) {
        Err(ServiceError::NotFound(e)) => assert_eq!(e.code, 3),
        other => panic!("unexpected {:?}", other),
    }
    match st.submit_job(&job(4, 0, 1), &langs(), now) {
        Err(ServiceError::NotFound(e)) => assert_eq!(e.reason, "ERR_NOT_FOUND"),
        other => panic!("unexpected {:?}", other),
    }
    let mut rust_job = job(0, 0, 1);
    rust_job.language = s("Rust");
    match st.submit_job(&rust_job, &langs(), now) {
        Err(ServiceError::NotFound(e)) => assert_eq!(e.code, 3),
        other => panic!("unexpected {:?}", other),
    }
    assert!(st.jobs.is_empty());
    assert!(st.submit_job(&job(0, 0, 1), &langs(), now).is_ok());
    assert_eq!(st.jobs.len(), 1);
    let mut c = PostContest::new();
    c.user_ids = vec![0];
    c.problem_ids = vec![1];
    c.from = s("2022-08-27T09:00:00.000Z");
    c.to = s("2022-08-27T11:00:00.000Z");
    c.submission_limit = 1;
    st.post_contests(c).unwrap();
    assert!(st.submit_job(&job(0, 1, 1), &langs(), now).is_ok());
    match st.submit_job(&job(0, 1, 1), &langs(), now) {
        Err(ServiceError::BadRequest(e)) => {
            assert_eq!(e.code, 4);
            assert_eq!(e.reason, "ERR_RATE_LIMIT");
        },
        other => panic!("unexpected {:?}", other),
    }
    let late = parse_time("2022-08-27T12:00:00.000Z").unwrap();
    match st.check_job(&job(0, 1, 1), &langs(), late) {
        Err(ServiceError::BadRequest(e)) => assert_eq!(e.code, 1),
        other => panic!("unexpected {:?}", other),
    }
    match st.check_job(&job(0, 1, 0), &langs(), now) {
        Err(ServiceError::BadRequest(e)) => assert_eq!(e.reason, "ERR_INVALID_ARGUMENT"),
        other => panic!("unexpected {:?}", other),
    }
    match st.check_job(&job(0, 9, 1), &langs(), now) {
        Err(ServiceError::BadRequest(e)) => assert_eq!(e.code, 1),
        other => panic!("unexpected {:?}", other),
    }
}

#[test]
fn unreadable_contest_window_is_a_conflict() {
    let mut st = OjState::new();
    st.add_problem_ids(&vec![0]);
    let mut c = PostContest::new();
    c.user_ids = vec![0];
    c.problem_ids = vec![0];
    c.from = s("soon");
    c.submission_limit = 3;
    st.post_contests(c).unwrap();
    let now = parse_time("2022-08-27T10:00:00.000Z").unwrap();
    assert!(matches!(st.check_job(&job(0, 1, 0), &langs(), now), Err(ServiceError::Conflict)));
}

#[test]
fn jobs_are_located_by_id() {
    let mut queue = Vec::new();
    let mut q = APIPostResponse::new();
    q.id = 5;
    queue.push(q);
    assert_eq!(locate_job(3, &queue, 1), JobLocation::Judged(1));
    assert_eq!(locate_job(3, &queue, 5), JobLocation::Queued(0));
    assert_eq!(locate_job(3, &queue, 4), JobLocation::NotFound);
    assert_eq!(rejudge_target(3, 2).unwrap(), 2);
    match rejudge_target(3, 3) {
        Err(ServiceError::NotFound(e)) => assert_eq!(e.message, "Job 3 not found."),
        other => panic!("unexpected {:?}", other),
    }
}

#[test]
fn judged_jobs_are_numbered_in_order() {
    let mut judged: Vec<APIPostResponse> = Vec::new();
    let mut a = APIPostResponse::new();
    a.id = 42;
    file_judged(&mut judged, a);
    file_judged(&mut judged, APIPostResponse::new());
    assert_eq!(judged[0].id, 0);
    assert_eq!(judged[1].id, 1);
    file_failed(&mut judged, &job(1, 0, 0));
    assert_eq!(judged[2].id, 2);
    assert_eq!(judged[2].result, APIPostResponseResult::SPJError);
    assert_eq!(judged[2].state, APIPostResponseState::Finished);
    let mut again = APIPostResponse::new();
    keep_identity(&judged[1], &mut again);
    assert_eq!(again.id, 1);
    assert_eq!(again.created_time, judged[1].created_time);
}

#[test]
fn startup_reads_the_command_line() {
    let args = vec![s("oj"), s("-f"), s("-c"), s("config.json")];
    let (steps, err) = startup_plan(&args);
    assert!(err.is_none());
    assert_eq!(steps.len(), 2);
    assert!(matches!(steps[0], StartupAction::FlushData));
    match &steps[1] {
        StartupAction::LoadConfig(p) => assert_eq!(p, "config.json"),
        other => panic!("unexpected {:?}", other),
    }
    let (steps, err) = startup_plan(&vec![s("oj"), s("--flush-data"), s("--config")]);
    assert_eq!(err, Some(StartupError::NoConfigFile));
    assert_eq!(steps.len(), 1);
    let (_, err) = startup_plan(&vec![s("oj")]);
    assert_eq!(err, Some(StartupError::NoConfigFlag));
}

#[test]
fn submissions_are_filed_in_records() {
    let mut rec = SubmissionRecords::new();
    let p1 = rec.record_submission(1, 7, 0, 100, true, &vec![5, 6]);
    assert_eq!(p1.user_record, 0);
    assert!(p1.contest_record.is_none());
    assert_eq!(rec.user_problem[0].min_time, vec![5, 6]);
    assert_eq!(rec.user_problem[0].score_keys, vec![100]);
    assert_eq!(rec.highest_user_submit, vec![1]);
    let p2 = rec.record_submission(1, 7, 0, 50, false, &vec![9, 9]);
    assert_eq!(p2.user_record, 0);
    assert_eq!(rec.user_problem[0].min_time, vec![5, 6]);
    assert_eq!(rec.user_problem[0].score_keys, vec![100, 50]);
    assert_eq!(rec.highest_user_submit, vec![1]);
    assert_eq!(rec.all_user_submit, vec![1, 1]);
    // Equal to the best so far is no new best; above it is.
    rec.record_submission(1, 7, 0, 100, false, &vec![]);
    assert_eq!(rec.highest_user_submit, vec![1]);
    rec.record_submission(1, 7, 0, 200, false, &vec![]);
    assert_eq!(rec.highest_user_submit, vec![1, 1]);
    let p3 = rec.record_submission(2, 7, 3, 100, true, &vec![1]);
    assert_eq!(p3.user_record, 1);
    assert_eq!(p3.contest_record, Some(0));
    assert_eq!(rec.highest_user_submit, vec![1, 1, 2]);
    assert_eq!(rec.contest_highest_user_submit, vec![(3, 2)]);
    assert_eq!(rec.contest_all_user_submit, vec![(3, 2)]);
    // User 1 has a record on problem 7 but none in contest 3: one is made.
    let p4 = rec.record_submission(1, 7, 3, 300, true, &vec![4, 4]);
    assert_eq!(p4.user_record, 0);
    assert_eq!(p4.contest_record, Some(1));
    assert_eq!(rec.contest_user_problem.len(), 2);
    assert_eq!(rec.contest_user_problem[1].score_keys, vec![300]);
    assert_eq!(rec.highest_user_submit, vec![1, 1, 2, 1]);
    assert_eq!(rec.contest_highest_user_submit, vec![(3, 2), (3, 1)]);
    assert_eq!(rec.contest_all_user_submit, vec![(3, 2), (3, 1)]);
    let p5 = rec.record_submission(1, 7, 3, 10, false, &vec![]);
    assert_eq!(p5.contest_record, Some(1));
    assert_eq!(rec.contest_highest_user_submit, vec![(3, 2), (3, 1)]);
    assert_eq!(rec.user_problem.len(), 2);
}

#[test]
fn a_posted_contest_is_found_by_its_id() {
    let mut st = OjState::new();
    st.add_problem_ids(&vec![3]);
    let mut c = PostContest::new();
    c.name = s("spring");
    c.problem_ids = vec![3];
    let made = st.post_contests(c).unwrap();
    let found = st.get_contest_id(made.id.unwrap()).unwrap();
    assert_eq!(found.id, made.id);
    assert_eq!(found.name, "spring");
    assert_eq!(found.problem_ids, vec![3]);
}

#[test]
fn an_empty_filter_lists_every_job() {
    let jobs = vec![
        response_at("2022-08-27T02:05:29.000Z", job(1, 0, 2)),
        response_at("2022-08-27T02:05:30.000Z", job(2, 4, 3)),
        response_at("2022-08-27T02:05:31.000Z", job(0, 0, 5)),
    ];
    assert_eq!(list_jobs(&GetJobInfo::new(), &users(), &jobs).unwrap(), vec![0, 1, 2]);
}
