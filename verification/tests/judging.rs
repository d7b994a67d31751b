use oj::trail_terminal::{next_judge_step, JudgeStep};
use oj::api_analysis::{
    APIErr, APIPostJob, APIPostResponse, APIPostResponseCase, APIPostResponseResult, APIPostResponseState,
    APIPostUsers, GetContestIDRankList, GetJobInfo, PostContest, RankListScoringRule,
};
use oj::config_analysis::{deal_string_standard, ConfigLanguage, ConfigProblemType, ConfigServer};
use oj::trail_terminal::{
    apply_packing, case_times, compare_outputs, compilation_failed, compilation_succeeded, compile_command,
    decimal_string, find_language, find_problem, finish_judging, output_checked, path_in, run_failed,
    running_dealer, special_judge_checked, special_judge_command, waiting_dealer, work_dir, ScoreChange,
};

fn s(x: &str) -> String {
    x.to_string()
}

fn job(user: usize, contest: usize, problem: usize) -> APIPostJob {
    APIPostJob { source_code: s("fn main() {}"), language: s("Rust"), user_id: user, contest_id: contest, problem_id: problem }
}

#[test]
fn standard_removes_trailing_newlines_and_line_blanks() {
    assert_eq!(deal_string_standard(s("a \nb\r\n\n")), "a\nb");
    assert_eq!(deal_string_standard(s("")), "");
    assert_eq!(deal_string_standard(s("\n\n")), "");
    assert_eq!(deal_string_standard(s("1 2 3  \r\n4 5 6\n")), "1 2 3\n4 5 6");
}

#[test]
fn standard_keeps_blank_lines_inside() {
    assert_eq!(deal_string_standard(s("x\n  \n")), "x");
    assert_eq!(deal_string_standard(s("a\n \n")), "a");
    assert_eq!(deal_string_standard(s("x\n\ny")), "x\n\ny");
    assert_eq!(deal_string_standard(s("  lead")), "  lead");
}

#[test]
fn standard_is_idempotent_and_reads_crlf_as_lf() {
    for text in ["a\n \n", "x\n\ny \r\n\n", " \n \n", "1 2\r\n3\r\n", ""] {
        let once = deal_string_standard(s(text));
        assert!(!once.ends_with('\n'));
        assert_eq!(deal_string_standard(once.clone()), once);
        assert_eq!(deal_string_standard(text.replace('\n', "\r\n")), once);
    }
}

#[test]
fn standard_reads_any_text() {
    assert_eq!(deal_string_standard(s("é\n")), "é");
    assert_eq!(deal_string_standard(s("你好 \r\n世界\n\n")), "你好\n世界");
    let c = compare_outputs(ConfigProblemType::Standard, s("é \n"), s("é"));
    assert!(c.matched);
    assert_eq!(c.memory, 2);
}

#[test]
fn standard_ignores_a_final_newline() {
    let a = deal_string_standard(s("hello world"));
    let b = deal_string_standard(s("hello world\n"));
    assert_eq!(a, b);
}

#[test]
fn show_str_names_every_result() {
    assert_eq!(APIPostResponseResult::show_str(&APIPostResponseResult::Waiting), "Waiting");
    assert_eq!(APIPostResponseResult::show_str(&APIPostResponseResult::CompilationError), "CompilationError");
    assert_eq!(APIPostResponseResult::show_str(&APIPostResponseResult::TimeLimitExceeded), "TimeLimitExceeded");
    assert_eq!(APIPostResponseResult::show_str(&APIPostResponseResult::SPJError), "SPJError");
    assert_eq!(APIPostResponseResult::show_str(&APIPostResponseResult::Skipped), "Skipped");
    assert_eq!(APIPostResponseResult::show_str(&APIPostResponseResult::MemoryLimitExceeded), "MemoryLimitExceeded");
}

#[test]
fn constructors_give_empty_values() {
    let e = APIErr::new();
    assert_eq!(e.code, 0);
    assert_eq!(e.reason, "");
    let j = APIPostJob::new();
    assert_eq!(j.user_id, 0);
    assert_eq!(j.language, "");
    let u = APIPostUsers::new();
    assert!(u.id.is_none());
    let c = APIPostResponseCase::new();
    assert_eq!(c.result, APIPostResponseResult::Waiting);
    let p = PostContest::new();
    assert!(p.id.is_none());
    assert_eq!(p.submission_limit, 0);
    let g = GetJobInfo::new();
    assert!(g.from.is_none() && g.state.is_none());
    let r = GetContestIDRankList::new();
    assert_eq!(r.scoring_rule, Some(RankListScoringRule::Latest));
    assert!(r.tie_breaker.is_none());
    let srv = ConfigServer::new();
    assert!(srv.bind_address.is_none() && srv.bind_port.is_none());
    let l = ConfigLanguage::new();
    assert!(l.command.is_empty());
    let resp = APIPostResponse::new();
    assert_eq!(resp.state, APIPostResponseState::Queueing);
    assert_eq!(resp.result, APIPostResponseResult::Waiting);
    assert_eq!(resp.created_time.len(), "2022-08-27T02:05:29.000Z".len());
}

#[test]
fn decimal_and_paths() {
    assert_eq!(decimal_string(0), "0");
    assert_eq!(decimal_string(1024), "1024");
    assert_eq!(decimal_string(usize::MAX), usize::MAX.to_string());
    assert_eq!(work_dir(7), "tmp7");
    assert_eq!(path_in(&s("tmp7"), "main.rs"), "tmp7/main.rs");
}

#[test]
fn compile_command_fills_placeholders() {
    let cmd = vec![s("rustc"), s("-C"), s("opt-level=2"), s("-o"), s("%OUTPUT%"), s("%INPUT%")];
    let c = compile_command(&cmd, &s("tmp0/main.rs"), &s("tmp0/test.exe")).unwrap();
    assert_eq!(c.program, "rustc");
    assert_eq!(c.args, vec![s("-C"), s("opt-level=2"), s("-o"), s("tmp0/test.exe"), s("tmp0/main.rs")]);
    assert!(compile_command(&vec![], &s("a"), &s("b")).is_none());
}

#[test]
fn special_judge_command_fills_placeholders() {
    let cmd = vec![s("python3"), s("spj.py"), s("%OUTPUT%"), s("%ANSWER%")];
    let c = special_judge_command(&cmd, &s("tmp0/out.txt"), &s("data/1.ans")).unwrap();
    assert_eq!(c.program, "python3");
    assert_eq!(c.args, vec![s("spj.py"), s("tmp0/out.txt"), s("data/1.ans")]);
}

#[test]
fn finds_problems_and_languages() {
    assert_eq!(find_problem(&vec![3, 0, 3], 3), Some(0));
    assert_eq!(find_problem(&vec![3, 0, 3], 1), None);
    let langs = vec![
        ConfigLanguage { name: s("C"), file_name: s("main.c"), command: vec![s("gcc")] },
        ConfigLanguage { name: s("Rust"), file_name: s("main.rs"), command: vec![s("rustc")] },
    ];
    assert_eq!(find_language(&langs, &s("Rust")), Some(1));
    assert_eq!(find_language(&langs, &s("Go")), None);
}

#[test]
fn compilation_error_fills_waiting_cases() {
    let mut r = APIPostResponse::new();
    r.submission = job(1, 0, 0);
    compilation_failed(&mut r, 3);
    assert_eq!(r.result, APIPostResponseResult::CompilationError);
    assert_eq!(r.state, APIPostResponseState::Finished);
    assert_eq!(r.cases.len(), 4);
    assert_eq!(r.cases[0].result, APIPostResponseResult::CompilationError);
    for k in 1..4 {
        assert_eq!(r.cases[k].id, k);
        assert_eq!(r.cases[k].result, APIPostResponseResult::Waiting);
    }
}

#[test]
fn first_failure_decides_the_job() {
    let mut r = APIPostResponse::new();
    compilation_succeeded(&mut r);
    assert_eq!(output_checked(&mut r, true, 3, 0, 10), ScoreChange::Added);
    run_failed(&mut r, true, 1000);
    run_failed(&mut r, false, 20);
    assert_eq!(output_checked(&mut r, false, 2, 0, 5), ScoreChange::Unchanged);
    assert_eq!(r.result, APIPostResponseResult::TimeLimitExceeded);
    let results: Vec<_> = r.cases.iter().map(|c| c.result).collect();
    assert_eq!(
        results,
        vec![
            APIPostResponseResult::CompilationSuccess,
            APIPostResponseResult::Accepted,
            APIPostResponseResult::TimeLimitExceeded,
            APIPostResponseResult::RuntimeError,
            APIPostResponseResult::WrongAnswer,
        ]
    );
    assert_eq!(r.cases[2].time, 1000);
    assert_eq!(r.cases[4].id, 4);
    finish_judging(&mut r);
    assert_eq!(r.state, APIPostResponseState::Finished);
    assert_eq!(r.result, APIPostResponseResult::TimeLimitExceeded);
}

#[test]
fn memory_limit_rules() {
    let mut r = APIPostResponse::new();
    compilation_succeeded(&mut r);
    assert_eq!(output_checked(&mut r, true, 10, 5, 1), ScoreChange::AddedThenWithdrawn);
    assert_eq!(r.cases[1].result, APIPostResponseResult::MemoryLimitExceeded);
    assert_eq!(r.result, APIPostResponseResult::MemoryLimitExceeded);
    let mut w = APIPostResponse::new();
    compilation_succeeded(&mut w);
    run_failed(&mut w, false, 0);
    output_checked(&mut w, false, 10, 5, 1);
    // The first failing case decides the job's result.
    assert_eq!(w.result, APIPostResponseResult::RuntimeError);
    assert_eq!(w.cases[2].result, APIPostResponseResult::MemoryLimitExceeded);
    assert_eq!(w.cases[2].memory, 10);
    let mut m = APIPostResponse::new();
    compilation_succeeded(&mut m);
    output_checked(&mut m, false, 10, 5, 1);
    assert_eq!(m.result, APIPostResponseResult::MemoryLimitExceeded);
}

#[test]
fn all_accepted_job_is_accepted() {
    let mut r = APIPostResponse::new();
    compilation_succeeded(&mut r);
    output_checked(&mut r, true, 1, 100, 1);
    output_checked(&mut r, true, 1, 100, 1);
    finish_judging(&mut r);
    assert_eq!(r.result, APIPostResponseResult::Accepted);
}

#[test]
fn special_judge_verdicts() {
    let mut r = APIPostResponse::new();
    compilation_succeeded(&mut r);
    let c = special_judge_checked(&mut r, &s("Accepted \n"), &s("ok 3 numbers\n"), 7);
    assert_eq!(c, ScoreChange::Added);
    assert_eq!(r.cases[1].result, APIPostResponseResult::Accepted);
    assert_eq!(r.cases[1].info, "ok 3 numbers");
    assert_eq!(r.result, APIPostResponseResult::Waiting);
    let c = special_judge_checked(&mut r, &s("Wrong Answer\n"), &s("differ at 2"), 7);
    assert_eq!(c, ScoreChange::Unchanged);
    assert_eq!(r.cases[2].result, APIPostResponseResult::WrongAnswer);
    assert_eq!(r.result, APIPostResponseResult::WrongAnswer);
}

#[test]
fn packing_skips_after_a_failure() {
    let mut r = APIPostResponse::new();
    compilation_succeeded(&mut r);
    output_checked(&mut r, true, 1, 0, 1);
    output_checked(&mut r, false, 1, 0, 1);
    output_checked(&mut r, true, 1, 0, 1);
    output_checked(&mut r, true, 1, 0, 1);
    output_checked(&mut r, true, 1, 0, 1);
    apply_packing(&mut r, &vec![vec![1, 2, 3], vec![4, 5]]);
    let results: Vec<_> = r.cases.iter().map(|c| c.result).collect();
    assert_eq!(
        results,
        vec![
            APIPostResponseResult::CompilationSuccess,
            APIPostResponseResult::Accepted,
            APIPostResponseResult::WrongAnswer,
            APIPostResponseResult::Skipped,
            APIPostResponseResult::Accepted,
            APIPostResponseResult::Accepted,
        ]
    );
    assert_eq!(r.result, APIPostResponseResult::WrongAnswer);
}

#[test]
fn packing_reads_results_before_skipping() {
    let mut r = APIPostResponse::new();
    compilation_succeeded(&mut r);
    output_checked(&mut r, false, 1, 0, 1);
    output_checked(&mut r, true, 1, 0, 1);
    output_checked(&mut r, true, 1, 0, 1);
    // Case 2 is skipped by the first pack, yet the second pack still sees it
    // as accepted.
    apply_packing(&mut r, &vec![vec![1, 2], vec![2, 3]]);
    assert_eq!(r.cases[2].result, APIPostResponseResult::Skipped);
    assert_eq!(r.cases[3].result, APIPostResponseResult::Accepted);
}

#[test]
fn outputs_are_compared_by_problem_type() {
    let a = compare_outputs(ConfigProblemType::Standard, s("1 2\n3 \n\n"), s("1 2\n3"));
    assert!(a.matched);
    assert_eq!(a.memory, 5);
    let b = compare_outputs(ConfigProblemType::Strict, s("1 2\n3 \n\n"), s("1 2\n3"));
    assert!(!b.matched);
    assert_eq!(b.memory, 8);
    let c = compare_outputs(ConfigProblemType::Strict, s("x"), s("x"));
    assert!(c.matched);
}

#[test]
fn case_times_skip_the_compilation() {
    let mut r = APIPostResponse::new();
    compilation_succeeded(&mut r);
    output_checked(&mut r, true, 1, 0, 11);
    output_checked(&mut r, true, 1, 0, 22);
    assert_eq!(case_times(&r.cases), vec![11, 22]);
    assert_eq!(case_times(&vec![]), Vec::<usize>::new());
}

#[test]
fn waiting_and_running_answers() {
    let mut queue: Vec<APIPostResponse> = Vec::new();
    let first = waiting_dealer(&job(1, 0, 0), 2, &mut queue);
    assert_eq!(first.id, 0);
    assert_eq!(first.cases.len(), 3);
    assert!(first.cases.iter().all(|c| c.result == APIPostResponseResult::Waiting));
    assert_eq!(first.state, APIPostResponseState::Queueing);
    let second = waiting_dealer(&job(2, 0, 0), 1, &mut queue);
    assert_eq!(second.id, 1);
    assert_eq!(queue.len(), 2);
    assert_eq!(queue[1].state, APIPostResponseState::Running);
    assert_eq!(queue[1].result, APIPostResponseResult::Running);
    assert!(queue[1].cases.iter().all(|c| c.result == APIPostResponseResult::Running));
    assert_eq!(queue[1].submission.user_id, 2);
    let mut q2: Vec<APIPostResponse> = Vec::new();
    running_dealer(&mut q2, &first);
    assert_eq!(q2[0].cases.len(), 3);
    assert_eq!(q2[0].id, 0);
}

#[test]
fn special_judge_lines_lose_trailing_whitespace() {
    let mut r = APIPostResponse::new();
    compilation_succeeded(&mut r);
    let c = special_judge_checked(&mut r, &s("Accepted\t\r\n"), &s("fine \u{3000}\u{a0}"), 3);
    assert_eq!(c, ScoreChange::Added);
    assert_eq!(r.cases[1].info, "fine");
    let c = special_judge_checked(&mut r, &s(" Accepted"), &s(""), 3);
    assert_eq!(c, ScoreChange::Unchanged);
    assert_eq!(r.cases[2].result, APIPostResponseResult::WrongAnswer);
}

#[test]
fn judging_steps_follow_the_problem() {
    assert_eq!(next_judge_step(JudgeStep::Compile, false, 2, false, false), JudgeStep::Done);
    assert_eq!(next_judge_step(JudgeStep::Compile, true, 2, false, false), JudgeStep::RunCase(0));
    assert_eq!(next_judge_step(JudgeStep::Compile, true, 0, false, true), JudgeStep::ApplyPacking);
    assert_eq!(next_judge_step(JudgeStep::RunCase(0), true, 2, false, false), JudgeStep::CompareOutput(0));
    assert_eq!(next_judge_step(JudgeStep::RunCase(0), true, 2, true, false), JudgeStep::SpecialJudge(0));
    assert_eq!(next_judge_step(JudgeStep::RunCase(0), false, 2, true, false), JudgeStep::RunCase(1));
    assert_eq!(next_judge_step(JudgeStep::CompareOutput(1), true, 2, false, false), JudgeStep::Finish);
    assert_eq!(next_judge_step(JudgeStep::SpecialJudge(1), true, 2, true, true), JudgeStep::ApplyPacking);
    assert_eq!(next_judge_step(JudgeStep::ApplyPacking, true, 2, false, true), JudgeStep::Finish);
    assert_eq!(next_judge_step(JudgeStep::Finish, true, 2, false, true), JudgeStep::Done);
}

#[test]
fn a_fresh_answer_is_created_and_updated_at_one_time() {
    let r = APIPostResponse::new();
    assert_eq!(r.created_time, r.updated_time);
    assert!(oj::time_format::parse_time(&r.created_time).is_some());
}

#[test]
fn the_first_failing_case_decides_a_whole_run() {
    let mut r = APIPostResponse::new();
    let mut step = JudgeStep::Compile;
    let mut visited = Vec::new();
    loop {
        visited.push(step);
        let ok = match step {
            JudgeStep::Compile => {
                compilation_succeeded(&mut r);
                true
            },
            JudgeStep::RunCase(k) => {
                if k == 1 {
                    run_failed(&mut r, false, 3);
                    false
                } else {
                    true
                }
            },
            JudgeStep::CompareOutput(k) => {
                output_checked(&mut r, k == 0, 1, 0, 2);
                true
            },
            JudgeStep::Finish => {
                finish_judging(&mut r);
                true
            },
            JudgeStep::Done => break,
            _ => true,
        };
        step = next_judge_step(step, ok, 3, false, false);
    }
    assert_eq!(
        visited,
        vec![
            JudgeStep::Compile,
            JudgeStep::RunCase(0),
            JudgeStep::CompareOutput(0),
            JudgeStep::RunCase(1),
            JudgeStep::RunCase(2),
            JudgeStep::CompareOutput(2),
            JudgeStep::Finish,
            JudgeStep::Done
        ]
    );
    assert_eq!(r.cases.len(), 4);
    for (i, c) in r.cases.iter().enumerate() {
        assert_eq!(c.id, if i == 0 { 0 } else { i });
    }
    assert_eq!(r.result, APIPostResponseResult::RuntimeError);
    assert_eq!(r.state, APIPostResponseState::Finished);
}
