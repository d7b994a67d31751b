use vstd::prelude::*;
use crate::time_format::{now_time_string, parse_time, parsed_datetime, time_format, time_lt, time_before};

verus! {

/// The body of an error reply: a numeric code, a short reason and a message.
#[derive(Debug, Clone)]
pub struct APIErr {
    pub code: usize,
    pub reason: String,
    pub message: String,
}

impl APIErr {
    pub fn new() -> (r: APIErr)
        ensures
            r.code == 0,
            r.reason@ == Seq::<char>::empty(),
            r.message@ == Seq::<char>::empty(),
    {
        APIErr { code: 0, reason: String::new(), message: String::new() }
    }
}

/// The state of a job.
#[derive(Debug, Clone, Copy, PartialEq, Eq, Structural)]
pub enum APIPostResponseState {
    Queueing,
    Running,
    Finished,
    Canceled,
}

/// The result of a job or of one of its cases.
#[derive(Debug, Clone, Copy, PartialEq, Eq, Structural)]
pub enum APIPostResponseResult {
    Waiting,
    Running,
    Accepted,
    CompilationError,
    CompilationSuccess,
    WrongAnswer,
    RuntimeError,
    TimeLimitExceeded,
    MemoryLimitExceeded,
    SystemError,
    SPJError,
    Skipped,
}

/// The name under which a result is shown in the terminal client.
pub open spec fn result_name(r: APIPostResponseResult) -> Seq<char> {
    match r {
        APIPostResponseResult::Waiting => "Waiting"@,
        APIPostResponseResult::Running => "Running"@,
        APIPostResponseResult::Accepted => "Accepted"@,
        APIPostResponseResult::CompilationError => "CompilationError"@,
        APIPostResponseResult::CompilationSuccess => "CompilationSuccess"@,
        APIPostResponseResult::WrongAnswer => "WrongAnswer"@,
        APIPostResponseResult::RuntimeError => "RuntimeError"@,
        APIPostResponseResult::TimeLimitExceeded => "TimeLimitExceeded"@,
        APIPostResponseResult::MemoryLimitExceeded => "MemoryLimitExceeded"@,
        APIPostResponseResult::SystemError => "SystemError"@,
        APIPostResponseResult::SPJError => "SPJError"@,
        APIPostResponseResult::Skipped => "Skipped"@,
    }
}

impl APIPostResponseResult {
    pub fn show_str(s: &Self) -> (r: &str)
        ensures
            r@ == result_name(*s),
    {
        match s {
            APIPostResponseResult::Waiting => "Waiting",
            APIPostResponseResult::Accepted => "Accepted",
            APIPostResponseResult::TimeLimitExceeded => "TimeLimitExceeded",
            APIPostResponseResult::Running => "Running",
            APIPostResponseResult::RuntimeError => "RuntimeError",
            APIPostResponseResult::WrongAnswer => "WrongAnswer",
            APIPostResponseResult::SPJError => "SPJError",
            APIPostResponseResult::CompilationSuccess => "CompilationSuccess",
            APIPostResponseResult::CompilationError => "CompilationError",
            APIPostResponseResult::Skipped => "Skipped",
            APIPostResponseResult::MemoryLimitExceeded => "MemoryLimitExceeded",
            APIPostResponseResult::SystemError => "SystemError",
        }
    }
}

/// Whether a user's score on a problem is the score of the latest submission
/// or of the best one.
#[derive(Debug, Clone, Copy, PartialEq, Eq, Structural)]
pub enum RankListScoringRule {
    Latest,
    Highest,
}

/// How users with the same total score are ordered in a rank list.
#[derive(Debug, Clone, Copy, PartialEq, Eq, Structural)]
pub enum RankListTieBreaker {
    SubmissionTime,
    SubmissionCount,
    UserID,
}


/// A submitted job: the source code, its language, and who submits it for
/// which problem (in which contest; 0 outside contests).
#[derive(Debug, Clone)]
pub struct APIPostJob {
    pub source_code: String,
    pub language: String,
    pub user_id: usize,
    pub contest_id: usize,
    pub problem_id: usize,
}

impl APIPostJob {
    pub fn new() -> (r: APIPostJob)
        ensures
            r.source_code@ == Seq::<char>::empty(),
            r.language@ == Seq::<char>::empty(),
            r.user_id == 0,
            r.contest_id == 0,
            r.problem_id == 0,
    {
        APIPostJob {
            source_code: String::new(),
            language: String::new(),
            user_id: 0,
            contest_id: 0,
            problem_id: 0,
        }
    }

    /// A copy of the job.
    pub fn duplicate(&self) -> (r: APIPostJob)
        ensures
            r == *self,
    {
        APIPostJob {
            source_code: self.source_code.clone(),
            language: self.language.clone(),
            user_id: self.user_id,
            contest_id: self.contest_id,
            problem_id: self.problem_id,
        }
    }
}

/// A user: the id (absent when a new user is being registered) and the name.
#[derive(Debug, Clone)]
pub struct APIPostUsers {
    pub id: Option<usize>,
    pub name: String,
}

impl APIPostUsers {
    pub fn new() -> (r: APIPostUsers)
        ensures
            r.id is None,
            r.name@ == Seq::<char>::empty(),
    {
        APIPostUsers { id: None, name: String::new() }
    }
}

/// The outcome of one case of a job (case 0 is the compilation).
#[derive(Debug, Clone)]
pub struct APIPostResponseCase {
    pub id: usize,
    pub result: APIPostResponseResult,
    pub time: usize,
    pub memory: usize,
    pub info: String,
}

impl APIPostResponseCase {
    pub fn new() -> (r: APIPostResponseCase)
        ensures
            r.id == 0,
            r.result == APIPostResponseResult::Waiting,
            r.time == 0,
            r.memory == 0,
            r.info@ == Seq::<char>::empty(),
    {
        APIPostResponseCase {
            id: 0,
            result: APIPostResponseResult::Waiting,
            time: 0,
            memory: 0,
            info: String::new(),
        }
    }

    /// The same case with another result.
    pub fn with_result(&self, result: APIPostResponseResult) -> (r: APIPostResponseCase)
        ensures
            r.id == self.id,
            r.result == result,
            r.time == self.time,
            r.memory == self.memory,
            r.info@ == self.info@,
    {
        APIPostResponseCase {
            id: self.id,
            result,
            time: self.time,
            memory: self.memory,
            info: self.info.clone(),
        }
    }
}

/// A contest: its id (absent when it is being created), name, time window,
/// problems, users and the number of submissions each user may make.
#[derive(Debug, Clone)]
pub struct PostContest {
    pub id: Option<usize>,
    pub name: String,
    pub from: String,
    pub to: String,
    pub problem_ids: Vec<usize>,
    pub user_ids: Vec<usize>,
    pub submission_limit: usize,
}

impl PostContest {
    pub fn new() -> (r: PostContest)
        ensures
            r.id is None,
            r.name@ == Seq::<char>::empty(),
            r.from@ == Seq::<char>::empty(),
            r.to@ == Seq::<char>::empty(),
            r.problem_ids@ == Seq::<usize>::empty(),
            r.user_ids@ == Seq::<usize>::empty(),
            r.submission_limit == 0,
    {
        PostContest {
            id: None,
            name: String::new(),
            from: String::new(),
            to: String::new(),
            problem_ids: Vec::new(),
            user_ids: Vec::new(),
            submission_limit: 0,
        }
    }
}

/// `a` and `b` hold the same contest.
pub open spec fn same_contest(a: PostContest, b: PostContest) -> bool {
    &&& a.id == b.id
    &&& a.name@ == b.name@
    &&& a.from@ == b.from@
    &&& a.to@ == b.to@
    &&& a.problem_ids@ == b.problem_ids@
    &&& a.user_ids@ == b.user_ids@
    &&& a.submission_limit == b.submission_limit
}

fn copy_ids(v: &Vec<usize>) -> (r: Vec<usize>)
    ensures
        r@ == v@,
{
    let mut r: Vec<usize> = Vec::new();
    let mut i: usize = 0;
    while i < v.len()
        invariant
            i <= v.len(),
            r@ == v@.take(i as int),
        decreases v.len() - i,
    {
        r.push(v[i]);
        assert(v@.take(i + 1) =~= v@.take(i as int).push(v@[i as int]));
        i += 1;
    }
    assert(v@.take(v.len() as int) =~= v@);
    r
}

impl PostContest {
    /// A copy of the contest.
    pub fn duplicate(&self) -> (r: PostContest)
        ensures
            same_contest(r, *self),
    {
        PostContest {
            id: self.id,
            name: self.name.clone(),
            from: self.from.clone(),
            to: self.to.clone(),
            problem_ids: copy_ids(&self.problem_ids),
            user_ids: copy_ids(&self.user_ids),
            submission_limit: self.submission_limit,
        }
    }
}

/// The filter of a job listing; each given field must match.
#[derive(Debug, Clone)]
pub struct GetJobInfo {
    pub user_id: Option<usize>,
    pub user_name: Option<String>,
    pub contest_id: Option<usize>,
    pub problem_id: Option<usize>,
    pub language: Option<String>,
    pub from: Option<String>,
    pub to: Option<String>,
    pub state: Option<APIPostResponseState>,
    pub result: Option<APIPostResponseResult>,
}

impl GetJobInfo {
    pub fn new() -> (r: GetJobInfo)
        ensures
            r.user_id is None,
            r.user_name is None,
            r.contest_id is None,
            r.problem_id is None,
            r.language is None,
            r.from is None,
            r.to is None,
            r.state is None,
            r.result is None,
    {
        GetJobInfo {
            user_id: None,
            user_name: None,
            contest_id: None,
            problem_id: None,
            language: None,
            from: None,
            to: None,
            state: None,
            result: None,
        }
    }
}

/// The options of a rank list request.
#[derive(Debug, Clone, Copy)]
pub struct GetContestIDRankList {
    pub scoring_rule: Option<RankListScoringRule>,
    pub tie_breaker: Option<RankListTieBreaker>,
}

impl GetContestIDRankList {
    pub fn new() -> (r: GetContestIDRankList)
        ensures
            r.scoring_rule == Some(RankListScoringRule::Latest),
            r.tie_breaker is None,
    {
        GetContestIDRankList { scoring_rule: Some(RankListScoringRule::Latest), tie_breaker: None }
    }
}


/// The server's answer on a job, without its score: the job's id, when it was
/// created and last updated, the submission, its state and result, and the
/// outcome of each case. The score, a floating-point number, is kept beside
/// it by the caller.
#[derive(Debug, Clone)]
pub struct APIPostResponse {
    pub id: usize,
    pub created_time: String,
    pub updated_time: String,
    pub submission: APIPostJob,
    pub state: APIPostResponseState,
    pub result: APIPostResponseResult,
    pub cases: Vec<APIPostResponseCase>,
}

impl APIPostResponse {
    /// A fresh answer, queueing and waiting, created and updated now (one
    /// reading of the clock serves as both times).
    pub fn new() -> (r: APIPostResponse)
        ensures
            parsed_datetime(r.created_time@, time_format()) is Some,
            r.updated_time@ == r.created_time@,
            r.id == 0,
            r.submission.source_code@ == Seq::<char>::empty(),
            r.submission.language@ == Seq::<char>::empty(),
            r.submission.user_id == 0,
            r.submission.contest_id == 0,
            r.submission.problem_id == 0,
            r.state == APIPostResponseState::Queueing,
            r.result == APIPostResponseResult::Waiting,
            r.cases@.len() == 0,
    {
        let now = now_time_string();
        APIPostResponse {
            id: 0,
            created_time: now.clone(),
            updated_time: now,
            submission: APIPostJob::new(),
            state: APIPostResponseState::Queueing,
            result: APIPostResponseResult::Waiting,
            cases: Vec::new(),
        }
    }
}

/// Whether `get_job_judge` can decide on the job: the times it reads must be
/// in the job time format. It reads the job's creation time once the problem
/// filter has passed, the `from` bound then, and the `to` bound once the job
/// is not before `from`.
pub open spec fn judge_defined(info: GetJobInfo, job: APIPostResponse) -> bool {
    (info.problem_id matches Some(p) ==> p == job.submission.problem_id) ==> {
        let created = parsed_datetime(job.created_time@, time_format());
        &&& created is Some
        &&& info.from matches Some(f) ==> parsed_datetime(f@, time_format()) is Some
        &&& info.to matches Some(t) ==> (
            (info.from matches Some(f) ==> !time_lt(created->0, parsed_datetime(f@, time_format())->0))
                ==> parsed_datetime(t@, time_format()) is Some)
    }
}

/// Whether some user of `users` has id `uid` and name `name`.
pub open spec fn user_named(users: Seq<APIPostUsers>, uid: usize, name: Seq<char>) -> bool {
    exists|i: int| 0 <= i < users.len() && (#[trigger] users[i]).id == Some(uid) && users[i].name@ == name
}

/// Whether a job passes the filter: every field given in the filter matches
/// the job (a user name matches when the job's user, looked up in `users`,
/// has that name), and the job was created within the `from`..`to` window,
/// both ends included.
pub open spec fn job_matches(info: GetJobInfo, users: Seq<APIPostUsers>, job: APIPostResponse) -> bool {
    let created = parsed_datetime(job.created_time@, time_format())->0;
    &&& info.problem_id matches Some(p) ==> p == job.submission.problem_id
    &&& info.from matches Some(f) ==> !time_lt(created, parsed_datetime(f@, time_format())->0)
    &&& info.to matches Some(t) ==> !time_lt(parsed_datetime(t@, time_format())->0, created)
    &&& info.state matches Some(st) ==> st == job.state
    &&& info.result matches Some(res) ==> res == job.result
    &&& info.language matches Some(l) ==> l@ == job.submission.language@
    &&& info.user_id matches Some(u) ==> u == job.submission.user_id
    &&& info.contest_id matches Some(c) ==> c == job.submission.contest_id
    &&& info.user_name matches Some(n) ==> user_named(users, job.submission.user_id, n@)
}

fn has_user_named(users: &Vec<APIPostUsers>, uid: usize, name: &String) -> (r: bool)
    ensures
        r == user_named(users@, uid, name@),
{
    let mut i: usize = 0;
    while i < users.len()
        invariant
            i <= users.len(),
            forall|k: int| 0 <= k < i ==> !((#[trigger] users@[k]).id == Some(uid) && users@[k].name@ == name@),
        decreases users.len() - i,
    {
        if users[i].id == Some(uid) && users[i].name == *name {
            return true;
        }
        i += 1;
    }
    false
}

/// Decides whether a job passes a job listing's filter.
pub fn get_job_judge(info: &GetJobInfo, users: &Vec<APIPostUsers>, json_job: &APIPostResponse) -> (r: bool)
    requires
        judge_defined(*info, *json_job),
    ensures
        r == job_matches(*info, users@, *json_job),
{
    if let Some(id) = &info.problem_id {
        if *id != json_job.submission.problem_id {
            return false;
        }
    }
    let create_time = parse_time(json_job.created_time.as_str()).unwrap();
    if let Some(s) = &info.from {
        let from_time = parse_time(s.as_str()).unwrap();
        if time_before(create_time, from_time) {
            return false;
        }
    }
    if let Some(s) = &info.to {
        let to_time = parse_time(s.as_str()).unwrap();
        if time_before(to_time, create_time) {
            return false;
        }
    }
    if let Some(state) = &info.state {
        if *state != json_job.state {
            return false;
        }
    }
    if let Some(result) = &info.result {
        if *result != json_job.result {
            return false;
        }
    }
    if let Some(language) = &info.language {
        if *language != json_job.submission.language {
            return false;
        }
    }
    if let Some(user_id) = &info.user_id {
        if *user_id != json_job.submission.user_id {
            return false;
        }
    }
    if let Some(contest_id) = &info.contest_id {
        if *contest_id != json_job.submission.contest_id {
            return false;
        }
    }
    if let Some(name) = &info.user_name {
        if !has_user_named(users, json_job.submission.user_id, name) {
            return false;
        }
    }
    true
}

/// Whether the time bounds of a filter are both readable.
pub open spec fn filter_times_valid(info: GetJobInfo) -> bool {
    &&& info.from matches Some(f) ==> parsed_datetime(f@, time_format()) is Some
    &&& info.to matches Some(t) ==> parsed_datetime(t@, time_format()) is Some
}

/// The positions of the jobs that pass the filter, in order.
pub open spec fn matching_jobs(info: GetJobInfo, users: Seq<APIPostUsers>, jobs: Seq<APIPostResponse>) -> Seq<usize>
    decreases jobs.len(),
{
    if jobs.len() == 0 {
        Seq::<usize>::empty()
    } else if job_matches(info, users, jobs.last()) {
        matching_jobs(info, users, jobs.drop_last()).push((jobs.len() - 1) as usize)
    } else {
        matching_jobs(info, users, jobs.drop_last())
    }
}

/// Why a job listing is refused.
#[derive(Debug, Clone, Copy, PartialEq, Eq, Structural)]
pub enum JobListError {
    /// A time bound of the filter is not in the job time format.
    InvalidTime,
    /// A stored job's creation time is not in the job time format.
    UnreadableJob,
}

/// Lists the jobs that pass a filter, by their positions. A filter whose
/// `from` or `to` bound is not a time in the job format is refused; so is a
/// listing where the filter would have to read a job's creation time that is
/// not in that format.
pub fn list_jobs(info: &GetJobInfo, users: &Vec<APIPostUsers>, jobs: &Vec<APIPostResponse>) -> (r: Result<Vec<usize>, JobListError>)
    ensures
        r matches Err(JobListError::InvalidTime) <==> !filter_times_valid(*info),
        r matches Err(JobListError::UnreadableJob) <==> filter_times_valid(*info) && exists|i: int|
            0 <= i < jobs@.len() && !judge_defined(*info, #[trigger] jobs@[i]),
        r matches Ok(v) ==> v@ == matching_jobs(*info, users@, jobs@),
{
    if let Some(f) = &info.from {
        if parse_time(f.as_str()).is_none() {
            return Err(JobListError::InvalidTime);
        }
    }
    if let Some(t) = &info.to {
        if parse_time(t.as_str()).is_none() {
            return Err(JobListError::InvalidTime);
        }
    }
    let mut i: usize = 0;
    while i < jobs.len()
        invariant
            i <= jobs.len(),
            filter_times_valid(*info),
            forall|j: int| 0 <= j < i ==> judge_defined(*info, #[trigger] jobs@[j]),
        decreases jobs.len() - i,
    {
        let job = &jobs[i];
        let applies = match &info.problem_id {
            Some(p) => *p == job.submission.problem_id,
            None => true,
        };
        if applies && parse_time(job.created_time.as_str()).is_none() {
            return Err(JobListError::UnreadableJob);
        }
        i += 1;
    }
    let mut out: Vec<usize> = Vec::new();
    let mut k: usize = 0;
    while k < jobs.len()
        invariant
            k <= jobs.len(),
            forall|j: int| 0 <= j < jobs@.len() ==> judge_defined(*info, #[trigger] jobs@[j]),
            out@ == matching_jobs(*info, users@, jobs@.take(k as int)),
        decreases jobs.len() - k,
    {
        assert(jobs@.take(k + 1).drop_last() =~= jobs@.take(k as int));
        if get_job_judge(info, users, &jobs[k]) {
            out.push(k);
        }
        k += 1;
    }
    assert(jobs@.take(jobs.len() as int) =~= jobs@);
    Ok(out)
}

} // verus!
