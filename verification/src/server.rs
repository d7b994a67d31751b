use vstd::prelude::*;
use crate::api_analysis::{same_contest, APIErr, APIPostJob, APIPostResponse, APIPostResponseResult, APIPostResponseState, APIPostUsers, PostContest};
use crate::time_format::{parsed_datetime, time_format, time_lt, parse_time, time_before};
use crate::config_analysis::ConfigLanguage;
use crate::trail_terminal::{decimal, decimal_string, find_language, first_language};

verus! {

broadcast use vstd::string::group_string_axioms;

/// Why the server refuses a request.
#[derive(Debug, Clone)]
pub enum ServiceError {
    /// Not found, with an error body.
    NotFound(APIErr),
    /// Not found, with no body.
    NotFoundBare,
    /// A bad request, with an error body.
    BadRequest(APIErr),
    /// The request conflicts with what the server holds.
    Conflict,
}

/// `e` has the given code, reason and message.
pub open spec fn err_is(e: APIErr, code: usize, reason: Seq<char>, message: Seq<char>) -> bool {
    &&& e.code == code
    &&& e.reason@ == reason
    &&& e.message@ == message
}

/// An error body.
fn api_err(code: usize, reason: &str, message: String) -> (e: APIErr)
    ensures
        err_is(e, code, reason@, message@),
{
    APIErr { code, reason: String::from_str(reason), message }
}

/// `a` followed by `b` followed by `c`.
fn concat3(a: &str, b: &String, c: &str) -> (r: String)
    ensures
        r@ == a@ + b@ + c@,
{
    let mut r = String::from_str(a);
    r.append(b.as_str());
    r.append(c);
    r
}

/// Whether `s` holds `x`.
fn contains_id(s: &Vec<usize>, x: usize) -> (r: bool)
    ensures
        r == s@.contains(x),
{
    let mut i: usize = 0;
    while i < s.len()
        invariant
            i <= s.len(),
            forall|k: int| 0 <= k < i ==> s@[k] != x,
        decreases s.len() - i,
    {
        if s[i] == x {
            assert(s@[i as int] == x);
            return true;
        }
        i += 1;
    }
    false
}

/// Whether some string of `names` reads `name`.
pub open spec fn name_taken(names: Seq<String>, name: Seq<char>) -> bool {
    exists|i: int| 0 <= i < names.len() && (#[trigger] names[i])@ == name
}

fn contains_name(names: &Vec<String>, name: &String) -> (r: bool)
    ensures
        r == name_taken(names@, name@),
{
    let mut i: usize = 0;
    while i < names.len()
        invariant
            i <= names.len(),
            forall|k: int| 0 <= k < i ==> (#[trigger] names@[k])@ != name@,
        decreases names.len() - i,
    {
        if names[i] == *name {
            return true;
        }
        i += 1;
    }
    false
}

/// Whether every id of `wanted` is among `known`.
pub open spec fn all_known(wanted: Seq<usize>, known: Seq<usize>) -> bool {
    forall|i: int| 0 <= i < wanted.len() ==> known.contains(#[trigger] wanted[i])
}

fn all_ids_known(wanted: &Vec<usize>, known: &Vec<usize>) -> (r: bool)
    ensures
        r == all_known(wanted@, known@),
{
    let mut i: usize = 0;
    while i < wanted.len()
        invariant
            i <= wanted.len(),
            forall|k: int| 0 <= k < i ==> known@.contains(#[trigger] wanted@[k]),
        decreases wanted.len() - i,
    {
        if !contains_id(known, wanted[i]) {
            return false;
        }
        i += 1;
    }
    true
}

/// The greatest id, plus one; 0 when there is none.
pub open spec fn next_user_id(ids: Seq<usize>) -> int
    decreases ids.len(),
{
    if ids.len() == 0 {
        0
    } else {
        let rest = next_user_id(ids.drop_last());
        if ids.last() + 1 > rest {
            ids.last() + 1
        } else {
            rest
        }
    }
}

pub(crate) proof fn lemma_next_user_id_fresh(ids: Seq<usize>)
    ensures
        forall|i: int| 0 <= i < ids.len() ==> #[trigger] ids[i] < next_user_id(ids),
        next_user_id(ids) >= 0,
        ids.len() > 0 ==> exists|i: int| 0 <= i < ids.len() && next_user_id(ids) == #[trigger] ids[i] + 1,
    decreases ids.len(),
{
    if ids.len() > 0 {
        lemma_next_user_id_fresh(ids.drop_last());
        assert forall|i: int| 0 <= i < ids.len() implies #[trigger] ids[i] < next_user_id(ids) by {
            if i < ids.len() - 1 {
                assert(ids[i] == ids.drop_last()[i]);
            }
        }
        if ids.len() > 1 && !(ids.last() + 1 > next_user_id(ids.drop_last())) {
            let j = choose|j: int| 0 <= j < ids.drop_last().len() && next_user_id(ids.drop_last()) == #[trigger] ids.drop_last()[j] + 1;
            assert(ids[j] == ids.drop_last()[j]);
        } else {
            assert(next_user_id(ids) == ids[ids.len() - 1] + 1);
        }
    }
}

/// The index of the first contest with the given id.
pub open spec fn first_contest(cs: Seq<PostContest>, id: usize) -> Option<int>
    decreases cs.len(),
{
    if cs.len() == 0 {
        None
    } else {
        match first_contest(cs.drop_last(), id) {
            Some(i) => Some(i),
            None => if cs.last().id == Some(id) {
                Some(cs.len() - 1)
            } else {
                None
            },
        }
    }
}

proof fn lemma_first_contest_bounds(cs: Seq<PostContest>, id: usize)
    ensures
        first_contest(cs, id) matches Some(i) ==> 0 <= i < cs.len() && cs[i].id == Some(id),
    decreases cs.len(),
{
    if cs.len() > 0 {
        lemma_first_contest_bounds(cs.drop_last(), id);
    }
}

proof fn lemma_first_contest_prefix(cs: Seq<PostContest>, id: usize, k: int)
    requires
        0 <= k <= cs.len(),
        first_contest(cs.take(k), id) is Some,
    ensures
        first_contest(cs, id) == first_contest(cs.take(k), id),
    decreases cs.len() - k,
{
    if k < cs.len() {
        assert(cs.take(k + 1).drop_last() =~= cs.take(k));
        lemma_first_contest_prefix(cs, id, k + 1);
    } else {
        assert(cs.take(k) =~= cs);
    }
}

proof fn lemma_first_contest_facts(cs: Seq<PostContest>, id: usize)
    ensures
        first_contest(cs, id) matches Some(i) ==> {
            &&& 0 <= i < cs.len()
            &&& cs[i].id == Some(id)
            &&& forall|k: int| 0 <= k < i ==> (#[trigger] cs[k]).id != Some(id)
        },
        first_contest(cs, id) is None ==> forall|k: int| 0 <= k < cs.len() ==> (#[trigger] cs[k]).id != Some(id),
    decreases cs.len(),
{
    if cs.len() > 0 {
        lemma_first_contest_facts(cs.drop_last(), id);
        assert forall|k: int| 0 <= k < cs.len() - 1 implies cs.drop_last()[k] == cs[k] by {}
    }
}

/// The first contest with an id is at `i` when the one at `i` has it and none
/// before does.
proof fn lemma_first_contest_is(cs: Seq<PostContest>, id: usize, i: int)
    requires
        0 <= i < cs.len(),
        cs[i].id == Some(id),
        forall|k: int| 0 <= k < i ==> (#[trigger] cs[k]).id != Some(id),
    ensures
        first_contest(cs, id) == Some(i),
{
    lemma_first_contest_facts(cs, id);
}

/// Finds the first contest with the given id.
pub fn find_contest(contests: &Vec<PostContest>, contest_id: usize) -> (r: Option<usize>)
    ensures
        r matches Some(i) ==> first_contest(contests@, contest_id) == Some(i as int),
        r is None ==> first_contest(contests@, contest_id) is None,
{
    let mut i: usize = 0;
    while i < contests.len()
        invariant
            i <= contests.len(),
            first_contest(contests@.take(i as int), contest_id) is None,
        decreases contests.len() - i,
    {
        assert(contests@.take(i + 1).drop_last() =~= contests@.take(i as int));
        if contests[i].id == Some(contest_id) {
            proof {
                lemma_first_contest_prefix(contests@, contest_id, i as int + 1);
            }
            return Some(i);
        }
        i += 1;
    }
    assert(contests@.take(contests.len() as int) =~= contests@);
    None
}

/// The number of submitted jobs of user `u` in contest `c`.
pub open spec fn contest_submissions(jobs: Seq<APIPostJob>, c: usize, u: usize) -> nat
    decreases jobs.len(),
{
    if jobs.len() == 0 {
        0
    } else {
        contest_submissions(jobs.drop_last(), c, u) + if jobs.last().contest_id == c && jobs.last().user_id == u {
            1nat
        } else {
            0nat
        }
    }
}

/// Why a job is refused.
#[derive(Debug, Clone, Copy, PartialEq, Eq, Structural)]
pub enum JobRefusal {
    /// The problem or the user is not known, or the language is not
    /// configured.
    NotFound,
    /// The contest does not exist, does not have the user or the problem, or
    /// is not running.
    InvalidArgument,
    /// The user has used up the contest's submissions.
    RateLimit,
    /// The contest's time window cannot be read.
    Conflict,
}

/// Whether, and why, a job submitted at time `now` is refused.
pub open spec fn job_refusal(
    st: OjState,
    languages: Seq<ConfigLanguage>,
    job: APIPostJob,
    now: (i64, u32),
) -> Option<JobRefusal> {
    if !st.problem_ids@.contains(job.problem_id) || !st.user_ids@.contains(job.user_id) || first_language(
        languages,
        job.language@,
    ) is None {
        Some(JobRefusal::NotFound)
    } else if job.contest_id == 0 {
        None
    } else {
        match first_contest(st.contests@, job.contest_id) {
            None => Some(JobRefusal::InvalidArgument),
            Some(i) => {
                let c = st.contests@[i];
                if !c.user_ids@.contains(job.user_id) || !c.problem_ids@.contains(job.problem_id) {
                    Some(JobRefusal::InvalidArgument)
                } else {
                    match parsed_datetime(c.from@, time_format()) {
                        None => Some(JobRefusal::Conflict),
                        Some(from) => if time_lt(now, from) {
                            Some(JobRefusal::InvalidArgument)
                        } else {
                            match parsed_datetime(c.to@, time_format()) {
                                None => Some(JobRefusal::Conflict),
                                Some(to) => if time_lt(to, now) {
                                    Some(JobRefusal::InvalidArgument)
                                } else if contest_submissions(st.jobs@, job.contest_id, job.user_id) < c.submission_limit {
                                    None
                                } else {
                                    Some(JobRefusal::RateLimit)
                                },
                            }
                        },
                    }
                }
            },
        }
    }
}

/// `r` answers a job as `refusal` says: success, or the error that goes with
/// the refusal (not found: code 3, `ERR_NOT_FOUND`; invalid argument: code 1,
/// `ERR_INVALID_ARGUMENT`; rate limit: code 4, `ERR_RATE_LIMIT`; each with an
/// empty message; or a conflict).
pub open spec fn answers_refusal(r: Result<(), ServiceError>, refusal: Option<JobRefusal>) -> bool {
    match refusal {
        None => r is Ok,
        Some(JobRefusal::NotFound) => (r matches Err(ServiceError::NotFound(e)) && err_is(e, 3, "ERR_NOT_FOUND"@, Seq::empty())),
        Some(JobRefusal::InvalidArgument) => (r matches Err(ServiceError::BadRequest(e)) && err_is(
            e,
            1,
            "ERR_INVALID_ARGUMENT"@,
            Seq::empty(),
        )),
        Some(JobRefusal::RateLimit) => (r matches Err(ServiceError::BadRequest(e)) && err_is(e, 4, "ERR_RATE_LIMIT"@, Seq::empty())),
        Some(JobRefusal::Conflict) => (r matches Err(ServiceError::Conflict)),
    }
}

/// The users, ids and names the server knows, the ids of the configured
/// problems, the contests and the jobs submitted.
#[derive(Debug, Clone)]
pub struct OjState {
    pub users: Vec<APIPostUsers>,
    pub user_ids: Vec<usize>,
    pub user_names: Vec<String>,
    pub problem_ids: Vec<usize>,
    pub contests: Vec<PostContest>,
    pub jobs: Vec<APIPostJob>,
}

impl OjState {
    /// The server's state is consistent: users, ids and names are as many,
    /// the i-th user has the i-th id and the i-th name, the ids are distinct,
    /// the names are distinct, and the i-th contest has id i + 1.
    pub open spec fn wf(&self) -> bool {
        &&& self.users@.len() == self.user_ids@.len()
        &&& self.user_names@.len() == self.user_ids@.len()
        &&& forall|i: int| 0 <= i < self.users@.len() ==> (#[trigger] self.users@[i]).id == Some(self.user_ids@[i])
        &&& forall|i: int| 0 <= i < self.users@.len() ==> (#[trigger] self.user_names@[i])@ == self.users@[i].name@
        &&& forall|i: int, j: int| 0 <= i < j < self.user_ids@.len() ==> self.user_ids@[i] != self.user_ids@[j]
        &&& forall|i: int, j: int| 0 <= i < j < self.user_names@.len() ==> self.user_names@[i]@ != self.user_names@[j]@
        &&& forall|i: int| 0 <= i < self.contests@.len() ==> (#[trigger] self.contests@[i]).id == Some((i + 1) as usize)
    }

    /// A state with only the root user (id 0), no problem, contest or job.
    pub fn new() -> (r: OjState)
        ensures
            r.wf(),
            r.users@.len() == 1,
            r.users@[0].id == Some(0usize),
            r.users@[0].name@ == "root"@,
            r.user_ids@ == seq![0usize],
            r.user_names@.len() == 1,
            r.user_names@[0]@ == "root"@,
            r.problem_ids@.len() == 0,
            r.contests@.len() == 0,
            r.jobs@.len() == 0,
    {
        let mut users: Vec<APIPostUsers> = Vec::new();
        users.push(APIPostUsers { id: Some(0), name: String::from_str("root") });
        let mut user_names: Vec<String> = Vec::new();
        user_names.push(String::from_str("root"));
        let mut user_ids: Vec<usize> = Vec::new();
        user_ids.push(0);
        OjState { users, user_ids, user_names, problem_ids: Vec::new(), contests: Vec::new(), jobs: Vec::new() }
    }

    /// Adds the ids of configured problems.
    pub fn add_problem_ids(&mut self, ids: &Vec<usize>)
        requires
            old(self).wf(),
        ensures
            final(self).wf(),
            final(self).problem_ids@ == old(self).problem_ids@ + ids@,
            final(self).users == old(self).users,
            final(self).user_ids == old(self).user_ids,
            final(self).user_names == old(self).user_names,
            final(self).contests == old(self).contests,
            final(self).jobs == old(self).jobs,
    {
        let ghost start = self.problem_ids@;
        let mut i: usize = 0;
        while i < ids.len()
            invariant
                i <= ids.len(),
                old(self).wf(),
                self.problem_ids@ == start + ids@.take(i as int),
                start == old(self).problem_ids@,
                self.users == old(self).users,
                self.user_ids == old(self).user_ids,
                self.user_names == old(self).user_names,
                self.contests == old(self).contests,
                self.jobs == old(self).jobs,
            decreases ids.len() - i,
        {
            self.problem_ids.push(ids[i]);
            assert(ids@.take(i + 1) =~= ids@.take(i as int).push(ids@[i as int]));
            i += 1;
        }
        assert(ids@.take(ids.len() as int) =~= ids@);
    }

    /// Creates or replaces a contest.
    ///
    /// A contest given with an id replaces the first contest with that id;
    /// one given without an id is added with the next contest id (the number
    /// of contests plus one). Every user and problem it names must be known;
    /// otherwise, or when there is no contest to replace, it is not found.
    pub fn post_contests(&mut self, contest: PostContest) -> (r: Result<PostContest, ServiceError>)
        requires
            old(self).wf(),
            contest.id is None ==> old(self).contests@.len() < usize::MAX,
        ensures
            final(self).wf(),
            final(self).users == old(self).users,
            final(self).user_ids == old(self).user_ids,
            final(self).user_names == old(self).user_names,
            final(self).problem_ids == old(self).problem_ids,
            final(self).jobs == old(self).jobs,
            contest.id matches Some(id) ==> (match first_contest(old(self).contests@, id) {
                None => {
                    &&& final(self).contests == old(self).contests
                    &&& r matches Err(ServiceError::NotFound(e)) && err_is(
                        e,
                        3,
                        "ERR_NOT_FOUND"@,
                        "Contest "@ + decimal(id as nat) + " not found."@,
                    )
                },
                Some(i) => if !all_known(contest.user_ids@, old(self).user_ids@) || !all_known(
                    contest.problem_ids@,
                    old(self).problem_ids@,
                ) {
                    &&& final(self).contests == old(self).contests
                    &&& r matches Err(ServiceError::NotFound(e)) && err_is(
                        e,
                        3,
                        "ERR_NOT_FOUND"@,
                        "Contest "@ + decimal(id as nat) + " not found."@,
                    )
                } else {
                    &&& r matches Ok(c) && same_contest(c, contest)
                    &&& final(self).contests@.len() == old(self).contests@.len()
                    &&& forall|k: int| 0 <= k < old(self).contests@.len() && k != i ==> #[trigger] final(self).contests@[k] == old(self).contests@[k]
                    &&& same_contest(final(self).contests@[i], contest)
                },
            }),
            contest.id is None ==> (if !all_known(contest.user_ids@, old(self).user_ids@) || !all_known(
                contest.problem_ids@,
                old(self).problem_ids@,
            ) {
                &&& final(self).contests == old(self).contests
                &&& r matches Err(ServiceError::NotFound(e)) && err_is(e, 3, "ERR_NOT_FOUND"@, "Contest 114514 not found."@)
            } else {
                let id = (old(self).contests@.len() + 1) as usize;
                &&& r matches Ok(c) && c.id == Some(id) && same_contest(c, PostContest { id: Some(id), ..contest })
                &&& final(self).contests@.len() == old(self).contests@.len() + 1
                &&& forall|k: int| 0 <= k < old(self).contests@.len() ==> #[trigger] final(self).contests@[k] == old(self).contests@[k]
                &&& same_contest(final(self).contests@.last(), PostContest { id: Some(id), ..contest })
            }),
            r matches Ok(c) ==> (c.id matches Some(id) && (first_contest(final(self).contests@, id) matches Some(i)
                && same_contest(final(self).contests@[i], c))),
    {
        match contest.id {
            Some(some_id) => {
                proof {
                    lemma_first_contest_bounds(self.contests@, some_id);
                }
                let found = find_contest(&self.contests, some_id);
                let message = concat3("Contest ", &decimal_string(some_id), " not found.");
                match found {
                    None => Err(ServiceError::NotFound(api_err(3, "ERR_NOT_FOUND", message))),
                    Some(i) => {
                        if !all_ids_known(&contest.user_ids, &self.user_ids) || !all_ids_known(&contest.problem_ids, &self.problem_ids) {
                            return Err(ServiceError::NotFound(api_err(3, "ERR_NOT_FOUND", message)));
                        }
                        let stored = contest.duplicate();
                        let ghost before = self.contests@;
                        self.contests.set(i, stored);
                        proof {
                            lemma_first_contest_facts(before, some_id);
                            assert forall|k: int| 0 <= k < i implies (#[trigger] self.contests@[k]).id != Some(some_id) by {
                                assert(self.contests@[k] == before[k]);
                            }
                            lemma_first_contest_is(self.contests@, some_id, i as int);
                        }
                        Ok(contest)
                    },
                }
            },
            None => {
                if !all_ids_known(&contest.user_ids, &self.user_ids) || !all_ids_known(&contest.problem_ids, &self.problem_ids) {
                    let message = String::from_str("Contest 114514 not found.");
                    return Err(ServiceError::NotFound(api_err(3, "ERR_NOT_FOUND", message)));
                }
                let mut created = contest;
                let new_id = self.contests.len() + 1;
                created.id = Some(new_id);
                let ghost before = self.contests@;
                self.contests.push(created.duplicate());
                proof {
                    assert forall|k: int| 0 <= k < before.len() implies (#[trigger] self.contests@[k]).id != Some(new_id) by {
                        assert(self.contests@[k] == before[k]);
                    }
                    lemma_first_contest_is(self.contests@, new_id, before.len() as int);
                }
                Ok(created)
            },
        }
    }

    /// Looks a contest up by id.
    pub fn get_contest_id(&self, contest_id: usize) -> (r: Result<PostContest, ServiceError>)
        ensures
            match first_contest(self.contests@, contest_id) {
                Some(i) => (r matches Ok(c) && same_contest(c, self.contests@[i])),
                None => (r matches Err(ServiceError::NotFound(e)) && err_is(e, 3, "ERR_NOT_FOUND"@, "Contest 114514 not found."@)),
            },
    {
        proof {
            lemma_first_contest_bounds(self.contests@, contest_id);
        }
        match find_contest(&self.contests, contest_id) {
            Some(i) => Ok(self.contests[i].duplicate()),
            None => Err(ServiceError::NotFound(api_err(3, "ERR_NOT_FOUND", String::from_str("Contest 114514 not found.")))),
        }
    }

    /// Decides whether a job may be submitted at time `now`: its problem and
    /// its user must be known and its language one of `languages` (else not
    /// found); a contest job needs a contest
    /// with that id that has the user and the problem, whose time window has
    /// begun and not ended (else a bad request; a window whose bounds are not
    /// times is a conflict), and in which the user has submitted fewer jobs
    /// than the contest allows (else a bad request for the rate limit).
    pub fn check_job(&self, job: &APIPostJob, languages: &Vec<ConfigLanguage>, now: (i64, u32)) -> (r: Result<
        (),
        ServiceError,
    >)
        requires
            self.wf(),
        ensures
            answers_refusal(r, job_refusal(*self, languages@, *job, now)),
    {
        if !contains_id(&self.problem_ids, job.problem_id) || !contains_id(&self.user_ids, job.user_id)
            || find_language(languages, &job.language).is_none() {
            return Err(ServiceError::NotFound(api_err(3, "ERR_NOT_FOUND", String::new())));
        }
        if job.contest_id == 0 {
            return Ok(());
        }
        proof {
            lemma_first_contest_bounds(self.contests@, job.contest_id);
        }
        let i = match find_contest(&self.contests, job.contest_id) {
            Some(i) => i,
            None => {
                return Err(ServiceError::BadRequest(api_err(1, "ERR_INVALID_ARGUMENT", String::new())));
            },
        };
        let c = &self.contests[i];
        if !contains_id(&c.user_ids, job.user_id) || !contains_id(&c.problem_ids, job.problem_id) {
            return Err(ServiceError::BadRequest(api_err(1, "ERR_INVALID_ARGUMENT", String::new())));
        }
        let from = match parse_time(c.from.as_str()) {
            Some(t) => t,
            None => {
                return Err(ServiceError::Conflict);
            },
        };
        if time_before(now, from) {
            return Err(ServiceError::BadRequest(api_err(1, "ERR_INVALID_ARGUMENT", String::new())));
        }
        let to = match parse_time(c.to.as_str()) {
            Some(t) => t,
            None => {
                return Err(ServiceError::Conflict);
            },
        };
        if time_before(to, now) {
            return Err(ServiceError::BadRequest(api_err(1, "ERR_INVALID_ARGUMENT", String::new())));
        }
        let mut count: usize = 0;
        let mut k: usize = 0;
        while k < self.jobs.len()
            invariant
                k <= self.jobs@.len(),
                count == contest_submissions(self.jobs@.take(k as int), job.contest_id, job.user_id),
                count <= k,
            decreases self.jobs@.len() - k,
        {
            assert(self.jobs@.take(k + 1).drop_last() =~= self.jobs@.take(k as int));
            if self.jobs[k].contest_id == job.contest_id && self.jobs[k].user_id == job.user_id {
                count += 1;
            }
            k += 1;
        }
        assert(self.jobs@.take(self.jobs@.len() as int) =~= self.jobs@);
        if count < c.submission_limit {
            Ok(())
        } else {
            Err(ServiceError::BadRequest(api_err(4, "ERR_RATE_LIMIT", String::new())))
        }
    }

    /// Submits a job at time `now`: the job is checked as `check_job` does
    /// and, when it may be submitted, added to the submitted jobs.
    pub fn submit_job(&mut self, job: &APIPostJob, languages: &Vec<ConfigLanguage>, now: (i64, u32)) -> (r: Result<
        (),
        ServiceError,
    >)
        requires
            old(self).wf(),
        ensures
            final(self).wf(),
            answers_refusal(r, job_refusal(*old(self), languages@, *job, now)),
            r is Ok ==> final(self).jobs@ == old(self).jobs@.push(*job),
            r is Err ==> final(self).jobs == old(self).jobs,
            r is Ok ==> old(self).problem_ids@.contains(job.problem_id) && old(self).user_ids@.contains(job.user_id),
            r is Ok && job.contest_id != 0 ==> (match first_contest(old(self).contests@, job.contest_id) {
                Some(i) => contest_submissions(final(self).jobs@, job.contest_id, job.user_id)
                    <= old(self).contests@[i].submission_limit,
                None => false,
            }),
            final(self).users == old(self).users,
            final(self).user_ids == old(self).user_ids,
            final(self).user_names == old(self).user_names,
            final(self).problem_ids == old(self).problem_ids,
            final(self).contests == old(self).contests,
    {
        let r = self.check_job(job, languages, now);
        if r.is_ok() {
            let ghost before = self.jobs@;
            self.jobs.push(job.duplicate());
            assert(self.jobs@.drop_last() =~= before);
        }
        r
    }

    /// Registers a user or renames one.
    ///
    /// A user given with an id that is not known is not found; a name already
    /// taken is refused. A user given with a known id is renamed: the user
    /// with that id takes the name, and so does that user's entry in the name
    /// list. A user given without an id is registered with the next id (one
    /// more than the greatest id), and the name joins the name list.
    #[verifier::spinoff_prover]
    pub fn post_users(&mut self, user: APIPostUsers) -> (r: Result<APIPostUsers, ServiceError>)
        requires
            old(self).wf(),
            user.id is None && !name_taken(old(self).user_names@, user.name@) ==> !old(self).user_ids@.contains(usize::MAX),
        ensures
            final(self).wf(),
            final(self).problem_ids == old(self).problem_ids,
            final(self).contests == old(self).contests,
            final(self).jobs == old(self).jobs,
            user.id matches Some(s) ==> (!old(self).user_ids@.contains(s) ==> {
                &&& *final(self) == *old(self)
                &&& r matches Err(ServiceError::NotFound(e)) && err_is(e, 3, "ERR_NOT_FOUND"@, "User "@ + decimal(s as nat) + " not found"@)
            }),
            (user.id matches Some(s) ==> old(self).user_ids@.contains(s)) && name_taken(old(self).user_names@, user.name@) ==> {
                &&& *final(self) == *old(self)
                &&& r matches Err(ServiceError::BadRequest(e)) && err_is(
                    e,
                    1,
                    "ERR_INVALID_ARGUMENT"@,
                    "User name "@ + user.name@ + " already exists."@,
                )
            },
            user.id matches Some(s) ==> (old(self).user_ids@.contains(s) && !name_taken(old(self).user_names@, user.name@) ==> {
                &&& r matches Ok(u) && u.id == Some(s) && u.name@ == user.name@
                &&& final(self).user_ids == old(self).user_ids
                &&& final(self).users@.len() == old(self).users@.len()
                &&& forall|i: int|
                    0 <= i < old(self).users@.len() ==> {
                        &&& (#[trigger] final(self).users@[i]).id == old(self).users@[i].id
                        &&& final(self).users@[i].name@ == (if old(self).users@[i].id == Some(s) {
                            user.name@
                        } else {
                            old(self).users@[i].name@
                        })
                    }
                &&& final(self).user_names@.len() == old(self).user_names@.len()
                &&& forall|i: int|
                    0 <= i < old(self).user_names@.len() ==> (#[trigger] final(self).user_names@[i])@ == (if old(
                        self,
                    ).users@[i].id == Some(s) {
                        user.name@
                    } else {
                        old(self).user_names@[i]@
                    })
            }),
            user.id is None && !name_taken(old(self).user_names@, user.name@) ==> {
                let id = next_user_id(old(self).user_ids@) as usize;
                &&& r matches Ok(u) && u.id == Some(id) && u.name@ == user.name@
                &&& final(self).user_ids@ == old(self).user_ids@.push(id)
                &&& final(self).users@.len() == old(self).users@.len() + 1
                &&& forall|i: int| 0 <= i < old(self).users@.len() ==> #[trigger] final(self).users@[i] == old(self).users@[i]
                &&& final(self).users@.last().id == Some(id)
                &&& final(self).users@.last().name@ == user.name@
                &&& final(self).user_names@.len() == old(self).user_names@.len() + 1
                &&& forall|i: int| 0 <= i < old(self).user_names@.len() ==> #[trigger] final(self).user_names@[i] == old(self).user_names@[i]
                &&& final(self).user_names@.last()@ == user.name@
            },
            r matches Ok(u) ==> {
                &&& name_taken(final(self).user_names@, u.name@)
                &&& exists|i: int|
                    0 <= i < final(self).users@.len() && (#[trigger] final(self).users@[i]).id == u.id
                        && final(self).users@[i].name@ == u.name@
            },
    {
        if let Some(s) = user.id {
            if !contains_id(&self.user_ids, s) {
                let message = concat3("User ", &decimal_string(s), " not found");
                return Err(ServiceError::NotFound(api_err(3, "ERR_NOT_FOUND", message)));
            }
        }
        if contains_name(&self.user_names, &user.name) {
            let message = concat3("User name ", &user.name, " already exists.");
            return Err(ServiceError::BadRequest(api_err(1, "ERR_INVALID_ARGUMENT", message)));
        }
        match user.id {
            Some(some_id) => {
                let ghost before = self.users@;
                let ghost names_before = self.user_names@;
                let mut i: usize = 0;
                while i < self.users.len()
                    invariant
                        i <= self.users@.len(),
                        old(self).wf(),
                        before == old(self).users@,
                        names_before == old(self).user_names@,
                        self.user_ids == old(self).user_ids,
                        self.problem_ids == old(self).problem_ids,
                        self.contests == old(self).contests,
                        self.jobs == old(self).jobs,
                        old(self).user_ids@.contains(some_id),
                        !name_taken(old(self).user_names@, user.name@),
                        self.users@.len() == before.len(),
                        self.user_names@.len() == before.len(),
                        self.users@.len() == self.user_ids@.len(),
                        forall|k: int|
                            0 <= k < before.len() ==> {
                                &&& (#[trigger] self.users@[k]).id == before[k].id
                                &&& self.users@[k].name@ == (if k < i && before[k].id == Some(some_id) {
                                    user.name@
                                } else {
                                    before[k].name@
                                })
                                &&& self.user_names@[k]@ == (if k < i && before[k].id == Some(some_id) {
                                    user.name@
                                } else {
                                    names_before[k]@
                                })
                            },
                    decreases self.users@.len() - i,
                {
                    if self.users[i].id == Some(some_id) {
                        let renamed = APIPostUsers { id: Some(some_id), name: user.name.clone() };
                        self.users.set(i, renamed);
                        self.user_names.set(i, user.name.clone());
                    }
                    i += 1;
                }
                let ghost k = choose|k: int| 0 <= k < self.user_ids@.len() && self.user_ids@[k] == some_id;
                assert(self.users@[k].id == Some(some_id));
                assert(self.user_names@[k]@ == user.name@);
                proof {
                    assert forall|a: int, b: int| 0 <= a < b < self.user_names@.len() implies self.user_names@[a]@
                        != self.user_names@[b]@ by {
                        assert(self.users@[a].id == before[a].id);
                        assert(self.users@[b].id == before[b].id);
                        assert(before[a].id == Some(old(self).user_ids@[a]));
                        assert(before[b].id == Some(old(self).user_ids@[b]));
                        if before[a].id == Some(some_id) && before[b].id == Some(some_id) {
                            assert(old(self).user_ids@[a] == old(self).user_ids@[b]);
                        } else if before[a].id == Some(some_id) {
                            assert(names_before[b]@ != user.name@);
                        } else if before[b].id == Some(some_id) {
                            assert(names_before[a]@ != user.name@);
                        } else {
                            assert(names_before[a]@ != names_before[b]@);
                        }
                    }
                }
                Ok(APIPostUsers { id: Some(some_id), name: user.name })
            },
            None => {
                let mut max_id: usize = 0;
                let mut found = false;
                let mut i: usize = 0;
                while i < self.user_ids.len()
                    invariant
                        i <= self.user_ids@.len(),
                        !self.user_ids@.contains(usize::MAX),
                        found == (i > 0),
                        found ==> max_id + 1 == next_user_id(self.user_ids@.take(i as int)),
                        !found ==> next_user_id(self.user_ids@.take(i as int)) == 0,
                    decreases self.user_ids@.len() - i,
                {
                    assert(self.user_ids@.take(i + 1).drop_last() =~= self.user_ids@.take(i as int));
                    if !found || self.user_ids[i] > max_id {
                        max_id = self.user_ids[i];
                    }
                    found = true;
                    i += 1;
                }
                assert(self.user_ids@.take(self.user_ids@.len() as int) =~= self.user_ids@);
                let new_id = if found {
                    assert(self.user_ids@.contains(max_id)) by {
                        lemma_next_user_id_fresh(self.user_ids@);
                        let j = choose|j: int| 0 <= j < self.user_ids@.len() && next_user_id(self.user_ids@) == #[trigger] self.user_ids@[j] + 1;
                        assert(self.user_ids@[j] == max_id);
                    }
                    max_id + 1
                } else {
                    0
                };
                proof {
                    lemma_next_user_id_fresh(self.user_ids@);
                }
                let ghost names_before = self.user_names@;
                self.user_ids.push(new_id);
                self.user_names.push(user.name.clone());
                assert forall|a: int, b: int| 0 <= a < b < self.user_names@.len() implies self.user_names@[a]@
                    != self.user_names@[b]@ by {
                    if b == names_before.len() {
                        assert(names_before[a]@ != user.name@);
                    } else {
                        assert(names_before[a]@ != names_before[b]@);
                    }
                }
                self.users.push(APIPostUsers { id: Some(new_id), name: user.name.clone() });
                assert(self.user_names@[self.user_names@.len() - 1]@ == user.name@);
                assert(self.users@[self.users@.len() - 1].id == Some(new_id));
                Ok(APIPostUsers { id: Some(new_id), name: user.name })
            },
        }
    }
}


/// Where a job is found by id.
#[derive(Debug, Clone, Copy, PartialEq, Eq, Structural)]
pub enum JobLocation {
    /// Among the judged jobs, at this index.
    Judged(usize),
    /// In the running queue, at this index.
    Queued(usize),
    NotFound,
}

/// The index of the first answer in the queue with the given id.
pub open spec fn first_queued(q: Seq<APIPostResponse>, id: usize) -> Option<int>
    decreases q.len(),
{
    if q.len() == 0 {
        None
    } else {
        match first_queued(q.drop_last(), id) {
            Some(i) => Some(i),
            None => if q.last().id == id {
                Some(q.len() - 1)
            } else {
                None
            },
        }
    }
}

proof fn lemma_first_queued_prefix(q: Seq<APIPostResponse>, id: usize, k: int)
    requires
        0 <= k <= q.len(),
        first_queued(q.take(k), id) is Some,
    ensures
        first_queued(q, id) == first_queued(q.take(k), id),
    decreases q.len() - k,
{
    if k < q.len() {
        assert(q.take(k + 1).drop_last() =~= q.take(k));
        lemma_first_queued_prefix(q, id, k + 1);
    } else {
        assert(q.take(k) =~= q);
    }
}

/// Finds a job by id: the judged job at that index when there is one, else
/// the first answer in the running queue with that id.
pub fn locate_job(judged_count: usize, queue: &Vec<APIPostResponse>, job_id: usize) -> (r: JobLocation)
    requires
        job_id < usize::MAX,
    ensures
        job_id < judged_count ==> r == JobLocation::Judged(job_id),
        job_id >= judged_count ==> match first_queued(queue@, job_id) {
            Some(i) => r == JobLocation::Queued(i as usize),
            None => r == JobLocation::NotFound,
        },
{
    if judged_count < job_id + 1 {
        let mut i: usize = 0;
        while i < queue.len()
            invariant
                i <= queue.len(),
                judged_count <= job_id,
                first_queued(queue@.take(i as int), job_id) is None,
            decreases queue.len() - i,
        {
            assert(queue@.take(i + 1).drop_last() =~= queue@.take(i as int));
            if queue[i].id == job_id {
                proof {
                    lemma_first_queued_prefix(queue@, job_id, i as int + 1);
                }
                return JobLocation::Queued(i);
            }
            i += 1;
        }
        assert(queue@.take(queue.len() as int) =~= queue@);
        JobLocation::NotFound
    } else {
        JobLocation::Judged(job_id)
    }
}

/// Decides whether a judged job can be judged again: it must exist.
pub fn rejudge_target(judged_count: usize, job_id: usize) -> (r: Result<usize, ServiceError>)
    requires
        job_id < usize::MAX,
    ensures
        job_id < judged_count ==> r == Ok::<usize, ServiceError>(job_id),
        job_id >= judged_count ==> (r matches Err(ServiceError::NotFound(e)) && err_is(
            e,
            3,
            "ERR_NOT_FOUND"@,
            "Job "@ + decimal(job_id as nat) + " not found."@,
        )),
{
    if judged_count < job_id + 1 {
        let message = concat3("Job ", &decimal_string(job_id), " not found.");
        Err(ServiceError::NotFound(api_err(3, "ERR_NOT_FOUND", message)))
    } else {
        Ok(job_id)
    }
}

/// A job judged again keeps its id and its creation time.
pub fn keep_identity(previous: &APIPostResponse, rejudged: &mut APIPostResponse)
    ensures
        final(rejudged).id == previous.id,
        final(rejudged).created_time == previous.created_time,
        final(rejudged).updated_time == old(rejudged).updated_time,
        final(rejudged).submission == old(rejudged).submission,
        final(rejudged).state == old(rejudged).state,
        final(rejudged).result == old(rejudged).result,
        final(rejudged).cases == old(rejudged).cases,
{
    rejudged.id = previous.id;
    rejudged.created_time = previous.created_time.clone();
}

/// Every judged answer's id is its position among the judged answers.
pub open spec fn numbered_by_position(judged: Seq<APIPostResponse>) -> bool {
    forall|i: int| 0 <= i < judged.len() ==> (#[trigger] judged[i]).id == i
}

/// Files the answer of a judged job: it takes the next id (the number of
/// judged jobs) and joins them, so that answers numbered by their positions
/// stay so.
pub fn file_judged(judged: &mut Vec<APIPostResponse>, response: APIPostResponse)
    ensures
        final(judged)@.len() == old(judged)@.len() + 1,
        forall|i: int| 0 <= i < old(judged)@.len() ==> final(judged)@[i] == old(judged)@[i],
        final(judged)@.last() == (APIPostResponse { id: old(judged)@.len() as usize, ..response }),
        numbered_by_position(old(judged)@) ==> numbered_by_position(final(judged)@),
{
    let mut response = response;
    response.id = judged.len();
    judged.push(response);
}

/// Files a job that could not be judged: a fresh answer for it, finished
/// with an error of the special judge, which takes the next id (the number of
/// judged jobs), so that answers numbered by their positions stay so.
pub fn file_failed(judged: &mut Vec<APIPostResponse>, job: &APIPostJob)
    ensures
        final(judged)@.len() == old(judged)@.len() + 1,
        forall|i: int| 0 <= i < old(judged)@.len() ==> final(judged)@[i] == old(judged)@[i],
        final(judged)@.last().id == old(judged)@.len(),
        final(judged)@.last().submission == *job,
        final(judged)@.last().state == APIPostResponseState::Finished,
        final(judged)@.last().result == APIPostResponseResult::SPJError,
        final(judged)@.last().cases@.len() == 0,
        parsed_datetime(final(judged)@.last().created_time@, time_format()) is Some,
        final(judged)@.last().updated_time@ == final(judged)@.last().created_time@,
        numbered_by_position(old(judged)@) ==> numbered_by_position(final(judged)@),
{
    let mut failed = APIPostResponse::new();
    failed.id = judged.len();
    failed.result = APIPostResponseResult::SPJError;
    failed.state = APIPostResponseState::Finished;
    failed.submission = job.duplicate();
    judged.push(failed);
}


/// A step of the server's start-up, read from its command line.
#[derive(Debug, Clone)]
pub enum StartupAction {
    /// Load the configuration from this file.
    LoadConfig(String),
    /// Clear the saved data.
    FlushData,
}

/// Why the server does not start.
#[derive(Debug, Clone, Copy, PartialEq, Eq, Structural)]
pub enum StartupError {
    /// `-c` or `--config` is the last argument.
    NoConfigFile,
    /// No `-c` or `--config` was given.
    NoConfigFlag,
}

/// Whether an argument asks for a configuration file.
pub open spec fn is_config_flag(a: Seq<char>) -> bool {
    a == "-c"@ || a == "--config"@
}

/// Whether an argument asks to clear the saved data.
pub open spec fn is_flush_flag(a: Seq<char>) -> bool {
    a == "-f"@ || a == "--flush-data"@
}

/// The start-up steps that the first `k` arguments ask for, in order.
pub open spec fn startup_steps(args: Seq<String>, k: int) -> Seq<StartupAction>
    decreases k,
{
    if k <= 0 {
        Seq::<StartupAction>::empty()
    } else {
        let prev = startup_steps(args, k - 1);
        let a = args[k - 1]@;
        if is_config_flag(a) && k < args.len() {
            prev.push(StartupAction::LoadConfig(args[k]))
        } else if is_config_flag(a) {
            prev
        } else if is_flush_flag(a) {
            prev.push(StartupAction::FlushData)
        } else {
            prev
        }
    }
}

/// Whether one of the first `k` arguments asks for a configuration file.
pub open spec fn config_flag_before(args: Seq<String>, k: int) -> bool {
    exists|i: int| 0 <= i < k && is_config_flag(#[trigger] args[i]@)
}

fn is_one_of(a: &String, x: &str, y: &str) -> (r: bool)
    ensures
        r == (a@ == x@ || a@ == y@),
{
    *a == String::from_str(x) || *a == String::from_str(y)
}

/// Reads the server's command line: every `-c`/`--config` asks to load the
/// file named by the next argument, and every `-f`/`--flush-data` asks to
/// clear the saved data, in the order given. A `-c`/`--config` with nothing
/// after it stops the reading with an error, after the steps before it; a
/// command line without any is an error too, after all its steps.
pub fn startup_plan(args: &Vec<String>) -> (r: (Vec<StartupAction>, Option<StartupError>))
    ensures
        ({
            let (steps, err) = r;
            let n = args@.len() as int;
            if n > 0 && is_config_flag(args@[n - 1]@) {
                &&& steps@ == startup_steps(args@, n - 1)
                &&& err == Some(StartupError::NoConfigFile)
            } else {
                &&& steps@ == startup_steps(args@, n)
                &&& err == (if config_flag_before(args@, n) { None } else { Some(StartupError::NoConfigFlag) })
            }
        }),
{
    let mut steps: Vec<StartupAction> = Vec::new();
    let mut found = false;
    let mut i: usize = 0;
    while i < args.len()
        invariant
            i <= args@.len(),
            steps@ == startup_steps(args@, i as int),
            found == config_flag_before(args@, i as int),
            forall|k: int| 0 <= k < i && k == args@.len() - 1 ==> !is_config_flag(args@[k]@),
        decreases args@.len() - i,
    {
        let a = &args[i];
        if is_one_of(a, "-c", "--config") {
            if i == args.len() - 1 {
                return (steps, Some(StartupError::NoConfigFile));
            }
            let path = args[i + 1].clone();
            steps.push(StartupAction::LoadConfig(path));
            found = true;
        } else if is_one_of(a, "-f", "--flush-data") {
            steps.push(StartupAction::FlushData);
        }
        proof {
            if config_flag_before(args@, i + 1) && !found {
                let k = choose|k: int| 0 <= k < i + 1 && is_config_flag(#[trigger] args@[k]@);
                assert(k == i as int);
            }
        }
        i += 1;
    }
    if found {
        (steps, None)
    } else {
        (steps, Some(StartupError::NoConfigFlag))
    }
}

} // verus!
