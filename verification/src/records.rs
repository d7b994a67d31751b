use vstd::prelude::*;

verus! {

/// The record of one user on one problem: who, which problem, for each of
/// the user's submissions in order a key that orders its score as the scores
/// are ordered (the scores themselves are kept by the caller beside the
/// record, in the same order), and the running time of each case in the
/// user's latest accepted submission (empty until one is accepted).
#[derive(Debug, Clone)]
pub struct RecordUserProblem {
    pub user_id: usize,
    pub problem_id: usize,
    pub score_keys: Vec<i64>,
    pub min_time: Vec<usize>,
}

/// The record of one user on one problem within one contest.
#[derive(Debug, Clone)]
pub struct RecordContestUserProblem {
    pub contest_id: usize,
    pub user_id: usize,
    pub problem_id: usize,
    pub score_keys: Vec<i64>,
    pub min_time: Vec<usize>,
}

impl RecordUserProblem {
    pub fn new() -> (r: RecordUserProblem)
        ensures
            r.user_id == 0,
            r.problem_id == 0,
            r.score_keys@.len() == 0,
            r.min_time@.len() == 0,
    {
        RecordUserProblem { user_id: 0, problem_id: 0, score_keys: Vec::new(), min_time: Vec::new() }
    }
}

impl RecordContestUserProblem {
    pub fn new() -> (r: RecordContestUserProblem)
        ensures
            r.contest_id == 0,
            r.user_id == 0,
            r.problem_id == 0,
            r.score_keys@.len() == 0,
            r.min_time@.len() == 0,
    {
        RecordContestUserProblem { contest_id: 0, user_id: 0, problem_id: 0, score_keys: Vec::new(), min_time: Vec::new() }
    }
}

/// Everything the server remembers of judged submissions for its rank lists:
/// the records of users on problems, the log of the users of all judged
/// submissions, the log of the users whose submission set a new best score
/// on a problem, and the same within contests (the contest logs hold pairs of
/// contest id and user id).
#[derive(Debug, Clone)]
pub struct SubmissionRecords {
    pub user_problem: Vec<RecordUserProblem>,
    pub all_user_submit: Vec<usize>,
    pub highest_user_submit: Vec<usize>,
    pub contest_user_problem: Vec<RecordContestUserProblem>,
    pub contest_highest_user_submit: Vec<(usize, usize)>,
    pub contest_all_user_submit: Vec<(usize, usize)>,
}

/// Whether a score of key `k` beats every earlier score, of keys `keys`.
pub open spec fn beats_all(keys: Seq<i64>, k: i64) -> bool {
    forall|i: int| 0 <= i < keys.len() ==> k > #[trigger] keys[i]
}

/// No two records are of the same user on the same problem.
pub open spec fn one_record_per_pair(rs: Seq<RecordUserProblem>) -> bool {
    forall|i: int, j: int|
        0 <= i < j < rs.len() ==> !(#[trigger] rs[i].user_id == #[trigger] rs[j].user_id && rs[i].problem_id
            == rs[j].problem_id)
}

/// No two contest records are of the same user on the same problem in the
/// same contest.
pub open spec fn one_record_per_triple(rs: Seq<RecordContestUserProblem>) -> bool {
    forall|i: int, j: int|
        0 <= i < j < rs.len() ==> !(#[trigger] rs[i].contest_id == #[trigger] rs[j].contest_id && rs[i].user_id
            == rs[j].user_id && rs[i].problem_id == rs[j].problem_id)
}

/// The first record of user `u` on problem `p`.
pub open spec fn first_user_record(rs: Seq<RecordUserProblem>, u: usize, p: usize) -> Option<int>
    decreases rs.len(),
{
    if rs.len() == 0 {
        None
    } else {
        match first_user_record(rs.drop_last(), u, p) {
            Some(i) => Some(i),
            None => if rs.last().user_id == u && rs.last().problem_id == p {
                Some(rs.len() - 1)
            } else {
                None
            },
        }
    }
}

/// The first record of user `u` on problem `p` in contest `c`.
pub open spec fn first_contest_record(rs: Seq<RecordContestUserProblem>, c: usize, u: usize, p: usize) -> Option<int>
    decreases rs.len(),
{
    if rs.len() == 0 {
        None
    } else {
        match first_contest_record(rs.drop_last(), c, u, p) {
            Some(i) => Some(i),
            None => if rs.last().contest_id == c && rs.last().user_id == u && rs.last().problem_id == p {
                Some(rs.len() - 1)
            } else {
                None
            },
        }
    }
}

/// Where the score of a judged submission is to be kept: the index of the
/// user's record on the problem, and of the record within the contest when
/// the submission belongs to a contest. An index equal to the number of
/// records before the call is a record that the call created.
#[derive(Debug, Clone, Copy)]
pub struct RecordPlacement {
    pub user_record: usize,
    pub contest_record: Option<usize>,
}

/// A record's case times after a submission: replaced by the submission's when
/// it was accepted.
pub open spec fn times_after(old_times: Seq<usize>, accepted: bool, times: Seq<usize>) -> Seq<usize> {
    if accepted {
        times
    } else {
        old_times
    }
}

proof fn lemma_first_user_bounds(rs: Seq<RecordUserProblem>, u: usize, p: usize)
    ensures
        first_user_record(rs, u, p) matches Some(i) ==> 0 <= i < rs.len() && rs[i].user_id == u && rs[i].problem_id == p,
        first_user_record(rs, u, p) is None ==> forall|k: int|
            0 <= k < rs.len() ==> !(#[trigger] rs[k].user_id == u && rs[k].problem_id == p),
    decreases rs.len(),
{
    if rs.len() > 0 {
        lemma_first_user_bounds(rs.drop_last(), u, p);
        assert forall|k: int| 0 <= k < rs.len() - 1 implies rs.drop_last()[k] == rs[k] by {}
    }
}

proof fn lemma_first_user_prefix(rs: Seq<RecordUserProblem>, u: usize, p: usize, k: int)
    requires
        0 <= k <= rs.len(),
        first_user_record(rs.take(k), u, p) is Some,
    ensures
        first_user_record(rs, u, p) == first_user_record(rs.take(k), u, p),
    decreases rs.len() - k,
{
    if k < rs.len() {
        assert(rs.take(k + 1).drop_last() =~= rs.take(k));
        lemma_first_user_prefix(rs, u, p, k + 1);
    } else {
        assert(rs.take(k) =~= rs);
    }
}

proof fn lemma_first_contest_bounds(rs: Seq<RecordContestUserProblem>, c: usize, u: usize, p: usize)
    ensures
        first_contest_record(rs, c, u, p) matches Some(i) ==> 0 <= i < rs.len() && rs[i].contest_id == c
            && rs[i].user_id == u && rs[i].problem_id == p,
        first_contest_record(rs, c, u, p) is None ==> forall|k: int|
            0 <= k < rs.len() ==> !(#[trigger] rs[k].contest_id == c && rs[k].user_id == u && rs[k].problem_id == p),
    decreases rs.len(),
{
    if rs.len() > 0 {
        lemma_first_contest_bounds(rs.drop_last(), c, u, p);
        assert forall|k: int| 0 <= k < rs.len() - 1 implies rs.drop_last()[k] == rs[k] by {}
    }
}

proof fn lemma_first_contest_prefix(rs: Seq<RecordContestUserProblem>, c: usize, u: usize, p: usize, k: int)
    requires
        0 <= k <= rs.len(),
        first_contest_record(rs.take(k), c, u, p) is Some,
    ensures
        first_contest_record(rs, c, u, p) == first_contest_record(rs.take(k), c, u, p),
    decreases rs.len() - k,
{
    if k < rs.len() {
        assert(rs.take(k + 1).drop_last() =~= rs.take(k));
        lemma_first_contest_prefix(rs, c, u, p, k + 1);
    } else {
        assert(rs.take(k) =~= rs);
    }
}

fn find_user_record(rs: &Vec<RecordUserProblem>, u: usize, p: usize) -> (r: Option<usize>)
    ensures
        r matches Some(i) ==> first_user_record(rs@, u, p) == Some(i as int),
        r is None ==> first_user_record(rs@, u, p) is None,
{
    let mut i: usize = 0;
    while i < rs.len()
        invariant
            i <= rs.len(),
            first_user_record(rs@.take(i as int), u, p) is None,
        decreases rs.len() - i,
    {
        assert(rs@.take(i + 1).drop_last() =~= rs@.take(i as int));
        if rs[i].user_id == u && rs[i].problem_id == p {
            proof {
                lemma_first_user_prefix(rs@, u, p, i as int + 1);
            }
            return Some(i);
        }
        i += 1;
    }
    assert(rs@.take(rs.len() as int) =~= rs@);
    None
}

fn find_contest_record(rs: &Vec<RecordContestUserProblem>, c: usize, u: usize, p: usize) -> (r: Option<usize>)
    ensures
        r matches Some(i) ==> first_contest_record(rs@, c, u, p) == Some(i as int),
        r is None ==> first_contest_record(rs@, c, u, p) is None,
{
    let mut i: usize = 0;
    while i < rs.len()
        invariant
            i <= rs.len(),
            first_contest_record(rs@.take(i as int), c, u, p) is None,
        decreases rs.len() - i,
    {
        assert(rs@.take(i + 1).drop_last() =~= rs@.take(i as int));
        if rs[i].contest_id == c && rs[i].user_id == u && rs[i].problem_id == p {
            proof {
                lemma_first_contest_prefix(rs@, c, u, p, i as int + 1);
            }
            return Some(i);
        }
        i += 1;
    }
    assert(rs@.take(rs.len() as int) =~= rs@);
    None
}

fn copy_times(v: &Vec<usize>) -> (r: Vec<usize>)
    ensures
        r@ == v@,
{
    let mut r: Vec<usize> = Vec::new();
    let mut i: usize = 0;
    while i < v.len()
        invariant
            i <= v.len(),
            r@ == v@.take(i as int),
        decreases v.len() - i,
    {
        r.push(v[i]);
        assert(v@.take(i + 1) =~= v@.take(i as int).push(v@[i as int]));
        i += 1;
    }
    assert(v@.take(v.len() as int) =~= v@);
    r
}

fn copy_keys(v: &Vec<i64>) -> (r: Vec<i64>)
    ensures
        r@ == v@,
{
    let mut r: Vec<i64> = Vec::new();
    let mut i: usize = 0;
    while i < v.len()
        invariant
            i <= v.len(),
            r@ == v@.take(i as int),
        decreases v.len() - i,
    {
        r.push(v[i]);
        assert(v@.take(i + 1) =~= v@.take(i as int).push(v@[i as int]));
        i += 1;
    }
    assert(v@.take(v.len() as int) =~= v@);
    r
}

/// Whether a score of key `k` beats every key of `keys`.
fn beats_every(keys: &Vec<i64>, k: i64) -> (r: bool)
    ensures
        r == beats_all(keys@, k),
{
    let mut i: usize = 0;
    while i < keys.len()
        invariant
            i <= keys.len(),
            forall|j: int| 0 <= j < i ==> k > #[trigger] keys@[j],
        decreases keys.len() - i,
    {
        if k <= keys[i] {
            return false;
        }
        i += 1;
    }
    true
}

/// `f` is `o` after filing a submission of user `u` on problem `p` whose
/// score has key `k`: the user's first record on the problem has the key
/// appended (and the case times replaced when the submission was accepted),
/// or a record was added when there was none; `idx` is the record's index.
pub open spec fn filed_user_record(
    o: Seq<RecordUserProblem>,
    f: Seq<RecordUserProblem>,
    u: usize,
    p: usize,
    k: i64,
    accepted: bool,
    times: Seq<usize>,
    idx: usize,
) -> bool {
    match first_user_record(o, u, p) {
        Some(i) => {
            &&& idx == i
            &&& f.len() == o.len()
            &&& forall|j: int| 0 <= j < o.len() && j != i ==> #[trigger] f[j] == o[j]
            &&& f[i].user_id == u
            &&& f[i].problem_id == p
            &&& f[i].score_keys@ == o[i].score_keys@.push(k)
            &&& f[i].min_time@ == times_after(o[i].min_time@, accepted, times)
        },
        None => {
            &&& idx == o.len()
            &&& f.len() == o.len() + 1
            &&& forall|j: int| 0 <= j < o.len() ==> #[trigger] f[j] == o[j]
            &&& f.last().user_id == u
            &&& f.last().problem_id == p
            &&& f.last().score_keys@ == seq![k]
            &&& f.last().min_time@ == times_after(Seq::empty(), accepted, times)
        },
    }
}

/// `f` is `o` after filing a submission in contest `c`: the first matching
/// contest record has the key appended (and the case times replaced when the
/// submission was accepted), or a record was added when there was none;
/// `idx` is the record's index.
pub open spec fn filed_contest_record(
    o: Seq<RecordContestUserProblem>,
    f: Seq<RecordContestUserProblem>,
    c: usize,
    u: usize,
    p: usize,
    k: i64,
    accepted: bool,
    times: Seq<usize>,
    idx: usize,
) -> bool {
    match first_contest_record(o, c, u, p) {
        Some(i) => {
            &&& idx == i
            &&& f.len() == o.len()
            &&& forall|j: int| 0 <= j < o.len() && j != i ==> #[trigger] f[j] == o[j]
            &&& f[i].contest_id == c
            &&& f[i].user_id == u
            &&& f[i].problem_id == p
            &&& f[i].score_keys@ == o[i].score_keys@.push(k)
            &&& f[i].min_time@ == times_after(o[i].min_time@, accepted, times)
        },
        None => {
            &&& idx == o.len()
            &&& f.len() == o.len() + 1
            &&& forall|j: int| 0 <= j < o.len() ==> #[trigger] f[j] == o[j]
            &&& f.last().contest_id == c
            &&& f.last().user_id == u
            &&& f.last().problem_id == p
            &&& f.last().score_keys@ == seq![k]
            &&& f.last().min_time@ == times_after(Seq::empty(), accepted, times)
        },
    }
}

/// Whether a submission of key `k` by user `u` on problem `p` sets a new best:
/// it is the user's first on the problem, or its score beats every earlier one.
pub open spec fn sets_user_best(o: Seq<RecordUserProblem>, u: usize, p: usize, k: i64) -> bool {
    match first_user_record(o, u, p) {
        Some(i) => beats_all(o[i].score_keys@, k),
        None => true,
    }
}

/// The same within contest `c`.
pub open spec fn sets_contest_best(o: Seq<RecordContestUserProblem>, c: usize, u: usize, p: usize, k: i64) -> bool {
    match first_contest_record(o, c, u, p) {
        Some(i) => beats_all(o[i].score_keys@, k),
        None => true,
    }
}

impl SubmissionRecords {
    pub fn new() -> (r: SubmissionRecords)
        ensures
            r.user_problem@.len() == 0,
            r.all_user_submit@.len() == 0,
            r.highest_user_submit@.len() == 0,
            r.contest_user_problem@.len() == 0,
            r.contest_highest_user_submit@.len() == 0,
            r.contest_all_user_submit@.len() == 0,
    {
        SubmissionRecords {
            user_problem: Vec::new(),
            all_user_submit: Vec::new(),
            highest_user_submit: Vec::new(),
            contest_user_problem: Vec::new(),
            contest_highest_user_submit: Vec::new(),
            contest_all_user_submit: Vec::new(),
        }
    }

    /// Files a judged submission of user `user_id` on problem `problem_id` (in
    /// contest `contest_id`, 0 outside contests) whose score has key
    /// `score_key`; `times` are the running times of its cases, kept when it
    /// was `accepted`.
    ///
    /// The key joins the user's record on the problem, which is created when
    /// there is none; the user enters the log of all submissions, and the log
    /// of best submissions when this one sets a new best (it is the first, or
    /// its score beats every earlier one). Within a contest the same is done
    /// with the contest's records and logs. At most one record per user and
    /// problem (and per contest, user and problem) is kept.
    pub fn record_submission(
        &mut self,
        user_id: usize,
        problem_id: usize,
        contest_id: usize,
        score_key: i64,
        accepted: bool,
        times: &Vec<usize>,
    ) -> (r: RecordPlacement)
        ensures
            final(self).all_user_submit@ == old(self).all_user_submit@.push(user_id),
            filed_user_record(
                old(self).user_problem@,
                final(self).user_problem@,
                user_id,
                problem_id,
                score_key,
                accepted,
                times@,
                r.user_record,
            ),
            final(self).highest_user_submit@ == (if sets_user_best(old(self).user_problem@, user_id, problem_id, score_key) {
                old(self).highest_user_submit@.push(user_id)
            } else {
                old(self).highest_user_submit@
            }),
            one_record_per_pair(old(self).user_problem@) ==> one_record_per_pair(final(self).user_problem@),
            contest_id == 0 ==> {
                &&& r.contest_record is None
                &&& final(self).contest_user_problem@ == old(self).contest_user_problem@
                &&& final(self).contest_all_user_submit@ == old(self).contest_all_user_submit@
                &&& final(self).contest_highest_user_submit@ == old(self).contest_highest_user_submit@
            },
            contest_id != 0 ==> {
                &&& r.contest_record matches Some(j) && filed_contest_record(
                    old(self).contest_user_problem@,
                    final(self).contest_user_problem@,
                    contest_id,
                    user_id,
                    problem_id,
                    score_key,
                    accepted,
                    times@,
                    j,
                )
                &&& final(self).contest_all_user_submit@ == old(self).contest_all_user_submit@.push((contest_id, user_id))
                &&& final(self).contest_highest_user_submit@ == (if sets_contest_best(
                    old(self).contest_user_problem@,
                    contest_id,
                    user_id,
                    problem_id,
                    score_key,
                ) {
                    old(self).contest_highest_user_submit@.push((contest_id, user_id))
                } else {
                    old(self).contest_highest_user_submit@
                })
            },
            one_record_per_triple(old(self).contest_user_problem@) ==> one_record_per_triple(
                final(self).contest_user_problem@,
            ),
    {
        let ghost o = *self;
        let found = find_user_record(&self.user_problem, user_id, problem_id);
        proof {
            lemma_first_user_bounds(o.user_problem@, user_id, problem_id);
        }
        let user_record = match found {
            Some(i) => {
                let old_rec = &self.user_problem[i];
                let best = beats_every(&old_rec.score_keys, score_key);
                let mut keys = copy_keys(&old_rec.score_keys);
                keys.push(score_key);
                let min_time = if accepted { copy_times(times) } else { copy_times(&old_rec.min_time) };
                let rec = RecordUserProblem {
                    user_id: old_rec.user_id,
                    problem_id: old_rec.problem_id,
                    score_keys: keys,
                    min_time,
                };
                self.user_problem.set(i, rec);
                if best {
                    self.highest_user_submit.push(user_id);
                }
                i
            },
            None => {
                let n = self.user_problem.len();
                let min_time = if accepted { copy_times(times) } else { Vec::new() };
                let mut keys: Vec<i64> = Vec::new();
                keys.push(score_key);
                self.user_problem.push(RecordUserProblem { user_id, problem_id, score_keys: keys, min_time });
                self.highest_user_submit.push(user_id);
                n
            },
        };
        self.all_user_submit.push(user_id);
        let mut contest_record: Option<usize> = None;
        if contest_id > 0 {
            let cfound = find_contest_record(&self.contest_user_problem, contest_id, user_id, problem_id);
            proof {
                lemma_first_contest_bounds(o.contest_user_problem@, contest_id, user_id, problem_id);
            }
            match cfound {
                Some(j) => {
                    let old_rec = &self.contest_user_problem[j];
                    let best = beats_every(&old_rec.score_keys, score_key);
                    let mut keys = copy_keys(&old_rec.score_keys);
                    keys.push(score_key);
                    let min_time = if accepted { copy_times(times) } else { copy_times(&old_rec.min_time) };
                    let rec = RecordContestUserProblem {
                        contest_id: old_rec.contest_id,
                        user_id: old_rec.user_id,
                        problem_id: old_rec.problem_id,
                        score_keys: keys,
                        min_time,
                    };
                    self.contest_user_problem.set(j, rec);
                    if best {
                        self.contest_highest_user_submit.push((contest_id, user_id));
                    }
                    contest_record = Some(j);
                },
                None => {
                    let n = self.contest_user_problem.len();
                    let min_time = if accepted { copy_times(times) } else { Vec::new() };
                    let mut keys: Vec<i64> = Vec::new();
                    keys.push(score_key);
                    self.contest_user_problem.push(
                        RecordContestUserProblem { contest_id, user_id, problem_id, score_keys: keys, min_time },
                    );
                    self.contest_highest_user_submit.push((contest_id, user_id));
                    contest_record = Some(n);
                },
            }
            self.contest_all_user_submit.push((contest_id, user_id));
        }
        RecordPlacement { user_record, contest_record }
    }
}

} // verus!
