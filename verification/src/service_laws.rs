use vstd::prelude::*;
use crate::api_analysis::{job_matches, APIPostJob, APIPostResponse, APIPostUsers, GetJobInfo};
use crate::api_analysis::{RankListScoringRule, RankListTieBreaker};
use crate::config_analysis::ConfigLanguage;
use crate::ranking::{
    chosen_score, contest_log, count_of, first_record, last_index_of, least_time, timed_records, times_aligned, is_permutation, is_rank_ordered, is_ranking, last_max_index,
    submission_position, RankEntry, ScoreRecordKey,
};
use crate::records::{
    filed_contest_record, filed_user_record, first_contest_record, first_user_record, sets_contest_best,
    sets_user_best, RecordContestUserProblem, RecordUserProblem,
};
use crate::server::{
    contest_submissions, first_contest, job_refusal, lemma_next_user_id_fresh, next_user_id, JobRefusal, OjState,
};
use crate::trail_terminal::{first_language, packing_applied};
use crate::api_analysis::{APIPostResponseCase, APIPostResponseResult};
use crate::time_format::{parsed_datetime, time_format, time_lt};

verus! {

/// When a user shares the rank of the user listed above: without a tie
/// breaker, when the two totals are equal; under the submission time or the
/// submission count, when the totals and the tie breaker's values are both
/// equal; under the user id, never. A user who does not share it is ranked
/// by position.
pub proof fn ranks_are_shared_on_ties(
    es: Seq<RankEntry>,
    tie: Option<RankListTieBreaker>,
    order: Seq<usize>,
    ranks: Seq<usize>,
    i: int,
)
    requires
        is_permutation(order, es.len()),
        is_ranking(es, tie, order, ranks),
        0 < i < ranks.len(),
    ensures
        ({
            let a = es[order[i - 1] as int];
            let b = es[order[i] as int];
            let tied = match tie {
                None => a.score_class == b.score_class,
                Some(RankListTieBreaker::SubmissionTime) => a.score_class == b.score_class && a.tie_key == b.tie_key,
                Some(RankListTieBreaker::SubmissionCount) => a.score_class == b.score_class && a.tie_key
                    == b.tie_key,
                Some(RankListTieBreaker::UserID) => false,
            };
            if tied {
                ranks[i] == ranks[i - 1]
            } else {
                ranks[i] == i + 1
            }
        }),
{
    assert(ranks[i] == ranks[i]);
}

proof fn lemma_last_max(keys: Seq<i64>)
    requires
        keys.len() > 0,
    ensures
        0 <= last_max_index(keys) < keys.len(),
        forall|j: int| 0 <= j < keys.len() ==> #[trigger] keys[j] <= keys[last_max_index(keys)],
        forall|j: int| last_max_index(keys) < j < keys.len() ==> #[trigger] keys[j] < keys[last_max_index(keys)],
    decreases keys.len(),
{
    if keys.len() > 1 {
        let init = keys.drop_last();
        lemma_last_max(init);
        assert forall|j: int| 0 <= j < init.len() implies init[j] == keys[j] by {}
    }
}

/// The score that counts for a user on a problem: without the highest rule
/// (under the latest rule, or with no rule given), the user's latest
/// submission; under the highest rule, a submission whose score is the
/// greatest, and the latest of those.
pub proof fn counted_score_follows_the_rule(
    rs: Seq<ScoreRecordKey>,
    c: Option<usize>,
    rule: Option<RankListScoringRule>,
    u: usize,
    p: usize,
    i: int,
)
    requires
        rs.len() <= usize::MAX,
        first_record(rs, c, u, p) == Some(i),
        0 <= i < rs.len(),
        0 < rs[i].score_keys@.len() <= usize::MAX,
    ensures
        rule != Some(RankListScoringRule::Highest) ==> chosen_score(rs, c, rule, u, p) == Some(
            (i as usize, (rs[i].score_keys@.len() - 1) as usize),
        ),
        rule == Some(RankListScoringRule::Highest) ==> (chosen_score(rs, c, rule, u, p) matches Some((ii, k)) && ii
            == i && k < rs[i].score_keys@.len() && (forall|j: int|
            0 <= j < rs[i].score_keys@.len() ==> #[trigger] rs[i].score_keys@[j] <= rs[i].score_keys@[k as int])
            && (forall|j: int|
            k < j < rs[i].score_keys@.len() ==> #[trigger] rs[i].score_keys@[j] < rs[i].score_keys@[k as int])),
{
    lemma_last_max(rs[i].score_keys@);
}

/// The submission limit of a contest counts each user's own jobs: a job of
/// another user, wherever it was submitted, never changes whether a user's
/// job is accepted or why it is refused; and each of the user's own jobs in
/// the contest counts once.
pub proof fn other_users_jobs_do_not_count(
    before: OjState,
    after: OjState,
    languages: Seq<ConfigLanguage>,
    job: APIPostJob,
    other: APIPostJob,
    now: (i64, u32),
)
    requires
        after.jobs@ == before.jobs@.push(other),
        after.problem_ids == before.problem_ids,
        after.user_ids == before.user_ids,
        after.contests == before.contests,
        other.user_id != job.user_id,
    ensures
        job_refusal(after, languages, job, now) == job_refusal(before, languages, job, now),
        contest_submissions(before.jobs@.push(job), job.contest_id, job.user_id) == contest_submissions(
            before.jobs@,
            job.contest_id,
            job.user_id,
        ) + 1,
{
    assert(after.jobs@.drop_last() =~= before.jobs@);
    assert(before.jobs@.push(job).drop_last() =~= before.jobs@);
}

/// A job created after the filter's `to` bound, or before its `from` bound,
/// never passes the filter.
pub proof fn jobs_outside_the_window_do_not_match(info: GetJobInfo, users: Seq<APIPostUsers>, job: APIPostResponse)
    requires
        parsed_datetime(job.created_time@, time_format()) is Some,
    ensures
        info.to matches Some(t) && parsed_datetime(t@, time_format()) matches Some(to) && time_lt(
            to,
            parsed_datetime(job.created_time@, time_format())->0,
        ) ==> !job_matches(info, users, job),
        info.from matches Some(f) && parsed_datetime(f@, time_format()) matches Some(from) && time_lt(
            parsed_datetime(job.created_time@, time_format())->0,
            from,
        ) ==> !job_matches(info, users, job),
{
}

/// After a submission is filed, the user's record on the problem holds the
/// case times of that submission when it was accepted, whatever it held
/// before; otherwise it keeps the times it held (none for a new record).
pub proof fn accepted_times_replace_the_record_times(
    o: Seq<RecordUserProblem>,
    f: Seq<RecordUserProblem>,
    u: usize,
    p: usize,
    k: i64,
    accepted: bool,
    times: Seq<usize>,
    idx: usize,
)
    requires
        filed_user_record(o, f, u, p, k, accepted, times, idx),
    ensures
        0 <= idx < f.len(),
        accepted ==> f[idx as int].min_time@ == times,
        !accepted ==> f[idx as int].min_time@ == (match first_user_record(o, u, p) {
            Some(i) => o[i].min_time@,
            None => Seq::<usize>::empty(),
        }),
{
    lemma_first_user_in_range(o, u, p);
}

/// The same within a contest: the contest record takes the case times of an
/// accepted submission, and keeps its times otherwise.
pub proof fn accepted_times_replace_the_contest_record_times(
    o: Seq<RecordContestUserProblem>,
    f: Seq<RecordContestUserProblem>,
    c: usize,
    u: usize,
    p: usize,
    k: i64,
    accepted: bool,
    times: Seq<usize>,
    idx: usize,
)
    requires
        filed_contest_record(o, f, c, u, p, k, accepted, times, idx),
    ensures
        0 <= idx < f.len(),
        accepted ==> f[idx as int].min_time@ == times,
        !accepted ==> f[idx as int].min_time@ == (match first_contest_record(o, c, u, p) {
            Some(i) => o[i].min_time@,
            None => Seq::<usize>::empty(),
        }),
{
    lemma_first_contest_in_range(o, c, u, p);
}

proof fn lemma_first_user_in_range(rs: Seq<RecordUserProblem>, u: usize, p: usize)
    ensures
        first_user_record(rs, u, p) matches Some(i) ==> 0 <= i < rs.len(),
    decreases rs.len(),
{
    if rs.len() > 0 {
        lemma_first_user_in_range(rs.drop_last(), u, p);
    }
}

proof fn lemma_first_contest_in_range(rs: Seq<RecordContestUserProblem>, c: usize, u: usize, p: usize)
    ensures
        first_contest_record(rs, c, u, p) matches Some(i) ==> 0 <= i < rs.len(),
    decreases rs.len(),
{
    if rs.len() > 0 {
        lemma_first_contest_in_range(rs.drop_last(), c, u, p);
    }
}

/// Among users of equal score key, the rank list puts first the smaller
/// submission position (under the submission time), the smaller submission
/// count (under the submission count), or the smaller user id (under the user
/// id or without a tie breaker); entries equal in that too keep the order in
/// which they were given.
pub proof fn ties_are_broken_by_the_tie_breaker(
    es: Seq<RankEntry>,
    tie: Option<RankListTieBreaker>,
    order: Seq<usize>,
    i: int,
    j: int,
)
    requires
        is_permutation(order, es.len()),
        is_rank_ordered(es, tie, order),
        0 <= i < j < order.len(),
        es[order[i] as int].score_key == es[order[j] as int].score_key,
    ensures
        ({
            let a = es[order[i] as int];
            let b = es[order[j] as int];
            let (x, y) = match tie {
                Some(RankListTieBreaker::SubmissionTime) => (a.tie_key, b.tie_key),
                Some(RankListTieBreaker::SubmissionCount) => (a.tie_key, b.tie_key),
                _ => (a.user_id, b.user_id),
            };
            x < y || (x == y && order[i] < order[j])
        }),
{
    assert(order[i] != order[j]);
}

/// The submission-time value of a user is the position of the user's last
/// entry in the log: the entry there is the user's, and no later one is; a
/// user without entries gets the log's length.
pub proof fn submission_position_is_the_last_entry(log: Seq<usize>, u: usize)
    ensures
        log.contains(u) ==> {
            let k = submission_position(log, u);
            &&& 0 <= k < log.len()
            &&& log[k] == u
            &&& forall|j: int| k < j < log.len() ==> #[trigger] log[j] != u
        },
        !log.contains(u) ==> submission_position(log, u) == log.len(),
{
    lemma_last_index(log, u);
}

proof fn lemma_last_index(log: Seq<usize>, u: usize)
    ensures
        log.contains(u) ==> (last_index_of(log, u) matches Some(k) && 0 <= k < log.len() && log[k] == u && (forall|
            j: int,
        |
            k < j < log.len() ==> #[trigger] log[j] != u)),
        !log.contains(u) ==> last_index_of(log, u) is None,
    decreases log.len(),
{
    if log.len() > 0 {
        let init = log.drop_last();
        lemma_last_index(init, u);
        if log.last() != u {
            assert(init.contains(u) <==> log.contains(u)) by {
                if log.contains(u) {
                    let j = choose|j: int| 0 <= j < log.len() && log[j] == u;
                    assert(j < init.len());
                    assert(init[j] == u);
                }
                if init.contains(u) {
                    let j = choose|j: int| 0 <= j < init.len() && init[j] == u;
                    assert(log[j] == u);
                }
            }
            if init.contains(u) {
                let k = last_index_of(init, u)->0;
                assert forall|j: int| k < j < log.len() implies #[trigger] log[j] != u by {
                    if j < init.len() {
                        assert(init[j] == log[j]);
                    }
                }
            }
        } else {
            assert(log[log.len() - 1] == u);
        }
    }
}

/// The submission count of a user grows by one with each of the user's
/// submissions and is unchanged by anybody else's; an empty log counts none.
pub proof fn submission_count_counts_own_entries(log: Seq<usize>, x: usize, u: usize)
    ensures
        count_of(Seq::<usize>::empty(), u) == 0,
        count_of(log.push(x), u) == count_of(log, u) + (if x == u { 1nat } else { 0nat }),
{
    assert(log.push(x).drop_last() =~= log);
}

/// A contest's submission log keeps the users of its own entries, in order,
/// and drops the entries of other contests.
pub proof fn contest_log_keeps_the_contest_entries(log: Seq<(usize, usize)>, e: (usize, usize), c: usize)
    ensures
        contest_log(Seq::<(usize, usize)>::empty(), c) == Seq::<usize>::empty(),
        contest_log(log.push(e), c) == (if e.0 == c { contest_log(log, c).push(e.1) } else { contest_log(log, c) }),
{
    assert(log.push(e).drop_last() =~= log);
}

/// A job that differs from a filter field the filter gives never passes it.
pub proof fn given_filter_fields_must_match(info: GetJobInfo, users: Seq<APIPostUsers>, job: APIPostResponse)
    ensures
        info.user_id matches Some(v) && v != job.submission.user_id ==> !job_matches(info, users, job),
        info.contest_id matches Some(v) && v != job.submission.contest_id ==> !job_matches(info, users, job),
        info.problem_id matches Some(v) && v != job.submission.problem_id ==> !job_matches(info, users, job),
        info.language matches Some(v) && v@ != job.submission.language@ ==> !job_matches(info, users, job),
        info.state matches Some(v) && v != job.state ==> !job_matches(info, users, job),
        info.result matches Some(v) && v != job.result ==> !job_matches(info, users, job),
        info.user_name matches Some(v) && (forall|i: int|
            0 <= i < users.len() ==> !(#[trigger] users[i].id == Some(job.submission.user_id) && users[i].name@
                == v@)) ==> !job_matches(info, users, job),
{
}

/// After a submission is filed, its score key is the last of the record's
/// history, which grew by exactly that one key.
pub proof fn score_history_grows_by_the_new_key(
    o: Seq<RecordUserProblem>,
    f: Seq<RecordUserProblem>,
    u: usize,
    p: usize,
    k: i64,
    accepted: bool,
    times: Seq<usize>,
    idx: usize,
)
    requires
        filed_user_record(o, f, u, p, k, accepted, times, idx),
    ensures
        0 <= idx < f.len(),
        f[idx as int].user_id == u && f[idx as int].problem_id == p,
        f[idx as int].score_keys@.last() == k,
        f[idx as int].score_keys@.drop_last() == (match first_user_record(o, u, p) {
            Some(i) => o[i].score_keys@,
            None => Seq::<i64>::empty(),
        }),
{
    lemma_first_user_in_range(o, u, p);
    match first_user_record(o, u, p) {
        Some(i) => {
            assert(f[i].score_keys@.drop_last() =~= o[i].score_keys@);
        },
        None => {
            assert(f.last().score_keys@.drop_last() =~= Seq::<i64>::empty());
        },
    }
}

/// A submission sets a new best exactly when it is the user's first on the
/// problem or its score key is greater than every earlier one: a submission
/// whose key does not exceed some earlier key sets none.
pub proof fn new_best_beats_every_earlier_score(o: Seq<RecordUserProblem>, u: usize, p: usize, k: i64)
    ensures
        first_user_record(o, u, p) is None ==> sets_user_best(o, u, p, k),
        first_user_record(o, u, p) matches Some(i) ==> (sets_user_best(o, u, p, k) <==> forall|j: int|
            0 <= j < o[i].score_keys@.len() ==> k > #[trigger] o[i].score_keys@[j]),
{
}

/// The same within a contest.
pub proof fn new_contest_best_beats_every_earlier_score(
    o: Seq<RecordContestUserProblem>,
    c: usize,
    u: usize,
    p: usize,
    k: i64,
)
    ensures
        first_contest_record(o, c, u, p) is None ==> sets_contest_best(o, c, u, p, k),
        first_contest_record(o, c, u, p) matches Some(i) ==> (sets_contest_best(o, c, u, p, k) <==> forall|j: int|
            0 <= j < o[i].score_keys@.len() ==> k > #[trigger] o[i].score_keys@[j]),
{
}

/// The fastest time of a case is the time of one of the timed records, and
/// no timed record is faster.
pub proof fn fastest_time_is_the_least(ts: Seq<RecordUserProblem>, j: int)
    requires
        ts.len() > 0,
        times_aligned(ts),
        0 <= j < ts[0].min_time@.len(),
    ensures
        forall|r: int| 0 <= r < ts.len() ==> least_time(ts, j) <= #[trigger] ts[r].min_time@[j],
        exists|r: int| 0 <= r < ts.len() && least_time(ts, j) == #[trigger] ts[r].min_time@[j],
    decreases ts.len(),
{
    if ts.len() > 1 {
        let init = ts.drop_last();
        assert forall|i: int| 0 <= i < init.len() implies (#[trigger] init[i]).min_time@.len() >= init[0].min_time@.len() by {
            assert(init[i] == ts[i]);
        }
        fastest_time_is_the_least(init, j);
        assert forall|r: int| 0 <= r < ts.len() implies least_time(ts, j) <= #[trigger] ts[r].min_time@[j] by {
            if r < init.len() {
                assert(init[r] == ts[r]);
            }
        }
        let w = choose|r: int| 0 <= r < init.len() && least_time(init, j) == #[trigger] init[r].min_time@[j];
        assert(init[w] == ts[w]);
        assert(ts.last() == ts[ts.len() - 1]);
    } else {
        assert(least_time(ts, j) == ts[0].min_time@[j]);
    }
}

/// A job is refused as not found whenever its problem or its user is unknown
/// or its language is not configured, whatever contest it names; a job
/// outside contests with everything known is accepted.
pub proof fn unknown_jobs_are_not_found(st: OjState, languages: Seq<ConfigLanguage>, job: APIPostJob, now: (i64, u32))
    ensures
        !st.problem_ids@.contains(job.problem_id) ==> job_refusal(st, languages, job, now) == Some(
            JobRefusal::NotFound,
        ),
        !st.user_ids@.contains(job.user_id) ==> job_refusal(st, languages, job, now) == Some(JobRefusal::NotFound),
        first_language(languages, job.language@) is None ==> job_refusal(st, languages, job, now) == Some(
            JobRefusal::NotFound,
        ),
        st.problem_ids@.contains(job.problem_id) && st.user_ids@.contains(job.user_id) && first_language(
            languages,
            job.language@,
        ) is Some && job.contest_id == 0 ==> job_refusal(st, languages, job, now) is None,
{
}

/// A known job in a contest that has its user and problem is refused while
/// the contest has not begun or has ended, and otherwise accepted exactly
/// while the user has submitted fewer jobs to it than it allows.
pub proof fn contest_jobs_follow_window_and_limit(
    st: OjState,
    languages: Seq<ConfigLanguage>,
    job: APIPostJob,
    now: (i64, u32),
    i: int,
    from: (i64, u32),
    to: (i64, u32),
)
    requires
        st.problem_ids@.contains(job.problem_id),
        st.user_ids@.contains(job.user_id),
        first_language(languages, job.language@) is Some,
        job.contest_id != 0,
        first_contest(st.contests@, job.contest_id) == Some(i),
        st.contests@[i].user_ids@.contains(job.user_id),
        st.contests@[i].problem_ids@.contains(job.problem_id),
        parsed_datetime(st.contests@[i].from@, time_format()) == Some(from),
        parsed_datetime(st.contests@[i].to@, time_format()) == Some(to),
    ensures
        time_lt(now, from) ==> job_refusal(st, languages, job, now) == Some(JobRefusal::InvalidArgument),
        time_lt(to, now) && !time_lt(now, from) ==> job_refusal(st, languages, job, now) == Some(
            JobRefusal::InvalidArgument,
        ),
        !time_lt(now, from) && !time_lt(to, now) ==> (job_refusal(st, languages, job, now) is None <==> contest_submissions(
            st.jobs@,
            job.contest_id,
            job.user_id,
        ) < st.contests@[i].submission_limit),
        !time_lt(now, from) && !time_lt(to, now) && contest_submissions(st.jobs@, job.contest_id, job.user_id)
            >= st.contests@[i].submission_limit ==> job_refusal(st, languages, job, now) == Some(JobRefusal::RateLimit),
{
}

/// A new user's id is one more than the greatest id in use, 0 when there is
/// none: it is greater than every id in use, and one more than one of them.
pub proof fn new_user_id_is_one_past_the_greatest(ids: Seq<usize>)
    ensures
        forall|i: int| 0 <= i < ids.len() ==> #[trigger] ids[i] < next_user_id(ids),
        ids.len() > 0 ==> exists|i: int| 0 <= i < ids.len() && next_user_id(ids) == #[trigger] ids[i] + 1,
        ids.len() == 0 ==> next_user_id(ids) == 0,
{
    lemma_next_user_id_fresh(ids);
}

/// Packing skips exactly the cases that follow, in some pack, a case that
/// was not accepted before any packing; every other case keeps its result,
/// and no case changes otherwise.
pub proof fn packing_skips_after_unaccepted_cases(
    a: Seq<APIPostResponseCase>,
    b: Seq<APIPostResponseCase>,
    packs: Seq<Vec<usize>>,
    k: int,
)
    requires
        packing_applied(a, b, packs, packs.len() as int),
        0 <= k < a.len(),
    ensures
        b.len() == a.len(),
        b[k].id == a[k].id && b[k].time == a[k].time && b[k].memory == a[k].memory,
        (exists|p: int, i: int, j: int|
            #![trigger packs[p]@[i], packs[p]@[j]]
            0 <= p < packs.len() && 0 <= i < j < packs[p]@.len() && packs[p]@[j] == k
                && a[packs[p]@[i] as int].result != APIPostResponseResult::Accepted) ==> b[k].result
            == APIPostResponseResult::Skipped,
        !(exists|p: int, i: int, j: int|
            #![trigger packs[p]@[i], packs[p]@[j]]
            0 <= p < packs.len() && 0 <= i < j < packs[p]@.len() && packs[p]@[j] == k
                && a[packs[p]@[i] as int].result != APIPostResponseResult::Accepted) ==> b[k].result == a[k].result,
{
    assert(packs.take(packs.len() as int) =~= packs);
    if exists|p: int, i: int, j: int|
            #![trigger packs[p]@[i], packs[p]@[j]]
        0 <= p < packs.len() && 0 <= i < j < packs[p]@.len() && packs[p]@[j] == k
            && a[packs[p]@[i] as int].result != APIPostResponseResult::Accepted {
        let (p, i, j) = choose|p: int, i: int, j: int|
            #![trigger packs[p]@[i], packs[p]@[j]]
            0 <= p < packs.len() && 0 <= i < j < packs[p]@.len() && packs[p]@[j] == k
                && a[packs[p]@[i] as int].result != APIPostResponseResult::Accepted;
        assert(packs.take(packs.len() as int)[p] == packs[p]);
    } else {
        if crate::trail_terminal::packs_skip(a, packs.take(packs.len() as int), k) {
            let p = choose|p: int|
                0 <= p < packs.len() && crate::trail_terminal::pack_skips(a, #[trigger] packs.take(packs.len() as int)[p]@, k);
            let (i, j) = choose|i: int, j: int|
                0 <= i < j < packs[p]@.len() && packs[p]@[j] == k && a[packs[p]@[i] as int].result
                    != APIPostResponseResult::Accepted;
            assert(packs[p]@[j] == k);
        }
    }
}

} // verus!
