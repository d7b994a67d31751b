use vstd::prelude::*;
use crate::api_analysis::{APIPostUsers, RankListScoringRule, RankListTieBreaker};
use crate::records::{RecordUserProblem, SubmissionRecords};

verus! {

/// What a rank list needs to know of one user.
///
/// `score_key` is the user's total score as the list orders it (the total
/// scaled and truncated to an integer); `score_class` stands for the exact
/// total, two users having the same class exactly when their totals are
/// equal; `tie_key` is the value of the tie breaker (the position of the
/// user's last counted submission, or the number of submissions).
#[derive(Debug, Clone, Copy)]
pub struct RankEntry {
    pub user_id: usize,
    pub score_key: i64,
    pub score_class: u64,
    pub tie_key: usize,
}

/// The value that orders two users of equal score.
pub open spec fn secondary_key(e: RankEntry, tie: Option<RankListTieBreaker>) -> usize {
    match tie {
        Some(RankListTieBreaker::SubmissionTime) => e.tie_key,
        Some(RankListTieBreaker::SubmissionCount) => e.tie_key,
        _ => e.user_id,
    }
}

/// Whether entry `i` is listed before entry `j`: the higher score first, then
/// the smaller secondary key, then the entry that came first.
pub open spec fn ranks_before(
    es: Seq<RankEntry>,
    tie: Option<RankListTieBreaker>,
    i: int,
    j: int,
) -> bool {
    let a = es[i];
    let b = es[j];
    ||| a.score_key > b.score_key
    ||| a.score_key == b.score_key && secondary_key(a, tie) < secondary_key(b, tie)
    ||| a.score_key == b.score_key && secondary_key(a, tie) == secondary_key(b, tie) && i < j
}

/// Whether a user listed right after `a` shares `a`'s rank.
pub open spec fn shares_rank(a: RankEntry, b: RankEntry, tie: Option<RankListTieBreaker>) -> bool {
    match tie {
        None => a.score_class == b.score_class,
        Some(RankListTieBreaker::UserID) => false,
        Some(_) => a.score_class == b.score_class && a.tie_key == b.tie_key,
    }
}

/// `order` lists each of the indices `0..n` exactly once.
pub open spec fn is_permutation(order: Seq<usize>, n: nat) -> bool {
    &&& order.len() == n
    &&& forall|i: int| 0 <= i < order.len() ==> #[trigger] order[i] < n
    &&& forall|i: int, j: int| 0 <= i < j < order.len() ==> order[i] != order[j]
}

/// `order` lists the entries in rank-list order.
pub open spec fn is_rank_ordered(
    es: Seq<RankEntry>,
    tie: Option<RankListTieBreaker>,
    order: Seq<usize>,
) -> bool {
    forall|i: int, j: int|
        0 <= i < j < order.len() ==> ranks_before(es, tie, #[trigger] order[i] as int, #[trigger] order[j] as int)
}

/// The ranks of the entries listed in `order`: the first is ranked 1, and each
/// later one either shares the rank of the one above it or is ranked by its
/// position.
pub open spec fn is_ranking(
    es: Seq<RankEntry>,
    tie: Option<RankListTieBreaker>,
    order: Seq<usize>,
    ranks: Seq<usize>,
) -> bool {
    &&& ranks.len() == order.len()
    &&& forall|i: int|
        0 <= i < ranks.len() ==> #[trigger] ranks[i] == (if i > 0 && shares_rank(
            es[order[i - 1] as int],
            es[order[i] as int],
            tie,
        ) {
            ranks[i - 1] as int
        } else {
            i + 1
        })
}

fn listed_before(entries: &Vec<RankEntry>, tie: Option<RankListTieBreaker>, i: usize, j: usize) -> (r: bool)
    requires
        i < entries.len(),
        j < entries.len(),
    ensures
        r == ranks_before(entries@, tie, i as int, j as int),
{
    let a = entries[i];
    let b = entries[j];
    let (sa, sb) = match tie {
        Some(RankListTieBreaker::SubmissionTime) => (a.tie_key, b.tie_key),
        Some(RankListTieBreaker::SubmissionCount) => (a.tie_key, b.tie_key),
        _ => (a.user_id, b.user_id),
    };
    a.score_key > b.score_key || (a.score_key == b.score_key && (sa < sb || (sa == sb && i < j)))
}

/// Orders the users of a rank list: by score, highest first; among equal
/// scores by the tie breaker's value (submission position or count, smallest
/// first), or by user id when the tie breaker is the user id or absent; and
/// among those still equal, in the order they were given.
pub fn rank_order(entries: &Vec<RankEntry>, tie: Option<RankListTieBreaker>) -> (order: Vec<usize>)
    ensures
        is_permutation(order@, entries@.len()),
        is_rank_ordered(entries@, tie, order@),
{
    let n = entries.len();
    let mut order: Vec<usize> = Vec::new();
    let mut k: usize = 0;
    while k < n
        invariant
            n == entries.len(),
            k <= n,
            is_permutation(order@, k as nat),
            is_rank_ordered(entries@, tie, order@),
        decreases n - k,
    {
        let mut p: usize = 0;
        while p < k && listed_before(entries, tie, order[p], k)
            invariant
                n == entries.len(),
                k < n,
                p <= k,
                is_permutation(order@, k as nat),
                forall|q: int| 0 <= q < p ==> ranks_before(entries@, tie, #[trigger] order@[q] as int, k as int),
            decreases k - p,
        {
            p += 1;
        }
        let ghost old_order = order@;
        order.insert(p, k);
        proof {
            old_order.insert_ensures(p as int, k);
            let s = order@;
            assert forall|i: int| 0 <= i < s.len() implies #[trigger] s[i] < k + 1 by {
                if i < p {
                } else if i == p {
                } else {
                    assert(s[i] == old_order[i - 1]);
                }
            }
            assert forall|i: int, j: int| 0 <= i < j < s.len() implies s[i] != s[j] by {
                if j < p {
                } else if j == p {
                    assert(old_order[i] < k);
                } else if i == p {
                    assert(s[j] == old_order[j - 1]);
                } else if i < p {
                    assert(s[j] == old_order[j - 1]);
                } else {
                    assert(s[i] == old_order[i - 1]);
                    assert(s[j] == old_order[j - 1]);
                }
            }
            if p < k {
                assert(old_order[p as int] != k);
                assert(ranks_before(entries@, tie, k as int, old_order[p as int] as int));
            }
            assert forall|i: int, j: int| 0 <= i < j < s.len() implies ranks_before(
                entries@,
                tie,
                #[trigger] s[i] as int,
                #[trigger] s[j] as int,
            ) by {
                if j < p {
                    assert(ranks_before(entries@, tie, old_order[i] as int, old_order[j] as int));
                } else if j == p {
                    assert(s[i] == old_order[i]);
                } else if i == p {
                    assert(s[j] == old_order[j - 1]);
                    if j - 1 > p {
                        assert(ranks_before(entries@, tie, old_order[p as int] as int, old_order[j - 1] as int));
                    }
                } else if i < p {
                    assert(s[j] == old_order[j - 1]);
                    assert(ranks_before(entries@, tie, old_order[i] as int, old_order[j - 1] as int));
                } else {
                    assert(s[i] == old_order[i - 1]);
                    assert(s[j] == old_order[j - 1]);
                    assert(ranks_before(entries@, tie, old_order[i - 1] as int, old_order[j - 1] as int));
                }
            }
        }
        k += 1;
    }
    order
}

/// Gives each listed user a rank: the first is ranked 1; a user whose total
/// equals the one above (and, with the submission tie breakers, whose tie
/// breaker value equals it too) shares that user's rank; any other user is
/// ranked by position. With the user-id tie breaker no rank is shared.
pub fn assign_ranks(
    entries: &Vec<RankEntry>,
    tie: Option<RankListTieBreaker>,
    order: &Vec<usize>,
) -> (ranks: Vec<usize>)
    requires
        is_permutation(order@, entries@.len()),
    ensures
        is_ranking(entries@, tie, order@, ranks@),
{
    let n = order.len();
    let mut ranks: Vec<usize> = Vec::new();
    let mut i: usize = 0;
    while i < n
        invariant
            n == order.len(),
            n == entries.len(),
            i <= n,
            is_permutation(order@, entries@.len()),
            ranks@.len() == i,
            forall|j: int| 0 <= j < i ==> #[trigger] ranks@[j] <= j + 1,
            forall|j: int|
                0 <= j < i ==> #[trigger] ranks@[j] == (if j > 0 && shares_rank(
                    entries@[order@[j - 1] as int],
                    entries@[order@[j] as int],
                    tie,
                ) {
                    ranks@[j - 1] as int
                } else {
                    j + 1
                }),
        decreases n - i,
    {
        let mut r: usize = i + 1;
        if i > 0 {
            let a = entries[order[i - 1]];
            let b = entries[order[i]];
            let shared = match tie {
                None => a.score_class == b.score_class,
                Some(RankListTieBreaker::UserID) => false,
                Some(_) => a.score_class == b.score_class && a.tie_key == b.tie_key,
            };
            if shared {
                r = ranks[i - 1];
            }
        }
        ranks.push(r);
        i += 1;
    }
    ranks
}


/// The index of the last occurrence of `u` in `s`, if any.
pub open spec fn last_index_of(s: Seq<usize>, u: usize) -> Option<int>
    decreases s.len(),
{
    if s.len() == 0 {
        None
    } else if s.last() == u {
        Some(s.len() - 1)
    } else {
        last_index_of(s.drop_last(), u)
    }
}

/// The submission-time tie breaker's value for a user: the position of the
/// user's last entry in the submission log, or the log's length when the user
/// has none.
pub open spec fn submission_position(s: Seq<usize>, u: usize) -> int {
    match last_index_of(s, u) {
        Some(i) => i,
        None => s.len() as int,
    }
}

/// How many times `u` occurs in `s`.
pub open spec fn count_of(s: Seq<usize>, u: usize) -> nat
    decreases s.len(),
{
    if s.len() == 0 {
        0
    } else {
        count_of(s.drop_last(), u) + if s.last() == u { 1nat } else { 0nat }
    }
}

/// The users of the log entries that belong to contest `c`, in log order.
pub open spec fn contest_log(s: Seq<(usize, usize)>, c: usize) -> Seq<usize>
    decreases s.len(),
{
    if s.len() == 0 {
        Seq::<usize>::empty()
    } else if s.last().0 == c {
        contest_log(s.drop_last(), c).push(s.last().1)
    } else {
        contest_log(s.drop_last(), c)
    }
}

proof fn lemma_last_index_bounds(s: Seq<usize>, u: usize)
    ensures
        last_index_of(s, u) matches Some(i) ==> 0 <= i < s.len() && s[i] == u,
    decreases s.len(),
{
    if s.len() > 0 {
        lemma_last_index_bounds(s.drop_last(), u);
    }
}

/// The position of the user's last entry in a submission log (the user ids of
/// the submissions in the order they were judged), or the log's length when
/// the user has no entry.
pub fn submission_time_key(log: &Vec<usize>, user_id: usize) -> (r: usize)
    ensures
        r == submission_position(log@, user_id),
{
    let mut r: usize = log.len();
    let mut i: usize = 0;
    while i < log.len()
        invariant
            i <= log.len(),
            r == (match last_index_of(log@.take(i as int), user_id) {
                Some(j) => j,
                None => log.len() as int,
            }),
        decreases log.len() - i,
    {
        assert(log@.take(i + 1).drop_last() =~= log@.take(i as int));
        if log[i] == user_id {
            r = i;
        }
        i += 1;
    }
    assert(log@.take(log.len() as int) =~= log@);
    r
}

/// The number of the user's entries in a submission log.
pub fn submission_count_key(log: &Vec<usize>, user_id: usize) -> (r: usize)
    ensures
        r == count_of(log@, user_id),
{
    let mut r: usize = 0;
    let mut i: usize = 0;
    while i < log.len()
        invariant
            i <= log.len(),
            r == count_of(log@.take(i as int), user_id),
            r <= i,
        decreases log.len() - i,
    {
        assert(log@.take(i + 1).drop_last() =~= log@.take(i as int));
        if log[i] == user_id {
            r = r + 1;
        }
        i += 1;
    }
    assert(log@.take(log.len() as int) =~= log@);
    r
}

/// The users of the entries of a contest submission log (pairs of contest id
/// and user id) that belong to the given contest, in log order.
pub fn contest_submission_log(log: &Vec<(usize, usize)>, contest_id: usize) -> (r: Vec<usize>)
    ensures
        r@ == contest_log(log@, contest_id),
{
    let mut r: Vec<usize> = Vec::new();
    let mut i: usize = 0;
    while i < log.len()
        invariant
            i <= log.len(),
            r@ == contest_log(log@.take(i as int), contest_id),
        decreases log.len() - i,
    {
        assert(log@.take(i + 1).drop_last() =~= log@.take(i as int));
        let (c, u) = log[i];
        if c == contest_id {
            r.push(u);
        }
        i += 1;
    }
    assert(log@.take(log.len() as int) =~= log@);
    r
}

/// What the rank list needs of the record of one user on one problem: the
/// contest it belongs to (0 outside contests) and, for each of the user's
/// submissions in order, the key by which its score is compared (the score
/// scaled and truncated to an integer).
#[derive(Debug, Clone)]
pub struct ScoreRecordKey {
    pub contest_id: usize,
    pub user_id: usize,
    pub problem_id: usize,
    pub score_keys: Vec<i64>,
}

/// Whether a record is the one of user `u` on problem `p` (in contest `c`,
/// when one is given).
pub open spec fn record_matches(r: ScoreRecordKey, c: Option<usize>, u: usize, p: usize) -> bool {
    &&& r.user_id == u
    &&& r.problem_id == p
    &&& c matches Some(cid) ==> r.contest_id == cid
}

/// The index of the first record of user `u` on problem `p`.
pub open spec fn first_record(rs: Seq<ScoreRecordKey>, c: Option<usize>, u: usize, p: usize) -> Option<int>
    decreases rs.len(),
{
    if rs.len() == 0 {
        None
    } else {
        match first_record(rs.drop_last(), c, u, p) {
            Some(i) => Some(i),
            None => if record_matches(rs.last(), c, u, p) {
                Some(rs.len() - 1)
            } else {
                None
            },
        }
    }
}

/// The index of the last of the greatest keys.
pub open spec fn last_max_index(keys: Seq<i64>) -> int
    decreases keys.len(),
{
    if keys.len() <= 1 {
        0
    } else {
        let j = last_max_index(keys.drop_last());
        if keys.last() >= keys[j] {
            keys.len() - 1
        } else {
            j
        }
    }
}

/// The submission whose score counts: the latest one, or under the highest
/// rule the latest of those with the greatest key.
pub open spec fn chosen_score_index(keys: Seq<i64>, rule: Option<RankListScoringRule>) -> int {
    if rule == Some(RankListScoringRule::Highest) {
        last_max_index(keys)
    } else {
        keys.len() - 1
    }
}

/// The score that counts for user `u` on problem `p`: the record and the
/// submission within it, or none when the user has no record on the problem.
pub open spec fn chosen_score(
    rs: Seq<ScoreRecordKey>,
    c: Option<usize>,
    rule: Option<RankListScoringRule>,
    u: usize,
    p: usize,
) -> Option<(usize, usize)> {
    match first_record(rs, c, u, p) {
        Some(i) => Some((i as usize, chosen_score_index(rs[i].score_keys@, rule) as usize)),
        None => None,
    }
}

/// Every record that some user's score would be read from has a submission.
pub open spec fn chosen_records_nonempty(
    rs: Seq<ScoreRecordKey>,
    c: Option<usize>,
    users: Seq<usize>,
    problems: Seq<usize>,
) -> bool {
    forall|a: int, b: int|
        0 <= a < users.len() && 0 <= b < problems.len() ==> (#[trigger] first_record(rs, c, users[a], #[trigger] problems[b]) matches Some(
            i,
        ) ==> rs[i].score_keys@.len() > 0)
}

proof fn lemma_first_record_bounds(rs: Seq<ScoreRecordKey>, c: Option<usize>, u: usize, p: usize)
    ensures
        first_record(rs, c, u, p) matches Some(i) ==> 0 <= i < rs.len() && record_matches(rs[i], c, u, p),
        first_record(rs, c, u, p) is None ==> forall|j: int| 0 <= j < rs.len() ==> !record_matches(#[trigger] rs[j], c, u, p),
    decreases rs.len(),
{
    if rs.len() > 0 {
        lemma_first_record_bounds(rs.drop_last(), c, u, p);
        assert forall|j: int| 0 <= j < rs.len() - 1 implies rs.drop_last()[j] == rs[j] by {}
    }
}

proof fn lemma_last_max_bounds(keys: Seq<i64>)
    requires
        keys.len() > 0,
    ensures
        0 <= last_max_index(keys) < keys.len(),
    decreases keys.len(),
{
    if keys.len() > 1 {
        lemma_last_max_bounds(keys.drop_last());
    }
}

fn choose_score_index(keys: &Vec<i64>, rule: Option<RankListScoringRule>) -> (r: usize)
    requires
        keys.len() > 0,
    ensures
        r == chosen_score_index(keys@, rule),
        r < keys.len(),
{
    proof {
        lemma_last_max_bounds(keys@);
    }
    if rule == Some(RankListScoringRule::Highest) {
        let mut best: usize = 0;
        let mut i: usize = 1;
        while i < keys.len()
            invariant
                1 <= i <= keys.len(),
                best == last_max_index(keys@.take(i as int)),
                best < i,
            decreases keys.len() - i,
        {
            assert(keys@.take(i + 1).drop_last() =~= keys@.take(i as int));
            proof {
                lemma_last_max_bounds(keys@.take(i as int));
            }
            if keys[i] >= keys[best] {
                best = i;
            }
            i += 1;
        }
        assert(keys@.take(keys.len() as int) =~= keys@);
        best
    } else {
        keys.len() - 1
    }
}

fn find_record(records: &Vec<ScoreRecordKey>, contest: Option<usize>, user_id: usize, problem_id: usize) -> (r: Option<usize>)
    ensures
        r matches Some(i) ==> first_record(records@, contest, user_id, problem_id) == Some(i as int),
        r is None ==> first_record(records@, contest, user_id, problem_id) is None,
{
    let mut i: usize = 0;
    while i < records.len()
        invariant
            i <= records.len(),
            first_record(records@.take(i as int), contest, user_id, problem_id) is None,
        decreases records.len() - i,
    {
        assert(records@.take(i + 1).drop_last() =~= records@.take(i as int));
        let r = &records[i];
        let in_contest = match contest {
            Some(c) => r.contest_id == c,
            None => true,
        };
        if r.user_id == user_id && r.problem_id == problem_id && in_contest {
            proof {
                lemma_first_prefix(records@, contest, user_id, problem_id, i as int + 1);
            }
            return Some(i);
        }
        i += 1;
    }
    assert(records@.take(records.len() as int) =~= records@);
    None
}

/// A record found among the first `k` records is the first record overall.
proof fn lemma_first_prefix(rs: Seq<ScoreRecordKey>, c: Option<usize>, u: usize, p: usize, k: int)
    requires
        0 <= k <= rs.len(),
        first_record(rs.take(k), c, u, p) is Some,
    ensures
        first_record(rs, c, u, p) == first_record(rs.take(k), c, u, p),
    decreases rs.len() - k,
{
    if k < rs.len() {
        assert(rs.take(k + 1).drop_last() =~= rs.take(k));
        lemma_first_prefix(rs, c, u, p, k + 1);
    } else {
        assert(rs.take(k) =~= rs);
    }
}

/// For each user (in the given order) and each problem (in the given order),
/// which score counts: the index of the user's first record on the problem
/// (within the contest, when one is given) and of the submission chosen in it
/// by the scoring rule; none when the user has no such record, in which case
/// the user scores 0 on the problem.
pub fn score_table(
    records: &Vec<ScoreRecordKey>,
    contest: Option<usize>,
    users: &Vec<usize>,
    problems: &Vec<usize>,
    rule: Option<RankListScoringRule>,
) -> (table: Vec<Vec<Option<(usize, usize)>>>)
    requires
        chosen_records_nonempty(records@, contest, users@, problems@),
    ensures
        table@.len() == users@.len(),
        forall|a: int| 0 <= a < users@.len() ==> (#[trigger] table@[a])@.len() == problems@.len(),
        forall|a: int, b: int|
            #![trigger table@[a]@[b]]
            0 <= a < users@.len() && 0 <= b < problems@.len() ==> table@[a]@[b]
                == chosen_score(records@, contest, rule, users@[a], problems@[b]),
{
    let mut table: Vec<Vec<Option<(usize, usize)>>> = Vec::new();
    let mut a: usize = 0;
    while a < users.len()
        invariant
            a <= users.len(),
            chosen_records_nonempty(records@, contest, users@, problems@),
            table@.len() == a,
            forall|x: int| 0 <= x < a ==> (#[trigger] table@[x])@.len() == problems@.len(),
            forall|x: int, y: int|
                #![trigger table@[x]@[y]]
                0 <= x < a && 0 <= y < problems@.len() ==> table@[x]@[y]
                    == chosen_score(records@, contest, rule, users@[x], problems@[y]),
        decreases users.len() - a,
    {
        let mut row: Vec<Option<(usize, usize)>> = Vec::new();
        let mut b: usize = 0;
        while b < problems.len()
            invariant
                a < users.len(),
                b <= problems.len(),
                chosen_records_nonempty(records@, contest, users@, problems@),
                row@.len() == b,
                forall|y: int|
                    0 <= y < b ==> #[trigger] row@[y] == chosen_score(records@, contest, rule, users@[a as int], problems@[y]),
            decreases problems.len() - b,
        {
            let u = users[a];
            let p = problems[b];
            proof {
                lemma_first_record_bounds(records@, contest, u, p);
                assert(first_record(records@, contest, users@[a as int], problems@[b as int]) == first_record(records@, contest, u, p));
                assert(first_record(records@, contest, u, p) matches Some(j) ==> records@[j].score_keys@.len() > 0);
            }
            match find_record(records, contest, u, p) {
                Some(i) => {
                    proof {
                        let fr = first_record(records@, contest, u, p);
                        assert(fr is Some);
                        assert(fr->0 == i as int);
                        assert(records@[i as int].score_keys@.len() > 0);
                    }
                    let k = choose_score_index(&records[i].score_keys, rule);
                    row.push(Some((i, k)));
                    assert(row@[b as int] == chosen_score(records@, contest, rule, users@[a as int], problems@[b as int]));
                },
                None => {
                    row.push(None);
                },
            }
            b += 1;
        }
        table.push(row);
        a += 1;
    }
    table
}


/// The positions of the users whose id is among `members`, in order.
pub open spec fn member_positions(users: Seq<APIPostUsers>, members: Seq<usize>) -> Seq<usize>
    decreases users.len(),
{
    if users.len() == 0 {
        Seq::<usize>::empty()
    } else if members.contains(users.last().id->0) {
        member_positions(users.drop_last(), members).push((users.len() - 1) as usize)
    } else {
        member_positions(users.drop_last(), members)
    }
}

/// The users that take part in a contest: the positions of the users whose id
/// is among the contest's users, in the order the users are kept.
pub fn contest_members(users: &Vec<APIPostUsers>, members: &Vec<usize>) -> (r: Vec<usize>)
    requires
        forall|i: int| 0 <= i < users@.len() ==> (#[trigger] users@[i]).id is Some,
    ensures
        r@ == member_positions(users@, members@),
{
    let mut r: Vec<usize> = Vec::new();
    let mut i: usize = 0;
    while i < users.len()
        invariant
            i <= users.len(),
            forall|k: int| 0 <= k < users@.len() ==> (#[trigger] users@[k]).id is Some,
            r@ == member_positions(users@.take(i as int), members@),
        decreases users.len() - i,
    {
        assert(users@.take(i + 1).drop_last() =~= users@.take(i as int));
        let id = users[i].id.unwrap();
        let mut found = false;
        let mut k: usize = 0;
        while k < members.len()
            invariant
                k <= members.len(),
                found == members@.take(k as int).contains(id),
            decreases members.len() - k,
        {
            assert(members@.take(k + 1) =~= members@.take(k as int).push(members@[k as int]));
            if members[k] == id {
                found = true;
                assert(members@.take(k + 1)[k as int] == id);
            } else {
                assert(members@.take(k + 1).contains(id) ==> members@.take(k as int).contains(id)) by {
                    if members@.take(k + 1).contains(id) {
                        let q = choose|q: int| 0 <= q < k + 1 && #[trigger] members@.take(k + 1)[q] == id;
                        assert(q < k);
                        assert(members@.take(k as int)[q] == id);
                    }
                }
                assert(members@.take(k as int).contains(id) ==> members@.take(k + 1).contains(id)) by {
                    if members@.take(k as int).contains(id) {
                        let q = choose|q: int| 0 <= q < k && #[trigger] members@.take(k as int)[q] == id;
                        assert(members@.take(k + 1)[q] == id);
                    }
                }
            }
            k += 1;
        }
        assert(members@.take(members.len() as int) =~= members@);
        if found {
            r.push(i);
        }
        i += 1;
    }
    assert(users@.take(users.len() as int) =~= users@);
    r
}

/// The ids of all users, in order.
pub fn user_id_list(users: &Vec<APIPostUsers>) -> (r: Vec<usize>)
    requires
        forall|i: int| 0 <= i < users@.len() ==> (#[trigger] users@[i]).id is Some,
    ensures
        r@.len() == users@.len(),
        forall|i: int| 0 <= i < users@.len() ==> Some(#[trigger] r@[i]) == users@[i].id,
{
    let mut r: Vec<usize> = Vec::new();
    let mut i: usize = 0;
    while i < users.len()
        invariant
            i <= users.len(),
            forall|k: int| 0 <= k < users@.len() ==> (#[trigger] users@[k]).id is Some,
            r@.len() == i,
            forall|k: int| 0 <= k < i ==> Some(#[trigger] r@[k]) == users@[k].id,
        decreases users.len() - i,
    {
        r.push(users[i].id.unwrap());
        i += 1;
    }
    r
}

/// `s` is in increasing order.
pub open spec fn is_sorted(s: Seq<usize>) -> bool {
    forall|i: int, j: int| 0 <= i < j < s.len() ==> s[i] <= s[j]
}

proof fn lemma_insert_keeps_sorted(before: Seq<usize>, p: int, x: usize)
    requires
        is_sorted(before),
        0 <= p <= before.len(),
        forall|q: int| 0 <= q < p ==> before[q] <= x,
        p < before.len() ==> before[p] > x,
    ensures
        is_sorted(before.insert(p, x)),
{
    before.insert_ensures(p, x);
    let r = before.insert(p, x);
    assert forall|i: int, j: int| 0 <= i < j < r.len() implies r[i] <= r[j] by {
        if j < p {
        } else if j == p {
        } else if i == p {
            assert(r[j] == before[j - 1]);
            assert(before[p] <= before[j - 1]);
        } else if i < p {
            assert(r[j] == before[j - 1]);
        } else {
            assert(r[i] == before[i - 1]);
            assert(r[j] == before[j - 1]);
        }
    }
}

/// The ids in increasing order.
pub fn sorted_ids(ids: &Vec<usize>) -> (r: Vec<usize>)
    ensures
        is_sorted(r@),
        r@.to_multiset() == ids@.to_multiset(),
{
    let mut r: Vec<usize> = Vec::new();
    let mut k: usize = 0;
    assert(ids@.take(0) =~= r@);
    while k < ids.len()
        invariant
            k <= ids.len(),
            is_sorted(r@),
            r@.to_multiset() == ids@.take(k as int).to_multiset(),
        decreases ids.len() - k,
    {
        let x = ids[k];
        let mut p: usize = 0;
        while p < r.len() && r[p] <= x
            invariant
                p <= r@.len(),
                forall|q: int| 0 <= q < p ==> r@[q] <= x,
            decreases r@.len() - p,
        {
            p += 1;
        }
        let ghost before = r@;
        r.insert(p, x);
        proof {
            lemma_insert_keeps_sorted(before, p as int, x);
            vstd::seq_lib::to_multiset_insert(before, p as int, x);
            assert(ids@.take(k + 1) =~= ids@.take(k as int).push(x));
            vstd::seq_lib::to_multiset_build(ids@.take(k as int), x);
        }
        k += 1;
    }
    assert(ids@.take(ids.len() as int) =~= ids@);
    r
}

/// The tie breaker's value for user `u` (0 when the tie breaker does not use
/// one): under submission time, the user's position in the log of best
/// submissions when the score is the highest, else in the log
/// of all submissions; under submission count, the number of the user's
/// entries in the log of all submissions. Within a contest, the logs are
/// those of the contest.
pub open spec fn tie_key_of(
    rec: SubmissionRecords,
    contest: Option<usize>,
    rule: Option<RankListScoringRule>,
    tie: Option<RankListTieBreaker>,
    u: usize,
) -> int {
    let highest_log = match contest {
        Some(c) => contest_log(rec.contest_highest_user_submit@, c),
        None => rec.highest_user_submit@,
    };
    let all_log = match contest {
        Some(c) => contest_log(rec.contest_all_user_submit@, c),
        None => rec.all_user_submit@,
    };
    match tie {
        Some(RankListTieBreaker::SubmissionTime) => submission_position(
            if rule == Some(RankListScoringRule::Highest) { highest_log } else { all_log },
            u,
        ),
        Some(RankListTieBreaker::SubmissionCount) => count_of(all_log, u) as int,
        _ => 0,
    }
}

/// The tie breaker's value for each user, in order.
pub fn tie_keys(
    rec: &SubmissionRecords,
    contest: Option<usize>,
    rule: Option<RankListScoringRule>,
    tie: Option<RankListTieBreaker>,
    user_ids: &Vec<usize>,
) -> (r: Vec<usize>)
    ensures
        r@.len() == user_ids@.len(),
        forall|i: int| 0 <= i < user_ids@.len() ==> #[trigger] r@[i] == tie_key_of(*rec, contest, rule, tie, user_ids@[i]),
{
    let highest_log = match contest {
        Some(c) => contest_submission_log(&rec.contest_highest_user_submit, c),
        None => copy_log(&rec.highest_user_submit),
    };
    let all_log = match contest {
        Some(c) => contest_submission_log(&rec.contest_all_user_submit, c),
        None => copy_log(&rec.all_user_submit),
    };
    let mut r: Vec<usize> = Vec::new();
    let mut i: usize = 0;
    while i < user_ids.len()
        invariant
            i <= user_ids.len(),
            highest_log@ == (match contest {
                Some(c) => contest_log(rec.contest_highest_user_submit@, c),
                None => rec.highest_user_submit@,
            }),
            all_log@ == (match contest {
                Some(c) => contest_log(rec.contest_all_user_submit@, c),
                None => rec.all_user_submit@,
            }),
            r@.len() == i,
            forall|k: int| 0 <= k < i ==> #[trigger] r@[k] == tie_key_of(*rec, contest, rule, tie, user_ids@[k]),
        decreases user_ids.len() - i,
    {
        let u = user_ids[i];
        let key = match tie {
            Some(RankListTieBreaker::SubmissionTime) => {
                if rule == Some(RankListScoringRule::Highest) {
                    submission_time_key(&highest_log, u)
                } else {
                    submission_time_key(&all_log, u)
                }
            },
            Some(RankListTieBreaker::SubmissionCount) => submission_count_key(&all_log, u),
            _ => 0,
        };
        r.push(key);
        i += 1;
    }
    r
}

fn copy_log(v: &Vec<usize>) -> (r: Vec<usize>)
    ensures
        r@ == v@,
{
    let mut r: Vec<usize> = Vec::new();
    let mut i: usize = 0;
    while i < v.len()
        invariant
            i <= v.len(),
            r@ == v@.take(i as int),
        decreases v.len() - i,
    {
        r.push(v[i]);
        assert(v@.take(i + 1) =~= v@.take(i as int).push(v@[i as int]));
        i += 1;
    }
    assert(v@.take(v.len() as int) =~= v@);
    r
}


/// The records on problem `p` that hold case times (an accepted submission).
pub open spec fn timed_records(rs: Seq<RecordUserProblem>, p: usize) -> Seq<RecordUserProblem>
    decreases rs.len(),
{
    if rs.len() == 0 {
        Seq::<RecordUserProblem>::empty()
    } else if rs.last().problem_id == p && rs.last().min_time@.len() != 0 {
        timed_records(rs.drop_last(), p).push(rs.last())
    } else {
        timed_records(rs.drop_last(), p)
    }
}

/// The least time of case `j` among the records.
pub open spec fn least_time(ts: Seq<RecordUserProblem>, j: int) -> int
    decreases ts.len(),
{
    if ts.len() <= 1 {
        ts[0].min_time@[j] as int
    } else {
        let rest = least_time(ts.drop_last(), j);
        if (ts.last().min_time@[j] as int) < rest {
            ts.last().min_time@[j] as int
        } else {
            rest
        }
    }
}

/// Every timed record has at least as many case times as the first one.
pub open spec fn times_aligned(ts: Seq<RecordUserProblem>) -> bool {
    ts.len() > 0 ==> forall|i: int| 0 <= i < ts.len() ==> (#[trigger] ts[i]).min_time@.len() >= ts[0].min_time@.len()
}

proof fn lemma_timed_prefix(rs: Seq<RecordUserProblem>, p: usize, k: int)
    requires
        0 <= k < rs.len(),
    ensures
        timed_records(rs.take(k + 1), p) == (if rs[k].problem_id == p && rs[k].min_time@.len() != 0 {
            timed_records(rs.take(k), p).push(rs[k])
        } else {
            timed_records(rs.take(k), p)
        }),
{
    assert(rs.take(k + 1).drop_last() =~= rs.take(k));
}

/// For a problem scored by running time, the fastest time of each case among
/// the users' latest accepted submissions: none when no user has one.
pub fn fastest_case_times(records: &Vec<RecordUserProblem>, problem_id: usize) -> (r: Option<Vec<usize>>)
    requires
        times_aligned(timed_records(records@, problem_id)),
    ensures
        timed_records(records@, problem_id).len() == 0 ==> r is None,
        timed_records(records@, problem_id).len() > 0 ==> {
            let ts = timed_records(records@, problem_id);
            &&& r is Some
            &&& r->0@.len() == ts[0].min_time@.len()
            &&& forall|j: int| 0 <= j < ts[0].min_time@.len() ==> #[trigger] r->0@[j] == least_time(ts, j)
        },
{
    let ghost all = timed_records(records@, problem_id);
    let mut best: Vec<usize> = Vec::new();
    let mut started = false;
    let mut i: usize = 0;
    assert(records@.take(0) =~= Seq::<RecordUserProblem>::empty());
    while i < records.len()
        invariant
            i <= records.len(),
            all == timed_records(records@, problem_id),
            times_aligned(all),
            started == (timed_records(records@.take(i as int), problem_id).len() > 0),
            started ==> {
                let ts = timed_records(records@.take(i as int), problem_id);
                &&& best@.len() == ts[0].min_time@.len()
                &&& forall|j: int| 0 <= j < best@.len() ==> #[trigger] best@[j] == least_time(ts, j)
            },
            timed_records(records@.take(i as int), problem_id).len() <= all.len(),
            forall|q: int| 0 <= q < timed_records(records@.take(i as int), problem_id).len() ==>
                #[trigger] timed_records(records@.take(i as int), problem_id)[q] == all[q],
        decreases records.len() - i,
    {
        proof {
            lemma_timed_prefix(records@, problem_id, i as int);
            lemma_timed_is_prefix(records@, problem_id, i as int + 1);
        }
        let rec = &records[i];
        if rec.problem_id == problem_id && rec.min_time.len() != 0 {
            let ghost ts = timed_records(records@.take(i + 1), problem_id);
            if !started {
                best = copy_log(&rec.min_time);
                started = true;
                proof {
                    assert(ts.len() == 1);
                    assert forall|j: int| 0 <= j < best@.len() implies #[trigger] best@[j] == least_time(ts, j) by {}
                }
            } else {
                proof {
                    assert(ts.last() == all[ts.len() - 1]);
                    assert(ts[0] == all[0]);
                }
                let ghost prev = best@;
                let mut j: usize = 0;
                while j < best.len()
                    invariant
                        j <= best@.len(),
                        best@.len() == prev.len(),
                        prev.len() <= rec.min_time@.len(),
                        forall|q: int| 0 <= q < j ==> #[trigger] best@[q] == (if (rec.min_time@[q] as int) < prev[q] {
                            rec.min_time@[q] as int
                        } else {
                            prev[q] as int
                        }),
                        forall|q: int| j <= q < best@.len() ==> #[trigger] best@[q] == prev[q],
                    decreases best@.len() - j,
                {
                    if rec.min_time[j] < best[j] {
                        best.set(j, rec.min_time[j]);
                    }
                    j += 1;
                }
                proof {
                    assert(ts.drop_last() == timed_records(records@.take(i as int), problem_id));
                    assert forall|q: int| 0 <= q < best@.len() implies #[trigger] best@[q] == least_time(ts, q) by {
                        assert(ts.drop_last()[0] == ts[0]);
                    }
                }
            }
        }
        i += 1;
    }
    assert(records@.take(records.len() as int) =~= records@);
    if started {
        Some(best)
    } else {
        None
    }
}

/// The timed records of a prefix come first among all timed records.
proof fn lemma_timed_is_prefix(rs: Seq<RecordUserProblem>, p: usize, k: int)
    requires
        0 <= k <= rs.len(),
    ensures
        timed_records(rs.take(k), p).len() <= timed_records(rs, p).len(),
        forall|q: int| 0 <= q < timed_records(rs.take(k), p).len() ==>
            #[trigger] timed_records(rs.take(k), p)[q] == timed_records(rs, p)[q],
    decreases rs.len() - k,
{
    if k < rs.len() {
        lemma_timed_prefix(rs, p, k);
        lemma_timed_is_prefix(rs, p, k + 1);
        assert forall|q: int| 0 <= q < timed_records(rs.take(k), p).len() implies
            #[trigger] timed_records(rs.take(k), p)[q] == timed_records(rs, p)[q] by {
            assert(timed_records(rs.take(k), p)[q] == timed_records(rs.take(k + 1), p)[q]);
        }
    } else {
        assert(rs.take(k) =~= rs);
    }
}

/// How a user is scored on a problem scored by running time.
#[derive(Debug, Clone)]
pub enum RatioChoice {
    /// By the case times of this record (the user's first record on the
    /// problem that holds case times).
    Timed(usize),
    /// By the scores of these records (all the user's records on the problem;
    /// none of them holds case times).
    Untimed(Vec<usize>),
    /// The user has no record on the problem and scores 0.
    Absent,
}

/// The positions of the records of user `u` on problem `p`, in order.
pub open spec fn user_records(rs: Seq<RecordUserProblem>, u: usize, p: usize) -> Seq<usize>
    decreases rs.len(),
{
    if rs.len() == 0 {
        Seq::<usize>::empty()
    } else if rs.last().user_id == u && rs.last().problem_id == p {
        user_records(rs.drop_last(), u, p).push((rs.len() - 1) as usize)
    } else {
        user_records(rs.drop_last(), u, p)
    }
}

/// The first record of user `u` on problem `p` that holds case times.
pub open spec fn first_timed(rs: Seq<RecordUserProblem>, u: usize, p: usize) -> Option<int>
    decreases rs.len(),
{
    if rs.len() == 0 {
        None
    } else {
        match first_timed(rs.drop_last(), u, p) {
            Some(i) => Some(i),
            None => if rs.last().user_id == u && rs.last().problem_id == p && rs.last().min_time@.len() != 0 {
                Some(rs.len() - 1)
            } else {
                None
            },
        }
    }
}

proof fn lemma_first_timed_bounds(rs: Seq<RecordUserProblem>, u: usize, p: usize)
    ensures
        first_timed(rs, u, p) matches Some(i) ==> 0 <= i < rs.len(),
    decreases rs.len(),
{
    if rs.len() > 0 {
        lemma_first_timed_bounds(rs.drop_last(), u, p);
    }
}

/// Decides how user `user_id` is scored on problem `problem_id`, scored by
/// running time: by the first of the user's records on it that holds case
/// times; else by the scores of all the user's records on it; else not at
/// all.
pub fn ratio_choice(records: &Vec<RecordUserProblem>, problem_id: usize, user_id: usize) -> (r: RatioChoice)
    ensures
        match first_timed(records@, user_id, problem_id) {
            Some(i) => r matches RatioChoice::Timed(k) && k == i,
            None => if user_records(records@, user_id, problem_id).len() > 0 {
                r matches RatioChoice::Untimed(v) && v@ == user_records(records@, user_id, problem_id)
            } else {
                r matches RatioChoice::Absent
            },
        },
{
    let mut timed: Option<usize> = None;
    let mut all: Vec<usize> = Vec::new();
    let mut i: usize = 0;
    while i < records.len()
        invariant
            i <= records.len(),
            all@ == user_records(records@.take(i as int), user_id, problem_id),
            match first_timed(records@.take(i as int), user_id, problem_id) {
                Some(k) => timed == Some(k as usize),
                None => timed is None,
            },
            forall|k: int| 0 <= k < i ==> (#[trigger] records@[k]).min_time@.len() != 0 && records@[k].user_id == user_id
                && records@[k].problem_id == problem_id ==> timed is Some,
            timed matches Some(k) ==> k < i,
        decreases records.len() - i,
    {
        assert(records@.take(i + 1).drop_last() =~= records@.take(i as int));
        proof {
            lemma_first_timed_bounds(records@.take(i as int), user_id, problem_id);
            lemma_first_timed_bounds(records@.take(i + 1), user_id, problem_id);
        }
        let rec = &records[i];
        if rec.user_id == user_id && rec.problem_id == problem_id {
            all.push(i);
            if rec.min_time.len() != 0 && timed.is_none() {
                timed = Some(i);
            }
        }
        i += 1;
    }
    assert(records@.take(records.len() as int) =~= records@);
    proof {
        lemma_first_timed_bounds(records@, user_id, problem_id);
    }
    match timed {
        Some(k) => RatioChoice::Timed(k),
        None => if all.len() > 0 {
            RatioChoice::Untimed(all)
        } else {
            RatioChoice::Absent
        },
    }
}


/// Which rank list is given.
#[derive(Debug, Clone)]
pub enum RankListSource {
    /// The list scored by running time, over the problems at these positions
    /// of the configuration (those that have a dynamic ranking ratio).
    DynamicRanking(Vec<usize>),
    /// The list of all users or of a contest's users.
    ContestList,
}

/// The positions at which `flags` is true, in order.
pub open spec fn true_positions(flags: Seq<bool>) -> Seq<usize>
    decreases flags.len(),
{
    if flags.len() == 0 {
        Seq::<usize>::empty()
    } else if flags.last() {
        true_positions(flags.drop_last()).push((flags.len() - 1) as usize)
    } else {
        true_positions(flags.drop_last())
    }
}

/// Chooses the rank list: when some configured problem has a dynamic ranking
/// ratio (`has_ratio` tells which, in configuration order), the list scored
/// by running time over those problems, whatever contest is asked for;
/// otherwise the contest's list.
pub fn rank_list_source(has_ratio: &Vec<bool>) -> (r: RankListSource)
    ensures
        true_positions(has_ratio@).len() > 0 ==> (r matches RankListSource::DynamicRanking(v) && v@ == true_positions(
            has_ratio@,
        )),
        true_positions(has_ratio@).len() == 0 ==> r matches RankListSource::ContestList,
{
    let mut v: Vec<usize> = Vec::new();
    let mut i: usize = 0;
    while i < has_ratio.len()
        invariant
            i <= has_ratio.len(),
            v@ == true_positions(has_ratio@.take(i as int)),
        decreases has_ratio.len() - i,
    {
        assert(has_ratio@.take(i + 1).drop_last() =~= has_ratio@.take(i as int));
        if has_ratio[i] {
            v.push(i);
        }
        i += 1;
    }
    assert(has_ratio@.take(has_ratio.len() as int) =~= has_ratio@);
    if v.len() > 0 {
        RankListSource::DynamicRanking(v)
    } else {
        RankListSource::ContestList
    }
}

} // verus!
