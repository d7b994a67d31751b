use vstd::prelude::*;
use crate::api_analysis::{job_matches, matching_jobs, APIPostResponse, APIPostUsers, GetJobInfo, RankListTieBreaker};
use crate::config_analysis::{
    is_line_end_blank, join_lines, lemma_split_lines_nonempty, split_lines, standardized, trim_line_end,
    trim_trailing_newlines,
};
use crate::ranking::{is_permutation, is_rank_ordered, is_ranking, ranks_before, shares_rank, RankEntry};
use crate::records::{filed_user_record, first_user_record, RecordUserProblem};
use crate::trail_terminal::{after_case, first_failure, following_step, step_after_cases, JudgeStep};
use crate::api_analysis::APIPostResponseResult;

verus! {

/// The standard comparison does not see newlines at the end of an output:
/// a text with one more newline at its end reads the same.
pub proof fn standard_ignores_final_newline(s: Seq<char>)
    ensures
        standardized(s.push('\n')) == standardized(s),
{
    let f = |l: Seq<char>| trim_line_end(l);
    let ls = split_lines(s);
    lemma_split_lines_nonempty(s);
    assert(s.push('\n').drop_last() =~= s);
    assert(split_lines(s.push('\n')) == ls.push(Seq::<char>::empty()));
    let m = ls.map_values(f);
    assert(ls.push(Seq::<char>::empty()).map_values(f) =~= m.push(Seq::<char>::empty()));
    assert(m.push(Seq::<char>::empty()).drop_last() =~= m);
    assert(join_lines(m.push(Seq::<char>::empty())) =~= join_lines(m).push('\n'));
    assert(join_lines(m).push('\n').drop_last() =~= join_lines(m));
}

/// A normalised text never ends with a newline.
pub proof fn standard_has_no_final_newline(s: Seq<char>)
    ensures
        standardized(s).len() == 0 || standardized(s).last() != '\n',
{
    lemma_trimmed_newlines_end(join_lines(split_lines(s).map_values(|l: Seq<char>| trim_line_end(l))));
}

/// Normalising a normalised text changes nothing.
pub proof fn standard_is_idempotent(s: Seq<char>)
    ensures
        standardized(standardized(s)) == standardized(s),
{
    let f = |l: Seq<char>| trim_line_end(l);
    let m = split_lines(s).map_values(f);
    lemma_split_lines_nonempty(s);
    lemma_split_lines_plain(s);
    assert forall|i: int| 0 <= i < m.len() implies plain_trimmed_line(#[trigger] m[i]) by {
        lemma_trim_line_end_plain(split_lines(s)[i]);
    }
    let p = drop_empty_tail(m);
    lemma_drop_empty_tail(m);
    let t = standardized(s);
    assert(t == join_lines(p));
    lemma_split_join(p);
    assert(p.map_values(f) =~= p) by {
        assert forall|i: int| 0 <= i < p.len() implies #[trigger] p.map_values(f)[i] == p[i] by {
            assert(plain_trimmed_line(p[i]));
        }
    }
    lemma_drop_empty_tail(p);
    assert(drop_empty_tail(p) == p);
}

/// The text with every newline written as a carriage return and a newline.
pub open spec fn with_crlf(s: Seq<char>) -> Seq<char>
    decreases s.len(),
{
    if s.len() == 0 {
        Seq::<char>::empty()
    } else if s.last() == '\n' {
        with_crlf(s.drop_last()) + seq!['\r', '\n']
    } else {
        with_crlf(s.drop_last()).push(s.last())
    }
}

/// The standard comparison reads a text with Windows line ends as the same
/// text with Unix line ends.
pub proof fn standard_ignores_carriage_returns(s: Seq<char>)
    ensures
        standardized(with_crlf(s)) == standardized(s),
{
    let f = |l: Seq<char>| trim_line_end(l);
    let ls = split_lines(s);
    lemma_split_crlf(s);
    lemma_split_lines_nonempty(s);
    assert(split_lines(with_crlf(s)).map_values(f) =~= ls.map_values(f)) by {
        assert forall|i: int| 0 <= i < ls.len() implies #[trigger] split_lines(with_crlf(s)).map_values(f)[i]
            == ls.map_values(f)[i] by {
            if i < ls.len() - 1 {
                assert(ls[i].push('\r').drop_last() =~= ls[i]);
            }
        }
    }
}

/// The lines with a carriage return added at the end of all but the last.
pub open spec fn cr_before_breaks(ls: Seq<Seq<char>>) -> Seq<Seq<char>> {
    Seq::new(ls.len(), |i: int| if i < ls.len() - 1 { ls[i].push('\r') } else { ls[i] })
}

proof fn lemma_split_crlf(s: Seq<char>)
    ensures
        split_lines(with_crlf(s)) == cr_before_breaks(split_lines(s)),
    decreases s.len(),
{
    if s.len() == 0 {
        assert(cr_before_breaks(split_lines(s)) =~= seq![Seq::<char>::empty()]);
    } else {
        let s2 = s.drop_last();
        let w = with_crlf(s2);
        let l2 = split_lines(s2);
        lemma_split_crlf(s2);
        lemma_split_lines_nonempty(s2);
        let g2 = cr_before_breaks(l2);
        if s.last() == '\n' {
            let y = w + seq!['\r', '\n'];
            assert(y.drop_last() =~= w.push('\r'));
            assert(w.push('\r').drop_last() =~= w);
            let prev = split_lines(w);
            assert(split_lines(w.push('\r')) == prev.update(prev.len() - 1, prev.last().push('\r')));
            assert(split_lines(y) == split_lines(w.push('\r')).push(Seq::<char>::empty()));
            assert(split_lines(s) == l2.push(Seq::<char>::empty()));
            assert(g2.update(g2.len() - 1, g2.last().push('\r')).push(Seq::<char>::empty()) =~= cr_before_breaks(
                l2.push(Seq::<char>::empty()),
            ));
        } else {
            let y = w.push(s.last());
            assert(y.drop_last() =~= w);
            assert(split_lines(s) == l2.update(l2.len() - 1, l2.last().push(s.last())));
            assert(g2.update(g2.len() - 1, g2.last().push(s.last())) =~= cr_before_breaks(
                l2.update(l2.len() - 1, l2.last().push(s.last())),
            ));
        }
    }
}

/// A line that holds no newline and does not end in a space or carriage return.
pub open spec fn plain_trimmed_line(l: Seq<char>) -> bool {
    &&& forall|i: int| 0 <= i < l.len() ==> #[trigger] l[i] != '\n'
    &&& trim_line_end(l) == l
}

/// The lines without the empty lines at their end, keeping at least one.
pub open spec fn drop_empty_tail(ls: Seq<Seq<char>>) -> Seq<Seq<char>>
    decreases ls.len(),
{
    if ls.len() > 1 && ls.last().len() == 0 {
        drop_empty_tail(ls.drop_last())
    } else {
        ls
    }
}

proof fn lemma_trimmed_newlines_end(x: Seq<char>)
    ensures
        trim_trailing_newlines(x).len() == 0 || trim_trailing_newlines(x).last() != '\n',
    decreases x.len(),
{
    if x.len() > 0 && x.last() == '\n' {
        lemma_trimmed_newlines_end(x.drop_last());
    }
}

/// No line of `split_lines` holds a newline.
proof fn lemma_split_lines_plain(s: Seq<char>)
    ensures
        forall|i: int, j: int|
            0 <= i < split_lines(s).len() && 0 <= j < split_lines(s)[i].len() ==> #[trigger] split_lines(s)[i][j] != '\n',
    decreases s.len(),
{
    if s.len() > 0 {
        lemma_split_lines_plain(s.drop_last());
        lemma_split_lines_nonempty(s.drop_last());
    }
}

proof fn lemma_trim_line_end_prefix(l: Seq<char>)
    ensures
        trim_line_end(l).len() <= l.len(),
        forall|j: int| 0 <= j < trim_line_end(l).len() ==> #[trigger] trim_line_end(l)[j] == l[j],
        trim_line_end(trim_line_end(l)) == trim_line_end(l),
    decreases l.len(),
{
    if l.len() > 0 && is_line_end_blank(l.last()) {
        lemma_trim_line_end_prefix(l.drop_last());
    }
}

proof fn lemma_trim_line_end_plain(l: Seq<char>)
    requires
        forall|j: int| 0 <= j < l.len() ==> #[trigger] l[j] != '\n',
    ensures
        plain_trimmed_line(trim_line_end(l)),
{
    lemma_trim_line_end_prefix(l);
    assert forall|j: int| 0 <= j < trim_line_end(l).len() implies #[trigger] trim_line_end(l)[j] != '\n' by {
        assert(l[j] != '\n');
    }
}

/// Cutting the newlines at the end of the joined lines drops the empty lines
/// at the end; the lines kept are plain and trimmed, and the last kept one is
/// not empty unless it is the only one.
proof fn lemma_drop_empty_tail(m: Seq<Seq<char>>)
    requires
        m.len() >= 1,
        forall|i: int| 0 <= i < m.len() ==> plain_trimmed_line(#[trigger] m[i]),
    ensures
        trim_trailing_newlines(join_lines(m)) == join_lines(drop_empty_tail(m)),
        drop_empty_tail(m).len() >= 1,
        drop_empty_tail(m).len() <= m.len(),
        forall|i: int| 0 <= i < drop_empty_tail(m).len() ==> #[trigger] drop_empty_tail(m)[i] == m[i],
        drop_empty_tail(m).len() == 1 || drop_empty_tail(m).last().len() > 0,
        drop_empty_tail(drop_empty_tail(m)) == drop_empty_tail(m),
    decreases m.len(),
{
    if m.len() > 1 && m.last().len() == 0 {
        let m2 = m.drop_last();
        assert forall|i: int| 0 <= i < m2.len() implies plain_trimmed_line(#[trigger] m2[i]) by {
            assert(m2[i] == m[i]);
        }
        lemma_drop_empty_tail(m2);
        assert(join_lines(m) =~= join_lines(m2).push('\n'));
        assert(join_lines(m2).push('\n').drop_last() =~= join_lines(m2));
    } else if m.len() > 1 {
        let l = m.last();
        assert(plain_trimmed_line(m[m.len() - 1]));
        assert(join_lines(m).last() == l.last());
        assert(l[l.len() - 1] != '\n');
    } else {
        assert(join_lines(m) == m[0]);
        assert(plain_trimmed_line(m[0]));
        if m[0].len() > 0 {
            assert(m[0][m[0].len() - 1] != '\n');
        }
    }
}

/// A text without newlines is one line.
proof fn lemma_split_plain(x: Seq<char>)
    requires
        forall|j: int| 0 <= j < x.len() ==> #[trigger] x[j] != '\n',
    ensures
        split_lines(x) == seq![x],
    decreases x.len(),
{
    if x.len() > 0 {
        lemma_split_plain(x.drop_last());
        assert(x.last() == x[x.len() - 1]);
        assert(x.drop_last().push(x.last()) =~= x);
        assert(seq![x.drop_last()].update(0, x.drop_last().push(x.last())) =~= seq![x]);
    } else {
        assert(x =~= Seq::<char>::empty());
    }
}

/// Splitting `a`, a newline and a line `b` gives the lines of `a` and then `b`.
proof fn lemma_split_after_newline(a: Seq<char>, b: Seq<char>)
    requires
        forall|j: int| 0 <= j < b.len() ==> #[trigger] b[j] != '\n',
    ensures
        split_lines(a + seq!['\n'] + b) == split_lines(a).push(b),
    decreases b.len(),
{
    let x = a + seq!['\n'] + b;
    if b.len() == 0 {
        assert(x =~= a.push('\n'));
        assert(x.drop_last() =~= a);
        assert(x.last() == '\n');
        assert(split_lines(x) == split_lines(a).push(Seq::<char>::empty()));
        assert(b =~= Seq::<char>::empty());
    } else {
        let b2 = b.drop_last();
        lemma_split_after_newline(a, b2);
        assert(x.drop_last() =~= a + seq!['\n'] + b2);
        assert(b.last() == b[b.len() - 1]);
        assert(x.last() == b.last());
        assert(x.last() != '\n');
        let prev = split_lines(a).push(b2);
        assert(split_lines(x.drop_last()) == prev);
        assert(split_lines(x) == prev.update(prev.len() - 1, prev.last().push(x.last())));
        assert(b2.push(b.last()) =~= b);
        assert(prev.update(prev.len() - 1, prev.last().push(b.last())) =~= split_lines(a).push(b));
    }
}

/// Splitting joined plain lines gives the lines back.
proof fn lemma_split_join(p: Seq<Seq<char>>)
    requires
        p.len() >= 1,
        forall|i: int| 0 <= i < p.len() ==> plain_trimmed_line(#[trigger] p[i]),
    ensures
        split_lines(join_lines(p)) == p,
    decreases p.len(),
{
    if p.len() == 1 {
        assert(plain_trimmed_line(p[0]));
        lemma_split_plain(p[0]);
        assert(seq![p[0]] =~= p);
    } else {
        let p2 = p.drop_last();
        assert forall|i: int| 0 <= i < p2.len() implies plain_trimmed_line(#[trigger] p2[i]) by {
            assert(p2[i] == p[i]);
        }
        lemma_split_join(p2);
        assert(plain_trimmed_line(p[p.len() - 1]));
        lemma_split_after_newline(join_lines(p2), p.last());
        assert(p2.push(p.last()) =~= p);
    }
}

/// A filter that gives no field lets every job through.
pub proof fn empty_filter_matches_all(info: GetJobInfo, users: Seq<APIPostUsers>, job: APIPostResponse)
    requires
        info.user_id is None,
        info.user_name is None,
        info.contest_id is None,
        info.problem_id is None,
        info.language is None,
        info.from is None,
        info.to is None,
        info.state is None,
        info.result is None,
    ensures
        job_matches(info, users, job),
{
}

/// A job listing whose filter gives no field lists every job, in order.
pub proof fn empty_filter_lists_all(info: GetJobInfo, users: Seq<APIPostUsers>, jobs: Seq<APIPostResponse>)
    requires
        info.user_id is None,
        info.user_name is None,
        info.contest_id is None,
        info.problem_id is None,
        info.language is None,
        info.from is None,
        info.to is None,
        info.state is None,
        info.result is None,
        jobs.len() <= usize::MAX,
    ensures
        matching_jobs(info, users, jobs) == Seq::new(jobs.len(), |i: int| i as usize),
    decreases jobs.len(),
{
    if jobs.len() > 0 {
        empty_filter_lists_all(info, users, jobs.drop_last());
        assert(job_matches(info, users, jobs.last()));
        assert(matching_jobs(info, users, jobs) =~= Seq::new(jobs.len(), |i: int| i as usize));
    } else {
        assert(matching_jobs(info, users, jobs) =~= Seq::new(jobs.len(), |i: int| i as usize));
    }
}

/// In a rank list a user with a higher score is listed above a user with a
/// lower one.
pub proof fn higher_score_listed_first(
    es: Seq<RankEntry>,
    tie: Option<RankListTieBreaker>,
    order: Seq<usize>,
    i: int,
    j: int,
)
    requires
        is_permutation(order, es.len()),
        is_rank_ordered(es, tie, order),
        0 <= i < order.len(),
        0 <= j < order.len(),
        es[order[i] as int].score_key > es[order[j] as int].score_key,
    ensures
        i < j,
{
    if j < i {
        assert(ranks_before(es, tie, order[j] as int, order[i] as int));
    }
}

/// The order of a rank list is determined by its entries and tie breaker: two
/// orders of the same entries that both list each entry once and both follow
/// the rank-list order are the same.
pub proof fn rank_order_is_unique(
    es: Seq<RankEntry>,
    tie: Option<RankListTieBreaker>,
    p: Seq<usize>,
    q: Seq<usize>,
)
    requires
        is_permutation(p, es.len()),
        is_permutation(q, es.len()),
        is_rank_ordered(es, tie, p),
        is_rank_ordered(es, tie, q),
    ensures
        p == q,
{
    if p.len() > 0 {
        lemma_orders_agree(es, tie, p, q, p.len() - 1);
    }
    assert(p =~= q);
}

proof fn lemma_orders_agree(
    es: Seq<RankEntry>,
    tie: Option<RankListTieBreaker>,
    p: Seq<usize>,
    q: Seq<usize>,
    k: int,
)
    requires
        is_permutation(p, es.len()),
        is_permutation(q, es.len()),
        is_rank_ordered(es, tie, p),
        is_rank_ordered(es, tie, q),
        0 <= k < p.len(),
    ensures
        forall|i: int| 0 <= i <= k ==> p[i] == q[i],
    decreases k,
{
    if k > 0 {
        lemma_orders_agree(es, tie, p, q, k - 1);
    }
    if p[k] != q[k] {
        lemma_permutation_covers(q, es.len(), p[k]);
        let m = choose|m: int| 0 <= m < q.len() && q[m] == p[k];
        if m < k {
            assert(p[m] == q[m]);
        }
        assert(m > k);
        assert(ranks_before(es, tie, q[k] as int, q[m] as int));
        lemma_permutation_covers(p, es.len(), q[k]);
        let m2 = choose|m2: int| 0 <= m2 < p.len() && p[m2] == q[k];
        if m2 < k {
            assert(p[m2] == q[m2]);
        }
        assert(m2 > k);
        assert(ranks_before(es, tie, p[k] as int, p[m2] as int));
    }
}

/// An order that lists each of `0..n` once lists every one of them.
proof fn lemma_permutation_covers(q: Seq<usize>, n: nat, x: usize)
    requires
        is_permutation(q, n),
        x < n,
    ensures
        exists|m: int| 0 <= m < q.len() && q[m] == x,
{
    let ints = q.map_values(|v: usize| v as int);
    assert(ints.no_duplicates()) by {
        assert forall|i: int, j: int| 0 <= i < ints.len() && 0 <= j < ints.len() && i != j implies ints[i] != ints[j] by {
            if i < j {
                assert(q[i] != q[j]);
            } else {
                assert(q[j] != q[i]);
            }
        }
    }
    ints.unique_seq_to_set();
    vstd::set_lib::lemma_int_range(0, n as int);
    assert(ints.to_set().subset_of(vstd::set_lib::set_int_range(0, n as int))) by {
        assert forall|v: int| ints.to_set().contains(v) implies vstd::set_lib::set_int_range(0, n as int).contains(v) by {
            let i = choose|i: int| 0 <= i < ints.len() && ints[i] == v;
            assert(q[i] < n);
        }
    }
    ints.lemma_cardinality_of_set();
    vstd::seq_lib::seq_to_set_is_finite(ints);
    vstd::set_lib::lemma_subset_equality(ints.to_set(), vstd::set_lib::set_int_range(0, n as int));
    assert(vstd::set_lib::set_int_range(0, n as int).contains(x as int));
    assert(ints.to_set().contains(x as int));
    let m = choose|m: int| 0 <= m < ints.len() && ints[m] == x as int;
    assert(q[m] == x);
}

/// Once a case has failed, the job keeps the result of that first failure
/// whatever later cases give.
pub proof fn first_failure_sticks(first: APIPostResponseResult, later: APIPostResponseResult)
    requires
        first != APIPostResponseResult::Waiting,
    ensures
        first_failure(first_failure(APIPostResponseResult::Waiting, first), later) == first,
{
}

/// In a rank list the first user is ranked 1, no user is ranked below their
/// position, and ranks never go up as the list goes down.
pub proof fn ranks_are_ordered(
    es: Seq<RankEntry>,
    tie: Option<RankListTieBreaker>,
    order: Seq<usize>,
    ranks: Seq<usize>,
)
    requires
        is_permutation(order, es.len()),
        is_ranking(es, tie, order, ranks),
    ensures
        ranks.len() > 0 ==> ranks[0] == 1,
        forall|i: int| 0 <= i < ranks.len() ==> 1 <= #[trigger] ranks[i] <= i + 1,
        forall|i: int, j: int| 0 <= i < j < ranks.len() ==> ranks[i] <= ranks[j],
{
    assert forall|i: int| 0 <= i < ranks.len() implies 1 <= #[trigger] ranks[i] <= i + 1 by {
        lemma_rank_bounds(es, tie, order, ranks, i);
    }
    assert forall|i: int, j: int| 0 <= i < j < ranks.len() implies ranks[i] <= ranks[j] by {
        lemma_rank_monotone(es, tie, order, ranks, i, j);
    }
}

proof fn lemma_rank_bounds(
    es: Seq<RankEntry>,
    tie: Option<RankListTieBreaker>,
    order: Seq<usize>,
    ranks: Seq<usize>,
    i: int,
)
    requires
        is_permutation(order, es.len()),
        is_ranking(es, tie, order, ranks),
        0 <= i < ranks.len(),
    ensures
        1 <= ranks[i] <= i + 1,
    decreases i,
{
    if i > 0 {
        lemma_rank_bounds(es, tie, order, ranks, i - 1);
    }
    assert(ranks[i] == (if i > 0 && shares_rank(es[order[i - 1] as int], es[order[i] as int], tie) {
        ranks[i - 1] as int
    } else {
        i + 1
    }));
}

#[verifier::spinoff_prover]
proof fn lemma_rank_monotone(
    es: Seq<RankEntry>,
    tie: Option<RankListTieBreaker>,
    order: Seq<usize>,
    ranks: Seq<usize>,
    i: int,
    j: int,
)
    requires
        is_permutation(order, es.len()),
        is_ranking(es, tie, order, ranks),
        0 <= i < j < ranks.len(),
    ensures
        ranks[i] <= ranks[j],
    decreases j - i,
{
    lemma_rank_bounds(es, tie, order, ranks, i);
    lemma_rank_bounds(es, tie, order, ranks, j - 1);
    assert(ranks[j] == (if j > 0 && shares_rank(es[order[j - 1] as int], es[order[j] as int], tie) {
        ranks[j - 1] as int
    } else {
        j + 1
    }));
    if i < j - 1 {
        lemma_rank_monotone(es, tie, order, ranks, i, j - 1);
    }
}

/// After a submission is filed, looking up the user's record on the problem
/// finds the record the submission was filed in.
pub proof fn filed_record_is_found(
    o: Seq<RecordUserProblem>,
    f: Seq<RecordUserProblem>,
    u: usize,
    p: usize,
    k: i64,
    accepted: bool,
    times: Seq<usize>,
    idx: usize,
)
    requires
        filed_user_record(o, f, u, p, k, accepted, times, idx),
    ensures
        first_user_record(f, u, p) == Some(idx as int),
{
    lemma_first_user_facts(o, u, p);
    match first_user_record(o, u, p) {
        Some(i) => {
            lemma_first_same_prefix(o, f, u, p, i);
        },
        None => {
            lemma_first_none_push(o, f, u, p);
        },
    }
}

proof fn lemma_first_user_facts(rs: Seq<RecordUserProblem>, u: usize, p: usize)
    ensures
        first_user_record(rs, u, p) matches Some(i) ==> {
            &&& 0 <= i < rs.len()
            &&& rs[i].user_id == u && rs[i].problem_id == p
            &&& forall|k: int| 0 <= k < i ==> !(#[trigger] rs[k].user_id == u && rs[k].problem_id == p)
        },
        first_user_record(rs, u, p) is None ==> forall|k: int|
            0 <= k < rs.len() ==> !(#[trigger] rs[k].user_id == u && rs[k].problem_id == p),
    decreases rs.len(),
{
    if rs.len() > 0 {
        lemma_first_user_facts(rs.drop_last(), u, p);
        assert forall|k: int| 0 <= k < rs.len() - 1 implies rs.drop_last()[k] == rs[k] by {}
    }
}

/// The first matching record is found from the first matching position
/// alone, whatever follows it.
proof fn lemma_first_is(rs: Seq<RecordUserProblem>, u: usize, p: usize, i: int)
    requires
        0 <= i < rs.len(),
        rs[i].user_id == u && rs[i].problem_id == p,
        forall|k: int| 0 <= k < i ==> !(#[trigger] rs[k].user_id == u && rs[k].problem_id == p),
    ensures
        first_user_record(rs, u, p) == Some(i),
{
    lemma_first_user_facts(rs, u, p);
    match first_user_record(rs, u, p) {
        Some(j) => {
            if j < i {
            } else if j > i {
            }
        },
        None => {},
    }
}

proof fn lemma_first_same_prefix(o: Seq<RecordUserProblem>, f: Seq<RecordUserProblem>, u: usize, p: usize, i: int)
    requires
        0 <= i < o.len(),
        f.len() >= o.len(),
        forall|k: int| 0 <= k < o.len() && k != i ==> #[trigger] f[k] == o[k],
        f[i].user_id == u && f[i].problem_id == p,
        forall|k: int| 0 <= k < i ==> !(#[trigger] o[k].user_id == u && o[k].problem_id == p),
    ensures
        first_user_record(f, u, p) == Some(i),
{
    assert forall|k: int| 0 <= k < i implies !(#[trigger] f[k].user_id == u && f[k].problem_id == p) by {
        assert(f[k] == o[k]);
    }
    lemma_first_is(f, u, p, i);
}

proof fn lemma_first_none_push(o: Seq<RecordUserProblem>, f: Seq<RecordUserProblem>, u: usize, p: usize)
    requires
        first_user_record(o, u, p) is None,
        forall|k: int| 0 <= k < o.len() ==> !(#[trigger] o[k].user_id == u && o[k].problem_id == p),
        f.len() == o.len() + 1,
        forall|k: int| 0 <= k < o.len() ==> #[trigger] f[k] == o[k],
        f.last().user_id == u && f.last().problem_id == p,
    ensures
        first_user_record(f, u, p) == Some(o.len() as int),
{
    assert forall|k: int| 0 <= k < o.len() implies !(#[trigger] f[k].user_id == u && f[k].problem_id == p) by {
        assert(f[k] == o[k]);
    }
    lemma_first_is(f, u, p, o.len() as int);
}


/// Whether a judging step succeeds when the cases run as `ran` says: a case
/// runs normally when `ran` says so; every other step succeeds (the
/// compilation included: the trace below is that of a compiled program).
pub open spec fn step_succeeds(step: JudgeStep, ran: Seq<bool>) -> bool {
    match step {
        JudgeStep::RunCase(k) => ran[k as int],
        _ => true,
    }
}

/// The judging steps taken from `step`, at most `fuel` of them after it.
pub open spec fn judge_trace(
    step: JudgeStep,
    ran: Seq<bool>,
    n: int,
    spj: bool,
    pk: bool,
    fuel: nat,
) -> Seq<JudgeStep>
    decreases fuel,
{
    if fuel == 0 || step == JudgeStep::Done {
        seq![step]
    } else {
        seq![step] + judge_trace(following_step(step, step_succeeds(step, ran), n, spj, pk), ran, n, spj, pk, (fuel - 1) as nat)
    }
}

/// The check of case `k`'s output.
pub open spec fn check_step(k: int, spj: bool) -> JudgeStep {
    if spj {
        JudgeStep::SpecialJudge(k as usize)
    } else {
        JudgeStep::CompareOutput(k as usize)
    }
}

/// The steps of cases `k` to `n - 1`: each case is run and, when it ran
/// normally, its output is checked.
pub open spec fn case_steps(k: int, n: int, spj: bool, ran: Seq<bool>) -> Seq<JudgeStep>
    decreases n - k,
{
    if k < 0 || k >= n {
        Seq::<JudgeStep>::empty()
    } else {
        seq![JudgeStep::RunCase(k as usize)] + (if ran[k] { seq![check_step(k, spj)] } else { Seq::<JudgeStep>::empty() })
            + case_steps(k + 1, n, spj, ran)
    }
}

/// The steps after the last case: the packing when the problem has one, then
/// the finish.
pub open spec fn closing_steps(pk: bool) -> Seq<JudgeStep> {
    (if pk { seq![JudgeStep::ApplyPacking] } else { Seq::<JudgeStep>::empty() }) + seq![JudgeStep::Finish, JudgeStep::Done]
}

/// A compiled job is judged case by case: after the compilation every case is
/// run once, in order, and its output checked (by the special judge when the
/// problem has one) when it ran normally; then come the packing, when the
/// problem has one, and the finish.
pub proof fn judging_visits_every_case(ran: Seq<bool>, n: int, spj: bool, pk: bool)
    requires
        0 <= n <= usize::MAX,
        ran.len() == n,
    ensures
        judge_trace(JudgeStep::Compile, ran, n, spj, pk, (2 * n + 3) as nat) == seq![JudgeStep::Compile] + case_steps(
            0,
            n,
            spj,
            ran,
        ) + closing_steps(pk),
{
    lemma_trace_from_case(0, ran, n, spj, pk, (2 * n + 2) as nat);
    assert(following_step(JudgeStep::Compile, true, n, spj, pk) == step_after_cases(0, n, pk));
    assert(seq![JudgeStep::Compile] + (case_steps(0, n, spj, ran) + closing_steps(pk)) =~= seq![JudgeStep::Compile]
        + case_steps(0, n, spj, ran) + closing_steps(pk));
}

proof fn lemma_trace_from_case(k: int, ran: Seq<bool>, n: int, spj: bool, pk: bool, fuel: nat)
    requires
        0 <= k <= n <= usize::MAX,
        ran.len() == n,
        fuel >= 2 * (n - k) + 2,
    ensures
        judge_trace(step_after_cases(k, n, pk), ran, n, spj, pk, fuel) == case_steps(k, n, spj, ran) + closing_steps(pk),
    decreases n - k,
{
    if k < n {
        let run = JudgeStep::RunCase(k as usize);
        assert(step_after_cases(k, n, pk) == run);
        lemma_trace_from_case(k + 1, ran, n, spj, pk, (fuel - 2) as nat);
        let rest = case_steps(k + 1, n, spj, ran) + closing_steps(pk);
        if ran[k] {
            let chk = check_step(k, spj);
            assert(following_step(run, true, n, spj, pk) == chk);
            assert(following_step(chk, true, n, spj, pk) == step_after_cases(k + 1, n, pk));
            assert(judge_trace(chk, ran, n, spj, pk, (fuel - 1) as nat) == seq![chk] + judge_trace(
                step_after_cases(k + 1, n, pk),
                ran,
                n,
                spj,
                pk,
                (fuel - 2) as nat,
            ));
            assert(seq![run] + (seq![chk] + rest) =~= seq![run] + seq![chk] + case_steps(k + 1, n, spj, ran)
                + closing_steps(pk));
        } else {
            assert(following_step(run, false, n, spj, pk) == step_after_cases(k + 1, n, pk));
            lemma_trace_from_case(k + 1, ran, n, spj, pk, (fuel - 1) as nat);
            assert(seq![run] + rest =~= seq![run] + Seq::<JudgeStep>::empty() + case_steps(k + 1, n, spj, ran)
                + closing_steps(pk));
        }
    } else {
        assert(case_steps(k, n, spj, ran) =~= Seq::<JudgeStep>::empty());
        assert(judge_trace(JudgeStep::Done, ran, n, spj, pk, (fuel - 1) as nat) == seq![JudgeStep::Done]);
        assert(judge_trace(JudgeStep::Done, ran, n, spj, pk, (fuel - 2) as nat) == seq![JudgeStep::Done]);
        assert(following_step(JudgeStep::Finish, true, n, spj, pk) == JudgeStep::Done);
        if pk {
            assert(judge_trace(JudgeStep::Finish, ran, n, spj, pk, (fuel - 1) as nat) == seq![JudgeStep::Finish]
                + judge_trace(JudgeStep::Done, ran, n, spj, pk, (fuel - 2) as nat));
            assert(judge_trace(JudgeStep::Finish, ran, n, spj, pk, (fuel - 1) as nat) =~= seq![
                JudgeStep::Finish,
                JudgeStep::Done,
            ]);
            assert(seq![JudgeStep::ApplyPacking] + seq![JudgeStep::Finish, JudgeStep::Done] =~= Seq::<JudgeStep>::empty()
                + closing_steps(pk));
        } else {
            assert(judge_trace(JudgeStep::Finish, ran, n, spj, pk, fuel) == seq![JudgeStep::Finish] + judge_trace(
                JudgeStep::Done,
                ran,
                n,
                spj,
                pk,
                (fuel - 1) as nat,
            ));
            assert(judge_trace(JudgeStep::Finish, ran, n, spj, pk, fuel) =~= seq![JudgeStep::Finish, JudgeStep::Done]);
            assert(seq![JudgeStep::Finish, JudgeStep::Done] =~= Seq::<JudgeStep>::empty() + closing_steps(pk));
        }
    }
}

/// The job's result after cases with the results `rs`, starting from `job`.
pub open spec fn result_after_cases(job: APIPostResponseResult, rs: Seq<APIPostResponseResult>) -> APIPostResponseResult
    decreases rs.len(),
{
    if rs.len() == 0 {
        job
    } else {
        after_case(result_after_cases(job, rs.drop_last()), rs.last())
    }
}

/// The index of the first result that is not Accepted.
pub open spec fn first_failing(rs: Seq<APIPostResponseResult>) -> Option<int>
    decreases rs.len(),
{
    if rs.len() == 0 {
        None
    } else {
        match first_failing(rs.drop_last()) {
            Some(i) => Some(i),
            None => if rs.last() != APIPostResponseResult::Accepted {
                Some(rs.len() - 1)
            } else {
                None
            },
        }
    }
}

/// The result a finished job shows: Accepted when no case failed.
pub open spec fn finished_result(r: APIPostResponseResult) -> APIPostResponseResult {
    if r == APIPostResponseResult::Waiting {
        APIPostResponseResult::Accepted
    } else {
        r
    }
}

/// The first failing case decides a judged job's result: after cases with
/// the results `rs` (each case step sets the job's result by `after_case`,
/// and the finish by `finished_result`), the job is Accepted when every case
/// was accepted, and otherwise has the result of the first case that was
/// not.
pub proof fn first_failing_case_decides(rs: Seq<APIPostResponseResult>)
    requires
        forall|i: int| 0 <= i < rs.len() ==> #[trigger] rs[i] != APIPostResponseResult::Waiting,
    ensures
        finished_result(result_after_cases(APIPostResponseResult::Waiting, rs)) == match first_failing(rs) {
            None => APIPostResponseResult::Accepted,
            Some(k) => rs[k],
        },
{
    lemma_result_after_cases(rs);
}

proof fn lemma_result_after_cases(rs: Seq<APIPostResponseResult>)
    requires
        forall|i: int| 0 <= i < rs.len() ==> #[trigger] rs[i] != APIPostResponseResult::Waiting,
    ensures
        result_after_cases(APIPostResponseResult::Waiting, rs) == match first_failing(rs) {
            None => APIPostResponseResult::Waiting,
            Some(k) => rs[k],
        },
        first_failing(rs) matches Some(k) ==> 0 <= k < rs.len(),
    decreases rs.len(),
{
    if rs.len() > 0 {
        let r2 = rs.drop_last();
        assert forall|i: int| 0 <= i < r2.len() implies #[trigger] r2[i] != APIPostResponseResult::Waiting by {
            assert(r2[i] == rs[i]);
        }
        lemma_result_after_cases(r2);
        assert(rs.last() == rs[rs.len() - 1]);
        match first_failing(r2) {
            Some(k) => {
                assert(r2[k] == rs[k]);
            },
            None => {},
        }
    }
}

} // verus!
