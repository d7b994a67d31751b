use vstd::prelude::*;
use crate::api_analysis::{
    APIPostJob, APIPostResponse, APIPostResponseCase, APIPostResponseResult, APIPostResponseState,
};
use crate::config_analysis::{deal_string_standard, push_char, standardized, ConfigLanguage, ConfigProblemType};
use crate::time_format::now_time_string;

verus! {

broadcast use vstd::string::group_string_axioms;

// ---------------------------------------------------------------------------
// Decimal numbers

/// The character of a decimal digit.
pub open spec fn digit_char(d: nat) -> char {
    (48 + d) as char
}

/// `n` written in decimal, without leading zeros.
pub open spec fn decimal(n: nat) -> Seq<char>
    decreases n,
{
    if n < 10 {
        seq![digit_char(n)]
    } else {
        decimal(n / 10).push(digit_char(n % 10))
    }
}

fn digit_of(d: usize) -> (c: char)
    requires
        d < 10,
    ensures
        c == digit_char(d as nat),
{
    match d {
        0 => '0',
        1 => '1',
        2 => '2',
        3 => '3',
        4 => '4',
        5 => '5',
        6 => '6',
        7 => '7',
        8 => '8',
        _ => '9',
    }
}

/// Writes a number in decimal.
pub fn decimal_string(n: usize) -> (r: String)
    ensures
        r@ == decimal(n as nat),
{
    let mut m: usize = n;
    let mut digits: Vec<char> = Vec::new();
    loop
        invariant_except_break
            decimal(n as nat) == decimal(m as nat) + digits@,
        ensures
            decimal(n as nat) == digits@,
        decreases m,
    {
        if m < 10 {
            let ghost before = digits@;
            digits.insert(0, digit_of(m));
            assert(digits@ =~= seq![digit_char(m as nat)] + before);
            assert(decimal(n as nat) =~= digits@);
            break;
        }
        let ghost before = digits@;
        digits.insert(0, digit_of(m % 10));
        assert(digits@ =~= seq![digit_char((m % 10) as nat)] + before);
        assert(decimal(m as nat) + before =~= decimal((m / 10) as nat) + digits@);
        m = m / 10;
    }
    let mut r = String::new();
    let mut i: usize = 0;
    while i < digits.len()
        invariant
            i <= digits.len(),
            r@ == digits@.take(i as int),
        decreases digits.len() - i,
    {
        push_char(&mut r, digits[i]);
        assert(digits@.take(i + 1) =~= digits@.take(i as int).push(digits@[i as int]));
        i += 1;
    }
    assert(digits@.take(digits.len() as int) =~= digits@);
    r
}

// ---------------------------------------------------------------------------
// Working files

/// The working directory of a job judged while `n` jobs are queued.
pub open spec fn work_dir_spec(n: nat) -> Seq<char> {
    "tmp"@ + decimal(n)
}

/// The working directory of a job judged while `queued` jobs are queued: `tmp`
/// followed by that number.
pub fn work_dir(queued: usize) -> (r: String)
    ensures
        r@ == work_dir_spec(queued as nat),
{
    let mut r = String::from_str("tmp");
    let n = decimal_string(queued);
    r.append(n.as_str());
    proof {
        reveal_strlit("tmp");
    }
    r
}

/// The path of a file in a directory.
pub fn path_in(dir: &String, file_name: &str) -> (r: String)
    ensures
        r@ == dir@ + seq!['/'] + file_name@,
{
    let mut r = dir.clone();
    push_char(&mut r, '/');
    r.append(file_name);
    r
}

// ---------------------------------------------------------------------------
// Commands

/// A command to run: the program and its arguments.
#[derive(Debug, Clone)]
pub struct CommandLine {
    pub program: String,
    pub args: Vec<String>,
}

/// An argument of a command with the two placeholders replaced.
pub open spec fn filled_arg(arg: Seq<char>, p1: Seq<char>, r1: Seq<char>, p2: Seq<char>, r2: Seq<char>) -> Seq<char> {
    if arg == p1 {
        r1
    } else if arg == p2 {
        r2
    } else {
        arg
    }
}

/// What `fill_command` gives: none for an empty command, else the program (the
/// first word) and the other words with their placeholders replaced.
pub open spec fn filled_command(
    command: Seq<String>,
    p1: Seq<char>,
    r1: Seq<char>,
    p2: Seq<char>,
    r2: Seq<char>,
    result: Option<CommandLine>,
) -> bool {
    if command.len() == 0 {
        result is None
    } else {
        &&& result is Some
        &&& result->0.program@ == command[0]@
        &&& result->0.args@.len() == command.len() - 1
        &&& forall|i: int|
            0 <= i < command.len() - 1 ==> (#[trigger] result->0.args@[i])@ == filled_arg(
                command[i + 1]@,
                p1,
                r1,
                p2,
                r2,
            )
    }
}

/// Splits a command into its program and arguments, replacing each argument
/// that is exactly `p1` by `r1` and each that is exactly `p2` by `r2`.
pub fn fill_command(command: &Vec<String>, p1: &str, r1: &String, p2: &str, r2: &String) -> (r: Option<CommandLine>)
    ensures
        filled_command(command@, p1@, r1@, p2@, r2@, r),
{
    if command.len() == 0 {
        return None;
    }
    let program = command[0].clone();
    let pat1 = String::from_str(p1);
    let pat2 = String::from_str(p2);
    let mut args: Vec<String> = Vec::new();
    let mut i: usize = 1;
    while i < command.len()
        invariant
            1 <= i <= command.len(),
            pat1@ == p1@,
            pat2@ == p2@,
            args@.len() == i - 1,
            forall|j: int| 0 <= j < i - 1 ==> (#[trigger] args@[j])@ == filled_arg(command@[j + 1]@, p1@, r1@, p2@, r2@),
        decreases command.len() - i,
    {
        let arg = &command[i];
        let filled = if *arg == pat1 {
            r1.clone()
        } else if *arg == pat2 {
            r2.clone()
        } else {
            arg.clone()
        };
        args.push(filled);
        i += 1;
    }
    Some(CommandLine { program, args })
}

/// The compile command of a language for a job: the language's command with
/// `%INPUT%` replaced by the source file and `%OUTPUT%` by the program to
/// build; none when the command is empty.
pub fn compile_command(command: &Vec<String>, source_path: &String, program_path: &String) -> (r: Option<CommandLine>)
    ensures
        filled_command(command@, "%INPUT%"@, source_path@, "%OUTPUT%"@, program_path@, r),
{
    fill_command(command, "%INPUT%", source_path, "%OUTPUT%", program_path)
}

/// The special judge's command for a case: the configured command with
/// `%OUTPUT%` replaced by the program's output file and `%ANSWER%` by the
/// case's answer file; none when the command is empty.
pub fn special_judge_command(command: &Vec<String>, output_path: &String, answer_path: &String) -> (r: Option<CommandLine>)
    ensures
        filled_command(command@, "%OUTPUT%"@, output_path@, "%ANSWER%"@, answer_path@, r),
{
    fill_command(command, "%OUTPUT%", output_path, "%ANSWER%", answer_path)
}

/// The index of the first entry equal to `x`.
pub open spec fn first_index_of(s: Seq<usize>, x: usize) -> Option<int>
    decreases s.len(),
{
    if s.len() == 0 {
        None
    } else {
        match first_index_of(s.drop_last(), x) {
            Some(i) => Some(i),
            None => if s.last() == x {
                Some(s.len() - 1)
            } else {
                None
            },
        }
    }
}

/// Finds a problem among the configured problems' ids: the first with that id.
pub fn find_problem(problem_ids: &Vec<usize>, problem_id: usize) -> (r: Option<usize>)
    ensures
        r matches Some(i) ==> first_index_of(problem_ids@, problem_id) == Some(i as int),
        r is None ==> first_index_of(problem_ids@, problem_id) is None,
{
    let mut i: usize = 0;
    while i < problem_ids.len()
        invariant
            i <= problem_ids.len(),
            first_index_of(problem_ids@.take(i as int), problem_id) is None,
        decreases problem_ids.len() - i,
    {
        assert(problem_ids@.take(i + 1).drop_last() =~= problem_ids@.take(i as int));
        if problem_ids[i] == problem_id {
            proof {
                lemma_first_index_prefix(problem_ids@, problem_id, i as int + 1);
            }
            return Some(i);
        }
        i += 1;
    }
    assert(problem_ids@.take(problem_ids.len() as int) =~= problem_ids@);
    None
}

proof fn lemma_first_index_prefix(s: Seq<usize>, x: usize, k: int)
    requires
        0 <= k <= s.len(),
        first_index_of(s.take(k), x) is Some,
    ensures
        first_index_of(s, x) == first_index_of(s.take(k), x),
    decreases s.len() - k,
{
    if k < s.len() {
        assert(s.take(k + 1).drop_last() =~= s.take(k));
        lemma_first_index_prefix(s, x, k + 1);
    } else {
        assert(s.take(k) =~= s);
    }
}

/// The index of the first language with the given name.
pub open spec fn first_language(ls: Seq<ConfigLanguage>, name: Seq<char>) -> Option<int>
    decreases ls.len(),
{
    if ls.len() == 0 {
        None
    } else {
        match first_language(ls.drop_last(), name) {
            Some(i) => Some(i),
            None => if ls.last().name@ == name {
                Some(ls.len() - 1)
            } else {
                None
            },
        }
    }
}

proof fn lemma_first_language_prefix(ls: Seq<ConfigLanguage>, name: Seq<char>, k: int)
    requires
        0 <= k <= ls.len(),
        first_language(ls.take(k), name) is Some,
    ensures
        first_language(ls, name) == first_language(ls.take(k), name),
    decreases ls.len() - k,
{
    if k < ls.len() {
        assert(ls.take(k + 1).drop_last() =~= ls.take(k));
        lemma_first_language_prefix(ls, name, k + 1);
    } else {
        assert(ls.take(k) =~= ls);
    }
}

/// Finds the language a job is written in: the first configured language of
/// that name.
pub fn find_language(languages: &Vec<ConfigLanguage>, name: &String) -> (r: Option<usize>)
    ensures
        r matches Some(i) ==> first_language(languages@, name@) == Some(i as int),
        r is None ==> first_language(languages@, name@) is None,
{
    let mut i: usize = 0;
    while i < languages.len()
        invariant
            i <= languages.len(),
            first_language(languages@.take(i as int), name@) is None,
        decreases languages.len() - i,
    {
        assert(languages@.take(i + 1).drop_last() =~= languages@.take(i as int));
        if languages[i].name == *name {
            proof {
                lemma_first_language_prefix(languages@, name@, i as int + 1);
            }
            return Some(i);
        }
        i += 1;
    }
    assert(languages@.take(languages.len() as int) =~= languages@);
    None
}


// ---------------------------------------------------------------------------
// Judging a job, step by step

/// `c` is a case with the given fields and no info.
pub open spec fn is_plain_case(c: APIPostResponseCase, id: int, result: APIPostResponseResult, time: int, memory: int) -> bool {
    &&& c.id == id
    &&& c.result == result
    &&& c.time == time
    &&& c.memory == memory
    &&& c.info@ == Seq::<char>::empty()
}

/// The fields that judging a case leaves as they were.
pub open spec fn same_job(a: APIPostResponse, b: APIPostResponse) -> bool {
    &&& a.id == b.id
    &&& a.created_time == b.created_time
    &&& a.submission == b.submission
}

/// What a case's outcome does to the job's score: nothing, add the case's
/// score, or add it and take it back again.
#[derive(Debug, Clone, Copy, PartialEq, Eq, Structural)]
pub enum ScoreChange {
    Unchanged,
    Added,
    AddedThenWithdrawn,
}

fn plain_case(id: usize, result: APIPostResponseResult, time: usize, memory: usize) -> (c: APIPostResponseCase)
    ensures
        is_plain_case(c, id as int, result, time as int, memory as int),
{
    APIPostResponseCase { id, result, time, memory, info: String::new() }
}

/// The compilation failed: case 0 records the compilation error, every case
/// of the problem follows waiting (it is never run), and the job is finished
/// with a compilation error.
pub fn compilation_failed(response: &mut APIPostResponse, case_count: usize)
    ensures
        same_job(*final(response), *old(response)),
        final(response).result == APIPostResponseResult::CompilationError,
        final(response).state == APIPostResponseState::Finished,
        final(response).cases@.len() == old(response).cases@.len() + 1 + case_count,
        forall|i: int| 0 <= i < old(response).cases@.len() ==> final(response).cases@[i] == old(response).cases@[i],
        is_plain_case(final(response).cases@[old(response).cases@.len() as int], 0, APIPostResponseResult::CompilationError, 0, 0),
        forall|k: int|
            0 <= k < case_count ==> is_plain_case(
                #[trigger] final(response).cases@[old(response).cases@.len() + 1 + k],
                old(response).cases@.len() + 1 + k,
                APIPostResponseResult::Waiting,
                0,
                0,
            ),
{
    let ghost start = response.cases@;
    response.result = APIPostResponseResult::CompilationError;
    response.cases.push(plain_case(0, APIPostResponseResult::CompilationError, 0, 0));
    response.updated_time = now_time_string();
    let mut k: usize = 0;
    while k < case_count
        invariant
            k <= case_count,
            same_job(*response, *old(response)),
            response.result == APIPostResponseResult::CompilationError,
            start == old(response).cases@,
            response.cases@.len() == start.len() + 1 + k,
            forall|i: int| 0 <= i < start.len() ==> response.cases@[i] == start[i],
            is_plain_case(response.cases@[start.len() as int], 0, APIPostResponseResult::CompilationError, 0, 0),
            forall|j: int|
                0 <= j < k ==> is_plain_case(
                    #[trigger] response.cases@[start.len() + 1 + j],
                    start.len() + 1 + j,
                    APIPostResponseResult::Waiting,
                    0,
                    0,
                ),
        decreases case_count - k,
    {
        let id = response.cases.len();
        response.cases.push(plain_case(id, APIPostResponseResult::Waiting, 0, 0));
        k += 1;
    }
    response.state = APIPostResponseState::Finished;
}

/// The compilation succeeded: case 0 records it.
pub fn compilation_succeeded(response: &mut APIPostResponse)
    ensures
        same_job(*final(response), *old(response)),
        final(response).result == old(response).result,
        final(response).state == old(response).state,
        final(response).cases@.len() == old(response).cases@.len() + 1,
        forall|i: int| 0 <= i < old(response).cases@.len() ==> final(response).cases@[i] == old(response).cases@[i],
        is_plain_case(final(response).cases@.last(), 0, APIPostResponseResult::CompilationSuccess, 0, 0),
{
    response.cases.push(plain_case(0, APIPostResponseResult::CompilationSuccess, 0, 0));
}

/// The job's result after a case ends with `case_result`: the first failing
/// case gives the job its result.
pub open spec fn first_failure(job: APIPostResponseResult, case_result: APIPostResponseResult) -> APIPostResponseResult {
    if job == APIPostResponseResult::Waiting {
        case_result
    } else {
        job
    }
}

/// The program of a case did not end normally: it timed out (Time Limit
/// Exceeded) or failed (Runtime Error). The case is recorded with the time it
/// took and no memory, and the job takes this result unless an earlier case
/// already failed.
pub fn run_failed(response: &mut APIPostResponse, timed_out: bool, time: usize)
    ensures
        same_job(*final(response), *old(response)),
        final(response).state == old(response).state,
        final(response).result == first_failure(
            old(response).result,
            if timed_out { APIPostResponseResult::TimeLimitExceeded } else { APIPostResponseResult::RuntimeError },
        ),
        final(response).cases@ == old(response).cases@.push(final(response).cases@.last()),
        is_plain_case(
            final(response).cases@.last(),
            old(response).cases@.len() as int,
            if timed_out { APIPostResponseResult::TimeLimitExceeded } else { APIPostResponseResult::RuntimeError },
            time as int,
            0,
        ),
        final(response).result == after_case(old(response).result, final(response).cases@.last().result),
{
    let verdict = if timed_out {
        APIPostResponseResult::TimeLimitExceeded
    } else {
        APIPostResponseResult::RuntimeError
    };
    if response.result == APIPostResponseResult::Waiting {
        response.result = verdict;
    }
    let id = response.cases.len();
    response.cases.push(plain_case(id, verdict, time, 0));
}

/// Whether an output of `memory` bytes is over a memory limit (0: no limit).
pub open spec fn over_memory(memory: int, memory_limit: int) -> bool {
    memory_limit > 0 && memory > memory_limit
}

/// The result of a case whose output was compared with its answer.
pub open spec fn compared_case_result(matched: bool, memory: int, memory_limit: int) -> APIPostResponseResult {
    if over_memory(memory, memory_limit) {
        APIPostResponseResult::MemoryLimitExceeded
    } else if matched {
        APIPostResponseResult::Accepted
    } else {
        APIPostResponseResult::WrongAnswer
    }
}

/// The job's result after a case ends with `case_result`: an accepted case
/// leaves it as it was, and a failing one decides it when no case failed
/// before.
pub open spec fn after_case(job: APIPostResponseResult, case_result: APIPostResponseResult) -> APIPostResponseResult {
    if case_result == APIPostResponseResult::Accepted {
        job
    } else {
        first_failure(job, case_result)
    }
}

/// The job's result after a compared case.
pub open spec fn compared_job_result(job: APIPostResponseResult, matched: bool, memory: int, memory_limit: int) -> APIPostResponseResult {
    after_case(job, compared_case_result(matched, memory, memory_limit))
}

/// The output of a case was compared with the answer. A matching output is
/// accepted and scores, unless it is over the memory limit: then the case is
/// Memory Limit Exceeded and the score added is taken back. A different
/// output is a wrong answer, or Memory Limit Exceeded when over the limit. A
/// failing case gives the job its result if no case failed before.
pub fn output_checked(response: &mut APIPostResponse, matched: bool, memory: usize, memory_limit: u64, time: usize) -> (change: ScoreChange)
    ensures
        same_job(*final(response), *old(response)),
        final(response).state == old(response).state,
        final(response).result == compared_job_result(old(response).result, matched, memory as int, memory_limit as int),
        final(response).cases@ == old(response).cases@.push(final(response).cases@.last()),
        is_plain_case(
            final(response).cases@.last(),
            old(response).cases@.len() as int,
            compared_case_result(matched, memory as int, memory_limit as int),
            time as int,
            memory as int,
        ),
        final(response).result == after_case(old(response).result, final(response).cases@.last().result),
        change == (if !matched {
            ScoreChange::Unchanged
        } else if over_memory(memory as int, memory_limit as int) {
            ScoreChange::AddedThenWithdrawn
        } else {
            ScoreChange::Added
        }),
{
    let over = memory_limit > 0 && memory as u64 > memory_limit;
    let id = response.cases.len();
    if matched {
        let mut verdict = APIPostResponseResult::Accepted;
        let mut change = ScoreChange::Added;
        if over {
            verdict = APIPostResponseResult::MemoryLimitExceeded;
            if response.result == APIPostResponseResult::Waiting {
                response.result = APIPostResponseResult::MemoryLimitExceeded;
            }
            change = ScoreChange::AddedThenWithdrawn;
        }
        response.cases.push(plain_case(id, verdict, time, memory));
        change
    } else {
        let mut verdict = APIPostResponseResult::WrongAnswer;
        if over {
            verdict = APIPostResponseResult::MemoryLimitExceeded;
        }
        if response.result == APIPostResponseResult::Waiting {
            response.result = verdict;
        }
        response.cases.push(plain_case(id, verdict, time, memory));
        ScoreChange::Unchanged
    }
}

/// Whether a character is whitespace in the sense of Unicode's `White_Space`
/// property: tab, line feed, vertical tab, form feed, carriage return, space,
/// next line, no-break space, Ogham space mark, the spaces from en quad to
/// hair space, line separator, paragraph separator, narrow no-break space,
/// medium mathematical space and ideographic space.
pub open spec fn is_white_space(c: char) -> bool {
    let n = c as u32;
    ||| 0x09 <= n <= 0x0D
    ||| n == 0x20
    ||| n == 0x85
    ||| n == 0xA0
    ||| n == 0x1680
    ||| 0x2000 <= n <= 0x200A
    ||| n == 0x2028
    ||| n == 0x2029
    ||| n == 0x202F
    ||| n == 0x205F
    ||| n == 0x3000
}

/// The text without the whitespace at its end.
pub open spec fn trimmed_end(text: Seq<char>) -> Seq<char>
    decreases text.len(),
{
    if text.len() > 0 && is_white_space(text.last()) {
        trimmed_end(text.drop_last())
    } else {
        text
    }
}

/// Calls std's `str::trim_end` and copies the result into a `String`. Its
/// documentation says that it returns the text with the trailing whitespace
/// removed, whitespace being what Unicode's `White_Space` property names; the
/// contract says that.
#[verifier::external_body]
fn trim_end(text: &String) -> (r: String)
    ensures
        r@ == trimmed_end(text@),
{
    text.as_str().trim_end().to_string()
}

/// The special judge answered with a verdict line and an info line. The case
/// is accepted and scores when the verdict line, without trailing whitespace,
/// reads `Accepted`; otherwise it is a wrong answer, which becomes the job's
/// result if no case failed before. The info line, without trailing
/// whitespace, is kept with the case.
pub fn special_judge_checked(response: &mut APIPostResponse, verdict_line: &String, info_line: &String, time: usize) -> (change: ScoreChange)
    ensures
        same_job(*final(response), *old(response)),
        final(response).state == old(response).state,
        final(response).cases@ == old(response).cases@.push(final(response).cases@.last()),
        final(response).cases@.last().id == old(response).cases@.len(),
        final(response).cases@.last().time == time,
        final(response).cases@.last().memory == 0,
        final(response).cases@.last().info@ == trimmed_end(info_line@),
        final(response).result == after_case(old(response).result, final(response).cases@.last().result),
        trimmed_end(verdict_line@) == "Accepted"@ ==> {
            &&& final(response).cases@.last().result == APIPostResponseResult::Accepted
            &&& final(response).result == old(response).result
            &&& change == ScoreChange::Added
        },
        trimmed_end(verdict_line@) != "Accepted"@ ==> {
            &&& final(response).cases@.last().result == APIPostResponseResult::WrongAnswer
            &&& final(response).result == first_failure(old(response).result, APIPostResponseResult::WrongAnswer)
            &&& change == ScoreChange::Unchanged
        },
{
    let verdict = trim_end(verdict_line);
    let accepted_word = String::from_str("Accepted");
    let id = response.cases.len();
    let info = trim_end(info_line);
    if verdict == accepted_word {
        response.cases.push(APIPostResponseCase {
            id,
            result: APIPostResponseResult::Accepted,
            time,
            memory: 0,
            info,
        });
        ScoreChange::Added
    } else {
        if response.result == APIPostResponseResult::Waiting {
            response.result = APIPostResponseResult::WrongAnswer;
        }
        response.cases.push(APIPostResponseCase {
            id,
            result: APIPostResponseResult::WrongAnswer,
            time,
            memory: 0,
            info,
        });
        ScoreChange::Unchanged
    }
}

/// Whether pack `pack` skips case `k`: `k` follows, within the pack, a case
/// that was not accepted.
pub open spec fn pack_skips(cases: Seq<APIPostResponseCase>, pack: Seq<usize>, k: int) -> bool {
    exists|i: int, j: int|
        0 <= i < j < pack.len() && pack[j] == k && cases[pack[i] as int].result != APIPostResponseResult::Accepted
}

/// Whether some pack skips case `k`.
pub open spec fn packs_skip(cases: Seq<APIPostResponseCase>, packs: Seq<Vec<usize>>, k: int) -> bool {
    exists|p: int| 0 <= p < packs.len() && pack_skips(cases, #[trigger] packs[p]@, k)
}

/// Whether the pack names case `k` at a position strictly between `f` and `j`.
pub open spec fn named_between(pack: Seq<usize>, f: int, j: int, k: int) -> bool {
    exists|jj: int| f < jj < j && pack[jj] == k
}

/// Every case a pack names exists.
pub open spec fn packs_in_range(packs: Seq<Vec<usize>>, n: nat) -> bool {
    forall|p: int, i: int| 0 <= p < packs.len() && 0 <= i < packs[p]@.len() ==> #[trigger] packs[p]@[i] < n
}

/// `b` is `a` with the result of the cases that `packs` skip set to Skipped.
pub open spec fn packing_applied(a: Seq<APIPostResponseCase>, b: Seq<APIPostResponseCase>, packs: Seq<Vec<usize>>, upto: int) -> bool {
    &&& b.len() == a.len()
    &&& forall|k: int|
        0 <= k < a.len() ==> {
            &&& (#[trigger] b[k]).id == a[k].id
            &&& b[k].time == a[k].time
            &&& b[k].memory == a[k].memory
            &&& b[k].info@ == a[k].info@
            &&& b[k].result == (if packs_skip(a, packs.take(upto), k) {
                APIPostResponseResult::Skipped
            } else {
                a[k].result
            })
        }
}

/// Applies the packing of a problem: in each pack, every case that follows a
/// case which was not accepted is skipped. What counts as accepted is read
/// from the cases as they were before any pack was applied.
pub fn apply_packing(response: &mut APIPostResponse, packs: &Vec<Vec<usize>>)
    requires
        packs_in_range(packs@, old(response).cases@.len()),
    ensures
        same_job(*final(response), *old(response)),
        final(response).state == old(response).state,
        final(response).result == old(response).result,
        packing_applied(old(response).cases@, final(response).cases@, packs@, packs@.len() as int),
{
    let ghost start = response.cases@;
    let mut before: Vec<APIPostResponseResult> = Vec::new();
    let mut i: usize = 0;
    while i < response.cases.len()
        invariant
            response.cases@ == start,
            i <= start.len(),
            before@.len() == i,
            forall|k: int| 0 <= k < i ==> #[trigger] before@[k] == start[k].result,
        decreases start.len() - i,
    {
        before.push(response.cases[i].result);
        i += 1;
    }
    assert(packs@.take(0) =~= Seq::<Vec<usize>>::empty());
    let mut p: usize = 0;
    while p < packs.len()
        invariant
            p <= packs@.len(),
            packs_in_range(packs@, start.len()),
            before@.len() == start.len(),
            forall|k: int| 0 <= k < start.len() ==> #[trigger] before@[k] == start[k].result,
            same_job(*response, *old(response)),
            response.state == old(response).state,
            response.result == old(response).result,
            start == old(response).cases@,
            packing_applied(start, response.cases@, packs@, p as int),
        decreases packs@.len() - p,
    {
        let pack = &packs[p];
        assert(packs@[p as int]@ == pack@);
        let mut f: usize = 0;
        while f < pack.len() && before[pack[f]] == APIPostResponseResult::Accepted
            invariant
                f <= pack@.len(),
                pack@ == packs@[p as int]@,
                p < packs@.len(),
                packs_in_range(packs@, start.len()),
                before@.len() == start.len(),
                forall|k: int| 0 <= k < start.len() ==> #[trigger] before@[k] == start[k].result,
                forall|q: int| 0 <= q < f ==> start[#[trigger] pack@[q] as int].result == APIPostResponseResult::Accepted,
            decreases pack@.len() - f,
        {
            f += 1;
        }
        let ghost mid = response.cases@;
        if f < pack.len() {
            let mut j: usize = f + 1;
            while j < pack.len()
                invariant
                    f < j <= pack@.len(),
                    f < pack@.len(),
                    pack@ == packs@[p as int]@,
                    p < packs@.len(),
                    packs_in_range(packs@, start.len()),
                    start[pack@[f as int] as int].result != APIPostResponseResult::Accepted,
                    response.cases@.len() == start.len(),
                    same_job(*response, *old(response)),
                    response.state == old(response).state,
                    response.result == old(response).result,
                    forall|k: int|
                        0 <= k < start.len() ==> {
                            &&& (#[trigger] response.cases@[k]).id == mid[k].id
                            &&& response.cases@[k].time == mid[k].time
                            &&& response.cases@[k].memory == mid[k].memory
                            &&& response.cases@[k].info@ == mid[k].info@
                            &&& response.cases@[k].result == (if named_between(pack@, f as int, j as int, k) {
                                APIPostResponseResult::Skipped
                            } else {
                                mid[k].result
                            })
                        },
                decreases pack@.len() - j,
            {
                let idx = pack[j];
                assert(packs@[p as int]@[j as int] < start.len());
                let skipped = response.cases[idx].with_result(APIPostResponseResult::Skipped);
                response.cases.set(idx, skipped);
                proof {
                    assert forall|k: int| 0 <= k < start.len() implies
                        #[trigger] named_between(pack@, f as int, j + 1, k) == (named_between(pack@, f as int, j as int, k) || k == idx) by {
                        if k == idx {
                            assert(pack@[j as int] == k);
                        }
                        if named_between(pack@, f as int, j + 1, k) && k != idx {
                            let jj = choose|jj: int| f < jj < j + 1 && pack@[jj] == k;
                            assert(jj != j);
                        }
                    }
                }
                j += 1;
            }
        }
        proof {
            let ghost cur = response.cases@;
            assert forall|k: int| 0 <= k < start.len() implies
                #[trigger] pack_skips(start, pack@, k) == (f < pack@.len() && named_between(pack@, f as int, pack@.len() as int, k)) by {
                if pack_skips(start, pack@, k) {
                    let (a, b) = choose|a: int, b: int|
                        0 <= a < b < pack@.len() && pack@[b] == k && start[pack@[a] as int].result != APIPostResponseResult::Accepted;
                    assert(f <= a);
                    assert(f < b);
                }
                if f < pack@.len() && named_between(pack@, f as int, pack@.len() as int, k) {
                    let jj = choose|jj: int| f < jj < pack@.len() && pack@[jj] == k;
                    assert(0 <= f < jj < pack@.len() && pack@[jj] == k && start[pack@[f as int] as int].result != APIPostResponseResult::Accepted);
                }
            }
            assert forall|k: int| 0 <= k < start.len() implies
                #[trigger] packs_skip(start, packs@.take(p + 1), k) == (packs_skip(start, packs@.take(p as int), k) || pack_skips(start, pack@, k)) by {
                if packs_skip(start, packs@.take(p + 1), k) {
                    let q = choose|q: int| 0 <= q < p + 1 && pack_skips(start, #[trigger] packs@.take(p + 1)[q]@, k);
                    if q < p {
                        assert(packs@.take(p as int)[q] == packs@.take(p + 1)[q]);
                    }
                }
                if packs_skip(start, packs@.take(p as int), k) {
                    let q = choose|q: int| 0 <= q < p && pack_skips(start, #[trigger] packs@.take(p as int)[q]@, k);
                    assert(packs@.take(p + 1)[q] == packs@.take(p as int)[q]);
                }
                if pack_skips(start, pack@, k) {
                    assert(packs@.take(p + 1)[p as int] == packs@[p as int]);
                }
            }
        }
        p += 1;
    }
    assert(packs@.take(packs@.len() as int) =~= packs@);
}

/// The last step of judging: the job is finished, and a job in which no case
/// failed is accepted.
pub fn finish_judging(response: &mut APIPostResponse)
    ensures
        same_job(*final(response), *old(response)),
        final(response).cases@ == old(response).cases@,
        final(response).state == APIPostResponseState::Finished,
        final(response).result == (if old(response).result == APIPostResponseResult::Waiting {
            APIPostResponseResult::Accepted
        } else {
            old(response).result
        }),
{
    response.updated_time = now_time_string();
    response.state = APIPostResponseState::Finished;
    if response.result == APIPostResponseResult::Waiting {
        response.result = APIPostResponseResult::Accepted;
    }
}


/// What judging a job does next.
#[derive(Debug, Clone, Copy, PartialEq, Eq, Structural)]
pub enum JudgeStep {
    /// Compile the source.
    Compile,
    /// Run the program on case `k` (counted from 0 among the problem's cases).
    RunCase(usize),
    /// Check the output of case `k` with the special judge.
    SpecialJudge(usize),
    /// Compare the output of case `k` with its answer.
    CompareOutput(usize),
    /// Apply the problem's packing.
    ApplyPacking,
    /// Finish the job.
    Finish,
    /// Nothing is left to do.
    Done,
}

/// The step after the cases before `k` are done: the next case, else the
/// packing when the problem has one, else the finish.
pub open spec fn step_after_cases(k: int, case_count: int, has_packing: bool) -> JudgeStep {
    if k < case_count {
        JudgeStep::RunCase(k as usize)
    } else if has_packing {
        JudgeStep::ApplyPacking
    } else {
        JudgeStep::Finish
    }
}

/// The step that follows `step`, which `succeeded` or not: a failed
/// compilation ends the judging; a program that ran normally has its output
/// checked (by the special judge when the problem has one), and one that did
/// not goes on to the next case; after the last case come the packing, when
/// the problem has one, and the finish.
pub open spec fn following_step(
    step: JudgeStep,
    succeeded: bool,
    case_count: int,
    has_special_judge: bool,
    has_packing: bool,
) -> JudgeStep {
    match step {
        JudgeStep::Compile => if succeeded {
            step_after_cases(0, case_count, has_packing)
        } else {
            JudgeStep::Done
        },
        JudgeStep::RunCase(k) => if !succeeded {
            step_after_cases(k + 1, case_count, has_packing)
        } else if has_special_judge {
            JudgeStep::SpecialJudge(k)
        } else {
            JudgeStep::CompareOutput(k)
        },
        JudgeStep::SpecialJudge(k) => step_after_cases(k + 1, case_count, has_packing),
        JudgeStep::CompareOutput(k) => step_after_cases(k + 1, case_count, has_packing),
        JudgeStep::ApplyPacking => JudgeStep::Finish,
        JudgeStep::Finish => JudgeStep::Done,
        JudgeStep::Done => JudgeStep::Done,
    }
}

fn after_cases(k: usize, case_count: usize, has_packing: bool) -> (s: JudgeStep)
    ensures
        s == step_after_cases(k as int, case_count as int, has_packing),
{
    if k < case_count {
        JudgeStep::RunCase(k)
    } else if has_packing {
        JudgeStep::ApplyPacking
    } else {
        JudgeStep::Finish
    }
}

/// Decides what judging a job does after `step`, which `succeeded` or not,
/// for a problem of `case_count` cases.
pub fn next_judge_step(
    step: JudgeStep,
    succeeded: bool,
    case_count: usize,
    has_special_judge: bool,
    has_packing: bool,
) -> (r: JudgeStep)
    requires
        step matches JudgeStep::RunCase(k) ==> k < case_count,
        step matches JudgeStep::SpecialJudge(k) ==> k < case_count,
        step matches JudgeStep::CompareOutput(k) ==> k < case_count,
    ensures
        r == following_step(step, succeeded, case_count as int, has_special_judge, has_packing),
{
    match step {
        JudgeStep::Compile => if succeeded {
            after_cases(0, case_count, has_packing)
        } else {
            JudgeStep::Done
        },
        JudgeStep::RunCase(k) => if !succeeded {
            after_cases(k + 1, case_count, has_packing)
        } else if has_special_judge {
            JudgeStep::SpecialJudge(k)
        } else {
            JudgeStep::CompareOutput(k)
        },
        JudgeStep::SpecialJudge(k) => after_cases(k + 1, case_count, has_packing),
        JudgeStep::CompareOutput(k) => after_cases(k + 1, case_count, has_packing),
        JudgeStep::ApplyPacking => JudgeStep::Finish,
        JudgeStep::Finish => JudgeStep::Done,
        JudgeStep::Done => JudgeStep::Done,
    }
}

/// How an output is compared and how much memory it is counted as using.
#[derive(Debug, Clone, Copy)]
pub struct OutputCheck {
    pub matched: bool,
    pub memory: usize,
}

/// Compares a program's output with the answer. For a standard problem both
/// are normalised first (`deal_string_standard`); otherwise they must be
/// equal as they are. The memory counted is the length in bytes of the output
/// as compared.
pub fn compare_outputs(problem_type: ConfigProblemType, test_out: String, standard_out: String) -> (r: OutputCheck)
    ensures
        problem_type == ConfigProblemType::Standard ==> {
            &&& r.matched == (standardized(test_out@) == standardized(standard_out@))
            &&& r.memory == vstd::utf8::encode_utf8(standardized(test_out@)).len() as usize
        },
        problem_type != ConfigProblemType::Standard ==> {
            &&& r.matched == (test_out@ == standard_out@)
            &&& r.memory == vstd::utf8::encode_utf8(test_out@).len() as usize
        },
{
    if problem_type == ConfigProblemType::Standard {
        let out = deal_string_standard(test_out);
        let ans = deal_string_standard(standard_out);
        let memory = out.as_str().len();
        OutputCheck { matched: out == ans, memory }
    } else {
        let memory = test_out.as_str().len();
        OutputCheck { matched: test_out == standard_out, memory }
    }
}

/// The running times of the cases after case 0 (the compilation).
pub open spec fn case_times_spec(cases: Seq<APIPostResponseCase>) -> Seq<usize> {
    Seq::new((if cases.len() > 0 { cases.len() - 1 } else { 0 }) as nat, |i: int| cases[i + 1].time)
}

/// The running times of the cases after case 0 (the compilation), in order.
pub fn case_times(cases: &Vec<APIPostResponseCase>) -> (r: Vec<usize>)
    ensures
        r@ == case_times_spec(cases@),
{
    let mut r: Vec<usize> = Vec::new();
    if cases.len() == 0 {
        assert(r@ =~= case_times_spec(cases@));
        return r;
    }
    let mut i: usize = 1;
    while i < cases.len()
        invariant
            1 <= i <= cases.len(),
            r@ == Seq::new((i - 1) as nat, |k: int| cases@[k + 1].time),
        decreases cases.len() - i,
    {
        r.push(cases[i].time);
        assert(r@ =~= Seq::new(i as nat, |k: int| cases@[k + 1].time));
        i += 1;
    }
    proof {
        assert(i == cases.len());
        let spec_times = case_times_spec(cases@);
        assert(spec_times.len() == cases@.len() - 1);
        assert(r@.len() == cases@.len() - 1);
        assert forall|k: int| 0 <= k < r@.len() implies r@[k] == spec_times[k] by {}
        assert(r@ =~= spec_times);
    }
    r
}

/// `b` is `a` with every result (of the job and of each case) Running, and
/// the job's state Running.
pub open spec fn is_running_copy(a: APIPostResponse, b: APIPostResponse) -> bool {
    &&& same_job(b, a)
    &&& b.updated_time == a.updated_time
    &&& b.state == APIPostResponseState::Running
    &&& b.result == APIPostResponseResult::Running
    &&& b.cases@.len() == a.cases@.len()
    &&& forall|k: int|
        0 <= k < a.cases@.len() ==> {
            &&& (#[trigger] b.cases@[k]).id == a.cases@[k].id
            &&& b.cases@[k].result == APIPostResponseResult::Running
            &&& b.cases@[k].time == a.cases@[k].time
            &&& b.cases@[k].memory == a.cases@[k].memory
            &&& b.cases@[k].info@ == a.cases@[k].info@
        }
}

/// Puts a job in the running queue: a copy of its answer in which the job
/// and every case are running.
pub fn running_dealer(queue: &mut Vec<APIPostResponse>, new_response: &APIPostResponse)
    ensures
        final(queue)@.len() == old(queue)@.len() + 1,
        forall|i: int| 0 <= i < old(queue)@.len() ==> final(queue)@[i] == old(queue)@[i],
        is_running_copy(*new_response, final(queue)@.last()),
{
    let mut cases: Vec<APIPostResponseCase> = Vec::new();
    let mut i: usize = 0;
    while i < new_response.cases.len()
        invariant
            i <= new_response.cases@.len(),
            cases@.len() == i,
            forall|k: int|
                0 <= k < i ==> {
                    &&& (#[trigger] cases@[k]).id == new_response.cases@[k].id
                    &&& cases@[k].result == APIPostResponseResult::Running
                    &&& cases@[k].time == new_response.cases@[k].time
                    &&& cases@[k].memory == new_response.cases@[k].memory
                    &&& cases@[k].info@ == new_response.cases@[k].info@
                },
        decreases new_response.cases@.len() - i,
    {
        cases.push(new_response.cases[i].with_result(APIPostResponseResult::Running));
        i += 1;
    }
    let running = APIPostResponse {
        id: new_response.id,
        created_time: new_response.created_time.clone(),
        updated_time: new_response.updated_time.clone(),
        submission: new_response.submission.duplicate(),
        state: APIPostResponseState::Running,
        result: APIPostResponseResult::Running,
        cases,
    };
    queue.push(running);
}

/// Answers a job at once, before it is judged: a fresh answer (queueing and
/// waiting) for the job, numbered by the running queue's length, with case 0
/// and every case of the problem waiting. A running copy of it joins the
/// queue.
pub fn waiting_dealer(api_body: &APIPostJob, case_count: usize, queue: &mut Vec<APIPostResponse>) -> (r: APIPostResponse)
    requires
        case_count < usize::MAX,
    ensures
        r.id == old(queue)@.len(),
        r.submission == *api_body,
        r.state == APIPostResponseState::Queueing,
        r.result == APIPostResponseResult::Waiting,
        r.cases@.len() == case_count + 1,
        forall|k: int| 0 <= k <= case_count ==> is_plain_case(#[trigger] r.cases@[k], k, APIPostResponseResult::Waiting, 0, 0),
        final(queue)@.len() == old(queue)@.len() + 1,
        forall|i: int| 0 <= i < old(queue)@.len() ==> final(queue)@[i] == old(queue)@[i],
        is_running_copy(r, final(queue)@.last()),
{
    let mut new_response = APIPostResponse::new();
    new_response.submission = api_body.duplicate();
    let mut num: usize = 0;
    while num < case_count + 1
        invariant
            case_count < usize::MAX,
            num <= case_count + 1,
            new_response.cases@.len() == num,
            new_response.submission == *api_body,
            new_response.state == APIPostResponseState::Queueing,
            new_response.result == APIPostResponseResult::Waiting,
            forall|k: int| 0 <= k < num ==> is_plain_case(#[trigger] new_response.cases@[k], k, APIPostResponseResult::Waiting, 0, 0),
        decreases case_count + 1 - num,
    {
        new_response.cases.push(plain_case(num, APIPostResponseResult::Waiting, 0, 0));
        num += 1;
    }
    new_response.id = queue.len();
    running_dealer(queue, &new_response);
    new_response
}

} // verus!
