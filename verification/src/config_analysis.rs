use vstd::prelude::*;

verus! {

broadcast use vstd::string::group_string_axioms;

/// Where the server listens.
#[derive(Debug, Clone)]
pub struct ConfigServer {
    pub bind_address: Option<String>,
    pub bind_port: Option<usize>,
}

impl ConfigServer {
    pub fn new() -> (r: ConfigServer)
        ensures
            r.bind_address is None,
            r.bind_port is None,
    {
        ConfigServer { bind_address: None, bind_port: None }
    }
}

/// A language: its name, the file the source is written to, and the
/// compile command (`%INPUT%` stands for the source file, `%OUTPUT%` for the
/// program built).
#[derive(Debug, Clone)]
pub struct ConfigLanguage {
    pub name: String,
    pub file_name: String,
    pub command: Vec<String>,
}

impl ConfigLanguage {
    pub fn new() -> (r: ConfigLanguage)
        ensures
            r.name@ == Seq::<char>::empty(),
            r.file_name@ == Seq::<char>::empty(),
            r.command@.len() == 0,
    {
        ConfigLanguage { name: String::new(), file_name: String::new(), command: Vec::new() }
    }
}

/// How the output of a case is checked: compared after normalisation
/// (standard), compared exactly (strict), by a special judge, or as strict
/// with a score that also depends on the running time (dynamic ranking).
#[derive(Debug, Clone, Copy, PartialEq, Eq, Structural)]
pub enum ConfigProblemType {
    Standard,
    Strict,
    SPJ,
    DynamicRanking,
}

/// `s` with every `'\n'` at its end removed.
pub open spec fn trim_trailing_newlines(s: Seq<char>) -> Seq<char>
    decreases s.len(),
{
    if s.len() > 0 && s.last() == '\n' {
        trim_trailing_newlines(s.drop_last())
    } else {
        s
    }
}

/// Whether a character is dropped from the end of a line: a space or a carriage return.
pub open spec fn is_line_end_blank(c: char) -> bool {
    c == ' ' || c == '\r'
}

/// One line with every space and carriage return at its end removed.
pub open spec fn trim_line_end(s: Seq<char>) -> Seq<char>
    decreases s.len(),
{
    if s.len() > 0 && is_line_end_blank(s.last()) {
        trim_line_end(s.drop_last())
    } else {
        s
    }
}

/// The lines of `s`, split at each `'\n'` (the separators are not kept);
/// there is always at least one line.
pub open spec fn split_lines(s: Seq<char>) -> Seq<Seq<char>>
    decreases s.len(),
{
    if s.len() == 0 {
        seq![Seq::<char>::empty()]
    } else {
        let prev = split_lines(s.drop_last());
        if s.last() == '\n' {
            prev.push(Seq::<char>::empty())
        } else {
            prev.update(prev.len() - 1, prev.last().push(s.last()))
        }
    }
}

/// The lines joined with `'\n'` between each two of them.
pub open spec fn join_lines(ls: Seq<Seq<char>>) -> Seq<char>
    decreases ls.len(),
{
    if ls.len() == 0 {
        Seq::<char>::empty()
    } else if ls.len() == 1 {
        ls[0]
    } else {
        join_lines(ls.drop_last()) + seq!['\n'] + ls.last()
    }
}

/// Each line followed by a `'\n'`.
pub open spec fn lines_with_newline(ls: Seq<Seq<char>>) -> Seq<char>
    decreases ls.len(),
{
    if ls.len() == 0 {
        Seq::<char>::empty()
    } else {
        lines_with_newline(ls.drop_last()) + ls.last() + seq!['\n']
    }
}

/// The text as the standard comparison sees it: spaces and carriage returns
/// removed from the end of every line, then the newlines at the end of the
/// text removed.
pub open spec fn standardized(s: Seq<char>) -> Seq<char> {
    trim_trailing_newlines(join_lines(split_lines(s).map_values(|l: Seq<char>| trim_line_end(l))))
}

pub(crate) proof fn lemma_split_lines_nonempty(s: Seq<char>)
    ensures
        split_lines(s).len() >= 1,
    decreases s.len(),
{
    if s.len() > 0 {
        lemma_split_lines_nonempty(s.drop_last());
    }
}

proof fn lemma_join_push(ls: Seq<Seq<char>>, x: Seq<char>)
    ensures
        join_lines(ls.push(x)) == lines_with_newline(ls) + x,
    decreases ls.len(),
{
    if ls.len() == 0 {
        assert(ls.push(x).len() == 1);
        assert(lines_with_newline(ls) + x =~= x);
    } else {
        let init = ls.drop_last();
        lemma_join_push(init, ls.last());
        assert(ls.push(x).drop_last() =~= ls);
        assert(init.push(ls.last()) =~= ls);
        assert(join_lines(ls.push(x)) =~= lines_with_newline(ls) + x);
    }
}

/// Appends one character to a string.
/// Calls std's `String::push`, documented to append the given char to the
/// end of the string; the contract claims exactly that.
#[verifier::external_body]
pub(crate) fn push_char(s: &mut String, c: char)
    ensures
        final(s)@ == old(s)@.push(c),
{
    s.push(c);
}

pub(crate) fn chars_of(s: &str) -> (v: Vec<char>)
    ensures
        v@ == s@,
{
    let mut v: Vec<char> = Vec::new();
    for c in it: s.chars()
        invariant
            v@ == it.seq().take(it.index() as int),
    {
        v.push(c);
    }
    v
}

fn string_of(v: &Vec<char>) -> (s: String)
    ensures
        s@ == v@,
{
    let mut s = String::new();
    let mut i: usize = 0;
    while i < v.len()
        invariant
            i <= v.len(),
            s@ == v@.take(i as int),
        decreases v.len() - i,
    {
        push_char(&mut s, v[i]);
        assert(v@.take(i + 1) =~= v@.take(i as int).push(v@[i as int]));
        i += 1;
    }
    assert(v@.take(v.len() as int) =~= v@);
    s
}

/// Appends `line`, without its trailing spaces and carriage returns, to `out`.
fn push_trimmed_line(out: &mut Vec<char>, line: &Vec<char>)
    ensures
        final(out)@ == old(out)@ + trim_line_end(line@),
{
    let mut k: usize = line.len();
    assert(line@.take(k as int) =~= line@);
    while k > 0 && (line[k - 1] == ' ' || line[k - 1] == '\r')
        invariant
            k <= line.len(),
            trim_line_end(line@) == trim_line_end(line@.take(k as int)),
        decreases k,
    {
        assert(line@.take(k as int).drop_last() =~= line@.take(k - 1));
        k -= 1;
    }
    let ghost start = out@;
    let mut j: usize = 0;
    while j < k
        invariant
            j <= k <= line.len(),
            out@ == start + line@.take(j as int),
        decreases k - j,
    {
        out.push(line[j]);
        assert(line@.take(j + 1) =~= line@.take(j as int).push(line@[j as int]));
        j += 1;
    }
}

/// Normalises a text for the standard comparison of an output with its
/// answer: removes the spaces and carriage returns at the end of every line,
/// then the newlines at the end of the text.
pub fn deal_string_standard(target: String) -> (r: String)
    ensures
        r@ == standardized(target@),
{
    let chars = chars_of(target.as_str());
    let end: usize = chars.len();
    let ghost body = chars@;
    let mut out: Vec<char> = Vec::new();
    let mut line: Vec<char> = Vec::new();
    let ghost mut done: Seq<Seq<char>> = Seq::empty();
    let mut i: usize = 0;
    while i < end
        invariant
            i <= end == chars.len(),
            body == chars@,
            split_lines(body.take(i as int)) == done.push(line@),
            out@ == lines_with_newline(done.map_values(|l: Seq<char>| trim_line_end(l))),
        decreases end - i,
    {
        let c = chars[i];
        assert(body.take(i + 1).drop_last() =~= body.take(i as int));
        assert(body.take(i + 1).last() == c);
        if c == '\n' {
            push_trimmed_line(&mut out, &line);
            out.push('\n');
            proof {
                let f = |l: Seq<char>| trim_line_end(l);
                assert(done.push(line@).map_values(f) =~= done.map_values(f).push(trim_line_end(line@)));
                assert(done.push(line@).map_values(f).drop_last() =~= done.map_values(f));
                assert(out@ =~= lines_with_newline(done.push(line@).map_values(f)));
                done = done.push(line@);
            }
            line = Vec::new();
            assert(line@ =~= Seq::<char>::empty());
        } else {
            line.push(c);
            proof {
                let old_lines = split_lines(body.take(i as int));
                assert(old_lines.update(old_lines.len() - 1, old_lines.last().push(c)) =~= done.push(line@));
            }
        }
        i += 1;
    }
    push_trimmed_line(&mut out, &line);
    let ghost joined = out@;
    proof {
        let f = |l: Seq<char>| trim_line_end(l);
        assert(body.take(end as int) =~= body);
        lemma_join_push(done.map_values(f), trim_line_end(line@));
        assert(done.push(line@).map_values(f) =~= done.map_values(f).push(trim_line_end(line@)));
        assert(joined == join_lines(split_lines(body).map_values(f)));
    }
    while out.len() > 0 && out[out.len() - 1] == '\n'
        invariant
            trim_trailing_newlines(out@) == trim_trailing_newlines(joined),
        decreases out.len(),
    {
        let ghost before = out@;
        out.pop();
        assert(out@ =~= before.drop_last());
    }
    string_of(&out)
}

} // verus!
