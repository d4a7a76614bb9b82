//! Reading the status text of the network: lines, fields, short names, and
//! the servers that the configuration allows.

use crate::config_loader::{allowed_set, AppConfig};
use crate::server::{lemma_views_push, named_in, views, Server, ServerView};
use crate::text::{chars_of, contains_text, is_space, is_space_char, lemma_texts_push, texts};
use vstd::prelude::*;
use vstd::string::{StrSliceExecFns, StringExecFns};

verus! {

/// The comment marker: a line whose first field starts with it is skipped.
pub const COMMENT_MARK: char = '#';

/// What a scan runs over: whitespace, anything but whitespace, or anything
/// but one character.
#[derive(Clone, Copy, Debug)]
pub enum Run {
    Spaces,
    Word,
    UpTo(char),
}

/// Whether a scan over `run` goes on at `c`.
pub open spec fn in_run(run: Run, c: char) -> bool {
    match run {
        Run::Spaces => is_space(c),
        Run::Word => !is_space(c),
        Run::UpTo(stop) => c != stop,
    }
}

/// The length of the longest prefix of `s` that a scan over `run` covers.
pub open spec fn run_len(s: Seq<char>, run: Run) -> nat
    decreases s.len(),
{
    if s.len() == 0 || !in_run(run, s[0]) {
        0
    } else {
        1 + run_len(s.drop_first(), run)
    }
}

/// The short name of a dotted identifier: what stands before its first dot.
pub open spec fn short_name(ident: Seq<char>) -> Seq<char> {
    ident.take(run_len(ident, Run::UpTo('.')) as int)
}

/// The fields of a line: its maximal runs of characters that are no
/// whitespace, from left to right.
pub open spec fn fields(line: Seq<char>) -> Seq<Seq<char>>
    decreases line.len(),
    via fields_decreases
{
    let gap = run_len(line, Run::Spaces);
    if gap >= line.len() {
        Seq::empty()
    } else {
        let rest = line.skip(gap as int);
        let n = run_len(rest, Run::Word);
        seq![rest.take(n as int)] + fields(rest.skip(n as int))
    }
}

#[via_fn]
proof fn fields_decreases(line: Seq<char>) {
    let gap = run_len(line, Run::Spaces);
    if gap < line.len() {
        lemma_run_len(line, Run::Spaces);
        lemma_run_len(line.skip(gap as int), Run::Word);
    }
}

/// The lines of a text: what stands between its newline characters.
pub open spec fn lines(text: Seq<char>) -> Seq<Seq<char>>
    decreases text.len(),
{
    let n = run_len(text, Run::UpTo('\n'));
    if n >= text.len() {
        seq![text]
    } else {
        seq![text.take(n as int)] + lines(text.skip(n as int + 1))
    }
}

/// The record that a status line gives: the first field is the address, and
/// the second the dotted identifier whose short name names the peer. A line
/// with fewer than two fields gives none, nor does one whose first field
/// starts with the comment marker.
pub open spec fn line_record(line: Seq<char>) -> Option<ServerView> {
    let f = fields(line);
    if f.len() >= 2 && f[0][0] != COMMENT_MARK {
        Some(ServerView { name: short_name(f[1]), ip: f[0] })
    } else {
        None
    }
}

/// `line_record` as a function value.
pub open spec fn record_of() -> spec_fn(Seq<char>) -> Option<ServerView> {
    |line: Seq<char>| line_record(line)
}

/// The records of all lines of a status text, in the order of the lines.
pub open spec fn records(text: Seq<char>) -> Seq<ServerView> {
    lines(text).filter_map(record_of())
}

/// The servers that a status text reports and `allowed` names, in the order
/// of the lines.
pub open spec fn status_servers(text: Seq<char>, allowed: Set<Seq<char>>) -> Seq<ServerView> {
    records(text).filter(named_in(allowed))
}

/// `run_len` stops at the first character outside the run, or at the end.
pub proof fn lemma_run_len(s: Seq<char>, run: Run)
    ensures
        run_len(s, run) <= s.len(),
        forall|i: int| 0 <= i < run_len(s, run) ==> in_run(run, #[trigger] s[i]),
        run_len(s, run) < s.len() ==> !in_run(run, s[run_len(s, run) as int]),
    decreases s.len(),
{
    if s.len() > 0 && in_run(run, s[0]) {
        let t = s.drop_first();
        lemma_run_len(t, run);
        assert forall|i: int| 0 <= i < run_len(s, run) implies in_run(run, #[trigger] s[i]) by {
            if i > 0 {
                assert(s[i] == t[i - 1]);
            }
        }
        if run_len(s, run) < s.len() {
            assert(s[run_len(s, run) as int] == t[run_len(t, run) as int]);
        }
    }
}

/// A prefix that lies within the run and ends where the run ends is the run.
pub proof fn lemma_run_len_unique(s: Seq<char>, run: Run, n: int)
    requires
        0 <= n <= s.len(),
        forall|i: int| 0 <= i < n ==> in_run(run, #[trigger] s[i]),
        n < s.len() ==> !in_run(run, s[n]),
    ensures
        run_len(s, run) == n,
    decreases s.len(),
{
    if n > 0 {
        let t = s.drop_first();
        assert(in_run(run, s[0]));
        assert forall|i: int| 0 <= i < n - 1 implies in_run(run, #[trigger] t[i]) by {
            assert(t[i] == s[i + 1]);
        }
        if n - 1 < t.len() {
            assert(t[n - 1] == s[n]);
        }
        lemma_run_len_unique(t, run, n - 1);
    }
}

/// One more character of the run lengthens it by one.
proof fn lemma_run_len_step(s: Seq<char>, run: Run, i: int)
    requires
        0 <= i < s.len(),
        in_run(run, s[i]),
    ensures
        run_len(s.skip(i), run) == 1 + run_len(s.skip(i + 1), run),
{
    assert(s.skip(i).drop_first() =~= s.skip(i + 1));
}

/// Every field holds at least one character, and no whitespace.
pub proof fn lemma_fields_are_words(line: Seq<char>)
    ensures
        forall|k: int|
            0 <= k < fields(line).len() ==> (#[trigger] fields(line)[k]).len() > 0 && forall|
                i: int,
            | 0 <= i < fields(line)[k].len() ==> !is_space(#[trigger] fields(line)[k][i]),
    decreases line.len(),
{
    let gap = run_len(line, Run::Spaces);
    lemma_run_len(line, Run::Spaces);
    if gap < line.len() {
        let rest = line.skip(gap as int);
        let n = run_len(rest, Run::Word);
        lemma_run_len(rest, Run::Word);
        lemma_fields_are_words(rest.skip(n as int));
        let word = rest.take(n as int);
        let more = fields(rest.skip(n as int));
        assert(fields(line) == seq![word] + more);
        assert forall|k: int| 0 <= k < fields(line).len() implies (#[trigger] fields(
            line,
        )[k]).len() > 0 && forall|i: int|
            0 <= i < fields(line)[k].len() ==> !is_space(#[trigger] fields(line)[k][i]) by {
            if k == 0 {
                assert(fields(line)[0] == word);
                assert forall|i: int| 0 <= i < word.len() implies !is_space(
                    #[trigger] word[i],
                ) by {
                    assert(in_run(Run::Word, rest[i]));
                }
            } else {
                assert(fields(line)[k] == more[k - 1]);
            }
        }
    }
}

/// Whitespace at the end of a line changes nothing in its fields; so a
/// carriage return before the newline is taken for the end of the line.
pub proof fn lemma_fields_ignore_trailing_space(line: Seq<char>, c: char)
    requires
        is_space(c),
    ensures
        fields(line.push(c)) == fields(line),
    decreases line.len(),
{
    let longer = line.push(c);
    let gap = run_len(line, Run::Spaces);
    lemma_run_len(line, Run::Spaces);
    if gap >= line.len() {
        assert forall|i: int| 0 <= i < longer.len() implies in_run(
            Run::Spaces,
            #[trigger] longer[i],
        ) by {
            if i < line.len() {
                assert(longer[i] == line[i]);
            }
        }
        lemma_run_len_unique(longer, Run::Spaces, longer.len() as int);
    } else {
        assert forall|i: int| 0 <= i < gap implies in_run(Run::Spaces, #[trigger] longer[i]) by {
            assert(longer[i] == line[i]);
        }
        assert(longer[gap as int] == line[gap as int]);
        lemma_run_len_unique(longer, Run::Spaces, gap as int);
        let rest = line.skip(gap as int);
        let n = run_len(rest, Run::Word);
        lemma_run_len(rest, Run::Word);
        let longer_rest = longer.skip(gap as int);
        assert(longer_rest =~= rest.push(c));
        assert forall|i: int| 0 <= i < n implies in_run(Run::Word, #[trigger] longer_rest[i]) by {
            assert(longer_rest[i] == rest[i]);
        }
        if n < rest.len() {
            assert(longer_rest[n as int] == rest[n as int]);
        }
        lemma_run_len_unique(longer_rest, Run::Word, n as int);
        assert(longer_rest.take(n as int) =~= rest.take(n as int));
        assert(longer_rest.skip(n as int) =~= rest.skip(n as int).push(c));
        lemma_fields_ignore_trailing_space(rest.skip(n as int), c);
    }
}

/// The short name is what stands before the first dot of the identifier, and
/// the whole identifier where it holds no dot.
pub proof fn lemma_short_name(ident: Seq<char>)
    ensures
        short_name(ident).is_prefix_of(ident),
        !short_name(ident).contains('.'),
        ident.contains('.') ==> short_name(ident).len() < ident.len() && ident[short_name(
            ident,
        ).len() as int] == '.',
        !ident.contains('.') ==> short_name(ident) == ident,
{
    let n = run_len(ident, Run::UpTo('.'));
    let short = short_name(ident);
    lemma_run_len(ident, Run::UpTo('.'));
    assert(short =~= ident.subrange(0, n as int));
    if short.contains('.') {
        let i = choose|i: int| 0 <= i < short.len() && short[i] == '.';
        assert(in_run(Run::UpTo('.'), ident[i]));
    }
    if ident.contains('.') {
        let i = choose|i: int| 0 <= i < ident.len() && ident[i] == '.';
        if n >= ident.len() {
            assert(in_run(Run::UpTo('.'), ident[i]));
        }
    } else {
        if n < ident.len() {
            assert(ident[n as int] == '.');
            assert(ident.contains('.'));
        }
        assert(short =~= ident);
    }
}

/// A line of whitespace alone.
pub open spec fn is_blank(line: Seq<char>) -> bool {
    forall|i: int| 0 <= i < line.len() ==> is_space(#[trigger] line[i])
}

/// A line whose first character that is no whitespace is the comment marker.
pub open spec fn is_comment(line: Seq<char>) -> bool {
    exists|i: int|
        0 <= i < line.len() && #[trigger] line[i] == COMMENT_MARK && forall|j: int|
            0 <= j < i ==> is_space(#[trigger] line[j])
}

/// A blank line is one without fields, and a comment line one whose first
/// field starts with the comment marker: neither gives a record.
pub proof fn lemma_blank_and_comment_lines(line: Seq<char>)
    ensures
        is_blank(line) <==> fields(line).len() == 0,
        is_comment(line) <==> fields(line).len() > 0 && fields(line)[0][0] == COMMENT_MARK,
        is_blank(line) || is_comment(line) ==> line_record(line) is None,
{
    let gap = run_len(line, Run::Spaces);
    lemma_run_len(line, Run::Spaces);
    if is_blank(line) {
        assert forall|i: int| 0 <= i < line.len() implies in_run(
            Run::Spaces,
            #[trigger] line[i],
        ) by {}
        lemma_run_len_unique(line, Run::Spaces, line.len() as int);
    }
    if is_comment(line) {
        let i = choose|i: int|
            0 <= i < line.len() && #[trigger] line[i] == COMMENT_MARK && forall|j: int|
                0 <= j < i ==> is_space(#[trigger] line[j]);
        assert forall|j: int| 0 <= j < i implies in_run(Run::Spaces, #[trigger] line[j]) by {}
        lemma_run_len_unique(line, Run::Spaces, i);
    }
    if gap < line.len() {
        let rest = line.skip(gap as int);
        let n = run_len(rest, Run::Word);
        lemma_run_len(rest, Run::Word);
        assert(in_run(Run::Word, rest[0]));
        assert(fields(line)[0] == rest.take(n as int));
        assert(fields(line)[0][0] == line[gap as int]);
        assert(!is_space(line[gap as int]));
        if fields(line)[0][0] == COMMENT_MARK {
            assert forall|j: int| 0 <= j < gap implies is_space(#[trigger] line[j]) by {
                assert(in_run(Run::Spaces, line[j]));
            }
            assert(is_comment(line));
        }
    } else {
        assert forall|i: int| 0 <= i < line.len() implies is_space(#[trigger] line[i]) by {
            assert(in_run(Run::Spaces, line[i]));
        }
    }
}

/// A blank line or a comment line among the lines of a status text changes
/// nothing in the records that the lines give.
pub proof fn lemma_skipped_line(all: Seq<Seq<char>>, i: int)
    requires
        0 <= i < all.len(),
        is_blank(all[i]) || is_comment(all[i]),
    ensures
        all.filter_map(record_of()) == all.remove(i).filter_map(record_of()),
    decreases all.len(),
{
    lemma_blank_and_comment_lines(all[i]);
    if i == all.len() - 1 {
        assert(all.remove(i) =~= all.drop_last());
    } else {
        let front = all.drop_last();
        lemma_skipped_line(front, i);
        assert(all.remove(i).drop_last() =~= front.remove(i));
        assert(all.remove(i).last() == all.last());
    }
}

/// A status text gives exactly those of its records whose name is allowed.
pub proof fn lemma_status_servers(text: Seq<char>, allowed: Set<Seq<char>>, s: ServerView)
    ensures
        status_servers(text, allowed).contains(s) <==> records(text).contains(s)
            && allowed.contains(s.name),
{
    broadcast use vstd::seq_lib::group_filter_ensures;

    let all = records(text);
    let kept = status_servers(text, allowed);
    if kept.contains(s) {
        let i = choose|i: int| 0 <= i < kept.len() && kept[i] == s;
        assert(named_in(allowed)(kept[i]));
        all.lemma_filter_contains_rev(named_in(allowed), s);
    }
    if all.contains(s) && allowed.contains(s.name) {
        let i = choose|i: int| 0 <= i < all.len() && all[i] == s;
        assert(named_in(allowed)(all[i]));
        assert(kept.contains(all[i]));
    }
}

impl Run {
    /// Decides `in_run` on a character.
    pub fn holds(self, c: char) -> (b: bool)
        ensures
            b == in_run(self, c),
    {
        match self {
            Run::Spaces => is_space_char(c),
            Run::Word => !is_space_char(c),
            Run::UpTo(stop) => c != stop,
        }
    }
}

/// Where the scan over `run` that starts at `from` ends.
fn run_end(cs: &Vec<char>, from: usize, run: Run) -> (end: usize)
    requires
        from <= cs.len(),
    ensures
        end == from + run_len(cs@.skip(from as int), run),
        from <= end <= cs.len(),
{
    let mut i: usize = from;
    while i < cs.len() && run.holds(cs[i])
        invariant
            from <= i <= cs.len(),
            run_len(cs@.skip(from as int), run) == (i - from) + run_len(cs@.skip(i as int), run),
        decreases cs.len() - i,
    {
        proof {
            lemma_run_len_step(cs@, run, i as int);
        }
        i += 1;
    }
    proof {
        if i < cs.len() {
            assert(cs@.skip(i as int)[0] == cs@[i as int]);
        }
    }
    i
}

/// The characters of `s` from position `from` up to position `to`, as a string.
fn piece(s: &str, from: usize, to: usize) -> (p: String)
    requires
        from <= to <= s@.len(),
    ensures
        p@ == s@.subrange(from as int, to as int),
{
    s.substring_char(from, to).to_owned()
}

/// The short name of a dotted identifier.
pub fn short_name_of(ident: &str) -> (name: String)
    ensures
        name@ == short_name(ident@),
{
    let cs = chars_of(ident);
    let end = run_end(&cs, 0, Run::UpTo('.'));
    proof {
        assert(cs@.skip(0) =~= cs@);
    }
    piece(ident, 0, end)
}

/// Splits a line into its fields.
pub fn split_fields(line: &str) -> (out: Vec<String>)
    ensures
        texts(out@) == fields(line@),
{
    let cs = chars_of(line);
    let mut out: Vec<String> = Vec::new();
    let mut pos: usize = 0;
    proof {
        assert(cs@.skip(0) =~= cs@);
        assert(texts(out@) + fields(cs@) =~= fields(cs@));
    }
    loop
        invariant
            cs@ == line@,
            pos <= cs.len(),
            fields(cs@) == texts(out@) + fields(cs@.skip(pos as int)),
        ensures
            texts(out@) == fields(line@),
        decreases cs.len() - pos,
    {
        let ghost tail = cs@.skip(pos as int);
        let start = run_end(&cs, pos, Run::Spaces);
        if start >= cs.len() {
            proof {
                assert(fields(tail) =~= Seq::empty());
                assert(texts(out@) + fields(tail) =~= texts(out@));
            }
            break;
        }
        let end = run_end(&cs, start, Run::Word);
        let word = piece(line, start, end);
        proof {
            let rest = tail.skip(start - pos);
            assert(rest =~= cs@.skip(start as int));
            lemma_run_len(tail, Run::Spaces);
            assert(in_run(Run::Word, rest[0]));
            assert(rest.take(end - start) =~= cs@.subrange(start as int, end as int));
            assert(rest.skip(end - start) =~= cs@.skip(end as int));
            assert(fields(tail) == seq![word@] + fields(cs@.skip(end as int)));
            lemma_texts_push(out@, word);
            assert(texts(out@).push(word@) + fields(cs@.skip(end as int)) =~= texts(out@) + fields(
                tail,
            ));
        }
        out.push(word);
        pos = end;
    }
    out
}

/// Splits a text into its lines.
pub fn split_lines(text: &str) -> (out: Vec<String>)
    ensures
        texts(out@) == lines(text@),
{
    let cs = chars_of(text);
    let mut out: Vec<String> = Vec::new();
    let mut pos: usize = 0;
    proof {
        assert(cs@.skip(0) =~= cs@);
        assert(texts(out@) + lines(cs@) =~= lines(cs@));
    }
    loop
        invariant_except_break
            lines(cs@) == texts(out@) + lines(cs@.skip(pos as int)),
        invariant
            cs@ == text@,
            pos <= cs.len(),
        ensures
            texts(out@) == lines(text@),
        decreases cs.len() - pos,
    {
        let ghost tail = cs@.skip(pos as int);
        let end = run_end(&cs, pos, Run::UpTo('\n'));
        let line = piece(text, pos, end);
        proof {
            lemma_texts_push(out@, line);
            assert(tail.take(end - pos) =~= cs@.subrange(pos as int, end as int));
        }
        out.push(line);
        if end >= cs.len() {
            proof {
                assert(tail.take(end - pos) =~= tail);
                assert(lines(tail) =~= seq![tail]);
                assert(texts(out@) =~= lines(cs@));
            }
            break;
        }
        proof {
            assert(tail.skip(end - pos + 1) =~= cs@.skip(end + 1));
            assert(texts(out@) + lines(cs@.skip(end + 1)) =~= lines(cs@));
        }
        pos = end + 1;
    }
    out
}

/// Reads one status line.
pub fn parse_line(line: &str) -> (r: Option<Server>)
    ensures
        match r {
            Some(s) => line_record(line@) == Some(s@),
            None => line_record(line@) is None,
        },
{
    let f = split_fields(line);
    proof {
        lemma_fields_are_words(line@);
    }
    if f.len() < 2 {
        return None;
    }
    assert(texts(f@)[0] == f@[0]@);
    assert(texts(f@)[1] == f@[1]@);
    if f[0].as_str().get_char(0) == COMMENT_MARK {
        return None;
    }
    Some(Server { name: short_name_of(f[1].as_str()), ip: f[0].clone() })
}

/// Reads a status text: the servers that it reports and `allowed` names, in the
/// order of the lines.
pub fn parse_status(allowed: &Vec<String>, status_text: &str) -> (servers: Vec<Server>)
    ensures
        views(servers@) == status_servers(status_text@, texts(allowed@).to_set()),
{
    let all = split_lines(status_text);
    let ghost names = texts(allowed@).to_set();
    let mut servers: Vec<Server> = Vec::new();
    let mut i: usize = 0;
    proof {
        reveal(Seq::filter);
        assert(texts(all@).take(0) =~= Seq::empty());
    }
    while i < all.len()
        invariant
            i <= all.len(),
            names == texts(allowed@).to_set(),
            views(servers@) == texts(all@).take(i as int).filter_map(record_of()).filter(
                named_in(names),
            ),
        decreases all.len() - i,
    {
        let ghost done = texts(all@).take(i as int);
        let ghost next = texts(all@).take(i + 1);
        proof {
            reveal(Seq::filter);
            assert(next.drop_last() =~= done);
            assert(next.last() == all@[i as int]@);
        }
        match parse_line(all[i].as_str()) {
            Some(s) => {
                proof {
                    assert(next.filter_map(record_of()) == done.filter_map(record_of()) + seq![s@]);
                    assert(done.filter_map(record_of()) + seq![s@] =~= done.filter_map(
                        record_of(),
                    ).push(s@));
                    assert(done.filter_map(record_of()).push(s@).drop_last() =~= done.filter_map(
                        record_of(),
                    ));
                }
                if contains_text(allowed, s.name.as_str()) {
                    proof {
                        lemma_views_push(servers@, s);
                    }
                    servers.push(s);
                }
            },
            None => {},
        }
        i += 1;
    }
    proof {
        assert(texts(all@).take(i as int) =~= texts(all@));
    }
    servers
}

/// What a status query left behind: whether it ended well, and what it wrote
/// to its output and to its error stream.
#[derive(Debug)]
pub struct StatusOutput {
    pub success: bool,
    pub stdout: String,
    pub stderr: String,
}

/// The fault of a status query.
#[derive(Debug)]
pub enum StatusError {
    /// The query did not end well; this is what it wrote to its error stream.
    CommandFailed(String),
}

/// What the fault of a query that wrote `stderr` to its error stream says.
pub open spec fn status_fault_text(stderr: Seq<char>) -> Seq<char> {
    "'tailscale status' command failed: "@ + stderr
}

impl StatusError {
    /// What this fault says.
    pub fn message(&self) -> (line: String)
        ensures
            match *self {
                StatusError::CommandFailed(stderr) => line@ == status_fault_text(stderr@),
            },
    {
        match self {
            StatusError::CommandFailed(stderr) => {
                let mut line = String::from_str("'tailscale status' command failed: ");
                line.append(stderr.as_str());
                line
            },
        }
    }
}

/// Reads what a status query left behind. A query that did not end well is a
/// fault that holds its error stream. Else the result is the servers that its
/// output reports and some category of `config` allows, in the order of the
/// lines.
pub fn get_servers(config: &AppConfig, output: &StatusOutput) -> (r: Result<
    Vec<Server>,
    StatusError,
>)
    ensures
        match r {
            Ok(servers) => output.success && views(servers@) == status_servers(
                output.stdout@,
                allowed_set(config@.allowed),
            ),
            Err(StatusError::CommandFailed(stderr)) => !output.success && stderr@
                == output.stderr@,
        },
{
    if !output.success {
        return Err(StatusError::CommandFailed(output.stderr.clone()));
    }
    let allowed = config.allowed.host_names();
    proof {
        assert(texts(allowed@).to_set() =~= allowed_set(config@.allowed));
    }
    Ok(parse_status(&allowed, output.stdout.as_str()))
}

} // verus!
