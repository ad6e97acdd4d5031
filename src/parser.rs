use vstd::prelude::*;
use vstd::string::{StrSliceExecFns, StringExecFns};

use crate::error::{ParsingErr, ParsingErrV};
use crate::expr::{parseExpression, parse_expression_spec};
use crate::lexer::{is_space, matchWhitespace};
use crate::text::{char_vec, parse_i32, parse_i32_spec};
use crate::types::{commands_view, contents_view, Command, CommandV, Content, ContentV};

verus! {

/// Which characters end a piece when a text is split.
#[derive(Debug, Clone, Copy, PartialEq, Eq, Structural)]
pub enum Separator {
    /// `;` or a newline: the end of a statement.
    StatementEnd,
    /// A space or a newline: the end of a word.
    Blank,
}

pub open spec fn is_command_end(c: char) -> bool {
    c == '\n' || c == ';'
}

pub open spec fn separates(sep: Separator, c: char) -> bool {
    match sep {
        Separator::StatementEnd => is_command_end(c),
        Separator::Blank => is_space(c),
    }
}

/// The pieces of `s` between separators, empty ones included.
pub open spec fn split_spec(s: Seq<char>, sep: Separator) -> Seq<Seq<char>>
    decreases s.len(),
{
    if s.len() == 0 {
        seq![Seq::empty()]
    } else {
        let p = split_spec(s.drop_last(), sep);
        if separates(sep, s.last()) {
            p.push(Seq::empty())
        } else {
            p.update(p.len() - 1, p.last().push(s.last()))
        }
    }
}

/// The pieces that are not empty, in order.
pub open spec fn nonempty(ps: Seq<Seq<char>>) -> Seq<Seq<char>>
    decreases ps.len(),
{
    if ps.len() == 0 {
        ps
    } else if ps.last().len() == 0 {
        nonempty(ps.drop_last())
    } else {
        nonempty(ps.drop_last()).push(ps.last())
    }
}

/// The pieces joined with nothing between them.
pub open spec fn concat_all(ps: Seq<Seq<char>>) -> Seq<char>
    decreases ps.len(),
{
    if ps.len() == 0 {
        Seq::empty()
    } else {
        concat_all(ps.drop_last()) + ps.last()
    }
}

pub open spec fn words_of(s: Seq<char>) -> Seq<Seq<char>> {
    nonempty(split_spec(s, Separator::Blank))
}

pub open spec fn statements_of(s: Seq<char>) -> Seq<Seq<char>> {
    nonempty(split_spec(s, Separator::StatementEnd))
}

pub open spec fn kw_let() -> Seq<char> {
    seq!['l', 'e', 't']
}

pub open spec fn kw_set() -> Seq<char> {
    seq!['s', 'e', 't']
}

pub open spec fn kw_add() -> Seq<char> {
    seq!['a', 'd', 'd']
}

pub open spec fn kw_subtract() -> Seq<char> {
    seq!['s', 'u', 'b', 't', 'r', 'a', 'c', 't']
}

pub open spec fn kw_write() -> Seq<char> {
    seq!['w', 'r', 'i', 't', 'e']
}

/// The command that a statement's words form, or why they form none.
pub open spec fn statement_spec(words: Seq<Seq<char>>) -> Result<CommandV, ParsingErrV> {
    if words.len() == 0 {
        Err(ParsingErrV::InvalidNumberOfArguments)
    } else {
        let w = words[0];
        if w == kw_let() || w == kw_set() || w == kw_add() || w == kw_subtract() {
            if words.len() != 3 {
                Err(ParsingErrV::InvalidNumberOfArguments)
            } else {
                match parse_i32_spec(words[2]) {
                    Some(v) => Ok(
                        if w == kw_let() {
                            CommandV::Let(words[1], v)
                        } else if w == kw_set() {
                            CommandV::Assign(words[1], v)
                        } else if w == kw_add() {
                            CommandV::Add(words[1], v)
                        } else {
                            CommandV::Subtract(words[1], v)
                        },
                    ),
                    None => Err(ParsingErrV::NumberParsing),
                }
            }
        } else if w == kw_write() {
            if words.len() < 2 {
                Err(ParsingErrV::InvalidNumberOfArguments)
            } else {
                let operand = concat_all(words.drop_first());
                match parse_expression_spec(operand) {
                    Ok(_) => Ok(CommandV::Write(operand)),
                    Err(e) => Err(e),
                }
            }
        } else {
            Err(ParsingErrV::UnrecognizedCommand(w))
        }
    }
}

/// The commands of a sequence of statements, or the first statement's failure.
pub open spec fn commands_of(stmts: Seq<Seq<char>>) -> Result<Seq<CommandV>, ParsingErrV>
    decreases stmts.len(),
{
    if stmts.len() == 0 {
        Ok(Seq::empty())
    } else {
        match commands_of(stmts.drop_last()) {
            Ok(cs) => match statement_spec(words_of(stmts.last())) {
                Ok(c) => Ok(cs.push(c)),
                Err(e) => Err(e),
            },
            Err(e) => Err(e),
        }
    }
}

/// The commands of a command region: one per non-empty statement.
pub open spec fn region_spec(s: Seq<char>) -> Result<Seq<CommandV>, ParsingErrV> {
    commands_of(statements_of(s))
}

pub open spec fn commands_result(r: Result<Vec<Command>, ParsingErr>) -> Result<
    Seq<CommandV>,
    ParsingErrV,
> {
    match r {
        Ok(cs) => Ok(commands_view(cs@)),
        Err(e) => Err(e@),
    }
}

pub open spec fn strings_view(s: Seq<String>) -> Seq<Seq<char>> {
    s.map_values(|x: String| x@)
}

pub fn matchCommandEnd(character: char) -> (r: bool)
    ensures
        r == is_command_end(character),
{
    match character {
        '\n' => true,
        ';' => true,
        _ => false,
    }
}

fn is_separator(sep: Separator, c: char) -> (r: bool)
    ensures
        r == separates(sep, c),
{
    match sep {
        Separator::StatementEnd => matchCommandEnd(c),
        Separator::Blank => matchWhitespace(c),
    }
}

/// Splits `s` at each separator character, keeping only the non-empty pieces.
fn split_nonempty(s: &str, sep: Separator) -> (r: Vec<String>)
    ensures
        strings_view(r@) == nonempty(split_spec(s@, sep)),
{
    let chars = char_vec(s);
    let n = chars.len();
    let mut pieces: Vec<String> = Vec::new();
    let mut start: usize = 0;
    let mut i: usize = 0;
    let ghost mut done: Seq<Seq<char>> = Seq::empty();
    proof {
        assert(s@.take(0) =~= Seq::<char>::empty());
        assert(s@.subrange(0, 0) =~= Seq::<char>::empty());
        assert(split_spec(s@.take(0), sep) =~= done.push(s@.subrange(0, 0)));
        assert(strings_view(pieces@) =~= nonempty(done));
    }
    while i < n
        invariant
            chars@ == s@,
            n == s@.len(),
            start <= i <= n,
            split_spec(s@.take(i as int), sep) == done.push(s@.subrange(start as int, i as int)),
            strings_view(pieces@) == nonempty(done),
        decreases n - i,
    {
        let c = chars[i];
        proof {
            assert(s@.take(i + 1).drop_last() =~= s@.take(i as int));
            assert(s@.take(i + 1).last() == c);
        }
        if is_separator(sep, c) {
            let ghost piece = s@.subrange(start as int, i as int);
            if start < i {
                let p = s.substring_char(start, i).to_owned();
                pieces.push(p);
                proof {
                    assert(strings_view(pieces@) =~= nonempty(done).push(piece));
                }
            }
            proof {
                assert(done.push(piece).drop_last() =~= done);
                done = done.push(piece);
                assert(s@.subrange(i + 1, i + 1) =~= Seq::<char>::empty());
            }
            start = i + 1;
        } else {
            proof {
                let p = done.push(s@.subrange(start as int, i as int));
                assert(s@.subrange(start as int, i + 1) =~= s@.subrange(start as int, i as int).push(c));
                assert(p.update(p.len() - 1, p.last().push(c)) =~= done.push(
                    s@.subrange(start as int, i + 1),
                ));
            }
        }
        i = i + 1;
    }
    let ghost last = s@.subrange(start as int, n as int);
    proof {
        assert(s@.take(n as int) =~= s@);
        assert(done.push(last).drop_last() =~= done);
    }
    if start < n {
        let p = s.substring_char(start, n).to_owned();
        pieces.push(p);
        proof {
            assert(strings_view(pieces@) =~= nonempty(done).push(last));
        }
    }
    pieces
}

/// Whether two texts hold the same characters.
fn same_text(a: &str, b: &str) -> (r: bool)
    ensures
        r == (a@ == b@),
{
    let x = char_vec(a);
    let y = char_vec(b);
    if x.len() != y.len() {
        return false;
    }
    let mut i: usize = 0;
    while i < x.len()
        invariant
            x@ == a@,
            y@ == b@,
            x.len() == y.len(),
            i <= x.len(),
            x@.take(i as int) == y@.take(i as int),
        decreases x.len() - i,
    {
        if x[i] != y[i] {
            assert(a@[i as int] != b@[i as int]);
            return false;
        }
        assert(x@.take(i + 1) =~= x@.take(i as int).push(x[i as int]));
        assert(y@.take(i + 1) =~= y@.take(i as int).push(y[i as int]));
        i = i + 1;
    }
    assert(x@.take(i as int) =~= x@);
    assert(y@.take(i as int) =~= y@);
    true
}

/// The words `words[1..]` joined with nothing between them.
fn join_operand(words: &Vec<String>) -> (r: String)
    requires
        words.len() >= 1,
    ensures
        r@ == concat_all(strings_view(words@).drop_first()),
{
    let mut r = String::new();
    let mut i: usize = 1;
    proof {
        assert(strings_view(words@).drop_first().take(0) =~= Seq::<Seq<char>>::empty());
    }
    while i < words.len()
        invariant
            1 <= i <= words.len(),
            r@ == concat_all(strings_view(words@).drop_first().take(i - 1)),
        decreases words.len() - i,
    {
        r.append(words[i].as_str());
        proof {
            let ws = strings_view(words@).drop_first();
            assert(ws.take(i as int).drop_last() =~= ws.take(i - 1));
            assert(ws.take(i as int).last() == words@[i as int]@);
        }
        i = i + 1;
    }
    proof {
        let ws = strings_view(words@).drop_first();
        assert(ws.take(i - 1) =~= ws);
    }
    r
}

/// The command of one statement, given its words.
fn parse_statement(words: Vec<String>) -> (r: Result<Command, ParsingErr>)
    ensures
        match statement_spec(strings_view(words@)) {
            Ok(c) => r matches Ok(x) && x@ == c,
            Err(e) => r matches Err(x) && x@ == e,
        },
{
    let ghost ws = strings_view(words@);
    if words.len() == 0 {
        return Err(ParsingErr::InvalidNumberOfArguments);
    }
    proof {
        reveal_strlit("let");
        reveal_strlit("set");
        reveal_strlit("add");
        reveal_strlit("subtract");
        reveal_strlit("write");
        assert("let"@ =~= kw_let());
        assert("set"@ =~= kw_set());
        assert("add"@ =~= kw_add());
        assert("subtract"@ =~= kw_subtract());
        assert("write"@ =~= kw_write());
        assert(ws[0] == words@[0]@);
    }
    let keyword = words[0].as_str();
    let is_let = same_text(keyword, "let");
    let is_set = same_text(keyword, "set");
    let is_add = same_text(keyword, "add");
    let is_subtract = same_text(keyword, "subtract");
    if is_let || is_set || is_add || is_subtract {
        if words.len() != 3 {
            return Err(ParsingErr::InvalidNumberOfArguments);
        }
        proof {
            assert(ws[1] == words@[1]@);
            assert(ws[2] == words@[2]@);
        }
        let val = match parse_i32(words[2].as_str()) {
            Ok(v) => v,
            Err(e) => return Err(ParsingErr::NumberParsing(e)),
        };
        let name = words[1].clone();
        if is_let {
            Ok(Command::Let(name, val))
        } else if is_set {
            Ok(Command::Assign(name, val))
        } else if is_add {
            Ok(Command::Add(name, val))
        } else {
            Ok(Command::Subtract(name, val))
        }
    } else if same_text(keyword, "write") {
        if words.len() < 2 {
            return Err(ParsingErr::InvalidNumberOfArguments);
        }
        let operand = join_operand(&words);
        let operand_copy = operand.clone();
        match parseExpression(operand_copy) {
            Ok(_) => Ok(Command::Write(operand)),
            Err(e) => Err(e),
        }
    } else {
        Err(ParsingErr::UnrecognizedCommand(words[0].clone()))
    }
}

/// Parses a command region: one command per statement, statements ending at
/// `;` or a newline; the first failing statement fails the whole region.
pub fn parseCommand(input: String) -> (r: Result<Vec<Command>, ParsingErr>)
    ensures
        commands_result(r) == region_spec(input@),
{
    let statements = split_nonempty(input.as_str(), Separator::StatementEnd);
    let ghost stmts = strings_view(statements@);
    let mut result_commands: Vec<Command> = Vec::new();
    let mut k: usize = 0;
    proof {
        assert(stmts.take(0) =~= Seq::<Seq<char>>::empty());
        assert(commands_view(result_commands@) =~= Seq::<CommandV>::empty());
    }
    while k < statements.len()
        invariant
            stmts == strings_view(statements@),
            stmts == statements_of(input@),
            k <= statements.len(),
            commands_of(stmts.take(k as int)) == Ok::<Seq<CommandV>, ParsingErrV>(
                commands_view(result_commands@),
            ),
        decreases statements.len() - k,
    {
        let words = split_nonempty(statements[k].as_str(), Separator::Blank);
        proof {
            assert(stmts.take(k + 1).drop_last() =~= stmts.take(k as int));
            assert(stmts.take(k + 1).last() == statements@[k as int]@);
        }
        match parse_statement(words) {
            Ok(command) => {
                proof {
                    assert(commands_view(result_commands@.push(command)) =~= commands_view(
                        result_commands@,
                    ).push(command@));
                }
                result_commands.push(command);
            },
            Err(e) => {
                proof {
                    lemma_commands_error_persists(stmts, k + 1);
                }
                return Err(e);
            },
        }
        k = k + 1;
    }
    proof {
        assert(stmts.take(k as int) =~= stmts);
    }
    Ok(result_commands)
}

proof fn lemma_commands_error_persists(stmts: Seq<Seq<char>>, k: int)
    requires
        0 <= k <= stmts.len(),
        commands_of(stmts.take(k)) is Err,
    ensures
        commands_of(stmts) == commands_of(stmts.take(k)),
    decreases stmts.len() - k,
{
    if k < stmts.len() {
        assert(stmts.take(k + 1).drop_last() =~= stmts.take(k));
        lemma_commands_error_persists(stmts, k + 1);
    } else {
        assert(stmts.take(k) =~= stmts);
    }
}

pub open spec fn as_contents(cs: Seq<CommandV>) -> Seq<ContentV> {
    cs.map_values(|c: CommandV| ContentV::Command(c))
}

/// The segmenter's configuration: the items so far, whether it is inside a
/// command region, and the span read since the last sentinel.
pub type DocConfig = (Seq<ContentV>, bool, Seq<char>);

/// One character of a document consumed by the segmenter; `$` ends a span,
/// which is text outside a command region and a command region inside one.
pub open spec fn doc_step(cfg: DocConfig, c: char) -> Result<DocConfig, ParsingErrV> {
    let (items, reading_command, span) = cfg;
    if c == '$' {
        if reading_command {
            match region_spec(span) {
                Ok(cs) => Ok((items + as_contents(cs), false, Seq::empty())),
                Err(e) => Err(e),
            }
        } else {
            Ok((items.push(ContentV::Text(span)), true, Seq::empty()))
        }
    } else {
        Ok((items, reading_command, span.push(c)))
    }
}

/// The segmenter's configuration after all of `s`, or its first failure.
pub open spec fn doc_prefix(s: Seq<char>) -> Result<DocConfig, ParsingErrV>
    decreases s.len(),
{
    if s.len() == 0 {
        Ok((Seq::empty(), false, Seq::empty()))
    } else {
        match doc_prefix(s.drop_last()) {
            Ok(cfg) => doc_step(cfg, s.last()),
            Err(e) => Err(e),
        }
    }
}

/// The items of a document: its text spans and the commands of its command
/// regions, in order; a region left open at the end is an error, and a
/// final text span is kept only when it is not empty.
pub open spec fn parse_doc(s: Seq<char>) -> Result<Seq<ContentV>, ParsingErrV> {
    match doc_prefix(s) {
        Ok((items, reading_command, span)) => if reading_command {
            Err(ParsingErrV::CommandLeftOpen)
        } else if span.len() > 0 {
            Ok(items.push(ContentV::Text(span)))
        } else {
            Ok(items)
        },
        Err(e) => Err(e),
    }
}

pub open spec fn contents_result(r: Result<Vec<Content>, ParsingErr>) -> Result<
    Seq<ContentV>,
    ParsingErrV,
> {
    match r {
        Ok(cs) => Ok(contents_view(cs@)),
        Err(e) => Err(e@),
    }
}

proof fn lemma_doc_error_persists(s: Seq<char>, k: int)
    requires
        0 <= k <= s.len(),
        doc_prefix(s.take(k)) is Err,
    ensures
        doc_prefix(s) == doc_prefix(s.take(k)),
    decreases s.len() - k,
{
    if k < s.len() {
        assert(s.take(k + 1).drop_last() =~= s.take(k));
        lemma_doc_error_persists(s, k + 1);
    } else {
        assert(s.take(k) =~= s);
    }
}

/// Moves each command to the end of `result`, as a `Content::Command`.
fn append_commands(result: &mut Vec<Content>, commands: Vec<Command>)
    ensures
        contents_view(final(result)@) == contents_view(old(result)@) + as_contents(
            commands_view(commands@),
        ),
{
    let ghost orig = commands@;
    let mut rest = commands;
    let ghost mut k: int = 0;
    proof {
        assert(orig.skip(0) =~= orig);
        assert(as_contents(commands_view(orig.take(0))) =~= Seq::<ContentV>::empty());
        assert(contents_view(result@) =~= contents_view(old(result)@) + Seq::<ContentV>::empty());
    }
    while rest.len() > 0
        invariant
            0 <= k <= orig.len(),
            rest@ == orig.skip(k),
            contents_view(result@) == contents_view(old(result)@) + as_contents(
                commands_view(orig.take(k)),
            ),
        decreases rest.len(),
    {
        let ghost before = contents_view(result@);
        let c = rest.remove(0);
        proof {
            assert(k < orig.len());
            assert(c == orig[k]);
            assert(orig.skip(k + 1) =~= orig.skip(k).remove(0));
            assert(as_contents(commands_view(orig.take(k + 1))) =~= as_contents(
                commands_view(orig.take(k)),
            ).push(ContentV::Command(c@)));
        }
        result.push(Content::Command(c));
        proof {
            assert(contents_view(result@) =~= before.push(ContentV::Command(c@)));
            assert(contents_view(result@) =~= contents_view(old(result)@) + as_contents(
                commands_view(orig.take(k + 1)),
            ));
        }
        proof {
            k = k + 1;
        }
    }
    proof {
        assert(orig.take(k) =~= orig);
    }
}

/// Splits a document into text spans and commands. Sentinels (`$`) open and
/// close command regions; a span before a sentinel is always kept, the span
/// after the last one only when it is not empty.
pub fn parseFile(inputString: String) -> (r: Result<Vec<Content>, ParsingErr>)
    ensures
        contents_result(r) == parse_doc(inputString@),
{
    let chars = char_vec(inputString.as_str());
    let n = chars.len();
    let ghost s = inputString@;
    let mut result: Vec<Content> = Vec::new();
    let mut reading_command: bool = false;
    let mut chunk_start: usize = 0;
    let mut i: usize = 0;
    proof {
        assert(s.take(0) =~= Seq::<char>::empty());
        assert(s.subrange(0, 0) =~= Seq::<char>::empty());
        assert(contents_view(result@) =~= Seq::<ContentV>::empty());
    }
    while i < n
        invariant
            s == inputString@,
            chars@ == s,
            n == s.len(),
            chunk_start <= i <= n,
            doc_prefix(s.take(i as int)) == Ok::<DocConfig, ParsingErrV>(
                (contents_view(result@), reading_command, s.subrange(chunk_start as int, i as int)),
            ),
        decreases n - i,
    {
        let c = chars[i];
        proof {
            assert(s.take(i + 1).drop_last() =~= s.take(i as int));
            assert(s.take(i + 1).last() == c);
        }
        if c == '$' {
            let t = inputString.as_str().substring_char(chunk_start, i).to_owned();
            if reading_command {
                match parseCommand(t) {
                    Ok(commands) => {
                        append_commands(&mut result, commands);
                    },
                    Err(e) => {
                        proof {
                            lemma_doc_error_persists(s, i + 1);
                        }
                        return Err(e);
                    },
                }
            } else {
                let ghost before = contents_view(result@);
                result.push(Content::Text(t));
                proof {
                    assert(contents_view(result@) =~= before.push(
                        ContentV::Text(s.subrange(chunk_start as int, i as int)),
                    ));
                }
            }
            reading_command = !reading_command;
            chunk_start = i + 1;
            proof {
                assert(s.subrange(i + 1, i + 1) =~= Seq::<char>::empty());
            }
        } else {
            proof {
                assert(s.subrange(chunk_start as int, i + 1) =~= s.subrange(
                    chunk_start as int,
                    i as int,
                ).push(c));
            }
        }
        i = i + 1;
    }
    proof {
        assert(s.take(n as int) =~= s);
    }
    if reading_command {
        Err(ParsingErr::CommandLeftOpen)
    } else {
        if chunk_start < n {
            let ghost before = contents_view(result@);
            let t = inputString.as_str().substring_char(chunk_start, n).to_owned();
            result.push(Content::Text(t));
            proof {
                assert(contents_view(result@) =~= before.push(
                    ContentV::Text(s.subrange(chunk_start as int, n as int)),
                ));
            }
        }
        Ok(result)
    }
}

} // verus!
