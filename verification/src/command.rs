//! Commands and their outcomes.
//!
//! A command line is word-split by POSIX shell rules, then at most one
//! input redirection (`< path`) and one output redirection (`> path`)
//! are extracted from the words; what remains is the program name and
//! its arguments.

use vstd::prelude::*;
use vstd::string::*;

use crate::error::Error;
use crate::failure::Failure;
use crate::text::first_pos;
use crate::text::lemma_first_pos_is;
use crate::text::str_eq;

verus! {

/// The mathematical content of an `Outcome`.
#[verifier::ext_equal]
pub struct OutcomeModel {
    pub e_code: Option<int>,
    pub std_out: Seq<char>,
    pub std_err: Seq<char>,
}

/// The neutral outcome: exit code zero and no output.  It is what a
/// script block expects when no annotation line says otherwise.
pub open spec fn default_outcome() -> OutcomeModel {
    OutcomeModel { e_code: Some(0), std_out: Seq::empty(), std_err: Seq::empty() }
}

/// The result of running a command, or the result a script block
/// expects of it: an exit code (`None` when the process was killed by
/// a signal before it could exit) and the captured standard output and
/// standard error texts.
#[derive(Debug, Clone)]
pub struct Outcome {
    pub e_code: Option<i32>,
    pub std_out: String,
    pub std_err: String,
}

impl View for Outcome {
    type V = OutcomeModel;

    open spec fn view(&self) -> OutcomeModel {
        OutcomeModel {
            e_code: match self.e_code {
                Some(c) => Some(c as int),
                None => None,
            },
            std_out: self.std_out@,
            std_err: self.std_err@,
        }
    }
}

impl Default for Outcome {
    /// The neutral outcome.
    fn default() -> (r: Self)
        ensures
            r@ == default_outcome(),
    {
        let r = Outcome { e_code: Some(0), std_out: String::new(), std_err: String::new() };
        proof {
            assert(r@ =~= default_outcome());
        }
        r
    }
}

impl Outcome {
    /// An identical copy of the outcome.
    pub fn duplicate(&self) -> (r: Outcome)
        ensures
            r@ == self@,
    {
        let r = Outcome {
            e_code: self.e_code,
            std_out: self.std_out.clone(),
            std_err: self.std_err.clone(),
        };
        proof {
            assert(r@ =~= self@);
        }
        r
    }
}

impl PartialEq for Outcome {
    /// Two outcomes are equal exactly when exit code, standard output
    /// and standard error all are: exact text match, no normalization.
    fn eq(&self, other: &Outcome) -> (r: bool) {
        let codes_eq = match (self.e_code, other.e_code) {
            (Some(a), Some(b)) => a == b,
            (None, None) => true,
            _ => false,
        };
        let r = codes_eq && self.std_out == other.std_out && self.std_err == other.std_err;
        proof {
            if r {
                assert(self@ =~= other@);
            }
        }
        r
    }
}

impl Eq for Outcome {}

impl vstd::std_specs::cmp::PartialEqSpecImpl for Outcome {
    open spec fn obeys_eq_spec() -> bool {
        true
    }

    open spec fn eq_spec(&self, other: &Outcome) -> bool {
        self@ == other@
    }
}

/// The views of a sequence of words.
pub open spec fn word_views(ws: Seq<String>) -> Seq<Seq<char>> {
    ws.map_values(|w: String| w@)
}

/// The views of a sequence of name/value pairs.
pub open spec fn pair_views(ps: Seq<(String, String)>) -> Seq<(Seq<char>, Seq<char>)> {
    ps.map_values(|p: (String, String)| (p.0@, p.1@))
}

/// What `shlex::split` returns on a line: the POSIX-shell word
/// splitting of its characters, or `None` when the line cannot be
/// split (unbalanced quoting).  The result is a function of the
/// characters of the line alone.
pub uninterp spec fn split_words(line: Seq<char>) -> Option<Seq<Seq<char>>>;

/// Relies on `shlex::split`: word-splits a line using POSIX shell
/// quoting and escaping rules, and returns `None` exactly when the
/// input is erroneous (its documentation's term for unbalanced quoting
/// or a trailing escape).
#[verifier::external_body]
fn shell_split(line: &str) -> (r: Option<Vec<String>>)
    ensures
        match r {
            Some(ws) => split_words(line@) == Some(word_views(ws@)),
            None => split_words(line@) is None,
        },
{
    shlex::split(line)
}

/// The index of the first word equal to `tok`, if there is one.
pub open spec fn find_word(ws: Seq<Seq<char>>, tok: Seq<char>) -> Option<int>
    decreases ws.len(),
{
    if ws.len() == 0 {
        None
    } else if ws[0] == tok {
        Some(0)
    } else {
        match find_word(ws.drop_first(), tok) {
            Some(i) => Some(i + 1),
            None => None,
        }
    }
}

/// `find_word` finds exactly the first occurrence: an index below
/// which `tok` does not occur, and at which it does (or which is the
/// end), determines the result.
pub proof fn lemma_find_word_is(ws: Seq<Seq<char>>, tok: Seq<char>, k: int)
    requires
        0 <= k <= ws.len(),
        forall|j: int| 0 <= j < k ==> ws[j] != tok,
        k < ws.len() ==> ws[k] == tok,
    ensures
        k < ws.len() ==> find_word(ws, tok) == Some(k),
        k == ws.len() ==> find_word(ws, tok) is None,
    decreases ws.len(),
{
    if ws.len() > 0 && ws[0] != tok {
        let t = ws.drop_first();
        assert(forall|j: int| 0 <= j < k - 1 ==> t[j] == ws[j + 1] && #[trigger] t[j] != tok);
        lemma_find_word_is(t, tok, k - 1);
    }
}

/// Extracting a redirection introduced by the standalone word `tok`:
/// the first occurrence of `tok` and the word after it are removed,
/// and the word after it is the redirection path.  `tok` as the last
/// word has no path after it and is an error.
pub open spec fn extract_redirect(ws: Seq<Seq<char>>, tok: Seq<char>) -> Result<
    (Seq<Seq<char>>, Option<Seq<char>>),
    Error,
> {
    match find_word(ws, tok) {
        None => Ok((ws, None)),
        Some(i) => if i + 1 < ws.len() {
            Ok((ws.remove(i).remove(i), Some(ws[i + 1])))
        } else {
            Err(Error::MissingRedirectionTarget)
        },
    }
}

/// The mathematical content of a `Command`.
#[verifier::ext_equal]
pub struct CommandModel {
    /// The original command line.
    pub raw: Seq<char>,
    /// Program name first, then the arguments.
    pub argv: Seq<Seq<char>>,
    /// Path standard input is redirected from.
    pub input_path: Option<Seq<char>>,
    /// Path standard output is redirected to.
    pub output_path: Option<Seq<char>>,
}

/// What parsing a command line yields: the words of the line with the
/// redirections taken out, the input redirection extracted first.  A
/// line that cannot be split, or whose words (redirections aside) are
/// none, is an error.
pub open spec fn parse_command(line: Seq<char>) -> Result<CommandModel, Error> {
    match split_words(line) {
        None => Err(Error::MalformedSyntax),
        Some(ws) => if ws.len() == 0 {
            Err(Error::EmptyCommand)
        } else {
            match extract_redirect(ws, seq!['<']) {
                Err(e) => Err(e),
                Ok((ws1, input_path)) => match extract_redirect(ws1, seq!['>']) {
                    Err(e) => Err(e),
                    Ok((ws2, output_path)) => if ws2.len() == 0 {
                        Err(Error::EmptyCommand)
                    } else {
                        Ok(CommandModel { raw: line, argv: ws2, input_path, output_path })
                    },
                },
            }
        },
    }
}

/// One executable step of a script.
#[derive(Debug, Clone)]
pub struct Command {
    /// The original command line, kept for diagnostics.
    pub cmd_line_string: String,
    cmd_line: Vec<String>,
    input_path: Option<String>,
    redirection_path: Option<String>,
}

impl View for Command {
    type V = CommandModel;

    closed spec fn view(&self) -> CommandModel {
        CommandModel {
            raw: self.cmd_line_string@,
            argv: word_views(self.cmd_line@),
            input_path: match self.input_path {
                Some(p) => Some(p@),
                None => None,
            },
            output_path: match self.redirection_path {
                Some(p) => Some(p@),
                None => None,
            },
        }
    }
}

/// Does `w` consist of the one character `tok`?
fn word_is(w: &str, tok: char) -> (r: bool)
    ensures
        r == (w@ == seq![tok]),
{
    let r = w.unicode_len() == 1 && w.get_char(0) == tok;
    proof {
        if r {
            assert(w@ =~= seq![tok]);
        }
    }
    r
}

/// The index of the first word that is the single character `tok`.
fn find_word_in(ws: &Vec<String>, tok: char) -> (r: Option<usize>)
    ensures
        match r {
            Some(i) => i < ws.len() && find_word(word_views(ws@), seq![tok]) == Some(i as int),
            None => find_word(word_views(ws@), seq![tok]) is None,
        },
{
    let mut i: usize = 0;
    while i < ws.len()
        invariant
            0 <= i <= ws@.len(),
            forall|j: int| 0 <= j < i ==> word_views(ws@)[j] != seq![tok],
        decreases ws@.len() - i,
    {
        if word_is(ws[i].as_str(), tok) {
            proof {
                lemma_find_word_is(word_views(ws@), seq![tok], i as int);
            }
            return Some(i);
        }
        i = i + 1;
    }
    proof {
        lemma_find_word_is(word_views(ws@), seq![tok], ws@.len() as int);
    }
    None
}

impl Command {
    /// A well-formed command names a program: `argv` is never empty.
    pub open spec fn wf(&self) -> bool {
        self@.argv.len() > 0
    }

    /// Parses one command line: POSIX word-splitting, then extraction
    /// of at most one input and one output redirection, exactly as
    /// `parse_command` describes.
    pub fn new(cmd_line_string: &str) -> (r: Result<Command, Error>)
        ensures
            match r {
                Ok(c) => parse_command(cmd_line_string@) == Ok::<CommandModel, Error>(c@)
                    && c.wf(),
                Err(e) => parse_command(cmd_line_string@) == Err::<CommandModel, Error>(e),
            },
    {
        let mut ws = match shell_split(cmd_line_string) {
            Some(ws) => ws,
            None => {
                return Err(Error::MalformedSyntax);
            },
        };
        if ws.len() == 0 {
            return Err(Error::EmptyCommand);
        }
        let ghost ws0 = word_views(ws@);
        let input_path = match find_word_in(&ws, '<') {
            Some(i) => {
                if i + 1 < ws.len() {
                    let path = ws[i + 1].clone();
                    ws.remove(i);
                    ws.remove(i);
                    proof {
                        assert(word_views(ws@) =~= ws0.remove(i as int).remove(i as int));
                    }
                    Some(path)
                } else {
                    return Err(Error::MissingRedirectionTarget);
                }
            },
            None => None,
        };
        let ghost ws1 = word_views(ws@);
        let redirection_path = match find_word_in(&ws, '>') {
            Some(i) => {
                if i + 1 < ws.len() {
                    let path = ws[i + 1].clone();
                    ws.remove(i);
                    ws.remove(i);
                    proof {
                        assert(word_views(ws@) =~= ws1.remove(i as int).remove(i as int));
                    }
                    Some(path)
                } else {
                    return Err(Error::MissingRedirectionTarget);
                }
            },
            None => None,
        };
        if ws.len() == 0 {
            return Err(Error::EmptyCommand);
        }
        let c = Command {
            cmd_line_string: String::from_str(cmd_line_string),
            cmd_line: ws,
            input_path,
            redirection_path,
        };
        proof {
            let m = parse_command(cmd_line_string@)->Ok_0;
            assert(c@ =~= m);
        }
        Ok(c)
    }

    /// The original command line, as the script held it.
    pub fn raw_line(&self) -> (r: String)
        ensures
            r@ == self@.raw,
    {
        self.cmd_line_string.clone()
    }

    /// The program name and the arguments, the program first.
    pub fn argv(&self) -> (r: &Vec<String>)
        ensures
            word_views(r@) == self@.argv,
    {
        &self.cmd_line
    }

    /// The file standard input is redirected from, if any.
    pub fn input_path(&self) -> (r: &Option<String>)
        ensures
            match r {
                Some(p) => self@.input_path == Some(p@),
                None => self@.input_path is None,
            },
    {
        &self.input_path
    }

    /// The file standard output is redirected to, if any.
    pub fn redirection_path(&self) -> (r: &Option<String>)
        ensures
            match r {
                Some(p) => self@.output_path == Some(p@),
                None => self@.output_path is None,
            },
    {
        &self.redirection_path
    }
}

/// A command line that word-splits to no tokens at all is refused as
/// an empty command.
pub proof fn lemma_empty_command(line: Seq<char>)
    requires
        split_words(line) == Some(Seq::<Seq<char>>::empty()),
    ensures
        parse_command(line) == Err::<CommandModel, Error>(Error::EmptyCommand),
{
}

/// A trailing output redirection: when a line's words are command
/// words followed by `>` and a path, with no redirection word among
/// the command words, parsing drops exactly those two trailing words,
/// records the path, and keeps the command words unchanged in order.
pub proof fn lemma_trailing_output_redirect(line: Seq<char>, ws: Seq<Seq<char>>, path: Seq<char>)
    requires
        split_words(line) == Some(ws.push(seq!['>']).push(path)),
        ws.len() > 0,
        forall|j: int| 0 <= j < ws.len() ==> #[trigger] ws[j] != seq!['<'] && ws[j] != seq!['>'],
        path != seq!['<'],
    ensures
        parse_command(line) == Ok::<CommandModel, Error>(
            CommandModel { raw: line, argv: ws, input_path: None, output_path: Some(path) },
        ),
{
    let toks = ws.push(seq!['>']).push(path);
    assert(seq!['>'] != seq!['<']) by {
        assert(seq!['>'][0] != seq!['<'][0]);
    }
    assert(forall|j: int| 0 <= j < toks.len() ==> #[trigger] toks[j] != seq!['<']);
    lemma_find_word_is(toks, seq!['<'], toks.len() as int);
    assert(toks[ws.len() as int] == seq!['>']);
    lemma_find_word_is(toks, seq!['>'], ws.len() as int);
    assert(toks.remove(ws.len() as int).remove(ws.len() as int) =~= ws);
    assert(toks[ws.len() as int + 1] == path);
    let m = parse_command(line)->Ok_0;
    assert(m =~= CommandModel { raw: line, argv: ws, input_path: None, output_path: Some(path) });
}

/// An input and an output redirection together: when a line's words
/// are `a < p b > q c`, with no redirection word among `a`, `b` and
/// `c`, parsing extracts both independently — the path words `p` and
/// `q` are recorded, the four extracted words are gone, and the
/// remaining words `a b c` keep their order.
pub proof fn lemma_both_redirects(
    line: Seq<char>,
    a: Seq<Seq<char>>,
    p: Seq<char>,
    b: Seq<Seq<char>>,
    q: Seq<char>,
    c: Seq<Seq<char>>,
)
    requires
        split_words(line) == Some(a + seq![seq!['<'], p] + b + seq![seq!['>'], q] + c),
        a.len() + b.len() + c.len() > 0,
        forall|j: int| 0 <= j < a.len() ==> #[trigger] a[j] != seq!['<'] && a[j] != seq!['>'],
        forall|j: int| 0 <= j < b.len() ==> #[trigger] b[j] != seq!['<'] && b[j] != seq!['>'],
        forall|j: int| 0 <= j < c.len() ==> #[trigger] c[j] != seq!['<'] && c[j] != seq!['>'],
    ensures
        parse_command(line) == Ok::<CommandModel, Error>(
            CommandModel { raw: line, argv: a + b + c, input_path: Some(p), output_path: Some(q) },
        ),
{
    let toks = a + seq![seq!['<'], p] + b + seq![seq!['>'], q] + c;
    let na = a.len() as int;
    let nb = b.len() as int;
    assert(seq!['>'] != seq!['<']) by {
        assert(seq!['>'][0] != seq!['<'][0]);
    }
    assert(forall|j: int| 0 <= j < na ==> toks[j] == a[j]);
    assert(toks[na] == seq!['<']);
    assert(toks[na + 1] == p);
    lemma_find_word_is(toks, seq!['<'], na);
    let toks1 = toks.remove(na).remove(na);
    assert(toks1 =~= a + b + seq![seq!['>'], q] + c);
    assert(forall|j: int| 0 <= j < na ==> toks1[j] == a[j]);
    assert(forall|j: int| 0 <= j < nb ==> toks1[na + j] == b[j]);
    assert(toks1[na + nb] == seq!['>']);
    assert(toks1[na + nb + 1] == q);
    lemma_find_word_is(toks1, seq!['>'], na + nb);
    assert(toks1.remove(na + nb).remove(na + nb) =~= a + b + c);
    let m = parse_command(line)->Ok_0;
    assert(m =~= CommandModel {
        raw: line,
        argv: a + b + c,
        input_path: Some(p),
        output_path: Some(q),
    });
}

/// The mathematical content of an `Action`.
pub enum ActionModel {
    ChangeDir(Seq<char>),
    SetVars(Seq<(Seq<char>, Seq<char>)>),
    UnsetVars(Seq<Seq<char>>),
    Spawn,
}

/// What running a command means, resolved once from its first word: a
/// builtin with its arguments already validated, or an external
/// program to spawn.  Performing the action — changing the working
/// directory, mutating the environment, spawning — is the caller's
/// part; deciding it is this library's.
#[derive(Debug, Clone)]
pub enum Action {
    /// `cd dir`: change the working directory to `dir` and update the
    /// `PWD` environment variable.
    ChangeDir(String),
    /// `export NAME=VALUE ...`: set each pair in the environment.
    SetVars(Vec<(String, String)>),
    /// `unset NAME ...`: remove each name from the environment.
    UnsetVars(Vec<String>),
    /// Anything else: spawn `argv[0]` with the remaining words as its
    /// arguments and the command's redirections.
    Spawn,
}

impl View for Action {
    type V = ActionModel;

    open spec fn view(&self) -> ActionModel {
        match self {
            Action::ChangeDir(d) => ActionModel::ChangeDir(d@),
            Action::SetVars(ps) => ActionModel::SetVars(pair_views(ps@)),
            Action::UnsetVars(ns) => ActionModel::UnsetVars(word_views(ns@)),
            Action::Spawn => ActionModel::Spawn,
        }
    }
}

/// Splitting `NAME=VALUE`: defined exactly when the word holds one
/// single `=`, which separates the name from the value.
pub open spec fn split_pair(w: Seq<char>) -> Option<(Seq<char>, Seq<char>)> {
    let p = first_pos(w, '=');
    if p < w.len() && first_pos(w.subrange(p + 1, w.len() as int), '=') == w.len() - p - 1 {
        Some((w.subrange(0, p), w.subrange(p + 1, w.len() as int)))
    } else {
        None
    }
}

/// The `NAME=VALUE` pairs of an `export` argument list, or `None` if
/// any argument is not such a pair.
pub open spec fn export_pairs(args: Seq<Seq<char>>) -> Option<Seq<(Seq<char>, Seq<char>)>>
    decreases args.len(),
{
    if args.len() == 0 {
        Some(Seq::empty())
    } else {
        match split_pair(args[0]) {
            None => None,
            Some(p) => match export_pairs(args.drop_first()) {
                None => None,
                Some(rest) => Some(seq![p] + rest),
            },
        }
    }
}

/// What running the command `c` means.  The first word picks a
/// builtin — `umask` is recognized but refused, `cd` wants exactly one
/// argument, `export` wants only `NAME=VALUE` pairs, `unset` always
/// succeeds — and any other word names a program to spawn.
pub open spec fn plan_for(c: CommandModel) -> Result<ActionModel, Failure>
    recommends
        c.argv.len() > 0,
{
    let head = c.argv[0];
    if head == "umask"@ {
        Err(Failure::UnsupportedBuiltin)
    } else if head == "cd"@ {
        if c.argv.len() == 2 {
            Ok(ActionModel::ChangeDir(c.argv[1]))
        } else {
            Err(Failure::BadArgumentCount)
        }
    } else if head == "export"@ {
        match export_pairs(c.argv.drop_first()) {
            Some(ps) => Ok(ActionModel::SetVars(ps)),
            None => Err(Failure::BadArgumentSyntax),
        }
    } else if head == "unset"@ {
        Ok(ActionModel::UnsetVars(c.argv.drop_first()))
    } else {
        Ok(ActionModel::Spawn)
    }
}

/// Splits one `NAME=VALUE` word, as `split_pair` describes.
fn split_pair_word(w: &str) -> (r: Option<(String, String)>)
    ensures
        match r {
            Some(p) => split_pair(w@) == Some((p.0@, p.1@)),
            None => split_pair(w@) is None,
        },
{
    let n = w.unicode_len();
    let mut p: usize = 0;
    while p < n && w.get_char(p) != '='
        invariant
            0 <= p <= n,
            n == w@.len(),
            forall|j: int| 0 <= j < p ==> w@[j] != '=',
        decreases n - p,
    {
        p = p + 1;
    }
    proof {
        lemma_first_pos_is(w@, '=', p as int);
    }
    if p >= n {
        // no `=` at all
        return None;
    }
    let mut q: usize = p + 1;
    while q < n && w.get_char(q) != '='
        invariant
            p + 1 <= q <= n,
            n == w@.len(),
            forall|j: int| p + 1 <= j < q ==> w@[j] != '=',
        decreases n - q,
    {
        q = q + 1;
    }
    let ghost tail = w@.subrange(p + 1, n as int);
    proof {
        assert(forall|j: int| 0 <= j < q - p - 1 ==> tail[j] != '=');
        lemma_first_pos_is(tail, '=', q - p - 1);
    }
    if q < n {
        // a second `=`
        return None;
    }
    let name = String::from_str(w.substring_char(0, p));
    let value = String::from_str(w.substring_char(p + 1, n));
    Some((name, value))
}

impl Command {
    /// Decides what running this command means, without performing
    /// anything, exactly as `plan_for` describes.
    #[verifier::loop_isolation(false)]
    pub fn plan(&self) -> (r: Result<Action, Failure>)
        requires
            self.wf(),
        ensures
            match r {
                Ok(a) => plan_for(self@) == Ok::<ActionModel, Failure>(a@),
                Err(e) => plan_for(self@) == Err::<ActionModel, Failure>(e),
            },
    {
        let head = self.cmd_line[0].as_str();
        proof {
            assert(self@.argv[0] == self.cmd_line@[0]@);
            assert(forall|j: int|
                0 <= j < self.cmd_line@.len() ==> self@.argv[j] == #[trigger] self.cmd_line@[j]@);
        }
        if str_eq(head, "umask") {
            Err(Failure::UnsupportedBuiltin)
        } else if str_eq(head, "cd") {
            if self.cmd_line.len() == 2 {
                Ok(Action::ChangeDir(self.cmd_line[1].clone()))
            } else {
                Err(Failure::BadArgumentCount)
            }
        } else if str_eq(head, "export") {
            let ghost args = self@.argv.drop_first();
            let mut pairs: Vec<(String, String)> = Vec::new();
            let mut i: usize = 1;
            proof {
                assert(args =~= self@.argv.subrange(1, self@.argv.len() as int));
                assert(pair_views(pairs@) =~= Seq::<(Seq<char>, Seq<char>)>::empty());
            }
            while i < self.cmd_line.len()
                invariant
                    1 <= i <= self.cmd_line.len(),
                    args == self@.argv.subrange(1, self@.argv.len() as int),
                    self@.argv == word_views(self.cmd_line@),
                    match export_pairs(self@.argv.subrange(i as int, self@.argv.len() as int)) {
                        Some(rest) => export_pairs(args) == Some(pair_views(pairs@) + rest),
                        None => export_pairs(args) is None,
                    },
                decreases self.cmd_line.len() - i,
            {
                let ghost rem = self@.argv.subrange(i as int, self@.argv.len() as int);
                let ghost next = self@.argv.subrange(i + 1, self@.argv.len() as int);
                proof {
                    assert(rem[0] == self@.argv[i as int]);
                    assert(rem.drop_first() =~= next);
                }
                match split_pair_word(self.cmd_line[i].as_str()) {
                    Some(pair) => {
                        let ghost old_pairs = pairs@;
                        let ghost x = (pair.0@, pair.1@);
                        pairs.push(pair);
                        proof {
                            assert(pair_views(pairs@) =~= pair_views(old_pairs).push(x));
                            match export_pairs(next) {
                                Some(rest) => {
                                    assert(export_pairs(rem) == Some(seq![x] + rest));
                                    assert(pair_views(old_pairs) + (seq![x] + rest) =~= pair_views(
                                        pairs@,
                                    ) + rest);
                                },
                                None => {
                                    assert(export_pairs(rem) is None);
                                },
                            }
                        }
                    },
                    None => {
                        proof {
                            assert(rem[0] == self.cmd_line@[i as int]@);
                            assert(export_pairs(rem) is None);
                        }
                        return Err(Failure::BadArgumentSyntax);
                    },
                }
                i = i + 1;
            }
            proof {
                assert(self@.argv.subrange(i as int, self@.argv.len() as int).len() == 0);
                if export_pairs(args) is Some {
                    assert(pair_views(pairs@) + Seq::<(Seq<char>, Seq<char>)>::empty()
                        =~= pair_views(pairs@));
                }
            }
            Ok(Action::SetVars(pairs))
        } else if str_eq(head, "unset") {
            let mut names: Vec<String> = Vec::new();
            let mut i: usize = 1;
            while i < self.cmd_line.len()
                invariant
                    1 <= i <= self.cmd_line.len(),
                    names@.len() == i - 1,
                    word_views(names@) =~= word_views(self.cmd_line@).subrange(1, i as int),
                decreases self.cmd_line.len() - i,
            {
                let name_i = self.cmd_line[i].clone();
                let ghost nv = name_i@;
                let ghost old_names = names@;
                proof {
                    assert(old_names.len() == i - 1);
                    assert(nv == self.cmd_line@[i as int]@);
                }
                names.push(name_i);
                proof {
                    assert(names@.len() == i as int);
                    assert(forall|j: int| 0 <= j < i - 1 ==> names@[j] == old_names[j]);
                    assert(names@[i - 1]@ == nv);
                    assert(word_views(names@) =~= word_views(self.cmd_line@).subrange(
                        1,
                        i + 1,
                    ));
                }
                i = i + 1;
            }
            proof {
                assert(word_views(names@) =~= self@.argv.drop_first());
            }
            Ok(Action::UnsetVars(names))
        } else {
            Ok(Action::Spawn)
        }
    }
}

} // verus!
