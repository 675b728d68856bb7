//! The tool server: requests and responses, questions to the user, and what
//! becomes of staged changes.
use crate::kmod::{contains_text, stands_at};
use crate::pathmap::PathMap;
use crate::text::{blank, chars_of, is_blank, join_path, joined, same};
use vstd::prelude::*;
use vstd::string::StringExecFns;

verus! {

// ── Requests and responses ───────────────────────────────────────────

/// A command to run in a sandbox.
#[derive(Debug, Clone)]
pub struct ShellRequest {
    pub command: String,
    pub cwd: Option<String>,
    pub sandbox_dir: Option<String>,
}

/// A question for the changes of a sandbox.
#[derive(Debug, Clone)]
pub struct ListChangesRequest {
    pub cwd: Option<String>,
    pub sandbox_dir: Option<String>,
}

/// What can be done with staged changes.
#[derive(Debug, Clone, Copy, PartialEq, Eq, Structural)]
pub enum ChangeAction {
    Abort,
    Stage,
}

/// A decision on the staged changes of a sandbox.
#[derive(Debug, Clone)]
pub struct DecideChangesRequest {
    pub decision: StagedChangesDecision,
    pub cwd: Option<String>,
    pub sandbox_dir: Option<String>,
}

/// A decision on staged changes.
#[derive(Debug, Clone, Copy, PartialEq, Eq, Structural)]
pub enum StagedChangesDecision {
    Abort,
    Stage,
}

/// A changed file: its path and what became of it.
#[derive(Debug, Clone)]
pub struct ChangeSummary {
    pub path: String,
    pub status: String,
}

/// The outcome of a command.
#[derive(Debug)]
pub struct ShellResponse {
    pub cwd: String,
    pub sandbox_dir: String,
    pub exit_code: i32,
    pub stdout: String,
    pub stderr: String,
    pub changed_files: Vec<ChangeSummary>,
    pub decision_required: bool,
    pub available_actions: Vec<ChangeAction>,
}

/// The changes of a sandbox.
#[derive(Debug)]
pub struct ListChangesResponse {
    pub cwd: String,
    pub sandbox_dir: String,
    pub changed_files: Vec<ChangeSummary>,
    pub decision_required: bool,
}

/// The outcome of a decision.
#[derive(Debug)]
pub struct DecideChangesResponse {
    pub cwd: String,
    pub sandbox_dir: String,
    pub action: ChangeAction,
    pub previous_changed_files: Vec<ChangeSummary>,
    pub remaining_changed_files: Vec<ChangeSummary>,
    pub message: String,
}

/// Questions to the user.
#[derive(Debug, Clone)]
pub struct AskUserRequest {
    pub questions: Vec<AskUserQuestion>,
}

/// A question with the answers that it offers.
#[derive(Debug, Clone)]
pub struct AskUserQuestion {
    pub id: String,
    pub header: String,
    pub question: String,
    pub options: Vec<AskUserOption>,
}

/// An answer on offer.
#[derive(Debug, Clone)]
pub struct AskUserOption {
    pub label: String,
    pub description: String,
}

/// The answers of the user, by question.
#[derive(Debug)]
pub struct AskUserResponse {
    pub answers: PathMap<AskUserAnswer>,
}

/// The answers to one question.
#[derive(Debug, Clone)]
pub struct AskUserAnswer {
    pub answers: Vec<String>,
}

/// The server's own state: where relative directories start from.
#[derive(Debug)]
pub struct AgfsMcpServer {
    pub default_cwd: String,
}

// ── Valid questions ──────────────────────────────────────────────────

/// What is wrong with option `k` of a question, if anything is.
pub open spec fn option_fault(id: Seq<char>, options: Seq<AskUserOption>, k: int) -> Option<
    Seq<char>,
> {
    let o = options[k];
    if blank(o.label@) {
        Some("ask_user question `"@ + id + "` has an empty option label."@)
    } else if blank(o.description@) {
        Some(
            "ask_user question `"@ + id + "` option `"@ + o.label@
                + "` must have a description."@,
        )
    } else if exists|j: int| 0 <= j < k && (#[trigger] options[j]).label@ == o.label@ {
        Some("ask_user question `"@ + id + "` option labels must be unique."@)
    } else {
        None
    }
}

/// What is wrong with the first `n` options of a question, if anything is.
pub open spec fn options_fault(id: Seq<char>, options: Seq<AskUserOption>, n: int) -> Option<
    Seq<char>,
>
    decreases n,
{
    if n <= 0 {
        None
    } else {
        match options_fault(id, options, n - 1) {
            Some(e) => Some(e),
            None => option_fault(id, options, n - 1),
        }
    }
}

/// What is wrong with question `i`, if anything is.
pub open spec fn question_fault(qs: Seq<AskUserQuestion>, i: int) -> Option<Seq<char>> {
    let q = qs[i];
    let id = q.id@;
    if blank(id) {
        Some("ask_user question id must not be empty."@)
    } else if exists|j: int| 0 <= j < i && (#[trigger] qs[j]).id@ == id {
        Some("ask_user question id `"@ + id + "` must be unique."@)
    } else if blank(q.header@) {
        Some("ask_user question `"@ + id + "` must have a non-empty header."@)
    } else if q.header@.len() > 12 {
        Some("ask_user question `"@ + id + "` header must be 12 characters or fewer."@)
    } else if blank(q.question@) {
        Some("ask_user question `"@ + id + "` must have a non-empty prompt."@)
    } else if !(2 <= q.options@.len() <= 3) {
        Some("ask_user question `"@ + id + "` must provide two or three options."@)
    } else {
        options_fault(id, q.options@, q.options@.len() as int)
    }
}

/// What is wrong with the first `n` questions, if anything is.
pub open spec fn questions_fault(qs: Seq<AskUserQuestion>, n: int) -> Option<Seq<char>>
    decreases n,
{
    if n <= 0 {
        None
    } else {
        match questions_fault(qs, n - 1) {
            Some(e) => Some(e),
            None => question_fault(qs, n - 1),
        }
    }
}

/// What is wrong with a request, if anything is: the first fault that a
/// reader from start to end comes upon.
pub open spec fn request_fault(qs: Seq<AskUserQuestion>) -> Option<Seq<char>> {
    if qs.len() == 0 {
        Some("ask_user requires at least one question."@)
    } else if qs.len() > 3 {
        Some("ask_user supports at most three questions."@)
    } else {
        questions_fault(qs, qs.len() as int)
    }
}

/// The three texts one after the other.
fn three(a: &str, b: &str, c: &str) -> (r: String)
    ensures
        r@ == a@ + b@ + c@,
{
    a.to_owned().concat(b).concat(c)
}

/// Checks option `k` of a question.
fn check_option(id: &str, options: &Vec<AskUserOption>, k: usize) -> (r: Option<String>)
    requires
        k < options@.len(),
    ensures
        match (r, option_fault(id@, options@, k as int)) {
            (Some(e), Some(f)) => e@ == f,
            (None, None) => true,
            _ => false,
        },
{
    if is_blank(options[k].label.as_str()) {
        return Some(three("ask_user question `", id, "` has an empty option label."));
    }
    if is_blank(options[k].description.as_str()) {
        let e = three("ask_user question `", id, "` option `");
        return Some(
            e.concat(options[k].label.as_str()).concat("` must have a description."),
        );
    }
    let mut j: usize = 0;
    while j < k
        invariant
            j <= k < options@.len(),
            !blank(options@[k as int].label@),
            !blank(options@[k as int].description@),
            forall|x: int| 0 <= x < j ==> (#[trigger] options@[x]).label@ != options@[k as int].label@,
        decreases k - j,
    {
        if options[j].label == options[k].label {
            return Some(three("ask_user question `", id, "` option labels must be unique."));
        }
        j += 1;
    }
    None
}

/// Checks question `i`.
fn check_question(qs: &Vec<AskUserQuestion>, i: usize) -> (r: Option<String>)
    requires
        i < qs@.len(),
    ensures
        match (r, question_fault(qs@, i as int)) {
            (Some(e), Some(f)) => e@ == f,
            (None, None) => true,
            _ => false,
        },
{
    let q: &AskUserQuestion = &qs[i];
    let id: &str = q.id.as_str();
    if is_blank(id) {
        return Some("ask_user question id must not be empty.".to_owned());
    }
    let mut j: usize = 0;
    while j < i
        invariant
            j <= i < qs@.len(),
            *q == qs@[i as int],
            id@ == q.id@,
            !blank(id@),
            forall|x: int| 0 <= x < j ==> (#[trigger] qs@[x]).id@ != id@,
        decreases i - j,
    {
        if same(qs[j].id.as_str(), id) {
            return Some(three("ask_user question id `", id, "` must be unique."));
        }
        j += 1;
    }
    if is_blank(q.header.as_str()) {
        return Some(three("ask_user question `", id, "` must have a non-empty header."));
    }
    if chars_of(q.header.as_str()).len() > 12 {
        return Some(three("ask_user question `", id, "` header must be 12 characters or fewer."));
    }
    if is_blank(q.question.as_str()) {
        return Some(three("ask_user question `", id, "` must have a non-empty prompt."));
    }
    if q.options.len() < 2 || q.options.len() > 3 {
        return Some(three("ask_user question `", id, "` must provide two or three options."));
    }
    let mut k: usize = 0;
    while k < q.options.len()
        invariant
            k <= q.options@.len(),
            id@ == q.id@,
            *q == qs@[i as int],
            question_fault(qs@, i as int) == options_fault(
                id@,
                q.options@,
                q.options@.len() as int,
            ),
            options_fault(id@, q.options@, k as int) is None,
        decreases q.options@.len() - k,
    {
        if let Some(e) = check_option(id, &q.options, k) {
            proof {
                lemma_options_fault_stays(id@, q.options@, k + 1, q.options@.len() as int);
            }
            return Some(e);
        }
        k += 1;
    }
    None
}

proof fn lemma_options_fault_stays(id: Seq<char>, options: Seq<AskUserOption>, n: int, m: int)
    requires
        n <= m,
        options_fault(id, options, n) is Some,
    ensures
        options_fault(id, options, m) == options_fault(id, options, n),
    decreases m - n,
{
    if n < m {
        lemma_options_fault_stays(id, options, n, m - 1);
    }
}

proof fn lemma_questions_fault_stays(qs: Seq<AskUserQuestion>, n: int, m: int)
    requires
        n <= m,
        questions_fault(qs, n) is Some,
    ensures
        questions_fault(qs, m) == questions_fault(qs, n),
    decreases m - n,
{
    if n < m {
        lemma_questions_fault_stays(qs, n, m - 1);
    }
}

// ── The message to the user ──────────────────────────────────────────

/// The lines for the first `n` options.
pub open spec fn option_lines(options: Seq<AskUserOption>, n: int) -> Seq<char>
    decreases n,
{
    if n <= 0 {
        Seq::empty()
    } else {
        option_lines(options, n - 1) + "\n- "@ + options[n - 1].label@ + ": "@
            + options[n - 1].description@
    }
}

/// The text for the first `n` questions.
pub open spec fn question_text(qs: Seq<AskUserQuestion>, n: int) -> Seq<char>
    decreases n,
{
    if n <= 0 {
        "Answer the following questions to continue."@
    } else {
        question_text(qs, n - 1) + "\n\n"@ + qs[n - 1].header@ + ": "@ + qs[n - 1].question@
            + option_lines(qs[n - 1].options@, qs[n - 1].options@.len() as int)
    }
}

// ── Answers ──────────────────────────────────────────────────────────

/// True when the answer is one of the labels on offer.
pub open spec fn is_offered(options: Seq<AskUserOption>, answer: Seq<char>) -> bool {
    exists|k: int| 0 <= k < options.len() && (#[trigger] options[k]).label@ == answer
}

/// What is wrong with the answers to the first `n` questions, if anything is.
pub open spec fn answers_fault(
    qs: Seq<AskUserQuestion>,
    raw: Map<Seq<char>, String>,
    n: int,
) -> Option<Seq<char>>
    decreases n,
{
    if n <= 0 {
        None
    } else {
        match answers_fault(qs, raw, n - 1) {
            Some(e) => Some(e),
            None => {
                let id = qs[n - 1].id@;
                if !raw.contains_key(id) {
                    Some("ask_user response was missing an answer for `"@ + id + "`."@)
                } else if !is_offered(qs[n - 1].options@, raw[id]@) {
                    Some(
                        "ask_user response for `"@ + id
                            + "` was not one of the provided options."@,
                    )
                } else {
                    None
                }
            },
        }
    }
}

/// True when the map holds the answer to each of the first `n` questions, and
/// nothing else.
pub open spec fn holds_answers(
    m: Map<Seq<char>, AskUserAnswer>,
    qs: Seq<AskUserQuestion>,
    raw: Map<Seq<char>, String>,
    n: int,
) -> bool {
    &&& forall|id: Seq<char>| #[trigger]
        m.contains_key(id) == (exists|i: int| 0 <= i < n && (#[trigger] qs[i]).id@ == id)
    &&& forall|id: Seq<char>| #[trigger]
        m.contains_key(id) ==> raw.contains_key(id) && m[id].answers@.len() == 1
            && m[id].answers@[0]@ == raw[id]@
}

proof fn lemma_answers_fault_stays(
    qs: Seq<AskUserQuestion>,
    raw: Map<Seq<char>, String>,
    n: int,
    m: int,
)
    requires
        n <= m,
        answers_fault(qs, raw, n) is Some,
    ensures
        answers_fault(qs, raw, m) == answers_fault(qs, raw, n),
    decreases m - n,
{
    if n < m {
        lemma_answers_fault_stays(qs, raw, n, m - 1);
    }
}

/// What the user did with the questions.
#[derive(Debug)]
pub enum Elicited {
    /// The form was sent, with answers or without.
    Accepted(Option<PathMap<String>>),
    Declined,
    Cancelled,
}

// ── Decisions ────────────────────────────────────────────────────────

/// The action that a decision is.
pub open spec fn action_of(d: StagedChangesDecision) -> ChangeAction {
    match d {
        StagedChangesDecision::Abort => ChangeAction::Abort,
        StagedChangesDecision::Stage => ChangeAction::Stage,
    }
}

/// What to do next about a decision.
#[derive(Debug, Clone, Copy, PartialEq, Eq, Structural)]
pub enum DecisionStep {
    /// There is nothing to decide.
    NothingStaged,
    /// Destroy the sandbox; nothing remains.
    Destroy,
    /// Leave the sandbox as it is, and look at it once more.
    Keep,
}

/// What to do about a decision, given whether there are staged changes.
pub open spec fn decision_step(d: StagedChangesDecision, staged: bool) -> DecisionStep {
    if !staged {
        DecisionStep::NothingStaged
    } else {
        match d {
            StagedChangesDecision::Abort => DecisionStep::Destroy,
            StagedChangesDecision::Stage => DecisionStep::Keep,
        }
    }
}

/// What the user is told of a step.
pub open spec fn step_message(s: DecisionStep) -> Seq<char> {
    match s {
        DecisionStep::NothingStaged => "No staged changes found."@,
        DecisionStep::Destroy => "Aborted staged changes and removed the sandbox."@,
        DecisionStep::Keep => "Kept staged changes in the sandbox."@,
    }
}

impl AgfsMcpServer {
    pub fn new(default_cwd: String) -> (r: Self)
        ensures
            r.default_cwd == default_cwd,
    {
        AgfsMcpServer { default_cwd }
    }

    /// The directory to work in: the one given, seen from the default, or the default.
    pub fn resolve_cwd(&self, cwd: Option<&str>) -> (r: String)
        ensures
            r@ == (match cwd {
                Some(p) => joined(self.default_cwd@, p@),
                None => self.default_cwd@,
            }),
    {
        match cwd {
            Some(p) => join_path(self.default_cwd.as_str(), p),
            None => self.default_cwd.clone(),
        }
    }

    /// The directory of the sandbox: the one given, seen from the working
    /// directory, or `.staging` there.
    pub fn resolve_sandbox_dir(&self, cwd: &str, sandbox_dir: Option<&str>) -> (r: String)
        ensures
            r@ == (match sandbox_dir {
                Some(p) => joined(cwd@, p@),
                None => joined(cwd@, ".staging"@),
            }),
    {
        match sandbox_dir {
            Some(p) => join_path(cwd, p),
            None => join_path(cwd, ".staging"),
        }
    }

    /// Checks a request: one to three questions with ids of their own, each
    /// with a short header, a prompt, and two or three options with labels of
    /// their own and descriptions. The error is about the first fault.
    pub fn validate_ask_user_request(request: &AskUserRequest) -> (r: Result<(), String>)
        ensures
            match (r, request_fault(request.questions@)) {
                (Ok(()), None) => true,
                (Err(e), Some(f)) => e@ == f,
                _ => false,
            },
    {
        let qs: &Vec<AskUserQuestion> = &request.questions;
        if qs.len() == 0 {
            return Err("ask_user requires at least one question.".to_owned());
        }
        if qs.len() > 3 {
            return Err("ask_user supports at most three questions.".to_owned());
        }
        let mut i: usize = 0;
        while i < qs.len()
            invariant
                i <= qs@.len(),
                qs@ == request.questions@,
                request_fault(qs@) == questions_fault(qs@, qs@.len() as int),
                questions_fault(qs@, i as int) is None,
            decreases qs@.len() - i,
        {
            if let Some(e) = check_question(qs, i) {
                proof {
                    lemma_questions_fault_stays(qs@, i + 1, qs@.len() as int);
                }
                return Err(e);
            }
            i += 1;
        }
        Ok(())
    }

    /// The message that puts the questions to the user.
    pub fn build_ask_user_message(questions: &[AskUserQuestion]) -> (r: String)
        ensures
            r@ == question_text(questions@, questions@.len() as int),
    {
        let mut message = "Answer the following questions to continue.".to_owned();
        let mut i: usize = 0;
        while i < questions.len()
            invariant
                i <= questions@.len(),
                message@ == question_text(questions@, i as int),
            decreases questions@.len() - i,
        {
            let q: &AskUserQuestion = &questions[i];
            message.append("\n\n");
            message.append(q.header.as_str());
            message.append(": ");
            message.append(q.question.as_str());
            let ghost head = message@;
            let mut k: usize = 0;
            assert(head + option_lines(q.options@, 0) =~= head);
            while k < q.options.len()
                invariant
                    k <= q.options@.len(),
                    message@ == head + option_lines(q.options@, k as int),
                decreases q.options@.len() - k,
            {
                let ghost before = message@;
                message.append("\n- ");
                message.append(q.options[k].label.as_str());
                message.append(": ");
                message.append(q.options[k].description.as_str());
                proof {
                    assert(message@ =~= head + option_lines(q.options@, k + 1));
                }
                k += 1;
            }
            i += 1;
        }
        message
    }

    /// Takes the answers to the questions out of what came back. Each question
    /// needs an answer, and the answer must be one of its labels.
    pub fn collect_answers(questions: &[AskUserQuestion], raw: &PathMap<String>) -> (r: Result<
        AskUserResponse,
        String,
    >)
        ensures
            match (r, answers_fault(questions@, raw@, questions@.len() as int)) {
                (Ok(a), None) => holds_answers(
                    a.answers@,
                    questions@,
                    raw@,
                    questions@.len() as int,
                ),
                (Err(e), Some(f)) => e@ == f,
                _ => false,
            },
    {
        let ghost qs = questions@;
        let mut answers: PathMap<AskUserAnswer> = PathMap::new();
        let mut i: usize = 0;
        while i < questions.len()
            invariant
                i <= questions@.len(),
                qs == questions@,
                answers_fault(qs, raw@, i as int) is None,
                holds_answers(answers@, qs, raw@, i as int),
            decreases questions@.len() - i,
        {
            let q: &AskUserQuestion = &questions[i];
            let answer: &String = match raw.get(q.id.as_str()) {
                Some(a) => a,
                None => {
                    proof {
                        lemma_answers_fault_stays(qs, raw@, i + 1, qs.len() as int);
                    }
                    return Err(
                        three(
                            "ask_user response was missing an answer for `",
                            q.id.as_str(),
                            "`.",
                        ),
                    );
                },
            };
            let mut offered: bool = false;
            let mut k: usize = 0;
            while k < q.options.len()
                invariant
                    k <= q.options@.len(),
                    offered == exists|j: int|
                        0 <= j < k && (#[trigger] q.options@[j]).label@ == answer@,
                decreases q.options@.len() - k,
            {
                if q.options[k].label == *answer {
                    offered = true;
                }
                k += 1;
            }
            assert(offered == is_offered(q.options@, answer@));
            if !offered {
                proof {
                    lemma_answers_fault_stays(qs, raw@, i + 1, qs.len() as int);
                }
                return Err(
                    three(
                        "ask_user response for `",
                        q.id.as_str(),
                        "` was not one of the provided options.",
                    ),
                );
            }
            let ghost before = answers@;
            let mut list: Vec<String> = Vec::new();
            list.push(answer.clone());
            answers.insert(q.id.clone(), AskUserAnswer { answers: list });
            proof {
                assert forall|id: Seq<char>| #[trigger] answers@.contains_key(id) == (exists|j: int|
                    0 <= j < i + 1 && (#[trigger] qs[j]).id@ == id) by {
                    if before.contains_key(id) {
                        let j = choose|j: int| 0 <= j < i && (#[trigger] qs[j]).id@ == id;
                        assert(qs[j].id@ == id);
                    }
                    if id == q.id@ {
                        assert(qs[i as int].id@ == id);
                    }
                }
            }
            i += 1;
        }
        Ok(AskUserResponse { answers })
    }

    /// The answers to the questions, given what the user did with them.
    pub fn answers_from(questions: &[AskUserQuestion], elicited: Elicited) -> (r: Result<
        AskUserResponse,
        String,
    >)
        ensures
            match elicited {
                Elicited::Accepted(Some(raw)) => match (
                    r,
                    answers_fault(questions@, raw@, questions@.len() as int),
                ) {
                    (Ok(a), None) => holds_answers(
                        a.answers@,
                        questions@,
                        raw@,
                        questions@.len() as int,
                    ),
                    (Err(e), Some(f)) => e@ == f,
                    _ => false,
                },
                Elicited::Accepted(None) => r is Err && (r->Err_0)@
                    == "ask_user did not return any answers."@,
                Elicited::Declined => r is Err && (r->Err_0)@
                    == "ask_user was declined by the user."@,
                Elicited::Cancelled => r is Err && (r->Err_0)@
                    == "ask_user was cancelled by the user."@,
            },
    {
        match elicited {
            Elicited::Accepted(Some(raw)) => AgfsMcpServer::collect_answers(questions, &raw),
            Elicited::Accepted(None) => Err("ask_user did not return any answers.".to_owned()),
            Elicited::Declined => Err("ask_user was declined by the user.".to_owned()),
            Elicited::Cancelled => Err("ask_user was cancelled by the user.".to_owned()),
        }
    }

    /// Checks a command: it must not be blank.
    pub fn check_command(command: &str) -> (r: Result<(), String>)
        ensures
            match r {
                Ok(()) => !blank(command@),
                Err(e) => blank(command@) && e@ == "command must not be empty"@,
            },
    {
        if is_blank(command) {
            Err("command must not be empty".to_owned())
        } else {
            Ok(())
        }
    }

    /// The response to a command: where files have changed, a decision is asked for.
    pub fn shell_response(
        cwd: String,
        sandbox_dir: String,
        exit_code: i32,
        stdout: String,
        stderr: String,
        changed_files: Vec<ChangeSummary>,
    ) -> (r: ShellResponse)
        ensures
            r.cwd == cwd,
            r.sandbox_dir == sandbox_dir,
            r.exit_code == exit_code,
            r.stdout == stdout,
            r.stderr == stderr,
            r.changed_files == changed_files,
            r.decision_required == (changed_files@.len() > 0),
            r.available_actions@ == (if changed_files@.len() > 0 {
                seq![ChangeAction::Abort, ChangeAction::Stage]
            } else {
                seq![]
            }),
    {
        let decision_required: bool = changed_files.len() > 0;
        let mut available_actions: Vec<ChangeAction> = Vec::new();
        if decision_required {
            available_actions.push(ChangeAction::Abort);
            available_actions.push(ChangeAction::Stage);
        }
        ShellResponse {
            cwd,
            sandbox_dir,
            exit_code,
            stdout,
            stderr,
            changed_files,
            decision_required,
            available_actions,
        }
    }

    /// The response to a question for changes.
    pub fn list_response(
        cwd: String,
        sandbox_dir: String,
        changed_files: Vec<ChangeSummary>,
    ) -> (r: ListChangesResponse)
        ensures
            r.cwd == cwd,
            r.sandbox_dir == sandbox_dir,
            r.changed_files == changed_files,
            r.decision_required == (changed_files@.len() > 0),
    {
        let decision_required: bool = changed_files.len() > 0;
        ListChangesResponse { cwd, sandbox_dir, changed_files, decision_required }
    }

    /// What to do about a decision, given the changes of the sandbox, if there is one.
    pub fn decide(
        decision: StagedChangesDecision,
        previous: Option<&Vec<ChangeSummary>>,
    ) -> (r: DecisionStep)
        ensures
            r == decision_step(
                decision,
                match previous {
                    Some(p) => p@.len() > 0,
                    None => false,
                },
            ),
    {
        let staged: bool = match previous {
            Some(p) => p.len() > 0,
            None => false,
        };
        if !staged {
            DecisionStep::NothingStaged
        } else {
            match decision {
                StagedChangesDecision::Abort => DecisionStep::Destroy,
                StagedChangesDecision::Stage => DecisionStep::Keep,
            }
        }
    }

    /// The response to a decision once its step has been taken. `remaining`
    /// is what the sandbox still holds; after any other step than keeping it
    /// that counts for nothing.
    pub fn decide_response(
        cwd: String,
        sandbox_dir: String,
        decision: StagedChangesDecision,
        step: DecisionStep,
        previous: Vec<ChangeSummary>,
        remaining: Vec<ChangeSummary>,
    ) -> (r: DecideChangesResponse)
        ensures
            r.cwd == cwd,
            r.sandbox_dir == sandbox_dir,
            r.action == action_of(decision),
            r.previous_changed_files == previous,
            r.remaining_changed_files@ == (if step == DecisionStep::Keep {
                remaining@
            } else {
                Seq::empty()
            }),
            r.message@ == step_message(step),
    {
        let action: ChangeAction = match decision {
            StagedChangesDecision::Abort => ChangeAction::Abort,
            StagedChangesDecision::Stage => ChangeAction::Stage,
        };
        let (message, left) = match step {
            DecisionStep::NothingStaged => ("No staged changes found.".to_owned(), Vec::new()),
            DecisionStep::Destroy => (
                "Aborted staged changes and removed the sandbox.".to_owned(),
                Vec::new(),
            ),
            DecisionStep::Keep => ("Kept staged changes in the sandbox.".to_owned(), remaining),
        };
        DecideChangesResponse {
            cwd,
            sandbox_dir,
            action,
            previous_changed_files: previous,
            remaining_changed_files: left,
            message,
        }
    }
}

/// A valid request has answers that collect without a fault: any choice of a
/// label for each question does.
pub proof fn law_offered_answers_collect(
    qs: Seq<AskUserQuestion>,
    raw: Map<Seq<char>, String>,
    n: int,
)
    requires
        0 <= n <= qs.len(),
        forall|i: int|
            0 <= i < qs.len() ==> raw.contains_key((#[trigger] qs[i]).id@) && is_offered(
                qs[i].options@,
                raw[qs[i].id@]@,
            ),
    ensures
        answers_fault(qs, raw, n) is None,
    decreases n,
{
    if n > 0 {
        law_offered_answers_collect(qs, raw, n - 1);
        assert(raw.contains_key(qs[n - 1].id@));
    }
}

/// Answers collect without a fault only where every question has one, and it
/// is among those on offer.
pub proof fn law_collected_answers_are_offered(
    qs: Seq<AskUserQuestion>,
    raw: Map<Seq<char>, String>,
    n: int,
    i: int,
)
    requires
        0 <= i < n <= qs.len(),
        answers_fault(qs, raw, n) is None,
    ensures
        raw.contains_key(qs[i].id@),
        exists|k: int|
            0 <= k < qs[i].options@.len() && (#[trigger] qs[i].options@[k]).label@
                == raw[qs[i].id@]@,
    decreases n,
{
    if i < n - 1 {
        law_collected_answers_are_offered(qs, raw, n - 1, i);
    }
}

/// An option says what it is called and what it means.
pub open spec fn is_option(o: AskUserOption) -> bool {
    !blank(o.label@) && !blank(o.description@)
}

/// A question can be asked: it has an id, a short header, a prompt, and two or
/// three options, no two of which are called the same.
pub open spec fn is_question(q: AskUserQuestion) -> bool {
    &&& !blank(q.id@) && !blank(q.header@) && !blank(q.question@)
    &&& q.header@.len() <= 12
    &&& q.options@.len() == 2 || q.options@.len() == 3
    &&& forall|k: int| 0 <= k < q.options@.len() ==> is_option(#[trigger] q.options@[k])
    &&& forall|j: int, k: int|
        0 <= j < k < q.options@.len() ==> (#[trigger] q.options@[j]).label@ != (
        #[trigger] q.options@[k]).label@
}

/// A request can be put to the user: it holds one to three questions, and no
/// two of them have one id.
pub open spec fn is_request(qs: Seq<AskUserQuestion>) -> bool {
    &&& 1 <= qs.len() <= 3
    &&& forall|i: int| 0 <= i < qs.len() ==> is_question(#[trigger] qs[i])
    &&& forall|i: int, j: int|
        0 <= i < j < qs.len() ==> (#[trigger] qs[i]).id@ != (#[trigger] qs[j]).id@
}

proof fn lemma_options_valid(id: Seq<char>, options: Seq<AskUserOption>, n: int)
    requires
        0 <= n <= options.len(),
    ensures
        options_fault(id, options, n) is None <==> ((forall|k: int|
            0 <= k < n ==> is_option(#[trigger] options[k])) && (forall|j: int, k: int|
            0 <= j < k < n ==> (#[trigger] options[j]).label@ != (#[trigger] options[k]).label@)),
    decreases n,
{
    if n > 0 {
        lemma_options_valid(id, options, n - 1);
        if options_fault(id, options, n) is None {
            assert(is_option(options[n - 1]));
        } else if options_fault(id, options, n - 1) is None {
            assert(options[n - 1].label@ == options[n - 1].label@);
        }
    }
}

proof fn lemma_questions_valid(qs: Seq<AskUserQuestion>, n: int)
    requires
        0 <= n <= qs.len(),
    ensures
        questions_fault(qs, n) is None <==> ((forall|i: int|
            0 <= i < n ==> is_question(#[trigger] qs[i])) && (forall|i: int, j: int|
            0 <= i < j < n ==> (#[trigger] qs[i]).id@ != (#[trigger] qs[j]).id@)),
    decreases n,
{
    if n > 0 {
        lemma_questions_valid(qs, n - 1);
        let q = qs[n - 1];
        lemma_options_valid(q.id@, q.options@, q.options@.len() as int);
        if questions_fault(qs, n - 1) is None {
            let unique = forall|j: int| 0 <= j < n - 1 ==> (#[trigger] qs[j]).id@ != q.id@;
            assert(question_fault(qs, n - 1) is None <==> is_question(q) && unique);
        }
    }
}

/// A request is refused exactly where it cannot be put to the user.
pub proof fn law_faulty_requests_are_refused(qs: Seq<AskUserQuestion>)
    ensures
        request_fault(qs) is None <==> is_request(qs),
{
    lemma_questions_valid(qs, qs.len() as int);
}

/// Staged changes are destroyed only where that was decided and there are any,
/// and where they are kept nothing is lost. Where nothing is staged nothing is done.
pub proof fn law_decisions_are_heeded(d: StagedChangesDecision, staged: bool)
    ensures
        decision_step(d, staged) is Destroy <==> staged && d is Abort,
        decision_step(d, staged) is Keep <==> staged && d is Stage,
        decision_step(d, staged) is NothingStaged <==> !staged,
        action_of(d) is Abort <==> d is Abort,
        step_message(decision_step(d, true)) != step_message(decision_step(d, false)),
{
    reveal_strlit("No staged changes found.");
    reveal_strlit("Aborted staged changes and removed the sandbox.");
    reveal_strlit("Kept staged changes in the sandbox.");
    let (n, a, k) = (
        "No staged changes found."@,
        "Aborted staged changes and removed the sandbox."@,
        "Kept staged changes in the sandbox."@,
    );
    assert(n[0] == 'N' && a[0] == 'A' && k[0] == 'K');
}

proof fn lemma_options_in_text(options: Seq<AskUserOption>, n: int, k: int)
    requires
        0 <= k < n <= options.len(),
    ensures
        contains_text(
            option_lines(options, n),
            options[k].label@ + ": "@ + options[k].description@,
        ),
    decreases n,
{
    let (label, text) = (options[n - 1].label@, options[n - 1].description@);
    let w = options[k].label@ + ": "@ + options[k].description@;
    let before = option_lines(options, n - 1);
    if k < n - 1 {
        lemma_options_in_text(options, n - 1, k);
        let i = choose|i: int| stands_at(before, w, i);
        assert(option_lines(options, n).subrange(i, i + w.len()) =~= before.subrange(
            i,
            i + w.len(),
        ));
        assert(stands_at(option_lines(options, n), w, i));
    } else {
        let i = (before.len() + "\n- "@.len()) as int;
        assert(option_lines(options, n).subrange(i, i + w.len()) =~= w);
        assert(stands_at(option_lines(options, n), w, i));
    }
}

proof fn lemma_text_within(s: Seq<char>, w: Seq<char>, a: Seq<char>, b: Seq<char>)
    requires
        contains_text(s, w),
    ensures
        contains_text(a + s + b, w),
{
    let i = choose|i: int| stands_at(s, w, i);
    let j = a.len() + i;
    assert((a + s + b).subrange(j, j + w.len()) =~= s.subrange(i, i + w.len()));
    assert(stands_at(a + s + b, w, j));
}

/// The message that puts questions to the user holds each question, with what
/// each of its options is called and what it means.
pub proof fn law_message_holds_questions(qs: Seq<AskUserQuestion>, n: int, i: int)
    requires
        0 <= i < n <= qs.len(),
    ensures
        contains_text(question_text(qs, n), qs[i].header@ + ": "@ + qs[i].question@),
        forall|k: int|
            0 <= k < qs[i].options@.len() ==> contains_text(
                question_text(qs, n),
                (#[trigger] qs[i].options@[k]).label@ + ": "@ + qs[i].options@[k].description@,
            ),
    decreases n,
{
    let before = question_text(qs, n - 1);
    let q = qs[n - 1];
    let lines = option_lines(q.options@, q.options@.len() as int);
    let head = q.header@ + ": "@ + q.question@;
    let all = question_text(qs, n);
    let e = Seq::<char>::empty();
    if i < n - 1 {
        law_message_holds_questions(qs, n - 1, i);
        let rest = "\n\n"@ + head + lines;
        assert(all =~= e + before + rest);
        lemma_text_within(before, qs[i].header@ + ": "@ + qs[i].question@, e, rest);
        assert forall|k: int| 0 <= k < qs[i].options@.len() implies contains_text(
            all,
            (#[trigger] qs[i].options@[k]).label@ + ": "@ + qs[i].options@[k].description@,
        ) by {
            let o = qs[i].options@[k];
            lemma_text_within(before, o.label@ + ": "@ + o.description@, e, rest);
        }
    } else {
        let front = before + "\n\n"@;
        assert(all =~= front + head + lines);
        assert(head.subrange(0, head.len() as int) =~= head);
        assert(stands_at(head, head, 0));
        lemma_text_within(head, head, front, lines);
        assert(all =~= (front + head) + lines + e);
        assert forall|k: int| 0 <= k < qs[i].options@.len() implies contains_text(
            all,
            (#[trigger] qs[i].options@[k]).label@ + ": "@ + qs[i].options@[k].description@,
        ) by {
            lemma_options_in_text(q.options@, q.options@.len() as int, k);
            let o = q.options@[k];
            lemma_text_within(lines, o.label@ + ": "@ + o.description@, front + head, e);
        }
    }
}

} // verus!
