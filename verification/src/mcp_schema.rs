//! The form that puts questions to the user, in the protocol's own types.
use crate::mcp::{is_offered, AgfsMcpServer, AskUserOption, AskUserQuestion};

use rmcp::model::{ElicitationSchema, ElicitationSchemaBuilder, EnumSchema};
use vstd::prelude::*;
use vstd::string::StringExecFns;

verus! {

/// A field of a form: its title, its description, and the choices on offer,
/// each a value and its title.
pub type Field = (Seq<char>, Seq<char>, Seq<(Seq<char>, Seq<char>)>);

/// `rmcp::model::ElicitationSchemaBuilder`: a form under construction.
#[verifier::external_type_specification]
#[verifier::external_body]
pub struct ExElicitationSchemaBuilder(ElicitationSchemaBuilder);

/// `rmcp::model::ElicitationSchema`: a form.
#[verifier::external_type_specification]
#[verifier::external_body]
pub struct ExElicitationSchema(ElicitationSchema);

/// The fields of a form under construction, by name.
pub uninterp spec fn builder_fields(b: ElicitationSchemaBuilder) -> Map<Seq<char>, Field>;

/// The names of the fields that must be filled in, in the order in which they were added.
pub uninterp spec fn builder_required(b: ElicitationSchemaBuilder) -> Seq<Seq<char>>;

/// The title and the description of a form under construction.
pub uninterp spec fn builder_heading(b: ElicitationSchemaBuilder) -> Seq<Seq<char>>;

/// The fields of a form, by name.
pub uninterp spec fn form_fields(s: ElicitationSchema) -> Map<Seq<char>, Field>;

/// The names of the fields that must be filled in, in the order in which they were added.
pub uninterp spec fn form_required(s: ElicitationSchema) -> Seq<Seq<char>>;

/// The title and the description of a form.
pub uninterp spec fn form_heading(s: ElicitationSchema) -> Seq<Seq<char>>;

/// The fields of a form that has none.
pub open spec fn no_fields() -> Map<Seq<char>, Field> {
    Map::empty()
}

/// The values, each with its title.
pub open spec fn choices(values: Seq<String>, titles: Seq<String>) -> Seq<(Seq<char>, Seq<char>)> {
    Seq::new(values.len(), |i: int| (values[i]@, titles[i]@))
}

/// `ElicitationSchema::builder`, with `title` and `description` set on it: a
/// form without fields.
#[verifier::external_body]
fn start_form(title: String, description: String) -> (r: ElicitationSchemaBuilder)
    ensures
        builder_fields(r) == no_fields(),
        builder_required(r).len() == 0,
        builder_heading(r) == seq![title@, description@],
{
    ElicitationSchema::builder().title(title).description(description)
}

/// `ElicitationSchemaBuilder::required_enum_schema` with what
/// `EnumSchema::builder` makes of values and their titles: the form with one
/// more field that must be filled in. Fails where there are not as many titles
/// as values; what the error then says is not claimed.
#[verifier::external_body]
fn add_field(
    form: ElicitationSchemaBuilder,
    name: String,
    title: String,
    description: String,
    values: Vec<String>,
    titles: Vec<String>,
) -> (r: Result<ElicitationSchemaBuilder, String>)
    ensures
        match r {
            Ok(b) => titles@.len() == values@.len() && builder_fields(b) == builder_fields(
                form,
            ).insert(name@, (title@, description@, choices(values@, titles@)))
                && builder_required(b) == builder_required(form).push(name@) && builder_heading(b)
                == builder_heading(form),
            Err(_) => titles@.len() != values@.len(),
        },
{
    let field = EnumSchema::builder(values).title(title).description(description);
    let field = field.enum_titles(titles)?.build();
    Ok(form.required_enum_schema(name, field))
}

/// `ElicitationSchemaBuilder::build`: the finished form. Fails where a field
/// that must be filled in is not there; what the error then says is not claimed.
#[verifier::external_body]
fn finish_form(form: ElicitationSchemaBuilder) -> (r: Result<ElicitationSchema, String>)
    ensures
        match r {
            Ok(s) => form_fields(s) == builder_fields(form) && form_required(s)
                == builder_required(form) && form_heading(s) == builder_heading(form) && (forall|
                i: int,
            |
                0 <= i < builder_required(form).len() ==> builder_fields(form).contains_key(
                    #[trigger] builder_required(form)[i],
                )),
            Err(_) => exists|i: int|
                0 <= i < builder_required(form).len() && !builder_fields(form).contains_key(
                    #[trigger] builder_required(form)[i],
                ),
        },
{
    form.build().map_err(|e| e.to_string())
}

// ── The form for questions ───────────────────────────────────────────

/// The choices that a question offers: each label, with the label and the
/// description as its title.
pub open spec fn offered(options: Seq<AskUserOption>) -> Seq<(Seq<char>, Seq<char>)> {
    Seq::new(
        options.len(),
        |i: int| (options[i].label@, options[i].label@ + ": "@ + options[i].description@),
    )
}

/// The field of a question.
pub open spec fn question_field(q: AskUserQuestion) -> Field {
    (q.header@, q.question@, offered(q.options@))
}

/// The fields of the first `n` questions, by id.
pub open spec fn question_fields(qs: Seq<AskUserQuestion>, n: int) -> Map<Seq<char>, Field>
    decreases n,
{
    if n <= 0 {
        Map::empty()
    } else {
        question_fields(qs, n - 1).insert(qs[n - 1].id@, question_field(qs[n - 1]))
    }
}

/// The ids of the questions.
pub open spec fn question_ids(qs: Seq<AskUserQuestion>, n: int) -> Seq<Seq<char>> {
    Seq::new(n as nat, |i: int| qs[i].id@)
}

proof fn lemma_ids_are_fields(qs: Seq<AskUserQuestion>, n: int, i: int)
    requires
        0 <= i < n <= qs.len(),
    ensures
        question_fields(qs, n).contains_key(qs[i].id@),
    decreases n,
{
    if i < n - 1 {
        lemma_ids_are_fields(qs, n - 1, i);
    }
}

/// The labels of the options, and their titles.
fn labels_and_titles(options: &Vec<AskUserOption>) -> (r: (Vec<String>, Vec<String>))
    ensures
        r.0@.len() == options@.len(),
        r.1@.len() == options@.len(),
        choices(r.0@, r.1@) == offered(options@),
{
    let mut labels: Vec<String> = Vec::new();
    let mut titles: Vec<String> = Vec::new();
    let mut i: usize = 0;
    while i < options.len()
        invariant
            i <= options@.len(),
            labels@.len() == i,
            titles@.len() == i,
            forall|k: int|
                0 <= k < i ==> (#[trigger] labels@[k])@ == options@[k].label@ && titles@[k]@
                    == options@[k].label@ + ": "@ + options@[k].description@,
        decreases options@.len() - i,
    {
        labels.push(options[i].label.clone());
        let mut title = options[i].label.clone();
        title.append(": ");
        title.append(options[i].description.as_str());
        titles.push(title);
        assert(labels@[i as int]@ == options@[i as int].label@);
        i += 1;
    }
    assert(choices(labels@, titles@) =~= offered(options@));
    (labels, titles)
}

impl AgfsMcpServer {
    /// The form that puts the questions to the user: one field for each
    /// question, all of which must be filled in.
    pub fn build_ask_user_schema(questions: &[AskUserQuestion]) -> (r: Result<
        ElicitationSchema,
        String,
    >)
        ensures
            r is Ok,
            form_fields(r->Ok_0) == question_fields(questions@, questions@.len() as int),
            form_required(r->Ok_0) == question_ids(questions@, questions@.len() as int),
            form_heading(r->Ok_0) == seq![
                "Ask user"@,
                "Answer the selected options for each question."@,
            ],
    {
        let ghost qs = questions@;
        let mut form = start_form(
            "Ask user".to_owned(),
            "Answer the selected options for each question.".to_owned(),
        );
        let mut i: usize = 0;
        assert(question_ids(qs, 0) =~= Seq::<Seq<char>>::empty());
        while i < questions.len()
            invariant
                i <= questions@.len(),
                qs == questions@,
                builder_fields(form) == question_fields(qs, i as int),
                builder_required(form) == question_ids(qs, i as int),
                builder_heading(form) == seq![
                    "Ask user"@,
                    "Answer the selected options for each question."@,
                ],
            decreases questions@.len() - i,
        {
            let q: &AskUserQuestion = &questions[i];
            let (labels, titles) = labels_and_titles(&q.options);
            form = match add_field(
                form,
                q.id.clone(),
                q.header.clone(),
                q.question.clone(),
                labels,
                titles,
            ) {
                Ok(b) => b,
                Err(e) => {
                    return Err(e);
                },
            };
            proof {
                assert(question_ids(qs, i + 1) =~= question_ids(qs, i as int).push(q.id@));
            }
            i += 1;
        }
        proof {
            assert forall|k: int| 0 <= k < qs.len() implies builder_fields(form).contains_key(
                #[trigger] builder_required(form)[k],
            ) by {
                lemma_ids_are_fields(qs, qs.len() as int, k);
            }
        }
        finish_form(form)
    }
}

// ── Laws ─────────────────────────────────────────────────────────────

/// The value is one of the choices of a field.
pub open spec fn can_be_chosen(f: Field, value: Seq<char>) -> bool {
    exists|k: int| 0 <= k < f.2.len() && (#[trigger] f.2[k]).0 == value
}

/// The form asks each question under its own header and prompt, every question
/// must be answered, and what can be chosen is what will be accepted as an
/// answer. Each choice is titled by its label and what it means.
pub proof fn law_form_asks_questions(qs: Seq<AskUserQuestion>, i: int, answer: Seq<char>)
    requires
        0 <= i < qs.len(),
        forall|j: int, k: int|
            0 <= j < k < qs.len() ==> (#[trigger] qs[j]).id@ != (#[trigger] qs[k]).id@,
    ensures
        ({
            let fields = question_fields(qs, qs.len() as int);
            let f = fields[qs[i].id@];
            &&& fields.contains_key(qs[i].id@)
            &&& f.0 == qs[i].header@ && f.1 == qs[i].question@
            &&& can_be_chosen(f, answer) <==> is_offered(qs[i].options@, answer)
            &&& f.2.len() == qs[i].options@.len()
            &&& forall|k: int|
                0 <= k < f.2.len() ==> (#[trigger] f.2[k]).1 == f.2[k].0 + ": "@
                    + qs[i].options@[k].description@
            &&& question_ids(qs, qs.len() as int).contains(qs[i].id@)
        }),
{
    let n = qs.len() as int;
    lemma_field_of(qs, n, i);
    let f = question_field(qs[i]);
    let options = qs[i].options@;
    if can_be_chosen(f, answer) {
        let k = choose|k: int| 0 <= k < f.2.len() && (#[trigger] f.2[k]).0 == answer;
        assert(options[k].label@ == answer);
    }
    if is_offered(options, answer) {
        let k = choose|k: int| 0 <= k < options.len() && (#[trigger] options[k]).label@ == answer;
        assert(f.2[k].0 == answer);
    }
    assert(question_ids(qs, n)[i] == qs[i].id@);
}

proof fn lemma_field_of(qs: Seq<AskUserQuestion>, n: int, i: int)
    requires
        0 <= i < n <= qs.len(),
        forall|j: int, k: int|
            0 <= j < k < qs.len() ==> (#[trigger] qs[j]).id@ != (#[trigger] qs[k]).id@,
    ensures
        question_fields(qs, n).contains_key(qs[i].id@),
        question_fields(qs, n)[qs[i].id@] == question_field(qs[i]),
    decreases n,
{
    if i < n - 1 {
        lemma_field_of(qs, n - 1, i);
        assert(qs[i].id@ != qs[n - 1].id@);
    }
}

} // verus!
