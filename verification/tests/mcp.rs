//! Questions to the user.
use agfs::mcp::{AgfsMcpServer, AskUserOption, AskUserQuestion, AskUserRequest};
use serde_json::Value;

fn sample_ask_request() -> AskUserRequest {
    AskUserRequest {
        questions: vec![AskUserQuestion {
            id: "sandbox_choice".into(),
            header: "Sandbox".into(),
            question: "What should happen to the staged changes?".into(),
            options: vec![
                AskUserOption {
                    label: "Abort".into(),
                    description: "Discard the staged changes.".into(),
                },
                AskUserOption {
                    label: "Stage".into(),
                    description: "Keep the staged changes for later.".into(),
                },
            ],
        }],
    }
}

#[test]
fn ask_user_validation_rejects_too_many_questions() {
    let request = AskUserRequest {
        questions: vec![
            sample_ask_request().questions[0].clone(),
            AskUserQuestion {
                id: "second".into(),
                header: "Second".into(),
                question: "Second question?".into(),
                options: sample_ask_request().questions[0].options.clone(),
            },
            AskUserQuestion {
                id: "third".into(),
                header: "Third".into(),
                question: "Third question?".into(),
                options: sample_ask_request().questions[0].options.clone(),
            },
            AskUserQuestion {
                id: "fourth".into(),
                header: "Fourth".into(),
                question: "Fourth question?".into(),
                options: sample_ask_request().questions[0].options.clone(),
            },
        ],
    };

    let error = AgfsMcpServer::validate_ask_user_request(&request).unwrap_err();
    assert_eq!(error, "ask_user supports at most three questions.");
}

#[test]
fn ask_user_schema_uses_question_ids_and_option_labels() {
    let request = sample_ask_request();
    let schema = AgfsMcpServer::build_ask_user_schema(&request.questions).unwrap();
    let json = serde_json::to_value(schema).unwrap();

    assert_eq!(json["required"], Value::Array(vec![Value::from("sandbox_choice")]));
    assert_eq!(
        json["properties"]["sandbox_choice"]["title"],
        Value::from("Sandbox")
    );
    assert_eq!(
        json["properties"]["sandbox_choice"]["description"],
        Value::from("What should happen to the staged changes?")
    );
    assert_eq!(
        json["properties"]["sandbox_choice"]["oneOf"][0]["const"],
        Value::from("Abort")
    );
    assert_eq!(
        json["properties"]["sandbox_choice"]["oneOf"][1]["const"],
        Value::from("Stage")
    );
}
