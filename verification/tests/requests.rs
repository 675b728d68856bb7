//! Requests to the server, decisions, and what commands work out.
use agfs::commands::{
    checkpoint_name, checkpoint_report, choose_command, count_staged, discard_question, exit_code,
    is_yes, name_after_command, name_from_time, parse_choice, parse_pid, plan_apply, plan_removal,
    quote_args, staged_warning, ApplyPlan, Choice, FileKind, LocalTime, Placement, Removal,
};
use agfs::config::{expand_home, load_exec_config, Config, Perm};
use agfs::dtype::{dtype_valid, DType};
use agfs::error::Error;
use agfs::ioctl::{make_checkpoint, make_response, AgfsCtlRequest, PermRequest};
use agfs::kmod::installed_module;
use agfs::mcp::{
    AgfsMcpServer, AskUserOption, AskUserQuestion, AskUserRequest, ChangeAction, ChangeSummary,
    DecisionStep, Elicited, StagedChangesDecision,
};
use agfs::mounts::{
    after_answer, after_attempt, blocking_pids, is_mountpoint, Attempt, Process, Unmounting,
};
use agfs::pathmap::PathMap;

fn option(label: &str, description: &str) -> AskUserOption {
    AskUserOption { label: label.into(), description: description.into() }
}

fn question(id: &str) -> AskUserQuestion {
    AskUserQuestion {
        id: id.into(),
        header: "Head".into(),
        question: "What now?".into(),
        options: vec![option("Yes", "Do it."), option("No", "Leave it.")],
    }
}

fn fault(questions: Vec<AskUserQuestion>) -> String {
    AgfsMcpServer::validate_ask_user_request(&AskUserRequest { questions }).unwrap_err()
}

#[test]
fn each_fault_of_a_request_is_told() {
    let ok = AskUserRequest { questions: vec![question("a"), question("b")] };
    assert!(AgfsMcpServer::validate_ask_user_request(&ok).is_ok());
    assert_eq!(fault(vec![]), "ask_user requires at least one question.");
    assert_eq!(fault(vec![question(" ")]), "ask_user question id must not be empty.");
    assert_eq!(
        fault(vec![question("a"), question("a")]),
        "ask_user question id `a` must be unique."
    );
    let mut q = question("a");
    q.header = "".into();
    assert_eq!(fault(vec![q]), "ask_user question `a` must have a non-empty header.");
    let mut q = question("a");
    q.header = "äöüäöüäöüäöü".into();
    let fine = AskUserRequest { questions: vec![q.clone()] };
    assert!(AgfsMcpServer::validate_ask_user_request(&fine).is_ok());
    q.header.push('x');
    assert_eq!(fault(vec![q]), "ask_user question `a` header must be 12 characters or fewer.");
    let mut q = question("a");
    q.question = "\n".into();
    assert_eq!(fault(vec![q]), "ask_user question `a` must have a non-empty prompt.");
    let mut q = question("a");
    q.options.pop();
    assert_eq!(fault(vec![q]), "ask_user question `a` must provide two or three options.");
    let mut q = question("a");
    q.options[1].label = "".into();
    assert_eq!(fault(vec![q]), "ask_user question `a` has an empty option label.");
    let mut q = question("a");
    q.options[0].description = " ".into();
    assert_eq!(fault(vec![q]), "ask_user question `a` option `Yes` must have a description.");
    let mut q = question("a");
    q.options[1].label = "Yes".into();
    assert_eq!(fault(vec![q]), "ask_user question `a` option labels must be unique.");
}

#[test]
fn offered_answers_are_collected() {
    let qs = vec![question("a"), question("b")];
    let mut raw: PathMap<String> = PathMap::new();
    raw.insert("a".into(), "Yes".into());
    raw.insert("b".into(), "No".into());
    let r = AgfsMcpServer::collect_answers(&qs, &raw).unwrap();
    assert_eq!(r.answers.len(), 2);
    assert_eq!(r.answers.get("a").unwrap().answers, vec!["Yes"]);
    assert_eq!(r.answers.get("b").unwrap().answers, vec!["No"]);
}

#[test]
fn other_answers_are_refused() {
    let qs = vec![question("a")];
    let raw: PathMap<String> = PathMap::new();
    assert!(AgfsMcpServer::collect_answers(&qs, &raw).is_err());
    let mut raw: PathMap<String> = PathMap::new();
    raw.insert("a".into(), "Maybe".into());
    assert!(AgfsMcpServer::collect_answers(&qs, &raw).is_err());
    let none = AgfsMcpServer::answers_from(&qs, Elicited::Accepted(None)).unwrap_err();
    assert_eq!(none, "ask_user did not return any answers.");
    let declined = AgfsMcpServer::answers_from(&qs, Elicited::Declined).unwrap_err();
    assert_eq!(declined, "ask_user was declined by the user.");
    let cancelled = AgfsMcpServer::answers_from(&qs, Elicited::Cancelled).unwrap_err();
    assert_eq!(cancelled, "ask_user was cancelled by the user.");
}

#[test]
fn questions_are_put_into_a_message() {
    let one = AgfsMcpServer::build_ask_user_message(&[question("a")]);
    assert!(one.contains("What now?"), "{one}");
    assert!(one.contains("\n- Yes: Do it."), "{one}");
    assert!(one.contains("\n- No: Leave it."), "{one}");
}

#[test]
fn directories_are_seen_from_the_default() {
    let server = AgfsMcpServer::new("/work".into());
    assert_eq!(server.resolve_cwd(None), "/work");
    assert_eq!(server.resolve_cwd(Some("sub")), "/work/sub");
    assert_eq!(server.resolve_cwd(Some("/abs")), "/abs");
    assert_eq!(server.resolve_sandbox_dir("/work", None), "/work/.staging");
    assert_eq!(server.resolve_sandbox_dir("/work", Some("box")), "/work/box");
}

fn change(path: &str) -> ChangeSummary {
    ChangeSummary { path: path.into(), status: "added".into() }
}

#[test]
fn changes_ask_for_a_decision() {
    assert_eq!(AgfsMcpServer::check_command(" \t").unwrap_err(), "command must not be empty");
    assert!(AgfsMcpServer::check_command("ls").is_ok());
    let r = AgfsMcpServer::shell_response(
        "/w".into(),
        "/s".into(),
        0,
        "out".into(),
        "".into(),
        vec![change("/a")],
    );
    assert!(r.decision_required);
    assert_eq!(r.available_actions, vec![ChangeAction::Abort, ChangeAction::Stage]);
    let r = AgfsMcpServer::list_response("/w".into(), "/s".into(), vec![]);
    assert!(!r.decision_required);
}

#[test]
fn decisions_are_carried_out() {
    let staged = vec![change("/a")];
    let abort = StagedChangesDecision::Abort;
    let stage = StagedChangesDecision::Stage;
    assert_eq!(AgfsMcpServer::decide(abort, None), DecisionStep::NothingStaged);
    assert_eq!(AgfsMcpServer::decide(stage, Some(&vec![])), DecisionStep::NothingStaged);
    assert_eq!(AgfsMcpServer::decide(abort, Some(&staged)), DecisionStep::Destroy);
    assert_eq!(AgfsMcpServer::decide(stage, Some(&staged)), DecisionStep::Keep);
    let r = AgfsMcpServer::decide_response(
        "/w".into(),
        "/s".into(),
        stage,
        DecisionStep::Keep,
        vec![change("/a")],
        vec![change("/a")],
    );
    assert_eq!(r.action, ChangeAction::Stage);
    assert_eq!(r.remaining_changed_files.len(), 1);
    assert_eq!(r.message, "Kept staged changes in the sandbox.");
    let r = AgfsMcpServer::decide_response(
        "/w".into(),
        "/s".into(),
        abort,
        DecisionStep::Destroy,
        vec![change("/a")],
        vec![change("/a")],
    );
    assert!(r.remaining_changed_files.is_empty());
    assert_eq!(r.message, "Aborted staged changes and removed the sandbox.");
}

#[test]
fn answers_to_prompts() {
    assert!(is_yes("y\n") && is_yes(" Y ") && !is_yes("yes") && !is_yes(""));
    assert_eq!(parse_choice(" C\n"), Choice::Commit);
    assert_eq!(parse_choice("commit"), Choice::Commit);
    assert_eq!(parse_choice("Abort"), Choice::Abort);
    assert_eq!(parse_choice(""), Choice::Other);
}

#[test]
fn checkpoints_are_named_after_the_time() {
    let now = LocalTime { year: 2024, month: 3, day: 9, hour: 7, minute: 5, second: 59 };
    assert_eq!(name_from_time("chk-", now), "chk-20240309-070559");
    assert_eq!(checkpoint_name(Some("mine"), "chk-", now), "mine");
    assert_eq!(checkpoint_name(Some(""), "snap-", now), "snap-20240309-070559");
    assert_eq!(checkpoint_name(None, "chk-", now), "chk-20240309-070559");
}

#[test]
fn commands_are_chosen_and_shown() {
    let args: Vec<String> = vec!["make".into(), "all".into(), "x y".into()];
    let (cmd, rest) = choose_command(&args, "sh");
    assert_eq!(cmd, "make");
    assert_eq!(rest, vec!["all", "x y"]);
    assert_eq!(choose_command(&vec![], "sh"), ("sh".to_string(), vec![]));
    assert_eq!(quote_args(&args), "\"make\", \"all\", \"x y\"");
    assert_eq!(name_after_command(&args, "sh"), "after make all x y");
    assert_eq!(name_after_command(&vec![], "zsh"), "after zsh");
}

#[test]
fn exit_codes_and_reports() {
    for c in [0, 1, 255, 256, -1, i32::MIN, i32::MAX] {
        assert_eq!(exit_code(Some(c)), c as u8);
    }
    assert_eq!(exit_code(None), 1);
    assert_eq!(checkpoint_report(0), Some(false));
    assert_eq!(checkpoint_report(1), Some(true));
    assert_eq!(checkpoint_report(2), None);
    assert_eq!(parse_pid("123\n"), Some(123));
    assert_eq!(parse_pid("4294967296"), None);
    assert_eq!(parse_pid("self"), None);
}

#[test]
fn staged_inodes_are_put_into_base() {
    let plan = plan_apply(FileKind::Regular, Some(FileKind::Regular));
    let want =
        ApplyPlan { remove: Removal::Single, place: Placement::Move, keep_permissions: true };
    assert_eq!(plan, want);
    let plan = plan_apply(FileKind::Symlink, Some(FileKind::Directory));
    assert_eq!((plan.remove, plan.place), (Removal::Tree, Placement::Link));
    assert!(!plan.keep_permissions);
    let plan = plan_apply(FileKind::Directory, None);
    assert_eq!((plan.remove, plan.place), (Removal::Nothing, Placement::Mkdir));
    assert_eq!(plan_removal(FileKind::Symlink), Removal::Single);
}

#[test]
fn home_is_put_in() {
    assert_eq!(expand_home("~", Some("/home/u")).unwrap(), "/home/u");
    assert_eq!(expand_home("$HOME", Some("/home/u")).unwrap(), "/home/u");
    assert_eq!(expand_home("~/x", Some("/home/u")).unwrap(), "/home/u/x");
    assert_eq!(expand_home("$HOME/x", Some("/home/u")).unwrap(), "/home/u/x");
    assert_eq!(expand_home("~other", Some("/home/u")).unwrap(), "~other");
    assert_eq!(expand_home("/etc", None).unwrap(), "/etc");
    assert!(matches!(expand_home("~/x", None), Err(Error::HomeNotSet)));
}

#[test]
fn permissions_differ_in_name_and_number() {
    let all =
        [Perm::Ask, Perm::Allow, Perm::AllowRw, Perm::AllowRo, Perm::AllowRx, Perm::Deny];
    for p in all {
        assert_eq!(Perm::from_name(p.name()).unwrap(), p);
        for q in all {
            assert_eq!(p == q, p.name() == q.name());
            assert_eq!(p == q, p.to_ioctl() == q.to_ioctl());
        }
    }
    assert!(!load_exec_config(None).auto_snapshot);
    assert!(!load_exec_config(Some(&Config::default())).auto_snapshot);
}

#[test]
fn kinds_have_the_numbers_of_libc() {
    let valid = [
        libc::DT_REG,
        libc::DT_DIR,
        libc::DT_LNK,
        libc::DT_BLK,
        libc::DT_CHR,
        libc::DT_FIFO,
        libc::DT_SOCK,
    ];
    for n in 0..=255u8 {
        assert_eq!(dtype_valid(n), valid.contains(&n), "{n}");
    }
    assert_eq!(DType::from_char(b'f'), Some(DType::File));
    assert_eq!(DType::from_char(b'd'), Some(DType::Dir));
    assert_eq!(DType::from_char(b'l'), Some(DType::Link));
    assert_eq!(DType::from_char(b'x'), None);
}

fn raw_request(path_len: u16) -> AgfsCtlRequest {
    AgfsCtlRequest {
        id: 7,
        op: 2,
        pid: 42,
        comm: [0xff; 16],
        path_ptr: 0,
        path_buf_len: 256,
        path_len,
        _pad: [0; 4],
    }
}

#[test]
fn requests_with_invalid_text() {
    let r = PermRequest::from_raw(&raw_request(4), b"/tmp\0\0");
    assert_eq!((r.id, r.op_str(), r.pid, r.path_str()), (7, "write", 42, "/tmp"));
    assert_eq!(r.comm_str(), "<invalid>");
    let r = PermRequest::from_raw(&raw_request(2), &[0xc3, 0x28]);
    assert_eq!(r.path_str(), "<invalid>");
}

#[test]
fn names_of_checkpoints_have_a_limit() {
    let chk = make_checkpoint("café").unwrap();
    assert_eq!((chk.id, chk.name_len), (0, 5));
    assert!(matches!(make_checkpoint(&"a".repeat(65536)), Err(Error::NameTooLong)));
    let r = make_response(9, 6);
    assert_eq!((r.id, r.decision), (9, 6));
}

#[test]
fn errors_have_messages() {
    let name = || "x".to_string();
    let all = [
        (Error::CheckpointNotFound(name()), "checkpoint not found: x"),
        (Error::MarkerNotFound(name()), "marker not found: x"),
        (Error::FromAfterTo, "invalid range: --from checkpoint comes after --to checkpoint"),
        (Error::RecordOutOfBounds, "record index out of bounds"),
        (Error::PathTooLong, "path too long"),
        (Error::RestorePathTooLong, "restore path too long"),
        (Error::BaseTooLong, "restore base too long"),
        (Error::NameTooLong, "checkpoint name too long"),
        (Error::HomeNotSet, "$HOME not set"),
        (Error::UnknownPermission(name()), "unknown permission: x"),
    ];
    for (e, text) in all {
        assert_eq!(e.message(), text);
    }
}

#[test]
fn busy_mounts_name_their_processes() {
    let p = |name: &str, devices: &[u64]| Process { name: name.into(), devices: devices.to_vec() };
    let ps = vec![p("1", &[5, 9]), p("self", &[9]), p("22", &[9]), p("33", &[8]), p("44", &[9])];
    assert_eq!(blocking_pids(&ps, 9, 44), vec![1, 22]);
    assert!(is_mountpoint(Some(1), Some(2)));
    assert!(!is_mountpoint(Some(1), Some(1)));
    assert!(!is_mountpoint(None, Some(1)));
    assert_eq!(installed_module("6.1.0"), "/lib/modules/6.1.0/extra/agfs.ko");
}

#[test]
fn unmounting_goes_on_as_the_attempt_went() {
    assert!(matches!(after_attempt("/m", Attempt::Unmounted, &vec![]), Unmounting::Done));
    assert!(matches!(after_attempt("/m", Attempt::Busy, &vec![7]), Unmounting::Ask));
    match after_attempt("/m", Attempt::Busy, &vec![]) {
        Unmounting::Fail(m) => {
            assert_eq!(m, "/m is busy (could not identify blocking processes)")
        }
        other => panic!("{other:?}"),
    }
    match after_attempt("/m", Attempt::Failed("EPERM".into()), &vec![7]) {
        Unmounting::Fail(m) => assert_eq!(m, "umount /m: EPERM"),
        other => panic!("{other:?}"),
    }
    assert_eq!(after_answer("/m", " Y\n"), Ok(()));
    assert_eq!(
        after_answer("/m", "\n"),
        Err("/m is busy (user declined to kill blocking processes)".to_string())
    );
}

#[test]
fn staged_changes_are_counted() {
    assert_eq!(staged_warning(0), None);
    assert_eq!(staged_warning(1).unwrap(), "Warning: 1 staged change will be lost.");
    assert_eq!(staged_warning(12).unwrap(), "Warning: 12 staged changes will be lost.");
    assert_eq!(discard_question(0), None);
    assert_eq!(discard_question(2).unwrap(), "Discard 2 staged changes? [y/N]:");
    assert_eq!(count_staged(0), "0 staged changes");
}
