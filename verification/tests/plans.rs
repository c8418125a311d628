//! Plans, runs of plans and walks over trees, one reply at a time.

use tfio::plan::{Instr, Run, RunStage};
use tfio::tree::{TreeCopy, WalkStage};
use tfio::{
    Activity, DirEntry, FsReply, FsRequest, IoError, IoErrorKind, OpKind, Operation, Step,
    WriteMode,
};

const NAME: &str = "936da01f-9abd-4d9d-80c7-02af85c822a8";

fn text(s: &str) -> String {
    String::from(s)
}

fn named(kind: OpKind, payload: &[u8]) -> Operation {
    let mut op = Operation::new(kind, "src", "dst", "tmp", payload.to_vec());
    let _ = op.execute_named(NAME);
    op
}

fn backup() -> String {
    text("tmp/936da01f-9abd-4d9d-80c7-02af85c822a8")
}

#[test]
fn fresh_operation_has_no_backup() {
    let op = Operation::new(OpKind::Write, "src", "", "tmp", vec![1u8]);
    assert_eq!(OpKind::Write, op.kind());
    assert_eq!("src", op.get_path());
    assert_eq!("", op.get_dest());
    assert_eq!("tmp", op.get_temp_dir());
    assert_eq!("", op.get_backup_path());
    assert_eq!(Activity::Idle, op.activity());
    assert_eq!(None, op.dispose());
}

#[test]
fn kinds_that_change_what_exists_take_a_backup() {
    let takes = |kind: OpKind| Operation::new(kind, "a", "b", "t", Vec::new()).takes_backup();
    assert_eq!(false, takes(OpKind::CreateFile));
    assert_eq!(false, takes(OpKind::CreateDirectory));
    assert_eq!(true, takes(OpKind::Write));
    assert_eq!(true, takes(OpKind::Append));
    assert_eq!(false, takes(OpKind::CopyFile));
    assert_eq!(true, takes(OpKind::CopyDirectory));
    assert_eq!(false, takes(OpKind::Move));
    assert_eq!(true, takes(OpKind::DeleteFile));
    assert_eq!(true, takes(OpKind::DeleteDirectory));
}

#[test]
fn execution_plans_of_kinds_without_backup() {
    assert_eq!(
        vec![Instr::Store { path: text("src"), data: Vec::new(), mode: WriteMode::CreateNew }],
        named(OpKind::CreateFile, b"ignored").execute_plan()
    );
    assert_eq!(
        vec![Instr::Survey { path: text("src") }, Instr::EnsureDir { path: text("src") }],
        named(OpKind::CreateDirectory, b"").execute_plan()
    );
    assert_eq!(
        vec![Instr::Transfer { from: text("src"), to: text("dst"), mode: WriteMode::Replace }],
        named(OpKind::CopyFile, b"").execute_plan()
    );
    assert_eq!(
        vec![Instr::Rename { from: text("src"), to: text("dst") }],
        named(OpKind::Move, b"").execute_plan()
    );
}

#[test]
fn execution_plans_of_kinds_with_backup() {
    let save_file = || {
        vec![
            Instr::EnsureDir { path: text("tmp") },
            Instr::Transfer { from: text("src"), to: backup(), mode: WriteMode::CreateNew },
        ]
    };
    let save_tree = || {
        vec![
            Instr::EnsureDir { path: text("tmp") },
            Instr::CopyNewTree { from: text("src"), to: backup() },
        ]
    };
    let mut expected = save_file();
    expected.push(Instr::Store {
        path: text("src"),
        data: b"xy".to_vec(),
        mode: WriteMode::Truncate,
    });
    assert_eq!(expected, named(OpKind::Write, b"xy").execute_plan());

    let mut expected = save_file();
    expected.push(Instr::Store { path: text("src"), data: b"xy".to_vec(), mode: WriteMode::Append });
    assert_eq!(expected, named(OpKind::Append, b"xy").execute_plan());

    let mut expected = save_file();
    expected.push(Instr::RemoveFile { path: text("src") });
    assert_eq!(expected, named(OpKind::DeleteFile, b"").execute_plan());

    let mut expected = save_tree();
    expected.push(Instr::Survey { path: text("dst") });
    expected.push(Instr::CopyTree { from: text("src"), to: text("dst") });
    assert_eq!(expected, named(OpKind::CopyDirectory, b"").execute_plan());

    let mut expected = save_tree();
    expected.push(Instr::RemoveTree { path: text("src") });
    assert_eq!(expected, named(OpKind::DeleteDirectory, b"").execute_plan());
}

fn answer(request: &FsRequest, asked_before: bool) -> FsReply {
    match request {
        FsRequest::Read { .. } => FsReply::Bytes(Vec::new()),
        FsRequest::Probe { .. } => FsReply::Found(asked_before),
        FsRequest::ListDir { .. } => FsReply::Entries(Vec::new()),
        _ => FsReply::Done,
    }
}

fn executed(kind: OpKind) -> Operation {
    let mut op = Operation::new(kind, "src", "dst", "tmp", b"xy".to_vec());
    let mut step = op.execute_named(NAME);
    let mut probed: Vec<FsRequest> = Vec::new();
    while let Step::Ask(request) = step {
        let asked_before = probed.contains(&request);
        step = op.execute(Some(answer(&request, asked_before)));
        probed.push(request);
    }
    assert_eq!(Step::Finished(Ok(())), step);
    op
}

#[test]
fn rollback_plans() {
    assert_eq!(
        vec![Instr::RemoveFile { path: text("src") }],
        named(OpKind::CreateFile, b"").rollback_plan()
    );
    assert_eq!(
        vec![Instr::RemoveTree { path: text("src") }],
        named(OpKind::CreateDirectory, b"").rollback_plan()
    );
    assert_eq!(
        vec![Instr::RemoveFile { path: text("dst") }],
        named(OpKind::CopyFile, b"").rollback_plan()
    );
    assert_eq!(
        vec![Instr::RemoveTree { path: text("dst") }],
        named(OpKind::CopyDirectory, b"").rollback_plan()
    );
    assert_eq!(
        vec![Instr::Rename { from: text("dst"), to: text("src") }],
        named(OpKind::Move, b"").rollback_plan()
    );
}

#[test]
fn rollback_plans_use_the_backup() {
    let write = executed(OpKind::Write);
    assert_eq!(backup().as_str(), write.get_backup_path());
    assert_eq!(
        vec![Instr::Transfer { from: backup(), to: text("src"), mode: WriteMode::Truncate }],
        write.rollback_plan()
    );
    assert_eq!(
        vec![Instr::Transfer { from: backup(), to: text("src"), mode: WriteMode::Truncate }],
        executed(OpKind::Append).rollback_plan()
    );
    assert_eq!(
        vec![Instr::Transfer { from: backup(), to: text("src"), mode: WriteMode::Replace }],
        executed(OpKind::DeleteFile).rollback_plan()
    );
    let delete_dir = executed(OpKind::DeleteDirectory);
    assert_eq!(backup().as_str(), delete_dir.get_backup_path());
    assert_eq!(
        vec![Instr::Rename { from: backup(), to: text("src") }],
        delete_dir.rollback_plan()
    );
    assert_eq!(Some(FsRequest::RemoveDirAll { path: backup() }), delete_dir.dispose());
    assert_eq!(Some(FsRequest::RemoveFile { path: backup() }), write.dispose());

    let mut undone = executed(OpKind::DeleteDirectory);
    assert_eq!(
        Step::Ask(FsRequest::Rename { from: backup(), to: text("src") }),
        undone.rollback(None)
    );
    assert_eq!(Some(FsRequest::RemoveDirAll { path: backup() }), undone.dispose());
    assert_eq!(Step::Finished(Ok(())), undone.rollback(Some(FsReply::Done)));
    assert_eq!(None, undone.dispose());
}

#[test]
fn rollback_plan_before_any_backup_names_no_backup() {
    let op = Operation::new(OpKind::DeleteFile, "src", "", "tmp", Vec::new());
    assert_eq!(
        vec![Instr::Transfer { from: text(""), to: text("src"), mode: WriteMode::Replace }],
        op.rollback_plan()
    );
}

#[test]
fn empty_plan_finishes_at_once() {
    let (run, step) = Run::start(Vec::new());
    assert_eq!(Step::Finished(Ok(())), step);
    assert_eq!(RunStage::Finished, run.stage());
    assert_eq!(0, run.done());
}

#[test]
fn run_counts_instructions_done() {
    let plan = vec![
        Instr::EnsureDir { path: text("d") },
        Instr::Transfer { from: text("a"), to: text("d/a"), mode: WriteMode::Replace },
        Instr::RemoveFile { path: text("a") },
    ];
    let (mut run, step) = Run::start(plan);
    assert_eq!(Step::Ask(FsRequest::CreateDirAll { path: text("d") }), step);
    assert_eq!((0, RunStage::Acking), (run.done(), run.stage()));

    assert_eq!(Step::Ask(FsRequest::Read { path: text("a") }), run.advance(FsReply::Done));
    assert_eq!((1, RunStage::Loading), (run.done(), run.stage()));

    assert_eq!(
        Step::Ask(FsRequest::Write {
            path: text("d/a"),
            data: vec![9u8, 8u8],
            mode: WriteMode::Replace,
        }),
        run.advance(FsReply::Bytes(vec![9u8, 8u8]))
    );
    assert_eq!((1, RunStage::Storing), (run.done(), run.stage()));

    assert_eq!(Step::Ask(FsRequest::RemoveFile { path: text("a") }), run.advance(FsReply::Done));
    assert_eq!((2, RunStage::Acking), (run.done(), run.stage()));

    assert_eq!(Step::Finished(Ok(())), run.advance(FsReply::Done));
    assert_eq!((3, RunStage::Finished), (run.done(), run.stage()));

    assert_eq!(
        Step::Finished(Err(IoError::new(IoErrorKind::Other))),
        run.advance(FsReply::Done)
    );
    assert_eq!((3, RunStage::Failed), (run.done(), run.stage()));
}

#[test]
fn run_stops_at_the_first_failure() {
    let plan = vec![
        Instr::Rename { from: text("a"), to: text("b") },
        Instr::RemoveTree { path: text("c") },
    ];
    let (mut run, step) = Run::start(plan);
    assert_eq!(Step::Ask(FsRequest::Rename { from: text("a"), to: text("b") }), step);
    assert_eq!(
        Step::Finished(Err(IoError::new(IoErrorKind::PermissionDenied))),
        run.advance(FsReply::Failed(IoError::new(IoErrorKind::PermissionDenied)))
    );
    assert_eq!((0, RunStage::Failed), (run.done(), run.stage()));
}

#[test]
fn idle_run_takes_no_reply() {
    let mut run = Run::idle();
    assert_eq!(RunStage::Idle, run.stage());
    assert_eq!(
        Step::Finished(Err(IoError::new(IoErrorKind::Other))),
        run.advance(FsReply::Done)
    );
}

#[test]
fn walk_visits_the_directory_pushed_last_first() {
    let (mut walk, step) = TreeCopy::start("from", "to");
    assert_eq!(Step::Ask(FsRequest::Probe { path: text("to") }), step);
    assert_eq!(WalkStage::Probing, walk.stage());
    assert_eq!(
        Step::Ask(FsRequest::CreateDirAll { path: text("to") }),
        walk.advance(FsReply::Found(false))
    );
    assert_eq!(Step::Ask(FsRequest::ListDir { path: text("from") }), walk.advance(FsReply::Done));
    let listing = vec![
        DirEntry { name: text("one"), is_dir: true },
        DirEntry { name: text("f"), is_dir: false },
        DirEntry { name: text("two"), is_dir: true },
    ];
    assert_eq!(
        Step::Ask(FsRequest::Read { path: text("from/f") }),
        walk.advance(FsReply::Entries(listing))
    );
    assert_eq!(WalkStage::Loading, walk.stage());
    assert_eq!(
        Step::Ask(FsRequest::Write {
            path: text("to/f"),
            data: vec![7u8],
            mode: WriteMode::Replace,
        }),
        walk.advance(FsReply::Bytes(vec![7u8]))
    );
    assert_eq!(Step::Ask(FsRequest::Probe { path: text("to/two") }), walk.advance(FsReply::Done));
    assert_eq!(
        Step::Ask(FsRequest::ListDir { path: text("from/two") }),
        walk.advance(FsReply::Found(true))
    );
    assert_eq!(
        Step::Ask(FsRequest::Probe { path: text("to/one") }),
        walk.advance(FsReply::Entries(Vec::new()))
    );
    assert_eq!(
        Step::Ask(FsRequest::ListDir { path: text("from/one") }),
        walk.advance(FsReply::Found(true))
    );
    assert_eq!(Step::Finished(Ok(())), walk.advance(FsReply::Entries(Vec::new())));
    assert_eq!(WalkStage::Finished, walk.stage());
}

#[test]
fn walk_fails_on_the_first_failure() {
    let (mut walk, _) = TreeCopy::start("from", "to");
    let _ = walk.advance(FsReply::Found(true));
    assert_eq!(
        Step::Finished(Err(IoError::new(IoErrorKind::NotFound))),
        walk.advance(FsReply::Failed(IoError::new(IoErrorKind::NotFound)))
    );
    assert_eq!(WalkStage::Failed, walk.stage());
    assert_eq!(
        Step::Finished(Err(IoError::new(IoErrorKind::Other))),
        walk.advance(FsReply::Done)
    );
}

#[test]
fn walk_refuses_entries_that_are_no_names() {
    for bad in ["", ".", "..", "a/b"] {
        let (mut walk, _) = TreeCopy::start("from", "to");
        let _ = walk.advance(FsReply::Found(true));
        assert_eq!(
            Step::Finished(Err(IoError::new(IoErrorKind::Other))),
            walk.advance(FsReply::Entries(vec![DirEntry { name: text(bad), is_dir: true }]))
        );
    }
}

#[test]
fn idle_walk_takes_no_reply() {
    let mut walk = TreeCopy::idle();
    assert_eq!(WalkStage::Idle, walk.stage());
    assert_eq!(
        Step::Finished(Err(IoError::new(IoErrorKind::Other))),
        walk.advance(FsReply::Done)
    );
}

#[test]
fn error_keeps_its_kind() {
    assert_eq!(IoErrorKind::NotFound, IoError::new(IoErrorKind::NotFound).kind());
    assert_eq!(IoErrorKind::AlreadyExists, IoError::new(IoErrorKind::AlreadyExists).kind());
    assert_eq!(
        IoErrorKind::PermissionDenied,
        IoError::new(IoErrorKind::PermissionDenied).kind()
    );
    assert_eq!(IoErrorKind::Other, IoError::new(IoErrorKind::Other).kind());
}

#[test]
fn survey_stops_at_the_first_missing_level() {
    let (mut run, step) = Run::start(vec![Instr::Survey { path: text("/a/b//c/") }]);
    assert_eq!(Step::Ask(FsRequest::Probe { path: text("/a") }), step);
    assert_eq!(RunStage::Surveying, run.stage());
    assert_eq!(Step::Ask(FsRequest::Probe { path: text("/a/b") }), run.advance(FsReply::Found(true)));
    assert_eq!(Step::Ask(FsRequest::Probe { path: text("/a/b/") }), run.advance(FsReply::Found(true)));
    assert_eq!("", run.missing());
    assert_eq!(Step::Finished(Ok(())), run.advance(FsReply::Found(false)));
    assert_eq!("/a/b/", run.missing());
    assert_eq!(1, run.done());
}

#[test]
fn survey_finds_nothing_missing_where_every_level_exists() {
    let (mut run, step) = Run::start(vec![Instr::Survey { path: text("a/b") }]);
    assert_eq!(Step::Ask(FsRequest::Probe { path: text("a") }), step);
    assert_eq!(Step::Ask(FsRequest::Probe { path: text("a/b") }), run.advance(FsReply::Found(true)));
    assert_eq!(Step::Finished(Ok(())), run.advance(FsReply::Found(true)));
    assert_eq!("", run.missing());
}

#[test]
fn a_new_tree_is_not_copied_over_what_exists() {
    let plan = vec![Instr::CopyNewTree { from: text("a"), to: text("b") }];
    let (mut run, step) = Run::start(plan);
    assert_eq!(Step::Ask(FsRequest::Probe { path: text("b") }), step);
    assert_eq!(RunStage::Vetting, run.stage());
    assert_eq!(
        Step::Finished(Err(IoError::new(IoErrorKind::AlreadyExists))),
        run.advance(FsReply::Found(true))
    );
    assert_eq!((0, RunStage::Failed), (run.done(), run.stage()));

    let plan = vec![Instr::CopyNewTree { from: text("a"), to: text("b") }];
    let (mut run, _) = Run::start(plan);
    assert_eq!(Step::Ask(FsRequest::Probe { path: text("b") }), run.advance(FsReply::Found(false)));
    assert_eq!(RunStage::Walking, run.stage());
    assert_eq!(
        Step::Ask(FsRequest::CreateDirAll { path: text("b") }),
        run.advance(FsReply::Found(false))
    );
    assert_eq!(Step::Ask(FsRequest::ListDir { path: text("a") }), run.advance(FsReply::Done));
    assert_eq!(Step::Finished(Ok(())), run.advance(FsReply::Entries(Vec::new())));
    assert_eq!((1, RunStage::Finished), (run.done(), run.stage()));
}

#[test]
fn backup_step_of_an_operation() {
    let mut op = Operation::new(OpKind::DeleteDirectory, "src", "", "tmp", Vec::new());
    assert_eq!(
        Step::Ask(FsRequest::CreateDirAll { path: text("tmp") }),
        op.backup_named(NAME)
    );
    assert_eq!(Activity::BackingUp, op.activity());
    assert_eq!(Step::Ask(FsRequest::Probe { path: backup() }), op.backup(Some(FsReply::Done)));
    assert_eq!(
        Step::Ask(FsRequest::Probe { path: backup() }),
        op.backup(Some(FsReply::Found(false)))
    );
    assert_eq!(
        Step::Ask(FsRequest::ListDir { path: text("src") }),
        op.backup(Some(FsReply::Found(true)))
    );
    assert_eq!("", op.get_backup_path());
    assert_eq!(Step::Finished(Ok(())), op.backup(Some(FsReply::Entries(Vec::new()))));
    assert_eq!(backup().as_str(), op.get_backup_path());
    assert_eq!(Some(FsRequest::RemoveDirAll { path: backup() }), op.dispose());

    let mut plain = Operation::new(OpKind::CopyFile, "a", "b", "", Vec::new());
    assert_eq!(Step::Finished(Err(IoError::new(IoErrorKind::Other))), plain.backup(None));
    assert_eq!(Step::Finished(Err(IoError::new(IoErrorKind::Other))), plain.backup_named(NAME));
    assert_eq!(Activity::Idle, plain.activity());
    plain.set_backup_path("x");
    assert_eq!("x", plain.get_backup_path());
    assert_eq!(None, plain.dispose());
}
