//! Operations and transactions, driven against a filesystem held in memory.

use std::collections::BTreeMap;
use tfio::{
    AppendFile, CopyDirectory, CopyFile, CreateDirectory, CreateFile, DeleteDirectory, DeleteFile,
    DirEntry, DirectoryOperation, FsReply, FsRequest, IoError, IoErrorKind, MoveDirectory,
    MoveFile, OpKind, Phase, RollbackableOperation, SingleFileOperation, Step, Transaction,
    WriteFile, WriteMode,
};

#[derive(Clone, Debug, PartialEq, Eq)]
enum Node {
    File(Vec<u8>),
    Dir,
}

/// A filesystem in memory, keyed by the components of a path.
#[derive(Clone, Debug, PartialEq, Eq)]
struct MemFs {
    nodes: BTreeMap<Vec<String>, Node>,
}

fn parts(path: &str) -> Vec<String> {
    path.split('/').filter(|c| !c.is_empty() && *c != ".").map(String::from).collect()
}

fn fail(kind: IoErrorKind) -> FsReply {
    FsReply::Failed(IoError::new(kind))
}

impl MemFs {
    fn new() -> MemFs {
        MemFs { nodes: BTreeMap::new() }
    }

    fn node(&self, key: &[String]) -> Option<Node> {
        if key.is_empty() {
            Some(Node::Dir)
        } else {
            self.nodes.get(key).cloned()
        }
    }

    fn is_present(&self, path: &str) -> bool {
        self.node(&parts(path)).is_some()
    }

    fn is_dir(&self, path: &str) -> bool {
        self.node(&parts(path)) == Some(Node::Dir)
    }

    fn contents(&self, path: &str) -> Option<Vec<u8>> {
        match self.node(&parts(path)) {
            Some(Node::File(data)) => Some(data),
            _ => None,
        }
    }

    fn parent_is_dir(&self, key: &[String]) -> bool {
        !key.is_empty() && self.node(&key[..key.len() - 1]) == Some(Node::Dir)
    }

    fn under(&self, key: &[String]) -> Vec<Vec<String>> {
        self.nodes.keys().filter(|k| k.len() >= key.len() && k[..key.len()] == *key).cloned().collect()
    }

    fn create_dir_all(&mut self, path: &str) -> FsReply {
        let key = parts(path);
        for n in 1..key.len() + 1 {
            match self.node(&key[..n]) {
                Some(Node::File(_)) => return fail(IoErrorKind::AlreadyExists),
                Some(Node::Dir) => {}
                None => {
                    self.nodes.insert(key[..n].to_vec(), Node::Dir);
                }
            }
        }
        FsReply::Done
    }

    fn list(&self, path: &str) -> FsReply {
        let key = parts(path);
        if self.node(&key) != Some(Node::Dir) {
            return fail(IoErrorKind::NotFound);
        }
        let mut entries: Vec<DirEntry> = Vec::new();
        for (k, node) in self.nodes.iter() {
            if k.len() == key.len() + 1 && k[..key.len()] == key[..] {
                entries.push(DirEntry { name: k[key.len()].clone(), is_dir: *node == Node::Dir });
            }
        }
        FsReply::Entries(entries)
    }

    fn read(&self, path: &str) -> FsReply {
        match self.node(&parts(path)) {
            Some(Node::File(data)) => FsReply::Bytes(data),
            Some(Node::Dir) => fail(IoErrorKind::Other),
            None => fail(IoErrorKind::NotFound),
        }
    }

    fn write(&mut self, path: &str, data: &[u8], mode: WriteMode) -> FsReply {
        let key = parts(path);
        if !self.parent_is_dir(&key) {
            return fail(IoErrorKind::NotFound);
        }
        let bytes = match (mode, self.node(&key)) {
            (_, Some(Node::Dir)) => return fail(IoErrorKind::Other),
            (WriteMode::CreateNew, Some(_)) => return fail(IoErrorKind::AlreadyExists),
            (WriteMode::CreateNew, None) | (WriteMode::Replace, _) => data.to_vec(),
            (_, None) => return fail(IoErrorKind::NotFound),
            (WriteMode::Truncate, Some(_)) => data.to_vec(),
            (WriteMode::Append, Some(Node::File(held))) => {
                let mut bytes = held;
                bytes.extend_from_slice(data);
                bytes
            }
        };
        self.nodes.insert(key, Node::File(bytes));
        FsReply::Done
    }

    fn remove_file(&mut self, path: &str) -> FsReply {
        let key = parts(path);
        match self.node(&key) {
            Some(Node::File(_)) => {
                self.nodes.remove(&key);
                FsReply::Done
            }
            Some(Node::Dir) => fail(IoErrorKind::Other),
            None => fail(IoErrorKind::NotFound),
        }
    }

    fn remove_dir_all(&mut self, path: &str) -> FsReply {
        let key = parts(path);
        if key.is_empty() || self.node(&key) != Some(Node::Dir) {
            return fail(IoErrorKind::NotFound);
        }
        for k in self.under(&key) {
            self.nodes.remove(&k);
        }
        FsReply::Done
    }

    fn rename(&mut self, from: &str, to: &str) -> FsReply {
        let from_key = parts(from);
        let to_key = parts(to);
        if from_key.is_empty() || self.node(&from_key).is_none() {
            return fail(IoErrorKind::NotFound);
        }
        if !self.parent_is_dir(&to_key) {
            return fail(IoErrorKind::NotFound);
        }
        if self.node(&to_key) == Some(Node::Dir) && self.under(&to_key).len() > 1 {
            return fail(IoErrorKind::Other);
        }
        self.nodes.remove(&to_key);
        for k in self.under(&from_key) {
            let node = self.nodes.remove(&k).unwrap();
            let mut moved = to_key.clone();
            moved.extend_from_slice(&k[from_key.len()..]);
            self.nodes.insert(moved, node);
        }
        FsReply::Done
    }

    fn perform(&mut self, request: &FsRequest) -> FsReply {
        match request {
            FsRequest::CreateDirAll { path } => self.create_dir_all(path),
            FsRequest::Probe { path } => FsReply::Found(self.is_present(path)),
            FsRequest::ListDir { path } => self.list(path),
            FsRequest::Read { path } => self.read(path),
            FsRequest::Write { path, data, mode } => self.write(path, data, *mode),
            FsRequest::RemoveFile { path } => self.remove_file(path),
            FsRequest::RemoveDirAll { path } => self.remove_dir_all(path),
            FsRequest::Rename { from, to } => self.rename(from, to),
        }
    }
}

fn execute<O: RollbackableOperation>(op: &mut O, fs: &mut MemFs) -> Result<(), IoError> {
    let mut step = op.execute(None);
    loop {
        match step {
            Step::Finished(outcome) => return outcome,
            Step::Ask(request) => {
                let reply = fs.perform(&request);
                step = op.execute(Some(reply));
            }
        }
    }
}

fn rollback<O: RollbackableOperation>(op: &mut O, fs: &mut MemFs) -> Result<(), IoError> {
    let mut step = op.rollback(None);
    loop {
        match step {
            Step::Finished(outcome) => return outcome,
            Step::Ask(request) => {
                let reply = fs.perform(&request);
                step = op.rollback(Some(reply));
            }
        }
    }
}

fn discard(request: Option<FsRequest>, fs: &mut MemFs) -> Option<FsReply> {
    request.map(|r| fs.perform(&r))
}

fn put(fs: &mut MemFs, path: &str, data: &[u8]) {
    assert_eq!(FsReply::Done, fs.write(path, data, WriteMode::Replace));
}

fn is_hyphenated(name: &str) -> bool {
    name.len() == 36
        && name.chars().enumerate().all(|(i, c)| {
            if i == 8 || i == 13 || i == 18 || i == 23 {
                c == '-'
            } else if i == 14 {
                c == '4'
            } else if i == 19 {
                c == '8' || c == '9' || c == 'a' || c == 'b'
            } else {
                c.is_ascii_digit() || ('a'..='f').contains(&c)
            }
        })
}

const TEMP_DIR: &str = "./tmp/";

#[test]
fn create_file_works() {
    const FILE_SOURCE: &str = "./create_file_source.txt";
    let mut fs = MemFs::new();
    let mut op = CreateFile::new(FILE_SOURCE);

    assert_eq!(false, fs.is_present(FILE_SOURCE));
    assert_eq!((), execute(&mut op, &mut fs).unwrap());
    assert_eq!(true, fs.is_present(FILE_SOURCE));
    assert_eq!((), rollback(&mut op, &mut fs).unwrap());
    assert_eq!(false, fs.is_present(FILE_SOURCE));
}

#[test]
fn create_dir_works() {
    const DIR_SOURCE: &str = "./create_dir";
    let mut fs = MemFs::new();
    let mut op = CreateDirectory::new(DIR_SOURCE);

    assert_eq!(false, fs.is_present(DIR_SOURCE));
    assert_eq!((), execute(&mut op, &mut fs).unwrap());
    assert_eq!(true, fs.is_present(DIR_SOURCE));
    assert_eq!((), rollback(&mut op, &mut fs).unwrap());
    assert_eq!(false, fs.is_present(DIR_SOURCE));
}

#[test]
fn append_file_works() {
    const FILE_SOURCE: &str = "./append.txt";
    const DATA: &[u8] = "Hello World".as_bytes();
    let mut fs = MemFs::new();
    put(&mut fs, FILE_SOURCE, DATA);

    let mut op = AppendFile::new(FILE_SOURCE, TEMP_DIR, DATA.to_vec());
    assert_eq!((), execute(&mut op, &mut fs).expect("Unable to perform execute"));

    let data = String::from_utf8(fs.contents(FILE_SOURCE).expect("Unable to read file")).unwrap();
    assert_eq!(String::from_utf8([DATA, DATA].concat()).unwrap(), data);

    assert_eq!((), rollback(&mut op, &mut fs).expect("Unable to perform rollback"));
    let data = String::from_utf8(fs.contents(FILE_SOURCE).expect("Unable to read file")).unwrap();
    assert_eq!(String::from_utf8(DATA.to_vec()).unwrap(), data);
}

#[test]
fn write_file_works() {
    const FILE_SOURCE: &str = "./write_file_source.txt";
    const INITIAL_DATA: &[u8] = "Yellow World".as_bytes();
    const WRITTEN_DATA: &[u8] = "Hello World".as_bytes();
    let mut fs = MemFs::new();
    put(&mut fs, FILE_SOURCE, INITIAL_DATA);

    let mut op = WriteFile::new(FILE_SOURCE, TEMP_DIR, WRITTEN_DATA.to_vec());

    assert_eq!((), execute(&mut op, &mut fs).unwrap());
    let data = String::from_utf8(fs.contents(FILE_SOURCE).expect("Unable to read file")).unwrap();
    assert_eq!(String::from("Hello World"), data);

    assert_eq!((), rollback(&mut op, &mut fs).unwrap());
    let data = String::from_utf8(fs.contents(FILE_SOURCE).expect("Unable to read file")).unwrap();
    assert_eq!(String::from_utf8(INITIAL_DATA.to_vec()).unwrap(), data);
}

#[test]
fn copy_file_works() {
    const FILE_SOURCE: &str = "./copy_file_source.txt";
    const DEST_DIR: &str = "./copy_file_dir";
    const FILE_DEST: &str = "./copy_file_dir/copy_file_source.txt";
    let mut fs = MemFs::new();
    put(&mut fs, FILE_SOURCE, b"");
    assert_eq!(FsReply::Done, fs.create_dir_all(DEST_DIR));

    let mut op = CopyFile::new(FILE_SOURCE, FILE_DEST);

    assert_eq!(false, fs.is_present(FILE_DEST));
    assert_eq!((), execute(&mut op, &mut fs).unwrap());
    assert_eq!(true, fs.is_present(FILE_SOURCE));
    assert_eq!(true, fs.is_present(FILE_DEST));

    assert_eq!((), rollback(&mut op, &mut fs).unwrap());
    assert_eq!(true, fs.is_present(FILE_SOURCE));
    assert_eq!(false, fs.is_present(FILE_DEST));
}

#[test]
fn copy_dir_works() {
    const DIR_SOURCE: &str = "./copy_dir_source";
    const DIR_DIR: &str = "./copy_dest_dir";
    const DIR_DEST: &str = "./copy_dest_dir/copy_dir_source";
    const DIR_TEMP: &str = "./tmp";
    let mut fs = MemFs::new();
    assert_eq!(FsReply::Done, fs.create_dir_all(DIR_SOURCE));
    assert_eq!(FsReply::Done, fs.create_dir_all(DIR_DIR));

    let mut op = CopyDirectory::new(DIR_SOURCE, DIR_DEST, DIR_TEMP);

    assert_eq!((), execute(&mut op, &mut fs).unwrap());
    assert_eq!(true, fs.is_present(DIR_SOURCE));
    assert_eq!(true, fs.is_present(DIR_DEST));

    assert_eq!((), rollback(&mut op, &mut fs).unwrap());
    assert_eq!(true, fs.is_present(DIR_SOURCE));
    assert_eq!(false, fs.is_present(DIR_DEST));
}

#[test]
fn delete_file_works() {
    const FILE_SOURCE: &str = "./delete_file_source";
    let mut fs = MemFs::new();
    put(&mut fs, FILE_SOURCE, b"");

    let mut op = DeleteFile::new(FILE_SOURCE, TEMP_DIR);

    assert_eq!(true, fs.is_present(FILE_SOURCE));
    assert_eq!((), execute(&mut op, &mut fs).unwrap());
    assert_eq!(false, fs.is_present(FILE_SOURCE));
    assert_eq!((), rollback(&mut op, &mut fs).unwrap());
    assert_eq!(true, fs.is_present(FILE_SOURCE));
}

#[test]
fn delete_dir_works() {
    const DIR_SOURCE: &str = "./delete_dir_source";
    let mut fs = MemFs::new();
    assert_eq!(FsReply::Done, fs.create_dir_all(DIR_SOURCE));

    let mut op = DeleteDirectory::new(DIR_SOURCE, TEMP_DIR);

    assert_eq!(true, fs.is_present(DIR_SOURCE));
    assert_eq!((), execute(&mut op, &mut fs).unwrap());
    assert_eq!(false, fs.is_present(DIR_SOURCE));
    assert_eq!((), rollback(&mut op, &mut fs).unwrap());
    assert_eq!(true, fs.is_present(DIR_SOURCE));
}

#[test]
fn move_file_works() {
    const FILE_SOURCE: &str = "./move_file_source.txt";
    const FILE_DEST_DIR: &str = "./move_file_out_dir";
    const FILE_DEST: &str = "./move_file_out_dir/move_file_source.txt";
    let mut fs = MemFs::new();
    put(&mut fs, FILE_SOURCE, b"");
    assert_eq!(FsReply::Done, fs.create_dir_all(FILE_DEST_DIR));

    let mut op = MoveFile::new(FILE_SOURCE, FILE_DEST);

    assert_eq!(true, fs.is_present(FILE_SOURCE));
    assert_eq!(false, fs.is_present(FILE_DEST));

    assert_eq!((), execute(&mut op, &mut fs).unwrap());
    assert_eq!(false, fs.is_present(FILE_SOURCE));
    assert_eq!(true, fs.is_present(FILE_DEST));

    assert_eq!((), rollback(&mut op, &mut fs).unwrap());
    assert_eq!(true, fs.is_present(FILE_SOURCE));
    assert_eq!(false, fs.is_present(FILE_DEST));
}

#[test]
fn move_dir_works() {
    const DIR_SOURCE: &str = "./move_dir_source";
    const DIR_DIR: &str = "./move_dir_dest_dir";
    const DIR_DEST: &str = "./move_dir_dest_dir/move_dir_source";
    let mut fs = MemFs::new();
    assert_eq!(FsReply::Done, fs.create_dir_all(DIR_SOURCE));
    assert_eq!(FsReply::Done, fs.create_dir_all(DIR_DIR));

    let mut op = MoveDirectory::new(DIR_SOURCE, DIR_DEST);

    assert_eq!(true, fs.is_present(DIR_SOURCE));
    assert_eq!(false, fs.is_present(DIR_DEST));

    assert_eq!((), execute(&mut op, &mut fs).unwrap());
    assert_eq!(false, fs.is_present(DIR_SOURCE));
    assert_eq!(true, fs.is_present(DIR_DEST));

    assert_eq!((), rollback(&mut op, &mut fs).unwrap());
    assert_eq!(true, fs.is_present(DIR_SOURCE));
    assert_eq!(false, fs.is_present(DIR_DEST));
}

#[test]
fn create_write_append_then_undo_each() {
    let mut fs = MemFs::new();
    let mut create = CreateFile::new("f");
    let mut write = WriteFile::new("f", "tmp", b"Hello World".to_vec());
    let mut append = AppendFile::new("f", "tmp", b"!".to_vec());

    assert_eq!(Ok(()), execute(&mut create, &mut fs));
    assert_eq!(Some(Vec::new()), fs.contents("f"));
    assert_eq!(Ok(()), execute(&mut write, &mut fs));
    assert_eq!(Ok(()), execute(&mut append, &mut fs));
    assert_eq!(Some(b"Hello World!".to_vec()), fs.contents("f"));

    assert_eq!(Ok(()), rollback(&mut append, &mut fs));
    assert_eq!(Some(b"Hello World".to_vec()), fs.contents("f"));
    assert_eq!(Ok(()), rollback(&mut write, &mut fs));
    assert_eq!(Some(Vec::new()), fs.contents("f"));
    assert_eq!(Ok(()), rollback(&mut create, &mut fs));
    assert_eq!(false, fs.is_present("f"));
}

#[test]
fn create_file_over_existing_path_fails() {
    let mut fs = MemFs::new();
    put(&mut fs, "a", b"kept");
    let mut op = CreateFile::new("a");
    assert_eq!(Err(IoError::new(IoErrorKind::AlreadyExists)), execute(&mut op, &mut fs));
    assert_eq!(Some(b"kept".to_vec()), fs.contents("a"));
}

#[test]
fn create_file_without_parent_fails() {
    let mut fs = MemFs::new();
    let mut op = CreateFile::new("missing/a");
    assert_eq!(Err(IoError::new(IoErrorKind::NotFound)), execute(&mut op, &mut fs));
    assert_eq!(false, fs.is_present("missing/a"));
}

#[test]
fn create_file_asks_for_a_new_empty_file() {
    let mut op = CreateFile::new("dir/f.txt");
    assert_eq!(
        Step::Ask(FsRequest::Write {
            path: String::from("dir/f.txt"),
            data: Vec::new(),
            mode: WriteMode::CreateNew,
        }),
        op.execute(None)
    );
    assert_eq!(Step::Finished(Ok(())), op.execute(Some(FsReply::Done)));
    assert_eq!(
        Step::Ask(FsRequest::RemoveFile { path: String::from("dir/f.txt") }),
        op.rollback(None)
    );
    assert_eq!(Step::Finished(Ok(())), op.rollback(Some(FsReply::Done)));
}

#[test]
fn create_dir_rollback_removes_everything_under_it() {
    let mut fs = MemFs::new();
    let mut op = CreateDirectory::new("top/mid/leaf");
    assert_eq!(Ok(()), execute(&mut op, &mut fs));
    assert_eq!(true, fs.is_dir("top"));
    assert_eq!(true, fs.is_dir("top/mid"));
    assert_eq!(true, fs.is_dir("top/mid/leaf"));
    assert_eq!(FsReply::Done, fs.create_dir_all("top/mid/leaf/deep/deeper"));
    put(&mut fs, "top/mid/leaf/deep/file", b"x");

    assert_eq!(Ok(()), rollback(&mut op, &mut fs));
    assert_eq!(false, fs.is_present("top/mid/leaf"));
    assert_eq!(false, fs.is_present("top/mid/leaf/deep"));
    assert_eq!(false, fs.is_present("top/mid/leaf/deep/file"));
    assert_eq!(false, fs.is_present("top/mid/leaf/deep/deeper"));
    assert_eq!(false, fs.is_present("top/mid"));
    assert_eq!(false, fs.is_present("top"));
    assert_eq!(MemFs::new(), fs);
    assert_eq!("top", op.into_operation().get_created());
}

#[test]
fn create_dir_rollback_removes_every_level_it_made() {
    let mut fs = MemFs::new();
    let mut op = CreateDirectory::new("x/y/z");
    assert_eq!(false, fs.is_present("x"));
    assert_eq!(Ok(()), execute(&mut op, &mut fs));
    assert_eq!(true, fs.is_dir("x"));
    assert_eq!(true, fs.is_dir("x/y"));
    assert_eq!(true, fs.is_dir("x/y/z"));
    assert_eq!(Ok(()), rollback(&mut op, &mut fs));
    assert_eq!(false, fs.is_present("x/y/z"));
    assert_eq!(false, fs.is_present("x/y"));
    assert_eq!(false, fs.is_present("x"));
}

#[test]
fn create_dir_rollback_keeps_the_levels_that_existed() {
    let mut fs = MemFs::new();
    assert_eq!(FsReply::Done, fs.create_dir_all("x/y"));
    put(&mut fs, "x/y/kept.txt", b"kept");
    let before = fs.clone();
    let mut op = CreateDirectory::new("./x/y/z/w");
    assert_eq!(Ok(()), execute(&mut op, &mut fs));
    assert_eq!(true, fs.is_dir("x/y/z/w"));
    assert_eq!(Ok(()), rollback(&mut op, &mut fs));
    assert_eq!(before, fs);
    assert_eq!("./x/y/z", op.into_operation().get_created());
}

#[test]
fn create_dir_looks_at_every_level_before_it_makes_any() {
    let mut op = CreateDirectory::new("a/b/c");
    assert_eq!(Step::Ask(FsRequest::Probe { path: String::from("a") }), op.execute(None));
    assert_eq!(
        Step::Ask(FsRequest::Probe { path: String::from("a/b") }),
        op.execute(Some(FsReply::Found(true)))
    );
    assert_eq!(
        Step::Ask(FsRequest::CreateDirAll { path: String::from("a/b/c") }),
        op.execute(Some(FsReply::Found(false)))
    );
    assert_eq!(Step::Finished(Ok(())), op.execute(Some(FsReply::Done)));
    assert_eq!(
        Step::Ask(FsRequest::RemoveDirAll { path: String::from("a/b") }),
        op.rollback(None)
    );
    assert_eq!(Step::Finished(Ok(())), op.rollback(Some(FsReply::Done)));
}

#[test]
fn create_dir_on_an_existing_path_removes_the_path_itself() {
    let mut op = CreateDirectory::new("a/b");
    assert_eq!(Step::Ask(FsRequest::Probe { path: String::from("a") }), op.execute(None));
    assert_eq!(
        Step::Ask(FsRequest::Probe { path: String::from("a/b") }),
        op.execute(Some(FsReply::Found(true)))
    );
    assert_eq!(
        Step::Ask(FsRequest::CreateDirAll { path: String::from("a/b") }),
        op.execute(Some(FsReply::Found(true)))
    );
    assert_eq!(Step::Finished(Ok(())), op.execute(Some(FsReply::Done)));
    assert_eq!(
        Step::Ask(FsRequest::RemoveDirAll { path: String::from("a/b") }),
        op.rollback(None)
    );
}

#[test]
fn a_failed_look_at_a_level_ends_the_creation() {
    let mut op = CreateDirectory::new("a/b");
    assert_eq!(Step::Ask(FsRequest::Probe { path: String::from("a") }), op.execute(None));
    assert_eq!(
        Step::Finished(Err(IoError::new(IoErrorKind::PermissionDenied))),
        op.execute(Some(fail(IoErrorKind::PermissionDenied)))
    );
}

#[test]
fn an_operation_starts_once() {
    let mut fs = MemFs::new();
    put(&mut fs, "a.txt", b"one");
    let mut op = WriteFile::new("a.txt", "tmp", b"two".to_vec());
    assert_eq!(Ok(()), execute(&mut op, &mut fs));
    let backup = op.get_backup_path().clone();
    assert_eq!(Step::Finished(Err(IoError::new(IoErrorKind::Other))), op.execute(None));
    assert_eq!(
        Step::Finished(Err(IoError::new(IoErrorKind::Other))),
        op.execute_named("936da01f-9abd-4d9d-80c7-02af85c822a8")
    );
    assert_eq!(&backup, op.get_backup_path());
    assert_eq!(Ok(()), rollback(&mut op, &mut fs));
    assert_eq!(Some(b"one".to_vec()), fs.contents("a.txt"));
}

#[test]
fn copy_dir_rollback_removes_the_levels_made_for_the_destination() {
    let mut fs = MemFs::new();
    sample_tree(&mut fs, "src");
    let before = fs.clone();
    let mut op = CopyDirectory::new("src", "out/deep/copy", "tmp");
    assert_eq!(Ok(()), execute(&mut op, &mut fs));
    assert_sample_tree(&fs, "out/deep/copy");
    assert_eq!(Ok(()), rollback(&mut op, &mut fs));
    assert_eq!(false, fs.is_present("out/deep/copy"));
    assert_eq!(false, fs.is_present("out/deep"));
    assert_eq!(false, fs.is_present("out"));
    assert_sample_tree(&fs, "src");
    assert_eq!(Some(FsReply::Done), discard(op.dispose(), &mut fs));
    assert_eq!(FsReply::Done, fs.remove_dir_all("tmp"));
    assert_eq!(before, fs);
}

#[test]
fn write_leaves_the_payload_and_nothing_else() {
    let mut fs = MemFs::new();
    put(&mut fs, "./write_file_source.txt", b"Yellow World");
    let mut op = WriteFile::new("./write_file_source.txt", "./tmp/", b"Hello World".to_vec());
    assert_eq!(Ok(()), execute(&mut op, &mut fs));
    assert_eq!(Some(b"Hello World".to_vec()), fs.contents("./write_file_source.txt"));
    assert_eq!(11, fs.contents("./write_file_source.txt").unwrap().len());
}

#[test]
fn write_file_steps_in_order() {
    let name = "936da01f-9abd-4d9d-80c7-02af85c822a8";
    let mut op = WriteFile::new("notes.txt", "backups", b"new".to_vec());
    assert_eq!("", op.get_backup_path());
    assert_eq!(None, op.dispose());

    assert_eq!(
        Step::Ask(FsRequest::CreateDirAll { path: String::from("backups") }),
        op.execute_named(name)
    );
    assert_eq!(
        Step::Ask(FsRequest::Read { path: String::from("notes.txt") }),
        op.execute(Some(FsReply::Done))
    );
    assert_eq!("", op.get_backup_path());
    assert_eq!(
        Step::Ask(FsRequest::Write {
            path: String::from("backups/936da01f-9abd-4d9d-80c7-02af85c822a8"),
            data: b"old".to_vec(),
            mode: WriteMode::CreateNew,
        }),
        op.execute(Some(FsReply::Bytes(b"old".to_vec())))
    );
    assert_eq!("", op.get_backup_path());
    assert_eq!(
        Step::Ask(FsRequest::Write {
            path: String::from("notes.txt"),
            data: b"new".to_vec(),
            mode: WriteMode::Truncate,
        }),
        op.execute(Some(FsReply::Done))
    );
    assert_eq!("backups/936da01f-9abd-4d9d-80c7-02af85c822a8", op.get_backup_path());
    assert_eq!(Step::Finished(Ok(())), op.execute(Some(FsReply::Done)));

    assert_eq!(
        Step::Ask(FsRequest::Read {
            path: String::from("backups/936da01f-9abd-4d9d-80c7-02af85c822a8"),
        }),
        op.rollback(None)
    );
    assert_eq!(
        Step::Ask(FsRequest::Write {
            path: String::from("notes.txt"),
            data: b"old".to_vec(),
            mode: WriteMode::Truncate,
        }),
        op.rollback(Some(FsReply::Bytes(b"old".to_vec())))
    );
    assert_eq!(Step::Finished(Ok(())), op.rollback(Some(FsReply::Done)));
    assert_eq!(
        Some(FsRequest::RemoveFile {
            path: String::from("backups/936da01f-9abd-4d9d-80c7-02af85c822a8"),
        }),
        op.dispose()
    );
}

#[test]
fn failed_backup_stops_before_the_source_is_touched() {
    let mut op = DeleteFile::new("notes.txt", "backups");
    let first = op.execute(None);
    assert_eq!(Step::Ask(FsRequest::CreateDirAll { path: String::from("backups") }), first);
    assert_eq!(
        Step::Finished(Err(IoError::new(IoErrorKind::PermissionDenied))),
        op.execute(Some(fail(IoErrorKind::PermissionDenied)))
    );
    assert_eq!("", op.get_backup_path());
    assert_eq!(None, op.dispose());
    assert_eq!(
        Step::Finished(Err(IoError::new(IoErrorKind::Other))),
        op.execute(Some(FsReply::Done))
    );
}

#[test]
fn missing_source_fails_the_backup() {
    let mut fs = MemFs::new();
    let mut op = WriteFile::new("absent.txt", "tmp", b"data".to_vec());
    assert_eq!(Err(IoError::new(IoErrorKind::NotFound)), execute(&mut op, &mut fs));
    assert_eq!("", op.get_backup_path());
    assert_eq!(false, fs.is_present("absent.txt"));
    assert_eq!(FsReply::Entries(Vec::new()), fs.list("tmp"));
}

#[test]
fn backup_name_is_a_fresh_hyphenated_identifier() {
    let mut fs = MemFs::new();
    put(&mut fs, "a.txt", b"one");
    put(&mut fs, "b.txt", b"two");
    let mut first = DeleteFile::new("a.txt", "tmp");
    let mut second = DeleteFile::new("b.txt", "tmp");
    assert_eq!(Ok(()), execute(&mut first, &mut fs));
    assert_eq!(Ok(()), execute(&mut second, &mut fs));

    let one = first.get_backup_path().clone();
    let two = second.get_backup_path().clone();
    assert_eq!(Some("tmp/"), one.get(..4));
    assert_eq!(Some("tmp/"), two.get(..4));
    assert!(is_hyphenated(&one[4..]));
    assert!(is_hyphenated(&two[4..]));
    assert_ne!(one, two);
    assert_eq!(Some(b"one".to_vec()), fs.contents(&one));
    assert_eq!(Some(b"two".to_vec()), fs.contents(&two));
    assert_eq!("tmp", first.get_temp_dir());
    assert_eq!("a.txt", SingleFileOperation::get_path(&first));
}

#[test]
fn dispose_removes_the_backup_file() {
    let mut fs = MemFs::new();
    put(&mut fs, "a.txt", b"one");
    let mut op = AppendFile::new("a.txt", "tmp", b"!".to_vec());
    assert_eq!(Ok(()), execute(&mut op, &mut fs));
    let backup = op.get_backup_path().clone();
    assert_eq!(true, fs.is_present(&backup));
    assert_eq!(Some(FsReply::Done), discard(op.dispose(), &mut fs));
    assert_eq!(false, fs.is_present(&backup));
    assert_eq!(Some(b"one!".to_vec()), fs.contents("a.txt"));
}

#[test]
fn delete_file_rollback_restores_the_bytes() {
    let mut fs = MemFs::new();
    put(&mut fs, "a.bin", &[0u8, 255u8, 7u8]);
    let mut op = DeleteFile::new("a.bin", "tmp");
    assert_eq!(Ok(()), execute(&mut op, &mut fs));
    assert_eq!(None, fs.contents("a.bin"));
    assert_eq!(Ok(()), rollback(&mut op, &mut fs));
    assert_eq!(Some(vec![0u8, 255u8, 7u8]), fs.contents("a.bin"));
}

fn sample_tree(fs: &mut MemFs, root: &str) {
    assert_eq!(FsReply::Done, fs.create_dir_all(&format!("{}/docs/old", root)));
    assert_eq!(FsReply::Done, fs.create_dir_all(&format!("{}/empty", root)));
    put(fs, &format!("{}/top.txt", root), b"top");
    put(fs, &format!("{}/docs/a.txt", root), b"alpha");
    put(fs, &format!("{}/docs/old/b.txt", root), b"beta");
}

fn assert_sample_tree(fs: &MemFs, root: &str) {
    assert_eq!(true, fs.is_dir(root));
    assert_eq!(true, fs.is_dir(&format!("{}/docs", root)));
    assert_eq!(true, fs.is_dir(&format!("{}/docs/old", root)));
    assert_eq!(true, fs.is_dir(&format!("{}/empty", root)));
    assert_eq!(Some(b"top".to_vec()), fs.contents(&format!("{}/top.txt", root)));
    assert_eq!(Some(b"alpha".to_vec()), fs.contents(&format!("{}/docs/a.txt", root)));
    assert_eq!(Some(b"beta".to_vec()), fs.contents(&format!("{}/docs/old/b.txt", root)));
    assert_eq!(7, fs.under(&parts(root)).len());
}

#[test]
fn copy_dir_reproduces_nested_tree() {
    let mut fs = MemFs::new();
    sample_tree(&mut fs, "src");
    assert_eq!(FsReply::Done, fs.create_dir_all("out"));
    let before = fs.clone();

    let mut op = CopyDirectory::new("src", "out/copy", "tmp");
    assert_eq!(Ok(()), execute(&mut op, &mut fs));
    assert_sample_tree(&fs, "src");
    assert_sample_tree(&fs, "out/copy");
    assert_sample_tree(&fs, op.get_backup_path());
    assert_eq!("src", DirectoryOperation::get_path(&op));

    assert_eq!(Ok(()), rollback(&mut op, &mut fs));
    assert_eq!(false, fs.is_present("out/copy"));
    assert_eq!(0, fs.under(&parts("out/copy")).len());
    assert_sample_tree(&fs, "src");

    assert_eq!(Some(FsReply::Done), discard(op.dispose(), &mut fs));
    assert_eq!(FsReply::Done, fs.remove_dir_all("tmp"));
    assert_eq!(before, fs);
}

#[test]
fn delete_dir_rollback_moves_the_backup_back() {
    let mut fs = MemFs::new();
    sample_tree(&mut fs, "data");
    let before = fs.clone();

    let mut op = DeleteDirectory::new("data", "tmp");
    assert_eq!(Ok(()), execute(&mut op, &mut fs));
    assert_eq!(false, fs.is_present("data"));
    let backup = op.get_backup_path().clone();
    assert_sample_tree(&fs, &backup);

    assert_eq!(Ok(()), rollback(&mut op, &mut fs));
    assert_eq!(None, DirectoryOperation::dispose(&op));
    assert_sample_tree(&fs, "data");
    assert_eq!(false, fs.is_present(&backup));
    assert_eq!(0, fs.under(&parts(&backup)).len());
    assert_eq!("tmp", DirectoryOperation::get_temp_dir(&op));

    assert_eq!(FsReply::Done, fs.remove_dir_all("tmp"));
    assert_eq!(before, fs);
}

#[test]
fn copy_dir_refuses_an_entry_without_a_usable_name() {
    let name = "936da01f-9abd-4d9d-80c7-02af85c822a8";
    let mut op = CopyDirectory::new("src", "dst", "tmp");
    assert_eq!(
        Step::Ask(FsRequest::CreateDirAll { path: String::from("tmp") }),
        op.execute_named(name)
    );
    assert_eq!(
        Step::Ask(FsRequest::Probe {
            path: String::from("tmp/936da01f-9abd-4d9d-80c7-02af85c822a8"),
        }),
        op.execute(Some(FsReply::Done))
    );
    assert_eq!(
        Step::Ask(FsRequest::Probe {
            path: String::from("tmp/936da01f-9abd-4d9d-80c7-02af85c822a8"),
        }),
        op.execute(Some(FsReply::Found(false)))
    );
    assert_eq!(
        Step::Ask(FsRequest::CreateDirAll {
            path: String::from("tmp/936da01f-9abd-4d9d-80c7-02af85c822a8"),
        }),
        op.execute(Some(FsReply::Found(false)))
    );
    assert_eq!(
        Step::Ask(FsRequest::ListDir { path: String::from("src") }),
        op.execute(Some(FsReply::Done))
    );
    let listing = vec![
        DirEntry { name: String::from("sub"), is_dir: true },
        DirEntry { name: String::from(".."), is_dir: false },
    ];
    assert_eq!(
        Step::Finished(Err(IoError::new(IoErrorKind::Other))),
        op.execute(Some(FsReply::Entries(listing)))
    );
    assert_eq!("", DirectoryOperation::get_backup_path(&op));
}

#[test]
fn copy_dir_skips_creation_where_the_destination_exists() {
    let name = "936da01f-9abd-4d9d-80c7-02af85c822a8";
    let mut op = DeleteDirectory::new("src/", "tmp/");
    assert_eq!(
        Step::Ask(FsRequest::CreateDirAll { path: String::from("tmp/") }),
        op.execute_named(name)
    );
    assert_eq!(
        Step::Ask(FsRequest::Probe {
            path: String::from("tmp/936da01f-9abd-4d9d-80c7-02af85c822a8"),
        }),
        op.execute(Some(FsReply::Done))
    );
    assert_eq!(
        Step::Ask(FsRequest::Probe {
            path: String::from("tmp/936da01f-9abd-4d9d-80c7-02af85c822a8"),
        }),
        op.execute(Some(FsReply::Found(false)))
    );
    assert_eq!(
        Step::Ask(FsRequest::ListDir { path: String::from("src/") }),
        op.execute(Some(FsReply::Found(true)))
    );
    let listing = vec![
        DirEntry { name: String::from("sub"), is_dir: true },
        DirEntry { name: String::from("f"), is_dir: false },
    ];
    assert_eq!(
        Step::Ask(FsRequest::Read { path: String::from("src/f") }),
        op.execute(Some(FsReply::Entries(listing)))
    );
    assert_eq!(
        Step::Ask(FsRequest::Write {
            path: String::from("tmp/936da01f-9abd-4d9d-80c7-02af85c822a8/f"),
            data: vec![1u8, 2u8],
            mode: WriteMode::Replace,
        }),
        op.execute(Some(FsReply::Bytes(vec![1u8, 2u8])))
    );
    assert_eq!(
        Step::Ask(FsRequest::Probe {
            path: String::from("tmp/936da01f-9abd-4d9d-80c7-02af85c822a8/sub"),
        }),
        op.execute(Some(FsReply::Done))
    );
    assert_eq!(
        Step::Ask(FsRequest::CreateDirAll {
            path: String::from("tmp/936da01f-9abd-4d9d-80c7-02af85c822a8/sub"),
        }),
        op.execute(Some(fail(IoErrorKind::NotFound)))
    );
    assert_eq!(
        Step::Ask(FsRequest::ListDir { path: String::from("src/sub") }),
        op.execute(Some(FsReply::Done))
    );
    assert_eq!("", DirectoryOperation::get_backup_path(&op));
    assert_eq!(
        Step::Ask(FsRequest::RemoveDirAll { path: String::from("src/") }),
        op.execute(Some(FsReply::Entries(Vec::new())))
    );
    assert_eq!(
        "tmp/936da01f-9abd-4d9d-80c7-02af85c822a8",
        DirectoryOperation::get_backup_path(&op)
    );
    assert_eq!(Step::Finished(Ok(())), op.execute(Some(FsReply::Done)));
    assert_eq!(
        Step::Ask(FsRequest::Rename {
            from: String::from("tmp/936da01f-9abd-4d9d-80c7-02af85c822a8"),
            to: String::from("src/"),
        }),
        op.rollback(None)
    );
    assert_eq!(
        Some(FsRequest::RemoveDirAll {
            path: String::from("tmp/936da01f-9abd-4d9d-80c7-02af85c822a8"),
        }),
        DirectoryOperation::dispose(&op)
    );
}

#[test]
fn a_reply_of_the_wrong_shape_ends_the_run() {
    let mut op = MoveFile::new("a", "b");
    assert_eq!(
        Step::Ask(FsRequest::Rename { from: String::from("a"), to: String::from("b") }),
        op.execute(None)
    );
    assert_eq!(
        Step::Finished(Err(IoError::new(IoErrorKind::Other))),
        op.execute(Some(FsReply::Bytes(Vec::new())))
    );
    let mut idle = MoveFile::new("a", "b");
    assert_eq!(
        Step::Finished(Err(IoError::new(IoErrorKind::Other))),
        idle.rollback(Some(FsReply::Done))
    );
}

#[test]
#[allow(unused)]
fn transaction_works() {
    let temp_dir = "./tmp";
    let mut fs = MemFs::new();
    let mut tr = Transaction::new()
        .create_file("./created_file_transaction.txt")
        .create_file("./for_delete.txt")
        .create_dir("./inner/create_dir_transaction")
        .create_dir("./for_delete_dir")
        .create_dir("./magic_dir")
        .write_file("./created_file_transaction.txt", temp_dir, b"Hello World".to_vec())
        .append_file("./created_file_transaction.txt", temp_dir, b"Hello World".to_vec())
        .copy_file("./created_file_transaction.txt", "./inner/created_file_transaction.txt")
        .copy_dir("./magic_dir", "./inner/magic_dir", temp_dir)
        .delete_file("./for_delete.txt", temp_dir)
        .delete_dir("./for_delete_dir", temp_dir)
        .move_file(
            "./inner/created_file_transaction.txt",
            "./inner/magic_dir/created_file_transaction.txt",
        )
        .create_dir("./for_moving")
        .move_dir("./for_moving", "./inner/magic_dir/for_moving");

    assert_eq!((), execute(&mut tr, &mut fs).expect("Cannot execute"));
    assert_eq!((), rollback(&mut tr, &mut fs).expect("Cannot Rollback"));
}

#[test]
fn transaction_runs_in_order_and_undoes_in_reverse() {
    let mut fs = MemFs::new();
    let mut tr = Transaction::new()
        .create_file("./foo.txt")
        .create_dir("./bar")
        .write_file("./foo.txt", "./tmp", b"Hello World".to_vec())
        .move_file("./foo.txt", "./bar/foo.txt")
        .append_file("./bar/foo.txt", "./tmp", b"dlroW olleH".to_vec());
    assert_eq!(5, tr.len());
    assert_eq!(0, tr.execution_count());
    assert_eq!(Phase::Building, tr.phase());

    assert_eq!(Ok(()), execute(&mut tr, &mut fs));
    assert_eq!(5, tr.execution_count());
    assert_eq!(Phase::Terminal, tr.phase());
    assert_eq!(false, fs.is_present("foo.txt"));
    assert_eq!(Some(b"Hello WorlddlroW olleH".to_vec()), fs.contents("bar/foo.txt"));

    assert_eq!(Ok(()), rollback(&mut tr, &mut fs));
    assert_eq!(5, tr.execution_count());
    assert_eq!(false, fs.is_present("foo.txt"));
    assert_eq!(false, fs.is_present("bar"));
    assert_eq!(false, fs.is_present("bar/foo.txt"));
}

#[test]
fn second_create_on_same_path_fails_and_counts_both() {
    let mut fs = MemFs::new();
    let mut tr = Transaction::new().create_file("a").create_file("a");

    assert_eq!(Err(IoError::new(IoErrorKind::AlreadyExists)), execute(&mut tr, &mut fs));
    assert_eq!(2, tr.execution_count());
    assert_eq!(true, fs.is_present("a"));

    assert_eq!(
        Step::Ask(FsRequest::RemoveFile { path: String::from("a") }),
        tr.rollback(None)
    );
    let reply = fs.remove_file("a");
    assert_eq!(FsReply::Done, reply);
    assert_eq!(false, fs.is_present("a"));
    assert_eq!(
        Step::Ask(FsRequest::RemoveFile { path: String::from("a") }),
        tr.rollback(Some(reply))
    );
    let reply = fs.remove_file("a");
    assert_eq!(fail(IoErrorKind::NotFound), reply);
    assert_eq!(
        Step::Finished(Err(IoError::new(IoErrorKind::NotFound))),
        tr.rollback(Some(reply))
    );
    assert_eq!(false, fs.is_present("a"));
    assert_eq!(2, tr.execution_count());
}

#[test]
fn failure_at_the_third_of_four_counts_three() {
    let mut fs = MemFs::new();
    let mut tr = Transaction::new()
        .create_dir("d")
        .create_file("d/one")
        .create_file("missing/two")
        .create_file("d/three");

    assert_eq!(Err(IoError::new(IoErrorKind::NotFound)), execute(&mut tr, &mut fs));
    assert_eq!(3, tr.execution_count());
    assert_eq!(true, fs.is_present("d/one"));
    assert_eq!(false, fs.is_present("d/three"));

    let mut asked: Vec<FsRequest> = Vec::new();
    let mut step = tr.rollback(None);
    let outcome = loop {
        match step {
            Step::Finished(outcome) => break outcome,
            Step::Ask(request) => {
                let reply = if asked.is_empty() { FsReply::Done } else { fs.perform(&request) };
                asked.push(request);
                step = tr.rollback(Some(reply));
            }
        }
    };
    assert_eq!(Ok(()), outcome);
    assert_eq!(
        vec![
            FsRequest::RemoveFile { path: String::from("missing/two") },
            FsRequest::RemoveFile { path: String::from("d/one") },
            FsRequest::RemoveDirAll { path: String::from("d") },
        ],
        asked
    );
    assert_eq!(false, fs.is_present("d"));
    assert_eq!(3, tr.execution_count());
}

#[test]
fn rollback_stops_at_the_first_rollback_that_fails() {
    let mut fs = MemFs::new();
    let mut tr = Transaction::new().create_file("one").create_file("two").create_file("three");
    assert_eq!(Ok(()), execute(&mut tr, &mut fs));
    assert_eq!(FsReply::Done, fs.remove_file("two"));

    assert_eq!(Err(IoError::new(IoErrorKind::NotFound)), rollback(&mut tr, &mut fs));
    assert_eq!(false, fs.is_present("three"));
    assert_eq!(true, fs.is_present("one"));
    assert_eq!(Phase::Terminal, tr.phase());
    assert_eq!(2, tr.remaining());
    assert_eq!(3, tr.execution_count());
}

#[test]
fn empty_transaction_finishes_at_once() {
    let mut tr = Transaction::new();
    assert_eq!(Step::Finished(Ok(())), tr.execute(None));
    assert_eq!(0, tr.execution_count());
    assert_eq!(Step::Finished(Ok(())), tr.rollback(None));
    assert_eq!(Phase::Terminal, tr.phase());
}

#[test]
fn rollback_before_execute_touches_nothing() {
    let mut tr = Transaction::new().create_file("a").create_dir("b");
    assert_eq!(Step::Finished(Ok(())), tr.rollback(None));
    assert_eq!(0, tr.execution_count());
}

#[test]
fn transaction_cannot_be_executed_twice() {
    let mut fs = MemFs::new();
    let mut tr = Transaction::new().create_file("a");
    assert_eq!(Ok(()), execute(&mut tr, &mut fs));
    assert_eq!(Step::Finished(Err(IoError::new(IoErrorKind::Other))), tr.execute(None));
    assert_eq!(1, tr.execution_count());
    assert_eq!(
        Step::Finished(Err(IoError::new(IoErrorKind::Other))),
        tr.execute(Some(FsReply::Done))
    );
}

#[test]
fn transaction_keeps_operations_in_the_order_added() {
    let tr = Transaction::new()
        .copy_file("a", "b")
        .delete_dir("c", "tmp")
        .move_dir("d", "e");
    assert_eq!(3, tr.len());
    assert_eq!("a", tr.operation(0).unwrap().get_path());
    assert_eq!("b", tr.operation(0).unwrap().get_dest());
    assert_eq!("c", tr.operation(1).unwrap().get_path());
    assert_eq!("tmp", tr.operation(1).unwrap().get_temp_dir());
    assert_eq!("d", tr.operation(2).unwrap().get_path());
    assert_eq!(true, tr.operation(3).is_none());
}

#[test]
fn rollback_fails_where_the_backup_is_gone() {
    let mut fs = MemFs::new();
    put(&mut fs, "a.txt", b"before");
    let mut op = WriteFile::new("a.txt", "tmp", b"after!".to_vec());
    assert_eq!(Ok(()), execute(&mut op, &mut fs));
    assert_eq!(Some(FsReply::Done), discard(op.dispose(), &mut fs));
    assert_eq!(Err(IoError::new(IoErrorKind::NotFound)), rollback(&mut op, &mut fs));
    assert_eq!(Some(b"after!".to_vec()), fs.contents("a.txt"));
}

#[test]
fn write_shorter_than_the_file_leaves_only_the_payload() {
    let mut fs = MemFs::new();
    put(&mut fs, "a.txt", b"0123456789");
    let mut op = WriteFile::new("a.txt", "tmp", b"ab".to_vec());
    assert_eq!(Ok(()), execute(&mut op, &mut fs));
    assert_eq!(Some(b"ab".to_vec()), fs.contents("a.txt"));
    assert_eq!(Ok(()), rollback(&mut op, &mut fs));
    assert_eq!(Some(b"0123456789".to_vec()), fs.contents("a.txt"));
}

#[test]
fn write_longer_than_the_file_grows_it() {
    let mut fs = MemFs::new();
    put(&mut fs, "a.txt", b"ab");
    let mut op = WriteFile::new("a.txt", "tmp", b"0123456789".to_vec());
    assert_eq!(Ok(()), execute(&mut op, &mut fs));
    assert_eq!(Some(b"0123456789".to_vec()), fs.contents("a.txt"));
    assert_eq!(Ok(()), rollback(&mut op, &mut fs));
    assert_eq!(Some(b"ab".to_vec()), fs.contents("a.txt"));
}

#[test]
fn file_round_trip_leaves_only_the_backup_directory() {
    let mut fs = MemFs::new();
    put(&mut fs, "a.txt", b"kept");
    let before = fs.clone();
    let mut op = DeleteFile::new("a.txt", "deep/tmp");
    assert_eq!(Ok(()), execute(&mut op, &mut fs));
    assert_eq!(Ok(()), rollback(&mut op, &mut fs));
    assert_eq!(Some(FsReply::Done), discard(op.dispose(), &mut fs));
    let mut expected = before;
    assert_eq!(FsReply::Done, expected.create_dir_all("deep/tmp"));
    assert_eq!(expected, fs);
}

#[test]
fn move_round_trip_leaves_the_filesystem_as_it_was() {
    let mut fs = MemFs::new();
    sample_tree(&mut fs, "data");
    assert_eq!(FsReply::Done, fs.create_dir_all("elsewhere"));
    let before = fs.clone();
    let mut op = MoveDirectory::new("data", "elsewhere/data");
    assert_eq!(Ok(()), execute(&mut op, &mut fs));
    assert_eq!(false, fs.is_present("data"));
    assert_sample_tree(&fs, "elsewhere/data");
    assert_eq!(Ok(()), rollback(&mut op, &mut fs));
    assert_eq!(before, fs);
}

#[test]
fn transaction_discards_every_backup() {
    let mut fs = MemFs::new();
    put(&mut fs, "a.txt", b"one");
    sample_tree(&mut fs, "data");
    let mut tr = Transaction::new()
        .append_file("a.txt", "tmp", b"!".to_vec())
        .create_file("b.txt")
        .delete_dir("data", "tmp")
        .delete_file("a.txt", "tmp");
    assert_eq!(Vec::<FsRequest>::new(), tr.dispose());
    assert_eq!(Ok(()), execute(&mut tr, &mut fs));

    let requests = tr.dispose();
    assert_eq!(3, requests.len());
    assert_eq!(
        FsRequest::RemoveFile { path: tr.operation(0).unwrap().get_backup_path().clone() },
        requests[0]
    );
    assert_eq!(
        FsRequest::RemoveDirAll { path: tr.operation(2).unwrap().get_backup_path().clone() },
        requests[1]
    );
    assert_eq!(
        FsRequest::RemoveFile { path: tr.operation(3).unwrap().get_backup_path().clone() },
        requests[2]
    );
    for request in requests.iter() {
        assert_eq!(FsReply::Done, fs.perform(request));
    }
    assert_eq!(FsReply::Entries(Vec::new()), fs.list("tmp"));
    assert_eq!(true, fs.is_present("b.txt"));
    assert_eq!(false, fs.is_present("a.txt"));
    assert_eq!(false, fs.is_present("data"));
}

#[test]
fn every_operation_is_of_the_kind_of_its_type() {
    assert_eq!(OpKind::CreateFile, CreateFile::new("a").kind());
    assert_eq!(OpKind::CreateDirectory, CreateDirectory::new("a").kind());
    assert_eq!(OpKind::Write, WriteFile::new("a", "t", Vec::new()).kind());
    assert_eq!(OpKind::Append, AppendFile::new("a", "t", Vec::new()).kind());
    assert_eq!(OpKind::CopyFile, CopyFile::new("a", "b").kind());
    assert_eq!(OpKind::CopyDirectory, CopyDirectory::new("a", "b", "t").kind());
    assert_eq!(OpKind::Move, MoveFile::new("a", "b").kind());
    assert_eq!(OpKind::DeleteFile, DeleteFile::new("a", "t").kind());
    assert_eq!(OpKind::DeleteDirectory, DeleteDirectory::new("a", "t").kind());

    let mut fs = MemFs::new();
    put(&mut fs, "a", b"x");
    let mut op = DeleteFile::new("a", "t");
    assert_eq!(Ok(()), execute(&mut op, &mut fs));
    assert_eq!(OpKind::DeleteFile, op.kind());
    assert_eq!(Ok(()), rollback(&mut op, &mut fs));
    assert_eq!(OpKind::DeleteFile, op.kind());
    assert_eq!("a", SingleFileOperation::get_path(&op));
}

fn back_up_file<O: SingleFileOperation>(op: &mut O, fs: &mut MemFs) -> Result<(), IoError> {
    let mut step = op.create_backup_file(None);
    loop {
        match step {
            Step::Finished(outcome) => return outcome,
            Step::Ask(request) => {
                let reply = fs.perform(&request);
                step = op.create_backup_file(Some(reply));
            }
        }
    }
}

fn back_up_folder<O: DirectoryOperation>(op: &mut O, fs: &mut MemFs) -> Result<(), IoError> {
    let mut step = op.create_backup_folder(None);
    loop {
        match step {
            Step::Finished(outcome) => return outcome,
            Step::Ask(request) => {
                let reply = fs.perform(&request);
                step = op.create_backup_folder(Some(reply));
            }
        }
    }
}

#[test]
fn backup_of_a_file_is_taken_and_written_down() {
    let mut fs = MemFs::new();
    put(&mut fs, "a.txt", b"kept");
    let mut op = WriteFile::new("a.txt", "deep/tmp", b"new".to_vec());
    assert_eq!("", op.get_backup_path());
    assert_eq!(None, SingleFileOperation::dispose(&op));

    assert_eq!(Ok(()), back_up_file(&mut op, &mut fs));
    let backup = op.get_backup_path().clone();
    assert_eq!(Some("deep/tmp/"), backup.get(..9));
    assert!(is_hyphenated(&backup[9..]));
    assert_eq!(true, fs.is_dir("deep/tmp"));
    assert_eq!(Some(b"kept".to_vec()), fs.contents(&backup));
    assert_eq!(Some(b"kept".to_vec()), fs.contents("a.txt"));
    assert_eq!(
        Some(FsRequest::RemoveFile { path: backup.clone() }),
        SingleFileOperation::dispose(&op)
    );

    put(&mut fs, "a.txt", b"changed by hand");
    assert_eq!(Ok(()), rollback(&mut op, &mut fs));
    assert_eq!(Some(b"kept".to_vec()), fs.contents("a.txt"));
    assert_eq!(Some(FsReply::Done), discard(SingleFileOperation::dispose(&op), &mut fs));
    assert_eq!(false, fs.is_present(&backup));
}

#[test]
fn backup_of_a_file_goes_step_by_step() {
    let name = "936da01f-9abd-4d9d-80c7-02af85c822a8";
    let mut op = DeleteFile::new("notes.txt", "backups");
    assert_eq!(
        Step::Ask(FsRequest::CreateDirAll { path: String::from("backups") }),
        op.create_backup_file_named(name)
    );
    assert_eq!(
        Step::Ask(FsRequest::Read { path: String::from("notes.txt") }),
        op.create_backup_file(Some(FsReply::Done))
    );
    assert_eq!(
        Step::Ask(FsRequest::Write {
            path: String::from("backups/936da01f-9abd-4d9d-80c7-02af85c822a8"),
            data: b"old".to_vec(),
            mode: WriteMode::CreateNew,
        }),
        op.create_backup_file(Some(FsReply::Bytes(b"old".to_vec())))
    );
    assert_eq!("", op.get_backup_path());
    assert_eq!(Step::Finished(Ok(())), op.create_backup_file(Some(FsReply::Done)));
    assert_eq!("backups/936da01f-9abd-4d9d-80c7-02af85c822a8", op.get_backup_path());
    assert_eq!(
        Step::Finished(Err(IoError::new(IoErrorKind::Other))),
        op.create_backup_file(None)
    );
    assert_eq!(Step::Finished(Err(IoError::new(IoErrorKind::Other))), op.execute(None));
    assert_eq!("backups/936da01f-9abd-4d9d-80c7-02af85c822a8", op.get_backup_path());
}

#[test]
fn a_failed_backup_leaves_the_backup_path_empty() {
    let mut fs = MemFs::new();
    let mut op = AppendFile::new("absent.txt", "tmp", b"!".to_vec());
    assert_eq!(Err(IoError::new(IoErrorKind::NotFound)), back_up_file(&mut op, &mut fs));
    assert_eq!("", op.get_backup_path());
    assert_eq!(None, SingleFileOperation::dispose(&op));

    sample_tree(&mut fs, "data");
    let mut dir = DeleteDirectory::new("data", "tmp");
    assert_eq!(
        Step::Ask(FsRequest::CreateDirAll { path: String::from("tmp") }),
        dir.create_backup_folder(None)
    );
    assert_eq!(
        Step::Finished(Err(IoError::new(IoErrorKind::PermissionDenied))),
        dir.create_backup_folder(Some(fail(IoErrorKind::PermissionDenied)))
    );
    assert_eq!("", DirectoryOperation::get_backup_path(&dir));
    assert_eq!(None, DirectoryOperation::dispose(&dir));
}

#[test]
fn backup_of_a_directory_is_taken_and_written_down() {
    let mut fs = MemFs::new();
    sample_tree(&mut fs, "data");
    let mut dir = DeleteDirectory::new("data", "tmp");
    assert_eq!(Ok(()), back_up_folder(&mut dir, &mut fs));
    let backup = DirectoryOperation::get_backup_path(&dir).clone();
    assert_eq!(Some("tmp/"), backup.get(..4));
    assert!(is_hyphenated(&backup[4..]));
    assert_sample_tree(&fs, &backup);
    assert_sample_tree(&fs, "data");
    assert_eq!(
        Some(FsRequest::RemoveDirAll { path: backup.clone() }),
        DirectoryOperation::dispose(&dir)
    );

    let mut copy = CopyDirectory::new("data", "elsewhere", "tmp");
    assert_eq!(
        Step::Ask(FsRequest::CreateDirAll { path: String::from("tmp") }),
        copy.create_backup_folder_named("a36da01f-9abd-4d9d-80c7-02af85c822a8")
    );
    assert_eq!(
        Step::Ask(FsRequest::Probe {
            path: String::from("tmp/a36da01f-9abd-4d9d-80c7-02af85c822a8"),
        }),
        copy.create_backup_folder(Some(FsReply::Done))
    );
}

#[test]
fn backup_never_overwrites_what_exists_by_its_name() {
    let name = "936da01f-9abd-4d9d-80c7-02af85c822a8";
    let mut fs = MemFs::new();
    put(&mut fs, "a.txt", b"kept");
    assert_eq!(FsReply::Done, fs.create_dir_all("tmp"));
    put(&mut fs, "tmp/936da01f-9abd-4d9d-80c7-02af85c822a8", b"somebody else");
    let mut op = WriteFile::new("a.txt", "tmp", b"new".to_vec());
    let mut step = op.execute_named(name);
    while let Step::Ask(request) = step {
        step = op.execute(Some(fs.perform(&request)));
    }
    assert_eq!(Step::Finished(Err(IoError::new(IoErrorKind::AlreadyExists))), step);
    assert_eq!("", op.get_backup_path());
    assert_eq!(Some(b"kept".to_vec()), fs.contents("a.txt"));
    assert_eq!(
        Some(b"somebody else".to_vec()),
        fs.contents("tmp/936da01f-9abd-4d9d-80c7-02af85c822a8")
    );
}

#[test]
fn backup_path_can_be_written_down_by_hand() {
    let mut op = DeleteFile::new("a.txt", "tmp");
    SingleFileOperation::set_backup_path(&mut op, "elsewhere/copy");
    assert_eq!("elsewhere/copy", op.get_backup_path());
    assert_eq!(
        Some(FsRequest::RemoveFile { path: String::from("elsewhere/copy") }),
        SingleFileOperation::dispose(&op)
    );
    let mut dir = CopyDirectory::new("a", "b", "tmp");
    DirectoryOperation::set_backup_path(&mut dir, "elsewhere/tree");
    assert_eq!("elsewhere/tree", DirectoryOperation::get_backup_path(&dir));
    assert_eq!(
        Some(FsRequest::RemoveDirAll { path: String::from("elsewhere/tree") }),
        DirectoryOperation::dispose(&dir)
    );
}

#[test]
fn copy_into_an_existing_destination_fills_it() {
    let mut fs = MemFs::new();
    sample_tree(&mut fs, "src");
    assert_eq!(FsReply::Done, fs.create_dir_all("out/docs"));
    put(&mut fs, "out/other.txt", b"mine");
    put(&mut fs, "out/top.txt", b"old");
    put(&mut fs, "out/docs/extra.txt", b"extra");
    let (mut walk, mut step) = tfio::tree::TreeCopy::start("src", "out");
    while let Step::Ask(request) = step {
        step = walk.advance(fs.perform(&request));
    }
    assert_eq!(Step::Finished(Ok(())), step);
    assert_eq!(Some(b"top".to_vec()), fs.contents("out/top.txt"));
    assert_eq!(Some(b"alpha".to_vec()), fs.contents("out/docs/a.txt"));
    assert_eq!(Some(b"beta".to_vec()), fs.contents("out/docs/old/b.txt"));
    assert_eq!(true, fs.is_dir("out/empty"));
    assert_eq!(Some(b"mine".to_vec()), fs.contents("out/other.txt"));
    assert_eq!(Some(b"extra".to_vec()), fs.contents("out/docs/extra.txt"));
    assert_sample_tree(&fs, "src");
}

#[test]
fn transaction_counts_stay_within_bounds() {
    let mut fs = MemFs::new();
    let mut tr = Transaction::new().create_dir("a/b").create_file("a/b/f").create_file("a/b/f");
    assert_eq!(Err(IoError::new(IoErrorKind::AlreadyExists)), execute(&mut tr, &mut fs));
    assert_eq!(3, tr.execution_count());
    assert_eq!(3, tr.len());
    assert_eq!(
        Step::Ask(FsRequest::RemoveFile { path: String::from("a/b/f") }),
        tr.rollback(None)
    );
    assert_eq!(3, tr.remaining());
    assert_eq!(
        Step::Ask(FsRequest::RemoveFile { path: String::from("a/b/f") }),
        tr.rollback(Some(FsReply::Done))
    );
    assert_eq!(2, tr.remaining());
    assert_eq!(
        Step::Ask(FsRequest::RemoveDirAll { path: String::from("a") }),
        tr.rollback(Some(FsReply::Done))
    );
    assert_eq!(1, tr.remaining());
    assert_eq!(Step::Finished(Ok(())), tr.rollback(Some(FsReply::Done)));
    assert_eq!(0, tr.remaining());
}

#[test]
fn backup_of_a_directory_never_fills_what_exists_by_its_name() {
    let name = "936da01f-9abd-4d9d-80c7-02af85c822a8";
    let mut fs = MemFs::new();
    sample_tree(&mut fs, "data");
    assert_eq!(FsReply::Done, fs.create_dir_all("tmp/936da01f-9abd-4d9d-80c7-02af85c822a8"));
    put(&mut fs, "tmp/936da01f-9abd-4d9d-80c7-02af85c822a8/theirs", b"somebody else");
    let before = fs.clone();
    let mut op = DeleteDirectory::new("data", "tmp");
    let mut step = op.execute_named(name);
    while let Step::Ask(request) = step {
        step = op.execute(Some(fs.perform(&request)));
    }
    assert_eq!(Step::Finished(Err(IoError::new(IoErrorKind::AlreadyExists))), step);
    assert_eq!("", DirectoryOperation::get_backup_path(&op));
    assert_eq!(before, fs);
}
