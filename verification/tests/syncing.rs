use std::collections::BTreeMap;

use libxcp::checksum::{checksum_outcome, compute_blake3, DigestStep, FileDigest};
use libxcp::config::{Config, Reflink};
use libxcp::error::XcpError;
use libxcp::metadata::{FileType, Metadata};
use libxcp::path::PathBuf;
use libxcp::protocol::{Command, Event, Next, Notice, Operation, Query, Reply};
use libxcp::prune::{remove_entry, subtree_roots};
use libxcp::sync::{sync_walker, SyncWalk};

fn p(text: &str) -> PathBuf {
    PathBuf::from_bytes(text.as_bytes().to_vec())
}

fn config() -> Config {
    Config {
        block_size: 1024,
        reflink: Reflink::Auto,
        no_perms: false,
        no_timestamps: false,
        ownership: false,
        fsync: false,
        no_target_directory: false,
        dereference: false,
        no_clobber: false,
        copy_special: false,
        dry_run: false,
        copy_xattrs: false,
        preserve_hardlinks: false,
        checksum: false,
    }
}

fn key(path: &PathBuf) -> String {
    let names: Vec<String> =
        path.components().into_iter().map(|c| String::from_utf8(c).unwrap()).collect();
    names.join("/")
}

#[derive(Clone, Debug, PartialEq)]
struct Node {
    meta: Metadata,
    text: String,
    data: Vec<u8>,
}

/// A file system in memory: names, and the inodes that they lead to.
#[derive(Debug)]
struct World {
    names: BTreeMap<String, u64>,
    inodes: BTreeMap<u64, Node>,
    fresh: u64,
    /// All commands carried out but notices and sizes.
    done: Vec<String>,
    /// All notices given.
    notices: Vec<String>,
    /// The sum of all sizes announced.
    size: u64,
    /// Whether operations wait until the run is over.
    slow: bool,
    /// The operations that wait.
    queue: Vec<Command>,
}

impl World {
    fn new() -> World {
        World {
            names: BTreeMap::new(),
            inodes: BTreeMap::new(),
            fresh: 100,
            done: Vec::new(),
            notices: Vec::new(),
            size: 0,
            slow: false,
            queue: Vec::new(),
        }
    }

    fn add(&mut self, name: &str, kind: FileType, mode: u32, text: &str, data: &[u8], mtime: i64) {
        self.fresh += 1;
        let meta = Metadata {
            kind,
            len: data.len() as u64,
            mtime,
            mtime_nsec: 3,
            mode,
            uid: 7,
            gid: 8,
            dev: 1,
            ino: self.fresh,
            nlink: 1,
        };
        self.inodes.insert(
            self.fresh,
            Node { meta, text: text.to_string(), data: data.to_vec() },
        );
        self.names.insert(name.to_string(), self.fresh);
    }

    fn dir(&mut self, name: &str) {
        self.add(name, FileType::Dir, 0o755, "", b"", 10);
    }

    fn file(&mut self, name: &str, data: &[u8]) {
        self.add(name, FileType::File, 0o644, "", data, 20);
    }

    fn link(&mut self, name: &str, text: &str) {
        self.add(name, FileType::Symlink, 0o777, text, b"", 30);
    }

    fn name(&mut self, name: &str, first: &str) {
        let ino = self.names[first];
        self.names.insert(name.to_string(), ino);
        self.count_names();
    }

    fn count_names(&mut self) {
        for (ino, node) in self.inodes.iter_mut() {
            node.meta.nlink = self.names.values().filter(|i| *i == ino).count() as u64;
        }
    }

    fn get(&self, name: &str) -> Option<&Node> {
        self.names.get(name).map(|ino| &self.inodes[ino])
    }

    fn change(&mut self, name: &str) -> &mut Node {
        let ino = self.names[name];
        self.inodes.get_mut(&ino).unwrap()
    }

    fn below(&self, top: &str) -> Vec<String> {
        let inner = format!("{top}/");
        self.names.keys().filter(|n| *n == top || n.starts_with(&inner)).cloned().collect()
    }

    fn remove(&mut self, name: &str) {
        self.names.remove(name).expect("nothing to remove");
        self.count_names();
    }

    fn holder_is_dir(&self, name: &str) -> bool {
        match name.rsplit_once('/') {
            Some((holder, _)) => self.get(holder).map(|n| n.meta.kind) == Some(FileType::Dir),
            None => true,
        }
    }

    fn create(&mut self, name: &str, kind: FileType, text: &str) {
        assert!(self.get(name).is_none(), "{name} exists");
        assert!(self.holder_is_dir(name), "{name} has no holder");
        self.add(name, kind, 0o600, text, b"", 999);
    }

    fn copy(&mut self, from: &str, to: &str, config: &Config) {
        let source = self.get(from).expect("no source").clone();
        if self.get(to).is_none() {
            self.create(to, FileType::File, "");
        }
        let node = self.change(to);
        assert_eq!(node.meta.kind, FileType::File, "{to}");
        assert_ne!(node.meta.mode & 0o200, 0, "{to} is locked");
        node.data = source.data.clone();
        node.meta.len = source.meta.len;
        node.meta.mtime = 1234;
        if !config.no_perms {
            node.meta.mode = source.meta.mode;
        }
        if !config.no_timestamps {
            node.meta.mtime = source.meta.mtime;
            node.meta.mtime_nsec = source.meta.mtime_nsec;
        }
    }

    /// Carries out the operations that wait, the last one first.
    fn catch_up(&mut self, config: &Config) {
        self.slow = false;
        while let Some(command) = self.queue.pop() {
            self.perform(command, config);
        }
    }

    fn perform(&mut self, command: Command, config: &Config) {
        if self.slow && matches!(command, Command::Send(_)) {
            self.queue.push(command);
            return;
        }
        match &command {
            Command::Notice(notice) => {
                let (first, second) = notice.paths();
                let mut line = format!("{}{}", notice.label(), key(first));
                if let Some(second) = second {
                    line = format!("{line} -> {}", key(second));
                }
                self.notices.push(line);
                return;
            }
            Command::Size(n) => {
                self.size += n;
                return;
            }
            Command::RemoveFile(a) => {
                let name = key(a);
                assert_ne!(self.get(&name).unwrap().meta.kind, FileType::Dir);
                self.remove(&name);
            }
            Command::RemoveDirAll(a) => {
                let name = key(a);
                assert_eq!(self.get(&name).unwrap().meta.kind, FileType::Dir);
                for inner in self.below(&name) {
                    self.remove(&inner);
                }
            }
            Command::CreateDirAll(a) | Command::CreateTargetDir(a) => {
                self.create(&key(a), FileType::Dir, "")
            }
            Command::Chown(a, uid, gid) => {
                let node = self.change(&key(a));
                node.meta.uid = *uid;
                node.meta.gid = *gid;
            }
            Command::SetMode(a, mode) => self.change(&key(a)).meta.mode = *mode,
            Command::SyncXattrs(_, _) => {}
            Command::HardLink(a, b) => {
                assert!(self.get(&key(b)).is_none());
                assert!(self.holder_is_dir(&key(b)));
                self.name(&key(b), &key(a));
            }
            Command::CopyNow(a, b) | Command::Send(Operation::Copy(a, b)) => {
                self.copy(&key(a), &key(b), config)
            }
            Command::Send(Operation::Link(text, b)) => {
                let text = String::from_utf8(text.as_bytes().clone()).unwrap();
                self.create(&key(b), FileType::Symlink, &text)
            }
            Command::Send(Operation::Special(a, b)) => {
                let kind = self.get(&key(a)).unwrap().meta.kind;
                self.create(&key(b), kind, "")
            }
            other => panic!("unexpected {other:?}"),
        }
        self.done.push(format!("{command:?}").split('(').next().unwrap().to_string());
    }

    fn lstat(&self, path: &PathBuf) -> Option<Metadata> {
        self.get(&key(path)).map(|n| n.meta)
    }

    fn digest(&self, path: &PathBuf) -> [u8; 32] {
        let data = &self.get(&key(path)).unwrap().data;
        let state = match compute_blake3(FileDigest::new(), data, data.len()) {
            DigestStep::Reading(next) => next,
            DigestStep::Done(hash) => return hash,
        };
        match compute_blake3(state, data, 0) {
            DigestStep::Done(hash) => hash,
            DigestStep::Reading(_) => unreachable!(),
        }
    }

    /// Mirrors `s` to `d`.
    fn sync(&mut self, config: Config) -> Result<(), XcpError> {
        self.done.clear();
        self.notices.clear();
        self.size = 0;
        let mut walk = SyncWalk::new(p("s"), p("d"), config);
        let mut event = Event::Begin;
        let mut entries: Vec<String> = Vec::new();
        loop {
            let (next_walk, reply) = sync_walker(walk, event);
            walk = next_walk;
            let Reply { commands, delete, verify, next } = reply;
            for command in commands {
                self.perform(command, &config);
            }
            for root in delete {
                let found = self.lstat(&root);
                for command in remove_entry(root, found) {
                    self.perform(command, &config);
                }
            }
            for c in verify {
                let (a, b) = (self.digest(&c.from), self.digest(&c.target));
                let found = self.lstat(&c.target);
                let (dry, xattrs) = (config.dry_run, config.copy_xattrs);
                for command in checksum_outcome(c, found, &a, &b, dry, xattrs) {
                    self.perform(command, &config);
                }
            }
            event = match next {
                Next::Ask(query) => match query {
                    Query::BeginWalk(a) | Query::BeginListing(a) => {
                        entries = self.below(&key(&a));
                        entries.reverse();
                        Event::Begun
                    }
                    Query::NextEntry | Query::NextListed => match entries.pop() {
                        Some(name) => Event::Entry(Some(p(&name))),
                        None => Event::End,
                    },
                    Query::Exists(a) => Event::Answer(self.get(&key(&a)).is_some()),
                    Query::IsDir(a) => Event::Answer(
                        self.lstat(&a).map(|m| m.kind == FileType::Dir).unwrap_or(false),
                    ),
                    Query::SourceMeta(a) | Query::Lstat(a) => Event::Meta(self.lstat(&a)),
                    Query::ReadLink(a) => Event::Path(p(&self.get(&key(&a)).unwrap().text)),
                    Query::Canonicalize(a) => {
                        let node = self.get(&key(&a)).unwrap();
                        if node.meta.kind == FileType::Symlink {
                            Event::Path(p(&node.text))
                        } else {
                            Event::Path(a)
                        }
                    }
                    Query::Digests(a, b) => {
                        Event::Digests(Some((self.digest(&a), self.digest(&b))))
                    }
                    other => panic!("unexpected {other:?}"),
                },
                Next::Finished => return Ok(()),
                Next::Failed(e) => return Err(e),
                Next::OutOfTurn => panic!("out of turn"),
            };
        }
    }

    /// Checks that `d` mirrors `s`.
    fn check_mirror(&self, config: &Config) {
        let source = self.below("s");
        let dest: Vec<String> =
            self.below("d").iter().map(|n| n.replacen('d', "s", 1)).collect();
        assert_eq!(source, dest);
        for name in source {
            let a = self.get(&name).unwrap();
            let b = self.get(&name.replacen('s', "d", 1)).unwrap();
            assert_eq!(a.meta.kind, b.meta.kind, "{name}");
            assert_eq!(a.data, b.data, "{name}");
            assert_eq!(a.text, b.text, "{name}");
            if !config.no_perms && a.meta.kind != FileType::Symlink {
                assert_eq!(a.meta.mode, b.meta.mode, "{name}");
            }
            if !config.no_timestamps && a.meta.kind == FileType::File {
                assert_eq!(a.meta.mtime, b.meta.mtime, "{name}");
            }
        }
    }
}

/// A source with a bit of everything that is mirrored.
fn source() -> World {
    let mut world = World::new();
    world.dir("s");
    world.dir("s/a");
    world.dir("s/a/b");
    world.file("s/a/b/deep", b"deep down");
    world.file("s/a/one", b"1");
    world.file("s/top", b"top of it");
    world.link("s/way", "a/one");
    world
}

#[test]
fn a_missing_destination_is_made_and_filled() {
    let mut world = source();
    assert_eq!(world.sync(config()), Ok(()));
    world.check_mirror(&config());
    assert_eq!(world.size, 19);
}

#[test]
fn workers_may_come_late_and_in_any_order() {
    let checked = Config { checksum: true, copy_special: true, ..config() };
    let mut world = source();
    world.add("s/a/pipe", FileType::Fifo, 0o600, "", b"", 1);
    world.change("s/top").meta.mode = 0o444;
    world.dir("d");
    world.dir("d/a");
    world.file("d/a/one", b"2");
    world.add("d/top", FileType::File, 0o444, "", b"other than", 20);
    world.link("d/way", "elsewhere");
    world.file("d/stale", b"stale");
    world.slow = true;
    world.sync(checked).unwrap();
    assert!(world.get("d/a/b/deep").is_none() && world.get("d/a/pipe").is_none());
    assert!(world.get("d/way").is_none() && world.get("d/stale").is_none());
    assert_eq!(world.get("d/a/one").unwrap().data, b"2");
    assert_eq!(world.queue.len(), 5);
    world.catch_up(&checked);
    world.check_mirror(&checked);
    world.sync(Config { checksum: true, ..config() }).unwrap();
    assert!(world.done.is_empty());
}

#[test]
fn names_are_linked_before_workers_come() {
    let keep = Config { preserve_hardlinks: true, copy_special: true, ..config() };
    let mut world = source();
    world.name("s/z", "s/a/one");
    world.add("s/pipe", FileType::Fifo, 0o600, "", b"", 1);
    world.dir("d");
    world.link("d/z", "elsewhere");
    world.slow = true;
    world.sync(keep).unwrap();
    assert_eq!(world.names["d/a/one"], world.names["d/z"]);
    assert_eq!(world.get("d/z").unwrap().data, b"1");
    world.catch_up(&keep);
    world.check_mirror(&keep);
    assert_eq!(world.names["d/a/one"], world.names["d/z"]);
}

#[test]
fn a_second_run_has_nothing_to_do() {
    let all = Config { checksum: true, preserve_hardlinks: true, ..config() };
    let mut world = source();
    world.name("s/a/too", "s/a/one");
    assert_eq!(world.sync(all), Ok(()));
    world.check_mirror(&all);
    assert_eq!(world.sync(all), Ok(()));
    assert!(world.done.is_empty(), "{:?}", world.done);
    assert_eq!(world.size, 0);
}

#[test]
fn a_changed_file_is_copied_again() {
    let mut world = source();
    world.sync(config()).unwrap();
    world.change("s/top").data = b"new".to_vec();
    world.change("s/top").meta.len = 3;
    world.sync(config()).unwrap();
    assert_eq!(world.done, vec!["Send"]);
    assert_eq!(world.size, 3);
    world.check_mirror(&config());
}

#[test]
fn a_locked_file_is_unlocked_to_be_written() {
    let mut world = source();
    world.change("s/top").meta.mode = 0o444;
    world.sync(config()).unwrap();
    assert_eq!(world.get("d/top").unwrap().meta.mode, 0o444);
    world.change("s/top").meta.mtime = 21;
    world.sync(config()).unwrap();
    assert_eq!(world.done, vec!["SetMode", "Send"]);
    world.check_mirror(&config());
}

#[test]
fn permissions_of_directories_follow_the_source() {
    let mut world = source();
    world.sync(config()).unwrap();
    world.change("s/a").meta.mode = 0o700;
    world.sync(config()).unwrap();
    assert_eq!(world.done, vec!["SetMode"]);
    let lax = Config { no_perms: true, ..config() };
    world.change("s/a").meta.mode = 0o711;
    world.sync(lax).unwrap();
    assert!(world.done.is_empty());
}

#[test]
fn whatever_is_in_the_way_is_replaced() {
    let mut world = source();
    world.dir("d");
    world.file("d/a", b"a file where a directory belongs");
    world.dir("d/top");
    world.dir("d/top/x");
    world.file("d/top/x/y", b"below a file");
    world.dir("d/way");
    world.file("d/way/z", b"below a symlink");
    world.sync(config()).unwrap();
    world.check_mirror(&config());
}

#[test]
fn symlinks_in_the_way_are_replaced() {
    let mut world = source();
    world.dir("d");
    world.link("d/a", "elsewhere");
    world.link("d/top", "elsewhere");
    world.link("d/way", "elsewhere");
    world.sync(config()).unwrap();
    world.check_mirror(&config());
}

#[test]
fn a_symlink_that_spells_the_same_path_is_kept() {
    let mut world = source();
    world.sync(config()).unwrap();
    world.change("d/way").text = "a//one".to_string();
    world.sync(config()).unwrap();
    assert!(world.done.is_empty());
    world.change("d/way").text = "a/two".to_string();
    world.sync(config()).unwrap();
    assert_eq!(world.done, vec!["RemoveFile", "Send"]);
    world.check_mirror(&config());
}

#[test]
fn what_the_source_lacks_is_removed_once_per_subtree() {
    let mut world = source();
    world.sync(config()).unwrap();
    world.dir("d/old");
    world.dir("d/old/er");
    world.file("d/old/er/est", b"x");
    world.file("d/a/extra", b"y");
    world.link("d/gone", "old");
    world.sync(config()).unwrap();
    assert_eq!(world.done, vec!["RemoveFile", "RemoveFile", "RemoveDirAll"]);
    world.check_mirror(&config());
}

#[test]
fn a_single_file_replaces_the_destination() {
    let mut world = World::new();
    world.file("s", b"alone");
    world.dir("d");
    world.file("d/x", b"y");
    world.sync(config()).unwrap();
    world.check_mirror(&config());
}

#[test]
fn names_of_one_file_become_names_of_one_file() {
    let keep = Config { preserve_hardlinks: true, ..config() };
    let mut world = source();
    world.name("s/a/too", "s/a/one");
    world.name("s/z", "s/a/one");
    world.dir("d");
    world.dir("d/z");
    world.sync(keep).unwrap();
    world.check_mirror(&keep);
    assert_eq!(world.names["d/a/one"], world.names["d/a/too"]);
    assert_eq!(world.names["d/a/one"], world.names["d/z"]);
    assert_ne!(world.names["d/a/one"], world.names["d/top"]);
}

#[test]
fn names_are_copied_apart_unless_they_are_to_be_kept() {
    let mut world = source();
    world.name("s/a/too", "s/a/one");
    world.sync(config()).unwrap();
    world.check_mirror(&config());
    assert_ne!(world.names["d/a/one"], world.names["d/a/too"]);
}

#[test]
fn a_file_that_is_no_name_of_the_first_one_is_linked_again() {
    let keep = Config { preserve_hardlinks: true, ..config() };
    let mut world = source();
    world.sync(keep).unwrap();
    world.name("s/z", "s/top");
    world.file("d/z", b"top of it");
    world.sync(keep).unwrap();
    assert_eq!(world.done, vec!["RemoveFile", "HardLink"]);
    world.check_mirror(&keep);
}

#[test]
fn a_changed_file_with_several_names_is_written_once() {
    let keep = Config { preserve_hardlinks: true, ..config() };
    let mut world = source();
    world.name("s/z", "s/top");
    world.sync(keep).unwrap();
    world.change("s/top").data = b"else".to_vec();
    world.change("s/top").meta.len = 4;
    world.sync(keep).unwrap();
    assert_eq!(world.done, vec!["CopyNow"]);
    world.check_mirror(&keep);
}

#[test]
fn names_of_one_file_are_neither_queued_nor_announced_twice() {
    let keep = Config { preserve_hardlinks: true, checksum: true, ..config() };
    let mut world = World::new();
    world.dir("s");
    world.file("s/a", b"12345");
    world.name("s/b", "s/a");
    world.name("s/c", "s/a");
    world.file("s/d", b"123");
    world.sync(keep).unwrap();
    assert_eq!(
        world.done,
        vec!["CreateDirAll", "SetMode", "CopyNow", "HardLink", "HardLink", "Send"]
    );
    assert_eq!(world.size, 8);
    world.check_mirror(&keep);
}

#[test]
fn kinds_are_mirrored_also_where_different_files_share_an_inode() {
    let mut world = source();
    world.sync(config()).unwrap();
    world.remove("d/top");
    world.name("d/top", "d/a/one");
    world.sync(config()).unwrap();
    let dest: Vec<String> = world.below("d").iter().map(|n| n.replacen('d', "s", 1)).collect();
    assert_eq!(world.below("s"), dest);
    for name in world.below("s") {
        let mirror = world.get(&name.replacen('s', "d", 1)).unwrap();
        assert_eq!(world.get(&name).unwrap().meta.kind, mirror.meta.kind);
        assert_eq!(world.get(&name).unwrap().text, mirror.text);
    }
}

#[test]
fn special_files_that_are_passed_over_leave_the_rest_mirrored() {
    let mut world = source();
    world.add("s/a/pipe", FileType::Fifo, 0o600, "", b"", 1);
    world.sync(config()).unwrap();
    assert!(world.get("d/a/pipe").is_none());
    world.remove("s/a/pipe");
    world.check_mirror(&config());
    world.sync(config()).unwrap();
    assert!(world.done.is_empty());
}

#[test]
fn contents_are_compared_only_on_demand() {
    let mut world = source();
    world.sync(config()).unwrap();
    world.change("d/top").data = b"sneaky!!!".to_vec();
    world.sync(config()).unwrap();
    assert!(world.done.is_empty());
    let checked = Config { checksum: true, ..config() };
    world.sync(checked).unwrap();
    assert_eq!(world.done, vec!["Send"]);
    assert_eq!(world.size, 9);
    world.check_mirror(&checked);
}

#[test]
fn a_locked_file_that_differs_in_content_alone_is_overwritten() {
    let checked = Config { checksum: true, ..config() };
    let mut world = source();
    world.change("s/top").meta.mode = 0o444;
    world.sync(checked).unwrap();
    world.change("d/top").data = b"sneaky!!!".to_vec();
    world.sync(checked).unwrap();
    assert_eq!(world.done, vec!["SetMode", "Send"]);
    world.check_mirror(&checked);
}

#[test]
fn contents_of_first_names_are_compared_at_once() {
    let checked = Config { checksum: true, preserve_hardlinks: true, ..config() };
    let mut world = source();
    world.name("s/z", "s/top");
    world.sync(checked).unwrap();
    world.change("d/top").data = b"sneaky!!!".to_vec();
    world.sync(checked).unwrap();
    assert_eq!(world.done, vec!["CopyNow"]);
    world.check_mirror(&checked);
}

#[test]
fn attributes_and_owners_are_refreshed_where_asked_for() {
    let tend = Config { copy_xattrs: true, ownership: true, ..config() };
    let mut world = source();
    world.sync(tend).unwrap();
    world.change("s/a").meta.uid = 42;
    world.sync(tend).unwrap();
    assert_eq!(world.get("d/a").unwrap().meta.uid, 42);
    assert_eq!(world.done.iter().filter(|c| *c == "Chown").count(), 3);
    assert_eq!(world.done.iter().filter(|c| *c == "SyncXattrs").count(), 6);
    assert_eq!(world.done.len(), 9);
}

#[test]
fn a_dry_run_only_says_what_it_would_do() {
    let dry = Config { dry_run: true, preserve_hardlinks: true, checksum: true, ..config() };
    let mut world = source();
    world.name("s/z", "s/top");
    world.add("s/pipe", FileType::Fifo, 0o600, "", b"", 1);
    world.dir("d");
    world.file("d/a", b"in the way");
    world.file("d/stale", b"stale");
    let before = (world.names.clone(), world.inodes.clone());
    world.sync(Config { copy_special: true, ..dry }).unwrap();
    assert_eq!(
        world.notices,
        vec![
            "would replace with dir: d/a",
            "would create dir: d/a/b",
            "would copy: s/a/b/deep -> d/a/b/deep",
            "would copy: s/a/one -> d/a/one",
            "would copy special: s/pipe -> d/pipe",
            "would copy: s/top -> d/top",
            "would create symlink: d/way -> a/one",
            "would hard link: d/z -> d/top",
            "would delete: d/stale",
        ]
    );
    assert!(world.done.is_empty());
    assert_eq!(world.names, before.0);
    assert_eq!(world.inodes, before.1);
}

#[test]
fn a_dry_run_makes_no_destination() {
    let mut world = source();
    let before = (world.names.clone(), world.inodes.clone());
    world.sync(Config { dry_run: true, ..config() }).unwrap();
    assert_eq!(
        world.notices,
        vec![
            "would create dir: d",
            "would create dir: d/a",
            "would create dir: d/a/b",
            "would copy: s/a/b/deep -> d/a/b/deep",
            "would copy: s/a/one -> d/a/one",
            "would copy: s/top -> d/top",
            "would create symlink: d/way -> a/one",
        ]
    );
    assert!(world.done.is_empty());
    assert_eq!(world.size, 0);
    assert_eq!(world.names, before.0);
    assert_eq!(world.inodes, before.1);
}

#[test]
fn a_dry_run_clears_nothing_out_of_the_way_of_a_file() {
    for shared in [false, true] {
        let mut world = source();
        if shared {
            world.name("s/z", "s/top");
        }
        world.sync(config()).unwrap();
        world.remove("d/top");
        world.dir("d/top");
        world.file("d/top/inner", b"inner");
        world.remove("d/a/one");
        world.link("d/a/one", "elsewhere");
        let before = (world.names.clone(), world.inodes.clone());
        let dry = Config { dry_run: true, preserve_hardlinks: shared, ..config() };
        world.sync(dry).unwrap();
        let mut notices = vec![
            "would copy: s/a/one -> d/a/one",
            "would copy: s/top -> d/top",
        ];
        if shared {
            notices.push("would hard link: d/z -> d/top");
        }
        notices.push("would delete: d/top/inner");
        assert_eq!(world.notices, notices);
        assert!(world.done.is_empty());
        assert_eq!(world.names, before.0);
        assert_eq!(world.inodes, before.1);
    }
}

#[test]
fn a_dry_run_says_which_contents_differ() {
    let mut world = source();
    world.sync(config()).unwrap();
    world.change("d/top").data = b"sneaky!!!".to_vec();
    world.sync(Config { dry_run: true, checksum: true, ..config() }).unwrap();
    assert_eq!(world.notices, vec!["would copy (checksum differs): s/top -> d/top"]);
    assert!(world.done.is_empty());
}

#[test]
fn a_dry_run_of_a_mirror_says_nothing() {
    let mut world = source();
    world.sync(config()).unwrap();
    world.sync(Config { dry_run: true, ..config() }).unwrap();
    assert!(world.notices.is_empty() && world.done.is_empty());
}

#[test]
fn special_files_are_mirrored_on_demand() {
    for kind in [FileType::Fifo, FileType::Socket, FileType::Char, FileType::Block] {
        let mut world = source();
        world.add("s/special", kind, 0o600, "", b"", 1);
        world.sync(config()).unwrap();
        assert!(world.get("d/special").is_none());
        world.sync(Config { copy_special: true, ..config() }).unwrap();
        assert_eq!(world.get("d/special").unwrap().meta.kind, kind);
    }
}

#[test]
fn special_files_keep_their_counterparts() {
    let mut world = source();
    world.add("s/pipe", FileType::Fifo, 0o600, "", b"", 1);
    world.sync(config()).unwrap();
    world.add("d/pipe", FileType::Fifo, 0o600, "", b"", 1);
    world.sync(config()).unwrap();
    assert!(world.get("d/pipe").is_some());
}

#[test]
fn unknown_kinds_end_the_run() {
    let mut world = source();
    world.add("s/what", FileType::Other, 0o600, "", b"", 1);
    assert_eq!(world.sync(config()), Err(XcpError::UnknownFileType(p("d/what"))));
}

#[test]
fn dereferencing_mirrors_what_a_symlink_leads_to() {
    let deref = Config { dereference: true, ..config() };
    let mut world = World::new();
    world.dir("s");
    world.link("s/way", "elsewhere/f");
    world.file("elsewhere/f", b"far");
    world.sync(deref).unwrap();
    let node = world.get("d/way").unwrap();
    assert_eq!(node.meta.kind, FileType::File);
    assert_eq!(node.data, b"far");
}

#[test]
fn copies_without_timestamps_are_made_again() {
    let lax = Config { no_timestamps: true, ..config() };
    let mut world = World::new();
    world.dir("s");
    world.file("s/f", b"x");
    world.sync(lax).unwrap();
    world.check_mirror(&lax);
    world.sync(lax).unwrap();
    assert_eq!(world.done, vec!["Send"]);
}

#[test]
fn contents_that_cannot_be_read_count_as_the_same() {
    let checked = Config { checksum: true, preserve_hardlinks: true, ..config() };
    let meta = Metadata {
        kind: FileType::File,
        len: 1,
        mtime: 1,
        mtime_nsec: 1,
        mode: 0o644,
        uid: 0,
        gid: 0,
        dev: 1,
        ino: 2,
        nlink: 2,
    };
    let mut walk = SyncWalk::new(p("s"), p("d"), checked);
    for event in [
        Event::Begin,
        Event::Answer(true),
        Event::Begun,
        Event::Entry(Some(p("s/f"))),
        Event::Meta(Some(meta)),
    ] {
        walk = sync_walker(walk, event).0;
    }
    let (walk, reply) = sync_walker(walk, Event::Meta(Some(meta)));
    assert_eq!(reply.next, Next::Ask(Query::Digests(p("s/f"), p("d/f"))));
    let (_, reply) = sync_walker(walk, Event::Digests(None));
    assert!(reply.commands.is_empty());
    assert_eq!(reply.next, Next::Ask(Query::NextEntry));
}

#[test]
fn entries_outside_the_source_end_the_run() {
    let mut walk = SyncWalk::new(p("s"), p("d"), config());
    for event in [Event::Begin, Event::Answer(true), Event::Begun, Event::Entry(Some(p("x/f")))] {
        walk = sync_walker(walk, event).0;
    }
    let meta = source().lstat(&p("s/top"));
    let (walk, reply) = sync_walker(walk, Event::Meta(meta));
    assert_eq!(reply.next, Next::Failed(XcpError::OutsideSource));
    let (_, reply) = sync_walker(walk, Event::End);
    assert_eq!(reply.next, Next::OutOfTurn);
}

#[test]
fn unreadable_listings_are_passed_over() {
    let mut walk = SyncWalk::new(p("s"), p("d"), config());
    for event in [
        Event::Begin,
        Event::Answer(true),
        Event::Begun,
        Event::End,
        Event::Answer(true),
        Event::Begun,
        Event::Entry(None),
        Event::Entry(Some(p("d"))),
        Event::Entry(Some(p("d/x"))),
        Event::Entry(Some(p("elsewhere"))),
        Event::Entry(Some(p("d/x/y"))),
    ] {
        walk = sync_walker(walk, event).0;
    }
    let (_, reply) = sync_walker(walk, Event::End);
    assert_eq!(reply.delete, vec![p("d/x")]);
    assert!(reply.commands.is_empty() && reply.verify.is_empty());
    assert_eq!(reply.next, Next::Finished);
}

#[test]
fn subtree_roots_are_the_paths_whose_holders_are_not_listed() {
    let list: Vec<PathBuf> =
        ["d/a", "d/a/b", "d/a/b/c", "d/e/f", "d/e/g/h", "/"].iter().map(|s| p(s)).collect();
    let roots = subtree_roots(&list);
    assert_eq!(roots, vec![p("d/a"), p("d/e/f"), p("d/e/g/h"), p("/")]);
    assert!(subtree_roots(&Vec::new()).is_empty());
}

#[test]
fn entries_are_removed_by_what_they_are() {
    let world = source();
    let dir = world.lstat(&p("s/a"));
    let link = world.lstat(&p("s/way"));
    assert_eq!(remove_entry(p("s/a"), dir), vec![Command::RemoveDirAll(p("s/a"))]);
    assert_eq!(remove_entry(p("s/way"), link), vec![Command::RemoveFile(p("s/way"))]);
    assert!(remove_entry(p("s/no"), None).is_empty());
}

#[test]
fn notices_name_their_paths_in_order() {
    let notice = Notice::HardLink(p("x"), p("y"));
    assert_eq!(notice.label(), "would hard link: ");
    assert_eq!(notice.paths(), (&p("x"), Some(&p("y"))));
    assert_eq!(Notice::Delete(p("x")).paths(), (&p("x"), None));
    assert_eq!(Notice::Delete(p("x")).label(), "would delete: ");
}
