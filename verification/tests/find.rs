use find_select::find::{find_file, Step};
use find_select::path::Path;
use find_select::tree::{Entry, Kind};
use std::collections::HashSet;

fn path(text: &str) -> Path {
    Path {
        components: text
            .split('/')
            .filter(|part| !part.is_empty())
            .map(|part| part.as_bytes().to_vec())
            .collect(),
    }
}

fn shown(path: &Path) -> String {
    let parts: Vec<String> =
        path.components.iter().map(|part| String::from_utf8_lossy(part).into_owned()).collect();
    parts.join("/")
}

/// A file system held in memory: each directory with its entries, in the
/// order in which it reports them. An entry whose name ends in `/` is a
/// directory. A directory that is not listed cannot be read.
struct Disk {
    directories: Vec<(&'static str, Vec<&'static str>)>,
    reads: Vec<String>,
}

impl Disk {
    fn new(directories: &[(&'static str, &[&'static str])]) -> Disk {
        Disk {
            directories: directories.iter().map(|(dir, names)| (*dir, names.to_vec())).collect(),
            reads: Vec::new(),
        }
    }

    fn read(&mut self, dir: &Path) -> Result<Vec<Entry>, String> {
        let wanted = shown(dir);
        self.reads.push(wanted.clone());
        let Some((_, names)) = self.directories.iter().find(|(dir, _)| *dir == wanted) else {
            return Err(format!("cannot read {}", wanted));
        };
        Ok(names
            .iter()
            .map(|name| {
                let mut own = dir.clone();
                own.components.push(name.trim_end_matches('/').as_bytes().to_vec());
                let kind = if name.ends_with('/') { Kind::Directory } else { Kind::File };
                Entry { path: own, kind }
            })
            .collect())
    }

    /// Runs a whole search against this file system.
    fn search(&mut self, root: &str, name: &str) -> Result<Vec<String>, String> {
        let mut step = find_file::<String>(path(root), path(name));
        loop {
            match step {
                Step::Done(result) => return result.map(|found| found.iter().map(shown).collect()),
                Step::Read { dir, walk } => {
                    assert!(self.reads.len() < 1000, "the search does not end");
                    step = walk.supply(self.read(&dir));
                }
            }
        }
    }
}

fn set(paths: &[&str]) -> HashSet<String> {
    paths.iter().map(|path| path.to_string()).collect()
}

#[test]
fn finds_entries() {
    const FILENAME: &str = "foobar.sh";

    let mut expected_results = HashSet::new();
    let mut directories: Vec<(&'static str, Vec<&'static str>)> = Vec::new();
    let levels = [
        (".", "./foobar.sh", "upper/"),
        ("./upper", "./upper/foobar.sh", "middle/"),
        ("./upper/middle", "./upper/middle/foobar.sh", "lower/"),
        ("./upper/middle/lower", "./upper/middle/lower/foobar.sh", ""),
    ];
    for (depth, (dir, file, _)) in levels.iter().enumerate() {
        if depth > 0 {
            let parent = directories.last_mut().unwrap();
            parent.1.push(levels[depth - 1].2);
        }
        directories.push((*dir, vec![FILENAME]));
        expected_results.insert(file.to_string());

        let mut disk = Disk { directories: directories.clone(), reads: Vec::new() };
        let result = disk.search(".", FILENAME).unwrap().into_iter().collect::<HashSet<_>>();
        assert_eq!(result.symmetric_difference(&expected_results).next(), None);
    }
    assert_eq!(expected_results.len(), 4);
}

#[test]
fn finds_the_name_at_every_depth() {
    let mut disk = Disk::new(&[("root", &["a.sh", "sub/"]), ("root/sub", &["a.sh", "b.sh"])]);
    let found = disk.search("root", "a.sh").unwrap();
    assert_eq!(found.iter().cloned().collect::<HashSet<_>>(), set(&["root/a.sh", "root/sub/a.sh"]));
    assert_eq!(found.len(), 2);
}

#[test]
fn empty_directory_has_no_matches() {
    let mut disk = Disk::new(&[("root", &[])]);
    assert_eq!(disk.search("root", "a.sh").unwrap(), Vec::<String>::new());
    assert_eq!(disk.search("root", "").unwrap(), Vec::<String>::new());
    assert_eq!(disk.reads, ["root", "root"]);
}

#[test]
fn only_other_names_give_no_matches() {
    let mut disk = Disk::new(&[
        ("root", &["b.sh", "a.sh.bak", "xa.sh", "sub/", "A.SH"]),
        ("root/sub", &["c.sh", "a"]),
    ]);
    assert_eq!(disk.search("root", "a.sh").unwrap(), Vec::<String>::new());
    assert_eq!(disk.reads, ["root", "root/sub"]);
}

#[test]
fn searching_again_finds_the_same() {
    let mut disk = Disk::new(&[
        ("root", &["a.sh", "sub/", "other/"]),
        ("root/sub", &["a.sh", "b.sh"]),
        ("root/other", &["a.sh"]),
    ]);
    let first = disk.search("root", "a.sh").unwrap();
    let second = disk.search("root", "a.sh").unwrap();
    assert_eq!(first, second);
    assert_eq!(first.len(), 3);
}

#[test]
fn directory_with_the_name_is_no_match() {
    let mut disk = Disk::new(&[
        ("root", &["a.sh/", "b/"]),
        ("root/a.sh", &["a.sh", "x"]),
        ("root/b", &["a.sh/"]),
        ("root/b/a.sh", &[]),
    ]);
    assert_eq!(disk.search("root", "a.sh").unwrap(), ["root/a.sh/a.sh"]);
    assert_eq!(disk.reads, ["root", "root/a.sh", "root/b", "root/b/a.sh"]);
}

#[test]
fn matches_come_in_traversal_order() {
    let mut disk = Disk::new(&[
        ("r", &["z/", "t", "a/", "m/"]),
        ("r/z", &["t", "deep/"]),
        ("r/z/deep", &["t"]),
        ("r/a", &["u", "t"]),
        ("r/m", &[]),
    ]);
    assert_eq!(disk.search("r", "t").unwrap(), ["r/z/t", "r/z/deep/t", "r/t", "r/a/t"]);
    assert_eq!(disk.reads, ["r", "r/z", "r/z/deep", "r/a", "r/m"]);
}

#[test]
fn subdirectory_is_read_before_later_siblings_are_visited() {
    let mut disk = Disk::new(&[("r", &["first", "d/", "last"]), ("r/d", &["inner"])]);
    let Step::Read { dir, walk } = find_file::<String>(path("r"), path("last")) else {
        panic!("the root must be read first");
    };
    assert_eq!(shown(&dir), "r");
    let Step::Read { dir, walk } = walk.supply(disk.read(&dir)) else {
        panic!("the directory must be read");
    };
    assert_eq!(shown(&dir), "r/d");
    match walk.supply(disk.read(&dir)) {
        Step::Done(Ok(found)) => assert_eq!(found, [path("r/last")]),
        _ => panic!("nothing is left to read"),
    }
}

#[test]
fn name_of_several_components_matches_whole_components() {
    let mut disk = Disk::new(&[
        ("r", &["sub/", "xsub/", "a.sh"]),
        ("r/sub", &["a.sh"]),
        ("r/xsub", &["a.sh"]),
    ]);
    assert_eq!(disk.search("r", "sub/a.sh").unwrap(), ["r/sub/a.sh"]);
    assert_eq!(disk.search("r", "r/a.sh").unwrap(), ["r/a.sh"]);
    assert_eq!(disk.search("r", "r/sub/a.sh").unwrap(), ["r/sub/a.sh"]);
    assert_eq!(disk.search("r", "q/r/sub/a.sh").unwrap(), Vec::<String>::new());
}

#[test]
fn name_without_components_matches_nothing() {
    let mut disk = Disk::new(&[("r", &["a", "d/", "b"]), ("r/d", &["c"])]);
    assert_eq!(disk.search("r", "").unwrap(), Vec::<String>::new());
    assert_eq!(disk.reads, ["r", "r/d"]);
    let mut disk = Disk::new(&[("root", &["a.sh", "sub/"]), ("root/sub", &["b.sh"])]);
    assert_eq!(disk.search("root", "").unwrap(), Vec::<String>::new());
}

#[test]
fn names_that_are_no_text_are_searched_like_any_other() {
    let odd: Vec<u8> = vec![0x66, 0xff, 0xfe, 0x2e, 0x73, 0x68];
    let root = path("r");
    let below = Path { components: vec![b"r".to_vec(), vec![0xc3, 0x28]] };
    let file = |dir: &Path, name: &[u8]| {
        let mut own = dir.clone();
        own.components.push(name.to_vec());
        Entry { path: own, kind: Kind::File }
    };
    let Step::Read { dir, walk } =
        find_file::<String>(root.clone(), Path { components: vec![odd.clone()] })
    else {
        panic!("the root must be read first");
    };
    assert_eq!(dir, root);
    let listed = vec![
        file(&root, &odd),
        Entry { path: below.clone(), kind: Kind::Directory },
        file(&root, &[0x66, 0xff, 0xfd, 0x2e, 0x73, 0x68]),
    ];
    let Step::Read { dir, walk } = walk.supply::<String>(Ok(listed)) else {
        panic!("the directory must be read");
    };
    assert_eq!(dir, below);
    let listed = vec![file(&below, b"f.sh"), file(&below, &odd)];
    match walk.supply::<String>(Ok(listed)) {
        Step::Done(Ok(found)) => {
            assert_eq!(found, [file(&root, &odd).path, file(&below, &odd).path]);
        }
        _ => panic!("nothing is left to read"),
    }
}

#[test]
fn unreadable_root_fails_the_search() {
    let mut disk = Disk::new(&[]);
    assert_eq!(disk.search("missing", "a.sh"), Err(String::from("cannot read missing")));
}

#[test]
fn unreadable_subdirectory_fails_the_whole_search() {
    let mut disk = Disk::new(&[("r", &["a.sh", "locked/", "open/"]), ("r/open", &["a.sh"])]);
    assert_eq!(disk.search("r", "a.sh"), Err(String::from("cannot read r/locked")));
    assert_eq!(disk.reads, ["r", "r/locked"]);
}

#[test]
fn first_failure_in_traversal_order_is_the_one_returned() {
    let mut disk = Disk::new(&[
        ("r", &["a/", "x", "b/", "c/"]),
        ("r/a", &["x", "deep/"]),
        ("r/a/deep", &["x"]),
        ("r/b", &["lost/", "x"]),
        ("r/c", &["x"]),
    ]);
    assert_eq!(disk.search("r", "x"), Err(String::from("cannot read r/b/lost")));
    assert_eq!(disk.reads, ["r", "r/a", "r/a/deep", "r/b", "r/b/lost"]);
}

#[test]
fn path_ends_with_whole_trailing_components() {
    assert!(path("a/b/c").ends_with(&path("c")));
    assert!(path("a/b/c").ends_with(&path("b/c")));
    assert!(path("a/b/c").ends_with(&path("a/b/c")));
    assert!(!path("a/b/c").ends_with(&path("")));
    assert!(!path("").ends_with(&path("")));
    assert!(!path("a/b/c").ends_with(&path("b")));
    assert!(!path("a/b/c").ends_with(&path("a/b")));
    assert!(!path("a/b/c").ends_with(&path("x/a/b/c")));
    assert!(!path("a/b/xc").ends_with(&path("c")));
    assert!(!path("a/b/c").ends_with(&path("xc")));
    assert!(!path("a/b/c").ends_with(&path("C")));
    assert!(!path("").ends_with(&path("c")));
}
