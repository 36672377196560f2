use io_uring_rm::removal::{classify, DirectoryWalker, Entry, Metadata, Probe, Step};

fn entry(path: &str, probe: Probe) -> Entry {
    Entry { path: path.as_bytes().to_vec(), probe }
}

fn bytes(paths: &[&str]) -> Vec<Vec<u8>> {
    paths.iter().map(|p| p.as_bytes().to_vec()).collect()
}

/// Assembles one chunk, handing over nodes from `nodes` (then `None`) as
/// long as the walker asks for them.
fn chunk_from(w: &mut DirectoryWalker, n: usize, nodes: &mut Vec<Entry>) -> Vec<Vec<u8>> {
    let mut step = w.next_chunk(n);
    loop {
        match step {
            Step::Chunk(c) => return c,
            Step::NeedEntry => {
                assert!(w.is_collecting());
                let next = if nodes.is_empty() { None } else { Some(nodes.remove(0)) };
                step = w.feed(next);
            }
        }
    }
}

#[test]
fn files_then_directories_deepest_first() {
    let mut nodes = vec![
        entry("root", Probe::Directory),
        entry("root/a.txt", Probe::File),
        entry("root/sub", Probe::Directory),
        entry("root/sub/b.txt", Probe::File),
    ];
    let mut w = DirectoryWalker::new();
    let mut files = Vec::new();
    loop {
        let c = chunk_from(&mut w, 5, &mut nodes);
        if c.is_empty() {
            break;
        }
        files.extend(c);
    }
    assert_eq!(files, bytes(&["root/a.txt", "root/sub/b.txt"]));
    assert!(w.is_exhausted());
    assert_eq!(w.get_directories(), bytes(&["root/sub", "root"]));
    assert_eq!(w.next_dir_chunk(5), bytes(&["root/sub", "root"]));
    assert!(w.next_dir_chunk(5).is_empty());
}

#[test]
fn five_files_in_chunks_of_two() {
    let mut nodes: Vec<Entry> =
        ["d/1", "d/2", "d/3", "d/4", "d/5"].iter().map(|p| entry(p, Probe::File)).collect();
    let mut w = DirectoryWalker::new();
    assert_eq!(chunk_from(&mut w, 2, &mut nodes), bytes(&["d/1", "d/2"]));
    assert!(!w.is_exhausted());
    assert_eq!(chunk_from(&mut w, 2, &mut nodes), bytes(&["d/3", "d/4"]));
    assert_eq!(chunk_from(&mut w, 2, &mut nodes), bytes(&["d/5"]));
    assert!(w.is_exhausted());
    assert!(chunk_from(&mut w, 2, &mut nodes).is_empty());
}

#[test]
fn chunks_never_exceed_their_bound_and_list_each_file_once() {
    let mut nodes = Vec::new();
    for i in 0..23 {
        nodes.push(entry(&format!("t/f{}", i), Probe::File));
        if i % 4 == 0 {
            nodes.push(entry(&format!("t/d{}", i), Probe::Directory));
        }
    }
    let mut w = DirectoryWalker::new();
    let mut seen = Vec::new();
    loop {
        let c = chunk_from(&mut w, 3, &mut nodes);
        assert!(c.len() <= 3);
        if c.is_empty() {
            break;
        }
        seen.extend(c);
    }
    let expected: Vec<Vec<u8>> = (0..23).map(|i| format!("t/f{}", i).into_bytes()).collect();
    assert_eq!(seen, expected);
}

#[test]
fn full_chunk_is_returned_without_reading_further() {
    let mut nodes = vec![entry("x/1", Probe::File), entry("x/2", Probe::File), entry("x/3", Probe::File)];
    let mut w = DirectoryWalker::new();
    assert_eq!(chunk_from(&mut w, 2, &mut nodes), bytes(&["x/1", "x/2"]));
    assert_eq!(nodes.len(), 1);
    assert!(!w.is_collecting());
}

#[test]
fn zero_sized_chunk_is_empty_at_once() {
    let mut w = DirectoryWalker::new();
    match w.next_chunk(0) {
        Step::Chunk(c) => assert!(c.is_empty()),
        Step::NeedEntry => panic!("a chunk of size zero asked for a node"),
    }
    assert!(!w.is_exhausted());
}

#[test]
fn refused_nodes_are_recorded_once_and_never_chunked() {
    let mut nodes = vec![
        entry("r", Probe::Directory),
        entry("r/secret", Probe::DeniedFile),
        entry("r/locked", Probe::DeniedDirectory),
        entry("r/ok", Probe::File),
    ];
    let mut w = DirectoryWalker::new();
    let c = chunk_from(&mut w, 10, &mut nodes);
    assert_eq!(c, bytes(&["r/ok"]));
    assert_eq!(w.get_restricted_files(), bytes(&["r/secret"]));
    assert_eq!(w.get_restricted_dirs(), bytes(&["r/locked"]));
    assert_eq!(w.get_directories(), bytes(&["r"]));
    assert_eq!(w.next_dir_chunk(10), bytes(&["r"]));
}

#[test]
fn special_and_failed_nodes_are_dropped() {
    let mut nodes = vec![
        entry("s", Probe::Directory),
        entry("s/fifo", Probe::Special),
        entry("s/gone", Probe::Failed),
        entry("s/f", Probe::File),
    ];
    let mut w = DirectoryWalker::new();
    assert_eq!(chunk_from(&mut w, 10, &mut nodes), bytes(&["s/f"]));
    assert!(w.get_restricted_files().is_empty());
    assert!(w.get_restricted_dirs().is_empty());
    assert_eq!(w.get_directories(), bytes(&["s"]));
}

#[test]
fn directory_chunks_are_bounded_and_deepest_first() {
    let mut nodes = vec![
        entry("a", Probe::Directory),
        entry("a/b", Probe::Directory),
        entry("a/b/c", Probe::Directory),
        entry("a/d", Probe::Directory),
        entry("a/d/e", Probe::File),
    ];
    let mut w = DirectoryWalker::new();
    assert_eq!(chunk_from(&mut w, 4, &mut nodes), bytes(&["a/d/e"]));
    assert!(w.is_exhausted());
    assert_eq!(w.next_dir_chunk(2), bytes(&["a/d", "a/b/c"]));
    assert_eq!(w.get_directories(), bytes(&["a/b", "a"]));
    assert_eq!(w.next_dir_chunk(2), bytes(&["a/b", "a"]));
    assert!(w.next_dir_chunk(2).is_empty());
}

#[test]
fn tree_without_restricted_entries_is_handed_out_whole() {
    let all = ["top", "top/x", "top/y", "top/y/z", "top/y/w", "top/v"];
    let kinds = [Probe::Directory, Probe::File, Probe::Directory, Probe::File, Probe::Directory, Probe::File];
    let mut nodes: Vec<Entry> = all.iter().zip(kinds.iter()).map(|(p, k)| entry(p, *k)).collect();
    let mut w = DirectoryWalker::new();
    let mut handed = Vec::new();
    loop {
        let c = chunk_from(&mut w, 2, &mut nodes);
        if c.is_empty() {
            break;
        }
        handed.extend(c);
    }
    loop {
        let d = w.next_dir_chunk(2);
        if d.is_empty() {
            break;
        }
        handed.extend(d);
    }
    assert_eq!(handed, bytes(&["top/x", "top/y/z", "top/v", "top/y/w", "top/y", "top"]));
}

#[test]
fn classification_follows_the_metadata() {
    assert_eq!(classify(Metadata::Read { is_dir: true, is_file: false }, false), Probe::Directory);
    assert_eq!(classify(Metadata::Read { is_dir: false, is_file: true }, true), Probe::File);
    assert_eq!(classify(Metadata::Read { is_dir: false, is_file: false }, false), Probe::Special);
    assert_eq!(classify(Metadata::Denied, true), Probe::DeniedDirectory);
    assert_eq!(classify(Metadata::Denied, false), Probe::DeniedFile);
    assert_eq!(classify(Metadata::Unreadable, true), Probe::Failed);
}
