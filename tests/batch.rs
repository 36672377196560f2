use io_uring_rm::removal::{encode_path, BatchDeleter, Completion, Removal, RemovalError, Report};

fn bytes(paths: &[&str]) -> Vec<Vec<u8>> {
    paths.iter().map(|p| p.as_bytes().to_vec()).collect()
}

fn outcome(reports: &[Report]) -> Vec<(Vec<u8>, Result<(), RemovalError>)> {
    reports.iter().map(|r| (r.path.clone(), r.result)).collect()
}

#[test]
fn encoding_appends_a_terminator() {
    assert_eq!(encode_path(&b"dir/file".to_vec()), Some(b"dir/file\0".to_vec()));
    assert_eq!(encode_path(&Vec::new()), Some(vec![0u8]));
}

#[test]
fn encoding_refuses_an_embedded_nul() {
    assert_eq!(encode_path(&b"bad\0name".to_vec()), None);
    assert_eq!(encode_path(&vec![0u8]), None);
}

#[test]
fn zero_depth_fails_to_initialise() {
    assert_eq!(BatchDeleter::new(0).err(), Some(RemovalError::InitError));
    let d = BatchDeleter::new(8).ok().unwrap();
    assert_eq!(d.queue_depth(), 8);
}

#[test]
fn embedded_nul_is_skipped_and_the_rest_removed() {
    let d = BatchDeleter::new(4).ok().unwrap();
    let paths = vec![b"t/a".to_vec(), b"t/b\0c".to_vec(), b"t/d".to_vec()];
    let batch = d.prepare(paths, Removal::File);
    assert_eq!(batch.len(), 2);
    assert_eq!(batch.kind(), Removal::File);
    assert_eq!(batch.buffer(0), &b"t/a\0".to_vec());
    assert_eq!(batch.buffer(1), &b"t/d\0".to_vec());
    let completions = vec![Completion { id: 1, status: 0 }, Completion { id: 0, status: 0 }];
    let reports = batch.settle(&completions);
    assert_eq!(
        outcome(&reports),
        vec![
            (b"t/b\0c".to_vec(), Err(RemovalError::PathEncodingError)),
            (b"t/d".to_vec(), Ok(())),
            (b"t/a".to_vec(), Ok(())),
        ]
    );
}

#[test]
fn non_empty_directory_fails_alone() {
    let d = BatchDeleter::new(3).ok().unwrap();
    let batch = d.prepare(bytes(&["r/full", "r/empty"]), Removal::Directory);
    assert_eq!(batch.kind(), Removal::Directory);
    let reports = batch.settle(&vec![Completion { id: 0, status: -39 }, Completion { id: 1, status: 0 }]);
    assert_eq!(
        outcome(&reports),
        vec![
            (b"r/full".to_vec(), Err(RemovalError::OperationFailed(-39))),
            (b"r/empty".to_vec(), Ok(())),
        ]
    );
    // The next batch proceeds as usual.
    let next = d.prepare(bytes(&["r"]), Removal::Directory);
    let reports = next.settle(&vec![Completion { id: 0, status: 0 }]);
    assert_eq!(outcome(&reports), vec![(b"r".to_vec(), Ok(()))]);
}

#[test]
fn completion_with_unknown_id_is_passed_over() {
    let d = BatchDeleter::new(2).ok().unwrap();
    let batch = d.prepare(bytes(&["only"]), Removal::File);
    let reports = batch.settle(&vec![Completion { id: 5, status: 0 }, Completion { id: 0, status: -13 }]);
    assert_eq!(outcome(&reports), vec![(b"only".to_vec(), Err(RemovalError::OperationFailed(-13)))]);
}

#[test]
fn batch_of_nothing_but_bad_paths_submits_nothing() {
    let d = BatchDeleter::new(2).ok().unwrap();
    let batch = d.prepare(vec![b"\0".to_vec(), b"x\0".to_vec()], Removal::File);
    assert_eq!(batch.len(), 0);
    let reports = batch.settle(&Vec::new());
    assert_eq!(reports.len(), 2);
    assert!(reports.iter().all(|r| r.result == Err(RemovalError::PathEncodingError)));
}
