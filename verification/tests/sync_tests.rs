use s3_sync::sync::{generate_sync_operations, FileInfo, FileSet, SyncOperation};

fn set_of(pairs: &[(&str, &str)]) -> FileSet {
    let mut fs = FileSet::new();
    for (path, etag) in pairs {
        fs.insert(path.to_string(), FileInfo { etag: etag.to_string() });
    }
    fs
}

/// The queue reduced to comparable facts: (is_upload, path), sorted.
fn tags_of(ops: &[SyncOperation]) -> Vec<(bool, String)> {
    let mut tags: Vec<(bool, String)> = ops
        .iter()
        .map(|op| match op {
            SyncOperation::Upload { local_path, remote_key } => {
                assert_eq!(local_path, remote_key);
                (true, local_path.clone())
            }
            SyncOperation::Delete { remote_key } => (false, remote_key.clone()),
        })
        .collect();
    tags.sort();
    tags
}

#[test]
fn scenario_new_and_stale_files() {
    let local = set_of(&[("a.txt", "h1"), ("b/c.txt", "h2")]);
    let remote = set_of(&[("a.txt", "h1"), ("old.txt", "h3")]);
    let ops = generate_sync_operations(&local, &remote);
    assert_eq!(
        tags_of(&ops),
        vec![(false, "old.txt".to_string()), (true, "b/c.txt".to_string())]
    );
}

#[test]
fn scenario_unchanged_file() {
    let local = set_of(&[("x.txt", "h1")]);
    let remote = set_of(&[("x.txt", "h1")]);
    let ops = generate_sync_operations(&local, &remote);
    assert!(ops.is_empty());
}

#[test]
fn changed_fingerprint_is_uploaded() {
    let local = set_of(&[("x.txt", "h1")]);
    let remote = set_of(&[("x.txt", "h2")]);
    let ops = generate_sync_operations(&local, &remote);
    assert_eq!(tags_of(&ops), vec![(true, "x.txt".to_string())]);
}

#[test]
fn empty_local_yields_one_delete_per_remote_key() {
    let local = FileSet::new();
    let remote = set_of(&[("a", "1"), ("b", "2"), ("c", "3")]);
    let ops = generate_sync_operations(&local, &remote);
    assert_eq!(
        tags_of(&ops),
        vec![
            (false, "a".to_string()),
            (false, "b".to_string()),
            (false, "c".to_string()),
        ]
    );
}

#[test]
fn empty_remote_yields_one_upload_per_local_key() {
    let local = set_of(&[("a", "1"), ("b", "2")]);
    let remote = FileSet::new();
    let ops = generate_sync_operations(&local, &remote);
    assert_eq!(
        tags_of(&ops),
        vec![(true, "a".to_string()), (true, "b".to_string())]
    );
}

#[test]
fn both_empty_yields_nothing() {
    let ops = generate_sync_operations(&FileSet::new(), &FileSet::new());
    assert!(ops.is_empty());
}

#[test]
fn diff_is_deterministic_modulo_ordering() {
    let pairs = [("a", "1"), ("b", "2"), ("c", "3"), ("d", "4")];
    let rpairs = [("b", "2"), ("c", "x"), ("e", "5")];
    let mut reversed = pairs;
    reversed.reverse();
    let mut rreversed = rpairs;
    rreversed.reverse();
    let ops1 = generate_sync_operations(&set_of(&pairs), &set_of(&rpairs));
    let ops2 = generate_sync_operations(&set_of(&reversed), &set_of(&rreversed));
    assert_eq!(tags_of(&ops1), tags_of(&ops2));
    assert_eq!(ops1.len(), ops2.len());
}

#[test]
fn rerunning_after_execution_yields_empty_diff() {
    let local_pairs = [("a.txt", "h1"), ("b.txt", "h2"), ("c.txt", "h3")];
    let local = set_of(&local_pairs);
    let remote = set_of(&[("a.txt", "h1"), ("b.txt", "old"), ("gone.txt", "h9")]);
    let ops = generate_sync_operations(&local, &remote);

    // replay the queue against a model of the store: an upload leaves the
    // store reporting the local fingerprint, a delete removes the key
    let mut store: Vec<(String, String)> =
        vec![("a.txt".into(), "h1".into()), ("b.txt".into(), "old".into()), ("gone.txt".into(), "h9".into())];
    for op in &ops {
        match op {
            SyncOperation::Upload { local_path, remote_key } => {
                let etag = local_pairs
                    .iter()
                    .find(|(p, _)| p == local_path)
                    .map(|(_, e)| e.to_string())
                    .expect("upload of a path that is not local");
                store.retain(|(k, _)| k != remote_key);
                store.push((remote_key.clone(), etag));
            }
            SyncOperation::Delete { remote_key } => {
                store.retain(|(k, _)| k != remote_key);
            }
        }
    }
    let mut new_remote = FileSet::new();
    for (k, e) in store {
        new_remote.insert(k, FileInfo { etag: e });
    }
    let again = generate_sync_operations(&local, &new_remote);
    assert!(again.is_empty());
}

#[test]
fn fileset_insert_replaces_earlier_record() {
    let mut fs = FileSet::new();
    fs.insert("a".to_string(), FileInfo { etag: "h1".to_string() });
    fs.insert("a".to_string(), FileInfo { etag: "h2".to_string() });
    assert_eq!(fs.len(), 1);
    assert_eq!(fs.get_etag("a").unwrap().as_str(), "h2");
}

#[test]
fn fileset_lookup() {
    let fs = set_of(&[("a", "1"), ("b", "2")]);
    assert_eq!(fs.len(), 2);
    assert!(fs.contains_path("a"));
    assert!(!fs.contains_path("c"));
    assert_eq!(fs.get_etag("b").unwrap().as_str(), "2");
    assert!(fs.get_etag("c").is_none());
}
