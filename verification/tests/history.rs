use gitfugue::{build_history_model, fnv1a, is_bot, Author, CommitNode, RawCommit, RepoModel};

fn commit(hash: &str, name: &str, email: &str, diff: u32, merge: bool, at: i64) -> RawCommit {
    RawCommit {
        hash: hash.to_string(),
        author_name: name.to_string(),
        author_email: email.to_string(),
        timestamp: at,
        diff_magnitude: diff,
        is_merge: merge,
    }
}

fn parts(model: RepoModel) -> (Vec<CommitNode>, Vec<Author>) {
    match model {
        RepoModel::History { commits, authors, .. } => (commits, authors),
        RepoModel::Static { .. } => panic!("a history was built"),
    }
}

#[test]
fn bots_are_known_by_name_or_email() {
    assert!(is_bot("dependabot[bot]", ""));
    assert!(is_bot("Renovate Bot", "x@y"));
    assert!(is_bot("x", "49699333+Something[BOT]@users.noreply.github.com"));
    assert!(is_bot("x", "renovate@whitesource.com"));
    assert!(!is_bot("Alice", "alice@example.com"));
    assert!(!is_bot("my-dependabot", "alice@example.com"));
}

#[test]
fn every_commit_is_a_bar() {
    let raw = [
        commit("00000000000000ff00", "Alice", "a@x", 3, false, 10),
        commit("not hex", "Bob", "", 4, true, 20),
        commit("1", "Alice again", "a@x", 5, false, 30),
    ];
    let (commits, authors) = parts(build_history_model(&raw, 7, "main".to_string(), 3, 1));
    assert_eq!(commits.len(), 3);
    assert_eq!(commits[0].hash, 0xff);
    assert_eq!(commits[0].short, "0000000");
    assert_eq!(commits[1].hash, fnv1a(b"not hex"));
    assert_eq!(commits[2].hash, 1);
    assert_eq!(commits[2].short, "1");
    assert_eq!(commits.iter().map(|c| c.author_id).collect::<Vec<_>>(), [0, 1, 0]);
    assert_eq!(commits.iter().map(|c| c.folded).collect::<Vec<_>>(), [1, 1, 1]);
    assert_eq!(authors.len(), 2);
    assert_eq!((authors[0].email.as_str(), authors[0].name.as_str(), authors[0].commits), ("a@x", "Alice", 2));
    assert_eq!((authors[1].email.as_str(), authors[1].name.as_str(), authors[1].commits), ("bob", "Bob", 1));
}

#[test]
fn commits_are_folded() {
    let raw = [
        commit("1", "A", "a", 1, false, 1),
        commit("2", "B", "b", 2, true, 2),
        commit("3", "B", "b", u32::MAX, false, 3),
        commit("4", "C", "c", 4, false, 4),
        commit("5", "A", "a", 5, false, 5),
    ];
    let (commits, _) = parts(build_history_model(&raw, 7, "main".to_string(), 5, 3));
    assert_eq!(commits.len(), 2);
    assert_eq!((commits[0].hash, commits[0].author_id, commits[0].timestamp), (3, 1, 3));
    assert_eq!((commits[0].diff_magnitude, commits[0].is_merge, commits[0].folded), (u32::MAX, true, 3));
    // A tie goes to the author seen first.
    assert_eq!((commits[1].hash, commits[1].author_id, commits[1].folded), (5, 2, 2));
    assert_eq!((commits[1].diff_magnitude, commits[1].is_merge), (9, false));
    let (all, _) = parts(build_history_model(&raw, 7, "main".to_string(), 5, 0));
    assert_eq!(all.len(), 5);
}

#[test]
fn a_model_carries_its_identity() {
    match build_history_model(&[], 9, "trunk".to_string(), 12, 1) {
        RepoModel::History { identity_seed, branch, commits, authors, total_commits } => {
            assert_eq!((identity_seed, branch.as_str(), total_commits), (9, "trunk", 12));
            assert!(commits.is_empty() && authors.is_empty());
        }
        RepoModel::Static { .. } => panic!("a history was built"),
    }
}
