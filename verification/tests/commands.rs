//! The commands of the repository, each on a repository of its own.

use rgit::checkout::checkout;
use rgit::error::Error;
use rgit::history::log;
use rgit::index::add_index;
use rgit::index::remove_index;
use rgit::index::update_index;
use rgit::refs::get_head_hash;
use rgit::refs::symbolic_ref;
use rgit::refs::update_ref;
use rgit::repo::commit;
use rgit::repo::init;
use rgit::repo::Repository;
use rgit::snapshot::commit_tree;
use rgit::snapshot::write_tree;
use rgit::store::cat_file;
use rgit::store::create_object_path;
use rgit::store::hash_and_store;
use rgit::store::hash_object;
use rgit::store::RepoPath;
use rgit::table::ByteMap;

/// A fresh repository, as `init` makes it.
fn setup_test_repo() -> Repository {
    let mut slot: Option<Repository> = None;
    init(&mut slot).expect("init on an empty place");
    slot.expect(".rgit directory should be created.")
}

fn text(bytes: &[u8]) -> String {
    String::from_utf8(bytes.to_vec()).expect("text")
}

/// Whether the file of the object `hash` exists in the repository.
fn object_file_exists(repo: &Repository, object_path: &str) -> bool {
    let n = repo.objects.len();
    (0..n).any(|i| {
        let hash = repo.objects.key_at(i);
        hash.len() >= 2 && text(&create_object_path(&RepoPath::Local, hash)) == object_path
    })
}

#[test]
fn test_init_creates_rgit_directory() {
    let mut slot: Option<Repository> = None;
    assert_eq!(init(&mut slot), Ok(()));

    assert!(slot.is_some(), ".rgit directory should be created.");
    let repo = slot.unwrap();
    assert_eq!(repo.objects.len(), 0, "objects directory should be created.");
    assert_eq!(repo.refs.len(), 1, "refs directory should be created.");
    assert_eq!(repo.index.len(), 0, "index file should be created.");
    assert_eq!(
        repo.refs.get(b"HEAD"),
        Some(&Vec::new()),
        "HEAD file should be created."
    );
}

#[test]
fn test_cat_file_reads_stored_object() {
    let mut repo = setup_test_repo();

    let object_type: &str = "blob";
    let content: &str = "This is a test content for the cat_file function.";
    let object_hash =
        hash_and_store(&mut repo.objects, object_type.as_bytes(), content.as_bytes()).unwrap();

    let output = cat_file(&repo.objects, &object_hash).unwrap();

    assert_eq!(
        text(&output),
        content,
        "The content read by `cat_file` should match the original content."
    );
}

#[test]
fn test_commit_tree_creates_commit_object() {
    let mut repo = setup_test_repo();

    let tree_hash: &str = "dummy_tree_hash";
    let commit_message: &str = "Initial commit";
    let author: &str = "John Doe <john.doe@example.com>";
    let commit_hash = text(
        &commit_tree(
            &mut repo.objects,
            commit_message.as_bytes(),
            author.as_bytes(),
            tree_hash.as_bytes(),
            None,
        )
        .unwrap(),
    );

    let object_path: String =
        format!(".rgit/objects/{}/{}", &commit_hash[0..2], &commit_hash[2..]);
    assert!(
        object_file_exists(&repo, &object_path),
        "commit object should be created."
    );

    let commit_content = text(&cat_file(&repo.objects, commit_hash.as_bytes()).unwrap());
    println!("commit content:\n{}", commit_content);

    assert!(
        commit_content.contains("tree dummy_tree_hash"),
        "commit should contain the correct tree hash."
    );
    assert!(
        commit_content.contains("author John Doe <john.doe@example.com>"),
        "commit should contain the correct author."
    );
    assert!(
        commit_content.contains("Initial commit"),
        "commit should contain the correct commit message."
    );
}

#[test]
fn test_commit_tree_with_parent_hash() {
    let mut repo = setup_test_repo();

    let tree_hash: &str = "dummy_tree_hash";
    let commit_message1: &str = "First commit";
    let author: &str = "John Doe <john.doe@example.com>";
    let commit_hash1 = text(
        &commit_tree(
            &mut repo.objects,
            commit_message1.as_bytes(),
            author.as_bytes(),
            tree_hash.as_bytes(),
            None,
        )
        .unwrap(),
    );

    let commit_message2: &str = "Second commit";
    let commit_hash2 = text(
        &commit_tree(
            &mut repo.objects,
            commit_message2.as_bytes(),
            author.as_bytes(),
            tree_hash.as_bytes(),
            Some(commit_hash1.as_bytes()),
        )
        .unwrap(),
    );

    let object_path: String = format!(
        ".rgit/objects/{}/{}",
        &commit_hash2[0..2],
        &commit_hash2[2..]
    );
    assert!(
        object_file_exists(&repo, &object_path),
        "commit object with parent should be created."
    );

    let commit_content = text(&cat_file(&repo.objects, commit_hash2.as_bytes()).unwrap());
    println!("commit content with parent:\n{}", commit_content);

    assert!(
        commit_content.contains("parent"),
        "commit should contain a parent reference."
    );
    assert!(
        commit_content.contains(&commit_hash1),
        "commit should contain the correct parent hash."
    );
    assert!(
        commit_content.contains("tree dummy_tree_hash"),
        "commit should contain the correct tree hash."
    );
    assert!(
        commit_content.contains("author John Doe <john.doe@example.com>"),
        "commit should contain the correct author."
    );
    assert!(
        commit_content.contains("Second commit"),
        "commit should contain the correct commit message."
    );
    assert_eq!(
        commit_content,
        format!(
            "tree dummy_tree_hash\nparent {}\nauthor John Doe <john.doe@example.com>\n\nSecond commit\n",
            commit_hash1
        )
    );
}

#[test]
fn test_hash_object_creates_object_file() {
    let mut repo = setup_test_repo();

    let test_content: &str = "test file content";

    let hash = hash_object(&mut repo.objects, test_content.as_bytes()).unwrap();

    let expected_hash: &str = "2211df3faee131ad21edcb844e098a42c1fbb4e5";
    assert_eq!(text(&hash), expected_hash);

    let object_file: String = format!(".rgit/objects/22/{}", &expected_hash[2..]);
    assert!(
        object_file_exists(&repo, &object_file),
        "Object file should be created with correct hash."
    );
}

#[test]
fn test_symbolic_ref_updates_reference() {
    let mut repo = setup_test_repo();

    let ref_name: &str = "HEAD";
    let target_ref: &str = "refs/heads/main";
    symbolic_ref(&mut repo.refs, ref_name.as_bytes(), target_ref.as_bytes());

    let head_content = text(repo.refs.get(b"HEAD").unwrap());
    assert_eq!(
        head_content.trim(),
        format!("ref: {}", target_ref),
        "head should point to the correct reference."
    );
}

#[test]
fn test_update_ref_creates_reference_file() {
    let mut repo = setup_test_repo();

    let ref_name: &str = "refs/heads/main";
    let commit_hash: &str = "1234567890abcdef1234567890abcdef12345678";

    update_ref(&mut repo.refs, ref_name.as_bytes(), commit_hash.as_bytes());

    assert!(
        repo.refs.contains_key(ref_name.as_bytes()),
        "reference file should be created."
    );

    let stored_hash = text(
        repo.refs
            .get(ref_name.as_bytes())
            .expect("failed to read the reference file"),
    );
    assert_eq!(
        stored_hash.trim(),
        commit_hash,
        "the reference file should point to the correct commit hash."
    );
}

#[test]
fn test_write_tree_creates_tree_object() {
    let mut repo = setup_test_repo();

    let file1: &str = "file1.txt";
    let file2: &str = "file2.txt";

    let hash1 = hash_object(&mut repo.objects, b"content of file 1").unwrap();
    let hash2 = hash_object(&mut repo.objects, b"content of file 2").unwrap();
    add_index(&mut repo.index, file1.as_bytes(), &hash1);
    add_index(&mut repo.index, file2.as_bytes(), &hash2);

    let tree_hash = text(&write_tree(&repo.index, &mut repo.objects).unwrap());

    let tree_path: String = format!(".rgit/objects/{}/{}", &tree_hash[0..2], &tree_hash[2..]);
    assert!(
        object_file_exists(&repo, &tree_path),
        "tree object should be created."
    );
}

#[test]
fn init_refuses_a_second_repository() {
    let mut slot: Option<Repository> = None;
    assert_eq!(init(&mut slot), Ok(()));
    update_ref(&mut slot.as_mut().unwrap().refs, b"refs/heads/main", b"abc");
    assert_eq!(init(&mut slot), Err(Error::AlreadyInitialized));
    assert!(slot.unwrap().refs.contains_key(b"refs/heads/main"));
}

#[test]
fn index_add_modify_remove() {
    let mut index = ByteMap::new();
    add_index(&mut index, b"a.txt", b"h1");
    assert_eq!(update_index(&mut index, b"a.txt", b"h2"), Ok(()));
    assert_eq!(index.get(b"a.txt"), Some(&b"h2".to_vec()));
    assert_eq!(index.len(), 1);

    assert_eq!(remove_index(&mut index, b"a.txt"), Ok(()));
    assert_eq!(index.len(), 0);
    assert_eq!(update_index(&mut index, b"a.txt", b"h3"), Err(Error::NotStaged));
    assert_eq!(index.get(b"a.txt"), None);
    assert_eq!(remove_index(&mut index, b"a.txt"), Err(Error::NotStaged));
}

#[test]
fn index_add_overwrites_in_place() {
    let mut index = ByteMap::new();
    add_index(&mut index, b"one", b"h1");
    add_index(&mut index, b"two", b"h2");
    add_index(&mut index, b"one", b"h3");
    assert_eq!(index.len(), 2);
    assert_eq!(index.key_at(0), &b"one".to_vec());
    assert_eq!(index.value_at(0), &b"h3".to_vec());
    assert_eq!(index.key_at(1), &b"two".to_vec());
}

#[test]
fn write_tree_has_a_line_for_each_entry() {
    let mut repo = setup_test_repo();
    add_index(&mut repo.index, b"f1", b"hA");
    add_index(&mut repo.index, b"f2", b"hB");
    let tree = write_tree(&repo.index, &mut repo.objects).unwrap();
    let decoded = text(&cat_file(&repo.objects, &tree).unwrap());
    assert_eq!(decoded, "100644 blob hA f1\n100644 blob hB f2\n");
    assert_eq!(decoded.lines().count(), 2);
}

#[test]
fn write_tree_of_an_empty_index_is_the_empty_tree() {
    let mut repo = setup_test_repo();
    let tree = write_tree(&repo.index, &mut repo.objects).unwrap();
    assert_eq!(text(&tree), "4b825dc642cb6eb9a060e54bf8d69288fbee4904");
    assert_eq!(cat_file(&repo.objects, &tree), Ok(Vec::new()));
}

#[test]
fn commit_tree_without_parent_has_no_parent_line() {
    let mut repo = setup_test_repo();
    let hash = commit_tree(&mut repo.objects, b"msg", b"me", b"abc", None).unwrap();
    assert_eq!(
        text(&cat_file(&repo.objects, &hash).unwrap()),
        "tree abc\nauthor me\n\nmsg\n"
    );
}

#[test]
fn commit_needs_a_repository() {
    let mut slot: Option<Repository> = None;
    assert_eq!(commit(&mut slot, b"msg", b"me"), Err(Error::NotInitialized));
    assert!(slot.is_none());
}

#[test]
fn commit_needs_a_staged_file() {
    let mut slot = Some(setup_test_repo());
    assert_eq!(commit(&mut slot, b"msg", b"me"), Err(Error::NothingToCommit));
    let repo = slot.unwrap();
    assert_eq!(repo.objects.len(), 0);
    assert_eq!(repo.refs.get(b"HEAD"), Some(&Vec::new()));
}

#[test]
fn commit_needs_a_head() {
    let mut repo = setup_test_repo();
    repo.refs.remove(b"HEAD");
    add_index(&mut repo.index, b"f", b"h");
    let mut slot = Some(repo);
    assert_eq!(commit(&mut slot, b"msg", b"me"), Err(Error::RefNotFound));
    let repo = slot.unwrap();
    assert_eq!(repo.objects.len(), 0);
    assert_eq!(repo.index.len(), 1);
}

#[test]
fn first_commit_moves_a_detached_head() {
    let mut repo = setup_test_repo();
    let blob = hash_object(&mut repo.objects, b"hi").unwrap();
    add_index(&mut repo.index, b"hello.txt", &blob);
    let mut slot = Some(repo);
    let hash = commit(&mut slot, b"first", b"me").unwrap();
    let repo = slot.unwrap();

    assert_eq!(repo.refs.get(b"HEAD"), Some(&hash));
    assert_eq!(repo.index.len(), 0);
    let content = text(&cat_file(&repo.objects, &hash).unwrap());
    assert!(!content.contains("parent"));
    assert!(content.starts_with("tree "));
    assert!(content.ends_with("author me\n\nfirst\n"));
    assert_eq!(get_head_hash(&repo.refs), Ok(hash));
}

#[test]
fn commit_on_a_branch_moves_the_branch_and_links_the_parent() {
    let mut repo = setup_test_repo();
    symbolic_ref(&mut repo.refs, b"HEAD", b"refs/heads/main");
    assert_eq!(get_head_hash(&repo.refs), Ok(Vec::new()));

    add_index(&mut repo.index, b"a", b"h1");
    let mut slot = Some(repo);
    let first = commit(&mut slot, b"one", b"me").unwrap();
    add_index(&mut slot.as_mut().unwrap().index, b"a", b"h2");
    let second = commit(&mut slot, b"two", b"me").unwrap();
    let repo = slot.unwrap();

    assert_eq!(repo.refs.get(b"HEAD"), Some(&b"ref: refs/heads/main".to_vec()));
    assert_eq!(repo.refs.get(b"refs/heads/main"), Some(&second));
    assert_eq!(get_head_hash(&repo.refs), Ok(second.clone()));
    let content = text(&cat_file(&repo.objects, &second).unwrap());
    assert!(content.contains(&format!("parent {}\n", text(&first))));
    assert!(!text(&cat_file(&repo.objects, &first).unwrap()).contains("parent"));
}

#[test]
fn head_hash_is_trimmed_and_follows_one_reference() {
    let mut refs = ByteMap::new();
    assert_eq!(get_head_hash(&refs), Err(Error::RefNotFound));
    update_ref(&mut refs, b"HEAD", b"  abc123\n");
    assert_eq!(get_head_hash(&refs), Ok(b"abc123".to_vec()));
    update_ref(&mut refs, b"HEAD", b"ref: refs/heads/main\n");
    assert_eq!(get_head_hash(&refs), Ok(Vec::new()));
    update_ref(&mut refs, b"refs/heads/main", b"def456\n");
    assert_eq!(get_head_hash(&refs), Ok(b"def456".to_vec()));
}

#[test]
fn end_to_end_checkout_restores_the_commit() {
    let mut repo = setup_test_repo();
    let blob = hash_object(&mut repo.objects, b"hi").unwrap();
    add_index(&mut repo.index, b"hello.txt", &blob);
    let tree = write_tree(&repo.index, &mut repo.objects).unwrap();
    let commit_hash = commit_tree(&mut repo.objects, b"msg", b"me", &tree, None).unwrap();
    update_ref(&mut repo.refs, b"HEAD", &commit_hash);

    let mut work = ByteMap::new();
    work.insert(b".rgit".to_vec(), Vec::new());
    work.insert(b"hello.txt".to_vec(), b"changed".to_vec());
    work.insert(b"other.txt".to_vec(), b"left over".to_vec());

    assert_eq!(checkout(&mut repo, &mut work, &commit_hash), Ok(()));

    assert_eq!(work.get(b"hello.txt"), Some(&b"hi".to_vec()));
    assert_eq!(work.get(b"other.txt"), None);
    assert!(work.contains_key(b".rgit"));
    assert_eq!(work.len(), 2);
    assert_eq!(repo.refs.get(b"HEAD"), Some(&commit_hash));
}

#[test]
fn checkout_of_a_branch_makes_head_follow_it() {
    let mut repo = setup_test_repo();
    let blob = hash_object(&mut repo.objects, b"one").unwrap();
    add_index(&mut repo.index, b"a.txt", &blob);
    let tree = write_tree(&repo.index, &mut repo.objects).unwrap();
    let commit_hash = commit_tree(&mut repo.objects, b"msg", b"me", &tree, None).unwrap();
    let mut on_disk = commit_hash.clone();
    on_disk.push(b'\n');
    update_ref(&mut repo.refs, b"refs/heads/main", &on_disk);

    let mut work = ByteMap::new();
    assert_eq!(checkout(&mut repo, &mut work, b"heads/main"), Ok(()));
    assert_eq!(work.get(b"a.txt"), Some(&b"one".to_vec()));
    assert_eq!(
        repo.refs.get(b"HEAD"),
        Some(&b"ref: refs/heads/main".to_vec())
    );
}

#[test]
fn checkout_of_a_missing_commit_changes_nothing() {
    let mut repo = setup_test_repo();
    let mut work = ByteMap::new();
    work.insert(b"keep.txt".to_vec(), b"kept".to_vec());
    assert_eq!(
        checkout(&mut repo, &mut work, b"0000"),
        Err(Error::ObjectNotFound)
    );
    assert_eq!(work.get(b"keep.txt"), Some(&b"kept".to_vec()));
    assert_eq!(repo.refs.get(b"HEAD"), Some(&Vec::new()));
}

#[test]
fn checkout_of_a_commit_without_tree_changes_nothing() {
    let mut repo = setup_test_repo();
    let odd = hash_and_store(&mut repo.objects, b"commit", b"author me\n\nmsg\n").unwrap();
    let mut work = ByteMap::new();
    work.insert(b"keep.txt".to_vec(), b"kept".to_vec());
    assert_eq!(
        checkout(&mut repo, &mut work, &odd),
        Err(Error::MalformedObject)
    );
    assert_eq!(work.len(), 1);
}

#[test]
fn checkout_that_fails_halfway_leaves_the_files_written_so_far() {
    let mut repo = setup_test_repo();
    let blob = hash_object(&mut repo.objects, b"one").unwrap();
    let listing = format!(
        "100644 blob {} a.txt\n100644 blob {} b.txt\n100644 blob {} c.txt\n",
        text(&blob),
        "0123456789012345678901234567890123456789",
        text(&blob)
    );
    let tree = hash_and_store(&mut repo.objects, b"tree", listing.as_bytes()).unwrap();
    let commit_hash = commit_tree(&mut repo.objects, b"msg", b"me", &tree, None).unwrap();

    let mut work = ByteMap::new();
    work.insert(b"old.txt".to_vec(), b"old".to_vec());
    assert_eq!(
        checkout(&mut repo, &mut work, &commit_hash),
        Err(Error::ObjectNotFound)
    );
    assert_eq!(work.len(), 1);
    assert_eq!(work.get(b"a.txt"), Some(&b"one".to_vec()));
    assert_eq!(repo.refs.get(b"HEAD"), Some(&Vec::new()));
}

#[test]
fn checkout_writes_blobs_only() {
    let mut repo = setup_test_repo();
    let blob = hash_object(&mut repo.objects, b"one").unwrap();
    let listing = format!(
        "040000 tree {} sub\nshort line\n100644 blob {} a.txt\n",
        "0123456789012345678901234567890123456789",
        text(&blob)
    );
    let tree = hash_and_store(&mut repo.objects, b"tree", listing.as_bytes()).unwrap();
    let commit_hash = commit_tree(&mut repo.objects, b"msg", b"me", &tree, None).unwrap();

    let mut work = ByteMap::new();
    assert_eq!(checkout(&mut repo, &mut work, &commit_hash), Ok(()));
    assert_eq!(work.len(), 1);
    assert_eq!(work.get(b"a.txt"), Some(&b"one".to_vec()));
}

#[test]
fn log_lists_the_commits_youngest_first() {
    let mut repo = setup_test_repo();
    symbolic_ref(&mut repo.refs, b"HEAD", b"refs/heads/main");
    add_index(&mut repo.index, b"a", b"h1");
    let mut slot = Some(repo);
    let first = commit(&mut slot, b"one", b"alice").unwrap();
    add_index(&mut slot.as_mut().unwrap().index, b"a", b"h2");
    let second = commit(&mut slot, b"two\nmore", b"bob").unwrap();
    let repo = slot.unwrap();

    let entries = log(&repo, b"HEAD").unwrap();
    assert_eq!(entries.len(), 2);
    assert_eq!(entries[0].commit, second);
    assert_eq!(text(&entries[0].author), "bob");
    assert_eq!(text(&entries[0].message), "two\nmore");
    assert_eq!(entries[1].commit, first);
    assert_eq!(text(&entries[1].author), "alice");
    assert_eq!(text(&entries[1].message), "one");

    let by_branch = log(&repo, b"heads/main").unwrap();
    assert_eq!(by_branch.len(), 2);
    let by_hash = log(&repo, &first).unwrap();
    assert_eq!(by_hash.len(), 1);
    assert_eq!(by_hash[0].commit, first);
}

#[test]
fn log_of_an_empty_head_is_empty() {
    let repo = setup_test_repo();
    assert_eq!(log(&repo, b"HEAD").unwrap().len(), 0);
}

#[test]
fn log_of_a_missing_commit_fails() {
    let repo = setup_test_repo();
    assert_eq!(log(&repo, b"0000").unwrap_err(), Error::ObjectNotFound);
}

#[test]
fn log_names_an_unknown_author_and_ends_on_a_cycle() {
    let mut repo = setup_test_repo();
    // A text that names, as its parent, an object that names it back.
    let a = hash_and_store(&mut repo.objects, b"commit", b"tree t\nparent bbbb\n\nfirst\n").unwrap();
    let mut stored = repo.objects.get(&a).unwrap().clone();
    repo.objects.insert(b"aaaa".to_vec(), stored.clone());
    let b = hash_and_store(&mut repo.objects, b"commit", b"tree t\nparent aaaa\n\nsecond\n").unwrap();
    stored = repo.objects.get(&b).unwrap().clone();
    repo.objects.insert(b"bbbb".to_vec(), stored);

    let entries = log(&repo, b"aaaa").unwrap();
    assert_eq!(entries.len(), 2);
    assert_eq!(text(&entries[0].commit), "aaaa");
    assert_eq!(text(&entries[0].author), "unknown author");
    assert_eq!(text(&entries[0].message), "first");
    assert_eq!(text(&entries[1].commit), "bbbb");
    assert_eq!(text(&entries[1].message), "second");
}

#[test]
fn the_changes_that_a_checkout_asks_for() {
    let mut before = ByteMap::new();
    before.insert(b".rgit".to_vec(), Vec::new());
    before.insert(b"same.txt".to_vec(), b"same".to_vec());
    before.insert(b"edited.txt".to_vec(), b"old".to_vec());
    before.insert(b"gone.txt".to_vec(), b"gone".to_vec());
    before.insert(b"dir".to_vec(), Vec::new());
    let mut after = ByteMap::new();
    after.insert(b".rgit".to_vec(), Vec::new());
    after.insert(b"same.txt".to_vec(), b"same".to_vec());
    after.insert(b"edited.txt".to_vec(), b"new".to_vec());
    after.insert(b"added.txt".to_vec(), b"added".to_vec());

    let gone = rgit::checkout::removed_names(&before, &after);
    assert_eq!(gone.len(), 2);
    assert!(gone.contains(b"gone.txt"));
    assert!(gone.contains(b"dir"));

    let files = rgit::checkout::changed_files(&before, &after);
    assert_eq!(files.len(), 2);
    assert_eq!(files.get(b"edited.txt"), Some(&b"new".to_vec()));
    assert_eq!(files.get(b"added.txt"), Some(&b"added".to_vec()));

    assert_eq!(rgit::checkout::removed_names(&after, &after).len(), 0);
    assert_eq!(rgit::checkout::changed_files(&after, &after).len(), 0);
}

#[test]
fn clearing_keeps_the_repository_directory_only() {
    let mut work = ByteMap::new();
    work.insert(b"a.txt".to_vec(), b"a".to_vec());
    work.insert(b".rgit".to_vec(), b"kept as it is".to_vec());
    work.insert(b"dir".to_vec(), Vec::new());
    rgit::checkout::clear_working_directory(&mut work);
    assert_eq!(work.len(), 1);
    assert_eq!(work.get(b".rgit"), Some(&b"kept as it is".to_vec()));

    let mut bare = ByteMap::new();
    bare.insert(b".rgit-backup".to_vec(), Vec::new());
    rgit::checkout::clear_working_directory(&mut bare);
    assert_eq!(bare.len(), 0);
}

#[test]
fn restore_tree_of_a_missing_tree_writes_nothing() {
    let repo = setup_test_repo();
    let mut work = ByteMap::new();
    work.insert(b"a.txt".to_vec(), b"a".to_vec());
    assert_eq!(
        rgit::checkout::restore_tree(&repo.objects, b"missing", &mut work),
        Err(Error::ObjectNotFound)
    );
    assert_eq!(work.len(), 1);
}

#[test]
fn a_replay_writes_the_trees_of_the_history_one_over_the_other() {
    let mut repo = setup_test_repo();
    let a1 = hash_object(&mut repo.objects, b"a, first").unwrap();
    let b1 = hash_object(&mut repo.objects, b"b, first").unwrap();
    add_index(&mut repo.index, b"a.txt", &a1);
    add_index(&mut repo.index, b"b.txt", &b1);
    let mut slot = Some(repo);
    let first = commit(&mut slot, b"one", b"me").unwrap();
    let mut repo = slot.unwrap();
    let a2 = hash_object(&mut repo.objects, b"a, second").unwrap();
    add_index(&mut repo.index, b"a.txt", &a2);
    let mut slot = Some(repo);
    let second = commit(&mut slot, b"two", b"me").unwrap();
    let mut repo = slot.unwrap();

    let mut work = ByteMap::new();
    work.insert(b"stray.txt".to_vec(), b"stray".to_vec());
    assert_eq!(
        rgit::checkout::checkout_replay(&mut repo, &mut work, &second),
        Ok(())
    );
    assert_eq!(work.len(), 2);
    assert_eq!(work.get(b"a.txt"), Some(&b"a, second".to_vec()));
    assert_eq!(work.get(b"b.txt"), Some(&b"b, first".to_vec()));
    assert_eq!(repo.refs.get(b"HEAD"), Some(&second));

    // The plain checkout holds the files of the one commit only.
    let mut plain = ByteMap::new();
    assert_eq!(checkout(&mut repo, &mut plain, &second), Ok(()));
    assert_eq!(plain.len(), 1);
    assert_eq!(plain.get(b"a.txt"), Some(&b"a, second".to_vec()));

    let mut root = ByteMap::new();
    assert_eq!(
        rgit::checkout::checkout_replay(&mut repo, &mut root, &first),
        Ok(())
    );
    assert_eq!(root.len(), 2);
    assert_eq!(root.get(b"a.txt"), Some(&b"a, first".to_vec()));
}

#[test]
fn a_replay_of_a_broken_history_changes_nothing() {
    let mut repo = setup_test_repo();
    let blob = hash_object(&mut repo.objects, b"one").unwrap();
    add_index(&mut repo.index, b"a.txt", &blob);
    let tree = write_tree(&repo.index, &mut repo.objects).unwrap();
    let orphan = commit_tree(&mut repo.objects, b"msg", b"me", &tree, Some(b"0000")).unwrap();
    let mut work = ByteMap::new();
    work.insert(b"keep.txt".to_vec(), b"kept".to_vec());
    assert_eq!(
        rgit::checkout::checkout_replay(&mut repo, &mut work, &orphan),
        Err(Error::ObjectNotFound)
    );
    assert_eq!(work.get(b"keep.txt"), Some(&b"kept".to_vec()));
    assert_eq!(work.len(), 1);
    assert_eq!(repo.refs.get(b"HEAD"), Some(&Vec::new()));
}
