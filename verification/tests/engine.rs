//! The parts that the commands are made of: text, codec, tables, the walk
//! over the object graph and the exchange between two repositories.

use rgit::codec::compress_object;
use rgit::codec::decompress_object;
use rgit::codec::encode_object;
use rgit::codec::hash_bytes;
use rgit::codec::object_payload;
use rgit::codec::to_hex;
use rgit::error::Error;
use rgit::format::build_commit;
use rgit::format::links_of;
use rgit::index::add_index;
use rgit::index::read_index;
use rgit::index::write_index;
use rgit::refs::update_ref;
use rgit::repo::init;
use rgit::repo::Repository;
use rgit::snapshot::commit_tree;
use rgit::snapshot::write_tree;
use rgit::store::cat_file;
use rgit::store::create_object_path;
use rgit::store::hash_and_store;
use rgit::store::hash_object;
use rgit::store::RepoPath;
use rgit::sync::fetch;
use rgit::sync::push;
use rgit::table::ByteMap;
use rgit::table::ByteSet;
use rgit::text::bytes_eq;
use rgit::text::format_decimal;
use rgit::text::scan;
use rgit::text::split_lines;
use rgit::text::split_tokens;
use rgit::text::starts_with;
use rgit::text::trimmed;
use rgit::text::Delim;
use rgit::walk::collect_objects;
use rgit::walk::get_missing_objects;

fn new_repo() -> Repository {
    let mut slot: Option<Repository> = None;
    init(&mut slot).expect("init on an empty place");
    slot.expect("a repository")
}

fn text(bytes: &[u8]) -> String {
    String::from_utf8(bytes.to_vec()).expect("text")
}

fn sorted(set: &ByteSet) -> Vec<String> {
    let mut v: Vec<String> = (0..set.len()).map(|i| text(set.get(i))).collect();
    v.sort();
    v
}

fn sorted_names(mut names: Vec<String>) -> Vec<String> {
    names.sort();
    names
}

/// Stages one file with the given contents and commits it on top of `parent`.
fn snapshot(repo: &mut Repository, contents: &[u8], parent: Option<&[u8]>) -> (Vec<u8>, Vec<u8>, Vec<u8>) {
    let blob = hash_object(&mut repo.objects, contents).unwrap();
    repo.index = ByteMap::new();
    add_index(&mut repo.index, b"file.txt", &blob);
    let tree = write_tree(&repo.index, &mut repo.objects).unwrap();
    let commit = commit_tree(&mut repo.objects, b"msg", b"me", &tree, parent).unwrap();
    (commit, tree, blob)
}

#[test]
fn lines_end_at_line_feeds() {
    assert_eq!(split_lines(b""), Vec::<Vec<u8>>::new());
    assert_eq!(split_lines(b"a"), vec![b"a".to_vec()]);
    assert_eq!(split_lines(b"a\n"), vec![b"a".to_vec()]);
    assert_eq!(split_lines(b"a\nb"), vec![b"a".to_vec(), b"b".to_vec()]);
    assert_eq!(
        split_lines(b"a\n\nb\n"),
        vec![b"a".to_vec(), Vec::new(), b"b".to_vec()]
    );
    assert_eq!(split_lines(b"\n"), vec![Vec::<u8>::new()]);
    assert_eq!(split_lines(b"\n\n"), vec![Vec::<u8>::new(), Vec::new()]);
}

#[test]
fn words_are_runs_without_white_space() {
    assert_eq!(split_tokens(b""), Vec::<Vec<u8>>::new());
    assert_eq!(split_tokens(b" \t\r\n"), Vec::<Vec<u8>>::new());
    assert_eq!(split_tokens(b"one"), vec![b"one".to_vec()]);
    assert_eq!(
        split_tokens(b"  one\ttwo  three \n"),
        vec![b"one".to_vec(), b"two".to_vec(), b"three".to_vec()]
    );
    assert_eq!(
        split_tokens(b"a\x0bb\x0cc"),
        vec![b"a".to_vec(), b"b".to_vec(), b"c".to_vec()]
    );
    assert_eq!(split_tokens(b"a\x00b"), vec![b"a\x00b".to_vec()]);
}

#[test]
fn trimming_takes_white_space_from_both_ends() {
    assert_eq!(trimmed(b""), b"".to_vec());
    assert_eq!(trimmed(b"  \n "), b"".to_vec());
    assert_eq!(trimmed(b"abc"), b"abc".to_vec());
    assert_eq!(trimmed(b" \ta b c\r\n"), b"a b c".to_vec());
    assert_eq!(trimmed(b"x "), b"x".to_vec());
    assert_eq!(trimmed(b" x"), b"x".to_vec());
}

#[test]
fn scanning_stops_at_the_delimiter() {
    assert_eq!(scan(b"abc\ndef", 0, Delim::Byte(b'\n')), 3);
    assert_eq!(scan(b"abc\ndef", 4, Delim::Byte(b'\n')), 7);
    assert_eq!(scan(b"abc\ndef", 3, Delim::Byte(b'\n')), 3);
    assert_eq!(scan(b"  ab", 0, Delim::NonSpace), 2);
    assert_eq!(scan(b"ab  ", 0, Delim::Space), 2);
    assert_eq!(scan(b"ab", 2, Delim::Space), 2);
}

#[test]
fn prefixes_and_equality() {
    assert!(starts_with(b"tree abc", b"tree "));
    assert!(starts_with(b"tree ", b"tree "));
    assert!(starts_with(b"anything", b""));
    assert!(!starts_with(b"tree", b"tree "));
    assert!(!starts_with(b"three abc", b"tree "));
    assert!(bytes_eq(b"", b""));
    assert!(bytes_eq(b"abc", b"abc"));
    assert!(!bytes_eq(b"abc", b"abd"));
    assert!(!bytes_eq(b"abc", b"ab"));
}

#[test]
fn decimal_numbers() {
    assert_eq!(format_decimal(0), b"0".to_vec());
    assert_eq!(format_decimal(7), b"7".to_vec());
    assert_eq!(format_decimal(10), b"10".to_vec());
    assert_eq!(format_decimal(17), b"17".to_vec());
    assert_eq!(format_decimal(1203), b"1203".to_vec());
    assert_eq!(format_decimal(usize::MAX), usize::MAX.to_string().into_bytes());
}

#[test]
fn hexadecimal_text() {
    assert_eq!(to_hex(b""), b"".to_vec());
    assert_eq!(to_hex(&[0x00, 0x0f, 0xa9, 0xff]), b"000fa9ff".to_vec());
}

#[test]
fn an_object_is_header_and_payload() {
    assert_eq!(encode_object(b"blob", b"hi"), b"blob 2\0hi".to_vec());
    assert_eq!(encode_object(b"tree", b""), b"tree 0\0".to_vec());
    assert_eq!(
        encode_object(b"commit", b"0123456789ab"),
        b"commit 12\x000123456789ab".to_vec()
    );
    assert_eq!(object_payload(b"blob 2\0hi"), Some(b"hi".to_vec()));
    assert_eq!(object_payload(b"blob 3\0a\0b"), Some(b"a\0b".to_vec()));
    assert_eq!(object_payload(b"\0"), Some(Vec::new()));
    assert_eq!(object_payload(b"blob 2 hi"), None);
    assert_eq!(object_payload(b""), None);
}

#[test]
fn hashes_are_sha1_in_hexadecimal() {
    assert_eq!(
        text(&hash_bytes(b"")),
        "da39a3ee5e6b4b0d3255bfef95601890afd80709"
    );
    assert_eq!(
        text(&hash_bytes(b"abc")),
        "a9993e364706816aba3e25717850c26c9cd0d89d"
    );
    assert_eq!(
        text(&hash_bytes(b"blob 0\0")),
        "e69de29bb2d1d6434b8b29ae775ad8c2e48c5391"
    );
}

#[test]
fn compression_round_trip() {
    let data = b"blob 26\0abcabcabcabcabcabcabcabcab".to_vec();
    let stream = compress_object(&data).unwrap();
    assert_ne!(stream, data);
    assert_eq!(stream[0], 0x78);
    assert_eq!(decompress_object(&stream), Ok(data));
    assert_eq!(decompress_object(&compress_object(b"").unwrap()), Ok(Vec::new()));
    assert_eq!(decompress_object(b"not a zlib stream"), Err(Error::MalformedObject));
    assert_eq!(decompress_object(b""), Err(Error::MalformedObject));
}

#[test]
fn what_is_stored_is_the_compressed_header_and_payload() {
    let mut store = ByteMap::new();
    let hash = hash_and_store(&mut store, b"blob", b"some payload").unwrap();
    let stored = store.get(&hash).unwrap().clone();
    assert_eq!(stored, compress_object(b"blob 12\0some payload").unwrap());
    assert_eq!(
        decompress_object(&stored),
        Ok(b"blob 12\0some payload".to_vec())
    );
    assert_eq!(hash, hash_bytes(b"blob 12\0some payload"));
}

#[test]
fn hashing_is_content_addressed() {
    let mut store = ByteMap::new();
    let first = hash_and_store(&mut store, b"blob", b"hello world\n").unwrap();
    let again = hash_and_store(&mut store, b"blob", b"hello world\n").unwrap();
    assert_eq!(text(&first), "3b18e512dba79e4c8300dd08aeb37f8e728b8dad");
    assert_eq!(first, again);
    assert_eq!(store.len(), 1);

    let other = hash_and_store(&mut store, b"blob", b"hello world").unwrap();
    assert_ne!(first, other);
    let as_tree = hash_and_store(&mut store, b"tree", b"hello world\n").unwrap();
    assert_ne!(first, as_tree);
    assert_eq!(store.len(), 3);

    let mut elsewhere = ByteMap::new();
    assert_eq!(hash_object(&mut elsewhere, b"hello world\n"), Ok(first));
}

#[test]
fn reading_an_object_that_is_not_there() {
    let store = ByteMap::new();
    assert_eq!(
        cat_file(&store, b"2211df3faee131ad21edcb844e098a42c1fbb4e5"),
        Err(Error::ObjectNotFound)
    );
}

#[test]
fn reading_an_object_that_is_damaged() {
    let mut store = ByteMap::new();
    store.insert(b"aa".to_vec(), b"plain bytes".to_vec());
    assert_eq!(cat_file(&store, b"aa"), Err(Error::MalformedObject));
    store.insert(b"bb".to_vec(), compress_object(b"no header here").unwrap());
    assert_eq!(cat_file(&store, b"bb"), Err(Error::MalformedObject));
    store.insert(b"cc".to_vec(), compress_object(b"blob 1\0x").unwrap());
    assert_eq!(cat_file(&store, b"cc"), Ok(b"x".to_vec()));
}

#[test]
fn object_paths() {
    assert_eq!(
        text(&create_object_path(
            &RepoPath::Local,
            b"2211df3faee131ad21edcb844e098a42c1fbb4e5"
        )),
        ".rgit/objects/22/11df3faee131ad21edcb844e098a42c1fbb4e5"
    );
    assert_eq!(
        text(&create_object_path(
            &RepoPath::Remote("/srv/other".to_string()),
            b"2211df3faee131ad21edcb844e098a42c1fbb4e5"
        )),
        "/srv/other/objects/22/11df3faee131ad21edcb844e098a42c1fbb4e5"
    );
    assert_eq!(
        text(&create_object_path(&RepoPath::Local, b"ab")),
        ".rgit/objects/ab/"
    );
    assert_eq!(text(&rgit::store::repo_root(&RepoPath::Local)), ".rgit");
    assert_eq!(
        text(&rgit::store::repo_file(&RepoPath::Local, b"refs/heads/main")),
        ".rgit/refs/heads/main"
    );
    assert_eq!(
        text(&rgit::store::repo_file(
            &RepoPath::Remote("/srv/other".to_string()),
            b"HEAD"
        )),
        "/srv/other/HEAD"
    );
}

#[test]
fn maps_keep_one_value_for_a_key() {
    let mut map = ByteMap::new();
    assert_eq!(map.len(), 0);
    assert_eq!(map.get(b"k"), None);
    map.insert(b"k".to_vec(), b"v1".to_vec());
    map.insert(b"l".to_vec(), b"w".to_vec());
    map.insert(b"k".to_vec(), b"v2".to_vec());
    assert_eq!(map.len(), 2);
    assert_eq!(map.get(b"k"), Some(&b"v2".to_vec()));
    assert_eq!(map.position(b"l"), Some(1));
    assert_eq!(map.position(b"m"), None);
    assert!(map.contains_key(b"l"));
    assert!(map.remove(b"k"));
    assert!(!map.remove(b"k"));
    assert_eq!(map.len(), 1);
    assert_eq!(map.key_at(0), &b"l".to_vec());
    assert_eq!(map.value_at(0), &b"w".to_vec());
}

#[test]
fn sets_hold_a_value_once() {
    let mut set = ByteSet::new();
    assert!(set.insert(b"a".to_vec()));
    assert!(set.insert(b"b".to_vec()));
    assert!(!set.insert(b"a".to_vec()));
    assert_eq!(set.len(), 2);
    assert!(set.contains(b"a"));
    assert!(!set.contains(b"c"));
    assert_eq!(set.get(1), &b"b".to_vec());
}

#[test]
fn index_text_round_trip() {
    let mut index = ByteMap::new();
    add_index(&mut index, b"a.txt", b"h1");
    add_index(&mut index, b"dir/b.txt", b"h2");
    let written = write_index(&index);
    assert_eq!(written, b"a.txt h1\ndir/b.txt h2\n".to_vec());
    let read = read_index(&written);
    assert_eq!(read.len(), 2);
    assert_eq!(read.get(b"a.txt"), Some(&b"h1".to_vec()));
    assert_eq!(read.get(b"dir/b.txt"), Some(&b"h2".to_vec()));
    assert_eq!(write_index(&ByteMap::new()), Vec::<u8>::new());
}

#[test]
fn reading_an_index_passes_over_odd_lines() {
    let index = read_index(b"a h1\nonly-one-word\n\nb  h2  \nthree words here\na h3\n");
    assert_eq!(index.len(), 2);
    assert_eq!(index.get(b"a"), Some(&b"h3".to_vec()));
    assert_eq!(index.get(b"b"), Some(&b"h2".to_vec()));
    assert_eq!(index.key_at(0), &b"a".to_vec());
}

#[test]
fn a_path_with_a_space_does_not_survive_the_index_text() {
    let mut index = ByteMap::new();
    add_index(&mut index, b"my file", b"h1");
    assert_eq!(index.get(b"my file"), Some(&b"h1".to_vec()));
    assert_eq!(read_index(&write_index(&index)).len(), 0);
}

#[test]
fn links_of_a_commit_are_its_tree_and_parents() {
    let one = build_commit(b"msg", b"me", b"T", Some(b"P"));
    assert_eq!(links_of(&one), vec![b"T".to_vec(), b"P".to_vec()]);
    let root = build_commit(b"msg", b"me", b"T", None);
    assert_eq!(links_of(&root), vec![b"T".to_vec()]);
    assert_eq!(
        links_of(b"parent first\ntree T\nparent second\nparent\nauthor me\n\nmsg\n"),
        vec![b"T".to_vec(), b"first".to_vec(), b"second".to_vec()]
    );
    assert_eq!(
        links_of(b"author me\n\nno tree here\n"),
        Vec::<Vec<u8>>::new()
    );
}

#[test]
fn links_of_a_tree_are_the_hashes_of_its_entries() {
    assert_eq!(
        links_of(b"100644 blob h1 a.txt\n040000 tree h2 sub\nshort line\n"),
        vec![b"h1".to_vec(), b"h2".to_vec()]
    );
    assert_eq!(links_of(b"plain contents\n"), Vec::<Vec<u8>>::new());
    assert_eq!(links_of(b""), Vec::<Vec<u8>>::new());
}

#[test]
fn collect_objects_of_a_chain_of_three_commits() {
    let mut repo = new_repo();
    let (c1, t1, b1) = snapshot(&mut repo, b"one", None);
    let (c2, t2, b2) = snapshot(&mut repo, b"two", Some(&c1));
    let (c3, t3, b3) = snapshot(&mut repo, b"three", Some(&c2));
    let unrelated = hash_object(&mut repo.objects, b"not in any commit").unwrap();

    let all = collect_objects(&repo.objects, &c3).unwrap();
    assert_eq!(all.len(), 9);
    assert_eq!(
        sorted(&all),
        sorted_names(
            [&c1, &t1, &b1, &c2, &t2, &b2, &c3, &t3, &b3]
                .iter()
                .map(|h| text(h))
                .collect()
        )
    );
    assert!(!all.contains(&unrelated));

    let first = collect_objects(&repo.objects, &c1).unwrap();
    assert_eq!(
        sorted(&first),
        sorted_names([&c1, &t1, &b1].iter().map(|h| text(h)).collect())
    );
}

#[test]
fn collect_objects_visits_a_shared_object_once() {
    let mut repo = new_repo();
    let (c1, t1, b1) = snapshot(&mut repo, b"same", None);
    let (c2, t2, b2) = snapshot(&mut repo, b"same", Some(&c1));
    assert_eq!(t1, t2);
    assert_eq!(b1, b2);
    let all = collect_objects(&repo.objects, &c2).unwrap();
    assert_eq!(all.len(), 4);
    assert_eq!(
        sorted(&all),
        sorted_names([&c1, &c2, &t1, &b1].iter().map(|h| text(h)).collect())
    );
}

#[test]
fn collect_objects_ends_on_an_object_that_names_itself() {
    let mut repo = new_repo();
    let stored = compress_object(b"commit 37\0tree tttt\nparent self\nauthor me\n\nmsg\n").unwrap();
    repo.objects.insert(b"self".to_vec(), stored);
    repo.objects
        .insert(b"tttt".to_vec(), compress_object(b"tree 0\0").unwrap());
    let all = collect_objects(&repo.objects, b"self").unwrap();
    assert_eq!(sorted(&all), vec!["self".to_string(), "tttt".to_string()]);
}

#[test]
fn collect_objects_fails_on_an_object_that_is_not_there() {
    let mut repo = new_repo();
    let commit = commit_tree(&mut repo.objects, b"msg", b"me", b"missing-tree", None).unwrap();
    assert_eq!(
        collect_objects(&repo.objects, &commit).unwrap_err(),
        Error::ObjectNotFound
    );
    assert_eq!(
        collect_objects(&repo.objects, b"nothing").unwrap_err(),
        Error::ObjectNotFound
    );
    repo.objects
        .insert(b"missing-tree".to_vec(), b"damaged".to_vec());
    assert_eq!(
        collect_objects(&repo.objects, &commit).unwrap_err(),
        Error::MalformedObject
    );
}

#[test]
fn missing_objects_are_those_the_store_lacks() {
    let mut store = ByteMap::new();
    store.insert(b"aa".to_vec(), Vec::new());
    store.insert(b"cc".to_vec(), Vec::new());
    store.insert(b"zz".to_vec(), Vec::new());
    let mut objects = ByteSet::new();
    for h in [b"aa", b"bb", b"cc", b"dd"] {
        objects.insert(h.to_vec());
    }
    let missing = get_missing_objects(&store, &objects);
    assert_eq!(sorted(&missing), vec!["bb".to_string(), "dd".to_string()]);

    // What is missing and what is present make up the set, and share nothing.
    let present: Vec<String> = (0..objects.len())
        .map(|i| objects.get(i).clone())
        .filter(|h| store.contains_key(h))
        .map(|h| text(&h))
        .collect();
    assert_eq!(present, vec!["aa".to_string(), "cc".to_string()]);
    assert_eq!(missing.len() + present.len(), objects.len());
    assert!(present.iter().all(|h| !missing.contains(h.as_bytes())));

    assert_eq!(get_missing_objects(&store, &ByteSet::new()).len(), 0);
    assert_eq!(get_missing_objects(&ByteMap::new(), &objects).len(), 4);
}

#[test]
fn push_gives_the_other_repository_what_it_lacks() {
    let mut local = new_repo();
    let (c1, _t1, b1) = snapshot(&mut local, b"one", None);
    let (c2, t2, b2) = snapshot(&mut local, b"two", Some(&c1));
    let mut tip = c2.clone();
    tip.push(b'\n');
    update_ref(&mut local.refs, b"refs/heads/main", &tip);

    let mut remote = new_repo();
    // The other repository holds one of the objects already, with bytes of its own.
    remote.objects.insert(b1.clone(), b"already here".to_vec());

    assert_eq!(push(&local, &mut remote, b"heads/main"), Ok(()));
    assert_eq!(remote.objects.len(), 6);
    assert_eq!(remote.refs.get(b"refs/heads/main"), Some(&c2));
    assert_eq!(remote.objects.get(&b1), Some(&b"already here".to_vec()));
    assert_eq!(remote.objects.get(&t2), local.objects.get(&t2));
    assert_eq!(cat_file(&remote.objects, &b2), Ok(b"two".to_vec()));
    assert_eq!(remote.index.len(), 0);
}

#[test]
fn push_needs_the_branch() {
    let local = new_repo();
    let mut remote = new_repo();
    assert_eq!(
        push(&local, &mut remote, b"heads/main"),
        Err(Error::RefNotFound)
    );
    assert_eq!(remote.objects.len(), 0);
    assert_eq!(remote.refs.len(), 1);
}

#[test]
fn push_of_a_broken_history_changes_nothing() {
    let mut local = new_repo();
    let commit = commit_tree(&mut local.objects, b"msg", b"me", b"missing-tree", None).unwrap();
    update_ref(&mut local.refs, b"refs/heads/main", &commit);
    let mut remote = new_repo();
    assert_eq!(
        push(&local, &mut remote, b"heads/main"),
        Err(Error::ObjectNotFound)
    );
    assert_eq!(remote.objects.len(), 0);
    assert!(!remote.refs.contains_key(b"refs/heads/main"));
}

#[test]
fn fetch_takes_what_is_lacking_and_records_the_branch() {
    let mut remote = new_repo();
    let (c1, t1, b1) = snapshot(&mut remote, b"one", None);
    update_ref(&mut remote.refs, b"refs/main", &c1);

    let mut local = new_repo();
    add_index(&mut local.index, b"staged", b"h");
    assert_eq!(fetch(&remote, &mut local, b"main"), Ok(()));
    assert_eq!(local.objects.len(), 3);
    for h in [&c1, &t1, &b1] {
        assert_eq!(local.objects.get(h), remote.objects.get(h));
    }
    assert_eq!(local.refs.get(b"refs/remotes/main"), Some(&c1));
    assert_eq!(local.refs.get(b"refs/main"), None);
    assert_eq!(local.index.len(), 1);

    assert_eq!(
        fetch(&remote, &mut local, b"other"),
        Err(Error::RefNotFound)
    );
}

#[test]
fn a_message_is_not_read_as_a_header() {
    let commit = build_commit(b"parent zzzz\ntree yyyy\nauthor nobody", b"me", b"T", None);
    assert_eq!(links_of(&commit), vec![b"T".to_vec()]);
    let (header, body) = rgit::format::split_commit(&commit);
    assert_eq!(header, vec![b"tree T".to_vec(), b"author me".to_vec()]);
    assert_eq!(
        rgit::format::join(&body),
        b"parent zzzz\ntree yyyy\nauthor nobody".to_vec()
    );
}

#[test]
fn prose_is_not_a_tree() {
    assert_eq!(
        links_of(b"these are four words\nand five words right here\n"),
        Vec::<Vec<u8>>::new()
    );
    assert_eq!(
        links_of(b"mode blobs hash name\nmode tree hash name and more\n"),
        vec![b"hash".to_vec()]
    );
}

#[test]
fn a_text_without_an_empty_line_is_all_header() {
    let (header, body) = rgit::format::split_commit(b"tree T\nauthor me");
    assert_eq!(header, vec![b"tree T".to_vec(), b"author me".to_vec()]);
    assert_eq!(body, Vec::<Vec<u8>>::new());
    let (header, body) = rgit::format::split_commit(b"\nonly a message\n");
    assert_eq!(header, Vec::<Vec<u8>>::new());
    assert_eq!(body, vec![b"only a message".to_vec()]);
}

#[test]
fn the_lines_that_an_index_passes_over() {
    assert_eq!(
        rgit::index::skipped_lines(b"a h1\nonly-one-word\n\nb  h2  \nthree words here\n"),
        vec![
            b"only-one-word".to_vec(),
            Vec::new(),
            b"three words here".to_vec()
        ]
    );
    assert_eq!(
        rgit::index::skipped_lines(b"a h1\nb h2\n"),
        Vec::<Vec<u8>>::new()
    );
}

#[test]
fn a_repository_is_kept_as_files() {
    let mut repo = new_repo();
    let (commit, tree, blob) = snapshot(&mut repo, b"one", None);
    update_ref(&mut repo.refs, b"refs/heads/main", &commit);
    update_ref(&mut repo.refs, b"HEAD", b"ref: refs/heads/main");

    let files = rgit::layout::files_of_repository(&repo);
    assert_eq!(files.len(), 6);
    for hash in [&commit, &tree, &blob] {
        let name = text(hash);
        let path = format!("objects/{}/{}", &name[0..2], &name[2..]);
        assert_eq!(files.get(path.as_bytes()), repo.objects.get(hash));
    }
    assert_eq!(files.get(b"refs/heads/main"), Some(&commit));
    assert_eq!(files.get(b"HEAD"), Some(&b"ref: refs/heads/main".to_vec()));
    let mut index_text = b"file.txt ".to_vec();
    index_text.extend_from_slice(&blob);
    index_text.push(b'\n');
    assert_eq!(files.get(b"index"), Some(&index_text));

    let read = rgit::layout::repository_of(&files);
    assert_eq!(read.objects.len(), 3);
    assert_eq!(read.refs.len(), 2);
    assert_eq!(read.index.len(), 1);
    assert_eq!(cat_file(&read.objects, &blob), Ok(b"one".to_vec()));
    assert_eq!(read.refs.get(b"refs/heads/main"), Some(&commit));
    assert_eq!(read.index.get(b"file.txt"), Some(&blob));
}

#[test]
fn files_that_are_no_objects() {
    let mut files = ByteMap::new();
    files.insert(b"objects/ab/cdef".to_vec(), b"1".to_vec());
    files.insert(b"objects/ab".to_vec(), b"2".to_vec());
    files.insert(b"objects/abc/def".to_vec(), b"3".to_vec());
    files.insert(b"objects/ab/cd/ef".to_vec(), b"4".to_vec());
    files.insert(b"objects/ab/".to_vec(), b"5".to_vec());
    files.insert(b"objects/a/bcdef".to_vec(), b"6".to_vec());
    files.insert(b"foo".to_vec(), b"7".to_vec());
    let repo = rgit::layout::repository_of(&files);
    assert_eq!(repo.objects.len(), 1);
    assert_eq!(repo.objects.get(b"abcdef"), Some(&b"1".to_vec()));
    assert_eq!(repo.refs.len(), 1);
    assert_eq!(repo.refs.get(b"foo"), Some(&b"7".to_vec()));
    assert_eq!(repo.index.len(), 0);

    assert_eq!(
        rgit::layout::object_of_file(b"objects/22/11df3faee131ad21edcb844e098a42c1fbb4e5"),
        Some(b"2211df3faee131ad21edcb844e098a42c1fbb4e5".to_vec())
    );
    assert_eq!(rgit::layout::object_of_file(b"refs/22/11"), None);
    assert_eq!(
        rgit::layout::object_file_of(b"2211df"),
        b"objects/22/11df".to_vec()
    );
    assert_eq!(
        rgit::layout::repository_directories(),
        vec![b"objects".to_vec(), b"refs".to_vec()]
    );
}

#[test]
fn copies_hold_the_same() {
    let mut map = ByteMap::new();
    map.insert(b"k".to_vec(), b"v".to_vec());
    map.insert(b"l".to_vec(), b"w".to_vec());
    let mut copy = map.clone();
    assert_eq!(copy.len(), 2);
    assert_eq!(copy.key_at(0), &b"k".to_vec());
    assert_eq!(copy.get(b"l"), Some(&b"w".to_vec()));
    copy.remove(b"k");
    assert_eq!(map.len(), 2);

    let mut set = ByteSet::new();
    set.insert(b"a".to_vec());
    let copy = set.clone();
    assert!(copy.contains(b"a"));
    assert_eq!(copy.len(), 1);

    let mut repo = new_repo();
    add_index(&mut repo.index, b"f", b"h");
    let copy = repo.clone();
    assert_eq!(copy.index.get(b"f"), Some(&b"h".to_vec()));
    assert_eq!(copy.refs.get(b"HEAD"), Some(&Vec::new()));
}

#[test]
fn objects_without_a_fitting_hash_have_no_file() {
    let mut repo = new_repo();
    repo.objects.insert(b"ab".to_vec(), b"short".to_vec());
    repo.objects.insert(b"ab/cd".to_vec(), b"slash".to_vec());
    repo.objects.insert(b"abc".to_vec(), b"fits".to_vec());
    let files = rgit::layout::files_of_repository(&repo);
    assert_eq!(files.len(), 3);
    assert_eq!(files.get(b"objects/ab/c"), Some(&b"fits".to_vec()));
    assert_eq!(files.get(b"HEAD"), Some(&Vec::new()));
    assert_eq!(files.get(b"index"), Some(&Vec::new()));
}

#[test]
fn the_small_parts_of_text() {
    for b in [b' ', b'\t', b'\n', 0x0b, 0x0c, b'\r'] {
        assert!(rgit::text::is_space_byte(b));
        assert!(Delim::Space.stops_at(b));
        assert!(!Delim::NonSpace.stops_at(b));
    }
    for b in [b'a', b'0', 0, 8, 14, 31, 33, 0x85, 0xa0, 0xff] {
        assert!(!rgit::text::is_space_byte(b));
        assert!(Delim::NonSpace.stops_at(b));
    }
    assert!(Delim::Byte(0).stops_at(0));
    assert!(!Delim::Byte(0).stops_at(1));
    assert_eq!(rgit::text::copy_range(b"abcdef", 2, 4), b"cd".to_vec());
    assert_eq!(rgit::text::copy_range(b"abcdef", 6, 6), Vec::<u8>::new());
    assert_eq!(rgit::text::literal("tree "), b"tree ");
}

#[test]
fn the_fields_of_a_header() {
    let header = vec![
        b"tree T".to_vec(),
        b"parent".to_vec(),
        b"parent P and more".to_vec(),
        b"author  me".to_vec(),
    ];
    assert_eq!(
        rgit::format::find_line(&header, b"parent "),
        Some(&b"parent P and more".to_vec())
    );
    assert_eq!(rgit::format::find_line(&header, b"committer "), None);
    assert_eq!(rgit::format::field_of(&header, b"tree "), Some(b"T".to_vec()));
    assert_eq!(rgit::format::field_of(&header, b"parent "), Some(b"P".to_vec()));
    assert_eq!(rgit::format::field_of(&header, b"author "), Some(b"me".to_vec()));
    assert_eq!(rgit::format::field_of(&header, b"tre"), Some(b"T".to_vec()));
    assert_eq!(rgit::format::field_of(&header, b"parent"), None);
    assert_eq!(rgit::format::word_of(b" a  b c ", 0), Some(b"a".to_vec()));
    assert_eq!(rgit::format::word_of(b" a  b c ", 2), Some(b"c".to_vec()));
    assert_eq!(rgit::format::word_of(b" a  b c ", 3), None);
}

#[test]
fn the_text_of_a_tree() {
    let mut index = ByteMap::new();
    assert_eq!(rgit::format::build_tree(&index), Vec::<u8>::new());
    add_index(&mut index, b"b.txt", b"h2");
    add_index(&mut index, b"a.txt", b"h1");
    assert_eq!(
        rgit::format::build_tree(&index),
        b"100644 blob h2 b.txt\n100644 blob h1 a.txt\n".to_vec()
    );
}

#[test]
fn the_names_of_references() {
    assert_eq!(
        rgit::refs::branch_ref_of(b"heads/main"),
        b"refs/heads/main".to_vec()
    );
    assert_eq!(
        rgit::refs::symbolic_target_of(b"ref: refs/heads/main\n"),
        Some(b"refs/heads/main".to_vec())
    );
    assert_eq!(
        rgit::refs::symbolic_target_of(b"ref:  spaced  "),
        Some(b"spaced".to_vec())
    );
    assert_eq!(rgit::refs::symbolic_target_of(b"ref: "), Some(Vec::new()));
    assert_eq!(rgit::refs::symbolic_target_of(b"ref:x"), None);
    assert_eq!(rgit::refs::symbolic_target_of(b"abc123"), None);

    let mut refs = ByteMap::new();
    update_ref(&mut refs, b"refs/main", b" abc \n");
    assert_eq!(rgit::refs::resolve_target_of(&refs, b"main"), b"abc".to_vec());
    assert_eq!(rgit::refs::resolve_target_of(&refs, b"abc"), b"abc".to_vec());
}

#[test]
fn a_commit_of_the_index_of_a_repository() {
    let mut repo = new_repo();
    add_index(&mut repo.index, b"a", b"h1");
    let hash = rgit::repo::commit_index(&mut repo, b"msg", b"me").unwrap();
    assert_eq!(repo.refs.get(b"HEAD"), Some(&hash));
    assert_eq!(repo.index.len(), 0);
    assert_eq!(repo.objects.len(), 2);
    assert_eq!(
        rgit::repo::commit_index(&mut repo, b"msg", b"me"),
        Err(Error::NothingToCommit)
    );
}
