//! The text of tree and commit objects: how it is written, and what is read
//! back out of it.
//!
//! A tree holds one line for each entry, `<mode> <type> <hash> <name>`. A
//! commit holds a header of a `tree` line, a `parent` line for each parent
//! and an `author` line, then an empty line, then the message. What a commit
//! names is read from its header alone, so that no line of a message is
//! taken for a field.

use crate::table::ByteMap;
use crate::table::Entry;
use crate::text::ascii;
use crate::text::bytes_eq;
use crate::text::lines;
use crate::text::literal;
use crate::text::split_lines;
use crate::text::split_tokens;
use crate::text::starts_with;
use crate::text::tokens;
use crate::text::views;
use crate::text::NEWLINE;
use crate::text::SPACE;
use vstd::prelude::*;

verus! {

/// The payload of a commit.
pub open spec fn commit_text(
    message: Seq<u8>,
    author: Seq<u8>,
    tree: Seq<u8>,
    parent: Option<Seq<u8>>,
) -> Seq<u8> {
    ascii("tree "@) + tree + seq![NEWLINE] + (match parent {
        Some(p) => ascii("parent "@) + p + seq![NEWLINE],
        None => Seq::empty(),
    }) + ascii("author "@) + author + seq![NEWLINE, NEWLINE] + message + seq![NEWLINE]
}

/// The payload of a commit with the given message, author, tree and parent.
pub fn build_commit(message: &[u8], author: &[u8], tree: &[u8], parent: Option<&[u8]>) -> (text:
    Vec<u8>)
    ensures
        text@ == commit_text(
            message@,
            author@,
            tree@,
            match parent {
                Some(p) => Some(p@),
                None => None,
            },
        ),
{
    proof {
        reveal_strlit("tree ");
        reveal_strlit("parent ");
        reveal_strlit("author ");
    }
    let mut text: Vec<u8> = Vec::new();
    text.extend_from_slice(literal("tree "));
    text.extend_from_slice(tree);
    text.push(NEWLINE);
    match parent {
        Some(p) => {
            text.extend_from_slice(literal("parent "));
            text.extend_from_slice(p);
            text.push(NEWLINE);
        },
        None => {},
    }
    text.extend_from_slice(literal("author "));
    text.extend_from_slice(author);
    text.push(NEWLINE);
    text.push(NEWLINE);
    text.extend_from_slice(message);
    text.push(NEWLINE);
    assert(text@ =~= commit_text(
        message@,
        author@,
        tree@,
        match parent {
            Some(p) => Some(p@),
            None => None,
        },
    ));
    text
}

/// The line of a tree for an index entry: the fixed mode, the type `blob`,
/// the blob's hash and the path.
pub open spec fn tree_line(e: Entry) -> Seq<u8> {
    ascii("100644 blob "@) + e.1 + seq![SPACE] + e.0
}

/// The payload of the tree for the entries of an index: a line for each, in
/// their order.
pub open spec fn tree_text(es: Seq<Entry>) -> Seq<u8>
    decreases es.len(),
{
    if es.len() == 0 {
        Seq::empty()
    } else {
        tree_line(es[0]) + seq![NEWLINE] + tree_text(es.drop_first())
    }
}

/// The payload of the tree of an index.
pub fn build_tree(index: &ByteMap) -> (text: Vec<u8>)
    ensures
        text@ == tree_text(index.entries()),
{
    let ghost es = index.entries();
    let n = index.len();
    let mut text: Vec<u8> = Vec::new();
    let mut i: usize = 0;
    assert(es.skip(0) =~= es);
    while i < n
        invariant
            i <= n,
            n == es.len(),
            es == index.entries(),
            tree_text(es) == text@ + tree_text(es.skip(i as int)),
        decreases n - i,
    {
        let ghost before = text@;
        proof {
            reveal_strlit("100644 blob ");
        }
        text.extend_from_slice(literal("100644 blob "));
        text.extend_from_slice(index.value_at(i).as_slice());
        text.push(SPACE);
        text.extend_from_slice(index.key_at(i).as_slice());
        text.push(NEWLINE);
        proof {
            let rest = es.skip(i as int);
            assert(rest[0] == es[i as int]);
            assert(rest.drop_first() =~= es.skip(i + 1));
            assert(text@ =~= before + (tree_line(es[i as int]) + seq![NEWLINE]));
            assert(text@ + tree_text(es.skip(i + 1)) =~= before + tree_text(rest));
        }
        i += 1;
    }
    assert(text@ + tree_text(es.skip(i as int)) =~= text@);
    text
}

/// The number of lines before the first empty one.
pub open spec fn header_len(ls: Seq<Seq<u8>>) -> nat
    decreases ls.len(),
{
    if ls.len() == 0 || ls[0].len() == 0 {
        0
    } else {
        1 + header_len(ls.drop_first())
    }
}

/// The first empty line is where the header ends.
pub proof fn lemma_header_len(ls: Seq<Seq<u8>>, n: int)
    requires
        0 <= n <= ls.len(),
        forall|j: int| 0 <= j < n ==> (#[trigger] ls[j]).len() != 0,
        n < ls.len() ==> ls[n].len() == 0,
    ensures
        header_len(ls) == n,
    decreases ls.len(),
{
    if ls.len() == 0 || ls[0].len() == 0 {
        if n > 0 {
            assert(ls[0].len() != 0);
        }
    } else {
        let rest = ls.drop_first();
        assert forall|j: int| 0 <= j < n - 1 implies (#[trigger] rest[j]).len() != 0 by {
            assert(rest[j] == ls[j + 1]);
        }
        lemma_header_len(rest, n - 1);
    }
}

/// The header of a commit: its lines before the first empty one.
pub open spec fn header_lines(ls: Seq<Seq<u8>>) -> Seq<Seq<u8>> {
    ls.take(header_len(ls) as int)
}

/// What follows the header of a commit: the lines after the first empty one.
pub open spec fn body_lines(ls: Seq<Seq<u8>>) -> Seq<Seq<u8>> {
    if header_len(ls) < ls.len() {
        ls.skip(header_len(ls) as int + 1)
    } else {
        Seq::empty()
    }
}

/// The lines of a commit's text, those of the header and those after it.
pub fn split_commit(content: &[u8]) -> (r: (Vec<Vec<u8>>, Vec<Vec<u8>>))
    ensures
        views(r.0@) == header_lines(lines(content@)),
        views(r.1@) == body_lines(lines(content@)),
{
    let mut ls = split_lines(content);
    let ghost lv = views(ls@);
    let mut k: usize = 0;
    while k < ls.len() && ls[k].len() != 0
        invariant
            k <= ls.len(),
            lv == views(ls@),
            forall|j: int| 0 <= j < k ==> (#[trigger] lv[j]).len() != 0,
        decreases ls.len() - k,
    {
        k += 1;
    }
    proof {
        lemma_header_len(lv, k as int);
    }
    let body = if k < ls.len() {
        ls.split_off(k + 1)
    } else {
        Vec::new()
    };
    ls.truncate(k);
    assert(views(ls@) =~= header_lines(lv));
    assert(views(body@) =~= body_lines(lv));
    (ls, body)
}

/// The first of the lines that begins with `prefix`.
pub open spec fn first_with_prefix(ls: Seq<Seq<u8>>, prefix: Seq<u8>) -> Option<Seq<u8>>
    decreases ls.len(),
{
    if ls.len() == 0 {
        None
    } else if prefix.is_prefix_of(ls[0]) {
        Some(ls[0])
    } else {
        first_with_prefix(ls.drop_first(), prefix)
    }
}

/// The first line that begins with `prefix` is the one before which none
/// does.
pub proof fn lemma_first_with_prefix(ls: Seq<Seq<u8>>, prefix: Seq<u8>, n: int)
    requires
        0 <= n <= ls.len(),
        forall|j: int| 0 <= j < n ==> !prefix.is_prefix_of(#[trigger] ls[j]),
        n < ls.len() ==> prefix.is_prefix_of(ls[n]),
    ensures
        first_with_prefix(ls, prefix) == if n < ls.len() {
            Some(ls[n])
        } else {
            None
        },
    decreases ls.len(),
{
    if ls.len() == 0 {
    } else if n == 0 {
    } else {
        assert(!prefix.is_prefix_of(ls[0]));
        let rest = ls.drop_first();
        assert forall|j: int| 0 <= j < n - 1 implies !prefix.is_prefix_of(#[trigger] rest[j]) by {
            assert(rest[j] == ls[j + 1]);
        }
        lemma_first_with_prefix(rest, prefix, n - 1);
    }
}

/// The first of the lines that begins with `prefix`.
pub fn find_line<'a>(ls: &'a Vec<Vec<u8>>, prefix: &[u8]) -> (r: Option<&'a Vec<u8>>)
    ensures
        match r {
            Some(line) => first_with_prefix(views(ls@), prefix@) == Some(line@)
                && prefix@.is_prefix_of(line@),
            None => first_with_prefix(views(ls@), prefix@) is None,
        },
{
    let mut i: usize = 0;
    while i < ls.len()
        invariant
            i <= ls.len(),
            forall|j: int| 0 <= j < i ==> !prefix@.is_prefix_of(#[trigger] views(ls@)[j]),
        decreases ls.len() - i,
    {
        if starts_with(ls[i].as_slice(), prefix) {
            proof {
                lemma_first_with_prefix(views(ls@), prefix@, i as int);
            }
            return Some(&ls[i]);
        }
        i += 1;
    }
    proof {
        lemma_first_with_prefix(views(ls@), prefix@, i as int);
    }
    None
}

/// The word of a line at place `i`, counted from zero.
pub open spec fn word(line: Seq<u8>, i: int) -> Option<Seq<u8>> {
    if 0 <= i < tokens(line).len() {
        Some(tokens(line)[i])
    } else {
        None
    }
}

/// The word of `line` at place `i`, counted from zero.
pub fn word_of(line: &[u8], i: usize) -> (r: Option<Vec<u8>>)
    ensures
        match r {
            Some(w) => word(line@, i as int) == Some(w@),
            None => word(line@, i as int) is None,
        },
{
    let words = split_tokens(line);
    if i < words.len() {
        Some(words[i].clone())
    } else {
        None
    }
}

/// The second word of the first line that begins with `prefix`.
pub open spec fn field(ls: Seq<Seq<u8>>, prefix: Seq<u8>) -> Option<Seq<u8>> {
    match first_with_prefix(ls, prefix) {
        Some(line) => word(line, 1),
        None => None,
    }
}

/// The second word of the first line that begins with `prefix`.
pub fn field_of(ls: &Vec<Vec<u8>>, prefix: &[u8]) -> (r: Option<Vec<u8>>)
    ensures
        match r {
            Some(w) => field(views(ls@), prefix@) == Some(w@),
            None => field(views(ls@), prefix@) is None,
        },
{
    match find_line(ls, prefix) {
        Some(line) => word_of(line.as_slice(), 1),
        None => None,
    }
}

/// The hash of the tree that a commit names.
pub open spec fn tree_of_commit(content: Seq<u8>) -> Option<Seq<u8>> {
    field(header_lines(lines(content)), ascii("tree "@))
}

/// The hash of the first parent that a commit names.
pub open spec fn parent_of_commit(content: Seq<u8>) -> Option<Seq<u8>> {
    field(header_lines(lines(content)), ascii("parent "@))
}

/// The first parent of a commit, or nothing where it has none.
pub open spec fn first_parent(content: Seq<u8>) -> Seq<u8> {
    match parent_of_commit(content) {
        Some(parent) => parent,
        None => Seq::empty(),
    }
}

/// Whether the text is a commit's: its header has an `author` line.
pub open spec fn is_commit(content: Seq<u8>) -> bool {
    first_with_prefix(header_lines(lines(content)), ascii("author "@)) is Some
}

/// The author of a commit: what follows `author ` on the first such line of
/// the header.
pub open spec fn author_of(content: Seq<u8>) -> Seq<u8> {
    match first_with_prefix(header_lines(lines(content)), ascii("author "@)) {
        Some(line) => line.skip(ascii("author "@).len() as int),
        None => ascii("unknown author"@),
    }
}

/// The lines, with a line feed between each two.
pub open spec fn join_lines(ls: Seq<Seq<u8>>) -> Seq<u8>
    decreases ls.len(),
{
    if ls.len() == 0 {
        Seq::empty()
    } else if ls.len() == 1 {
        ls[0]
    } else {
        join_lines(ls.drop_last()) + seq![NEWLINE] + ls.last()
    }
}

/// The message of a commit: the lines after the header and the empty line.
pub open spec fn message_of(content: Seq<u8>) -> Seq<u8> {
    join_lines(body_lines(lines(content)))
}

/// The lines as one text, with a line feed between each two.
pub fn join(ls: &Vec<Vec<u8>>) -> (text: Vec<u8>)
    ensures
        text@ == join_lines(views(ls@)),
{
    let ghost lv = views(ls@);
    let mut text: Vec<u8> = Vec::new();
    let mut i: usize = 0;
    assert(lv.take(0) =~= Seq::<Seq<u8>>::empty());
    while i < ls.len()
        invariant
            i <= ls.len(),
            lv == views(ls@),
            text@ == join_lines(lv.take(i as int)),
        decreases ls.len() - i,
    {
        proof {
            let upto = lv.take(i + 1);
            assert(upto.drop_last() =~= lv.take(i as int));
            assert(upto.last() == lv[i as int]);
        }
        if i > 0 {
            text.push(NEWLINE);
        }
        text.extend_from_slice(ls[i].as_slice());
        i += 1;
    }
    assert(lv.take(i as int) =~= lv);
    text
}

/// The parent that a line of a commit's header names.
pub open spec fn parent_link(line: Seq<u8>) -> Option<Seq<u8>> {
    if ascii("parent "@).is_prefix_of(line) {
        word(line, 1)
    } else {
        None
    }
}

/// The hash that a line of a tree names: its third word, where it has four
/// words or more and the second is `blob` or `tree`.
pub open spec fn entry_link(line: Seq<u8>) -> Option<Seq<u8>> {
    let words = tokens(line);
    if words.len() >= 4 && (words[1] == ascii("blob"@) || words[1] == ascii("tree"@)) {
        Some(words[2])
    } else {
        None
    }
}

/// The parents that the lines of a commit's header name, in their order.
pub open spec fn parent_links(ls: Seq<Seq<u8>>) -> Seq<Seq<u8>> {
    ls.filter_map(|line: Seq<u8>| parent_link(line))
}

/// The hashes that the lines of a tree name, in their order.
pub open spec fn entry_links(ls: Seq<Seq<u8>>) -> Seq<Seq<u8>> {
    ls.filter_map(|line: Seq<u8>| entry_link(line))
}

/// The hashes that an object's text refers to. A commit refers to its tree
/// and its parents; any other text is read as a tree, which refers to the
/// hash of every entry, be it a blob or a tree. The text of a blob, with no
/// line in the shape of an entry, refers to nothing.
pub open spec fn object_links(content: Seq<u8>) -> Seq<Seq<u8>> {
    if is_commit(content) {
        (match tree_of_commit(content) {
            Some(tree) => seq![tree],
            None => Seq::empty(),
        }) + parent_links(header_lines(lines(content)))
    } else {
        entry_links(lines(content))
    }
}

/// One more line adds the parent that it names.
proof fn lemma_parent_links_step(ls: Seq<Seq<u8>>, i: int)
    requires
        0 <= i < ls.len(),
    ensures
        parent_links(ls.take(i + 1)) == parent_links(ls.take(i)) + (match parent_link(ls[i]) {
            Some(h) => seq![h],
            None => Seq::empty(),
        }),
{
    ls.lemma_filter_map_take_succ(|line: Seq<u8>| parent_link(line), i);
}

/// One more line adds the hash that it names.
proof fn lemma_entry_links_step(ls: Seq<Seq<u8>>, i: int)
    requires
        0 <= i < ls.len(),
    ensures
        entry_links(ls.take(i + 1)) == entry_links(ls.take(i)) + (match entry_link(ls[i]) {
            Some(h) => seq![h],
            None => Seq::empty(),
        }),
{
    ls.lemma_filter_map_take_succ(|line: Seq<u8>| entry_link(line), i);
}

/// The hashes that the text of an object refers to.
pub fn links_of(content: &[u8]) -> (out: Vec<Vec<u8>>)
    ensures
        views(out@) == object_links(content@),
{
    proof {
        reveal_strlit("tree ");
        reveal_strlit("author ");
    }
    let (header, _) = split_commit(content);
    let mut out: Vec<Vec<u8>> = Vec::new();
    let mut i: usize = 0;
    if find_line(&header, literal("author ")).is_some() {
        let ghost lv = views(header@);
        match field_of(&header, literal("tree ")) {
            Some(tree) => {
                out.push(tree);
            },
            None => {},
        }
        let ghost head = views(out@);
        assert(lv.take(0) =~= Seq::<Seq<u8>>::empty());
        assert(head + parent_links(lv.take(0)) =~= head);
        while i < header.len()
            invariant
                i <= header.len(),
                lv == views(header@),
                views(out@) == head + parent_links(lv.take(i as int)),
            decreases header.len() - i,
        {
            let ghost before = views(out@);
            proof {
                reveal_strlit("parent ");
                lemma_parent_links_step(lv, i as int);
            }
            if starts_with(header[i].as_slice(), literal("parent ")) {
                match word_of(header[i].as_slice(), 1) {
                    Some(h) => {
                        out.push(h);
                        assert(views(out@) =~= before.push(h@));
                    },
                    None => {},
                }
            }
            i += 1;
            assert(views(out@) =~= head + parent_links(lv.take(i as int)));
        }
        assert(lv.take(i as int) =~= lv);
    } else {
        let ls = split_lines(content);
        let ghost lv = views(ls@);
        assert(lv.take(0) =~= Seq::<Seq<u8>>::empty());
        while i < ls.len()
            invariant
                i <= ls.len(),
                lv == views(ls@),
                views(out@) == entry_links(lv.take(i as int)),
            decreases ls.len() - i,
        {
            let ghost before = views(out@);
            proof {
                reveal_strlit("blob");
                reveal_strlit("tree");
                lemma_entry_links_step(lv, i as int);
            }
            let words = split_tokens(ls[i].as_slice());
            if words.len() >= 4 && (bytes_eq(words[1].as_slice(), literal("blob")) || bytes_eq(
                words[1].as_slice(),
                literal("tree"),
            )) {
                out.push(words[2].clone());
                assert(views(out@) =~= before.push(words@[2]@));
            }
            i += 1;
        }
        assert(lv.take(i as int) =~= lv);
    }
    out
}

} // verus!
