//! What is written is read back: the text that the builders write has the
//! lines and the fields that the readers find in it.

use crate::format::author_of;
use crate::format::body_lines;
use crate::format::commit_text;
use crate::format::entry_link;
use crate::format::entry_links;
use crate::format::header_len;
use crate::format::header_lines;
use crate::format::is_commit;
use crate::format::join_lines;
use crate::format::lemma_first_with_prefix;
use crate::format::lemma_header_len;
use crate::format::message_of;
use crate::format::object_links;
use crate::format::parent_link;
use crate::format::parent_links;
use crate::format::parent_of_commit;
use crate::format::tree_line;
use crate::format::tree_of_commit;
use crate::format::tree_text;
use crate::table::Entry;
use crate::text::ascii;
use crate::text::is_word;
use crate::text::lemma_lines_cons;
use crate::text::lemma_run_len;
use crate::text::lemma_tokens_cons;
use crate::text::lemma_tokens_pair;
use crate::text::lemma_word_has_no_newline;
use crate::text::lines;
use crate::text::run_len;
use crate::text::tokens;
use crate::text::Delim;
use crate::text::NEWLINE;
use crate::text::SPACE;
use vstd::prelude::*;

verus! {

/// Every path and every hash of the entries is a word.
pub open spec fn all_words(es: Seq<Entry>) -> bool {
    forall|i: int| 0 <= i < es.len() ==> is_word((#[trigger] es[i]).0) && is_word(es[i].1)
}

/// The line of a tree for an entry of two words has four words: the mode,
/// the type, the hash and the path.
pub proof fn lemma_tree_line_words(e: Entry)
    requires
        is_word(e.0),
        is_word(e.1),
    ensures
        tokens(tree_line(e)) == seq![ascii("100644"@), ascii("blob"@), e.1, e.0],
        !tree_line(e).contains(NEWLINE),
        tree_line(e).len() > 0,
        tree_line(e)[0] == 49,
{
    reveal_strlit("100644 blob ");
    reveal_strlit("100644");
    reveal_strlit("blob");
    let mode = ascii("100644"@);
    let kind = ascii("blob"@);
    let tail = e.1 + seq![SPACE] + e.0;
    assert(tree_line(e) =~= mode + seq![SPACE] + (kind + seq![SPACE] + tail));
    assert(is_word(mode));
    assert(is_word(kind));
    lemma_tokens_cons(mode, kind + seq![SPACE] + tail);
    lemma_tokens_cons(kind, tail);
    lemma_tokens_pair(e.1, e.0);
    assert(seq![mode] + (seq![kind] + seq![e.1, e.0]) =~= seq![mode, kind, e.1, e.0]);
    lemma_word_has_no_newline(e.0);
    lemma_word_has_no_newline(e.1);
    let line = tree_line(e);
    if line.contains(NEWLINE) {
        let j = choose|j: int| 0 <= j < line.len() && line[j] == NEWLINE;
        if j < 12 {
        } else if j < 12 + e.1.len() {
            assert(line[j] == e.1[j - 12]);
            assert(e.1.contains(e.1[j - 12]));
        } else if j > 12 + e.1.len() {
            assert(line[j] == e.0[j - 13 - e.1.len()]);
            assert(e.0.contains(e.0[j - 13 - e.1.len()]));
        }
    }
}

/// The text of a tree has one line for each entry, in their order.
pub proof fn lemma_tree_lines(es: Seq<Entry>)
    requires
        all_words(es),
    ensures
        lines(tree_text(es)) == es.map_values(|e: Entry| tree_line(e)),
        lines(tree_text(es)).len() == es.len(),
    decreases es.len(),
{
    let want = es.map_values(|e: Entry| tree_line(e));
    if es.len() == 0 {
        assert(lines(tree_text(es)) =~= want);
    } else {
        let rest = es.drop_first();
        assert forall|i: int| 0 <= i < rest.len() implies is_word((#[trigger] rest[i]).0)
            && is_word(rest[i].1) by {
            assert(rest[i] == es[i + 1]);
        }
        lemma_tree_lines(rest);
        lemma_tree_line_words(es[0]);
        lemma_lines_cons(tree_line(es[0]), tree_text(rest));
        assert(seq![tree_line(es[0])] + rest.map_values(|e: Entry| tree_line(e)) =~= want);
    }
}

/// The lines of index entries name the blobs of the entries.
proof fn lemma_entry_links_of_tree_lines(es: Seq<Entry>)
    requires
        all_words(es),
    ensures
        entry_links(es.map_values(|e: Entry| tree_line(e))) == es.map_values(|e: Entry| e.1),
    decreases es.len(),
{
    let ls = es.map_values(|e: Entry| tree_line(e));
    let want = es.map_values(|e: Entry| e.1);
    if es.len() == 0 {
        assert(entry_links(ls) =~= want);
    } else {
        let front = es.drop_last();
        assert forall|i: int| 0 <= i < front.len() implies is_word((#[trigger] front[i]).0)
            && is_word(front[i].1) by {
            assert(front[i] == es[i]);
        }
        lemma_entry_links_of_tree_lines(front);
        assert(ls.drop_last() =~= front.map_values(|e: Entry| tree_line(e)));
        assert(ls.last() == tree_line(es.last()));
        lemma_tree_line_words(es.last());
        assert(entry_link(ls.last()) == Some(es.last().1));
        assert(front.map_values(|e: Entry| e.1) + seq![es.last().1] =~= want);
    }
}

/// The tree of an index refers to the blob of every entry, in their order.
pub proof fn lemma_tree_links(es: Seq<Entry>)
    requires
        all_words(es),
    ensures
        !is_commit(tree_text(es)),
        object_links(tree_text(es)) == es.map_values(|e: Entry| e.1),
{
    reveal_strlit("author ");
    lemma_tree_lines(es);
    lemma_entry_links_of_tree_lines(es);
    let ls = lines(tree_text(es));
    let header = header_lines(ls);
    lemma_header_len_bound(ls);
    assert forall|j: int| 0 <= j < header.len() implies !ascii("author "@).is_prefix_of(
        #[trigger] header[j],
    ) by {
        assert(header[j] == tree_line(es[j]));
        lemma_tree_line_words(es[j]);
        if ascii("author "@).is_prefix_of(header[j]) {
            assert(header[j][0] == ascii("author "@)[0]);
        }
    }
    lemma_first_with_prefix(header, ascii("author "@), header.len() as int);
}

/// A header is no longer than the lines that it is taken from.
pub proof fn lemma_header_len_bound(ls: Seq<Seq<u8>>)
    ensures
        header_len(ls) <= ls.len(),
    decreases ls.len(),
{
    if ls.len() == 0 || ls[0].len() == 0 {
    } else {
        lemma_header_len_bound(ls.drop_first());
    }
}

/// The header lines of a commit's text: the tree, the parent where there is
/// one, and the author.
pub open spec fn commit_header(author: Seq<u8>, tree: Seq<u8>, parent: Option<Seq<u8>>) -> Seq<
    Seq<u8>,
> {
    seq![ascii("tree "@) + tree] + (match parent {
        Some(p) => seq![ascii("parent "@) + p],
        None => Seq::empty(),
    }) + seq![ascii("author "@) + author]
}

/// The lines of a commit's text are its header, an empty line, and the
/// lines of the message.
pub proof fn lemma_commit_lines(
    message: Seq<u8>,
    author: Seq<u8>,
    tree: Seq<u8>,
    parent: Option<Seq<u8>>,
)
    requires
        !tree.contains(NEWLINE),
        !author.contains(NEWLINE),
        parent matches Some(p) ==> !p.contains(NEWLINE),
    ensures
        lines(commit_text(message, author, tree, parent)) == commit_header(author, tree, parent)
            + seq![Seq::<u8>::empty()] + lines(message + seq![NEWLINE]),
        header_lines(lines(commit_text(message, author, tree, parent))) == commit_header(
            author,
            tree,
            parent,
        ),
        body_lines(lines(commit_text(message, author, tree, parent))) == lines(
            message + seq![NEWLINE],
        ),
{
    reveal_strlit("tree ");
    reveal_strlit("parent ");
    reveal_strlit("author ");
    let text = commit_text(message, author, tree, parent);
    let tree_l = ascii("tree "@) + tree;
    let author_l = ascii("author "@) + author;
    let empty = Seq::<u8>::empty();
    let body = message + seq![NEWLINE];
    let after_author = empty + seq![NEWLINE] + body;
    let from_author = author_l + seq![NEWLINE] + after_author;
    assert(!tree_l.contains(NEWLINE)) by {
        if tree_l.contains(NEWLINE) {
            let j = choose|j: int| 0 <= j < tree_l.len() && tree_l[j] == NEWLINE;
            if j >= 5 {
                assert(tree_l[j] == tree[j - 5]);
                assert(tree.contains(tree[j - 5]));
            }
        }
    }
    assert(!author_l.contains(NEWLINE)) by {
        if author_l.contains(NEWLINE) {
            let j = choose|j: int| 0 <= j < author_l.len() && author_l[j] == NEWLINE;
            if j >= 7 {
                assert(author_l[j] == author[j - 7]);
                assert(author.contains(author[j - 7]));
            }
        }
    }
    lemma_lines_cons(empty, body);
    lemma_lines_cons(author_l, after_author);
    assert(lines(from_author) =~= seq![author_l, empty] + lines(body));
    let header = commit_header(author, tree, parent);
    match parent {
        Some(p) => {
            let parent_l = ascii("parent "@) + p;
            assert(!parent_l.contains(NEWLINE)) by {
                if parent_l.contains(NEWLINE) {
                    let j = choose|j: int| 0 <= j < parent_l.len() && parent_l[j] == NEWLINE;
                    if j >= 7 {
                        assert(parent_l[j] == p[j - 7]);
                        assert(p.contains(p[j - 7]));
                    }
                }
            }
            let from_parent = parent_l + seq![NEWLINE] + from_author;
            lemma_lines_cons(parent_l, from_author);
            lemma_lines_cons(tree_l, from_parent);
            assert(text =~= tree_l + seq![NEWLINE] + from_parent);
            assert(header =~= seq![tree_l, parent_l, author_l]);
            assert(lines(text) =~= header + seq![empty] + lines(body));
        },
        None => {
            lemma_lines_cons(tree_l, from_author);
            assert(text =~= tree_l + seq![NEWLINE] + from_author);
            assert(header =~= seq![tree_l, author_l]);
            assert(lines(text) =~= header + seq![empty] + lines(body));
        },
    }
    let ls = lines(text);
    let n = header.len() as int;
    assert forall|j: int| 0 <= j < n implies (#[trigger] ls[j]).len() != 0 by {
        assert(ls[j] == header[j]);
    }
    assert(ls[n] == empty);
    lemma_header_len(ls, n);
    assert(header_lines(ls) =~= header);
    assert(body_lines(ls) =~= lines(body));
}

/// What a commit is built from is what is read out of its text: the tree,
/// the parent, the author, and the objects that it refers to.
pub proof fn lemma_commit_fields(
    message: Seq<u8>,
    author: Seq<u8>,
    tree: Seq<u8>,
    parent: Option<Seq<u8>>,
)
    requires
        is_word(tree),
        !author.contains(NEWLINE),
        parent matches Some(p) ==> is_word(p),
    ensures
        is_commit(commit_text(message, author, tree, parent)),
        tree_of_commit(commit_text(message, author, tree, parent)) == Some(tree),
        parent_of_commit(commit_text(message, author, tree, parent)) == parent,
        author_of(commit_text(message, author, tree, parent)) == author,
        object_links(commit_text(message, author, tree, parent)) == seq![tree] + (match parent {
            Some(p) => seq![p],
            None => Seq::empty(),
        }),
{
    reveal_strlit("tree ");
    reveal_strlit("tree");
    reveal_strlit("parent ");
    reveal_strlit("parent");
    reveal_strlit("author ");
    lemma_word_has_no_newline(tree);
    if parent is Some {
        lemma_word_has_no_newline(parent->0);
    }
    lemma_commit_lines(message, author, tree, parent);
    let text = commit_text(message, author, tree, parent);
    let header = commit_header(author, tree, parent);
    let tree_l = ascii("tree "@) + tree;
    let author_l = ascii("author "@) + author;
    let tree_p = ascii("tree "@);
    let parent_p = ascii("parent "@);
    let author_p = ascii("author "@);
    assert(tree_p.is_prefix_of(tree_l)) by {
        assert(tree_l.subrange(0, 5) =~= tree_p);
    }
    assert(author_p.is_prefix_of(author_l)) by {
        assert(author_l.subrange(0, 7) =~= author_p);
    }
    assert(!parent_p.is_prefix_of(tree_l) && !author_p.is_prefix_of(tree_l)) by {
        if parent_p.is_prefix_of(tree_l) {
            assert(tree_l[0] == parent_p[0]);
        }
        if author_p.is_prefix_of(tree_l) {
            assert(tree_l[0] == author_p[0]);
        }
    }
    assert(!parent_p.is_prefix_of(author_l)) by {
        if parent_p.is_prefix_of(author_l) {
            assert(author_l[0] == parent_p[0]);
        }
    }
    assert(tree_l =~= ascii("tree"@) + seq![SPACE] + tree);
    assert(is_word(ascii("tree"@)));
    lemma_tokens_pair(ascii("tree"@), tree);
    assert(header[0] == tree_l);
    lemma_first_with_prefix(header, tree_p, 0);
    assert(author_l.skip(7) =~= author);
    let at_tree = header.take(1);
    let f = |line: Seq<u8>| parent_link(line);
    assert(header.take(0).filter_map(f) =~= Seq::<Seq<u8>>::empty());
    header.lemma_filter_map_take_succ(f, 0);
    match parent {
        Some(p) => {
            let parent_l = parent_p + p;
            assert(parent_p.is_prefix_of(parent_l)) by {
                assert(parent_l.subrange(0, 7) =~= parent_p);
            }
            assert(!author_p.is_prefix_of(parent_l)) by {
                if author_p.is_prefix_of(parent_l) {
                    assert(parent_l[0] == author_p[0]);
                }
            }
            assert(parent_l =~= ascii("parent"@) + seq![SPACE] + p);
            assert(is_word(ascii("parent"@)));
            lemma_tokens_pair(ascii("parent"@), p);
            assert(header =~= seq![tree_l, parent_l, author_l]);
            lemma_first_with_prefix(header, parent_p, 1);
            lemma_first_with_prefix(header, author_p, 2);
            header.lemma_filter_map_take_succ(f, 1);
            header.lemma_filter_map_take_succ(f, 2);
            assert(header.take(3) =~= header);
            assert(parent_links(header) =~= seq![p]);
        },
        None => {
            assert(header =~= seq![tree_l, author_l]);
            lemma_first_with_prefix(header, parent_p, 2);
            lemma_first_with_prefix(header, author_p, 1);
            header.lemma_filter_map_take_succ(f, 1);
            assert(header.take(2) =~= header);
            assert(parent_links(header) =~= Seq::<Seq<u8>>::empty());
        },
    }
}

/// The lines joined with a line feed, taken from the front.
proof fn lemma_join_lines_front(first: Seq<u8>, rest: Seq<Seq<u8>>)
    ensures
        join_lines(seq![first] + rest) == if rest.len() == 0 {
            first
        } else {
            first + seq![NEWLINE] + join_lines(rest)
        },
    decreases rest.len(),
{
    let all = seq![first] + rest;
    if rest.len() == 0 {
        assert(all =~= seq![first]);
    } else if rest.len() == 1 {
        assert(all.drop_last() =~= seq![first]);
        assert(join_lines(all.drop_last()) == first);
        assert(all.last() == rest[0]);
    } else {
        lemma_join_lines_front(first, rest.drop_last());
        assert(all.drop_last() =~= seq![first] + rest.drop_last());
        assert(all.last() == rest.last());
        assert(first + seq![NEWLINE] + join_lines(rest.drop_last()) + seq![NEWLINE] + rest.last()
            =~= first + seq![NEWLINE] + (join_lines(rest.drop_last()) + seq![NEWLINE]
            + rest.last()));
    }
}

/// A text that a line feed ends is made of its lines again.
pub proof fn lemma_join_lines_of_lines(text: Seq<u8>)
    ensures
        join_lines(lines(text + seq![NEWLINE])) == text,
        lines(text + seq![NEWLINE]).len() > 0,
    decreases text.len(),
{
    let s = text + seq![NEWLINE];
    let n = run_len(s, Delim::Byte(NEWLINE)) as int;
    lemma_run_len(s, Delim::Byte(NEWLINE));
    if n >= s.len() {
        assert(s[s.len() - 1] == NEWLINE);
        assert(false);
    } else if n == text.len() {
        assert(s.take(n) =~= text);
        assert(s.skip(n + 1) =~= Seq::<u8>::empty());
        assert(lines(s.skip(n + 1)) =~= Seq::<Seq<u8>>::empty());
        assert(lines(s) == seq![s.take(n)] + lines(s.skip(n + 1)));
        assert(lines(s) =~= seq![text]);
    } else {
        let first = s.take(n);
        let rest = text.skip(n + 1);
        assert(s.skip(n + 1) =~= rest + seq![NEWLINE]);
        lemma_join_lines_of_lines(rest);
        lemma_join_lines_front(first, lines(rest + seq![NEWLINE]));
        assert(first + seq![NEWLINE] + rest =~= text);
    }
}

/// The message that a commit is built with is the message read out of it.
pub proof fn lemma_commit_message(
    message: Seq<u8>,
    author: Seq<u8>,
    tree: Seq<u8>,
    parent: Option<Seq<u8>>,
)
    requires
        !tree.contains(NEWLINE),
        !author.contains(NEWLINE),
        parent matches Some(p) ==> !p.contains(NEWLINE),
    ensures
        message_of(commit_text(message, author, tree, parent)) == message,
{
    lemma_commit_lines(message, author, tree, parent);
    lemma_join_lines_of_lines(message);
}

} // verus!
