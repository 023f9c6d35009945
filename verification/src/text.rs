//! Byte strings: the scanning, splitting and formatting that every stored
//! format of the repository is built from.
//!
//! All text is handled as raw bytes. White space is the ASCII set (space,
//! tab, line feed, vertical tab, form feed, carriage return); a line ends at a
//! line feed.

use vstd::prelude::*;
use vstd::slice::slice_subrange;
use vstd::slice::slice_to_vec;

verus! {

/// The byte that ends the header of an object.
pub const NUL: u8 = 0;

/// The line feed.
pub const NEWLINE: u8 = 10;

/// The space.
pub const SPACE: u8 = 32;

/// The bytes of a string all of whose characters are ASCII.
pub open spec fn ascii(s: Seq<char>) -> Seq<u8> {
    Seq::new(s.len(), |i: int| s[i] as u8)
}

/// The bytes of a string literal of ASCII characters.
pub fn literal(s: &'static str) -> (b: &'static [u8])
    requires
        s.is_ascii(),
    ensures
        b@ == ascii(s@),
{
    proof {
        vstd::string::is_ascii_spec_bytes(s);
    }
    s.as_bytes()
}

/// The views of a vector of byte vectors.
pub open spec fn views(v: Seq<Vec<u8>>) -> Seq<Seq<u8>> {
    Seq::new(v.len(), |i: int| v[i]@)
}

/// Whether a byte is white space: a space, a tab, a line feed, a vertical
/// tab, a form feed or a carriage return.
pub open spec fn is_space(b: u8) -> bool {
    b == 32 || (9 <= b && b <= 13)
}

/// Whether `b` is white space.
pub fn is_space_byte(b: u8) -> (r: bool)
    ensures
        r == is_space(b),
{
    b == 32 || (9 <= b && b <= 13)
}

/// What ends a run of bytes.
#[derive(Clone, Copy, Debug)]
pub enum Delim {
    /// The given byte.
    Byte(u8),
    /// Any white space byte.
    Space,
    /// Any byte that is not white space.
    NonSpace,
}

impl Delim {
    /// Whether the byte ends a run.
    pub open spec fn stops(self, b: u8) -> bool {
        match self {
            Delim::Byte(d) => b == d,
            Delim::Space => is_space(b),
            Delim::NonSpace => !is_space(b),
        }
    }

    /// Whether `b` ends a run.
    pub fn stops_at(&self, b: u8) -> (r: bool)
        ensures
            r == self.stops(b),
    {
        match self {
            Delim::Byte(d) => b == *d,
            Delim::Space => is_space_byte(b),
            Delim::NonSpace => !is_space_byte(b),
        }
    }
}

/// The length of the longest prefix of `s` that holds no delimiter.
pub open spec fn run_len(s: Seq<u8>, d: Delim) -> nat
    decreases s.len(),
{
    if s.len() == 0 || d.stops(s[0]) {
        0
    } else {
        1 + run_len(s.drop_first(), d)
    }
}

/// A run ends at the first delimiter, or at the end of the bytes.
pub proof fn lemma_run_len(s: Seq<u8>, d: Delim)
    ensures
        run_len(s, d) <= s.len(),
        forall|j: int| 0 <= j < run_len(s, d) ==> !d.stops(#[trigger] s[j]),
        run_len(s, d) < s.len() ==> d.stops(s[run_len(s, d) as int]),
    decreases s.len(),
{
    if s.len() == 0 || d.stops(s[0]) {
    } else {
        let t = s.drop_first();
        lemma_run_len(t, d);
        assert forall|j: int| 0 <= j < run_len(s, d) implies !d.stops(#[trigger] s[j]) by {
            if j > 0 {
                assert(s[j] == t[j - 1]);
            }
        }
        if run_len(s, d) < s.len() {
            assert(s[run_len(s, d) as int] == t[run_len(t, d) as int]);
        }
    }
}

/// The first position that ends a run is the run's length.
pub proof fn lemma_run_len_is(s: Seq<u8>, d: Delim, n: int)
    requires
        0 <= n <= s.len(),
        forall|j: int| 0 <= j < n ==> !d.stops(#[trigger] s[j]),
        n < s.len() ==> d.stops(s[n]),
    ensures
        run_len(s, d) == n,
    decreases s.len(),
{
    if s.len() == 0 || d.stops(s[0]) {
        if n > 0 {
            assert(!d.stops(s[0]));
        }
    } else {
        let t = s.drop_first();
        assert forall|j: int| 0 <= j < n - 1 implies !d.stops(#[trigger] t[j]) by {
            assert(t[j] == s[j + 1]);
        }
        lemma_run_len_is(t, d, n - 1);
    }
}

/// The end of the run that starts at `start`.
pub fn scan(s: &[u8], start: usize, d: Delim) -> (end: usize)
    requires
        start <= s.len(),
    ensures
        start <= end <= s.len(),
        end == start + run_len(s@.skip(start as int), d),
{
    let mut i: usize = start;
    while i < s.len() && !d.stops_at(s[i])
        invariant
            start <= i <= s.len(),
            forall|j: int| start <= j < i ==> !d.stops(#[trigger] s@[j]),
        decreases s.len() - i,
    {
        i += 1;
    }
    proof {
        let t = s@.skip(start as int);
        assert forall|j: int| 0 <= j < i - start implies !d.stops(#[trigger] t[j]) by {
            assert(t[j] == s@[start + j]);
        }
        lemma_run_len_is(t, d, i - start);
    }
    i
}

/// Whether the two byte strings are the same.
pub fn bytes_eq(a: &[u8], b: &[u8]) -> (r: bool)
    ensures
        r == (a@ == b@),
{
    if a.len() != b.len() {
        return false;
    }
    let mut i: usize = 0;
    while i < a.len()
        invariant
            a.len() == b.len(),
            i <= a.len(),
            forall|j: int| 0 <= j < i ==> a@[j] == b@[j],
        decreases a.len() - i,
    {
        if a[i] != b[i] {
            return false;
        }
        i += 1;
    }
    assert(a@ =~= b@);
    true
}

/// Whether `s` begins with `prefix`.
pub fn starts_with(s: &[u8], prefix: &[u8]) -> (r: bool)
    ensures
        r == prefix@.is_prefix_of(s@),
{
    if prefix.len() > s.len() {
        return false;
    }
    bytes_eq(slice_subrange(s, 0, prefix.len()), prefix)
}

/// The bytes from `start` up to `end`, as a vector of their own.
pub fn copy_range(s: &[u8], start: usize, end: usize) -> (v: Vec<u8>)
    requires
        start <= end <= s.len(),
    ensures
        v@ == s@.subrange(start as int, end as int),
{
    slice_to_vec(slice_subrange(s, start, end))
}

/// The lines of a text. A line feed ends a line; the last line need not have
/// one, and a text that ends in a line feed has no empty line after it.
pub open spec fn lines(s: Seq<u8>) -> Seq<Seq<u8>>
    decreases s.len(),
{
    if s.len() == 0 {
        Seq::empty()
    } else {
        let n = run_len(s, Delim::Byte(NEWLINE)) as int;
        if n >= s.len() {
            seq![s]
        } else {
            seq![s.take(n)] + lines(s.skip(n + 1))
        }
    }
}

/// The lines of `s`.
pub fn split_lines(s: &[u8]) -> (out: Vec<Vec<u8>>)
    ensures
        views(out@) == lines(s@),
{
    let mut out: Vec<Vec<u8>> = Vec::new();
    let mut pos: usize = 0;
    assert(s@.skip(0) =~= s@);
    while pos < s.len()
        invariant
            pos <= s.len(),
            lines(s@) == views(out@) + lines(s@.skip(pos as int)),
        decreases s.len() - pos,
    {
        let end = scan(s, pos, Delim::Byte(NEWLINE));
        let line = copy_range(s, pos, end);
        let ghost rest = s@.skip(pos as int);
        let ghost before = views(out@);
        out.push(line);
        proof {
            assert(views(out@) =~= before.push(line@));
            assert(rest.take(end - pos) =~= line@);
            if end < s.len() {
                assert(rest.skip(end - pos + 1) =~= s@.skip(end + 1));
                assert(lines(rest) == seq![line@] + lines(s@.skip(end + 1)));
                assert(views(out@) + lines(s@.skip(end + 1)) =~= before + lines(rest));
            } else {
                assert(rest =~= line@);
                assert(lines(rest) == seq![line@]);
                assert(s@.skip(s.len() as int).len() == 0);
                assert(views(out@) + lines(s@.skip(s.len() as int)) =~= before + lines(rest));
            }
        }
        pos = if end < s.len() { end + 1 } else { end };
    }
    assert(views(out@) + lines(s@.skip(pos as int)) =~= views(out@));
    out
}

/// The words of a text: its maximal runs of bytes that are not white space.
pub open spec fn tokens(s: Seq<u8>) -> Seq<Seq<u8>>
    decreases s.len(),
{
    let rest = s.skip(run_len(s, Delim::NonSpace) as int);
    let n = run_len(rest, Delim::Space) as int;
    if n == 0 {
        Seq::empty()
    } else {
        proof {
            lemma_run_len(s, Delim::NonSpace);
            lemma_run_len(rest, Delim::Space);
        }
        seq![rest.take(n)] + tokens(rest.skip(n))
    }
}

/// The words of `s`.
pub fn split_tokens(s: &[u8]) -> (out: Vec<Vec<u8>>)
    ensures
        views(out@) == tokens(s@),
{
    let mut out: Vec<Vec<u8>> = Vec::new();
    let mut pos: usize = 0;
    assert(s@.skip(0) =~= s@);
    loop
        invariant
            pos <= s.len(),
            tokens(s@) == views(out@) + tokens(s@.skip(pos as int)),
        ensures
            views(out@) == tokens(s@),
        decreases s.len() - pos,
    {
        let start = scan(s, pos, Delim::NonSpace);
        let end = scan(s, start, Delim::Space);
        let ghost here = s@.skip(pos as int);
        let ghost rest = here.skip(start - pos);
        assert(rest =~= s@.skip(start as int));
        if end == start {
            assert(tokens(here) =~= Seq::<Seq<u8>>::empty());
            assert(views(out@) + tokens(here) =~= views(out@));
            break;
        }
        let word = copy_range(s, start, end);
        let ghost before = views(out@);
        out.push(word);
        proof {
            assert(views(out@) =~= before.push(word@));
            assert(rest.take(end - start) =~= word@);
            assert(rest.skip(end - start) =~= s@.skip(end as int));
            assert(tokens(here) == seq![word@] + tokens(s@.skip(end as int)));
            assert(views(out@) + tokens(s@.skip(end as int)) =~= before + tokens(here));
        }
        pos = end;
    }
    out
}

/// A word: bytes with no white space among them, and at least one.
pub open spec fn is_word(s: Seq<u8>) -> bool {
    s.len() > 0 && forall|i: int| 0 <= i < s.len() ==> !is_space(#[trigger] s[i])
}

/// A line followed by a line feed is the first line of a text.
pub proof fn lemma_lines_cons(line: Seq<u8>, rest: Seq<u8>)
    requires
        !line.contains(NEWLINE),
    ensures
        lines(line + seq![NEWLINE] + rest) == seq![line] + lines(rest),
{
    let s = line + seq![NEWLINE] + rest;
    let n = line.len() as int;
    assert forall|j: int| 0 <= j < n implies !Delim::Byte(NEWLINE).stops(#[trigger] s[j]) by {
        assert(s[j] == line[j]);
        assert(line.contains(line[j]));
    }
    assert(s[n] == NEWLINE);
    lemma_run_len_is(s, Delim::Byte(NEWLINE), n);
    assert(s.take(n) =~= line);
    assert(s.skip(n + 1) =~= rest);
}

/// A word has no line feed in it.
pub proof fn lemma_word_has_no_newline(w: Seq<u8>)
    requires
        is_word(w),
    ensures
        !w.contains(NEWLINE),
{
    if w.contains(NEWLINE) {
        let j = choose|j: int| 0 <= j < w.len() && w[j] == NEWLINE;
        assert(!is_space(w[j]));
    }
}

/// White space before a text adds no word to it.
pub proof fn lemma_tokens_after_space(rest: Seq<u8>)
    ensures
        tokens(seq![SPACE] + rest) == tokens(rest),
{
    let s = seq![SPACE] + rest;
    assert(s.drop_first() =~= rest);
    assert(run_len(s, Delim::NonSpace) == 1 + run_len(rest, Delim::NonSpace));
    lemma_run_len(rest, Delim::NonSpace);
    assert(s.skip(run_len(s, Delim::NonSpace) as int) =~= rest.skip(
        run_len(rest, Delim::NonSpace) as int,
    ));
}

/// A word that a space follows is the first word of a text.
pub proof fn lemma_tokens_cons(w: Seq<u8>, rest: Seq<u8>)
    requires
        is_word(w),
    ensures
        tokens(w + seq![SPACE] + rest) == seq![w] + tokens(rest),
{
    let s = w + seq![SPACE] + rest;
    assert(s[0] == w[0]);
    lemma_run_len_is(s, Delim::NonSpace, 0);
    assert(s.skip(0) =~= s);
    assert forall|j: int| 0 <= j < w.len() implies !Delim::Space.stops(#[trigger] s[j]) by {
        assert(s[j] == w[j]);
    }
    assert(s[w.len() as int] == SPACE);
    lemma_run_len_is(s, Delim::Space, w.len() as int);
    assert(s.take(w.len() as int) =~= w);
    assert(s.skip(w.len() as int) =~= seq![SPACE] + rest);
    lemma_tokens_after_space(rest);
}

/// A word is the one word of itself.
pub proof fn lemma_tokens_single(w: Seq<u8>)
    requires
        is_word(w),
    ensures
        tokens(w) == seq![w],
{
    assert(!is_space(w[0]));
    lemma_run_len_is(w, Delim::NonSpace, 0);
    assert(w.skip(0) =~= w);
    lemma_run_len_is(w, Delim::Space, w.len() as int);
    assert(w.take(w.len() as int) =~= w);
    let e = w.skip(w.len() as int);
    assert(e.len() == 0);
    assert(tokens(e) =~= Seq::<Seq<u8>>::empty());
    assert(tokens(w) =~= seq![w]);
}

/// Two words with a space between them are the two words of the line.
pub proof fn lemma_tokens_pair(a: Seq<u8>, b: Seq<u8>)
    requires
        is_word(a),
        is_word(b),
    ensures
        tokens(a + seq![SPACE] + b) == seq![a, b],
{
    lemma_tokens_cons(a, b);
    lemma_tokens_single(b);
    assert(seq![a] + seq![b] =~= seq![a, b]);
}

/// A text without the white space at its two ends.
pub open spec fn trim(s: Seq<u8>) -> Seq<u8> {
    let start = run_len(s, Delim::NonSpace) as int;
    let back = run_len(s.reverse(), Delim::NonSpace) as int;
    if start + back >= s.len() {
        Seq::empty()
    } else {
        s.subrange(start, s.len() - back)
    }
}

/// A word has no white space to lose.
pub proof fn lemma_trim_word(w: Seq<u8>)
    requires
        is_word(w),
    ensures
        trim(w) == w,
{
    assert(!is_space(w[0]));
    lemma_run_len_is(w, Delim::NonSpace, 0);
    let r = w.reverse();
    assert(r[0] == w[w.len() - 1]);
    lemma_run_len_is(r, Delim::NonSpace, 0);
    assert(w.subrange(0, w.len() as int) =~= w);
}

/// `s` without the white space at its two ends.
pub fn trimmed(s: &[u8]) -> (v: Vec<u8>)
    ensures
        v@ == trim(s@),
{
    let start = scan(s, 0, Delim::NonSpace);
    assert(s@.skip(0) =~= s@);
    let mut end: usize = s.len();
    while end > 0 && is_space_byte(s[end - 1])
        invariant
            end <= s.len(),
            forall|j: int| end <= j < s.len() ==> is_space(#[trigger] s@[j]),
        decreases end,
    {
        end -= 1;
    }
    proof {
        let r = s@.reverse();
        let n = s.len() - end;
        assert forall|j: int| 0 <= j < n implies !Delim::NonSpace.stops(#[trigger] r[j]) by {
            assert(r[j] == s@[s.len() - 1 - j]);
        }
        if n < r.len() {
            assert(r[n] == s@[end - 1]);
        }
        lemma_run_len_is(r, Delim::NonSpace, n);
        lemma_run_len(s@, Delim::NonSpace);
    }
    if start >= end {
        proof {
            if start < s.len() {
                assert(!is_space(s@[start as int]));
            }
        }
        Vec::new()
    } else {
        copy_range(s, start, end)
    }
}

/// The decimal digits of a number, without leading zeros.
pub open spec fn decimal(n: nat) -> Seq<u8>
    decreases n,
{
    if n < 10 {
        seq![(48 + n) as u8]
    } else {
        decimal(n / 10).push((48 + n % 10) as u8)
    }
}

/// Every byte of a decimal number is a digit.
pub proof fn lemma_decimal_digits(n: nat)
    ensures
        decimal(n).len() >= 1,
        forall|i: int| 0 <= i < decimal(n).len() ==> 48 <= #[trigger] decimal(n)[i] <= 57,
    decreases n,
{
    if n >= 10 {
        lemma_decimal_digits(n / 10);
    }
}

/// The decimal digits of `n`.
pub fn format_decimal(n: usize) -> (v: Vec<u8>)
    ensures
        v@ == decimal(n as nat),
{
    let mut digits: Vec<u8> = Vec::new();
    let mut m: usize = n;
    // The digits of `n`, lowest first.
    while m >= 10
        invariant
            decimal(n as nat) == decimal(m as nat) + digits@.reverse(),
        decreases m,
    {
        let d: u8 = (48 + m % 10) as u8;
        let ghost before = digits@;
        digits.push(d);
        proof {
            assert(digits@.reverse() =~= seq![d] + before.reverse());
            assert(decimal(m as nat) == decimal((m / 10) as nat).push(d));
            assert(decimal((m / 10) as nat).push(d) + before.reverse() =~= decimal(
                (m / 10) as nat,
            ) + digits@.reverse());
        }
        m = m / 10;
    }
    let mut v: Vec<u8> = Vec::new();
    v.push((48 + m) as u8);
    let mut i: usize = digits.len();
    while i > 0
        invariant
            i <= digits.len(),
            v@ == decimal(m as nat) + digits@.reverse().take(digits.len() - i),
        decreases i,
    {
        i -= 1;
        let ghost before = v@;
        v.push(digits[i]);
        proof {
            let r = digits@.reverse();
            assert(r[digits.len() - 1 - i] == digits@[i as int]);
            assert(r.take(digits.len() - i) =~= r.take(digits.len() - 1 - i).push(digits@[i as int]));
        }
    }
    assert(digits@.reverse().take(digits.len() as int) =~= digits@.reverse());
    v
}

} // verus!
