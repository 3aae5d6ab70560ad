use vstd::prelude::*;
use vstd::string::StrSliceExecFns;

verus! {

/// The line terminator.
pub const NEWLINE: u8 = 10;

/// Number of terminator bytes in `s`.
pub open spec fn newline_count(s: Seq<u8>) -> nat
    decreases s.len(),
{
    if s.len() == 0 {
        0
    } else {
        newline_count(s.drop_last()) + if s.last() == NEWLINE { 1nat } else { 0nat }
    }
}

/// Number of lines in `s`: one per terminator, plus a last line that lacks one.
pub open spec fn line_count(s: Seq<u8>) -> nat {
    newline_count(s) + if s.len() > 0 && s.last() != NEWLINE { 1nat } else { 0nat }
}

/// A terminator at `i` that ends a line holding nothing else.
pub open spec fn is_blank_end(s: Seq<u8>, i: int) -> bool {
    s[i] == NEWLINE && (i == 0 || s[i - 1] == NEWLINE)
}

/// Number of blank lines in `s`: lines made of exactly one terminator byte.
pub open spec fn blank_count(s: Seq<u8>) -> nat
    decreases s.len(),
{
    if s.len() == 0 {
        0
    } else {
        blank_count(s.drop_last()) + if is_blank_end(s, s.len() - 1) { 1nat } else { 0nat }
    }
}

/// A pair of counters: all lines, and the blank ones among them.
#[derive(Clone, Copy, Debug, PartialEq, Eq, Structural)]
pub struct CodeInfo {
    pub lines: u64,
    pub blanks: u64,
}

impl CodeInfo {
    /// Blank lines are lines too.
    pub open spec fn wf(self) -> bool {
        self.blanks <= self.lines
    }

    /// Zero lines, zero blanks.
    pub fn new() -> (r: CodeInfo)
        ensures
            r.lines == 0,
            r.blanks == 0,
            r.wf(),
    {
        CodeInfo { lines: 0, blanks: 0 }
    }

    /// Adds the counts of `o` to these.
    pub fn add(&mut self, o: CodeInfo)
        requires
            old(self).lines + o.lines <= u64::MAX,
            old(self).blanks + o.blanks <= u64::MAX,
        ensures
            final(self).lines == old(self).lines + o.lines,
            final(self).blanks == old(self).blanks + o.blanks,
            old(self).wf() && o.wf() ==> final(self).wf(),
    {
        self.lines = self.lines + o.lines;
        self.blanks = self.blanks + o.blanks;
    }
}

proof fn lemma_counts_bounded(s: Seq<u8>)
    ensures
        blank_count(s) <= newline_count(s),
        newline_count(s) <= s.len(),
    decreases s.len(),
{
    if s.len() > 0 {
        lemma_counts_bounded(s.drop_last());
    }
}

/// Counts the lines and blank lines of a file's contents, reading it as a
/// sequence of terminator-ended lines: a read of one byte is a blank line,
/// a read of more bytes a line with content, and the end of the input ends it.
pub fn count_lines(content: &[u8]) -> (r: CodeInfo)
    ensures
        r.lines == line_count(content@),
        r.blanks == blank_count(content@),
        r.wf(),
{
    let n = content.len();
    let mut newlines: u64 = 0;
    let mut blanks: u64 = 0;
    let mut i: usize = 0;
    while i < n
        invariant
            n == content@.len(),
            i <= n,
            newlines == newline_count(content@.subrange(0, i as int)),
            blanks == blank_count(content@.subrange(0, i as int)),
            newlines <= i,
        decreases n - i,
    {
        let ghost pre = content@.subrange(0, i as int);
        let ghost cur = content@.subrange(0, i + 1);
        assert(cur.drop_last() =~= pre);
        proof {
            lemma_counts_bounded(pre);
        }
        if content[i] == NEWLINE {
            newlines = newlines + 1;
            if i == 0 || content[i - 1] == NEWLINE {
                blanks = blanks + 1;
            }
        }
        i = i + 1;
    }
    assert(content@.subrange(0, n as int) =~= content@);
    proof {
        lemma_counts_bounded(content@);
    }
    let mut lines = newlines;
    if n > 0 && content[n - 1] != NEWLINE {
        proof {
            lemma_counts_bounded(content@.drop_last());
        }
        lines = lines + 1;
    }
    CodeInfo { lines, blanks }
}

/// The index of the last '.' in `s`, or -1.
pub open spec fn last_dot(s: Seq<char>) -> int
    decreases s.len(),
{
    if s.len() == 0 {
        -1
    } else if s.last() == '.' {
        s.len() - 1
    } else {
        last_dot(s.drop_last())
    }
}

/// The extension of a file name: what follows its last '.', where that '.'
/// is not the name's first character; none for "..".
pub open spec fn extension_spec(name: Seq<char>) -> Option<Seq<char>> {
    let i = last_dot(name);
    if name == seq!['.', '.'] || i <= 0 {
        None
    } else {
        Some(name.subrange(i + 1, name.len() as int))
    }
}

proof fn lemma_last_dot_prefix(s: Seq<char>, i: int)
    requires
        0 <= i <= s.len(),
        forall|j: int| i <= j < s.len() ==> s[j] != '.',
    ensures
        last_dot(s) == last_dot(s.subrange(0, i)),
    decreases s.len(),
{
    if s.len() > i {
        lemma_last_dot_prefix(s.drop_last(), i);
        assert(s.drop_last().subrange(0, i) =~= s.subrange(0, i));
    } else {
        assert(s.subrange(0, i) =~= s);
    }
}

proof fn lemma_last_dot_range(s: Seq<char>)
    ensures
        -1 <= last_dot(s) < s.len(),
    decreases s.len(),
{
    if s.len() > 0 {
        lemma_last_dot_range(s.drop_last());
    }
}

/// The extension of the file name `name`, as `extension_spec` says.
pub fn extension_of(name: &str) -> (r: Option<String>)
    ensures
        opt_string_view(r) == extension_spec(name@),
{
    let n = name.unicode_len();
    let mut i: usize = n;
    while i > 0
        invariant
            n == name@.len(),
            i <= n,
            forall|j: int| i <= j < n ==> name@[j] != '.',
        ensures
            i <= n,
            forall|j: int| i <= j < n ==> name@[j] != '.',
            i > 0 ==> name@[i - 1] == '.',
        decreases i,
    {
        if name.get_char(i - 1) == '.' {
            break;
        }
        i = i - 1;
    }
    proof {
        lemma_last_dot_range(name@);
        lemma_last_dot_prefix(name@, i as int);
        if i > 0 {
            assert(name@.subrange(0, i as int).drop_last() =~= name@.subrange(0, i - 1));
        } else {
            assert(name@.subrange(0, 0) =~= Seq::<char>::empty());
        }
    }
    if i <= 1 {
        return None;
    }
    if n == 2 && name.get_char(0) == '.' {
        assert(name@ =~= seq!['.', '.']);
        return None;
    }
    assert(name@ != seq!['.', '.']);
    Some(name.substring_char(i, n).to_owned())
}

/// The view of an optional string.
pub open spec fn opt_string_view(o: Option<String>) -> Option<Seq<char>> {
    match o {
        Some(s) => Some(s@),
        None => None,
    }
}

/// The reads of a line reader over `s`: each read runs up to and including
/// the next terminator, or to the end of the input.
pub open spec fn reads_of(s: Seq<u8>) -> Seq<Seq<u8>>
    decreases s.len(),
{
    if s.len() == 0 {
        Seq::empty()
    } else {
        let p = reads_of(s.drop_last());
        if p.len() > 0 && p.last().last() != NEWLINE {
            p.update(p.len() - 1, p.last().push(s.last()))
        } else {
            p.push(seq![s.last()])
        }
    }
}

/// How many of `reads` consist of exactly one terminator byte.
pub open spec fn single_terminator_reads(reads: Seq<Seq<u8>>) -> nat
    decreases reads.len(),
{
    if reads.len() == 0 {
        0
    } else {
        single_terminator_reads(reads.drop_last()) + if reads.last() == seq![NEWLINE] { 1nat } else { 0nat }
    }
}

/// A file's line count is the number of non-empty reads of a line reader over
/// it, and its blank-line count the number of those reads that are exactly one
/// terminator byte.
pub proof fn lemma_counts_per_read(s: Seq<u8>)
    ensures
        line_count(s) == reads_of(s).len(),
        blank_count(s) == single_terminator_reads(reads_of(s)),
        forall|i: int| 0 <= i < reads_of(s).len() ==> (#[trigger] reads_of(s)[i]).len() > 0,
        s.len() > 0 ==> reads_of(s).len() > 0 && reads_of(s).last().last() == s.last(),
        s.len() > 0 ==> (reads_of(s).last() == seq![NEWLINE] <==> is_blank_end(s, s.len() - 1)),
    decreases s.len(),
{
    if s.len() > 0 {
        let d = s.drop_last();
        lemma_counts_per_read(d);
        let p = reads_of(d);
        let r = reads_of(s);
        let b = s.last();
        if d.len() > 0 {
            assert(d.last() == s[s.len() - 2]);
        }
        if p.len() > 0 && p.last().last() != NEWLINE {
            let x = p.last().push(b);
            assert(r == p.update(p.len() - 1, x));
            assert(r.drop_last() =~= p.drop_last());
            assert(x.len() >= 2);
            assert(x != seq![NEWLINE]) by {
                if x == seq![NEWLINE] {
                    assert(x.len() == 1);
                }
            }
            assert(p.last() != seq![NEWLINE]) by {
                if p.last() == seq![NEWLINE] {
                    assert(p.last().last() == NEWLINE);
                }
            }
            assert forall|i: int| 0 <= i < r.len() implies (#[trigger] r[i]).len() > 0 by {
                if i < p.len() - 1 {
                    assert(r[i] == p[i]);
                }
            }
        } else {
            assert(r == p.push(seq![b]));
            assert(r.drop_last() =~= p);
            assert(seq![b] == seq![NEWLINE] <==> b == NEWLINE) by {
                if seq![b] == seq![NEWLINE] {
                    assert(seq![b][0] == seq![NEWLINE][0]);
                }
            }
            assert forall|i: int| 0 <= i < r.len() implies (#[trigger] r[i]).len() > 0 by {
                if i < p.len() {
                    assert(r[i] == p[i]);
                }
            }
        }
    }
}

} // verus!
