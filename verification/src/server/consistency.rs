//! How reads observe concurrent writes.

use vstd::prelude::*;

use crate::text::chars_of;

verus! {

/// How the reads of a query observe concurrent writes.
#[derive(Debug, Clone, Copy, PartialEq, Eq, Structural)]
pub enum ReadConsistency {
    /// Each read sees the latest committed version of its own entity.
    ReadCommitted,
    /// All reads are made as of one commit watermark.
    Snapshot,
    /// As a snapshot, after the node has made sure that it leads the cluster.
    Linearizable,
}

impl Default for ReadConsistency {
    fn default() -> (c: ReadConsistency)
        ensures
            c == ReadConsistency::ReadCommitted,
    {
        ReadConsistency::ReadCommitted
    }
}

/// Whether a character is white space.
pub open spec fn is_white(c: char) -> bool {
    let n = c as u32;
    9 <= n <= 13 || n == 32 || n == 0x85 || n == 0xa0 || n == 0x1680 || 0x2000 <= n <= 0x200a || n
        == 0x2028 || n == 0x2029 || n == 0x202f || n == 0x205f || n == 0x3000
}

/// A text without the white space that it begins with.
pub open spec fn trimmed_start(s: Seq<char>) -> Seq<char>
    decreases s.len(),
{
    if s.len() > 0 && is_white(s[0]) {
        trimmed_start(s.drop_first())
    } else {
        s
    }
}

/// A text without the white space that it ends with.
pub open spec fn trimmed_end(s: Seq<char>) -> Seq<char>
    decreases s.len(),
{
    if s.len() > 0 && is_white(s.last()) {
        trimmed_end(s.drop_last())
    } else {
        s
    }
}

/// Whether a character is a small letter or the capital for it.
pub open spec fn same_letter(c: char, small: char) -> bool {
    c == small || (65 <= c as u32 <= 90 && c as u32 + 32 == small as u32)
}

/// Whether a text is a word in small letters, apart from capitals.
pub open spec fn reads_as(s: Seq<char>, word: Seq<char>) -> bool {
    s.len() == word.len() && forall|i: int| 0 <= i < s.len() ==> same_letter(#[trigger] s[i], word[i])
}

/// The consistency that a text asks for; the default where it asks for none.
pub open spec fn consistency_of(s: Seq<char>) -> ReadConsistency {
    let t = trimmed_end(trimmed_start(s));
    if reads_as(t, "snapshot"@) {
        ReadConsistency::Snapshot
    } else if reads_as(t, "linearizable"@) || reads_as(t, "linear"@) {
        ReadConsistency::Linearizable
    } else {
        ReadConsistency::ReadCommitted
    }
}

fn white(c: char) -> (r: bool)
    ensures
        r == is_white(c),
{
    let n: u32 = c as u32;
    (9 <= n && n <= 13) || n == 32 || n == 0x85 || n == 0xa0 || n == 0x1680 || (0x2000 <= n && n
        <= 0x200a) || n == 0x2028 || n == 0x2029 || n == 0x202f || n == 0x205f || n == 0x3000
}

fn part_reads_as(chars: &Vec<char>, start: usize, end: usize, word: &str) -> (r: bool)
    requires
        start <= end <= chars@.len(),
    ensures
        r == reads_as(chars@.subrange(start as int, end as int), word@),
{
    let ghost part = chars@.subrange(start as int, end as int);
    let w: Vec<char> = chars_of(word);
    if w.len() != end - start {
        return false;
    }
    let mut i: usize = 0;
    while i < w.len()
        invariant
            i <= w@.len() == end - start,
            start <= end <= chars@.len(),
            w@ == word@,
            part == chars@.subrange(start as int, end as int),
            forall|k: int| 0 <= k < i ==> same_letter(#[trigger] part[k], word@[k]),
        decreases w@.len() - i,
    {
        let c: char = chars[start + i];
        let n: u32 = c as u32;
        assert(part[i as int] == c);
        if !(c == w[i] || (65 <= n && n <= 90 && n + 32 == w[i] as u32)) {
            return false;
        }
        i = i + 1;
    }
    true
}

impl ReadConsistency {
    /// The consistency that a text asks for; the default where it asks for none.
    pub fn from_str_or_default(s: &str) -> (c: ReadConsistency)
        ensures
            c == consistency_of(s@),
    {
        let chars: Vec<char> = chars_of(s);
        let mut start: usize = 0;
        assert(s@.skip(0) =~= s@);
        while start < chars.len() && white(chars[start])
            invariant
                start <= chars@.len(),
                chars@ == s@,
                trimmed_start(s@) == trimmed_start(s@.skip(start as int)),
            decreases chars@.len() - start,
        {
            proof {
                assert(s@.skip(start as int)[0] == s@[start as int]);
                assert(s@.skip(start as int).drop_first() =~= s@.skip(start + 1));
            }
            start = start + 1;
        }
        proof {
            if start < chars@.len() {
                assert(s@.skip(start as int)[0] == s@[start as int]);
            }
        }
        let ghost rest = s@.skip(start as int);
        assert(rest == trimmed_start(s@));
        let mut end: usize = chars.len();
        assert(s@.subrange(start as int, end as int) =~= rest);
        while end > start && white(chars[end - 1])
            invariant
                start <= end <= chars@.len(),
                chars@ == s@,
                trimmed_end(rest) == trimmed_end(s@.subrange(start as int, end as int)),
            decreases end,
        {
            proof {
                let part = s@.subrange(start as int, end as int);
                assert(part.last() == s@[end - 1]);
                assert(part.drop_last() =~= s@.subrange(start as int, end - 1));
            }
            end = end - 1;
        }
        proof {
            let part = s@.subrange(start as int, end as int);
            if part.len() > 0 {
                assert(part.last() == s@[end - 1]);
            }
        }
        if part_reads_as(&chars, start, end, "snapshot") {
            ReadConsistency::Snapshot
        } else if part_reads_as(&chars, start, end, "linearizable") || part_reads_as(
            &chars,
            start,
            end,
            "linear",
        ) {
            ReadConsistency::Linearizable
        } else {
            ReadConsistency::ReadCommitted
        }
    }
}

} // verus!
