//! Column alignment of help text.
//!
//! The rendering layer lists key bindings as `"name: keys"` lines and wants
//! them aligned on the separator: every head is padded on the left to the
//! widest head, every tail on the right to the widest tail. The alignment is
//! computed over characters, splitting each string at its first occurrence
//! of the separator.

use vstd::prelude::*;
use vstd::string::{StrSliceExecFns, StringExecFns};

verus! {

/// Index of the first occurrence of `c` in `s`.
pub open spec fn split_point(s: Seq<char>, c: char) -> int
    decreases s.len(),
{
    if s.len() == 0 {
        0
    } else if s[0] == c {
        0
    } else {
        1 + split_point(s.subrange(1, s.len() as int), c)
    }
}

/// A run of `n` spaces.
pub open spec fn spaces(n: int) -> Seq<char> {
    Seq::new(n as nat, |i: int| ' ')
}

/// The widest head among the strings: the largest split point.
pub open spec fn max_head(ss: Seq<Seq<char>>, c: char) -> int
    decreases ss.len(),
{
    if ss.len() == 0 {
        0
    } else {
        let rest = max_head(ss.drop_last(), c);
        let last = split_point(ss.last(), c);
        if last > rest {
            last
        } else {
            rest
        }
    }
}

/// The widest tail among the strings: the largest length beyond the split
/// point.
pub open spec fn max_tail(ss: Seq<Seq<char>>, c: char) -> int
    decreases ss.len(),
{
    if ss.len() == 0 {
        0
    } else {
        let rest = max_tail(ss.drop_last(), c);
        let last = ss.last().len() - split_point(ss.last(), c);
        if last > rest {
            last
        } else {
            rest
        }
    }
}

/// One aligned line: the string padded on the left up to the widest head
/// and on the right up to the widest tail.
pub open spec fn aligned_line(s: Seq<char>, c: char, head_width: int, tail_width: int) -> Seq<
    char,
> {
    spaces(head_width - split_point(s, c)) + s + spaces(tail_width - (s.len() - split_point(s, c)))
}

/// The split point is the index of the first occurrence.
proof fn lemma_split_point_is(s: Seq<char>, c: char, i: int)
    requires
        0 <= i < s.len(),
        s[i] == c,
        forall|j: int| 0 <= j < i ==> s[j] != c,
    ensures
        split_point(s, c) == i,
    decreases i,
{
    if i == 0 {
    } else {
        let rest = s.subrange(1, s.len() as int);
        assert(s[0] != c);
        assert(rest[i - 1] == c);
        assert forall|j: int| 0 <= j < i - 1 implies rest[j] != c by {
            assert(rest[j] == s[j + 1]);
        }
        lemma_split_point_is(rest, c, i - 1);
    }
}

/// Aligns each string on its first occurrence of `c`: the heads are padded
/// left to a common width, the tails padded right to a common width, so the
/// occurrences of `c` end up in the same column. Every string must contain
/// `c`.
pub fn align_strings_to_char(strings: &[&str], c: char) -> (r: Vec<String>)
    requires
        strings@.len() >= 1,
        forall|k: int| 0 <= k < strings@.len() ==> (#[trigger] strings@[k])@.contains(c),
    ensures
        r@.len() == strings@.len(),
        forall|k: int|
            0 <= k < strings@.len() ==> (#[trigger] r@[k])@ == aligned_line(
                strings@[k]@,
                c,
                max_head(strings@.map_values(|t: &str| t@), c),
                max_tail(strings@.map_values(|t: &str| t@), c),
            ),
{
    let ghost views = strings@.map_values(|t: &str| t@);
    let n = strings.len();

    // Find each string's split point: the first occurrence of `c`.
    let mut splits: Vec<usize> = Vec::new();
    let mut k: usize = 0;
    while k < n
        invariant
            n == strings@.len(),
            k <= n,
            forall|k2: int| 0 <= k2 < n ==> (#[trigger] strings@[k2])@.contains(c),
            splits@.len() == k,
            forall|k2: int|
                0 <= k2 < k ==> (#[trigger] splits@[k2]) as int == split_point(strings@[k2]@, c)
                    && splits@[k2] < strings@[k2]@.len(),
        decreases n - k,
    {
        let s = strings[k];
        // Establishes that the character count fits a machine word.
        let _ = s.unicode_len();
        let ghost w = choose|w: int| 0 <= w < s@.len() && s@[w] == c;
        let mut i: usize = 0;
        while s.get_char(i) != c
            invariant
                s@.len() <= usize::MAX,
                0 <= w < s@.len(),
                s@[w] == c,
                i <= w,
                forall|j: int| 0 <= j < i ==> s@[j] != c,
            decreases w - i,
        {
            i += 1;
        }
        proof {
            lemma_split_point_is(s@, c, i as int);
        }
        splits.push(i);
        k += 1;
    }

    // The two column widths.
    let mut head_width: usize = 0;
    let mut tail_width: usize = 0;
    let mut k2: usize = 0;
    while k2 < n
        invariant
            n == strings@.len(),
            k2 <= n,
            views == strings@.map_values(|t: &str| t@),
            splits@.len() == n,
            forall|k3: int|
                0 <= k3 < n ==> (#[trigger] splits@[k3]) as int == split_point(strings@[k3]@, c)
                    && splits@[k3] < strings@[k3]@.len(),
            head_width as int == max_head(views.take(k2 as int), c),
            tail_width as int == max_tail(views.take(k2 as int), c),
            forall|k3: int|
                0 <= k3 < k2 ==> (#[trigger] splits@[k3]) <= head_width && strings@[k3]@.len()
                    - splits@[k3] <= tail_width,
        decreases n - k2,
    {
        let s = strings[k2];
        let f = splits[k2];
        let tail = s.unicode_len() - f;
        proof {
            let pre = views.take(k2 as int);
            let post = views.take(k2 as int + 1);
            assert(post.drop_last() =~= pre);
            assert(post.last() == strings@[k2 as int]@);
        }
        if f > head_width {
            head_width = f;
        }
        if tail > tail_width {
            tail_width = tail;
        }
        k2 += 1;
    }
    proof {
        assert(views.take(n as int) =~= views);
    }

    // Build each padded line.
    let mut out: Vec<String> = Vec::new();
    let mut k3: usize = 0;
    while k3 < n
        invariant
            n == strings@.len(),
            k3 <= n,
            views == strings@.map_values(|t: &str| t@),
            splits@.len() == n,
            forall|k4: int|
                0 <= k4 < n ==> (#[trigger] splits@[k4]) as int == split_point(strings@[k4]@, c)
                    && splits@[k4] < strings@[k4]@.len(),
            head_width as int == max_head(views, c),
            tail_width as int == max_tail(views, c),
            forall|k4: int|
                0 <= k4 < n ==> (#[trigger] splits@[k4]) <= head_width && strings@[k4]@.len()
                    - splits@[k4] <= tail_width,
            out@.len() == k3,
            forall|k4: int|
                0 <= k4 < k3 ==> (#[trigger] out@[k4])@ == aligned_line(
                    strings@[k4]@,
                    c,
                    head_width as int,
                    tail_width as int,
                ),
        decreases n - k3,
    {
        let s = strings[k3];
        let f = splits[k3];
        let slen = s.unicode_len();
        let left = head_width - f;
        let right = tail_width - (slen - f);

        let mut line = String::new();
        let mut p: usize = 0;
        while p < left
            invariant
                p <= left,
                line@ == spaces(p as int),
            decreases left - p,
        {
            line.append(" ");
            proof {
                reveal_strlit(" ");
                assert(line@ =~= spaces(p as int + 1));
            }
            p += 1;
        }
        line.append(s);
        let mut q: usize = 0;
        while q < right
            invariant
                q <= right,
                line@ == spaces(left as int) + s@ + spaces(q as int),
            decreases right - q,
        {
            line.append(" ");
            proof {
                reveal_strlit(" ");
                assert(line@ =~= spaces(left as int) + s@ + spaces(q as int + 1));
            }
            q += 1;
        }
        proof {
            assert(line@ =~= aligned_line(s@, c, head_width as int, tail_width as int));
        }
        out.push(line);
        k3 += 1;
    }
    out
}

} // verus!
