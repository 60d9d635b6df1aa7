//! From byte offsets to line numbers.

use crate::scan::NEWLINE;
use vstd::prelude::*;
use vstd::string::StringSliceAdditionalSpecFns;

verus! {

/// The offsets at which the lines of a text begin: `0`, and the offset behind
/// every line feed, in ascending order.
pub open spec fn line_starts(bytes: Seq<u8>) -> Seq<int>
    decreases bytes.len(),
{
    if bytes.len() == 0 {
        seq![0]
    } else {
        let before = line_starts(bytes.drop_last());
        if bytes.last() == NEWLINE {
            before.push(bytes.len() as int)
        } else {
            before
        }
    }
}

/// The number of entries of `starts` that are less than `offset`.
pub open spec fn count_below(starts: Seq<int>, offset: int) -> int
    decreases starts.len(),
{
    if starts.len() == 0 {
        0
    } else {
        count_below(starts.drop_last(), offset) + if starts.last() < offset {
            1int
        } else {
            0int
        }
    }
}

/// The number of the line, counted from 1, to which `offset` belongs: one
/// more than the index of the entry that equals `offset` where there is one,
/// and otherwise the number of entries less than `offset`.
pub open spec fn line_number(starts: Seq<int>, offset: int) -> int {
    if starts.contains(offset) {
        starts.index_of(offset) + 1
    } else {
        count_below(starts, offset)
    }
}

/// True when each entry is less than the next.
pub open spec fn ascending(starts: Seq<int>) -> bool {
    forall|i: int, j: int| 0 <= i < j < starts.len() ==> starts[i] < starts[j]
}

/// The line starts of a text begin with `0`, ascend, and lie in the text.
pub proof fn lemma_line_starts(bytes: Seq<u8>)
    ensures
        line_starts(bytes).len() > 0,
        line_starts(bytes)[0] == 0,
        ascending(line_starts(bytes)),
        forall|i: int|
            0 <= i < line_starts(bytes).len() ==> 0 <= #[trigger] line_starts(bytes)[i]
                <= bytes.len(),
    decreases bytes.len(),
{
    if bytes.len() > 0 {
        lemma_line_starts(bytes.drop_last());
    }
}

/// In an ascending sequence that splits at `k` into the entries less than
/// `offset` and the others, `k` entries are less than `offset`.
pub proof fn lemma_count_below(starts: Seq<int>, offset: int, k: int)
    requires
        0 <= k <= starts.len(),
        forall|i: int| 0 <= i < k ==> starts[i] < offset,
        forall|i: int| k <= i < starts.len() ==> starts[i] >= offset,
    ensures
        count_below(starts, offset) == k,
    decreases starts.len(),
{
    if starts.len() > 0 {
        let init = starts.drop_last();
        if k == starts.len() {
            lemma_count_below(init, offset, k - 1);
        } else {
            lemma_count_below(init, offset, k);
        }
    }
}

/// In an ascending sequence the line of `offset` is the number of entries
/// that are not greater than `offset`.
pub proof fn lemma_line_number(starts: Seq<int>, offset: int, line: int)
    requires
        ascending(starts),
        0 <= line <= starts.len(),
        forall|i: int| 0 <= i < line ==> starts[i] <= offset,
        forall|i: int| line <= i < starts.len() ==> starts[i] > offset,
    ensures
        line_number(starts, offset) == line,
{
    if starts.contains(offset) {
        let at = starts.index_of(offset);
        assert(at == line - 1) by {
            if at >= line {
                assert(starts[at] > offset);
            }
            if at < line - 1 {
                assert(starts[at] < starts[line - 1]);
            }
        }
    } else {
        assert forall|i: int| 0 <= i < line implies starts[i] < offset by {
            if starts[i] == offset {
                assert(starts.contains(offset));
            }
        }
        lemma_count_below(starts, offset, line);
    }
}

/// The number of line feeds in a text.
pub open spec fn line_feeds(bytes: Seq<u8>) -> int
    decreases bytes.len(),
{
    if bytes.len() == 0 {
        0
    } else {
        line_feeds(bytes.drop_last()) + if bytes.last() == NEWLINE {
            1int
        } else {
            0int
        }
    }
}

/// A text has one line start more than it has line feeds.
proof fn lemma_line_starts_count(bytes: Seq<u8>)
    ensures
        line_starts(bytes).len() == 1 + line_feeds(bytes),
    decreases bytes.len(),
{
    if bytes.len() > 0 {
        lemma_line_starts_count(bytes.drop_last());
    }
}

/// The line starts of the first `k` bytes begin the line starts of the first
/// `n`, and those that follow are greater than `k`.
proof fn lemma_line_starts_grow(bytes: Seq<u8>, k: int, n: int)
    requires
        0 <= k <= n <= bytes.len(),
    ensures
        line_starts(bytes.take(k)).len() <= line_starts(bytes.take(n)).len(),
        forall|i: int|
            0 <= i < line_starts(bytes.take(k)).len() ==> line_starts(bytes.take(n))[i]
                == line_starts(bytes.take(k))[i],
        forall|i: int|
            line_starts(bytes.take(k)).len() <= i < line_starts(bytes.take(n)).len()
                ==> line_starts(bytes.take(n))[i] > k,
    decreases n - k,
{
    if k < n {
        lemma_line_starts_grow(bytes, k, n - 1);
        assert(bytes.take(n).drop_last() =~= bytes.take(n - 1));
    }
}

/// The line of an offset is one more than the number of line feeds before
/// it.
pub proof fn lemma_line_number_counts_line_feeds(bytes: Seq<u8>, offset: int)
    requires
        0 <= offset <= bytes.len(),
    ensures
        line_number(line_starts(bytes), offset) == 1 + line_feeds(bytes.take(offset)),
{
    let starts = line_starts(bytes);
    let before = line_starts(bytes.take(offset));
    assert(bytes.take(bytes.len() as int) =~= bytes);
    lemma_line_starts(bytes);
    lemma_line_starts(bytes.take(offset));
    lemma_line_starts_count(bytes.take(offset));
    lemma_line_starts_grow(bytes, offset, bytes.len() as int);
    assert forall|i: int| 0 <= i < before.len() implies starts[i] <= offset by {
        assert(starts[i] == before[i]);
    }
    lemma_line_number(starts, offset, before.len() as int);
}

/// The line starts of one text, for looking up line numbers.
pub struct LineMap {
    starts: Vec<usize>,
}

impl View for LineMap {
    type V = Seq<int>;

    closed spec fn view(&self) -> Seq<int> {
        self.starts@.map_values(|start: usize| start as int)
    }
}

impl LineMap {
    #[verifier::type_invariant]
    spec fn well_formed(self) -> bool {
        self@.len() > 0 && self@[0] == 0 && ascending(self@)
    }

    /// Collects the line starts of `content`.
    pub fn new(content: &str) -> (map: LineMap)
        ensures
            map@ == line_starts(content.spec_bytes()),
    {
        let bytes = content.as_bytes();
        let n = bytes.len();
        let mut starts: Vec<usize> = Vec::new();
        starts.push(0);
        let mut i: usize = 0;
        assert(bytes@.take(0) =~= Seq::<u8>::empty());
        while i < n
            invariant
                n == bytes@.len(),
                i <= n,
                starts@.map_values(|start: usize| start as int) == line_starts(
                    bytes@.take(i as int),
                ),
            decreases n - i,
        {
            let ghost before = starts@.map_values(|start: usize| start as int);
            assert(bytes@.take(i + 1).drop_last() =~= bytes@.take(i as int));
            if bytes[i] == NEWLINE {
                starts.push(i + 1);
                assert(starts@.map_values(|start: usize| start as int) =~= before.push(i + 1));
            }
            i += 1;
        }
        proof {
            assert(bytes@.take(n as int) =~= bytes@);
            lemma_line_starts(bytes@);
        }
        LineMap { starts }
    }

    /// The number of the line, counted from 1, to which the byte at `offset`
    /// belongs: the line that begins last at or before `offset`.
    pub fn line_of(&self, offset: usize) -> (line: usize)
        ensures
            line == line_number(self@, offset as int),
            1 <= line <= self@.len(),
            self@[line - 1] <= offset,
            line < self@.len() ==> offset < self@[line as int],
    {
        proof {
            use_type_invariant(self);
        }
        let mut low: usize = 1;
        let mut high: usize = self.starts.len();
        while low < high
            invariant
                self@ == self.starts@.map_values(|start: usize| start as int),
                ascending(self@),
                self@[0] == 0,
                1 <= low <= high <= self.starts@.len(),
                forall|i: int| 0 <= i < low ==> self@[i] <= offset,
                forall|i: int| high <= i < self@.len() ==> self@[i] > offset,
            decreases high - low,
        {
            let mid = low + (high - low) / 2;
            if self.starts[mid] <= offset {
                assert forall|i: int| 0 <= i < mid + 1 implies self@[i] <= offset by {
                    if i < mid {
                        assert(self@[i] < self@[mid as int]);
                    }
                }
                low = mid + 1;
            } else {
                assert forall|i: int| mid <= i < self@.len() implies self@[i] > offset by {
                    if mid < i {
                        assert(self@[mid as int] < self@[i]);
                    }
                }
                high = mid;
            }
        }
        proof {
            lemma_line_number(self@, offset as int, low as int);
        }
        low
    }
}

} // verus!
