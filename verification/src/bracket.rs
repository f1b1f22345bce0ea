//! Bracket nesting over a sequence of instruction characters: depth,
//! balance, and the pairing of each `[` with its `]`.

use vstd::prelude::*;

verus! {

/// What one character contributes to the nesting depth.
pub open spec fn weight(c: char) -> int {
    if c == '[' {
        1
    } else if c == ']' {
        -1
    } else {
        0
    }
}

/// Nesting depth after the first `n` characters of `code`: the number of
/// `[` among them minus the number of `]`.
pub open spec fn depth(code: Seq<char>, n: int) -> int
    recommends
        0 <= n <= code.len(),
    decreases n,
{
    if n <= 0 {
        0
    } else {
        depth(code, n - 1) + weight(code[n - 1])
    }
}

/// No prefix of `code` closes more brackets than it has opened.
pub open spec fn never_negative(code: Seq<char>) -> bool {
    forall|n: int| 0 <= n <= code.len() ==> depth(code, n) >= 0
}

/// `code` is a well-balanced bracket sequence.
pub open spec fn balanced(code: Seq<char>) -> bool {
    never_negative(code) && depth(code, code.len() as int) == 0
}

/// The `[` at `open` and the `]` at `close` belong together: the depth is
/// back at its value before `open` for the first time just after `close`.
pub open spec fn is_pair(code: Seq<char>, open: int, close: int) -> bool {
    &&& 0 <= open < close < code.len()
    &&& code[open] == '['
    &&& code[close] == ']'
    &&& depth(code, close + 1) == depth(code, open)
    &&& forall|k: int| open < k <= close ==> depth(code, k) > depth(code, open)
}

/// A `[` has at most one partner.
pub proof fn lemma_close_unique(code: Seq<char>, open: int, c1: int, c2: int)
    requires
        is_pair(code, open, c1),
        is_pair(code, open, c2),
    ensures
        c1 == c2,
{
    if c1 < c2 {
        assert(depth(code, c1 + 1) > depth(code, open));
    } else if c2 < c1 {
        assert(depth(code, c2 + 1) > depth(code, open));
    }
}

/// A `]` has at most one partner.
pub proof fn lemma_open_unique(code: Seq<char>, o1: int, o2: int, close: int)
    requires
        is_pair(code, o1, close),
        is_pair(code, o2, close),
    ensures
        o1 == o2,
{
    if o1 < o2 {
        assert(depth(code, o2) > depth(code, o1));
    } else if o2 < o1 {
        assert(depth(code, o1) > depth(code, o2));
    }
}

/// Scanning right from an open `[`: if the depth has stayed above the
/// level before `open` up to `k`, and the text ends at or below that
/// level, a partner lies at `k` or beyond.
proof fn lemma_scan_right(code: Seq<char>, open: int, k: int)
    requires
        0 <= open < k <= code.len(),
        code[open] == '[',
        depth(code, code.len() as int) <= depth(code, open),
        forall|m: int| open < m <= k ==> depth(code, m) > depth(code, open),
    ensures
        exists|close: int| is_pair(code, open, close),
    decreases code.len() - k,
{
    assert(depth(code, k) > depth(code, open));
    assert(k < code.len());
    assert(depth(code, k + 1) == depth(code, k) + weight(code[k]));
    if depth(code, k + 1) > depth(code, open) {
        lemma_scan_right(code, open, k + 1);
    } else {
        assert(is_pair(code, open, k));
    }
}

/// Scanning left from a `]`: if the depth has stayed above the level
/// after `close` back to `k`, and no prefix is negative, a partner lies
/// before `k`.
proof fn lemma_scan_left(code: Seq<char>, close: int, k: int)
    requires
        0 <= k <= close < code.len(),
        code[close] == ']',
        depth(code, close + 1) >= 0,
        forall|m: int| k <= m <= close ==> #[trigger] depth(code, m) > depth(code, close + 1),
    ensures
        exists|open: int| is_pair(code, open, close),
    decreases k,
{
    assert(depth(code, k) > depth(code, close + 1));
    assert(depth(code, 0) == 0);
    assert(k > 0);
    assert(depth(code, k) == depth(code, k - 1) + weight(code[k - 1]));
    if depth(code, k - 1) > depth(code, close + 1) {
        lemma_scan_left(code, close, k - 1);
    } else {
        assert(is_pair(code, k - 1, close));
    }
}

/// In a balanced text every `[` has a partner.
pub proof fn lemma_close_exists(code: Seq<char>, open: int)
    requires
        balanced(code),
        0 <= open < code.len(),
        code[open] == '[',
    ensures
        exists|close: int| is_pair(code, open, close),
{
    assert(depth(code, open) >= 0);
    assert(depth(code, open + 1) == depth(code, open) + weight(code[open]));
    lemma_scan_right(code, open, open + 1);
}

/// In a text without a negative prefix every `]` has a partner.
pub proof fn lemma_open_exists(code: Seq<char>, close: int)
    requires
        never_negative(code),
        0 <= close < code.len(),
        code[close] == ']',
    ensures
        exists|open: int| is_pair(code, open, close),
{
    assert(depth(code, close + 1) >= 0);
    assert(depth(code, close + 1) == depth(code, close) + weight(code[close]));
    lemma_scan_left(code, close, close);
}

} // verus!
