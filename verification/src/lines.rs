//! The mathematical model of delimiter scanning and line splitting: where
//! the first delimiter at or after a position sits, where the line that
//! starts there ends, and the sequence of lines a buffer produces.

use vstd::prelude::*;

verus! {

/// Some byte of `s` at or after `from` equals `d`.
pub open spec fn has_delim(s: Seq<u8>, from: int, d: u8) -> bool {
    exists|i: int| from <= i < s.len() && s[i] == d
}

/// The index of the first occurrence of `d` at or after `from`; the end
/// of `s` when there is none.
pub open spec fn delim_pos(s: Seq<u8>, from: int, d: u8) -> int
    decreases s.len() - from,
{
    if from < 0 || from >= s.len() {
        s.len() as int
    } else if s[from] == d {
        from
    } else {
        delim_pos(s, from + 1, d)
    }
}

/// One past the line starting at `from`: one past the first delimiter at
/// or after `from`, or the end of `s` when the source ends without one.
pub open spec fn line_end(s: Seq<u8>, from: int, d: u8) -> int {
    if has_delim(s, from, d) {
        delim_pos(s, from, d) + 1
    } else {
        s.len() as int
    }
}

/// `delim_pos` finds the first occurrence: a delimiter there, none before.
pub proof fn lemma_delim_pos(s: Seq<u8>, from: int, d: u8)
    requires
        0 <= from <= s.len(),
        has_delim(s, from, d),
    ensures
        from <= delim_pos(s, from, d) < s.len(),
        s[delim_pos(s, from, d)] == d,
        forall|j: int| from <= j < delim_pos(s, from, d) ==> s[j] != d,
    decreases s.len() - from,
{
    let i = choose|i: int| from <= i < s.len() && s[i] == d;
    if s[from] != d {
        assert(from + 1 <= i);
        lemma_delim_pos(s, from + 1, d);
    }
}

/// Bounds of `line_end`: a line is never empty, and ends by the end of
/// the source; a delimiter stands right before its end exactly when one
/// was found, and never earlier in the line.
pub proof fn lemma_line_end(s: Seq<u8>, from: int, d: u8)
    requires
        0 <= from <= s.len(),
    ensures
        from <= line_end(s, from, d) <= s.len(),
        from < s.len() ==> from < line_end(s, from, d),
        has_delim(s, from, d) ==> s[line_end(s, from, d) - 1] == d,
        forall|j: int| from <= j < line_end(s, from, d) - 1 ==> s[j] != d,
        !has_delim(s, from, d) ==> forall|j: int| from <= j < s.len() ==> s[j] != d,
{
    if has_delim(s, from, d) {
        lemma_delim_pos(s, from, d);
    }
}

/// The lines of `s` from `from` on, at most `k` of them, each ending at
/// its delimiter except possibly the last when the source ends without
/// one. Fewer than `k` lines come back exactly when `s` is exhausted.
pub open spec fn lines_from(s: Seq<u8>, from: int, k: nat, d: u8) -> Seq<Seq<u8>>
    decreases k,
{
    if k == 0 || from < 0 || from >= s.len() {
        Seq::empty()
    } else {
        seq![s.subrange(from, line_end(s, from, d))] + lines_from(
            s,
            line_end(s, from, d),
            (k - 1) as nat,
            d,
        )
    }
}

/// The cursor position after producing `lines_from(s, from, k, d)`.
pub open spec fn lines_cursor(s: Seq<u8>, from: int, k: nat, d: u8) -> int
    decreases k,
{
    if k == 0 || from < 0 || from >= s.len() {
        from
    } else {
        lines_cursor(s, line_end(s, from, d), (k - 1) as nat, d)
    }
}

/// All the byte sequences of `ls`, joined in order.
pub open spec fn concat_all(ls: Seq<Seq<u8>>) -> Seq<u8>
    decreases ls.len(),
{
    if ls.len() == 0 {
        Seq::empty()
    } else {
        ls[0] + concat_all(ls.drop_first())
    }
}

/// Line production preserves order and omits no byte: the produced lines,
/// joined back together, are exactly the bytes between the starting and
/// the final cursor; and fewer than `k` lines come back only when the
/// final cursor reached the end of the source.
pub proof fn lemma_lines_cover(s: Seq<u8>, from: int, k: nat, d: u8)
    requires
        0 <= from <= s.len(),
    ensures
        from <= lines_cursor(s, from, k, d) <= s.len(),
        concat_all(lines_from(s, from, k, d)) == s.subrange(from, lines_cursor(s, from, k, d)),
        lines_from(s, from, k, d).len() < k ==> lines_cursor(s, from, k, d) == s.len(),
        lines_from(s, from, k, d).len() <= k,
    decreases k,
{
    if k == 0 || from >= s.len() {
        assert(concat_all(lines_from(s, from, k, d)) =~= s.subrange(from, from));
    } else {
        let e = line_end(s, from, d);
        lemma_line_end(s, from, d);
        lemma_lines_cover(s, e, (k - 1) as nat, d);
        let first = s.subrange(from, e);
        let rest = lines_from(s, e, (k - 1) as nat, d);
        let whole = lines_from(s, from, k, d);
        assert(whole == seq![first] + rest);
        assert(whole[0] == first);
        assert(whole.drop_first() =~= rest);
        assert(concat_all(whole) == first + concat_all(rest));
        assert(first + s.subrange(e, lines_cursor(s, e, (k - 1) as nat, d)) =~= s.subrange(
            from,
            lines_cursor(s, from, k, d),
        ));
    }
}

} // verus!
