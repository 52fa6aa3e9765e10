//! Text utilities for the level format: splitting character sequences at
//! separators, trimming blank lines, and reading unsigned numbers, each with
//! an exact functional specification.

use vstd::prelude::*;
use vstd::string::StrSliceExecFns;

verus! {

/// Index of the first occurrence of `c` in `s`.
pub open spec fn find_char(s: Seq<char>, c: char) -> Option<int>
    decreases s.len(),
{
    if s.len() == 0 {
        None
    } else if s[0] == c {
        Some(0int)
    } else {
        match find_char(s.drop_first(), c) {
            Some(k) => Some(k + 1),
            None => None,
        }
    }
}

/// What `find_char` yields: the first index holding `c`, or `None` exactly
/// when `c` does not occur.
pub proof fn lemma_find_char(s: Seq<char>, c: char)
    ensures
        match find_char(s, c) {
            Some(k) => 0 <= k < s.len() && s[k] == c && (forall|m: int| 0 <= m < k ==> s[m] != c),
            None => forall|m: int| 0 <= m < s.len() ==> s[m] != c,
        },
    decreases s.len(),
{
    if s.len() > 0 && s[0] != c {
        let rest = s.drop_first();
        lemma_find_char(rest, c);
        match find_char(s, c) {
            Some(k) => {
                assert(s[k] == rest[k - 1]);
                assert forall|m: int| 0 <= m < k implies s[m] != c by {
                    if m > 0 {
                        assert(s[m] == rest[m - 1]);
                    }
                }
            },
            None => {
                assert forall|m: int| 0 <= m < s.len() implies s[m] != c by {
                    if m > 0 {
                        assert(s[m] == rest[m - 1]);
                    }
                }
            },
        }
    }
}

/// `find_char` yields exactly the first occurrence.
pub proof fn lemma_find_char_witness(s: Seq<char>, c: char, k: int)
    requires
        0 <= k < s.len(),
        s[k] == c,
        forall|m: int| 0 <= m < k ==> s[m] != c,
    ensures
        find_char(s, c) == Some(k),
    decreases s.len(),
{
    if k > 0 {
        lemma_find_char_witness(s.drop_first(), c, k - 1);
    }
}

/// `find_char` yields `None` when `c` does not occur.
pub proof fn lemma_find_char_none(s: Seq<char>, c: char)
    requires
        forall|m: int| 0 <= m < s.len() ==> s[m] != c,
    ensures
        find_char(s, c) == None::<int>,
    decreases s.len(),
{
    if s.len() > 0 {
        lemma_find_char_none(s.drop_first(), c);
    }
}

/// `s` split at every occurrence of `sep`; the separators themselves do not
/// appear in the pieces. The result always holds at least one piece.
pub open spec fn split_char(s: Seq<char>, sep: char) -> Seq<Seq<char>>
    decreases s.len(),
    via split_char_dec
{
    match find_char(s, sep) {
        None => seq![s],
        Some(i) => seq![s.take(i)] + split_char(s.skip(i + 1), sep),
    }
}

#[via_fn]
proof fn split_char_dec(s: Seq<char>, sep: char) {
    lemma_find_char(s, sep);
}

/// Splitting a text whose first piece `a` holds no separator: the split is
/// `a` followed by the split of what comes after the separator.
pub proof fn lemma_split_char_here(s: Seq<char>, sep: char, start: int, i: int)
    requires
        0 <= start <= i < s.len(),
        forall|m: int| start <= m < i ==> s[m] != sep,
        s[i] == sep,
    ensures
        split_char(s.skip(start), sep) == seq![s.subrange(start, i)] + split_char(
            s.skip(i + 1),
            sep,
        ),
{
    let suf = s.skip(start);
    assert forall|m: int| 0 <= m < i - start implies suf[m] != sep by {
        assert(suf[m] == s[m + start]);
    }
    lemma_find_char_witness(suf, sep, i - start);
    assert(suf.take(i - start) =~= s.subrange(start, i));
    assert(suf.skip(i - start + 1) =~= s.skip(i + 1));
}

/// Splitting a text without separators yields that text as the one piece.
pub proof fn lemma_split_char_rest(s: Seq<char>, sep: char, start: int)
    requires
        0 <= start <= s.len(),
        forall|m: int| start <= m < s.len() ==> s[m] != sep,
    ensures
        split_char(s.skip(start), sep) == seq![s.skip(start)],
{
    let suf = s.skip(start);
    assert forall|m: int| 0 <= m < suf.len() implies suf[m] != sep by {
        assert(suf[m] == s[m + start]);
    }
    lemma_find_char_none(suf, sep);
}

/// Splitting a concatenation at its first separator: when `a` holds no
/// separator, the split of `a + sep + b` is `a` followed by the split of `b`.
pub proof fn lemma_split_char_concat(a: Seq<char>, b: Seq<char>, sep: char)
    requires
        forall|m: int| 0 <= m < a.len() ==> a[m] != sep,
    ensures
        split_char(a + seq![sep] + b, sep) == seq![a] + split_char(b, sep),
{
    let s = a + seq![sep] + b;
    assert forall|m: int| 0 <= m < a.len() implies s[m] != sep by {
        assert(s[m] == a[m]);
    }
    assert(s[a.len() as int] == sep);
    lemma_find_char_witness(s, sep, a.len() as int);
    assert(s.take(a.len() as int) =~= a);
    assert(s.skip(a.len() + 1 as int) =~= b);
}

/// Splitting a text without separators yields it as the one piece.
pub proof fn lemma_split_char_none(a: Seq<char>, sep: char)
    requires
        forall|m: int| 0 <= m < a.len() ==> a[m] != sep,
    ensures
        split_char(a, sep) == seq![a],
{
    lemma_find_char_none(a, sep);
}

/// A blank line starts at `m`: two consecutive newlines.
pub open spec fn blank_at(s: Seq<char>, m: int) -> bool {
    0 <= m && m + 1 < s.len() && s[m] == '\n' && s[m + 1] == '\n'
}

/// Index of the first blank line (two consecutive newlines) in `s`.
pub open spec fn find_blank(s: Seq<char>) -> Option<int>
    decreases s.len(),
{
    if s.len() < 2 {
        None
    } else if s[0] == '\n' && s[1] == '\n' {
        Some(0int)
    } else {
        match find_blank(s.drop_first()) {
            Some(k) => Some(k + 1),
            None => None,
        }
    }
}

/// What `find_blank` yields: the first index where a blank line starts, or
/// `None` exactly when none does.
pub proof fn lemma_find_blank(s: Seq<char>)
    ensures
        match find_blank(s) {
            Some(k) => 0 <= k && k + 2 <= s.len() && s[k] == '\n' && s[k + 1] == '\n' && (forall|
                m: int,
            | 0 <= m < k ==> !blank_at(s, m)),
            None => forall|m: int| !blank_at(s, m),
        },
    decreases s.len(),
{
    if s.len() >= 2 && !(s[0] == '\n' && s[1] == '\n') {
        let rest = s.drop_first();
        lemma_find_blank(rest);
        assert forall|m: int| 1 <= m implies blank_at(s, m) == blank_at(rest, m - 1) by {
            if m + 1 < s.len() {
                assert(s[m] == rest[m - 1]);
                assert(s[m + 1] == rest[m]);
            }
        }
        match find_blank(s) {
            Some(k) => {
                assert(s[k] == rest[k - 1]);
                assert(s[k + 1] == rest[k]);
                assert forall|m: int| 0 <= m < k implies !blank_at(s, m) by {
                    assert(m >= 1 ==> blank_at(s, m) == blank_at(rest, m - 1));
                }
            },
            None => {
                assert forall|m: int| !blank_at(s, m) by {
                    assert(m >= 1 ==> blank_at(s, m) == blank_at(rest, m - 1));
                }
            },
        }
    } else if s.len() < 2 {
        assert(forall|m: int| !blank_at(s, m));
    }
}

/// `find_blank` yields exactly the first blank line.
pub proof fn lemma_find_blank_witness(s: Seq<char>, k: int)
    requires
        blank_at(s, k),
        forall|m: int| 0 <= m < k ==> !blank_at(s, m),
    ensures
        find_blank(s) == Some(k),
    decreases s.len(),
{
    if k > 0 {
        assert(!blank_at(s, 0));
        let rest = s.drop_first();
        assert(blank_at(rest, k - 1)) by {
            assert(rest[k - 1] == s[k]);
            assert(rest[k] == s[k + 1]);
        }
        assert forall|m: int| 0 <= m < k - 1 implies !blank_at(rest, m) by {
            assert(!blank_at(s, m + 1));
            if m + 1 < rest.len() {
                assert(s[m + 1] == rest[m]);
                assert(s[m + 2] == rest[m + 1]);
            }
        }
        lemma_find_blank_witness(rest, k - 1);
    }
}

/// `find_blank` yields `None` when no blank line occurs.
pub proof fn lemma_find_blank_none(s: Seq<char>)
    requires
        forall|m: int| !blank_at(s, m),
    ensures
        find_blank(s) == None::<int>,
    decreases s.len(),
{
    if s.len() >= 2 {
        assert(!blank_at(s, 0));
        let rest = s.drop_first();
        assert forall|m: int| !blank_at(rest, m) by {
            if 0 <= m && m + 1 < rest.len() {
                assert(!blank_at(s, m + 1));
                assert(s[m + 1] == rest[m]);
                assert(s[m + 2] == rest[m + 1]);
            }
        }
        lemma_find_blank_none(rest);
    }
}

/// `s` split at every blank line (two consecutive newlines).
pub open spec fn split_blocks(s: Seq<char>) -> Seq<Seq<char>>
    decreases s.len(),
    via split_blocks_dec
{
    match find_blank(s) {
        None => seq![s],
        Some(i) => seq![s.take(i)] + split_blocks(s.skip(i + 2)),
    }
}

#[via_fn]
proof fn split_blocks_dec(s: Seq<char>) {
    lemma_find_blank(s);
}

/// Splitting at a blank line found at `i`, with none before it.
pub proof fn lemma_split_blocks_here(s: Seq<char>, start: int, i: int)
    requires
        0 <= start <= i,
        i + 1 < s.len(),
        forall|m: int| start <= m < i ==> !blank_at(s, m),
        s[i] == '\n',
        s[i + 1] == '\n',
    ensures
        split_blocks(s.skip(start)) == seq![s.subrange(start, i)] + split_blocks(s.skip(i + 2)),
{
    let suf = s.skip(start);
    assert(blank_at(suf, i - start)) by {
        assert(suf[i - start] == s[i]);
        assert(suf[i - start + 1] == s[i + 1]);
    }
    assert forall|m: int| 0 <= m < i - start implies !blank_at(suf, m) by {
        assert(!blank_at(s, m + start));
        if m + 1 < suf.len() {
            assert(suf[m] == s[m + start]);
            assert(suf[m + 1] == s[m + start + 1]);
        }
    }
    lemma_find_blank_witness(suf, i - start);
    assert(suf.take(i - start) =~= s.subrange(start, i));
    assert(suf.skip(i - start + 2) =~= s.skip(i + 2));
}

/// Splitting a suffix without blank lines yields it as the one block.
pub proof fn lemma_split_blocks_rest(s: Seq<char>, start: int)
    requires
        0 <= start <= s.len(),
        forall|m: int| start <= m ==> !blank_at(s, m),
    ensures
        split_blocks(s.skip(start)) == seq![s.skip(start)],
{
    let suf = s.skip(start);
    assert forall|m: int| !blank_at(suf, m) by {
        if 0 <= m && m + 1 < suf.len() {
            assert(!blank_at(s, m + start));
            assert(suf[m] == s[m + start]);
            assert(suf[m + 1] == s[m + start + 1]);
        }
    }
    lemma_find_blank_none(suf);
}

/// `bs` with its empty elements removed, order kept.
pub open spec fn drop_empty(bs: Seq<Seq<char>>) -> Seq<Seq<char>>
    decreases bs.len(),
{
    if bs.len() == 0 {
        Seq::empty()
    } else if bs.last().len() == 0 {
        drop_empty(bs.drop_last())
    } else {
        drop_empty(bs.drop_last()).push(bs.last())
    }
}

/// `ls` without its leading empty elements.
pub open spec fn strip_leading(ls: Seq<Seq<char>>) -> Seq<Seq<char>>
    decreases ls.len(),
{
    if ls.len() > 0 && ls[0].len() == 0 {
        strip_leading(ls.drop_first())
    } else {
        ls
    }
}

/// `ls` without its trailing empty elements.
pub open spec fn strip_trailing(ls: Seq<Seq<char>>) -> Seq<Seq<char>>
    decreases ls.len(),
{
    if ls.len() > 0 && ls.last().len() == 0 {
        strip_trailing(ls.drop_last())
    } else {
        ls
    }
}

/// The lines of a map block that count as rows: blank lines at either edge
/// are excluded.
pub open spec fn strip_blank_edges(ls: Seq<Seq<char>>) -> Seq<Seq<char>> {
    strip_trailing(strip_leading(ls))
}

/// Stripping leading empties keeps exactly the suffix from the first
/// non-empty element.
pub proof fn lemma_strip_leading_skip(ls: Seq<Seq<char>>, k: int)
    requires
        0 <= k <= ls.len(),
        forall|m: int| 0 <= m < k ==> ls[m].len() == 0,
        k == ls.len() || ls[k].len() > 0,
    ensures
        strip_leading(ls) == ls.skip(k),
    decreases k,
{
    if k == 0 {
        assert(ls.skip(0) =~= ls);
    } else {
        let rest = ls.drop_first();
        assert forall|m: int| 0 <= m < k - 1 implies rest[m].len() == 0 by {
            assert(rest[m] == ls[m + 1]);
        }
        lemma_strip_leading_skip(rest, k - 1);
        assert(rest.skip(k - 1) =~= ls.skip(k));
    }
}

/// Stripping trailing empties keeps exactly the prefix up to the last
/// non-empty element.
pub proof fn lemma_strip_trailing_take(ls: Seq<Seq<char>>, k: int)
    requires
        0 <= k <= ls.len(),
        forall|m: int| k <= m < ls.len() ==> ls[m].len() == 0,
        k == 0 || ls[k - 1].len() > 0,
    ensures
        strip_trailing(ls) == ls.take(k),
    decreases ls.len(),
{
    if k == ls.len() {
        assert(ls.take(k) =~= ls);
    } else {
        let rest = ls.drop_last();
        lemma_strip_trailing_take(rest, k);
        assert(rest.take(k) =~= ls.take(k));
    }
}

/// The length of the longest element of `ls`.
pub open spec fn max_line_len(ls: Seq<Seq<char>>) -> nat
    decreases ls.len(),
{
    if ls.len() == 0 {
        0
    } else {
        let rest = max_line_len(ls.drop_last());
        if ls.last().len() > rest {
            ls.last().len()
        } else {
            rest
        }
    }
}

/// No element of `ls` is longer than `max_line_len(ls)`.
pub proof fn lemma_max_line_len_bound(ls: Seq<Seq<char>>)
    ensures
        forall|m: int| 0 <= m < ls.len() ==> (#[trigger] ls[m]).len() <= max_line_len(ls),
    decreases ls.len(),
{
    if ls.len() > 0 {
        lemma_max_line_len_bound(ls.drop_last());
        assert forall|m: int| 0 <= m < ls.len() implies (#[trigger] ls[m]).len() <= max_line_len(
            ls,
        ) by {
            if m < ls.len() - 1 {
                assert(ls.drop_last()[m] == ls[m]);
            }
        }
    }
}

/// When every element of a non-empty `ls` has length `w`, the longest has
/// length `w`.
pub proof fn lemma_max_line_len_const(ls: Seq<Seq<char>>, w: nat)
    requires
        ls.len() > 0,
        forall|m: int| 0 <= m < ls.len() ==> (#[trigger] ls[m]).len() == w,
    ensures
        max_line_len(ls) == w,
    decreases ls.len(),
{
    assert(ls[ls.len() - 1].len() == w);
    if ls.len() == 1 {
        assert(ls.drop_last().len() == 0);
        assert(max_line_len(ls.drop_last()) == 0);
    }
    if ls.len() > 1 {
        let rest = ls.drop_last();
        assert forall|m: int| 0 <= m < rest.len() implies (#[trigger] rest[m]).len() == w by {
            assert(rest[m] == ls[m]);
        }
        lemma_max_line_len_const(rest, w);
    }
}

/// The lines of a block: split at `'\n'`, with the one empty piece produced
/// by a terminating newline dropped.
pub open spec fn lines_of(s: Seq<char>) -> Seq<Seq<char>> {
    let ps = split_char(s, '\n');
    if ps.len() > 0 && ps.last().len() == 0 {
        ps.drop_last()
    } else {
        ps
    }
}

/// An ASCII decimal digit.
pub open spec fn is_digit(c: char) -> bool {
    48 <= c as int <= 57
}

/// The numeric value of a digit.
pub open spec fn digit_val(c: char) -> nat {
    (c as int - 48) as nat
}

/// Every character of `s` is an ASCII digit.
pub open spec fn is_digits(s: Seq<char>) -> bool {
    forall|m: int| 0 <= m < s.len() ==> is_digit(#[trigger] s[m])
}

/// The number a digit run denotes, most significant digit first.
pub open spec fn digits_val(s: Seq<char>) -> nat
    decreases s.len(),
{
    if s.len() == 0 {
        0
    } else {
        digits_val(s.drop_last()) * 10 + digit_val(s.last())
    }
}

/// A prefix of a digit run denotes no more than the whole run.
pub proof fn lemma_digits_val_monotone(s: Seq<char>, i: int)
    requires
        0 <= i <= s.len(),
    ensures
        digits_val(s.take(i)) <= digits_val(s),
    decreases s.len() - i,
{
    if i < s.len() {
        lemma_digits_val_monotone(s, i + 1);
        assert(s.take(i + 1).drop_last() =~= s.take(i));
        assert(digits_val(s.take(i)) <= digits_val(s.take(i)) * 10 + digit_val(s.take(i + 1).last()));
    } else {
        assert(s.take(i) =~= s);
    }
}

/// The number `s` denotes: `Some` exactly when `s` is one or more ASCII
/// digits whose value fits in a `u32`.
pub open spec fn spec_parse_u32(s: Seq<char>) -> Option<u32> {
    if s.len() >= 1 && is_digits(s) && digits_val(s) <= u32::MAX {
        Some(digits_val(s) as u32)
    } else {
        None
    }
}

/// Relies on `String`'s `FromIterator` over `char`: collecting characters
/// yields the string holding exactly those characters in order.
#[verifier::external_body]
pub fn chars_to_string(v: &Vec<char>) -> (r: String)
    ensures
        r@ == v@,
{
    v.iter().collect()
}

/// The characters of `s` as a vector.
pub fn chars_of(s: &str) -> (r: Vec<char>)
    ensures
        r@ == s@,
{
    let n = s.unicode_len();
    let mut r: Vec<char> = Vec::new();
    let mut i: usize = 0;
    while i < n
        invariant
            i <= n,
            n == s@.len(),
            r@ == s@.take(i as int),
        decreases n - i,
    {
        let c = s.get_char(i);
        r.push(c);
        i += 1;
        proof {
            assert(s@.take(i as int) =~= s@.take(i - 1).push(s@[i - 1]));
        }
    }
    proof {
        assert(s@.take(n as int) =~= s@);
    }
    r
}

/// `v` split at every occurrence of `sep`.
pub fn split_char_exec(v: &Vec<char>, sep: char) -> (r: Vec<Vec<char>>)
    ensures
        r@.map_values(|b: Vec<char>| b@) == split_char(v@, sep),
{
    let mut r: Vec<Vec<char>> = Vec::new();
    let mut cur: Vec<char> = Vec::new();
    let ghost mut start: int = 0;
    let mut i: usize = 0;
    proof {
        assert(v@.skip(0) =~= v@);
        assert(cur@ =~= v@.subrange(0, 0));
        assert(r@.map_values(|b: Vec<char>| b@) + split_char(v@, sep) =~= split_char(v@, sep));
    }
    while i < v.len()
        invariant
            0 <= start <= i <= v@.len(),
            cur@ == v@.subrange(start, i as int),
            forall|m: int| start <= m < i ==> v@[m] != sep,
            split_char(v@, sep) == r@.map_values(|b: Vec<char>| b@) + split_char(
                v@.skip(start),
                sep,
            ),
        decreases v@.len() - i,
    {
        let c = v[i];
        if c == sep {
            let ghost blk = v@.subrange(start, i as int);
            let ghost old_r = r@;
            proof {
                lemma_split_char_here(v@, sep, start, i as int);
            }
            r.push(cur);
            cur = Vec::new();
            proof {
                assert(r@.map_values(|b: Vec<char>| b@) =~= old_r.map_values(|b: Vec<char>| b@)
                    + seq![blk]);
                start = i + 1;
                assert((old_r.map_values(|b: Vec<char>| b@) + seq![blk]) + split_char(
                    v@.skip(start),
                    sep,
                ) =~= old_r.map_values(|b: Vec<char>| b@) + (seq![blk] + split_char(
                    v@.skip(start),
                    sep,
                )));
                assert(cur@ =~= v@.subrange(start, start));
            }
            i += 1;
        } else {
            cur.push(c);
            i += 1;
            proof {
                assert(v@.subrange(start, i as int) =~= v@.subrange(start, i - 1).push(
                    v@[i - 1],
                ));
            }
        }
    }
    proof {
        lemma_split_char_rest(v@, sep, start);
        assert(cur@ =~= v@.skip(start));
    }
    let ghost old_r = r@;
    r.push(cur);
    proof {
        assert(r@.map_values(|b: Vec<char>| b@) =~= old_r.map_values(|b: Vec<char>| b@) + seq![
            v@.skip(start),
        ]);
        assert(r@.map_values(|b: Vec<char>| b@) =~= split_char(v@, sep));
    }
    r
}

/// The non-empty blocks of a level source: `v` split at blank lines, with
/// empty blocks dropped.
pub fn split_level_blocks(v: &Vec<char>) -> (r: Vec<Vec<char>>)
    ensures
        r@.map_values(|b: Vec<char>| b@) == drop_empty(split_blocks(v@)),
{
    let mut r: Vec<Vec<char>> = Vec::new();
    let mut cur: Vec<char> = Vec::new();
    let ghost mut start: int = 0;
    let ghost mut done: Seq<Seq<char>> = Seq::empty();
    let mut i: usize = 0;
    proof {
        assert(v@.skip(0) =~= v@);
        assert(cur@ =~= v@.subrange(0, 0));
        assert(done + split_blocks(v@) =~= split_blocks(v@));
    }
    while i < v.len()
        invariant
            0 <= start <= i <= v@.len(),
            cur@ == v@.subrange(start, i as int),
            forall|m: int| start <= m < i ==> !blank_at(v@, m),
            split_blocks(v@) == done + split_blocks(v@.skip(start)),
            r@.map_values(|b: Vec<char>| b@) == drop_empty(done),
        decreases v@.len() - i,
    {
        let c = v[i];
        if c == '\n' && i + 1 < v.len() && {
            let d = v[i + 1];
            d == '\n'
        } {
            let ghost blk = v@.subrange(start, i as int);
            let ghost prev_done = done;
            proof {
                lemma_split_blocks_here(v@, start, i as int);
                done = done.push(blk);
                assert(done.drop_last() =~= prev_done);
                assert((prev_done + seq![blk]) + split_blocks(v@.skip(i + 2)) =~= prev_done + (
                seq![blk] + split_blocks(v@.skip(i + 2))));
                assert(prev_done + seq![blk] =~= done);
            }
            if cur.len() > 0 {
                let ghost old_r = r@;
                r.push(cur);
                proof {
                    assert(r@.map_values(|b: Vec<char>| b@) =~= old_r.map_values(
                        |b: Vec<char>| b@,
                    ).push(blk));
                    assert(drop_empty(done) == drop_empty(prev_done).push(blk));
                }
            } else {
                proof {
                    assert(blk.len() == 0);
                    assert(drop_empty(done) == drop_empty(prev_done));
                }
            }
            cur = Vec::new();
            proof {
                start = i + 2;
                assert(cur@ =~= v@.subrange(start, start));
            }
            i += 2;
        } else {
            cur.push(c);
            i += 1;
            proof {
                assert(v@.subrange(start, i as int) =~= v@.subrange(start, i - 1).push(
                    v@[i - 1],
                ));
                assert forall|m: int| start <= m < i implies !blank_at(v@, m) by {
                    if m == i - 1 {
                        assert(!(v@[m] == '\n' && m + 1 < v@.len() && v@[m + 1] == '\n'));
                    }
                }
            }
        }
    }
    let ghost tail = v@.skip(start);
    let ghost prev_done = done;
    proof {
        lemma_split_blocks_rest(v@, start);
        assert(cur@ =~= tail);
        done = done.push(tail);
        assert(done.drop_last() =~= prev_done);
        assert(prev_done + seq![tail] =~= done);
        assert(split_blocks(v@) == done);
    }
    if cur.len() > 0 {
        let ghost old_r = r@;
        r.push(cur);
        proof {
            assert(r@.map_values(|b: Vec<char>| b@) =~= old_r.map_values(|b: Vec<char>| b@).push(
                tail,
            ));
            assert(drop_empty(done) == drop_empty(prev_done).push(tail));
        }
    } else {
        proof {
            assert(tail.len() == 0);
            assert(drop_empty(done) == drop_empty(prev_done));
        }
    }
    r
}

/// Parses a run of ASCII digits as a `u32`.
pub fn parse_u32(s: &Vec<char>) -> (r: Option<u32>)
    ensures
        r == spec_parse_u32(s@),
{
    if s.len() == 0 {
        return None;
    }
    let mut val: u32 = 0;
    let mut i: usize = 0;
    while i < s.len()
        invariant
            i <= s@.len(),
            forall|m: int| 0 <= m < i ==> is_digit(#[trigger] s@[m]),
            val == digits_val(s@.take(i as int)),
        decreases s@.len() - i,
    {
        let c = s[i];
        let dv: u64 = match c {
            '0' => 0,
            '1' => 1,
            '2' => 2,
            '3' => 3,
            '4' => 4,
            '5' => 5,
            '6' => 6,
            '7' => 7,
            '8' => 8,
            '9' => 9,
            _ => {
                proof {
                    assert(!is_digit(s@[i as int]));
                }
                return None;
            },
        };
        proof {
            assert(is_digit(s@[i as int]));
            assert(dv == digit_val(s@[i as int]));
            assert(s@.take(i + 1 as int).drop_last() =~= s@.take(i as int));
            assert(s@.take(i + 1 as int).last() == s@[i as int]);
        }
        let t = (val as u64) * 10 + dv;
        if t > u32::MAX as u64 {
            proof {
                if is_digits(s@) && digits_val(s@) <= u32::MAX {
                    lemma_digits_val_monotone(s@, i + 1);
                }
            }
            return None;
        }
        val = t as u32;
        i += 1;
    }
    proof {
        assert(s@.take(s@.len() as int) =~= s@);
    }
    Some(val)
}

} // verus!
