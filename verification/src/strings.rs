//! Search and comparison of texts: the places of a pattern in a text, by
//! its UTF-8 bytes, and the edit distance of two texts, by their
//! characters.

use vstd::prelude::*;
use vstd::string::StringSliceAdditionalSpecFns;
use crate::error::KernelError;

verus! {

/// Whether `pattern` stands in `text` from place `i` on.
pub open spec fn occurs_at(text: Seq<u8>, pattern: Seq<u8>, i: int) -> bool {
    &&& 0 <= i
    &&& i + pattern.len() <= text.len()
    &&& forall|k: int| 0 <= k < pattern.len() ==> #[trigger] text[i + k] == pattern[k]
}

/// `found` lists the places where `pattern` stands in `text`: each of them
/// once, in ascending order, and nothing else.
pub open spec fn lists_occurrences(found: Seq<usize>, text: Seq<u8>, pattern: Seq<u8>) -> bool {
    &&& forall|k: int| 0 <= k < found.len() ==> occurs_at(text, pattern, #[trigger] found[k] as int)
    &&& forall|j: int, k: int| 0 <= j < k < found.len() ==> found[j] < found[k]
    &&& forall|i: int|
        #[trigger] occurs_at(text, pattern, i) ==> exists|k: int|
            0 <= k < found.len() && #[trigger] found[k] == i
}

/// `found` lists the places below `limit` where `pattern` stands in `text`.
pub open spec fn lists_occurrences_below(
    found: Seq<usize>,
    text: Seq<u8>,
    pattern: Seq<u8>,
    limit: int,
) -> bool {
    &&& forall|k: int|
        0 <= k < found.len() ==> occurs_at(text, pattern, #[trigger] found[k] as int) && found[k]
            < limit
    &&& forall|j: int, k: int| 0 <= j < k < found.len() ==> found[j] < found[k]
    &&& forall|i: int|
        i < limit && #[trigger] occurs_at(text, pattern, i) ==> exists|k: int|
            0 <= k < found.len() && #[trigger] found[k] == i
}

/// Whether the pattern stands in the text from place `i` on.
pub fn matches_at(text: &[u8], pattern: &[u8], i: usize) -> (found: bool)
    ensures
        found == occurs_at(text@, pattern@, i as int),
{
    if pattern.len() > text.len() || i > text.len() - pattern.len() {
        return false;
    }
    let mut k: usize = 0;
    while k < pattern.len()
        invariant
            i + pattern.len() <= text.len(),
            k <= pattern.len(),
            forall|j: int| 0 <= j < k ==> #[trigger] text[i + j] == pattern[j],
        decreases pattern.len() - k,
    {
        if text[i + k] != pattern[k] {
            return false;
        }
        k = k + 1;
    }
    true
}

/// Adding a place to a list of the occurrences below it, or passing over a
/// place where the pattern does not stand, gives the list of the
/// occurrences below the next place.
proof fn lemma_list_grows(found: Seq<usize>, text: Seq<u8>, pattern: Seq<u8>, i: usize)
    requires
        lists_occurrences_below(found, text, pattern, i as int),
    ensures
        occurs_at(text, pattern, i as int) ==> lists_occurrences_below(
            found.push(i),
            text,
            pattern,
            i + 1,
        ),
        !occurs_at(text, pattern, i as int) ==> lists_occurrences_below(
            found,
            text,
            pattern,
            i + 1,
        ),
{
    if occurs_at(text, pattern, i as int) {
        let next = found.push(i);
        assert forall|j: int| j < i + 1 && #[trigger] occurs_at(text, pattern, j) implies exists|
            k: int,
        | 0 <= k < next.len() && #[trigger] next[k] == j by {
            if j < i {
                let k = choose|k: int| 0 <= k < found.len() && #[trigger] found[k] == j;
                assert(next[k] == j);
            } else {
                assert(next[found.len() as int] == j);
            }
        }
    }
}

/// Finds the places where the pattern stands in the text, by trying each
/// place in turn.
///
/// Fails with `PatternEmpty` for the empty pattern.
pub fn find_all(text: &[u8], pattern: &[u8]) -> (result: Result<Vec<usize>, KernelError>)
    ensures
        match result {
            Ok(found) => pattern.len() > 0 && lists_occurrences(found@, text@, pattern@),
            Err(e) => pattern.len() == 0 && e == KernelError::PatternEmpty,
        },
{
    if pattern.len() == 0 {
        return Err(KernelError::PatternEmpty);
    }
    let mut indices: Vec<usize> = Vec::new();
    let last = if text.len() >= pattern.len() {
        text.len() - pattern.len()
    } else {
        0
    };
    let mut i: usize = 0;
    while i <= last
        invariant
            last < usize::MAX,
            i <= last + 1,
            lists_occurrences_below(indices@, text@, pattern@, i as int),
        decreases last + 1 - i,
    {
        proof {
            lemma_list_grows(indices@, text@, pattern@, i);
        }
        if matches_at(text, pattern, i) {
            indices.push(i);
        }
        i = i + 1;
    }
    Ok(indices)
}

/// How far the search may move on where the window ends in `byte`: for a
/// pattern of `m` bytes, a table entry is from 1 to `m`, and no larger than
/// the distance from any place of the byte in the pattern, the last place
/// left out, to the end of the pattern.
pub open spec fn is_shift_table(table: Seq<usize>, pattern: Seq<u8>) -> bool {
    &&& table.len() == 256
    &&& forall|c: int| 0 <= c < 256 ==> 1 <= #[trigger] table[c] <= pattern.len()
    &&& forall|k: int|
        0 <= k < pattern.len() - 1 ==> table[#[trigger] pattern[k] as int] <= pattern.len() - 1 - k
}

/// Builds the table of shifts for a pattern.
pub fn shift_table(pattern: &[u8]) -> (table: Vec<usize>)
    requires
        pattern.len() > 0,
    ensures
        is_shift_table(table@, pattern@),
{
    let m = pattern.len();
    let mut bad_char: Vec<usize> = vec![m; 256];
    let mut i: usize = 0;
    while i < m - 1
        invariant
            m == pattern.len(),
            m > 0,
            i <= m - 1,
            bad_char.len() == 256,
            forall|c: int| 0 <= c < 256 ==> 1 <= #[trigger] bad_char[c] <= m,
            forall|c: int| 0 <= c < 256 ==> #[trigger] bad_char[c] >= m - i,
            forall|k: int| 0 <= k < i ==> bad_char[#[trigger] pattern[k] as int] <= m - 1 - k,
        decreases m - 1 - i,
    {
        bad_char.set(pattern[i] as usize, m - 1 - i);
        i = i + 1;
    }
    bad_char
}

/// Where the window at `start` does not hold the pattern at a place
/// nearer than `shift`, given that `shift` is the table entry for the byte
/// that the window ends in.
proof fn lemma_shift_is_safe(
    text: Seq<u8>,
    pattern: Seq<u8>,
    table: Seq<usize>,
    start: int,
    t: int,
)
    requires
        is_shift_table(table, pattern),
        pattern.len() > 0,
        0 <= start,
        start + pattern.len() <= text.len(),
        0 < t < table[text[start + pattern.len() - 1] as int],
    ensures
        !occurs_at(text, pattern, start + t),
{
    let m = pattern.len() as int;
    if occurs_at(text, pattern, start + t) {
        let k = m - 1 - t;
        assert(text[(start + t) + k] == pattern[k]);
        assert(table[pattern[k] as int] <= m - 1 - k);
    }
}

/// Finds the places where the pattern stands in the text, comparing each
/// window from its end and moving on by the table entry for the byte that
/// the window ends in.
///
/// Fails with `PatternEmpty` for the empty pattern.
pub fn find_all_boyer_moore(text: &[u8], pattern: &[u8]) -> (result: Result<
    Vec<usize>,
    KernelError,
>)
    ensures
        match result {
            Ok(found) => pattern.len() > 0 && lists_occurrences(found@, text@, pattern@),
            Err(e) => pattern.len() == 0 && e == KernelError::PatternEmpty,
        },
{
    if pattern.len() == 0 {
        return Err(KernelError::PatternEmpty);
    }
    let m = pattern.len();
    let n = text.len();
    let bad_char = shift_table(pattern);
    let mut indices: Vec<usize> = Vec::new();
    if n < m {
        return Ok(indices);
    }
    let mut i: usize = m - 1;
    while i < n
        invariant
            m == pattern.len(),
            n == text.len(),
            m > 0,
            m <= n,
            m - 1 <= i,
            is_shift_table(bad_char@, pattern@),
            i < n ==> lists_occurrences_below(indices@, text@, pattern@, i - (m - 1)),
            i >= n ==> lists_occurrences(indices@, text@, pattern@),
        decreases n - i,
    {
        let start = i - (m - 1);
        proof {
            lemma_list_grows(indices@, text@, pattern@, start);
        }
        if matches_at(text, pattern, start) {
            indices.push(start);
        }
        let shift = bad_char[text[i] as usize];
        proof {
            let next = start + shift;
            assert forall|j: int| j < next && #[trigger] occurs_at(text@, pattern@, j) implies exists|
                k: int,
            | 0 <= k < indices.len() && #[trigger] indices[k] == j by {
                if j > start {
                    lemma_shift_is_safe(text@, pattern@, bad_char@, start as int, j - start);
                }
            }
            assert(lists_occurrences_below(indices@, text@, pattern@, next));
        }
        if shift >= n - i {
            i = n;
        } else {
            i = i + shift;
        }
    }
    Ok(indices)
}

/// Finds the places, by UTF-8 bytes, where a pattern stands in a text.
///
/// Fails with `PatternEmpty` for the empty pattern.
pub fn string_find_all(text: &str, pattern: &str) -> (result: Result<Vec<usize>, KernelError>)
    ensures
        match result {
            Ok(found) => pattern.spec_bytes().len() > 0 && lists_occurrences(
                found@,
                text.spec_bytes(),
                pattern.spec_bytes(),
            ),
            Err(e) => pattern.spec_bytes().len() == 0 && e == KernelError::PatternEmpty,
        },
{
    find_all(text.as_bytes(), pattern.as_bytes())
}

/// Finds the places, by UTF-8 bytes, where a pattern stands in a text,
/// moving on by more than one place where the pattern allows it.
///
/// Fails with `PatternEmpty` for the empty pattern.
pub fn string_find_all_boyer_moore(text: &str, pattern: &str) -> (result: Result<
    Vec<usize>,
    KernelError,
>)
    ensures
        match result {
            Ok(found) => pattern.spec_bytes().len() > 0 && lists_occurrences(
                found@,
                text.spec_bytes(),
                pattern.spec_bytes(),
            ),
            Err(e) => pattern.spec_bytes().len() == 0 && e == KernelError::PatternEmpty,
        },
{
    find_all_boyer_moore(text.as_bytes(), pattern.as_bytes())
}

/// The characters of a text.
pub fn chars_of(text: &str) -> (chars: Vec<char>)
    ensures
        chars@ == text@,
{
    let mut chars: Vec<char> = Vec::new();
    for c in it: text.chars()
        invariant
            chars@ == it.seq().take(it.index() as int),
            it.seq() == text@,
    {
        chars.push(c);
    }
    chars
}

/// The least of three numbers.
pub open spec fn least(x: nat, y: nat, z: nat) -> nat {
    if x <= y && x <= z {
        x
    } else if y <= z {
        y
    } else {
        z
    }
}

/// The least number of characters that have to be inserted, removed or
/// replaced to make `b` of `a`.
pub open spec fn edit_distance(a: Seq<char>, b: Seq<char>) -> nat
    decreases a.len() + b.len(),
{
    if a.len() == 0 {
        b.len()
    } else if b.len() == 0 {
        a.len()
    } else {
        let cost: nat = if a.last() == b.last() {
            0
        } else {
            1
        };
        least(
            edit_distance(a.drop_last(), b) + 1,
            edit_distance(a, b.drop_last()) + 1,
            edit_distance(a.drop_last(), b.drop_last()) + cost,
        )
    }
}

/// The edit distance is no more than the length of the longer text.
pub proof fn lemma_edit_distance_bound(a: Seq<char>, b: Seq<char>)
    ensures
        edit_distance(a, b) <= if a.len() >= b.len() {
            a.len()
        } else {
            b.len()
        },
    decreases a.len() + b.len(),
{
    if a.len() > 0 && b.len() > 0 {
        lemma_edit_distance_bound(a.drop_last(), b);
        lemma_edit_distance_bound(a, b.drop_last());
        lemma_edit_distance_bound(a.drop_last(), b.drop_last());
    }
}

/// The edit distance of two sequences of characters, by filling the table
/// of the distances of their prefixes row by row.
pub fn levenshtein_distance(a: &Vec<char>, b: &Vec<char>) -> (distance: usize)
    requires
        a.len() < usize::MAX,
        b.len() < usize::MAX,
    ensures
        distance == edit_distance(a@, b@),
{
    let a_len = a.len();
    let b_len = b.len();
    if a_len == 0 {
        return b_len;
    }
    if b_len == 0 {
        return a_len;
    }
    let mut distances: Vec<Vec<usize>> = Vec::new();
    let mut first: Vec<usize> = Vec::new();
    let mut j: usize = 0;
    while j <= b_len
        invariant
            b_len == b.len(),
            b_len < usize::MAX,
            j <= b_len + 1,
            first.len() == j,
            forall|k: int| 0 <= k < j ==> first[k] == edit_distance(a@.take(0), b@.take(k)),
        decreases b_len + 1 - j,
    {
        first.push(j);
        j = j + 1;
    }
    distances.push(first);
    let mut i: usize = 1;
    while i <= a_len
        invariant
            a_len == a.len(),
            b_len == b.len(),
            a_len < usize::MAX,
            b_len < usize::MAX,
            b_len > 0,
            1 <= i <= a_len + 1,
            distances.len() == i,
            forall|r: int| 0 <= r < i ==> (#[trigger] distances[r]).len() == b_len + 1,
            forall|r: int, k: int|
                0 <= r < i && 0 <= k <= b_len ==> #[trigger] distances[r][k] == edit_distance(
                    a@.take(r),
                    b@.take(k),
                ),
        decreases a_len + 1 - i,
    {
        let mut row: Vec<usize> = Vec::new();
        row.push(i);
        let mut j: usize = 1;
        while j <= b_len
            invariant
                a_len == a.len(),
                b_len == b.len(),
                a_len < usize::MAX,
                b_len < usize::MAX,
                1 <= i <= a_len,
                1 <= j <= b_len + 1,
                distances.len() == i,
                distances[i - 1].len() == b_len + 1,
                forall|k: int|
                    0 <= k <= b_len ==> distances[i - 1][k] == edit_distance(
                        a@.take(i - 1),
                        b@.take(k),
                    ),
                row.len() == j,
                forall|k: int| 0 <= k < j ==> row[k] == edit_distance(a@.take(i as int), b@.take(k)),
            decreases b_len + 1 - j,
        {
            let cost: usize = if a[i - 1] == b[j - 1] {
                0
            } else {
                1
            };
            proof {
                let x = a@.take(i as int);
                let y = b@.take(j as int);
                assert(x.drop_last() =~= a@.take(i - 1));
                assert(y.drop_last() =~= b@.take(j - 1));
                assert(x.last() == a[i - 1] && y.last() == b[j - 1]);
                lemma_edit_distance_bound(a@.take(i - 1), b@.take(j as int));
                lemma_edit_distance_bound(a@.take(i as int), b@.take(j - 1));
                lemma_edit_distance_bound(a@.take(i - 1), b@.take(j - 1));
            }
            let above = distances[i - 1][j] + 1;
            let left = row[j - 1] + 1;
            let diagonal = distances[i - 1][j - 1] + cost;
            let best = if above <= left && above <= diagonal {
                above
            } else if left <= diagonal {
                left
            } else {
                diagonal
            };
            row.push(best);
            j = j + 1;
        }
        distances.push(row);
        i = i + 1;
    }
    proof {
        assert(a@.take(a_len as int) =~= a@);
        assert(b@.take(b_len as int) =~= b@);
    }
    distances[a_len][b_len]
}

/// The edit distance of two texts, by their characters.
pub fn string_levenshtein_distance(a: &str, b: &str) -> (distance: usize)
    requires
        a@.len() < usize::MAX,
        b@.len() < usize::MAX,
    ensures
        distance == edit_distance(a@, b@),
{
    let a_chars = chars_of(a);
    let b_chars = chars_of(b);
    levenshtein_distance(&a_chars, &b_chars)
}

} // verus!
