//! Searching a byte buffer for a key and locating the value that follows it.
//!
//! The request bodies and configuration files this service reads are JSON-like
//! text, but they are never parsed as a tree: a value is found by looking for the
//! first occurrence of its quoted key and skipping the separators after it.
use vstd::prelude::*;

verus! {

/// `key` occurs in `b` starting at position `i`.
pub open spec fn matches_at(b: Seq<u8>, key: Seq<u8>, i: int) -> bool {
    &&& 0 <= i
    &&& i + key.len() <= b.len()
    &&& b.subrange(i, i + key.len()) == key
}

/// The first position at or after `from` where `key` occurs in `b`.
pub open spec fn find_from(b: Seq<u8>, key: Seq<u8>, from: nat) -> Option<nat>
    decreases b.len() - from,
{
    if from + key.len() > b.len() {
        None
    } else if b.subrange(from as int, (from + key.len()) as int) == key {
        Some(from)
    } else {
        proof {
            if key.len() == 0 {
                assert(b.subrange(from as int, from as int) =~= key);
            }
        }
        find_from(b, key, from + 1)
    }
}

/// The first position at or after `from` holding the byte `c`.
pub open spec fn find_byte(b: Seq<u8>, c: u8, from: nat) -> Option<nat>
    decreases b.len() - from,
{
    if from >= b.len() {
        None
    } else if b[from as int] == c {
        Some(from)
    } else {
        find_byte(b, c, from + 1)
    }
}

/// The bytes that may stand between a key and its value: space, colon,
/// line feed and carriage return.
pub open spec fn is_separator(c: u8) -> bool {
    c == 32 || c == 58 || c == 10 || c == 13
}

/// The first position at or after `i` that does not hold a separator.
pub open spec fn skip_separators(b: Seq<u8>, i: nat) -> nat
    decreases b.len() - i,
{
    if i < b.len() && is_separator(b[i as int]) {
        skip_separators(b, i + 1)
    } else {
        i
    }
}

/// Where the value of `key` starts: after the first occurrence of `key` and the
/// separators that follow it; -1 when `key` does not occur.
pub open spec fn value_start(b: Seq<u8>, key: Seq<u8>) -> int {
    match find_from(b, key, 0) {
        Some(i) => skip_separators(b, i + key.len()) as int,
        None => -1,
    }
}

/// Where the value of `val_key` starts, looking for `val_key` only from the
/// first occurrence of `block_key` on; -1 when either key is missing.
pub open spec fn value_start_after(b: Seq<u8>, block_key: Seq<u8>, val_key: Seq<u8>) -> int {
    match find_from(b, block_key, 0) {
        Some(bi) => match find_from(b.subrange(bi as int, b.len() as int), val_key, 0) {
            Some(vi) => skip_separators(b, bi + vi + val_key.len()) as int,
            None => -1,
        },
        None => -1,
    }
}

/// What `find_from` returns: a real occurrence, with none before it.
pub proof fn lemma_find_from(b: Seq<u8>, key: Seq<u8>, from: nat)
    ensures
        match find_from(b, key, from) {
            Some(i) => {
                &&& from <= i
                &&& matches_at(b, key, i as int)
                &&& forall|j: int| from <= j < i ==> !matches_at(b, key, j)
            },
            None => forall|j: int| from <= j ==> !matches_at(b, key, j),
        },
    decreases b.len() - from,
{
    if from + key.len() > b.len() {
    } else if b.subrange(from as int, (from + key.len()) as int) == key {
    } else {
        if key.len() == 0 {
            assert(b.subrange(from as int, from as int) =~= key);
        }
        lemma_find_from(b, key, from + 1);
    }
}

/// What `find_byte` returns: a real occurrence, with none before it.
pub proof fn lemma_find_byte(b: Seq<u8>, c: u8, from: nat)
    ensures
        match find_byte(b, c, from) {
            Some(i) => from <= i < b.len() && b[i as int] == c && forall|j: int|
                from <= j < i ==> b[j] != c,
            None => forall|j: int| from <= j < b.len() ==> b[j] != c,
        },
    decreases b.len() - from,
{
    if from < b.len() && b[from as int] != c {
        lemma_find_byte(b, c, from + 1);
    }
}

/// `skip_separators` stops at the first byte that is not a separator.
pub proof fn lemma_skip_separators(b: Seq<u8>, i: nat)
    ensures
        i <= skip_separators(b, i),
        i <= b.len() ==> skip_separators(b, i) <= b.len(),
        skip_separators(b, i) < b.len() ==> !is_separator(b[skip_separators(b, i) as int]),
        forall|j: int| i <= j < skip_separators(b, i) ==> is_separator(#[trigger] b[j]),
    decreases b.len() - i,
{
    if i < b.len() && is_separator(b[i as int]) {
        lemma_skip_separators(b, i + 1);
    }
}

proof fn lemma_skip_written_separators(b: Seq<u8>, from: nat, to: nat)
    requires
        from <= to <= b.len(),
        forall|j: int| from <= j < to ==> is_separator(#[trigger] b[j]),
        to == b.len() || !is_separator(b[to as int]),
    ensures
        skip_separators(b, from) == to,
    decreases to - from,
{
    if from < to {
        lemma_skip_written_separators(b, from + 1, to);
    }
}

/// Reading back a written key-value pair: when `key` is followed by
/// separators and a value that does not start with a separator, and `key`
/// does not occur earlier, the value is found where it was written.
pub proof fn lemma_value_start_of_written_pair(
    prefix: Seq<u8>,
    key: Seq<u8>,
    seps: Seq<u8>,
    value: Seq<u8>,
)
    requires
        key.len() > 0,
        forall|j: int| 0 <= j < seps.len() ==> is_separator(#[trigger] seps[j]),
        value.len() == 0 || !is_separator(value[0]),
        forall|j: int| 0 <= j < prefix.len() ==> !matches_at(prefix + key + seps + value, key, j),
    ensures
        value_start(prefix + key + seps + value, key) == prefix.len() + key.len() + seps.len(),
{
    let b = prefix + key + seps + value;
    let p = prefix.len();
    assert(b.subrange(p as int, p + key.len() as int) =~= key);
    assert(matches_at(b, key, p as int));
    lemma_find_from(b, key, 0);
    match find_from(b, key, 0) {
        Some(i) => {
            if i < p {
                assert(!matches_at(b, key, i as int));
            }
            assert(i == p);
        },
        None => {
            assert(matches_at(b, key, p as int));
        },
    }
    let from = p + key.len();
    let to = from + seps.len();
    assert forall|j: int| from <= j < to implies is_separator(#[trigger] b[j]) by {
        assert(b[j] == seps[j - from]);
    }
    if to < b.len() {
        assert(b[to as int] == value[0]);
    }
    lemma_skip_written_separators(b, from as nat, to as nat);
}

/// `key` first occurs in `b` at `q`, looking from `from` on.
pub open spec fn first_occurrence_from(b: Seq<u8>, key: Seq<u8>, from: int, q: int) -> bool {
    &&& from <= q
    &&& matches_at(b, key, q)
    &&& forall|j: int| from <= j < q ==> !matches_at(b, key, j)
}

/// A space, colon, line feed or carriage return.
pub open spec fn is_space_colon_or_break(c: u8) -> bool {
    c == 32 || c == 58 || c == 10 || c == 13
}

/// `r` is the first position at or after `from` that holds no space, colon,
/// line feed or carriage return (or the end of `b`).
pub open spec fn first_non_separator_from(b: Seq<u8>, from: int, r: int) -> bool {
    &&& from <= r <= b.len()
    &&& forall|j: int| from <= j < r ==> is_space_colon_or_break(#[trigger] b[j])
    &&& (r == b.len() || !is_space_colon_or_break(b[r]))
}

/// A first occurrence is what `find_from` finds.
pub proof fn lemma_find_from_is_first(b: Seq<u8>, key: Seq<u8>, from: nat, q: nat)
    requires
        first_occurrence_from(b, key, from as int, q as int),
    ensures
        find_from(b, key, from) == Some(q),
{
    lemma_find_from(b, key, from);
    match find_from(b, key, from) {
        Some(i) => {
            if i < q {
                assert(!matches_at(b, key, i as int));
            }
            if q < i {
                assert(!matches_at(b, key, q as int));
            }
        },
        None => {
            assert(!matches_at(b, key, q as int));
        },
    }
}

/// Where a value starts: when `key` first occurs at `q`, the value starts at
/// the first position after the key that is not a space, colon, line feed or
/// carriage return.
pub proof fn lemma_value_start_found(b: Seq<u8>, key: Seq<u8>, q: int)
    requires
        first_occurrence_from(b, key, 0, q),
    ensures
        first_non_separator_from(b, q + key.len(), value_start(b, key)),
{
    lemma_find_from_is_first(b, key, 0, q as nat);
    lemma_skip_separators(b, (q + key.len()) as nat);
}

/// A key that does not occur has no value: the result is -1.
pub proof fn lemma_value_start_missing(b: Seq<u8>, key: Seq<u8>)
    requires
        forall|j: int| !matches_at(b, key, j),
    ensures
        value_start(b, key) == -1,
{
    lemma_find_from(b, key, 0);
    match find_from(b, key, 0) {
        Some(i) => {
            assert(!matches_at(b, key, i as int));
        },
        None => {},
    }
}

proof fn lemma_matches_in_suffix(b: Seq<u8>, key: Seq<u8>, bi: int, j: int)
    requires
        0 <= bi <= b.len(),
        0 <= j,
    ensures
        matches_at(b.subrange(bi, b.len() as int), key, j) <==> matches_at(b, key, bi + j),
{
    let sub = b.subrange(bi, b.len() as int);
    if j + key.len() <= sub.len() {
        assert(sub.subrange(j, j + key.len()) =~= b.subrange(bi + j, bi + j + key.len()));
    }
}

/// Where a value inside a block starts: when `block_key` first occurs at `bi`
/// and `val_key` first occurs at or after `bi` at `q`, the value starts at the
/// first position after `val_key` that is not a space, colon, line feed or
/// carriage return.
pub proof fn lemma_value_start_after_found(
    b: Seq<u8>,
    block_key: Seq<u8>,
    val_key: Seq<u8>,
    bi: int,
    q: int,
)
    requires
        first_occurrence_from(b, block_key, 0, bi),
        first_occurrence_from(b, val_key, bi, q),
    ensures
        first_non_separator_from(b, q + val_key.len(), value_start_after(b, block_key, val_key)),
{
    lemma_find_from_is_first(b, block_key, 0, bi as nat);
    let sub = b.subrange(bi, b.len() as int);
    lemma_matches_in_suffix(b, val_key, bi, q - bi);
    assert forall|j: int| 0 <= j < q - bi implies !matches_at(sub, val_key, j) by {
        lemma_matches_in_suffix(b, val_key, bi, j);
    }
    lemma_find_from_is_first(sub, val_key, 0, (q - bi) as nat);
    lemma_skip_separators(b, (q + val_key.len()) as nat);
}

/// A value inside a block is missing (-1) when the block key does not occur,
/// or when the value key does not occur from the block key's first occurrence on.
pub proof fn lemma_value_start_after_missing(
    b: Seq<u8>,
    block_key: Seq<u8>,
    val_key: Seq<u8>,
)
    ensures
        (forall|j: int| !matches_at(b, block_key, j)) ==> value_start_after(b, block_key, val_key)
            == -1,
        forall|bi: int|
            first_occurrence_from(b, block_key, 0, bi) && (forall|j: int|
                bi <= j ==> !matches_at(b, val_key, j)) ==> value_start_after(
                b,
                block_key,
                val_key,
            ) == -1,
{
    lemma_find_from(b, block_key, 0);
    match find_from(b, block_key, 0) {
        Some(i) => {
            assert(matches_at(b, block_key, i as int));
            let sub = b.subrange(i as int, b.len() as int);
            lemma_find_from(sub, val_key, 0);
            assert forall|bi: int|
                first_occurrence_from(b, block_key, 0, bi) && (forall|j: int|
                    bi <= j ==> !matches_at(b, val_key, j)) implies value_start_after(
                b,
                block_key,
                val_key,
            ) == -1 by {
                lemma_find_from_is_first(b, block_key, 0, bi as nat);
                match find_from(sub, val_key, 0) {
                    Some(v) => {
                        lemma_matches_in_suffix(b, val_key, i as int, v as int);
                        assert(!matches_at(b, val_key, (i + v) as int));
                    },
                    None => {},
                }
            }
        },
        None => {},
    }
}

/// `key` equals the window of `b` that starts at `i`.
pub fn window_eq(b: &[u8], i: usize, key: &[u8]) -> (r: bool)
    requires
        i + key@.len() <= b@.len(),
    ensures
        r == (b@.subrange(i as int, i + key@.len()) == key@),
{
    let k = key.len();
    let n = b.len();
    let mut j: usize = 0;
    while j < k
        invariant
            n == b@.len(),
            j <= k,
            k == key@.len(),
            i + k <= b@.len(),
            forall|t: int| 0 <= t < j ==> b@[i + t] == key@[t],
        decreases k - j,
    {
        if b[i + j] != key[j] {
            assert(b@.subrange(i as int, i + k)[j as int] != key@[j as int]);
            return false;
        }
        j = j + 1;
    }
    assert(b@.subrange(i as int, i + k) =~= key@);
    true
}

/// The first position where `key` occurs in `b`.
pub fn position_of(b: &[u8], key: &[u8]) -> (r: Option<usize>)
    ensures
        match r {
            Some(i) => find_from(b@, key@, 0) == Some(i as nat),
            None => find_from(b@, key@, 0) is None,
        },
{
    let n = b.len();
    let k = key.len();
    if k > n {
        return None;
    }
    let mut i: usize = 0;
    while i <= n - k
        invariant
            n == b@.len(),
            k == key@.len(),
            k <= n,
            i <= n,
            find_from(b@, key@, 0) == find_from(b@, key@, i as nat),
        decreases n - i,
    {
        if window_eq(b, i, key) {
            return Some(i);
        }
        if k == 0 {
            assert(b@.subrange(i as int, i as int) =~= key@);
        }
        i = i + 1;
    }
    None
}

/// The first position at or after `from` holding the byte `c`.
pub fn position_of_byte(b: &[u8], c: u8, from: usize) -> (r: Option<usize>)
    ensures
        match r {
            Some(i) => find_byte(b@, c, from as nat) == Some(i as nat),
            None => find_byte(b@, c, from as nat) is None,
        },
{
    let mut i = from;
    while i < b.len()
        invariant
            from <= i,
            find_byte(b@, c, from as nat) == find_byte(b@, c, i as nat),
        decreases b@.len() - i,
    {
        if b[i] == c {
            return Some(i);
        }
        i = i + 1;
    }
    None
}

/// Steps over the separators that start at `i`.
pub fn skip_separators_from(b: &[u8], i: usize) -> (r: usize)
    requires
        i <= b@.len(),
    ensures
        r == skip_separators(b@, i as nat),
{
    let mut j = i;
    while j < b.len() && (b[j] == 32 || b[j] == 58 || b[j] == 10 || b[j] == 13)
        invariant
            i <= j <= b@.len(),
            skip_separators(b@, i as nat) == skip_separators(b@, j as nat),
        decreases b@.len() - j,
    {
        j = j + 1;
    }
    j
}

/// Where the value of `key` starts in `b`: just past the first occurrence of
/// `key` and the spaces, colons and line breaks after it; -1 when `key` does
/// not occur.
pub fn find_direct(b: &[u8], key: &[u8]) -> (r: isize)
    requires
        key@.len() > 0,
        b@.len() <= isize::MAX,
    ensures
        r == value_start(b@, key@),
        -1 <= r <= b@.len(),
{
    match position_of(b, key) {
        Some(idx) => {
            proof {
                lemma_find_from(b@, key@, 0);
                lemma_skip_separators(b@, (idx + key@.len()) as nat);
            }
            let start = skip_separators_from(b, idx + key.len());
            start as isize
        },
        None => -1,
    }
}

/// Where the value of `val_key` starts in `b`, searching for `val_key` only from
/// the first occurrence of `block_key` on; -1 when `block_key` does not occur
/// or `val_key` does not occur after it.
pub fn find_after(b: &[u8], block_key: &[u8], val_key: &[u8]) -> (r: isize)
    requires
        block_key@.len() > 0,
        val_key@.len() > 0 || find_from(b@, block_key@, 0) is None,
        b@.len() <= isize::MAX,
    ensures
        r == value_start_after(b@, block_key@, val_key@),
        -1 <= r <= b@.len(),
{
    match position_of(b, block_key) {
        Some(b_idx) => {
            proof {
                lemma_find_from(b@, block_key@, 0);
            }
            let sub = &b[b_idx..b.len()];
            assert(sub@ == b@.subrange(b_idx as int, b@.len() as int));
            match position_of(sub, val_key) {
                Some(v_idx) => {
                    proof {
                        lemma_find_from(sub@, val_key@, 0);
                        lemma_skip_separators(b@, (b_idx + v_idx + val_key@.len()) as nat);
                    }
                    let start = skip_separators_from(b, b_idx + v_idx + val_key.len());
                    start as isize
                },
                None => -1,
            }
        },
        None => -1,
    }
}

} // verus!
