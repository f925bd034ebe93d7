//! The table of risk values per merchant category code, read from a JSON
//! object whose keys are codes and whose values are decimal numbers.
//!
//! The text is scanned, not parsed: every quoted string whose first byte is a
//! digit is taken as a key, and the number after it (past colons and spaces)
//! as its value. This module reports each code below 10000 with the position
//! where its value starts, in the order of the text, so that later entries for
//! a code override earlier ones.
use vstd::prelude::*;
use crate::numbers::{
    decimal_end, decimal_span, digits_value, is_digit, lemma_decimal_end_bounds, parse_string_fast,
    quoted_at,
};
use crate::scan::lemma_find_byte;

verus! {

/// An entry of the risk table: a category code and where its value starts.
pub struct MccRisk {
    /// The merchant category code, below 10000.
    pub mcc: usize,
    /// The position where the risk value starts.
    pub value_at: usize,
}

/// The number of entries the risk table holds: one per code below this bound.
pub open spec fn mcc_table_size() -> int {
    10000
}

/// Every byte of `s` is a digit.
pub open spec fn all_digits(s: Seq<u8>) -> bool {
    forall|k: int| 0 <= k < s.len() ==> is_digit(#[trigger] s[k])
}

/// The first position at or after `i` that is neither a colon nor a space.
pub open spec fn skip_colons_and_spaces(b: Seq<u8>, i: nat) -> nat
    decreases b.len() - i,
{
    if i < b.len() && (b[i as int] == 58 || b[i as int] == 32) {
        skip_colons_and_spaces(b, i + 1)
    } else {
        i
    }
}

/// Skipping colons and spaces never moves backwards.
pub proof fn lemma_skip_colons_and_spaces(b: Seq<u8>, i: nat)
    ensures
        i <= skip_colons_and_spaces(b, i),
        i <= b.len() ==> skip_colons_and_spaces(b, i) <= b.len(),
    decreases b.len() - i,
{
    if i < b.len() && (b[i as int] == 58 || b[i as int] == 32) {
        lemma_skip_colons_and_spaces(b, i + 1);
    }
}

/// Reading a quoted string that opens at `i` moves past `i`.
pub proof fn lemma_quoted_at_advances(b: Seq<u8>, i: nat)
    requires
        i < b.len(),
        b[i as int] == 34,
    ensures
        i < quoted_at(b, i).1 <= b.len(),
{
    lemma_find_byte(b, 34, i + 1);
}

/// The entries of the risk table found from position `i` on.
pub open spec fn mcc_risks_from(b: Seq<u8>, i: nat) -> Seq<MccRisk>
    decreases b.len() - i,
{
    if i >= b.len() {
        Seq::empty()
    } else if b[i as int] == 34 {
        let (k, next) = quoted_at(b, i);
        proof {
            lemma_quoted_at_advances(b, i);
        }
        if k.len() > 0 && is_digit(k[0]) {
            let vs = skip_colons_and_spaces(b, next);
            let after = decimal_end(b, vs);
            proof {
                lemma_skip_colons_and_spaces(b, next);
                lemma_decimal_end_bounds(b, vs);
            }
            let rest = mcc_risks_from(b, after);
            if all_digits(k) && digits_value(k) < mcc_table_size() {
                seq![MccRisk { mcc: digits_value(k) as usize, value_at: vs as usize }] + rest
            } else {
                rest
            }
        } else {
            mcc_risks_from(b, next)
        }
    } else {
        mcc_risks_from(b, i + 1)
    }
}

/// Whether every byte of `s` is a digit and the number they spell is below
/// `mcc_table_size()`; if so, that number.
fn table_code(s: &[u8]) -> (r: Option<usize>)
    ensures
        match r {
            Some(c) => all_digits(s@) && digits_value(s@) < mcc_table_size() && c
                == digits_value(s@),
            None => !(all_digits(s@) && digits_value(s@) < mcc_table_size()),
        },
{
    let n = s.len();
    let mut v: usize = 0;
    let mut i: usize = 0;
    assert(s@.subrange(0, 0) =~= Seq::<u8>::empty());
    while i < n
        invariant
            n == s@.len(),
            i <= n,
            all_digits(s@.subrange(0, i as int)),
            v == digits_value(s@.subrange(0, i as int)),
            v < mcc_table_size(),
        decreases n - i,
    {
        let c = s[i];
        let t = Ghost(s@.subrange(0, i + 1));
        assert(t@.drop_last() =~= s@.subrange(0, i as int));
        if c < 48 || c > 57 {
            assert(!is_digit(s@[i as int]));
            return None;
        }
        assert(t@.last() == c);
        let next = v * 10 + (c - 48) as usize;
        assert(digits_value(t@) == next);
        assert(all_digits(t@)) by {
            assert forall|k: int| 0 <= k < t@.len() implies is_digit(#[trigger] t@[k]) by {
                if k < i {
                    assert(t@[k] == s@.subrange(0, i as int)[k]);
                }
            }
        }
        if next >= 10000 {
            proof {
                lemma_digits_prefix_bound(s@, (i + 1) as nat, n as nat);
                assert(s@.subrange(0, n as int) =~= s@);
            }
            return None;
        }
        v = next;
        i = i + 1;
    }
    assert(s@.subrange(0, n as int) =~= s@);
    Some(v)
}

/// The value of a run of digits is at least the value of any prefix of it.
proof fn lemma_digits_prefix_bound(s: Seq<u8>, i: nat, j: nat)
    requires
        i <= j <= s.len(),
        all_digits(s.subrange(0, i as int)),
    ensures
        all_digits(s.subrange(0, j as int)) ==> digits_value(s.subrange(0, j as int))
            >= digits_value(s.subrange(0, i as int)),
    decreases j - i,
{
    if i < j {
        lemma_digits_prefix_bound(s, i, (j - 1) as nat);
        let t = s.subrange(0, j as int);
        assert(t.drop_last() =~= s.subrange(0, j - 1));
        if all_digits(t) {
            assert(all_digits(s.subrange(0, j - 1))) by {
                assert forall|k: int| 0 <= k < j - 1 implies is_digit(
                    #[trigger] s.subrange(0, j - 1)[k],
                ) by {
                    assert(s.subrange(0, j - 1)[k] == t[k]);
                }
            }
            assert(is_digit(t.last()));
            lemma_digits_nonneg(s.subrange(0, j - 1));
        }
    }
}

proof fn lemma_digits_nonneg(s: Seq<u8>)
    requires
        all_digits(s),
    ensures
        digits_value(s) >= 0,
    decreases s.len(),
{
    if s.len() > 0 {
        assert(all_digits(s.drop_last())) by {
            assert forall|k: int| 0 <= k < s.len() - 1 implies is_digit(
                #[trigger] s.drop_last()[k],
            ) by {
                assert(s.drop_last()[k] == s[k]);
            }
        }
        assert(is_digit(s.last()));
        lemma_digits_nonneg(s.drop_last());
    }
}

/// Scans the risk table's text and lists each code below 10000 with the
/// position where its value starts, in the order of the text.
pub fn mcc_risk_entries(d: &[u8]) -> (r: Vec<MccRisk>)
    ensures
        r@ == mcc_risks_from(d@, 0),
{
    let n = d.len();
    let mut out: Vec<MccRisk> = Vec::new();
    let mut i: usize = 0;
    while i < n
        invariant
            n == d@.len(),
            i <= n,
            mcc_risks_from(d@, 0) == out@ + mcc_risks_from(d@, i as nat),
        decreases n - i,
    {
        if d[i] == 34 {
            let (key, next) = parse_string_fast(d, i);
            proof {
                lemma_quoted_at_advances(d@, i as nat);
            }
            if key.len() > 0 && 48 <= key[0] && key[0] <= 57 {
                let mut j = next;
                while j < n && (d[j] == 58 || d[j] == 32)
                    invariant
                        n == d@.len(),
                        next <= j <= n,
                        skip_colons_and_spaces(d@, next as nat) == skip_colons_and_spaces(
                            d@,
                            j as nat,
                        ),
                    decreases n - j,
                {
                    j = j + 1;
                }
                let (_, after) = decimal_span(d, j);
                let code = table_code(key);
                let ghost rest = mcc_risks_from(d@, after as nat);
                match code {
                    Some(c) => {
                        let entry = MccRisk { mcc: c, value_at: j };
                        let ghost before = out@;
                        assert(mcc_risks_from(d@, i as nat) == seq![entry] + rest);
                        out.push(entry);
                        assert(out@ + rest =~= before + (seq![entry] + rest));
                    },
                    None => {},
                }
                i = after;
            } else {
                i = next;
            }
        } else {
            i = i + 1;
        }
    }
    assert(out@ + mcc_risks_from(d@, n as nat) =~= out@);
    out
}

} // verus!
