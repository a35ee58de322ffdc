//! Parsing of the renderer's textual arguments: unsigned decimal
//! integers and separator-joined pairs such as `1000x750`.

use vstd::prelude::*;
use vstd::string::StrSliceExecFns;

verus! {

/// A decimal digit, `'0'` through `'9'`.
pub open spec fn is_digit(c: char) -> bool {
    48 <= c as int && c as int <= 57
}

/// Numeric value of one decimal digit.
pub open spec fn digit_val(c: char) -> nat {
    (c as int - 48) as nat
}

/// Every character of the text is a decimal digit.
pub open spec fn all_digits(s: Seq<char>) -> bool {
    forall|i: int| 0 <= i < s.len() ==> is_digit(#[trigger] s[i])
}

/// Value of a digit string read in base ten, most significant first.
pub open spec fn dec_value(s: Seq<char>) -> nat
    decreases s.len(),
{
    if s.len() == 0 {
        0
    } else {
        dec_value(s.drop_last()) * 10 + digit_val(s.last())
    }
}

/// The value of a prefix of a digit string never exceeds the whole.
proof fn lemma_dec_value_prefix_le(s: Seq<char>, j: int)
    requires
        0 <= j <= s.len(),
        all_digits(s),
    ensures
        dec_value(s.take(j)) <= dec_value(s),
    decreases s.len(),
{
    if j < s.len() {
        let t = s.drop_last();
        assert(s.take(j) =~= t.take(j));
        assert(all_digits(t));
        lemma_dec_value_prefix_le(t, j);
    } else {
        assert(s.take(j) =~= s);
    }
}

/// Parse an unsigned decimal integer: the value exactly when the text is
/// nonempty, all digits, and the value fits in `usize`; `None` otherwise.
pub fn parse_usize(s: &str) -> (r: Option<usize>)
    ensures
        match r {
            Some(n) => s@.len() > 0 && all_digits(s@) && n == dec_value(s@),
            None => s@.len() == 0 || !all_digits(s@) || dec_value(s@) > usize::MAX,
        },
{
    let n = s.unicode_len();
    if n == 0 {
        return None;
    }
    let mut acc: usize = 0;
    let mut i: usize = 0;
    while i < n
        invariant
            0 <= i <= n,
            n == s@.len(),
            forall|j: int| 0 <= j < i ==> is_digit(#[trigger] s@[j]),
            acc == dec_value(s@.take(i as int)),
        decreases n - i,
    {
        let c = s.get_char(i);
        let u = c as u32;
        if u < 48 || u > 57 {
            proof {
                assert(!is_digit(s@[i as int]));
            }
            return None;
        }
        let d = (u - 48) as usize;
        proof {
            assert(s@.take(i + 1 as int).drop_last() =~= s@.take(i as int));
            assert(s@.take(i + 1 as int).last() == s@[i as int]);
        }
        let shifted = acc.checked_mul(10);
        let step = match shifted {
            Some(m) => m.checked_add(d),
            None => None,
        };
        match step {
            Some(next) => {
                acc = next;
            },
            None => {
                proof {
                    if all_digits(s@) {
                        lemma_dec_value_prefix_le(s@, i + 1);
                    }
                }
                return None;
            },
        }
        i = i + 1;
    }
    proof {
        assert(s@.take(n as int) =~= s@);
    }
    Some(acc)
}

/// Index of the first occurrence of `sep` among the characters of `s`.
pub fn find_sep(s: &str, sep: char) -> (r: Option<usize>)
    ensures
        match r {
            Some(i) => i < s@.len() && s@[i as int] == sep && (forall|j: int|
                0 <= j < i ==> s@[j] != sep),
            None => forall|j: int| 0 <= j < s@.len() ==> s@[j] != sep,
        },
{
    let n = s.unicode_len();
    let mut i: usize = 0;
    while i < n
        invariant
            0 <= i <= n,
            n == s@.len(),
            forall|j: int| 0 <= j < i ==> s@[j] != sep,
        decreases n - i,
    {
        if s.get_char(i) == sep {
            return Some(i);
        }
        i = i + 1;
    }
    None
}

/// Combine two parsed halves: a pair exactly when both halves parsed.
pub fn pair_of<T>(left: Option<T>, right: Option<T>) -> (r: Option<(T, T)>)
    ensures
        match r {
            Some(p) => left == Some(p.0) && right == Some(p.1),
            None => left is None || right is None,
        },
{
    match (left, right) {
        (Some(l), Some(rt)) => Some((l, rt)),
        _ => None,
    }
}

/// Parse the string `s` as a coordinate pair, like `400x600` or `1.0,0.5`:
/// the text up to the first `separator` and the text after it must both
/// parse as a `T`, else the whole parse fails with no partial result.
///
/// Which texts parse as a `T` is decided by `T`'s own parser, so only the
/// splitting is pinned here: without the separator there is no pair.
pub fn parse_pair<T: core::str::FromStr>(s: &str, separator: char) -> (r: Option<(T, T)>)
    ensures
        (forall|j: int| 0 <= j < s@.len() ==> s@[j] != separator) ==> r is None,
{
    match find_sep(s, separator) {
        None => None,
        Some(index) => {
            let n = s.unicode_len();
            let left = from_str_of::<T>(s.substring_char(0, index));
            let right = from_str_of::<T>(s.substring_char(index + 1, n));
            pair_of(left, right)
        },
    }
}

/// Relies on str::FromStr::from_str: whether the text parses as a `T`,
/// and as what value, is decided entirely by `T`'s parser.
#[verifier::external_body]
fn from_str_of<T: core::str::FromStr>(s: &str) -> (r: Option<T>) {
    match T::from_str(s) {
        Ok(v) => Some(v),
        Err(_) => None,
    }
}

/// `i` is the position of the first `sep` in `s`.
pub open spec fn sep_at(s: Seq<char>, sep: char, i: int) -> bool {
    0 <= i < s.len() && s[i] == sep && (forall|j: int| 0 <= j < i ==> s[j] != sep)
}

/// What a dimension pair such as `1000x750` denotes: split at the first
/// separator; both halves must be nonempty digit strings.
pub open spec fn pair_value(s: Seq<char>, sep: char) -> Option<(nat, nat)> {
    if exists|i: int| sep_at(s, sep, i) {
        let i = choose|i: int| sep_at(s, sep, i);
        let l = s.take(i);
        let r = s.skip(i + 1);
        if l.len() > 0 && all_digits(l) && r.len() > 0 && all_digits(r) {
            Some((dec_value(l), dec_value(r)))
        } else {
            None
        }
    } else {
        None
    }
}

/// Parse image dimensions, two unsigned decimals joined by `sep`:
/// exactly the denoted pair, or `None` when the text denotes none or a
/// half does not fit in `usize`.
pub fn parse_bounds(s: &str, sep: char) -> (r: Option<(usize, usize)>)
    ensures
        match r {
            Some(p) => pair_value(s@, sep) == Some((p.0 as nat, p.1 as nat)),
            None => pair_value(s@, sep) is None || (pair_value(s@, sep) matches Some(v)
                && (v.0 > usize::MAX || v.1 > usize::MAX)),
        },
{
    match find_sep(s, sep) {
        None => {
            proof {
                assert(forall|i: int| !sep_at(s@, sep, i));
            }
            None
        },
        Some(index) => {
            let n = s.unicode_len();
            let left = s.substring_char(0, index);
            let right = s.substring_char(index + 1, n);
            proof {
                assert(sep_at(s@, sep, index as int));
                let i = choose|i: int| sep_at(s@, sep, i);
                if i < index {
                    assert(s@[i] != sep);
                }
                if index < i {
                    assert(s@[index as int] != sep);
                }
                assert(i == index as int);
                assert(left@ =~= s@.take(index as int));
                assert(right@ =~= s@.skip(index + 1 as int));
            }
            let lv = parse_usize(left);
            let rv = parse_usize(right);
            pair_of(lv, rv)
        },
    }
}

} // verus!
