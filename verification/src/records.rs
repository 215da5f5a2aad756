//! Conversion of connection records: a record is a two-field comma-separated
//! line `a,b` naming two zero-based positions, both unsigned decimal numbers.
//! A malformed record is rejected with a descriptive error instead of being
//! passed downstream.

use crate::union_find::client::BulkConnection;
use vstd::prelude::*;

verus! {

/// Why a connection record was rejected.
#[derive(Debug, PartialEq, Eq, Structural, Clone, Copy)]
pub enum ConnectionError {
    /// No comma separates the two fields.
    MissingSeparator,
    /// A field is empty or holds a character that is not a decimal digit.
    InvalidDigit,
    /// A field's value does not fit the machine's index type.
    Overflow,
}

/// A decimal digit.
pub open spec fn is_digit(c: char) -> bool {
    48 <= (c as u32) <= 57
}

/// Every character of the field is a decimal digit.
pub open spec fn all_digits(s: Seq<char>) -> bool {
    forall|i: int| 0 <= i < s.len() ==> is_digit(#[trigger] s[i])
}

/// Value of a field of decimal digits, most significant first.
pub open spec fn digits_value(s: Seq<char>) -> int
    decreases s.len(),
{
    if s.len() == 0 {
        0
    } else {
        digits_value(s.drop_last()) * 10 + (s.last() as u32 - 48)
    }
}

/// Position of the first comma in the line, or the line's length when there
/// is none.
pub open spec fn first_comma(s: Seq<char>) -> int
    decreases s.len(),
{
    if s.len() == 0 {
        0
    } else if s[0] == ',' {
        0
    } else {
        1 + first_comma(s.drop_first())
    }
}

/// What `convert_connection` returns for a given line: the separator is the
/// first comma; each field must be a nonempty run of decimal digits whose
/// value fits the index type; the first field is judged before the second.
pub open spec fn converted(s: Seq<char>) -> Result<BulkConnection, ConnectionError> {
    let i = first_comma(s);
    if i == s.len() {
        Err(ConnectionError::MissingSeparator)
    } else {
        let fa = s.subrange(0, i);
        let fb = s.subrange(i + 1, s.len() as int);
        if !(fa.len() > 0 && all_digits(fa)) {
            Err(ConnectionError::InvalidDigit)
        } else if digits_value(fa) > usize::MAX {
            Err(ConnectionError::Overflow)
        } else if !(fb.len() > 0 && all_digits(fb)) {
            Err(ConnectionError::InvalidDigit)
        } else if digits_value(fb) > usize::MAX {
            Err(ConnectionError::Overflow)
        } else {
            Ok(BulkConnection { a: digits_value(fa) as usize, b: digits_value(fb) as usize })
        }
    }
}

/// A comma preceded only by other characters is the first one.
proof fn lemma_first_comma_at(s: Seq<char>, i: int)
    requires
        0 <= i < s.len(),
        s[i] == ',',
        forall|j: int| 0 <= j < i ==> #[trigger] s[j] != ',',
    ensures
        first_comma(s) == i,
    decreases s.len(),
{
    if s[0] == ',' {
    } else {
        lemma_first_comma_at(s.drop_first(), i - 1);
    }
}

/// A line without a comma has its first comma at the end.
proof fn lemma_first_comma_none(s: Seq<char>)
    requires
        forall|j: int| 0 <= j < s.len() ==> #[trigger] s[j] != ',',
    ensures
        first_comma(s) == s.len(),
    decreases s.len(),
{
    if s.len() == 0 {
    } else {
        lemma_first_comma_none(s.drop_first());
    }
}

/// The value of a digit field is never negative.
proof fn lemma_digits_value_nonneg(s: Seq<char>)
    requires
        all_digits(s),
    ensures
        digits_value(s) >= 0,
    decreases s.len(),
{
    if s.len() == 0 {
    } else {
        assert(all_digits(s.drop_last()));
        lemma_digits_value_nonneg(s.drop_last());
    }
}

/// Finds the position of the first comma, or the line's length.
fn find_comma(line: &str) -> (r: usize)
    ensures
        r as int == first_comma(line@),
        r as int <= line@.len(),
{
    let len: usize = line.unicode_len();
    let mut i: usize = 0;
    while i < len
        invariant
            i <= len,
            len as int == line@.len(),
            forall|j: int| 0 <= j < i ==> #[trigger] line@[j] != ',',
        decreases len - i,
    {
        if line.get_char(i) == ',' {
            proof {
                lemma_first_comma_at(line@, i as int);
            }
            return i;
        }
        i = i + 1;
    }
    proof {
        lemma_first_comma_none(line@);
    }
    len
}

/// Parses the field of decimal digits between two character positions.
fn parse_field(line: &str, from: usize, to: usize) -> (r: Result<usize, ConnectionError>)
    requires
        from <= to <= line@.len(),
    ensures
        ({
            let f = line@.subrange(from as int, to as int);
            if !(f.len() > 0 && all_digits(f)) {
                r == Err::<usize, ConnectionError>(ConnectionError::InvalidDigit)
            } else if digits_value(f) > usize::MAX {
                r == Err::<usize, ConnectionError>(ConnectionError::Overflow)
            } else {
                r == Ok::<usize, ConnectionError>(digits_value(f) as usize)
            }
        }),
{
    let ghost f = line@.subrange(from as int, to as int);
    if from == to {
        return Err(ConnectionError::InvalidDigit);
    }
    let mut acc: usize = 0;
    let mut too_big: bool = false;
    let mut i: usize = from;
    while i < to
        invariant
            from <= i <= to <= line@.len(),
            f == line@.subrange(from as int, to as int),
            all_digits(line@.subrange(from as int, i as int)),
            !too_big ==> acc as int == digits_value(line@.subrange(from as int, i as int)),
            too_big ==> digits_value(line@.subrange(from as int, i as int)) > usize::MAX,
        decreases to - i,
    {
        let ghost pre = line@.subrange(from as int, i as int);
        let c: char = line.get_char(i);
        let d: u32 = c as u32;
        if d < 48 || d > 57 {
            proof {
                assert(f[i - from] == c);
            }
            return Err(ConnectionError::InvalidDigit);
        }
        let dv: usize = (d - 48) as usize;
        let ghost ext = line@.subrange(from as int, i + 1);
        proof {
            assert(ext.drop_last() =~= pre);
            assert(ext.last() == c);
            assert(digits_value(ext) == digits_value(pre) * 10 + dv);
            lemma_digits_value_nonneg(pre);
        }
        if too_big {
            proof {
                assert(digits_value(pre) * 10 >= digits_value(pre));
            }
        } else if acc > (usize::MAX - dv) / 10 {
            proof {
                let q = ((usize::MAX - dv) / 10) as int;
                let rem = ((usize::MAX - dv) % 10) as int;
                assert(usize::MAX - dv == 10 * q + rem);
                assert(acc >= q + 1);
                assert(acc * 10 >= (q + 1) * 10);
            }
            too_big = true;
        } else {
            proof {
                let q = ((usize::MAX - dv) / 10) as int;
                let rem = ((usize::MAX - dv) % 10) as int;
                assert(usize::MAX - dv == 10 * q + rem);
                assert(acc * 10 <= q * 10);
            }
            acc = acc * 10 + dv;
        }
        i = i + 1;
    }
    proof {
        assert(line@.subrange(from as int, i as int) =~= f);
    }
    if too_big {
        Err(ConnectionError::Overflow)
    } else {
        Ok(acc)
    }
}

/// Converts one line of the connection source into a `BulkConnection`,
/// rejecting a malformed record with the error that `converted` assigns.
pub fn convert_connection(line: &str) -> (r: Result<BulkConnection, ConnectionError>)
    ensures
        r == converted(line@),
{
    let len: usize = line.unicode_len();
    let comma: usize = find_comma(line);
    if comma == len {
        return Err(ConnectionError::MissingSeparator);
    }
    let a: usize = match parse_field(line, 0, comma) {
        Ok(v) => v,
        Err(e) => {
            return Err(e);
        },
    };
    let b: usize = match parse_field(line, comma + 1, len) {
        Ok(v) => v,
        Err(e) => {
            return Err(e);
        },
    };
    Ok(BulkConnection { a, b })
}

} // verus!
