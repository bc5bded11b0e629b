//! Records and their values.
//!
//! A record line is `<key><separator><value>`: the key is everything before
//! the first separator, and the value is a decimal number — an optional
//! minus sign, at least one integer digit, and at most one fractional digit.
//! A value is held as a fixed-point integer scaled by ten, so `-2.3` parses
//! to `-23` and `5` parses to `50`.
use vstd::prelude::*;

use crate::lines::find_byte;
use crate::lines::lemma_find_byte_props;
use crate::lines::scan_byte;
use crate::{Error, SEPARATOR};

verus! {

/// ASCII minus sign.
pub const MINUS: u8 = 45;

/// ASCII decimal point.
pub const DOT: u8 = 46;

/// ASCII digit zero.
pub const ZERO: u8 = 48;

/// ASCII digit nine.
pub const NINE: u8 = 57;

/// Smallest scaled value the pipeline stores.
pub const VALUE_MIN: i32 = -0x8000_0000;

/// Largest scaled value the pipeline stores.
pub const VALUE_MAX: i32 = 0x7FFF_FFFF;

pub open spec fn is_digit(b: u8) -> bool {
    ZERO <= b <= NINE
}

pub open spec fn all_digits(s: Seq<u8>) -> bool {
    forall|i: int| 0 <= i < s.len() ==> is_digit(#[trigger] s[i])
}

/// The number a run of decimal digits denotes.
pub open spec fn digits_val(s: Seq<u8>) -> int
    decreases s.len(),
{
    if s.len() == 0 {
        0
    } else {
        digits_val(s.drop_last()) * 10 + (s.last() - ZERO)
    }
}

/// An unsigned value: `d+` or `d+.d`.
pub open spec fn valid_magnitude(s: Seq<u8>) -> bool {
    ||| (s.len() >= 1 && all_digits(s))
    ||| (s.len() >= 3 && s[s.len() - 2] == DOT && all_digits(s.take(s.len() - 2)) && is_digit(
        s.last(),
    ))
}

/// The scaled (times ten) magnitude an unsigned value denotes.
pub open spec fn magnitude_scaled(s: Seq<u8>) -> int {
    if s.len() >= 2 && s[s.len() - 2] == DOT {
        digits_val(s.take(s.len() - 2)) * 10 + (s.last() - ZERO)
    } else {
        digits_val(s) * 10
    }
}

/// A value: an unsigned value with an optional leading minus sign.
pub open spec fn valid_value(s: Seq<u8>) -> bool {
    if s.len() >= 1 && s[0] == MINUS {
        valid_magnitude(s.skip(1))
    } else {
        valid_magnitude(s)
    }
}

/// The scaled value a value text denotes.
pub open spec fn scaled_value(s: Seq<u8>) -> int {
    if s.len() >= 1 && s[0] == MINUS {
        -magnitude_scaled(s.skip(1))
    } else {
        magnitude_scaled(s)
    }
}

/// Whether a scaled value fits the stored range.
pub open spec fn value_in_range(v: int) -> bool {
    VALUE_MIN <= v <= VALUE_MAX
}

/// The key of a line: everything before the first separator.
pub open spec fn line_key(line: Seq<u8>) -> Seq<u8> {
    line.take(find_byte(line, SEPARATOR, 0))
}

/// The value text of a line: everything after the first separator.
pub open spec fn line_value_text(line: Seq<u8>) -> Seq<u8> {
    line.skip(find_byte(line, SEPARATOR, 0) + 1)
}

/// The fault a line shows, if any: no separator, or a bad value field.
pub open spec fn line_fault(line: Seq<u8>) -> Option<Error> {
    if find_byte(line, SEPARATOR, 0) == line.len() {
        Some(Error::MissingSeparator)
    } else if !valid_value(line_value_text(line)) || !value_in_range(
        scaled_value(line_value_text(line)),
    ) {
        Some(Error::BadNumber)
    } else {
        None
    }
}

/// What a well-formed line denotes: its key and its scaled value.
pub open spec fn parse_line_model(line: Seq<u8>) -> Option<(Seq<u8>, int)> {
    if line_fault(line) is Some {
        None
    } else {
        Some((line_key(line), scaled_value(line_value_text(line))))
    }
}

/// A digit run denotes a non-negative number.
pub proof fn lemma_digits_val_nonneg(s: Seq<u8>)
    requires
        all_digits(s),
    ensures
        digits_val(s) >= 0,
    decreases s.len(),
{
    if s.len() > 0 {
        assert(all_digits(s.drop_last()));
        lemma_digits_val_nonneg(s.drop_last());
    }
}

/// Extending a digit run never shrinks the number it denotes.
pub proof fn lemma_digits_val_prefix(s: Seq<u8>, k: int)
    requires
        all_digits(s),
        0 <= k <= s.len(),
    ensures
        digits_val(s.take(k)) <= digits_val(s),
    decreases s.len(),
{
    if k == s.len() {
        assert(s.take(k) =~= s);
    } else {
        assert(all_digits(s.drop_last()));
        assert(s.take(k) =~= s.drop_last().take(k));
        lemma_digits_val_prefix(s.drop_last(), k);
        lemma_digits_val_nonneg(s.drop_last());
    }
}

/// Parses the value text `data[start..end]` into its scaled fixed-point
/// form.  Returns the scaled value exactly when the text is a well-formed
/// value whose scaled form fits the stored range, and a record fault
/// otherwise.
pub fn parse_value(data: &Vec<u8>, start: usize, end: usize) -> (r: Result<i32, Error>)
    requires
        start <= end <= data.len(),
    ensures
        match r {
            Ok(v) => {
                let s = data@.subrange(start as int, end as int);
                &&& valid_value(s)
                &&& value_in_range(scaled_value(s))
                &&& v == scaled_value(s)
            },
            Err(e) => {
                let s = data@.subrange(start as int, end as int);
                &&& e == Error::BadNumber
                &&& !(valid_value(s) && value_in_range(scaled_value(s)))
            },
        },
{
    let ghost s = data@.subrange(start as int, end as int);
    let mut i: usize = start;
    let mut neg: bool = false;
    if i < end && data[i] == MINUS {
        neg = true;
        i = i + 1;
    }
    let mstart: usize = i;
    let ghost mag = data@.subrange(mstart as int, end as int);
    proof {
        if neg {
            assert(mag =~= s.skip(1));
        } else {
            assert(mag =~= s);
        }
        assert(valid_value(s) == valid_magnitude(mag));
        assert(scaled_value(s) == if neg {
            -magnitude_scaled(mag)
        } else {
            magnitude_scaled(mag)
        });
    }
    // Decide the shape: with the fractional digit, or without.
    let dotted: bool = end - mstart >= 2 && data[end - 2] == DOT;
    let int_end: usize = if dotted {
        end - 2
    } else {
        end
    };
    proof {
        if dotted {
            assert(mag.len() >= 2 && mag[mag.len() - 2] == DOT);
            assert(!all_digits(mag)) by {
                assert(!is_digit(mag[mag.len() - 2]));
            }
        } else if mag.len() >= 2 {
            assert(mag[mag.len() - 2] != DOT);
        }
    }
    if dotted {
        if end - mstart < 3 {
            // A bare ".d" has no integer digit.
            proof {
                assert(!valid_magnitude(mag));
            }
            return Err(Error::BadNumber);
        }
        let fb = data[end - 1];
        if fb < ZERO || fb > NINE {
            proof {
                assert(mag.last() == data@[end - 1]);
                assert(!valid_magnitude(mag));
            }
            return Err(Error::BadNumber);
        }
    } else {
        if mstart >= end {
            // No digits at all.
            proof {
                assert(!valid_magnitude(mag));
            }
            return Err(Error::BadNumber);
        }
    }
    let ghost ints = data@.subrange(mstart as int, int_end as int);
    proof {
        if dotted {
            assert(ints =~= mag.take(mag.len() - 2));
        } else {
            assert(ints =~= mag);
        }
    }
    // Accumulate the integer digits.
    let mut m: u64 = 0;
    while i < int_end
        invariant
            mstart <= i <= int_end <= end <= data.len(),
            ints == data@.subrange(mstart as int, int_end as int),
            mag == data@.subrange(mstart as int, end as int),
            s == data@.subrange(start as int, end as int),
            neg ==> mag =~= s.skip(1) && s.len() >= 1 && s[0] == MINUS,
            !neg ==> mag =~= s,
            valid_value(s) == valid_magnitude(mag),
            scaled_value(s) == if neg {
                -magnitude_scaled(mag)
            } else {
                magnitude_scaled(mag)
            },
            dotted ==> int_end == end - 2 && mag.len() >= 3 && mag[mag.len() - 2] == DOT
                && is_digit(mag.last()),
            !dotted ==> int_end == end && !(mag.len() >= 2 && mag[mag.len() - 2] == DOT),
            ints.len() >= 1,
            dotted ==> ints =~= mag.take(mag.len() - 2),
            !dotted ==> ints =~= mag,
            all_digits(ints.take(i - mstart)),
            m == digits_val(ints.take(i - mstart)),
            m <= 0x8000_0000,
        decreases int_end - i,
    {
        let b = data[i];
        if b < ZERO || b > NINE {
            proof {
                assert(ints[i - mstart] == data@[i as int]);
                assert(!is_digit(ints[i - mstart]));
                assert(!all_digits(ints));
                assert(!valid_magnitude(mag));
            }
            return Err(Error::BadNumber);
        }
        let d: u64 = (b - ZERO) as u64;
        let nm: u64 = m * 10 + d;
        proof {
            assert(ints.take(i - mstart + 1).drop_last() =~= ints.take(i - mstart));
            assert(ints.take(i - mstart + 1).last() == data@[i as int]);
        }
        if nm > 0x8000_0000 {
            proof {
                if valid_magnitude(mag) {
                    assert(all_digits(ints));
                    lemma_digits_val_prefix(ints, i - mstart + 1);
                    assert(digits_val(ints) >= nm);
                    if dotted {
                        assert(magnitude_scaled(mag) == digits_val(ints) * 10 + (mag.last()
                            - ZERO));
                        assert(magnitude_scaled(mag) > 0x8000_0000);
                    } else {
                        assert(magnitude_scaled(mag) == digits_val(ints) * 10);
                        assert(magnitude_scaled(mag) > 0x8000_0000);
                    }
                    assert(!value_in_range(scaled_value(s)));
                }
            }
            return Err(Error::BadNumber);
        }
        m = nm;
        i = i + 1;
    }
    proof {
        assert(ints.take(int_end - mstart) =~= ints);
        assert(all_digits(ints));
        assert(m == digits_val(ints));
    }
    // The whole magnitude, scaled by ten.
    let scaled: u64 = if dotted {
        let fb = data[end - 1];
        proof {
            assert(mag.last() == data@[end - 1]);
            assert(magnitude_scaled(mag) == digits_val(ints) * 10 + (mag.last() - ZERO));
        }
        m * 10 + ((fb - ZERO) as u64)
    } else {
        proof {
            assert(magnitude_scaled(mag) == digits_val(ints) * 10);
        }
        m * 10
    };
    proof {
        assert(valid_magnitude(mag));
        assert(scaled == magnitude_scaled(mag));
    }
    if neg {
        if scaled > 0x8000_0000 {
            return Err(Error::BadNumber);
        }
        let v: i64 = -(scaled as i64);
        Ok(v as i32)
    } else {
        if scaled > 0x7FFF_FFFF {
            return Err(Error::BadNumber);
        }
        Ok(scaled as i32)
    }
}

/// Splits the line `data[start..end]` into its key range and its scaled
/// value.  Returns `(key_end, value)` such that the key is
/// `data[start..key_end]`, exactly when the line has a separator and a
/// well-formed value; otherwise returns the line's record fault.
pub fn parse_line(data: &Vec<u8>, start: usize, end: usize) -> (r: Result<(usize, i32), Error>)
    requires
        start <= end <= data.len(),
    ensures
        match r {
            Ok((key_end, v)) => {
                let line = data@.subrange(start as int, end as int);
                &&& start <= key_end <= end
                &&& parse_line_model(line) == Some(
                    (data@.subrange(start as int, key_end as int), v as int),
                )
                &&& data@.subrange(start as int, key_end as int) == line_key(line)
            },
            Err(e) => {
                let line = data@.subrange(start as int, end as int);
                line_fault(line) == Some(e)
            },
        },
{
    let ghost line = data@.subrange(start as int, end as int);
    let sep = scan_byte(data, SEPARATOR, start, end);
    proof {
        assert(find_byte(line, SEPARATOR, 0) == sep - start);
        lemma_find_byte_props(line, SEPARATOR, 0);
    }
    if sep == end {
        proof {
            assert(line_fault(line) == Some(Error::MissingSeparator));
        }
        return Err(Error::MissingSeparator);
    }
    proof {
        assert(line_key(line) =~= data@.subrange(start as int, sep as int));
        assert(line_value_text(line) =~= data@.subrange(sep + 1, end as int));
    }
    match parse_value(data, sep + 1, end) {
        Ok(v) => Ok((sep, v)),
        Err(e) => Err(e),
    }
}

} // verus!
