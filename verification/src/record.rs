//! One record: `key;reading`, the reading a signed decimal number with one
//! fractional digit, kept as a count of tenths.

use crate::error::Error;
use vstd::prelude::*;

verus! {

/// The byte between key and reading.
pub const DELIMITER: u8 = 59;

/// The sign of a negative reading.
pub const MINUS: u8 = 45;

/// The fractional point.
pub const POINT: u8 = 46;

/// The digit zero; the nine others follow it.
pub const ZERO: u8 = 48;

/// A record as it is understood: the key and the reading in tenths.
pub struct Record {
    pub key: Seq<u8>,
    pub reading: int,
}

pub open spec fn is_digit(byte: u8) -> bool {
    ZERO <= byte <= ZERO + 9
}

/// Whether `pos` is where `byte` first stands in `bytes`.
pub open spec fn is_first(bytes: Seq<u8>, byte: u8, pos: int) -> bool {
    &&& 0 <= pos < bytes.len()
    &&& bytes[pos] == byte
    &&& forall|j: int| 0 <= j < pos ==> bytes[j] != byte
}

/// Where the first delimiter of `line` stands. Meaningful when `line` holds
/// one.
pub open spec fn delimiter_pos(line: Seq<u8>) -> int {
    choose|pos: int| is_first(line, DELIMITER, pos)
}

/// Whether every byte of `text` may stand in a reading.
pub open spec fn is_number(text: Seq<u8>) -> bool {
    forall|i: int| 0 <= i < text.len() ==> is_digit(text[i]) || text[i] == MINUS || text[i] == POINT
}

/// The number that the digits of `text` write in base ten, whatever stands
/// between them.
pub open spec fn digits_value(text: Seq<u8>) -> nat
    decreases text.len(),
{
    if text.len() == 0 {
        0
    } else if is_digit(text.last()) {
        (digits_value(text.drop_last()) * 10 + (text.last() - ZERO)) as nat
    } else {
        digits_value(text.drop_last())
    }
}

/// The reading that `text` writes, in tenths: its digits, negated where a
/// minus sign stands among them.
pub open spec fn reading_of(text: Seq<u8>) -> int {
    if text.contains(MINUS) {
        -(digits_value(text) as int)
    } else {
        digits_value(text) as int
    }
}

/// What a line means. A line without a delimiter, or with a byte behind
/// the first delimiter that is no digit, minus sign or point, is
/// malformed. A well-formed line whose digits write more than `i64::MAX`
/// overflows.
pub open spec fn parse_record(line: Seq<u8>) -> Result<Record, Error> {
    if !line.contains(DELIMITER) {
        Err(Error::MalformedRecord)
    } else {
        let pos = delimiter_pos(line);
        let text = line.skip(pos + 1);
        if !is_number(text) {
            Err(Error::MalformedRecord)
        } else if digits_value(text) > i64::MAX {
            Err(Error::Overflow)
        } else {
            Ok(Record { key: line.take(pos), reading: reading_of(text) })
        }
    }
}

/// Splits a line at its first delimiter and reads the number behind it.
pub fn parse_line(line: &[u8]) -> (r: Result<(&[u8], i64), Error>)
    ensures
        match parse_record(line@) {
            Ok(record) => r matches Ok((key, reading)) && key@ == record.key && reading
                == record.reading,
            Err(e) => r matches Err(x) && x == e,
        },
{
    let len: usize = line.len();
    let mut pos: usize = 0;
    while pos < len && line[pos] != DELIMITER
        invariant
            pos <= len == line@.len(),
            forall|j: int| 0 <= j < pos ==> line@[j] != DELIMITER,
        decreases len - pos,
    {
        pos += 1;
    }
    if pos == len {
        assert(!line@.contains(DELIMITER));
        return Err(Error::MalformedRecord);
    }
    proof {
        assert(line@.contains(DELIMITER));
        assert(is_first(line@, DELIMITER, pos as int));
        let chosen = delimiter_pos(line@);
        assert(is_first(line@, DELIMITER, chosen));
        assert(chosen == pos);
    }
    let ghost text = line@.skip(pos + 1);
    let mut value: i64 = 0;
    let mut negative = false;
    let mut overflowed = false;
    let mut j: usize = pos + 1;
    while j < len
        invariant
            pos < j <= len == line@.len(),
            line@.contains(DELIMITER),
            delimiter_pos(line@) == pos,
            text == line@.skip(pos + 1),
            is_number(text.take(j - pos - 1)),
            negative == text.take(j - pos - 1).contains(MINUS),
            0 <= value,
            !overflowed ==> value == digits_value(text.take(j - pos - 1)),
            overflowed ==> digits_value(text.take(j - pos - 1)) > i64::MAX,
        decreases len - j,
    {
        let byte: u8 = line[j];
        let ghost before = text.take(j - pos - 1);
        let ghost after = text.take(j - pos);
        proof {
            assert(after.drop_last() =~= before);
            assert(after.last() == byte);
            assert(after =~= before.push(byte));
        }
        if byte == MINUS {
            negative = true;
        } else if ZERO <= byte && byte <= ZERO + 9 {
            let digit: i64 = (byte - ZERO) as i64;
            if overflowed || value > (i64::MAX - digit) / 10 {
                overflowed = true;
            } else {
                value = value * 10 + digit;
            }
        } else if byte == POINT {
        } else {
            proof {
                assert(text[j - pos - 1] == byte);
                assert(!is_number(text));
            }
            return Err(Error::MalformedRecord);
        }
        proof {
            assert forall|i: int| 0 <= i < after.len() implies is_digit(after[i]) || after[i]
                == MINUS || after[i] == POINT by {
                if i < before.len() {
                    assert(after[i] == before[i]);
                }
            }
            if byte == MINUS {
                assert(after[after.len() - 1] == MINUS);
            } else if before.contains(MINUS) {
                let k = choose|k: int| 0 <= k < before.len() && before[k] == MINUS;
                assert(after[k] == MINUS);
            } else {
                assert forall|i: int| 0 <= i < after.len() implies after[i] != MINUS by {
                    if i < before.len() {
                        assert(before[i] == after[i]);
                    }
                }
            }
        }
        j += 1;
    }
    proof {
        assert(text.take(len - pos - 1) =~= text);
    }
    if overflowed {
        return Err(Error::Overflow);
    }
    let key = &line[0..pos];
    assert(key@ =~= line@.take(pos as int));
    Ok((key, if negative { -value } else { value }))
}

} // verus!
