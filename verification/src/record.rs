//! Input records and output messages. A record is one line of text, `count modulus
//! coefficient*`: decimal numbers separated by blanks. It names a reducing polynomial and
//! the first `count` coefficients of a polynomial over its field; the message for a
//! record is the polynomial's canonical text behind the record's number.

use crate::field::{build_field, FieldError};
use crate::galois::primitive;
use crate::gfpoly::{all_bytes, build_polynomial};
use crate::text::{append_decimal, decimal, rendering};
use vstd::prelude::*;

verus! {

/// Why a record gave no message.
#[derive(Debug, Clone, Copy, PartialEq, Eq)]
pub enum RecordError {
    /// The line is no record: a number is missing, or a word is no number.
    Malformed,
    /// The record's numbers are no reducing polynomial or no coefficients of the field.
    Field(FieldError),
}

/// The numbers of one record.
#[derive(Debug)]
pub struct Record {
    /// The bit pattern of the reducing polynomial.
    pub reducing_polynomial: i64,
    /// The coefficients, low degree first.
    pub coefficients: Vec<i64>,
}

/// Whether `b` is a blank: a space, a tab, a line feed, a vertical tab, a form feed or a
/// carriage return.
pub open spec fn is_blank(b: u8) -> bool {
    b == 32 || 9 <= b <= 13
}

/// Whether `b` is a decimal digit.
pub open spec fn is_digit(b: u8) -> bool {
    48 <= b <= 57
}

/// The length of the run of bytes other than blanks that `s` begins with.
pub open spec fn word_len(s: Seq<u8>) -> nat
    decreases s.len(),
{
    if s.len() == 0 || is_blank(s[0]) {
        0
    } else {
        1 + word_len(s.drop_first())
    }
}

/// The words of `s`: its maximal runs of bytes other than blanks, in order.
#[verifier::opaque]
pub open spec fn words(s: Seq<u8>) -> Seq<Seq<u8>>
    decreases s.len(),
    via words_decreases
{
    if s.len() == 0 {
        Seq::empty()
    } else if is_blank(s[0]) {
        words(s.drop_first())
    } else {
        seq![s.take(word_len(s) as int)] + words(s.skip(word_len(s) as int))
    }
}

proof fn lemma_word_len_bound(s: Seq<u8>)
    ensures
        word_len(s) <= s.len(),
    decreases s.len(),
{
    if s.len() > 0 && !is_blank(s[0]) {
        lemma_word_len_bound(s.drop_first());
    }
}

#[via_fn]
proof fn words_decreases(s: Seq<u8>) {
    lemma_word_len_bound(s);
}

/// The number that the digits `d` denote; bytes that are no digits count as zero.
pub open spec fn digits_value(d: Seq<u8>) -> nat
    decreases d.len(),
{
    if d.len() == 0 {
        0
    } else {
        digits_value(d.drop_last()) * 10 + if is_digit(d.last()) {
            (d.last() - 48) as nat
        } else {
            0
        }
    }
}

/// The digits of a word: the word without the plus sign that may stand in front.
pub open spec fn digits_of(w: Seq<u8>) -> Seq<u8> {
    if w.len() > 0 && w[0] == 43 {
        w.drop_first()
    } else {
        w
    }
}

/// The number that the word `w` denotes: one or more decimal digits, a plus sign before
/// them or none, and a value of at most `i64::MAX`. Any other word denotes none.
pub open spec fn number(w: Seq<u8>) -> Option<nat> {
    let d = digits_of(w);
    if d.len() > 0 && (forall|i: int| 0 <= i < d.len() ==> is_digit(#[trigger] d[i]))
        && digits_value(d) <= i64::MAX {
        Some(digits_value(d))
    } else {
        None
    }
}

/// How many coefficients the record with the words `w` has: as many as its count says,
/// or as many words as follow the modulus where those are fewer.
pub open spec fn coefficient_count(w: Seq<Seq<u8>>) -> nat {
    let count = number(w[0])->0;
    if count <= w.len() - 2 {
        count
    } else {
        (w.len() - 2) as nat
    }
}

/// Whether `line` is a record: it has a count and a modulus, and each word that the
/// count takes as a coefficient is a number. What follows those words is not read.
pub open spec fn is_record(line: Seq<u8>) -> bool {
    let w = words(line);
    &&& w.len() >= 2
    &&& number(w[0]) is Some
    &&& number(w[1]) is Some
    &&& forall|i: int| 0 <= i < coefficient_count(w) ==> number(#[trigger] w[i + 2]) is Some
}

/// The reducing polynomial that the record `line` names.
pub open spec fn record_modulus(line: Seq<u8>) -> nat {
    number(words(line)[1])->0
}

/// The coefficients that the record `line` names.
pub open spec fn record_coefficients(line: Seq<u8>) -> Seq<i64> {
    let w = words(line);
    Seq::new(coefficient_count(w), |i: int| number(w[i + 2])->0 as i64)
}

/// The message for record number `index`, whose polynomial has the text `text`.
pub open spec fn message_text(index: nat, text: Seq<char>) -> Seq<char> {
    seq!['M', 'e', 's', 's', 'a', 'g', 'e', ' ', '#'] + decimal(index) + seq![':', ' '] + text
}

/// Whether the byte is a blank.
fn blank(b: u8) -> (r: bool)
    ensures
        r == is_blank(b),
{
    b == 32 || (9 <= b && b <= 13)
}

/// Finds the first word of `line` at or after `from`: the indices at which it begins and
/// ends, or nothing where only blanks are left.
fn next_word(line: &[u8], from: usize) -> (found: Option<(usize, usize)>)
    requires
        from <= line@.len(),
    ensures
        match found {
            Some((begin, end)) => {
                &&& from <= begin < end <= line@.len()
                &&& words(line@.skip(from as int)) == seq![
                    line@.subrange(begin as int, end as int),
                ] + words(line@.skip(end as int))
            },
            None => words(line@.skip(from as int)) == Seq::<Seq<u8>>::empty(),
        },
{
    let ghost s = line@;
    let mut begin = from;
    while begin < line.len() && blank(line[begin])
        invariant
            s == line@,
            from <= begin <= s.len(),
            words(s.skip(from as int)) == words(s.skip(begin as int)),
        decreases s.len() - begin,
    {
        proof {
            reveal(words);
            assert(s.skip(begin as int).drop_first() =~= s.skip(begin + 1));
        }
        begin += 1;
    }
    proof {
        reveal(words);
    }
    if begin == line.len() {
        return None;
    }
    let mut end = begin + 1;
    assert(s.skip(begin as int).drop_first() =~= s.skip(end as int));
    while end < line.len() && !blank(line[end])
        invariant
            s == line@,
            begin < end <= s.len(),
            word_len(s.skip(begin as int)) == (end - begin) + word_len(s.skip(end as int)),
        decreases s.len() - end,
    {
        assert(s.skip(end as int).drop_first() =~= s.skip(end + 1));
        end += 1;
    }
    proof {
        let rest = s.skip(begin as int);
        assert(word_len(s.skip(end as int)) == 0);
        assert(rest.take(end - begin) =~= s.subrange(begin as int, end as int));
        assert(rest.skip(end - begin) =~= s.skip(end as int));
    }
    Some((begin, end))
}

proof fn lemma_digits_value_grows(d: Seq<u8>, k: int)
    requires
        0 <= k <= d.len(),
    ensures
        digits_value(d.take(k)) <= digits_value(d),
    decreases d.len() - k,
{
    if k < d.len() {
        lemma_digits_value_grows(d, k + 1);
        assert(d.take(k + 1).drop_last() =~= d.take(k));
    } else {
        assert(d.take(k) =~= d);
    }
}

/// Reads the word of `line` from `begin` to `end` as a number.
fn parse_number(line: &[u8], begin: usize, end: usize) -> (value: Option<i64>)
    requires
        begin < end <= line@.len(),
    ensures
        match value {
            Some(v) => 0 <= v && number(line@.subrange(begin as int, end as int)) == Some(
                v as nat,
            ),
            None => number(line@.subrange(begin as int, end as int)) is None,
        },
{
    let ghost w = line@.subrange(begin as int, end as int);
    let ghost d = digits_of(w);
    let start = if line[begin] == 43 {
        begin + 1
    } else {
        begin
    };
    assert(d =~= line@.subrange(start as int, end as int));
    if start == end {
        return None;
    }
    let mut acc: i64 = 0;
    let mut i = start;
    while i < end
        invariant
            start <= i <= end <= line@.len(),
            d == line@.subrange(start as int, end as int),
            d == digits_of(line@.subrange(begin as int, end as int)),
            forall|k: int| 0 <= k < i - start ==> is_digit(#[trigger] d[k]),
            0 <= acc,
            acc == digits_value(d.take(i - start)),
        decreases end - i,
    {
        let b = line[i];
        assert(b == d[i - start]);
        if b < 48 || b > 57 {
            return None;
        }
        let digit = (b - 48) as i64;
        proof {
            assert(d.take(i + 1 - start).drop_last() =~= d.take(i - start));
            lemma_digits_value_grows(d, i + 1 - start);
        }
        if acc > (i64::MAX - digit) / 10 {
            return None;
        }
        acc = acc * 10 + digit;
        i += 1;
    }
    assert(d.take(i - start) =~= d);
    Some(acc)
}

/// Reads a line that holds one number and nothing else but blanks: the number of
/// records that follow.
pub fn parse_count(line: &[u8]) -> (result: Result<usize, RecordError>)
    ensures
        match result {
            Ok(n) => {
                &&& words(line@).len() == 1
                &&& number(words(line@)[0]) == Some(n as nat)
            },
            Err(e) => {
                &&& e == RecordError::Malformed
                &&& !(words(line@).len() == 1 && number(words(line@)[0]) is Some && number(
                    words(line@)[0],
                )->0 <= usize::MAX)
            },
        },
{
    assert(line@.skip(0) =~= line@);
    let (begin, end) = match next_word(line, 0) {
        Some(word) => word,
        None => {
            return Err(RecordError::Malformed);
        },
    };
    if next_word(line, end).is_some() {
        return Err(RecordError::Malformed);
    }
    match parse_number(line, begin, end) {
        Some(v) => {
            if v as u64 > usize::MAX as u64 {
                Err(RecordError::Malformed)
            } else {
                Ok(v as usize)
            }
        },
        None => Err(RecordError::Malformed),
    }
}

/// Reads a record: the count, the modulus, and as many coefficients as the count says
/// or the line has. A line without count or modulus, or with a word among these that is
/// no number, is refused.
pub fn parse_record(line: &[u8]) -> (result: Result<Record, RecordError>)
    ensures
        match result {
            Ok(record) => {
                &&& is_record(line@)
                &&& record.reducing_polynomial == record_modulus(line@)
                &&& record.coefficients@ == record_coefficients(line@)
            },
            Err(e) => e == RecordError::Malformed && !is_record(line@),
        },
{
    let ghost w = words(line@);
    assert(line@.skip(0) =~= line@);
    let (begin, end) = match next_word(line, 0) {
        Some(word) => word,
        None => {
            return Err(RecordError::Malformed);
        },
    };
    let count = match parse_number(line, begin, end) {
        Some(v) => v,
        None => {
            return Err(RecordError::Malformed);
        },
    };
    proof {
        let rest = words(line@.skip(end as int));
        assert(w.len() == 1 + rest.len());
        assert(w[0] == line@.subrange(begin as int, end as int));
        assert(w.skip(1) =~= rest);
    }
    let (begin, end) = match next_word(line, end) {
        Some(word) => word,
        None => {
            return Err(RecordError::Malformed);
        },
    };
    let reducing_polynomial = match parse_number(line, begin, end) {
        Some(v) => v,
        None => {
            return Err(RecordError::Malformed);
        },
    };
    proof {
        let rest = words(line@.skip(end as int));
        assert(w.skip(1).len() == 1 + rest.len());
        assert(w[1] == w.skip(1)[0]);
        assert(w.skip(2) =~= rest);
    }
    let mut coefficients: Vec<i64> = Vec::new();
    let mut at = end;
    let mut exhausted = false;
    while !exhausted && (coefficients.len() as u64) < count as u64
        invariant
            exhausted ==> coefficients@.len() + 2 == w.len(),
            w == words(line@),
            w.len() >= 2,
            number(w[0]) == Some(count as nat),
            0 <= count,
            at <= line@.len(),
            coefficients@.len() + 2 <= w.len(),
            coefficients@.len() <= count,
            w.skip(coefficients@.len() as int + 2) == words(line@.skip(at as int)),
            forall|i: int|
                0 <= i < coefficients@.len() ==> number(#[trigger] w[i + 2]) == Some(
                    coefficients@[i] as nat,
                ),
            forall|i: int| 0 <= i < coefficients@.len() ==> 0 <= #[trigger] coefficients@[i],
        decreases line@.len() - at + if exhausted { 0int } else { 1int },
    {
        let ghost taken = coefficients@.len() as int;
        match next_word(line, at) {
            Some((begin, end)) => {
                proof {
                    let tail = w.skip(taken + 2);
                    let rest = words(line@.skip(end as int));
                    assert(tail.len() == 1 + rest.len());
                    assert(w[taken + 2] == tail[0]);
                    assert(tail.skip(1) =~= rest);
                    assert(w.skip(taken + 3) =~= tail.skip(1));
                }
                let value = match parse_number(line, begin, end) {
                    Some(v) => v,
                    None => {
                        assert(taken < coefficient_count(w));
                        return Err(RecordError::Malformed);
                    },
                };
                coefficients.push(value);
                at = end;
            },
            None => {
                assert(w.skip(taken + 2).len() == 0);
                exhausted = true;
            },
        }
    }
    proof {
        assert(coefficients@.len() == coefficient_count(w));
        assert(coefficients@ =~= record_coefficients(line@));
    }
    Ok(Record { reducing_polynomial, coefficients })
}

/// The canonical text of the polynomial that the record `line` names, over the field of
/// the record's modulus. The modulus has to be a primitive polynomial and each coefficient
/// a byte.
pub fn render_record(line: &[u8]) -> (result: Result<String, RecordError>)
    ensures
        match result {
            Ok(text) => {
                &&& is_record(line@)
                &&& record_modulus(line@) <= u16::MAX
                &&& primitive(record_modulus(line@) as u16)
                &&& all_bytes(record_coefficients(line@))
                &&& text@ == rendering(
                    record_modulus(line@) as u16,
                    record_coefficients(line@).map_values(|c: i64| c as u8),
                )
            },
            Err(RecordError::Malformed) => !is_record(line@),
            Err(RecordError::Field(e)) => {
                &&& is_record(line@)
                &&& e == FieldError::DomainError
                &&& !(record_modulus(line@) <= u16::MAX && primitive(
                    record_modulus(line@) as u16,
                ) && all_bytes(record_coefficients(line@)))
            },
        },
{
    let record = match parse_record(line) {
        Ok(record) => record,
        Err(e) => {
            return Err(e);
        },
    };
    if record.reducing_polynomial > 511 {
        return Err(RecordError::Field(FieldError::DomainError));
    }
    let field = match build_field(record.reducing_polynomial as u16) {
        Ok(field) => field,
        Err(e) => {
            return Err(RecordError::Field(e));
        },
    };
    let polynomial = match build_polynomial(record.coefficients.as_slice(), &field) {
        Ok(polynomial) => polynomial,
        Err(e) => {
            return Err(RecordError::Field(e));
        },
    };
    proof {
        crate::text::lemma_renderable(field.modulus(), polynomial@);
        assert(polynomial@ =~= record_coefficients(line@).map_values(|c: i64| c as u8));
    }
    match polynomial.render() {
        Ok(text) => Ok(text),
        Err(e) => Err(RecordError::Field(e)),
    }
}

/// The output line for record number `index`, whose polynomial has the text `text`.
pub fn message(index: usize, text: &str) -> (line: String)
    ensures
        line@ == message_text(index as nat, text@),
{
    let mut line = String::new();
    line.append("Message #");
    append_decimal(&mut line, index);
    line.append(": ");
    line.append(text);
    proof {
        reveal_strlit("Message #");
        reveal_strlit(": ");
    }
    assert(line@ =~= message_text(index as nat, text@));
    line
}

} // verus!
