//! The grammar, as functions from the bytes left to read to what a parser
//! makes of them: a value and the bytes after it, or a failure.
//!
//! A value is one of
//!
//! * an integer, `i` *numeral* `e`, where the numeral is canonical;
//! * a byte string, *length* `:` *bytes*, where the length is a run of
//!   digits and exactly that many bytes follow the colon;
//! * a list, `l` *value*+ `e`;
//! * a dictionary, `d` (*byte string* *value*)+ `e`.

use crate::decimal::{
    decimal_value, digit_run, is_canonical_integer, is_digit, is_nonzero_digit, is_signed_decimal,
    lemma_digit_run, signed_value, DIGIT_ZERO, MINUS,
};
use crate::error::{failure_at, failure_within, ErrorKind, Failure};
use crate::value::Bencode;
use vstd::prelude::*;

verus! {

/// The letter `i`, which opens an integer.
pub const INTEGER_START: u8 = 0x69;

/// The letter `l`, which opens a list.
pub const LIST_START: u8 = 0x6c;

/// The letter `d`, which opens a dictionary.
pub const DICTIONARY_START: u8 = 0x64;

/// The letter `e`, which closes an integer, a list or a dictionary.
pub const END: u8 = 0x65;

/// The colon between the length of a byte string and its bytes.
pub const COLON: u8 = 0x3a;

/// What a parser makes of its input: what it recognised together with the
/// bytes after it, or a failure.
pub type Parsed<T> = Result<(T, Seq<u8>), Failure>;

/// `s` begins with the byte `b`.
pub open spec fn starts_with(s: Seq<u8>, b: u8) -> bool {
    s.len() > 0 && s[0] == b
}

/// The length of the numeral at the head of `s`, tried in this order: digits
/// that begin with a non-zero one; a minus sign and such digits; the single
/// digit `0`.
pub open spec fn numeral_len(s: Seq<u8>) -> Option<nat> {
    if s.len() > 0 && is_nonzero_digit(s[0]) {
        Some(digit_run(s))
    } else if s.len() > 1 && s[0] == MINUS && is_nonzero_digit(s[1]) {
        Some(1 + digit_run(s.skip(1)))
    } else if starts_with(s, DIGIT_ZERO) {
        Some(1)
    } else {
        None
    }
}

/// An integer token: the numeral between `i` and `e`, not yet converted.
pub open spec fn integer_token(s: Seq<u8>) -> Parsed<Seq<u8>> {
    if !starts_with(s, INTEGER_START) {
        Err(failure_at(s, ErrorKind::Tag))
    } else {
        let body = s.skip(1);
        match numeral_len(body) {
            None => Err(failure_within(body, ErrorKind::Alt, failure_at(body, ErrorKind::Tag))),
            Some(n) => {
                let after = body.skip(n as int);
                if starts_with(after, END) {
                    Ok((body.take(n as int), after.skip(1)))
                } else {
                    Err(failure_at(after, ErrorKind::Tag))
                }
            },
        }
    }
}

/// An integer: an integer token whose numeral is in the 64-bit signed range.
pub open spec fn integer(s: Seq<u8>) -> Parsed<Bencode> {
    match integer_token(s) {
        Err(e) => Err(e),
        Ok((numeral, rest)) => if i64::MIN <= signed_value(numeral) <= i64::MAX {
            Ok((Bencode::Integer(signed_value(numeral)), rest))
        } else {
            Err(failure_at(s, ErrorKind::MapRes))
        },
    }
}

/// A byte string: a length in digits that fits in 64 bits, a colon, and
/// exactly that many bytes.
pub open spec fn byte_string(s: Seq<u8>) -> Parsed<Seq<u8>> {
    let n = digit_run(s) as int;
    let len = decimal_value(s.take(n));
    if n == 0 || len > u64::MAX {
        Err(failure_at(s, ErrorKind::Digit))
    } else {
        let after = s.skip(n);
        if !starts_with(after, COLON) {
            Err(failure_at(after, ErrorKind::Tag))
        } else {
            let payload = after.skip(1);
            if payload.len() < len {
                Err(failure_at(payload, ErrorKind::Eof))
            } else {
                Ok((payload.take(len as int), payload.skip(len as int)))
            }
        }
    }
}

/// Of the failures of the four alternatives on `s`, the deepest: that of
/// the alternative whose first byte `s` begins with, which is the only one
/// that can get past that byte. Where `s` begins with none of them, all four
/// failed at its first byte, and the last one is taken.
pub open spec fn deepest_failure(
    s: Seq<u8>,
    integer: Failure,
    string: Failure,
    list: Failure,
    dictionary: Failure,
) -> Failure {
    if starts_with(s, INTEGER_START) {
        integer
    } else if s.len() > 0 && is_digit(s[0]) {
        string
    } else if starts_with(s, LIST_START) {
        list
    } else {
        dictionary
    }
}

/// A value: the first of integer, byte string, list and dictionary that
/// matches. Where none does, the failure carries the deepest of the four.
pub open spec fn value(s: Seq<u8>) -> Parsed<Bencode>
    decreases s.len(), 2int,
{
    match integer(s) {
        Ok(found) => Ok(found),
        Err(integer) => match byte_string(s) {
            Ok((bytes, rest)) => Ok((Bencode::ByteString(bytes), rest)),
            Err(string) => match list(s) {
                Ok((items, rest)) => Ok((Bencode::List(items), rest)),
                Err(list) => match dictionary(s) {
                    Ok((mapping, rest)) => Ok((Bencode::Dictionary(mapping), rest)),
                    Err(dictionary) => Err(
                        failure_within(
                            s,
                            ErrorKind::Alt,
                            deepest_failure(s, integer, string, list, dictionary),
                        ),
                    ),
                },
            },
        },
    }
}

/// As many values as can be read from `s` one after the other, with the
/// bytes after the last of them. (A value is never empty, so the test on the
/// lengths always holds: see `lemma_value_consumes`.)
pub open spec fn values(s: Seq<u8>) -> (Seq<Bencode>, Seq<u8>)
    decreases s.len(), 3int,
{
    match value(s) {
        Ok((first, rest)) => if rest.len() < s.len() {
            let (others, end) = values(rest);
            (seq![first] + others, end)
        } else {
            (Seq::empty(), s)
        },
        Err(_) => (Seq::empty(), s),
    }
}

/// A list: one or more values between `l` and `e`.
pub open spec fn list(s: Seq<u8>) -> Parsed<Seq<Bencode>>
    decreases s.len(), 1int,
{
    if !starts_with(s, LIST_START) {
        Err(failure_at(s, ErrorKind::Tag))
    } else {
        let body = s.skip(1);
        match value(body) {
            Err(e) => Err(failure_within(body, ErrorKind::Many1, e)),
            Ok(_) => {
                let (items, after) = values(body);
                if starts_with(after, END) {
                    Ok((items, after.skip(1)))
                } else {
                    Err(failure_at(after, ErrorKind::Tag))
                }
            },
        }
    }
}

/// A dictionary entry: a byte string, the key, and the value under it.
pub open spec fn entry(s: Seq<u8>) -> Parsed<(Seq<u8>, Bencode)>
    decreases s.len(), 3int,
{
    match byte_string(s) {
        Err(e) => Err(e),
        Ok((key, after)) => {
            proof {
                lemma_digit_run(s);
            }
            match value(after) {
                Err(e) => Err(e),
                Ok((value, rest)) => Ok(((key, value), rest)),
            }
        },
    }
}

/// As many entries as can be read from `s` one after the other, with the
/// bytes after the last of them.
pub open spec fn entries(s: Seq<u8>) -> (Seq<(Seq<u8>, Bencode)>, Seq<u8>)
    decreases s.len(), 4int,
{
    match entry(s) {
        Ok((first, rest)) => if rest.len() < s.len() {
            let (others, end) = entries(rest);
            (seq![first] + others, end)
        } else {
            (Seq::empty(), s)
        },
        Err(_) => (Seq::empty(), s),
    }
}

/// The mapping that entries build up when each is put in turn: where a key
/// comes twice the later entry wins.
pub open spec fn dictionary_of(pairs: Seq<(Seq<u8>, Bencode)>) -> Map<Seq<u8>, Bencode>
    decreases pairs.len(),
{
    if pairs.len() == 0 {
        Map::empty()
    } else {
        dictionary_of(pairs.drop_last()).insert(pairs.last().0, pairs.last().1)
    }
}

/// A dictionary: one or more entries between `d` and `e`, in any order of
/// keys.
pub open spec fn dictionary(s: Seq<u8>) -> Parsed<Map<Seq<u8>, Bencode>>
    decreases s.len(), 1int,
{
    if !starts_with(s, DICTIONARY_START) {
        Err(failure_at(s, ErrorKind::Tag))
    } else {
        let body = s.skip(1);
        match entry(body) {
            Err(e) => Err(failure_within(body, ErrorKind::Many1, e)),
            Ok(_) => {
                let (pairs, after) = entries(body);
                if starts_with(after, END) {
                    Ok((dictionary_of(pairs), after.skip(1)))
                } else {
                    Err(failure_at(after, ErrorKind::Tag))
                }
            },
        }
    }
}

/// A value begins with `i`, a digit, `l` or `d`, and an entry with a digit:
/// on other input no value and no entry is found.
pub proof fn lemma_first_byte_decides(s: Seq<u8>)
    ensures
        !starts_with(s, INTEGER_START) ==> integer(s) is Err,
        !(s.len() > 0 && is_digit(s[0])) ==> byte_string(s) is Err && entry(s) is Err
            && entries(s) == (Seq::<(Seq<u8>, Bencode)>::empty(), s),
        !starts_with(s, LIST_START) ==> list(s) is Err,
        !starts_with(s, DICTIONARY_START) ==> dictionary(s) is Err,
        !(starts_with(s, INTEGER_START) || (s.len() > 0 && is_digit(s[0])) || starts_with(
            s,
            LIST_START,
        ) || starts_with(s, DICTIONARY_START)) ==> value(s) is Err && values(s) == (
            Seq::<Bencode>::empty(),
            s,
        ),
{
    lemma_digit_run(s);
}

/// `rest` is what is left of `s` after one or more of its bytes.
pub open spec fn is_proper_suffix(rest: Seq<u8>, s: Seq<u8>) -> bool {
    rest.len() < s.len() && rest == s.skip(s.len() - rest.len())
}

/// `rest` is what is left of `s` after none, some or all of its bytes.
pub open spec fn is_suffix(rest: Seq<u8>, s: Seq<u8>) -> bool {
    rest.len() <= s.len() && rest == s.skip(s.len() - rest.len())
}

/// A suffix of a suffix is a suffix.
pub proof fn lemma_suffix_of_suffix(a: Seq<u8>, b: Seq<u8>, c: Seq<u8>)
    requires
        is_suffix(a, b),
        is_suffix(b, c),
    ensures
        is_suffix(a, c),
        b.len() < c.len() || a.len() < b.len() ==> is_proper_suffix(a, c),
{
    assert(a =~= c.skip(c.len() - a.len()));
}

/// An integer token is `i`, the numeral and `e`, and what follows them is
/// left to read.
pub proof fn lemma_num_consumes(s: Seq<u8>)
    ensures
        integer_token(s) matches Ok((numeral, rest)) ==> {
            &&& s =~= seq![INTEGER_START] + numeral + seq![END] + rest
            &&& is_proper_suffix(rest, s)
        },
{
    if let Ok((numeral, rest)) = integer_token(s) {
        let body = s.skip(1);
        lemma_digit_run(body);
        lemma_digit_run(body.skip(1));
        assert(rest =~= s.skip(s.len() - rest.len()));
    }
}

/// The numeral of an integer token is canonical, and so a signed decimal
/// numeral.
pub proof fn lemma_numeral_is_canonical(s: Seq<u8>)
    ensures
        integer_token(s) matches Ok((numeral, _)) ==> is_canonical_integer(numeral)
            && is_signed_decimal(numeral),
{
    if let Ok((numeral, rest)) = integer_token(s) {
        let body = s.skip(1);
        lemma_digit_run(body);
        lemma_digit_run(body.skip(1));
        if body.len() > 0 && is_nonzero_digit(body[0]) {
        } else if body.len() > 1 && body[0] == MINUS && is_nonzero_digit(body[1]) {
            assert(numeral.skip(1) =~= body.skip(1).take(digit_run(body.skip(1)) as int));
        } else {
            assert(numeral =~= seq![DIGIT_ZERO]);
        }
    }
}

/// A byte string is its length, a colon and its bytes, and what follows
/// them is left to read.
pub proof fn lemma_string_consumes(s: Seq<u8>)
    ensures
        byte_string(s) matches Ok((bytes, rest)) ==> {
            &&& s =~= s.take(digit_run(s) as int) + seq![COLON] + bytes + rest
            &&& bytes.len() == decimal_value(s.take(digit_run(s) as int))
            &&& is_proper_suffix(rest, s)
        },
{
    if let Ok((bytes, rest)) = byte_string(s) {
        lemma_digit_run(s);
        assert(rest =~= s.skip(s.len() - rest.len()));
    }
}

/// A value is never empty: what is left to read after it is a proper suffix
/// of the input.
pub proof fn lemma_value_consumes(s: Seq<u8>)
    ensures
        value(s) matches Ok((_, rest)) ==> is_proper_suffix(rest, s),
    decreases s.len(), 2int,
{
    lemma_num_consumes(s);
    lemma_string_consumes(s);
    lemma_list_consumes(s);
    lemma_dict_consumes(s);
}

/// What is left after a run of values is a suffix of the input.
pub proof fn lemma_values_consume(s: Seq<u8>)
    ensures
        is_suffix(values(s).1, s),
        value(s) is Ok ==> is_proper_suffix(values(s).1, s) && values(s).0.len() > 0,
    decreases s.len(), 3int,
{
    lemma_value_consumes(s);
    if let Ok((_, rest)) = value(s) {
        lemma_values_consume(rest);
        lemma_suffix_of_suffix(values(rest).1, rest, s);
    } else {
        assert(s =~= s.skip(0));
    }
}

/// A list is never empty: what is left to read after it is a proper suffix
/// of the input.
pub proof fn lemma_list_consumes(s: Seq<u8>)
    ensures
        list(s) matches Ok((items, rest)) ==> is_proper_suffix(rest, s) && items.len() > 0,
    decreases s.len(), 1int,
{
    if let Ok((_, rest)) = list(s) {
        let body = s.skip(1);
        lemma_values_consume(body);
        let after = values(body).1;
        assert(rest =~= s.skip(s.len() - rest.len()));
    }
}

/// An entry is never empty: what is left to read after it is a proper suffix
/// of the input.
pub proof fn lemma_entry_consumes(s: Seq<u8>)
    ensures
        entry(s) matches Ok((_, rest)) ==> is_proper_suffix(rest, s),
    decreases s.len(), 3int,
{
    lemma_string_consumes(s);
    if let Ok((_, after)) = byte_string(s) {
        lemma_value_consumes(after);
        if let Ok((_, rest)) = value(after) {
            lemma_suffix_of_suffix(rest, after, s);
        }
    }
}

/// The mapping of one or more entries holds the key of the last of them.
pub proof fn lemma_dictionary_of_holds_last(pairs: Seq<(Seq<u8>, Bencode)>)
    requires
        pairs.len() > 0,
    ensures
        dictionary_of(pairs).contains_key(pairs.last().0),
        dictionary_of(pairs)[pairs.last().0] == pairs.last().1,
{
}

/// What is left after a run of entries is a suffix of the input.
pub proof fn lemma_entries_consume(s: Seq<u8>)
    ensures
        is_suffix(entries(s).1, s),
        entry(s) is Ok ==> is_proper_suffix(entries(s).1, s) && entries(s).0.len() > 0,
    decreases s.len(), 4int,
{
    lemma_entry_consumes(s);
    if let Ok((_, rest)) = entry(s) {
        lemma_entries_consume(rest);
        lemma_suffix_of_suffix(entries(rest).1, rest, s);
    } else {
        assert(s =~= s.skip(0));
    }
}

/// A dictionary is never empty: what is left to read after it is a proper
/// suffix of the input, and the mapping holds a key.
pub proof fn lemma_dict_consumes(s: Seq<u8>)
    ensures
        dictionary(s) matches Ok((mapping, rest)) ==> is_proper_suffix(rest, s) && exists|
            key: Seq<u8>,
        | mapping.contains_key(key),
    decreases s.len(), 1int,
{
    if let Ok((mapping, rest)) = dictionary(s) {
        let body = s.skip(1);
        lemma_entries_consume(body);
        assert(rest =~= s.skip(s.len() - rest.len()));
        lemma_dictionary_of_holds_last(entries(body).0);
        assert(mapping.contains_key(entries(body).0.last().0));
    }
}

} // verus!
