//! What holds of the grammar on every input.

use crate::decimal::{
    canonical_numeral, decimal_value, digit_run, digits_of, is_canonical_integer, is_digit,
    is_nonzero_digit, lemma_digit_run, lemma_digit_run_is, lemma_digits_of,
    lemma_digits_of_value, lemma_leading_digit_counts, signed_value, DIGIT_ZERO, MINUS,
};
use crate::error::Failure;
use crate::grammar::{
    byte_string, dictionary, dictionary_of, entries, entry, integer_token, lemma_entry_consumes,
    lemma_first_byte_decides, lemma_num_consumes, lemma_numeral_is_canonical,
    lemma_string_consumes, lemma_value_consumes, list, starts_with, value, values, COLON,
    DICTIONARY_START, END, INTEGER_START, LIST_START,
};
use crate::value::Bencode;
use vstd::prelude::*;

verus! {

/// The encoding of the integer `v`: `i`, its canonical numeral, `e`.
pub open spec fn encoded_integer(v: int) -> Seq<u8> {
    seq![INTEGER_START] + canonical_numeral(v) + seq![END]
}

/// The canonical numeral of an integer is canonical and writes that
/// integer.
pub proof fn law_canonical_numeral(v: int)
    ensures
        is_canonical_integer(canonical_numeral(v)),
        signed_value(canonical_numeral(v)) == v,
{
    if v < 0 {
        let digits = digits_of((-v) as nat);
        lemma_digits_of((-v) as nat);
        assert(canonical_numeral(v).skip(1) =~= digits);
        assert(canonical_numeral(v)[1] == digits[0]);
    } else {
        lemma_digits_of(v as nat);
    }
}

/// A canonical numeral is the canonical numeral of the integer it writes:
/// encoding what was parsed gives back the bytes that were parsed.
pub proof fn law_numeral_round_trip(numeral: Seq<u8>)
    requires
        is_canonical_integer(numeral),
    ensures
        canonical_numeral(signed_value(numeral)) == numeral,
{
    if numeral =~= seq![DIGIT_ZERO] {
        lemma_digits_of_value(numeral);
    } else if is_nonzero_digit(numeral[0]) {
        lemma_digits_of_value(numeral);
    } else {
        let digits = numeral.skip(1);
        assert(digits[0] == numeral[1]);
        lemma_digits_of_value(digits);
        lemma_leading_digit_counts(digits);
        assert(canonical_numeral(signed_value(numeral)) =~= numeral);
    }
}

/// An integer token with a canonical numeral is accepted, whatever follows
/// it, and hands out the numeral and what follows.
pub proof fn law_canonical_token_accepted(numeral: Seq<u8>, rest: Seq<u8>)
    requires
        is_canonical_integer(numeral),
    ensures
        integer_token(seq![INTEGER_START] + numeral + seq![END] + rest) == Ok::<
            (Seq<u8>, Seq<u8>),
            Failure,
        >((numeral, rest)),
{
    let s = seq![INTEGER_START] + numeral + seq![END] + rest;
    let body = s.skip(1);
    let n = numeral.len() as int;
    assert(body =~= numeral + seq![END] + rest);
    assert(body[n] == END);
    if numeral =~= seq![DIGIT_ZERO] {
    } else if is_nonzero_digit(numeral[0]) {
        assert forall|j: int| 0 <= j < n implies is_digit(#[trigger] body[j]) by {
            assert(body[j] == numeral[j]);
        }
        lemma_digit_run_is(body, n);
    } else {
        let tail = body.skip(1);
        assert forall|j: int| 0 <= j < n - 1 implies is_digit(#[trigger] tail[j]) by {
            assert(tail[j] == numeral.skip(1)[j]);
        }
        assert(tail[n - 1] == END);
        lemma_digit_run_is(tail, n - 1);
    }
    assert(body.take(n) =~= numeral);
    assert(body.skip(n).skip(1) =~= rest);
}

/// An integer token is accepted only as `i`, a canonical numeral and `e`:
/// leading zeros, a negative zero, letters and a missing marker are all
/// rejected.
pub proof fn law_token_accepted_is_canonical(s: Seq<u8>)
    ensures
        integer_token(s) matches Ok((numeral, rest)) ==> is_canonical_integer(numeral) && s
            == seq![INTEGER_START] + numeral + seq![END] + rest,
        !starts_with(s, INTEGER_START) ==> integer_token(s) is Err,
{
    lemma_numeral_is_canonical(s);
    lemma_num_consumes(s);
}

/// A numeral with a leading zero and a negative zero are rejected.
pub proof fn law_leading_zero_rejected(s: Seq<u8>)
    requires
        s.len() > 2,
        s[0] == INTEGER_START,
        (s[1] == DIGIT_ZERO && is_digit(s[2])) || (s[1] == MINUS && s[2] == DIGIT_ZERO),
    ensures
        integer_token(s) is Err,
        value(s) is Err,
{
    lemma_first_byte_decides(s);
    lemma_digit_run(s);
}

/// Every integer of the 64-bit signed range, written canonically, parses to
/// itself, whatever follows it.
pub proof fn law_integer_parses(v: int, rest: Seq<u8>)
    requires
        i64::MIN <= v <= i64::MAX,
    ensures
        value(encoded_integer(v) + rest) == Ok::<(Bencode, Seq<u8>), Failure>(
            (Bencode::Integer(v), rest),
        ),
{
    law_canonical_numeral(v);
    law_canonical_token_accepted(canonical_numeral(v), rest);
}

/// A canonical numeral in the 64-bit signed range, between `i` and `e`,
/// parses to the integer that it writes, and the canonical encoding of that
/// integer is the bytes that were parsed.
pub proof fn law_canonical_integer(numeral: Seq<u8>, rest: Seq<u8>)
    requires
        is_canonical_integer(numeral),
        i64::MIN <= signed_value(numeral) <= i64::MAX,
    ensures
        value(seq![INTEGER_START] + numeral + seq![END] + rest) == Ok::<
            (Bencode, Seq<u8>),
            Failure,
        >((Bencode::Integer(signed_value(numeral)), rest)),
        encoded_integer(signed_value(numeral)) == seq![INTEGER_START] + numeral + seq![END],
{
    law_canonical_token_accepted(numeral, rest);
    law_numeral_round_trip(numeral);
}

/// The encoding of the byte string `bytes`: its length in digits without a
/// leading zero, a colon, and the bytes.
pub open spec fn encoded_string(bytes: Seq<u8>) -> Seq<u8> {
    digits_of(bytes.len()) + seq![COLON] + bytes
}

/// Every byte string whose length fits in 64 bits, written with its length
/// in front, parses to itself, whatever follows it.
pub proof fn law_string_parses(bytes: Seq<u8>, rest: Seq<u8>)
    requires
        bytes.len() <= u64::MAX,
    ensures
        byte_string(encoded_string(bytes) + rest) == Ok::<(Seq<u8>, Seq<u8>), Failure>(
            (bytes, rest),
        ),
        value(encoded_string(bytes) + rest) == Ok::<(Bencode, Seq<u8>), Failure>(
            (Bencode::ByteString(bytes), rest),
        ),
{
    let length = digits_of(bytes.len());
    let s = encoded_string(bytes) + rest;
    let n = length.len() as int;
    lemma_digits_of(bytes.len());
    assert forall|j: int| 0 <= j < n implies is_digit(#[trigger] s[j]) by {
        assert(s[j] == length[j]);
    }
    assert(s[n] == COLON);
    lemma_digit_run_is(s, n);
    assert(s.take(n) =~= length);
    let payload = s.skip(n).skip(1);
    assert(payload =~= bytes + rest);
    assert(payload.take(bytes.len() as int) =~= bytes);
    assert(payload.skip(bytes.len() as int) =~= rest);
    lemma_first_byte_decides(s);
}

/// A byte string with fewer bytes behind the colon than its length says is
/// rejected.
pub proof fn law_truncated_string_rejected(s: Seq<u8>)
    requires
        digit_run(s) < s.len(),
        s[digit_run(s) as int] == COLON,
        s.len() - digit_run(s) - 1 < decimal_value(s.take(digit_run(s) as int)),
    ensures
        byte_string(s) is Err,
        value(s) is Err,
{
    lemma_first_byte_decides(s);
    lemma_digit_run(s);
}

/// An integer token that is accepted is accepted with more input behind it,
/// and the input added is left to read.
proof fn lemma_token_extends(s: Seq<u8>, t: Seq<u8>)
    ensures
        integer_token(s) matches Ok((numeral, rest)) ==> integer_token(s + t) == Ok::<
            (Seq<u8>, Seq<u8>),
            Failure,
        >((numeral, rest + t)),
{
    if let Ok((numeral, rest)) = integer_token(s) {
        law_token_accepted_is_canonical(s);
        law_canonical_token_accepted(numeral, rest + t);
        assert(s + t =~= seq![INTEGER_START] + numeral + seq![END] + (rest + t));
    }
}

/// A byte string that is accepted is accepted with more input behind it,
/// and the input added is left to read.
proof fn lemma_string_extends(s: Seq<u8>, t: Seq<u8>)
    ensures
        byte_string(s) matches Ok((bytes, rest)) ==> byte_string(s + t) == Ok::<
            (Seq<u8>, Seq<u8>),
            Failure,
        >((bytes, rest + t)),
{
    if let Ok((bytes, rest)) = byte_string(s) {
        let n = digit_run(s) as int;
        let u = s + t;
        lemma_digit_run(s);
        assert(s[n] == COLON);
        assert forall|j: int| 0 <= j < n implies is_digit(#[trigger] u[j]) by {
            assert(u[j] == s.take(n)[j]);
        }
        assert(u[n] == COLON);
        lemma_digit_run_is(u, n);
        assert(u.take(n) =~= s.take(n));
        let payload = s.skip(n).skip(1);
        let len = decimal_value(s.take(n)) as int;
        assert(u.skip(n).skip(1) =~= payload + t);
        assert((payload + t).take(len) =~= payload.take(len));
        assert((payload + t).skip(len) =~= payload.skip(len) + t);
    }
}

/// A value that is accepted is accepted with more input behind it, and the
/// input added is left to read.
pub proof fn law_value_extends(s: Seq<u8>, t: Seq<u8>)
    ensures
        value(s) matches Ok((found, rest)) ==> value(s + t) == Ok::<
            (Bencode, Seq<u8>),
            Failure,
        >((found, rest + t)),
    decreases s.len(), 2int,
{
    if value(s) is Ok {
        lemma_first_byte_decides(s);
        lemma_first_byte_decides(s + t);
        assert(s.len() > 0);
        assert((s + t)[0] == s[0]);
        lemma_token_extends(s, t);
        lemma_string_extends(s, t);
        lemma_list_extends(s, t);
        lemma_dictionary_extends(s, t);
    }
}

/// A run of values that ends at a closing `e` reads the same with more
/// input behind it.
proof fn lemma_values_extend(s: Seq<u8>, t: Seq<u8>)
    requires
        starts_with(values(s).1, END),
    ensures
        values(s + t) == (values(s).0, values(s).1 + t),
    decreases s.len(), 3int,
{
    lemma_value_consumes(s);
    match value(s) {
        Ok((_, rest)) => {
            law_value_extends(s, t);
            lemma_values_extend(rest, t);
        },
        Err(_) => {
            lemma_first_byte_decides(s + t);
            assert((s + t)[0] == s[0]);
        },
    }
}

/// A list that is accepted is accepted with more input behind it.
proof fn lemma_list_extends(s: Seq<u8>, t: Seq<u8>)
    ensures
        list(s) matches Ok((items, rest)) ==> list(s + t) == Ok::<
            (Seq<Bencode>, Seq<u8>),
            Failure,
        >((items, rest + t)),
    decreases s.len(), 1int,
{
    if let Ok((items, rest)) = list(s) {
        let body = s.skip(1);
        assert((s + t).skip(1) =~= body + t);
        law_value_extends(body, t);
        lemma_values_extend(body, t);
        let after = values(body).1;
        assert((after + t).skip(1) =~= after.skip(1) + t);
    }
}

/// An entry that is accepted is accepted with more input behind it.
proof fn lemma_entry_extends(s: Seq<u8>, t: Seq<u8>)
    ensures
        entry(s) matches Ok((pair, rest)) ==> entry(s + t) == Ok::<
            ((Seq<u8>, Bencode), Seq<u8>),
            Failure,
        >((pair, rest + t)),
    decreases s.len(), 3int,
{
    if let Ok((pair, rest)) = entry(s) {
        lemma_string_extends(s, t);
        lemma_string_consumes(s);
        if let Ok((_, after)) = byte_string(s) {
            law_value_extends(after, t);
        }
    }
}

/// A run of entries that ends at a closing `e` reads the same with more
/// input behind it.
proof fn lemma_entries_extend(s: Seq<u8>, t: Seq<u8>)
    requires
        starts_with(entries(s).1, END),
    ensures
        entries(s + t) == (entries(s).0, entries(s).1 + t),
    decreases s.len(), 4int,
{
    lemma_entry_consumes(s);
    match entry(s) {
        Ok((_, rest)) => {
            lemma_entry_extends(s, t);
            lemma_entries_extend(rest, t);
        },
        Err(_) => {
            lemma_first_byte_decides(s + t);
            assert((s + t)[0] == s[0]);
        },
    }
}

/// A dictionary that is accepted is accepted with more input behind it.
proof fn lemma_dictionary_extends(s: Seq<u8>, t: Seq<u8>)
    ensures
        dictionary(s) matches Ok((mapping, rest)) ==> dictionary(s + t) == Ok::<
            (Map<Seq<u8>, Bencode>, Seq<u8>),
            Failure,
        >((mapping, rest + t)),
    decreases s.len(), 1int,
{
    if let Ok((mapping, rest)) = dictionary(s) {
        let body = s.skip(1);
        assert((s + t).skip(1) =~= body + t);
        lemma_entry_extends(body, t);
        lemma_entries_extend(body, t);
        let after = entries(body).1;
        assert((after + t).skip(1) =~= after.skip(1) + t);
    }
}

/// `encoding` is read as the value `found`, with nothing left over.
pub open spec fn encodes(encoding: Seq<u8>, found: Bencode) -> bool {
    value(encoding) == Ok::<(Bencode, Seq<u8>), Failure>((found, Seq::empty()))
}

/// The byte strings `parts` written one after the other.
pub open spec fn concatenated(parts: Seq<Seq<u8>>) -> Seq<u8>
    decreases parts.len(),
{
    if parts.len() == 0 {
        Seq::empty()
    } else {
        parts[0] + concatenated(parts.skip(1))
    }
}

/// The encodings of the entries: each key as a byte string, with the
/// encoding of its value behind it.
pub open spec fn encoded_entries(keys: Seq<Seq<u8>>, encodings: Seq<Seq<u8>>) -> Seq<Seq<u8>> {
    Seq::new(keys.len(), |i: int| encoded_string(keys[i]) + encodings[i])
}

/// The entries that keys and values make, pair by pair.
pub open spec fn paired(keys: Seq<Seq<u8>>, items: Seq<Bencode>) -> Seq<(Seq<u8>, Bencode)> {
    Seq::new(keys.len(), |i: int| (keys[i], items[i]))
}

/// Encodings of values written one after the other, before a closing `e`,
/// are read as those values in that order, up to the `e`.
proof fn lemma_values_of_encodings(encodings: Seq<Seq<u8>>, items: Seq<Bencode>, tail: Seq<u8>)
    requires
        encodings.len() == items.len(),
        forall|i: int| 0 <= i < encodings.len() ==> encodes(#[trigger] encodings[i], items[i]),
        starts_with(tail, END),
    ensures
        values(concatenated(encodings) + tail) == (items, tail),
    decreases encodings.len(),
{
    let s = concatenated(encodings) + tail;
    if encodings.len() == 0 {
        assert(s =~= tail);
        lemma_first_byte_decides(tail);
        assert(items =~= Seq::<Bencode>::empty());
    } else {
        let first = encodings[0];
        let others = encodings.skip(1);
        let after = concatenated(others) + tail;
        assert(encodes(first, items[0]));
        lemma_value_consumes(first);
        law_value_extends(first, after);
        assert(s =~= first + after);
        assert(Seq::<u8>::empty() + after =~= after);
        assert forall|i: int| 0 <= i < others.len() implies encodes(
            #[trigger] others[i],
            items.skip(1)[i],
        ) by {
            assert(encodes(encodings[i + 1], items[i + 1]));
        }
        lemma_values_of_encodings(others, items.skip(1), tail);
        assert(seq![items[0]] + items.skip(1) =~= items);
    }
}

/// One or more encodings of values between `l` and `e` are read as the list
/// of those values, in their order.
pub proof fn law_list_parses(encodings: Seq<Seq<u8>>, items: Seq<Bencode>, rest: Seq<u8>)
    requires
        encodings.len() > 0,
        encodings.len() == items.len(),
        forall|i: int| 0 <= i < encodings.len() ==> encodes(#[trigger] encodings[i], items[i]),
    ensures
        value(seq![LIST_START] + concatenated(encodings) + seq![END] + rest) == Ok::<
            (Bencode, Seq<u8>),
            Failure,
        >((Bencode::List(items), rest)),
{
    let s = seq![LIST_START] + concatenated(encodings) + seq![END] + rest;
    let tail = seq![END] + rest;
    let body = s.skip(1);
    assert(body =~= concatenated(encodings) + tail);
    lemma_values_of_encodings(encodings, items, tail);
    assert(tail.skip(1) =~= rest);
    // The first value is read from the head of the body.
    let first = encodings[0];
    let after = concatenated(encodings.skip(1)) + tail;
    assert(encodes(first, items[0]));
    law_value_extends(first, after);
    assert(body =~= first + after);
    lemma_first_byte_decides(s);
}

/// Encodings of entries written one after the other, before a closing `e`,
/// are read as those entries in that order, up to the `e`.
proof fn lemma_entries_of_encodings(
    keys: Seq<Seq<u8>>,
    encodings: Seq<Seq<u8>>,
    items: Seq<Bencode>,
    tail: Seq<u8>,
)
    requires
        keys.len() == encodings.len(),
        keys.len() == items.len(),
        forall|i: int| 0 <= i < keys.len() ==> (#[trigger] keys[i]).len() <= u64::MAX,
        forall|i: int| 0 <= i < encodings.len() ==> encodes(#[trigger] encodings[i], items[i]),
        starts_with(tail, END),
    ensures
        entries(concatenated(encoded_entries(keys, encodings)) + tail) == (
            paired(keys, items),
            tail,
        ),
        keys.len() > 0 ==> entry(concatenated(encoded_entries(keys, encodings)) + tail) is Ok,
    decreases keys.len(),
{
    let parts = encoded_entries(keys, encodings);
    let s = concatenated(parts) + tail;
    if keys.len() == 0 {
        assert(s =~= tail);
        lemma_first_byte_decides(tail);
        assert(paired(keys, items) =~= Seq::<(Seq<u8>, Bencode)>::empty());
    } else {
        let others = encoded_entries(keys.skip(1), encodings.skip(1));
        assert(parts.skip(1) =~= others);
        let after = concatenated(others) + tail;
        let behind_key = encodings[0] + after;
        assert(s =~= encoded_string(keys[0]) + behind_key);
        assert(keys[0].len() <= u64::MAX);
        law_string_parses(keys[0], behind_key);
        assert(encodes(encodings[0], items[0]));
        law_value_extends(encodings[0], after);
        assert(Seq::<u8>::empty() + after =~= after);
        lemma_entry_consumes(s);
        assert forall|i: int| 0 <= i < keys.len() - 1 implies (#[trigger] keys.skip(1)[i]).len()
            <= u64::MAX by {
            assert(keys[i + 1].len() <= u64::MAX);
        }
        assert forall|i: int| 0 <= i < encodings.len() - 1 implies encodes(
            #[trigger] encodings.skip(1)[i],
            items.skip(1)[i],
        ) by {
            assert(encodes(encodings[i + 1], items[i + 1]));
        }
        lemma_entries_of_encodings(keys.skip(1), encodings.skip(1), items.skip(1), tail);
        assert(seq![(keys[0], items[0])] + paired(keys.skip(1), items.skip(1)) =~= paired(
            keys,
            items,
        ));
    }
}

/// One or more entries between `d` and `e`, each a key written as a byte
/// string with the encoding of its value behind it, are read as the mapping
/// that the entries build up, whatever the order of the keys.
pub proof fn law_dictionary_parses(
    keys: Seq<Seq<u8>>,
    encodings: Seq<Seq<u8>>,
    items: Seq<Bencode>,
    rest: Seq<u8>,
)
    requires
        keys.len() > 0,
        keys.len() == encodings.len(),
        keys.len() == items.len(),
        forall|i: int| 0 <= i < keys.len() ==> (#[trigger] keys[i]).len() <= u64::MAX,
        forall|i: int| 0 <= i < encodings.len() ==> encodes(#[trigger] encodings[i], items[i]),
    ensures
        value(
            seq![DICTIONARY_START] + concatenated(encoded_entries(keys, encodings)) + seq![END]
                + rest,
        ) == Ok::<(Bencode, Seq<u8>), Failure>(
            (Bencode::Dictionary(dictionary_of(paired(keys, items))), rest),
        ),
{
    let s = seq![DICTIONARY_START] + concatenated(encoded_entries(keys, encodings)) + seq![END]
        + rest;
    let tail = seq![END] + rest;
    let body = s.skip(1);
    assert(body =~= concatenated(encoded_entries(keys, encodings)) + tail);
    lemma_entries_of_encodings(keys, encodings, items, tail);
    assert(tail.skip(1) =~= rest);
    lemma_first_byte_decides(s);
}

/// Two values written one after the other are read one after the other: the
/// first call hands out the first value and leaves the second encoding,
/// and a second call on what was left hands out the second value and leaves
/// nothing.
pub proof fn law_concatenation(first: Seq<u8>, second: Seq<u8>)
    requires
        value(first) matches Ok((_, rest)) && rest.len() == 0,
        value(second) matches Ok((_, rest)) && rest.len() == 0,
    ensures
        value(first + second) matches Ok((found, rest)) && found == value(first)->Ok_0.0 && rest
            == second && value(rest) == value(second),
{
    law_value_extends(first, second);
    let rest = value(first)->Ok_0.1;
    assert(rest + second =~= second);
}

} // verus!
