//! The executable parsers, each held to the grammar.

use crate::decimal::{
    digit_run, is_digit, leading_u64, lemma_digit_run, lemma_digit_run_is, signed_decimal_to_i64,
    DIGIT_NINE, DIGIT_ONE, DIGIT_ZERO, MINUS,
};
use crate::grammar;
use crate::grammar::{Parsed, COLON, DICTIONARY_START, END, INTEGER_START, LIST_START};
use crate::lexical::strictly_ascending;
use crate::value::{items_model, Bencode};
use vstd::prelude::*;
use vstd::slice::slice_subrange;

pub use crate::error::{BencodeSchemaError, BencodeSchemaErrorKinds, ErrorKind};
pub use crate::value::{BencodeDict, BencodeItemView};

verus! {

/// What a parser of bytes returned, in the terms of the grammar.
pub open spec fn bytes_outcome(r: Result<(&[u8], &[u8]), BencodeSchemaError>) -> Parsed<Seq<u8>> {
    match r {
        Ok((rest, found)) => Ok((found@, rest@)),
        Err(e) => Err(e@),
    }
}

/// What a parser of values returned, in the terms of the grammar.
pub open spec fn value_outcome(r: Result<(&[u8], BencodeItemView), BencodeSchemaError>) -> Parsed<
    Bencode,
> {
    match r {
        Ok((rest, found)) => Ok((found@, rest@)),
        Err(e) => Err(e@),
    }
}

/// What the parser of lists returned, in the terms of the grammar.
pub open spec fn list_outcome(
    r: Result<(&[u8], Vec<BencodeItemView>), BencodeSchemaError>,
) -> Parsed<Seq<Bencode>> {
    match r {
        Ok((rest, found)) => Ok((items_model(found@), rest@)),
        Err(e) => Err(e@),
    }
}

/// What the parser of dictionaries returned, in the terms of the grammar.
pub open spec fn dict_outcome(r: Result<(&[u8], BencodeDict), BencodeSchemaError>) -> Parsed<
    Map<Seq<u8>, Bencode>,
> {
    match r {
        Ok((rest, found)) => Ok((found@, rest@)),
        Err(e) => Err(e@),
    }
}

/// Whether `c` is one of the ASCII digits `1` to `9`.
pub fn is_non_zero_num(c: u8) -> (r: bool)
    ensures
        r == (DIGIT_ONE <= c <= DIGIT_NINE),
{
    DIGIT_ONE <= c && c <= DIGIT_NINE
}

/// The length of the run of digits at the head of `s`.
fn count_digits(s: &[u8]) -> (n: usize)
    ensures
        n == digit_run(s@),
{
    let mut n: usize = 0;
    while n < s.len() && DIGIT_ZERO <= s[n] && s[n] <= DIGIT_NINE
        invariant
            n <= s.len(),
            forall|j: int| 0 <= j < n ==> is_digit(#[trigger] s@[j]),
        decreases s.len() - n,
    {
        n += 1;
    }
    proof {
        lemma_digit_run_is(s@, n as int);
    }
    n
}

/// Parses an integer token, `i` *numeral* `e`, and returns the numeral as it
/// stands in the input, not converted. The numeral is canonical: leading
/// zeros and a negative zero are rejected.
pub fn parse_bencode_num<'a>(input: &'a [u8]) -> (r: Result<
    (&'a [u8], &'a [u8]),
    BencodeSchemaError,
>)
    ensures
        bytes_outcome(r) == grammar::integer_token(input@),
{
    if input.len() == 0 || input[0] != INTEGER_START {
        return Err(BencodeSchemaError::from_error_kind(input, ErrorKind::Tag));
    }
    let body = slice_subrange(input, 1, input.len());
    let n: usize = if body.len() > 0 && is_non_zero_num(body[0]) {
        count_digits(body)
    } else if body.len() > 1 && body[0] == MINUS && is_non_zero_num(body[1]) {
        let digits = slice_subrange(body, 1, body.len());
        proof {
            lemma_digit_run(digits@);
        }
        1 + count_digits(digits)
    } else if body.len() > 0 && body[0] == DIGIT_ZERO {
        1
    } else {
        let inner = BencodeSchemaError::from_error_kind(body, ErrorKind::Tag);
        return Err(BencodeSchemaError::append(body, ErrorKind::Alt, inner));
    };
    proof {
        lemma_digit_run(body@);
    }
    let after = slice_subrange(body, n, body.len());
    if after.len() > 0 && after[0] == END {
        Ok((slice_subrange(after, 1, after.len()), slice_subrange(body, 0, n)))
    } else {
        Err(BencodeSchemaError::from_error_kind(after, ErrorKind::Tag))
    }
}

/// Parses a byte string, *length* `:` *bytes*, and returns the bytes as
/// they stand in the input. Fails where fewer bytes are left than the length
/// says.
pub fn parse_bencode_string<'a>(input: &'a [u8]) -> (r: Result<
    (&'a [u8], &'a [u8]),
    BencodeSchemaError,
>)
    ensures
        bytes_outcome(r) == grammar::byte_string(input@),
{
    let (after, len) = match leading_u64(input) {
        Some(found) => found,
        None => {
            return Err(BencodeSchemaError::from_error_kind(input, ErrorKind::Digit));
        },
    };
    if after.len() == 0 || after[0] != COLON {
        return Err(BencodeSchemaError::from_error_kind(after, ErrorKind::Tag));
    }
    let payload = slice_subrange(after, 1, after.len());
    if (payload.len() as u64) < len {
        return Err(BencodeSchemaError::from_error_kind(payload, ErrorKind::Eof));
    }
    let n = len as usize;
    Ok((slice_subrange(payload, n, payload.len()), slice_subrange(payload, 0, n)))
}

/// Parses an integer, `i` *numeral* `e`, and converts the numeral. Fails
/// where the numeral is outside the 64-bit signed range.
pub fn parse_bencode_integer<'a>(input: &'a [u8]) -> (r: Result<
    (&'a [u8], BencodeItemView<'a>),
    BencodeSchemaError,
>)
    ensures
        value_outcome(r) == grammar::integer(input@),
{
    let (rest, numeral) = match parse_bencode_num(input) {
        Ok(found) => found,
        Err(e) => {
            return Err(e);
        },
    };
    proof {
        grammar::lemma_numeral_is_canonical(input@);
    }
    match signed_decimal_to_i64(numeral) {
        Some(n) => Ok((rest, BencodeItemView::Integer(n))),
        None => Err(BencodeSchemaError::from_error_kind(input, ErrorKind::MapRes)),
    }
}

/// Parses one value: an integer, a byte string, a list or a dictionary,
/// tried in this order, and returns it with the input that is left. Where
/// none matches, the failure wraps the one that got furthest.
pub fn bencode_value<'a>(input: &'a [u8]) -> (r: Result<
    (&'a [u8], BencodeItemView<'a>),
    BencodeSchemaError,
>)
    ensures
        value_outcome(r) == grammar::value(input@),
    decreases input.len(), 2int,
{
    proof {
        grammar::lemma_first_byte_decides(input@);
    }
    // The four alternatives begin with different bytes, so at most one of
    // them can get past the first byte: that one decides.
    let tried = if input.len() > 0 && input[0] == INTEGER_START {
        parse_bencode_integer(input)
    } else if input.len() > 0 && DIGIT_ZERO <= input[0] && input[0] <= DIGIT_NINE {
        match parse_bencode_string(input) {
            Ok((rest, bytes)) => Ok((rest, BencodeItemView::ByteString(bytes))),
            Err(e) => Err(e),
        }
    } else if input.len() > 0 && input[0] == LIST_START {
        match parse_bencode_list(input) {
            Ok((rest, items)) => Ok((rest, BencodeItemView::List(items))),
            Err(e) => Err(e),
        }
    } else {
        match parse_bencode_dict(input) {
            Ok((rest, mapping)) => Ok((rest, BencodeItemView::Dictionary(mapping))),
            Err(e) => Err(e),
        }
    };
    match tried {
        Ok(found) => Ok(found),
        Err(e) => Err(BencodeSchemaError::append(input, ErrorKind::Alt, e)),
    }
}

/// Parses a list, `l` *value*+ `e`, and returns its values in the order of
/// the input. A list without a value is rejected.
pub fn parse_bencode_list<'a>(input: &'a [u8]) -> (r: Result<
    (&'a [u8], Vec<BencodeItemView<'a>>),
    BencodeSchemaError,
>)
    ensures
        list_outcome(r) == grammar::list(input@),
    decreases input.len(), 1int,
{
    if input.len() == 0 || input[0] != LIST_START {
        return Err(BencodeSchemaError::from_error_kind(input, ErrorKind::Tag));
    }
    let body = slice_subrange(input, 1, input.len());
    let (after_first, first) = match bencode_value(body) {
        Ok(found) => found,
        Err(e) => {
            return Err(BencodeSchemaError::append(body, ErrorKind::Many1, e));
        },
    };
    let mut items: Vec<BencodeItemView<'a>> = Vec::new();
    items.push(first);
    let mut left = after_first;
    proof {
        grammar::lemma_value_consumes(body@);
        assert(items_model(items@) =~= seq![first@]);
    }
    loop
        invariant
            left.len() < body.len(),
            body.len() < input.len(),
            grammar::values(body@) == (
                items_model(items@) + grammar::values(left@).0,
                grammar::values(left@).1,
            ),
        ensures
            grammar::values(body@) == (items_model(items@), left@),
        decreases left.len(),
    {
        // At the closing `e`, or at the end of the input, no value follows.
        if left.len() == 0 || left[0] == END {
            proof {
                grammar::lemma_first_byte_decides(left@);
                assert(items_model(items@) + Seq::<Bencode>::empty() =~= items_model(items@));
            }
            break ;
        }
        match bencode_value(left) {
            Ok((rest, item)) => {
                proof {
                    grammar::lemma_value_consumes(left@);
                    assert(items_model(items@.push(item)) =~= items_model(items@).push(item@));
                    assert(items_model(items@).push(item@) + grammar::values(rest@).0
                        =~= items_model(items@) + (seq![item@] + grammar::values(rest@).0));
                }
                items.push(item);
                left = rest;
            },
            Err(_) => {
                break ;
            },
        }
    }
    if left.len() > 0 && left[0] == END {
        Ok((slice_subrange(left, 1, left.len()), items))
    } else {
        Err(BencodeSchemaError::from_error_kind(left, ErrorKind::Tag))
    }
}

/// Parses a dictionary entry: a byte string, the key, and the value under
/// it.
fn parse_entry<'a>(input: &'a [u8]) -> (r: Result<
    (&'a [u8], (&'a [u8], BencodeItemView<'a>)),
    BencodeSchemaError,
>)
    ensures
        match r {
            Ok((rest, (key, found))) => grammar::entry(input@) == Parsed::<
                (Seq<u8>, Bencode),
            >::Ok(((key@, found@), rest@)),
            Err(e) => grammar::entry(input@) == Parsed::<(Seq<u8>, Bencode)>::Err(e@),
        },
    decreases input.len(), 3int,
{
    let (after, key) = match parse_bencode_string(input) {
        Ok(found) => found,
        Err(e) => {
            return Err(e);
        },
    };
    proof {
        grammar::lemma_string_consumes(input@);
    }
    match bencode_value(after) {
        Ok((rest, found)) => Ok((rest, (key, found))),
        Err(e) => Err(e),
    }
}

/// Parses a dictionary, `d` (*byte string* *value*)+ `e`, and returns the
/// mapping from its keys to its values. The keys may come in any order and
/// are handed out in ascending order; where a key comes twice the later
/// entry wins. A dictionary without an entry is rejected.
pub fn parse_bencode_dict<'a>(input: &'a [u8]) -> (r: Result<
    (&'a [u8], BencodeDict<'a>),
    BencodeSchemaError,
>)
    ensures
        dict_outcome(r) == grammar::dictionary(input@),
        r matches Ok((_, found)) ==> strictly_ascending(found.keys()),
    decreases input.len(), 1int,
{
    if input.len() == 0 || input[0] != DICTIONARY_START {
        return Err(BencodeSchemaError::from_error_kind(input, ErrorKind::Tag));
    }
    let body = slice_subrange(input, 1, input.len());
    let (after_first, (first_key, first_value)) = match parse_entry(body) {
        Ok(found) => found,
        Err(e) => {
            return Err(BencodeSchemaError::append(body, ErrorKind::Many1, e));
        },
    };
    let mut mapping = BencodeDict::new();
    mapping.insert(first_key, first_value);
    let mut left = after_first;
    let ghost mut pairs: Seq<(Seq<u8>, Bencode)> = seq![(first_key@, first_value@)];
    proof {
        grammar::lemma_entry_consumes(body@);
        assert(pairs.drop_last() =~= Seq::<(Seq<u8>, Bencode)>::empty());
        reveal_with_fuel(grammar::dictionary_of, 2);
    }
    loop
        invariant
            left.len() < body.len(),
            body.len() < input.len(),
            mapping@ == grammar::dictionary_of(pairs),
            strictly_ascending(mapping.keys()),
            grammar::entries(body@) == (
                pairs + grammar::entries(left@).0,
                grammar::entries(left@).1,
            ),
        ensures
            mapping@ == grammar::dictionary_of(pairs),
            strictly_ascending(mapping.keys()),
            grammar::entries(body@) == (pairs, left@),
        decreases left.len(),
    {
        // At the closing `e`, or at the end of the input, no entry follows.
        if left.len() == 0 || left[0] == END {
            proof {
                grammar::lemma_first_byte_decides(left@);
                assert(pairs + Seq::<(Seq<u8>, Bencode)>::empty() =~= pairs);
            }
            break ;
        }
        match parse_entry(left) {
            Ok((rest, (key, found))) => {
                proof {
                    grammar::lemma_entry_consumes(left@);
                    let pair = (key@, found@);
                    assert(pairs.push(pair).drop_last() =~= pairs);
                    assert(pairs.push(pair) + grammar::entries(rest@).0 =~= pairs + (seq![pair]
                        + grammar::entries(rest@).0));
                    pairs = pairs.push(pair);
                }
                mapping.insert(key, found);
                left = rest;
            },
            Err(_) => {
                break ;
            },
        }
    }
    if left.len() > 0 && left[0] == END {
        Ok((slice_subrange(left, 1, left.len()), mapping))
    } else {
        Err(BencodeSchemaError::from_error_kind(left, ErrorKind::Tag))
    }
}

} // verus!
