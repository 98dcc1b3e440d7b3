//! The value decoder: from the text of a value to the value it spells.
use crate::error::{ErrorKind, Fault, ParseError};
use crate::number::{
    integer_of, is_float, is_float_literal, magnitude, parse_integer, unsigned,
};
use crate::ordered_map::{distinct_keys, lemma_find_key, lemma_upsert_distinct, upsert, OrderedMap};
use crate::text::{
    ascending, chars_of, cut, indices, is_digit, pieces, run_end, slices, spells, string_of, trim,
    trimmed, CharClass,
};
use crate::value::{
    entries_view, lemma_entries_view_upsert, values_view, Datum, Entries, Value,
};
use vstd::prelude::*;

verus! {

/// How many arrays and objects with content may stand inside one another.
pub const MAX_DEPTH: usize = 64;

/// Where a reader stands within the brackets and quotes of a text.
pub struct Nesting {
    /// How many brackets are open.
    pub depth: nat,
    /// Whether a quote is open.
    pub quoted: bool,
}

impl Nesting {
    /// Outside every bracket and quote.
    pub open spec fn outermost(self) -> bool {
        self.depth == 0 && !self.quoted
    }

    /// Where the reader stands after `c`. A double quote opens or closes a quoted stretch, in
    /// which brackets do not count. Outside of one, `[` and `{` open a bracket, and `]` and `}`
    /// close one if any is open.
    pub open spec fn after(self, c: char) -> Nesting {
        if c == '"' {
            Nesting { depth: self.depth, quoted: !self.quoted }
        } else if self.quoted {
            self
        } else if c == '[' || c == '{' {
            Nesting { depth: self.depth + 1, quoted: false }
        } else if (c == ']' || c == '}') && self.depth > 0 {
            Nesting { depth: (self.depth - 1) as nat, quoted: false }
        } else {
            self
        }
    }
}

/// Where a reader stands after the first `n` characters of `s`.
pub open spec fn nesting(s: Seq<char>, n: int) -> Nesting
    decreases n,
{
    if n <= 0 {
        Nesting { depth: 0, quoted: false }
    } else {
        nesting(s, n - 1).after(s[n - 1])
    }
}

/// The indices below `n` of the commas of `s` that stand outside every bracket and quote, in
/// ascending order.
pub open spec fn top_commas(s: Seq<char>, n: int) -> Seq<int>
    decreases n,
{
    if n <= 0 {
        Seq::empty()
    } else if s[n - 1] == ',' && nesting(s, n - 1).outermost() {
        top_commas(s, n - 1).push(n - 1)
    } else {
        top_commas(s, n - 1)
    }
}

/// The pieces of `s` between the commas that stand outside every bracket and quote.
pub open spec fn split_top(s: Seq<char>) -> Seq<Seq<char>> {
    pieces(s, top_commas(s, s.len() as int))
}

/// The index at or after `from` of the first marker `==` in `s`, if there is one.
pub open spec fn marker_from(s: Seq<char>, from: int) -> Option<int>
    decreases s.len() - from,
{
    if from < 0 || from + 1 >= s.len() {
        None
    } else if s[from] == '=' && s[from + 1] == '=' {
        Some(from)
    } else {
        marker_from(s, from + 1)
    }
}

/// `s` starts with `first`, ends with `last`, and these are two characters of it.
pub open spec fn enclosed(s: Seq<char>, first: char, last: char) -> bool {
    s.len() >= 2 && s[0] == first && s.last() == last
}

/// `s` without its first and last character.
pub open spec fn interior(s: Seq<char>) -> Seq<char> {
    s.subrange(1, s.len() - 1)
}

/// A key of an object, without the double quotes around it if it has them.
pub open spec fn unquoted(s: Seq<char>) -> Seq<char> {
    if enclosed(s, '"', '"') {
        interior(s)
    } else {
        s
    }
}

/// The value that `token` spells, or the error that the decoder reports for it on `line`.
///
/// The first shape that fits decides: the words `True`, `False` and `Null`; a text in double
/// quotes, taken as it stands; an integer of 64 bits; a floating-point number; an array in
/// square brackets; an object in braces. The content of an array or object is divided at the
/// commas outside every bracket and quote, and its parts are decoded in turn with one level
/// less of `budget`; the first part that fails gives the error. Content that is all white
/// space makes an empty array or object whatever the budget.
pub open spec fn decode_spec(token: Seq<char>, line: nat, budget: nat) -> Result<Datum, Fault>
    decreases budget, 0nat,
{
    if token == "True"@ {
        Ok(Datum::Boolean(true))
    } else if token == "False"@ {
        Ok(Datum::Boolean(false))
    } else if token == "Null"@ {
        Ok(Datum::Null)
    } else if enclosed(token, '"', '"') {
        Ok(Datum::Text(interior(token)))
    } else if integer_of(token) is Some {
        Ok(Datum::Integer(integer_of(token).unwrap() as int))
    } else if is_float_literal(token) {
        Ok(Datum::Float(token))
    } else if enclosed(token, '[', ']') {
        if trimmed(interior(token)).len() == 0 {
            Ok(Datum::Array(Seq::empty()))
        } else if budget == 0 {
            Err(Fault { kind: ErrorKind::NestingTooDeep, line, text: token })
        } else {
            match decode_items(split_top(interior(token)), line, (budget - 1) as nat) {
                Ok(items) => Ok(Datum::Array(items)),
                Err(fault) => Err(fault),
            }
        }
    } else if enclosed(token, '{', '}') {
        if trimmed(interior(token)).len() == 0 {
            Ok(Datum::Object(Seq::empty()))
        } else if budget == 0 {
            Err(Fault { kind: ErrorKind::NestingTooDeep, line, text: token })
        } else {
            match decode_pairs(split_top(interior(token)), line, (budget - 1) as nat) {
                Ok(entries) => Ok(Datum::Object(entries)),
                Err(fault) => Err(fault),
            }
        }
    } else {
        Err(Fault { kind: ErrorKind::InvalidValue, line, text: token })
    }
}

/// The values that the items of an array spell, each trimmed first, or the error of the first
/// item that has one.
pub open spec fn decode_items(items: Seq<Seq<char>>, line: nat, budget: nat) -> Result<
    Seq<Datum>,
    Fault,
>
    decreases budget, items.len() + 2,
{
    if items.len() == 0 {
        Ok(Seq::empty())
    } else {
        match decode_items(items.drop_last(), line, budget) {
            Err(fault) => Err(fault),
            Ok(values) => match decode_spec(trimmed(items.last()), line, budget) {
                Err(fault) => Err(fault),
                Ok(value) => Ok(values.push(value)),
            },
        }
    }
}

/// The key and the value that one part of an object spells. The part is divided at its first
/// marker `==`; the key is what stands before it, trimmed and without quotes, and the value is
/// decoded from what stands after it, trimmed. A part without a marker is an error.
pub open spec fn decode_pair(pair: Seq<char>, line: nat, budget: nat) -> Result<
    (Seq<char>, Datum),
    Fault,
>
    decreases budget, 1nat,
{
    match marker_from(pair, 0) {
        None => Err(Fault { kind: ErrorKind::InvalidPair, line, text: pair }),
        Some(at) => match decode_spec(
            trimmed(pair.subrange(at + 2, pair.len() as int)),
            line,
            budget,
        ) {
            Err(fault) => Err(fault),
            Ok(value) => Ok((unquoted(trimmed(pair.subrange(0, at))), value)),
        },
    }
}

/// The entries that the parts of an object spell, or the error of the first part that has one.
/// A key that comes again takes the later value and keeps its place.
pub open spec fn decode_pairs(pairs: Seq<Seq<char>>, line: nat, budget: nat) -> Result<
    Entries,
    Fault,
>
    decreases budget, pairs.len() + 2,
{
    if pairs.len() == 0 {
        Ok(Seq::empty())
    } else {
        match decode_pairs(pairs.drop_last(), line, budget) {
            Err(fault) => Err(fault),
            Ok(entries) => match decode_pair(pairs.last(), line, budget) {
                Err(fault) => Err(fault),
                Ok(entry) => Ok(upsert(entries, entry.0, entry.1)),
            },
        }
    }
}

/// What the result of decoding stands for.
pub open spec fn outcome(r: Result<Value, ParseError>) -> Result<Datum, Fault> {
    match r {
        Ok(value) => Ok(value@),
        Err(error) => Err(error@),
    }
}

/// An error of the decoder: it names the line it was given, and is of one of the three kinds
/// that the decoder reports.
pub open spec fn decoder_fault(fault: Fault, line: nat) -> bool {
    &&& fault.line == line
    &&& (fault.kind == ErrorKind::InvalidValue || fault.kind == ErrorKind::InvalidPair
        || fault.kind == ErrorKind::NestingTooDeep)
}

/// The words `True`, `False` and `Null`, spelled exactly so, are the two truth values and the
/// null value, and no other text is decoded to any of the three.
pub proof fn lemma_literals(token: Seq<char>, line: nat, budget: nat)
    ensures
        decode_spec(token, line, budget) == Ok::<Datum, Fault>(Datum::Boolean(true)) <==> token
            == "True"@,
        decode_spec(token, line, budget) == Ok::<Datum, Fault>(Datum::Boolean(false)) <==> token
            == "False"@,
        decode_spec(token, line, budget) == Ok::<Datum, Fault>(Datum::Null) <==> token == "Null"@,
{
    reveal_strlit("True");
    reveal_strlit("False");
    reveal_strlit("Null");
    assert("True"@[0] == 'T');
    assert("False"@[0] == 'F');
    assert("Null"@[0] == 'N');
}

/// A text between double quotes is decoded to that text, character for character.
pub proof fn lemma_quoted_text(text: Seq<char>, line: nat, budget: nat)
    ensures
        decode_spec(seq!['"'] + text + seq!['"'], line, budget) == Ok::<Datum, Fault>(
            Datum::Text(text),
        ),
{
    reveal_strlit("True");
    reveal_strlit("False");
    reveal_strlit("Null");
    let token = seq!['"'] + text + seq!['"'];
    assert(token[0] == '"');
    assert(token.last() == '"');
    assert("True"@[0] == 'T');
    assert("False"@[0] == 'F');
    assert("Null"@[0] == 'N');
    assert(interior(token) =~= text);
}

/// A text that spells an integer of 64 bits is decoded to that integer, and any other text
/// that spells a floating-point number is decoded to a float with that spelling.
pub proof fn lemma_numbers(token: Seq<char>, line: nat, budget: nat)
    ensures
        integer_of(token) matches Some(number) ==> decode_spec(token, line, budget) == Ok::<
            Datum,
            Fault,
        >(Datum::Integer(number as int)),
        integer_of(token) is None && is_float_literal(token) ==> decode_spec(token, line, budget)
            == Ok::<Datum, Fault>(Datum::Float(token)),
{
    reveal_strlit("True");
    reveal_strlit("False");
    reveal_strlit("Null");
    let body = unsigned(token);
    if integer_of(token) is Some {
        let digits = magnitude(token);
        assert(is_digit(digits[0]));
        assert(is_digit(digits.last()));
    } else if is_float_literal(token) {
        assert(token.len() > 0);
        assert(!is_digit('T') && !is_digit('F') && !is_digit('N') && !is_digit('"'));
        if token == "True"@ || token == "False"@ || token == "Null"@ {
            assert(body == token);
            assert(run_end(token, CharClass::Digit, 0) == 0);
        }
        if enclosed(token, '"', '"') {
            assert(body == token);
            assert(run_end(token, CharClass::Digit, 0) == 0);
        }
    }
}

/// Brackets or braces around nothing but white space are the empty array and the empty object,
/// whatever the budget.
pub proof fn lemma_empty_composites(blank: Seq<char>, line: nat, budget: nat)
    requires
        trimmed(blank).len() == 0,
    ensures
        decode_spec(seq!['['] + blank + seq![']'], line, budget) == Ok::<Datum, Fault>(
            Datum::Array(Seq::empty()),
        ),
        decode_spec(seq!['{'] + blank + seq!['}'], line, budget) == Ok::<Datum, Fault>(
            Datum::Object(Seq::empty()),
        ),
{
    reveal_strlit("True");
    reveal_strlit("False");
    reveal_strlit("Null");
    assert("True"@[0] == 'T');
    assert("False"@[0] == 'F');
    assert("Null"@[0] == 'N');
    let array = seq!['['] + blank + seq![']'];
    let object = seq!['{'] + blank + seq!['}'];
    assert(interior(array) =~= blank);
    assert(interior(object) =~= blank);
    assert(array[0] == '[' && array.last() == ']');
    assert(object[0] == '{' && object.last() == '}');
    lemma_not_a_number(array);
    lemma_not_a_number(object);
}

/// A text that starts with a bracket or a brace is not the spelling of a number.
pub proof fn lemma_not_a_number(token: Seq<char>)
    requires
        token.len() > 0,
        token[0] == '[' || token[0] == '{',
    ensures
        integer_of(token) is None,
        !is_float_literal(token),
{
    assert(magnitude(token) == token);
    assert(!is_digit(token[0]));
    assert(unsigned(token) == token);
    assert(run_end(token, CharClass::Digit, 0) == 0);
}

/// What the decoder gives is well formed, and what it reports names the line it was given.
pub proof fn lemma_decode(token: Seq<char>, line: nat, budget: nat)
    ensures
        match decode_spec(token, line, budget) {
            Ok(value) => value.well_formed(),
            Err(fault) => decoder_fault(fault, line),
        },
    decreases budget, 0nat,
{
    if budget > 0 {
        lemma_decode_items(split_top(interior(token)), line, (budget - 1) as nat);
        lemma_decode_pairs(split_top(interior(token)), line, (budget - 1) as nat);
    }
}

/// What the decoder gives for the items of an array is well formed, each value of it.
pub proof fn lemma_decode_items(items: Seq<Seq<char>>, line: nat, budget: nat)
    ensures
        match decode_items(items, line, budget) {
            Ok(values) => forall|i: int|
                0 <= i < values.len() ==> (#[trigger] values[i]).well_formed(),
            Err(fault) => decoder_fault(fault, line),
        },
    decreases budget, items.len() + 2,
{
    if items.len() > 0 {
        lemma_decode_items(items.drop_last(), line, budget);
        lemma_decode(trimmed(items.last()), line, budget);
    }
}

/// What the decoder gives for the parts of an object is well formed: no key comes twice, and
/// every value is well formed.
pub proof fn lemma_decode_pairs(pairs: Seq<Seq<char>>, line: nat, budget: nat)
    ensures
        match decode_pairs(pairs, line, budget) {
            Ok(entries) => {
                &&& distinct_keys(entries)
                &&& forall|i: int|
                    0 <= i < entries.len() ==> (#[trigger] entries[i]).1.well_formed()
            },
            Err(fault) => decoder_fault(fault, line),
        },
    decreases budget, pairs.len() + 2,
{
    if pairs.len() > 0 {
        lemma_decode_pairs(pairs.drop_last(), line, budget);
        let pair = pairs.last();
        match marker_from(pair, 0) {
            None => {},
            Some(at) => {
                lemma_decode(trimmed(pair.subrange(at + 2, pair.len() as int)), line, budget);
            },
        }
        match decode_pairs(pairs.drop_last(), line, budget) {
            Err(_) => {},
            Ok(entries) => match decode_pair(pair, line, budget) {
                Err(_) => {},
                Ok(entry) => {
                    lemma_upsert_distinct(entries, entry.0, entry.1);
                    lemma_find_key(entries, entry.0);
                },
            },
        }
    }
}

/// The commas outside every bracket and quote are cut points.
pub proof fn lemma_top_commas(s: Seq<char>, n: int)
    requires
        0 <= n <= s.len(),
    ensures
        ascending(top_commas(s, n), n),
        nesting(s, n).depth <= n,
    decreases n,
{
    if n > 0 {
        lemma_top_commas(s, n - 1);
    }
}

/// An error among the first items of an array is the error of the whole array.
pub proof fn lemma_items_error(items: Seq<Seq<char>>, k: int, line: nat, budget: nat)
    requires
        0 <= k <= items.len(),
        decode_items(items.take(k), line, budget) is Err,
    ensures
        decode_items(items, line, budget) == decode_items(items.take(k), line, budget),
    decreases items.len(),
{
    if k == items.len() {
        assert(items.take(k) == items);
    } else {
        assert(items.drop_last().take(k) == items.take(k));
        lemma_items_error(items.drop_last(), k, line, budget);
    }
}

/// An error among the first parts of an object is the error of the whole object.
pub proof fn lemma_pairs_error(pairs: Seq<Seq<char>>, k: int, line: nat, budget: nat)
    requires
        0 <= k <= pairs.len(),
        decode_pairs(pairs.take(k), line, budget) is Err,
    ensures
        decode_pairs(pairs, line, budget) == decode_pairs(pairs.take(k), line, budget),
    decreases pairs.len(),
{
    if k == pairs.len() {
        assert(pairs.take(k) == pairs);
    } else {
        assert(pairs.drop_last().take(k) == pairs.take(k));
        lemma_pairs_error(pairs.drop_last(), k, line, budget);
    }
}

/// Finds the commas of `s` that stand outside every bracket and quote.
pub fn find_top_commas(s: &[char]) -> (r: Vec<usize>)
    ensures
        indices(r@) == top_commas(s@, s.len() as int),
        ascending(indices(r@), s.len() as int),
{
    let mut r: Vec<usize> = Vec::new();
    let mut depth: usize = 0;
    let mut quoted: bool = false;
    let mut i: usize = 0;
    while i < s.len()
        invariant
            i <= s.len(),
            indices(r@) == top_commas(s@, i as int),
            nesting(s@, i as int) == (Nesting { depth: depth as nat, quoted }),
            depth <= i,
        decreases s.len() - i,
    {
        let c: char = s[i];
        if c == ',' && depth == 0 && !quoted {
            r.push(i);
        }
        if c == '"' {
            quoted = !quoted;
        } else if quoted {
        } else if c == '[' || c == '{' {
            depth += 1;
        } else if (c == ']' || c == '}') && depth > 0 {
            depth -= 1;
        }
        i += 1;
    }
    proof {
        lemma_top_commas(s@, s.len() as int);
    }
    r
}

/// Divides `s` at the commas that stand outside every bracket and quote.
pub fn split_top_level<'a>(s: &'a [char]) -> (r: Vec<&'a [char]>)
    ensures
        slices(r@) == split_top(s@),
{
    let cuts = find_top_commas(s);
    cut(s, &cuts)
}

/// Finds the first marker `==` in `s`.
pub fn find_marker(s: &[char]) -> (r: Option<usize>)
    ensures
        match r {
            Some(at) => marker_from(s@, 0) == Some(at as int) && at + 2 <= s.len(),
            None => marker_from(s@, 0) is None,
        },
{
    if s.len() < 2 {
        return None;
    }
    let mut i: usize = 0;
    while i < s.len() - 1
        invariant
            s.len() >= 2,
            marker_from(s@, 0) == marker_from(s@, i as int),
        decreases s.len() - i,
    {
        if s[i] == '=' && s[i + 1] == '=' {
            return Some(i);
        }
        i += 1;
    }
    None
}

/// Tells whether `s` starts with `first`, ends with `last`, and these are two characters of it.
pub fn is_enclosed(s: &[char], first: char, last: char) -> (r: bool)
    ensures
        r == enclosed(s@, first, last),
{
    s.len() >= 2 && s[0] == first && s[s.len() - 1] == last
}

/// An error of the given kind about `text`.
fn fault(kind: ErrorKind, line: usize, text: &[char]) -> (r: ParseError)
    ensures
        r@ == (Fault { kind, line: line as nat, text: text@ }),
{
    ParseError { kind, line, text: string_of(text) }
}

/// Decodes the items of an array, which stand in `content` between commas.
fn decode_array(content: &[char], line: usize, budget: usize) -> (r: Result<Vec<Value>, ParseError>)
    ensures
        match r {
            Ok(values) => decode_items(split_top(content@), line as nat, budget as nat)
                matches Ok(items) && items == values_view(values@),
            Err(error) => decode_items(split_top(content@), line as nat, budget as nat)
                matches Err(reported) && reported == error@,
        },
    decreases budget, 2nat,
{
    let parts = split_top_level(content);
    let mut values: Vec<Value> = Vec::new();
    let mut k: usize = 0;
    assert(values_view(values@) =~= Seq::<Datum>::empty());
    assert(slices(parts@).take(0) =~= Seq::<Seq<char>>::empty());
    while k < parts.len()
        invariant
            k <= parts.len(),
            slices(parts@) == split_top(content@),
            decode_items(slices(parts@).take(k as int), line as nat, budget as nat)
                matches Ok(items) && items == values_view(values@),
        decreases parts.len() - k,
    {
        let ghost before = slices(parts@).take(k as int);
        let ghost now = slices(parts@).take(k + 1);
        assert(now.drop_last() == before);
        assert(now.last() == parts@[k as int]@);
        match decode(trim(parts[k]), line, budget) {
            Err(error) => {
                proof {
                    lemma_items_error(slices(parts@), k + 1, line as nat, budget as nat);
                }
                return Err(error);
            },
            Ok(value) => {
                let ghost old_values = values@;
                values.push(value);
                assert(values_view(values@) =~= values_view(old_values).push(value@));
            },
        }
        k += 1;
    }
    assert(slices(parts@).take(k as int) == slices(parts@));
    Ok(values)
}

/// Decodes one part of an object.
fn decode_entry(pair: &[char], line: usize, budget: usize) -> (r: Result<
    (String, Value),
    ParseError,
>)
    ensures
        match r {
            Ok(entry) => decode_pair(pair@, line as nat, budget as nat) matches Ok(pair)
                && pair == (entry.0@, entry.1@),
            Err(error) => decode_pair(pair@, line as nat, budget as nat) matches Err(reported)
                && reported == error@,
        },
    decreases budget, 1nat,
{
    match find_marker(pair) {
        None => Err(fault(ErrorKind::InvalidPair, line, pair)),
        Some(at) => {
            let name: &[char] = trim(&pair[0..at]);
            let token: &[char] = trim(&pair[at + 2..pair.len()]);
            match decode(token, line, budget) {
                Err(error) => Err(error),
                Ok(value) => {
                    let key: String = if is_enclosed(name, '"', '"') {
                        string_of(&name[1..name.len() - 1])
                    } else {
                        string_of(name)
                    };
                    Ok((key, value))
                },
            }
        },
    }
}

/// Decodes the entries of an object, which stand in `content` between commas.
fn decode_object(content: &[char], line: usize, budget: usize) -> (r: Result<
    OrderedMap<Value>,
    ParseError,
>)
    ensures
        match r {
            Ok(map) => decode_pairs(split_top(content@), line as nat, budget as nat)
                matches Ok(entries) && entries == entries_view(map.entries@),
            Err(error) => decode_pairs(split_top(content@), line as nat, budget as nat)
                matches Err(reported) && reported == error@,
        },
    decreases budget, 2nat,
{
    let parts = split_top_level(content);
    let mut map: OrderedMap<Value> = OrderedMap::new();
    let mut k: usize = 0;
    assert(entries_view(map.entries@) =~= Entries::empty());
    assert(slices(parts@).take(0) =~= Seq::<Seq<char>>::empty());
    while k < parts.len()
        invariant
            k <= parts.len(),
            slices(parts@) == split_top(content@),
            decode_pairs(slices(parts@).take(k as int), line as nat, budget as nat)
                matches Ok(entries) && entries == entries_view(map.entries@),
        decreases parts.len() - k,
    {
        let ghost before = slices(parts@).take(k as int);
        let ghost now = slices(parts@).take(k + 1);
        assert(now.drop_last() == before);
        assert(now.last() == parts@[k as int]@);
        match decode_entry(parts[k], line, budget) {
            Err(error) => {
                proof {
                    lemma_pairs_error(slices(parts@), k + 1, line as nat, budget as nat);
                }
                return Err(error);
            },
            Ok(entry) => {
                let ghost old_map = map;
                let ghost key = entry.0@;
                let ghost value = entry.1;
                map.insert(entry.0, entry.1);
                proof {
                    lemma_entries_view_upsert(old_map, map, key, value);
                }
            },
        }
        k += 1;
    }
    assert(slices(parts@).take(k as int) == slices(parts@));
    Ok(map)
}

/// Decodes the value that `token` spells, following arrays and objects with content `budget`
/// levels down.
pub fn decode(token: &[char], line: usize, budget: usize) -> (r: Result<Value, ParseError>)
    ensures
        outcome(r) == decode_spec(token@, line as nat, budget as nat),
    decreases budget, 0nat,
{
    if spells(token, "True") {
        Ok(Value::Boolean(true))
    } else if spells(token, "False") {
        Ok(Value::Boolean(false))
    } else if spells(token, "Null") {
        Ok(Value::Null)
    } else if is_enclosed(token, '"', '"') {
        Ok(Value::String(string_of(&token[1..token.len() - 1])))
    } else if let Some(number) = parse_integer(token) {
        Ok(Value::Integer(number))
    } else if is_float(token) {
        Ok(Value::Float(string_of(token)))
    } else if is_enclosed(token, '[', ']') {
        let content: &[char] = &token[1..token.len() - 1];
        if trim(content).len() == 0 {
            let items: Vec<Value> = Vec::new();
            assert(values_view(items@) =~= Seq::<Datum>::empty());
            Ok(Value::Array(items))
        } else if budget == 0 {
            Err(fault(ErrorKind::NestingTooDeep, line, token))
        } else {
            match decode_array(content, line, budget - 1) {
                Ok(items) => Ok(Value::Array(items)),
                Err(error) => Err(error),
            }
        }
    } else if is_enclosed(token, '{', '}') {
        let content: &[char] = &token[1..token.len() - 1];
        if trim(content).len() == 0 {
            let map: OrderedMap<Value> = OrderedMap::new();
            assert(entries_view(map.entries@) =~= Entries::empty());
            Ok(Value::Object(map))
        } else if budget == 0 {
            Err(fault(ErrorKind::NestingTooDeep, line, token))
        } else {
            match decode_object(content, line, budget - 1) {
                Ok(map) => Ok(Value::Object(map)),
                Err(error) => Err(error),
            }
        }
    } else {
        Err(fault(ErrorKind::InvalidValue, line, token))
    }
}

/// Decodes the value that `value_str` spells. `line_num` is the line that an error will name.
/// The text is taken as it stands: white space around it is not removed.
pub fn parse_value(value_str: &str, line_num: usize) -> (r: Result<Value, ParseError>)
    ensures
        outcome(r) == decode_spec(value_str@, line_num as nat, MAX_DEPTH as nat),
        r matches Ok(value) ==> value@.well_formed(),
        r matches Err(error) ==> decoder_fault(error@, line_num as nat),
{
    proof {
        lemma_decode(value_str@, line_num as nat, MAX_DEPTH as nat);
    }
    let token = chars_of(value_str);
    decode(token.as_slice(), line_num, MAX_DEPTH)
}

} // verus!
