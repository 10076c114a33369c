//! # Parameter texts
//!
//! Parameters are read and written as strings. This module holds the
//! grammar of those strings as far as it can be told without reading a
//! coordinate: whole numbers in decimal digits, and the splitting of a
//! position "x,y" and of a list of positions "x,y;x,y;" into the texts of
//! their coordinates.

use vstd::prelude::*;

verus! {

/// A space, a tab, a line feed or a carriage return.
pub open spec fn is_blank(c: char) -> bool {
    c == ' ' || c == '\t' || c == '\n' || c == '\r'
}

/// How many blank characters a text begins with.
pub open spec fn leading(s: Seq<char>) -> nat
    decreases s.len(),
{
    if s.len() > 0 && is_blank(s[0]) {
        1 + leading(s.skip(1))
    } else {
        0
    }
}

/// How many blank characters a text ends with.
pub open spec fn trailing(s: Seq<char>) -> nat
    decreases s.len(),
{
    if s.len() > 0 && is_blank(s.last()) {
        1 + trailing(s.drop_last())
    } else {
        0
    }
}

/// A text without the blank characters at its two ends.
pub open spec fn trimmed(s: Seq<char>) -> Seq<char> {
    let rest = s.skip(leading(s) as int);
    rest.take(rest.len() - trailing(rest))
}

fn blank(c: char) -> (blank: bool)
    ensures
        blank == is_blank(c),
{
    c == ' ' || c == '\t' || c == '\n' || c == '\r'
}

/// The text without the blank characters at its two ends.
pub fn trim<'a>(text: &'a str) -> (inner: &'a str)
    ensures
        inner@ == trimmed(text@),
{
    let length = text.unicode_len();
    let mut first: usize = 0;
    assert(text@.skip(0) == text@);
    while first < length && blank(text.get_char(first))
        invariant
            first <= length,
            length == text@.len(),
            leading(text@) == first + leading(text@.skip(first as int)),
        decreases length - first,
    {
        proof {
            assert(text@.skip(first as int)[0] == text@[first as int]);
            assert(text@.skip(first as int).skip(1) == text@.skip(first + 1));
        }
        first += 1;
    }
    proof {
        if first < length {
            assert(text@.skip(first as int)[0] == text@[first as int]);
        }
    }
    let ghost rest = text@.skip(first as int);
    let mut end: usize = length;
    assert(rest.take(length - first) == rest);
    while end > first && blank(text.get_char(end - 1))
        invariant
            first <= end <= length,
            length == text@.len(),
            rest == text@.skip(first as int),
            trailing(rest) == (length - end) + trailing(rest.take(end - first)),
        decreases end,
    {
        proof {
            assert(rest.take(end - first).last() == text@[end - 1]);
            assert(rest.take(end - first).drop_last() == rest.take(end - first - 1));
        }
        end -= 1;
    }
    proof {
        if end > first {
            assert(rest.take(end - first).last() == text@[end - 1]);
        }
        assert(rest.take(rest.len() - trailing(rest)) == text@.subrange(first as int, end as int));
    }
    text.substring_char(first, end)
}

/// The pieces that a text falls into at every occurrence of a character.
/// A text without the character is one piece; two occurrences side by
/// side have an empty piece between them.
pub open spec fn split(s: Seq<char>, separator: char) -> Seq<Seq<char>>
    decreases s.len(),
{
    if s.len() == 0 {
        seq![Seq::empty()]
    } else {
        let before = split(s.drop_last(), separator);
        if s.last() == separator {
            before.push(Seq::empty())
        } else {
            before.update(before.len() - 1, before.last().push(s.last()))
        }
    }
}

/// The texts of a list of strings.
pub open spec fn texts(pieces: Seq<&str>) -> Seq<Seq<char>> {
    Seq::new(pieces.len(), |i: int| pieces[i]@)
}

/// Cuts a text at every occurrence of a character.
pub fn split_text<'a>(text: &'a str, separator: char) -> (pieces: Vec<&'a str>)
    ensures
        texts(pieces@) == split(text@, separator),
        pieces@.len() > 0,
{
    let length = text.unicode_len();
    let mut pieces: Vec<&'a str> = Vec::new();
    let mut start: usize = 0;
    let mut at: usize = 0;
    proof {
        assert(text@.take(0) == Seq::<char>::empty());
        assert(texts(pieces@).push(text@.subrange(0, 0)) == seq![Seq::<char>::empty()]);
    }
    while at < length
        invariant
            start <= at <= length,
            length == text@.len(),
            split(text@.take(at as int), separator) == texts(pieces@).push(
                text@.subrange(start as int, at as int),
            ),
        decreases length - at,
    {
        let c = text.get_char(at);
        let ghost before = pieces@;
        let ghost opened = start;
        proof {
            assert(text@.take(at + 1).drop_last() == text@.take(at as int));
            assert(text@.take(at + 1).last() == c);
        }
        if c == separator {
            pieces.push(text.substring_char(start, at));
            start = at + 1;
            proof {
                assert(texts(pieces@) == texts(before).push(
                    text@.subrange(opened as int, at as int),
                ));
                assert(text@.subrange(start as int, at + 1) == Seq::<char>::empty());
            }
        } else {
            proof {
                assert(text@.subrange(start as int, at as int).push(c) == text@.subrange(
                    start as int,
                    at + 1,
                ));
                assert(texts(before).push(text@.subrange(start as int, at as int)).update(
                    before.len() as int,
                    text@.subrange(start as int, at + 1),
                ) == texts(before).push(text@.subrange(start as int, at + 1)));
            }
        }
        at += 1;
    }
    let rest = text.substring_char(start, length);
    let ghost before = pieces@;
    pieces.push(rest);
    proof {
        assert(text@.take(length as int) == text@);
        assert(texts(pieces@) == texts(before).push(text@.subrange(start as int, length as int)));
    }
    pieces
}

/// One of the ten digits.
pub open spec fn is_digit(c: char) -> bool {
    48 <= c as u32 <= 57
}

/// What a digit counts.
pub open spec fn digit_value(c: char) -> nat {
    (c as u32 - 48) as nat
}

/// The digit that counts a number below ten.
pub open spec fn digit_char(value: nat) -> char {
    if value == 0 {
        '0'
    } else if value == 1 {
        '1'
    } else if value == 2 {
        '2'
    } else if value == 3 {
        '3'
    } else if value == 4 {
        '4'
    } else if value == 5 {
        '5'
    } else if value == 6 {
        '6'
    } else if value == 7 {
        '7'
    } else if value == 8 {
        '8'
    } else {
        '9'
    }
}

pub open spec fn all_digits(s: Seq<char>) -> bool {
    forall|i: int| 0 <= i < s.len() ==> is_digit(#[trigger] s[i])
}

/// The number that a row of digits writes in base ten.
pub open spec fn number(s: Seq<char>) -> nat
    decreases s.len(),
{
    if s.len() == 0 {
        0
    } else {
        number(s.drop_last()) * 10 + digit_value(s.last())
    }
}

/// The digits that write a number in base ten, without leading zeros.
pub open spec fn digits_of(value: nat) -> Seq<char>
    decreases value,
{
    if value < 10 {
        seq![digit_char(value)]
    } else {
        digits_of(value / 10).push(digit_char(value % 10))
    }
}

/// The number that a row of digits writes, where it has a digit, holds
/// nothing else and writes no more than `limit`.
pub open spec fn digits_value(s: Seq<char>, limit: nat) -> Option<nat> {
    if s.len() > 0 && all_digits(s) && number(s) <= limit {
        Some(number(s))
    } else {
        None
    }
}

/// The number that a text writes without a sign or behind a plus sign.
pub open spec fn unsigned_of(s: Seq<char>, limit: nat) -> Option<nat> {
    if s.len() > 0 && s[0] == '+' {
        digits_value(s.skip(1), limit)
    } else {
        digits_value(s, limit)
    }
}

/// The number that a text writes without a sign or behind a plus or a
/// minus sign, where it lies between -2147483648 and 2147483647.
pub open spec fn integer_of(s: Seq<char>) -> Option<int> {
    if s.len() > 0 && s[0] == '-' {
        match digits_value(s.skip(1), 2147483648) {
            Some(value) => Some(-(value as int)),
            None => None,
        }
    } else {
        match unsigned_of(s, 2147483647) {
            Some(value) => Some(value as int),
            None => None,
        }
    }
}

/// The text of a whole number: its digits, behind a minus sign where it
/// is below zero.
pub open spec fn integer_digits(value: int) -> Seq<char> {
    if value < 0 {
        seq!['-'] + digits_of((-value) as nat)
    } else {
        digits_of(value as nat)
    }
}

/// A row of digits writes at least what its beginning writes.
pub proof fn lemma_number_grows(s: Seq<char>, length: int)
    requires
        0 <= length <= s.len(),
    ensures
        number(s.take(length)) <= number(s),
    decreases s.len(),
{
    if length < s.len() {
        lemma_number_grows(s.drop_last(), length);
        assert(s.drop_last().take(length) == s.take(length));
    } else {
        assert(s.take(length) == s);
    }
}

/// The digits of a number are digits, at least one, and write the number.
pub proof fn lemma_digits(value: nat)
    ensures
        digits_of(value).len() > 0,
        all_digits(digits_of(value)),
        number(digits_of(value)) == value,
    decreases value,
{
    if value < 10 {
        let s = seq![digit_char(value)];
        assert(s.drop_last().len() == 0);
        assert(s.last() == digit_char(value));
        assert(number(s) == number(s.drop_last()) * 10 + digit_value(s.last()));
    } else {
        lemma_digits(value / 10);
        let s = digits_of(value);
        assert(s.drop_last() == digits_of(value / 10));
        assert(s.last() == digit_char(value % 10));
        assert forall|i: int| 0 <= i < s.len() implies is_digit(#[trigger] s[i]) by {
            if i < s.len() - 1 {
                assert(s[i] == digits_of(value / 10)[i]);
            }
        }
    }
}

/// What was written out as an unsigned number reads as that number.
pub proof fn lemma_unsigned_round_trip(value: u32)
    ensures
        unsigned_of(digits_of(value as nat), u32::MAX as nat) == Some(value as nat),
{
    lemma_digits(value as nat);
    assert(is_digit(digits_of(value as nat)[0]));
}

/// What was written out as a whole number reads as that number.
pub proof fn lemma_integer_round_trip(value: i32)
    ensures
        integer_of(integer_digits(value as int)) == Some(value as int),
{
    if value < 0 {
        let digits = digits_of((-value) as nat);
        lemma_digits((-value) as nat);
        assert(integer_digits(value as int).skip(1) == digits);
    } else {
        lemma_digits(value as nat);
        assert(is_digit(digits_of(value as nat)[0]));
    }
}

/// Reads the digits of a text from a place on.
fn parse_digits(text: &str, from: usize, limit: u64) -> (value: Option<u64>)
    requires
        from <= text@.len(),
        limit <= 0xFFFF_FFFF,
    ensures
        value matches Some(v) ==> digits_value(text@.skip(from as int), limit as nat) == Some(
            v as nat,
        ),
        value is None ==> digits_value(text@.skip(from as int), limit as nat) is None,
{
    let length = text.unicode_len();
    let ghost body = text@.skip(from as int);
    if from == length {
        return None;
    }
    let mut value: u64 = 0;
    let mut at: usize = from;
    proof {
        assert(body.take(0) == Seq::<char>::empty());
    }
    while at < length
        invariant
            from <= at <= length,
            length == text@.len(),
            body == text@.skip(from as int),
            limit <= 0xFFFF_FFFF,
            value <= limit,
            value == number(body.take(at - from)),
            all_digits(body.take(at - from)),
        decreases length - at,
    {
        let c = text.get_char(at);
        assert(body[at - from] == c);
        let code = c as u32;
        if code < 48 || code > 57 {
            return None;
        }
        proof {
            assert(body.take(at - from + 1).drop_last() == body.take(at - from));
            assert(body.take(at - from + 1).last() == c);
            assert forall|i: int| 0 <= i < at - from + 1 implies is_digit(
                #[trigger] body.take(at - from + 1)[i],
            ) by {
                if i < at - from {
                    assert(body.take(at - from)[i] == body[i]);
                }
            }
        }
        let next: u64 = value * 10 + (code - 48) as u64;
        if next > limit {
            proof {
                lemma_number_grows(body, at - from + 1);
            }
            return None;
        }
        value = next;
        at += 1;
    }
    proof {
        assert(body.take(length - from) == body);
    }
    Some(value)
}

/// Reads an unsigned number: digits, with or without a plus sign before
/// them, that write no more than 4294967295.
pub fn parse_unsigned(text: &str) -> (value: Option<u32>)
    ensures
        value matches Some(v) ==> unsigned_of(text@, u32::MAX as nat) == Some(v as nat),
        value is None ==> unsigned_of(text@, u32::MAX as nat) is None,
{
    let length = text.unicode_len();
    let from: usize = if length > 0 && text.get_char(0) == '+' {
        1
    } else {
        0
    };
    proof {
        assert(text@.skip(0) == text@);
    }
    match parse_digits(text, from, 0xFFFF_FFFF) {
        Some(value) => Some(value as u32),
        None => None,
    }
}

/// Reads a whole number: digits, with or without a sign before them,
/// that write a number between -2147483648 and 2147483647.
pub fn parse_integer(text: &str) -> (value: Option<i32>)
    ensures
        value matches Some(v) ==> integer_of(text@) == Some(v as int),
        value is None ==> integer_of(text@) is None,
{
    let length = text.unicode_len();
    proof {
        assert(text@.skip(0) == text@);
    }
    if length > 0 && text.get_char(0) == '-' {
        match parse_digits(text, 1, 2147483648) {
            Some(value) => {
                if value == 2147483648 {
                    Some(i32::MIN)
                } else {
                    Some(0 - (value as i32))
                }
            },
            None => None,
        }
    } else {
        let from: usize = if length > 0 && text.get_char(0) == '+' {
            1
        } else {
            0
        };
        match parse_digits(text, from, 2147483647) {
            Some(value) => Some(value as i32),
            None => None,
        }
    }
}

fn digit_text(value: u64) -> (text: &'static str)
    requires
        value < 10,
    ensures
        text@ == seq![digit_char(value as nat)],
{
    proof {
        reveal_strlit("0");
        reveal_strlit("1");
        reveal_strlit("2");
        reveal_strlit("3");
        reveal_strlit("4");
        reveal_strlit("5");
        reveal_strlit("6");
        reveal_strlit("7");
        reveal_strlit("8");
        reveal_strlit("9");
    }
    let text = if value == 0 {
        "0"
    } else if value == 1 {
        "1"
    } else if value == 2 {
        "2"
    } else if value == 3 {
        "3"
    } else if value == 4 {
        "4"
    } else if value == 5 {
        "5"
    } else if value == 6 {
        "6"
    } else if value == 7 {
        "7"
    } else if value == 8 {
        "8"
    } else {
        "9"
    };
    assert(text@ =~= seq![digit_char(value as nat)]);
    text
}

/// Writes a number in decimal digits.
pub fn unsigned_text(value: u64) -> (text: String)
    ensures
        text@ == digits_of(value as nat),
    decreases value,
{
    if value < 10 {
        String::from_str(digit_text(value))
    } else {
        let mut text = unsigned_text(value / 10);
        text.append(digit_text(value % 10));
        assert(text@ =~= digits_of(value as nat));
        text
    }
}

/// Writes a whole number in decimal digits, with a minus sign where it is
/// below zero.
pub fn integer_text(value: i32) -> (text: String)
    ensures
        text@ == integer_digits(value as int),
{
    if value < 0 {
        proof {
            reveal_strlit("-");
        }
        let digits = unsigned_text((0 - (value as i64)) as u64);
        let mut text = String::from_str("-");
        text.append(digits.as_str());
        assert(text@ =~= integer_digits(value as int));
        text
    } else {
        unsigned_text(value as u64)
    }
}

/// The texts of the two coordinates of a position "x,y", without the
/// blanks around each; none where the text does not hold one comma.
pub open spec fn position_fields(s: Seq<char>) -> Option<(Seq<char>, Seq<char>)> {
    let pieces = split(s, ',');
    if pieces.len() == 2 {
        Some((trimmed(pieces[0]), trimmed(pieces[1])))
    } else {
        None
    }
}

/// Cuts the text of a position into the texts of its two coordinates.
pub fn split_position<'a>(text: &'a str) -> (fields: Option<(&'a str, &'a str)>)
    ensures
        fields matches Some((x, y)) ==> position_fields(text@) == Some((x@, y@)),
        fields is None ==> position_fields(text@) is None,
{
    let pieces = split_text(text, ',');
    assert(texts(pieces@).len() == pieces@.len());
    if pieces.len() == 2 {
        assert(texts(pieces@)[0] == pieces@[0]@);
        assert(texts(pieces@)[1] == pieces@[1]@);
        Some((trim(pieces[0]), trim(pieces[1])))
    } else {
        None
    }
}

/// The pieces of a list "x,y;x,y;": what stands between the semicolons
/// of the text without the blanks at its ends. A last piece that is
/// empty or blank does not count, so that the list may end in a semicolon
/// or not.
pub open spec fn list_pieces(s: Seq<char>) -> Seq<Seq<char>> {
    let pieces = split(trimmed(s), ';');
    if trimmed(pieces.last()).len() == 0 {
        pieces.drop_last()
    } else {
        pieces
    }
}

/// The texts of the coordinates of every position of a list; none
/// where one of its pieces is no position.
pub open spec fn position_list_fields(s: Seq<char>) -> Option<Seq<(Seq<char>, Seq<char>)>> {
    let pieces = list_pieces(s);
    if forall|i: int| 0 <= i < pieces.len() ==> position_fields(#[trigger] pieces[i]) is Some {
        Some(Seq::new(pieces.len(), |i: int| position_fields(pieces[i])->0))
    } else {
        None
    }
}

/// The texts of a list of pairs of strings.
pub open spec fn pairs(fields: Seq<(&str, &str)>) -> Seq<(Seq<char>, Seq<char>)> {
    Seq::new(fields.len(), |i: int| (fields[i].0@, fields[i].1@))
}

/// Cuts the text of a list of positions into the texts of their
/// coordinates.
pub fn split_position_list<'a>(text: &'a str) -> (fields: Option<Vec<(&'a str, &'a str)>>)
    ensures
        fields matches Some(found) ==> position_list_fields(text@) == Some(pairs(found@)),
        fields is None ==> position_list_fields(text@) is None,
{
    let pieces = split_text(trim(text), ';');
    let ghost wanted = list_pieces(text@);
    assert(texts(pieces@).len() == pieces@.len());
    let mut count: usize = pieces.len();
    let last = trim(pieces[count - 1]);
    assert(texts(pieces@).last() == pieces@[count - 1]@);
    if last.unicode_len() == 0 {
        count -= 1;
    }
    assert(wanted.len() == count);
    let mut fields: Vec<(&'a str, &'a str)> = Vec::new();
    let mut at: usize = 0;
    while at < count
        invariant
            at <= count <= pieces@.len(),
            wanted == list_pieces(text@),
            wanted.len() == count,
            forall|i: int| 0 <= i < count ==> #[trigger] wanted[i] == pieces@[i]@,
            fields@.len() == at,
            forall|i: int| 0 <= i < at ==> position_fields(#[trigger] wanted[i]) == Some(
                (fields@[i].0@, fields@[i].1@),
            ),
        decreases count - at,
    {
        match split_position(pieces[at]) {
            Some(pair) => {
                fields.push(pair);
            },
            None => {
                assert(position_fields(wanted[at as int]) is None);
                return None;
            },
        }
        at += 1;
    }
    assert(position_list_fields(text@)->0 =~= pairs(fields@));
    Some(fields)
}

/// The text of a position: its two coordinates with a comma between.
pub fn join_position(x: &str, y: &str) -> (text: String)
    ensures
        text@ == x@ + seq![','] + y@,
{
    proof {
        reveal_strlit(",");
    }
    let mut text = String::from_str(x);
    text.append(",");
    text.append(y);
    assert(","@ =~= seq![',']);
    text
}

/// The text of a list of positions: each with a semicolon behind it.
pub open spec fn listed(fields: Seq<(Seq<char>, Seq<char>)>) -> Seq<char>
    decreases fields.len(),
{
    if fields.len() == 0 {
        Seq::empty()
    } else {
        listed(fields.drop_last()) + fields.last().0 + seq![','] + fields.last().1 + seq![';']
    }
}

/// The texts of a list of pairs of strings.
pub open spec fn owned_pairs(fields: Seq<(String, String)>) -> Seq<(Seq<char>, Seq<char>)> {
    Seq::new(fields.len(), |i: int| (fields[i].0@, fields[i].1@))
}

/// Writes a list of positions, given the texts of their coordinates.
pub fn join_position_list(fields: &Vec<(String, String)>) -> (text: String)
    ensures
        text@ == listed(owned_pairs(fields@)),
{
    proof {
        reveal_strlit(",");
        reveal_strlit(";");
    }
    let mut text = String::new();
    let mut at: usize = 0;
    assert(owned_pairs(fields@).take(0) =~= Seq::empty());
    while at < fields.len()
        invariant
            at <= fields@.len(),
            text@ == listed(owned_pairs(fields@).take(at as int)),
        decreases fields@.len() - at,
    {
        let ghost before = text@;
        text.append(fields[at].0.as_str());
        text.append(",");
        text.append(fields[at].1.as_str());
        text.append(";");
        proof {
            let grown = owned_pairs(fields@).take(at + 1);
            assert(grown.drop_last() == owned_pairs(fields@).take(at as int));
            assert(grown.last() == (fields@[at as int].0@, fields@[at as int].1@));
            reveal_strlit(",");
            reveal_strlit(";");
            assert(","@ =~= seq![',']);
            assert(";"@ =~= seq![';']);
        }
        at += 1;
    }
    assert(owned_pairs(fields@).take(at as int) == owned_pairs(fields@));
    text
}

} // verus!
