//! The names of segment files.
//!
//! The segment with the id `n` lives in the file `n.kv`, where `n` is written
//! in decimal digits without a sign and without leading zeros.  Other files of
//! a directory are no segment files.

use vstd::prelude::*;
use vstd::string::*;

verus! {

/// The character of a decimal digit.
pub open spec fn digit_char(digit: nat) -> char {
    ((48 + digit) as u8) as char
}

/// The decimal digit that a character stands for, if any.
pub open spec fn digit_value(c: char) -> Option<nat> {
    if '0' <= c && c <= '9' {
        Some((c as u32 - 48) as nat)
    } else {
        None
    }
}

/// The decimal digits of `n`, without leading zeros.
pub open spec fn digits(n: nat) -> Seq<char>
    decreases n,
{
    if n < 10 {
        seq![digit_char(n)]
    } else {
        digits(n / 10).push(digit_char(n % 10))
    }
}

/// The number that `text` is the decimal digits of, if any: `text` is not
/// empty, holds digits only, and starts with a zero only where it is `0`.
pub open spec fn number_of(text: Seq<char>) -> Option<nat>
    decreases text.len(),
{
    if text.len() == 0 {
        None
    } else if text.len() == 1 {
        digit_value(text[0])
    } else {
        match (number_of(text.drop_last()), digit_value(text.last())) {
            (Some(n), Some(d)) => if n > 0 {
                Some(10 * n + d)
            } else {
                None
            },
            _ => None,
        }
    }
}

/// The ending of a segment file's name.
pub open spec fn ending() -> Seq<char> {
    seq!['.', 'k', 'v']
}

/// The name of the file of the segment `id`.
pub open spec fn file_name(id: nat) -> Seq<char> {
    digits(id) + ending()
}

/// The id of the segment whose file has the name `name`, or `None` where
/// `name` is no segment file's name.
pub open spec fn segment_id_of(name: Seq<char>) -> Option<nat> {
    if name.len() >= 3 && name.subrange(name.len() - 3, name.len() as int) == ending() {
        number_of(name.subrange(0, name.len() - 3))
    } else {
        None
    }
}

/// The id of the segment whose file has the name `name`, as a machine word:
/// `None` where `name` is no segment file's name or the id is too large.
pub open spec fn word_id_of(name: Seq<char>) -> Option<usize> {
    match segment_id_of(name) {
        Some(n) => if n <= usize::MAX {
            Some(n as usize)
        } else {
            None
        },
        None => None,
    }
}

/// Whether one of the first `upto` names is the name of the file of the
/// segment `id`.
pub open spec fn listed(names: Seq<String>, upto: int, id: usize) -> bool {
    exists|i: int| 0 <= i < upto && i < names.len() && word_id_of(#[trigger] names[i]@) == Some(id)
}

/// Whether each id is smaller than the next.
pub open spec fn ascending(ids: Seq<usize>) -> bool {
    forall|i: int, j: int| 0 <= i < j < ids.len() ==> ids[i] < ids[j]
}

/// The digits of a number are read as that number.
pub proof fn lemma_digits_read_back(n: nat)
    ensures
        digits(n).len() >= 1,
        number_of(digits(n)) == Some(n),
    decreases n,
{
    if n >= 10 {
        lemma_digits_read_back(n / 10);
        assert(digits(n).drop_last() =~= digits(n / 10));
    }
}

/// A text that is read as a number holds digits only.
pub proof fn lemma_number_is_digits(text: Seq<char>, i: int)
    requires
        number_of(text) is Some,
        0 <= i < text.len(),
    ensures
        digit_value(text[i]) is Some,
    decreases text.len(),
{
    if text.len() > 1 && i < text.len() - 1 {
        lemma_number_is_digits(text.drop_last(), i);
    }
}

/// The name of a segment's file is read as the segment's id.
pub proof fn law_file_name_reads_back(id: nat)
    ensures
        segment_id_of(file_name(id)) == Some(id),
{
    lemma_digits_read_back(id);
    let name = file_name(id);
    assert(name.subrange(name.len() - 3, name.len() as int) =~= ending());
    assert(name.subrange(0, name.len() - 3) =~= digits(id));
}

/// The text of one decimal digit.
fn digit_text(digit: usize) -> (text: &'static str)
    requires
        digit < 10,
    ensures
        text@ == seq![digit_char(digit as nat)],
{
    proof {
        reveal_strlit("0");
        reveal_strlit("1");
        reveal_strlit("2");
        reveal_strlit("3");
        reveal_strlit("4");
        reveal_strlit("5");
        reveal_strlit("6");
        reveal_strlit("7");
        reveal_strlit("8");
        reveal_strlit("9");
    }
    let text = if digit == 0 {
        "0"
    } else if digit == 1 {
        "1"
    } else if digit == 2 {
        "2"
    } else if digit == 3 {
        "3"
    } else if digit == 4 {
        "4"
    } else if digit == 5 {
        "5"
    } else if digit == 6 {
        "6"
    } else if digit == 7 {
        "7"
    } else if digit == 8 {
        "8"
    } else {
        "9"
    };
    assert(text@ =~= seq![digit_char(digit as nat)]);
    text
}

/// Appends the decimal digits of `n` to `out`.
fn push_digits(out: &mut String, n: usize)
    ensures
        final(out)@ == old(out)@ + digits(n as nat),
    decreases n,
{
    if n >= 10 {
        push_digits(out, n / 10);
    }
    out.append(digit_text(n % 10));
    assert(out@ =~= old(out)@ + digits(n as nat));
}

/// The name of the file of the segment `id`: the id in decimal digits, then
/// `.kv`.
pub fn segment_file_name(id: usize) -> (name: String)
    ensures
        name@ == file_name(id as nat),
{
    let mut name = String::new();
    push_digits(&mut name, id);
    proof {
        reveal_strlit(".kv");
    }
    name.append(".kv");
    assert(name@ =~= file_name(id as nat));
    name
}

/// Reads the id from the name of a segment's file.  `None` where the name is
/// no segment file's name, or where the id is too large for `usize`.
pub fn segment_id(name: &str) -> (id: Option<usize>)
    ensures
        id == word_id_of(name@),
{
    broadcast use is_ascii_spec_bytes;

    if !name.is_ascii() {
        proof {
            lemma_other_scripts(name@);
        }
        return None;
    }
    let length: usize = name.unicode_len();
    if length < 4 {
        proof {
            if name@.len() == 3 {
                assert(name@.subrange(0, 0).len() == 0);
            }
        }
        return None;
    }
    let end: usize = length - 3;
    let dot: u8 = name.get_ascii(end);
    let k: u8 = name.get_ascii(end + 1);
    let v: u8 = name.get_ascii(end + 2);
    proof {
        lemma_ascii(name@[end as int], dot);
        lemma_ascii(name@[end + 1], k);
        lemma_ascii(name@[end + 2], v);
    }
    if dot != 46 || k != 107 || v != 118 {
        proof {
            let tail = name@.subrange(name@.len() - 3, name@.len() as int);
            assert(tail[0] == name@[end as int]);
            assert(tail[1] == name@[end + 1]);
            assert(tail[2] == name@[end + 2]);
        }
        return None;
    }
    let ghost text = name@.subrange(0, end as int);
    let first: u8 = name.get_ascii(0);
    proof {
        lemma_ascii(name@[0], first);
        assert(text[0] == name@[0]);
    }
    if first < 48 || first > 57 {
        proof {
            assert(text[0] == name@[0]);
            if number_of(text) is Some {
                lemma_number_is_digits(text, 0);
            }
        }
        return None;
    }
    let mut value: usize = (first - 48) as usize;
    let mut i: usize = 1;
    assert(text.subrange(0, 1) =~= seq![text[0]]);
    while i < end
        invariant
            1 <= i <= end,
            end == name@.len() - 3,
            text == name@.subrange(0, end as int),
            name.is_ascii(),
            number_of(text.subrange(0, i as int)) == Some(value as nat),
        decreases end - i,
    {
        let byte: u8 = name.get_ascii(i);
        let ghost longer = text.subrange(0, i + 1);
        proof {
            lemma_ascii(name@[i as int], byte);
            assert(longer.drop_last() =~= text.subrange(0, i as int));
            assert(longer.last() == name@[i as int]);
        }
        if byte < 48 || byte > 57 || value == 0 {
            proof {
                assert(number_of(longer) is None);
                if number_of(text) is Some {
                    lemma_prefix_is_number(text, i + 1);
                }
            }
            return None;
        }
        let digit: usize = (byte - 48) as usize;
        if value > (usize::MAX - digit) / 10 {
            proof {
                assert(number_of(longer) == Some((10 * value + digit) as nat));
                if number_of(text) is Some {
                    lemma_number_grows(text, i + 1);
                }
            }
            return None;
        }
        value = value * 10 + digit;
        i = i + 1;
    }
    assert(text.subrange(0, end as int) =~= text);
    proof {
        let tail = name@.subrange(name@.len() - 3, name@.len() as int);
        assert(tail =~= ending());
    }
    Some(value)
}

/// The ids of the segment files among the names of a directory, each once,
/// in ascending order.  Names that are no segment file's names are passed
/// over.
pub fn segment_ids(names: &Vec<String>) -> (ids: Vec<usize>)
    ensures
        ascending(ids@),
        forall|id: usize| ids@.contains(id) <==> listed(names@, names@.len() as int, id),
{
    let mut ids: Vec<usize> = Vec::new();
    let mut k: usize = 0;
    while k < names.len()
        invariant
            k <= names@.len(),
            ascending(ids@),
            forall|id: usize| ids@.contains(id) <==> listed(names@, k as int, id),
        decreases names@.len() - k,
    {
        let ghost before = ids@;
        match segment_id(names[k].as_str()) {
            Some(id) => {
                let mut at: usize = 0;
                while at < ids.len() && ids[at] < id
                    invariant
                        at <= ids@.len(),
                        forall|i: int| 0 <= i < at ==> ids@[i] < id,
                    decreases ids@.len() - at,
                {
                    at = at + 1;
                }
                if at == ids.len() || ids[at] != id {
                    ids.insert(at, id);
                    proof {
                        assert(ids@[at as int] == id);
                        assert forall|x: usize| ids@.contains(x) <==> before.contains(x) || x
                            == id by {
                            if before.contains(x) {
                                let i = choose|i: int| 0 <= i < before.len() && before[i] == x;
                                if i < at {
                                    assert(ids@[i] == x);
                                } else {
                                    assert(ids@[i + 1] == x);
                                }
                            }
                            if ids@.contains(x) && x != id {
                                let i = choose|i: int| 0 <= i < ids@.len() && ids@[i] == x;
                                if i < at {
                                    assert(before[i] == x);
                                } else {
                                    assert(before[i - 1] == x);
                                }
                            }
                        }
                    }
                } else {
                    assert(before.contains(id));
                }
                proof {
                    assert forall|x: usize| ids@.contains(x) <==> listed(
                        names@,
                        k + 1,
                        x,
                    ) by {
                        if listed(names@, k + 1, x) {
                            let i = choose|i: int|
                                0 <= i < k + 1 && i < names@.len() && word_id_of(
                                    #[trigger] names@[i]@,
                                ) == Some(x);
                            if i < k {
                                assert(listed(names@, k as int, x));
                            }
                        }
                        if before.contains(x) {
                            assert(listed(names@, k as int, x));
                        }
                    }
                }
            },
            None => {
                proof {
                    assert forall|x: usize| listed(names@, k + 1, x) implies listed(
                        names@,
                        k as int,
                        x,
                    ) by {
                        let i = choose|i: int|
                            0 <= i < k + 1 && i < names@.len() && word_id_of(
                                #[trigger] names@[i]@,
                            ) == Some(x);
                        assert(i < k);
                    }
                }
            },
        }
        k = k + 1;
    }
    ids
}

/// An ASCII character is its byte.
proof fn lemma_ascii(c: char, byte: u8)
    requires
        '\0' <= c <= '\u{7f}',
        c as u8 == byte,
    ensures
        c as u32 == byte,
        digit_value(c) == if 48 <= byte <= 57 {
            Some((byte - 48) as nat)
        } else {
            None
        },
        (c == '.') == (byte == 46),
        (c == 'k') == (byte == 107),
        (c == 'v') == (byte == 118),
{
}

/// A name with a character outside ASCII is no segment file's name.
proof fn lemma_other_scripts(name: Seq<char>)
    requires
        !vstd::utf8::is_ascii_chars(name),
    ensures
        segment_id_of(name) is None,
{
    if segment_id_of(name) is Some {
        let text = name.subrange(0, name.len() - 3);
        let tail = name.subrange(name.len() - 3, name.len() as int);
        assert forall|i: int| 0 <= i < name.len() implies '\0' <= #[trigger] name[i]
            <= '\u{7f}' by {
            if i < text.len() {
                assert(text[i] == name[i]);
                lemma_number_is_digits(text, i);
            } else {
                assert(tail[i - text.len()] == name[i]);
            }
        }
    }
}

/// Where a text is read as a number, so is each of its beginnings.
proof fn lemma_prefix_is_number(text: Seq<char>, length: int)
    requires
        1 <= length <= text.len(),
        number_of(text) is Some,
    ensures
        number_of(text.subrange(0, length)) is Some,
    decreases text.len(),
{
    if length < text.len() {
        lemma_prefix_is_number(text.drop_last(), length);
        assert(text.drop_last().subrange(0, length) =~= text.subrange(0, length));
    } else {
        assert(text.subrange(0, length) =~= text);
    }
}

/// Where a text is read as a number, the number is no smaller than what each
/// of its beginnings is read as.
proof fn lemma_number_grows(text: Seq<char>, length: int)
    requires
        1 <= length <= text.len(),
        number_of(text) is Some,
    ensures
        number_of(text.subrange(0, length)) is Some,
        number_of(text.subrange(0, length)).unwrap() <= number_of(text).unwrap(),
    decreases text.len(),
{
    if length < text.len() {
        lemma_number_grows(text.drop_last(), length);
        assert(text.drop_last().subrange(0, length) =~= text.subrange(0, length));
    } else {
        assert(text.subrange(0, length) =~= text);
    }
}

} // verus!
