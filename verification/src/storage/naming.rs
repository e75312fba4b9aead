//! Names of segment files.
//!
//! A segment's file is named by its base offset in decimal, padded with
//! zeros, and the extension `dat`: `00000.dat` is the file of the segment
//! that starts at offset 0.

use vstd::prelude::*;
use vstd::string::StringExecFns;

verus! {

/// The extension that marks a segment file.
pub open spec fn log_extension() -> Seq<char> {
    seq!['d', 'a', 't']
}

/// Where `c` stands last in `text`.
pub open spec fn last_position(text: Seq<char>, c: char) -> Option<int>
    decreases text.len(),
{
    if text.len() == 0 {
        None
    } else if text.last() == c {
        Some(text.len() - 1)
    } else {
        last_position(text.drop_last(), c)
    }
}

/// The last component of a path: what follows its last `/`.
pub open spec fn file_name(path: Seq<char>) -> Seq<char> {
    match last_position(path, '/') {
        Some(i) => path.skip(i + 1),
        None => path,
    }
}

/// The path of the file `name` in the directory `directory`.
pub open spec fn path_in(directory: Seq<char>, name: Seq<char>) -> Seq<char> {
    directory + seq!['/'] + name
}

/// Where the dot stands that parts a file name into stem and extension: the
/// last one, unless it leads the name.
pub open spec fn parting_dot(name: Seq<char>) -> Option<int> {
    match last_position(name, '.') {
        Some(i) => if i > 0 {
            Some(i)
        } else {
            None
        },
        None => None,
    }
}

/// A file name without its extension.
pub open spec fn stem(name: Seq<char>) -> Seq<char> {
    match parting_dot(name) {
        Some(i) => name.take(i),
        None => name,
    }
}

/// The extension of a file name, if it has one.
pub open spec fn extension(name: Seq<char>) -> Option<Seq<char>> {
    match parting_dot(name) {
        Some(i) => Some(name.skip(i + 1)),
        None => None,
    }
}

/// Whether a path names a segment file.
pub open spec fn names_log(path: Seq<char>) -> bool {
    extension(file_name(path)) == Some(log_extension())
}

/// Whether `c` is a decimal digit.
pub open spec fn is_digit(c: char) -> bool {
    '0' <= c && c <= '9'
}

/// Whether `text` is made of decimal digits alone.
pub open spec fn all_digits(text: Seq<char>) -> bool {
    forall|i: int| 0 <= i < text.len() ==> is_digit(#[trigger] text[i])
}

/// The number that the decimal digits `digits` write.
pub open spec fn number(digits: Seq<char>) -> nat
    decreases digits.len(),
{
    if digits.len() == 0 {
        0
    } else {
        10 * number(digits.drop_last()) + (digits.last() as u32 - '0' as u32) as nat
    }
}

/// `text` without the plus sign that may lead it.
pub open spec fn unsigned(text: Seq<char>) -> Seq<char> {
    if text.len() > 0 && text[0] == '+' {
        text.skip(1)
    } else {
        text
    }
}

/// The offset that `text` writes in decimal: one digit or more, after an
/// optional plus sign, with a value that fits in 64 bits.
pub open spec fn decimal(text: Seq<char>) -> Option<u64> {
    let digits = unsigned(text);
    if digits.len() > 0 && all_digits(digits) && number(digits) <= u64::MAX {
        Some(number(digits) as u64)
    } else {
        None
    }
}

/// The base offset that the file at `path` is named by.
pub open spec fn base_offset_of(path: Seq<char>) -> Option<u64> {
    decimal(stem(file_name(path)))
}

/// The digit that writes `value`, a number below ten.
pub open spec fn digit(value: nat) -> char {
    ('0' as u32 + value) as char
}

/// The decimal digits that write `value`, without a leading zero but for
/// zero itself.
pub open spec fn digits(value: nat) -> Seq<char>
    decreases value,
{
    if value < 10 {
        seq![digit(value)]
    } else {
        digits(value / 10).push(digit(value % 10))
    }
}

/// `text` behind as many zeros as bring it to `width` characters.
pub open spec fn padded(text: Seq<char>, width: nat) -> Seq<char> {
    if text.len() >= width {
        text
    } else {
        Seq::new((width - text.len()) as nat, |i: int| '0') + text
    }
}

/// The name of the log file of the segment that starts at `base_offset`: the
/// offset in decimal, padded with zeros to five digits, and the extension
/// of a segment file.
pub open spec fn log_name(base_offset: u64) -> Seq<char> {
    padded(digits(base_offset as nat), 5) + seq!['.'] + log_extension()
}

/// The last place of a character in a text lies in the text and holds the
/// character, and the character does not stand behind it.
pub proof fn lemma_last_position_in_range(text: Seq<char>, c: char)
    ensures
        match last_position(text, c) {
            Some(i) => 0 <= i < text.len() && text[i] == c && forall|j: int|
                i < j < text.len() ==> text[j] != c,
            None => forall|j: int| 0 <= j < text.len() ==> text[j] != c,
        },
    decreases text.len(),
{
    if text.len() != 0 && text.last() != c {
        let front = text.drop_last();
        lemma_last_position_in_range(front, c);
        assert forall|j: int| 0 <= j < text.len() && text[j] == c implies j < front.len()
            && front[j] == c by {}
    }
}

/// A character that stands in a text, with none like it behind, stands there
/// last.
pub proof fn lemma_last_position_is(text: Seq<char>, c: char, place: int)
    requires
        0 <= place < text.len(),
        text[place] == c,
        forall|j: int| place < j < text.len() ==> text[j] != c,
    ensures
        last_position(text, c) == Some(place),
{
    lemma_last_position_in_range(text, c);
}

/// The last place of a character behind the first `k` characters of a text
/// is its last place in the text, where that lies behind them.
pub proof fn lemma_last_position_skips(text: Seq<char>, k: int, c: char)
    requires
        0 <= k <= text.len(),
    ensures
        last_position(text.skip(k), c) == match last_position(text, c) {
            Some(i) => if i >= k {
                Some(i - k)
            } else {
                None
            },
            None => None,
        },
    decreases text.len(),
{
    if k == text.len() {
        assert(text.skip(k).len() == 0);
        lemma_last_position_in_range(text, c);
    } else {
        assert(text.skip(k).last() == text.last());
        if text.last() != c {
            assert(text.skip(k).drop_last() =~= text.drop_last().skip(k));
            lemma_last_position_skips(text.drop_last(), k, c);
        }
    }
}

/// The file name of a path that ends in a slash and a name without a slash
/// is that name.
pub proof fn lemma_file_name_of_joined(directory: Seq<char>, name: Seq<char>)
    requires
        forall|j: int| 0 <= j < name.len() ==> name[j] != '/',
    ensures
        file_name(path_in(directory, name)) == name,
{
    let path = path_in(directory, name);
    lemma_last_position_is(path, '/', directory.len() as int);
    assert(path.skip(directory.len() as int + 1) =~= name);
}

/// The digits of a number begin with the digits of a number no larger.
pub proof fn lemma_number_grows(digits: Seq<char>, k: int)
    requires
        0 <= k <= digits.len(),
        all_digits(digits),
    ensures
        number(digits.take(k)) <= number(digits),
    decreases digits.len(),
{
    if k == digits.len() {
        assert(digits.take(k) =~= digits);
    } else {
        assert(is_digit(digits[digits.len() - 1]));
        assert(digits.drop_last().take(k) =~= digits.take(k));
        lemma_number_grows(digits.drop_last(), k);
    }
}

/// The digits of a number are digits, one at least, and write the number.
pub proof fn lemma_digits_write(value: nat)
    ensures
        digits(value).len() > 0,
        all_digits(digits(value)),
        number(digits(value)) == value,
    decreases value,
{
    if value < 10 {
        assert(digits(value).drop_last() =~= Seq::<char>::empty());
        assert(number(Seq::<char>::empty()) == 0);
    } else {
        lemma_digits_write(value / 10);
        let all = digits(value);
        assert(all.drop_last() =~= digits(value / 10));
        assert forall|i: int| 0 <= i < all.len() implies is_digit(#[trigger] all[i]) by {
            if i < all.len() - 1 {
                assert(all[i] == digits(value / 10)[i]);
            }
        }
    }
}

/// A number of 64 bits has twenty digits at most.
proof fn lemma_digits_bound(value: nat)
    requires
        value <= u64::MAX,
    ensures
        digits(value).len() <= 20,
{
    reveal_with_fuel(digits, 21);
}

/// Zeros write the number zero.
pub proof fn lemma_zeros_write_zero(zeros: Seq<char>)
    requires
        forall|i: int| 0 <= i < zeros.len() ==> zeros[i] == '0',
    ensures
        all_digits(zeros),
        number(zeros) == 0,
    decreases zeros.len(),
{
    if zeros.len() > 0 {
        lemma_zeros_write_zero(zeros.drop_last());
    }
}

/// Zeros in front of digits leave them digits and do not change the number
/// they write.
pub proof fn lemma_padded_writes(text: Seq<char>, width: nat)
    requires
        all_digits(text),
    ensures
        all_digits(padded(text, width)),
        number(padded(text, width)) == number(text),
        padded(text, width).len() >= text.len(),
    decreases text.len(),
{
    if text.len() < width {
        let zeros = Seq::new((width - text.len()) as nat, |i: int| '0');
        let all = padded(text, width);
        if text.len() == 0 {
            assert(all =~= zeros);
            lemma_zeros_write_zero(zeros);
        } else {
            assert(is_digit(text[text.len() - 1]));
            assert(all.drop_last() =~= padded(text.drop_last(), (width - 1) as nat));
            assert(all.last() == text.last());
            lemma_padded_writes(text.drop_last(), (width - 1) as nat);
            assert forall|i: int| 0 <= i < all.len() implies is_digit(#[trigger] all[i]) by {
                if i < all.len() - 1 {
                    assert(all[i] == all.drop_last()[i]);
                }
            }
        }
    }
}

/// The log file of a segment is, in whatever directory, a segment file named
/// by the segment's base offset.
pub proof fn lemma_log_name_is_read_back(directory: Seq<char>, base_offset: u64)
    ensures
        names_log(path_in(directory, log_name(base_offset))),
        base_offset_of(path_in(directory, log_name(base_offset))) == Some(base_offset),
{
    let written = padded(digits(base_offset as nat), 5);
    let name = log_name(base_offset);
    lemma_digits_write(base_offset as nat);
    lemma_padded_writes(digits(base_offset as nat), 5);
    assert forall|j: int| 0 <= j < name.len() implies name[j] != '/' by {
        if j < written.len() {
            assert(is_digit(written[j]));
        }
    }
    lemma_file_name_of_joined(directory, name);
    assert forall|j: int| written.len() < j < name.len() implies name[j] != '.' by {}
    lemma_last_position_is(name, '.', written.len() as int);
    assert(name.take(written.len() as int) =~= written);
    assert(name.skip(written.len() as int + 1) =~= log_extension());
    assert(is_digit(written[0]));
}

/// The characters of `text`, in order.
pub fn chars_of(text: &str) -> (chars: Vec<char>)
    ensures
        chars@ == text@,
{
    let mut chars: Vec<char> = Vec::new();
    for c in it: text.chars()
        invariant
            chars@ == it.seq().take(it.index() as int),
            it.seq() == text@,
    {
        chars.push(c);
    }
    chars
}

/// Where `c` stands last among the first `end` characters of `text`.
fn last_position_before(text: &Vec<char>, end: usize, c: char) -> (r: Option<usize>)
    requires
        end <= text@.len(),
    ensures
        match r {
            Some(i) => last_position(text@.take(end as int), c) == Some(i as int) && i < end,
            None => last_position(text@.take(end as int), c) is None,
        },
{
    let mut i: usize = end;
    assert(text@.take(end as int).take(i as int) =~= text@.take(end as int));
    while i > 0
        invariant
            i <= end <= text@.len(),
            last_position(text@.take(end as int), c) == last_position(text@.take(i as int), c),
        decreases i,
    {
        if text[i - 1] == c {
            return Some(i - 1);
        }
        assert(text@.take(i as int).drop_last() =~= text@.take(i - 1));
        i = i - 1;
    }
    None
}

/// Where the dot stands that parts the file name `text[start..end]`.
fn dot_between(text: &Vec<char>, start: usize, end: usize) -> (r: Option<usize>)
    requires
        start <= end <= text@.len(),
    ensures
        match r {
            Some(i) => start < i < end && parting_dot(text@.subrange(start as int, end as int))
                == Some(i - start),
            None => parting_dot(text@.subrange(start as int, end as int)) is None,
        },
{
    let ghost name = text@.subrange(start as int, end as int);
    proof {
        lemma_last_position_skips(text@.take(end as int), start as int, '.');
        assert(text@.take(end as int).skip(start as int) =~= name);
    }
    match last_position_before(text, end, '.') {
        Some(i) => if i > start {
            Some(i)
        } else {
            None
        },
        None => None,
    }
}

/// The value of the characters of `text` from `start` to `end`, read as a
/// decimal offset.
fn decimal_between(text: &Vec<char>, start: usize, end: usize) -> (r: Option<u64>)
    requires
        start <= end <= text@.len(),
    ensures
        r == decimal(text@.subrange(start as int, end as int)),
{
    let ghost whole = text@.subrange(start as int, end as int);
    let from: usize = if start < end && text[start] == '+' {
        start + 1
    } else {
        start
    };
    let ghost digits = unsigned(whole);
    assert(digits =~= text@.subrange(from as int, end as int));
    if from == end {
        return None;
    }
    let mut value: u64 = 0;
    let mut i: usize = from;
    assert(digits.take(0) =~= Seq::<char>::empty());
    while i < end
        invariant
            from <= i <= end <= text@.len(),
            whole == text@.subrange(start as int, end as int),
            digits == text@.subrange(from as int, end as int),
            digits == unsigned(whole),
            all_digits(digits.take(i - from)),
            value == number(digits.take(i - from)),
        decreases end - i,
    {
        let c = text[i];
        let ghost seen = digits.take(i - from + 1);
        assert(seen.drop_last() =~= digits.take(i - from));
        assert(seen.last() == c);
        if c < '0' || c > '9' {
            assert(!is_digit(digits[i - from]));
            return None;
        }
        let d: u64 = (c as u32 - '0' as u32) as u64;
        assert(all_digits(seen)) by {
            assert forall|j: int| 0 <= j < seen.len() implies is_digit(#[trigger] seen[j]) by {
                if j < seen.len() - 1 {
                    assert(seen[j] == digits.take(i - from)[j]);
                }
            }
        }
        if value > (u64::MAX - d) / 10 {
            proof {
                if all_digits(digits) {
                    lemma_number_grows(digits, i - from + 1);
                }
            }
            return None;
        }
        value = value * 10 + d;
        i = i + 1;
    }
    assert(digits.take(i - from) =~= digits);
    Some(value)
}

/// The base offset that the file at `path` is named by, if its name gives
/// one.
pub fn parse_base_offset(path: &str) -> (r: Option<u64>)
    ensures
        r == base_offset_of(path@),
{
    let chars = chars_of(path);
    let len = chars.len();
    assert(chars@.take(len as int) =~= chars@);
    let start: usize = match last_position_before(&chars, len, '/') {
        Some(i) => i + 1,
        None => 0,
    };
    let ghost name = file_name(path@);
    assert(name =~= chars@.skip(start as int));
    let end: usize = match dot_between(&chars, start, len) {
        Some(i) => i,
        None => len,
    };
    assert(stem(name) =~= chars@.subrange(start as int, end as int));
    decimal_between(&chars, start, end)
}

/// Whether `path` names a segment file: its file name has the extension
/// `dat`.
pub fn has_log_extension(path: &str) -> (r: bool)
    ensures
        r == names_log(path@),
{
    let chars = chars_of(path);
    let len = chars.len();
    assert(chars@.take(len as int) =~= chars@);
    let start: usize = match last_position_before(&chars, len, '/') {
        Some(i) => i + 1,
        None => 0,
    };
    let ghost name = file_name(path@);
    assert(name =~= chars@.subrange(start as int, len as int));
    match dot_between(&chars, start, len) {
        Some(i) => {
            let ghost found = name.skip(i - start + 1);
            assert(found =~= chars@.subrange(i + 1, len as int));
            let r = len - i == 4 && chars[i + 1] == 'd' && chars[i + 2] == 'a' && chars[i + 3]
                == 't';
            proof {
                if r {
                    assert(found =~= log_extension());
                } else if found.len() == 3 {
                    assert(found[0] == chars@[i + 1]);
                    assert(found[1] == chars@[i + 2]);
                    assert(found[2] == chars@[i + 3]);
                    assert(log_extension()[0] == 'd');
                    assert(log_extension()[1] == 'a');
                    assert(log_extension()[2] == 't');
                }
            }
            r
        },
        None => false,
    }
}

/// The path of the file `name` in the directory `directory`.
pub fn join_path(directory: &str, name: &str) -> (path: String)
    ensures
        path@ == path_in(directory@, name@),
{
    proof {
        reveal_strlit("/");
    }
    let path = String::from_str(directory).concat("/").concat(name);
    assert(path@ =~= path_in(directory@, name@));
    path
}

/// The digit that writes `value`, as a text.
fn digit_text(value: u64) -> (text: &'static str)
    requires
        value < 10,
    ensures
        text@ == seq![digit(value as nat)],
{
    proof {
        reveal_strlit("0");
        reveal_strlit("1");
        reveal_strlit("2");
        reveal_strlit("3");
        reveal_strlit("4");
        reveal_strlit("5");
        reveal_strlit("6");
        reveal_strlit("7");
        reveal_strlit("8");
        reveal_strlit("9");
    }
    let text = match value {
        0 => "0",
        1 => "1",
        2 => "2",
        3 => "3",
        4 => "4",
        5 => "5",
        6 => "6",
        7 => "7",
        8 => "8",
        _ => "9",
    };
    assert(text@ =~= seq![digit(value as nat)]);
    text
}

/// How many digits write `value`.
fn count_digits(value: u64) -> (count: usize)
    ensures
        count == digits(value as nat).len(),
        1 <= count <= 20,
    decreases value,
{
    if value >= 10 {
        let count = count_digits(value / 10);
        proof {
            lemma_digits_bound(value as nat);
        }
        count + 1
    } else {
        1
    }
}

/// Writes the digits of `value` behind `text`.
fn write_digits(text: &mut String, value: u64)
    ensures
        final(text)@ == old(text)@ + digits(value as nat),
    decreases value,
{
    if value >= 10 {
        write_digits(text, value / 10);
    }
    text.append(digit_text(value % 10));
    assert(text@ =~= old(text)@ + digits(value as nat));
}

/// The name of the log file of the segment that starts at `base_offset`.
pub fn log_file_name(base_offset: u64) -> (name: String)
    ensures
        name@ == log_name(base_offset),
{
    let count = count_digits(base_offset);
    let mut name = String::new();
    let mut written: usize = count;
    while written < 5
        invariant
            count <= written,
            count < 5 ==> written <= 5,
            count >= 5 ==> written == count,
            count == digits(base_offset as nat).len(),
            name@ == Seq::new((written - count) as nat, |i: int| '0'),
        decreases 5 - written,
    {
        proof {
            reveal_strlit("0");
        }
        name.append("0");
        written = written + 1;
        assert(name@ =~= Seq::new((written - count) as nat, |i: int| '0'));
    }
    write_digits(&mut name, base_offset);
    assert(name@ =~= padded(digits(base_offset as nat), 5));
    proof {
        reveal_strlit(".dat");
    }
    name.append(".dat");
    assert(name@ =~= log_name(base_offset));
    name
}

} // verus!
