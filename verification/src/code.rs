//! The flat classification code and its ten two-digit levels.

use vstd::prelude::*;
use vstd::string::StrSliceExecFns;
use crate::error::CatalogError;

verus! {

/// Number of characters in a stored code.
pub const CODE_LEN: usize = 19;

/// Number of levels that a code addresses.
pub const LEVELS: usize = 10;

/// Whether `c` is one of the decimal digits `'0'` to `'9'`.
pub open spec fn is_digit(c: char) -> bool {
    '0' <= c && c <= '9'
}

/// The number that the decimal digit `c` stands for.
pub open spec fn digit_value(c: char) -> int {
    c as int - '0' as int
}

/// A stored code is well formed when it is nineteen decimal digits.
pub open spec fn well_formed(code: Seq<char>) -> bool {
    &&& code.len() == CODE_LEN
    &&& forall|i: int| 0 <= i < code.len() ==> is_digit(#[trigger] code[i])
}

/// The stored code with the one leading zero that lines its levels up on even positions.
pub open spec fn aligned(code: Seq<char>) -> Seq<char> {
    seq!['0'] + code
}

/// The value of the two-digit segment that `code` holds for `level`.
pub open spec fn segment(code: Seq<char>, level: int) -> int {
    10 * digit_value(aligned(code)[2 * level]) + digit_value(aligned(code)[2 * level + 1])
}

/// The ten segment values of a well-formed code, outermost level first.
pub open spec fn segments(code: Seq<char>) -> Seq<u8> {
    Seq::new(LEVELS as nat, |level: int| segment(code, level) as u8)
}

/// The decimal digit that stands for `d`, for `d` from 0 to 9.
pub open spec fn digit_char(d: int) -> char {
    ('0' as int + d) as char
}

/// The decimal digits of `n`, without leading zeros; one zero for zero.
pub open spec fn decimal(n: nat) -> Seq<char>
    decreases n,
{
    if n < 10 {
        seq![digit_char(n as int)]
    } else {
        decimal(n / 10).push(digit_char((n % 10) as int))
    }
}

/// The decimal digits of `n`, with one zero in front where `n` has a single digit.
pub open spec fn two_digits(n: nat) -> Seq<char> {
    if n < 10 {
        seq!['0'] + decimal(n)
    } else {
        decimal(n)
    }
}

/// The one-based numbers of the slots of `path`, each in two digits or more, one after
/// another.
pub open spec fn joined(path: Seq<usize>) -> Seq<char>
    decreases path.len(),
{
    if path.len() == 0 {
        Seq::empty()
    } else {
        joined(path.drop_last()) + two_digits((path.last() + 1) as nat)
    }
}

/// `text` with zeros behind it up to `width` characters; `text` itself where it is as long
/// or longer.
pub open spec fn padded(text: Seq<char>, width: nat) -> Seq<char> {
    if text.len() >= width {
        text
    } else {
        text + Seq::new((width - text.len()) as nat, |i: int| '0')
    }
}

/// The code that stands for `path`: nothing for the empty path; else the joined slot numbers
/// without their first character, padded with zeros to the length of a code.
pub open spec fn encode(path: Seq<usize>) -> Seq<char> {
    if path.len() == 0 {
        Seq::empty()
    } else {
        padded(joined(path).drop_first(), CODE_LEN as nat)
    }
}

/// A number has at least one decimal digit, and exactly two from ten to ninety-nine.
pub proof fn lemma_decimal_len(n: nat)
    ensures
        decimal(n).len() >= 1,
        n >= 10 ==> decimal(n).len() >= 2,
        10 <= n < 100 ==> decimal(n).len() == 2,
    decreases n,
{
    if n >= 10 {
        lemma_decimal_len(n / 10);
    }
}

/// Each slot of a path takes at least two characters of the joined slot numbers.
pub proof fn lemma_joined_len(path: Seq<usize>)
    ensures
        joined(path).len() >= 2 * path.len(),
    decreases path.len(),
{
    if path.len() > 0 {
        lemma_joined_len(path.drop_last());
        lemma_decimal_len((path.last() + 1) as nat);
    }
}

/// Where every slot of a path is below ninety-nine, its joined slot numbers take two
/// characters each: the tens and the ones of the slot's one-based number.
pub proof fn lemma_joined_two_each(path: Seq<usize>)
    requires
        forall|i: int| 0 <= i < path.len() ==> path[i] <= 98,
    ensures
        joined(path).len() == 2 * path.len(),
        forall|i: int|
            0 <= i < path.len() ==> {
                &&& joined(path)[2 * i] == digit_char((path[i] + 1) / 10)
                &&& joined(path)[2 * i + 1] == digit_char((path[i] + 1) % 10)
            },
    decreases path.len(),
{
    if path.len() > 0 {
        let front = path.drop_last();
        let number = (path.last() + 1) as nat;
        lemma_joined_two_each(front);
        lemma_decimal_len(number);
        assert(two_digits(number) =~= seq![
            digit_char(number as int / 10),
            digit_char(number as int % 10),
        ]) by {
            if number >= 10 {
                assert(decimal(number / 10) =~= seq![digit_char(number as int / 10)]);
            }
        }
        assert forall|i: int| 0 <= i < path.len() implies {
            &&& joined(path)[2 * i] == digit_char((path[i] + 1) / 10)
            &&& joined(path)[2 * i + 1] == digit_char((path[i] + 1) % 10)
        } by {
            if i < front.len() {
                assert(front[i] == path[i]);
            }
        }
    }
}

/// The code of a path that is not empty has nineteen characters, unless its joined slot
/// numbers have more than twenty: then it has one character less than they have.
pub proof fn lemma_code_len(path: Seq<usize>)
    requires
        path.len() > 0,
    ensures
        joined(path).len() <= CODE_LEN + 1 ==> encode(path).len() == CODE_LEN,
        joined(path).len() > CODE_LEN + 1 ==> encode(path).len() == joined(path).len() - 1,
{
    lemma_joined_len(path);
}

/// The code of a path of one to ten slots, all below ninety-nine, has nineteen characters.
pub proof fn lemma_code_len_within_levels(path: Seq<usize>)
    requires
        0 < path.len() <= LEVELS,
        forall|i: int| 0 <= i < path.len() ==> path[i] <= 98,
    ensures
        encode(path).len() == CODE_LEN,
{
    lemma_joined_two_each(path);
}

/// A path of at most ten slots, the first below nine and all below ninety-nine, comes back
/// from its code: the code is well formed, its segment at each level of the path is the
/// slot's one-based number, and its segments below the path are zero.
pub proof fn lemma_code_of_path_reads_back(path: Seq<usize>)
    requires
        0 < path.len() <= LEVELS,
        path[0] <= 8,
        forall|i: int| 0 <= i < path.len() ==> path[i] <= 98,
    ensures
        well_formed(encode(path)),
        forall|level: int| 0 <= level < path.len() ==> segment(encode(path), level) == path[level] + 1,
        forall|level: int| path.len() <= level < LEVELS ==> segment(encode(path), level) == 0,
{
    lemma_joined_two_each(path);
    let digits = joined(path);
    let code = encode(path);
    let lined_up = aligned(code);
    // The zero that is put in front is the character that the code has lost, and what
    // stands behind the joined digits is zeros.
    assert(digits[0] == '0');
    assert forall|j: int| 0 <= j < lined_up.len() implies lined_up[j] == if j < digits.len() {
        digits[j]
    } else {
        '0'
    } by {
        if 0 < j < digits.len() {
            assert(code[j - 1] == digits.drop_first()[j - 1]);
        }
    }
    assert forall|i: int| 0 <= i < code.len() implies is_digit(#[trigger] code[i]) by {
        assert(code[i] == lined_up[i + 1]);
        if i + 1 < digits.len() {
            let level = (i + 1) / 2;
            assert(digits[2 * level] == digit_char((path[level] + 1) / 10));
            assert(digits[2 * level + 1] == digit_char((path[level] + 1) % 10));
        }
    }
    assert forall|level: int| 0 <= level < path.len() implies segment(code, level) == path[level]
        + 1 by {
        assert(lined_up[2 * level] == digits[2 * level]);
        assert(lined_up[2 * level + 1] == digits[2 * level + 1]);
    }
    assert forall|level: int| path.len() <= level < LEVELS implies segment(code, level) == 0 by {
        assert(lined_up[2 * level] == '0');
        assert(lined_up[2 * level + 1] == '0');
    }
}

/// A well-formed code comes back from the path that its segments spell: where the segments
/// at the levels of a path are the slots' one-based numbers and the segments below are
/// zero, the code of the path is the code.
pub proof fn lemma_path_of_code_writes_back(code: Seq<char>, path: Seq<usize>)
    requires
        well_formed(code),
        0 < path.len() <= LEVELS,
        forall|level: int| 0 <= level < path.len() ==> segment(code, level) == path[level] + 1,
        forall|level: int| path.len() <= level < LEVELS ==> segment(code, level) == 0,
    ensures
        encode(path) == code,
{
    let lined_up = aligned(code);
    let digits = joined(path);
    assert forall|j: int| 0 <= j < lined_up.len() implies is_digit(#[trigger] lined_up[j]) by {
        if j > 0 {
            assert(lined_up[j] == code[j - 1]);
        }
    }
    assert forall|level: int| 0 <= level < path.len() implies path[level] <= 98 by {
        assert(is_digit(lined_up[2 * level]) && is_digit(lined_up[2 * level + 1]));
        assert(segment(code, level) == path[level] + 1);
    }
    lemma_joined_two_each(path);
    // The joined digits are the front of the code with its zero before it.
    assert forall|j: int| 0 <= j < digits.len() implies digits[j] == lined_up[j] by {
        let level = j / 2;
        assert(is_digit(lined_up[2 * level]) && is_digit(lined_up[2 * level + 1]));
        assert(segment(code, level) == path[level] + 1);
        assert(digits[2 * level] == digit_char((path[level] + 1) / 10));
        assert(digits[2 * level + 1] == digit_char((path[level] + 1) % 10));
    }
    // What follows is zeros.
    assert forall|j: int| digits.len() <= j < lined_up.len() implies lined_up[j] == '0' by {
        let level = j / 2;
        assert(is_digit(lined_up[2 * level]) && is_digit(lined_up[2 * level + 1]));
        assert(segment(code, level) == 0);
    }
    assert forall|i: int| 0 <= i < code.len() implies encode(path)[i] == code[i] by {
        assert(code[i] == lined_up[i + 1]);
        if i + 1 < digits.len() {
            assert(digits.drop_first()[i] == digits[i + 1]);
        }
    }
    assert(encode(path) =~= code);
}

/// `String::push` of the standard library appends the one character to the string and
/// leaves what was there in place.
pub assume_specification[ String::push ](text: &mut String, ch: char)
    ensures
        final(text)@ == old(text)@.push(ch),
;

fn push_decimal(out: &mut Vec<char>, n: u128)
    ensures
        final(out)@ == old(out)@ + decimal(n as nat),
    decreases n,
{
    if n >= 10 {
        push_decimal(out, n / 10);
    }
    let digit = (n % 10) as u8;
    out.push((48u8 + digit) as char);
}

fn push_two_digits(out: &mut Vec<char>, n: u128)
    ensures
        final(out)@ == old(out)@ + two_digits(n as nat),
{
    if n < 10 {
        out.push('0');
    }
    push_decimal(out, n);
}

fn digit_of(c: char) -> (d: Option<u8>)
    ensures
        is_digit(c) ==> d == Some(digit_value(c) as u8),
        !is_digit(c) ==> d is None,
{
    if '0' <= c && c <= '9' {
        Some((c as u32 - '0' as u32) as u8)
    } else {
        None
    }
}

/// Splits a stored code into the values of its ten two-digit segments.
///
/// The code is read with one zero in front, so that the first segment is the code's first
/// digit alone. A code that is not nineteen decimal digits is rejected.
pub fn code_2_vec(code: &String) -> (result: Result<Vec<u8>, CatalogError>)
    ensures
        well_formed(code@) ==> result is Ok && result->Ok_0@ == segments(code@),
        !well_formed(code@) ==> result == Err::<Vec<u8>, CatalogError>(
            CatalogError::MalformedCode,
        ),
{
    let text = code.as_str();
    if text.unicode_len() != CODE_LEN {
        return Err(CatalogError::MalformedCode);
    }
    let mut digits: Vec<u8> = Vec::new();
    digits.push(0);
    let mut i: usize = 0;
    while i < CODE_LEN
        invariant
            text@ == code@,
            code@.len() == CODE_LEN,
            i <= CODE_LEN,
            digits@.len() == i + 1,
            digits@[0] == 0,
            forall|k: int|
                0 <= k < i ==> is_digit(#[trigger] code@[k]) && digits@[k + 1] == digit_value(
                    code@[k],
                ),
        decreases CODE_LEN - i,
    {
        match digit_of(text.get_char(i)) {
            Some(d) => digits.push(d),
            None => {
                return Err(CatalogError::MalformedCode);
            },
        }
        i += 1;
    }
    let mut values: Vec<u8> = Vec::new();
    let mut level: usize = 0;
    while level < LEVELS
        invariant
            well_formed(code@),
            level <= LEVELS,
            digits@.len() == CODE_LEN + 1,
            forall|k: int|
                0 <= k < digits@.len() ==> #[trigger] digits@[k] == digit_value(aligned(code@)[k]),
            values@.len() == level,
            forall|l: int| 0 <= l < level ==> #[trigger] values@[l] == segment(code@, l),
        decreases LEVELS - level,
    {
        let tens = digits[2 * level];
        let ones = digits[2 * level + 1];
        values.push(10 * tens + ones);
        level += 1;
    }
    Ok(values)
}

/// The code that stands for a path: each slot as its one-based number in two digits, the
/// first character dropped, zeros behind up to nineteen characters. The empty path gives the
/// empty string.
pub fn vec_2_code(v: &Vec<usize>) -> (code: String)
    ensures
        code@ == encode(v@),
        v@.len() == 0 ==> code@.len() == 0,
        v@.len() > 0 ==> code@.len() >= CODE_LEN,
        v@.len() > 0 && joined(v@).len() <= CODE_LEN + 1 ==> code@.len() == CODE_LEN,
{
    let mut code = String::new();
    if v.len() == 0 {
        return code;
    }
    let mut digits: Vec<char> = Vec::new();
    let mut i: usize = 0;
    while i < v.len()
        invariant
            i <= v@.len(),
            digits@ == joined(v@.take(i as int)),
        decreases v@.len() - i,
    {
        push_two_digits(&mut digits, v[i] as u128 + 1);
        i += 1;
        assert(v@.take(i as int).drop_last() =~= v@.take(i - 1));
    }
    assert(v@.take(i as int) =~= v@);
    proof {
        lemma_joined_len(v@);
    }
    let mut next: usize = 1;
    while next < digits.len()
        invariant
            1 <= next <= digits@.len(),
            code@ == digits@.subrange(1, next as int),
        decreases digits@.len() - next,
    {
        code.push(digits[next]);
        next += 1;
    }
    let ghost body = code@;
    let mut count: usize = digits.len() - 1;
    while count < CODE_LEN
        invariant
            body.len() <= count,
            count <= CODE_LEN || count == body.len(),
            code@ == body + Seq::new((count - body.len()) as nat, |i: int| '0'),
        decreases CODE_LEN - count,
    {
        code.push('0');
        count += 1;
    }
    code
}

} // verus!
