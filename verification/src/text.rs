//! Text: decimal numbers, the parts of a path, and prefixes.
use vstd::prelude::*;
use vstd::string::StringExecFns;
use vstd::utf8::{
    decode_utf8, encode_utf8, encode_utf8_decode_utf8, encode_utf8_valid_utf8, valid_utf8,
};

verus! {

/// The character of a decimal digit.
pub open spec fn digit(d: nat) -> char {
    if d == 0 {
        '0'
    } else if d == 1 {
        '1'
    } else if d == 2 {
        '2'
    } else if d == 3 {
        '3'
    } else if d == 4 {
        '4'
    } else if d == 5 {
        '5'
    } else if d == 6 {
        '6'
    } else if d == 7 {
        '7'
    } else if d == 8 {
        '8'
    } else {
        '9'
    }
}

/// A number in decimal, without leading zeros.
pub open spec fn decimal(n: nat) -> Seq<char>
    decreases n,
{
    if n < 10 {
        seq![digit(n)]
    } else {
        decimal(n / 10).push(digit(n % 10))
    }
}

/// The last `width` decimal digits of a number, padded with zeros in front.
pub open spec fn fixed_decimal(n: nat, width: nat) -> Seq<char>
    decreases width,
{
    if width == 0 {
        Seq::empty()
    } else {
        fixed_decimal(n / 10, (width - 1) as nat).push(digit(n % 10))
    }
}

/// Appends one digit.
fn push_digit(out: &mut String, d: u64)
    requires
        d < 10,
    ensures
        final(out)@ == old(out)@.push(digit(d as nat)),
{
    proof {
        reveal_strlit("0");
        reveal_strlit("1");
        reveal_strlit("2");
        reveal_strlit("3");
        reveal_strlit("4");
        reveal_strlit("5");
        reveal_strlit("6");
        reveal_strlit("7");
        reveal_strlit("8");
        reveal_strlit("9");
    }
    if d == 0 {
        out.append("0");
    } else if d == 1 {
        out.append("1");
    } else if d == 2 {
        out.append("2");
    } else if d == 3 {
        out.append("3");
    } else if d == 4 {
        out.append("4");
    } else if d == 5 {
        out.append("5");
    } else if d == 6 {
        out.append("6");
    } else if d == 7 {
        out.append("7");
    } else if d == 8 {
        out.append("8");
    } else {
        out.append("9");
    }
    assert(out@ =~= old(out)@.push(digit(d as nat)));
}

/// Appends a number in decimal.
pub fn push_decimal(out: &mut String, n: u64)
    ensures
        final(out)@ == old(out)@ + decimal(n as nat),
    decreases n,
{
    if n >= 10 {
        push_decimal(out, n / 10);
    }
    push_digit(out, n % 10);
    assert(out@ =~= old(out)@ + decimal(n as nat));
}

/// Appends the last `width` decimal digits of a number.
pub fn push_fixed_decimal(out: &mut String, n: u64, width: usize)
    ensures
        final(out)@ == old(out)@ + fixed_decimal(n as nat, width as nat),
    decreases width,
{
    if width > 0 {
        push_fixed_decimal(out, n / 10, width - 1);
        push_digit(out, n % 10);
    }
    assert(out@ =~= old(out)@ + fixed_decimal(n as nat, width as nat));
}

/// The value of a decimal digit, if `c` is one.
pub open spec fn digit_value(c: char) -> Option<nat> {
    if c == '0' {
        Some(0)
    } else if c == '1' {
        Some(1)
    } else if c == '2' {
        Some(2)
    } else if c == '3' {
        Some(3)
    } else if c == '4' {
        Some(4)
    } else if c == '5' {
        Some(5)
    } else if c == '6' {
        Some(6)
    } else if c == '7' {
        Some(7)
    } else if c == '8' {
        Some(8)
    } else if c == '9' {
        Some(9)
    } else {
        None
    }
}

/// The number that a run of decimal digits stands for; `None` where one of the
/// characters is no digit.
pub open spec fn digits_value(s: Seq<char>) -> Option<nat>
    decreases s.len(),
{
    if s.len() == 0 {
        Some(0)
    } else {
        match (digits_value(s.drop_last()), digit_value(s.last())) {
            (Some(high), Some(low)) => Some(high * 10 + low),
            _ => None,
        }
    }
}

/// What the text of a `u64` stands for: digits, after a plus sign or without
/// one, whose value fits.
pub open spec fn parse_u64_spec(s: Seq<char>) -> Option<u64> {
    let digits = if s.len() > 0 && s[0] == '+' {
        s.skip(1)
    } else {
        s
    };
    if digits.len() == 0 {
        None
    } else {
        match digits_value(digits) {
            Some(value) if value <= u64::MAX => Some(value as u64),
            _ => None,
        }
    }
}

/// The digit's value.
fn read_digit(c: char) -> (value: Option<u64>)
    ensures
        value is Some <==> digit_value(c) is Some,
        value is Some ==> value->0 as nat == digit_value(c)->0 && value->0 < 10,
{
    if c == '0' {
        Some(0)
    } else if c == '1' {
        Some(1)
    } else if c == '2' {
        Some(2)
    } else if c == '3' {
        Some(3)
    } else if c == '4' {
        Some(4)
    } else if c == '5' {
        Some(5)
    } else if c == '6' {
        Some(6)
    } else if c == '7' {
        Some(7)
    } else if c == '8' {
        Some(8)
    } else if c == '9' {
        Some(9)
    } else {
        None
    }
}

/// A longer run of digits stands for no smaller a number.
proof fn lemma_digits_value_grows(s: Seq<char>, i: int)
    requires
        0 <= i <= s.len(),
        digits_value(s) is Some,
    ensures
        digits_value(s.take(i)) is Some,
        digits_value(s.take(i))->0 <= digits_value(s)->0,
    decreases s.len(),
{
    if i == s.len() {
        assert(s.take(i) =~= s);
    } else {
        lemma_digits_value_grows(s.drop_last(), i);
        assert(s.drop_last().take(i) =~= s.take(i));
    }
}

/// Reads a `u64` from its text.
pub fn parse_u64(s: &Vec<char>) -> (value: Option<u64>)
    ensures
        value == parse_u64_spec(s@),
{
    let start: usize = if s.len() > 0 && s[0] == '+' {
        1
    } else {
        0
    };
    let ghost digits = s@.skip(start as int);
    assert(start == 0 ==> digits =~= s@);
    if start == s.len() {
        return None;
    }
    let mut value: u64 = 0;
    let mut i: usize = start;
    assert(digits.take(0) =~= Seq::empty());
    while i < s.len()
        invariant
            start <= i <= s.len(),
            start <= 1,
            digits == s@.skip(start as int),
            digits.len() > 0,
            parse_u64_spec(s@) == (match digits_value(digits) {
                Some(value) if value <= u64::MAX => Some(value as u64),
                _ => None,
            }),
            digits_value(digits.take(i - start)) == Some(value as nat),
        decreases s.len() - i,
    {
        let ghost here = i - start;
        assert(digits.take(here + 1).drop_last() =~= digits.take(here));
        assert(digits.take(here + 1).last() == s@[i as int]);
        proof {
            if digits_value(digits) is Some {
                lemma_digits_value_grows(digits, here + 1);
            }
        }
        let low: u64 = match read_digit(s[i]) {
            Some(low) => low,
            None => {
                return None;
            },
        };
        assert(digits_value(digits.take(here + 1)) == Some((value * 10 + low) as nat));
        if value > (u64::MAX - low) / 10 {
            return None;
        }
        value = value * 10 + low;
        i += 1;
    }
    assert(digits.take(i - start) =~= digits);
    Some(value)
}

/// A number below ten to the power `width` is read back from its last `width`
/// digits.
pub proof fn lemma_fixed_decimal_value(n: nat, width: nat)
    requires
        n < power_of_ten(width),
    ensures
        fixed_decimal(n, width).len() == width,
        digits_value(fixed_decimal(n, width)) == Some(n),
        forall|i: int|
            0 <= i < width ==> digit_value(#[trigger] fixed_decimal(n, width)[i]) is Some,
    decreases width,
{
    if width > 0 {
        lemma_fixed_decimal_value(n / 10, (width - 1) as nat);
        let front = fixed_decimal(n / 10, (width - 1) as nat);
        assert(fixed_decimal(n, width).drop_last() =~= front);
        assert(digit_value(digit(n % 10)) == Some(n % 10));
    }
}

/// Ten to the power `width`.
pub open spec fn power_of_ten(width: nat) -> nat
    decreases width,
{
    if width == 0 {
        1
    } else {
        10 * power_of_ten((width - 1) as nat)
    }
}

/// The characters of a text.
pub fn chars_of(s: &str) -> (out: Vec<char>)
    ensures
        out@ == s@,
{
    let mut out: Vec<char> = Vec::new();
    for c in it: s.chars()
        invariant
            out@ == it.seq().take(it.index() as int),
    {
        out.push(c);
        assert(out@ =~= it.seq().take(it.index() + 1));
    }
    assert(out@ =~= s@);
    out
}

/// Whether `s` starts with `prefix`.
pub fn has_prefix(s: &str, prefix: &str) -> (yes: bool)
    ensures
        yes == prefix@.is_prefix_of(s@),
{
    let whole = chars_of(s);
    let front = chars_of(prefix);
    if whole.len() < front.len() {
        return false;
    }
    let mut i: usize = 0;
    while i < front.len()
        invariant
            i <= front.len() <= whole.len(),
            whole@ == s@,
            front@ == prefix@,
            forall|j: int| 0 <= j < i ==> front@[j] == whole@[j],
        decreases front.len() - i,
    {
        if whole[i] != front[i] {
            assert(front@[i as int] != whole@.subrange(0, front@.len() as int)[i as int]);
            return false;
        }
        i += 1;
    }
    assert(front@ =~= whole@.subrange(0, front@.len() as int));
    true
}

/// Where `c` occurs last in `s`, or -1 where it does not.
pub open spec fn last_index(s: Seq<char>, c: char) -> int
    decreases s.len(),
{
    if s.len() == 0 {
        -1
    } else if s.last() == c {
        s.len() - 1
    } else {
        last_index(s.drop_last(), c)
    }
}

/// A path without what behind its last component names nothing: slashes, and
/// dots that stand for the directory itself.
pub open spec fn trimmed(path: Seq<char>) -> Seq<char>
    decreases path.len(),
{
    let n = path.len() as int;
    if n >= 1 && path[n - 1] == '/' {
        trimmed(path.take(n - 1))
    } else if n >= 2 && path[n - 1] == '.' && path[n - 2] == '/' {
        trimmed(path.take(n - 2))
    } else {
        path
    }
}

/// The last component of a path.
pub open spec fn file_name(path: Seq<char>) -> Seq<char> {
    trimmed(path).skip(last_index(trimmed(path), '/') + 1)
}

/// Whether a last component names a file.
pub open spec fn names_file(name: Seq<char>) -> bool {
    name.len() > 0 && name != seq!['.'] && name != seq!['.', '.']
}

/// The last component of a path without its extension; `None` where the path
/// names no file.
pub open spec fn file_stem_spec(path: Seq<char>) -> Option<Seq<char>> {
    let name = file_name(path);
    let dot = last_index(name, '.');
    if !names_file(name) {
        None
    } else if dot <= 0 {
        Some(name)
    } else {
        Some(name.take(dot))
    }
}

/// The extension of a path's last component, where it has one.
pub open spec fn extension_spec(path: Seq<char>) -> Option<Seq<char>> {
    let name = file_name(path);
    let dot = last_index(name, '.');
    if !names_file(name) || dot <= 0 {
        None
    } else {
        Some(name.skip(dot + 1))
    }
}

/// Where a character occurs last lies inside the text, and it occurs nowhere
/// behind.
pub proof fn lemma_last_index(s: Seq<char>, c: char)
    ensures
        -1 <= last_index(s, c) < s.len(),
        last_index(s, c) >= 0 ==> s[last_index(s, c)] == c,
        forall|i: int| last_index(s, c) < i < s.len() ==> s[i] != c,
    decreases s.len(),
{
    if s.len() > 0 && s.last() != c {
        lemma_last_index(s.drop_last(), c);
        assert forall|i: int| last_index(s, c) < i < s.len() implies s[i] != c by {
            if i < s.len() - 1 {
                assert(s.drop_last()[i] == s[i]);
            }
        }
    }
}

/// The one place behind which a character does not occur is where it occurs
/// last.
pub proof fn lemma_last_index_is(s: Seq<char>, c: char, at: int)
    requires
        -1 <= at < s.len(),
        at >= 0 ==> s[at] == c,
        forall|i: int| at < i < s.len() ==> s[i] != c,
    ensures
        last_index(s, c) == at,
{
    lemma_last_index(s, c);
}

/// The position behind the last `c` from `from` on, or `from` where there is none.
fn behind_last(s: &Vec<char>, from: usize, c: char) -> (at: usize)
    requires
        from <= s.len(),
    ensures
        from <= at <= s.len(),
        at - from == last_index(s@.skip(from as int), c) + 1,
{
    let ghost tail = s@.skip(from as int);
    let mut at: usize = s.len();
    while at > from && s[at - 1] != c
        invariant
            from <= at <= s.len(),
            tail == s@.skip(from as int),
            forall|i: int| at - from <= i < tail.len() ==> tail[i] != c,
        decreases at,
    {
        at -= 1;
    }
    proof {
        lemma_last_index_is(tail, c, at - from - 1);
    }
    at
}

/// The characters of a path up to the end of its last component.
fn trimmed_chars(path: &str) -> (chars: Vec<char>)
    ensures
        chars@ == trimmed(path@),
{
    let mut chars = chars_of(path);
    while chars.len() > 0
        invariant_except_break
            trimmed(chars@) == trimmed(path@),
        ensures
            chars@ == trimmed(path@),
        decreases chars.len(),
    {
        let n: usize = chars.len();
        if chars[n - 1] == '/' {
            chars.truncate(n - 1);
        } else if n >= 2 && chars[n - 1] == '.' && chars[n - 2] == '/' {
            chars.truncate(n - 2);
        } else {
            break;
        }
    }
    chars
}

/// Where the last component of a trimmed path begins, and where the part before
/// its extension ends, behind the dot; `None` where the path names no file.
fn split_name(path: &Vec<char>) -> (parts: Option<(usize, usize)>)
    requires
        trimmed(path@) == path@,
    ensures
        parts is None <==> !names_file(file_name(path@)),
        parts matches Some((start, behind_dot)) ==> {
            &&& start <= behind_dot <= path.len()
            &&& start == last_index(path@, '/') + 1
            &&& behind_dot - start == last_index(file_name(path@), '.') + 1
        },
{
    assert(path@.skip(0) =~= path@);
    let start = behind_last(path, 0, '/');
    let behind_dot = behind_last(path, start, '.');
    let ghost name = file_name(path@);
    if start == path.len() {
        return None;
    }
    if path.len() - start == 1 && path[start] == '.' {
        assert(name =~= seq!['.']);
        return None;
    }
    if path.len() - start == 2 && path[start] == '.' && path[start + 1] == '.' {
        assert(name =~= seq!['.', '.']);
        return None;
    }
    assert(name.len() == 1 ==> name[0] == path@[start as int]);
    assert(name.len() == 2 ==> name[0] == path@[start as int] && name[1] == path@[start + 1]);
    assert(seq!['.'][0] == '.');
    assert(seq!['.', '.'][0] == '.' && seq!['.', '.'][1] == '.');
    Some((start, behind_dot))
}

/// There is nothing more to trim.
proof fn lemma_trimmed_twice(path: Seq<char>)
    ensures
        trimmed(trimmed(path)) == trimmed(path),
    decreases path.len(),
{
    let n = path.len() as int;
    if n >= 1 && path[n - 1] == '/' {
        lemma_trimmed_twice(path.take(n - 1));
    } else if n >= 2 && path[n - 1] == '.' && path[n - 2] == '/' {
        lemma_trimmed_twice(path.take(n - 2));
    }
}

/// Copies a stretch of characters.
fn char_range(s: &Vec<char>, from: usize, to: usize) -> (out: Vec<char>)
    requires
        from <= to <= s.len(),
    ensures
        out@ == s@.subrange(from as int, to as int),
{
    let mut out: Vec<char> = Vec::new();
    let mut i: usize = from;
    while i < to
        invariant
            from <= i <= to <= s.len(),
            out@ == s@.subrange(from as int, i as int),
        decreases to - i,
    {
        out.push(s[i]);
        assert(out@ =~= s@.subrange(from as int, i + 1));
        i += 1;
    }
    out
}

/// The last component of a path without its extension.
pub fn file_stem(path: &str) -> (stem: Option<Vec<char>>)
    ensures
        stem is None <==> file_stem_spec(path@) is None,
        stem is Some ==> file_stem_spec(path@) == Some(stem->0@),
{
    let chars = trimmed_chars(path);
    proof {
        lemma_trimmed_twice(path@);
    }
    match split_name(&chars) {
        None => None,
        Some((start, behind_dot)) => {
            let ghost name = file_name(path@);
            proof {
                lemma_last_index(name, '.');
            }
            if behind_dot - start <= 1 {
                let out = char_range(&chars, start, chars.len());
                assert(out@ =~= name);
                Some(out)
            } else {
                let out = char_range(&chars, start, behind_dot - 1);
                assert(out@ =~= name.take(behind_dot - 1 - start));
                Some(out)
            }
        },
    }
}

/// The extension of a path's last component.
pub fn extension(path: &str) -> (found: Option<Vec<char>>)
    ensures
        found is None <==> extension_spec(path@) is None,
        found is Some ==> extension_spec(path@) == Some(found->0@),
{
    let chars = trimmed_chars(path);
    proof {
        lemma_trimmed_twice(path@);
    }
    match split_name(&chars) {
        None => None,
        Some((start, behind_dot)) => {
            if behind_dot - start <= 1 {
                None
            } else {
                let out = char_range(&chars, behind_dot, chars.len());
                assert(out@ =~= file_name(path@).skip(behind_dot - start));
                Some(out)
            }
        },
    }
}

/// The path of `name` inside the directory `dir`.
pub open spec fn join_spec(dir: Seq<char>, name: Seq<char>) -> Seq<char> {
    if dir.len() == 0 || dir.last() == '/' {
        dir + name
    } else {
        dir.push('/') + name
    }
}

/// The path of `name` inside the directory `dir`.
pub fn join(dir: &str, name: &str) -> (path: String)
    ensures
        path@ == join_spec(dir@, name@),
{
    let chars = chars_of(dir);
    let mut path: String = String::from_str(dir);
    if chars.len() > 0 && chars[chars.len() - 1] != '/' {
        proof {
            reveal_strlit("/");
        }
        path.append("/");
        assert(path@ =~= dir@.push('/'));
    }
    path.append(name);
    path
}

/// The text that bytes stand for, with a replacement character for each run of
/// bytes that is not valid UTF-8.
pub uninterp spec fn utf8_lossy(bytes: Seq<u8>) -> Seq<char>;

/// `String::from_utf8_lossy`: the text depends on the bytes alone, and valid UTF-8
/// gives the text that it encodes. Which bytes the replacement characters stand
/// for is not stated.
#[verifier::external_body]
pub(crate) fn lossy_text(bytes: &[u8]) -> (text: String)
    ensures
        text@ == utf8_lossy(bytes@),
        valid_utf8(bytes@) ==> text@ == decode_utf8(bytes@),
{
    String::from_utf8_lossy(bytes).to_string()
}

/// Whether a text is the one that bytes stand for: where they are the bytes of a
/// text, it is that text.
pub open spec fn is_text_of(text: Seq<char>, bytes: Seq<u8>) -> bool {
    &&& text == utf8_lossy(bytes)
    &&& forall|chars: Seq<char>| bytes == #[trigger] encode_utf8(chars) ==> text == chars
}

/// The text that bytes stand for. A text comes back from its own bytes.
pub fn text_of(bytes: &[u8]) -> (text: String)
    ensures
        is_text_of(text@, bytes@),
        valid_utf8(bytes@) ==> text@ == decode_utf8(bytes@),
{
    let text = lossy_text(bytes);
    proof {
        assert forall|chars: Seq<char>| bytes@ == #[trigger] encode_utf8(chars) implies text@
            == chars by {
            encode_utf8_valid_utf8(chars);
            encode_utf8_decode_utf8(chars);
        }
    }
    text
}

/// A truth value in words.
pub open spec fn bool_text(value: bool) -> Seq<char> {
    if value {
        "true"@
    } else {
        "false"@
    }
}

/// Appends a truth value in words.
pub fn push_bool(out: &mut String, value: bool)
    ensures
        final(out)@ == old(out)@ + bool_text(value),
{
    if value {
        out.append("true");
    } else {
        out.append("false");
    }
}

// What the texts of numbers and paths are.

/// The number that decimal digits stand for, each digit by its place behind '0' in the
/// order of characters.
pub open spec fn place_value(s: Seq<char>) -> int {
    s.fold_left(0int, |high: int, c: char| 10 * high + (c as int - '0' as int))
}

/// Whether all characters are decimal digits.
pub open spec fn all_digits(s: Seq<char>) -> bool {
    forall|i: int| 0 <= i < s.len() ==> '0' as int <= (#[trigger] s[i]) as int <= '9' as int
}

/// Whether a text is a number in decimal: digits alone, of which the first is no zero
/// unless it is the only one, and whose value is the number.
pub open spec fn is_decimal_of(s: Seq<char>, n: nat) -> bool {
    &&& s.len() > 0
    &&& all_digits(s)
    &&& s[0] == '0' ==> s.len() == 1
    &&& place_value(s) == n
}

/// What one more digit does to a value.
proof fn lemma_place_value_push(s: Seq<char>, c: char)
    ensures
        place_value(s.push(c)) == 10 * place_value(s) + (c as int - '0' as int),
{
    assert(s.push(c).drop_last() =~= s);
}

/// The ten digits stand one behind the other in the order of characters.
pub proof fn law_digits_stand_in_order(d: nat)
    requires
        d < 10,
    ensures
        digit(d) as int == '0' as int + d,
        digit_value(digit(d)) == Some(d),
{
}

/// A character is a digit exactly if it stands between '0' and '9', and its value is
/// how far behind '0' it stands.
pub proof fn law_value_of_a_digit(c: char)
    ensures
        digit_value(c) is Some <==> '0' as int <= c as int <= '9' as int,
        digit_value(c) is Some ==> digit_value(c)->0 == c as int - '0' as int,
{
}

/// A number is written out as digits alone, without zeros in front, whose value is the
/// number.
pub proof fn law_decimal_shows_the_number(n: nat)
    ensures
        is_decimal_of(decimal(n), n),
        digits_value(decimal(n)) == Some(n),
    decreases n,
{
    lemma_decimal_is(n);
    law_value_of_digits(decimal(n));
}

/// The digits of a number.
proof fn lemma_decimal_is(n: nat)
    ensures
        is_decimal_of(decimal(n), n),
    decreases n,
{
    if n < 10 {
        law_digits_stand_in_order(n);
        assert(decimal(n) =~= Seq::<char>::empty().push(digit(n)));
        lemma_place_value_push(Seq::empty(), digit(n));
    } else {
        lemma_decimal_is(n / 10);
        law_digits_stand_in_order(n % 10);
        let front = decimal(n / 10);
        lemma_place_value_push(front, digit(n % 10));
        assert(decimal(n).drop_last() =~= front);
        assert forall|i: int| 0 <= i < decimal(n).len() implies '0' as int <= (
        #[trigger] decimal(n)[i]) as int <= '9' as int by {
            if i < front.len() {
                assert(decimal(n)[i] == front[i]);
            }
        }
        assert(decimal(n)[0] == front[0]);
        if front[0] == '0' {
            assert(front.len() == 1);
            lemma_place_value_push(Seq::empty(), front[0]);
            assert(front =~= Seq::<char>::empty().push(front[0]));
        }
    }
}

/// A number that has at most so many digits is written out with exactly so many, and
/// their value is the number.
pub proof fn law_fixed_decimal_shows_the_number(n: nat, width: nat)
    requires
        n < power_of_ten(width),
    ensures
        fixed_decimal(n, width).len() == width,
        all_digits(fixed_decimal(n, width)),
        place_value(fixed_decimal(n, width)) == n,
    decreases width,
{
    if width > 0 {
        let front = fixed_decimal(n / 10, (width - 1) as nat);
        law_fixed_decimal_shows_the_number(n / 10, (width - 1) as nat);
        law_digits_stand_in_order(n % 10);
        lemma_place_value_push(front, digit(n % 10));
        assert forall|i: int| 0 <= i < width implies '0' as int <= (
        #[trigger] fixed_decimal(n, width)[i]) as int <= '9' as int by {
            if i < width - 1 {
                assert(fixed_decimal(n, width)[i] == front[i]);
            }
        }
    }
}

/// A run of characters stands for a number exactly if all are digits, and then for
/// their value.
pub proof fn law_value_of_digits(s: Seq<char>)
    ensures
        digits_value(s) is Some <==> all_digits(s),
        digits_value(s) is Some ==> digits_value(s)->0 == place_value(s),
    decreases s.len(),
{
    if s.len() > 0 {
        let front = s.drop_last();
        law_value_of_digits(front);
        law_value_of_a_digit(s.last());
        assert(s =~= front.push(s.last()));
        lemma_place_value_push(front, s.last());
        if digits_value(s) is Some {
            assert forall|i: int| 0 <= i < s.len() implies '0' as int <= (
            #[trigger] s[i]) as int <= '9' as int by {
                if i < front.len() {
                    assert(front[i] == s[i]);
                }
            }
        }
        if all_digits(s) {
            assert forall|i: int| 0 <= i < front.len() implies '0' as int <= (
            #[trigger] front[i]) as int <= '9' as int by {
                assert(front[i] == s[i]);
            }
            assert(s[s.len() - 1] == s.last());
        }
    }
}

/// A text is read as a number exactly if it is one digit or more, after a plus sign or
/// without one, and their value is at most the largest number; it is then read as that
/// value.
pub proof fn law_parsed_number(s: Seq<char>)
    ensures
        ({
            let digits = if s.len() > 0 && s[0] == '+' {
                s.skip(1)
            } else {
                s
            };
            &&& parse_u64_spec(s) is Some <==> digits.len() > 0 && all_digits(digits)
                && place_value(digits) <= 0xffff_ffff_ffff_ffff
            &&& parse_u64_spec(s) is Some ==> parse_u64_spec(s)->0 == place_value(digits)
        }),
{
    let digits = if s.len() > 0 && s[0] == '+' {
        s.skip(1)
    } else {
        s
    };
    law_value_of_digits(digits);
}

/// What is printed of a number is read back as that number.
pub proof fn law_printed_number_is_read_back(n: u64)
    ensures
        parse_u64_spec(decimal(n as nat)) == Some(n),
{
    law_decimal_shows_the_number(n as nat);
    assert(decimal(n as nat)[0] != '+');
}

/// A truth value in words.
pub proof fn law_truth_in_words()
    ensures
        bool_text(true) == seq!['t', 'r', 'u', 'e'],
        bool_text(false) == seq!['f', 'a', 'l', 's', 'e'],
{
    reveal_strlit("true");
    reveal_strlit("false");
    assert("true"@ =~= seq!['t', 'r', 'u', 'e']);
    assert("false"@ =~= seq!['f', 'a', 'l', 's', 'e']);
}

/// The parts of a path: where the last component is a stem, a dot and an extension
/// without a dot, in any directory, the stem and the extension are those.
pub proof fn law_parts_of_a_path(dir: Seq<char>, stem: Seq<char>, ext: Seq<char>)
    requires
        dir.len() == 0 || dir.last() == '/',
        stem.len() > 0,
        ext.len() > 0,
        !stem.contains('/'),
        !ext.contains('/'),
        !ext.contains('.'),
    ensures
        file_stem_spec(dir + stem.push('.') + ext) == Some(stem),
        extension_spec(dir + stem.push('.') + ext) == Some(ext),
{
    let name = stem.push('.') + ext;
    let path = dir + stem.push('.') + ext;
    assert(path =~= dir + name);
    assert forall|i: int| 0 <= i < name.len() implies name[i] != '/' by {
        if i < stem.len() {
            assert(stem.contains(stem[i]));
        } else if i > stem.len() {
            assert(ext.contains(ext[i - stem.len() - 1]));
        }
    }
    assert(ext.contains(ext.last()));
    lemma_whole_name(dir, name);
    assert forall|i: int| stem.len() < i < name.len() implies name[i] != '.' by {
        assert(ext[i - stem.len() - 1] == name[i]);
        assert(ext.contains(ext[i - stem.len() - 1]));
    }
    lemma_last_index_is(name, '.', stem.len() as int);
    assert(name.take(stem.len() as int) =~= stem);
    assert(name.skip(stem.len() as int + 1) =~= ext);
    assert(names_file(name)) by {
        assert(name.last() == ext.last());
        assert(ext.contains(ext.last()));
        assert(seq!['.'].last() == '.');
        assert(seq!['.', '.'].last() == '.');
    }
}

/// A last component without a dot is its own stem and has no extension.
pub proof fn law_name_without_a_dot(dir: Seq<char>, name: Seq<char>)
    requires
        dir.len() == 0 || dir.last() == '/',
        name.len() > 0,
        !name.contains('/'),
        !name.contains('.'),
    ensures
        file_stem_spec(dir + name) == Some(name),
        extension_spec(dir + name) is None,
{
    assert(name.contains(name.last()));
    lemma_whole_name(dir, name);
    assert forall|i: int| -1 < i < name.len() implies name[i] != '.' by {
        assert(name.contains(name[i]));
    }
    lemma_last_index_is(name, '.', -1);
    assert(name.contains(name[0]));
    assert(seq!['.'][0] == '.');
    assert(seq!['.', '.'][0] == '.');
}

/// Slashes behind a path do not change what it names, nor does a slash with a dot.
pub proof fn law_slashes_behind_a_path(path: Seq<char>)
    ensures
        file_stem_spec(path.push('/')) == file_stem_spec(path),
        extension_spec(path.push('/')) == extension_spec(path),
        file_stem_spec(path.push('/').push('.')) == file_stem_spec(path),
        extension_spec(path.push('/').push('.')) == extension_spec(path),
{
    assert(path.push('/').take(path.len() as int) =~= path);
    assert(path.push('/').push('.').take(path.len() as int) =~= path);
}

/// A last component whose only dot is its first character is its own stem and has no
/// extension.
pub proof fn law_name_that_begins_with_a_dot(dir: Seq<char>, name: Seq<char>)
    requires
        dir.len() == 0 || dir.last() == '/',
        name.len() > 1,
        name[0] == '.',
        !name.contains('/'),
        !name.skip(1).contains('.'),
    ensures
        file_stem_spec(dir + name) == Some(name),
        extension_spec(dir + name) is None,
{
    let rest = name.skip(1);
    assert forall|i: int| 0 < i < name.len() implies name[i] != '.' by {
        assert(rest[i - 1] == name[i]);
        assert(rest.contains(rest[i - 1]));
    }
    lemma_whole_name(dir, name);
    lemma_last_index_is(name, '.', 0);
    assert(seq!['.', '.'][1] == '.');
}

/// A last component that ends in its only dot behind other characters has an empty
/// extension.
pub proof fn law_name_that_ends_in_a_dot(dir: Seq<char>, stem: Seq<char>)
    requires
        dir.len() == 0 || dir.last() == '/',
        stem.len() > 0,
        !stem.contains('/'),
        !stem.contains('.'),
    ensures
        file_stem_spec(dir + stem.push('.')) == Some(stem),
        extension_spec(dir + stem.push('.')) == Some(Seq::<char>::empty()),
{
    let name = stem.push('.');
    let path = dir + name;
    let n = path.len() as int;
    assert(stem.contains(stem.last()));
    assert(path[n - 2] == stem.last());
    assert(trimmed(path) == path);
    assert forall|i: int| dir.len() <= i < n implies path[i] != '/' by {
        assert(path[i] == name[i - dir.len()]);
        if i < n - 1 {
            assert(stem.contains(stem[i - dir.len()]));
        }
    }
    lemma_last_index_is(path, '/', dir.len() - 1);
    assert(path.skip(dir.len() as int) =~= name);
    lemma_last_index_is(name, '.', stem.len() as int);
    assert(name.take(stem.len() as int) =~= stem);
    assert(name.skip(stem.len() as int + 1) =~= Seq::empty());
    assert(stem.contains(stem[0]));
    assert(name[0] == stem[0]);
    assert(seq!['.'][0] == '.');
    assert(seq!['.', '.'][0] == '.');
}

/// An empty path and a single dot name no file, nor does a path whose last component is
/// two dots.
pub proof fn law_paths_that_name_no_file(dir: Seq<char>)
    requires
        dir.len() == 0 || dir.last() == '/',
    ensures
        file_stem_spec(Seq::empty()) is None,
        extension_spec(Seq::empty()) is None,
        file_stem_spec(seq!['.']) is None,
        extension_spec(seq!['.']) is None,
        file_stem_spec(dir + seq!['.', '.']) is None,
        extension_spec(dir + seq!['.', '.']) is None,
{
    let none = Seq::<char>::empty();
    let dot = seq!['.'];
    let dots = seq!['.', '.'];
    let path = dir + dots;
    assert(trimmed(none) == none);
    assert(last_index(none, '/') == -1);
    assert(none.skip(0) =~= none);
    assert(trimmed(dot) == dot);
    lemma_last_index_is(dot, '/', -1);
    assert(dot.skip(0) =~= dot);
    assert(path[path.len() - 1] == '.' && path[path.len() - 2] == '.');
    assert(trimmed(path) == path);
    lemma_last_index_is(path, '/', dir.len() - 1);
    assert(path.skip(dir.len() as int) =~= dots);
}

/// The last component of a path is the name behind the directory.
proof fn lemma_whole_name(dir: Seq<char>, name: Seq<char>)
    requires
        dir.len() == 0 || dir.last() == '/',
        name.len() > 0,
        !name.contains('/'),
        name.last() != '.',
    ensures
        file_name(dir + name) == name,
{
    let path = dir + name;
    assert(name.contains(name.last()));
    assert(path.last() == name.last());
    assert(trimmed(path) == path);
    assert forall|i: int| dir.len() <= i < path.len() implies path[i] != '/' by {
        assert(path[i] == name[i - dir.len()]);
        assert(name.contains(name[i - dir.len()]));
    }
    lemma_last_index_is(path, '/', dir.len() - 1);
    assert(path.skip(dir.len() as int) =~= name);
}

/// A name joined to a directory stands behind it and one slash; no slash is put in
/// where the directory is empty or ends in one.
pub proof fn law_joined_path(dir: Seq<char>, name: Seq<char>)
    ensures
        ({
            let path = join_spec(dir, name);
            &&& path.take(dir.len() as int) == dir
            &&& path.skip(path.len() - name.len()) == name
            &&& dir.len() == 0 || dir.last() == '/' ==> path.len() == dir.len() + name.len()
            &&& dir.len() > 0 && dir.last() != '/' ==> path.len() == dir.len() + 1 + name.len()
                && path[dir.len() as int] == '/'
        }),
{
    let path = join_spec(dir, name);
    assert(path.take(dir.len() as int) =~= dir);
    assert(path.skip(path.len() - name.len()) =~= name);
}

/// The text of bytes that are valid UTF-8 is the one that they encode, and the bytes of
/// a text give that text.
pub proof fn law_text_of_bytes(text: Seq<char>, bytes: Seq<u8>)
    requires
        is_text_of(text, bytes),
    ensures
        forall|chars: Seq<char>| bytes == #[trigger] encode_utf8(chars) ==> text == chars,
        text == utf8_lossy(bytes),
{
}

} // verus!
