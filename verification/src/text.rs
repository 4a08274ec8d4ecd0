//! Text: what the rest of the library needs to compare, cut and build strings.

use vstd::prelude::*;
use vstd::utf8::*;

verus! {

/// `String::push` appends one character.
pub assume_specification[ std::string::String::push ](text: &mut std::string::String, character: char)
    ensures
        final(text)@ == old(text)@.push(character),
;

/// `str::eq` compares the characters.
pub assume_specification[ <str as PartialEq>::eq ](left: &str, right: &str) -> (same: bool)
    ensures
        same == (left@ == right@),
;

/// Whether `left` comes before `right` in the order of their code points, a
/// proper prefix first.
pub open spec fn text_before(left: Seq<char>, right: Seq<char>) -> bool
    decreases left.len(),
{
    if right.len() == 0 {
        false
    } else if left.len() == 0 {
        true
    } else if left[0] != right[0] {
        (left[0] as int) < (right[0] as int)
    } else {
        text_before(left.skip(1), right.skip(1))
    }
}

/// The `<` of `str`, which orders strings by their code points, a proper prefix
/// first.
#[verifier::external_body]
pub(crate) fn is_before(left: &str, right: &str) -> (before: bool)
    ensures
        before == text_before(left@, right@),
{
    left < right
}

pub proof fn lemma_text_before_total(left: Seq<char>, right: Seq<char>)
    ensures
        left != right ==> text_before(left, right) || text_before(right, left),
        !(text_before(left, right) && text_before(right, left)),
        left == right ==> !text_before(left, right),
    decreases left.len(),
{
    if left.len() == 0 || right.len() == 0 {
        if left.len() == 0 && right.len() == 0 {
            assert(left =~= right);
        }
    } else if left[0] == right[0] {
        lemma_text_before_total(left.skip(1), right.skip(1));
        assert(left =~= seq![left[0]] + left.skip(1));
        assert(right =~= seq![right[0]] + right.skip(1));
    }
}

pub proof fn lemma_text_before_transitive(a: Seq<char>, b: Seq<char>, c: Seq<char>)
    requires
        text_before(a, b),
        text_before(b, c),
    ensures
        text_before(a, c),
    decreases a.len(),
{
    if a.len() > 0 && a[0] == b[0] && b[0] == c[0] {
        lemma_text_before_transitive(a.skip(1), b.skip(1), c.skip(1));
    }
}

/// The characters of a string.
pub fn chars_of(text: &str) -> (chars: Vec<char>)
    ensures
        chars@ == text@,
{
    let mut chars: Vec<char> = Vec::new();
    for character in iter: text.chars()
        invariant
            chars@ == iter.seq().take(iter.index()),
            iter.seq() == text@,
    {
        proof {
            assert(iter.seq().take(iter.index() + 1) =~= iter.seq().take(iter.index()).push(character));
        }
        chars.push(character);
    }
    proof {
        assert(text@.take(text@.len() as int) =~= text@);
    }
    chars
}

/// The string of the characters from `from` to `to`.
pub fn text_of(chars: &Vec<char>, from: usize, to: usize) -> (text: String)
    requires
        from <= to <= chars@.len(),
    ensures
        text@ == chars@.subrange(from as int, to as int),
{
    let mut text: String = String::new();
    let mut at: usize = from;
    while at < to
        invariant
            from <= at <= to <= chars@.len(),
            text@ == chars@.subrange(from as int, at as int),
        decreases to - at,
    {
        text.push(chars[at]);
        at = at + 1;
        proof {
            assert(chars@.subrange(from as int, at as int) =~= chars@.subrange(from as int, at - 1).push(
                chars@[at - 1],
            ));
        }
    }
    text
}

/// Whether `text` ends in `suffix`.
pub fn ends_with(text: &str, suffix: &str) -> (ends: bool)
    ensures
        ends == suffix@.is_suffix_of(text@),
{
    let chars: Vec<char> = chars_of(text);
    let tail: Vec<char> = chars_of(suffix);
    if tail.len() > chars.len() {
        return false;
    }
    let total: usize = chars.len();
    let start: usize = total - tail.len();
    let mut at: usize = 0;
    while at < tail.len()
        invariant
            total == chars@.len(),
            chars@ == text@,
            tail@ == suffix@,
            start == chars@.len() - tail@.len(),
            at <= tail@.len(),
            forall|k: int| 0 <= k < at ==> chars@[start + k] == tail@[k],
        decreases tail@.len() - at,
    {
        if chars[start + at] != tail[at] {
            assert(text@.subrange(start as int, text@.len() as int)[at as int] != suffix@[at as int]);
            return false;
        }
        at = at + 1;
    }
    proof {
        assert(suffix@ =~= text@.subrange(start as int, text@.len() as int));
    }
    true
}

/// Whether `text` begins with `prefix`.
pub fn starts_with(text: &str, prefix: &str) -> (starts: bool)
    ensures
        starts == prefix@.is_prefix_of(text@),
{
    let chars: Vec<char> = chars_of(text);
    let head: Vec<char> = chars_of(prefix);
    if head.len() > chars.len() {
        return false;
    }
    let mut at: usize = 0;
    while at < head.len()
        invariant
            chars@ == text@,
            head@ == prefix@,
            head@.len() <= chars@.len(),
            at <= head@.len(),
            forall|k: int| 0 <= k < at ==> chars@[k] == head@[k],
        decreases head@.len() - at,
    {
        if chars[at] != head[at] {
            assert(text@.subrange(0, prefix@.len() as int)[at as int] != prefix@[at as int]);
            return false;
        }
        at = at + 1;
    }
    proof {
        assert(prefix@ =~= text@.subrange(0, prefix@.len() as int));
    }
    true
}

/// `part` stands in `text`, beginning at `at`.
pub open spec fn part_at(text: Seq<char>, part: Seq<char>, at: int) -> bool {
    0 <= at && at + part.len() <= text.len() && text.subrange(at, at + part.len()) == part
}

/// `part` stands somewhere in `text`.
pub open spec fn holds_part(text: Seq<char>, part: Seq<char>) -> bool {
    exists|at: int| #[trigger] part_at(text, part, at)
}

/// Whether `part` stands somewhere in `text`.
pub fn contains_part(text: &str, part: &str) -> (found: bool)
    ensures
        found == holds_part(text@, part@),
{
    let chars: Vec<char> = chars_of(text);
    let wanted: Vec<char> = chars_of(part);
    if wanted.len() > chars.len() {
        return false;
    }
    let total: usize = chars.len();
    let last: usize = total - wanted.len();
    let mut start: usize = 0;
    loop
        invariant
            total == chars@.len(),
            chars@ == text@,
            wanted@ == part@,
            last == chars@.len() - wanted@.len(),
            start <= last,
            forall|at: int| 0 <= at < start ==> !#[trigger] part_at(text@, part@, at),
        decreases last - start,
    {
        let mut at: usize = 0;
        while at < wanted.len() && chars[start + at] == wanted[at]
            invariant
                total == chars@.len(),
                chars@ == text@,
                wanted@ == part@,
                start + wanted@.len() <= chars@.len(),
                at <= wanted@.len(),
                forall|k: int| 0 <= k < at ==> chars@[start + k] == wanted@[k],
            decreases wanted@.len() - at,
        {
            at = at + 1;
        }
        if at == wanted.len() {
            proof {
                assert(text@.subrange(start as int, start + part@.len()) =~= part@);
                assert(part_at(text@, part@, start as int));
            }
            return true;
        }
        proof {
            if part_at(text@, part@, start as int) {
                assert(text@.subrange(start as int, start + part@.len())[at as int] == part@[at as int]);
            }
        }
        if start == last {
            return false;
        }
        start = start + 1;
    }
}

/// What an optional string holds.
pub open spec fn optional_text(text: Option<String>) -> Option<Seq<char>> {
    match text {
        Some(text) => Some(text@),
        None => None,
    }
}

/// A copy of an optional string.
pub fn copy_optional(text: &Option<String>) -> (copy: Option<String>)
    ensures
        optional_text(copy) == optional_text(*text),
{
    match text {
        Some(text) => Some(text.clone()),
        None => None,
    }
}

/// Whether two optional strings are the same.
pub fn same_optional(left: &Option<String>, right: &Option<String>) -> (same: bool)
    ensures
        same == (optional_text(*left) == optional_text(*right)),
{
    match (left, right) {
        (Some(left), Some(right)) => left.as_str().eq(right.as_str()),
        (None, None) => true,
        _ => false,
    }
}

/// `text` without a suffix, where it ends in it.
pub fn strip_suffix(text: &str, suffix: &str) -> (rest: Option<String>)
    ensures
        match rest {
            Some(rest) => rest@ + suffix@ == text@,
            None => !suffix@.is_suffix_of(text@),
        },
{
    if !ends_with(text, suffix) {
        return None;
    }
    let chars: Vec<char> = chars_of(text);
    let tail: Vec<char> = chars_of(suffix);
    let rest: String = text_of(&chars, 0, chars.len() - tail.len());
    proof {
        assert(rest@ + suffix@ =~= text@);
    }
    Some(rest)
}

/// One string out of two.
pub fn joined(left: &str, right: &str) -> (text: String)
    ensures
        text@ == left@ + right@,
{
    let mut text: String = left.to_owned();
    text.append(right);
    text
}

/// The bytes of a string.
pub open spec fn text_bytes(text: Seq<char>) -> Seq<u8> {
    encode_utf8(text)
}

/// Parts with a separator between each two.
pub open spec fn separated(parts: Seq<Seq<char>>, separator: Seq<char>) -> Seq<char>
    decreases parts.len(),
{
    if parts.len() == 0 {
        Seq::empty()
    } else if parts.len() == 1 {
        parts[0]
    } else {
        separated(parts.drop_last(), separator) + separator + parts.last()
    }
}

/// The views of strings.
pub open spec fn texts(strings: Seq<String>) -> Seq<Seq<char>> {
    strings.map_values(|text: String| text@)
}

/// The strings with a separator between each two.
pub fn join(parts: &Vec<String>, separator: &str) -> (text: String)
    ensures
        text@ == separated(texts(parts@), separator@),
{
    let mut text: String = String::new();
    let mut at: usize = 0;
    proof {
        assert(texts(parts@).take(0) =~= Seq::empty());
    }
    while at < parts.len()
        invariant
            at <= parts@.len(),
            text@ == separated(texts(parts@).take(at as int), separator@),
        decreases parts@.len() - at,
    {
        proof {
            let before = texts(parts@).take(at as int);
            let after = texts(parts@).take(at + 1);
            assert(after.drop_last() =~= before);
            assert(after.last() == parts@[at as int]@);
            if at == 0 {
                assert(text@ + parts@[0]@ =~= parts@[0]@);
            }
        }
        if at > 0 {
            text.append(separator);
        }
        text.append(parts[at].as_str());
        at = at + 1;
    }
    proof {
        assert(texts(parts@).take(parts@.len() as int) =~= texts(parts@));
    }
    text
}

/// Whether a list of strings holds `text`.
pub fn contains_text(list: &Vec<String>, text: &str) -> (found: bool)
    ensures
        found == texts(list@).contains(text@),
{
    let mut at: usize = 0;
    while at < list.len()
        invariant
            at <= list@.len(),
            forall|k: int| 0 <= k < at ==> (#[trigger] list@[k])@ != text@,
        decreases list@.len() - at,
    {
        if list[at].as_str().eq(text) {
            assert(texts(list@)[at as int] == text@);
            return true;
        }
        at = at + 1;
    }
    false
}

/// A copy of a list of strings.
pub fn copy_texts(list: &Vec<String>) -> (copy: Vec<String>)
    ensures
        texts(copy@) == texts(list@),
{
    let mut copy: Vec<String> = Vec::new();
    let mut at: usize = 0;
    while at < list.len()
        invariant
            at <= list@.len(),
            copy@.len() == at,
            forall|k: int| 0 <= k < at ==> (#[trigger] copy@[k])@ == list@[k]@,
        decreases list@.len() - at,
    {
        copy.push(list[at].clone());
        at = at + 1;
    }
    proof {
        assert(texts(copy@) =~= texts(list@));
    }
    copy
}

/// Whether two byte strings are the same.
pub fn same_texts(left: &Vec<String>, right: &Vec<String>) -> (same: bool)
    ensures
        same == (texts(left@) == texts(right@)),
{
    if left.len() != right.len() {
        proof {
            assert(texts(left@).len() == left@.len());
            assert(texts(right@).len() == right@.len());
        }
        return false;
    }
    let mut at: usize = 0;
    while at < left.len()
        invariant
            at <= left@.len(),
            left@.len() == right@.len(),
            forall|k: int| 0 <= k < at ==> (#[trigger] left@[k])@ == right@[k]@,
        decreases left@.len() - at,
    {
        if !left[at].as_str().eq(right[at].as_str()) {
            proof {
                assert(texts(left@)[at as int] != texts(right@)[at as int]);
            }
            return false;
        }
        at = at + 1;
    }
    proof {
        assert(texts(left@) =~= texts(right@));
    }
    true
}

pub fn same_bytes(left: &[u8], right: &[u8]) -> (same: bool)
    ensures
        same == (left@ == right@),
{
    if left.len() != right.len() {
        return false;
    }
    let mut at: usize = 0;
    while at < left.len()
        invariant
            left@.len() == right@.len(),
            at <= left@.len(),
            forall|k: int| 0 <= k < at ==> left@[k] == right@[k],
        decreases left@.len() - at,
    {
        if left[at] != right[at] {
            return false;
        }
        at = at + 1;
    }
    proof {
        assert(left@ =~= right@);
    }
    true
}

/// A copy of a byte string.
pub fn copy_bytes(bytes: &[u8]) -> (copy: Vec<u8>)
    ensures
        copy@ == bytes@,
{
    let mut copy: Vec<u8> = Vec::new();
    push_bytes(&mut copy, bytes);
    proof {
        assert(copy@ =~= bytes@);
    }
    copy
}

/// Appends a byte string.
pub fn push_bytes(out: &mut Vec<u8>, bytes: &[u8])
    ensures
        final(out)@ == old(out)@ + bytes@,
{
    let mut at: usize = 0;
    while at < bytes.len()
        invariant
            at <= bytes@.len(),
            out@ == old(out)@ + bytes@.take(at as int),
        decreases bytes@.len() - at,
    {
        out.push(bytes[at]);
        proof {
            assert(bytes@.take(at + 1) =~= bytes@.take(at as int).push(bytes@[at as int]));
            assert(out@ =~= old(out)@ + bytes@.take(at + 1));
        }
        at = at + 1;
    }
    proof {
        assert(bytes@.take(bytes@.len() as int) =~= bytes@);
    }
}

/// The character of a digit, in lower case above nine.
pub open spec fn digit_char(digit: nat) -> char {
    if digit < 10 {
        (('0' as int) + digit) as char
    } else {
        (('a' as int) + digit - 10) as char
    }
}

fn digit_of(digit: u8) -> (character: char)
    requires
        digit < 16,
    ensures
        character == digit_char(digit as nat),
{
    if digit < 10 {
        (48u8 + digit) as char
    } else {
        (97u8 + (digit - 10)) as char
    }
}

/// A number in decimal digits.
pub open spec fn decimal(number: nat) -> Seq<char>
    decreases number,
{
    if number < 10 {
        seq![digit_char(number)]
    } else {
        decimal(number / 10).push(digit_char(number % 10))
    }
}

/// A number in decimal digits.
pub fn decimal_text(number: u64) -> (text: String)
    ensures
        text@ == decimal(number as nat),
    decreases number,
{
    let mut text: String = if number < 10 {
        let empty: String = String::new();
        proof {
            assert(empty@.push(digit_char(number as nat)) =~= decimal(number as nat));
        }
        empty
    } else {
        decimal_text(number / 10)
    };
    text.push(digit_of((number % 10) as u8));
    text
}

/// The lowest `digits` hexadecimal digits of a number.
pub open spec fn hex(number: nat, digits: nat) -> Seq<char>
    decreases digits,
{
    if digits == 0 {
        Seq::empty()
    } else {
        hex(number / 16, (digits - 1) as nat).push(digit_char(number % 16))
    }
}

/// The lowest `digits` hexadecimal digits of a number.
pub fn hex_text(number: u128, digits: usize) -> (text: String)
    ensures
        text@ == hex(number as nat, digits as nat),
    decreases digits,
{
    if digits == 0 {
        return String::new();
    }
    let mut text: String = hex_text(number / 16, digits - 1);
    text.push(digit_of((number % 16) as u8));
    text
}

/// How an identity is written: 32 hexadecimal digits.
pub open spec fn ref_chars(id: u128) -> Seq<char> {
    hex(id as nat, 32)
}

/// How an identity is written.
pub fn ref_text(id: u128) -> (text: String)
    ensures
        text@ == ref_chars(id),
{
    hex_text(id, 32)
}

proof fn lemma_digit_order(a: nat, b: nat)
    requires
        a < 16,
        b < 16,
    ensures
        (digit_char(a) as int) < (digit_char(b) as int) <==> a < b,
        digit_char(a) == digit_char(b) <==> a == b,
{
}

proof fn lemma_hex_len(number: nat, digits: nat)
    ensures
        hex(number, digits).len() == digits,
    decreases digits,
{
    if digits > 0 {
        lemma_hex_len(number / 16, (digits - 1) as nat);
    }
}

proof fn lemma_text_before_push(a: Seq<char>, b: Seq<char>, x: char, y: char)
    requires
        a.len() == b.len(),
    ensures
        text_before(a.push(x), b.push(y)) <==> text_before(a, b) || (a == b && (x as int) < (y as int)),
    decreases a.len(),
{
    reveal_with_fuel(text_before, 2);
    if a.len() == 0 {
        assert(a =~= b);
        assert(a.push(x).skip(1) =~= Seq::empty());
        assert(b.push(y).skip(1) =~= Seq::empty());
    } else {
        lemma_text_before_push(a.skip(1), b.skip(1), x, y);
        assert(a.push(x).skip(1) =~= a.skip(1).push(x));
        assert(b.push(y).skip(1) =~= b.skip(1).push(y));
        if a[0] == b[0] && a.skip(1) == b.skip(1) {
            assert(a =~= seq![a[0]] + a.skip(1));
            assert(b =~= seq![b[0]] + b.skip(1));
            assert(a == b);
        }
    }
}

proof fn lemma_hex_order(a: nat, b: nat, digits: nat, limit: nat)
    requires
        limit == vstd::arithmetic::power::pow(16, digits),
        a < limit,
        b < limit,
    ensures
        text_before(hex(a, digits), hex(b, digits)) <==> a < b,
        hex(a, digits) == hex(b, digits) <==> a == b,
    decreases digits,
{
    reveal(vstd::arithmetic::power::pow);
    if digits > 0 {
        let less = vstd::arithmetic::power::pow(16, (digits - 1) as nat);
        vstd::arithmetic::power::lemma_pow_positive(16, (digits - 1) as nat);
        assert(limit == 16 * less);
        lemma_hex_len(a / 16, (digits - 1) as nat);
        lemma_hex_len(b / 16, (digits - 1) as nat);
        lemma_hex_order(a / 16, b / 16, (digits - 1) as nat, less as nat);
        lemma_digit_order(a % 16, b % 16);
        let x = hex(a / 16, (digits - 1) as nat);
        let y = hex(b / 16, (digits - 1) as nat);
        lemma_text_before_push(x, y, digit_char(a % 16), digit_char(b % 16));
        if hex(a, digits) == hex(b, digits) {
            assert(x =~= hex(a, digits).drop_last());
            assert(y =~= hex(b, digits).drop_last());
            assert(hex(a, digits).last() == hex(b, digits).last());
        }
    }
}

/// Identities are ordered as they are written.
pub proof fn law_written_identities_keep_their_order(left: u128, right: u128)
    ensures
        text_before(ref_chars(left), ref_chars(right)) <==> left < right,
        ref_chars(left) == ref_chars(right) <==> left == right,
{
    assert(vstd::arithmetic::power::pow(16, 32) == 0x1_0000_0000_0000_0000_0000_0000_0000_0000int) by {
        reveal(vstd::arithmetic::power::pow);
        reveal_with_fuel(vstd::arithmetic::power::pow, 33);
    }
    lemma_hex_order(left as nat, right as nat, 32, vstd::arithmetic::power::pow(16, 32) as nat);
}

} // verus!
