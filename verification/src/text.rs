//! Text as sequences of Unicode scalar values: UTF-8 lengths, white space,
//! lines, and decimal numbers.

use vstd::prelude::*;
use vstd::string::*;
use vstd::utf8::*;

verus! {

broadcast use vstd::string::group_string_axioms;

/// `String::push` appends one scalar value.
pub assume_specification[ String::push ](s: &mut String, c: char)
    ensures
        final(s)@ == old(s)@.push(c),
;

/// `String::pop` takes away the last scalar value, if there is one.
pub assume_specification[ String::pop ](s: &mut String) -> (c: Option<char>)
    ensures
        old(s)@.len() == 0 ==> c is None && final(s)@ == old(s)@,
        old(s)@.len() > 0 ==> c == Some(old(s)@.last()) && final(s)@ == old(s)@.drop_last(),
;

/// The number of bytes of the UTF-8 encoding of `c`.
pub open spec fn char_width(c: char) -> nat {
    if c as u32 <= 0x7F {
        1
    } else if c as u32 <= 0x7FF {
        2
    } else if c as u32 <= 0xFFFF {
        3
    } else {
        4
    }
}

/// The number of bytes of the UTF-8 encoding of `s`.
pub open spec fn utf8_len(s: Seq<char>) -> nat
    decreases s.len(),
{
    if s.len() == 0 {
        0
    } else {
        utf8_len(s.drop_last()) + char_width(s.last())
    }
}

pub proof fn lemma_utf8_len_push(s: Seq<char>, c: char)
    ensures
        utf8_len(s.push(c)) == utf8_len(s) + char_width(c),
{
    assert(s.push(c).drop_last() =~= s);
}

pub proof fn lemma_utf8_len_add(a: Seq<char>, b: Seq<char>)
    ensures
        utf8_len(a + b) == utf8_len(a) + utf8_len(b),
    decreases b.len(),
{
    if b.len() == 0 {
        assert(a + b =~= a);
    } else {
        assert((a + b).drop_last() =~= a + b.drop_last());
        lemma_utf8_len_add(a, b.drop_last());
    }
}

/// A text has at least one byte for each of its scalar values.
pub proof fn lemma_utf8_len_bounds(s: Seq<char>)
    ensures
        s.len() <= utf8_len(s) <= 4 * s.len(),
    decreases s.len(),
{
    if s.len() > 0 {
        lemma_utf8_len_bounds(s.drop_last());
    }
}

/// A longer prefix has strictly more bytes.
pub proof fn lemma_utf8_len_prefix(s: Seq<char>, i: int, j: int)
    requires
        0 <= i <= j <= s.len(),
    ensures
        utf8_len(s.take(i)) <= utf8_len(s.take(j)) <= utf8_len(s),
        i < j ==> utf8_len(s.take(i)) < utf8_len(s.take(j)),
{
    lemma_utf8_len_add(s.take(i), s.subrange(i, j));
    assert(s.take(i) + s.subrange(i, j) =~= s.take(j));
    lemma_utf8_len_bounds(s.subrange(i, j));
    lemma_utf8_len_add(s.take(j), s.skip(j));
    assert(s.take(j) + s.skip(j) =~= s);
}

/// `utf8_len` counts the bytes of the encoding.
pub proof fn lemma_utf8_len_encode(s: Seq<char>)
    ensures
        encode_utf8(s).len() == utf8_len(s),
    decreases s.len(),
{
    if s.len() > 0 {
        lemma_utf8_len_encode(s.drop_first());
        let head = seq![s[0]];
        assert(head + s.drop_first() =~= s);
        lemma_utf8_len_add(head, s.drop_first());
        assert(utf8_len(head) == char_width(s[0])) by {
            reveal_with_fuel(utf8_len, 2);
        }
        char_is_scalar(s[0]);
    }
}

/// The byte length of a text.
pub fn byte_len(s: &str) -> (length: usize)
    ensures
        length == utf8_len(s@),
{
    proof {
        lemma_utf8_len_encode(s@);
    }
    s.as_bytes().len()
}

/// The byte length of one scalar value.
pub fn char_len(c: char) -> (length: usize)
    ensures
        length == char_width(c),
{
    let code: u32 = c as u32;
    if code <= 0x7F {
        1
    } else if code <= 0x7FF {
        2
    } else if code <= 0xFFFF {
        3
    } else {
        4
    }
}

/// The scalar values of a text.
pub fn chars_of(s: &str) -> (chars: Vec<char>)
    ensures
        chars@ == s@,
{
    let mut chars: Vec<char> = Vec::new();
    for c in iter: s.chars()
        invariant
            iter.seq() == s@,
            chars@ == s@.take(iter.index() as int),
    {
        chars.push(c);
    }
    assert(s@.take(s@.len() as int) =~= s@);
    chars
}

/// The text made of `chars[from..to]`.
pub fn string_of(chars: &[char], from: usize, to: usize) -> (s: String)
    requires
        from <= to <= chars@.len(),
    ensures
        s@ == chars@.subrange(from as int, to as int),
{
    let mut s = String::new();
    let mut i: usize = from;
    while i < to
        invariant
            from <= i <= to <= chars@.len(),
            s@ == chars@.subrange(from as int, i as int),
        decreases to - i,
    {
        s.push(chars[i]);
        i += 1;
        assert(chars@.subrange(from as int, i as int) =~= chars@.subrange(
            from as int,
            i - 1,
        ).push(chars@[i - 1]));
    }
    s
}

/// Whether two texts are the same.
pub fn same_text(a: &str, b: &str) -> (same: bool)
    ensures
        same == (a@ == b@),
{
    let left = chars_of(a);
    let right = chars_of(b);
    same_chars(left.as_slice(), right.as_slice())
}

/// Whether two runs of scalar values are the same.
pub fn same_chars(a: &[char], b: &[char]) -> (same: bool)
    ensures
        same == (a@ == b@),
{
    if a.len() != b.len() {
        return false;
    }
    let mut i: usize = 0;
    while i < a.len()
        invariant
            i <= a@.len() == b@.len(),
            forall|k: int| 0 <= k < i ==> a@[k] == b@[k],
        decreases a@.len() - i,
    {
        if a[i] != b[i] {
            return false;
        }
        i += 1;
    }
    assert(a@ =~= b@);
    true
}

/// Control characters: the Unicode general category `Cc`.
pub open spec fn control(c: char) -> bool {
    c as u32 <= 0x1F || 0x7F <= c as u32 <= 0x9F
}

pub fn is_control(c: char) -> (result: bool)
    ensures
        result == control(c),
{
    let code: u32 = c as u32;
    code <= 0x1F || (0x7F <= code && code <= 0x9F)
}

/// White space: the Unicode property `White_Space`.
pub open spec fn white(c: char) -> bool {
    let code = c as u32;
    ||| 0x09 <= code <= 0x0D
    ||| code == 0x20
    ||| code == 0x85
    ||| code == 0xA0
    ||| code == 0x1680
    ||| 0x2000 <= code <= 0x200A
    ||| code == 0x2028
    ||| code == 0x2029
    ||| code == 0x202F
    ||| code == 0x205F
    ||| code == 0x3000
}

pub fn is_white(c: char) -> (result: bool)
    ensures
        result == white(c),
{
    let code: u32 = c as u32;
    (0x09 <= code && code <= 0x0D) || code == 0x20 || code == 0x85 || code == 0xA0 || code
        == 0x1680 || (0x2000 <= code && code <= 0x200A) || code == 0x2028 || code == 0x2029 || code
        == 0x202F || code == 0x205F || code == 0x3000
}

/// `s` without its leading white space.
pub open spec fn trimmed_start(s: Seq<char>) -> Seq<char>
    decreases s.len(),
{
    if s.len() > 0 && white(s[0]) {
        trimmed_start(s.drop_first())
    } else {
        s
    }
}

/// `s` without its trailing white space.
pub open spec fn trimmed_end(s: Seq<char>) -> Seq<char>
    decreases s.len(),
{
    if s.len() > 0 && white(s.last()) {
        trimmed_end(s.drop_last())
    } else {
        s
    }
}

/// `s` without its leading and trailing white space.
pub open spec fn trimmed(s: Seq<char>) -> Seq<char> {
    trimmed_end(trimmed_start(s))
}

/// Where the text without leading white space starts.
pub fn trim_start_index(chars: &[char]) -> (from: usize)
    ensures
        from <= chars@.len(),
        trimmed_start(chars@) == chars@.skip(from as int),
{
    let mut from: usize = 0;
    assert(chars@.skip(0) =~= chars@);
    while from < chars.len() && is_white(chars[from])
        invariant
            from <= chars@.len(),
            trimmed_start(chars@) == trimmed_start(chars@.skip(from as int)),
        decreases chars@.len() - from,
    {
        assert(chars@.skip(from as int).drop_first() =~= chars@.skip(from + 1));
        from += 1;
    }
    from
}

/// Where the text of `chars[from..]` without trailing white space ends.
pub fn trim_end_index(chars: &[char], from: usize) -> (to: usize)
    requires
        from <= chars@.len(),
    ensures
        from <= to <= chars@.len(),
        trimmed_end(chars@.skip(from as int)) == chars@.subrange(from as int, to as int),
{
    let mut to: usize = chars.len();
    assert(chars@.skip(from as int) =~= chars@.subrange(from as int, to as int));
    while from < to && is_white(chars[to - 1])
        invariant
            from <= to <= chars@.len(),
            trimmed_end(chars@.skip(from as int)) == trimmed_end(
                chars@.subrange(from as int, to as int),
            ),
        decreases to,
    {
        assert(chars@.subrange(from as int, to as int).drop_last() =~= chars@.subrange(
            from as int,
            to - 1,
        ));
        to -= 1;
    }
    to
}

/// The text without its leading and trailing white space.
pub fn trim(s: &str) -> (result: String)
    ensures
        result@ == trimmed(s@),
{
    let chars = chars_of(s);
    let from: usize = trim_start_index(chars.as_slice());
    let to: usize = trim_end_index(chars.as_slice(), from);
    string_of(chars.as_slice(), from, to)
}

/// The digit `d` as a character.
pub open spec fn digit(d: nat) -> char {
    ('0' as u32 + d) as char
}

/// The decimal notation of `n`, without leading zeros.
pub open spec fn decimal(n: nat) -> Seq<char>
    decreases n,
{
    if n < 10 {
        seq![digit(n)]
    } else {
        decimal(n / 10).push(digit(n % 10))
    }
}

fn digit_char(d: u8) -> (c: char)
    requires
        d < 10,
    ensures
        c == digit(d as nat),
{
    (48u8 + d) as char
}

/// Appends the decimal notation of `n`.
pub fn push_decimal(s: &mut String, n: u64)
    ensures
        final(s)@ == old(s)@ + decimal(n as nat),
    decreases n,
{
    if n >= 10 {
        push_decimal(s, n / 10);
    }
    s.push(digit_char((n % 10) as u8));
    assert(s@ =~= old(s)@ + decimal(n as nat));
}

/// The decimal notation of `n`.
pub fn decimal_string(n: u64) -> (s: String)
    ensures
        s@ == decimal(n as nat),
{
    let mut s = String::new();
    push_decimal(&mut s, n);
    assert(s@ =~= decimal(n as nat));
    s
}

/// The index of the first `c` in `s`, or the length of `s`.
pub open spec fn first_index(s: Seq<char>, c: char) -> int
    decreases s.len(),
{
    if s.len() == 0 || s[0] == c {
        0
    } else {
        1 + first_index(s.drop_first(), c)
    }
}

/// What `first_index` finds.
pub proof fn lemma_first_index(s: Seq<char>, c: char)
    ensures
        0 <= first_index(s, c) <= s.len(),
        first_index(s, c) < s.len() ==> s[first_index(s, c)] == c,
        forall|i: int| 0 <= i < first_index(s, c) ==> s[i] != c,
    decreases s.len(),
{
    if s.len() > 0 && s[0] != c {
        lemma_first_index(s.drop_first(), c);
        assert forall|i: int| 0 <= i < first_index(s, c) implies s[i] != c by {
            if i > 0 {
                assert(s[i] == s.drop_first()[i - 1]);
            }
        }
    }
}

/// The index of the first `c` in `chars[from..]`, or the end of `chars`.
pub fn find_char(chars: &[char], from: usize, c: char) -> (index: usize)
    requires
        from <= chars@.len(),
    ensures
        from <= index <= chars@.len(),
        index - from == first_index(chars@.skip(from as int), c),
{
    let mut index: usize = from;
    while index < chars.len() && chars[index] != c
        invariant
            from <= index <= chars@.len(),
            first_index(chars@.skip(from as int), c) == index - from + first_index(
                chars@.skip(index as int),
                c,
            ),
        decreases chars@.len() - index,
    {
        assert(chars@.skip(index as int).drop_first() =~= chars@.skip(index + 1));
        index += 1;
    }
    index
}

/// The texts that a list of strings holds.
pub open spec fn texts(list: Seq<String>) -> Seq<Seq<char>> {
    Seq::new(list.len(), |i: int| list[i]@)
}

/// A line without the carriage return before its line feed.
pub open spec fn without_cr(line: Seq<char>) -> Seq<char> {
    if line.len() > 0 && line.last() == '\r' {
        line.drop_last()
    } else {
        line
    }
}

/// The lines of `s`: a line ends at `\n` or `\r\n`, and the ending of the
/// last one is optional.
pub open spec fn lines(s: Seq<char>) -> Seq<Seq<char>>
    decreases s.len(),
{
    if s.len() == 0 {
        Seq::empty()
    } else {
        let end = first_index(s, '\n');
        if 0 <= end < s.len() {
            seq![without_cr(s.take(end))] + lines(s.skip(end + 1))
        } else {
            seq![s]
        }
    }
}

/// The lines of a text.
pub fn lines_of(s: &str) -> (result: Vec<String>)
    ensures
        texts(result@) == lines(s@),
{
    let chars = chars_of(s);
    let mut result: Vec<String> = Vec::new();
    let mut from: usize = 0;
    assert(chars@.skip(0) =~= s@);
    assert(texts(result@) + lines(s@) =~= lines(s@));
    while from < chars.len()
        invariant
            from <= chars@.len(),
            chars@ == s@,
            texts(result@) + lines(s@.skip(from as int)) == lines(s@),
        decreases chars@.len() - from,
    {
        let ghost rest = s@.skip(from as int);
        let ghost before = result@;
        let end: usize = find_char(chars.as_slice(), from, '\n');
        proof {
            lemma_first_index(rest, '\n');
        }
        if end == chars.len() {
            let line = string_of(chars.as_slice(), from, end);
            assert(line@ =~= rest);
            result.push(line);
            from = end;
            assert(lines(s@.skip(from as int)) =~= Seq::<Seq<char>>::empty());
        } else {
            let to: usize = if end > from && chars[end - 1] == '\r' {
                end - 1
            } else {
                end
            };
            let line = string_of(chars.as_slice(), from, to);
            assert(rest.take(end - from) =~= s@.subrange(from as int, end as int));
            assert(line@ =~= without_cr(rest.take(end - from)));
            result.push(line);
            from = end + 1;
            assert(s@.skip(from as int) =~= rest.skip(first_index(rest, '\n') + 1));
        }
        assert(texts(result@) =~= texts(before).push(result@.last()@));
        assert(texts(result@) + lines(s@.skip(from as int)) =~= texts(before) + lines(rest));
    }
    assert(lines(s@.skip(from as int)) =~= Seq::<Seq<char>>::empty());
    assert(texts(result@) =~= lines(s@));
    result
}

/// Whether a text holds a character.
pub fn holds_char(s: &str, c: char) -> (result: bool)
    ensures
        result == s@.contains(c),
{
    let chars = chars_of(s);
    assert(chars@.skip(0) =~= s@);
    let index: usize = find_char(chars.as_slice(), 0, c);
    proof {
        lemma_first_index(s@, c);
        if index < chars@.len() {
            assert(s@[index as int] == c);
        }
    }
    index < chars.len()
}

/// The index of the scalar value that starts at a byte offset; the length of
/// the text for the offset of its end, and nothing for an offset inside a
/// scalar value or past the end.
pub open spec fn index_at(s: Seq<char>, byte: int) -> Option<int>
    decreases s.len(),
{
    if byte == 0 {
        Some(0)
    } else if s.len() == 0 || byte < char_width(s[0]) {
        None
    } else {
        match index_at(s.drop_first(), byte - char_width(s[0])) {
            Some(index) => Some(index + 1),
            None => None,
        }
    }
}

proof fn lemma_utf8_len_first(s: Seq<char>, k: int)
    requires
        0 < k <= s.len(),
    ensures
        utf8_len(s.take(k)) == char_width(s[0]) + utf8_len(s.drop_first().take(k - 1)),
{
    let head = seq![s[0]];
    assert(head + s.drop_first().take(k - 1) =~= s.take(k));
    lemma_utf8_len_add(head, s.drop_first().take(k - 1));
    assert(utf8_len(head) == char_width(s[0])) by {
        reveal_with_fuel(utf8_len, 2);
    }
}

/// `index_at` is the inverse of counting the bytes before an index.
pub proof fn lemma_index_at(s: Seq<char>, byte: int)
    ensures
        index_at(s, byte) matches Some(k) ==> 0 <= k <= s.len() && utf8_len(s.take(k)) == byte,
    decreases s.len(),
{
    if byte == 0 {
        assert(s.take(0) =~= Seq::<char>::empty());
    } else if s.len() > 0 && byte >= char_width(s[0]) {
        lemma_index_at(s.drop_first(), byte - char_width(s[0]));
        if let Some(k) = index_at(s, byte) {
            lemma_utf8_len_first(s, k);
        }
    }
}

/// Every index has a byte offset.
pub proof fn lemma_index_at_prefix(s: Seq<char>, k: int)
    requires
        0 <= k <= s.len(),
    ensures
        index_at(s, utf8_len(s.take(k)) as int) == Some(k),
    decreases s.len(),
{
    if k == 0 {
        assert(s.take(0) =~= Seq::<char>::empty());
    } else {
        lemma_utf8_len_first(s, k);
        lemma_index_at_prefix(s.drop_first(), k - 1);
    }
}

/// The index of the scalar value that starts at a byte offset.
pub fn find_byte(chars: &[char], byte: usize) -> (index: Option<usize>)
    ensures
        match index_at(chars@, byte as int) {
            Some(k) => index is Some && index->0 == k,
            None => index is None,
        },
{
    let mut rest: usize = byte;
    let mut i: usize = 0;
    assert(chars@.skip(0) =~= chars@);
    while rest > 0 && i < chars.len() && rest >= char_len(chars[i])
        invariant
            i <= chars@.len(),
            rest <= byte,
            match index_at(chars@.skip(i as int), rest as int) {
                Some(k) => index_at(chars@, byte as int) == Some(i + k),
                None => index_at(chars@, byte as int) is None,
            },
        decreases chars@.len() - i,
    {
        assert(chars@.skip(i as int).drop_first() =~= chars@.skip(i + 1));
        rest -= char_len(chars[i]);
        i += 1;
    }
    if rest == 0 {
        Some(i)
    } else {
        None
    }
}

/// One text comes before another: at the first place where they differ, or
/// because it ends there.
pub open spec fn precedes(a: Seq<char>, b: Seq<char>) -> bool
    decreases a.len(),
{
    if b.len() == 0 {
        false
    } else if a.len() == 0 {
        true
    } else if a[0] == b[0] {
        precedes(a.drop_first(), b.drop_first())
    } else {
        (a[0] as u32) < (b[0] as u32)
    }
}

proof fn lemma_code_is_one_to_one(a: char, b: char)
    ensures
        a as u32 == b as u32 ==> a == b,
{
    assert(a as int == a as u32 as int);
    assert(b as int == b as u32 as int);
}

/// The order of texts is strict.
pub proof fn lemma_precedes_strict(a: Seq<char>, b: Seq<char>)
    ensures
        !(precedes(a, b) && precedes(b, a)),
        !precedes(a, a),
        a != b ==> precedes(a, b) || precedes(b, a),
    decreases a.len() + b.len(),
{
    if a.len() > 0 && b.len() > 0 {
        lemma_precedes_strict(a.drop_first(), b.drop_first());
        lemma_code_is_one_to_one(a[0], b[0]);
        if a != b && a[0] == b[0] && a.drop_first() == b.drop_first() {
            assert(a =~= seq![a[0]] + a.drop_first());
            assert(b =~= seq![b[0]] + b.drop_first());
        }
    } else if a.len() > 0 {
        lemma_precedes_strict(a.drop_first(), b);
    } else if b.len() == 0 {
        assert(a =~= b);
    }
}

/// The order of texts is transitive.
pub proof fn lemma_precedes_transitive(a: Seq<char>, b: Seq<char>, c: Seq<char>)
    requires
        precedes(a, b),
        precedes(b, c),
    ensures
        precedes(a, c),
    decreases a.len(),
{
    if a.len() > 0 && a[0] == b[0] && b[0] == c[0] {
        lemma_precedes_transitive(a.drop_first(), b.drop_first(), c.drop_first());
    }
}

/// Whether one text comes before another.
pub fn comes_before(a: &str, b: &str) -> (result: bool)
    ensures
        result == precedes(a@, b@),
{
    let left = chars_of(a);
    let right = chars_of(b);
    let mut i: usize = 0;
    assert(left@.skip(0) =~= a@);
    assert(right@.skip(0) =~= b@);
    while i < left.len() && i < right.len() && left[i] == right[i]
        invariant
            i <= left@.len(),
            i <= right@.len(),
            precedes(a@, b@) == precedes(left@.skip(i as int), right@.skip(i as int)),
        decreases left@.len() - i,
    {
        assert(left@.skip(i as int).drop_first() =~= left@.skip(i + 1));
        assert(right@.skip(i as int).drop_first() =~= right@.skip(i + 1));
        i += 1;
    }
    if i == right.len() {
        false
    } else if i == left.len() {
        true
    } else {
        (left[i] as u32) < (right[i] as u32)
    }
}

/// Whether a text has another at a position.
pub open spec fn has_at(s: Seq<char>, part: Seq<char>, i: int) -> bool {
    0 <= i <= s.len() - part.len() && s.subrange(i, i + part.len()) == part
}

/// Whether a text holds another.
pub open spec fn holds(s: Seq<char>, part: Seq<char>) -> bool {
    exists|i: int| has_at(s, part, i)
}

/// Whether `chars` has `part` at `at`.
pub fn matches_at(chars: &[char], part: &[char], at: usize) -> (result: bool)
    ensures
        result == has_at(chars@, part@, at as int),
{
    let count: usize = chars.len();
    if part.len() > count || at > count - part.len() {
        return false;
    }
    let mut k: usize = 0;
    while k < part.len()
        invariant
            count == chars@.len(),
            part@.len() <= count,
            at <= chars@.len() - part@.len(),
            k <= part@.len(),
            forall|j: int| 0 <= j < k ==> chars@[at + j] == part@[j],
        decreases part@.len() - k,
    {
        if chars[at + k] != part[k] {
            assert(chars@.subrange(at as int, at + part@.len())[k as int] != part@[k as int]);
            return false;
        }
        k += 1;
    }
    assert(chars@.subrange(at as int, at + part@.len()) =~= part@);
    true
}

/// Whether `s` holds `part`.
pub fn holds_text(s: &str, part: &str) -> (result: bool)
    ensures
        result == holds(s@, part@),
{
    let chars = chars_of(s);
    let wanted = chars_of(part);
    if wanted.len() > chars.len() {
        return false;
    }
    let last: usize = chars.len() - wanted.len();
    let mut at: usize = 0;
    while at < last
        invariant
            chars@ == s@,
            wanted@ == part@,
            last == chars@.len() - wanted@.len(),
            at <= last,
            forall|i: int| 0 <= i < at ==> !has_at(s@, part@, i),
        decreases last - at,
    {
        if matches_at(&chars, &wanted, at) {
            assert(has_at(s@, part@, at as int));
            return true;
        }
        at += 1;
    }
    let result = matches_at(&chars, &wanted, last);
    assert(result ==> has_at(s@, part@, last as int));
    result
}

/// Whether a text starts with another.
pub open spec fn starts(s: Seq<char>, part: Seq<char>) -> bool {
    part.len() <= s.len() && s.take(part.len() as int) == part
}

/// Whether `s` starts with `part`.
pub fn starts_with(s: &str, part: &str) -> (result: bool)
    ensures
        result == starts(s@, part@),
{
    let chars = chars_of(s);
    let wanted = chars_of(part);
    proof {
        assert(part@.len() <= s@.len() ==> s@.subrange(0, part@.len() as int) =~= s@.take(
            part@.len() as int,
        ));
    }
    matches_at(&chars, &wanted, 0)
}

/// The pieces of a text between the separators.
pub open spec fn pieces(s: Seq<char>, separator: char) -> Seq<Seq<char>>
    decreases s.len(),
    via pieces_end
{
    let i = first_index(s, separator);
    if i >= s.len() {
        seq![s]
    } else {
        seq![s.take(i)] + pieces(s.skip(i + 1), separator)
    }
}

#[via_fn]
proof fn pieces_end(s: Seq<char>, separator: char) {
    lemma_first_index(s, separator);
}

/// Splits a text at the separators.
pub fn split(s: &str, separator: char) -> (result: Vec<String>)
    ensures
        texts(result@) == pieces(s@, separator),
        result@.len() > 0,
{
    let chars = chars_of(s);
    let mut result: Vec<String> = Vec::new();
    let mut from: usize = 0;
    assert(chars@.skip(0) =~= s@);
    assert(texts(result@) =~= Seq::<Seq<char>>::empty());
    assert(texts(result@) + pieces(s@, separator) =~= pieces(s@, separator));
    loop
        invariant_except_break
            from <= chars@.len(),
            pieces(s@, separator) == texts(result@) + pieces(chars@.skip(from as int), separator),
        ensures
            texts(result@) == pieces(s@, separator),
            result@.len() > 0,
        decreases chars@.len() - from,
    {
        let at: usize = find_char(&chars, from, separator);
        let ghost rest = chars@.skip(from as int);
        let ghost before = texts(result@);
        let piece = string_of(&chars, from, at);
        proof {
            lemma_first_index(rest, separator);
        }
        if at == chars.len() {
            assert(piece@ =~= rest);
            result.push(piece);
            assert(texts(result@) =~= before + seq![rest]);
            break;
        }
        assert(piece@ =~= rest.take(at - from));
        result.push(piece);
        proof {
            assert(rest.skip(at - from + 1) =~= chars@.skip(at + 1));
            assert(texts(result@) =~= before.push(piece@));
            assert(before + (seq![piece@] + pieces(chars@.skip(at + 1), separator)) =~= before.push(
                piece@,
            ) + pieces(chars@.skip(at + 1), separator));
        }
        from = at + 1;
    }
    result
}

/// A text cut off behind so many characters, with a mark where it goes on.
pub open spec fn bounded(s: Seq<char>, limit: int) -> Seq<char> {
    if s.len() > limit {
        s.take(limit).push('\u{2026}')
    } else {
        s
    }
}

/// Cuts a text off.
pub fn bound(s: &str, limit: usize) -> (result: String)
    ensures
        result@ == bounded(s@, limit as int),
{
    let chars = chars_of(s);
    if chars.len() > limit {
        let mut result = string_of(&chars, 0, limit);
        assert(result@ =~= s@.take(limit as int));
        result.push('\u{2026}');
        result
    } else {
        s.to_string()
    }
}

/// Whether a text ends with another.
pub open spec fn ends(s: Seq<char>, part: Seq<char>) -> bool {
    part.len() <= s.len() && s.skip(s.len() - part.len()) == part
}

/// Whether `s` ends with `part`.
pub fn ends_with(s: &str, part: &str) -> (result: bool)
    ensures
        result == ends(s@, part@),
{
    let chars = chars_of(s);
    let wanted = chars_of(part);
    if wanted.len() > chars.len() {
        return false;
    }
    proof {
        assert(s@.subrange(s@.len() - part@.len(), s@.len() as int) =~= s@.skip(
            s@.len() - part@.len(),
        ));
    }
    matches_at(&chars, &wanted, chars.len() - wanted.len())
}

/// A text without the character at its end, however often it stands there.
pub open spec fn without_end(s: Seq<char>, c: char) -> Seq<char>
    decreases s.len(),
{
    if s.len() > 0 && s.last() == c {
        without_end(s.drop_last(), c)
    } else {
        s
    }
}

/// Takes a character off the end of a text.
pub fn trim_end_char(s: &str, c: char) -> (result: String)
    ensures
        result@ == without_end(s@, c),
{
    let chars = chars_of(s);
    let mut end: usize = chars.len();
    assert(chars@.take(end as int) =~= s@);
    while end > 0 && chars[end - 1] == c
        invariant
            end <= chars@.len(),
            without_end(s@, c) == without_end(chars@.take(end as int), c),
        decreases end,
    {
        assert(chars@.take(end as int).drop_last() =~= chars@.take(end - 1));
        end -= 1;
    }
    let result = string_of(&chars, 0, end);
    assert(result@ =~= chars@.take(end as int));
    result
}

/// The code of a character, that of an ASCII letter in lower case.
pub open spec fn folded_code(c: char) -> u32 {
    if 0x41 <= c as u32 <= 0x5A {
        ((c as u32) + 32) as u32
    } else {
        c as u32
    }
}

/// Whether two texts are the same but for the case of ASCII letters.
pub open spec fn same_folded(a: Seq<char>, b: Seq<char>) -> bool {
    a.len() == b.len() && forall|i: int|
        0 <= i < a.len() ==> folded_code(#[trigger] a[i]) == folded_code(b[i])
}

fn fold(c: char) -> (code: u32)
    ensures
        code == folded_code(c),
{
    let code: u32 = c as u32;
    if code >= 0x41 && code <= 0x5A {
        code + 32
    } else {
        code
    }
}

/// Whether two texts are the same but for the case of ASCII letters.
pub fn same_ignoring_case(a: &str, b: &str) -> (result: bool)
    ensures
        result == same_folded(a@, b@),
{
    let left = chars_of(a);
    let right = chars_of(b);
    if left.len() != right.len() {
        return false;
    }
    let mut i: usize = 0;
    while i < left.len()
        invariant
            i <= left@.len() == right@.len(),
            left@ == a@,
            right@ == b@,
            forall|k: int| 0 <= k < i ==> folded_code(#[trigger] a@[k]) == folded_code(b@[k]),
        decreases left@.len() - i,
    {
        if fold(left[i]) != fold(right[i]) {
            assert(folded_code(a@[i as int]) != folded_code(b@[i as int]));
            return false;
        }
        i += 1;
    }
    true
}

/// The text that may be there.
pub open spec fn optional_text(s: Option<String>) -> Option<Seq<char>> {
    match s {
        Some(s) => Some(s@),
        None => None,
    }
}

/// A copy of the text that may be there.
pub fn copy_optional(s: &Option<String>) -> (copy: Option<String>)
    ensures
        optional_text(copy) == optional_text(*s),
{
    match s {
        Some(s) => Some(s.clone()),
        None => None,
    }
}

/// The number that digits stand for.
pub open spec fn digits_value(s: Seq<char>) -> Option<nat>
    decreases s.len(),
{
    if s.len() == 0 {
        Some(0)
    } else if !('0' <= s.last() <= '9') {
        None
    } else {
        match digits_value(s.drop_last()) {
            Some(front) => Some((10 * front + (s.last() as u32 - 48)) as nat),
            None => None,
        }
    }
}

/// The number that a text stands for: digits, with or without a plus sign,
/// and not more than the limit.
pub open spec fn number_value(s: Seq<char>, limit: nat) -> Option<nat> {
    let digits = if s.len() > 0 && s[0] == '+' {
        s.drop_first()
    } else {
        s
    };
    match digits_value(digits) {
        Some(value) if digits.len() > 0 && value <= limit => Some(value),
        _ => None,
    }
}

proof fn lemma_digits_prefix(s: Seq<char>, count: int, limit: nat)
    requires
        0 <= count <= s.len(),
        digits_value(s.take(count)) matches Some(value) ==> value > limit,
    ensures
        digits_value(s) matches Some(value) ==> value > limit,
    decreases s.len(),
{
    if count == s.len() {
        assert(s.take(count) =~= s);
    } else {
        assert(s.drop_last().take(count) =~= s.take(count));
        lemma_digits_prefix(s.drop_last(), count, limit);
    }
}

/// Reads a number of at most the limit.
pub fn parse_number(s: &str, limit: u32) -> (number: Option<u32>)
    ensures
        match number {
            Some(number) => number_value(s@, limit as nat) == Some(number as nat),
            None => number_value(s@, limit as nat) is None,
        },
{
    let chars = chars_of(s);
    let from: usize = if chars.len() > 0 && chars[0] == '+' {
        1
    } else {
        0
    };
    let ghost digits = chars@.skip(from as int);
    proof {
        if from == 1 {
            assert(digits =~= s@.drop_first());
        } else {
            assert(digits =~= s@);
        }
    }
    if from == chars.len() {
        return None;
    }
    let mut value: u64 = 0;
    let mut i: usize = from;
    assert(digits.take(0) =~= Seq::<char>::empty());
    while i < chars.len()
        invariant
            from <= i <= chars@.len(),
            from < chars@.len(),
            chars@ == s@,
            digits == chars@.skip(from as int),
            digits == (if s@.len() > 0 && s@[0] == '+' {
                s@.drop_first()
            } else {
                s@
            }),
            value <= limit,
            digits_value(digits.take(i - from)) == Some(value as nat),
        decreases chars@.len() - i,
    {
        let c = chars[i];
        proof {
            assert(digits.take(i - from + 1).drop_last() =~= digits.take(i - from));
            assert(digits.take(i - from + 1).last() == c);
        }
        if !(c >= '0' && c <= '9') {
            proof {
                lemma_digits_prefix(digits, i - from + 1, limit as nat);
            }
            return None;
        }
        value = value * 10 + (c as u64 - 48);
        if value > limit as u64 {
            proof {
                lemma_digits_prefix(digits, i - from + 1, limit as nat);
            }
            return None;
        }
        i += 1;
    }
    assert(digits.take(i - from) =~= digits);
    Some(value as u32)
}

/// Names with commas between them.
pub open spec fn comma_separated(list: Seq<Seq<char>>) -> Seq<char>
    decreases list.len(),
{
    if list.len() == 0 {
        Seq::empty()
    } else if list.len() == 1 {
        list[0]
    } else {
        comma_separated(list.drop_last()) + ", "@ + list.last()
    }
}

/// Names with commas between them.
pub fn join_names(list: &Vec<String>) -> (result: String)
    ensures
        result@ == comma_separated(texts(list@)),
{
    let ghost all = texts(list@);
    let mut result = String::new();
    let mut i: usize = 0;
    assert(all.take(0) =~= Seq::<Seq<char>>::empty());
    assert(result@ =~= Seq::<char>::empty());
    while i < list.len()
        invariant
            i <= list@.len(),
            all == texts(list@),
            result@ == comma_separated(all.take(i as int)),
        decreases list@.len() - i,
    {
        let ghost before = result@;
        if i > 0 {
            result.append(", ");
        }
        result.append(list[i].as_str());
        proof {
            assert(all.take(i + 1).drop_last() =~= all.take(i as int));
            assert(all.take(i + 1).last() == list@[i as int]@);
            if i == 0 {
                assert(result@ =~= list@[0]@);
            } else {
                assert(result@ =~= before + ", "@ + list@[i as int]@);
            }
        }
        i += 1;
    }
    assert(all.take(i as int) =~= all);
    result
}

} // verus!
