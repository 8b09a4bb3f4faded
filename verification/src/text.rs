//! Text: identifiers, the order that sorted collections follow, and pieces
//! between separators.
use vstd::prelude::*;
use vstd::string::*;
use vstd::utf8::*;

verus! {

/// Longest accepted identifier.
pub const MAX_IDENTIFIER_LENGTH: usize = 64;

pub open spec fn identifier_edge(c: char) -> bool {
    ('a' <= c && c <= 'z') || ('0' <= c && c <= '9')
}

pub open spec fn identifier_inner(c: char) -> bool {
    identifier_edge(c) || c == '_' || c == '-'
}

/// One to 64 lowercase ASCII letters, digits, hyphens or underscores that start
/// and end with a letter or digit.
pub open spec fn identifier(text: Seq<char>) -> bool {
    &&& 1 <= text.len() <= MAX_IDENTIFIER_LENGTH
    &&& identifier_edge(text[0])
    &&& identifier_edge(text[text.len() - 1])
    &&& forall|i: int| 0 <= i < text.len() ==> identifier_inner(#[trigger] text[i])
}

fn is_edge(byte: u8) -> (result: bool)
    ensures
        result == identifier_edge(byte as char),
{
    (0x61 <= byte && byte <= 0x7a) || (0x30 <= byte && byte <= 0x39)
}

pub fn is_identifier(text: &str) -> (result: bool)
    ensures
        result == identifier(text@),
{
    if !text.is_ascii() {
        proof {
            let i = choose|i: int|
                0 <= i < text@.len() && !('\0' <= #[trigger] text@[i] <= '\u{7f}');
            assert(!identifier_inner(text@[i]));
        }
        return false;
    }
    proof {
        is_ascii_spec_bytes(text);
    }
    let bytes = text.as_bytes();
    let length: usize = bytes.len();
    assert(length == text@.len());
    assert(forall|i: int| 0 <= i < length ==> #[trigger] bytes@[i] as char == text@[i]);
    if length == 0 || length > MAX_IDENTIFIER_LENGTH {
        return false;
    }
    if !is_edge(bytes[0]) || !is_edge(bytes[length - 1]) {
        return false;
    }
    let mut i: usize = 0;
    while i < length
        invariant
            i <= length,
            length == bytes@.len(),
            length == text@.len(),
            forall|j: int| 0 <= j < length ==> #[trigger] bytes@[j] as char == text@[j],
            forall|j: int| 0 <= j < i ==> identifier_inner(#[trigger] text@[j]),
        decreases length - i,
    {
        let byte: u8 = bytes[i];
        assert(byte as char == text@[i as int]);
        if !(is_edge(byte) || byte == 0x5f || byte == 0x2d) {
            return false;
        }
        i = i + 1;
    }
    true
}

/// `a` comes before `b` in byte order, comparing from position `i` on.
pub open spec fn before_from(a: Seq<u8>, b: Seq<u8>, i: int) -> bool
    decreases b.len() - i,
{
    if i < 0 || i >= b.len() {
        false
    } else if i >= a.len() {
        true
    } else if a[i] != b[i] {
        a[i] < b[i]
    } else {
        before_from(a, b, i + 1)
    }
}

/// `a` comes before `b` in byte order.
pub open spec fn before(a: Seq<u8>, b: Seq<u8>) -> bool {
    before_from(a, b, 0)
}

/// The bytes of `text`, by which texts are ordered.
pub open spec fn bytes_of(text: Seq<char>) -> Seq<u8> {
    encode_utf8(text)
}

/// `a` comes before `b`.
pub open spec fn precedes(a: Seq<char>, b: Seq<char>) -> bool {
    before(bytes_of(a), bytes_of(b))
}

proof fn lemma_before_transitive(a: Seq<u8>, b: Seq<u8>, c: Seq<u8>, i: int)
    requires
        0 <= i,
        before_from(a, b, i),
        before_from(b, c, i),
    ensures
        before_from(a, c, i),
    decreases c.len() - i,
{
    if i < a.len() && i < b.len() && i < c.len() && a[i] == b[i] && b[i] == c[i] {
        lemma_before_transitive(a, b, c, i + 1);
    }
}

proof fn lemma_before_irreflexive(a: Seq<u8>, i: int)
    requires
        0 <= i,
    ensures
        !before_from(a, a, i),
    decreases a.len() - i,
{
    if i < a.len() {
        lemma_before_irreflexive(a, i + 1);
    }
}

proof fn lemma_before_total(a: Seq<u8>, b: Seq<u8>, i: int)
    requires
        0 <= i <= a.len(),
        i <= b.len(),
        a.subrange(0, i) == b.subrange(0, i),
        a != b,
    ensures
        before_from(a, b, i) || before_from(b, a, i),
    decreases a.len() - i,
{
    if i < a.len() && i < b.len() {
        if a[i] == b[i] {
            assert(a.subrange(0, i + 1) =~= a.subrange(0, i).push(a[i]));
            assert(b.subrange(0, i + 1) =~= b.subrange(0, i).push(b[i]));
            lemma_before_total(a, b, i + 1);
        }
    } else if i == a.len() && i == b.len() {
        assert(a.subrange(0, i) =~= a);
        assert(b.subrange(0, i) =~= b);
    }
}

/// Byte order is transitive.
pub proof fn before_transitive(a: Seq<u8>, b: Seq<u8>, c: Seq<u8>)
    requires
        before(a, b),
        before(b, c),
    ensures
        before(a, c),
{
    lemma_before_transitive(a, b, c, 0);
}

/// Nothing comes before itself in byte order.
pub proof fn before_irreflexive(a: Seq<u8>)
    ensures
        !before(a, a),
{
    lemma_before_irreflexive(a, 0);
}

/// Of two different byte sequences one comes before the other.
pub proof fn before_total(a: Seq<u8>, b: Seq<u8>)
    requires
        a != b,
    ensures
        before(a, b) || before(b, a),
{
    assert(a.subrange(0, 0) =~= b.subrange(0, 0));
    lemma_before_total(a, b, 0);
}

/// Different texts have different bytes.
pub proof fn bytes_injective(a: Seq<char>, b: Seq<char>)
    ensures
        (bytes_of(a) == bytes_of(b)) == (a == b),
{
    encode_utf8_decode_utf8(a);
    encode_utf8_decode_utf8(b);
}

pub fn text_precedes(a: &str, b: &str) -> (result: bool)
    ensures
        result == precedes(a@, b@),
{
    let x = a.as_bytes();
    let y = b.as_bytes();
    let mut i: usize = 0;
    while i < x.len() && i < y.len() && x[i] == y[i]
        invariant
            i <= x@.len(),
            i <= y@.len(),
            before_from(x@, y@, i as int) == before_from(x@, y@, 0),
        decreases x@.len() - i,
    {
        i = i + 1;
    }
    if i >= y.len() {
        false
    } else if i >= x.len() {
        true
    } else {
        x[i] < y[i]
    }
}

/// Whether two texts are equal.
pub fn text_equals(a: &str, b: &str) -> (result: bool)
    ensures
        result == (a@ == b@),
{
    let x = a.as_bytes();
    let y = b.as_bytes();
    proof {
        encode_utf8_decode_utf8(a@);
        encode_utf8_decode_utf8(b@);
    }
    if x.len() != y.len() {
        return false;
    }
    let mut i: usize = 0;
    while i < x.len()
        invariant
            i <= x@.len(),
            x@.len() == y@.len(),
            x@ == encode_utf8(a@),
            y@ == encode_utf8(b@),
            forall|j: int| 0 <= j < i ==> x@[j] == y@[j],
        decreases x@.len() - i,
    {
        if x[i] != y[i] {
            return false;
        }
        i = i + 1;
    }
    assert(x@ =~= y@);
    true
}

/// The characters of a text.
pub fn characters(text: &str) -> (chars: Vec<char>)
    ensures
        chars@ == text@,
{
    let mut chars: Vec<char> = Vec::new();
    let length: usize = text.unicode_len();
    let mut i: usize = 0;
    while i < length
        invariant
            i <= length,
            length == text@.len(),
            chars@ == text@.take(i as int),
        decreases length - i,
    {
        chars.push(text.get_char(i));
        assert(chars@ =~= text@.take(i + 1));
        i = i + 1;
    }
    assert(chars@ =~= text@);
    chars
}

/// Control characters: U+0000 to U+001F and U+007F to U+009F.
pub open spec fn control(c: char) -> bool {
    c <= '\u{1f}' || ('\u{7f}' <= c && c <= '\u{9f}')
}

pub fn is_control(c: char) -> (result: bool)
    ensures
        result == control(c),
{
    c <= '\u{1f}' || ('\u{7f}' <= c && c <= '\u{9f}')
}

/// Characters that have no place in a topic: control characters and wildcards.
pub open spec fn unfit_for_topic(c: char) -> bool {
    control(c) || c == '#' || c == '+'
}

/// Some character is unfit for a topic.
pub open spec fn has_unfit(text: Seq<char>) -> bool {
    exists|i: int| 0 <= i < text.len() && unfit_for_topic(#[trigger] text[i])
}

pub fn contains_unfit(chars: &Vec<char>) -> (result: bool)
    ensures
        result == has_unfit(chars@),
{
    let mut i: usize = 0;
    while i < chars.len()
        invariant
            i <= chars@.len(),
            forall|j: int| 0 <= j < i ==> !unfit_for_topic(#[trigger] chars@[j]),
        decreases chars@.len() - i,
    {
        if is_control(chars[i]) || chars[i] == '#' || chars[i] == '+' {
            assert(unfit_for_topic(chars@[i as int]));
            return true;
        }
        i = i + 1;
    }
    false
}

/// Some character is a control character.
pub open spec fn has_control(text: Seq<char>) -> bool {
    exists|i: int| 0 <= i < text.len() && control(#[trigger] text[i])
}

pub fn contains_control(chars: &Vec<char>) -> (result: bool)
    ensures
        result == has_control(chars@),
{
    let mut i: usize = 0;
    while i < chars.len()
        invariant
            i <= chars@.len(),
            forall|j: int| 0 <= j < i ==> !control(#[trigger] chars@[j]),
        decreases chars@.len() - i,
    {
        if is_control(chars[i]) {
            assert(control(chars@[i as int]));
            return true;
        }
        i = i + 1;
    }
    false
}

/// `text` starts with `prefix`.
pub open spec fn starts(text: Seq<char>, prefix: Seq<char>) -> bool {
    prefix.len() <= text.len() && text.take(prefix.len() as int) == prefix
}

pub fn starts_with(chars: &Vec<char>, prefix: &Vec<char>) -> (result: bool)
    ensures
        result == starts(chars@, prefix@),
{
    if chars.len() < prefix.len() {
        return false;
    }
    let mut i: usize = 0;
    while i < prefix.len()
        invariant
            i <= prefix@.len() <= chars@.len(),
            forall|j: int| 0 <= j < i ==> chars@[j] == prefix@[j],
        decreases prefix@.len() - i,
    {
        if chars[i] != prefix[i] {
            assert(chars@.take(prefix@.len() as int)[i as int] != prefix@[i as int]);
            return false;
        }
        i = i + 1;
    }
    assert(chars@.take(prefix@.len() as int) =~= prefix@);
    true
}

/// The pieces of `text` between separators from `start` on, where no separator
/// stands from `start` to `i`.
pub open spec fn pieces_from(text: Seq<char>, separator: char, start: int, i: int) -> Seq<Seq<char>>
    decreases text.len() - i,
{
    if i >= text.len() {
        seq![text.subrange(start, text.len() as int)]
    } else if text[i] == separator {
        seq![text.subrange(start, i)] + pieces_from(text, separator, i + 1, i + 1)
    } else {
        pieces_from(text, separator, start, i + 1)
    }
}

/// The pieces of `text` between separators.
pub open spec fn pieces(text: Seq<char>, separator: char) -> Seq<Seq<char>> {
    pieces_from(text, separator, 0, 0)
}

/// The views of texts.
pub open spec fn views(texts: Seq<String>) -> Seq<Seq<char>> {
    Seq::new(texts.len(), |i: int| texts[i]@)
}

/// Splits a text at a separator.
pub fn split(text: &str, separator: char) -> (result: Vec<String>)
    ensures
        views(result@) == pieces(text@, separator),
        result@.len() >= 1,
{
    let chars = characters(text);
    let mut result: Vec<String> = Vec::new();
    let mut start: usize = 0;
    let mut i: usize = 0;
    let ghost all = pieces(text@, separator);
    assert(views(result@) + pieces_from(text@, separator, 0, 0) =~= all);
    while i < chars.len()
        invariant
            start <= i <= chars@.len(),
            chars@ == text@,
            all == pieces(text@, separator),
            views(result@) + pieces_from(text@, separator, start as int, i as int) == all,
        decreases chars@.len() - i,
    {
        if chars[i] == separator {
            let ghost before = views(result@);
            result.push(text.substring_char(start, i).to_owned());
            start = i + 1;
            proof {
                let piece = result@.last()@;
                assert(views(result@) =~= before.push(piece));
                let rest = pieces_from(text@, separator, i + 1, i + 1);
                assert(before + (seq![piece] + rest) =~= before.push(piece) + rest);
            }
        }
        i = i + 1;
    }
    let ghost before = views(result@);
    result.push(text.substring_char(start, i).to_owned());
    proof {
        let piece = result@.last()@;
        assert(views(result@) =~= before.push(piece));
        assert(before + seq![piece] =~= before.push(piece));
    }
    result
}

/// Whether a text is one of `texts`.
pub open spec fn among(texts: Seq<String>, text: Seq<char>) -> bool {
    exists|i: int| 0 <= i < texts.len() && (#[trigger] texts[i])@ == text
}

pub fn is_among(texts: &Vec<String>, text: &str) -> (result: bool)
    ensures
        result == among(texts@, text@),
{
    let mut i: usize = 0;
    while i < texts.len()
        invariant
            i <= texts@.len(),
            forall|j: int| 0 <= j < i ==> (#[trigger] texts@[j])@ != text@,
        decreases texts@.len() - i,
    {
        if text_equals(texts[i].as_str(), text) {
            assert(texts@[i as int]@ == text@);
            return true;
        }
        i = i + 1;
    }
    false
}

/// All characters are decimal digits.
pub open spec fn numeric(text: Seq<char>) -> bool {
    forall|i: int| 0 <= i < text.len() ==> '0' <= #[trigger] text[i] <= '9'
}

pub fn is_numeric(chars: &Vec<char>) -> (result: bool)
    ensures
        result == numeric(chars@),
{
    let mut i: usize = 0;
    while i < chars.len()
        invariant
            i <= chars@.len(),
            forall|j: int| 0 <= j < i ==> '0' <= #[trigger] chars@[j] <= '9',
        decreases chars@.len() - i,
    {
        if !('0' <= chars[i] && chars[i] <= '9') {
            return false;
        }
        i = i + 1;
    }
    true
}

} // verus!
