//! Text: the small string operations the rest of the library is built from.

use vstd::prelude::*;
use vstd::utf8::*;

use crate::order::{is_total_order, lemma_lex_prefix, lemma_lex_step, lemma_lex_total, lex, lexed, order_int, Order};

verus! {

/// `String::push`: the text gains `c` at its end.
pub assume_specification[ String::push ](s: &mut String, c: char)
    ensures
        final(s)@ == old(s)@.push(c),
;

/// What `str::to_lowercase` gives for `text`.
pub uninterp spec fn lowercase(text: Seq<char>) -> Seq<char>;

/// `str::to_lowercase`, the Unicode lower case of a text. The mapping itself is
/// a table of the standard library and is only named here.
#[verifier::external_body]
pub(crate) fn to_lowercase(text: &str) -> (r: String)
    ensures
        r@ == lowercase(text@),
{
    text.to_lowercase()
}

/// What the `{:?}` rendering of the text `text` is.
pub uninterp spec fn quoted(text: Seq<char>) -> Seq<char>;

/// `format!("{:?}")` of a `str`: the text in double quotes, escaped. Which
/// characters are escaped is a table of the standard library and is only named.
#[verifier::external_body]
pub(crate) fn quote(text: &str) -> (r: String)
    ensures
        r@ == quoted(text@),
{
    format!("{text:?}")
}

/// What the `{:?}` rendering of the character `c` is.
pub uninterp spec fn quoted_char(c: char) -> Seq<char>;

/// `format!("{:?}")` of a `char`: the character in single quotes, escaped.
#[verifier::external_body]
pub(crate) fn quote_char(c: char) -> (r: String)
    ensures
        r@ == quoted_char(c),
{
    format!("{c:?}")
}

/// What `String::from_utf8_lossy` makes of `bytes`.
pub uninterp spec fn utf8_lossy(bytes: Seq<u8>) -> Seq<char>;

/// `String::from_utf8_lossy`: valid UTF-8 is decoded as it is. How invalid
/// sequences are replaced is only named.
#[verifier::external_body]
pub(crate) fn from_utf8_lossy(bytes: &[u8]) -> (r: String)
    ensures
        r@ == utf8_lossy(bytes@),
        valid_utf8(bytes@) ==> r@ == decode_utf8(bytes@),
{
    String::from_utf8_lossy(bytes).into_owned()
}

/// Characters with the Unicode property `White_Space`.
pub open spec fn white_space(c: char) -> bool {
    let n = c as u32;
    ||| 0x09 <= n <= 0x0d
    ||| n == 0x20
    ||| n == 0x85
    ||| n == 0xa0
    ||| n == 0x1680
    ||| 0x2000 <= n <= 0x200a
    ||| n == 0x2028
    ||| n == 0x2029
    ||| n == 0x202f
    ||| n == 0x205f
    ||| n == 0x3000
}

pub fn is_white_space(c: char) -> (r: bool)
    ensures
        r == white_space(c),
{
    let n = c as u32;
    (0x09 <= n && n <= 0x0d) || n == 0x20 || n == 0x85 || n == 0xa0 || n == 0x1680 || (0x2000 <= n
        && n <= 0x200a) || n == 0x2028 || n == 0x2029 || n == 0x202f || n == 0x205f || n == 0x3000
}

pub open spec fn ascii_digit(c: char) -> bool {
    '0' <= c <= '9'
}

pub fn is_ascii_digit(c: char) -> (r: bool)
    ensures
        r == ascii_digit(c),
{
    '0' <= c && c <= '9'
}

pub open spec fn ascii_letter(c: char) -> bool {
    'a' <= c <= 'z' || 'A' <= c <= 'Z'
}

pub fn is_ascii_letter(c: char) -> (r: bool)
    ensures
        r == ascii_letter(c),
{
    ('a' <= c && c <= 'z') || ('A' <= c && c <= 'Z')
}

/// The value of a decimal digit.
pub open spec fn digit_value(c: char) -> nat
    recommends
        ascii_digit(c),
{
    (c as u32 - '0' as u32) as nat
}

/// `A`..`Z` become `a`..`z`; everything else stays.
pub open spec fn ascii_lower(c: char) -> char {
    if 'A' <= c <= 'Z' {
        (c as u8 + 32) as char
    } else {
        c
    }
}

pub open spec fn ascii_lowered(text: Seq<char>) -> Seq<char> {
    text.map_values(|c: char| ascii_lower(c))
}

fn lower_char(c: char) -> (r: char)
    ensures
        r == ascii_lower(c),
{
    if 'A' <= c && c <= 'Z' {
        let code: u8 = c as u8 + 32;
        code as char
    } else {
        c
    }
}

/// The characters of a text.
pub fn chars_of(text: &str) -> (r: Vec<char>)
    ensures
        r@ == text@,
{
    let mut out: Vec<char> = Vec::new();
    for c in it: text.chars()
        invariant
            it.seq() == text@,
            out@ =~= text@.take(it.index() as int),
    {
        out.push(c);
    }
    assert(text@.take(text@.len() as int) =~= text@);
    out
}

/// The text made of `chars[from..to]`.
pub fn string_of_range(chars: &Vec<char>, from: usize, to: usize) -> (r: String)
    requires
        from <= to <= chars.len(),
    ensures
        r@ == chars@.subrange(from as int, to as int),
{
    let mut out = String::new();
    let mut i: usize = from;
    while i < to
        invariant
            from <= i <= to <= chars.len(),
            out@ =~= chars@.subrange(from as int, i as int),
        decreases to - i,
    {
        out.push(chars[i]);
        i = i + 1;
    }
    out
}

/// The text made of `chars`.
pub fn string_of(chars: &Vec<char>) -> (r: String)
    ensures
        r@ == chars@,
{
    assert(chars@.subrange(0, chars@.len() as int) =~= chars@);
    string_of_range(chars, 0, chars.len())
}

/// Position of the first character that is not white space.
pub open spec fn content_start(text: Seq<char>) -> int
    decreases text.len(),
{
    if text.len() == 0 || !white_space(text[0]) {
        0
    } else {
        1 + content_start(text.skip(1))
    }
}

/// Position just behind the last character that is not white space.
pub open spec fn content_end(text: Seq<char>) -> int
    decreases text.len(),
{
    if text.len() == 0 || !white_space(text.last()) {
        text.len() as int
    } else {
        content_end(text.drop_last())
    }
}

/// `text` without the white space at its start and end.
pub open spec fn trimmed(text: Seq<char>) -> Seq<char> {
    let tail = text.skip(content_start(text));
    tail.take(content_end(tail))
}

proof fn lemma_content_start(text: Seq<char>, i: int)
    requires
        0 <= i <= text.len(),
        forall|k: int| 0 <= k < i ==> white_space(#[trigger] text[k]),
        i < text.len() ==> !white_space(text[i]),
    ensures
        content_start(text) == i,
    decreases i,
{
    if i > 0 {
        assert(white_space(text[0]));
        let rest = text.skip(1);
        assert forall|k: int| 0 <= k < i - 1 implies white_space(#[trigger] rest[k]) by {
            assert(rest[k] == text[k + 1]);
        }
        lemma_content_start(rest, i - 1);
    }
}

proof fn lemma_content_end(text: Seq<char>, i: int)
    requires
        0 <= i <= text.len(),
        forall|k: int| i <= k < text.len() ==> white_space(#[trigger] text[k]),
        i > 0 ==> !white_space(text[i - 1]),
    ensures
        content_end(text) == i,
    decreases text.len(),
{
    if text.len() > 0 && i < text.len() {
        assert(white_space(text.last()));
        lemma_content_end(text.drop_last(), i);
    }
}

/// `chars` without the white space at its start and end.
pub fn trim(chars: &Vec<char>) -> (r: Vec<char>)
    ensures
        r@ == trimmed(chars@),
{
    let mut from: usize = 0;
    while from < chars.len() && is_white_space(chars[from])
        invariant
            0 <= from <= chars.len(),
            forall|k: int| 0 <= k < from ==> white_space(#[trigger] chars@[k]),
        decreases chars.len() - from,
    {
        from = from + 1;
    }
    let mut to: usize = chars.len();
    while to > from && is_white_space(chars[to - 1])
        invariant
            from <= to <= chars.len(),
            forall|k: int| to <= k < chars.len() ==> white_space(#[trigger] chars@[k]),
        decreases to,
    {
        to = to - 1;
    }
    proof {
        let text = chars@;
        lemma_content_start(text, from as int);
        let tail = text.skip(from as int);
        assert forall|k: int| to - from <= k < tail.len() implies white_space(#[trigger] tail[k]) by {
            assert(tail[k] == text[k + from]);
        }
        lemma_content_end(tail, to - from);
        assert(tail.take(to - from) =~= text.subrange(from as int, to as int));
    }
    let mut out: Vec<char> = Vec::new();
    let mut i: usize = from;
    while i < to
        invariant
            from <= i <= to <= chars.len(),
            out@ =~= chars@.subrange(from as int, i as int),
        decreases to - i,
    {
        out.push(chars[i]);
        i = i + 1;
    }
    out
}

/// `chars` with its ASCII letters in lower case.
pub fn to_ascii_lowercase(chars: &Vec<char>) -> (r: Vec<char>)
    ensures
        r@ == ascii_lowered(chars@),
{
    let mut out: Vec<char> = Vec::new();
    let mut i: usize = 0;
    while i < chars.len()
        invariant
            0 <= i <= chars.len(),
            out@ =~= ascii_lowered(chars@).take(i as int),
        decreases chars.len() - i,
    {
        out.push(lower_char(chars[i]));
        i = i + 1;
    }
    assert(ascii_lowered(chars@).take(chars@.len() as int) =~= ascii_lowered(chars@));
    out
}

/// Whether two texts are equal.
pub fn same_text(a: &str, b: &str) -> (r: bool)
    ensures
        r == (a@ == b@),
{
    proof {
        encode_utf8_decode_utf8(a@);
        encode_utf8_decode_utf8(b@);
    }
    same_bytes(a.as_bytes(), b.as_bytes())
}

/// Whether two byte strings are equal.
pub fn same_bytes(a: &[u8], b: &[u8]) -> (r: bool)
    ensures
        r == (a@ == b@),
{
    if a.len() != b.len() {
        return false;
    }
    let mut i: usize = 0;
    while i < a.len()
        invariant
            a.len() == b.len(),
            0 <= i <= a.len(),
            forall|k: int| 0 <= k < i ==> #[trigger] a@[k] == b@[k],
        decreases a.len() - i,
    {
        if a[i] != b[i] {
            assert(a@[i as int] != b@[i as int]);
            return false;
        }
        i = i + 1;
    }
    assert(a@ =~= b@);
    true
}

/// Views of a list of strings.
pub open spec fn texts(list: Seq<String>) -> Seq<Seq<char>> {
    list.map_values(|s: String| s@)
}

pub proof fn lemma_texts_push(list: Seq<String>, s: String)
    ensures
        texts(list.push(s)) == texts(list).push(s@),
{
    assert(texts(list.push(s)) =~= texts(list).push(s@));
}

/// Whether `list` holds the text `name`.
pub fn holds_text(list: &Vec<String>, name: &str) -> (r: bool)
    ensures
        r == texts(list@).contains(name@),
{
    let mut i: usize = 0;
    while i < list.len()
        invariant
            0 <= i <= list.len(),
            forall|k: int| 0 <= k < i ==> #[trigger] list@[k]@ != name@,
        decreases list.len() - i,
    {
        if same_text(list[i].as_str(), name) {
            assert(texts(list@)[i as int] == name@);
            return true;
        }
        i = i + 1;
    }
    assert forall|k: int| 0 <= k < list@.len() implies texts(list@)[k] != name@ by {
        assert(list@[k]@ != name@);
    }
    false
}

/// A copy of a list of strings.
pub fn clone_texts(list: &Vec<String>) -> (r: Vec<String>)
    ensures
        texts(r@) == texts(list@),
{
    let mut out: Vec<String> = Vec::new();
    let mut i: usize = 0;
    while i < list.len()
        invariant
            0 <= i <= list.len(),
            texts(out@) =~= texts(list@).take(i as int),
        decreases list.len() - i,
    {
        let copy = list[i].clone();
        proof {
            lemma_texts_push(out@, copy);
        }
        out.push(copy);
        i = i + 1;
    }
    assert(texts(list@).take(list@.len() as int) =~= texts(list@));
    out
}

/// `needle` stands in `hay` from position `at` on.
pub open spec fn occurs_at(hay: Seq<char>, needle: Seq<char>, at: int) -> bool {
    0 <= at && at + needle.len() <= hay.len() && hay.subrange(at, at + needle.len()) =~= needle
}

/// `needle` stands somewhere in `hay`.
pub open spec fn occurs_in(hay: Seq<char>, needle: Seq<char>) -> bool {
    exists|at: int| #[trigger] occurs_at(hay, needle, at)
}

/// Whether `needle` stands somewhere in `hay`.
pub fn contains_text(hay: &str, needle: &str) -> (r: bool)
    ensures
        r == occurs_in(hay@, needle@),
{
    let h = chars_of(hay);
    let n = chars_of(needle);
    if n.len() > h.len() {
        return false;
    }
    let last: usize = h.len() - n.len();
    let mut at: usize = 0;
    loop
        invariant
            h@ == hay@,
            n@ == needle@,
            last == h.len() - n.len(),
            0 <= at <= last,
            forall|k: int| 0 <= k < at ==> !#[trigger] occurs_at(hay@, needle@, k),
        decreases last - at,
    {
        let mut i: usize = 0;
        while i < n.len() && h[at + i] == n[i]
            invariant
                last == h.len() - n.len(),
                0 <= at <= last,
                0 <= i <= n.len(),
                forall|k: int| 0 <= k < i ==> h@[at + k] == #[trigger] n@[k],
            decreases n.len() - i,
        {
            i = i + 1;
        }
        if i == n.len() {
            assert(h@.subrange(at as int, at + n@.len()) =~= n@);
            assert(occurs_at(hay@, needle@, at as int));
            return true;
        }
        assert(!occurs_at(hay@, needle@, at as int)) by {
            assert(h@.subrange(at as int, at + n@.len())[i as int] == h@[at + i]);
        }
        if at == last {
            return false;
        }
        at = at + 1;
    }
}

/// Whether `c` stands in `text`.
pub fn contains_char(text: &str, c: char) -> (r: bool)
    ensures
        r == text@.contains(c),
{
    let chars = chars_of(text);
    let mut i: usize = 0;
    while i < chars.len()
        invariant
            chars@ == text@,
            0 <= i <= chars.len(),
            forall|k: int| 0 <= k < i ==> #[trigger] chars@[k] != c,
        decreases chars.len() - i,
    {
        if chars[i] == c {
            assert(text@[i as int] == c);
            return true;
        }
        i = i + 1;
    }
    false
}

/// The decimal digits of `n`.
pub open spec fn digits(n: nat) -> Seq<char>
    decreases n,
{
    if n < 10 {
        seq![digit_char(n)]
    } else {
        digits(n / 10).push(digit_char(n % 10))
    }
}

/// The character of the decimal digit `n`.
pub open spec fn digit_char(n: nat) -> char
    recommends
        n < 10,
{
    (n + '0' as u32) as char
}

fn digit_of(n: u128) -> (r: char)
    requires
        n < 10,
    ensures
        r == digit_char(n as nat),
{
    let code: u8 = n as u8 + 48;
    code as char
}

/// `n` in decimal.
pub fn decimal_wide(n: u128) -> (r: String)
    ensures
        r@ == digits(n as nat),
    decreases n,
{
    if n < 10 {
        let mut out = String::new();
        out.push(digit_of(n));
        assert(out@ =~= digits(n as nat));
        out
    } else {
        let mut out = decimal_wide(n / 10);
        out.push(digit_of(n % 10));
        out
    }
}

/// `n` in decimal.
pub fn decimal(n: u64) -> (r: String)
    ensures
        r@ == digits(n as nat),
{
    decimal_wide(n as u128)
}

/// `parts` with `sep` between each two.
pub open spec fn joined(parts: Seq<Seq<char>>, sep: Seq<char>) -> Seq<char>
    decreases parts.len(),
{
    if parts.len() == 0 {
        seq![]
    } else if parts.len() == 1 {
        parts[0]
    } else {
        joined(parts.drop_last(), sep) + sep + parts.last()
    }
}

/// `parts` with `sep` between each two.
pub fn join(parts: &Vec<String>, sep: &str) -> (r: String)
    ensures
        r@ == joined(texts(parts@), sep@),
{
    let mut out = String::new();
    let mut i: usize = 0;
    while i < parts.len()
        invariant
            0 <= i <= parts.len(),
            out@ =~= joined(texts(parts@).take(i as int), sep@),
        decreases parts.len() - i,
    {
        if i > 0 {
            out.append(sep);
        }
        out.append(parts[i].as_str());
        assert(texts(parts@).take(i + 1).drop_last() =~= texts(parts@).take(i as int));
        i = i + 1;
    }
    assert(texts(parts@).take(parts@.len() as int) =~= texts(parts@));
    out
}

/// `n` copies of `c`.
pub open spec fn repeated(c: char, n: int) -> Seq<char> {
    Seq::new(if n < 0 { 0 } else { n as nat }, |i: int| c)
}

/// `text` filled up with spaces on the right to `width` characters.
pub open spec fn padded_right(text: Seq<char>, width: int) -> Seq<char> {
    text + repeated(' ', width - text.len())
}

/// `text` filled up with spaces on the left to `width` characters.
pub open spec fn padded_left(text: Seq<char>, width: int) -> Seq<char> {
    repeated(' ', width - text.len()) + text
}

fn spaces(n: usize) -> (r: String)
    ensures
        r@ == repeated(' ', n as int),
{
    let mut out = String::new();
    let mut i: usize = 0;
    while i < n
        invariant
            0 <= i <= n,
            out@ =~= repeated(' ', i as int),
        decreases n - i,
    {
        out.push(' ');
        i = i + 1;
    }
    out
}

/// The number of characters of `text`.
pub fn char_count(text: &str) -> (r: usize)
    ensures
        r == text@.len(),
{
    chars_of(text).len()
}

/// `text` filled up with spaces on the right to `width` characters.
pub fn pad_right(text: &str, width: usize) -> (r: String)
    ensures
        r@ == padded_right(text@, width as int),
{
    let length = char_count(text);
    let mut out = text.to_owned();
    if length < width {
        out.append(spaces(width - length).as_str());
    }
    assert(out@ =~= padded_right(text@, width as int));
    out
}

/// `text` filled up with spaces on the left to `width` characters.
pub fn pad_left(text: &str, width: usize) -> (r: String)
    ensures
        r@ == padded_left(text@, width as int),
{
    let length = char_count(text);
    let mut out = if length < width {
        spaces(width - length)
    } else {
        String::new()
    };
    out.append(text);
    assert(out@ =~= padded_left(text@, width as int));
    out
}

/// Characters compare by code point.
pub open spec fn char_order() -> spec_fn(char, char) -> Order {
    |a: char, b: char| order_int(a as int, b as int)
}

/// Texts compare by the code points of their characters, first difference first.
pub open spec fn text_order(a: Seq<char>, b: Seq<char>) -> Order {
    lex(char_order(), a, b)
}

/// [`text_order`] is a total order.
pub proof fn lemma_text_order_total()
    ensures
        is_total_order(char_order()),
        is_total_order(lexed(char_order())),
        forall|a: Seq<char>, b: Seq<char>| #[trigger]
            lexed(char_order())(a, b) == text_order(a, b),
{
    assert forall|a: char, b: char| #[trigger] char_order()(a, b) == Order::Same implies a == b by {
        assert(a as int == b as int);
    }
    lemma_lex_total(char_order());
}

/// How two texts compare.
pub fn order_texts(a: &str, b: &str) -> (r: Order)
    ensures
        r == text_order(a@, b@),
{
    let x = chars_of(a);
    let y = chars_of(b);
    let ghost f = char_order();
    let mut i: usize = 0;
    assert(x@.skip(0) =~= x@ && y@.skip(0) =~= y@);
    while i < x.len() && i < y.len()
        invariant
            0 <= i <= x.len(),
            i <= y.len(),
            x@ == a@,
            y@ == b@,
            f == char_order(),
            lex(f, x@, y@) == lex(f, x@.skip(i as int), y@.skip(i as int)),
        decreases x.len() - i,
    {
        proof {
            lemma_lex_step(f, x@, y@, i as int);
        }
        let (p, q) = (x[i], y[i]);
        if p < q {
            return Order::Before;
        }
        if q < p {
            return Order::After;
        }
        i = i + 1;
    }
    if i < x.len() {
        Order::After
    } else if i < y.len() {
        Order::Before
    } else {
        Order::Same
    }
}

/// The pieces of `s` between the separators; one piece where there is none.
pub open spec fn split<A>(s: Seq<A>, sep: A) -> Seq<Seq<A>>
    decreases s.len(),
{
    if s.len() == 0 {
        seq![seq![]]
    } else {
        let before = split(s.drop_last(), sep);
        if s.last() == sep {
            before.push(seq![])
        } else {
            before.drop_last().push(before.last().push(s.last()))
        }
    }
}

pub proof fn lemma_split_nonempty<A>(s: Seq<A>, sep: A)
    ensures
        split(s, sep).len() > 0,
    decreases s.len(),
{
    if s.len() > 0 {
        lemma_split_nonempty(s.drop_last(), sep);
    }
}

/// A separator between two texts keeps their pieces apart.
pub proof fn lemma_split_concat<A>(a: Seq<A>, b: Seq<A>, sep: A)
    ensures
        split(a.push(sep) + b, sep) == split(a, sep) + split(b, sep),
    decreases b.len(),
{
    let whole = a.push(sep) + b;
    if b.len() == 0 {
        assert(whole =~= a.push(sep));
        assert(whole.drop_last() =~= a);
        assert(split(whole, sep) =~= split(a, sep) + split(b, sep));
    } else {
        lemma_split_concat(a, b.drop_last(), sep);
        lemma_split_nonempty(b.drop_last(), sep);
        assert(whole.drop_last() =~= a.push(sep) + b.drop_last());
        assert(whole.last() == b.last());
        assert(split(whole, sep) =~= split(a, sep) + split(b, sep));
    }
}

/// A text without separators is a single piece.
pub proof fn lemma_split_single<A>(s: Seq<A>, sep: A)
    requires
        !s.contains(sep),
    ensures
        split(s, sep) == seq![s],
    decreases s.len(),
{
    if s.len() == 0 {
        assert(s =~= seq![]);
    } else {
        let init = s.drop_last();
        assert(!init.contains(sep)) by {
            if init.contains(sep) {
                let k = choose|k: int| 0 <= k < init.len() && init[k] == sep;
                assert(s[k] == sep);
            }
        }
        lemma_split_single(init, sep);
        assert(s.last() == s[s.len() - 1]);
        assert(init.push(s.last()) =~= s);
        assert(split(s, sep) =~= seq![s]);
    }
}

/// Every piece is free of the separator.
pub proof fn lemma_split_pieces<A>(s: Seq<A>, sep: A)
    ensures
        forall|i: int| 0 <= i < split(s, sep).len() ==> !(#[trigger] split(s, sep)[i]).contains(sep),
    decreases s.len(),
{
    if s.len() > 0 {
        let before = split(s.drop_last(), sep);
        lemma_split_pieces(s.drop_last(), sep);
        lemma_split_nonempty(s.drop_last(), sep);
        let after = split(s, sep);
        assert forall|i: int| 0 <= i < after.len() implies !(#[trigger] after[i]).contains(sep) by {
            if s.last() == sep {
                if i < before.len() {
                    assert(after[i] == before[i]);
                }
            } else if i < before.len() - 1 {
                assert(after[i] == before[i]);
            } else {
                assert(after[i] == before[before.len() - 1].push(s.last()));
                if after[i].contains(sep) {
                    let k = choose|k: int| 0 <= k < after[i].len() && after[i][k] == sep;
                    assert(before[before.len() - 1][k] == sep);
                }
            }
        }
    }
}

/// Views of a list of byte strings.
pub open spec fn byte_strings(list: Seq<Vec<u8>>) -> Seq<Seq<u8>> {
    list.map_values(|s: Vec<u8>| s@)
}

pub proof fn lemma_byte_strings_push(list: Seq<Vec<u8>>, s: Vec<u8>)
    ensures
        byte_strings(list.push(s)) == byte_strings(list).push(s@),
{
    assert(byte_strings(list.push(s)) =~= byte_strings(list).push(s@));
}

/// The pieces of `bytes` between the separators.
pub fn split_bytes(bytes: &[u8], sep: u8) -> (r: Vec<Vec<u8>>)
    ensures
        byte_strings(r@) == split(bytes@, sep),
{
    let mut out: Vec<Vec<u8>> = Vec::new();
    let mut piece: Vec<u8> = Vec::new();
    let mut i: usize = 0;
    assert(bytes@.take(0) =~= Seq::<u8>::empty());
    assert(byte_strings(out@).push(piece@) =~= split(bytes@.take(0), sep));
    while i < bytes.len()
        invariant
            0 <= i <= bytes.len(),
            byte_strings(out@).push(piece@) == split(bytes@.take(i as int), sep),
        decreases bytes.len() - i,
    {
        let ghost before = byte_strings(out@);
        let ghost begun = piece@;
        let b = bytes[i];
        assert(bytes@.take(i + 1).drop_last() =~= bytes@.take(i as int));
        assert(before.push(begun).drop_last() =~= before);
        if b == sep {
            proof {
                lemma_byte_strings_push(out@, piece);
            }
            out.push(piece);
            piece = Vec::new();
        } else {
            piece.push(b);
        }
        i = i + 1;
    }
    assert(bytes@.take(bytes@.len() as int) =~= bytes@);
    proof {
        lemma_byte_strings_push(out@, piece);
    }
    out.push(piece);
    out
}

/// The pieces of `chars` between the separators, as texts.
pub fn split_chars(chars: &Vec<char>, sep: char) -> (r: Vec<String>)
    ensures
        texts(r@) == split(chars@, sep),
{
    let mut out: Vec<String> = Vec::new();
    let mut piece = String::new();
    let mut i: usize = 0;
    assert(chars@.take(0) =~= Seq::<char>::empty());
    assert(texts(out@).push(piece@) =~= split(chars@.take(0), sep));
    while i < chars.len()
        invariant
            0 <= i <= chars.len(),
            texts(out@).push(piece@) == split(chars@.take(i as int), sep),
        decreases chars.len() - i,
    {
        let ghost before = texts(out@);
        let ghost begun = piece@;
        let c = chars[i];
        assert(chars@.take(i + 1).drop_last() =~= chars@.take(i as int));
        assert(before.push(begun).drop_last() =~= before);
        if c == sep {
            proof {
                lemma_texts_push(out@, piece);
            }
            out.push(piece);
            piece = String::new();
        } else {
            piece.push(c);
        }
        i = i + 1;
    }
    assert(chars@.take(chars@.len() as int) =~= chars@);
    proof {
        lemma_texts_push(out@, piece);
    }
    out.push(piece);
    out
}

/// A text occurs in another where some stretch of it is that text.
pub proof fn law_occurrences(hay: Seq<char>, needle: Seq<char>)
    ensures
        occurs_in(hay, needle) <==> exists|at: int|
            0 <= at <= hay.len() - needle.len() && #[trigger] hay.subrange(at, at + needle.len())
                == needle,
{
    if occurs_in(hay, needle) {
        let at = choose|at: int| #[trigger] occurs_at(hay, needle, at);
        assert(hay.subrange(at, at + needle.len()) =~= needle);
    }
    if exists|at: int|
        0 <= at <= hay.len() - needle.len() && #[trigger] hay.subrange(at, at + needle.len())
            == needle {
        let at = choose|at: int|
            0 <= at <= hay.len() - needle.len() && #[trigger] hay.subrange(at, at + needle.len())
                == needle;
        assert(occurs_at(hay, needle, at));
    }
}

/// White space comes off both ends of a text, and nothing else does.
pub proof fn law_white_space_comes_off(front: Seq<char>, text: Seq<char>, back: Seq<char>)
    requires
        forall|i: int| 0 <= i < front.len() ==> white_space(#[trigger] front[i]),
        forall|i: int| 0 <= i < back.len() ==> white_space(#[trigger] back[i]),
        text.len() > 0,
        !white_space(text[0]) && !white_space(text.last()),
    ensures
        trimmed(front + text + back) == text,
{
    let whole = front + text + back;
    let n = front.len() as int;
    assert forall|k: int| 0 <= k < n implies white_space(#[trigger] whole[k]) by {
        assert(whole[k] == front[k]);
    }
    assert(whole[n] == text[0]);
    lemma_content_start(whole, n);
    let tail = whole.skip(n);
    assert(tail =~= text + back);
    lemma_content_end_before(text, back);
    assert((text + back).take(text.len() as int) =~= text);
}

proof fn lemma_content_end_before(text: Seq<char>, back: Seq<char>)
    requires
        forall|i: int| 0 <= i < back.len() ==> white_space(#[trigger] back[i]),
        text.len() > 0,
        !white_space(text.last()),
    ensures
        content_end(text + back) == text.len(),
    decreases back.len(),
{
    if back.len() == 0 {
        assert(text + back =~= text);
    } else {
        let init = back.drop_last();
        assert forall|i: int| 0 <= i < init.len() implies white_space(#[trigger] init[i]) by {
            assert(init[i] == back[i]);
        }
        lemma_content_end_before(text, init);
        assert((text + back).drop_last() =~= text + init);
        assert((text + back).last() == back[back.len() - 1]);
    }
}

/// Blank, tab and line breaks are white space; no other character that a plain
/// keyboard types is.
pub proof fn law_white_space_is_blank(c: char)
    ensures
        c == ' ' || c == '\t' || c == '\n' || c == '\r' ==> white_space(c),
        '!' <= c <= '~' ==> !white_space(c),
{
}

/// The digits of a number are those of its tenth and one more; below ten there is one.
/// Reading them from the left gives the number back.
pub proof fn law_digits_are_decimal(n: nat)
    ensures
        n < 10 ==> digits(n) == seq![digit_char(n)],
        n >= 10 ==> digits(n) == digits(n / 10).push(digit_char(n % 10)),
        digit_char(0) == '0' && digit_char(1) == '1' && digit_char(2) == '2' && digit_char(3) == '3'
            && digit_char(4) == '4' && digit_char(5) == '5' && digit_char(6) == '6' && digit_char(7)
            == '7' && digit_char(8) == '8' && digit_char(9) == '9',
{
}

/// Lower case changes the letters from `A` to `Z` and nothing else.
pub proof fn law_lower_case(text: Seq<char>, i: int)
    requires
        0 <= i < text.len(),
    ensures
        ascii_lowered(text).len() == text.len(),
        'A' <= text[i] <= 'Z' ==> ascii_lowered(text)[i] as u32 == text[i] as u32 + 32,
        !('A' <= text[i] <= 'Z') ==> ascii_lowered(text)[i] == text[i],
{
}

/// Texts compare by the first character in which they differ, and one that ends there
/// comes first.
pub proof fn law_texts_compare(p: Seq<char>, x: char, y: char, a: Seq<char>, b: Seq<char>)
    requires
        x != y,
    ensures
        text_order(p.push(x) + a, p.push(y) + b) == if (x as u32) < (y as u32) {
            Order::Before
        } else {
            Order::After
        },
        text_order(p, p.push(x) + a) == Order::Before,
        text_order(p.push(x) + a, p) == Order::After,
        text_order(p, p) == Order::Same,
{
    lemma_lex_prefix(char_order(), p, x, y, a, b);
    lemma_text_order_total();
    let f = lexed(char_order());
    assert(f(p, p) == f(p, p).flipped());
}

} // verus!
