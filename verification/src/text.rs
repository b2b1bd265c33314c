//! Text out of bytes and numbers.
use vstd::prelude::*;
use vstd::string::StrSliceExecFns;

verus! {

/// The text that `bytes` encode in UTF-8, `None` if they are not valid UTF-8.
///
/// Calls `core::str::from_utf8`. Taken on trust: it accepts exactly the valid
/// encodings, and what it gives back is the text whose encoding was passed in.
#[verifier::external_body]
pub(crate) fn utf8(bytes: &[u8]) -> (r: Option<&str>)
    ensures
        r is Some <==> vstd::utf8::valid_utf8(bytes@),
        r matches Some(s) ==> s@ == vstd::utf8::decode_utf8(bytes@),
{
    core::str::from_utf8(bytes).ok()
}

/// The character with this code, `None` if there is none.
///
/// Calls `char::from_u32`. Taken on trust: it accepts exactly the codes up to
/// 0x10FFFF that are not surrogates, and gives back the character of that code.
#[verifier::external_body]
pub(crate) fn scalar(code: u32) -> (r: Option<char>)
    ensures
        r is Some <==> is_scalar(code as int),
        r matches Some(c) ==> c as u32 == code,
{
    char::from_u32(code)
}

/// Appends a character.
///
/// Calls `String::push`. Taken on trust: the text afterwards is the text before
/// with the character at its end.
#[verifier::external_body]
pub(crate) fn push_char(s: &mut String, c: char)
    ensures
        final(s)@ == old(s)@.push(c),
{
    s.push(c)
}

/// Whether a code is that of a character.
pub open spec fn is_scalar(code: int) -> bool {
    0 <= code < 0xD800 || 0xDFFF < code <= 0x10FFFF
}

/// Whether two texts are the same.
pub fn same_text(a: &str, b: &str) -> (r: bool)
    ensures
        r == (a@ == b@),
{
    broadcast use vstd::utf8::encode_utf8_decode_utf8;

    let x = a.as_bytes();
    let y = b.as_bytes();
    assert(vstd::utf8::decode_utf8(x@) == a@);
    assert(vstd::utf8::decode_utf8(y@) == b@);
    if x.len() != y.len() {
        return false;
    }
    let mut i: usize = 0;
    while i < x.len()
        invariant
            i <= x@.len(),
            x@.len() == y@.len(),
            x@ == vstd::utf8::encode_utf8(a@),
            y@ == vstd::utf8::encode_utf8(b@),
            forall|j: int| 0 <= j < i ==> #[trigger] x@[j] == y@[j],
        decreases x@.len() - i,
    {
        if x[i] != y[i] {
            return false;
        }
        i += 1;
    }
    assert(x@ =~= y@);
    true
}

// --- UTF-16 --------------------------------------------------------------------

/// What stands for a unit that is no part of a character.
pub const REPLACEMENT: char = '\u{FFFD}';

/// The first unit of a pair.
pub open spec fn is_high(u: u16) -> bool {
    0xD800 <= u < 0xDC00
}

/// The second unit of a pair.
pub open spec fn is_low(u: u16) -> bool {
    0xDC00 <= u <= 0xDFFF
}

/// The code of a pair.
pub open spec fn pair_code(high: u16, low: u16) -> int {
    0x1_0000 + 0x400 * (high - 0xD800) + (low - 0xDC00)
}

/// The text that the units from `i` on encode in UTF-16. A surrogate that is
/// not part of a pair becomes [`REPLACEMENT`].
pub open spec fn decode_utf16(units: Seq<u16>, i: int) -> Seq<char>
    decreases units.len() - i,
{
    if i >= units.len() {
        Seq::empty()
    } else {
        let u = units[i];
        if is_high(u) && i + 1 < units.len() && is_low(units[i + 1]) {
            seq![(pair_code(u, units[i + 1]) as u32) as char] + decode_utf16(units, i + 2)
        } else if is_high(u) || is_low(u) {
            seq![REPLACEMENT] + decode_utf16(units, i + 1)
        } else {
            seq![(u as u32) as char] + decode_utf16(units, i + 1)
        }
    }
}

/// The text that units of UTF-16 encode.
pub fn from_utf16(units: &Vec<u16>) -> (r: String)
    ensures
        r@ == decode_utf16(units@, 0),
{
    let mut out = String::new();
    let mut i: usize = 0;
    assert(out@ + decode_utf16(units@, 0) =~= decode_utf16(units@, 0));
    while i < units.len()
        invariant
            i <= units@.len(),
            out@ + decode_utf16(units@, i as int) == decode_utf16(units@, 0),
        decreases units@.len() - i,
    {
        let u = units[i];
        let ghost before = out@;
        if 0xD800 <= u && u < 0xDC00 && i + 1 < units.len() && 0xDC00 <= units[i + 1] && units[i
            + 1] <= 0xDFFF {
            let code = 0x1_0000 + 0x400 * (u as u32 - 0xD800) + (units[i + 1] as u32 - 0xDC00);
            let c = match scalar(code) {
                Some(c) => c,
                None => REPLACEMENT,
            };
            push_char(&mut out, c);
            proof {
                vstd::utf8::char_u32_cast(c, code);
            }
            assert(out@ + decode_utf16(units@, i + 2) =~= before + decode_utf16(
                units@,
                i as int,
            ));
            i += 2;
        } else if 0xD800 <= u && u <= 0xDFFF {
            push_char(&mut out, REPLACEMENT);
            assert(out@ + decode_utf16(units@, i + 1) =~= before + decode_utf16(
                units@,
                i as int,
            ));
            i += 1;
        } else {
            let c = match scalar(u as u32) {
                Some(c) => c,
                None => REPLACEMENT,
            };
            push_char(&mut out, c);
            proof {
                vstd::utf8::char_u32_cast(c, u as u32);
            }
            assert(out@ + decode_utf16(units@, i + 1) =~= before + decode_utf16(
                units@,
                i as int,
            ));
            i += 1;
        }
    }
    assert(out@ + Seq::<char>::empty() =~= out@);
    out
}

// --- texts that may be broken ------------------------------------------------------

/// What `String::from_utf8_lossy` makes of these bytes.
pub uninterp spec fn lossy_text(bytes: Seq<u8>) -> Seq<char>;

/// The text in these bytes, with a replacement character for what is not UTF-8.
///
/// Calls `String::from_utf8_lossy`. Taken on trust: the text depends on the bytes
/// alone, and bytes that are valid UTF-8 give the text that they encode.
#[verifier::external_body]
pub(crate) fn from_utf8_lossy(bytes: &[u8]) -> (r: String)
    ensures
        r@ == lossy_text(bytes@),
        vstd::utf8::valid_utf8(bytes@) ==> r@ == vstd::utf8::decode_utf8(bytes@),
{
    String::from_utf8_lossy(bytes).into_owned()
}

// --- words -------------------------------------------------------------------------

/// Whether a character is white space.
pub open spec fn is_space(c: char) -> bool {
    let u = c as u32;
    ||| 0x09 <= u <= 0x0D
    ||| u == 0x20
    ||| u == 0x85
    ||| u == 0xA0
    ||| u == 0x1680
    ||| 0x2000 <= u <= 0x200A
    ||| u == 0x2028
    ||| u == 0x2029
    ||| u == 0x202F
    ||| u == 0x205F
    ||| u == 0x3000
}

fn white_space(c: char) -> (r: bool)
    ensures
        r == is_space(c),
{
    let u = c as u32;
    (0x09 <= u && u <= 0x0D) || u == 0x20 || u == 0x85 || u == 0xA0 || u == 0x1680 || (0x2000 <= u
        && u <= 0x200A) || u == 0x2028 || u == 0x2029 || u == 0x202F || u == 0x205F || u == 0x3000
}

/// Where the word ends that `i` is in.
pub open spec fn word_end(s: Seq<char>, i: int) -> int
    decreases s.len() - i,
{
    if i >= s.len() || is_space(s[i]) {
        i
    } else {
        word_end(s, i + 1)
    }
}

/// A word ends behind its start and inside the text.
pub proof fn lemma_word_end(s: Seq<char>, i: int)
    requires
        0 <= i <= s.len(),
    ensures
        i <= word_end(s, i) <= s.len(),
        forall|j: int| i <= j < word_end(s, i) ==> !is_space(#[trigger] s[j]),
    decreases s.len() - i,
{
    if i < s.len() && !is_space(s[i]) {
        lemma_word_end(s, i + 1);
    }
}

/// The words of a text from `i` on: what white space parts.
pub open spec fn words(s: Seq<char>, i: int) -> Seq<Seq<char>>
    decreases s.len() - i,
{
    if i < 0 || i >= s.len() {
        Seq::empty()
    } else if is_space(s[i]) {
        words(s, i + 1)
    } else {
        proof {
            lemma_word_end(s, i + 1);
        }
        seq![s.subrange(i, word_end(s, i))] + words(s, word_end(s, i))
    }
}

/// What a list of texts says.
pub open spec fn texts(s: Seq<&str>) -> Seq<Seq<char>> {
    s.map_values(|t: &str| t@)
}

/// The words of a text.
pub fn split_whitespace<'a>(s: &'a str) -> (r: Vec<&'a str>)
    ensures
        texts(r@) == words(s@, 0),
{
    let mut out: Vec<&'a str> = Vec::new();
    let len = s.unicode_len();
    let mut i: usize = 0;
    proof {
        assert(texts(out@) =~= Seq::<Seq<char>>::empty());
        assert(texts(out@) + words(s@, 0) =~= words(s@, 0));
    }
    while i < len
        invariant
            i <= len,
            len == s@.len(),
            texts(out@) + words(s@, i as int) == words(s@, 0),
        decreases len - i,
    {
        if white_space(s.get_char(i)) {
            i += 1;
        } else {
            let mut end: usize = i + 1;
            while end < len && !white_space(s.get_char(end))
                invariant
                    i < end <= len,
                    len == s@.len(),
                    word_end(s@, end as int) == word_end(s@, i as int),
                ensures
                    i < end <= len,
                    end == word_end(s@, i as int),
                decreases len - end,
            {
                end += 1;
            }
            let word = s.substring_char(i, end);
            let ghost before = texts(out@);
            out.push(word);
            proof {
                assert(texts(out@) =~= before.push(word@));
                assert(before + (seq![word@] + words(s@, end as int)) =~= texts(out@) + words(
                    s@,
                    end as int,
                ));
            }
            i = end;
        }
    }
    assert(texts(out@) + Seq::<Seq<char>>::empty() =~= texts(out@));
    out
}

/// A word is never empty and holds no white space.
pub proof fn law_words_are_solid(s: Seq<char>, i: int, k: int)
    requires
        0 <= i,
        0 <= k < words(s, i).len(),
    ensures
        words(s, i)[k].len() > 0,
        forall|j: int| 0 <= j < words(s, i)[k].len() ==> !is_space(#[trigger] words(s, i)[k][j]),
    decreases s.len() - i,
{
    if is_space(s[i]) {
        law_words_are_solid(s, i + 1, k);
    } else {
        let end = word_end(s, i);
        lemma_word_end(s, i + 1);
        lemma_word_end(s, i);
        let first = s.subrange(i, end);
        if k > 0 {
            law_words_are_solid(s, end, k - 1);
            assert(words(s, i)[k] == words(s, end)[k - 1]);
        } else {
            assert(words(s, i)[0] == first);
            assert forall|j: int| 0 <= j < first.len() implies !is_space(#[trigger] first[j]) by {
                assert(first[j] == s[i + j]);
            }
        }
    }
}

/// Blanks, tabs and line ends part words; letters, digits and signs do not.
pub proof fn law_blanks_are_space(c: char)
    ensures
        c == ' ' || c == '\t' || c == '\n' || c == '\r' ==> is_space(c),
        0x21 <= c as u32 <= 0x7E ==> !is_space(c),
{
}

/// The words of a text are those before a blank and those behind it.
pub proof fn law_words_part_at_blanks(a: Seq<char>, c: char, b: Seq<char>)
    requires
        is_space(c),
    ensures
        words(a + seq![c] + b, 0) == words(a, 0) + words(b, 0),
{
    lemma_words_before(a, c, b, 0);
}

/// A text without blanks is one word, and an empty one is none.
pub proof fn law_solid_text_is_a_word(s: Seq<char>)
    requires
        forall|i: int| 0 <= i < s.len() ==> !is_space(#[trigger] s[i]),
    ensures
        s.len() > 0 ==> words(s, 0) == seq![s],
        s.len() == 0 ==> words(s, 0) == Seq::<Seq<char>>::empty(),
{
    if s.len() > 0 {
        assert(!is_space(s[0]));
        lemma_solid_end(s, 0);
        assert(s.subrange(0, s.len() as int) =~= s);
        assert(words(s, s.len() as int) =~= Seq::<Seq<char>>::empty());
        assert(words(s, 0) =~= seq![s]);
    }
}

proof fn lemma_solid_end(s: Seq<char>, i: int)
    requires
        0 <= i <= s.len(),
        forall|i: int| 0 <= i < s.len() ==> !is_space(#[trigger] s[i]),
    ensures
        word_end(s, i) == s.len(),
    decreases s.len() - i,
{
    if i < s.len() {
        assert(!is_space(s[i]));
        lemma_solid_end(s, i + 1);
    }
}

proof fn lemma_words_before(a: Seq<char>, c: char, b: Seq<char>, i: int)
    requires
        is_space(c),
        0 <= i <= a.len(),
    ensures
        words(a + seq![c] + b, i) == words(a, i) + words(b, 0),
    decreases a.len() - i,
{
    let s = a + seq![c] + b;
    if i == a.len() {
        assert(s[i] == c);
        lemma_words_behind(a, c, b, 0);
        assert(words(a, i) + words(b, 0) =~= words(b, 0));
    } else {
        assert(s[i] == a[i]);
        if is_space(a[i]) {
            lemma_words_before(a, c, b, i + 1);
        } else {
            lemma_same_word_end(a, c, b, i);
            lemma_word_end(a, i + 1);
            let end = word_end(a, i);
            assert(s.subrange(i, end) =~= a.subrange(i, end));
            lemma_words_before(a, c, b, end);
            assert(words(s, i) =~= words(a, i) + words(b, 0));
        }
    }
}

proof fn lemma_words_behind(a: Seq<char>, c: char, b: Seq<char>, k: int)
    requires
        is_space(c),
        0 <= k <= b.len(),
    ensures
        words(a + seq![c] + b, a.len() + 1 + k) == words(b, k),
    decreases b.len() - k,
{
    let s = a + seq![c] + b;
    let at = a.len() + 1 + k;
    if k < b.len() {
        assert(s[at] == b[k]);
        if is_space(b[k]) {
            lemma_words_behind(a, c, b, k + 1);
        } else {
            lemma_later_word_end(a, c, b, k);
            lemma_word_end(b, k + 1);
            let end = word_end(b, k);
            assert(s.subrange(at, a.len() + 1 + end) =~= b.subrange(k, end));
            lemma_words_behind(a, c, b, end);
        }
    }
}

proof fn lemma_same_word_end(a: Seq<char>, c: char, b: Seq<char>, i: int)
    requires
        is_space(c),
        0 <= i <= a.len(),
    ensures
        word_end(a + seq![c] + b, i) == word_end(a, i),
    decreases a.len() - i,
{
    let s = a + seq![c] + b;
    if i == a.len() {
        assert(s[i] == c);
    } else {
        assert(s[i] == a[i]);
        if !is_space(a[i]) {
            lemma_same_word_end(a, c, b, i + 1);
        }
    }
}

proof fn lemma_later_word_end(a: Seq<char>, c: char, b: Seq<char>, k: int)
    requires
        0 <= k <= b.len(),
    ensures
        word_end(a + seq![c] + b, a.len() + 1 + k) == a.len() + 1 + word_end(b, k),
    decreases b.len() - k,
{
    let s = a + seq![c] + b;
    if k < b.len() {
        assert(s[a.len() + 1 + k] == b[k]);
        if !is_space(b[k]) {
            lemma_later_word_end(a, c, b, k + 1);
        }
    }
}

/// A text in UTF-16: one unit for a character below 0x10000, two for any other, ten
/// bits of what is above 0x10000 in each.
pub open spec fn encode_utf16(s: Seq<char>) -> Seq<u16>
    decreases s.len(),
{
    if s.len() == 0 {
        Seq::empty()
    } else {
        let c = s[0] as u32;
        let rest = encode_utf16(s.skip(1));
        if c < 0x1_0000 {
            seq![c as u16] + rest
        } else {
            seq![
                (0xD800 + (c - 0x1_0000) / 0x400) as u16,
                (0xDC00 + (c - 0x1_0000) % 0x400) as u16,
            ] + rest
        }
    }
}

/// What was encoded is decoded to what it was, behind whatever comes before it.
pub proof fn law_utf16_reads_back(before: Seq<u16>, s: Seq<char>)
    ensures
        decode_utf16(before + encode_utf16(s), before.len() as int) == s,
    decreases s.len(),
{
    let units = before + encode_utf16(s);
    let n = before.len() as int;
    if s.len() > 0 {
        let c = s[0] as u32;
        let rest = encode_utf16(s.skip(1));
        vstd::utf8::char_is_scalar(s[0]);
        if c < 0x1_0000 {
            let u = c as u16;
            assert(units =~= before.push(u) + rest);
            law_utf16_reads_back(before.push(u), s.skip(1));
            assert(units[n] == u);
            vstd::utf8::char_u32_cast(s[0], c);
            assert(decode_utf16(units, n) =~= seq![s[0]] + s.skip(1));
        } else {
            assert(c <= 0x10_FFFF);
            assert(0 <= (c - 0x1_0000) / 0x400 < 0x400 && 0 <= (c - 0x1_0000) % 0x400 < 0x400);
            let high = (0xD800 + (c - 0x1_0000) / 0x400) as u16;
            let low = (0xDC00 + (c - 0x1_0000) % 0x400) as u16;
            assert(units =~= before.push(high).push(low) + rest);
            law_utf16_reads_back(before.push(high).push(low), s.skip(1));
            assert(units[n] == high && units[n + 1] == low);
            assert(pair_code(high, low) == c);
            vstd::utf8::char_u32_cast(s[0], c);
            assert(decode_utf16(units, n) =~= seq![s[0]] + s.skip(1));
        }
        assert(seq![s[0]] + s.skip(1) =~= s);
    } else {
        assert(decode_utf16(units, n) =~= s);
    }
}

/// A surrogate that is not part of a pair becomes the replacement character, and the
/// text goes on behind it.
pub proof fn law_lone_surrogates_are_replaced(units: Seq<u16>, i: int)
    requires
        0 <= i < units.len(),
        0xD800 <= units[i] <= 0xDFFF,
        units[i] >= 0xDC00 || i + 1 == units.len() || !(0xDC00 <= units[i + 1] <= 0xDFFF),
    ensures
        decode_utf16(units, i) == seq!['\u{FFFD}'] + decode_utf16(units, i + 1),
{
}

} // verus!
