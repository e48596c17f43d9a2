//! Link anchors for headings: spaces become hyphens, the text is lower-cased,
//! and its UTF-8 bytes are percent-encoded with the C0-control set.
use vstd::prelude::*;
use vstd::utf8::{encode_scalar, encode_utf8, is_ascii_chars, is_ascii_chars_encode_utf8};

use crate::text::{chars_of, lemma_replace_char_removes, replace_chars, replace_seq, string_of};

verus! {

/// The upper-case hexadecimal digit for `n` (`0 <= n < 16`).
pub open spec fn hex_upper(n: int) -> char {
    if n < 10 {
        (n + 48) as char
    } else {
        (n + 55) as char
    }
}

/// The bytes that the `CONTROLS` set encodes: C0 controls, DEL, and every
/// byte outside ASCII.
pub open spec fn is_encoded_byte(b: u8) -> bool {
    b < 0x20 || b >= 0x7f
}

/// The text that stands for one byte in percent-encoded output.
pub open spec fn percent_byte(b: u8) -> Seq<char> {
    if is_encoded_byte(b) {
        seq!['%', hex_upper(b as int / 16), hex_upper(b as int % 16)]
    } else {
        seq![b as char]
    }
}

/// Percent-encoding of `bytes` with the `CONTROLS` set, byte by byte.
pub open spec fn percent_encoded(bytes: Seq<u8>) -> Seq<char>
    decreases bytes.len(),
{
    if bytes.len() == 0 {
        Seq::<char>::empty()
    } else {
        percent_byte(bytes[0]) + percent_encoded(bytes.drop_first())
    }
}

/// The lower-case form of a text, as `str::to_lowercase` computes it from the
/// Unicode `Lowercase` mapping.
pub uninterp spec fn lowercase(s: Seq<char>) -> Seq<char>;

/// The anchor that a heading's title gets.
pub open spec fn slug_seq(title: Seq<char>) -> Seq<char> {
    percent_encoded(encode_utf8(lowercase(replace_seq(title, seq![' '], seq!['-']))))
}

/// `c` with `A` to `Z` turned into `a` to `z`.
pub open spec fn ascii_lower_char(c: char) -> char {
    if 'A' <= c && c <= 'Z' {
        ((c as u32) + 32) as char
    } else {
        c
    }
}

/// `s` with its ASCII upper-case letters turned into lower case.
pub open spec fn ascii_lower_seq(s: Seq<char>) -> Seq<char> {
    Seq::new(s.len(), |i: int| ascii_lower_char(s[i]))
}

/// Every character of `s` is printable ASCII (space to `~`).
pub open spec fn is_printable_ascii(s: Seq<char>) -> bool {
    forall|i: int| 0 <= i < s.len() ==> ' ' <= #[trigger] s[i] && s[i] <= '~'
}

/// A text that anchors keep as it is: printable ASCII without spaces or
/// upper-case letters.
pub open spec fn is_anchor_text(s: Seq<char>) -> bool {
    &&& is_printable_ascii(s)
    &&& forall|i: int| 0 <= i < s.len() ==> #[trigger] s[i] != ' ' && !('A' <= s[i] && s[i] <= 'Z')
}

/// `str::to_lowercase`: the result is named; of an ASCII text it is the text with
/// `A` to `Z` lowered, as the Unicode `Lowercase` mapping leaves every other ASCII
/// character unchanged; and no character but the space lower-cases to a space.
#[verifier::external_body]
fn to_lowercase(s: &str) -> (r: String)
    ensures
        r@ == lowercase(s@),
        is_ascii_chars(s@) ==> r@ == ascii_lower_seq(s@),
        !s@.contains(' ') ==> !r@.contains(' '),
{
    s.to_lowercase()
}

/// `percent_encoding::percent_encode(bytes, CONTROLS).to_string()`.  Its source
/// encodes a byte as `%` and two upper-case hex digits exactly when the byte is
/// not ASCII or is in `CONTROLS` (0x00 to 0x1F and 0x7F), and copies every other
/// byte as the ASCII character it is.
#[verifier::external_body]
fn percent_encode_controls(bytes: &[u8]) -> (r: String)
    ensures
        r@ == percent_encoded(bytes@),
{
    percent_encoding::percent_encode(bytes, percent_encoding::CONTROLS).to_string()
}

/// The link anchor of a heading title: spaces replaced by `-`, lower-cased, then
/// percent-encoded.
pub fn slugify(text: &str) -> (r: String)
    ensures
        r@ == slug_seq(text@),
        is_printable_ascii(text@) ==> r@ == ascii_lower_seq(
            replace_seq(text@, seq![' '], seq!['-']),
        ),
        is_printable_ascii(text@) ==> is_anchor_text(r@),
        is_anchor_text(text@) ==> r@ == text@,
        !r@.contains(' '),
{
    let chars = chars_of(text);
    let space = vec![' '];
    let hyphen = vec!['-'];
    proof {
        assert(space@ =~= seq![' ']);
        assert(hyphen@ =~= seq!['-']);
    }
    let hyphenated = replace_chars(&chars, &space, &hyphen);
    let hyphenated = string_of(&hyphenated);
    proof {
        lemma_replace_single_char(text@, ' ', '-');
        if is_printable_ascii(text@) {
            assert(is_ascii_chars(hyphenated@));
        }
    }
    let lower = to_lowercase(hyphenated.as_str());
    let r = percent_encode_controls(lower.as_str().as_bytes());
    proof {
        lemma_slug_input_has_no_space(text@);
        assert(!hyphenated@.contains(' '));
        lemma_encode_utf8_no_space(lower@);
        lemma_percent_encoded_no_space(encode_utf8(lower@));
        if is_printable_ascii(text@) {
            let h = hyphenated@;
            let l = ascii_lower_seq(h);
            assert(lower@ == l);
            assert(is_ascii_chars(l));
            is_ascii_chars_encode_utf8(l);
            let b = encode_utf8(l);
            assert forall|i: int| 0 <= i < b.len() implies 0x20 <= #[trigger] b[i] && b[i] <= 0x7e by {
                assert(l[i] as u8 == b[i]);
                assert(' ' <= l[i] && l[i] <= '~');
            }
            lemma_percent_encoded_plain(b);
            assert(r@ =~= l) by {
                assert forall|i: int| 0 <= i < l.len() implies r@[i] == l[i] by {
                    assert(l[i] as u8 == b[i]);
                    assert(r@[i] == b[i] as char);
                }
            }
            assert(is_anchor_text(r@)) by {
                assert forall|i: int| 0 <= i < r@.len() implies #[trigger] r@[i] != ' ' && !(
                'A' <= r@[i] && r@[i] <= 'Z') && ' ' <= r@[i] && r@[i] <= '~' by {
                    assert(r@[i] == ascii_lower_char(h[i]));
                    assert(h[i] != ' ');
                }
            }
        }
        if is_anchor_text(text@) {
            assert(hyphenated@ =~= text@);
            assert(ascii_lower_seq(text@) =~= text@);
        }
    }
    r
}

/// Replacing one character by another maps each character on its own.
pub proof fn lemma_replace_single_char(s: Seq<char>, c: char, d: char)
    ensures
        replace_seq(s, seq![c], seq![d]) == Seq::new(
            s.len(),
            |i: int|
                if s[i] == c {
                    d
                } else {
                    s[i]
                },
        ),
    decreases s.len(),
{
    let m = Seq::new(s.len(), |i: int| if s[i] == c { d } else { s[i] });
    if s.len() > 0 {
        lemma_replace_single_char(s.drop_first(), c, d);
        let rest = replace_seq(s.drop_first(), seq![c], seq![d]);
        if s.subrange(0, 1) == seq![c] {
            assert(s.subrange(0, 1)[0] == s[0]);
            assert(s.skip(1) =~= s.drop_first());
            assert(replace_seq(s, seq![c], seq![d]) =~= seq![d] + rest);
        } else {
            assert(s[0] != c) by {
                if s[0] == c {
                    assert(s.subrange(0, 1) =~= seq![c]);
                }
            }
            assert(replace_seq(s, seq![c], seq![d]) =~= seq![s[0]] + rest);
        }
        assert(replace_seq(s, seq![c], seq![d]) =~= m);
    } else {
        assert(replace_seq(s, seq![c], seq![d]) =~= m);
    }
}

/// Bytes that are all printable ASCII are percent-encoded as themselves.
pub proof fn lemma_percent_encoded_plain(bytes: Seq<u8>)
    requires
        forall|i: int| 0 <= i < bytes.len() ==> 0x20 <= #[trigger] bytes[i] && bytes[i] <= 0x7e,
    ensures
        percent_encoded(bytes).len() == bytes.len(),
        forall|i: int| 0 <= i < bytes.len() ==> #[trigger] percent_encoded(bytes)[i] == bytes[i] as char,
    decreases bytes.len(),
{
    if bytes.len() > 0 {
        lemma_percent_encoded_plain(bytes.drop_first());
        let tail = percent_encoded(bytes.drop_first());
        assert(percent_encoded(bytes) == seq![bytes[0] as char] + tail);
        assert forall|i: int| 0 <= i < bytes.len() implies #[trigger] percent_encoded(bytes)[i]
            == bytes[i] as char by {
            if i > 0 {
                assert(bytes.drop_first()[i - 1] == bytes[i]);
            }
        }
    }
}

/// A percent-encoded text holds only printable ASCII characters: no control
/// character, no DEL and nothing outside ASCII.
pub proof fn lemma_percent_encoded_printable(bytes: Seq<u8>)
    ensures
        forall|i: int|
            0 <= i < percent_encoded(bytes).len() ==> ' ' <= #[trigger] percent_encoded(bytes)[i]
                <= '~',
    decreases bytes.len(),
{
    if bytes.len() > 0 {
        lemma_percent_encoded_printable(bytes.drop_first());
        let b = bytes[0];
        let head = percent_byte(b);
        let tail = percent_encoded(bytes.drop_first());
        assert(percent_encoded(bytes) == head + tail);
        assert forall|i: int| 0 <= i < head.len() implies ' ' <= #[trigger] head[i] <= '~' by {
            if is_encoded_byte(b) {
                assert(0 <= b as int / 16 < 16);
                assert(0 <= b as int % 16 < 16);
            }
        }
        assert forall|i: int|
            0 <= i < percent_encoded(bytes).len() implies ' ' <= #[trigger] percent_encoded(
            bytes,
        )[i] <= '~' by {
            if i < head.len() {
                assert(percent_encoded(bytes)[i] == head[i]);
            } else {
                assert(percent_encoded(bytes)[i] == tail[i - head.len()]);
            }
        }
    }
}

/// Every anchor that `slugify` produces consists of printable ASCII characters
/// only, whatever the title.
pub proof fn lemma_slug_printable(title: Seq<char>)
    ensures
        forall|i: int| 0 <= i < slug_seq(title).len() ==> ' ' <= #[trigger] slug_seq(title)[i] <= '~',
{
    lemma_percent_encoded_printable(
        encode_utf8(lowercase(replace_seq(title, seq![' '], seq!['-']))),
    );
}

/// The text that is lower-cased for an anchor holds no space: each one has
/// become a hyphen.
pub proof fn lemma_slug_input_has_no_space(title: Seq<char>)
    ensures
        forall|i: int|
            0 <= i < replace_seq(title, seq![' '], seq!['-']).len() ==> #[trigger] replace_seq(
                title,
                seq![' '],
                seq!['-'],
            )[i] != ' ',
{
    lemma_replace_char_removes(title, ' ', '-');
}

/// The UTF-8 encoding of a character other than the space holds no space byte:
/// a one-byte encoding is the character itself, and every byte of a longer one
/// has its high bit set.
proof fn lemma_encode_scalar_no_space(c: u32)
    requires
        c != 0x20,
    ensures
        forall|k: int| 0 <= k < encode_scalar(c).len() ==> #[trigger] encode_scalar(c)[k] != 0x20u8,
{
    assert(forall|y: u8| #[trigger] (0x80u8 | y) >= 0x80u8) by (bit_vector);
    assert(forall|y: u8| #[trigger] (0xC0u8 | y) >= 0x80u8) by (bit_vector);
    assert(forall|y: u8| #[trigger] (0xE0u8 | y) >= 0x80u8) by (bit_vector);
    assert(forall|y: u8| #[trigger] (0xF0u8 | y) >= 0x80u8) by (bit_vector);
    assert(c <= 0x7f && c != 0x20 ==> (c & 0x7f) as u8 != 0x20u8) by (bit_vector);
}

/// The UTF-8 encoding of a text without spaces holds no space byte.
pub proof fn lemma_encode_utf8_no_space(s: Seq<char>)
    requires
        !s.contains(' '),
    ensures
        forall|i: int| 0 <= i < encode_utf8(s).len() ==> #[trigger] encode_utf8(s)[i] != 0x20u8,
    decreases s.len(),
{
    if s.len() > 0 {
        let rest = s.drop_first();
        assert(!rest.contains(' ')) by {
            if rest.contains(' ') {
                let j = choose|j: int| 0 <= j < rest.len() && rest[j] == ' ';
                assert(s[j + 1] == ' ');
            }
        }
        lemma_encode_utf8_no_space(rest);
        assert(s[0] != ' ');
        vstd::utf8::char_u32_cast(s[0], s[0] as u32);
        if (s[0] as u32) == 0x20u32 {
            assert((0x20u32 as char) == ' ');
        }
        lemma_encode_scalar_no_space(s[0] as u32);
        let head = encode_scalar(s[0] as u32);
        assert forall|i: int| 0 <= i < encode_utf8(s).len() implies #[trigger] encode_utf8(s)[i]
            != 0x20u8 by {
            if i < head.len() {
                assert(encode_utf8(s)[i] == head[i]);
            } else {
                assert(encode_utf8(s)[i] == encode_utf8(rest)[i - head.len()]);
            }
        }
    }
}

/// Percent-encoding bytes without a space byte gives a text without spaces.
pub proof fn lemma_percent_encoded_no_space(bytes: Seq<u8>)
    requires
        forall|i: int| 0 <= i < bytes.len() ==> #[trigger] bytes[i] != 0x20u8,
    ensures
        !percent_encoded(bytes).contains(' '),
    decreases bytes.len(),
{
    if bytes.len() > 0 {
        lemma_percent_encoded_no_space(bytes.drop_first());
        let b = bytes[0];
        let head = percent_byte(b);
        let tail = percent_encoded(bytes.drop_first());
        assert(percent_encoded(bytes) == head + tail);
        if is_encoded_byte(b) {
            assert(0 <= b as int / 16 < 16);
            assert(0 <= b as int % 16 < 16);
        }
        assert forall|i: int| 0 <= i < head.len() implies #[trigger] head[i] != ' ' by {}
        if percent_encoded(bytes).contains(' ') {
            let j = choose|j: int| 0 <= j < percent_encoded(bytes).len() && percent_encoded(bytes)[j] == ' ';
            if j < head.len() {
                assert(head[j] == ' ');
            } else {
                assert(tail[j - head.len()] == ' ');
            }
        }
    }
}

} // verus!
