//! The small encodings every page relies on: percent-encoding for URLs, escaping for XML,
//! comment-safe and file-name-safe text, and the short form of a commit hash.

use vstd::prelude::*;
use vstd::string::StringSliceAdditionalSpecFns;
use crate::text::{append_text, chars_of, push_char};

verus! {

// ---------------------------------------------------------------------------
// Percent-encoding.

/// The bytes a URL path segment or query value carries as they are.
pub open spec fn unreserved(b: u8) -> bool {
    (65 <= b && b <= 90) || (97 <= b && b <= 122) || (48 <= b && b <= 57) || b == 45 || b == 95
        || b == 46 || b == 126
}

/// An upper-case hexadecimal digit.
pub open spec fn hex_upper(d: int) -> char {
    if d < 10 {
        (48 + d) as char
    } else {
        (55 + d) as char
    }
}

/// One byte as a URL carries it: itself when unreserved, `%XX` otherwise.
pub open spec fn encode_byte(b: u8) -> Seq<char> {
    if unreserved(b) {
        seq![b as char]
    } else {
        seq!['%', hex_upper((b / 16) as int), hex_upper((b % 16) as int)]
    }
}

/// The percent-encoding of a byte string.
pub open spec fn percent_encode(bs: Seq<u8>) -> Seq<char>
    decreases bs.len(),
{
    if bs.len() == 0 {
        Seq::empty()
    } else {
        encode_byte(bs[0]) + percent_encode(bs.drop_first())
    }
}

proof fn lemma_percent_encode_snoc(bs: Seq<u8>, b: u8)
    ensures
        percent_encode(bs.push(b)) == percent_encode(bs) + encode_byte(b),
    decreases bs.len(),
{
    if bs.len() == 0 {
        assert(bs.push(b).drop_first() =~= Seq::<u8>::empty());
        assert(percent_encode(Seq::<u8>::empty()) =~= Seq::<char>::empty());
        assert(percent_encode(bs.push(b)) =~= encode_byte(b));
        assert(percent_encode(bs) + encode_byte(b) =~= encode_byte(b));
    } else {
        lemma_percent_encode_snoc(bs.drop_first(), b);
        assert(bs.push(b).drop_first() =~= bs.drop_first().push(b));
        assert(percent_encode(bs.push(b)) =~= encode_byte(bs[0]) + (percent_encode(bs.drop_first()) + encode_byte(b)));
    }
}

fn hex_digit(d: u8) -> (c: char)
    requires
        d < 16,
    ensures
        c == hex_upper(d as int),
{
    if d < 10 {
        (48 + d) as char
    } else {
        (55 + d) as char
    }
}

/// Percent-encode a value for use in a URL PATH SEGMENT or QUERY STRING: every byte of its
/// UTF-8 encoding outside `A-Z a-z 0-9 - _ . ~` becomes `%XX`.
///
/// HTML escaping is a different job and does not cover this: a branch named `a&b` is
/// perfectly safe to put in a document but produces a query string that means something
/// else, so the link silently points at the wrong thing.
pub fn urlencode(value: &str) -> (r: String)
    ensures
        r@ == percent_encode(value.spec_bytes()),
{
    let bytes = value.as_bytes();
    let mut out = String::new();
    let mut i: usize = 0;
    proof {
        assert(bytes@.take(0) =~= Seq::<u8>::empty());
    }
    while i < bytes.len()
        invariant
            bytes@ == value.spec_bytes(),
            i <= bytes@.len(),
            out@ == percent_encode(bytes@.take(i as int)),
        decreases bytes@.len() - i,
    {
        let byte = bytes[i];
        proof {
            lemma_percent_encode_snoc(bytes@.take(i as int), byte);
            assert(bytes@.take(i + 1) =~= bytes@.take(i as int).push(byte));
        }
        if (65 <= byte && byte <= 90) || (97 <= byte && byte <= 122) || (48 <= byte && byte <= 57)
            || byte == 45 || byte == 95 || byte == 46 || byte == 126 {
            push_char(&mut out, byte as char);
        } else {
            push_char(&mut out, '%');
            push_char(&mut out, hex_digit(byte / 16));
            push_char(&mut out, hex_digit(byte % 16));
        }
        proof {
            assert(out@ =~= percent_encode(bytes@.take(i as int)) + encode_byte(byte));
        }
        i = i + 1;
    }
    proof {
        assert(bytes@.take(i as int) =~= bytes@);
    }
    out
}


/// The value of a hexadecimal digit.
pub open spec fn hex_value(c: char) -> int {
    if '0' <= c && c <= '9' {
        c as int - 48
    } else if 'A' <= c && c <= 'F' {
        c as int - 55
    } else if 'a' <= c && c <= 'f' {
        c as int - 87
    } else {
        0
    }
}

/// Percent-decoding, as a server reads a path segment or query value back: `%XX` is the byte
/// XX, any other character is itself.
pub open spec fn percent_decode(s: Seq<char>) -> Seq<u8>
    decreases s.len(),
{
    if s.len() == 0 {
        Seq::empty()
    } else if s[0] == '%' && s.len() >= 3 {
        seq![(hex_value(s[1]) * 16 + hex_value(s[2])) as u8] + percent_decode(s.skip(3))
    } else {
        seq![s[0] as u8] + percent_decode(s.drop_first())
    }
}

proof fn lemma_hex_round_trip(d: int)
    requires
        0 <= d < 16,
    ensures
        hex_value(hex_upper(d)) == d,
{
}

/// A character a URL carries: `%`, or an unreserved ASCII character (the digits and the
/// upper-case letters of `%XX` among them).
pub open spec fn url_char(c: char) -> bool {
    c == '%' || url_safe(c)
}

/// A byte string read as characters, byte for byte.
pub open spec fn as_chars(bs: Seq<u8>) -> Seq<char> {
    bs.map_values(|b: u8| b as char)
}

proof fn lemma_encode_len(bs: Seq<u8>)
    ensures
        percent_encode(bs).len() >= bs.len(),
        (exists|i: int| 0 <= i < bs.len() && !unreserved(#[trigger] bs[i])) ==> percent_encode(bs).len() > bs.len(),
        (forall|i: int| 0 <= i < bs.len() ==> unreserved(#[trigger] bs[i])) ==> percent_encode(bs) == as_chars(bs),
        forall|i: int| 0 <= i < percent_encode(bs).len() ==> url_char(#[trigger] percent_encode(bs)[i]),
    decreases bs.len(),
{
    if bs.len() > 0 {
        let rest = bs.drop_first();
        lemma_encode_len(rest);
        let b = bs[0];
        let e = encode_byte(b) + percent_encode(rest);
        assert(percent_encode(bs) == e);
        if exists|i: int| 0 <= i < bs.len() && !unreserved(#[trigger] bs[i]) {
            let i = choose|i: int| 0 <= i < bs.len() && !unreserved(#[trigger] bs[i]);
            if i > 0 {
                assert(rest[i - 1] == bs[i]);
            }
        }
        if forall|i: int| 0 <= i < bs.len() ==> unreserved(#[trigger] bs[i]) {
            assert(unreserved(bs[0]));
            assert forall|i: int| 0 <= i < rest.len() implies unreserved(#[trigger] rest[i]) by {
                assert(rest[i] == bs[i + 1]);
            }
            assert(as_chars(bs) =~= seq![b as char] + as_chars(rest));
        }
        let h1 = hex_upper((b / 16) as int);
        let h2 = hex_upper((b % 16) as int);
        assert(url_char(h1) && url_char(h2));
        assert forall|i: int| 0 <= i < e.len() implies url_char(#[trigger] e[i]) by {
            if i >= encode_byte(b).len() {
                assert(e[i] == percent_encode(rest)[i - encode_byte(b).len()]);
            }
        }
    }
}

/// A value comes out of [urlencode] unchanged exactly when every byte of it is unreserved
/// (`A-Z a-z 0-9 - _ . ~`); whatever comes out holds only unreserved characters and the `%`
/// of an escape.
pub proof fn lemma_urlencode_keeps_exactly_the_unreserved(bs: Seq<u8>)
    ensures
        (forall|i: int| 0 <= i < bs.len() ==> unreserved(#[trigger] bs[i])) <==> percent_encode(bs) == as_chars(bs),
        forall|i: int| 0 <= i < percent_encode(bs).len() ==> url_char(#[trigger] percent_encode(bs)[i]),
{
    lemma_encode_len(bs);
    if percent_encode(bs) == as_chars(bs) {
        assert(as_chars(bs).len() == bs.len());
    }
}

/// An upper-case hexadecimal digit character.
pub open spec fn is_hex_upper(c: char) -> bool {
    ('0' <= c && c <= '9') || ('A' <= c && c <= 'F')
}

proof fn lemma_hex_upper_digit(d: int)
    requires
        0 <= d < 16,
    ensures
        is_hex_upper(hex_upper(d)),
        hex_upper(d) != '%',
{
}

/// Every `%` that [urlencode] writes is followed by two upper-case hexadecimal digits.
pub proof fn lemma_urlencode_escapes_are_hex(bs: Seq<u8>)
    ensures
        forall|i: int| 0 <= i < percent_encode(bs).len() && #[trigger] percent_encode(bs)[i] == '%' ==> i + 2
            < percent_encode(bs).len() && is_hex_upper(percent_encode(bs)[i + 1]) && is_hex_upper(
            percent_encode(bs)[i + 2],
        ),
    decreases bs.len(),
{
    if bs.len() > 0 {
        let b = bs[0];
        let rest = bs.drop_first();
        lemma_urlencode_escapes_are_hex(rest);
        let r = percent_encode(rest);
        let h = encode_byte(b);
        let e = h + r;
        assert(percent_encode(bs) == e);
        lemma_hex_upper_digit((b / 16) as int);
        lemma_hex_upper_digit((b % 16) as int);
        assert forall|i: int| 0 <= i < e.len() && #[trigger] e[i] == '%' implies i + 2 < e.len() && is_hex_upper(e[i + 1])
            && is_hex_upper(e[i + 2]) by {
            if i >= h.len() {
                assert(e[i] == r[i - h.len()]);
                assert(e[i + 1] == r[i + 1 - h.len()]);
                assert(e[i + 2] == r[i + 2 - h.len()]);
            } else if unreserved(b) {
                assert(e[i] == b as char);
            } else {
                assert(i == 0);
            }
        }
    }
}

/// A character a URL carries as it is: `A-Z a-z 0-9 - _ . ~`.
pub open spec fn url_safe(c: char) -> bool {
    ('A' <= c && c <= 'Z') || ('a' <= c && c <= 'z') || ('0' <= c && c <= '9') || c == '-' || c == '_' || c == '.'
        || c == '~'
}

proof fn lemma_url_safe_byte(c: char)
    requires
        '\0' <= c <= '\u{7f}',
    ensures
        url_safe(c) <==> unreserved(c as u8),
        (c as u8) as char == c,
{
    assert(0 <= (c as int) <= 127);
}

/// A value comes out of [urlencode] as it went in exactly when every character of it is an
/// unreserved ASCII character (`A-Z a-z 0-9 - _ . ~`).
pub proof fn lemma_urlencode_unchanged_exactly(value: &str)
    ensures
        (percent_encode(value.spec_bytes()) == value@) <==> (forall|i: int| 0 <= i < value@.len() ==> url_safe(
            #[trigger] value@[i],
        )),
{
    broadcast use vstd::string::is_ascii_spec_bytes;
    let bs = value.spec_bytes();
    lemma_encode_len(bs);
    if forall|i: int| 0 <= i < value@.len() ==> url_safe(#[trigger] value@[i]) {
        assert forall|i: int| 0 <= i < value@.len() implies '\0' <= #[trigger] value@[i] <= '\u{7f}' by {
            assert(url_safe(value@[i]));
        }
        assert(vstd::string::is_ascii(value));
        assert(bs =~= Seq::new(value@.len(), |i| value@.index(i) as u8));
        assert forall|i: int| 0 <= i < bs.len() implies unreserved(#[trigger] bs[i]) by {
            assert(url_safe(value@[i]));
        }
        assert(as_chars(bs) =~= value@);
    }
    if percent_encode(bs) == value@ {
        if !(forall|i: int| 0 <= i < value@.len() ==> url_safe(#[trigger] value@[i])) {
            let i = choose|i: int| 0 <= i < value@.len() && !url_safe(#[trigger] value@[i]);
            if vstd::string::is_ascii(value) {
                assert(bs =~= Seq::new(value@.len(), |k| value@.index(k) as u8));
                lemma_url_safe_byte(value@[i]);
                assert(!unreserved(bs[i]));
                assert(percent_encode(bs).len() > bs.len());
            } else {
                let k = choose|k: int| 0 <= k < value@.len() && !('\0' <= #[trigger] value@[k] <= '\u{7f}');
                assert(percent_encode(bs)[k] == value@[k]);
                assert(url_char(percent_encode(bs)[k]));
            }
        }
    }
}

/// A link carries exactly its value: decoding what [urlencode] produced gives back the value's
/// bytes, so a branch named `a&b` reaches the branch named `a&b`.
pub proof fn lemma_urlencode_round_trip(bs: Seq<u8>)
    ensures
        percent_decode(percent_encode(bs)) == bs,
    decreases bs.len(),
{
    if bs.len() > 0 {
        let b = bs[0];
        let rest = percent_encode(bs.drop_first());
        lemma_urlencode_round_trip(bs.drop_first());
        let e = encode_byte(b) + rest;
        assert(percent_encode(bs) == e);
        if unreserved(b) {
            assert(e[0] == b as char);
            assert(e.drop_first() =~= rest);
            assert((b as char) as u8 == b);
        } else {
            lemma_hex_round_trip((b / 16) as int);
            lemma_hex_round_trip((b % 16) as int);
            assert(e.skip(3) =~= rest);
            assert(e[1] == hex_upper((b / 16) as int));
            assert(e[2] == hex_upper((b % 16) as int));
        }
        assert(percent_decode(e) =~= seq![b] + bs.drop_first());
        assert(seq![b] + bs.drop_first() =~= bs);
    }
}


// ---------------------------------------------------------------------------
// XML text.

/// One character as XML text content (and attributes) carries it.
pub open spec fn escape_char(c: char) -> Seq<char> {
    if c == '&' {
        "&amp;"@
    } else if c == '<' {
        "&lt;"@
    } else if c == '>' {
        "&gt;"@
    } else if c == '"' {
        "&quot;"@
    } else if c == '\'' {
        "&#39;"@
    } else {
        seq![c]
    }
}

/// A text escaped for XML, character by character.
pub open spec fn xml_escaped(s: Seq<char>) -> Seq<char>
    decreases s.len(),
{
    if s.len() == 0 {
        Seq::empty()
    } else {
        xml_escaped(s.drop_last()) + escape_char(s.last())
    }
}

/// A character that would start or end markup.
pub open spec fn is_markup_char(c: char) -> bool {
    c == '<' || c == '>' || c == '"' || c == '\''
}

/// Escape a model value for XML text content (and attributes): the model is untrusted input,
/// and a value like a script tag must render as text, never as markup. Escaping ampersand,
/// angle brackets and both quote characters is valid in both contexts.
pub fn xml_escape(value: &str) -> (r: String)
    ensures
        r@ == xml_escaped(value@),
        forall|i: int| 0 <= i < r@.len() ==> !is_markup_char(#[trigger] r@[i]),
{
    let cs = chars_of(value);
    let mut out = String::new();
    let mut i: usize = 0;
    proof {
        assert(cs@.take(0) =~= Seq::<char>::empty());
    }
    while i < cs.len()
        invariant
            cs@ == value@,
            i <= cs@.len(),
            out@ == xml_escaped(cs@.take(i as int)),
            forall|k: int| 0 <= k < out@.len() ==> !is_markup_char(#[trigger] out@[k]),
        decreases cs@.len() - i,
    {
        let c = cs[i];
        let ghost before = out@;
        proof {
            assert(cs@.take(i + 1).drop_last() =~= cs@.take(i as int));
            reveal_strlit("&amp;");
            reveal_strlit("&lt;");
            reveal_strlit("&gt;");
            reveal_strlit("&quot;");
            reveal_strlit("&#39;");
        }
        if c == '&' {
            append_text(&mut out, "&amp;");
        } else if c == '<' {
            append_text(&mut out, "&lt;");
        } else if c == '>' {
            append_text(&mut out, "&gt;");
        } else if c == '"' {
            append_text(&mut out, "&quot;");
        } else if c == '\'' {
            append_text(&mut out, "&#39;");
        } else {
            push_char(&mut out, c);
        }
        proof {
            assert(out@ =~= before + escape_char(c));
            assert forall|k: int| 0 <= k < out@.len() implies !is_markup_char(#[trigger] out@[k]) by {
                if k >= before.len() {
                    assert(out@[k] == escape_char(c)[k - before.len()]);
                }
            }
        }
        i = i + 1;
    }
    proof {
        assert(cs@.take(i as int) =~= cs@);
    }
    out
}

// ---------------------------------------------------------------------------
// XML comments and file names.

/// The comment-safe text of `s`, where `previous` is the character written last: a newline or
/// carriage return becomes a space, and a space is put between two hyphens.
pub open spec fn comment_safe_from(s: Seq<char>, previous: char) -> Seq<char>
    decreases s.len(),
{
    if s.len() == 0 {
        Seq::empty()
    } else {
        let c = if s[0] == '\n' || s[0] == '\r' {
            ' '
        } else {
            s[0]
        };
        let gap: Seq<char> = if c == '-' && previous == '-' {
            seq![' ']
        } else {
            Seq::empty()
        };
        gap + seq![c] + comment_safe_from(s.drop_first(), c)
    }
}

/// No two hyphens in a row and no line break: what an XML comment body may hold.
pub open spec fn is_comment_safe(s: Seq<char>) -> bool {
    &&& forall|i: int| 0 <= i < s.len() ==> #[trigger] s[i] != '\n' && s[i] != '\r'
    &&& forall|i: int| 0 <= i < s.len() - 1 ==> !(#[trigger] s[i] == '-' && s[i + 1] == '-')
}

proof fn lemma_comment_safe_from(s: Seq<char>, previous: char)
    requires
        previous != '\n' && previous != '\r',
    ensures
        is_comment_safe(seq![previous] + comment_safe_from(s, previous)),
    decreases s.len(),
{
    let t = seq![previous] + comment_safe_from(s, previous);
    if s.len() == 0 {
        assert(t =~= seq![previous]);
    } else {
        let c = if s[0] == '\n' || s[0] == '\r' {
            ' '
        } else {
            s[0]
        };
        let gap: Seq<char> = if c == '-' && previous == '-' {
            seq![' ']
        } else {
            Seq::empty()
        };
        let rest = comment_safe_from(s.drop_first(), c);
        lemma_comment_safe_from(s.drop_first(), c);
        let u = seq![c] + rest;
        assert(t =~= seq![previous] + gap + u);
        assert forall|i: int| 0 <= i < t.len() implies #[trigger] t[i] != '\n' && t[i] != '\r' by {
            if i >= 1 + gap.len() {
                assert(t[i] == u[i - 1 - gap.len()]);
            }
        }
        assert forall|i: int| 0 <= i < t.len() - 1 implies !(#[trigger] t[i] == '-' && t[i + 1] == '-') by {
            if i >= 1 + gap.len() {
                assert(t[i] == u[i - 1 - gap.len()]);
                assert(t[i + 1] == u[i - gap.len()]);
            }
        }
    }
}

/// An XML comment body cannot contain a double hyphen or a newline. The values are escaped so
/// a hostile project or branch name cannot make the exported file invalid XML.
pub fn comment_safe(value: &str) -> (r: String)
    ensures
        r@ == comment_safe_from(value@, '\0'),
        is_comment_safe(r@),
{
    let cs = chars_of(value);
    let mut out = String::new();
    let mut previous = '\0';
    let mut i: usize = 0;
    proof {
        assert(cs@.skip(0) =~= cs@);
    }
    while i < cs.len()
        invariant
            cs@ == value@,
            i <= cs@.len(),
            out@ + comment_safe_from(cs@.skip(i as int), previous) == comment_safe_from(value@, '\0'),
        decreases cs@.len() - i,
    {
        let ghost before = out@;
        let raw = cs[i];
        let c = if raw == '\n' || raw == '\r' {
            ' '
        } else {
            raw
        };
        if c == '-' && previous == '-' {
            push_char(&mut out, ' ');
        }
        push_char(&mut out, c);
        proof {
            assert(cs@.skip(i as int).drop_first() =~= cs@.skip(i + 1));
            let gap: Seq<char> = if c == '-' && previous == '-' {
                seq![' ']
            } else {
                Seq::empty()
            };
            assert(out@ =~= before + gap + seq![c]);
            assert(comment_safe_from(cs@.skip(i as int), previous) == gap + seq![c]
                + comment_safe_from(cs@.skip(i + 1), c));
            assert(out@ + comment_safe_from(cs@.skip(i + 1), c) =~= before + comment_safe_from(
                cs@.skip(i as int),
                previous,
            ));
        }
        previous = c;
        i = i + 1;
    }
    proof {
        assert(cs@.skip(i as int) =~= Seq::<char>::empty());
        assert(out@ =~= out@ + comment_safe_from(cs@.skip(i as int), previous));
        lemma_comment_safe_from(value@, '\0');
        let t = seq!['\0'] + out@;
        assert forall|k: int| 0 <= k < out@.len() implies #[trigger] out@[k] != '\n' && out@[k] != '\r' by {
            assert(out@[k] == t[k + 1]);
        }
        assert forall|k: int| 0 <= k < out@.len() - 1 implies !(#[trigger] out@[k] == '-' && out@[k + 1] == '-') by {
            assert(out@[k] == t[k + 1]);
            assert(out@[k + 1] == t[k + 2]);
        }
    }
    out
}

/// A character a path segment carries as it is.
pub open spec fn segment_safe(c: char) -> bool {
    ('a' <= c && c <= 'z') || ('A' <= c && c <= 'Z') || ('0' <= c && c <= '9') || c == '-' || c
        == '_' || c == '.'
}

/// A filesystem-safe path segment (the project may contain characters a header cannot carry):
/// each character outside `A-Z a-z 0-9 - _ .` becomes an underscore.
pub fn safe_segment(value: &str) -> (r: String)
    ensures
        r@ == value@.map_values(|c: char| if segment_safe(c) { c } else { '_' }),
        forall|i: int| 0 <= i < r@.len() ==> segment_safe(#[trigger] r@[i]),
{
    let cs = chars_of(value);
    let mut out = String::new();
    let mut i: usize = 0;
    while i < cs.len()
        invariant
            cs@ == value@,
            i <= cs@.len(),
            out@ == value@.map_values(|c: char| if segment_safe(c) { c } else { '_' }).take(i as int),
        decreases cs@.len() - i,
    {
        let c = cs[i];
        let kept = if ('a' <= c && c <= 'z') || ('A' <= c && c <= 'Z') || ('0' <= c && c <= '9')
            || c == '-' || c == '_' || c == '.' {
            c
        } else {
            '_'
        };
        push_char(&mut out, kept);
        proof {
            assert(value@.map_values(|c: char| if segment_safe(c) { c } else { '_' }).take(i + 1)
                =~= value@.map_values(|c: char| if segment_safe(c) { c } else { '_' }).take(i as int).push(kept));
        }
        i = i + 1;
    }
    proof {
        assert(value@.map_values(|c: char| if segment_safe(c) { c } else { '_' }).take(i as int)
            =~= value@.map_values(|c: char| if segment_safe(c) { c } else { '_' }));
    }
    out
}

// ---------------------------------------------------------------------------
// Commit hashes.

/// The first eight bytes of a hash when they end on a character boundary, the whole hash
/// otherwise.
pub open spec fn spec_short_hash(hash: Seq<u8>) -> Seq<u8> {
    if vstd::utf8::is_char_boundary(hash, 8) {
        hash.subrange(0, 8)
    } else {
        hash
    }
}

/// The short form of a commit hash a page shows: its first eight bytes.
pub fn short_hash(hash: &str) -> (r: &str)
    ensures
        r.spec_bytes() == spec_short_hash(hash.spec_bytes()),
{
    if hash.is_char_boundary(8) {
        hash.split_at(8).0
    } else {
        hash
    }
}

/// The short form of a hash as text.
pub open spec fn short_text(hash: Seq<char>) -> Seq<char> {
    vstd::utf8::decode_utf8(spec_short_hash(vstd::utf8::encode_utf8(hash)))
}

/// The short form of a commit hash, as an owned string.
pub fn short_hash_text(hash: &str) -> (r: String)
    ensures
        r@ == short_text(hash@),
        vstd::utf8::encode_utf8(r@) == spec_short_hash(vstd::utf8::encode_utf8(hash@)),
{
    let short = short_hash(hash);
    proof {
        vstd::utf8::encode_utf8_decode_utf8(short@);
    }
    short.to_owned()
}

} // verus!
