//! Escaping text for HTML and percent-encoding names for links.

use vstd::prelude::*;
use vstd::string::StringExecFns;
use vstd::utf8::*;

verus! {

/// The HTML text that stands for one character: the four characters that
/// carry meaning in markup become entities, every other character stays.
pub open spec fn escape_char(c: char) -> Seq<char> {
    if c == '&' {
        "&amp;"@
    } else if c == '<' {
        "&lt;"@
    } else if c == '>' {
        "&gt;"@
    } else if c == '"' {
        "&quot;"@
    } else {
        seq![c]
    }
}

/// `s` with each character replaced by `escape_char` of it.
pub open spec fn escape_html_spec(s: Seq<char>) -> Seq<char>
    decreases s.len(),
{
    if s.len() == 0 {
        seq![]
    } else {
        escape_html_spec(s.drop_last()) + escape_char(s.last())
    }
}

/// Escapes `&`, `<`, `>` and `"` so that `s` can stand in HTML text and in
/// a double-quoted attribute.
pub fn escape_html(s: &str) -> (res: String)
    ensures
        res@ == escape_html_spec(s@),
{
    let mut out = String::new();
    for c in it: s.chars()
        invariant
            it.seq() == s@,
            out@ == escape_html_spec(s@.take(it.index() as int)),
    {
        let ghost i = it.index();
        proof {
            assert(s@.take(i + 1).drop_last() == s@.take(i));
        }
        if c == '&' {
            out.append("&amp;");
        } else if c == '<' {
            out.append("&lt;");
        } else if c == '>' {
            out.append("&gt;");
        } else if c == '"' {
            out.append("&quot;");
        } else {
            out.push(c);
        }
    }
    proof {
        assert(s@.take(s@.len() as int) == s@);
    }
    out
}

/// No character of `s` is `<`, `>` or `"`.
pub open spec fn free_of_markup(s: Seq<char>) -> bool {
    forall|i: int| 0 <= i < s.len() ==> #[trigger] s[i] != '<' && s[i] != '>' && s[i] != '"'
}

/// Escaped text holds no `<`, `>` or `"`: it cannot open or close a tag or
/// end a double-quoted attribute.
pub proof fn lemma_escaped_text_has_no_markup(s: Seq<char>)
    ensures
        free_of_markup(escape_html_spec(s)),
    decreases s.len(),
{
    if s.len() > 0 {
        lemma_escaped_text_has_no_markup(s.drop_last());
        reveal_strlit("&amp;");
        reveal_strlit("&lt;");
        reveal_strlit("&gt;");
        reveal_strlit("&quot;");
        let head = escape_html_spec(s.drop_last());
        let tail = escape_char(s.last());
        assert(free_of_markup(tail));
        let all = head + tail;
        assert forall|i: int| 0 <= i < all.len() implies #[trigger] all[i] != '<' && all[i] != '>'
            && all[i] != '"' by {
            if i < head.len() {
                assert(all[i] == head[i]);
            } else {
                assert(all[i] == tail[i - head.len()]);
            }
        }
    }
}

/// The entity `&amp;`.
pub open spec fn amp_entity() -> Seq<char> {
    seq!['&', 'a', 'm', 'p', ';']
}

/// The entity `&lt;`.
pub open spec fn lt_entity() -> Seq<char> {
    seq!['&', 'l', 't', ';']
}

/// The entity `&gt;`.
pub open spec fn gt_entity() -> Seq<char> {
    seq!['&', 'g', 't', ';']
}

/// The entity `&quot;`.
pub open spec fn quot_entity() -> Seq<char> {
    seq!['&', 'q', 'u', 'o', 't', ';']
}

/// Reading escaped text back, left to right: `&amp;`, `&lt;`, `&gt;` and
/// `&quot;` become the character they stand for, every other character
/// stays.
pub open spec fn unescape_html(s: Seq<char>) -> Seq<char>
    decreases s.len(),
{
    if s.len() == 0 {
        seq![]
    } else if amp_entity().is_prefix_of(s) {
        seq!['&'] + unescape_html(s.skip(5))
    } else if lt_entity().is_prefix_of(s) {
        seq!['<'] + unescape_html(s.skip(4))
    } else if gt_entity().is_prefix_of(s) {
        seq!['>'] + unescape_html(s.skip(4))
    } else if quot_entity().is_prefix_of(s) {
        seq!['"'] + unescape_html(s.skip(6))
    } else {
        seq![s[0]] + unescape_html(s.skip(1))
    }
}

proof fn lemma_escape_concat(a: Seq<char>, b: Seq<char>)
    ensures
        escape_html_spec(a + b) == escape_html_spec(a) + escape_html_spec(b),
    decreases b.len(),
{
    if b.len() == 0 {
        assert(a + b == a);
        assert(escape_html_spec(a) + Seq::<char>::empty() == escape_html_spec(a));
    } else {
        lemma_escape_concat(a, b.drop_last());
        assert((a + b).drop_last() == a + b.drop_last());
        assert((a + b).last() == b.last());
        assert(escape_html_spec(a + b) == escape_html_spec(a + b.drop_last()) + escape_char(
            b.last(),
        ));
        assert(escape_html_spec(a) + escape_html_spec(b) =~= escape_html_spec(a)
            + escape_html_spec(b.drop_last()) + escape_char(b.last()));
    }
}

/// Reading back the escape of one character followed by `rest` gives the
/// character followed by the reading of `rest`.
proof fn lemma_unescape_one(c: char, rest: Seq<char>)
    ensures
        unescape_html(escape_char(c) + rest) == seq![c] + unescape_html(rest),
{
    reveal_strlit("&amp;");
    reveal_strlit("&lt;");
    reveal_strlit("&gt;");
    reveal_strlit("&quot;");
    let e = escape_char(c);
    let t = e + rest;
    if c == '&' {
        assert(e =~= amp_entity());
    } else if c == '<' {
        assert(e =~= lt_entity());
    } else if c == '>' {
        assert(e =~= gt_entity());
    } else if c == '"' {
        assert(e =~= quot_entity());
    } else {
        assert(e =~= seq![c]);
    }
    assert(t.len() > 0);
    assert(forall|i: int| 0 <= i < e.len() ==> t[i] == e[i]);
    assert(t.skip(e.len() as int) =~= rest);
    if c == '&' {
        assert(amp_entity().is_prefix_of(t));
    } else if c == '<' {
        assert(t[1] == 'l');
        assert(!amp_entity().is_prefix_of(t));
        assert(lt_entity().is_prefix_of(t));
    } else if c == '>' {
        assert(t[1] == 'g');
        assert(!amp_entity().is_prefix_of(t));
        assert(!lt_entity().is_prefix_of(t));
        assert(gt_entity().is_prefix_of(t));
    } else if c == '"' {
        assert(t[1] == 'q');
        assert(!amp_entity().is_prefix_of(t));
        assert(!lt_entity().is_prefix_of(t));
        assert(!gt_entity().is_prefix_of(t));
        assert(quot_entity().is_prefix_of(t));
    } else {
        assert(t[0] == c);
        assert(!amp_entity().is_prefix_of(t));
        assert(!lt_entity().is_prefix_of(t));
        assert(!gt_entity().is_prefix_of(t));
        assert(!quot_entity().is_prefix_of(t));
    }
}

/// Escaping can be undone: reading the escaped text back gives the text.
pub proof fn lemma_unescape_undoes_escape(s: Seq<char>)
    ensures
        unescape_html(escape_html_spec(s)) == s,
    decreases s.len(),
{
    if s.len() > 0 {
        let rest = s.drop_first();
        lemma_unescape_undoes_escape(rest);
        assert(s == seq![s[0]] + rest);
        lemma_escape_concat(seq![s[0]], rest);
        let one = seq![s[0]];
        assert(one.drop_last() == Seq::<char>::empty());
        assert(one.last() == s[0]);
        assert(escape_html_spec(Seq::<char>::empty()) == Seq::<char>::empty());
        assert(escape_html_spec(one) == escape_html_spec(one.drop_last()) + escape_char(one.last()));
        assert(Seq::<char>::empty() + escape_char(s[0]) == escape_char(s[0]));
        lemma_unescape_one(s[0], escape_html_spec(rest));
    }
}

/// Different texts escape differently.
pub proof fn lemma_escape_is_injective(a: Seq<char>, b: Seq<char>)
    requires
        escape_html_spec(a) == escape_html_spec(b),
    ensures
        a == b,
{
    lemma_unescape_undoes_escape(a);
    lemma_unescape_undoes_escape(b);
}

/// An ASCII letter or digit.
pub open spec fn is_alphanumeric_byte(b: u8) -> bool {
    (0x30 <= b <= 0x39) || (0x41 <= b <= 0x5A) || (0x61 <= b <= 0x7A)
}

/// One of the four marks that a path segment keeps besides letters and
/// digits: `-`, `_`, `.`, `~`.
pub open spec fn is_mark_byte(b: u8) -> bool {
    b == 0x2D || b == 0x5F || b == 0x2E || b == 0x7E
}

/// The character form of `is_mark_byte`.
pub open spec fn is_mark_char(c: char) -> bool {
    c == '-' || c == '_' || c == '.' || c == '~'
}

/// The upper-case hexadecimal digit of a value below 16.
pub open spec fn hex_upper(v: int) -> char {
    if v < 10 {
        (v + 0x30) as char
    } else {
        (v - 10 + 0x41) as char
    }
}

/// `%` followed by the two upper-case hexadecimal digits of `b`.
pub open spec fn escaped_byte(b: u8) -> Seq<char> {
    seq!['%', hex_upper((b / 16) as int), hex_upper((b % 16) as int)]
}

/// Percent-encoding with the set of every byte but ASCII letters and
/// digits: those stay, every other byte is escaped.
pub open spec fn alphanumeric_encoded(bytes: Seq<u8>) -> Seq<char>
    decreases bytes.len(),
{
    if bytes.len() == 0 {
        seq![]
    } else {
        let b = bytes[0];
        (if is_alphanumeric_byte(b) { seq![b as char] } else { escaped_byte(b) })
            + alphanumeric_encoded(bytes.drop_first())
    }
}

/// Percent-encoding of a path segment: ASCII letters, digits and the four
/// marks stay, every other byte is escaped.
pub open spec fn percent_encoded(bytes: Seq<u8>) -> Seq<char>
    decreases bytes.len(),
{
    if bytes.len() == 0 {
        seq![]
    } else {
        let b = bytes[0];
        (if is_alphanumeric_byte(b) || is_mark_byte(b) { seq![b as char] } else { escaped_byte(b) })
            + percent_encoded(bytes.drop_first())
    }
}

/// A character that a percent-encoded segment is made of: an ASCII letter
/// or digit, one of the four marks, or `%`.
pub open spec fn is_segment_char(c: char) -> bool {
    ('0' <= c <= '9') || ('A' <= c <= 'Z') || ('a' <= c <= 'z') || c == '-' || c == '_' || c == '.'
        || c == '~' || c == '%'
}

/// An encoded segment holds only letters, digits, the four marks and `%`:
/// no `/` that would split it, and nothing that would end an attribute,
/// open a tag, or start a query or fragment.
pub proof fn lemma_encoded_segment_chars(bytes: Seq<u8>)
    ensures
        forall|i: int|
            0 <= i < percent_encoded(bytes).len() ==> is_segment_char(
                #[trigger] percent_encoded(bytes)[i],
            ),
    decreases bytes.len(),
{
    if bytes.len() > 0 {
        let b = bytes[0];
        lemma_encoded_segment_chars(bytes.drop_first());
        let head = if is_alphanumeric_byte(b) || is_mark_byte(b) {
            seq![b as char]
        } else {
            escaped_byte(b)
        };
        assert forall|i: int| 0 <= i < head.len() implies is_segment_char(#[trigger] head[i]) by {
            if !(is_alphanumeric_byte(b) || is_mark_byte(b)) && i > 0 {
                let v: int = if i == 1 { (b / 16) as int } else { (b % 16) as int };
                assert(head[i] == hex_upper(v));
            }
        }
        let rest = percent_encoded(bytes.drop_first());
        let all = head + rest;
        assert(percent_encoded(bytes) == all);
        assert forall|i: int| 0 <= i < all.len() implies is_segment_char(#[trigger] all[i]) by {
            if i < head.len() {
                assert(all[i] == head[i]);
            } else {
                assert(all[i] == rest[i - head.len()]);
            }
        }
    }
}

/// `percent_encoding::utf8_percent_encode(text, NON_ALPHANUMERIC).to_string()`.
/// The contract states what the crate's documentation and source give: each
/// byte of the UTF-8 encoding of `text` that is not an ASCII letter or digit
/// becomes `%` and two upper-case hexadecimal digits, every other byte stays.
#[verifier::external_body]
fn encode_non_alphanumeric(text: &str) -> (res: String)
    ensures
        res@ == alphanumeric_encoded(encode_utf8(text@)),
{
    percent_encoding::utf8_percent_encode(text, percent_encoding::NON_ALPHANUMERIC).to_string()
}

proof fn lemma_encode_utf8_concat(a: Seq<char>, b: Seq<char>)
    ensures
        encode_utf8(a + b) == encode_utf8(a) + encode_utf8(b),
    decreases a.len(),
{
    if a.len() > 0 {
        assert((a + b).drop_first() == a.drop_first() + b);
        lemma_encode_utf8_concat(a.drop_first(), b);
        assert(encode_utf8(a + b) == encode_scalar(a[0] as u32) + encode_utf8(a.drop_first() + b));
    } else {
        assert(a + b == b);
    }
}

proof fn lemma_alphanumeric_encoded_concat(x: Seq<u8>, y: Seq<u8>)
    ensures
        alphanumeric_encoded(x + y) == alphanumeric_encoded(x) + alphanumeric_encoded(y),
    decreases x.len(),
{
    if x.len() > 0 {
        assert((x + y).drop_first() == x.drop_first() + y);
        lemma_alphanumeric_encoded_concat(x.drop_first(), y);
    } else {
        assert(x + y == y);
    }
}

proof fn lemma_percent_encoded_concat(x: Seq<u8>, y: Seq<u8>)
    ensures
        percent_encoded(x + y) == percent_encoded(x) + percent_encoded(y),
    decreases x.len(),
{
    if x.len() > 0 {
        assert((x + y).drop_first() == x.drop_first() + y);
        lemma_percent_encoded_concat(x.drop_first(), y);
    } else {
        assert(x + y == y);
    }
}

/// For one character, encoding with the alphanumeric set agrees with the
/// path-segment set unless the character is one of the four marks, which
/// the path-segment set keeps.
proof fn lemma_encode_one_char(c: char)
    ensures
        is_mark_char(c) ==> percent_encoded(encode_utf8(seq![c])) == seq![c],
        !is_mark_char(c) ==> percent_encoded(encode_utf8(seq![c])) == alphanumeric_encoded(
            encode_utf8(seq![c]),
        ),
{
    let v = c as u32;
    let one = seq![c];
    assert(one.drop_first() == Seq::<char>::empty());
    assert(one[0] == c);
    assert(encode_utf8(one.drop_first()) == Seq::<u8>::empty());
    assert(encode_scalar(v) + Seq::<u8>::empty() == encode_scalar(v));
    assert(encode_utf8(one) == encode_scalar(v));
    broadcast use char_is_scalar, char_u32_cast;
    if has_width_1_encoding(v) {
        let b = leading_byte_width_1(v);
        assert(b == v) by (bit_vector)
            requires
                b == (v & 0x7F) as u8,
                v <= 0x7F,
        ;
        assert(encode_scalar(v) == seq![b]);
        assert(seq![b].drop_first() == Seq::<u8>::empty());
        assert(percent_encoded(seq![b]) == (if is_alphanumeric_byte(b) || is_mark_byte(b) {
            seq![b as char]
        } else {
            escaped_byte(b)
        }) + percent_encoded(Seq::<u8>::empty()));
        assert(alphanumeric_encoded(seq![b]) == (if is_alphanumeric_byte(b) {
            seq![b as char]
        } else {
            escaped_byte(b)
        }) + alphanumeric_encoded(Seq::<u8>::empty()));
        if is_mark_char(c) {
            assert(is_mark_byte(b));
            assert((v as char) == c);
            assert((b as char) == c);
        } else {
            assert(!is_mark_byte(b));
        }
    } else {
        let e = encode_scalar(v);
        assert(!is_mark_char(c));
        assert forall|k: int| 0 <= k < e.len() implies e[k] >= 0x80 by {
            if has_width_2_encoding(v) {
                let b1 = leading_byte_width_2(v);
                let b2 = last_continuation_byte(v);
                assert(b1 >= 0x80 && b2 >= 0x80) by (bit_vector)
                    requires
                        b1 == 0xC0 | ((v >> 6) & 0x1F) as u8,
                        b2 == 0x80 | (v & 0x3F) as u8,
                ;
            } else if has_width_3_encoding(v) {
                let b1 = leading_byte_width_3(v);
                let b2 = second_last_continuation_byte(v);
                let b3 = last_continuation_byte(v);
                assert(b1 >= 0x80 && b2 >= 0x80 && b3 >= 0x80) by (bit_vector)
                    requires
                        b1 == 0xE0 | ((v >> 12) & 0x0F) as u8,
                        b2 == 0x80 | ((v >> 6) & 0x3F) as u8,
                        b3 == 0x80 | (v & 0x3F) as u8,
                ;
            } else {
                let b1 = leading_byte_width_4(v);
                let b2 = third_last_continuation_byte(v);
                let b3 = second_last_continuation_byte(v);
                let b4 = last_continuation_byte(v);
                assert(b1 >= 0x80 && b2 >= 0x80 && b3 >= 0x80 && b4 >= 0x80) by (bit_vector)
                    requires
                        b1 == 0xF0 | ((v >> 18) & 0x7) as u8,
                        b2 == 0x80 | ((v >> 12) & 0x3F) as u8,
                        b3 == 0x80 | ((v >> 6) & 0x3F) as u8,
                        b4 == 0x80 | (v & 0x3F) as u8,
                ;
            }
        }
        lemma_high_bytes_agree(e);
    }
}

/// On bytes that are all outside ASCII the two encodings agree.
proof fn lemma_high_bytes_agree(e: Seq<u8>)
    requires
        forall|k: int| 0 <= k < e.len() ==> e[k] >= 0x80,
    ensures
        percent_encoded(e) == alphanumeric_encoded(e),
    decreases e.len(),
{
    if e.len() > 0 {
        assert(forall|k: int| 0 <= k < e.drop_first().len() ==> e.drop_first()[k] == e[k + 1]);
        lemma_high_bytes_agree(e.drop_first());
    }
}

/// Percent-encodes a file name for use as one segment of a link: the bytes
/// of its UTF-8 encoding that are ASCII letters, digits or one of `-`, `_`,
/// `.`, `~` stay, every other byte is escaped as `%XY`.
pub fn percent_encode_segment(name: &str) -> (res: String)
    ensures
        res@ == percent_encoded(encode_utf8(name@)),
{
    let mut out = String::new();
    let mut run = String::new();
    for c in it: name.chars()
        invariant
            it.seq() == name@,
            out@ + alphanumeric_encoded(encode_utf8(run@)) == percent_encoded(
                encode_utf8(name@.take(it.index() as int)),
            ),
    {
        let ghost i = it.index();
        let ghost prefix = name@.take(i);
        proof {
            assert(name@.take(i + 1) == prefix + seq![c]);
            lemma_encode_utf8_concat(prefix, seq![c]);
            lemma_percent_encoded_concat(encode_utf8(prefix), encode_utf8(seq![c]));
            lemma_encode_one_char(c);
        }
        if c == '-' || c == '_' || c == '.' || c == '~' {
            let encoded = encode_non_alphanumeric(run.as_str());
            out.append(encoded.as_str());
            out.push(c);
            run = String::new();
            proof {
                assert(encode_utf8(run@) == Seq::<u8>::empty()) by {
                    assert(run@ == Seq::<char>::empty());
                }
                assert(alphanumeric_encoded(Seq::<u8>::empty()) == Seq::<char>::empty());
                assert(out@ + Seq::<char>::empty() == out@);
            }
        } else {
            let ghost old_run = run@;
            run.push(c);
            proof {
                lemma_encode_utf8_concat(old_run, seq![c]);
                assert(old_run.push(c) == old_run + seq![c]);
                lemma_alphanumeric_encoded_concat(encode_utf8(old_run), encode_utf8(seq![c]));
            }
        }
    }
    let encoded = encode_non_alphanumeric(run.as_str());
    out.append(encoded.as_str());
    proof {
        assert(name@.take(name@.len() as int) == name@);
    }
    out
}

} // verus!
