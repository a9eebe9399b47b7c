//! Writing JSON strings the way Python's `json` module does.
//!
//! `languages.json` was for years written by a Python tool with
//! `ensure_ascii=True`: DEL and every non-ASCII character are escaped as
//! `\uXXXX`, and a character outside the Basic Multilingual Plane becomes a
//! UTF-16 surrogate pair. Keeping that format is what makes rewriting the
//! file show only the entries that actually changed.

use vstd::prelude::*;

use crate::text::{chars_of, push_char};

verus! {

/// The lowercase hexadecimal digit for `d` (below 16).
pub open spec fn hex_digit(d: int) -> char {
    if d < 10 {
        (48 + d) as char
    } else {
        (87 + d) as char
    }
}

/// `\u` followed by the four lowercase hexadecimal digits of `unit`.
pub open spec fn unicode_escape(unit: int) -> Seq<char> {
    seq![
        '\\',
        'u',
        hex_digit((unit / 4096) % 16),
        hex_digit((unit / 256) % 16),
        hex_digit((unit / 16) % 16),
        hex_digit(unit % 16),
    ]
}

/// The UTF-16 code units of `c`: one below U+10000, else a surrogate pair.
pub open spec fn utf16_units(c: char) -> Seq<int> {
    let v = c as u32 as int;
    if v < 0x10000 {
        seq![v]
    } else {
        seq![0xD800 + (v - 0x10000) / 1024, 0xDC00 + (v - 0x10000) % 1024]
    }
}

/// How one character is written: ASCII below DEL as itself, anything else
/// (DEL included) as the escapes of its UTF-16 code units.
pub open spec fn escaped_char(c: char) -> Seq<char> {
    if (c as u32) < 127 {
        seq![c]
    } else if utf16_units(c).len() == 1 {
        unicode_escape(utf16_units(c)[0])
    } else {
        unicode_escape(utf16_units(c)[0]) + unicode_escape(utf16_units(c)[1])
    }
}

/// How a run of characters is written.
pub open spec fn escaped(s: Seq<char>) -> Seq<char>
    decreases s.len(),
{
    if s.len() == 0 {
        Seq::empty()
    } else {
        escaped(s.drop_last()) + escaped_char(s.last())
    }
}

/// Every character of `s` is ASCII.
pub open spec fn all_ascii(s: Seq<char>) -> bool {
    forall|i: int| 0 <= i < s.len() ==> (#[trigger] s[i] as u32) < 128
}

/// The lowercase hexadecimal digit for `d`.
fn hex_digit_char(d: u32) -> (c: char)
    requires
        d < 16,
    ensures
        c == hex_digit(d as int),
{
    let b = d as u8;
    if b < 10 {
        (48u8 + b) as char
    } else {
        (87u8 + b) as char
    }
}

/// Appends `\u` and the four hexadecimal digits of `unit` to `out`.
fn push_unicode_escape(out: &mut String, unit: u32)
    requires
        unit < 0x10000,
    ensures
        final(out)@ == old(out)@ + unicode_escape(unit as int),
{
    push_char(out, '\\');
    push_char(out, 'u');
    push_char(out, hex_digit_char((unit / 4096) % 16));
    push_char(out, hex_digit_char((unit / 256) % 16));
    push_char(out, hex_digit_char((unit / 16) % 16));
    push_char(out, hex_digit_char(unit % 16));
    assert(final(out)@ =~= old(out)@ + unicode_escape(unit as int));
}

/// Write a run of string characters that need no escaping of their own, the
/// way Python's `ensure_ascii` does: DEL and every non-ASCII character become
/// `\uXXXX` escapes of its UTF-16 code units, so that "💎" becomes the
/// surrogate pair `\ud83d\udc8e`. The result is plain ASCII.
pub fn escape_fragment(fragment: &str) -> (text: String)
    ensures
        text@ == escaped(fragment@),
        all_ascii(text@),
{
    let chars = chars_of(fragment);
    let mut out = String::new();
    for i in 0..chars.len()
        invariant
            chars@ == fragment@,
            out@ == escaped(fragment@.take(i as int)),
    {
        let c = chars[i];
        let v = c as u32;
        proof {
            vstd::utf8::char_is_scalar(c);
        }
        let ghost before = out@;
        if v < 127 {
            push_char(&mut out, c);
        } else if v < 0x10000 {
            push_unicode_escape(&mut out, v);
        } else {
            let w = v - 0x10000;
            push_unicode_escape(&mut out, 0xD800 + w / 1024);
            push_unicode_escape(&mut out, 0xDC00 + w % 1024);
        }
        assert(out@ =~= before + escaped_char(c));
        assert(fragment@.take(i + 1).drop_last() =~= fragment@.take(i as int));
        assert(out@ =~= escaped(fragment@.take(i + 1)));
    }
    assert(fragment@.take(chars@.len() as int) =~= fragment@);
    proof {
        lemma_escaped_is_ascii(fragment@);
    }
    out
}

/// Escaping narrows any text to ASCII.
pub proof fn lemma_escaped_is_ascii(s: Seq<char>)
    ensures
        all_ascii(escaped(s)),
    decreases s.len(),
{
    if s.len() > 0 {
        lemma_escaped_is_ascii(s.drop_last());
        let c = s.last();
        let e = escaped_char(c);
        assert forall|i: int| 0 <= i < e.len() implies (#[trigger] e[i] as u32) < 128 by {
        }
        let r = escaped(s);
        assert forall|i: int| 0 <= i < r.len() implies (#[trigger] r[i] as u32) < 128 by {
            if i < escaped(s.drop_last()).len() {
                assert(r[i] == escaped(s.drop_last())[i]);
            } else {
                assert(r[i] == e[i - escaped(s.drop_last()).len()]);
            }
        }
    }
}

/// Every character of `s` is ASCII below DEL.
pub open spec fn below_del(s: Seq<char>) -> bool {
    forall|i: int| 0 <= i < s.len() ==> (#[trigger] s[i] as u32) < 127
}

/// Text of ASCII characters below DEL is written unchanged.
pub proof fn lemma_ascii_unchanged(s: Seq<char>)
    requires
        below_del(s),
    ensures
        escaped(s) == s,
    decreases s.len(),
{
    if s.len() > 0 {
        assert(below_del(s.drop_last())) by {
            assert forall|i: int| 0 <= i < s.drop_last().len() implies (#[trigger] s.drop_last()[i]
                as u32) < 127 by {
                assert(s.drop_last()[i] == s[i]);
            }
        }
        lemma_ascii_unchanged(s.drop_last());
        assert((s[s.len() - 1] as u32) < 127);
        assert(s =~= s.drop_last().push(s.last()));
    }
}


/// The value of a lowercase hexadecimal digit: `0`-`9` count 0 to 9 and
/// `a`-`f` count 10 to 15; any other character is not a digit (-1).
pub open spec fn hex_value(c: char) -> int {
    let v = c as u32;
    if ('0' as u32) <= v <= ('9' as u32) {
        v - ('0' as u32)
    } else if ('a' as u32) <= v <= ('f' as u32) {
        v - ('a' as u32) + 10
    } else {
        -1
    }
}

/// `e` holds, at `at`, an escape `\u` followed by four lowercase hexadecimal
/// digits.
pub open spec fn is_escape_at(e: Seq<char>, at: int) -> bool {
    &&& 0 <= at
    &&& at + 6 <= e.len()
    &&& e[at] == '\\'
    &&& e[at + 1] == 'u'
    &&& forall|k: int| at + 2 <= k < at + 6 ==> 0 <= #[trigger] hex_value(e[k]) < 16
}

/// The code unit that the escape at `at` in `e` stands for.
pub open spec fn read_escape(e: Seq<char>, at: int) -> int {
    hex_value(e[at + 2]) * 4096 + hex_value(e[at + 3]) * 256 + hex_value(e[at + 4]) * 16
        + hex_value(e[at + 5])
}

/// Each hexadecimal digit reads back as the number it was written for.
pub proof fn lemma_hex_digit_reads_back(d: int)
    requires
        0 <= d < 16,
    ensures
        hex_value(hex_digit(d)) == d,
{
}

/// An escape is `\u` and four lowercase hexadecimal digits that read back
/// as the code unit it was written for.
pub proof fn lemma_unicode_escape_reads_back(unit: int)
    requires
        0 <= unit < 0x10000,
    ensures
        unicode_escape(unit).len() == 6,
        is_escape_at(unicode_escape(unit), 0),
        read_escape(unicode_escape(unit), 0) == unit,
{
    let e = unicode_escape(unit);
    lemma_hex_digit_reads_back((unit / 4096) % 16);
    lemma_hex_digit_reads_back((unit / 256) % 16);
    lemma_hex_digit_reads_back((unit / 16) % 16);
    lemma_hex_digit_reads_back(unit % 16);
    assert(e[2] == hex_digit((unit / 4096) % 16));
    assert(e[3] == hex_digit((unit / 256) % 16));
    assert(e[4] == hex_digit((unit / 16) % 16));
    assert(e[5] == hex_digit(unit % 16));
    assert forall|k: int| 2 <= k < 6 implies 0 <= #[trigger] hex_value(e[k]) < 16 by {
    }
    assert(((unit / 4096) % 16) * 4096 + ((unit / 256) % 16) * 256 + ((unit / 16) % 16) * 16 + unit
        % 16 == unit) by (nonlinear_arith)
        requires
            0 <= unit < 0x10000,
    ;
}

/// How each character is written, read back: a character below DEL is
/// itself; any other character of the Basic Multilingual Plane is one escape
/// of its own code point; a character beyond it is two escapes, a high
/// surrogate and a low one, that combine back into the character.
pub proof fn lemma_escaped_char_reads_back(c: char)
    ensures
        (c as u32) < 127 ==> escaped_char(c) == seq![c],
        127 <= (c as u32) < 0x10000 ==> escaped_char(c).len() == 6 && is_escape_at(
            escaped_char(c),
            0,
        ) && read_escape(escaped_char(c), 0) == c as u32,
        0x10000 <= (c as u32) ==> {
            let e = escaped_char(c);
            let high = read_escape(e, 0);
            let low = read_escape(e, 6);
            &&& e.len() == 12
            &&& is_escape_at(e, 0)
            &&& is_escape_at(e, 6)
            &&& 0xD800 <= high < 0xDC00
            &&& 0xDC00 <= low < 0xE000
            &&& 0x10000 + (high - 0xD800) * 1024 + (low - 0xDC00) == c as u32
        },
{
    vstd::utf8::char_is_scalar(c);
    let v = c as u32 as int;
    if 127 <= v < 0x10000 {
        lemma_unicode_escape_reads_back(v);
    } else if v >= 0x10000 {
        let hi = 0xD800 + (v - 0x10000) / 1024;
        let lo = 0xDC00 + (v - 0x10000) % 1024;
        lemma_unicode_escape_reads_back(hi);
        lemma_unicode_escape_reads_back(lo);
        let e = escaped_char(c);
        let a = unicode_escape(hi);
        let b = unicode_escape(lo);
        assert(e == a + b);
        assert forall|k: int| 8 <= k < 12 implies 0 <= #[trigger] hex_value(e[k]) < 16 by {
            assert(e[k] == b[k - 6]);
            assert(2 <= k - 6 < 6);
        }
        assert(e[6] == b[0]);
        assert(e[7] == b[1]);
        assert(e[8] == b[2]);
        assert(e[9] == b[3]);
        assert(e[10] == b[4]);
        assert(e[11] == b[5]);
        assert(read_escape(e, 6) == read_escape(b, 0));
        assert forall|k: int| 2 <= k < 6 implies 0 <= #[trigger] hex_value(e[k]) < 16 by {
            assert(e[k] == a[k]);
        }
        assert(read_escape(e, 0) == read_escape(a, 0));
    }
}


/// Text is written character by character: writing two runs one after the
/// other gives the two writings one after the other, and a single character
/// is written as `escaped_char` says.
pub proof fn lemma_escaped_concat(a: Seq<char>, b: Seq<char>)
    ensures
        escaped(a + b) == escaped(a) + escaped(b),
        forall|c: char| #[trigger] escaped(seq![c]) == escaped_char(c),
    decreases b.len(),
{
    assert forall|c: char| #[trigger] escaped(seq![c]) == escaped_char(c) by {
        assert(seq![c].drop_last() =~= Seq::<char>::empty());
        assert(escaped(Seq::<char>::empty()) == Seq::<char>::empty());
        assert(Seq::<char>::empty() + escaped_char(c) =~= escaped_char(c));
    }
    if b.len() == 0 {
        assert(a + b =~= a);
        assert(escaped(b) == Seq::<char>::empty());
        assert(escaped(a) + escaped(b) =~= escaped(a));
    } else {
        lemma_escaped_concat(a, b.drop_last());
        assert((a + b).drop_last() =~= a + b.drop_last());
        assert((a + b).last() == b.last());
        assert(escaped(a + b) =~= escaped(a) + escaped(b));
    }
}

} // verus!
