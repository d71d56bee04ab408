//! A string buffer for JSON output, and the escaping the executive's own
//! printer uses.
//!
//! Nothing in this crate parses JSON. Requests are a line protocol, so no
//! parser is needed on this side of the wall; what is here only writes.

use vstd::prelude::*;

verus! {

// ---------------------------------------------------------------------------
// Text as the contracts see it

/// The character of a decimal digit `d < 10`.
pub open spec fn digit_char(d: nat) -> char {
    (d + 48) as char
}

/// The character of a lower-case hexadecimal digit `d < 16`.
pub open spec fn hex_char(d: nat) -> char {
    if d < 10 {
        ((d + 48) as u32) as char
    } else {
        ((d + 87) as u32) as char
    }
}

/// The decimal writing of `n`, without sign or leading zeros.
pub open spec fn dec(n: nat) -> Seq<char>
    decreases n,
{
    if n < 10 {
        seq![digit_char(n)]
    } else {
        dec(n / 10).push(digit_char(n % 10))
    }
}

/// `\u00XX`: the escape of a control character, four lower-case hex digits.
pub open spec fn unicode_escape(u: nat) -> Seq<char> {
    seq!['\\', 'u', hex_char((u / 4096) % 16), hex_char((u / 256) % 16), hex_char((u / 16) % 16), hex_char(u % 16)]
}

/// What one character becomes inside a JSON string.
pub open spec fn esc_char(c: char) -> Seq<char> {
    if c == '"' {
        seq!['\\', '"']
    } else if c == '\\' {
        seq!['\\', '\\']
    } else if c == '\n' {
        seq!['\\', 'n']
    } else if c == '\r' {
        seq!['\\', 'r']
    } else if c == '\t' {
        seq!['\\', 't']
    } else if (c as u32) < 0x20 {
        unicode_escape(c as u32 as nat)
    } else {
        seq![c]
    }
}

/// JSON string escaping of a whole text: each character escaped in turn.
pub open spec fn esc_spec(s: Seq<char>) -> Seq<char>
    decreases s.len(),
{
    if s.len() == 0 {
        Seq::empty()
    } else {
        esc_spec(s.drop_last()) + esc_char(s.last())
    }
}

/// The value of a hexadecimal digit, either case; anything else counts 0.
pub open spec fn hex_value(c: char) -> nat {
    let u = c as u32;
    if 48 <= u <= 57 {
        (u - 48) as nat
    } else if 97 <= u <= 102 {
        (u - 87) as nat
    } else if 65 <= u <= 70 {
        (u - 55) as nat
    } else {
        0
    }
}

/// What a JSON string's contents stand for: escapes read as RFC 8259 reads
/// them (`\uXXXX` for a character below U+10000), every other character as
/// itself.
pub open spec fn json_unescape(s: Seq<char>) -> Seq<char>
    decreases s.len(),
{
    if s.len() >= 2 && s[0] == '\\' {
        let c = s[1];
        if c == 'u' && s.len() >= 6 {
            let v = hex_value(s[2]) * 4096 + hex_value(s[3]) * 256 + hex_value(s[4]) * 16 + hex_value(s[5]);
            seq![(v as u32) as char] + json_unescape(s.skip(6))
        } else {
            seq![
                if c == 'n' {
                    '\n'
                } else if c == 'r' {
                    '\r'
                } else if c == 't' {
                    '\t'
                } else if c == 'b' {
                    '\x08'
                } else if c == 'f' {
                    '\x0C'
                } else {
                    c
                },
            ] + json_unescape(s.skip(2))
        }
    } else if s.len() > 0 {
        seq![s[0]] + json_unescape(s.skip(1))
    } else {
        Seq::empty()
    }
}

proof fn lemma_hex_char(d: nat)
    requires
        d < 16,
    ensures
        hex_value(hex_char(d)) == d,
{
    if d < 10 {
        assert(((d + 48) as u32) as char as u32 == d + 48);
    } else {
        assert(((d + 87) as u32) as char as u32 == d + 87);
    }
}

proof fn lemma_esc_front(s: Seq<char>)
    requires
        s.len() > 0,
    ensures
        esc_spec(s) == esc_char(s[0]) + esc_spec(s.drop_first()),
    decreases s.len(),
{
    if s.len() == 1 {
        assert(s.drop_last() =~= Seq::<char>::empty());
        assert(s.drop_first() =~= Seq::<char>::empty());
        assert(esc_spec(s) =~= esc_char(s[0]) + esc_spec(s.drop_first()));
    } else {
        lemma_esc_front(s.drop_last());
        assert(s.drop_last().drop_first() =~= s.drop_first().drop_last());
        assert(s.drop_first().last() == s.last());
        assert(esc_spec(s) =~= esc_char(s[0]) + esc_spec(s.drop_first()));
    }
}

proof fn lemma_unescape_one(c: char, rest: Seq<char>)
    ensures
        json_unescape(esc_char(c) + rest) == seq![c] + json_unescape(rest),
        forall|i: int| 0 <= i < esc_char(c).len() ==> (#[trigger] esc_char(c)[i] as u32) >= 0x20,
{
    let e = esc_char(c);
    let t = e + rest;
    if c == '"' || c == '\\' || c == '\n' || c == '\r' || c == '\t' {
        assert(t[0] == '\\' && t[1] == e[1]);
        assert(t.skip(2) =~= rest);
    } else if (c as u32) < 0x20 {
        let u = c as u32 as nat;
        lemma_hex_char((u / 4096) % 16);
        lemma_hex_char((u / 256) % 16);
        lemma_hex_char((u / 16) % 16);
        lemma_hex_char(u % 16);
        assert(t[0] == '\\' && t[1] == 'u');
        assert(t.skip(6) =~= rest);
        assert(t[2] == e[2] && t[3] == e[3] && t[4] == e[4] && t[5] == e[5]);
        assert((u / 4096) % 16 == 0 && (u / 256) % 16 == 0);
        assert(((u / 16) % 16) * 16 + u % 16 == u);
        assert(((u as u32) as char) == c);
        assert forall|i: int| 0 <= i < e.len() implies (#[trigger] e[i] as u32) >= 0x20 by {
            if i >= 2 {
                lemma_hex_char_is_printable((u / 4096) % 16);
                lemma_hex_char_is_printable((u / 256) % 16);
                lemma_hex_char_is_printable((u / 16) % 16);
                lemma_hex_char_is_printable(u % 16);
            }
        }
    } else {
        assert(t[0] == c);
        assert(t.skip(1) =~= rest);
    }
}

proof fn lemma_hex_char_is_printable(d: nat)
    requires
        d < 16,
    ensures
        hex_char(d) as u32 >= 0x20,
{
    if d < 10 {
        assert(((d + 48) as u32) as char as u32 == d + 48);
    } else {
        assert(((d + 87) as u32) as char as u32 == d + 87);
    }
}

/// Escaping is undone by reading the result as the contents of a JSON
/// string, and leaves no control character in it: `"` + `esc(s)` + `"` is a
/// JSON string literal that stands for exactly `s`.
pub proof fn lemma_esc_round_trip(s: Seq<char>)
    ensures
        json_unescape(esc_spec(s)) == s,
        forall|i: int| 0 <= i < esc_spec(s).len() ==> (#[trigger] esc_spec(s)[i] as u32) >= 0x20,
    decreases s.len(),
{
    if s.len() == 0 {
        assert(json_unescape(Seq::<char>::empty()) =~= Seq::<char>::empty());
    } else {
        lemma_esc_front(s);
        lemma_esc_round_trip(s.drop_first());
        lemma_unescape_one(s[0], esc_spec(s.drop_first()));
        assert(seq![s[0]] + s.drop_first() =~= s);
        let e = esc_char(s[0]);
        let r = esc_spec(s.drop_first());
        assert forall|i: int| 0 <= i < (e + r).len() implies (#[trigger] (e + r)[i] as u32) >= 0x20 by {
            if i < e.len() {
                assert((e + r)[i] == e[i]);
            } else {
                assert((e + r)[i] == r[i - e.len()]);
            }
        }
    }
}

/// A hexadecimal digit, either case.
pub open spec fn is_hex(c: char) -> bool {
    ('0' <= c && c <= '9') || ('a' <= c && c <= 'f') || ('A' <= c && c <= 'F')
}

/// Whether `s` may stand between the quotes of a JSON string (RFC 8259):
/// a backslash begins one of the escapes `\"`, `\\`, `\/`, `\b`, `\f`,
/// `\n`, `\r`, `\t` or `\u` and four hex digits; any other character is
/// neither a quote nor a control character.
pub open spec fn json_string_chars(s: Seq<char>) -> bool
    decreases s.len(),
{
    if s.len() == 0 {
        true
    } else if s[0] == '\\' {
        if s.len() >= 2 && (s[1] == '"' || s[1] == '\\' || s[1] == '/' || s[1] == 'b' || s[1] == 'f'
            || s[1] == 'n' || s[1] == 'r' || s[1] == 't') {
            json_string_chars(s.skip(2))
        } else if s.len() >= 6 && s[1] == 'u' && is_hex(s[2]) && is_hex(s[3]) && is_hex(s[4]) && is_hex(
            s[5],
        ) {
            json_string_chars(s.skip(6))
        } else {
            false
        }
    } else {
        s[0] != '"' && (s[0] as u32) >= 0x20 && json_string_chars(s.skip(1))
    }
}

/// Whether `q` is a JSON string literal: quotes around valid contents.
pub open spec fn json_string_literal(q: Seq<char>) -> bool {
    q.len() >= 2 && q[0] == '"' && q[q.len() - 1] == '"' && json_string_chars(q.subrange(1, q.len() - 1))
}

proof fn lemma_hex_char_is_hex(d: nat)
    requires
        d < 16,
    ensures
        is_hex(hex_char(d)),
{
    if d < 10 {
        assert(((d + 48) as u32) as char as u32 == d + 48);
    } else {
        assert(((d + 87) as u32) as char as u32 == d + 87);
    }
}

proof fn lemma_chars_one(c: char, rest: Seq<char>)
    requires
        json_string_chars(rest),
    ensures
        json_string_chars(esc_char(c) + rest),
{
    let e = esc_char(c);
    let t = e + rest;
    if c == '"' || c == '\\' || c == '\n' || c == '\r' || c == '\t' {
        assert(t[0] == '\\' && t[1] == e[1]);
        assert(t.skip(2) =~= rest);
    } else if (c as u32) < 0x20 {
        let u = c as u32 as nat;
        lemma_hex_char_is_hex((u / 4096) % 16);
        lemma_hex_char_is_hex((u / 256) % 16);
        lemma_hex_char_is_hex((u / 16) % 16);
        lemma_hex_char_is_hex(u % 16);
        assert(t[0] == '\\' && t[1] == 'u');
        assert(t[2] == e[2] && t[3] == e[3] && t[4] == e[4] && t[5] == e[5]);
        assert(t.skip(6) =~= rest);
    } else {
        assert(t[0] == c);
        assert(t.skip(1) =~= rest);
    }
}

proof fn lemma_esc_valid(s: Seq<char>)
    ensures
        json_string_chars(esc_spec(s)),
    decreases s.len(),
{
    if s.len() > 0 {
        lemma_esc_front(s);
        lemma_esc_valid(s.drop_first());
        lemma_chars_one(s[0], esc_spec(s.drop_first()));
    }
}

/// In valid string contents, every quote is the second character of a `\"`.
pub proof fn lemma_quotes_are_escaped(t: Seq<char>)
    requires
        json_string_chars(t),
    ensures
        forall|i: int| 0 <= i < t.len() && #[trigger] t[i] == '"' ==> i > 0 && t[i - 1] == '\\',
    decreases t.len(),
{
    if t.len() > 0 {
        let k: int = if t[0] == '\\' {
            if t.len() >= 2 && (t[1] == '"' || t[1] == '\\' || t[1] == '/' || t[1] == 'b' || t[1] == 'f'
                || t[1] == 'n' || t[1] == 'r' || t[1] == 't') {
                2
            } else {
                6
            }
        } else {
            1
        };
        let rest = t.skip(k);
        lemma_quotes_are_escaped(rest);
        assert forall|i: int| 0 <= i < t.len() && #[trigger] t[i] == '"' implies i > 0 && t[i - 1] == '\\' by {
            if i >= k {
                assert(t[i] == rest[i - k]);
                if i - k == 0 {
                    // valid contents never begin with a bare quote
                    assert(rest[0] == '"');
                    assert(!json_string_chars(rest));
                } else {
                    assert(t[i - 1] == rest[i - k - 1]);
                }
            } else if k == 6 && i >= 2 {
                assert(is_hex(t[i]));
            }
        }
    }
}

/// `"` + `esc(s)` + `"` is a JSON string literal (RFC 8259) that stands for
/// exactly `s`: every quote and backslash inside it is escaped, no control
/// character is left in it, and reading it back gives `s`.
pub proof fn lemma_quoted_is_json_literal(s: Seq<char>)
    ensures
        json_string_literal(quoted(s)),
        json_unescape(quoted(s).subrange(1, quoted(s).len() - 1)) == s,
        forall|i: int| 0 <= i < esc_spec(s).len() ==> (#[trigger] esc_spec(s)[i] as u32) >= 0x20,
        forall|i: int|
            0 <= i < esc_spec(s).len() && #[trigger] esc_spec(s)[i] == '"' ==> i > 0 && esc_spec(s)[i - 1]
                == '\\',
{
    let q = quoted(s);
    assert(q.subrange(1, q.len() - 1) =~= esc_spec(s));
    lemma_esc_valid(s);
    lemma_esc_round_trip(s);
    lemma_quotes_are_escaped(esc_spec(s));
}

/// A quoted, escaped JSON string.
pub open spec fn quoted(s: Seq<char>) -> Seq<char> {
    seq!['"'] + esc_spec(s) + seq!['"']
}

/// `"key":` with the key written as given.
pub open spec fn key_text(k: Seq<char>) -> Seq<char> {
    seq!['"'] + k + seq!['"', ':']
}

pub open spec fn bool_text(b: bool) -> Seq<char> {
    if b {
        seq!['t', 'r', 'u', 'e']
    } else {
        seq!['f', 'a', 'l', 's', 'e']
    }
}

/// `"key":"value"`, the value escaped.
pub open spec fn field_str_text(k: Seq<char>, v: Seq<char>) -> Seq<char> {
    key_text(k) + quoted(v)
}

/// `"key":123`.
pub open spec fn field_num_text(k: Seq<char>, v: nat) -> Seq<char> {
    key_text(k) + dec(v)
}

/// `"key":true`.
pub open spec fn field_bool_text(k: Seq<char>, v: bool) -> Seq<char> {
    key_text(k) + bool_text(v)
}

/// `"key":<already JSON>`.
pub open spec fn field_raw_text(k: Seq<char>, v: Seq<char>) -> Seq<char> {
    key_text(k) + v
}

/// A tagged frame: `{"t":"<tag>"<fields>}`.
pub open spec fn frame_text(tag: Seq<char>, fields: Seq<char>) -> Seq<char> {
    seq!['{', '"', 't', '"', ':', '"'] + tag + seq!['"'] + fields + seq!['}']
}

// ---------------------------------------------------------------------------
// Two calls into std that vstd gives no contract

/// `String::with_capacity`: a new, empty string. The capacity is an
/// allocation hint and changes no content; one past `isize::MAX` bytes
/// panics, so it is left out.
#[verifier::external_body]
pub(crate) fn string_with_capacity(n: usize) -> (s: String)
    requires
        n <= isize::MAX,
    ensures
        s@ == Seq::<char>::empty(),
{
    String::with_capacity(n)
}

/// `String::push`: appends one character.
#[verifier::external_body]
pub(crate) fn push_char(s: &mut String, c: char)
    ensures
        final(s)@ == old(s)@.push(c),
{
    s.push(c)
}

// ---------------------------------------------------------------------------
// Small exec helpers

/// The digit character of `d < 10`.
pub(crate) fn digit(d: u8) -> (c: char)
    requires
        d < 10,
    ensures
        c == digit_char(d as nat),
{
    (d + 48) as char
}

/// The lower-case hex digit character of `d < 16`.
pub(crate) fn hex_digit(d: u8) -> (c: char)
    requires
        d < 16,
    ensures
        c == hex_char(d as nat),
{
    if d < 10 {
        (d + 48) as char
    } else {
        (d + 87) as char
    }
}

/// Append the decimal writing of `n`.
pub(crate) fn push_dec(s: &mut String, n: u64)
    ensures
        final(s)@ == old(s)@ + dec(n as nat),
    decreases n,
{
    if n >= 10 {
        push_dec(s, n / 10);
    }
    let d = (n % 10) as u8;
    push_char(s, digit(d));
    assert(final(s)@ =~= old(s)@ + dec(n as nat)) by {
        if n >= 10 {
            assert(dec(n as nat) == dec((n / 10) as nat).push(digit_char((n % 10) as nat)));
        } else {
            assert(dec(n as nat) == seq![digit_char(n as nat)]);
        }
    }
}

/// Append the JSON escaping of one character.
pub(crate) fn push_esc_char(o: &mut String, c: char)
    ensures
        final(o)@ == old(o)@ + esc_char(c),
{
    if c == '"' {
        push_char(o, '\\');
        push_char(o, '"');
    } else if c == '\\' {
        push_char(o, '\\');
        push_char(o, '\\');
    } else if c == '\n' {
        push_char(o, '\\');
        push_char(o, 'n');
    } else if c == '\r' {
        push_char(o, '\\');
        push_char(o, 'r');
    } else if c == '\t' {
        push_char(o, '\\');
        push_char(o, 't');
    } else if (c as u32) < 0x20 {
        let u = c as u32;
        push_char(o, '\\');
        push_char(o, 'u');
        push_char(o, '0');
        push_char(o, '0');
        push_char(o, hex_digit((u / 16) as u8));
        push_char(o, hex_digit((u % 16) as u8));
        assert(hex_char(((u as nat) / 4096) % 16) == '0');
        assert(hex_char(((u as nat) / 256) % 16) == '0');
        assert(((u as nat) / 16) % 16 == (u / 16) as nat);
    } else {
        push_char(o, c);
    }
    assert(final(o)@ =~= old(o)@ + esc_char(c));
}

/// Append the JSON escaping of a whole text.
pub(crate) fn push_esc(o: &mut String, s: &str)
    ensures
        final(o)@ == old(o)@ + esc_spec(s@),
{
    let ghost start = o@;
    for c in it: s.chars()
        invariant
            it.seq() == s@,
            0 <= it.index() <= s@.len(),
            o@ == start + esc_spec(s@.take(it.index() as int)),
    {
        let ghost i = it.index() as int;
        proof {
            assert(s@.take(i + 1).drop_last() =~= s@.take(i));
            assert(s@.take(i + 1).last() == c);
        }
        push_esc_char(o, c);
        assert(o@ =~= start + esc_spec(s@.take(i + 1)));
    }
    assert(s@.take(s@.len() as int) =~= s@);
}

// ---------------------------------------------------------------------------
// The buffer

/// A growable output buffer.
pub struct Buf(String);

impl View for Buf {
    type V = Seq<char>;

    closed spec fn view(&self) -> Seq<char> {
        self.0@
    }
}

impl Default for Buf {
    fn default() -> (b: Buf)
        ensures
            b@ == Seq::<char>::empty(),
    {
        Buf::new()
    }
}

impl Buf {
    pub fn new() -> (b: Buf)
        ensures
            b@ == Seq::<char>::empty(),
    {
        Buf(string_with_capacity(4096))
    }

    pub fn with_capacity(n: usize) -> (b: Buf)
        requires
            n <= isize::MAX,
        ensures
            b@ == Seq::<char>::empty(),
    {
        Buf(string_with_capacity(n))
    }

    /// Append text that is already valid JSON, or is structural punctuation.
    pub fn raw(&mut self, s: &str)
        ensures
            final(self)@ == old(self)@ + s@,
    {
        self.0.append(s);
    }

    /// Append a quoted, escaped string.
    pub fn str(&mut self, s: &str)
        ensures
            final(self)@ == old(self)@ + quoted(s@),
    {
        push_char(&mut self.0, '"');
        let e = esc(s);
        self.0.append(e.as_str());
        push_char(&mut self.0, '"');
        assert(self@ =~= old(self)@ + quoted(s@));
    }

    pub fn num(&mut self, n: u64)
        ensures
            final(self)@ == old(self)@ + dec(n as nat),
    {
        push_dec(&mut self.0, n);
    }

    pub fn bool(&mut self, b: bool)
        ensures
            final(self)@ == old(self)@ + bool_text(b),
    {
        if b {
            push_char(&mut self.0, 't');
            push_char(&mut self.0, 'r');
            push_char(&mut self.0, 'u');
            push_char(&mut self.0, 'e');
        } else {
            push_char(&mut self.0, 'f');
            push_char(&mut self.0, 'a');
            push_char(&mut self.0, 'l');
            push_char(&mut self.0, 's');
            push_char(&mut self.0, 'e');
        }
        assert(self@ =~= old(self)@ + bool_text(b));
    }

    /// `"key":` — the caller writes the value.
    pub fn key(&mut self, k: &str)
        ensures
            final(self)@ == old(self)@ + key_text(k@),
    {
        push_char(&mut self.0, '"');
        self.0.append(k);
        push_char(&mut self.0, '"');
        push_char(&mut self.0, ':');
        assert(self@ =~= old(self)@ + key_text(k@));
    }

    pub fn field_str(&mut self, k: &str, v: &str)
        ensures
            final(self)@ == old(self)@ + field_str_text(k@, v@),
    {
        self.key(k);
        self.str(v);
        assert(self@ =~= old(self)@ + field_str_text(k@, v@));
    }

    pub fn field_num(&mut self, k: &str, v: u64)
        ensures
            final(self)@ == old(self)@ + field_num_text(k@, v as nat),
    {
        self.key(k);
        self.num(v);
        assert(self@ =~= old(self)@ + field_num_text(k@, v as nat));
    }

    pub fn field_bool(&mut self, k: &str, v: bool)
        ensures
            final(self)@ == old(self)@ + field_bool_text(k@, v),
    {
        self.key(k);
        self.bool(v);
        assert(self@ =~= old(self)@ + field_bool_text(k@, v));
    }

    /// `"key":<already-JSON>`
    pub fn field_raw(&mut self, k: &str, v: &str)
        ensures
            final(self)@ == old(self)@ + field_raw_text(k@, v@),
    {
        self.key(k);
        self.raw(v);
        assert(self@ =~= old(self)@ + field_raw_text(k@, v@));
    }

    pub fn comma(&mut self)
        ensures
            final(self)@ == old(self)@.push(','),
    {
        push_char(&mut self.0, ',');
    }

    /// The length in bytes of the UTF-8 text.
    pub fn len(&self) -> (n: usize)
        ensures
            n == vstd::utf8::encode_utf8(self@).len(),
    {
        self.0.as_str().as_bytes().len()
    }

    pub fn is_empty(&self) -> (b: bool)
        ensures
            b == (self@.len() == 0),
    {
        self.0.as_str().is_empty()
    }

    pub fn as_str(&self) -> (s: &str)
        ensures
            s@ == self@,
    {
        self.0.as_str()
    }

    pub fn into_string(self) -> (s: String)
        ensures
            s@ == self@,
    {
        self.0
    }
}

/// JSON string escaping: `"`, `\`, newline, carriage return and tab by their
/// short escapes, other control characters as `\u00XX`, everything else as is.
pub fn esc(s: &str) -> (r: String)
    ensures
        r@ == esc_spec(s@),
{
    let mut o = string_with_capacity(2);
    push_esc(&mut o, s);
    o
}

/// A tagged frame: `{"t":"<tag>"<fields>}`. The fields are written by the
/// caller, each preceded by a comma.
pub fn frame(tag: &str, fields: &str) -> (r: String)
    ensures
        r@ == frame_text(tag@, fields@),
{
    let hint = fields.len();
    let mut o = string_with_capacity(if hint <= 65536 {
        hint + 16
    } else {
        65536
    });
    push_char(&mut o, '{');
    push_char(&mut o, '"');
    push_char(&mut o, 't');
    push_char(&mut o, '"');
    push_char(&mut o, ':');
    push_char(&mut o, '"');
    o.append(tag);
    push_char(&mut o, '"');
    o.append(fields);
    push_char(&mut o, '}');
    assert(o@ =~= frame_text(tag@, fields@));
    o
}

/// An error frame, in the same shape the executive uses for a failed
/// request, so a client has one error path and not two.
pub fn error_frame(code: &str, message: &str) -> (r: String)
    ensures
        r@ == frame_text(
            seq!['e', 'r', 'r', 'o', 'r'],
            seq![','] + field_str_text(seq!['c', 'o', 'd', 'e'], code@) + seq![',']
                + field_str_text(seq!['m', 'e', 's', 's', 'a', 'g', 'e'], message@),
        ),
{
    let mut b = Buf::new();
    b.comma();
    b.field_str("code", code);
    b.comma();
    b.field_str("message", message);
    proof {
        reveal_strlit("code");
        reveal_strlit("message");
        reveal_strlit("error");
    }
    let fields = b.into_string();
    let r = frame("error", fields.as_str());
    assert(fields@ =~= seq![','] + field_str_text(seq!['c', 'o', 'd', 'e'], code@) + seq![',']
        + field_str_text(seq!['m', 'e', 's', 's', 'a', 'g', 'e'], message@));
    assert("error"@ =~= seq!['e', 'r', 'r', 'o', 'r']);
    r
}

} // verus!
