//! The few pieces of text handling the line protocol needs: Unicode
//! whitespace, splitting into words, comparing, finding a character, and
//! reading an unsigned decimal number the way the standard library's
//! `str::parse` reads one.

use vstd::prelude::*;

verus! {

// ---------------------------------------------------------------------------
// Whitespace and words

/// Unicode `White_Space`, the characters `char::is_whitespace` accepts.
pub open spec fn is_ws(c: char) -> bool {
    let u = c as u32;
    ||| (0x09 <= u && u <= 0x0D)
    ||| u == 0x20
    ||| u == 0x85
    ||| u == 0xA0
    ||| u == 0x1680
    ||| (0x2000 <= u && u <= 0x200A)
    ||| u == 0x2028
    ||| u == 0x2029
    ||| u == 0x202F
    ||| u == 0x205F
    ||| u == 0x3000
}

pub fn is_whitespace(c: char) -> (b: bool)
    ensures
        b == is_ws(c),
{
    let u = c as u32;
    (0x09 <= u && u <= 0x0D) || u == 0x20 || u == 0x85 || u == 0xA0 || u == 0x1680 || (0x2000
        <= u && u <= 0x200A) || u == 0x2028 || u == 0x2029 || u == 0x202F || u == 0x205F || u
        == 0x3000
}

/// The maximal runs of non-whitespace characters of `s`, in order: what
/// `str::split_whitespace` yields (and so also what it yields after `trim`).
pub open spec fn words(s: Seq<char>) -> Seq<Seq<char>>
    decreases s.len(),
{
    if s.len() == 0 {
        Seq::empty()
    } else {
        let p = s.drop_last();
        let c = s.last();
        let w = words(p);
        if is_ws(c) {
            w
        } else if p.len() > 0 && !is_ws(p.last()) && w.len() > 0 {
            w.update(w.len() - 1, w.last().push(c))
        } else {
            w.push(seq![c])
        }
    }
}

/// A text that does not end in whitespace has at least one word.
proof fn lemma_words_nonempty(s: Seq<char>)
    requires
        s.len() > 0,
        !is_ws(s.last()),
    ensures
        words(s).len() > 0,
    decreases s.len(),
{
}

/// The words of `s`.
pub fn split_words(s: &str) -> (r: Vec<String>)
    ensures
        r@.len() == words(s@).len(),
        forall|i: int| 0 <= i < r@.len() ==> #[trigger] r@[i]@ == words(s@)[i],
{
    let mut out: Vec<String> = Vec::new();
    let mut cur = String::new();
    let mut in_word = false;
    for c in it: s.chars()
        invariant
            it.seq() == s@,
            0 <= it.index() <= s@.len(),
            in_word == (it.index() > 0 && !is_ws(s@[it.index() - 1])),
            ({
                let w = words(s@.take(it.index() as int));
                &&& w.len() == out@.len() + if in_word {
                    1int
                } else {
                    0int
                }
                &&& forall|i: int| 0 <= i < out@.len() ==> #[trigger] out@[i]@ == w[i]
                &&& in_word ==> cur@ == w.last()
            }),
    {
        let ghost i = it.index() as int;
        let ghost p = s@.take(i);
        let ghost q = s@.take(i + 1);
        proof {
            assert(q.drop_last() =~= p);
            assert(q.last() == c);
            if i > 0 {
                assert(p.last() == s@[i - 1]);
                if !is_ws(p.last()) {
                    lemma_words_nonempty(p);
                }
            }
        }
        if is_whitespace(c) {
            if in_word {
                let done = cur;
                out.push(done);
                cur = String::new();
                in_word = false;
            }
        } else {
            if in_word {
                crate::json::push_char(&mut cur, c);
            } else {
                cur = String::new();
                crate::json::push_char(&mut cur, c);
                assert(cur@ =~= seq![c]);
                in_word = true;
            }
        }
        proof {
            assert(s@[i] == c);
        }
    }
    if in_word {
        out.push(cur);
    }
    assert(s@.take(s@.len() as int) =~= s@);
    out
}

// ---------------------------------------------------------------------------
// Comparing and finding

/// Whether two texts are the same.
pub fn str_eq(a: &str, b: &str) -> (r: bool)
    ensures
        r == (a@ == b@),
{
    let n = a.unicode_len();
    if n != b.unicode_len() {
        return false;
    }
    let mut i: usize = 0;
    while i < n
        invariant
            n == a@.len(),
            n == b@.len(),
            i <= n,
            forall|j: int| 0 <= j < i ==> a@[j] == b@[j],
        decreases n - i,
    {
        if a.get_char(i) != b.get_char(i) {
            return false;
        }
        i = i + 1;
    }
    assert(a@ =~= b@);
    true
}

/// The position of the first occurrence of `c` in `s`, if any.
pub open spec fn first_index(s: Seq<char>, c: char) -> Option<int> {
    if exists|i: int| 0 <= i < s.len() && s[i] == c {
        Some(choose|i: int| 0 <= i < s.len() && s[i] == c && forall|j: int| 0 <= j < i ==> s[j] != c)
    } else {
        None
    }
}

/// Where `c` first occurs in `s`, counted in characters.
pub fn find_char(s: &str, c: char) -> (r: Option<usize>)
    ensures
        match r {
            Some(i) => 0 <= i < s@.len() && s@[i as int] == c && forall|j: int|
                0 <= j < i ==> s@[j] != c,
            None => forall|j: int| 0 <= j < s@.len() ==> s@[j] != c,
        },
{
    let n = s.unicode_len();
    let mut k: usize = 0;
    for x in it: s.chars()
        invariant
            n == s@.len(),
            it.seq() == s@,
            0 <= it.index() <= s@.len(),
            k == it.index(),
            forall|j: int| 0 <= j < it.index() ==> s@[j] != c,
    {
        if x == c {
            return Some(k);
        }
        k = k + 1;
    }
    None
}

// ---------------------------------------------------------------------------
// Unsigned decimal numbers

pub open spec fn is_digit(c: char) -> bool {
    '0' <= c && c <= '9'
}

pub open spec fn all_digits(s: Seq<char>) -> bool {
    forall|i: int| 0 <= i < s.len() ==> is_digit(#[trigger] s[i])
}

/// The value of a run of decimal digits.
pub open spec fn digits_value(s: Seq<char>) -> nat
    decreases s.len(),
{
    if s.len() == 0 {
        0
    } else {
        digits_value(s.drop_last()) * 10 + ((s.last() as u32) - 48) as nat
    }
}

/// What `str::parse` gives for an unsigned integer type whose largest value
/// is `max`: an optional `+`, then at least one decimal digit and nothing
/// else, and a value that fits.
pub open spec fn parse_uint(s: Seq<char>, max: nat) -> Option<nat> {
    let d = if s.len() > 0 && s[0] == '+' {
        s.drop_first()
    } else {
        s
    };
    if d.len() == 0 || !all_digits(d) || digits_value(d) > max {
        None
    } else {
        Some(digits_value(d))
    }
}

/// Digits only add: a run of digits is worth at least any of its prefixes.
proof fn lemma_digits_value_prefix(s: Seq<char>, i: int)
    requires
        0 <= i <= s.len(),
        all_digits(s),
    ensures
        digits_value(s.take(i)) <= digits_value(s),
    decreases s.len(),
{
    if i < s.len() {
        assert(s.drop_last().take(i) =~= s.take(i));
        lemma_digits_value_prefix(s.drop_last(), i);
    } else {
        assert(s.take(i) =~= s);
    }
}

/// Read an unsigned decimal number no larger than `max`.
pub fn parse_uint_exec(s: &str, max: u64) -> (r: Option<u64>)
    ensures
        match r {
            Some(v) => parse_uint(s@, max as nat) == Some(v as nat),
            None => parse_uint(s@, max as nat) is None,
        },
{
    let ghost d = if s@.len() > 0 && s@[0] == '+' {
        s@.drop_first()
    } else {
        s@
    };
    let mut val: u64 = 0;
    let mut seen: usize = 0;
    let mut plus = false;
    let mut at_start = true;
    let n = s.unicode_len();
    for c in it: s.chars()
        invariant
            n == s@.len(),
            it.seq() == s@,
            at_start == (it.index() == 0),
            0 <= it.index() <= s@.len(),
            d == (if s@.len() > 0 && s@[0] == '+' {
                s@.drop_first()
            } else {
                s@
            }),
            plus == (it.index() > 0 && s@[0] == '+'),
            seen as int == it.index() - (if plus {
                1int
            } else {
                0int
            }),
            all_digits(d.take(seen as int)),
            val as nat == digits_value(d.take(seen as int)),
            val <= max,
    {
        let ghost i = it.index() as int;
        proof {
            assert(c == s@[i]);
        }
        if at_start && c == '+' {
            plus = true;
            at_start = false;
        } else {
            at_start = false;
            if !('0' <= c && c <= '9') {
                proof {
                    assert(d[seen as int] == c);
                }
                return None;
            }
            let dv = (c as u32 - 48) as u64;
            proof {
                assert(d[seen as int] == c);
                assert(d.take(seen + 1).drop_last() =~= d.take(seen as int));
                assert(d.take(seen + 1).last() == c);
                assert(all_digits(d.take(seen + 1)));
            }
            if dv > max || val > (max - dv) / 10 {
                proof {
                    assert(digits_value(d.take(seen + 1)) == val * 10 + dv);
                    if dv <= max {
                        assert(val * 10 + dv > max) by (nonlinear_arith)
                            requires
                                val > (max - dv) / 10,
                                dv <= max,
                        ;
                    }
                    if all_digits(d) {
                        lemma_digits_value_prefix(d, seen + 1);
                    }
                }
                return None;
            }
            proof {
                assert(val * 10 + dv <= max) by (nonlinear_arith)
                    requires
                        val <= (max - dv) / 10,
                        dv <= max,
                ;
            }
            val = val * 10 + dv;
            seen = seen + 1;
        }
    }
    proof {
        assert(d.take(seen as int) =~= d);
    }
    if seen == 0 {
        return None;
    }
    Some(val)
}

/// `str::parse::<u64>`.
pub fn parse_u64(s: &str) -> (r: Option<u64>)
    ensures
        match r {
            Some(v) => parse_uint(s@, u64::MAX as nat) == Some(v as nat),
            None => parse_uint(s@, u64::MAX as nat) is None,
        },
{
    parse_uint_exec(s, u64::MAX)
}

/// `str::parse::<u32>`.
pub fn parse_u32(s: &str) -> (r: Option<u32>)
    ensures
        match r {
            Some(v) => parse_uint(s@, u32::MAX as nat) == Some(v as nat),
            None => parse_uint(s@, u32::MAX as nat) is None,
        },
{
    match parse_uint_exec(s, u32::MAX as u64) {
        Some(v) => Some(v as u32),
        None => None,
    }
}

/// `str::parse::<u16>`.
pub fn parse_u16(s: &str) -> (r: Option<u16>)
    ensures
        match r {
            Some(v) => parse_uint(s@, u16::MAX as nat) == Some(v as nat),
            None => parse_uint(s@, u16::MAX as nat) is None,
        },
{
    match parse_uint_exec(s, u16::MAX as u64) {
        Some(v) => Some(v as u16),
        None => None,
    }
}


// ---------------------------------------------------------------------------
// Trimming, prefixes, cases and lines

/// `s` without its leading whitespace.
pub open spec fn trim_start(s: Seq<char>) -> Seq<char>
    decreases s.len(),
{
    if s.len() > 0 && is_ws(s[0]) {
        trim_start(s.drop_first())
    } else {
        s
    }
}

/// `s` without its trailing whitespace.
pub open spec fn trim_end(s: Seq<char>) -> Seq<char>
    decreases s.len(),
{
    if s.len() > 0 && is_ws(s.last()) {
        trim_end(s.drop_last())
    } else {
        s
    }
}

/// `str::trim`: without leading or trailing whitespace.
pub open spec fn trim(s: Seq<char>) -> Seq<char> {
    trim_end(trim_start(s))
}

proof fn lemma_trim_start_skip(s: Seq<char>, i: int)
    requires
        0 <= i <= s.len(),
        forall|j: int| 0 <= j < i ==> is_ws(#[trigger] s[j]),
        i == s.len() || !is_ws(s[i]),
    ensures
        trim_start(s) == s.skip(i),
    decreases i,
{
    if i == 0 {
        assert(s.skip(0) =~= s);
    } else {
        lemma_trim_start_skip(s.drop_first(), i - 1);
        assert(s.drop_first().skip(i - 1) =~= s.skip(i));
    }
}

proof fn lemma_trim_end_take(s: Seq<char>, k: int)
    requires
        0 <= k <= s.len(),
        forall|j: int| k <= j < s.len() ==> is_ws(#[trigger] s[j]),
        k == 0 || !is_ws(s[k - 1]),
    ensures
        trim_end(s) == s.take(k),
    decreases s.len() - k,
{
    if k == s.len() {
        assert(s.take(k) =~= s);
    } else {
        lemma_trim_end_take(s.drop_last(), k);
        assert(s.drop_last().take(k) =~= s.take(k));
    }
}

/// `str::trim`.
pub fn trim_str(s: &str) -> (r: &str)
    ensures
        r@ == trim(s@),
{
    let n = s.unicode_len();
    let mut i: usize = 0;
    while i < n && is_whitespace(s.get_char(i))
        invariant
            n == s@.len(),
            i <= n,
            forall|j: int| 0 <= j < i ==> is_ws(#[trigger] s@[j]),
        decreases n - i,
    {
        i = i + 1;
    }
    proof {
        lemma_trim_start_skip(s@, i as int);
    }
    let mut k: usize = n;
    while k > i && is_whitespace(s.get_char(k - 1))
        invariant
            n == s@.len(),
            i <= k <= n,
            forall|j: int| k <= j < n ==> is_ws(#[trigger] s@[j]),
        decreases k,
    {
        k = k - 1;
    }
    proof {
        let t = s@.skip(i as int);
        assert forall|j: int| k - i <= j < t.len() implies is_ws(#[trigger] t[j]) by {
            assert(t[j] == s@[i + j]);
        }
        if k > i {
            assert(t[k - i - 1] == s@[k - 1]);
        }
        lemma_trim_end_take(t, k - i);
        assert(t.take(k - i) =~= s@.subrange(i as int, k as int));
    }
    s.substring_char(i, k)
}

/// Whether `s` begins with `p`.
pub open spec fn starts_with(s: Seq<char>, p: Seq<char>) -> bool {
    p.len() <= s.len() && s.take(p.len() as int) == p
}

pub fn str_starts_with(s: &str, p: &str) -> (b: bool)
    ensures
        b == starts_with(s@, p@),
{
    let n = s.unicode_len();
    let m = p.unicode_len();
    if m > n {
        return false;
    }
    let head = s.substring_char(0, m);
    str_eq(head, p)
}

/// Whether `c` occurs in `s`.
pub fn contains_char(s: &str, c: char) -> (b: bool)
    ensures
        b == s@.contains(c),
{
    match find_char(s, c) {
        Some(i) => {
            assert(s@[i as int] == c);
            true
        },
        None => false,
    }
}

/// ASCII upper case to lower case; everything else as it is.
pub open spec fn ascii_lower(c: char) -> char {
    if 'A' <= c && c <= 'Z' {
        ((c as u32) + 32) as char
    } else {
        c
    }
}

/// `str::eq_ignore_ascii_case`.
pub open spec fn eq_ignore_ascii_case(a: Seq<char>, b: Seq<char>) -> bool {
    a.len() == b.len() && forall|i: int| 0 <= i < a.len() ==> ascii_lower(#[trigger] a[i]) == ascii_lower(b[i])
}

fn ascii_lower_exec(c: char) -> (r: char)
    ensures
        r == ascii_lower(c),
{
    if 'A' <= c && c <= 'Z' {
        ((c as u8) + 32) as char
    } else {
        c
    }
}

pub fn str_eq_ignore_ascii_case(a: &str, b: &str) -> (r: bool)
    ensures
        r == eq_ignore_ascii_case(a@, b@),
{
    let n = a.unicode_len();
    if n != b.unicode_len() {
        return false;
    }
    let mut i: usize = 0;
    while i < n
        invariant
            n == a@.len(),
            n == b@.len(),
            i <= n,
            forall|j: int| 0 <= j < i ==> ascii_lower(#[trigger] a@[j]) == ascii_lower(b@[j]),
        decreases n - i,
    {
        if ascii_lower_exec(a.get_char(i)) != ascii_lower_exec(b.get_char(i)) {
            return false;
        }
        i = i + 1;
    }
    true
}

/// Whether the separator `sep` occurs in `s` at position `i`.
pub open spec fn sep_at(s: Seq<char>, sep: Seq<char>, i: int) -> bool {
    0 <= i && i + sep.len() <= s.len() && s.subrange(i, i + sep.len()) == sep
}

/// Where the separator first occurs in `s` at or after `i`.
pub open spec fn first_sep(s: Seq<char>, sep: Seq<char>, i: int) -> Option<int>
    decreases s.len() - i,
{
    if i < 0 || i >= s.len() || i + sep.len() > s.len() {
        None
    } else if sep_at(s, sep, i) {
        Some(i)
    } else {
        first_sep(s, sep, i + 1)
    }
}

pub proof fn lemma_first_sep(s: Seq<char>, sep: Seq<char>, i: int)
    requires
        0 <= i,
    ensures
        match first_sep(s, sep, i) {
            Some(k) => i <= k && sep_at(s, sep, k) && forall|j: int|
                i <= j < k ==> !#[trigger] sep_at(s, sep, j),
            None => forall|j: int| i <= j < s.len() ==> !#[trigger] sep_at(s, sep, j),
        },
    decreases s.len() - i,
{
    if i < s.len() && i + sep.len() <= s.len() && !sep_at(s, sep, i) {
        lemma_first_sep(s, sep, i + 1);
    }
}

/// The pieces of `s` between occurrences of a non-empty separator `sep`, as
/// `str::split` yields them: always at least one.
pub open spec fn split_on(s: Seq<char>, sep: Seq<char>) -> Seq<Seq<char>>
    decreases s.len(),
{
    match first_sep(s, sep, 0) {
        Some(i) => if sep.len() > 0 {
            proof {
                lemma_first_sep(s, sep, 0);
            }
            seq![s.take(i)] + split_on(s.skip(i + sep.len()), sep)
        } else {
            seq![s]
        },
        None => seq![s],
    }
}

/// Split `s` at every occurrence of `sep`, which is one or two characters.
pub fn split_str(s: &str, sep: &str) -> (r: Vec<String>)
    requires
        1 <= sep@.len() <= 2,
    ensures
        r@.len() == split_on(s@, sep@).len(),
        forall|i: int| 0 <= i < r@.len() ==> #[trigger] r@[i]@ == split_on(s@, sep@)[i],
{
    let n = s.unicode_len();
    let m = sep.unicode_len();
    let mut out: Vec<String> = Vec::new();
    let mut start: usize = 0;
    let mut i: usize = 0;
    let ghost mut done: Seq<Seq<char>> = Seq::empty();
    assert(s@.skip(0) =~= s@);
    while m <= n - i
        invariant
            n == s@.len(),
            m == sep@.len(),
            1 <= m <= 2,
            start <= i,
            i <= n,
            out@.len() == done.len(),
            forall|j: int| 0 <= j < out@.len() ==> #[trigger] out@[j]@ == done[j],
            split_on(s@, sep@) == done + split_on(s@.skip(start as int), sep@),
            forall|j: int| start <= j < i ==> !#[trigger] sep_at(s@, sep@, j),
        decreases n - i,
    {
        let piece = s.substring_char(i, i + m);
        if str_eq(piece, sep) {
            let line = s.substring_char(start, i);
            proof {
                let t = s@.skip(start as int);
                let k = (i - start) as int;
                assert(t.subrange(k, k + m) =~= s@.subrange(i as int, i + m));
                assert(sep_at(t, sep@, k));
                assert forall|j: int| 0 <= j < k implies !#[trigger] sep_at(t, sep@, j) by {
                    assert(t.subrange(j, j + m) =~= s@.subrange(start + j, start + j + m));
                    assert(!sep_at(s@, sep@, start + j));
                }
                lemma_first_sep(t, sep@, 0);
                let c = first_sep(t, sep@, 0)->0;
                assert(first_sep(t, sep@, 0) is Some);
                assert(c == k) by {
                    if c < k {
                    } else if c > k {
                    }
                }
                assert(t.take(k) =~= line@);
                assert(t.skip(k + m) =~= s@.skip(i + m));
                assert(split_on(t, sep@) == seq![line@] + split_on(s@.skip(i + m), sep@));
                done = done.push(line@);
                assert(split_on(s@, sep@) =~= done + split_on(s@.skip(i + m), sep@));
            }
            out.push(String::from_str(line));
            i = i + m;
            start = i;
        } else {
            proof {
                assert(!sep_at(s@, sep@, i as int));
            }
            i = i + 1;
        }
    }
    let last = s.substring_char(start, n);
    proof {
        let t = s@.skip(start as int);
        assert(t =~= last@);
        assert forall|c: int| !#[trigger] sep_at(t, sep@, c) by {
            if sep_at(t, sep@, c) {
                assert(t.subrange(c, c + m) =~= s@.subrange(start + c, start + c + m));
                assert(sep_at(s@, sep@, start + c));
            }
        }
        lemma_first_sep(t, sep@, 0);
        assert(first_sep(t, sep@, 0) is None);
        assert(split_on(t, sep@) == seq![t]);
        done = done.push(last@);
        assert(split_on(s@, sep@) =~= done);
    }
    out.push(String::from_str(last));
    out
}

} // verus!
