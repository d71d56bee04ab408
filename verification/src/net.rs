//! Where the server listens, and where a headset could reach it.

use vstd::prelude::*;
use crate::json::dec;
use crate::text::{parse_uint, split_on, starts_with, trim, words};

verus! {

/// The address to listen on for what `--addr` was given: a bare port means
/// every interface, and so does a port after a bare `:`; anything else is
/// taken as it is.
pub open spec fn normalise_addr_spec(v: Seq<char>) -> Seq<char> {
    match parse_uint(v, 65535) {
        Some(port) => "0.0.0.0:"@ + dec(port),
        None => if v.len() > 0 && v[0] == ':' {
            "0.0.0.0:"@ + v.drop_first()
        } else {
            v
        },
    }
}

/// Accept `9099`, `:9099`, `0.0.0.0:9099` and `localhost:9099` alike.
pub fn normalise_addr(v: &str) -> (r: String)
    ensures
        r@ == normalise_addr_spec(v@),
{
    match crate::text::parse_u16(v) {
        Some(port) => {
            let mut b = crate::json::Buf::new();
            b.raw("0.0.0.0:");
            b.num(port as u64);
            b.into_string()
        },
        None => {
            let n = v.unicode_len();
            if n > 0 && v.get_char(0) == ':' {
                let mut b = crate::json::Buf::new();
                b.raw("0.0.0.0:");
                b.raw(v.substring_char(1, n));
                assert(v@.subrange(1, n as int) =~= v@.drop_first());
                b.into_string()
            } else {
                String::from_str(v)
            }
        },
    }
}

/// The address a line of an `ifconfig` listing gives, if it is an IPv4
/// address other than loopback: the first word after `inet `.
pub open spec fn inet_of(line: Seq<char>) -> Option<Seq<char>> {
    let t = trim(line);
    if starts_with(t, "inet "@) {
        let ws = words(t.skip(5));
        if ws.len() > 0 && !starts_with(ws[0], "127."@) && !ws[0].contains(':') {
            Some(ws[0])
        } else {
            None
        }
    } else {
        None
    }
}

/// The addresses the first `n` lines give, in order.
pub open spec fn inet_list(lines: Seq<Seq<char>>, n: nat) -> Seq<Seq<char>>
    decreases n,
{
    if n == 0 {
        Seq::empty()
    } else {
        let prev = inet_list(lines, (n - 1) as nat);
        match inet_of(lines[n - 1]) {
            Some(ip) => prev.push(ip),
            None => prev,
        }
    }
}

/// The addresses an `ifconfig` listing names, line by line.
pub open spec fn inet_addresses_spec(text: Seq<char>) -> Seq<Seq<char>> {
    let lines = split_on(text, seq!['\n']);
    inet_list(lines, lines.len())
}

/// The IPv4 addresses, other than loopback, that an `ifconfig` listing
/// names: those a headset on the same network might reach.
pub fn inet_addresses(text: &str) -> (r: Vec<String>)
    ensures
        r@.len() == inet_addresses_spec(text@).len(),
        forall|i: int| 0 <= i < r@.len() ==> #[trigger] r@[i]@ == inet_addresses_spec(text@)[i],
{
    proof {
        reveal_strlit("\n");
        reveal_strlit("inet ");
        reveal_strlit("127.");
        assert("\n"@ =~= seq!['\n']);
    }
    let lines = crate::text::split_str(text, "\n");
    let ghost ls = split_on(text@, seq!['\n']);
    let n = lines.len();
    let mut out: Vec<String> = Vec::new();
    let mut i: usize = 0;
    while i < n
        invariant
            n == ls.len(),
            lines@.len() == n,
            forall|j: int| 0 <= j < n ==> #[trigger] lines@[j]@ == ls[j],
            i <= n,
            out@.len() == inet_list(ls, i as nat).len(),
            forall|j: int| 0 <= j < out@.len() ==> #[trigger] out@[j]@ == inet_list(ls, i as nat)[j],
        decreases n - i,
    {
        let ghost prev = out@;
        let t = crate::text::trim_str(lines[i].as_str());
        assert(t@ == trim(ls[i as int]));
        let mut found: Option<String> = None;
        if crate::text::str_starts_with(t, "inet ") {
            proof {
                reveal_strlit("inet ");
            }
            let m = t.unicode_len();
            let rest = t.substring_char(5, m);
            assert(rest@ =~= t@.skip(5));
            let ws = crate::text::split_words(rest);
            if ws.len() > 0 {
                let ip = ws[0].as_str();
                if !crate::text::str_starts_with(ip, "127.") && !crate::text::contains_char(ip, ':') {
                    found = Some(ws[0].clone());
                }
            }
        }
        match found {
            Some(ip) => {
                out.push(ip);
            },
            None => {},
        }
        proof {
            let cur = inet_list(ls, (i + 1) as nat);
            assert(cur == match inet_of(ls[i as int]) {
                Some(ip) => inet_list(ls, i as nat).push(ip),
                None => inet_list(ls, i as nat),
            });
            assert forall|j: int| 0 <= j < out@.len() implies #[trigger] out@[j]@ == cur[j] by {
                if j < prev.len() {
                    assert(out@[j] == prev[j]);
                }
            }
        }
        i = i + 1;
    }
    out
}

} // verus!
