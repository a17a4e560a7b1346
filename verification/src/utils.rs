use vstd::prelude::*;

use crate::globals::RQUE_DEFAULT_PORT;

verus! {

/// The characters of `s`, in order.
pub fn chars_of(s: &str) -> (v: Vec<char>)
    ensures
        v@ == s@,
{
    let mut v: Vec<char> = Vec::new();
    for c in it: s.chars()
        invariant
            it.seq() == s@,
            v@ == it.seq().take(it.index() as int),
    {
        v.push(c);
        assert(it.seq().take(it.index() + 1) =~= v@);
    }
    assert(v@ =~= s@);
    v
}

/// Whether `a` and `b` are the same text.
pub fn same_text(a: &str, b: &str) -> (same: bool)
    ensures
        same == (a@ == b@),
{
    let x = chars_of(a);
    let y = chars_of(b);
    if x.len() != y.len() {
        return false;
    }
    let mut i: usize = 0;
    while i < x.len()
        invariant
            x@ == a@,
            y@ == b@,
            x.len() == y.len(),
            0 <= i <= x.len(),
            forall|j: int| 0 <= j < i ==> x@[j] == y@[j],
        decreases x.len() - i,
    {
        if x[i] != y[i] {
            return false;
        }
        i = i + 1;
    }
    assert(a@ =~= b@);
    true
}

/// Whether `text` reads `prefix` and then exactly `rest`.
fn reads_prefix_then(text: &str, prefix: &str, rest: &str) -> (b: bool)
    ensures
        b == (text@ == prefix@ + rest@),
{
    let t = chars_of(text);
    let p = chars_of(prefix);
    let r = chars_of(rest);
    if t.len() < p.len() || t.len() - p.len() != r.len() {
        assert(text@.len() != (prefix@ + rest@).len());
        return false;
    }
    let ghost want = prefix@ + rest@;
    let mut i: usize = 0;
    while i < t.len()
        invariant
            p@ == prefix@,
            t@ == text@,
            r@ == rest@,
            want == prefix@ + rest@,
            t.len() == p.len() + r.len(),
            0 <= i <= t.len(),
            forall|j: int| 0 <= j < i ==> want[j] == t@[j],
        decreases t.len() - i,
    {
        let c = if i < p.len() {
            p[i]
        } else {
            r[i - p.len()]
        };
        assert(c == want[i as int]);
        if c != t[i] {
            return false;
        }
        i = i + 1;
    }
    assert(text@ =~= want);
    true
}

/// Whether a request may go on: where the secret `key` is empty anybody
/// may; else the request's `Authorization` header must read `Bearer `
/// followed by the key (`authorization` is `None` where the header is
/// missing or not readable as text).
pub fn is_auth(key: &str, authorization: Option<&str>) -> (b: bool)
    ensures
        b == (key@.len() == 0 || (authorization matches Some(h) && h@ == "Bearer "@ + key@)),
{
    if key.is_empty() {
        return true;
    }
    match authorization {
        None => false,
        Some(the_value_str) => reads_prefix_then(the_value_str, "Bearer ", key),
    }
}

/// The status of `GET /help`: 200 for an authorized request or one whose
/// peer IP address is `127.0.0.1` (`client_ip` is `None` where the peer
/// address is unknown), else 401.
pub fn show_help(authorized: bool, client_ip: Option<&str>) -> (status: u16)
    ensures
        status == if authorized || (client_ip matches Some(ip) && ip@ == "127.0.0.1"@) {
            200u16
        } else {
            401u16
        },
{
    let valid = if authorized {
        authorized
    } else {
        match client_ip {
            Some(ip) => same_text(ip, "127.0.0.1"),
            None => false,
        }
    };
    if valid {
        200
    } else {
        401
    }
}

/// Whether `c` is a decimal digit.
pub open spec fn is_digit(c: char) -> bool {
    '0' <= c && c <= '9'
}

/// The number that the decimal digits `d` write.
pub open spec fn digits_value(d: Seq<char>) -> int
    decreases d.len(),
{
    if d.len() == 0 {
        0
    } else {
        digits_value(d.drop_last()) * 10 + (d.last() as int - '0' as int)
    }
}

/// `s` without the one `+` that may lead it.
pub open spec fn unsigned_digits(s: Seq<char>) -> Seq<char> {
    if s.len() > 0 && s[0] == '+' {
        s.drop_first()
    } else {
        s
    }
}

/// How std reads a `u16` from text: an optional `+`, then one decimal
/// digit or more and nothing else, of a value that fits.
pub open spec fn spec_parse_u16(s: Seq<char>) -> Option<u16> {
    let d = unsigned_digits(s);
    if d.len() > 0 && (forall|i: int| 0 <= i < d.len() ==> #[trigger] is_digit(d[i]))
        && digits_value(d) <= u16::MAX {
        Some(digits_value(d) as u16)
    } else {
        None
    }
}

proof fn lemma_digits_nonneg(d: Seq<char>)
    requires
        forall|i: int| 0 <= i < d.len() ==> #[trigger] is_digit(d[i]),
    ensures
        digits_value(d) >= 0,
    decreases d.len(),
{
    if d.len() > 0 {
        let e = d.drop_last();
        assert forall|i: int| 0 <= i < e.len() implies #[trigger] is_digit(e[i]) by {
            assert(e[i] == d[i]);
        }
        lemma_digits_nonneg(e);
        assert(is_digit(d[d.len() - 1]));
    }
}

proof fn lemma_digits_grow(d: Seq<char>, k: int)
    requires
        0 <= k <= d.len(),
        forall|i: int| 0 <= i < d.len() ==> #[trigger] is_digit(d[i]),
    ensures
        digits_value(d.take(k)) <= digits_value(d),
    decreases d.len() - k,
{
    if k < d.len() {
        lemma_digits_grow(d, k + 1);
        let t = d.take(k + 1);
        assert(t.drop_last() =~= d.take(k));
        assert forall|i: int| 0 <= i < k implies #[trigger] is_digit(d.take(k)[i]) by {
            assert(d.take(k)[i] == d[i]);
        }
        lemma_digits_nonneg(d.take(k));
        assert(t.last() == d[k]);
        assert(is_digit(d[k]));
    } else {
        assert(d.take(k) =~= d);
    }
}

fn parse_u16(s: &str) -> (r: Option<u16>)
    ensures
        r == spec_parse_u16(s@),
{
    let chars = chars_of(s);
    let start: usize = if chars.len() > 0 && chars[0] == '+' {
        1
    } else {
        0
    };
    let ghost d = unsigned_digits(s@);
    assert(d =~= chars@.subrange(start as int, chars@.len() as int));
    if start >= chars.len() {
        return None;
    }
    let mut value: u32 = 0;
    let mut i: usize = start;
    while i < chars.len()
        invariant
            chars@ == s@,
            d == unsigned_digits(s@),
            d.len() > 0,
            d == chars@.subrange(start as int, chars@.len() as int),
            start <= i <= chars.len(),
            value <= u16::MAX,
            value == digits_value(d.take(i - start)),
            forall|j: int| 0 <= j < i - start ==> #[trigger] is_digit(d[j]),
        decreases chars.len() - i,
    {
        let c = chars[i];
        assert(c == d[i - start]);
        if !('0' <= c && c <= '9') {
            assert(!is_digit(d[i - start]));
            return None;
        }
        assert(d.take(i - start + 1).drop_last() =~= d.take(i - start));
        let digit: u32 = (c as u32) - ('0' as u32);
        value = value * 10 + digit;
        if value > 65535 {
            proof {
                if forall|j: int| 0 <= j < d.len() ==> #[trigger] is_digit(d[j]) {
                    lemma_digits_grow(d, i - start + 1);
                }
            }
            return None;
        }
        i = i + 1;
    }
    assert(d.take(d.len() as int) =~= d);
    Some(value as u16)
}

/// Reads a port number from `raw_arg`: the number and `true` where it reads
/// as a `u16`, else the default port and `false`.
pub fn parse_port(raw_arg: &str) -> (r: (u16, bool))
    ensures
        r == match spec_parse_u16(raw_arg@) {
            Some(n) => (n, true),
            None => (RQUE_DEFAULT_PORT, false),
        },
{
    match parse_u16(raw_arg) {
        Some(num) => (num, true),
        None => (RQUE_DEFAULT_PORT, false),
    }
}

/// The port to listen on: the one given as the first argument if it reads
/// as a port, else the one in the environment if it does, else the
/// default; and whether it is a custom port.
pub fn select_port(arg: Option<&str>, env: Option<&str>) -> (r: (u16, bool))
    ensures
        r == match arg {
            Some(a) if spec_parse_u16(a@) is Some => (spec_parse_u16(a@)->0, true),
            _ => match env {
                Some(e) if spec_parse_u16(e@) is Some => (spec_parse_u16(e@)->0, true),
                _ => (RQUE_DEFAULT_PORT, false),
            },
        },
{
    let (from_arg, arg_ok) = match arg {
        Some(a) => parse_port(a),
        None => (RQUE_DEFAULT_PORT, false),
    };
    if arg_ok {
        return (from_arg, true);
    }
    match env {
        None => (from_arg, false),
        Some(e) => {
            let (the_port, env_ok) = parse_port(e);
            (the_port, env_ok)
        },
    }
}

/// What reading a port number means, as std reads a `u16`: nothing, or a
/// lone `+`, is refused; one decimal digit reads as its value; writing one
/// more digit after decimal digits multiplies the value by ten and adds
/// the digit, and is refused where that passes 65535 or the digits before
/// were already refused; any character other than a decimal digit is
/// refused, except one `+` in front, which changes nothing.
pub proof fn lemma_parse_u16_meaning(s: Seq<char>, c: char)
    ensures
        spec_parse_u16(Seq::empty()) is None,
        spec_parse_u16(seq!['+']) is None,
        '0' <= c <= '9' ==> spec_parse_u16(seq![c]) == Some((c as int - '0' as int) as u16),
        s.len() > 0 && (forall|i: int| 0 <= i < s.len() ==> '0' <= #[trigger] s[i] <= '9') && '0'
            <= c <= '9' ==> spec_parse_u16(s.push(c)) == if spec_parse_u16(s) is Some && (
        spec_parse_u16(s)->0 as int) * 10 + (c as int - '0' as int) <= 65535 {
            Some(((spec_parse_u16(s)->0 as int) * 10 + (c as int - '0' as int)) as u16)
        } else {
            None::<u16>
        },
        (exists|i: int|
            0 <= i < s.len() && !('0' <= #[trigger] s[i] <= '9') && !(i == 0 && s[i] == '+'))
            ==> spec_parse_u16(s) is None,
        s.len() > 0 && s[0] != '+' ==> spec_parse_u16(seq!['+'] + s) == spec_parse_u16(s),
{
    assert(Seq::<char>::empty().len() == 0);
    assert(seq!['+'].drop_first().len() == 0);
    if '0' <= c <= '9' {
        let one = seq![c];
        assert(one.drop_last() =~= Seq::<char>::empty());
        assert(one[0] == c);
        assert(unsigned_digits(one) == one);
        assert(is_digit(one[0]));
        assert(digits_value(one) == c as int - '0' as int);
    }
    if s.len() > 0 && (forall|i: int| 0 <= i < s.len() ==> '0' <= #[trigger] s[i] <= '9') && '0'
        <= c <= '9' {
        let t = s.push(c);
        assert(t.drop_last() =~= s);
        assert(unsigned_digits(t) == t);
        assert(unsigned_digits(s) == s);
        assert forall|i: int| 0 <= i < t.len() implies #[trigger] is_digit(t[i]) by {
            if i < s.len() {
                assert(t[i] == s[i]);
            }
        }
        assert forall|i: int| 0 <= i < s.len() implies #[trigger] is_digit(s[i]) by {
            assert('0' <= s[i] <= '9');
        }
        lemma_digits_nonneg(s);
    }
    if exists|i: int|
        0 <= i < s.len() && !('0' <= #[trigger] s[i] <= '9') && !(i == 0 && s[i] == '+') {
        let i = choose|i: int|
            0 <= i < s.len() && !('0' <= #[trigger] s[i] <= '9') && !(i == 0 && s[i] == '+');
        let d = unsigned_digits(s);
        if s[0] == '+' {
            assert(d[i - 1] == s[i]);
            assert(!is_digit(d[i - 1]));
        } else {
            assert(d[i] == s[i]);
            assert(!is_digit(d[i]));
        }
    }
    if s.len() > 0 && s[0] != '+' {
        assert((seq!['+'] + s).drop_first() =~= s);
    }
}

} // verus!
