//! Socket addresses as text: `a.b.c.d:port`, every number in decimal
//! without leading zeros.

use crate::link::SocketAddress;
use vstd::prelude::*;
use vstd::string::StringSliceAdditionalSpecFns;

verus! {

/// Whether `c` is the ASCII code of a decimal digit.
pub open spec fn is_digit(c: u8) -> bool {
    48 <= c <= 57
}

/// The decimal text of `n`, without leading zeros.
pub open spec fn decimal(n: nat) -> Seq<u8>
    decreases n,
{
    if n < 10 {
        seq![(48 + n) as u8]
    } else {
        decimal(n / 10).push((48 + n % 10) as u8)
    }
}

/// The number that the digits `s` write in decimal.
pub open spec fn dec_value(s: Seq<u8>) -> nat
    decreases s.len(),
{
    if s.len() == 0 {
        0
    } else {
        10 * dec_value(s.drop_last()) + (s.last() - 48) as nat
    }
}

/// How many digits `b` starts with.
pub open spec fn digit_run(b: Seq<u8>) -> nat
    decreases b.len(),
{
    if b.len() > 0 && is_digit(b[0]) {
        1 + digit_run(b.skip(1))
    } else {
        0
    }
}

/// The number that `b` starts with and the length of its text, when `b`
/// starts with the decimal text of a number that is at most `max`.
pub open spec fn number_front(b: Seq<u8>, max: nat) -> Option<(nat, nat)> {
    let n = digit_run(b);
    if n == 0 {
        None
    } else if n > 1 && b[0] == 48 {
        None
    } else if dec_value(b.take(n as int)) > max {
        None
    } else {
        Some((dec_value(b.take(n as int)), n))
    }
}

/// The number that `b` starts with and what follows the separator `c`
/// after it, when `b` starts with the decimal text of a number that is at
/// most `max` and the separator comes next.
pub open spec fn field_front(b: Seq<u8>, max: nat, c: u8) -> Option<(nat, Seq<u8>)> {
    match number_front(b, max) {
        None => None,
        Some((v, n)) => if n < b.len() && b[n as int] == c {
            Some((v, b.skip(n as int + 1)))
        } else {
            None
        },
    }
}

/// The number that `b` writes, when `b` is the decimal text of a number
/// that is at most `max`.
pub open spec fn number_whole(b: Seq<u8>, max: nat) -> Option<nat> {
    match number_front(b, max) {
        None => None,
        Some((v, n)) => if n == b.len() {
            Some(v)
        } else {
            None
        },
    }
}

/// The separator after the field that has `left` fields from itself to the
/// last: a dot between address bytes, a colon before the port.
pub open spec fn separator(left: nat) -> u8 {
    if left == 1 {
        58
    } else {
        46
    }
}

/// The text of the fields `ip`, each followed by its separator, and then
/// `rest`.
pub open spec fn fields_text(ip: Seq<u8>, rest: Seq<u8>) -> Seq<u8>
    decreases ip.len(),
{
    if ip.len() == 0 {
        rest
    } else {
        decimal(ip[0] as nat) + (seq![separator(ip.len())] + fields_text(ip.drop_first(), rest))
    }
}

/// The text of an IPv4 socket address: the four address bytes in decimal
/// with dots between them, a colon, and the port in decimal.
pub open spec fn v4_text(ip: Seq<u8>, port: u16) -> Seq<u8>
    recommends
        ip.len() == 4,
{
    fields_text(ip, decimal(port as nat))
}

/// The numbers of the first `count` fields of `b`, each followed by a dot,
/// the last by a colon, and what follows them.
pub open spec fn fields_front(b: Seq<u8>, count: nat) -> Option<(Seq<u8>, Seq<u8>)>
    decreases count,
{
    if count == 0 {
        Some((Seq::empty(), b))
    } else {
        match field_front(b, 255, separator(count)) {
            None => None,
            Some((v, rest)) => match fields_front(rest, (count - 1) as nat) {
                None => None,
                Some((others, end)) => Some((seq![v as u8] + others, end)),
            },
        }
    }
}

/// The address bytes and the port that `b` writes, when `b` is the text of
/// an IPv4 socket address: four numbers up to 255, dots between them,
/// a colon, and a number up to 65535.
pub open spec fn spec_parse_v4(b: Seq<u8>) -> Option<(Seq<u8>, u16)> {
    match fields_front(b, 4) {
        None => None,
        Some((ip, rest)) => match number_whole(rest, 65535) {
            None => None,
            Some(port) => Some((ip, port as u16)),
        },
    }
}

/// The decimal text of a number holds digits only, at least one, starts
/// with a zero only when the number is zero, and writes the number.
pub proof fn lemma_decimal(n: nat)
    ensures
        decimal(n).len() >= 1,
        forall|i: int| 0 <= i < decimal(n).len() ==> is_digit(#[trigger] decimal(n)[i]),
        decimal(n)[0] == 48 <==> n == 0,
        n >= 10 ==> decimal(n).len() >= 2,
        dec_value(decimal(n)) == n,
    decreases n,
{
    let d = decimal(n);
    if n < 10 {
        assert(d.drop_last().len() == 0);
        assert(dec_value(d) == 10 * dec_value(d.drop_last()) + (d.last() - 48) as nat);
    } else {
        let front = decimal(n / 10);
        lemma_decimal(n / 10);
        assert(d.drop_last() =~= front);
        assert(d[0] == front[0]);
        assert forall|i: int| 0 <= i < d.len() implies is_digit(#[trigger] d[i]) by {
            if i < front.len() {
                assert(d[i] == front[i]);
            }
        }
    }
}

/// Digits that end where the input ends, or before something that is no
/// digit, are the digits that the input starts with.
pub proof fn lemma_digit_run(b: Seq<u8>, n: nat)
    requires
        n <= b.len(),
        forall|i: int| 0 <= i < n ==> is_digit(#[trigger] b[i]),
        n == b.len() || !is_digit(b[n as int]),
    ensures
        digit_run(b) == n,
    decreases n,
{
    if n > 0 {
        let rest = b.skip(1);
        assert forall|i: int| 0 <= i < n - 1 implies is_digit(#[trigger] rest[i]) by {
            assert(rest[i] == b[i + 1]);
        }
        if n < b.len() {
            assert(rest[n - 1] == b[n as int]);
        }
        lemma_digit_run(rest, (n - 1) as nat);
    }
}

/// The digits that the input starts with are digits, and what follows
/// them is none.
pub proof fn lemma_digit_run_is_maximal(b: Seq<u8>)
    ensures
        digit_run(b) <= b.len(),
        forall|i: int| 0 <= i < digit_run(b) ==> is_digit(#[trigger] b[i]),
        digit_run(b) == b.len() || !is_digit(b[digit_run(b) as int]),
    decreases b.len(),
{
    if b.len() > 0 && is_digit(b[0]) {
        let rest = b.skip(1);
        lemma_digit_run_is_maximal(rest);
        assert forall|i: int| 0 <= i < digit_run(b) implies is_digit(#[trigger] b[i]) by {
            if i > 0 {
                assert(b[i] == rest[i - 1]);
            }
        }
        if digit_run(b) < b.len() {
            assert(b[digit_run(b) as int] == rest[digit_run(rest) as int]);
        }
    }
}

/// Digits without a leading zero are the decimal text of the number that
/// they write.
pub proof fn lemma_decimal_of_value(s: Seq<u8>)
    requires
        s.len() >= 1,
        forall|i: int| 0 <= i < s.len() ==> is_digit(#[trigger] s[i]),
        s.len() > 1 ==> s[0] != 48,
    ensures
        decimal(dec_value(s)) == s,
        s.len() > 1 ==> dec_value(s) >= 10,
        s[0] != 48 ==> dec_value(s) >= 1,
    decreases s.len(),
{
    let front = s.drop_last();
    let d = (s.last() - 48) as nat;
    assert(is_digit(s[s.len() - 1]));
    if front.len() == 0 {
        assert(dec_value(front) == 0);
        assert(decimal(d) =~= s);
    } else {
        assert(front[0] == s[0]);
        assert forall|i: int| 0 <= i < front.len() implies is_digit(#[trigger] front[i]) by {
            assert(front[i] == s[i]);
        }
        lemma_decimal_of_value(front);
        let v = dec_value(front);
        assert(v >= 1);
        assert((10 * v + d) / 10 == v && (10 * v + d) % 10 == d);
        assert(decimal(10 * v + d) =~= s);
    }
}

/// More digits write a number that is no smaller.
pub proof fn lemma_dec_value_grows(s: Seq<u8>, n: int)
    requires
        0 <= n <= s.len(),
        forall|i: int| 0 <= i < s.len() ==> is_digit(#[trigger] s[i]),
        s.len() > 0 ==> s[0] != 48 || s.len() == 1,
    ensures
        dec_value(s.take(n)) <= dec_value(s),
    decreases s.len() - n,
{
    if n < s.len() {
        let front = s.drop_last();
        assert(is_digit(s[s.len() - 1]));
        assert forall|i: int| 0 <= i < front.len() implies is_digit(#[trigger] front[i]) by {
            assert(front[i] == s[i]);
        }
        if n < front.len() {
            assert(front[0] == s[0]);
            lemma_dec_value_grows(front, n);
            assert(front.take(n) =~= s.take(n));
        } else {
            assert(s.take(n) =~= front);
        }
    } else {
        assert(s.take(n) =~= s);
    }
}

/// The decimal text of a number is read back from the front of whatever
/// follows it, unless a digit follows.
pub proof fn lemma_number_front_of_decimal(n: nat, max: nat, rest: Seq<u8>)
    requires
        n <= max,
        rest.len() == 0 || !is_digit(rest[0]),
    ensures
        number_front(decimal(n) + rest, max) == Some((n, decimal(n).len())),
{
    let d = decimal(n);
    let b = d + rest;
    lemma_decimal(n);
    assert forall|i: int| 0 <= i < d.len() implies is_digit(#[trigger] b[i]) by {
        assert(b[i] == d[i]);
    }
    if d.len() < b.len() {
        assert(b[d.len() as int] == rest[0]);
    }
    lemma_digit_run(b, d.len());
    assert(b.take(d.len() as int) =~= d);
    assert(b[0] == d[0]);
}

/// A number read from the front of the input was written there in decimal,
/// and no digit follows it.
pub proof fn lemma_number_front_exact(b: Seq<u8>, max: nat)
    ensures
        number_front(b, max) matches Some((v, n)) ==> 1 <= n <= b.len() && v <= max && b.take(
            n as int,
        ) == decimal(v) && (n == b.len() || !is_digit(b[n as int])),
{
    if number_front(b, max) is Some {
        let n = digit_run(b);
        lemma_digit_run_is_maximal(b);
        let s = b.take(n as int);
        assert forall|i: int| 0 <= i < s.len() implies is_digit(#[trigger] s[i]) by {
            assert(s[i] == b[i]);
        }
        assert(s[0] == b[0]);
        lemma_decimal_of_value(s);
    }
}

/// A number and its separator are read back from the front of whatever
/// follows them.
pub proof fn lemma_field_front_of_text(v: nat, max: nat, c: u8, rest: Seq<u8>)
    requires
        v <= max,
        !is_digit(c),
    ensures
        field_front(decimal(v) + (seq![c] + rest), max, c) == Some((v, rest)),
{
    let tail = seq![c] + rest;
    let b = decimal(v) + tail;
    lemma_number_front_of_decimal(v, max, tail);
    let n = decimal(v).len() as int;
    assert(b[n] == tail[0]);
    assert(b.skip(n + 1) =~= rest);
}

/// A field read from the front of the input was written there.
pub proof fn lemma_field_front_exact(b: Seq<u8>, max: nat, c: u8)
    ensures
        field_front(b, max, c) matches Some((v, rest)) ==> v <= max && b == decimal(v) + (seq![c]
            + rest),
{
    if let Some((v, rest)) = field_front(b, max, c) {
        lemma_number_front_exact(b, max);
        let (_, n) = number_front(b, max)->0;
        assert(b =~= b.take(n as int) + (seq![c] + rest));
    }
}

/// Fields and their separators are read back from the front of whatever
/// follows them.
pub proof fn lemma_fields_front_of_text(ip: Seq<u8>, rest: Seq<u8>)
    ensures
        fields_front(fields_text(ip, rest), ip.len()) == Some((ip, rest)),
    decreases ip.len(),
{
    if ip.len() > 0 {
        let others = ip.drop_first();
        lemma_fields_front_of_text(others, rest);
        lemma_field_front_of_text(
            ip[0] as nat,
            255,
            separator(ip.len()),
            fields_text(others, rest),
        );
        assert(seq![ip[0]] + others =~= ip);
    }
}

/// The text of an address is read back as that address.
pub proof fn lemma_parse_v4_round_trip(ip: Seq<u8>, port: u16)
    requires
        ip.len() == 4,
    ensures
        spec_parse_v4(v4_text(ip, port)) == Some((ip, port)),
{
    let t4 = decimal(port as nat);
    lemma_fields_front_of_text(ip, t4);
    lemma_number_front_of_decimal(port as nat, 65535, Seq::empty());
    assert(t4 + Seq::<u8>::empty() =~= t4);
}

/// Fields read from the front of the input were written there.
pub proof fn lemma_fields_front_exact(b: Seq<u8>, count: nat)
    ensures
        fields_front(b, count) matches Some((ip, rest)) ==> ip.len() == count && b == fields_text(
            ip,
            rest,
        ),
    decreases count,
{
    if count > 0 {
        if let Some((v, tail)) = field_front(b, 255, separator(count)) {
            lemma_field_front_exact(b, 255, separator(count));
            lemma_fields_front_exact(tail, (count - 1) as nat);
            if let Some((others, rest)) = fields_front(tail, (count - 1) as nat) {
                let ip = seq![v as u8] + others;
                assert(ip.drop_first() =~= others);
                assert(ip[0] == v);
            }
        }
    }
}

/// What is read as an address is the text of that address.
pub proof fn lemma_parse_v4_exact(b: Seq<u8>)
    ensures
        spec_parse_v4(b) matches Some((ip, port)) ==> ip.len() == 4 && b == v4_text(ip, port),
{
    if let Some((ip, port)) = spec_parse_v4(b) {
        lemma_fields_front_exact(b, 4);
        let (_, rest) = fields_front(b, 4)->0;
        lemma_number_front_exact(rest, 65535);
        assert(rest =~= decimal(port as nat));
    }
}

/// Reads the number written at `at`; `None` when there is no number, when
/// it has a leading zero, or when it exceeds `max`.
fn read_number(bytes: &[u8], at: usize, max: u32) -> (r: Option<(u32, usize)>)
    requires
        at <= bytes@.len(),
        max <= 65535,
    ensures
        match r {
            Some((value, end)) => at < end <= bytes@.len() && number_front(
                bytes@.skip(at as int),
                max as nat,
            ) == Some((value as nat, (end - at) as nat)),
            None => number_front(bytes@.skip(at as int), max as nat) is None,
        },
{
    let len: usize = bytes.len();
    let ghost b = bytes@.skip(at as int);
    let mut end: usize = at;
    while end < len && 48 <= bytes[end] && bytes[end] <= 57
        invariant
            at <= end <= len,
            len == bytes@.len(),
            forall|i: int| at <= i < end ==> is_digit(#[trigger] bytes@[i]),
        decreases len - end,
    {
        end = end + 1;
    }
    proof {
        assert forall|i: int| 0 <= i < end - at implies is_digit(#[trigger] b[i]) by {
            assert(b[i] == bytes@[at + i]);
        }
        if end < len {
            assert(b[end - at] == bytes@[end as int]);
        }
        lemma_digit_run(b, (end - at) as nat);
    }
    if end == at {
        return None;
    }
    if end - at > 1 && bytes[at] == 48 {
        assert(b[0] == bytes@[at as int]);
        return None;
    }
    let ghost digits = b.take(end - at);
    let mut value: u32 = 0;
    let mut i: usize = at;
    proof {
        assert(digits.take(0) =~= Seq::<u8>::empty());
        assert(digits[0] == bytes@[at as int]);
        assert forall|k: int| 0 <= k < digits.len() implies is_digit(#[trigger] digits[k]) by {
            assert(digits[k] == b[k]);
        }
    }
    while i < end
        invariant
            at <= i <= end <= len,
            len == bytes@.len(),
            max <= 65535,
            b == bytes@.skip(at as int),
            digits == b.take(end - at),
            digit_run(b) == end - at,
            end - at > 1 ==> b[0] != 48,
            forall|k: int| 0 <= k < digits.len() ==> is_digit(#[trigger] digits[k]),
            digits.len() == end - at,
            digits[0] != 48 || digits.len() == 1,
            value == dec_value(digits.take(i - at)),
            value <= max,
        decreases end - i,
    {
        proof {
            let longer = digits.take(i - at + 1);
            assert(is_digit(digits[i - at]));
            assert(digits[i - at] == bytes@[i as int]);
            assert(longer.drop_last() =~= digits.take(i - at));
            assert(longer.last() == bytes@[i as int]);
            lemma_dec_value_grows(digits, i - at + 1);
            assert(digits.take(digits.len() as int) =~= digits);
        }
        let d: u32 = (bytes[i] - 48) as u32;
        value = value * 10 + d;
        if value > max {
            return None;
        }
        i = i + 1;
    }
    assert(digits.take(i - at) =~= digits);
    Some((value, end))
}

/// Reads the number written at `at` and steps over the separator `c` that
/// follows it.
fn read_field(bytes: &[u8], at: usize, c: u8) -> (r: Option<(u8, usize)>)
    requires
        at <= bytes@.len(),
    ensures
        match r {
            Some((value, next)) => at < next <= bytes@.len() && field_front(
                bytes@.skip(at as int),
                255,
                c,
            ) == Some((value as nat, bytes@.skip(next as int))),
            None => field_front(bytes@.skip(at as int), 255, c) is None,
        },
{
    match read_number(bytes, at, 255) {
        None => None,
        Some((value, end)) => {
            if end < bytes.len() && bytes[end] == c {
                assert(bytes@.skip(at as int).skip(end - at + 1) =~= bytes@.skip(end + 1));
                Some((value as u8, end + 1))
            } else {
                None
            }
        },
    }
}

impl SocketAddress {
    /// The address bytes.
    pub open spec fn ip(self) -> Seq<u8> {
        match self {
            SocketAddress::V4 { ip, .. } => ip@,
            SocketAddress::V6 { ip, .. } => ip@,
        }
    }

    /// The port.
    pub open spec fn port(self) -> u16 {
        match self {
            SocketAddress::V4 { port, .. } => port,
            SocketAddress::V6 { port, .. } => port,
        }
    }

    /// Reads an IPv4 socket address from its text, `a.b.c.d:port`.
    ///
    /// Succeeds exactly on the texts in which each of the four address
    /// bytes and the port is written in decimal without leading zeros.
    pub fn parse_v4(text: &str) -> (r: Option<SocketAddress>)
        ensures
            match r {
                Some(address) => address is V4 && spec_parse_v4(text.spec_bytes()) == Some(
                    (address.ip(), address.port()),
                ) && text.spec_bytes() == v4_text(address.ip(), address.port()),
                None => spec_parse_v4(text.spec_bytes()) is None,
            },
            forall|ip: Seq<u8>, port: u16|
                ip.len() == 4 && text.spec_bytes() == v4_text(ip, port) ==> (r matches Some(
                    address,
                ) && address.ip() == ip && address.port() == port),
    {
        let bytes = text.as_bytes();
        let r = parse_v4_bytes(bytes);
        proof {
            lemma_parse_v4_exact(bytes@);
            assert forall|ip: Seq<u8>, port: u16|
                ip.len() == 4 && bytes@ == v4_text(ip, port) implies (r matches Some(address)
                && address.ip() == ip && address.port() == port) by {
                lemma_parse_v4_round_trip(ip, port);
            }
        }
        r
    }
}

/// Reads an IPv4 socket address from the bytes of its text.
pub fn parse_v4_bytes(bytes: &[u8]) -> (r: Option<SocketAddress>)
    ensures
        match r {
            Some(address) => address is V4 && spec_parse_v4(bytes@) == Some(
                (address.ip(), address.port()),
            ),
            None => spec_parse_v4(bytes@) is None,
        },
{
    let mut ip: [u8; 4] = [0, 0, 0, 0];
    let mut at: usize = 0;
    let mut i: usize = 0;
    assert(bytes@.skip(0) =~= bytes@);
    while i < 4
        invariant
            0 <= i <= 4,
            at <= bytes@.len(),
            match fields_front(bytes@.skip(at as int), (4 - i) as nat) {
                None => fields_front(bytes@, 4) is None,
                Some((others, rest)) => fields_front(bytes@, 4) == Some(
                    (ip@.take(i as int) + others, rest),
                ),
            },
        decreases 4 - i,
    {
        let c: u8 = if i == 3 {
            58
        } else {
            46
        };
        assert(c == separator((4 - i) as nat));
        let ghost before = ip@.take(i as int);
        match read_field(bytes, at, c) {
            None => {
                return None;
            },
            Some((value, next)) => {
                ip[i] = value;
                proof {
                    assert(ip@.take(i + 1) =~= before + seq![value]);
                    match fields_front(bytes@.skip(next as int), (4 - i - 1) as nat) {
                        None => {},
                        Some((others, rest)) => {
                            assert(before + (seq![value] + others) =~= ip@.take(i + 1) + others);
                        },
                    }
                }
                at = next;
                i = i + 1;
            },
        }
    }
    assert(ip@.take(4) + Seq::<u8>::empty() =~= ip@);
    match read_number(bytes, at, 65535) {
        None => None,
        Some((port, end)) => {
            if end != bytes.len() {
                return None;
            }
            Some(SocketAddress::V4 { ip, port: port as u16 })
        },
    }
}

} // verus!
