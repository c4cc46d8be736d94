//! Where the server listens: the host and port it is given, or its defaults.

use vstd::prelude::*;

use crate::text::chars_of;

verus! {

pub open spec fn is_digit(c: char) -> bool {
    '0' <= c <= '9'
}

/// The number that the decimal digits `d` write.
pub open spec fn decimal_value(d: Seq<char>) -> nat
    decreases d.len(),
{
    if d.len() == 0 {
        0
    } else {
        decimal_value(d.drop_last()) * 10 + ((d.last() as u32) - ('0' as u32)) as nat
    }
}

/// The digits of a port number: the text without a leading `+`.
pub open spec fn port_digits(s: Seq<char>) -> Seq<char> {
    if s.len() > 0 && s[0] == '+' {
        s.drop_first()
    } else {
        s
    }
}

/// A port number as `u16`'s `from_str` reads it: an optional `+`, then one
/// or more ASCII digits whose value fits in 16 bits.
pub open spec fn port_of(s: Seq<char>) -> Option<u16> {
    let d = port_digits(s);
    if d.len() == 0 || exists|i: int| 0 <= i < d.len() && !is_digit(#[trigger] d[i]) {
        None
    } else if decimal_value(d) > u16::MAX {
        None
    } else {
        Some(decimal_value(d) as u16)
    }
}

/// The decimal digit that writes `d`.
pub open spec fn digit_char(d: nat) -> char {
    if d == 0 {
        '0'
    } else if d == 1 {
        '1'
    } else if d == 2 {
        '2'
    } else if d == 3 {
        '3'
    } else if d == 4 {
        '4'
    } else if d == 5 {
        '5'
    } else if d == 6 {
        '6'
    } else if d == 7 {
        '7'
    } else if d == 8 {
        '8'
    } else {
        '9'
    }
}

/// The decimal digits of `n`, most significant first, without leading zeros.
pub open spec fn decimal_digits(n: nat) -> Seq<char>
    decreases n,
{
    if n < 10 {
        seq![digit_char(n)]
    } else {
        decimal_digits(n / 10).push(digit_char(n % 10))
    }
}

proof fn lemma_decimal_digits(n: nat)
    ensures
        decimal_digits(n).len() > 0,
        forall|i: int| 0 <= i < decimal_digits(n).len() ==> is_digit(#[trigger] decimal_digits(n)[i]),
        decimal_value(decimal_digits(n)) == n,
    decreases n,
{
    let d = n % 10;
    assert(((digit_char(d) as u32) - ('0' as u32)) as nat == d);
    let s = decimal_digits(n);
    if n >= 10 {
        lemma_decimal_digits(n / 10);
        assert(s.drop_last() =~= decimal_digits(n / 10));
        assert(s.last() == digit_char(d));
        assert(n == (n / 10) * 10 + d);
        assert(decimal_value(s) == decimal_value(decimal_digits(n / 10)) * 10 + d);
    } else {
        assert(d == n);
        assert(s.drop_last() =~= Seq::<char>::empty());
        assert(decimal_value(s) == decimal_value(s.drop_last()) * 10 + d);
    }
}

/// Every port number is read back from its decimal digits, with or without
/// a leading `+`.
pub proof fn lemma_port_round_trip(n: u16)
    ensures
        port_of(decimal_digits(n as nat)) == Some(n),
        port_of(seq!['+'] + decimal_digits(n as nat)) == Some(n),
{
    let s = decimal_digits(n as nat);
    lemma_decimal_digits(n as nat);
    assert(s[0] != '+') by {
        assert(is_digit(s[0]));
    }
    assert(port_digits(s) == s);
    assert((seq!['+'] + s).drop_first() =~= s);
    assert(port_digits(seq!['+'] + s) == s);
}

proof fn lemma_value_grows(d: Seq<char>, i: int)
    requires
        0 <= i <= d.len(),
        forall|k: int| 0 <= k < d.len() ==> is_digit(#[trigger] d[k]),
    ensures
        decimal_value(d.take(i)) <= decimal_value(d),
    decreases d.len() - i,
{
    if i < d.len() {
        lemma_value_grows(d, i + 1);
        assert(d.take(i + 1).drop_last() =~= d.take(i));
        assert(d.take(i + 1).last() == d[i]);
        assert(is_digit(d[i]));
        assert(decimal_value(d.take(i + 1)) == decimal_value(d.take(i)) * 10 + ((d[i] as u32) - ('0' as u32)) as nat);
    } else {
        assert(d.take(i) =~= d);
    }
}

/// Reads a port number as `u16`'s `from_str` does.
pub fn parse_port(s: &str) -> (r: Option<u16>)
    ensures
        r == port_of(s@),
{
    let c = chars_of(s);
    let start: usize = if c.len() > 0 && c[0] == '+' {
        1
    } else {
        0
    };
    let ghost d = port_digits(s@);
    assert(d =~= c@.subrange(start as int, c@.len() as int));
    if start >= c.len() {
        return None;
    }
    let mut i: usize = start;
    while i < c.len()
        invariant
            start <= i <= c.len(),
            c@ == s@,
            d == port_digits(s@),
            d =~= c@.subrange(start as int, c@.len() as int),
            forall|k: int| start <= k < i ==> is_digit(#[trigger] c@[k]),
        decreases c.len() - i,
    {
        if !('0' <= c[i] && c[i] <= '9') {
            assert(d[i - start] == c@[i as int]);
            assert(!is_digit(d[i - start]));
            return None;
        }
        i = i + 1;
    }
    assert forall|k: int| 0 <= k < d.len() implies is_digit(#[trigger] d[k]) by {
        assert(d[k] == c@[start + k]);
    }
    let mut v: u32 = 0;
    let mut j: usize = start;
    while j < c.len()
        invariant
            start <= j <= c.len(),
            c@ == s@,
            d == port_digits(s@),
            d =~= c@.subrange(start as int, c@.len() as int),
            forall|k: int| 0 <= k < d.len() ==> is_digit(#[trigger] d[k]),
            v == decimal_value(d.take(j - start)),
            v <= u16::MAX,
        decreases c.len() - j,
    {
        let ghost t = d.take(j - start);
        let ghost t2 = d.take(j - start + 1);
        assert(t2.drop_last() =~= t);
        assert(t2.last() == c@[j as int]);
        assert(is_digit(d[j - start]));
        let digit = (c[j] as u32) - ('0' as u32);
        assert(decimal_value(t2) == decimal_value(t) * 10 + ((c@[j as int] as u32) - ('0' as u32)) as nat);
        v = v * 10 + digit;
        if v > 65535 {
            proof {
                lemma_value_grows(d, j - start + 1);
            }
            return None;
        }
        j = j + 1;
    }
    assert(d.take(d.len() as int) =~= d);
    Some(v as u16)
}

/// The host and port the server listens on.
pub struct ListenAddress {
    pub host: String,
    pub port: u16,
}

/// The port given is not a port number.
#[derive(Debug, Clone, Copy, PartialEq, Eq)]
pub enum AddressError {
    InvalidPort,
}

/// The address to listen on: the given host, or `127.0.0.1`, and the given
/// port, or 3000; fails where the given port is not a port number.
pub fn listen_address(host: Option<&str>, port: Option<&str>) -> (res: Result<
    ListenAddress,
    AddressError,
>)
    ensures
        match port {
            None => res matches Ok(a) && a.port == 3000,
            Some(p) => match port_of(p@) {
                Some(n) => res matches Ok(a) && a.port == n,
                None => res == Err::<ListenAddress, AddressError>(AddressError::InvalidPort),
            },
        },
        res matches Ok(a) ==> a.host@ == match host {
            Some(h) => h@,
            None => "127.0.0.1"@,
        },
{
    let port = match port {
        Some(p) => match parse_port(p) {
            Some(n) => n,
            None => return Err(AddressError::InvalidPort),
        },
        None => 3000,
    };
    let host = match host {
        Some(h) => h.to_owned(),
        None => "127.0.0.1".to_owned(),
    };
    Ok(ListenAddress { host, port })
}

} // verus!
