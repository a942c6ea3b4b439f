//! IPv4 addresses and their dotted-decimal notation.
use crate::text::{is_digit, joined, law_joined_split, law_number_digit, number, split};
use vstd::prelude::*;

verus! {

/// An IPv4 address, most significant octet first.
#[derive(Clone, Copy, Debug, PartialEq, Eq, Structural)]
pub struct Ipv4 {
    pub a: u8,
    pub b: u8,
    pub c: u8,
    pub d: u8,
}

impl Ipv4 {
    /// Whether this is `0.0.0.0`.
    pub open spec fn spec_is_unspecified(self) -> bool {
        self.a == 0 && self.b == 0 && self.c == 0 && self.d == 0
    }

    /// Whether an interface may carry this address: it is neither the limited
    /// broadcast address nor in the multicast block `224.0.0.0/4`.
    pub open spec fn spec_is_assignable(self) -> bool {
        &&& !(self.a == 255 && self.b == 255 && self.c == 255 && self.d == 255)
        &&& !(224 <= self.a <= 239)
    }

    pub fn new(a: u8, b: u8, c: u8, d: u8) -> (ip: Ipv4)
        ensures
            ip == (Ipv4 { a, b, c, d }),
    {
        Ipv4 { a, b, c, d }
    }

    /// Whether an interface may carry this address.
    pub fn is_assignable(&self) -> (yes: bool)
        ensures
            yes == self.spec_is_assignable(),
            yes <==> (self.a < 224 || self.a > 239) && self.a + self.b + self.c + self.d != 1020,
    {
        let broadcast = self.a == 255 && self.b == 255 && self.c == 255 && self.d == 255;
        let multicast = 224 <= self.a && self.a <= 239;
        !broadcast && !multicast
    }
}

/// A number below 256 in decimal, without leading zeros.
pub open spec fn decimal(n: u8) -> Seq<u8> {
    if n < 10 {
        seq![(48 + n) as u8]
    } else if n < 100 {
        seq![(48 + n / 10) as u8, (48 + n % 10) as u8]
    } else {
        seq![(48 + n / 100) as u8, (48 + n / 10 % 10) as u8, (48 + n % 10) as u8]
    }
}

impl Ipv4 {
    /// The address in dotted-decimal notation.
    pub open spec fn dotted(self) -> Seq<u8> {
        decimal(self.a) + seq!['.' as u8] + decimal(self.b) + seq!['.' as u8] + decimal(self.c)
            + seq!['.' as u8] + decimal(self.d)
    }
}

/// Decimal numbers are made of one to three digits.
proof fn lemma_decimal_digits(n: u8)
    ensures
        1 <= decimal(n).len() <= 3,
        forall|k: int| 0 <= k < decimal(n).len() ==> is_digit(#[trigger] decimal(n)[k]),
{
    assert forall|k: int| 0 <= k < decimal(n).len() implies is_digit(#[trigger] decimal(n)[k]) by {
        if k == 0 {
        } else if k == 1 {
        } else {
            assert(k == 2);
        }
    }
}

/// Whether the bytes of `s` from `i` to `j` are the decimal form of `n`, with no further
/// digit behind them.
pub open spec fn is_octet(s: Seq<u8>, i: int, j: int, n: u8) -> bool {
    &&& 0 <= i <= j <= s.len()
    &&& s.subrange(i, j) == decimal(n)
    &&& j < s.len() ==> !is_digit(s[j])
}

/// Whether no number stands in `s` at `i`.
spec fn no_octet(s: Seq<u8>, i: int) -> bool {
    forall|j: int, n: u8| !is_octet(s, i, j, n)
}

/// Whether no number goes from `i` to the end of `s`.
spec fn no_last_octet(s: Seq<u8>, i: int) -> bool {
    forall|n: u8| !is_octet(s, i, s.len() as int, n)
}

/// Reads a number below 256 without leading zeros, and where it ends.
fn parse_octet(s: &[u8], i: usize) -> (r: Option<(u8, usize)>)
    requires
        i <= s@.len(),
    ensures
        match r {
            Some((n, j)) => is_octet(s@, i as int, j as int, n),
            None => no_octet(s@, i as int),
        },
{
    let mut end: usize = i;
    while end < s.len() && 48 <= s[end] && s[end] <= 57
        invariant
            i <= end <= s@.len(),
            forall|k: int| i <= k < end ==> is_digit(#[trigger] s@[k]),
        decreases s@.len() - end,
    {
        end = end + 1;
    }
    assert forall|j: int, n: u8| is_octet(s@, i as int, j, n) implies j == end && end - i
        == decimal(n).len() && (forall|k: int|
        0 <= k < end - i ==> s@[i + k] == #[trigger] decimal(n)[k]) by {
        let part = s@.subrange(i as int, j);
        lemma_decimal_digits(n);
        if j < end {
            assert(is_digit(s@[j]));
        } else if j > end {
            assert(part[end - i] == s@[end as int]);
            assert(is_digit(decimal(n)[end - i]));
        }
        assert forall|k: int| 0 <= k < end - i implies s@[i + k] == #[trigger] decimal(n)[k] by {
            assert(part[k] == s@[i + k]);
        }
    }
    let len: usize = end - i;
    if len == 0 || len > 3 {
        return None;
    }
    let first: u32 = (s[i] - 48) as u32;
    if len == 1 {
        assert(s@.subrange(i as int, end as int) =~= decimal(first as u8));
        return Some((first as u8, end));
    }
    if first == 0 {
        assert forall|j: int, n: u8| !is_octet(s@, i as int, j, n) by {
            if is_octet(s@, i as int, j, n) {
                assert(s@[i + 0] == decimal(n)[0]);
            }
        }
        return None;
    }
    let second: u32 = (s[i + 1] - 48) as u32;
    if len == 2 {
        assert(s@.subrange(i as int, end as int) =~= decimal((first * 10 + second) as u8));
        return Some(((first * 10 + second) as u8, end));
    }
    let third: u32 = (s[i + 2] - 48) as u32;
    let value: u32 = first * 100 + second * 10 + third;
    if value > 255 {
        assert forall|j: int, n: u8| !is_octet(s@, i as int, j, n) by {
            if is_octet(s@, i as int, j, n) {
                assert(s@[i + 0] == decimal(n)[0]);
                assert(s@[i + 1] == decimal(n)[1]);
                assert(s@[i + 2] == decimal(n)[2]);
            }
        }
        return None;
    }
    assert(s@.subrange(i as int, end as int) =~= decimal(value as u8));
    Some((value as u8, end))
}

/// Where the four numbers stand in the dotted-decimal notation of an address.
proof fn lemma_dotted(s: Seq<u8>, ip: Ipv4)
    requires
        s == ip.dotted(),
    ensures
        ({
            let i = decimal(ip.a).len() as int;
            let j = i + 1 + decimal(ip.b).len();
            let k = j + 1 + decimal(ip.c).len();
            &&& is_octet(s, 0, i, ip.a)
            &&& i < s.len() && s[i] == '.' as u8
            &&& is_octet(s, i + 1, j, ip.b)
            &&& j < s.len() && s[j] == '.' as u8
            &&& is_octet(s, j + 1, k, ip.c)
            &&& k < s.len() && s[k] == '.' as u8
            &&& is_octet(s, k + 1, s.len() as int, ip.d)
        }),
{
    let i = decimal(ip.a).len() as int;
    let j = i + 1 + decimal(ip.b).len();
    let k = j + 1 + decimal(ip.c).len();
    assert(s.subrange(0, i) =~= decimal(ip.a));
    assert(s.subrange(i + 1, j) =~= decimal(ip.b));
    assert(s.subrange(j + 1, k) =~= decimal(ip.c));
    assert(s.subrange(k + 1, s.len() as int) =~= decimal(ip.d));
}

/// A number that is followed by no digit is read in only one way.
proof fn lemma_octet_unique(s: Seq<u8>, i: int, j: int, n: u8, j2: int, n2: u8)
    requires
        is_octet(s, i, j, n),
        is_octet(s, i, j2, n2),
    ensures
        j == j2,
        n == n2,
{
    let part = s.subrange(i, j);
    let part2 = s.subrange(i, j2);
    lemma_decimal_digits(n);
    lemma_decimal_digits(n2);
    if j < j2 {
        assert(part2[j - i] == s[j]);
        assert(is_digit(decimal(n2)[j - i]));
    } else if j2 < j {
        assert(part[j2 - i] == s[j2]);
        assert(is_digit(decimal(n)[j2 - i]));
    }
    assert(part == part2);
    let d = decimal(n);
    let d2 = decimal(n2);
    assert(d.len() == d2.len());
    assert(d[0] == d2[0]);
    if d.len() > 1 {
        assert(d[1] == d2[1]);
    }
    if d.len() > 2 {
        assert(d[2] == d2[2]);
    }
}

/// Text that is the notation of an address begins with its first number and a dot.
proof fn lemma_first(s: Seq<u8>, ip: Ipv4, i: int, a: u8)
    requires
        s == ip.dotted(),
        is_octet(s, 0, i, a),
    ensures
        a == ip.a,
        i < s.len(),
        s[i] == '.' as u8,
        is_octet(s, i + 1, i + 1 + decimal(ip.b).len(), ip.b),
{
    lemma_dotted(s, ip);
    lemma_octet_unique(s, 0, i, a, decimal(ip.a).len() as int, ip.a);
}

/// Behind that it goes on with the second number and a dot.
proof fn lemma_second(s: Seq<u8>, ip: Ipv4, i: int, a: u8, j: int, b: u8)
    requires
        s == ip.dotted(),
        is_octet(s, 0, i, a),
        is_octet(s, i + 1, j, b),
    ensures
        b == ip.b,
        j < s.len(),
        s[j] == '.' as u8,
        is_octet(s, j + 1, j + 1 + decimal(ip.c).len(), ip.c),
{
    lemma_dotted(s, ip);
    lemma_octet_unique(s, 0, i, a, decimal(ip.a).len() as int, ip.a);
    lemma_octet_unique(s, i + 1, j, b, i + 1 + decimal(ip.b).len(), ip.b);
}

/// Behind that it goes on with the third number and a dot, and ends with the fourth.
proof fn lemma_third(s: Seq<u8>, ip: Ipv4, i: int, a: u8, j: int, b: u8, k: int, c: u8)
    requires
        s == ip.dotted(),
        is_octet(s, 0, i, a),
        is_octet(s, i + 1, j, b),
        is_octet(s, j + 1, k, c),
    ensures
        c == ip.c,
        k < s.len(),
        s[k] == '.' as u8,
        is_octet(s, k + 1, s.len() as int, ip.d),
{
    lemma_second(s, ip, i, a, j, b);
    lemma_dotted(s, ip);
    lemma_octet_unique(s, 0, i, a, decimal(ip.a).len() as int, ip.a);
    lemma_octet_unique(s, i + 1, j, b, i + 1 + decimal(ip.b).len(), ip.b);
    lemma_octet_unique(s, j + 1, k, c, j + 1 + decimal(ip.c).len(), ip.c);
}

/// Whether bytes are the notation of no address.
pub open spec fn is_no_ipv4(s: Seq<u8>) -> bool {
    forall|ip: Ipv4| s != #[trigger] ip.dotted()
}

proof fn lemma_no_first(s: Seq<u8>)
    requires
        no_octet(s, 0),
    ensures
        is_no_ipv4(s),
{
    assert forall|ip: Ipv4| s != #[trigger] ip.dotted() by {
        if s == ip.dotted() {
            lemma_dotted(s, ip);
        }
    }
}

proof fn lemma_no_second(s: Seq<u8>, i: int, a: u8)
    requires
        is_octet(s, 0, i, a),
        i == s.len() || s[i] != '.' as u8 || no_octet(s, i + 1),
    ensures
        is_no_ipv4(s),
{
    assert forall|ip: Ipv4| s != #[trigger] ip.dotted() by {
        if s == ip.dotted() {
            lemma_first(s, ip, i, a);
        }
    }
}

proof fn lemma_no_third(s: Seq<u8>, i: int, a: u8, j: int, b: u8)
    requires
        is_octet(s, 0, i, a),
        is_octet(s, i + 1, j, b),
        j == s.len() || s[j] != '.' as u8 || no_octet(s, j + 1),
    ensures
        is_no_ipv4(s),
{
    assert forall|ip: Ipv4| s != #[trigger] ip.dotted() by {
        if s == ip.dotted() {
            lemma_second(s, ip, i, a, j, b);
        }
    }
}

proof fn lemma_no_fourth(s: Seq<u8>, i: int, a: u8, j: int, b: u8, k: int, c: u8)
    requires
        is_octet(s, 0, i, a),
        is_octet(s, i + 1, j, b),
        is_octet(s, j + 1, k, c),
        k == s.len() || s[k] != '.' as u8 || no_last_octet(s, k + 1),
    ensures
        is_no_ipv4(s),
{
    assert forall|ip: Ipv4| s != #[trigger] ip.dotted() by {
        if s == ip.dotted() {
            lemma_third(s, ip, i, a, j, b, k, c);
        }
    }
}

/// Four numbers with dots between them are the notation of an address.
proof fn lemma_assembled(s: Seq<u8>, ip: Ipv4, i: int, j: int, k: int)
    requires
        is_octet(s, 0, i, ip.a),
        i < s.len() && s[i] == '.' as u8,
        is_octet(s, i + 1, j, ip.b),
        j < s.len() && s[j] == '.' as u8,
        is_octet(s, j + 1, k, ip.c),
        k < s.len() && s[k] == '.' as u8,
        is_octet(s, k + 1, s.len() as int, ip.d),
    ensures
        s == ip.dotted(),
{
    let dot = '.' as u8;
    let w = s.subrange(0, i);
    let x = s.subrange(i + 1, j);
    let y = s.subrange(j + 1, k);
    let z = s.subrange(k + 1, s.len() as int);
    assert(s =~= w + seq![dot] + x + seq![dot] + y + seq![dot] + z);
}

/// Reads an address in dotted-decimal notation: four numbers below 256 without leading
/// zeros, with dots between them and nothing else.
pub fn parse_ipv4(s: &[u8]) -> (r: Option<Ipv4>)
    ensures
        match r {
            Some(ip) => s@ == ip.dotted(),
            None => is_no_ipv4(s@),
        },
{
    let dot = '.' as u8;
    let (a, i) = match parse_octet(s, 0) {
        Some(x) => x,
        None => {
            proof {
                lemma_no_first(s@);
            }
            return None;
        },
    };
    if i == s.len() || s[i] != dot {
        proof {
            lemma_no_second(s@, i as int, a);
        }
        return None;
    }
    let (b, j) = match parse_octet(s, i + 1) {
        Some(x) => x,
        None => {
            proof {
                lemma_no_second(s@, i as int, a);
            }
            return None;
        },
    };
    if j == s.len() || s[j] != dot {
        proof {
            lemma_no_third(s@, i as int, a, j as int, b);
        }
        return None;
    }
    let (c, k) = match parse_octet(s, j + 1) {
        Some(x) => x,
        None => {
            proof {
                lemma_no_third(s@, i as int, a, j as int, b);
            }
            return None;
        },
    };
    if k == s.len() || s[k] != dot {
        proof {
            lemma_no_fourth(s@, i as int, a, j as int, b, k as int, c);
        }
        return None;
    }
    let (d, end) = match parse_octet(s, k + 1) {
        Some(x) => x,
        None => {
            proof {
                lemma_no_fourth(s@, i as int, a, j as int, b, k as int, c);
            }
            return None;
        },
    };
    let ip = Ipv4 { a, b, c, d };
    if end == s.len() {
        proof {
            lemma_assembled(s@, ip, i as int, j as int, k as int);
        }
        Some(ip)
    } else {
        proof {
            let at = k + 1;
            assert forall|n: u8| !is_octet(s@, at, s@.len() as int, n) by {
                if is_octet(s@, at, s@.len() as int, n) {
                    lemma_octet_unique(s@, at, end as int, d, s@.len() as int, n);
                }
            }
            lemma_no_fourth(s@, i as int, a, j as int, b, k as int, c);
        }
        None
    }
}

/// An address is read back from its own notation, and from nothing else: no two
/// addresses share a notation.
pub proof fn law_notation_unique(x: Ipv4, y: Ipv4)
    requires
        x.dotted() == y.dotted(),
    ensures
        x == y,
{
    let s = x.dotted();
    lemma_dotted(s, x);
    let i = decimal(x.a).len() as int;
    let j = i + 1 + decimal(x.b).len();
    let k = j + 1 + decimal(x.c).len();
    lemma_first(s, y, i, x.a);
    lemma_second(s, y, i, x.a, j, x.b);
    lemma_third(s, y, i, x.a, j, x.b, k, x.c);
    lemma_octet_unique(s, k + 1, s.len() as int, x.d, s.len() as int, y.d);
}

/// The decimal form of a number is one to three digits that stand for the number, without
/// a leading zero.
pub proof fn law_decimal_value(n: u8)
    ensures
        1 <= decimal(n).len() <= 3,
        forall|i: int| 0 <= i < decimal(n).len() ==> 48 <= #[trigger] decimal(n)[i] <= 57,
        number(decimal(n)) == n,
        decimal(n).len() > 1 ==> decimal(n)[0] != 48,
{
    lemma_decimal_digits(n);
    let d = decimal(n);
    assert forall|i: int| 0 <= i < d.len() implies 48 <= #[trigger] d[i] <= 57 by {
        assert(is_digit(d[i]));
    }
    let none: Seq<u8> = Seq::empty();
    if n < 10 {
        law_number_digit(none, d[0]);
        assert(d =~= none.push(d[0]));
    } else if n < 100 {
        law_number_digit(none, d[0]);
        law_number_digit(none.push(d[0]), d[1]);
        assert(d =~= none.push(d[0]).push(d[1]));
    } else {
        law_number_digit(none, d[0]);
        law_number_digit(none.push(d[0]), d[1]);
        law_number_digit(none.push(d[0]).push(d[1]), d[2]);
        assert(d =~= none.push(d[0]).push(d[1]).push(d[2]));
    }
}

/// The notation of an address has four parts between its dots, the decimal forms of the
/// four octets, the most significant one first.
pub proof fn law_dotted_parts(ip: Ipv4)
    ensures
        split(ip.dotted(), '.' as u8) == seq![
            decimal(ip.a),
            decimal(ip.b),
            decimal(ip.c),
            decimal(ip.d),
        ],
{
    let dot = '.' as u8;
    let parts = seq![decimal(ip.a), decimal(ip.b), decimal(ip.c), decimal(ip.d)];
    let three = parts.drop_first();
    let two = three.drop_first();
    let one = two.drop_first();
    assert(joined(one, dot) =~= decimal(ip.d));
    assert(joined(two, dot) =~= decimal(ip.c) + seq![dot] + decimal(ip.d));
    assert(joined(three, dot) =~= decimal(ip.b) + seq![dot] + (decimal(ip.c) + seq![dot]
        + decimal(ip.d)));
    assert(joined(parts, dot) =~= ip.dotted());
    lemma_decimal_digits(ip.a);
    lemma_decimal_digits(ip.b);
    lemma_decimal_digits(ip.c);
    lemma_decimal_digits(ip.d);
    assert forall|i: int, j: int| 0 <= i < parts.len() && 0 <= j < parts[i].len() implies #[trigger] parts[i][j]
        != dot by {
        assert(is_digit(parts[i][j]));
    }
    law_joined_split(parts, dot);
}

/// The unspecified address is the one without a bit set. An interface may carry every
/// address but the one with all bits set and those whose first octet is 224 to 239.
pub proof fn law_special_addresses(ip: Ipv4)
    ensures
        ip.spec_is_unspecified() <==> ip.a + ip.b + ip.c + ip.d == 0,
        ip.spec_is_assignable() <==> (ip.a < 224 || ip.a > 239) && ip.a + ip.b + ip.c + ip.d != 1020,
{
}

} // verus!
