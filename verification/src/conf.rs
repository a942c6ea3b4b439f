//! The configuration of a tunnel, as a login hands it out, and what the datapath needs
//! of it.
use crate::ipv4::{is_no_ipv4, parse_ipv4, Ipv4};
use crate::text::{find_from, first_index, lemma_first_index, parse_u8, split, u8_of_text};
use base64::Engine;
use vstd::prelude::*;
use vstd::slice::slice_subrange;
use vstd::string::{StrSliceExecFns, StringSliceAdditionalSpecFns};

verus! {

/// The error of the base64 decoder.
#[verifier::external_type_specification]
#[verifier::external_body]
pub struct ExDecodeError(base64::DecodeError);

/// The configuration of a tunnel.
#[derive(Clone)]
pub struct WgConf {
    /// The address in the tunnel, with its prefix length, such as `10.0.0.2/24`.
    pub address: String,
    /// Where the peer is reached, such as `192.0.2.1:443`.
    pub peer_address: String,
    pub mtu: u32,
    /// The private key, in base64.
    pub private_key: String,
    /// The public key of the peer, in base64.
    pub peer_key: String,
    /// The DNS server inside the tunnel.
    pub dns: String,
    /// The transport: 1 is TCP.
    pub protocol: i32,
    pub allowed_ips: Vec<String>,
}

/// Whether a character is white space, after Unicode.
pub open spec fn is_white_space(c: char) -> bool {
    let u = c as u32;
    ||| 0x9 <= u <= 0xd
    ||| u == 0x20
    ||| u == 0x85
    ||| u == 0xa0
    ||| u == 0x1680
    ||| 0x2000 <= u <= 0x200a
    ||| u == 0x2028
    ||| u == 0x2029
    ||| u == 0x202f
    ||| u == 0x205f
    ||| u == 0x3000
}

/// Text without the white space in front.
pub open spec fn trimmed_start(s: Seq<char>) -> Seq<char>
    decreases s.len(),
{
    if s.len() > 0 && is_white_space(s[0]) {
        trimmed_start(s.drop_first())
    } else {
        s
    }
}

/// Text without the white space at its end.
pub open spec fn trimmed_end(s: Seq<char>) -> Seq<char>
    decreases s.len(),
{
    if s.len() > 0 && is_white_space(s.last()) {
        trimmed_end(s.drop_last())
    } else {
        s
    }
}

/// Text without the white space around it.
pub open spec fn trimmed(s: Seq<char>) -> Seq<char> {
    trimmed_end(trimmed_start(s))
}

fn white_space(c: char) -> (yes: bool)
    ensures
        yes == is_white_space(c),
        yes && (c as u32) < 128 <==> c == ' ' || c == '\t' || c == '\n' || c == '\r' || c as u32 == 11
            || c as u32 == 12,
{
    let u = c as u32;
    (0x9 <= u && u <= 0xd) || u == 0x20 || u == 0x85 || u == 0xa0 || u == 0x1680 || (0x2000 <= u
        && u <= 0x200a) || u == 0x2028 || u == 0x2029 || u == 0x202f || u == 0x205f || u == 0x3000
}

/// Text without the white space around it.
pub fn trim<'a>(s: &'a str) -> (r: &'a str)
    ensures
        r@ == trimmed(s@),
        exists|a: Seq<char>, b: Seq<char>| #[trigger] (a + r@ + b) == s@ && is_blank(a) && is_blank(b),
        r@.len() > 0 ==> !is_white_space(r@[0]) && !is_white_space(r@.last()),
{
    proof {
        law_trimmed_parts(s@);
    }
    let n: usize = s.unicode_len();
    let mut start: usize = 0;
    assert(s@.skip(0) =~= s@);
    while start < n && white_space(s.get_char(start))
        invariant
            n == s@.len(),
            start <= n,
            trimmed_start(s@.skip(start as int)) == trimmed_start(s@),
        decreases n - start,
    {
        assert(s@.skip(start as int).drop_first() =~= s@.skip(start + 1));
        start = start + 1;
    }
    let ghost body = s@.skip(start as int);
    assert(trimmed_start(s@) == body);
    let mut end: usize = n;
    assert(s@.subrange(start as int, end as int) =~= body);
    while start < end && white_space(s.get_char(end - 1))
        invariant
            n == s@.len(),
            start <= end <= n,
            trimmed_end(s@.subrange(start as int, end as int)) == trimmed_end(body),
        decreases end - start,
    {
        assert(s@.subrange(start as int, end as int).drop_last() =~= s@.subrange(
            start as int,
            end - 1,
        ));
        assert(s@.subrange(start as int, end as int).last() == s@[end - 1]);
        end = end - 1;
    }
    assert(start < end ==> s@.subrange(start as int, end as int).last() == s@[end - 1]);
    s.substring_char(start, end)
}

/// What the base64 decoder makes of text: nothing where it is not valid base64.
pub uninterp spec fn base64_decoded(text: Seq<char>) -> Option<Seq<u8>>;

/// `Engine::decode` of the engine `STANDARD`: the standard alphabet, with padding.
#[verifier::external_body]
fn base64_decode(text: &str) -> (r: Result<Vec<u8>, base64::DecodeError>)
    ensures
        base64_decoded(text@) == (match r {
            Ok(bytes) => Some(bytes@),
            Err(_) => None,
        }),
{
    base64::engine::general_purpose::STANDARD.decode(text)
}

/// Why a key was refused.
pub enum KeyError {
    NotBase64(base64::DecodeError),
    NotThirtyTwoBytes,
}

/// The key that text stands for.
pub open spec fn key_of(text: Seq<char>) -> Option<Seq<u8>> {
    match base64_decoded(trimmed(text)) {
        Some(bytes) if bytes.len() == 32 => Some(bytes),
        _ => None,
    }
}

/// Whether text is refused as a key, and for this reason.
pub open spec fn is_refused(text: Seq<char>, why: KeyError) -> bool {
    match why {
        KeyError::NotBase64(_) => base64_decoded(trimmed(text)) is None,
        KeyError::NotThirtyTwoBytes => base64_decoded(trimmed(text)) matches Some(bytes)
            && bytes.len() != 32,
    }
}

/// Bytes as a key, where there are as many as a key has.
pub fn key_of_bytes(bytes: &Vec<u8>) -> (r: Option<[u8; 32]>)
    ensures
        match r {
            Some(key) => bytes@.len() == 32 && key@ == bytes@,
            None => bytes@.len() != 32,
        },
{
    if bytes.len() != 32 {
        return None;
    }
    let mut key: [u8; 32] = [0u8;32];
    let mut i: usize = 0;
    while i < 32
        invariant
            bytes@.len() == 32,
            i <= 32,
            forall|j: int| 0 <= j < i ==> key@[j] == bytes@[j],
        decreases 32 - i,
    {
        key[i] = bytes[i];
        i = i + 1;
    }
    assert(key@ =~= bytes@);
    Some(key)
}

/// Reads a key in base64. White space around it does not matter.
pub fn b64_32(s: &str) -> (r: Result<[u8; 32], KeyError>)
    ensures
        match r {
            Ok(key) => key_of(s@) == Some(key@),
            Err(why) => is_refused(s@, why),
        },
        match r {
            Ok(key) => base64_decoded(trimmed(s@)) matches Some(bytes) && bytes.len() == 32
                && bytes == key@,
            Err(KeyError::NotBase64(_)) => base64_decoded(trimmed(s@)) is None,
            Err(KeyError::NotThirtyTwoBytes) => base64_decoded(trimmed(s@)) matches Some(bytes)
                && bytes.len() != 32,
        },
{
    match base64_decode(trim(s)) {
        Ok(bytes) => match key_of_bytes(&bytes) {
            Some(key) => Ok(key),
            None => Err(KeyError::NotThirtyTwoBytes),
        },
        Err(e) => Err(KeyError::NotBase64(e)),
    }
}

/// The prefix length behind the address, 32 where there is none or it cannot be read.
pub open spec fn prefix_of(address: Seq<u8>) -> u8 {
    let parts = split(address, '/' as u8);
    if parts.len() > 1 {
        match u8_of_text(parts[1]) {
            Some(n) => n,
            None => 32,
        }
    } else {
        32
    }
}

/// Reads an address with its prefix length.
pub fn parse_address(address: &str) -> (r: Option<(Ipv4, u8)>)
    ensures
        match r {
            Some((ip, prefix)) => {
                &&& split(address.spec_bytes(), '/' as u8)[0] == ip.dotted()
                &&& prefix == prefix_of(address.spec_bytes())
            },
            None => is_no_ipv4(split(address.spec_bytes(), '/' as u8)[0]),
        },
        r matches Some((_, prefix)) ==> {
            let parts = split(address.spec_bytes(), 47);
            if parts.len() == 1 {
                prefix == 32
            } else {
                prefix == (match u8_of_text(parts[1]) {
                    Some(n) => n,
                    None => 32u8,
                })
            }
        },
{
    let bytes = address.as_bytes();
    let slash = '/' as u8;
    let end = find_from(bytes, 0, slash);
    proof {
        assert(bytes@.skip(0) =~= bytes@);
        lemma_first_index(bytes@, slash);
        assert(bytes@.subrange(0, end as int) =~= bytes@.take(end as int));
        assert(bytes@.take(bytes@.len() as int) =~= bytes@);
    }
    let ip = match parse_ipv4(slice_subrange(bytes, 0, end)) {
        Some(ip) => ip,
        None => {
            return None;
        },
    };
    if end == bytes.len() {
        return Some((ip, 32));
    }
    let second = find_from(bytes, end + 1, slash);
    proof {
        let rest = bytes@.skip(end + 1);
        lemma_first_index(rest, slash);
        assert(bytes@.subrange(end + 1, second as int) =~= rest.take(second - (end + 1)));
        assert(rest.take(rest.len() as int) =~= rest);
        assert(split(rest, slash)[0] == bytes@.subrange(end + 1, second as int));
        assert(split(bytes@, slash)[1] == split(rest, slash)[0]);
    }
    match parse_u8(bytes, end + 1, second) {
        Some(prefix) => Some((ip, prefix)),
        None => Some((ip, 32)),
    }
}

/// What the datapath needs of a configuration.
pub struct TunnelParams {
    pub private_key: [u8; 32],
    pub peer_key: [u8; 32],
    /// The address in the tunnel and its prefix length.
    pub ip: Ipv4,
    pub prefix: u8,
    /// The gateway of the default route. It is never asked for anything: the tunnel is
    /// the only way out.
    pub gateway: Ipv4,
    pub dns: Ipv4,
    pub mtu: usize,
}

/// Why a configuration was refused.
pub enum ConfError {
    PrivateKey(KeyError),
    PeerKey(KeyError),
    Address,
}

/// The DNS server that is asked where the configuration names none.
pub open spec fn fallback_dns() -> Ipv4 {
    Ipv4 { a: 1, b: 1, c: 1, d: 1 }
}

impl TunnelParams {
    /// Whether an interface can carry the address with this prefix length.
    pub open spec fn spec_is_assignable(self) -> bool {
        self.prefix <= 32 && self.ip.spec_is_assignable()
    }

    /// Whether an interface can carry the address with this prefix length.
    pub fn is_assignable(&self) -> (yes: bool)
        ensures
            yes == self.spec_is_assignable(),
            yes <==> self.prefix <= 32 && (self.ip.a < 224 || self.ip.a > 239) && self.ip.a
                + self.ip.b + self.ip.c + self.ip.d != 1020,
    {
        self.prefix <= 32 && self.ip.is_assignable()
    }

    /// Reads the keys and the addresses of a configuration. The keys come first.
    pub fn from_conf(conf: &WgConf) -> (r: Result<TunnelParams, ConfError>)
        ensures
            match r {
                Ok(p) => {
                    &&& key_of(conf.private_key@) == Some(p.private_key@)
                    &&& key_of(conf.peer_key@) == Some(p.peer_key@)
                    &&& split(vstd::utf8::encode_utf8(conf.address@), '/' as u8)[0] == p.ip.dotted()
                    &&& p.prefix == prefix_of(vstd::utf8::encode_utf8(conf.address@))
                    &&& p.gateway == (Ipv4 { d: 1, ..p.ip })
                    &&& vstd::utf8::encode_utf8(conf.dns@) == p.dns.dotted() || p.dns
                        == fallback_dns() && is_no_ipv4(vstd::utf8::encode_utf8(conf.dns@))
                    &&& p.mtu == conf.mtu
                },
                Err(ConfError::PrivateKey(why)) => is_refused(conf.private_key@, why),
                Err(ConfError::PeerKey(why)) => key_of(conf.private_key@) is Some && is_refused(
                    conf.peer_key@,
                    why,
                ),
                Err(ConfError::Address) => key_of(conf.private_key@) is Some && key_of(
                    conf.peer_key@,
                ) is Some && is_no_ipv4(
                    split(vstd::utf8::encode_utf8(conf.address@), '/' as u8)[0],
                ),
            },
            r matches Ok(p) ==> {
                &&& p.gateway.a == p.ip.a && p.gateway.b == p.ip.b && p.gateway.c == p.ip.c
                &&& p.gateway.d == 1
                &&& vstd::utf8::encode_utf8(conf.dns@) == p.dns.dotted() || p.dns == (Ipv4 {
                    a: 1,
                    b: 1,
                    c: 1,
                    d: 1,
                })
                &&& base64_decoded(trimmed(conf.private_key@)) == Some(p.private_key@)
                &&& base64_decoded(trimmed(conf.peer_key@)) == Some(p.peer_key@)
            },
    {
        let private_key = match b64_32(conf.private_key.as_str()) {
            Ok(key) => key,
            Err(e) => {
                return Err(ConfError::PrivateKey(e));
            },
        };
        let peer_key = match b64_32(conf.peer_key.as_str()) {
            Ok(key) => key,
            Err(e) => {
                return Err(ConfError::PeerKey(e));
            },
        };
        let (ip, prefix) = match parse_address(conf.address.as_str()) {
            Some(x) => x,
            None => {
                return Err(ConfError::Address);
            },
        };
        let dns = match parse_ipv4(conf.dns.as_str().as_bytes()) {
            Some(dns) => dns,
            None => Ipv4::new(1, 1, 1, 1),
        };
        let gateway = Ipv4::new(ip.a, ip.b, ip.c, 1);
        Ok(TunnelParams { private_key, peer_key, ip, prefix, gateway, dns, mtu: conf.mtu as usize })
    }
}

/// Whether text is nothing but white space.
pub open spec fn is_blank(s: Seq<char>) -> bool {
    forall|i: int| 0 <= i < s.len() ==> is_white_space(#[trigger] s[i])
}

proof fn lemma_trimmed_start_blank(a: Seq<char>, s: Seq<char>)
    requires
        is_blank(a),
    ensures
        trimmed_start(a + s) == trimmed_start(s),
    decreases a.len(),
{
    if a.len() == 0 {
        assert(a + s =~= s);
    } else {
        assert((a + s)[0] == a[0]);
        assert((a + s).drop_first() =~= a.drop_first() + s);
        assert forall|i: int| 0 <= i < a.drop_first().len() implies is_white_space(
            #[trigger] a.drop_first()[i],
        ) by {
            assert(a.drop_first()[i] == a[i + 1]);
        }
        lemma_trimmed_start_blank(a.drop_first(), s);
    }
}

proof fn lemma_trimmed_end_blank(s: Seq<char>, b: Seq<char>)
    requires
        is_blank(b),
    ensures
        trimmed_end(s + b) == trimmed_end(s),
    decreases b.len(),
{
    if b.len() == 0 {
        assert(s + b =~= s);
    } else {
        assert((s + b).last() == b.last());
        assert((s + b).drop_last() =~= s + b.drop_last());
        lemma_trimmed_end_blank(s, b.drop_last());
    }
}

/// Blank text behind other text stays behind it.
proof fn lemma_trimmed_start_behind(s: Seq<char>, b: Seq<char>)
    requires
        is_blank(b),
    ensures
        trimmed_end(trimmed_start(s + b)) == trimmed_end(trimmed_start(s)),
    decreases s.len(),
{
    if s.len() == 0 {
        let none: Seq<char> = Seq::empty();
        assert(s =~= none);
        assert(s + b =~= b + none);
        lemma_trimmed_start_blank(b, none);
    } else if is_white_space(s[0]) {
        assert((s + b).drop_first() =~= s.drop_first() + b);
        lemma_trimmed_start_behind(s.drop_first(), b);
    } else {
        lemma_trimmed_end_blank(s, b);
    }
}

/// White space around a key does not matter.
pub proof fn law_white_space_ignored(a: Seq<char>, s: Seq<char>, b: Seq<char>)
    requires
        is_blank(a),
        is_blank(b),
    ensures
        trimmed(a + s + b) == trimmed(s),
        key_of(a + s + b) == key_of(s),
{
    assert(a + s + b =~= a + (s + b));
    lemma_trimmed_start_blank(a, s + b);
    lemma_trimmed_start_behind(s, b);
}

/// The white space in ASCII is the space, the tabulators, the line feed, the form feed and
/// the carriage return. Beyond ASCII it is the next line, the no-break space, the Ogham
/// space mark, the eleven spaces from the en quad on, the two separators, the narrow
/// no-break space, the mathematical space and the ideographic space.
pub proof fn law_white_space(c: char)
    ensures
        is_white_space(c) && (c as u32) < 0x80 <==> c == ' ' || c == '\t' || c == '\n' || c == '\r'
            || c as u32 == 11 || c as u32 == 12,
        is_white_space(c) && (c as u32) >= 0x80 <==> c == '\u{85}' || c == '\u{a0}' || c
            == '\u{1680}' || '\u{2000}' <= c <= '\u{200a}' || c == '\u{2028}' || c == '\u{2029}' || c
            == '\u{202f}' || c == '\u{205f}' || c == '\u{3000}',
{
}

proof fn lemma_trimmed_start_parts(s: Seq<char>)
    ensures
        trimmed_start(s).len() <= s.len(),
        is_blank(s.take(s.len() - trimmed_start(s).len())),
        trimmed_start(s) == s.skip(s.len() - trimmed_start(s).len()),
        trimmed_start(s).len() > 0 ==> !is_white_space(trimmed_start(s)[0]),
    decreases s.len(),
{
    let t = trimmed_start(s);
    if s.len() > 0 && is_white_space(s[0]) {
        let rest = s.drop_first();
        lemma_trimmed_start_parts(rest);
        let front = s.take(s.len() - t.len());
        assert forall|i: int| 0 <= i < front.len() implies is_white_space(#[trigger] front[i]) by {
            if i > 0 {
                assert(front[i] == rest.take(rest.len() - t.len())[i - 1]);
            }
        }
        assert(s.skip(s.len() - t.len()) =~= rest.skip(rest.len() - t.len()));
    } else {
        assert(s.skip(0) =~= s);
    }
}

proof fn lemma_trimmed_end_parts(s: Seq<char>)
    ensures
        trimmed_end(s).len() <= s.len(),
        is_blank(s.skip(trimmed_end(s).len() as int)),
        trimmed_end(s) == s.take(trimmed_end(s).len() as int),
        trimmed_end(s).len() > 0 ==> !is_white_space(trimmed_end(s).last()),
    decreases s.len(),
{
    let t = trimmed_end(s);
    if s.len() > 0 && is_white_space(s.last()) {
        let rest = s.drop_last();
        lemma_trimmed_end_parts(rest);
        let back = s.skip(t.len() as int);
        assert forall|i: int| 0 <= i < back.len() implies is_white_space(#[trigger] back[i]) by {
            if i + 1 < back.len() {
                assert(back[i] == rest.skip(t.len() as int)[i]);
            }
        }
        assert(s.take(t.len() as int) =~= rest.take(t.len() as int));
    } else {
        assert(s.take(s.len() as int) =~= s);
    }
}

/// Trimmed text is the text without white space in front and behind: what is left out is
/// nothing else, and what is left neither begins nor ends with it.
pub proof fn law_trimmed_parts(s: Seq<char>)
    ensures
        ({
            let t = trimmed(s);
            &&& exists|a: Seq<char>, b: Seq<char>| #[trigger]
                (a + t + b) == s && is_blank(a) && is_blank(b)
            &&& t.len() > 0 ==> !is_white_space(t[0]) && !is_white_space(t.last())
        }),
{
    let u = trimmed_start(s);
    let t = trimmed(s);
    lemma_trimmed_start_parts(s);
    lemma_trimmed_end_parts(u);
    let a = s.take(s.len() - u.len());
    let b = u.skip(t.len() as int);
    assert(t + b =~= u);
    assert(a + t + b =~= s);
    if t.len() > 0 {
        assert(t[0] == u[0]);
    }
}

/// Text that neither begins nor ends with white space is the trimmed form of what white
/// space around it makes of it, so trimmed text is not trimmed any further.
pub proof fn law_trimmed_kept(a: Seq<char>, s: Seq<char>, b: Seq<char>)
    requires
        is_blank(a),
        is_blank(b),
        s.len() > 0 ==> !is_white_space(s[0]) && !is_white_space(s.last()),
    ensures
        trimmed(a + s + b) == s,
{
    law_white_space_ignored(a, s, b);
}

/// A key is what the base64 decoder makes of the trimmed text, where that is 32 bytes.
/// Any other text is refused, for one reason.
pub proof fn law_key_or_refusal(text: Seq<char>, why: KeyError)
    ensures
        key_of(text) matches Some(key) ==> base64_decoded(trimmed(text)) == Some(key) && key.len()
            == 32,
        base64_decoded(trimmed(text)) matches Some(bytes) && bytes.len() == 32 ==> key_of(text)
            is Some,
        is_refused(text, why) ==> key_of(text) is None,
        is_refused(text, why) && why is NotThirtyTwoBytes ==> base64_decoded(trimmed(text)) is Some,
        is_refused(text, why) && why is NotBase64 ==> base64_decoded(trimmed(text)) is None,
{
}

/// The prefix length is 32 where no slash follows the address, and otherwise what stands
/// between the first slash and the next one or the end, or 32 where that cannot be read.
pub proof fn law_prefix_behind_slash(ip: Seq<u8>, length: Seq<u8>, rest: Seq<u8>)
    requires
        !ip.contains(47u8),
        !length.contains(47u8),
    ensures
        prefix_of(ip) == 32,
        u8_of_text(length) matches Some(n) ==> prefix_of(ip + seq![47u8] + length) == n && prefix_of(
            ip + seq![47u8] + length + seq![47u8] + rest,
        ) == n,
        u8_of_text(length) is None ==> prefix_of(ip + seq![47u8] + length) == 32 && prefix_of(
            ip + seq![47u8] + length + seq![47u8] + rest,
        ) == 32,
{
    let slash = 47u8;
    lemma_split_at(ip, seq![]);
    assert(split(ip, slash).len() == 1);
    let one = ip + seq![slash] + length;
    lemma_split_at(ip, length);
    lemma_split_at(length, seq![]);
    assert(ip + (seq![slash] + length) =~= one);
    let two = ip + seq![slash] + length + seq![slash] + rest;
    let behind = length + seq![slash] + rest;
    lemma_split_at(ip, behind);
    lemma_split_at(length, rest);
    assert(ip + (seq![slash] + behind) =~= two);
    assert(length + (seq![slash] + rest) =~= behind);
}

/// Text up to the first slash is one part, and the parts behind the slash are those of the
/// text there.
proof fn lemma_split_at(front: Seq<u8>, behind: Seq<u8>)
    requires
        !front.contains(47u8),
    ensures
        split(front, 47) == seq![front],
        split(front + (seq![47u8] + behind), 47) == seq![front] + split(behind, 47),
{
    let slash = 47u8;
    lemma_first_index(front, slash);
    let i = first_index(front, slash);
    if i < front.len() {
        assert(front[i] == slash);
        assert(front.contains(slash));
    }
    assert(split(front, slash) =~= seq![front]);
    let all = front + (seq![slash] + behind);
    lemma_first_index(all, slash);
    let j = first_index(all, slash);
    assert(all[front.len() as int] == slash);
    if j < front.len() {
        assert(all[j] == front[j]);
        assert(front.contains(slash));
    }
    assert(j == front.len());
    assert(all.take(j) =~= front);
    assert(all.skip(j + 1) =~= behind);
    assert(split(all, slash) =~= seq![front] + split(behind, slash));
}

} // verus!
