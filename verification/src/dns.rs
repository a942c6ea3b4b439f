//! DNS messages: the query for the IPv4 address of a name, and the first such
//! address in a reply.
use crate::ipv4::Ipv4;
use crate::text::{
    find_from, first_index, joined, law_split_joined, lemma_first_index, split,
};
use vstd::prelude::*;
use vstd::string::StringSliceAdditionalSpecFns;

verus! {

/// The number at `i`, most significant byte first.
pub open spec fn be16(s: Seq<u8>, i: int) -> int {
    s[i] * 256 + s[i + 1]
}

/// A number as two bytes, most significant byte first.
pub open spec fn be16_bytes(n: u16) -> Seq<u8> {
    seq![(n / 256) as u8, (n % 256) as u8]
}

/// Labels in wire form: each behind its length, of which only the low byte is kept.
pub open spec fn encoded(labels: Seq<Seq<u8>>) -> Seq<u8>
    decreases labels.len(),
{
    if labels.len() == 0 {
        Seq::empty()
    } else {
        seq![(labels[0].len() % 256) as u8] + labels[0] + encoded(labels.drop_first())
    }
}

/// The question for the IPv4 address of a name: its labels, the root label, the type
/// and the class.
pub open spec fn question(name: Seq<u8>) -> Seq<u8> {
    encoded(split(name, '.' as u8)) + seq![0u8, 0u8, 1u8, 0u8, 1u8]
}

/// A query with one question, which asks the server to recurse.
pub open spec fn query(name: Seq<u8>, id: u16) -> Seq<u8> {
    be16_bytes(id) + seq![1u8, 0u8, 0u8, 1u8, 0u8, 0u8, 0u8, 0u8, 0u8, 0u8] + question(name)
}

/// The query for the IPv4 address of `name`.
pub fn build_dns_query(name: &str, id: u16) -> (q: Vec<u8>)
    ensures
        q@ == query(name.spec_bytes(), id),
        ({
            let n = name.spec_bytes();
            let q = q@;
            &&& q.len() == n.len() + 18
            &&& q[0] == id / 256 && q[1] == id % 256
            &&& q.subrange(2, 12) == seq![1u8, 0, 0, 1, 0, 0, 0, 0, 0, 0]
            &&& forall|j: int| 0 <= j < n.len() && n[j] != 46 ==> #[trigger] q[j + 13] == n[j]
            &&& forall|p: int, e: int|
                -1 <= p < e <= n.len() && (p == -1 || n[p] == 46) && (e == n.len() || n[e] == 46)
                    && !(#[trigger] n.subrange(p + 1, e)).contains(46u8) ==> q[p + 13] == (e - p - 1)
                    % 256
            &&& q.skip(n.len() as int + 13) == seq![0u8, 0, 1, 0, 1]
        }),
{
    let bytes = name.as_bytes();
    let ghost head = be16_bytes(id) + seq![
        1u8,
        0u8,
        0u8,
        1u8,
        0u8,
        0u8,
        0u8,
        0u8,
        0u8,
        0u8,
    ];
    let mut q: Vec<u8> = vec![(id / 256) as u8, (id % 256) as u8, 1, 0, 0, 1, 0, 0, 0, 0, 0, 0];
    assert(q@ =~= head);
    let mut start: usize = 0;
    let mut more = true;
    assert(bytes@.skip(0) =~= bytes@);
    while more
        invariant
            start <= bytes@.len(),
            more ==> head + encoded(split(bytes@, '.' as u8)) == q@ + encoded(
                split(bytes@.skip(start as int), '.' as u8),
            ),
            !more ==> head + encoded(split(bytes@, '.' as u8)) == q@,
        decreases
                bytes@.len() - start,
                if more {
                    1int
                } else {
                    0int
                },
    {
        let ghost rest = bytes@.skip(start as int);
        let ghost before = q@;
        let end = find_from(bytes, start, '.' as u8);
        let ghost label = rest.take(end - start);
        q.push(((end - start) % 256) as u8);
        let mut i: usize = start;
        while i < end
            invariant
                start <= i <= end <= bytes@.len(),
                rest == bytes@.skip(start as int),
                q@ == before + seq![((end - start) % 256) as u8] + rest.take(i - start),
            decreases end - i,
        {
            q.push(bytes[i]);
            assert(rest.take(i + 1 - start) =~= rest.take(i - start).push(bytes@[i as int]));
            i = i + 1;
        }
        proof {
            let labels = split(rest, '.' as u8);
            lemma_first_index(rest, '.' as u8);
            let tail = if end < bytes@.len() {
                split(bytes@.skip(end + 1), '.' as u8)
            } else {
                Seq::empty()
            };
            if end < bytes@.len() {
                assert(rest.skip(end - start + 1) =~= bytes@.skip(end + 1));
            } else {
                assert(rest.take(end - start) =~= rest);
            }
            assert(labels[0] == label);
            assert(labels.drop_first() =~= tail);
            assert(before + encoded(labels) =~= q@ + encoded(tail));
        }
        if end < bytes.len() {
            start = end + 1;
        } else {
            more = false;
            assert(q@ + Seq::<u8>::empty() =~= q@);
        }
    }
    q.push(0);
    q.push(0);
    q.push(1);
    q.push(0);
    q.push(1);
    assert(q@ =~= query(name.spec_bytes(), id));
    proof {
        law_query_bytes(name.spec_bytes(), id);
    }
    q
}

/// Where the labels that begin at `i` end: at a zero byte, or at or behind the end of
/// the message.
pub open spec fn labels_end(s: Seq<u8>, i: int) -> int
    decreases
            if i < s.len() {
                s.len() - i
            } else {
                0
            },
{
    if 0 <= i < s.len() && s[i] != 0 {
        labels_end(s, i + 1 + s[i])
    } else {
        i
    }
}

/// Where `n` questions that begin at `i` end.
pub open spec fn questions_end(s: Seq<u8>, i: int, n: nat) -> int
    decreases n,
{
    if n == 0 {
        i
    } else {
        questions_end(s, labels_end(s, i) + 5, (n - 1) as nat)
    }
}

/// What a walk through answers finds.
#[derive(Clone, Copy, Debug, PartialEq, Eq, Structural)]
pub enum Found {
    Address(Ipv4),
    Nothing,
    /// An answer does not lie within the message.
    OutOfBounds,
}

/// The first IPv4 address among `n` answers that begin at `i`. The walk ends where
/// fewer than twelve bytes are left. The name of an answer is a pointer of two bytes
/// or a chain of labels.
pub open spec fn first_address(s: Seq<u8>, i: int, n: nat) -> Found
    decreases n,
{
    if n == 0 || i + 12 > s.len() {
        Found::Nothing
    } else {
        let at = if s[i] >= 0xc0 {
            i + 2
        } else {
            labels_end(s, i) + 1
        };
        let data = at + 10;
        if data > s.len() {
            Found::OutOfBounds
        } else if be16(s, at) == 1 && be16(s, at + 8) == 4 && data + 4 <= s.len() {
            Found::Address(Ipv4 { a: s[data], b: s[data + 1], c: s[data + 2], d: s[data + 3] })
        } else {
            first_address(s, data + be16(s, at + 8), (n - 1) as nat)
        }
    }
}

/// What the answers of a message with a full header hold.
pub open spec fn answer(s: Seq<u8>) -> Found {
    first_address(s, questions_end(s, 12, be16(s, 4) as nat), be16(s, 6) as nat)
}

/// Whether every answer that is looked at lies within the message.
pub open spec fn is_readable(s: Seq<u8>) -> bool {
    s.len() >= 12 ==> answer(s) != Found::OutOfBounds
}

/// The identifier of a reply and its first IPv4 address, if it has any. There is
/// nothing to read in less than a header.
pub open spec fn parsed(s: Seq<u8>) -> Option<(u16, Option<Ipv4>)> {
    if s.len() < 12 {
        None
    } else {
        Some(
            (
                be16(s, 0) as u16,
                match answer(s) {
                    Found::Address(ip) => Some(ip),
                    _ => None,
                },
            ),
        )
    }
}

proof fn lemma_labels_end(s: Seq<u8>, i: int)
    ensures
        labels_end(s, i) >= i,
    decreases
            if i < s.len() {
                s.len() - i
            } else {
                0
            },
{
    if 0 <= i < s.len() && s[i] != 0 {
        lemma_labels_end(s, i + 1 + s[i]);
    }
}

proof fn lemma_questions_end(s: Seq<u8>, i: int, n: nat)
    ensures
        questions_end(s, i, n) >= i,
    decreases n,
{
    if n > 0 {
        lemma_labels_end(s, i);
        lemma_questions_end(s, labels_end(s, i) + 5, (n - 1) as nat);
    }
}

/// Where the labels that begin at `i` end, or `None` where that is behind the end of
/// the message.
fn find_labels_end(s: &[u8], i: usize) -> (end: Option<usize>)
    requires
        i <= s@.len(),
    ensures
        match end {
            Some(j) => j <= s@.len() && j == labels_end(s@, i as int),
            None => labels_end(s@, i as int) > s@.len(),
        },
{
    let mut j: usize = i;
    while j < s.len() && s[j] != 0
        invariant
            j <= s@.len(),
            labels_end(s@, j as int) == labels_end(s@, i as int),
        decreases s@.len() - j,
    {
        let step: usize = 1 + s[j] as usize;
        if step > s.len() - j {
            proof {
                lemma_labels_end(s@, j + step);
            }
            return None;
        }
        j = j + step;
    }
    Some(j)
}

/// The number at `i`, most significant byte first.
fn read_be16(s: &[u8], i: usize) -> (n: u16)
    requires
        i + 1 < s@.len(),
    ensures
        n == be16(s@, i as int),
{
    s[i] as u16 * 256 + s[i + 1] as u16
}

/// What the answers of a message hold.
fn find_answer(s: &[u8]) -> (found: Found)
    requires
        s@.len() >= 12,
    ensures
        found == answer(s@),
{
    let qd = read_be16(s, 4);
    let an = read_be16(s, 6);
    let mut i: usize = 12;
    let mut k: u16 = 0;
    while k < qd
        invariant
            12 <= s@.len(),
            i <= s@.len(),
            k <= qd,
            questions_end(s@, i as int, (qd - k) as nat) == questions_end(s@, 12, qd as nat),
            qd == be16(s@, 4),
            an == be16(s@, 6),
        decreases qd - k,
    {
        match find_labels_end(s, i) {
            Some(j) if s.len() - j >= 5 => {
                i = j + 5;
            },
            _ => {
                proof {
                    lemma_questions_end(s@, labels_end(s@, i as int) + 5, (qd - k - 1) as nat);
                }
                return Found::Nothing;
            },
        }
        k = k + 1;
    }
    k = 0;
    while k < an
        invariant
            12 <= s@.len(),
            i <= s@.len(),
            k <= an,
            first_address(s@, i as int, (an - k) as nat) == answer(s@),
        decreases an - k,
    {
        if s.len() - i < 12 {
            return Found::Nothing;
        }
        let at: usize = if s[i] >= 0xc0 {
            i + 2
        } else {
            match find_labels_end(s, i) {
                Some(j) if s.len() - j >= 1 => j + 1,
                _ => {
                    return Found::OutOfBounds;
                },
            }
        };
        if s.len() - at < 10 {
            return Found::OutOfBounds;
        }
        let rtype = read_be16(s, at);
        let rdlen = read_be16(s, at + 8) as usize;
        let data: usize = at + 10;
        if rtype == 1 && rdlen == 4 && s.len() - data >= 4 {
            return Found::Address(Ipv4::new(s[data], s[data + 1], s[data + 2], s[data + 3]));
        }
        if rdlen > s.len() - data {
            assert(first_address(s@, data + rdlen, (an - k - 1) as nat) == Found::Nothing);
            return Found::Nothing;
        }
        i = data + rdlen;
        k = k + 1;
    }
    Found::Nothing
}

/// Whether every answer that [`parse_dns_a`] looks at lies within the message.
pub fn dns_readable(resp: &[u8]) -> (yes: bool)
    ensures
        yes == is_readable(resp@),
{
    if resp.len() < 12 {
        return true;
    }
    match find_answer(resp) {
        Found::OutOfBounds => false,
        _ => true,
    }
}

/// The identifier of a reply and its first IPv4 address, if it has any.
pub fn parse_dns_a(resp: &[u8]) -> (r: Option<(u16, Option<Ipv4>)>)
    requires
        is_readable(resp@),
    ensures
        r == parsed(resp@),
{
    if resp.len() < 12 {
        return None;
    }
    let id = read_be16(resp, 0);
    match find_answer(resp) {
        Found::Address(ip) => Some((id, Some(ip))),
        _ => Some((id, None)),
    }
}

/// Whether every label of a name has a length that its length byte can hold, and none
/// is empty.
pub open spec fn is_proper_name(name: Seq<u8>) -> bool {
    are_labels(split(name, '.' as u8))
}

/// A question: labels, and four bytes for its type and class.
pub struct Question {
    pub labels: Seq<Seq<u8>>,
    pub type_and_class: Seq<u8>,
}

/// Whether every label has a length that its length byte can hold, and none is empty.
pub open spec fn are_labels(labels: Seq<Seq<u8>>) -> bool {
    forall|i: int| 0 <= i < labels.len() ==> 1 <= #[trigger] labels[i].len() <= 255
}

impl Question {
    pub open spec fn is_valid(self) -> bool {
        are_labels(self.labels) && self.type_and_class.len() == 4
    }

    /// The question in wire form.
    pub open spec fn wire(self) -> Seq<u8> {
        encoded(self.labels) + seq![0u8] + self.type_and_class
    }
}

/// Questions in wire form.
pub open spec fn questions_wire(questions: Seq<Question>) -> Seq<u8>
    decreases questions.len(),
{
    if questions.len() == 0 {
        Seq::empty()
    } else {
        questions[0].wire() + questions_wire(questions.drop_first())
    }
}

/// The name of an answer.
pub enum AnswerName {
    /// Two bytes that point elsewhere.
    Pointer(Seq<u8>),
    /// Spelled out.
    Labels(Seq<Seq<u8>>),
}

impl AnswerName {
    /// The first label has to be short enough not to look like a pointer.
    pub open spec fn is_valid(self) -> bool {
        match self {
            AnswerName::Pointer(p) => p.len() == 2 && p[0] >= 0xc0,
            AnswerName::Labels(labels) => are_labels(labels) && (labels.len() > 0
                ==> labels[0].len() < 0xc0),
        }
    }

    /// The name in wire form.
    pub open spec fn wire(self) -> Seq<u8> {
        match self {
            AnswerName::Pointer(p) => p,
            AnswerName::Labels(labels) => encoded(labels) + seq![0u8],
        }
    }
}

/// An answer.
pub struct Record {
    pub name: AnswerName,
    pub rtype: u16,
    pub class_and_ttl: Seq<u8>,
    pub data: Seq<u8>,
}

impl Record {
    pub open spec fn is_valid(self) -> bool {
        &&& self.name.is_valid()
        &&& self.class_and_ttl.len() == 6
        &&& self.data.len() <= 65535
    }

    pub open spec fn is_address(self) -> bool {
        self.rtype == 1 && self.data.len() == 4
    }

    /// The answer in wire form.
    pub open spec fn wire(self) -> Seq<u8> {
        self.name.wire() + be16_bytes(self.rtype) + self.class_and_ttl + be16_bytes(
            self.data.len() as u16,
        ) + self.data
    }
}

/// Answers in wire form.
pub open spec fn records_wire(records: Seq<Record>) -> Seq<u8>
    decreases records.len(),
{
    if records.len() == 0 {
        Seq::empty()
    } else {
        records[0].wire() + records_wire(records.drop_first())
    }
}

/// The address in the first answer that holds one.
pub open spec fn first_record_address(records: Seq<Record>) -> Option<Ipv4>
    decreases records.len(),
{
    if records.len() == 0 {
        None
    } else if records[0].is_address() {
        let data = records[0].data;
        Some(Ipv4 { a: data[0], b: data[1], c: data[2], d: data[3] })
    } else {
        first_record_address(records.drop_first())
    }
}

/// A message with any questions and answers: a header, the questions, the answers and
/// anything behind them.
pub open spec fn reply(
    id: u16,
    flags: u16,
    questions: Seq<Question>,
    records: Seq<Record>,
    other_counts: Seq<u8>,
    rest: Seq<u8>,
) -> Seq<u8> {
    be16_bytes(id) + be16_bytes(flags) + be16_bytes(questions.len() as u16) + be16_bytes(
        records.len() as u16,
    ) + other_counts + questions_wire(questions) + records_wire(records) + rest
}

/// Labels end at the zero byte behind them.
proof fn lemma_labels_end_encoded(s: Seq<u8>, i: int, labels: Seq<Seq<u8>>)
    requires
        0 <= i,
        i + encoded(labels).len() < s.len(),
        s.subrange(i, i + encoded(labels).len()) == encoded(labels),
        s[i + encoded(labels).len()] == 0,
        forall|k: int| 0 <= k < labels.len() ==> 1 <= #[trigger] labels[k].len() <= 255,
    ensures
        labels_end(s, i) == i + encoded(labels).len(),
    decreases labels.len(),
{
    let wire = encoded(labels);
    if labels.len() > 0 {
        let rest = labels.drop_first();
        assert(labels[0].len() >= 1);
        assert(wire[0] == labels[0].len());
        assert(s[i] == s.subrange(i, i + wire.len())[0]);
        let next = i + 1 + labels[0].len();
        assert(s.subrange(next, next + encoded(rest).len()) =~= encoded(rest)) by {
            assert forall|k: int| 0 <= k < encoded(rest).len() implies s[next + k] == encoded(
                rest,
            )[k] by {
                assert(s.subrange(i, i + wire.len())[1 + labels[0].len() + k] == s[next + k]);
            }
        }
        assert forall|k: int| 0 <= k < rest.len() implies 1 <= #[trigger] rest[k].len() <= 255 by {
            assert(rest[k] == labels[k + 1]);
        }
        lemma_labels_end_encoded(s, next, rest);
    }
}

/// Questions end where their wire form ends.
proof fn lemma_questions_end_wire(s: Seq<u8>, i: int, questions: Seq<Question>)
    requires
        0 <= i,
        i + questions_wire(questions).len() <= s.len(),
        s.subrange(i, i + questions_wire(questions).len()) == questions_wire(questions),
        forall|k: int| 0 <= k < questions.len() ==> (#[trigger] questions[k]).is_valid(),
    ensures
        questions_end(s, i, questions.len()) == i + questions_wire(questions).len(),
    decreases questions.len(),
{
    if questions.len() > 0 {
        let wire = questions_wire(questions);
        let rest = questions.drop_first();
        let q = questions[0];
        let labels = encoded(q.labels);
        assert(q.is_valid());
        assert(q.wire().len() == labels.len() + 5);
        let part = s.subrange(i, i + wire.len());
        assert(s.subrange(i, i + labels.len()) =~= labels) by {
            assert forall|k: int| 0 <= k < labels.len() implies s[i + k] == labels[k] by {
                assert(part[k] == s[i + k]);
            }
        }
        assert(s[i + labels.len()] == 0) by {
            assert(part[labels.len() as int] == s[i + labels.len()]);
        }
        lemma_labels_end_encoded(s, i, q.labels);
        let next = i + labels.len() + 5;
        assert(s.subrange(next, next + questions_wire(rest).len()) =~= questions_wire(rest)) by {
            assert forall|k: int| 0 <= k < questions_wire(rest).len() implies s[next + k]
                == questions_wire(rest)[k] by {
                assert(part[labels.len() + 5 + k] == s[next + k]);
            }
        }
        assert forall|k: int| 0 <= k < rest.len() implies (#[trigger] rest[k]).is_valid() by {
            assert(rest[k] == questions[k + 1]);
        }
        lemma_questions_end_wire(s, next, rest);
    }
}

/// The fixed part of an answer stands right behind its name.
proof fn lemma_record_name(s: Seq<u8>, i: int, r: Record)
    requires
        0 <= i,
        r.is_valid(),
        i + r.wire().len() <= s.len(),
        s.subrange(i, i + r.wire().len()) == r.wire(),
    ensures
        r.wire().len() == r.name.wire().len() + 10 + r.data.len(),
        r.name.wire().len() >= 1,
        i + r.name.wire().len() == (if s[i] >= 0xc0 {
            i + 2
        } else {
            labels_end(s, i) + 1
        }),
{
    let name = r.name.wire();
    let part = s.subrange(i, i + r.wire().len());
    assert forall|k: int| 0 <= k < name.len() implies s[i + k] == name[k] by {
        assert(part[k] == s[i + k]);
    }
    match r.name {
        AnswerName::Pointer(p) => {
            assert(s[i + 0] == p[0]);
        },
        AnswerName::Labels(labels) => {
            let wire = encoded(labels);
            assert(s.subrange(i, i + wire.len()) =~= wire) by {
                assert forall|k: int| 0 <= k < wire.len() implies s[i + k] == wire[k] by {
                    assert(name[k] == wire[k]);
                }
            }
            assert(s[i + wire.len()] == name[wire.len() as int]);
            lemma_labels_end_encoded(s, i, labels);
            assert(s[i + 0] == name[0]);
            if labels.len() > 0 {
                assert(wire[0] == labels[0].len());
            }
        },
    }
}

/// A walk through answers finds the first address among them.
proof fn lemma_first_address(s: Seq<u8>, i: int, records: Seq<Record>)
    requires
        0 <= i,
        i + records_wire(records).len() <= s.len(),
        s.subrange(i, i + records_wire(records).len()) == records_wire(records),
        forall|k: int| 0 <= k < records.len() ==> (#[trigger] records[k]).is_valid(),
    ensures
        first_address(s, i, records.len()) == (match first_record_address(records) {
            Some(ip) => Found::Address(ip),
            None => Found::Nothing,
        }),
    decreases records.len(),
{
    if records.len() > 0 {
        let wire = records_wire(records);
        let rest = records.drop_first();
        let r = records[0];
        let first = r.wire();
        assert(r.is_valid());
        let n = r.data.len();
        assert forall|k: int| 0 <= k < first.len() implies s[i + k] == first[k] by {
            assert(s.subrange(i, i + wire.len())[k] == s[i + k]);
        }
        assert(s.subrange(i, i + first.len()) =~= first);
        lemma_record_name(s, i, r);
        let l = r.name.wire().len() as int;
        let at = i + l;
        assert(first.len() == l + 10 + n);
        if rest.len() > 0 {
            assert(rest[0] == records[1]);
            assert(rest[0].is_valid());
            assert(rest[0].wire().len() >= 10);
            assert(records_wire(rest) == rest[0].wire() + records_wire(rest.drop_first()));
        }
        if i + 12 > s.len() {
            assert(rest.len() == 0);
            assert(n < 4);
            assert(first_record_address(rest) is None);
        } else {
            assert(s[at] == s[i + l] && s[i + l] == first[l]);
            assert(s[at + 1] == s[i + (l + 1)] && s[i + (l + 1)] == first[l + 1]);
            assert(s[at + 8] == s[i + (l + 8)] && s[i + (l + 8)] == first[l + 8]);
            assert(s[at + 9] == s[i + (l + 9)] && s[i + (l + 9)] == first[l + 9]);
            assert(be16(s, at) == r.rtype);
            assert(be16(s, at + 8) == n);
            if r.is_address() {
                assert(s[i + (l + 10)] == first[l + 10] && first[l + 10] == r.data[0]);
                assert(s[i + (l + 11)] == first[l + 11] && first[l + 11] == r.data[1]);
                assert(s[i + (l + 12)] == first[l + 12] && first[l + 12] == r.data[2]);
                assert(s[i + (l + 13)] == first[l + 13] && first[l + 13] == r.data[3]);
            } else {
                let next = at + 10 + n;
                assert(s.subrange(next, next + records_wire(rest).len()) =~= records_wire(rest)) by {
                    assert forall|k: int| 0 <= k < records_wire(rest).len() implies s[next + k]
                        == records_wire(rest)[k] by {
                        assert(s.subrange(i, i + wire.len())[first.len() + k] == s[next + k]);
                    }
                }
                assert forall|k: int| 0 <= k < rest.len() implies (#[trigger] rest[k]).is_valid() by {
                    assert(rest[k] == records[k + 1]);
                }
                lemma_first_address(s, next, rest);
            }
        }
    }
}

/// A message with any number of questions, and with answers whose names are pointers or
/// spelled out, is read for what it says: its identifier, and the address in the first
/// answer that holds one, whatever answers stand before it.
pub proof fn law_reply_read(
    id: u16,
    flags: u16,
    questions: Seq<Question>,
    records: Seq<Record>,
    other_counts: Seq<u8>,
    rest: Seq<u8>,
)
    requires
        questions.len() <= 65535,
        records.len() <= 65535,
        forall|k: int|
            0 <= k < questions.len() ==> (#[trigger] questions[k]).type_and_class.len() == 4 && (
            forall|j: int|
                0 <= j < questions[k].labels.len() ==> 1 <= #[trigger] questions[k].labels[j].len()
                    <= 255),
        forall|k: int|
            0 <= k < records.len() ==> (#[trigger] records[k]).class_and_ttl.len() == 6
                && records[k].data.len() <= 65535 && match records[k].name {
                AnswerName::Pointer(p) => p.len() == 2 && p[0] >= 0xc0,
                AnswerName::Labels(labels) => (labels.len() > 0 ==> labels[0].len() < 0xc0) && (
                forall|j: int| 0 <= j < labels.len() ==> 1 <= #[trigger] labels[j].len() <= 255),
            },
        other_counts.len() == 4,
    ensures
        is_readable(reply(id, flags, questions, records, other_counts, rest)),
        parsed(reply(id, flags, questions, records, other_counts, rest)) == Some(
            (id, first_record_address(records)),
        ),
{
    let s = reply(id, flags, questions, records, other_counts, rest);
    let q = questions_wire(questions);
    assert forall|k: int| 0 <= k < questions.len() implies (#[trigger] questions[k]).is_valid() by {}
    assert forall|k: int| 0 <= k < records.len() implies (#[trigger] records[k]).is_valid() by {}
    assert(be16(s, 0) == id);
    assert(be16(s, 4) == questions.len());
    assert(be16(s, 6) == records.len());
    assert(s.subrange(12, 12 + q.len() as int) =~= q);
    lemma_questions_end_wire(s, 12, questions);
    let i: int = 12 + q.len() as int;
    assert(s.subrange(i, i + records_wire(records).len()) =~= records_wire(records));
    lemma_first_address(s, i, records);
}

/// The question of a query is one that a reply can repeat.
pub proof fn law_question_of_query(name: Seq<u8>)
    requires
        is_proper_name(name),
    ensures
        ({
            let q = Question {
                labels: split(name, '.' as u8),
                type_and_class: seq![0u8, 1, 0, 1],
            };
            q.is_valid() && q.wire() == question(name)
        }),
{
    let q = Question { labels: split(name, '.' as u8), type_and_class: seq![0u8, 1, 0, 1] };
    assert(q.wire() =~= question(name));
}

/// A query can be read, and carries its identifier where a reply is read for it.
pub proof fn law_query_id(name: Seq<u8>, id: u16)
    ensures
        is_readable(query(name, id)),
        parsed(query(name, id)) == Some((id, None::<Ipv4>)),
{
    let s = query(name, id);
    assert(be16(s, 0) == id);
    assert(be16(s, 6) == 0);
}

/// A name in wire form is one byte longer than the name: every byte but the dots stays
/// where it is behind the first length, and where a dot stood, and in front, there is the
/// length of the label that follows.
proof fn lemma_encoded_name(s: Seq<u8>)
    ensures
        encoded(split(s, 46)).len() == s.len() + 1,
        forall|j: int|
            0 <= j < s.len() && s[j] != 46 ==> #[trigger] encoded(split(s, 46))[j + 1] == s[j],
        forall|p: int, e: int|
            -1 <= p < e <= s.len() && (p == -1 || s[p] == 46) && (e == s.len() || s[e] == 46) && !(
            #[trigger] s.subrange(p + 1, e)).contains(46u8) ==> encoded(split(s, 46))[p + 1] == (e
                - p - 1) % 256,
    decreases s.len(),
{
    let labels = split(s, 46);
    let w = encoded(labels);
    let k = first_index(s, 46);
    lemma_first_index(s, 46);
    let first = s.take(k);
    let none: Seq<Seq<u8>> = Seq::empty();
    assert(encoded(none) =~= Seq::empty());
    if k >= s.len() {
        assert(first =~= s);
        assert(labels.drop_first() =~= none);
        assert(w =~= seq![(s.len() % 256) as u8] + s);
        assert forall|p: int, e: int|
            -1 <= p < e <= s.len() && (p == -1 || s[p] == 46) && (e == s.len() || s[e] == 46) && !(
            #[trigger] s.subrange(p + 1, e)).contains(46u8) implies w[p + 1] == (e - p - 1)
            % 256 by {
            assert(p == -1 && e == s.len());
        }
    } else {
        let rest = s.skip(k + 1);
        lemma_encoded_name(rest);
        let w2 = encoded(split(rest, 46));
        assert(labels.drop_first() =~= split(rest, 46));
        assert(w =~= seq![(k % 256) as u8] + first + w2);
        assert forall|j: int| 0 <= j < s.len() && s[j] != 46 implies #[trigger] w[j + 1] == s[j] by {
            if j > k {
                assert(w[j + 1] == w2[(j - k - 1) + 1]);
                assert(rest[j - k - 1] == s[j]);
            }
        }
        assert forall|p: int, e: int|
            -1 <= p < e <= s.len() && (p == -1 || s[p] == 46) && (e == s.len() || s[e] == 46) && !(
            #[trigger] s.subrange(p + 1, e)).contains(46u8) implies w[p + 1] == (e - p - 1)
            % 256 by {
            let part = s.subrange(p + 1, e);
            if p == -1 {
                if e > k {
                    assert(part[k] == 46);
                }
                assert(e == k);
            } else {
                assert(p >= k);
                let p2 = p - k - 1;
                let e2 = e - k - 1;
                assert(rest.subrange(p2 + 1, e2) =~= part);
                assert(p2 >= 0 ==> rest[p2] == s[p]);
                assert(e2 < rest.len() ==> rest[e2] == s[e]);
                assert(w2[p2 + 1] == (e2 - p2 - 1) % 256);
                assert(w[p + 1] == w2[p2 + 1]);
            }
        }
    }
}

/// A query, byte by byte: the identifier, the fixed part of the header, then the name, in
/// which each dot, and the place in front, holds the length of the label that follows,
/// then the root label, the type and the class.
pub proof fn law_query_bytes(name: Seq<u8>, id: u16)
    ensures
        ({
            let n = name;
            let q = query(name, id);
            &&& q.len() == n.len() + 18
            &&& q[0] == id / 256 && q[1] == id % 256
            &&& q.subrange(2, 12) == seq![1u8, 0, 0, 1, 0, 0, 0, 0, 0, 0]
            &&& forall|j: int| 0 <= j < n.len() && n[j] != 46 ==> #[trigger] q[j + 13] == n[j]
            &&& forall|p: int, e: int|
                -1 <= p < e <= n.len() && (p == -1 || n[p] == 46) && (e == n.len() || n[e] == 46)
                    && !(#[trigger] n.subrange(p + 1, e)).contains(46u8) ==> q[p + 13] == (e - p - 1)
                    % 256
            &&& q.skip(n.len() as int + 13) == seq![0u8, 0, 1, 0, 1]
        }),
{
    let n = name;
    let q = query(name, id);
    let w = encoded(split(n, 46));
    lemma_encoded_name(n);
    assert(q =~= be16_bytes(id) + seq![1u8, 0, 0, 1, 0, 0, 0, 0, 0, 0] + w + seq![
        0u8,
        0,
        1,
        0,
        1,
    ]);
    assert(q.subrange(2, 12) =~= seq![1u8, 0, 0, 1, 0, 0, 0, 0, 0, 0]);
    assert(q.skip(n.len() as int + 13) =~= seq![0u8, 0, 1, 0, 1]);
    assert forall|j: int| 0 <= j < n.len() && n[j] != 46 implies #[trigger] q[j + 13] == n[j] by {
        assert(q[j + 13] == w[j + 1]);
    }
    assert forall|p: int, e: int|
        -1 <= p < e <= n.len() && (p == -1 || n[p] == 46) && (e == n.len() || n[e] == 46) && !(
        #[trigger] n.subrange(p + 1, e)).contains(46u8) implies q[p + 13] == (e - p - 1) % 256 by {
        assert(q[p + 13] == w[p + 1]);
    }
}

/// The labels that stand in a message from `i` on, each read by its length byte, up to the
/// zero byte.
pub open spec fn labels_read(s: Seq<u8>, i: int) -> Seq<Seq<u8>>
    decreases
            if i < s.len() {
                s.len() - i
            } else {
                0
            },
{
    if 0 <= i < s.len() && s[i] != 0 {
        seq![s.subrange(i + 1, i + 1 + s[i])] + labels_read(s, i + 1 + s[i])
    } else {
        Seq::empty()
    }
}

proof fn lemma_labels_read(s: Seq<u8>, i: int, labels: Seq<Seq<u8>>)
    requires
        0 <= i,
        i + encoded(labels).len() < s.len(),
        s.subrange(i, i + encoded(labels).len()) == encoded(labels),
        s[i + encoded(labels).len()] == 0,
        are_labels(labels),
    ensures
        labels_read(s, i) == labels,
    decreases labels.len(),
{
    let wire = encoded(labels);
    if labels.len() > 0 {
        let rest = labels.drop_first();
        let n = labels[0].len() as int;
        assert(1 <= labels[0].len() <= 255);
        assert(wire[0] == n);
        let part = s.subrange(i, i + wire.len());
        assert(s[i] == part[0]);
        let next = i + 1 + n;
        assert(s.subrange(i + 1, next) =~= labels[0]) by {
            assert forall|k: int| 0 <= k < n implies s[i + 1 + k] == labels[0][k] by {
                assert(part[1 + k] == s[i + 1 + k]);
                assert(wire[1 + k] == labels[0][k]);
            }
        }
        assert(s.subrange(next, next + encoded(rest).len()) =~= encoded(rest)) by {
            assert forall|k: int| 0 <= k < encoded(rest).len() implies s[next + k] == encoded(
                rest,
            )[k] by {
                assert(part[1 + n + k] == s[next + k]);
            }
        }
        assert forall|k: int| 0 <= k < rest.len() implies 1 <= #[trigger] rest[k].len() <= 255 by {
            assert(rest[k] == labels[k + 1]);
        }
        lemma_labels_read(s, next, rest);
        assert(labels_read(s, i) =~= labels);
    } else {
        assert(labels_read(s, i) =~= labels);
    }
}

/// Reading the question of a query label by label gives back the parts of the name between
/// its dots, all of them and in order: joined by dots they are the name. It goes for names
/// whose labels have 1 to 255 bytes.
pub proof fn law_query_names_the_host(name: Seq<u8>, id: u16)
    requires
        forall|i: int|
            0 <= i < split(name, 46).len() ==> 1 <= #[trigger] split(name, 46)[i].len() <= 255,
    ensures
        labels_read(query(name, id), 12) == split(name, 46),
        joined(labels_read(query(name, id), 12), 46) == name,
{
    let q = query(name, id);
    let labels = split(name, 46);
    let w = encoded(labels);
    assert(are_labels(labels));
    assert(q.subrange(12, 12 + w.len() as int) =~= w);
    assert(q[12 + w.len() as int] == 0);
    lemma_labels_read(q, 12, labels);
    law_split_joined(name, 46);
}

/// Labels of at most 255 bytes have a wire form of their own.
proof fn lemma_encoded_unique(a: Seq<Seq<u8>>, b: Seq<Seq<u8>>)
    requires
        encoded(a) == encoded(b),
        forall|i: int| 0 <= i < a.len() ==> #[trigger] a[i].len() <= 255,
        forall|i: int| 0 <= i < b.len() ==> #[trigger] b[i].len() <= 255,
    ensures
        a == b,
    decreases a.len(),
{
    let w = encoded(a);
    if a.len() == 0 {
        assert(w.len() == 0);
        assert(a =~= b);
    } else {
        assert(b.len() > 0);
        assert(a[0].len() <= 255 && b[0].len() <= 255);
        assert(w[0] == a[0].len());
        assert(w[0] == b[0].len());
        let n = a[0].len() as int;
        assert(w.subrange(1, 1 + n) =~= a[0]);
        assert(w.subrange(1, 1 + n) =~= b[0]);
        assert(w.skip(1 + n) =~= encoded(a.drop_first()));
        assert(w.skip(1 + n) =~= encoded(b.drop_first()));
        assert forall|i: int| 0 <= i < a.drop_first().len() implies #[trigger] a.drop_first()[i].len()
            <= 255 by {
            assert(a.drop_first()[i] == a[i + 1]);
        }
        assert forall|i: int| 0 <= i < b.drop_first().len() implies #[trigger] b.drop_first()[i].len()
            <= 255 by {
            assert(b.drop_first()[i] == b[i + 1]);
        }
        lemma_encoded_unique(a.drop_first(), b.drop_first());
        assert(a =~= seq![a[0]] + a.drop_first());
        assert(b =~= seq![b[0]] + b.drop_first());
    }
}

/// Different names have different queries, and so have different identifiers. It goes for
/// names whose labels have at most 255 bytes, since a length byte tells no more.
pub proof fn law_queries_differ(a: Seq<u8>, b: Seq<u8>, id_a: u16, id_b: u16)
    requires
        forall|i: int| 0 <= i < split(a, 46).len() ==> #[trigger] split(a, 46)[i].len() <= 255,
        forall|i: int| 0 <= i < split(b, 46).len() ==> #[trigger] split(b, 46)[i].len() <= 255,
        query(a, id_a) == query(b, id_b),
    ensures
        a == b,
        id_a == id_b,
{
    let q = query(a, id_a);
    let wa = encoded(split(a, 46));
    let wb = encoded(split(b, 46));
    law_query_bytes(a, id_a);
    law_query_bytes(b, id_b);
    assert(q.subrange(12, q.len() - 5) =~= wa);
    assert(query(b, id_b).subrange(12, q.len() - 5) =~= wb);
    lemma_encoded_unique(split(a, 46), split(b, 46));
    law_split_joined(a, 46);
    law_split_joined(b, 46);
}

/// Labels in wire form stand one behind the other, each behind its length.
pub proof fn law_encoded_appends(labels: Seq<Seq<u8>>, label: Seq<u8>)
    ensures
        encoded(Seq::<Seq<u8>>::empty()).len() == 0,
        encoded(labels.push(label)) == encoded(labels) + seq![(label.len() % 256) as u8] + label,
    decreases labels.len(),
{
    let all = labels.push(label);
    if labels.len() == 0 {
        assert(all.drop_first() =~= Seq::empty());
        assert(encoded(all.drop_first()) =~= Seq::empty());
        assert(encoded(labels) =~= Seq::empty());
        assert(encoded(all) =~= encoded(labels) + seq![(label.len() % 256) as u8] + label);
    } else {
        law_encoded_appends(labels.drop_first(), label);
        assert(all.drop_first() =~= labels.drop_first().push(label));
        assert(all[0] == labels[0]);
        assert(encoded(all) =~= encoded(labels) + seq![(label.len() % 256) as u8] + label);
    }
}

/// Questions in wire form stand one behind the other: labels, a zero byte, type and class.
pub proof fn law_questions_wire_appends(questions: Seq<Question>, q: Question)
    ensures
        questions_wire(Seq::<Question>::empty()).len() == 0,
        questions_wire(questions.push(q)) == questions_wire(questions) + encoded(q.labels) + seq![
            0u8,
        ] + q.type_and_class,
    decreases questions.len(),
{
    let all = questions.push(q);
    let end = encoded(q.labels) + seq![0u8] + q.type_and_class;
    if questions.len() == 0 {
        assert(all.drop_first() =~= Seq::empty());
        assert(questions_wire(all.drop_first()) =~= Seq::empty());
        assert(questions_wire(questions) =~= Seq::empty());
        assert(questions_wire(all) =~= q.wire());
    } else {
        law_questions_wire_appends(questions.drop_first(), q);
        assert(all.drop_first() =~= questions.drop_first().push(q));
        assert(all[0] == questions[0]);
    }
    assert(questions_wire(all) =~= questions_wire(questions) + encoded(q.labels) + seq![0u8]
        + q.type_and_class);
}

/// Answers in wire form stand one behind the other: the name, the type, class and lifetime,
/// the length of the data and the data. A name is a pointer, or labels and a zero byte.
pub proof fn law_records_wire_appends(records: Seq<Record>, r: Record)
    requires
        r.data.len() <= 65535,
    ensures
        records_wire(Seq::<Record>::empty()).len() == 0,
        records_wire(records.push(r)) == records_wire(records) + (match r.name {
            AnswerName::Pointer(p) => p,
            AnswerName::Labels(labels) => encoded(labels) + seq![0u8],
        }) + seq![(r.rtype / 256) as u8, (r.rtype % 256) as u8] + r.class_and_ttl + seq![
            (r.data.len() / 256) as u8,
            (r.data.len() % 256) as u8,
        ] + r.data,
    decreases records.len(),
{
    let all = records.push(r);
    if records.len() == 0 {
        assert(all.drop_first() =~= Seq::empty());
        assert(records_wire(all.drop_first()) =~= Seq::empty());
        assert(records_wire(records) =~= Seq::empty());
        assert(records_wire(all) =~= r.wire());
    } else {
        law_records_wire_appends(records.drop_first(), r);
        assert(all.drop_first() =~= records.drop_first().push(r));
        assert(all[0] == records[0]);
    }
    assert(records_wire(all) =~= records_wire(records) + (match r.name {
        AnswerName::Pointer(p) => p,
        AnswerName::Labels(labels) => encoded(labels) + seq![0u8],
    }) + seq![(r.rtype / 256) as u8, (r.rtype % 256) as u8] + r.class_and_ttl + seq![
        (r.data.len() / 256) as u8,
        (r.data.len() % 256) as u8,
    ] + r.data);
}

/// A reply, part by part: identifier, flags, how many questions and answers, other counts,
/// then the questions, the answers and the rest.
pub proof fn law_reply_parts(
    id: u16,
    flags: u16,
    questions: Seq<Question>,
    records: Seq<Record>,
    other_counts: Seq<u8>,
    rest: Seq<u8>,
)
    requires
        questions.len() <= 65535,
        records.len() <= 65535,
    ensures
        reply(id, flags, questions, records, other_counts, rest) == seq![
            (id / 256) as u8,
            (id % 256) as u8,
            (flags / 256) as u8,
            (flags % 256) as u8,
            (questions.len() / 256) as u8,
            (questions.len() % 256) as u8,
            (records.len() / 256) as u8,
            (records.len() % 256) as u8,
        ] + other_counts + questions_wire(questions) + records_wire(records) + rest,
{
    assert(reply(id, flags, questions, records, other_counts, rest) =~= seq![
        (id / 256) as u8,
        (id % 256) as u8,
        (flags / 256) as u8,
        (flags % 256) as u8,
        (questions.len() / 256) as u8,
        (questions.len() % 256) as u8,
        (records.len() / 256) as u8,
        (records.len() % 256) as u8,
    ] + other_counts + questions_wire(questions) + records_wire(records) + rest);
}

/// The address among answers is the data of the first one of type 1 with four bytes of
/// data, whatever stands before and behind it, and there is none where no answer is of that
/// kind.
pub proof fn law_first_record_address(records: Seq<Record>, k: int)
    requires
        0 <= k <= records.len(),
        forall|j: int|
            0 <= j < k ==> (#[trigger] records[j]).rtype != 1 || records[j].data.len() != 4,
        k < records.len() ==> records[k].rtype == 1 && records[k].data.len() == 4,
    ensures
        first_record_address(records) == (if k < records.len() {
            let d = records[k].data;
            Some(Ipv4 { a: d[0], b: d[1], c: d[2], d: d[3] })
        } else {
            None
        }),
    decreases records.len(),
{
    if records.len() > 0 && k > 0 {
        let rest = records.drop_first();
        assert(records[0].rtype != 1 || records[0].data.len() != 4);
        assert forall|j: int| 0 <= j < k - 1 implies (#[trigger] rest[j]).rtype != 1
            || rest[j].data.len() != 4 by {
            assert(rest[j] == records[j + 1]);
        }
        law_first_record_address(rest, k - 1);
    }
}

/// Less than a header is not read at all, and anything else has the identifier that its
/// first two bytes are, the most significant one first.
pub proof fn law_parsed_id(s: Seq<u8>)
    ensures
        s.len() < 12 ==> parsed(s) is None && is_readable(s),
        s.len() >= 12 ==> (parsed(s) matches Some((id, _)) && id == s[0] * 256 + s[1]),
{
}

/// A message without questions whose first answer has a pointer for its name is read byte
/// by byte: the type and the length of the data decide whether it is an address, and the
/// four bytes behind them are the address. Where the message ends before an answer can be,
/// there is none.
pub proof fn law_first_answer_bytes(s: Seq<u8>)
    requires
        s.len() >= 12,
        s[4] == 0,
        s[5] == 0,
        s[6] > 0 || s[7] > 0,
    ensures
        s.len() < 24 ==> is_readable(s) && parsed(s) == Some(
            ((s[0] * 256 + s[1]) as u16, None::<Ipv4>),
        ),
        s.len() >= 28 && s[12] >= 0xc0 && s[14] == 0 && s[15] == 1 && s[22] == 0 && s[23] == 4
            ==> is_readable(s) && parsed(s) == Some(
            (
                (s[0] * 256 + s[1]) as u16,
                Some(Ipv4 { a: s[24], b: s[25], c: s[26], d: s[27] }),
            ),
        ),
{
    let n = be16(s, 6) as nat;
    assert(be16(s, 4) == 0);
    assert(n > 0);
    assert(questions_end(s, 12, 0) == 12);
}

/// A message without questions whose first answer has a pointer for its name and ends
/// within the four bytes of an address holds no address, and can be read. One whose first
/// answer begins with a label that goes beyond its end cannot be read.
pub proof fn law_cut_answer(s: Seq<u8>)
    requires
        s.len() >= 24,
        s[4] == 0,
        s[5] == 0,
        s[6] > 0 || s[7] > 0,
    ensures
        s.len() < 28 && s[12] >= 0xc0 && s[22] == 0 && s[23] == 4 ==> is_readable(s) && parsed(s)
            == Some(((s[0] * 256 + s[1]) as u16, None::<Ipv4>)),
        0 < s[12] < 0xc0 && 13 + s[12] >= s.len() ==> !is_readable(s),
{
    let n = be16(s, 6) as nat;
    assert(be16(s, 4) == 0);
    assert(n > 0);
    assert(questions_end(s, 12, 0) == 12);
    if s[12] >= 0xc0 && s[22] == 0 && s[23] == 4 && s.len() < 28 {
        assert(be16(s, 22) == 4);
        assert(first_address(s, 28, (n - 1) as nat) == Found::Nothing);
    } else if 0 < s[12] < 0xc0 && 13 + s[12] >= s.len() {
        let end = 13 + s[12];
        assert(labels_end(s, end) == end);
        assert(labels_end(s, 12) == end);
    }
}

/// A message with questions that leaves no room for an answer behind the first label of
/// the first one can be read, and holds no address.
pub proof fn law_cut_question(s: Seq<u8>)
    requires
        s.len() >= 12,
        s[4] > 0 || s[5] > 0,
        s.len() <= 28 || s[12] > 0 && 30 + s[12] > s.len(),
    ensures
        is_readable(s),
        parsed(s) == Some(((s[0] * 256 + s[1]) as u16, None::<Ipv4>)),
{
    let n = be16(s, 4) as nat;
    assert(n > 0);
    lemma_labels_end(s, 12);
    if s.len() > 12 && s[12] != 0 {
        lemma_labels_end(s, 13 + s[12]);
    }
    lemma_questions_end(s, labels_end(s, 12) + 5, (n - 1) as nat);
}

/// Two bytes stand for a number with the most significant one first, and a number for the
/// two bytes that stand for it.
pub proof fn law_two_bytes(high: u8, low: u8, n: u16)
    ensures
        be16(seq![high, low], 0) == high * 256 + low,
        be16_bytes(n).len() == 2,
        be16_bytes(n)[0] * 256 + be16_bytes(n)[1] == n,
{
}

} // verus!
