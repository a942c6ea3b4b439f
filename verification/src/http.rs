//! The one HTTP exchange that the connection test makes: a request, and the first line of
//! the response.
use crate::text::{lossy, utf8_lossy};
use vstd::prelude::*;
use vstd::string::{StrSliceExecFns, StringExecFns};
use vstd::utf8::{decode_utf8, valid_utf8};

verus! {

/// A request for `path` on `host`, after which the connection is closed.
pub fn get_request(path: &str, host: &str) -> (request: String)
    ensures
        request@ == "GET "@ + path@ + " HTTP/1.1\r\nHost: "@ + host@
            + "\r\nConnection: close\r\n\r\n"@,
{
    let mut request = String::from_str("GET ");
    request.append(path);
    request.append(" HTTP/1.1\r\nHost: ");
    request.append(host);
    request.append("\r\nConnection: close\r\n\r\n");
    request
}

/// Where the first line feed stands, or the length where there is none.
pub open spec fn line_end(text: Seq<char>) -> int
    decreases text.len(),
{
    if text.len() == 0 || text[0] == '\n' {
        0
    } else {
        1 + line_end(text.drop_first())
    }
}

/// The first line of text, without the line feed at its end and a carriage return before
/// that.
pub open spec fn spec_first_line(text: Seq<char>) -> Seq<char> {
    let i = line_end(text);
    if 0 < i < text.len() && text[i - 1] == '\r' {
        text.take(i - 1)
    } else {
        text.take(i)
    }
}

proof fn lemma_line_end(text: Seq<char>)
    ensures
        0 <= line_end(text) <= text.len(),
        forall|j: int| 0 <= j < line_end(text) ==> text[j] != '\n',
        line_end(text) < text.len() ==> text[line_end(text)] == '\n',
    decreases text.len(),
{
    if text.len() == 0 || text[0] == '\n' {
    } else {
        lemma_line_end(text.drop_first());
        assert forall|j: int| 0 <= j < line_end(text) implies text[j] != '\n' by {
            if j > 0 {
                assert(text[j] == text.drop_first()[j - 1]);
            }
        }
    }
}

/// The first line of text.
pub fn first_line<'a>(text: &'a str) -> (line: &'a str)
    ensures
        line@ == spec_first_line(text@),
        ({
            let n = line@.len() as int;
            let t = text@;
            &&& n <= t.len() && line@ == t.take(n)
            &&& !line@.contains('\n')
            &&& t.contains('\n') <==> n < t.len()
            &&& n < t.len() ==> (t[n] == '\n' && (n == 0 || t[n - 1] != '\r')) || (t[n] == '\r' && n + 1
                < t.len() && t[n + 1] == '\n')
        }),
{
    proof {
        law_first_line_parts(text@);
    }
    let n: usize = text.unicode_len();
    let mut i: usize = 0;
    proof {
        lemma_line_end(text@);
    }
    while i < n && text.get_char(i) != '\n'
        invariant
            n == text@.len(),
            i <= n,
            forall|j: int| 0 <= j < i ==> text@[j] != '\n',
        decreases n - i,
    {
        i = i + 1;
    }
    assert(i == line_end(text@)) by {
        lemma_line_end(text@);
    }
    let end: usize = if 0 < i && i < n && text.get_char(i - 1) == '\r' {
        i - 1
    } else {
        i
    };
    assert(text@.subrange(0, end as int) =~= text@.take(end as int));
    text.substring_char(0, end)
}

/// The first line of a response.
pub fn status_line(response: &[u8]) -> (line: String)
    ensures
        line@ == spec_first_line(lossy(response@)),
        valid_utf8(response@) ==> line@ == spec_first_line(decode_utf8(response@)),
        ({
            let n = line@.len() as int;
            let t = lossy(response@);
            &&& n <= t.len() && line@ == t.take(n)
            &&& !line@.contains('\n')
            &&& t.contains('\n') <==> n < t.len()
            &&& n < t.len() ==> (t[n] == '\n' && (n == 0 || t[n - 1] != '\r')) || (t[n] == '\r' && n + 1
                < t.len() && t[n + 1] == '\n')
        }),
{
    proof {
        law_first_line_parts(lossy(response@));
    }
    let text = utf8_lossy(response);
    String::from_str(first_line(text.as_str()))
}

/// The first line is what the text begins with, and no line feed is in it. It is the whole
/// text exactly where that has no line feed. Otherwise a line feed follows, or a carriage
/// return and a line feed, and then no carriage return is before the line feed.
pub proof fn law_first_line_parts(text: Seq<char>)
    ensures
        ({
            let n = spec_first_line(text).len() as int;
            let t = text;
            &&& n <= t.len() && spec_first_line(text) == t.take(n)
            &&& !spec_first_line(text).contains('\n')
            &&& t.contains('\n') <==> n < t.len()
            &&& n < t.len() ==> (t[n] == '\n' && (n == 0 || t[n - 1] != '\r')) || (t[n] == '\r' && n + 1
                < t.len() && t[n + 1] == '\n')
        }),
{
    let line = spec_first_line(text);
    lemma_line_end(text);
    assert(line =~= text.take(line.len() as int));
    if line.contains('\n') {
        let j = choose|j: int| 0 <= j < line.len() && line[j] == '\n';
        assert(text[j] == '\n');
    }
    let i = line_end(text);
    if i < text.len() {
        assert(text[i] == '\n');
        assert(text.contains('\n'));
    } else if text.contains('\n') {
        let j = choose|j: int| 0 <= j < text.len() && text[j] == '\n';
        assert(j < line_end(text));
    }
}

/// A line that has no line feed and does not end in a carriage return is the first line of
/// itself, and of every text in which a line end follows it, of either form.
pub proof fn law_first_line_of(line: Seq<char>, rest: Seq<char>)
    requires
        !line.contains('\n'),
    ensures
        spec_first_line(line) == line,
        line.len() == 0 || line.last() != '\r' ==> spec_first_line(line + seq!['\n'] + rest) == line,
        spec_first_line(line + seq!['\r', '\n'] + rest) == line,
{
    lemma_line_end(line);
    if line_end(line) < line.len() {
        assert(line.contains('\n'));
    }
    assert(line.take(line.len() as int) =~= line);
    let a = line + seq!['\n'] + rest;
    lemma_line_end(a);
    assert(a[line.len() as int] == '\n');
    if line_end(a) < line.len() {
        assert(line[line_end(a)] == a[line_end(a)]);
        assert(line.contains('\n'));
    }
    assert(a.take(line.len() as int) =~= line);
    let b = line + seq!['\r', '\n'] + rest;
    lemma_line_end(b);
    assert(b[line.len() as int + 1] == '\n');
    assert(b[line.len() as int] == '\r');
    if line_end(b) < line.len() {
        assert(line[line_end(b)] == b[line_end(b)]);
        assert(line.contains('\n'));
    }
    assert(b.take(line.len() as int) =~= line);
}

} // verus!
