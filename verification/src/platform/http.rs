//! The telemetry endpoint's HTTP handling: the path a request asks for, and the response
//! it gets.
use vstd::prelude::*;
use vstd::string::StringSliceAdditionalSpecFns;
use vstd::utf8::{decode_utf8, valid_utf8};

use crate::sql::lexer::{chars_of, is_space, space_char};
use crate::text::{decimal, push_char, u64_text};

verus! {

/// The text `String::from_utf8_lossy` makes of `bytes`.
pub uninterp spec fn utf8_lossy(bytes: Seq<u8>) -> Seq<char>;

/// The text a lossy decoding makes of `bytes`: the UTF-8 text they encode when they are
/// valid UTF-8, else what `String::from_utf8_lossy` makes of them.
pub open spec fn lossy_view(bytes: Seq<u8>) -> Seq<char> {
    if valid_utf8(bytes) {
        decode_utf8(bytes)
    } else {
        utf8_lossy(bytes)
    }
}

/// `String::from_utf8_lossy`; its result is named `utf8_lossy` of the bytes. Its
/// documentation: valid UTF-8 comes back as the text it encodes.
#[verifier::external_body]
fn lossy_text(bytes: &[u8]) -> (r: String)
    ensures
        r@ == utf8_lossy(bytes@),
        r@ == lossy_view(bytes@),
{
    String::from_utf8_lossy(bytes).into_owned()
}

/// The first index from `i` on that holds a newline, or the end.
pub open spec fn newline_at(t: Seq<char>, i: int) -> int
    decreases t.len() - i,
{
    if 0 <= i < t.len() && t[i] != '\n' {
        newline_at(t, i + 1)
    } else {
        i
    }
}

/// The first line of `t` as `str::lines` gives it: up to the first newline, without a
/// carriage return just before that newline; none for empty text.
pub open spec fn first_line(t: Seq<char>) -> Option<Seq<char>> {
    if t.len() == 0 {
        None
    } else {
        let e = newline_at(t, 0);
        if e < t.len() && e > 0 && t[e - 1] == '\r' {
            Some(t.subrange(0, e - 1))
        } else {
            Some(t.subrange(0, e))
        }
    }
}

/// The words of `l` as `str::split_whitespace` gives them.
pub open spec fn words(l: Seq<char>) -> Seq<Seq<char>>
    decreases l.len(),
{
    if l.len() == 0 {
        Seq::empty()
    } else {
        let prev = words(l.drop_last());
        let c = l.last();
        if space_char(c) {
            prev
        } else if l.len() >= 2 && !space_char(l[l.len() - 2]) {
            prev.update(prev.len() - 1, prev.last().push(c))
        } else {
            prev.push(seq![c])
        }
    }
}

/// The path a request asks for: the second word of its first line, or "/" when there is
/// none.
pub open spec fn path_of(bytes: Seq<u8>) -> Seq<char> {
    match first_line(lossy_view(bytes)) {
        Some(l) => if words(l).len() >= 2 {
            words(l)[1]
        } else {
            "/"@
        },
        None => "/"@,
    }
}

proof fn lemma_words_nonempty(l: Seq<char>)
    ensures
        l.len() > 0 && !space_char(l.last()) ==> words(l).len() > 0,
        words(l).len() <= l.len(),
    decreases l.len(),
{
    if l.len() > 0 {
        lemma_words_nonempty(l.drop_last());
        if l.len() >= 2 && !space_char(l[l.len() - 2]) {
            assert(l.drop_last().last() == l[l.len() - 2]);
        }
    }
}

/// The path a request asks for.
pub fn request_path(request: &[u8]) -> (r: String)
    ensures
        r@ == path_of(request@),
{
    let text = lossy_text(request);
    let ghost t = text@;
    let all = chars_of(text.as_str());
    let n = all.len();
    if n == 0 {
        return "/".to_owned();
    }
    let mut e: usize = 0;
    while e < n && all[e] != '\n'
        invariant
            all@ == t,
            n == t.len(),
            e <= n,
            newline_at(t, e as int) == newline_at(t, 0),
        decreases n - e,
    {
        e = e + 1;
    }
    let end = if e < n && e > 0 && all[e - 1] == '\r' { e - 1 } else { e };
    let ghost line = t.subrange(0, end as int);
    let mut words_v: Vec<Vec<char>> = Vec::new();
    let mut i: usize = 0;
    while i < end
        invariant
            all@ == t,
            end <= n == t.len(),
            line == t.subrange(0, end as int),
            i <= end,
            words_v@.map_values(|w: Vec<char>| w@) == words(line.take(i as int)),
        decreases end - i,
    {
        let c = all[i];
        let ghost prev = words(line.take(i as int));
        proof {
            assert(line.take(i + 1).drop_last() =~= line.take(i as int));
            assert(line.take(i + 1).last() == c);
            lemma_words_nonempty(line.take(i as int));
            if i >= 1 {
                assert(line.take(i + 1)[i - 1] == line.take(i as int).last());
            }
        }
        if is_space(c) {
        } else if i >= 1 && !is_space(all[i - 1]) {
            let k = words_v.len() - 1;
            let mut w = words_v.remove(k);
            w.push(c);
            words_v.push(w);
            proof {
                assert(words_v@.map_values(|w: Vec<char>| w@) =~= prev.update(prev.len() - 1, prev.last().push(c)));
            }
        } else {
            let mut w: Vec<char> = Vec::new();
            w.push(c);
            words_v.push(w);
            proof {
                assert(words_v@.map_values(|w: Vec<char>| w@) =~= prev.push(seq![c]));
            }
        }
        i = i + 1;
    }
    proof {
        assert(line.take(end as int) =~= line);
        assert(first_line(t) == Some(line));
    }
    if words_v.len() >= 2 {
        let mut out = String::new();
        let w = &words_v[1];
        let mut j: usize = 0;
        while j < w.len()
            invariant
                j <= w@.len(),
                out@ == w@.take(j as int),
            decreases w@.len() - j,
        {
            push_char(&mut out, w[j]);
            j = j + 1;
            assert(out@ =~= w@.take(j as int));
        }
        assert(w@.take(j as int) =~= w@);
        out
    } else {
        "/".to_owned()
    }
}

/// The telemetry document for the given counts.
pub open spec fn telemetry_body(swim_peers: u64, lsm_sstables: u64) -> Seq<char> {
    "{\n  \"status\": \"ACTIVE\",\n  \"swim_peers\": "@ + decimal(swim_peers as nat)
        + ",\n  \"lsm_sstables\": "@ + decimal(lsm_sstables as nat) + "\n}"@
}

/// The document answering an unknown path.
pub open spec fn not_found_body() -> Seq<char> {
    "{\n  \"error\": \"Not Found\"\n}"@
}

/// A response with `status`, a JSON body and its length in bytes.
pub open spec fn http_reply(status: Seq<char>, body: Seq<char>) -> Seq<char> {
    "HTTP/1.1 "@ + status + "\r\nContent-Type: application/json\r\nContent-Length: "@ + decimal(
        vstd::utf8::encode_utf8(body).len(),
    ) + "\r\nConnection: close\r\n\r\n"@ + body
}

fn reply_with(status: &str, body: String) -> (r: String)
    ensures
        r@ == http_reply(status@, body@),
{
    let n = body.as_str().as_bytes().len();
    let mut out = "HTTP/1.1 ".to_owned();
    out.append(status);
    out.append("\r\nContent-Type: application/json\r\nContent-Length: ");
    out.append(u64_text(n as u64).as_str());
    out.append("\r\nConnection: close\r\n\r\n");
    out.append(body.as_str());
    assert(out@ =~= http_reply(status@, body@));
    out
}

/// The response to a request for `path`: the telemetry document for "/telemetry", a
/// not-found document otherwise.
pub fn http_response(path: &str, swim_peers: u64, lsm_sstables: u64) -> (r: String)
    ensures
        r@ == if path@ == "/telemetry"@ {
            http_reply("200 OK"@, telemetry_body(swim_peers, lsm_sstables))
        } else {
            http_reply("404 Not Found"@, not_found_body())
        },
{
    let p = path.to_owned();
    let t = "/telemetry".to_owned();
    if p == t {
        let mut body = "{\n  \"status\": \"ACTIVE\",\n  \"swim_peers\": ".to_owned();
        body.append(u64_text(swim_peers).as_str());
        body.append(",\n  \"lsm_sstables\": ");
        body.append(u64_text(lsm_sstables).as_str());
        body.append("\n}");
        reply_with("200 OK", body)
    } else {
        reply_with("404 Not Found", "{\n  \"error\": \"Not Found\"\n}".to_owned())
    }
}

} // verus!
