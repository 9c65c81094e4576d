use vstd::prelude::*;

use crate::bindings::{base64_standard, encode_base64, lemma_base64_length, lemma_base64_padding};
use crate::frame::random_bytes;
use crate::text::{
    before_first_chars, chars_of, contains, contains_exec, find_char, lemma_first_index_of_bounds,
    lines, occurs_at_exec, starts_with, string_of, strip_all_prefix_chars, sub_chars, trim_chars,
    before_first, strip_all_prefix, trim,
};
use crate::web_socket::header_view;
use crate::text::{
    ends_with, is_whitespace, lemma_before_first, lemma_contains_in_middle, lemma_contains_piece,
    lemma_trim_end_prefix, lemma_trim_start_front, trim_start,
};

verus! {

/// The value that a `Set-Cookie:` line sets: what follows the header name (every leading copy of
/// it removed), without surrounding white space, up to the first `;`.
pub open spec fn cookie_of(line: Seq<char>) -> Seq<char> {
    before_first(trim(strip_all_prefix(line, "Set-Cookie:"@)), ';')
}

/// The cookie that the last `Set-Cookie:` line among `ls` sets, if one does.
pub open spec fn last_cookie(ls: Seq<Seq<char>>) -> Option<Seq<char>>
    decreases ls.len(),
{
    if ls.len() == 0 {
        None
    } else if starts_with(ls.last(), "Set-Cookie:"@) {
        Some(cookie_of(ls.last()))
    } else {
        last_cookie(ls.drop_last())
    }
}

/// The headers that the handshake request carries after a probe answered with `response`: a
/// `Cookie` header with the cookie of the last `Set-Cookie:` line, or none.
pub open spec fn detected_headers(response: Seq<char>) -> Seq<(Seq<char>, Seq<char>)> {
    if contains(response, "Set-Cookie:"@) {
        match last_cookie(lines(response)) {
            Some(v) => seq![("Cookie"@, v)],
            None => seq![],
        }
    } else {
        seq![]
    }
}

/// A probe yields at most one header, and it is named `Cookie`.
pub proof fn lemma_detected_headers_shape(response: Seq<char>)
    ensures
        detected_headers(response).len() <= 1,
        forall|i: int|
            0 <= i < detected_headers(response).len() ==> #[trigger] detected_headers(response)[i].0
                == "Cookie"@,
{
}

/// The cookie that a probe carries over holds no `;` and starts with no white space, and there is
/// none when the answer holds no `Set-Cookie:`.
pub proof fn lemma_detected_cookie_shape(response: Seq<char>)
    ensures
        !contains(response, "Set-Cookie:"@) ==> detected_headers(response).len() == 0,
        detected_headers(response).len() == 1 ==> ({
            let v = detected_headers(response)[0].1;
            &&& forall|i: int| 0 <= i < v.len() ==> #[trigger] v[i] != ';'
            &&& v.len() > 0 ==> !is_whitespace(v[0])
        }),
{
    if detected_headers(response).len() == 1 {
        let line = choose_cookie_line(lines(response));
        lemma_last_cookie_is_cookie_of(lines(response));
        let x = trim(strip_all_prefix(line, "Set-Cookie:"@));
        let v = before_first(x, ';');
        lemma_before_first(x, ';');
        let ts = trim_start(strip_all_prefix(line, "Set-Cookie:"@));
        lemma_trim_start_front(strip_all_prefix(line, "Set-Cookie:"@));
        lemma_trim_end_prefix(ts);
        if v.len() > 0 {
            assert(v[0] == x[0]);
            assert(x[0] == ts[0]);
        }
    }
}

/// The line whose cookie `last_cookie` gives: the last line that starts with `Set-Cookie:`.
spec fn choose_cookie_line(ls: Seq<Seq<char>>) -> Seq<char>
    decreases ls.len(),
{
    if ls.len() == 0 {
        seq![]
    } else if starts_with(ls.last(), "Set-Cookie:"@) {
        ls.last()
    } else {
        choose_cookie_line(ls.drop_last())
    }
}

proof fn lemma_last_cookie_is_cookie_of(ls: Seq<Seq<char>>)
    ensures
        last_cookie(ls) is Some ==> last_cookie(ls) == Some(cookie_of(choose_cookie_line(ls))),
    decreases ls.len(),
{
    if ls.len() > 0 && !starts_with(ls.last(), "Set-Cookie:"@) {
        lemma_last_cookie_is_cookie_of(ls.drop_last());
    }
}

/// The probe request asks for `/` from `host` in its first two lines and ends with the blank line
/// that closes a request head.
pub proof fn lemma_probe_request_shape(host: Seq<char>)
    ensures
        starts_with(probe_request_text(host), "GET / HTTP/1.1\r\nHost: "@ + host + "\r\n"@),
        ends_with(probe_request_text(host), "\r\n\r\n"@),
{
    let tail = "\r\nUser-Agent: Mozilla/5.0 (X11; Linux x86_64) AppleWebKit/537.36\r\nAccept: text/html,application/xhtml+xml,application/xml;q=0.9,*/*;q=0.8\r\nAccept-Language: en-US,en;q=0.5\r\nAccept-Encoding: gzip, deflate\r\nConnection: close\r\n\r\n";
    reveal_strlit("\r\nUser-Agent: Mozilla/5.0 (X11; Linux x86_64) AppleWebKit/537.36\r\nAccept: text/html,application/xhtml+xml,application/xml;q=0.9,*/*;q=0.8\r\nAccept-Language: en-US,en;q=0.5\r\nAccept-Encoding: gzip, deflate\r\nConnection: close\r\n\r\n");
    reveal_strlit("\r\n");
    reveal_strlit("\r\n\r\n");
    let r = probe_request_text(host);
    let head = "GET / HTTP/1.1\r\nHost: "@ + host;
    let t = tail@;
    assert(r =~= head + t);
    assert(r.subrange(0, head.len() + 2int) =~= head + "\r\n"@);
    assert(r.subrange(r.len() - 4, r.len() as int) =~= t.subrange(t.len() - 4, t.len() as int));
    assert(t.subrange(t.len() - 4, t.len() as int) =~= "\r\n\r\n"@);
}

/// The server accepted the upgrade to the WebSocket protocol.
pub open spec fn handshake_accepted(response: Seq<char>) -> bool {
    contains(response, "101 Switching Protocols"@)
}

/// The first line of a response, or `Unknown error` for an empty one.
pub open spec fn first_line_or_unknown(response: Seq<char>) -> Seq<char> {
    if lines(response).len() > 0 {
        lines(response)[0]
    } else {
        "Unknown error"@
    }
}

/// The request that probes the server at `host` for what the handshake needs.
pub open spec fn probe_request_text(host: Seq<char>) -> Seq<char> {
    "GET / HTTP/1.1\r\nHost: "@ + host
        + "\r\nUser-Agent: Mozilla/5.0 (X11; Linux x86_64) AppleWebKit/537.36\r\nAccept: text/html,application/xhtml+xml,application/xml;q=0.9,*/*;q=0.8\r\nAccept-Language: en-US,en;q=0.5\r\nAccept-Encoding: gzip, deflate\r\nConnection: close\r\n\r\n"@
}

/// The header lines `name: value` of `headers`, in order.
pub open spec fn header_lines(headers: Seq<(Seq<char>, Seq<char>)>) -> Seq<char>
    decreases headers.len(),
{
    if headers.len() == 0 {
        seq![]
    } else {
        header_lines(headers.drop_last()) + headers.last().0 + ": "@ + headers.last().1 + "\r\n"@
    }
}

/// The opening handshake request for `path` on `host`, with key `key` and the extra `headers`.
pub open spec fn upgrade_request_text(
    path: Seq<char>,
    host: Seq<char>,
    key: Seq<char>,
    headers: Seq<(Seq<char>, Seq<char>)>,
) -> Seq<char> {
    "GET "@ + path + " HTTP/1.1\r\nHost: "@ + host
        + "\r\nUpgrade: websocket\r\nConnection: Upgrade\r\nSec-WebSocket-Key: "@ + key
        + "\r\nSec-WebSocket-Version: 13\r\n"@ + header_lines(headers) + "\r\n"@
}

/// The line that an extra header adds to the upgrade request.
pub open spec fn header_line(header: (Seq<char>, Seq<char>)) -> Seq<char> {
    header.0 + ": "@ + header.1 + "\r\n"@
}

/// The header lines are one line per header, in order: each header's line occurs in them, and a
/// non-empty run of them ends with a line break.
proof fn lemma_header_lines_shape(headers: Seq<(Seq<char>, Seq<char>)>)
    ensures
        headers.len() == 0 ==> header_lines(headers) == Seq::<char>::empty(),
        headers.len() > 0 ==> ends_with(header_lines(headers), "\r\n"@),
        forall|i: int| 0 <= i < headers.len() ==> contains(header_lines(headers), #[trigger] header_line(headers[i])),
    decreases headers.len(),
{
    reveal_strlit("\r\n");
    if headers.len() > 0 {
        let init = headers.drop_last();
        lemma_header_lines_shape(init);
        let h = header_lines(headers);
        let last = headers.last();
        assert(h =~= header_lines(init) + header_line(last));
        assert(h.subrange(h.len() - 2, h.len() as int) =~= "\r\n"@);
        assert forall|i: int| 0 <= i < headers.len() implies contains(h, #[trigger] header_line(headers[i])) by {
            if i < init.len() {
                assert(headers[i] == init[i]);
                lemma_contains_in_middle(Seq::<char>::empty(), header_lines(init), header_line(last), header_line(init[i]));
                assert(Seq::<char>::empty() + header_lines(init) + header_line(last) =~= h);
            } else {
                lemma_contains_piece(header_lines(init), header_line(last), Seq::<char>::empty());
                assert(header_lines(init) + header_line(last) + Seq::<char>::empty() =~= h);
            }
        }
    }
}

/// The upgrade request names the path and host in its first two lines, carries the key and every
/// extra header as lines of their own, and ends with the blank line that closes a request head,
/// whatever the headers (none included).
pub proof fn lemma_upgrade_request_shape(
    path: Seq<char>,
    host: Seq<char>,
    key: Seq<char>,
    headers: Seq<(Seq<char>, Seq<char>)>,
)
    ensures
        ({
            let r = upgrade_request_text(path, host, key, headers);
            &&& starts_with(r, "GET "@ + path + " HTTP/1.1\r\nHost: "@ + host + "\r\n"@)
            &&& contains(r, "Sec-WebSocket-Key: "@ + key + "\r\n"@)
            &&& forall|i: int| 0 <= i < headers.len() ==> contains(r, #[trigger] header_line(headers[i]))
            &&& ends_with(r, "\r\n\r\n"@)
        }),
{
    reveal_strlit("\r\n");
    reveal_strlit("\r\n\r\n");
    reveal_strlit("\r\nUpgrade: websocket\r\nConnection: Upgrade\r\nSec-WebSocket-Key: ");
    reveal_strlit("Sec-WebSocket-Key: ");
    reveal_strlit("\r\nUpgrade: websocket\r\nConnection: Upgrade\r\n");
    reveal_strlit("\r\nSec-WebSocket-Version: 13\r\n");
    reveal_strlit("Sec-WebSocket-Version: 13\r\n");
    let r = upgrade_request_text(path, host, key, headers);
    let head = "GET "@ + path + " HTTP/1.1\r\nHost: "@ + host;
    let l3 = "\r\nUpgrade: websocket\r\nConnection: Upgrade\r\nSec-WebSocket-Key: "@;
    let l3a = "\r\nUpgrade: websocket\r\nConnection: Upgrade\r\n"@;
    let kl = "Sec-WebSocket-Key: "@;
    let l4 = "\r\nSec-WebSocket-Version: 13\r\n"@;
    let l4b = "Sec-WebSocket-Version: 13\r\n"@;
    let nl = "\r\n"@;
    let hl = header_lines(headers);
    assert(l3 =~= l3a + kl);
    assert(l4 =~= nl + l4b);
    assert(r =~= head + l3 + key + l4 + hl + nl);
    // First lines.
    let first = head + nl;
    assert(l3 =~= nl + l3.subrange(2, l3.len() as int));
    assert(r.subrange(0, first.len() as int) =~= first);
    // The key's line.
    let key_line = kl + key + nl;
    assert(r =~= (head + l3a) + key_line + (l4b + hl + nl));
    lemma_contains_piece(head + l3a, key_line, l4b + hl + nl);
    // Every extra header's line.
    lemma_header_lines_shape(headers);
    assert(r =~= (head + l3 + key + l4) + hl + nl);
    assert forall|i: int| 0 <= i < headers.len() implies contains(r, #[trigger] header_line(headers[i])) by {
        lemma_contains_in_middle(head + l3 + key + l4, hl, nl, header_line(headers[i]));
    }
    // The closing blank line.
    let before = head + l3 + key + l4 + hl;
    assert(r =~= before + nl);
    if headers.len() == 0 {
        assert(before.subrange(before.len() - 2, before.len() as int) =~= nl);
    } else {
        assert(before.subrange(before.len() - 2, before.len() as int) =~= hl.subrange(hl.len() - 2, hl.len() as int));
    }
    assert(r.subrange(r.len() - 4, r.len() as int) =~= "\r\n\r\n"@);
}

/// Why the server did not accept the opening handshake.
#[derive(Debug, PartialEq, Eq)]
pub enum HandshakeError {
    /// The answer holds `401`.
    AuthenticationRequired,
    /// The answer holds `403`.
    AccessForbidden,
    /// Any other answer; this is its first line (or `Unknown error` when it is empty).
    Failed(String),
}

/// Where the line that starts at `start` ends (before its `\r\n` or `\n`), and where the next
/// line starts.
fn line_bounds(text: &[char], start: usize) -> (r: (usize, usize))
    requires
        start < text@.len(),
    ensures
        start <= r.0 <= r.1 <= text@.len(),
        start < r.1,
        lines(text@.subrange(start as int, text@.len() as int)) == seq![
            text@.subrange(start as int, r.0 as int),
        ] + lines(text@.subrange(r.1 as int, text@.len() as int)),
{
    let n = text.len();
    let ghost t = text@.subrange(start as int, text@.len() as int);
    proof {
        lemma_first_index_of_bounds(t, '\n');
    }
    match find_char(text, start, '\n') {
        Some(k) => {
            assert(t.subrange(0, k - start) =~= text@.subrange(start as int, k as int));
            assert(t.subrange(k - start + 1, t.len() as int) =~= text@.subrange(
                k + 1,
                text@.len() as int,
            ));
            if k > start && text[k - 1] == '\r' {
                assert(text@.subrange(start as int, k as int).drop_last() =~= text@.subrange(
                    start as int,
                    k - 1,
                ));
                (k - 1, k + 1)
            } else {
                (k, k + 1)
            }
        },
        None => {
            assert(text@.subrange(text@.len() as int, text@.len() as int).len() == 0);
            assert(lines(text@.subrange(text@.len() as int, text@.len() as int)) =~= Seq::<
                Seq<char>,
            >::empty());
            assert(seq![t] + Seq::<Seq<char>>::empty() =~= seq![t]);
            (text.len(), text.len())
        },
    }
}

/// The headers that the handshake request carries after a probe answered with `response`: the
/// cookie of the last `Set-Cookie:` line, as a `Cookie` header.
pub fn cookie_headers(response: &str) -> (r: Vec<(String, String)>)
    ensures
        r@.map_values(|h: (String, String)| header_view(h)) == detected_headers(response@),
{
    let text = chars_of(response);
    let pat = chars_of("Set-Cookie:");
    proof {
        reveal_strlit("Set-Cookie:");
    }
    let mut found: Option<Vec<char>> = None;
    if contains_exec(&text, &pat) {
        let mut start: usize = 0;
        let ghost mut done: Seq<Seq<char>> = seq![];
        assert(text@.subrange(0, text@.len() as int) =~= text@);
        assert(done + lines(text@) =~= lines(text@));
        while start < text.len()
            invariant
                pat@ == "Set-Cookie:"@,
                pat@.len() > 0,
                start <= text@.len(),
                lines(text@) == done + lines(text@.subrange(start as int, text@.len() as int)),
                match found {
                    Some(v) => last_cookie(done) == Some(v@),
                    None => last_cookie(done) is None,
                },
            decreases text@.len() - start,
        {
            let (end, next) = line_bounds(&text, start);
            let line = sub_chars(&text, start, end);
            if occurs_at_exec(&line, &pat, 0) {
                let stripped = strip_all_prefix_chars(&line, &pat);
                let trimmed = trim_chars(&stripped);
                found = Some(before_first_chars(&trimmed, ';'));
            }
            proof {
                let rest = lines(text@.subrange(next as int, text@.len() as int));
                assert(done + (seq![line@] + rest) =~= done.push(line@) + rest);
                assert(done.push(line@).drop_last() =~= done);
                done = done.push(line@);
            }
            start = next;
        }
        assert(lines(text@.subrange(start as int, text@.len() as int)) =~= Seq::<Seq<char>>::empty());
        assert(done + Seq::<Seq<char>>::empty() =~= done);
    }
    let mut r: Vec<(String, String)> = Vec::new();
    match found {
        Some(v) => {
            let value = string_of(&v, 0, v.len());
            assert(v@.subrange(0, v@.len() as int) =~= v@);
            r.push(("Cookie".to_owned(), value));
        },
        None => {},
    }
    assert(r@.map_values(|h: (String, String)| header_view(h)) =~= detected_headers(response@));
    r
}

/// Whether the answer to the handshake request is complete: it holds the blank line that ends
/// the headers.
pub fn response_complete(response: &str) -> (r: bool)
    ensures
        r == contains(response@, "\r\n\r\n"@),
{
    let text = chars_of(response);
    let pat = chars_of("\r\n\r\n");
    contains_exec(&text, &pat)
}

/// The first line of `response`, or `Unknown error` for an empty one.
pub fn first_line_or_unknown_exec(response: &str) -> (r: String)
    ensures
        r@ == first_line_or_unknown(response@),
{
    let text = chars_of(response);
    if text.len() == 0 {
        assert(lines(text@) =~= Seq::<Seq<char>>::empty());
        return "Unknown error".to_owned();
    }
    let (end, _next) = line_bounds(&text, 0);
    assert(text@.subrange(0, text@.len() as int) =~= text@);
    string_of(&text, 0, end)
}

/// Reads the server's answer to the opening handshake: accepted when it holds
/// `101 Switching Protocols`; otherwise refused for authentication (`401`), as forbidden (`403`),
/// or as failed with its first line, checked in that order.
pub fn handshake_status(response: &str) -> (r: Result<(), HandshakeError>)
    ensures
        handshake_accepted(response@) ==> r is Ok,
        !handshake_accepted(response@) && contains(response@, "401"@) ==> r matches Err(
            HandshakeError::AuthenticationRequired,
        ),
        !handshake_accepted(response@) && !contains(response@, "401"@) && contains(
            response@,
            "403"@,
        ) ==> r matches Err(HandshakeError::AccessForbidden),
        !handshake_accepted(response@) && !contains(response@, "401"@) && !contains(
            response@,
            "403"@,
        ) ==> (r matches Err(HandshakeError::Failed(line)) && line@ == first_line_or_unknown(
            response@,
        )),
{
    let text = chars_of(response);
    if contains_exec(&text, &chars_of("101 Switching Protocols")) {
        Ok(())
    } else if contains_exec(&text, &chars_of("401")) {
        Err(HandshakeError::AuthenticationRequired)
    } else if contains_exec(&text, &chars_of("403")) {
        Err(HandshakeError::AccessForbidden)
    } else {
        Err(HandshakeError::Failed(first_line_or_unknown_exec(response)))
    }
}

/// The request that probes the server at `host`.
pub fn probe_request(host: &str) -> (r: String)
    ensures
        r@ == probe_request_text(host@),
        starts_with(r@, "GET / HTTP/1.1\r\nHost: "@ + host@ + "\r\n"@),
        ends_with(r@, "\r\n\r\n"@),
{
    proof {
        lemma_probe_request_shape(host@);
    }
    let mut r = "GET / HTTP/1.1\r\nHost: ".to_owned();
    r.append(host);
    r.append(
        "\r\nUser-Agent: Mozilla/5.0 (X11; Linux x86_64) AppleWebKit/537.36\r\nAccept: text/html,application/xhtml+xml,application/xml;q=0.9,*/*;q=0.8\r\nAccept-Language: en-US,en;q=0.5\r\nAccept-Encoding: gzip, deflate\r\nConnection: close\r\n\r\n",
    );
    r
}

/// The opening handshake request for `path` on `host`, with key `key` and the extra `headers`.
pub fn upgrade_request(path: &str, host: &str, key: &str, headers: &Vec<(String, String)>) -> (r:
    String)
    ensures
        r@ == upgrade_request_text(
            path@,
            host@,
            key@,
            headers@.map_values(|h: (String, String)| header_view(h)),
        ),
        starts_with(r@, "GET "@ + path@ + " HTTP/1.1\r\nHost: "@ + host@ + "\r\n"@),
        contains(r@, "Sec-WebSocket-Key: "@ + key@ + "\r\n"@),
        forall|i: int|
            0 <= i < headers@.len() ==> contains(r@, #[trigger] header_line(header_view(headers@[i]))),
        ends_with(r@, "\r\n\r\n"@),
{
    let mut r = "GET ".to_owned();
    r.append(path);
    r.append(" HTTP/1.1\r\nHost: ");
    r.append(host);
    r.append("\r\nUpgrade: websocket\r\nConnection: Upgrade\r\nSec-WebSocket-Key: ");
    r.append(key);
    r.append("\r\nSec-WebSocket-Version: 13\r\n");
    let ghost before = r@;
    let ghost hs = headers@.map_values(|h: (String, String)| header_view(h));
    let mut i: usize = 0;
    assert(hs.subrange(0, 0) =~= Seq::<(Seq<char>, Seq<char>)>::empty());
    while i < headers.len()
        invariant
            i <= headers@.len(),
            hs == headers@.map_values(|h: (String, String)| header_view(h)),
            r@ == before + header_lines(hs.subrange(0, i as int)),
        decreases headers@.len() - i,
    {
        r.append(headers[i].0.as_str());
        r.append(": ");
        r.append(headers[i].1.as_str());
        r.append("\r\n");
        assert(hs.subrange(0, i + 1).drop_last() =~= hs.subrange(0, i as int));
        i = i + 1;
    }
    assert(hs.subrange(0, headers@.len() as int) =~= hs);
    r.append("\r\n");
    proof {
        lemma_upgrade_request_shape(path@, host@, key@, hs);
        assert forall|i: int| 0 <= i < headers@.len() implies contains(
            r@,
            #[trigger] header_line(header_view(headers@[i])),
        ) by {
            assert(hs[i] == header_view(headers@[i]));
        }
    }
    r
}

/// A fresh key for the opening handshake: sixteen random bytes in standard base64.
pub fn handshake_key() -> (r: String)
    ensures
        exists|bytes: Seq<u8>| bytes.len() == 16 && r@ == base64_standard(bytes),
        r@.len() == 24,
        r@[22] == '=' && r@[23] == '=',
{
    let bytes = random_bytes(16);
    let key = encode_base64(bytes.as_slice());
    proof {
        lemma_base64_length(bytes@);
        lemma_base64_padding(bytes@);
    }
    key
}

} // verus!
