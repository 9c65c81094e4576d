use vstd::prelude::*;
use vstd::utf8::is_scalar;
use base64::Engine;

use crate::web_socket::UrlParts;

verus! {

/// `char::from_u32` of std. Its documentation: it returns the `char` with value `v` when `v` is a
/// Unicode scalar value (at most 0x10FFFF and not a surrogate), and `None` otherwise.
#[verifier::external_body]
pub(crate) fn char_from_u32(v: u32) -> (r: Option<char>)
    ensures
        r == (if is_scalar(v) {
            Some(v as char)
        } else {
            None
        }),
{
    char::from_u32(v)
}

/// `String::push` of std. Its documentation: it appends the given `char` to the end of the string.
#[verifier::external_body]
pub(crate) fn push_char(s: &mut String, c: char)
    ensures
        final(s)@ == old(s)@.push(c),
{
    s.push(c)
}

/// `rand::random::<u8>()`: a byte drawn from the thread-local generator. Any byte can come back,
/// so nothing is stated of it.
#[verifier::external_body]
pub(crate) fn random_byte() -> u8 {
    rand::random::<u8>()
}

/// The character of the standard base64 alphabet (RFC 4648, table 1) for a six-bit value.
pub open spec fn base64_digit(v: int) -> char {
    if v < 26 {
        (65 + v) as char
    } else if v < 52 {
        (97 + v - 26) as char
    } else if v < 62 {
        (48 + v - 52) as char
    } else if v == 62 {
        '+'
    } else {
        '/'
    }
}

/// Standard base64 with padding (RFC 4648, section 4): each group of three bytes becomes four
/// characters for its four six-bit pieces; a last group of two or one bytes is filled with zero
/// bits and ends in one or two `=`.
pub open spec fn base64_standard(bytes: Seq<u8>) -> Seq<char>
    decreases bytes.len(),
{
    if bytes.len() == 0 {
        seq![]
    } else {
        let b0 = bytes[0] as int;
        let b1 = if bytes.len() > 1 { bytes[1] as int } else { 0 };
        let b2 = if bytes.len() > 2 { bytes[2] as int } else { 0 };
        let group = seq![
            base64_digit(b0 / 4),
            base64_digit((b0 % 4) * 16 + b1 / 16),
            if bytes.len() > 1 { base64_digit((b1 % 16) * 4 + b2 / 64) } else { '=' },
            if bytes.len() > 2 { base64_digit(b2 % 64) } else { '=' },
        ];
        if bytes.len() <= 3 {
            group
        } else {
            group + base64_standard(bytes.subrange(3, bytes.len() as int))
        }
    }
}

/// Standard base64 makes four characters of every started group of three bytes.
pub proof fn lemma_base64_length(bytes: Seq<u8>)
    ensures
        base64_standard(bytes).len() == 4 * ((bytes.len() + 2) / 3),
    decreases bytes.len(),
{
    if bytes.len() > 3 {
        lemma_base64_length(bytes.subrange(3, bytes.len() as int));
    }
}

/// Standard base64 of a byte count one more than a multiple of three ends in `==`; of a count two
/// more, in a single `=`.
pub proof fn lemma_base64_padding(bytes: Seq<u8>)
    ensures
        ({
            let t = base64_standard(bytes);
            &&& bytes.len() % 3 == 1 ==> t.len() >= 4 && t[t.len() - 2] == '=' && t[t.len() - 1] == '='
            &&& bytes.len() % 3 == 2 ==> t.len() >= 4 && t[t.len() - 2] != '=' && t[t.len() - 1] == '='
        }),
    decreases bytes.len(),
{
    lemma_base64_length(bytes);
    if bytes.len() > 3 {
        let rest = bytes.subrange(3, bytes.len() as int);
        lemma_base64_padding(rest);
        lemma_base64_length(rest);
    } else if bytes.len() == 2 {
        let b1 = bytes[1] as int;
        let v = (b1 % 16) * 4;
        assert(0 <= v < 64);
    }
}

/// `base64::Engine::encode` on `base64::prelude::BASE64_STANDARD`, the engine with the standard
/// alphabet and `=` padding: by its documentation, the base64 text of `bytes` as RFC 4648 defines
/// it. The `requires` leaves out the inputs whose encoded length does not fit in a `usize`, on
/// which the crate's `encoded_len` check panics.
#[verifier::external_body]
pub(crate) fn encode_base64(bytes: &[u8]) -> (r: String)
    requires
        4 * ((bytes@.len() + 2) / 3) <= usize::MAX,
    ensures
        r@ == base64_standard(bytes@),
{
    base64::prelude::BASE64_STANDARD.encode(bytes)
}

#[verifier::external_type_specification]
#[verifier::external_body]
pub struct ExUrlParseError(url::ParseError);

/// What `url::Url::parse` makes of `input`: `None` where it refuses the text, else the parsed
/// URL's host (`host_str`), explicit non-default port (`port`) and path (`path`).
pub uninterp spec fn parsed_url(input: Seq<char>) -> Option<(Option<Seq<char>>, Option<u16>, Seq<char>)>;

/// `url::Url::parse`, with the host, port and path read off the parsed URL by `Url::host_str`,
/// `Url::port` and `Url::path`. The contract names the outcome; it states nothing of how the
/// crate parses.
#[verifier::external_body]
pub(crate) fn parse_url(input: &str) -> (r: Result<UrlParts, url::ParseError>)
    ensures
        match r {
            Ok(parts) => parsed_url(input@) == Some(parts@),
            Err(_) => parsed_url(input@) is None,
        },
{
    match url::Url::parse(input) {
        Ok(u) => Ok(
            UrlParts {
                host: u.host_str().map(|h| h.to_string()),
                port: u.port(),
                path: u.path().to_string(),
            },
        ),
        Err(e) => Err(e),
    }
}

} // verus!
