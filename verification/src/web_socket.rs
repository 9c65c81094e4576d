use vstd::prelude::*;
use std::marker::PhantomData;

use vstd::utf8::encode_utf8;

use crate::bindings::{parse_url, parsed_url};
use crate::frame::{
    client_frame, create_masked_frame, message_readable, random_bytes, FrameHeader, ReadError,
};
use crate::handshake::{
    cookie_headers, detected_headers, handshake_accepted, handshake_status, header_line,
    lemma_upgrade_request_shape, upgrade_request, upgrade_request_text,
};
use crate::lzw::lzw_output;
use crate::text::{contains, ends_with, string_of};
use crate::utf8::utf8_scalars;

verus! {

/// A state of the client's connection life cycle; `FallbackState` is the state that a failed
/// transition out of this state falls back to.
pub trait WebSocketClientState: Send {
    type FallbackState;
}

/// The outcome of a transition into state `S`: the client in `S`, or the client back in the state
/// that a failed transition into `S` falls back to.
pub type WebSocketStateResult<S> = Result<
    WebSocketClient<S>,
    WebSocketClient<<S as WebSocketClientState>::FallbackState>,
>;

/// The client has not been given an address yet.
pub enum Uninitialised {
    Marker,
}

/// The client knows its address and holds no open connection.
pub enum Disconnected {
    Marker,
}

/// The client has probed the server for the headers that the handshake needs.
pub enum Detected {
    Marker,
}

/// The client has completed the opening handshake.
pub enum Connected {
    Marker,
}

impl WebSocketClientState for Uninitialised {
    type FallbackState = Uninitialised;
}

impl WebSocketClientState for Disconnected {
    type FallbackState = Disconnected;
}

impl WebSocketClientState for Detected {
    type FallbackState = Disconnected;
}

impl WebSocketClientState for Connected {
    type FallbackState = Disconnected;
}

/// The parts of a parsed URL that the client uses.
pub struct UrlParts {
    pub host: Option<String>,
    pub port: Option<u16>,
    pub path: String,
}

impl View for UrlParts {
    type V = (Option<Seq<char>>, Option<u16>, Seq<char>);

    open spec fn view(&self) -> (Option<Seq<char>>, Option<u16>, Seq<char>) {
        (
            match self.host {
                Some(h) => Some(h@),
                None => None,
            },
            self.port,
            self.path@,
        )
    }
}

impl UrlParts {
    fn duplicate(&self) -> (r: UrlParts)
        ensures
            r@ == self@,
    {
        UrlParts {
            host: match &self.host {
                Some(h) => Some(h.clone()),
                None => None,
            },
            port: self.port,
            path: self.path.clone(),
        }
    }
}

/// A header of the handshake request, as plain text: its name and its value.
pub open spec fn header_view(h: (String, String)) -> (Seq<char>, Seq<char>) {
    (h.0@, h.1@)
}

/// Copies a list of headers.
fn copy_headers(headers: &Vec<(String, String)>) -> (r: Vec<(String, String)>)
    ensures
        r@.map_values(|h: (String, String)| header_view(h)) == headers@.map_values(
            |h: (String, String)| header_view(h),
        ),
{
    let mut r: Vec<(String, String)> = Vec::new();
    let mut i: usize = 0;
    while i < headers.len()
        invariant
            i <= headers@.len(),
            r@.len() == i,
            forall|j: int| 0 <= j < i ==> header_view(#[trigger] r@[j]) == header_view(headers@[j]),
        decreases headers@.len() - i,
    {
        let name = headers[i].0.clone();
        let value = headers[i].1.clone();
        r.push((name, value));
        i = i + 1;
    }
    assert(r@.map_values(|h: (String, String)| header_view(h)) =~= headers@.map_values(
        |h: (String, String)| header_view(h),
    ));
    r
}

/// An error that carries a message of the caller's.
pub struct WebSocketError<'a> {
    message: &'a str,
}

impl<'a> WebSocketError<'a> {
    /// The text of the error.
    pub closed spec fn text(&self) -> Seq<char> {
        self.message@
    }

    /// An error with the given message.
    pub fn new(message: &'a str) -> (r: Self)
        ensures
            r.text() == message@,
    {
        Self { message }
    }

    /// The message of the error.
    pub fn message(&self) -> (r: &'a str)
        ensures
            r@ == self.text(),
    {
        self.message
    }
}

/// Why a client could not be made.
#[derive(Debug, Clone, Copy, PartialEq, Eq)]
pub enum ClientError {
    /// The address is not a URL; this is the `url` crate's reason.
    InvalidUrl(url::ParseError),
}

/// What came of probing the server before the handshake.
#[derive(Debug, PartialEq, Eq)]
pub enum ProbeOutcome {
    /// No page to probe was given.
    NotRequested,
    /// The probe failed on the network.
    Failed,
    /// The server answered the probe with this text.
    Response(String),
}

/// What came of opening the connection and sending the handshake request.
#[derive(Debug, PartialEq, Eq)]
pub enum HandshakeOutcome {
    /// No stream was opened, or the request could not be written or the answer read.
    Failed,
    /// A stream is open, and the server answered the request with this text.
    Response(String),
}

/// A WebSocket client whose type records where it stands in the connection's life cycle.
pub struct WebSocketClient<S: WebSocketClientState> {
    pub(crate) url: UrlParts,
    pub(crate) detected_headers: Vec<(String, String)>,
    pub(crate) has_stream: bool,
    pub(crate) marker: PhantomData<S>,
}

impl<S: WebSocketClientState> WebSocketClient<S> {
    /// The host, port and path of the server's URL.
    pub closed spec fn url_view(self) -> (Option<Seq<char>>, Option<u16>, Seq<char>) {
        self.url@
    }

    /// The headers that the probe found for the handshake request.
    pub closed spec fn headers(self) -> Seq<(Seq<char>, Seq<char>)> {
        self.detected_headers@.map_values(|h: (String, String)| header_view(h))
    }

    /// Whether a stream to the server has been opened.
    pub closed spec fn stream_open(self) -> bool {
        self.has_stream
    }

    /// Whether a stream to the server has been opened.
    pub fn is_stream_open(&self) -> (r: bool)
        ensures
            r == self.stream_open(),
    {
        self.has_stream
    }

    /// The host of the server's URL, if it has one.
    pub fn host(&self) -> (r: Option<String>)
        ensures
            match r {
                Some(h) => self.url_view().0 == Some(h@),
                None => self.url_view().0 is None,
            },
    {
        match &self.url.host {
            Some(h) => Some(h.clone()),
            None => None,
        }
    }

    /// The port that the connection is opened on: the URL's own port, else 443.
    pub fn connect_port(&self) -> (r: u16)
        ensures
            r == match self.url_view().1 {
                Some(p) => p,
                None => 443u16,
            },
    {
        match self.url.port {
            Some(p) => p,
            None => 443,
        }
    }

    /// The same client, in another state of its life cycle.
    fn transition<T: WebSocketClientState>(self) -> (r: WebSocketClient<T>)
        ensures
            r.url_view() == self.url_view(),
            r.headers() == self.headers(),
            r.stream_open() == self.stream_open(),
    {
        WebSocketClient {
            url: self.url,
            detected_headers: self.detected_headers,
            has_stream: self.has_stream,
            marker: PhantomData,
        }
    }
}

impl<S: WebSocketClientState> Clone for WebSocketClient<S> {
    fn clone(&self) -> (r: Self)
        ensures
            r.url_view() == self.url_view(),
            r.headers() == self.headers(),
            r.stream_open() == self.stream_open(),
    {
        WebSocketClient {
            url: self.url.duplicate(),
            detected_headers: copy_headers(&self.detected_headers),
            has_stream: self.has_stream,
            marker: PhantomData,
        }
    }
}

impl WebSocketClient<Uninitialised> {
    /// A disconnected client for the server at `url`; it fails where `url` is not a URL.
    pub fn new(url: &str) -> (r: Result<WebSocketClient<Disconnected>, ClientError>)
        ensures
            match r {
                Ok(c) => {
                    &&& parsed_url(url@) == Some(c.url_view())
                    &&& c.headers() == Seq::<(Seq<char>, Seq<char>)>::empty()
                    &&& !c.stream_open()
                },
                Err(_) => parsed_url(url@) is None,
            },
    {
        match parse_url(url) {
            Ok(parts) => {
                let c = WebSocketClient {
                    url: parts,
                    detected_headers: Vec::new(),
                    has_stream: false,
                    marker: PhantomData,
                };
                assert(c.headers() =~= Seq::<(Seq<char>, Seq<char>)>::empty());
                Ok(c)
            },
            Err(e) => Err(ClientError::InvalidUrl(e)),
        }
    }
}

impl WebSocketClient<Disconnected> {
    /// A disconnected client cannot connect before it has probed the server: it stays as it is.
    pub fn connect(self) -> (r: WebSocketStateResult<Connected>)
        ensures
            match r {
                Ok(_) => false,
                Err(c) => c.url_view() == self.url_view() && c.headers() == self.headers()
                    && c.stream_open() == self.stream_open(),
            },
    {
        Err(self.transition())
    }

    /// Takes in the headers that the probe of the server found. Without a probe, or when the probe
    /// failed, the client stays disconnected and unchanged; with the server's answer, it holds the
    /// cookie header that the answer sets (if any) and is ready for the handshake.
    pub fn detect_requirements(self, probe: ProbeOutcome) -> (r: WebSocketStateResult<Detected>)
        ensures
            match probe {
                ProbeOutcome::Response(text) => (r matches Ok(c) && c.url_view() == self.url_view()
                    && c.headers() == detected_headers(text@) && c.stream_open()
                    == self.stream_open()),
                _ => (r matches Err(c) && c.url_view() == self.url_view() && c.headers()
                    == self.headers() && c.stream_open() == self.stream_open()),
            },
    {
        match probe {
            ProbeOutcome::NotRequested => Err(self.transition()),
            ProbeOutcome::Failed => Err(self),
            ProbeOutcome::Response(text) => {
                let mut client = self;
                client.detected_headers = cookie_headers(&text);
                Ok(client.transition())
            },
        }
    }
}

impl WebSocketClient<Detected> {
    /// Takes in the outcome of the opening handshake. The client is connected when the server's
    /// answer accepts the upgrade; otherwise it falls back to disconnected. A stream that was
    /// opened stays with the client either way.
    pub fn connect(self, handshake: HandshakeOutcome) -> (r: WebSocketStateResult<Connected>)
        ensures
            match handshake {
                HandshakeOutcome::Failed => (r matches Err(c) && c.url_view() == self.url_view()
                    && c.headers() == self.headers() && c.stream_open() == self.stream_open()),
                HandshakeOutcome::Response(text) => {
                    &&& (r is Ok <==> handshake_accepted(text@))
                    &&& match r {
                        Ok(c) => c.url_view() == self.url_view() && c.headers() == self.headers()
                            && c.stream_open(),
                        Err(c) => c.url_view() == self.url_view() && c.headers() == self.headers()
                            && c.stream_open(),
                    }
                },
            },
    {
        match handshake {
            HandshakeOutcome::Failed => Err(self.transition()),
            HandshakeOutcome::Response(text) => {
                let mut client = self;
                client.has_stream = true;
                match handshake_status(&text) {
                    Ok(()) => Ok(client.transition()),
                    Err(_) => Err(client.transition()),
                }
            },
        }
    }
}

impl WebSocketClient<Detected> {
    /// The opening handshake request for the server, with key `key` and the headers that the
    /// probe found.
    pub fn upgrade_request(&self, key: &str) -> (r: String)
        requires
            self.url_view().0 is Some,
        ensures
            r@ == upgrade_request_text(
                self.url_view().2,
                self.url_view().0.unwrap(),
                key@,
                self.headers(),
            ),
            ends_with(r@, "\r\n\r\n"@),
            forall|i: int|
                0 <= i < self.headers().len() ==> contains(r@, #[trigger] header_line(self.headers()[i])),
    {
        proof {
            lemma_upgrade_request_shape(self.url@.2, self.url@.0.unwrap(), key@, self.headers());
        }
        match &self.url.host {
            Some(host) => upgrade_request(
                self.url.path.as_str(),
                host.as_str(),
                key,
                &self.detected_headers,
            ),
            None => String::new(),
        }
    }
}

impl WebSocketClient<Connected> {
    /// A final frame with `opcode` that carries `payload` under a fresh random mask.
    pub(crate) fn create_frame(&self, opcode: u8, payload: &[u8]) -> (r: Vec<u8>)
        ensures
            exists|mask: Seq<u8>| mask.len() == 4 && r@ == client_frame(opcode, payload@, mask),
    {
        let mask = random_bytes(4);
        create_masked_frame(opcode, payload, mask.as_slice())
    }

    /// The text frame that carries `message`, to be written to the stream; `None` when the client
    /// holds no stream, so that nothing is sent.
    pub fn send(&mut self, message: &str) -> (r: Option<Vec<u8>>)
        ensures
            *final(self) == *old(self),
            r is Some <==> old(self).stream_open(),
            r matches Some(frame) ==> exists|mask: Seq<u8>|
                mask.len() == 4 && frame@ == client_frame(1, encode_utf8(message@), mask),
    {
        let frame = self.create_frame(0x1, message.as_bytes());
        if self.has_stream {
            Some(frame)
        } else {
            None
        }
    }

    /// The message that a frame with `header` and `payload` carries: the LZW-decoded text of a
    /// final text frame; an error for a fragment, a close or any other opcode, or when the client
    /// holds no stream.
    pub fn read_message(&mut self, header: &FrameHeader, payload: &[u8]) -> (r: Result<
        String,
        ReadError,
    >)
        requires
            old(self).stream_open() ==> message_readable(*header, payload@),
        ensures
            *final(self) == *old(self),
            !old(self).stream_open() ==> (r matches Err(ReadError::NoConnection)),
            old(self).stream_open() && !header.fin ==> (r matches Err(ReadError::FragmentedFrame)),
            old(self).stream_open() && header.fin && header.opcode == 1 ==> (r matches Ok(text)
                && text@ == lzw_output(utf8_scalars(payload@)).map_values(|v: u32| v as char)),
            old(self).stream_open() && header.fin && header.opcode == 8 ==> (r matches Err(
                ReadError::ConnectionClosed,
            )),
            old(self).stream_open() && header.fin && header.opcode != 1 && header.opcode != 8 ==> (
            r matches Err(ReadError::UnsupportedOpcode(op)) && op == header.opcode),
    {
        if !self.has_stream {
            return Err(ReadError::NoConnection);
        }
        let converted = Self::convert_to_valid_utf8(payload);
        if !header.fin {
            return Err(ReadError::FragmentedFrame);
        }
        if header.opcode == 0x1 {
            let decoded = Self::lzw_decode(converted.as_slice());
            let combined = string_of(decoded.as_slice(), 0, decoded.len());
            assert(decoded@.subrange(0, decoded@.len() as int) =~= decoded@);
            Ok(combined)
        } else if header.opcode == 0x8 {
            Err(ReadError::ConnectionClosed)
        } else {
            Err(ReadError::UnsupportedOpcode(header.opcode))
        }
    }

    /// Leaves the connected state; the stream that the client held is shut down by its owner.
    pub fn close(self) -> (r: WebSocketClient<Disconnected>)
        ensures
            r.url_view() == self.url_view(),
            r.headers() == self.headers(),
            r.stream_open() == self.stream_open(),
    {
        self.transition()
    }
}

} // verus!
