use vstd::prelude::*;

verus! {

/// The live-lightning servers that the tracker can follow.
#[derive(Debug, Clone, Copy, PartialEq, Eq)]
pub enum LightningTrackerHost {
    WS7,
}

/// The name of a host, as it stands in the server's address.
pub open spec fn host_name(host: LightningTrackerHost) -> Seq<char> {
    match host {
        LightningTrackerHost::WS7 => "WS7"@,
    }
}

/// The WebSocket address of the server `host`.
pub open spec fn tracker_url_text(host: LightningTrackerHost) -> Seq<char> {
    "wss://"@ + host_name(host) + ".blitzortung.org/"@
}

impl LightningTrackerHost {
    /// The name of the host, as it stands in the server's address.
    pub fn name(&self) -> (r: &'static str)
        ensures
            r@ == host_name(*self),
    {
        match self {
            LightningTrackerHost::WS7 => "WS7",
        }
    }
}

/// The WebSocket address of the server `host`: the host's name put into
/// `wss://{}.blitzortung.org/`.
pub fn tracker_url(host: &LightningTrackerHost) -> (r: String)
    ensures
        r@ == tracker_url_text(*host),
{
    let mut r = "wss://".to_owned();
    r.append(host.name());
    r.append(".blitzortung.org/");
    r
}

} // verus!
