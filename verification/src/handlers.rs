//! Requests that lead to a device.

use vstd::prelude::*;

use crate::text::{decimal, opt_text, push_decimal};

verus! {

/// An answer that refuses a request: an HTTP status and a message.
#[derive(Debug)]
pub struct ErrorReply {
    pub status: u16,
    pub message: String,
}

/// What a refusal holds.
pub struct ReplyView {
    pub status: u16,
    pub message: Seq<char>,
}

impl View for ErrorReply {
    type V = ReplyView;

    open spec fn view(&self) -> ReplyView {
        ReplyView { status: self.status, message: self.message@ }
    }
}

/// Where a device listens.
#[derive(Debug)]
pub struct DeviceTarget {
    pub ip: String,
    pub port: u16,
}

/// What a target holds.
pub struct TargetView {
    pub ip: Seq<char>,
    pub port: u16,
}

impl View for DeviceTarget {
    type V = TargetView;

    open spec fn view(&self) -> TargetView {
        TargetView { ip: self.ip@, port: self.port }
    }
}

/// The port of the picture stream.
pub const STREAM_PORT: u16 = 7001;

/// The port of the economical picture stream.
pub const STREAM_ECO_PORT: u16 = 7002;

/// The port of the H.264 stream.
pub const H264_PORT: u16 = 7003;

/// The port of the H.264 stream that a worker decodes.
pub const H264_WORKER_PORT: u16 = 7004;

/// The port that takes touch commands.
pub const ZXTOUCH_PORT: u16 = 6000;

/// The refusal of a request for a device that is not there.
pub open spec fn device_not_found() -> ReplyView {
    ReplyView { status: 404, message: "device not found"@ }
}

/// The answer to a request for `port` of a device, whose address is `None` if it is not there.
pub open spec fn device_answer(device_ip: Option<Seq<char>>, port: u16) -> Result<TargetView, ReplyView> {
    match device_ip {
        Some(ip) => Ok(TargetView { ip, port }),
        None => Err(device_not_found()),
    }
}

/// What an answer holds.
pub open spec fn answer_view(r: Result<DeviceTarget, ErrorReply>) -> Result<TargetView, ReplyView> {
    match r {
        Ok(t) => Ok(t@),
        Err(e) => Err(e@),
    }
}

/// Finds `port` of a device.
pub fn device_target(device_ip: Option<String>, port: u16) -> (r: Result<DeviceTarget, ErrorReply>)
    ensures
        answer_view(r) == device_answer(opt_text(device_ip), port),
        match device_ip {
            Some(ip) => r matches Ok(t) && t.ip@ == ip@ && t.port == port,
            None => r matches Err(e) && e.status == 404 && e.message@ == "device not found"@,
        },
{
    match device_ip {
        Some(ip) => Ok(DeviceTarget { ip, port }),
        None => Err(ErrorReply { status: 404, message: "device not found".to_owned() }),
    }
}

/// Answers a request for a device's picture stream.
pub fn ios_stream_handler(device_ip: Option<String>) -> (r: Result<DeviceTarget, ErrorReply>)
    ensures
        answer_view(r) == device_answer(opt_text(device_ip), STREAM_PORT),
        match device_ip {
            Some(ip) => r matches Ok(t) && t.ip@ == ip@ && t.port == 7001,
            None => r matches Err(e) && e.status == 404 && e.message@ == "device not found"@,
        },
{
    device_target(device_ip, STREAM_PORT)
}

/// Answers a request for a device's economical picture stream.
pub fn ios_stream_eco_handler(device_ip: Option<String>) -> (r: Result<DeviceTarget, ErrorReply>)
    ensures
        answer_view(r) == device_answer(opt_text(device_ip), STREAM_ECO_PORT),
        match device_ip {
            Some(ip) => r matches Ok(t) && t.ip@ == ip@ && t.port == 7002,
            None => r matches Err(e) && e.status == 404 && e.message@ == "device not found"@,
        },
{
    device_target(device_ip, STREAM_ECO_PORT)
}

/// Answers a request for a device's H.264 stream.
pub fn ios_h264_handler(device_ip: Option<String>) -> (r: Result<DeviceTarget, ErrorReply>)
    ensures
        answer_view(r) == device_answer(opt_text(device_ip), H264_PORT),
        match device_ip {
            Some(ip) => r matches Ok(t) && t.ip@ == ip@ && t.port == 7003,
            None => r matches Err(e) && e.status == 404 && e.message@ == "device not found"@,
        },
{
    device_target(device_ip, H264_PORT)
}

/// Answers a request for the H.264 stream that a worker decodes.
pub fn ios_h264_worker_handler(device_ip: Option<String>) -> (r: Result<DeviceTarget, ErrorReply>)
    ensures
        answer_view(r) == device_answer(opt_text(device_ip), H264_WORKER_PORT),
        match device_ip {
            Some(ip) => r matches Ok(t) && t.ip@ == ip@ && t.port == 7004,
            None => r matches Err(e) && e.status == 404 && e.message@ == "device not found"@,
        },
{
    device_target(device_ip, H264_WORKER_PORT)
}

/// Answers a request to touch a device.
pub fn ios_zxtouch_handler(device_ip: Option<String>) -> (r: Result<DeviceTarget, ErrorReply>)
    ensures
        answer_view(r) == device_answer(opt_text(device_ip), ZXTOUCH_PORT),
        match device_ip {
            Some(ip) => r matches Ok(t) && t.ip@ == ip@ && t.port == 6000,
            None => r matches Err(e) && e.status == 404 && e.message@ == "device not found"@,
        },
{
    device_target(device_ip, ZXTOUCH_PORT)
}

impl DeviceTarget {
    /// The target as a socket address: the IP address, a colon and the port.
    pub fn address(&self) -> (r: String)
        ensures
            r@ == self@.ip + seq![':'] + decimal(self@.port as nat),
            r@ == self.ip@ + seq![':'] + decimal(self.port as nat),
    {
        let mut out = self.ip.clone();
        out.push(':');
        push_decimal(&mut out, self.port as u64);
        assert(out@ =~= self@.ip + seq![':'] + decimal(self@.port as nat));
        out
    }
}

/// A device that is there is found under its own address, whatever it is, and under the port that was asked
/// for; one that is not there is refused.
pub proof fn law_device_is_found_under_its_address(ip: Seq<char>, port: u16)
    ensures
        device_answer(Some(ip), port) matches Ok(t) && t.ip == ip && t.port == port,
        device_answer(None, port) matches Err(e) && e.status == 404 && e.message == "device not found"@,
{
}

} // verus!
