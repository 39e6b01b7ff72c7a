//! The decisions of the three proxies: the round-robin load balancer's choice of backends,
//! the reverse proxy's rewritten request head, and when the TCP relay stops; and the lines
//! they log.

use vstd::prelude::*;
use crate::bytes::extend;
use crate::http::{lit, lit_bytes, strip_crlf, without_crlf};
use crate::numfmt::{dec_digits, format_u32};

verus! {

/// How many backends the balancer spreads requests over.
pub const NUM_BACKENDS: usize = 3;
/// The port the balancer listens on.
pub const LB_PORT: u16 = 9001;

/// The port of backend `i` (on 127.0.0.1).
pub open spec fn backend_port(i: int) -> u16 {
    if i == 0 {
        8081
    } else if i == 1 {
        8082
    } else {
        8083
    }
}

/// The port of backend `i`.
pub fn backend_port_of(i: usize) -> (res: u16)
    requires
        i < NUM_BACKENDS,
    ensures
        res == backend_port(i as int),
{
    if i == 0 {
        8081
    } else if i == 1 {
        8082
    } else {
        8083
    }
}

/// The order in which the backends are tried for a request when the turn is at `next`.
pub open spec fn attempt_order(next: int) -> Seq<u16> {
    seq![
        backend_port(next % 3),
        backend_port((next + 1) % 3),
        backend_port((next + 2) % 3),
    ]
}

/// The balancer's state: whose turn it is, and how many requests have come.
pub struct RoundRobin {
    pub next: usize,
    pub requests: u32,
}

impl RoundRobin {
    pub open spec fn wf(&self) -> bool {
        self.next < NUM_BACKENDS
    }

    /// A balancer whose first request goes to the first backend.
    pub fn new() -> (res: RoundRobin)
        ensures
            res.wf(),
            res.next == 0,
            res.requests == 0,
    {
        RoundRobin { next: 0, requests: 0 }
    }

    /// A request came: the ports to try in turn until one connects; the turn passes to the
    /// next backend whichever one serves it.
    pub fn on_request(&mut self) -> (res: Vec<u16>)
        requires
            old(self).wf(),
        ensures
            final(self).wf(),
            res@ == attempt_order(old(self).next as int),
            final(self).next == (old(self).next + 1) % 3,
            final(self).requests == old(self).requests.wrapping_add(1),
    {
        self.requests = self.requests.wrapping_add(1);
        let mut out: Vec<u16> = Vec::new();
        let mut attempts: usize = 0;
        while attempts < NUM_BACKENDS
            invariant
                self.next < NUM_BACKENDS,
                attempts <= NUM_BACKENDS,
                out@ == attempt_order(self.next as int).take(attempts as int),
            decreases NUM_BACKENDS - attempts,
        {
            out.push(backend_port_of((self.next + attempts) % NUM_BACKENDS));
            assert(out@ =~= attempt_order(self.next as int).take(attempts + 1));
            attempts += 1;
        }
        assert(attempt_order(self.next as int).take(3) =~= attempt_order(self.next as int));
        self.next = (self.next + 1) % NUM_BACKENDS;
        out
    }
}

/// Every request tries every backend before giving up.
pub proof fn law_every_backend_tried(next: int)
    requires
        0 <= next < 3,
    ensures
        attempt_order(next).contains(8081),
        attempt_order(next).contains(8082),
        attempt_order(next).contains(8083),
{
    let o = attempt_order(next);
    if next == 0 {
        assert(o[0] == 8081 && o[1] == 8082 && o[2] == 8083);
    } else if next == 1 {
        assert(o[2] == 8081 && o[0] == 8082 && o[1] == 8083);
    } else {
        assert(o[1] == 8081 && o[2] == 8082 && o[0] == 8083);
    }
}

/// Three requests in a row are first offered to three different backends: the load is
/// spread evenly over the backends that are up.
pub proof fn law_round_robin(next: int)
    requires
        0 <= next < 3,
    ensures
        ({
            let a = attempt_order(next)[0];
            let b = attempt_order((next + 1) % 3)[0];
            let c = attempt_order((next + 2) % 3)[0];
            a != b && b != c && a != c
        }),
{
}

/// The balancer's first line.
pub fn lb_banner() -> (res: Vec<u8>)
    ensures
        res@ == lit("Round-robin LB on port ") + dec_digits(LB_PORT as nat) + lit(" -> backends :") + dec_digits(
            8081,
        ) + lit(" :") + dec_digits(8082) + lit(" :") + dec_digits(8083) + lit("\n"),
{
    let mut out = lit_bytes("Round-robin LB on port ");
    extend(&mut out, format_u32(LB_PORT as u32).as_slice());
    extend(&mut out, " -> backends :".as_bytes());
    extend(&mut out, format_u32(8081).as_slice());
    extend(&mut out, " :".as_bytes());
    extend(&mut out, format_u32(8082).as_slice());
    extend(&mut out, " :".as_bytes());
    extend(&mut out, format_u32(8083).as_slice());
    extend(&mut out, "\n".as_bytes());
    out
}

/// The log line for a request sent to the backend on `port`; `request_line` is the request
/// line as received, its line end (which the log leaves out) included.
pub fn lb_forward_log(count: u32, port: u16, request_line: &[u8]) -> (res: Vec<u8>)
    ensures
        res@ == lit("[#") + dec_digits(count as nat) + lit("] -> :") + dec_digits(port as nat) + lit("  ")
            + without_crlf(request_line@) + lit("\n"),
{
    let mut out = lit_bytes("[#");
    extend(&mut out, format_u32(count).as_slice());
    extend(&mut out, "] -> :".as_bytes());
    extend(&mut out, format_u32(port as u32).as_slice());
    extend(&mut out, "  ".as_bytes());
    extend(&mut out, strip_crlf(request_line));
    extend(&mut out, "\n".as_bytes());
    out
}

/// The log line for a request no backend took.
pub fn lb_down_log(count: u32) -> (res: Vec<u8>)
    ensures
        res@ == lit("[#") + dec_digits(count as nat) + lit("] all backends down\n"),
{
    let mut out = lit_bytes("[#");
    extend(&mut out, format_u32(count).as_slice());
    extend(&mut out, "] all backends down\n".as_bytes());
    out
}

/// The answer when no backend takes a request.
pub fn lb_bad_gateway() -> (res: Vec<u8>)
    ensures
        res@ == lit("HTTP/1.1 502 Bad Gateway\r\nContent-Length: 22\r\n\r\nAll backends are down."),
{
    lit_bytes("HTTP/1.1 502 Bad Gateway\r\nContent-Length: 22\r\n\r\nAll backends are down.")
}

/// The four bytes of an address, in the order they are sent, as dotted decimal.
pub open spec fn dotted(a: Seq<u8>) -> Seq<u8> {
    dec_digits(a[0] as nat) + lit(".") + dec_digits(a[1] as nat) + lit(".") + dec_digits(a[2] as nat) + lit(".")
        + dec_digits(a[3] as nat)
}

/// An address (its four bytes in the order they are sent) as dotted decimal.
pub fn format_ip(addr: &[u8]) -> (res: Vec<u8>)
    requires
        addr@.len() == 4,
    ensures
        res@ == dotted(addr@),
{
    let mut out = format_u32(addr[0] as u32);
    extend(&mut out, ".".as_bytes());
    extend(&mut out, format_u32(addr[1] as u32).as_slice());
    extend(&mut out, ".".as_bytes());
    extend(&mut out, format_u32(addr[2] as u32).as_slice());
    extend(&mut out, ".".as_bytes());
    extend(&mut out, format_u32(addr[3] as u32).as_slice());
    out
}

/// The port the reverse proxy listens on, and its backend's.
pub const REVPROXY_PORT: u16 = 8888;
pub const REVPROXY_BACKEND: u16 = 8080;

/// The reverse proxy's first line.
pub fn revproxy_banner() -> (res: Vec<u8>)
    ensures
        res@ == lit("HTTP reverse proxy listening on port ") + dec_digits(REVPROXY_PORT as nat) + lit(
            " -> 127.0.0.1:",
        ) + dec_digits(REVPROXY_BACKEND as nat) + lit("\n"),
{
    let mut out = lit_bytes("HTTP reverse proxy listening on port ");
    extend(&mut out, format_u32(REVPROXY_PORT as u32).as_slice());
    extend(&mut out, " -> 127.0.0.1:".as_bytes());
    extend(&mut out, format_u32(REVPROXY_BACKEND as u32).as_slice());
    extend(&mut out, "\n".as_bytes());
    out
}

/// The reverse proxy's log line for a request from `ip`; `request_line` is the request line
/// as received, its line end (which the log leaves out) included.
pub fn revproxy_log(count: u32, ip: &[u8], request_line: &[u8]) -> (res: Vec<u8>)
    ensures
        res@ == lit("[#") + dec_digits(count as nat) + lit("] ") + ip@ + lit(" ") + without_crlf(request_line@) + lit(
            "\n",
        ),
{
    let mut out = lit_bytes("[#");
    extend(&mut out, format_u32(count).as_slice());
    extend(&mut out, "] ".as_bytes());
    extend(&mut out, ip);
    extend(&mut out, " ".as_bytes());
    extend(&mut out, strip_crlf(request_line));
    extend(&mut out, "\n".as_bytes());
    out
}

/// The head sent to the backend: the client's headers without the blank line that ends
/// them, an `X-Forwarded-For` header naming the client, and the blank line.
pub open spec fn forwarded_head(req: Seq<u8>, header_end: int, ip: Seq<u8>) -> Seq<u8> {
    req.take(header_end - 2) + lit("X-Forwarded-For: ") + ip + lit("\r\n") + lit("\r\n")
}

/// Builds the head sent to the backend; `header_end` is where the client's headers end (just
/// past their blank line).
pub fn forward_head(req: &[u8], header_end: usize, ip: &[u8]) -> (res: Vec<u8>)
    requires
        4 <= header_end <= req@.len(),
    ensures
        res@ == forwarded_head(req@, header_end as int, ip@),
{
    let mut out: Vec<u8> = Vec::new();
    extend(&mut out, &req[0..header_end - 2]);
    extend(&mut out, "X-Forwarded-For: ".as_bytes());
    extend(&mut out, ip);
    extend(&mut out, "\r\n".as_bytes());
    extend(&mut out, "\r\n".as_bytes());
    out
}

/// How many body bytes are still to come from the client: what `Content-Length` announces
/// beyond what came with the headers.
pub fn body_remaining(content_length: usize, received: usize) -> (res: usize)
    ensures
        res == if content_length > received {
            content_length - received
        } else {
            0
        },
{
    if content_length > received {
        content_length - received
    } else {
        0
    }
}

/// The reverse proxy's answer when the backend cannot be reached.
pub fn revproxy_bad_gateway() -> (res: Vec<u8>)
    ensures
        res@ == lit("HTTP/1.1 502 Bad Gateway\r\nContent-Length: 15\r\n\r\n502 Bad Gateway"),
{
    lit_bytes("HTTP/1.1 502 Bad Gateway\r\nContent-Length: 15\r\n\r\n502 Bad Gateway")
}

/// The port the TCP proxy listens on, and its target's.
pub const TCP_PROXY_PORT: u16 = 9000;
pub const TCP_PROXY_TARGET: u16 = 8080;

/// The TCP proxy's first line.
pub fn tcp_proxy_banner() -> (res: Vec<u8>)
    ensures
        res@ == lit("TCP proxy listening on port ") + dec_digits(TCP_PROXY_PORT as nat) + lit(" -> 127.0.0.1:")
            + dec_digits(TCP_PROXY_TARGET as nat) + lit("\n"),
{
    let mut out = lit_bytes("TCP proxy listening on port ");
    extend(&mut out, format_u32(TCP_PROXY_PORT as u32).as_slice());
    extend(&mut out, " -> 127.0.0.1:".as_bytes());
    extend(&mut out, format_u32(TCP_PROXY_TARGET as u32).as_slice());
    extend(&mut out, "\n".as_bytes());
    out
}

/// The TCP proxy's log line for connection `n`: `accepted` or `closed`.
pub fn conn_log(n: u32, accepted: bool) -> (res: Vec<u8>)
    ensures
        res@ == lit("[conn #") + dec_digits(n as nat) + (if accepted {
            lit("] accepted\n")
        } else {
            lit("] closed\n")
        }),
{
    let mut out = lit_bytes("[conn #");
    extend(&mut out, format_u32(n).as_slice());
    if accepted {
        extend(&mut out, "] accepted\n".as_bytes());
    } else {
        extend(&mut out, "] closed\n".as_bytes());
    }
    out
}

/// `poll` event bits.
pub const POLLIN: i16 = 1;
pub const POLLERR: i16 = 8;

/// What the relay does after one `poll`.
pub struct RelayPlan {
    /// Stop before reading anything.
    pub stop: bool,
    /// Copy what the client sent to the target.
    pub from_client: bool,
    /// Copy what the target sent to the client.
    pub from_target: bool,
    /// Stop after copying.
    pub stop_after: bool,
}

/// Reads the result of a `poll` over the client (first) and the target: stop on a timeout
/// or an error; else copy each way that has data, then stop if either side reported an
/// error.  (A copy that reads nothing also stops the relay.)
pub fn relay_plan(ret: i32, client_revents: i16, target_revents: i16) -> (res: RelayPlan)
    ensures
        res.stop == (ret <= 0),
        !res.stop ==> res.from_client == (client_revents & POLLIN != 0) && res.from_target == (target_revents
            & POLLIN != 0) && res.stop_after == (client_revents & POLLERR != 0 || target_revents & POLLERR != 0),
{
    if ret <= 0 {
        return RelayPlan { stop: true, from_client: false, from_target: false, stop_after: true };
    }
    RelayPlan {
        stop: false,
        from_client: client_revents & POLLIN != 0,
        from_target: target_revents & POLLIN != 0,
        stop_after: client_revents & POLLERR != 0 || target_revents & POLLERR != 0,
    }
}

} // verus!
