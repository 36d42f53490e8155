//! What the receiver writes for each datagram it receives.

use vstd::prelude::*;
use crate::addr::{Endpoint, endpoint_text, push_endpoint};
use crate::base64_lines::{terminated, wrapped_lines, write_base64};

verus! {

/// Capacity of the receive buffer: the largest UDP payload fits in it.
pub const RECV_BUFFER_LEN: usize = 65536;

/// How the receiver presents each datagram.
#[derive(Clone, Copy, Debug, PartialEq, Eq, Structural)]
pub struct ReceiveOptions {
    /// Write a line naming the sender before each payload.
    pub print_source: bool,
    /// Write the payload as wrapped base64 lines instead of raw bytes.
    pub base64: bool,
}

/// The text `### from /` that opens a source line.
pub open spec fn source_prefix() -> Seq<u8> {
    seq![35u8, 35, 35, 32, 102, 114, 111, 109, 32, 47]
}

/// The line that names the sender of a datagram.
pub open spec fn source_line(src: Endpoint) -> Seq<u8> {
    source_prefix() + endpoint_text(src) + seq![10u8]
}

/// The payload as written: wrapped base64 lines, or the bytes unchanged.
pub open spec fn payload_output(payload: Seq<u8>, base64: bool) -> Seq<u8> {
    if base64 {
        terminated(wrapped_lines(payload))
    } else {
        payload
    }
}

/// Everything written for one datagram.
pub open spec fn datagram_output(payload: Seq<u8>, src: Endpoint, opts: ReceiveOptions) -> Seq<u8> {
    (if opts.print_source {
        source_line(src)
    } else {
        seq![]
    }) + payload_output(payload, opts.base64)
}

/// One received datagram: its payload and its sender.
pub ghost struct Datagram {
    pub payload: Seq<u8>,
    pub source: Endpoint,
}

/// Everything written for a run of datagrams, in the order received.
pub open spec fn stream_output(ds: Seq<Datagram>, opts: ReceiveOptions) -> Seq<u8>
    decreases ds.len(),
{
    if ds.len() == 0 {
        seq![]
    } else {
        stream_output(ds.drop_last(), opts) + datagram_output(ds.last().payload, ds.last().source, opts)
    }
}

/// The output for the first `j` datagrams begins the output for all of them.
pub proof fn lemma_stream_prefix(ds: Seq<Datagram>, opts: ReceiveOptions, j: int)
    requires
        0 <= j <= ds.len(),
    ensures
        stream_output(ds.take(j), opts).len() <= stream_output(ds, opts).len(),
        stream_output(ds, opts).take(stream_output(ds.take(j), opts).len() as int)
            == stream_output(ds.take(j), opts),
    decreases ds.len(),
{
    if j == ds.len() {
        assert(ds.take(j) =~= ds);
        assert(stream_output(ds, opts).take(stream_output(ds, opts).len() as int) =~= stream_output(
            ds,
            opts,
        ));
    } else {
        let init = ds.drop_last();
        lemma_stream_prefix(init, opts, j);
        assert(init.take(j) =~= ds.take(j));
        let a = stream_output(init, opts);
        let b = stream_output(ds, opts);
        let n = stream_output(ds.take(j), opts).len() as int;
        assert(b.take(n) =~= a.take(n));
    }
}

/// With `print_source` set, the output for every datagram, in the order of
/// receipt, starts with the line naming its sender, followed by its payload.
pub proof fn lemma_source_line_before_each_payload(ds: Seq<Datagram>, opts: ReceiveOptions, i: int)
    requires
        opts.print_source,
        0 <= i < ds.len(),
    ensures
        ({
            let out = stream_output(ds, opts);
            let start = stream_output(ds.take(i), opts).len() as int;
            let mid = start + source_line(ds[i].source).len();
            let end = mid + payload_output(ds[i].payload, opts.base64).len();
            &&& end <= out.len()
            &&& out.subrange(start, mid) == source_line(ds[i].source)
            &&& out.subrange(mid, end) == payload_output(ds[i].payload, opts.base64)
        }),
{
    lemma_stream_prefix(ds, opts, i + 1);
    let upto = ds.take(i + 1);
    assert(upto.drop_last() =~= ds.take(i));
    assert(upto.last() == ds[i]);
    let out = stream_output(ds, opts);
    let pre = stream_output(upto, opts);
    let start = stream_output(ds.take(i), opts).len() as int;
    let mid = start + source_line(ds[i].source).len();
    let end = mid + payload_output(ds[i].payload, opts.base64).len();
    assert(pre.len() == end);
    assert(out.subrange(start, mid) =~= pre.subrange(start, mid));
    assert(out.subrange(mid, end) =~= pre.subrange(mid, end));
}

/// Appends to `out` what the receiver writes for a datagram whose first
/// `len` bytes of `buf` came from `source`.
pub fn render_datagram(out: &mut Vec<u8>, buf: &[u8], len: usize, source: Endpoint, opts: ReceiveOptions)
    requires
        len <= buf@.len(),
    ensures
        final(out)@ == old(out)@ + datagram_output(buf@.subrange(0, len as int), source, opts),
{
    let payload = &buf[0..len];
    if opts.print_source {
        let prefix: [u8; 10] = [35, 35, 35, 32, 102, 114, 111, 109, 32, 47];
        out.extend_from_slice(&prefix);
        push_endpoint(out, source);
        out.push(10);
    }
    if opts.base64 {
        write_base64(out, payload);
    } else {
        out.extend_from_slice(payload);
    }
    assert(out@ =~= old(out)@ + datagram_output(buf@.subrange(0, len as int), source, opts));
}

} // verus!
