//! Boundary over the header codec library: parsing inbound IPv4/TCP headers
//! and emitting outbound segments as wire bytes.
//!
//! The state machine itself works on the plain header fields gathered here;
//! only these thin adapters touch the outside library.
use vstd::prelude::*;

verus! {

/// The fields of an IPv4 header that the demultiplexer reads.
#[derive(Clone, Copy, Debug)]
pub struct IpHeaderInfo {
    /// Length in bytes of the header including options.
    pub header_len: usize,
    /// Protocol number of the carried payload.
    pub protocol: u8,
    /// Source address as a big-endian integer.
    pub src_ip: u32,
    /// Destination address as a big-endian integer.
    pub dst_ip: u32,
}

/// The fields of a TCP header that the state machine reads.
#[derive(Clone, Copy, Debug)]
pub struct TcpHeaderInfo {
    /// Length in bytes of the header including options.
    pub header_len: usize,
    pub src_port: u16,
    pub dst_port: u16,
    pub seq: u32,
    pub ack: u32,
    pub wnd: u16,
    pub syn: bool,
    pub fin: bool,
    /// Whether the ACK control bit is set (the `ack` field is only
    /// meaningful when it is).
    pub has_ack: bool,
}

/// The wire bytes of one IPv4+TCP segment, as the header library emits
/// them: a 20-byte IPv4 header (TTL and checksum filled in), a 20-byte TCP
/// header carrying the given fields with the ACK bit set and the checksum
/// computed over the IPv4 pseudo-header, then the payload.
pub uninterp spec fn wire_of(
    src_ip: u32,
    dst_ip: u32,
    src_port: u16,
    dst_port: u16,
    seq: u32,
    ack: u32,
    wnd: u16,
    syn: bool,
    fin: bool,
    ttl: u8,
    payload: Seq<u8>,
) -> Seq<u8>;

/// Relies on etherparse's `Ipv4Header::new`, `TcpHeader::new`,
/// `TcpHeader::calc_checksum_ipv4` and the two `write` methods: together
/// they serialize one options-free IPv4+TCP segment, 40 header bytes
/// followed by the payload, as a function of the fields alone.
#[verifier::external_body]
pub(crate) fn encode_segment(
    src_ip: u32,
    dst_ip: u32,
    src_port: u16,
    dst_port: u16,
    seq: u32,
    ack: u32,
    wnd: u16,
    syn: bool,
    fin: bool,
    ttl: u8,
    ip_payload_len: u16,
    payload: &[u8],
) -> (r: Vec<u8>)
    requires
        payload@.len() <= 1464,
        ip_payload_len == 20 + payload@.len(),
    ensures
        r@ == wire_of(src_ip, dst_ip, src_port, dst_port, seq, ack, wnd, syn, fin, ttl, payload@),
        r@.len() == 40 + payload@.len(),
{
    let proto = etherparse::IpNumber::Tcp;
    let ip = etherparse::Ipv4Header::new(ip_payload_len, ttl, proto, src_ip.to_be_bytes(), dst_ip.to_be_bytes());
    let mut tcp = etherparse::TcpHeader::new(src_port, dst_port, seq, wnd);
    tcp.acknowledgment_number = ack;
    tcp.ack = true;
    tcp.syn = syn;
    tcp.fin = fin;
    tcp.checksum = tcp.calc_checksum_ipv4(&ip, payload).unwrap();
    let mut out: Vec<u8> = Vec::with_capacity(40 + payload.len());
    ip.write(&mut out).unwrap();
    tcp.write(&mut out).unwrap();
    out.extend_from_slice(payload);
    out
}

/// The two-byte big-endian integer at offset `i`.
pub open spec fn be16(b: Seq<u8>, i: int) -> u16 {
    ((b[i] as int) * 0x100 + (b[i + 1] as int)) as u16
}

/// The four-byte big-endian integer at offset `i`.
pub open spec fn be32(b: Seq<u8>, i: int) -> u32 {
    ((b[i] as int) * 0x100_0000 + (b[i + 1] as int) * 0x1_0000 + (b[i + 2] as int) * 0x100 + (b[i
        + 3] as int)) as u32
}

/// The buffers the IPv4 slice parser accepts: at least 20 bytes, version
/// 4, a header length of at least 5 words that fits in the buffer, and a
/// total length no smaller than the header.
pub open spec fn ipv4_parse_ok(b: Seq<u8>) -> bool {
    b.len() >= 20 && {
        let ver = (b[0] as int) / 16;
        let ihl = (b[0] as int) % 16;
        ver == 4 && ihl >= 5 && b.len() >= ihl * 4 && be16(b, 2) as int >= ihl * 4
    }
}

/// Relies on etherparse's `Ipv4HeaderSlice::from_slice`: it accepts
/// exactly the buffers of `ipv4_parse_ok`, and its accessors read the
/// header length from the low nibble of byte 0, the protocol from byte 9
/// and the addresses as big-endian integers at bytes 12 and 16.
#[verifier::external_body]
pub(crate) fn parse_ipv4(buf: &[u8]) -> (r: Option<IpHeaderInfo>)
    ensures
        (r is Some) == ipv4_parse_ok(buf@),
        r matches Some(h) ==> {
            &&& h.header_len as int == ((buf@[0] as int) % 16) * 4
            &&& 20 <= h.header_len <= buf@.len()
            &&& h.protocol == buf@[9]
            &&& h.src_ip == be32(buf@, 12)
            &&& h.dst_ip == be32(buf@, 16)
        },
{
    match etherparse::Ipv4HeaderSlice::from_slice(buf) {
        Ok(h) => Some(IpHeaderInfo {
            header_len: h.slice().len(),
            protocol: h.protocol(),
            src_ip: u32::from_be_bytes(h.source()),
            dst_ip: u32::from_be_bytes(h.destination()),
        }),
        Err(_) => None,
    }
}

/// The buffers the TCP slice parser accepts: at least 20 bytes and a
/// data offset of at least 5 words that fits in the buffer.
pub open spec fn tcp_parse_ok(b: Seq<u8>) -> bool {
    b.len() >= 20 && {
        let dof = (b[12] as int) / 16;
        dof >= 5 && b.len() >= dof * 4
    }
}

/// Relies on etherparse's `TcpHeaderSlice::from_slice`: it accepts
/// exactly the buffers of `tcp_parse_ok`, and its accessors read the
/// ports, sequence and acknowledgment numbers and window as big-endian
/// integers, the header length from the high nibble of byte 12, and the
/// FIN, SYN and ACK control bits from byte 13 (values 1, 2 and 16).
#[verifier::external_body]
pub(crate) fn parse_tcp(buf: &[u8]) -> (r: Option<TcpHeaderInfo>)
    ensures
        (r is Some) == tcp_parse_ok(buf@),
        r matches Some(h) ==> {
            &&& h.header_len as int == ((buf@[12] as int) / 16) * 4
            &&& 20 <= h.header_len <= buf@.len()
            &&& h.src_port == be16(buf@, 0)
            &&& h.dst_port == be16(buf@, 2)
            &&& h.seq == be32(buf@, 4)
            &&& h.ack == be32(buf@, 8)
            &&& h.wnd == be16(buf@, 14)
            &&& h.fin == ((buf@[13] as int) % 2 == 1)
            &&& h.syn == (((buf@[13] as int) / 2) % 2 == 1)
            &&& h.has_ack == (((buf@[13] as int) / 16) % 2 == 1)
        },
{
    match etherparse::TcpHeaderSlice::from_slice(buf) {
        Ok(h) => Some(TcpHeaderInfo {
            header_len: h.slice().len(),
            src_port: h.source_port(),
            dst_port: h.destination_port(),
            seq: h.sequence_number(),
            ack: h.acknowledgment_number(),
            wnd: h.window_size(),
            syn: h.syn(),
            fin: h.fin(),
            has_ack: h.ack(),
        }),
        Err(_) => None,
    }
}

} // verus!
