//! Decoding of routing-protocol address-change messages, as event-driven
//! backends receive them from the kernel: a 16-byte message header, an
//! 8-byte address header, then a run of 4-byte-aligned attributes among
//! which the address attribute carries the prefix's address bytes.
//!
//! Integer header fields are little-endian (the byte order of the hosts the
//! watcher runs on); address bytes are in network order, most significant
//! octet first. The decoder turns one framed message into one incremental
//! `Up` or `Down` event, or reports exactly why the message is unusable.

use vstd::prelude::*;

use crate::diff::IfEvent;
use crate::net::{IpNet, Ipv4Net, Ipv6Net};

verus! {

/// Message type announcing a newly added address.
pub const RTM_NEWADDR: u16 = 20;

/// Message type announcing a deleted address.
pub const RTM_DELADDR: u16 = 21;

/// Address family number of IPv4.
pub const AF_INET: u8 = 2;

/// Address family number of IPv6.
pub const AF_INET6: u8 = 10;

/// Attribute type carrying the address bytes.
pub const IFA_ADDRESS: u16 = 1;

/// Why one message could not be turned into an event. Every variant is a
/// defect of the single message: the backend skips the message and goes on.
#[derive(Clone, Copy, Debug, Hash, PartialEq, Eq, Structural)]
pub enum ParseError {
    /// The buffer ends before a header or an attribute it announces.
    Truncated,
    /// The length field of the message header does not match the buffer.
    BadLength,
    /// Not an address-change message (for instance a route change that
    /// arrives on the same socket).
    UnknownType,
    /// An address family the watcher does not track.
    UnknownFamily,
    /// A prefix length too long for the message's address family.
    BadPrefixLen,
    /// An address attribute whose payload does not fit its family.
    BadAttribute,
    /// No address attribute anywhere in the message.
    MissingAddress,
}

/// The value of the two bytes at `i`, little-endian.
pub open spec fn le16(s: Seq<u8>, i: int) -> int {
    s[i] + s[i + 1] * 0x100
}

/// The value of the four bytes at `i`, little-endian.
pub open spec fn le32(s: Seq<u8>, i: int) -> int {
    s[i] + s[i + 1] * 0x100 + s[i + 2] * 0x10000 + s[i + 3] * 0x1000000
}

/// The value of the `n` bytes at `i`, most significant first.
pub open spec fn be_bytes(s: Seq<u8>, i: int, n: int) -> int
    decreases n,
{
    if n <= 0 {
        0
    } else {
        be_bytes(s, i, n - 1) * 0x100 + s[i + n - 1]
    }
}

/// The result of scanning the attribute run of a message from byte `off`
/// for the address attribute, given the message's family and prefix length.
pub open spec fn spec_find_addr(m: Seq<u8>, off: int, fam: u8, plen: u8) -> Result<
    IpNet,
    ParseError,
>
    decreases m.len() - off,
{
    if off >= m.len() {
        Err(ParseError::MissingAddress)
    } else if off + 4 > m.len() {
        Err(ParseError::Truncated)
    } else {
        let alen = le16(m, off);
        let atype = le16(m, off + 2);
        if alen < 4 || off + alen > m.len() {
            Err(ParseError::Truncated)
        } else if atype == IFA_ADDRESS {
            if fam == AF_INET {
                if alen == 8 {
                    Ok(IpNet::V4(Ipv4Net { addr: be_bytes(m, off + 4, 4) as u32, prefix_len: plen }))
                } else {
                    Err(ParseError::BadAttribute)
                }
            } else {
                if alen == 20 {
                    Ok(
                        IpNet::V6(
                            Ipv6Net { addr: be_bytes(m, off + 4, 16) as u128, prefix_len: plen },
                        ),
                    )
                } else {
                    Err(ParseError::BadAttribute)
                }
            }
        } else {
            let next = off + (alen + 3) / 4 * 4;
            if next > m.len() {
                Err(ParseError::MissingAddress)
            } else {
                spec_find_addr(m, next, fam, plen)
            }
        }
    }
}

/// What one framed message means: the incremental event it announces, or the
/// defect that makes the backend skip it.
pub open spec fn spec_parse_message(m: Seq<u8>) -> Result<IfEvent, ParseError> {
    if m.len() < 16 {
        Err(ParseError::Truncated)
    } else if le32(m, 0) != m.len() {
        Err(ParseError::BadLength)
    } else if le16(m, 4) != RTM_NEWADDR && le16(m, 4) != RTM_DELADDR {
        Err(ParseError::UnknownType)
    } else if m.len() < 24 {
        Err(ParseError::Truncated)
    } else {
        let fam = m[16];
        let plen = m[17];
        if fam != AF_INET && fam != AF_INET6 {
            Err(ParseError::UnknownFamily)
        } else if fam == AF_INET && plen > 32 {
            Err(ParseError::BadPrefixLen)
        } else if fam == AF_INET6 && plen > 128 {
            Err(ParseError::BadPrefixLen)
        } else {
            match spec_find_addr(m, 24, fam, plen) {
                Ok(p) => if le16(m, 4) == RTM_NEWADDR {
                    Ok(IfEvent::Up(p))
                } else {
                    Ok(IfEvent::Down(p))
                },
                Err(e) => Err(e),
            }
        }
    }
}

/// Reads the two bytes at `i`, little-endian.
fn read_le16(v: &Vec<u8>, i: usize) -> (r: u16)
    requires
        i + 2 <= v.len(),
    ensures
        r as int == le16(v@, i as int),
{
    (v[i] as u16) + (v[i + 1] as u16) * 0x100
}

/// Reads the four bytes at `i`, little-endian.
fn read_le32(v: &Vec<u8>, i: usize) -> (r: u32)
    requires
        i + 4 <= v.len(),
    ensures
        r as int == le32(v@, i as int),
{
    (v[i] as u32) + (v[i + 1] as u32) * 0x100 + (v[i + 2] as u32) * 0x10000 + (v[i + 3] as u32)
        * 0x1000000
}

/// Reads the four bytes at `i`, most significant first.
fn read_be32(v: &Vec<u8>, i: usize) -> (r: u32)
    requires
        i + 4 <= v.len(),
    ensures
        r as int == be_bytes(v@, i as int, 4),
{
    let r0: u32 = v[i] as u32;
    let r1: u32 = r0 * 0x100 + (v[i + 1] as u32);
    let r2: u32 = r1 * 0x100 + (v[i + 2] as u32);
    let r3: u32 = r2 * 0x100 + (v[i + 3] as u32);
    proof {
        assert(be_bytes(v@, i as int, 0) == 0);
        assert(r0 as int == be_bytes(v@, i as int, 1));
        assert(r1 as int == be_bytes(v@, i as int, 2));
        assert(r2 as int == be_bytes(v@, i as int, 3));
        assert(r3 as int == be_bytes(v@, i as int, 4));
    }
    r3
}

/// Reads the sixteen bytes at `i`, most significant first.
fn read_be128(v: &Vec<u8>, i: usize) -> (r: u128)
    requires
        i + 16 <= v.len(),
    ensures
        r as int == be_bytes(v@, i as int, 16),
{
    let r0: u128 = v[i] as u128;
    let r1: u128 = r0 * 0x100 + (v[i + 1] as u128);
    let r2: u128 = r1 * 0x100 + (v[i + 2] as u128);
    let r3: u128 = r2 * 0x100 + (v[i + 3] as u128);
    let r4: u128 = r3 * 0x100 + (v[i + 4] as u128);
    let r5: u128 = r4 * 0x100 + (v[i + 5] as u128);
    let r6: u128 = r5 * 0x100 + (v[i + 6] as u128);
    let r7: u128 = r6 * 0x100 + (v[i + 7] as u128);
    let r8: u128 = r7 * 0x100 + (v[i + 8] as u128);
    let r9: u128 = r8 * 0x100 + (v[i + 9] as u128);
    let r10: u128 = r9 * 0x100 + (v[i + 10] as u128);
    let r11: u128 = r10 * 0x100 + (v[i + 11] as u128);
    let r12: u128 = r11 * 0x100 + (v[i + 12] as u128);
    let r13: u128 = r12 * 0x100 + (v[i + 13] as u128);
    let r14: u128 = r13 * 0x100 + (v[i + 14] as u128);
    let r15: u128 = r14 * 0x100 + (v[i + 15] as u128);
    proof {
        assert(be_bytes(v@, i as int, 0) == 0);
        assert(r0 as int == be_bytes(v@, i as int, 1));
        assert(r1 as int == be_bytes(v@, i as int, 2));
        assert(r2 as int == be_bytes(v@, i as int, 3));
        assert(r3 as int == be_bytes(v@, i as int, 4));
        assert(r4 as int == be_bytes(v@, i as int, 5));
        assert(r5 as int == be_bytes(v@, i as int, 6));
        assert(r6 as int == be_bytes(v@, i as int, 7));
        assert(r7 as int == be_bytes(v@, i as int, 8));
        assert(r8 as int == be_bytes(v@, i as int, 9));
        assert(r9 as int == be_bytes(v@, i as int, 10));
        assert(r10 as int == be_bytes(v@, i as int, 11));
        assert(r11 as int == be_bytes(v@, i as int, 12));
        assert(r12 as int == be_bytes(v@, i as int, 13));
        assert(r13 as int == be_bytes(v@, i as int, 14));
        assert(r14 as int == be_bytes(v@, i as int, 15));
        assert(r15 as int == be_bytes(v@, i as int, 16));
    }
    r15
}

/// Scans the attribute run from `off` for the address attribute.
fn find_addr(msg: &Vec<u8>, off: usize, fam: u8, plen: u8) -> (r: Result<IpNet, ParseError>)
    requires
        off <= msg.len(),
    ensures
        r == spec_find_addr(msg@, off as int, fam, plen),
    decreases msg@.len() - off,
{
    if off >= msg.len() {
        return Err(ParseError::MissingAddress);
    }
    if msg.len() - off < 4 {
        return Err(ParseError::Truncated);
    }
    let alen = read_le16(msg, off) as usize;
    let atype = read_le16(msg, off + 2);
    if alen < 4 || alen > msg.len() - off {
        return Err(ParseError::Truncated);
    }
    if atype == IFA_ADDRESS {
        if fam == AF_INET {
            if alen == 8 {
                let addr = read_be32(msg, off + 4);
                Ok(IpNet::V4(Ipv4Net { addr, prefix_len: plen }))
            } else {
                Err(ParseError::BadAttribute)
            }
        } else {
            if alen == 20 {
                let addr = read_be128(msg, off + 4);
                Ok(IpNet::V6(Ipv6Net { addr, prefix_len: plen }))
            } else {
                Err(ParseError::BadAttribute)
            }
        }
    } else {
        let aligned = (alen + 3) / 4 * 4;
        if aligned > msg.len() - off {
            Err(ParseError::MissingAddress)
        } else {
            find_addr(msg, off + aligned, fam, plen)
        }
    }
}

/// The framed messages a receive buffer holds, split by each message's own
/// length field, messages padded to 4-byte boundaries. Splitting stops at a
/// header that does not fit or a length field that is absurd or runs past the
/// buffer; `split_clean` says whether the whole buffer was well framed.
pub open spec fn spec_split(b: Seq<u8>, off: int) -> Seq<Seq<u8>>
    decreases b.len() - off,
{
    if off + 16 > b.len() {
        Seq::empty()
    } else {
        let mlen = le32(b, off);
        if mlen < 16 || off + mlen > b.len() {
            Seq::empty()
        } else {
            let frame = b.subrange(off, off + mlen);
            let pad = if mlen % 4 == 0 {
                0int
            } else {
                4 - mlen % 4
            };
            if off + mlen + pad > b.len() {
                seq![frame]
            } else {
                seq![frame] + spec_split(b, off + mlen + pad)
            }
        }
    }
}

/// Whether the whole buffer divides into well-framed messages: nothing but
/// whole messages and their padding, with no ragged or absurd tail. A buffer
/// that is not clean indicates a corrupt read, not one defective message.
pub open spec fn split_clean(b: Seq<u8>, off: int) -> bool
    decreases b.len() - off,
{
    if off == b.len() {
        true
    } else if off + 16 > b.len() {
        false
    } else {
        let mlen = le32(b, off);
        if mlen < 16 || off + mlen > b.len() {
            false
        } else {
            let pad = if mlen % 4 == 0 {
                0int
            } else {
                4 - mlen % 4
            };
            if off + mlen + pad > b.len() {
                off + mlen == b.len()
            } else {
                split_clean(b, off + mlen + pad)
            }
        }
    }
}

/// Splits off one frame after another, appending to `frames`.
fn split_from(buf: &Vec<u8>, off: usize, frames: &mut Vec<Vec<u8>>) -> (clean: bool)
    requires
        off <= buf.len(),
    ensures
        final(frames).deep_view() == old(frames).deep_view() + spec_split(buf@, off as int),
        clean == split_clean(buf@, off as int),
    decreases buf@.len() - off,
{
    if off == buf.len() || buf.len() - off < 16 {
        proof {
            assert(frames.deep_view() =~= frames.deep_view() + spec_split(buf@, off as int));
        }
        return off == buf.len();
    }
    let mlen = read_le32(buf, off) as usize;
    if mlen < 16 || mlen > buf.len() - off {
        proof {
            assert(frames.deep_view() =~= frames.deep_view() + spec_split(buf@, off as int));
        }
        return false;
    }
    let mut frame: Vec<u8> = Vec::new();
    let mut j: usize = off;
    while j < off + mlen
        invariant
            off <= j <= off + mlen,
            off + mlen <= buf.len(),
            frame@ == buf@.subrange(off as int, j as int),
        decreases off + mlen - j,
    {
        proof {
            assert(buf@.subrange(off as int, j + 1) =~= buf@.subrange(off as int, j as int).push(
                buf@[j as int],
            ));
        }
        frame.push(buf[j]);
        j = j + 1;
    }
    let ghost pre = frames.deep_view();
    let ghost fseq = frame@;
    let pad: usize = if mlen % 4 == 0 {
        0
    } else {
        4 - mlen % 4
    };
    frames.push(frame);
    proof {
        assert(frames.deep_view() =~= pre.push(fseq)) by {
            assert forall|k: int| 0 <= k < frames.deep_view().len() implies frames.deep_view()[k]
                =~= pre.push(fseq)[k] by {
                assert(frames@[k].deep_view() =~= frames@[k]@);
            }
        }
        assert(pre.push(fseq) =~= pre + seq![fseq]);
    }
    if pad > buf.len() - off - mlen {
        proof {
            assert(spec_split(buf@, off as int) =~= seq![fseq]);
        }
        mlen == buf.len() - off
    } else {
        let clean = split_from(buf, off + mlen + pad, frames);
        proof {
            assert((pre + seq![fseq]) + spec_split(buf@, off + mlen + pad) =~= pre + (
            seq![fseq] + spec_split(buf@, off + mlen + pad)));
        }
        clean
    }
}

/// Splits a receive buffer into the framed messages it holds, and says
/// whether the whole buffer was well framed — when it was not, the read was
/// corrupt and the backend is to fail the watcher rather than resubscribe.
pub fn split_messages(buf: &Vec<u8>) -> (r: (Vec<Vec<u8>>, bool))
    ensures
        r.0.deep_view() == spec_split(buf@, 0),
        r.1 == split_clean(buf@, 0),
{
    let mut frames: Vec<Vec<u8>> = Vec::new();
    let ghost e0 = frames.deep_view();
    let clean = split_from(buf, 0, &mut frames);
    proof {
        assert(e0 =~= Seq::<Seq<u8>>::empty());
        assert(e0 + spec_split(buf@, 0) =~= spec_split(buf@, 0));
    }
    (frames, clean)
}

/// A prefix found by the attribute scan fits the address family the scan was
/// given, so its prefix length is in range whenever the length was checked.
proof fn lemma_find_addr_wf(m: Seq<u8>, off: int, fam: u8, plen: u8)
    requires
        fam == AF_INET ==> plen <= 32,
        fam == AF_INET6 ==> plen <= 128,
        fam == AF_INET || fam == AF_INET6,
    ensures
        spec_find_addr(m, off, fam, plen) matches Ok(p) ==> p.wf(),
    decreases m.len() - off,
{
    if off >= m.len() || off + 4 > m.len() {
    } else {
        let alen = le16(m, off);
        let atype = le16(m, off + 2);
        if alen < 4 || off + alen > m.len() {
        } else if atype == IFA_ADDRESS {
        } else {
            let next = off + (alen + 3) / 4 * 4;
            if next <= m.len() {
                lemma_find_addr_wf(m, next, fam, plen);
            }
        }
    }
}

/// Decodes one framed address-change message into the incremental event it
/// announces, or says exactly why it is skipped. Any prefix returned fits its
/// address family.
pub fn parse_message(msg: &Vec<u8>) -> (r: Result<IfEvent, ParseError>)
    ensures
        r == spec_parse_message(msg@),
        r matches Ok(ev) ==> match ev {
            IfEvent::Up(p) => p.wf(),
            IfEvent::Down(p) => p.wf(),
        },
{
    if msg.len() < 16 {
        return Err(ParseError::Truncated);
    }
    let total = read_le32(msg, 0);
    if total as u64 != msg.len() as u64 {
        return Err(ParseError::BadLength);
    }
    let mtype = read_le16(msg, 4);
    if mtype != RTM_NEWADDR && mtype != RTM_DELADDR {
        return Err(ParseError::UnknownType);
    }
    if msg.len() < 24 {
        return Err(ParseError::Truncated);
    }
    let fam = msg[16];
    let plen = msg[17];
    if fam != AF_INET && fam != AF_INET6 {
        return Err(ParseError::UnknownFamily);
    }
    if fam == AF_INET && plen > 32 {
        return Err(ParseError::BadPrefixLen);
    }
    if fam == AF_INET6 && plen > 128 {
        return Err(ParseError::BadPrefixLen);
    }
    proof {
        lemma_find_addr_wf(msg@, 24, fam, plen);
    }
    match find_addr(msg, 24, fam, plen) {
        Ok(p) => if mtype == RTM_NEWADDR {
            Ok(IfEvent::Up(p))
        } else {
            Ok(IfEvent::Down(p))
        },
        Err(e) => Err(e),
    }
}

} // verus!
