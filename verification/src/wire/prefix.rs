//! The frame prefix that discovery and audio datagrams share.

use vstd::prelude::*;

use crate::wire::codec::{
    be_bytes, be_value, eight, lemma_be_bytes_len, lemma_be_bytes_of_value, lemma_be_value_bound,
    lemma_be_value_of_bytes, lemma_eight, lemma_eight_of_view, lemma_head_byte, lemma_one_byte,
    lemma_pow256_widths, same_bytes, Error, Reader, Writer,
};
use crate::wire::types::{Id, NodeId};

verus! {

/// The twelve bytes between the magic and the payload.
#[derive(Debug, Clone, Copy, PartialEq, Eq)]
pub struct Prefix {
    pub msg_type: u8,
    pub ttl: u8,
    pub group_id: u16,
    pub node: NodeId,
}

/// The wire form of a prefix behind its magic.
pub open spec fn prefix_bytes(magic: Seq<u8>, p: Prefix) -> Seq<u8> {
    magic + be_bytes(p.msg_type as nat, 1) + be_bytes(p.ttl as nat, 1) + be_bytes(
        p.group_id as nat,
        2,
    ) + p.node.0@
}

/// The prefix of a datagram under the given magic, and the payload after it.
pub open spec fn prefix_of(magic: Seq<u8>, datagram: Seq<u8>) -> Result<
    (Prefix, Seq<u8>),
    Error,
> {
    if datagram.len() < 20 {
        Err(Error::Truncated)
    } else if datagram.take(8) != magic {
        Err(Error::BadMagic)
    } else {
        Ok(
            (
                Prefix {
                    msg_type: datagram[8],
                    ttl: datagram[9],
                    group_id: be_value(datagram.subrange(10, 12)) as u16,
                    node: Id(eight(datagram.subrange(12, 20))),
                },
                datagram.skip(20),
            ),
        )
    }
}

/// A prefix read back from its own bytes, whatever payload follows.
pub proof fn lemma_prefix_roundtrip(magic: Seq<u8>, p: Prefix, payload: Seq<u8>)
    requires
        magic.len() == 8,
    ensures
        prefix_bytes(magic, p).len() == 20,
        prefix_of(magic, prefix_bytes(magic, p) + payload) == Ok::<_, Error>((p, payload)),
{
    let whole = prefix_bytes(magic, p) + payload;
    lemma_one_byte(p.msg_type);
    lemma_one_byte(p.ttl);
    lemma_be_bytes_len(p.group_id as nat, 2);
    lemma_pow256_widths();
    lemma_be_value_of_bytes(p.group_id as nat, 2);
    lemma_eight_of_view(p.node.0);
    assert(whole.take(8) =~= magic);
    assert(whole.subrange(10, 12) =~= be_bytes(p.group_id as nat, 2));
    assert(whole.subrange(12, 20) =~= p.node.0@);
    assert(whole.skip(20) =~= payload);
}

/// The bytes that a prefix was read from are the bytes it is written as.
pub proof fn lemma_prefix_inverse(magic: Seq<u8>, datagram: Seq<u8>)
    ensures
        prefix_of(magic, datagram) matches Ok((p, payload)) ==> datagram == prefix_bytes(magic, p)
            + payload,
{
    if let Ok((p, payload)) = prefix_of(magic, datagram) {
        lemma_one_byte(p.msg_type);
        lemma_one_byte(p.ttl);
        let group = datagram.subrange(10, 12);
        lemma_be_bytes_of_value(group);
        lemma_be_value_bound(group);
        lemma_pow256_widths();
        lemma_eight(datagram.subrange(12, 20));
        assert(datagram =~= prefix_bytes(magic, p) + payload);
    }
}

/// Read the prefix of a datagram; the payload comes with it.
pub fn read_prefix<'a>(magic: &[u8; 8], datagram: &'a [u8]) -> (res: Result<
    (Prefix, &'a [u8]),
    Error,
>)
    ensures
        match res {
            Ok((p, payload)) => prefix_of(magic@, datagram@) == Ok::<_, Error>((p, payload@)),
            Err(e) => prefix_of(magic@, datagram@) == Err::<(Prefix, Seq<u8>), _>(e),
        },
{
    let mut r = Reader::new(datagram);
    if r.remaining() < 20 {
        return Err(Error::Truncated);
    }
    if !same_bytes(r.take(8)?, magic.as_slice()) {
        return Err(Error::BadMagic);
    }
    proof {
        lemma_head_byte(datagram@, 8);
        lemma_head_byte(datagram@, 9);
        assert(datagram@.skip(10).take(2) =~= datagram@.subrange(10, 12));
        assert(datagram@.skip(10).skip(2) =~= datagram@.skip(12));
        assert(datagram@.skip(12).take(8) =~= datagram@.subrange(12, 20));
        assert(datagram@.skip(12).skip(8) =~= datagram@.skip(20));
    }
    let msg_type = r.u8()?;
    let ttl = r.u8()?;
    let group_id = r.u16()?;
    let node = NodeId::read(&mut r)?;
    Ok((Prefix { msg_type, ttl, group_id, node }, r.rest()))
}

/// Append a prefix behind its magic.
pub fn write_prefix(w: &mut Writer, magic: &[u8; 8], p: &Prefix)
    ensures
        final(w)@ == old(w)@ + prefix_bytes(magic@, *p),
{
    w.bytes(magic.as_slice());
    w.u8(p.msg_type);
    w.u8(p.ttl);
    w.u16(p.group_id);
    p.node.write(w);
    proof {
        assert(w@ =~= old(w)@ + prefix_bytes(magic@, *p));
    }
}

} // verus!
