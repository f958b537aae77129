//! The byte codec for values crossing the host boundary: little-endian
//! integers, length-prefixed byte strings, and count-prefixed lists of
//! 32-byte nodes.  Each decoder's contract is a spec-level parse
//! function, so callers can state exactly what a buffer must look like.

use vstd::prelude::*;

use crate::types::MerkleNode;

verus! {

/// Little-endian image of a 32-bit value.
pub open spec fn u32_le(v: u32) -> Seq<u8> {
    seq![
        (v & 0xff) as u8,
        ((v >> 8) & 0xff) as u8,
        ((v >> 16) & 0xff) as u8,
        ((v >> 24) & 0xff) as u8,
    ]
}

/// The 32-bit value read from four little-endian bytes.
pub open spec fn u32_of_le(b: Seq<u8>) -> u32
    recommends
        b.len() == 4,
{
    (b[0] as u32) | ((b[1] as u32) << 8) | ((b[2] as u32) << 16) | ((b[3] as u32) << 24)
}

/// Law: reading back an encoded 32-bit value yields the value.
pub proof fn lemma_u32_le_round_trip(v: u32)
    ensures
        u32_of_le(u32_le(v)) == v,
{
    assert((((v & 0xff) as u8) as u32) | ((((v >> 8) & 0xff) as u8) as u32) << 8 | ((((v >> 16)
        & 0xff) as u8) as u32) << 16 | ((((v >> 24) & 0xff) as u8) as u32) << 24 == v)
        by (bit_vector);
}

/// A length-prefixed byte string: four little-endian length bytes, then
/// the bytes themselves.
pub open spec fn enc_bytes(b: Seq<u8>) -> Seq<u8>
    recommends
        b.len() <= u32::MAX,
{
    u32_le(b.len() as u32) + b
}

/// The body of a node list: each node's 32 bytes, in order.
pub open spec fn enc_nodes_body(ns: Seq<Seq<u8>>) -> Seq<u8>
    decreases ns.len(),
{
    if ns.len() == 0 {
        Seq::empty()
    } else {
        enc_nodes_body(ns.drop_last()) + ns.last()
    }
}

/// A count-prefixed list of 32-byte nodes.
pub open spec fn enc_nodes(ns: Seq<Seq<u8>>) -> Seq<u8>
    recommends
        ns.len() <= u32::MAX,
{
    u32_le(ns.len() as u32) + enc_nodes_body(ns)
}

/// The byte strings of a node vector.
pub open spec fn nodes_bytes(ns: Seq<MerkleNode>) -> Seq<Seq<u8>> {
    ns.map_values(|n: MerkleNode| n.bytes@)
}

/// Parse a 32-bit little-endian value.
pub open spec fn parse_u32(b: Seq<u8>, pos: int) -> Option<(u32, int)> {
    if 0 <= pos && pos + 4 <= b.len() {
        Some((u32_of_le(b.subrange(pos, pos + 4)), pos + 4))
    } else {
        None
    }
}

/// Parse a length-prefixed byte string.
pub open spec fn parse_bytes(b: Seq<u8>, pos: int) -> Option<(Seq<u8>, int)> {
    match parse_u32(b, pos) {
        Some(t) => {
            let len = t.0 as int;
            if t.1 + len <= b.len() {
                Some((b.subrange(t.1, t.1 + len), t.1 + len))
            } else {
                None
            }
        },
        None => None,
    }
}

/// Parse `count` raw 32-byte nodes.
pub open spec fn parse_nodes_body(b: Seq<u8>, pos: int, count: nat) -> Option<(Seq<Seq<u8>>, int)>
    decreases count,
{
    if count == 0 {
        Some((Seq::empty(), pos))
    } else if 0 <= pos && pos + 32 <= b.len() {
        match parse_nodes_body(b, pos + 32, (count - 1) as nat) {
            Some(t) => Some((seq![b.subrange(pos, pos + 32)] + t.0, t.1)),
            None => None,
        }
    } else {
        None
    }
}

/// Parse a count-prefixed list of 32-byte nodes.
pub open spec fn parse_nodes(b: Seq<u8>, pos: int) -> Option<(Seq<Seq<u8>>, int)> {
    match parse_u32(b, pos) {
        Some(t) => parse_nodes_body(b, t.1, t.0 as nat),
        None => None,
    }
}

/// Append a 32-bit value in little-endian order.
pub fn write_u32(out: &mut Vec<u8>, v: u32)
    ensures
        final(out)@ == old(out)@ + u32_le(v),
{
    out.push((v & 0xff) as u8);
    out.push(((v >> 8) & 0xff) as u8);
    out.push(((v >> 16) & 0xff) as u8);
    out.push(((v >> 24) & 0xff) as u8);
    proof {
        assert(out@ =~= old(out)@ + u32_le(v));
    }
}

/// Read a 32-bit little-endian value at `pos`.
pub fn read_u32(buf: &Vec<u8>, pos: usize) -> (r: Option<(u32, usize)>)
    ensures
        match r {
            Some(t) => parse_u32(buf@, pos as int) == Some((t.0, t.1 as int)),
            None => parse_u32(buf@, pos as int) is None,
        },
{
    if buf.len() < 4 || pos > buf.len() - 4 {
        return None;
    }
    let b0 = *vstd::std_specs::vec::vec_index(buf, pos);
    let b1 = *vstd::std_specs::vec::vec_index(buf, pos + 1);
    let b2 = *vstd::std_specs::vec::vec_index(buf, pos + 2);
    let b3 = *vstd::std_specs::vec::vec_index(buf, pos + 3);
    let v = (b0 as u32) | ((b1 as u32) << 8) | ((b2 as u32) << 16) | ((b3 as u32) << 24);
    proof {
        let s = buf@.subrange(pos as int, pos as int + 4);
        assert(s[0] == b0 && s[1] == b1 && s[2] == b2 && s[3] == b3);
    }
    Some((v, pos + 4))
}

/// Append a length-prefixed byte string.
#[verifier::loop_isolation(false)]
pub fn write_bytes(out: &mut Vec<u8>, b: &Vec<u8>)
    requires
        b@.len() <= u32::MAX,
    ensures
        final(out)@ == old(out)@ + enc_bytes(b@),
{
    write_u32(out, b.len() as u32);
    let mut i: usize = 0;
    let ghost mid = out@;
    while i < b.len()
        invariant
            0 <= i <= b@.len(),
            out@ == mid + b@.take(i as int),
        decreases b.len() - i,
    {
        out.push(*vstd::std_specs::vec::vec_index(b, i));
        proof {
            assert(out@ =~= mid + b@.take(i as int + 1));
        }
        i += 1;
    }
    proof {
        assert(b@.take(b@.len() as int) =~= b@);
        assert(out@ =~= old(out)@ + enc_bytes(b@));
    }
}

/// Read a length-prefixed byte string at `pos`.
#[verifier::loop_isolation(false)]
pub fn read_bytes(buf: &Vec<u8>, pos: usize) -> (r: Option<(Vec<u8>, usize)>)
    ensures
        match r {
            Some(t) => parse_bytes(buf@, pos as int) == Some((t.0@, t.1 as int)),
            None => parse_bytes(buf@, pos as int) is None,
        },
{
    let (len32, p) = match read_u32(buf, pos) {
        Some(t) => t,
        None => {
            return None;
        },
    };
    let len = len32 as usize;
    if len > buf.len() || p > buf.len() - len {
        return None;
    }
    let mut out: Vec<u8> = Vec::new();
    let mut i: usize = 0;
    while i < len
        invariant
            0 <= i <= len,
            p + len <= buf@.len(),
            out@ == buf@.subrange(p as int, p as int + i as int),
        decreases len - i,
    {
        out.push(*vstd::std_specs::vec::vec_index(buf, p + i));
        proof {
            assert(out@ =~= buf@.subrange(p as int, p as int + i as int + 1));
        }
        i += 1;
    }
    Some((out, p + len))
}

/// Append a count-prefixed node list.
#[verifier::loop_isolation(false)]
pub fn write_nodes(out: &mut Vec<u8>, ns: &Vec<MerkleNode>)
    requires
        ns@.len() <= u32::MAX,
    ensures
        final(out)@ == old(out)@ + enc_nodes(nodes_bytes(ns@)),
{
    write_u32(out, ns.len() as u32);
    let ghost mid = out@;
    let mut i: usize = 0;
    proof {
        assert(nodes_bytes(ns@).take(0) =~= Seq::<Seq<u8>>::empty());
        assert(out@ =~= mid + enc_nodes_body(nodes_bytes(ns@).take(0)));
    }
    while i < ns.len()
        invariant
            0 <= i <= ns@.len(),
            out@ == mid + enc_nodes_body(nodes_bytes(ns@).take(i as int)),
        decreases ns.len() - i,
    {
        crate::codec::write_node(out, vstd::std_specs::vec::vec_index(ns, i));
        proof {
            assert(nodes_bytes(ns@).take(i as int + 1).drop_last() =~= nodes_bytes(ns@).take(
                i as int,
            ));
            assert(nodes_bytes(ns@).take(i as int + 1).last() == ns@[i as int].bytes@);
            assert(out@ =~= mid + enc_nodes_body(nodes_bytes(ns@).take(i as int + 1)));
        }
        i += 1;
    }
    proof {
        assert(nodes_bytes(ns@).take(ns@.len() as int) =~= nodes_bytes(ns@));
        assert(out@ =~= old(out)@ + enc_nodes(nodes_bytes(ns@)));
    }
}

/// Append a 32-byte node, raw.
#[verifier::loop_isolation(false)]
pub fn write_node(out: &mut Vec<u8>, n: &MerkleNode)
    ensures
        final(out)@ == old(out)@ + n.bytes@,
{
    let mut i: usize = 0;
    while i < 32
        invariant
            0 <= i <= 32,
            out@ == old(out)@ + n.bytes@.take(i as int),
        decreases 32 - i,
    {
        out.push(n.bytes[i]);
        proof {
            assert(out@ =~= old(out)@ + n.bytes@.take(i as int + 1));
        }
        i += 1;
    }
    proof {
        assert(n.bytes@.take(32) =~= n.bytes@);
    }
}

/// Read a raw 32-byte node at `pos`.
#[verifier::loop_isolation(false)]
pub fn read_node(buf: &Vec<u8>, pos: usize) -> (r: Option<(MerkleNode, usize)>)
    ensures
        match r {
            Some(t) => pos + 32 <= buf@.len() && t.0.bytes@ == buf@.subrange(
                pos as int,
                pos as int + 32,
            ) && t.1 == pos + 32,
            None => pos + 32 > buf@.len(),
        },
{
    if buf.len() < 32 || pos > buf.len() - 32 {
        return None;
    }
    let mut bytes: [u8; 32] = [0;32];
    let mut i: usize = 0;
    while i < 32
        invariant
            0 <= i <= 32,
            pos + 32 <= buf@.len(),
            forall|j: int| 0 <= j < i ==> bytes@[j] == buf@[pos + j],
        decreases 32 - i,
    {
        bytes[i] = *vstd::std_specs::vec::vec_index(buf, pos + i);
        i += 1;
    }
    proof {
        assert(bytes@ =~= buf@.subrange(pos as int, pos as int + 32));
    }
    Some((MerkleNode { bytes }, pos + 32))
}

/// Read a count-prefixed node list at `pos`.
#[verifier::loop_isolation(false)]
pub fn read_nodes(buf: &Vec<u8>, pos: usize) -> (r: Option<(Vec<MerkleNode>, usize)>)
    ensures
        match r {
            Some(t) => parse_nodes(buf@, pos as int) == Some((nodes_bytes(t.0@), t.1 as int)),
            None => parse_nodes(buf@, pos as int) is None,
        },
{
    let (count, p0) = match read_u32(buf, pos) {
        Some(t) => t,
        None => {
            return None;
        },
    };
    let mut out: Vec<MerkleNode> = Vec::new();
    let mut p = p0;
    let mut i: u32 = 0;
    proof {
        assert(nodes_bytes(out@) =~= Seq::<Seq<u8>>::empty());
    }
    while i < count
        invariant
            0 <= i <= count,
            out@.len() == i,
            pos + 4 <= buf@.len(),
            p0 == pos + 4,
            count == u32_of_le(buf@.subrange(pos as int, pos as int + 4)),
            p <= buf@.len(),
            (match parse_nodes_body(buf@, p as int, (count - i) as nat) {
                Some(t) => parse_nodes_body(buf@, p0 as int, count as nat) == Some(
                    (nodes_bytes(out@) + t.0, t.1),
                ),
                None => parse_nodes_body(buf@, p0 as int, count as nat) is None,
            }),
        decreases count - i,
    {
        let ghost rem = (count - i) as nat;
        let (node, p2) = match read_node(buf, p) {
            Some(t) => t,
            None => {
                proof {
                    assert(parse_nodes_body(buf@, p as int, rem) is None);
                }
                return None;
            },
        };
        out.push(node);
        proof {
            assert(nodes_bytes(out@) =~= nodes_bytes(out@.drop_last()) + seq![node.bytes@]);
            assert forall|t: (Seq<Seq<u8>>, int)|
                parse_nodes_body(buf@, p2 as int, (rem - 1) as nat) == Some(t) implies
                parse_nodes_body(buf@, p as int, rem) == Some(
                (seq![buf@.subrange(p as int, p as int + 32)] + t.0, t.1),
            ) by {}
            assert(nodes_bytes(out@.drop_last()) + (seq![node.bytes@] + (match parse_nodes_body(
                buf@,
                p2 as int,
                (rem - 1) as nat,
            ) {
                Some(t) => t.0,
                None => Seq::empty(),
            })) =~= (nodes_bytes(out@.drop_last()) + seq![node.bytes@]) + (
            match parse_nodes_body(buf@, p2 as int, (rem - 1) as nat) {
                Some(t) => t.0,
                None => Seq::empty(),
            }));
        }
        p = p2;
        i += 1;
    }
    proof {
        assert(parse_nodes_body(buf@, p as int, 0) == Some((Seq::<Seq<u8>>::empty(), p as int)));
        assert(nodes_bytes(out@) + Seq::<Seq<u8>>::empty() =~= nodes_bytes(out@));
    }
    Some((out, p))
}

/// Little-endian image of a 64-bit value.
pub open spec fn u64_le(v: u64) -> Seq<u8> {
    seq![
        (v & 0xff) as u8,
        ((v >> 8) & 0xff) as u8,
        ((v >> 16) & 0xff) as u8,
        ((v >> 24) & 0xff) as u8,
        ((v >> 32) & 0xff) as u8,
        ((v >> 40) & 0xff) as u8,
        ((v >> 48) & 0xff) as u8,
        ((v >> 56) & 0xff) as u8,
    ]
}

/// The 64-bit value read from eight little-endian bytes.
pub open spec fn u64_of_le(b: Seq<u8>) -> u64
    recommends
        b.len() == 8,
{
    (b[0] as u64) | ((b[1] as u64) << 8) | ((b[2] as u64) << 16) | ((b[3] as u64) << 24) | ((
    b[4] as u64) << 32) | ((b[5] as u64) << 40) | ((b[6] as u64) << 48) | ((b[7] as u64) << 56)
}

/// Law: reading back an encoded 64-bit value yields the value.
pub proof fn lemma_u64_le_round_trip(v: u64)
    ensures
        u64_of_le(u64_le(v)) == v,
{
    assert((((v & 0xff) as u8) as u64) | ((((v >> 8) & 0xff) as u8) as u64) << 8 | ((((v >> 16)
        & 0xff) as u8) as u64) << 16 | ((((v >> 24) & 0xff) as u8) as u64) << 24 | ((((v >> 32)
        & 0xff) as u8) as u64) << 32 | ((((v >> 40) & 0xff) as u8) as u64) << 40 | ((((v >> 48)
        & 0xff) as u8) as u64) << 48 | ((((v >> 56) & 0xff) as u8) as u64) << 56 == v)
        by (bit_vector);
}

/// Parse a 64-bit little-endian value.
pub open spec fn parse_u64(b: Seq<u8>, pos: int) -> Option<(u64, int)> {
    if 0 <= pos && pos + 8 <= b.len() {
        Some((u64_of_le(b.subrange(pos, pos + 8)), pos + 8))
    } else {
        None
    }
}

/// Append a 64-bit value in little-endian order.
pub fn write_u64(out: &mut Vec<u8>, v: u64)
    ensures
        final(out)@ == old(out)@ + u64_le(v),
{
    out.push((v & 0xff) as u8);
    out.push(((v >> 8) & 0xff) as u8);
    out.push(((v >> 16) & 0xff) as u8);
    out.push(((v >> 24) & 0xff) as u8);
    out.push(((v >> 32) & 0xff) as u8);
    out.push(((v >> 40) & 0xff) as u8);
    out.push(((v >> 48) & 0xff) as u8);
    out.push(((v >> 56) & 0xff) as u8);
    proof {
        assert(out@ =~= old(out)@ + u64_le(v));
    }
}

/// Read a 64-bit little-endian value at `pos`.
pub fn read_u64(buf: &Vec<u8>, pos: usize) -> (r: Option<(u64, usize)>)
    ensures
        match r {
            Some(t) => parse_u64(buf@, pos as int) == Some((t.0, t.1 as int)),
            None => parse_u64(buf@, pos as int) is None,
        },
{
    if buf.len() < 8 || pos > buf.len() - 8 {
        return None;
    }
    let b0 = *vstd::std_specs::vec::vec_index(buf, pos);
    let b1 = *vstd::std_specs::vec::vec_index(buf, pos + 1);
    let b2 = *vstd::std_specs::vec::vec_index(buf, pos + 2);
    let b3 = *vstd::std_specs::vec::vec_index(buf, pos + 3);
    let b4 = *vstd::std_specs::vec::vec_index(buf, pos + 4);
    let b5 = *vstd::std_specs::vec::vec_index(buf, pos + 5);
    let b6 = *vstd::std_specs::vec::vec_index(buf, pos + 6);
    let b7 = *vstd::std_specs::vec::vec_index(buf, pos + 7);
    let v = (b0 as u64) | ((b1 as u64) << 8) | ((b2 as u64) << 16) | ((b3 as u64) << 24) | ((
    b4 as u64) << 32) | ((b5 as u64) << 40) | ((b6 as u64) << 48) | ((b7 as u64) << 56);
    proof {
        let s = buf@.subrange(pos as int, pos as int + 8);
        assert(s[0] == b0 && s[1] == b1 && s[2] == b2 && s[3] == b3 && s[4] == b4 && s[5] == b5
            && s[6] == b6 && s[7] == b7);
    }
    Some((v, pos + 8))
}

/// Law: reading back an encoded byte string yields the string,
/// wherever it stands in a larger buffer.
pub proof fn lemma_parse_bytes_round_trip(pre: Seq<u8>, b: Seq<u8>, suf: Seq<u8>)
    requires
        b.len() <= u32::MAX,
    ensures
        parse_bytes(pre + enc_bytes(b) + suf, pre.len() as int) == Some(
            (b, (pre.len() + 4 + b.len()) as int),
        ),
{
    let full = pre + enc_bytes(b) + suf;
    let pos = pre.len() as int;
    assert(full.subrange(pos, pos + 4) =~= u32_le(b.len() as u32));
    lemma_u32_le_round_trip(b.len() as u32);
    assert(parse_u32(full, pos) == Some((b.len() as u32, pos + 4)));
    assert(full.subrange(pos + 4, pos + 4 + b.len()) =~= b);
}

/// The body of a node list splits off its first node.
proof fn lemma_enc_nodes_body_front(ns: Seq<Seq<u8>>)
    requires
        ns.len() > 0,
    ensures
        enc_nodes_body(ns) == ns[0] + enc_nodes_body(ns.skip(1)),
    decreases ns.len(),
{
    if ns.len() == 1 {
        assert(ns.drop_last() =~= Seq::<Seq<u8>>::empty());
        assert(ns.skip(1) =~= Seq::<Seq<u8>>::empty());
        assert(enc_nodes_body(ns) =~= ns[0] + enc_nodes_body(ns.skip(1)));
    } else {
        lemma_enc_nodes_body_front(ns.drop_last());
        assert(ns.drop_last()[0] == ns[0]);
        assert(ns.skip(1).drop_last() =~= ns.drop_last().skip(1));
        assert(ns.skip(1).last() == ns.last());
        assert(enc_nodes_body(ns.skip(1)) == enc_nodes_body(ns.drop_last().skip(1)) + ns.last());
        assert(enc_nodes_body(ns) =~= ns[0] + enc_nodes_body(ns.skip(1)));
    }
}

/// The byte length of a node-list body.
pub proof fn lemma_enc_nodes_body_len(ns: Seq<Seq<u8>>)
    requires
        forall|j: int| 0 <= j < ns.len() ==> (#[trigger] ns[j]).len() == 32,
    ensures
        enc_nodes_body(ns).len() == 32 * ns.len(),
    decreases ns.len(),
{
    if ns.len() > 0 {
        lemma_enc_nodes_body_len(ns.drop_last());
    }
}

proof fn lemma_parse_nodes_body_round_trip(pre: Seq<u8>, ns: Seq<Seq<u8>>, suf: Seq<u8>)
    requires
        forall|j: int| 0 <= j < ns.len() ==> (#[trigger] ns[j]).len() == 32,
    ensures
        parse_nodes_body(pre + enc_nodes_body(ns) + suf, pre.len() as int, ns.len()) == Some(
            (ns, (pre.len() + 32 * ns.len()) as int),
        ),
    decreases ns.len(),
{
    let full = pre + enc_nodes_body(ns) + suf;
    let pos = pre.len() as int;
    if ns.len() == 0 {
        assert(parse_nodes_body(full, pos, 0) == Some((Seq::<Seq<u8>>::empty(), pos)));
        assert(ns =~= Seq::<Seq<u8>>::empty());
    } else {
        lemma_enc_nodes_body_front(ns);
        lemma_enc_nodes_body_len(ns);
        lemma_enc_nodes_body_len(ns.skip(1));
        assert(full =~= (pre + ns[0]) + enc_nodes_body(ns.skip(1)) + suf);
        lemma_parse_nodes_body_round_trip(pre + ns[0], ns.skip(1), suf);
        assert(full.subrange(pos, pos + 32) =~= ns[0]);
        assert(parse_nodes_body(full, pos + 32, (ns.len() - 1) as nat) == Some(
            (ns.skip(1), pos + 32 + 32 * (ns.len() - 1)),
        ));
        assert(seq![full.subrange(pos, pos + 32)] + ns.skip(1) =~= ns);
    }
}

/// Law: reading back an encoded node list yields the nodes, wherever
/// the list stands in a larger buffer.
pub proof fn lemma_parse_nodes_round_trip(pre: Seq<u8>, ns: Seq<Seq<u8>>, suf: Seq<u8>)
    requires
        ns.len() <= u32::MAX,
        forall|j: int| 0 <= j < ns.len() ==> (#[trigger] ns[j]).len() == 32,
    ensures
        parse_nodes(pre + enc_nodes(ns) + suf, pre.len() as int) == Some(
            (ns, (pre.len() + 4 + 32 * ns.len()) as int),
        ),
{
    let full = pre + enc_nodes(ns) + suf;
    let pos = pre.len() as int;
    assert(full.subrange(pos, pos + 4) =~= u32_le(ns.len() as u32));
    lemma_u32_le_round_trip(ns.len() as u32);
    assert(parse_u32(full, pos) == Some((ns.len() as u32, pos + 4)));
    assert(full =~= (pre + u32_le(ns.len() as u32)) + enc_nodes_body(ns) + suf);
    lemma_parse_nodes_body_round_trip(pre + u32_le(ns.len() as u32), ns, suf);
}

} // verus!
