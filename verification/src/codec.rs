//! The binary wire format for games and strategy vectors.
//!
//! Two fixed, version-free messages are supported: the game message
//! (two treeplexes, the payoff matrix, and both players' subgame-label
//! arrays) and the vector message (a list of IEEE-754 bit patterns).
//! All integers travel as little-endian `u32`; the numeric payoff
//! fields travel as the 8-byte bit patterns they hold in memory, so a
//! round trip reproduces every floating value bit for bit.  Decoding
//! is total: malformed input yields `None`, never a panic.

use vstd::prelude::*;

use crate::game::ExtensiveFormGame;
use crate::game::SubgameOrFree;
use crate::game::labels_below;
use crate::infoset::Infoset;
use crate::payoff::PayoffMatrix;
use crate::payoff::PayoffMatrixEntry;
use crate::player::Player;
use crate::treeplex::Treeplex;

verus! {

/// The four little-endian bytes of a 32-bit integer.
pub open spec fn enc_u32(v: u32) -> Seq<u8> {
    seq![
        (v & 0xff) as u8,
        ((v >> 8) & 0xff) as u8,
        ((v >> 16) & 0xff) as u8,
        ((v >> 24) & 0xff) as u8,
    ]
}

/// The 32-bit integer held by four little-endian bytes.
pub open spec fn u32_of_le(b0: u8, b1: u8, b2: u8, b3: u8) -> u32 {
    (b0 as u32) | ((b1 as u32) << 8) | ((b2 as u32) << 16) | ((b3 as u32) << 24)
}

/// The eight little-endian bytes of a 64-bit integer.
pub open spec fn enc_u64(v: u64) -> Seq<u8> {
    seq![
        (v & 0xff) as u8,
        ((v >> 8) & 0xff) as u8,
        ((v >> 16) & 0xff) as u8,
        ((v >> 24) & 0xff) as u8,
        ((v >> 32) & 0xff) as u8,
        ((v >> 40) & 0xff) as u8,
        ((v >> 48) & 0xff) as u8,
        ((v >> 56) & 0xff) as u8,
    ]
}

/// The 64-bit integer held by eight little-endian bytes.
pub open spec fn u64_of_le(
    b0: u8,
    b1: u8,
    b2: u8,
    b3: u8,
    b4: u8,
    b5: u8,
    b6: u8,
    b7: u8,
) -> u64 {
    (b0 as u64) | ((b1 as u64) << 8) | ((b2 as u64) << 16) | ((b3 as u64) << 24) | ((b4 as u64)
        << 32) | ((b5 as u64) << 40) | ((b6 as u64) << 48) | ((b7 as u64) << 56)
}

/// Reassembling the four bytes of a 32-bit integer gives it back.
pub proof fn lemma_u32_le_round_trip(v: u32)
    ensures
        u32_of_le(
            (v & 0xff) as u8,
            ((v >> 8) & 0xff) as u8,
            ((v >> 16) & 0xff) as u8,
            ((v >> 24) & 0xff) as u8,
        ) == v,
{
    assert((((v & 0xff) as u8) as u32) | (((((v >> 8) & 0xff) as u8) as u32) << 8) | (((((v >> 16)
        & 0xff) as u8) as u32) << 16) | (((((v >> 24) & 0xff) as u8) as u32) << 24) == v)
        by (bit_vector);
}

/// Reassembling the eight bytes of a 64-bit integer gives it back.
pub proof fn lemma_u64_le_round_trip(v: u64)
    ensures
        u64_of_le(
            (v & 0xff) as u8,
            ((v >> 8) & 0xff) as u8,
            ((v >> 16) & 0xff) as u8,
            ((v >> 24) & 0xff) as u8,
            ((v >> 32) & 0xff) as u8,
            ((v >> 40) & 0xff) as u8,
            ((v >> 48) & 0xff) as u8,
            ((v >> 56) & 0xff) as u8,
        ) == v,
{
    assert((((v & 0xff) as u8) as u64) | (((((v >> 8) & 0xff) as u8) as u64) << 8) | (((((v >> 16)
        & 0xff) as u8) as u64) << 16) | (((((v >> 24) & 0xff) as u8) as u64) << 24) | (((((v >> 32)
        & 0xff) as u8) as u64) << 32) | (((((v >> 40) & 0xff) as u8) as u64) << 40) | (((((v >> 48)
        & 0xff) as u8) as u64) << 48) | (((((v >> 56) & 0xff) as u8) as u64) << 56) == v)
        by (bit_vector);
}

/// Reads a little-endian `u32` at `pos`, or `None` past the end.
pub open spec fn parse_u32(data: Seq<u8>, pos: int) -> Option<(u32, int)> {
    if 0 <= pos && pos + 4 <= data.len() {
        Some((u32_of_le(data[pos], data[pos + 1], data[pos + 2], data[pos + 3]), pos + 4))
    } else {
        None
    }
}

/// Reads a little-endian `u64` at `pos`, or `None` past the end.
pub open spec fn parse_u64(data: Seq<u8>, pos: int) -> Option<(u64, int)> {
    if 0 <= pos && pos + 8 <= data.len() {
        Some(
            (
                u64_of_le(
                    data[pos],
                    data[pos + 1],
                    data[pos + 2],
                    data[pos + 3],
                    data[pos + 4],
                    data[pos + 5],
                    data[pos + 6],
                    data[pos + 7],
                ),
                pos + 8,
            ),
        )
    } else {
        None
    }
}

/// Parsing at the start of an encoded `u32` yields the value and steps
/// past it, whatever bytes follow.
pub proof fn lemma_parse_u32_enc(pre: Seq<u8>, v: u32, suf: Seq<u8>)
    ensures
        parse_u32(pre + enc_u32(v) + suf, pre.len() as int) == Some(
            (v, pre.len() + 4 as int),
        ),
{
    let data = pre + enc_u32(v) + suf;
    let pos = pre.len() as int;
    assert(data[pos] == enc_u32(v)[0]);
    assert(data[pos + 1] == enc_u32(v)[1]);
    assert(data[pos + 2] == enc_u32(v)[2]);
    assert(data[pos + 3] == enc_u32(v)[3]);
    lemma_u32_le_round_trip(v);
}

/// Parsing at the start of an encoded `u64` yields the value and steps
/// past it, whatever bytes follow.
pub proof fn lemma_parse_u64_enc(pre: Seq<u8>, v: u64, suf: Seq<u8>)
    ensures
        parse_u64(pre + enc_u64(v) + suf, pre.len() as int) == Some(
            (v, pre.len() + 8 as int),
        ),
{
    let data = pre + enc_u64(v) + suf;
    let pos = pre.len() as int;
    assert(data[pos] == enc_u64(v)[0]);
    assert(data[pos + 1] == enc_u64(v)[1]);
    assert(data[pos + 2] == enc_u64(v)[2]);
    assert(data[pos + 3] == enc_u64(v)[3]);
    assert(data[pos + 4] == enc_u64(v)[4]);
    assert(data[pos + 5] == enc_u64(v)[5]);
    assert(data[pos + 6] == enc_u64(v)[6]);
    assert(data[pos + 7] == enc_u64(v)[7]);
    lemma_u64_le_round_trip(v);
}

/// Appends the four little-endian bytes of `v`.
pub fn write_u32(out: &mut Vec<u8>, v: u32)
    ensures
        final(out)@ == old(out)@ + enc_u32(v),
{
    out.push((v & 0xff) as u8);
    out.push(((v >> 8) & 0xff) as u8);
    out.push(((v >> 16) & 0xff) as u8);
    out.push(((v >> 24) & 0xff) as u8);
    proof {
        assert(out@ =~= old(out)@ + enc_u32(v));
    }
}

/// Appends the eight little-endian bytes of `v`.
pub fn write_u64(out: &mut Vec<u8>, v: u64)
    ensures
        final(out)@ == old(out)@ + enc_u64(v),
{
    out.push((v & 0xff) as u8);
    out.push(((v >> 8) & 0xff) as u8);
    out.push(((v >> 16) & 0xff) as u8);
    out.push(((v >> 24) & 0xff) as u8);
    out.push(((v >> 32) & 0xff) as u8);
    out.push(((v >> 40) & 0xff) as u8);
    out.push(((v >> 48) & 0xff) as u8);
    out.push(((v >> 56) & 0xff) as u8);
    proof {
        assert(out@ =~= old(out)@ + enc_u64(v));
    }
}

/// Reads a little-endian `u32`, returning it with the next position.
pub fn read_u32(data: &Vec<u8>, pos: usize) -> (r: Option<(u32, usize)>)
    ensures
        match r {
            Some((v, p)) => parse_u32(data@, pos as int) == Some((v, p as int)),
            None => parse_u32(data@, pos as int) is None,
        },
{
    if pos < data.len() && data.len() - pos >= 4 {
        let v = (data[pos] as u32) | ((data[pos + 1] as u32) << 8) | ((data[pos + 2] as u32) << 16)
            | ((data[pos + 3] as u32) << 24);
        Some((v, pos + 4))
    } else {
        None
    }
}

/// Reads a little-endian `u64`, returning it with the next position.
pub fn read_u64(data: &Vec<u8>, pos: usize) -> (r: Option<(u64, usize)>)
    ensures
        match r {
            Some((v, p)) => parse_u64(data@, pos as int) == Some((v, p as int)),
            None => parse_u64(data@, pos as int) is None,
        },
{
    if pos < data.len() && data.len() - pos >= 8 {
        let v = (data[pos] as u64) | ((data[pos + 1] as u64) << 8) | ((data[pos + 2] as u64) << 16)
            | ((data[pos + 3] as u64) << 24) | ((data[pos + 4] as u64) << 32) | ((data[pos
            + 5] as u64) << 40) | ((data[pos + 6] as u64) << 48) | ((data[pos + 7] as u64) << 56);
        Some((v, pos + 8))
    } else {
        None
    }
}

/// The 12-byte encoding of one information set: parent, start and end
/// sequence ids.
pub open spec fn enc_infoset(inf: Infoset) -> Seq<u8> {
    enc_u32(inf.parent_sequence as u32) + enc_u32(inf.start_sequence as u32) + enc_u32(
        inf.end_sequence as u32,
    )
}

/// Reads one information set at `pos`.
pub open spec fn parse_infoset(data: Seq<u8>, pos: int) -> Option<(Infoset, int)> {
    match parse_u32(data, pos) {
        None => None,
        Some((parent, p1)) => match parse_u32(data, p1) {
            None => None,
            Some((start, p2)) => match parse_u32(data, p2) {
                None => None,
                Some((end, p3)) => Some(
                    (
                        Infoset {
                            parent_sequence: parent as usize,
                            start_sequence: start as usize,
                            end_sequence: end as usize,
                        },
                        p3,
                    ),
                ),
            },
        },
    }
}

/// An information set whose ids all fit in 32 bits.
pub open spec fn infoset_fits(inf: Infoset) -> bool {
    inf.parent_sequence <= u32::MAX && inf.start_sequence <= u32::MAX && inf.end_sequence
        <= u32::MAX
}

/// Parsing an encoded information set yields it back, whatever bytes
/// follow.
pub proof fn lemma_parse_infoset_enc(pre: Seq<u8>, inf: Infoset, suf: Seq<u8>)
    requires
        infoset_fits(inf),
    ensures
        parse_infoset(pre + enc_infoset(inf) + suf, pre.len() as int) == Some(
            (inf, pre.len() + 12 as int),
        ),
{
    let data = pre + enc_infoset(inf) + suf;
    assert(data =~= pre + enc_u32(inf.parent_sequence as u32) + (enc_u32(inf.start_sequence as u32)
        + enc_u32(inf.end_sequence as u32) + suf));
    lemma_parse_u32_enc(
        pre,
        inf.parent_sequence as u32,
        enc_u32(inf.start_sequence as u32) + enc_u32(inf.end_sequence as u32) + suf,
    );
    assert(data =~= (pre + enc_u32(inf.parent_sequence as u32)) + enc_u32(
        inf.start_sequence as u32,
    ) + (enc_u32(inf.end_sequence as u32) + suf));
    lemma_parse_u32_enc(
        pre + enc_u32(inf.parent_sequence as u32),
        inf.start_sequence as u32,
        enc_u32(inf.end_sequence as u32) + suf,
    );
    assert(data =~= (pre + enc_u32(inf.parent_sequence as u32) + enc_u32(
        inf.start_sequence as u32,
    )) + enc_u32(inf.end_sequence as u32) + suf);
    lemma_parse_u32_enc(
        pre + enc_u32(inf.parent_sequence as u32) + enc_u32(inf.start_sequence as u32),
        inf.end_sequence as u32,
        suf,
    );
}

impl Infoset {
    /// Appends this information set's wire encoding.
    pub fn serialize(&self, out: &mut Vec<u8>)
        requires
            infoset_fits(*self),
        ensures
            final(out)@ == old(out)@ + enc_infoset(*self),
    {
        write_u32(out, self.parent_sequence as u32);
        write_u32(out, self.start_sequence as u32);
        write_u32(out, self.end_sequence as u32);
        proof {
            assert(out@ =~= old(out)@ + enc_infoset(*self));
        }
    }

    /// Reads one information set at `pos`, returning it with the next
    /// position.
    pub fn deserialize(data: &Vec<u8>, pos: usize) -> (r: Option<(Infoset, usize)>)
        ensures
            match r {
                Some((inf, p)) => parse_infoset(data@, pos as int) == Some((inf, p as int)),
                None => parse_infoset(data@, pos as int) is None,
            },
    {
        let (parent, p1) = match read_u32(data, pos) {
            Some(x) => x,
            None => {
                return None;
            },
        };
        let (start, p2) = match read_u32(data, p1) {
            Some(x) => x,
            None => {
                return None;
            },
        };
        let (end, p3) = match read_u32(data, p2) {
            Some(x) => x,
            None => {
                return None;
            },
        };
        Some((Infoset::new(parent as usize, start as usize, end as usize), p3))
    }
}


/// The 32-byte encoding of one payoff entry: the two sequence ids,
/// then the chance factor and both payoffs as IEEE-754 bit patterns.
pub open spec fn enc_entry(e: PayoffMatrixEntry) -> Seq<u8> {
    enc_u32(e.seq_pl1 as u32) + enc_u32(e.seq_pl2 as u32) + enc_u64(e.chance_factor) + enc_u64(
        e.payoff_pl1,
    ) + enc_u64(e.payoff_pl2)
}

/// Reads one payoff entry at `pos`.
pub open spec fn parse_entry(data: Seq<u8>, pos: int) -> Option<(PayoffMatrixEntry, int)> {
    match parse_u32(data, pos) {
        None => None,
        Some((s1, p1)) => match parse_u32(data, p1) {
            None => None,
            Some((s2, p2)) => match parse_u64(data, p2) {
                None => None,
                Some((cf, p3)) => match parse_u64(data, p3) {
                    None => None,
                    Some((u1, p4)) => match parse_u64(data, p4) {
                        None => None,
                        Some((u2, p5)) => Some(
                            (
                                PayoffMatrixEntry {
                                    seq_pl1: s1 as usize,
                                    seq_pl2: s2 as usize,
                                    chance_factor: cf,
                                    payoff_pl1: u1,
                                    payoff_pl2: u2,
                                },
                                p5,
                            ),
                        ),
                    },
                },
            },
        },
    }
}

/// A payoff entry whose sequence ids fit in 32 bits.
pub open spec fn entry_fits(e: PayoffMatrixEntry) -> bool {
    e.seq_pl1 <= u32::MAX && e.seq_pl2 <= u32::MAX
}

/// Parsing an encoded payoff entry yields it back.
pub proof fn lemma_parse_entry_enc(pre: Seq<u8>, e: PayoffMatrixEntry, suf: Seq<u8>)
    requires
        entry_fits(e),
    ensures
        parse_entry(pre + enc_entry(e) + suf, pre.len() as int) == Some(
            (e, pre.len() + 32 as int),
        ),
{
    let data = pre + enc_entry(e) + suf;
    let c1 = enc_u32(e.seq_pl1 as u32);
    let c2 = enc_u32(e.seq_pl2 as u32);
    let c3 = enc_u64(e.chance_factor);
    let c4 = enc_u64(e.payoff_pl1);
    let c5 = enc_u64(e.payoff_pl2);
    assert(data =~= pre + c1 + (c2 + c3 + c4 + c5 + suf));
    lemma_parse_u32_enc(pre, e.seq_pl1 as u32, c2 + c3 + c4 + c5 + suf);
    assert(data =~= (pre + c1) + c2 + (c3 + c4 + c5 + suf));
    lemma_parse_u32_enc(pre + c1, e.seq_pl2 as u32, c3 + c4 + c5 + suf);
    assert(data =~= (pre + c1 + c2) + c3 + (c4 + c5 + suf));
    lemma_parse_u64_enc(pre + c1 + c2, e.chance_factor, c4 + c5 + suf);
    assert(data =~= (pre + c1 + c2 + c3) + c4 + (c5 + suf));
    lemma_parse_u64_enc(pre + c1 + c2 + c3, e.payoff_pl1, c5 + suf);
    assert(data =~= (pre + c1 + c2 + c3 + c4) + c5 + suf);
    lemma_parse_u64_enc(pre + c1 + c2 + c3 + c4, e.payoff_pl2, suf);
}

/// The 4-byte encoding of one subgame label.
pub open spec fn enc_label(l: SubgameOrFree) -> Seq<u8> {
    enc_u32(l.spec_to_integer() as u32)
}

/// The label behind one wire integer: `0` is free, `k + 1` is subgame
/// `k`.
pub open spec fn label_of_u32(v: u32) -> SubgameOrFree {
    if v == 0 {
        SubgameOrFree::Free
    } else {
        SubgameOrFree::Subgame((v - 1) as usize)
    }
}

/// Reads one subgame label at `pos`.
pub open spec fn parse_label(data: Seq<u8>, pos: int) -> Option<(SubgameOrFree, int)> {
    match parse_u32(data, pos) {
        None => None,
        Some((v, p)) => Some((label_of_u32(v), p)),
    }
}

/// A label whose wire integer fits in 32 bits.
pub open spec fn label_fits(l: SubgameOrFree) -> bool {
    l.spec_to_integer() <= u32::MAX
}

/// Parsing an encoded label yields it back.
pub proof fn lemma_parse_label_enc(pre: Seq<u8>, l: SubgameOrFree, suf: Seq<u8>)
    requires
        label_fits(l),
    ensures
        parse_label(pre + enc_label(l) + suf, pre.len() as int) == Some(
            (l, pre.len() + 4 as int),
        ),
{
    lemma_parse_u32_enc(pre, l.spec_to_integer() as u32, suf);
}

/// The concatenated encodings of a list of information sets.
pub open spec fn enc_infoset_seq(items: Seq<Infoset>) -> Seq<u8>
    decreases items.len(),
{
    if items.len() == 0 {
        Seq::empty()
    } else {
        enc_infoset(items[0]) + enc_infoset_seq(items.drop_first())
    }
}

/// Reads `count` information sets at `pos`.
pub open spec fn parse_infoset_seq(data: Seq<u8>, pos: int, count: int) -> Option<
    (Seq<Infoset>, int),
>
    decreases count,
{
    if count <= 0 {
        Some((Seq::empty(), pos))
    } else {
        match parse_infoset(data, pos) {
            None => None,
            Some((e, p)) => match parse_infoset_seq(data, p, count - 1) {
                None => None,
                Some((s, p2)) => Some((seq![e] + s, p2)),
            },
        }
    }
}

/// Appending one item appends its encoding.
pub proof fn lemma_enc_infoset_seq_push(items: Seq<Infoset>, e: Infoset)
    ensures
        enc_infoset_seq(items.push(e)) == enc_infoset_seq(items) + enc_infoset(e),
    decreases items.len(),
{
    if items.len() == 0 {
        assert(items.push(e).drop_first() =~= Seq::<Infoset>::empty());
        assert(enc_infoset_seq(items.push(e).drop_first()) =~= Seq::<u8>::empty());
        assert(enc_infoset_seq(items.push(e)) =~= enc_infoset(e));
        assert(enc_infoset_seq(items) + enc_infoset(e) =~= enc_infoset(e));
    } else {
        assert(items.push(e).drop_first() =~= items.drop_first().push(e));
        lemma_enc_infoset_seq_push(items.drop_first(), e);
        assert(enc_infoset_seq(items.push(e)) =~= enc_infoset_seq(items) + enc_infoset(e));
    }
}

/// Parsing an encoded list yields it back.
#[verifier::spinoff_prover]
pub proof fn lemma_parse_infoset_seq_enc(pre: Seq<u8>, items: Seq<Infoset>, suf: Seq<u8>)
    requires
        forall|i: int| 0 <= i < items.len() ==> infoset_fits(#[trigger] items[i]),
    ensures
        parse_infoset_seq(pre + enc_infoset_seq(items) + suf, pre.len() as int, items.len() as int)
            == Some((items, (pre.len() + enc_infoset_seq(items).len()) as int)),
    decreases items.len(),
{
    let data = pre + enc_infoset_seq(items) + suf;
    if items.len() == 0 {
        assert(parse_infoset_seq(data, pre.len() as int, 0) == Some(
            (Seq::<Infoset>::empty(), pre.len() as int),
        ));
        assert(items =~= Seq::<Infoset>::empty());
    } else {
        let rest = items.drop_first();
        assert(data =~= pre + enc_infoset(items[0]) + (enc_infoset_seq(rest) + suf));
        lemma_parse_infoset_enc(pre, items[0], enc_infoset_seq(rest) + suf);
        assert(data =~= (pre + enc_infoset(items[0])) + enc_infoset_seq(rest) + suf);
        lemma_parse_infoset_seq_enc(pre + enc_infoset(items[0]), rest, suf);
        assert(seq![items[0]] + rest =~= items);
        assert(enc_infoset_seq(items).len() == enc_infoset(items[0]).len() + enc_infoset_seq(
            rest,
        ).len());
    }
}

/// A successful prefix parse extends by one successfully-parsed item.
#[verifier::spinoff_prover]
pub proof fn lemma_parse_infoset_seq_snoc(
    data: Seq<u8>,
    pos: int,
    count: int,
    s: Seq<Infoset>,
    p: int,
    e: Infoset,
    p2: int,
)
    requires
        count >= 0,
        parse_infoset_seq(data, pos, count) == Some((s, p)),
        parse_infoset(data, p) == Some((e, p2)),
    ensures
        parse_infoset_seq(data, pos, count + 1) == Some((s.push(e), p2)),
    decreases count,
{
    if count == 0 {
        assert(s =~= Seq::<Infoset>::empty());
        assert(seq![e] + Seq::<Infoset>::empty() =~= s.push(e));
    } else {
        let (e0, q) = parse_infoset(data, pos)->0;
        let (s1, _pp) = parse_infoset_seq(data, q, count - 1)->0;
        lemma_parse_infoset_seq_snoc(data, q, count - 1, s1, p, e, p2);
        assert(seq![e0] + s1.push(e) =~= (seq![e0] + s1).push(e));
    }
}

/// A failed item parse after a successful prefix fails the whole list.
#[verifier::spinoff_prover]
pub proof fn lemma_parse_infoset_seq_fail(
    data: Seq<u8>,
    pos: int,
    count: int,
    s: Seq<Infoset>,
    p: int,
    total: int,
)
    requires
        0 <= count < total,
        parse_infoset_seq(data, pos, count) == Some((s, p)),
        parse_infoset(data, p) is None,
    ensures
        parse_infoset_seq(data, pos, total) is None,
    decreases count,
{
    if count == 0 {
        assert(p == pos);
    } else {
        let (e0, q) = parse_infoset(data, pos)->0;
        let (s1, _pp) = parse_infoset_seq(data, q, count - 1)->0;
        lemma_parse_infoset_seq_fail(data, q, count - 1, s1, p, total - 1);
    }
}

/// The concatenated encodings of a list of payoff entries.
pub open spec fn enc_entry_seq(items: Seq<PayoffMatrixEntry>) -> Seq<u8>
    decreases items.len(),
{
    if items.len() == 0 {
        Seq::empty()
    } else {
        enc_entry(items[0]) + enc_entry_seq(items.drop_first())
    }
}

/// Reads `count` payoff entries at `pos`.
pub open spec fn parse_entry_seq(data: Seq<u8>, pos: int, count: int) -> Option<
    (Seq<PayoffMatrixEntry>, int),
>
    decreases count,
{
    if count <= 0 {
        Some((Seq::empty(), pos))
    } else {
        match parse_entry(data, pos) {
            None => None,
            Some((e, p)) => match parse_entry_seq(data, p, count - 1) {
                None => None,
                Some((s, p2)) => Some((seq![e] + s, p2)),
            },
        }
    }
}

/// Appending one entry appends its encoding.
pub proof fn lemma_enc_entry_seq_push(items: Seq<PayoffMatrixEntry>, e: PayoffMatrixEntry)
    ensures
        enc_entry_seq(items.push(e)) == enc_entry_seq(items) + enc_entry(e),
    decreases items.len(),
{
    if items.len() == 0 {
        assert(items.push(e).drop_first() =~= Seq::<PayoffMatrixEntry>::empty());
        assert(enc_entry_seq(items.push(e).drop_first()) =~= Seq::<u8>::empty());
        assert(enc_entry_seq(items.push(e)) =~= enc_entry(e));
        assert(enc_entry_seq(items) + enc_entry(e) =~= enc_entry(e));
    } else {
        assert(items.push(e).drop_first() =~= items.drop_first().push(e));
        lemma_enc_entry_seq_push(items.drop_first(), e);
        assert(enc_entry_seq(items.push(e)) =~= enc_entry_seq(items) + enc_entry(e));
    }
}

/// Parsing an encoded entry list yields it back.
#[verifier::rlimit(100)]
#[verifier::spinoff_prover]
pub proof fn lemma_parse_entry_seq_enc(pre: Seq<u8>, items: Seq<PayoffMatrixEntry>, suf: Seq<u8>)
    requires
        forall|i: int| 0 <= i < items.len() ==> entry_fits(#[trigger] items[i]),
    ensures
        parse_entry_seq(pre + enc_entry_seq(items) + suf, pre.len() as int, items.len() as int)
            == Some((items, (pre.len() + enc_entry_seq(items).len()) as int)),
    decreases items.len(),
{
    let data = pre + enc_entry_seq(items) + suf;
    if items.len() == 0 {
        assert(items =~= Seq::<PayoffMatrixEntry>::empty());
    } else {
        let rest = items.drop_first();
        assert(data =~= pre + enc_entry(items[0]) + (enc_entry_seq(rest) + suf));
        lemma_parse_entry_enc(pre, items[0], enc_entry_seq(rest) + suf);
        assert(data =~= (pre + enc_entry(items[0])) + enc_entry_seq(rest) + suf);
        lemma_parse_entry_seq_enc(pre + enc_entry(items[0]), rest, suf);
        assert(seq![items[0]] + rest =~= items);
        assert(enc_entry_seq(items).len() == enc_entry(items[0]).len() + enc_entry_seq(
            rest,
        ).len());
    }
}

/// A successful prefix parse extends by one successfully-parsed entry.
#[verifier::spinoff_prover]
pub proof fn lemma_parse_entry_seq_snoc(
    data: Seq<u8>,
    pos: int,
    count: int,
    s: Seq<PayoffMatrixEntry>,
    p: int,
    e: PayoffMatrixEntry,
    p2: int,
)
    requires
        count >= 0,
        parse_entry_seq(data, pos, count) == Some((s, p)),
        parse_entry(data, p) == Some((e, p2)),
    ensures
        parse_entry_seq(data, pos, count + 1) == Some((s.push(e), p2)),
    decreases count,
{
    if count == 0 {
        assert(s =~= Seq::<PayoffMatrixEntry>::empty());
        assert(seq![e] + Seq::<PayoffMatrixEntry>::empty() =~= s.push(e));
    } else {
        let (e0, q) = parse_entry(data, pos)->0;
        let (s1, _pp) = parse_entry_seq(data, q, count - 1)->0;
        lemma_parse_entry_seq_snoc(data, q, count - 1, s1, p, e, p2);
        assert(seq![e0] + s1.push(e) =~= (seq![e0] + s1).push(e));
    }
}

/// A failed entry parse after a successful prefix fails the whole list.
#[verifier::spinoff_prover]
pub proof fn lemma_parse_entry_seq_fail(
    data: Seq<u8>,
    pos: int,
    count: int,
    s: Seq<PayoffMatrixEntry>,
    p: int,
    total: int,
)
    requires
        0 <= count < total,
        parse_entry_seq(data, pos, count) == Some((s, p)),
        parse_entry(data, p) is None,
    ensures
        parse_entry_seq(data, pos, total) is None,
    decreases count,
{
    if count == 0 {
    } else {
        let (e0, q) = parse_entry(data, pos)->0;
        let (s1, _pp) = parse_entry_seq(data, q, count - 1)->0;
        lemma_parse_entry_seq_fail(data, q, count - 1, s1, p, total - 1);
    }
}

/// The concatenated encodings of a list of subgame labels.
pub open spec fn enc_label_seq(items: Seq<SubgameOrFree>) -> Seq<u8>
    decreases items.len(),
{
    if items.len() == 0 {
        Seq::empty()
    } else {
        enc_label(items[0]) + enc_label_seq(items.drop_first())
    }
}

/// Reads `count` subgame labels at `pos`.
pub open spec fn parse_label_seq(data: Seq<u8>, pos: int, count: int) -> Option<
    (Seq<SubgameOrFree>, int),
>
    decreases count,
{
    if count <= 0 {
        Some((Seq::empty(), pos))
    } else {
        match parse_label(data, pos) {
            None => None,
            Some((e, p)) => match parse_label_seq(data, p, count - 1) {
                None => None,
                Some((s, p2)) => Some((seq![e] + s, p2)),
            },
        }
    }
}

/// Appending one label appends its encoding.
pub proof fn lemma_enc_label_seq_push(items: Seq<SubgameOrFree>, e: SubgameOrFree)
    ensures
        enc_label_seq(items.push(e)) == enc_label_seq(items) + enc_label(e),
    decreases items.len(),
{
    if items.len() == 0 {
        assert(items.push(e).drop_first() =~= Seq::<SubgameOrFree>::empty());
        assert(enc_label_seq(items.push(e).drop_first()) =~= Seq::<u8>::empty());
        assert(enc_label_seq(items.push(e)) =~= enc_label(e));
        assert(enc_label_seq(items) + enc_label(e) =~= enc_label(e));
    } else {
        assert(items.push(e).drop_first() =~= items.drop_first().push(e));
        lemma_enc_label_seq_push(items.drop_first(), e);
        assert(enc_label_seq(items.push(e)) =~= enc_label_seq(items) + enc_label(e));
    }
}

/// Parsing an encoded label list yields it back.
pub proof fn lemma_parse_label_seq_enc(pre: Seq<u8>, items: Seq<SubgameOrFree>, suf: Seq<u8>)
    requires
        forall|i: int| 0 <= i < items.len() ==> label_fits(#[trigger] items[i]),
    ensures
        parse_label_seq(pre + enc_label_seq(items) + suf, pre.len() as int, items.len() as int)
            == Some((items, (pre.len() + enc_label_seq(items).len()) as int)),
    decreases items.len(),
{
    let data = pre + enc_label_seq(items) + suf;
    if items.len() == 0 {
        assert(items =~= Seq::<SubgameOrFree>::empty());
    } else {
        let rest = items.drop_first();
        assert(data =~= pre + enc_label(items[0]) + (enc_label_seq(rest) + suf));
        lemma_parse_label_enc(pre, items[0], enc_label_seq(rest) + suf);
        assert(data =~= (pre + enc_label(items[0])) + enc_label_seq(rest) + suf);
        lemma_parse_label_seq_enc(pre + enc_label(items[0]), rest, suf);
        assert(seq![items[0]] + rest =~= items);
        assert(enc_label_seq(items).len() == enc_label(items[0]).len() + enc_label_seq(
            rest,
        ).len());
    }
}

/// A successful prefix parse extends by one successfully-parsed label.
#[verifier::spinoff_prover]
pub proof fn lemma_parse_label_seq_snoc(
    data: Seq<u8>,
    pos: int,
    count: int,
    s: Seq<SubgameOrFree>,
    p: int,
    e: SubgameOrFree,
    p2: int,
)
    requires
        count >= 0,
        parse_label_seq(data, pos, count) == Some((s, p)),
        parse_label(data, p) == Some((e, p2)),
    ensures
        parse_label_seq(data, pos, count + 1) == Some((s.push(e), p2)),
    decreases count,
{
    if count == 0 {
        assert(s =~= Seq::<SubgameOrFree>::empty());
        assert(seq![e] + Seq::<SubgameOrFree>::empty() =~= s.push(e));
    } else {
        let (e0, q) = parse_label(data, pos)->0;
        let (s1, _pp) = parse_label_seq(data, q, count - 1)->0;
        lemma_parse_label_seq_snoc(data, q, count - 1, s1, p, e, p2);
        assert(seq![e0] + s1.push(e) =~= (seq![e0] + s1).push(e));
    }
}

/// A failed label parse after a successful prefix fails the whole list.
#[verifier::spinoff_prover]
pub proof fn lemma_parse_label_seq_fail(
    data: Seq<u8>,
    pos: int,
    count: int,
    s: Seq<SubgameOrFree>,
    p: int,
    total: int,
)
    requires
        0 <= count < total,
        parse_label_seq(data, pos, count) == Some((s, p)),
        parse_label(data, p) is None,
    ensures
        parse_label_seq(data, pos, total) is None,
    decreases count,
{
    if count == 0 {
    } else {
        let (e0, q) = parse_label(data, pos)->0;
        let (s1, _pp) = parse_label_seq(data, q, count - 1)->0;
        lemma_parse_label_seq_fail(data, q, count - 1, s1, p, total - 1);
    }
}

/// The concatenated encodings of a list of 64-bit values.
pub open spec fn enc_u64_seq(items: Seq<u64>) -> Seq<u8>
    decreases items.len(),
{
    if items.len() == 0 {
        Seq::empty()
    } else {
        enc_u64(items[0]) + enc_u64_seq(items.drop_first())
    }
}

/// Reads `count` 64-bit values at `pos`.
pub open spec fn parse_u64_seq(data: Seq<u8>, pos: int, count: int) -> Option<(Seq<u64>, int)>
    decreases count,
{
    if count <= 0 {
        Some((Seq::empty(), pos))
    } else {
        match parse_u64(data, pos) {
            None => None,
            Some((e, p)) => match parse_u64_seq(data, p, count - 1) {
                None => None,
                Some((s, p2)) => Some((seq![e] + s, p2)),
            },
        }
    }
}

/// Appending one value appends its encoding.
pub proof fn lemma_enc_u64_seq_push(items: Seq<u64>, e: u64)
    ensures
        enc_u64_seq(items.push(e)) == enc_u64_seq(items) + enc_u64(e),
    decreases items.len(),
{
    if items.len() == 0 {
        assert(items.push(e).drop_first() =~= Seq::<u64>::empty());
        assert(enc_u64_seq(items.push(e).drop_first()) =~= Seq::<u8>::empty());
        assert(enc_u64_seq(items.push(e)) =~= enc_u64(e));
        assert(enc_u64_seq(items) + enc_u64(e) =~= enc_u64(e));
    } else {
        assert(items.push(e).drop_first() =~= items.drop_first().push(e));
        lemma_enc_u64_seq_push(items.drop_first(), e);
        assert(enc_u64_seq(items.push(e)) =~= enc_u64_seq(items) + enc_u64(e));
    }
}

/// Parsing an encoded value list yields it back.
pub proof fn lemma_parse_u64_seq_enc(pre: Seq<u8>, items: Seq<u64>, suf: Seq<u8>)
    ensures
        parse_u64_seq(pre + enc_u64_seq(items) + suf, pre.len() as int, items.len() as int) == Some(
            (items, (pre.len() + enc_u64_seq(items).len()) as int),
        ),
    decreases items.len(),
{
    let data = pre + enc_u64_seq(items) + suf;
    if items.len() == 0 {
        assert(items =~= Seq::<u64>::empty());
    } else {
        let rest = items.drop_first();
        assert(data =~= pre + enc_u64(items[0]) + (enc_u64_seq(rest) + suf));
        lemma_parse_u64_enc(pre, items[0], enc_u64_seq(rest) + suf);
        assert(data =~= (pre + enc_u64(items[0])) + enc_u64_seq(rest) + suf);
        lemma_parse_u64_seq_enc(pre + enc_u64(items[0]), rest, suf);
        assert(seq![items[0]] + rest =~= items);
        assert(enc_u64_seq(items).len() == enc_u64(items[0]).len() + enc_u64_seq(rest).len());
    }
}

/// A successful prefix parse extends by one successfully-parsed value.
#[verifier::spinoff_prover]
pub proof fn lemma_parse_u64_seq_snoc(
    data: Seq<u8>,
    pos: int,
    count: int,
    s: Seq<u64>,
    p: int,
    e: u64,
    p2: int,
)
    requires
        count >= 0,
        parse_u64_seq(data, pos, count) == Some((s, p)),
        parse_u64(data, p) == Some((e, p2)),
    ensures
        parse_u64_seq(data, pos, count + 1) == Some((s.push(e), p2)),
    decreases count,
{
    if count == 0 {
        assert(s =~= Seq::<u64>::empty());
        assert(seq![e] + Seq::<u64>::empty() =~= s.push(e));
    } else {
        let (e0, q) = parse_u64(data, pos)->0;
        let (s1, _pp) = parse_u64_seq(data, q, count - 1)->0;
        lemma_parse_u64_seq_snoc(data, q, count - 1, s1, p, e, p2);
        assert(seq![e0] + s1.push(e) =~= (seq![e0] + s1).push(e));
    }
}

/// A failed value parse after a successful prefix fails the whole list.
#[verifier::spinoff_prover]
pub proof fn lemma_parse_u64_seq_fail(
    data: Seq<u8>,
    pos: int,
    count: int,
    s: Seq<u64>,
    p: int,
    total: int,
)
    requires
        0 <= count < total,
        parse_u64_seq(data, pos, count) == Some((s, p)),
        parse_u64(data, p) is None,
    ensures
        parse_u64_seq(data, pos, total) is None,
    decreases count,
{
    if count == 0 {
    } else {
        let (e0, q) = parse_u64(data, pos)->0;
        let (s1, _pp) = parse_u64_seq(data, q, count - 1)->0;
        lemma_parse_u64_seq_fail(data, q, count - 1, s1, p, total - 1);
    }
}


/// Whether a treeplex's counts and ids all fit the 32-bit wire format.
pub open spec fn treeplex_fits(num_sequences: usize, infosets: Seq<Infoset>) -> bool {
    &&& num_sequences <= u32::MAX
    &&& infosets.len() <= u32::MAX
    &&& forall|i: int| 0 <= i < infosets.len() ==> infoset_fits(#[trigger] infosets[i])
}

/// The encoding of one treeplex: its sequence count, its
/// information-set count, then the information sets.
pub open spec fn enc_treeplex(num_sequences: usize, infosets: Seq<Infoset>) -> Seq<u8> {
    enc_u32(num_sequences as u32) + enc_u32(infosets.len() as u32) + enc_infoset_seq(infosets)
}

/// Reads one treeplex at `pos`: its sequence count and its information
/// sets.
pub open spec fn parse_treeplex(data: Seq<u8>, pos: int) -> Option<((usize, Seq<Infoset>), int)> {
    match parse_u32(data, pos) {
        None => None,
        Some((ns, p1)) => match parse_u32(data, p1) {
            None => None,
            Some((cnt, p2)) => match parse_infoset_seq(data, p2, cnt as int) {
                None => None,
                Some((infs, p3)) => Some(((ns as usize, infs), p3)),
            },
        },
    }
}

/// Parsing an encoded treeplex yields its components back.
pub proof fn lemma_parse_treeplex_enc(
    pre: Seq<u8>,
    num_sequences: usize,
    infosets: Seq<Infoset>,
    suf: Seq<u8>,
)
    requires
        treeplex_fits(num_sequences, infosets),
    ensures
        parse_treeplex(pre + enc_treeplex(num_sequences, infosets) + suf, pre.len() as int) == Some(
            (
                (num_sequences, infosets),
                (pre.len() + enc_treeplex(num_sequences, infosets).len()) as int,
            ),
        ),
{
    let data = pre + enc_treeplex(num_sequences, infosets) + suf;
    let c1 = enc_u32(num_sequences as u32);
    let c2 = enc_u32(infosets.len() as u32);
    let c3 = enc_infoset_seq(infosets);
    assert(data =~= pre + c1 + (c2 + c3 + suf));
    lemma_parse_u32_enc(pre, num_sequences as u32, c2 + c3 + suf);
    assert(data =~= (pre + c1) + c2 + (c3 + suf));
    lemma_parse_u32_enc(pre + c1, infosets.len() as u32, c3 + suf);
    assert(data =~= (pre + c1 + c2) + c3 + suf);
    lemma_parse_infoset_seq_enc(pre + c1 + c2, infosets, suf);
}

/// Whether a payoff matrix's count and ids fit the 32-bit wire format.
pub open spec fn matrix_fits(entries: Seq<PayoffMatrixEntry>) -> bool {
    &&& entries.len() <= u32::MAX
    &&& forall|i: int| 0 <= i < entries.len() ==> entry_fits(#[trigger] entries[i])
}

/// The encoding of the payoff matrix: the entry count, then the
/// entries.
pub open spec fn enc_matrix(entries: Seq<PayoffMatrixEntry>) -> Seq<u8> {
    enc_u32(entries.len() as u32) + enc_entry_seq(entries)
}

/// Reads the payoff matrix at `pos`.
pub open spec fn parse_matrix(data: Seq<u8>, pos: int) -> Option<(Seq<PayoffMatrixEntry>, int)> {
    match parse_u32(data, pos) {
        None => None,
        Some((cnt, p1)) => match parse_entry_seq(data, p1, cnt as int) {
            None => None,
            Some((es, p2)) => Some((es, p2)),
        },
    }
}

/// Parsing an encoded payoff matrix yields its entries back.
#[verifier::spinoff_prover]
pub proof fn lemma_parse_matrix_enc(pre: Seq<u8>, entries: Seq<PayoffMatrixEntry>, suf: Seq<u8>)
    requires
        matrix_fits(entries),
    ensures
        parse_matrix(pre + enc_matrix(entries) + suf, pre.len() as int) == Some(
            (entries, (pre.len() + enc_matrix(entries).len()) as int),
        ),
{
    let data = pre + enc_matrix(entries) + suf;
    let c1 = enc_u32(entries.len() as u32);
    let c2 = enc_entry_seq(entries);
    assert(data =~= pre + c1 + (c2 + suf));
    lemma_parse_u32_enc(pre, entries.len() as u32, c2 + suf);
    assert(data =~= (pre + c1) + c2 + suf);
    lemma_parse_entry_seq_enc(pre + c1, entries, suf);
}

/// Whether a label array's count and encodings fit the 32-bit format.
pub open spec fn labels_fit(labels: Seq<SubgameOrFree>) -> bool {
    &&& labels.len() <= u32::MAX
    &&& forall|i: int| 0 <= i < labels.len() ==> label_fits(#[trigger] labels[i])
}

/// The encoding of one label array: the count, then the labels.
pub open spec fn enc_labels(labels: Seq<SubgameOrFree>) -> Seq<u8> {
    enc_u32(labels.len() as u32) + enc_label_seq(labels)
}

/// Reads one label array at `pos`.
pub open spec fn parse_labels(data: Seq<u8>, pos: int) -> Option<(Seq<SubgameOrFree>, int)> {
    match parse_u32(data, pos) {
        None => None,
        Some((cnt, p1)) => match parse_label_seq(data, p1, cnt as int) {
            None => None,
            Some((ls, p2)) => Some((ls, p2)),
        },
    }
}

/// Parsing an encoded label array yields the labels back.
pub proof fn lemma_parse_labels_enc(pre: Seq<u8>, labels: Seq<SubgameOrFree>, suf: Seq<u8>)
    requires
        labels_fit(labels),
    ensures
        parse_labels(pre + enc_labels(labels) + suf, pre.len() as int) == Some(
            (labels, (pre.len() + enc_labels(labels).len()) as int),
        ),
{
    let data = pre + enc_labels(labels) + suf;
    let c1 = enc_u32(labels.len() as u32);
    let c2 = enc_label_seq(labels);
    assert(data =~= pre + c1 + (c2 + suf));
    lemma_parse_u32_enc(pre, labels.len() as u32, c2 + suf);
    assert(data =~= (pre + c1) + c2 + suf);
    lemma_parse_label_seq_enc(pre + c1, labels, suf);
}

/// Whether a whole game fits the wire format.
pub open spec fn game_fits(g: ExtensiveFormGame) -> bool {
    &&& treeplex_fits(g.treeplex_pl1.num_sequences, g.treeplex_pl1.infosets@)
    &&& treeplex_fits(g.treeplex_pl2.num_sequences, g.treeplex_pl2.infosets@)
    &&& matrix_fits(g.payoff_matrix.entries@)
    &&& labels_fit(g.subgames_pl1@)
    &&& labels_fit(g.subgames_pl2@)
}

/// The game message: both treeplexes, the payoff matrix, and both
/// players' subgame-label arrays.
pub open spec fn enc_game(g: ExtensiveFormGame) -> Seq<u8> {
    enc_treeplex(g.treeplex_pl1.num_sequences, g.treeplex_pl1.infosets@) + enc_treeplex(
        g.treeplex_pl2.num_sequences,
        g.treeplex_pl2.infosets@,
    ) + enc_matrix(g.payoff_matrix.entries@) + enc_labels(g.subgames_pl1@) + enc_labels(
        g.subgames_pl2@,
    )
}

/// The abstract content of a parsed game message.
pub struct ParsedGame {
    pub num_sequences_pl1: usize,
    pub infosets_pl1: Seq<Infoset>,
    pub num_sequences_pl2: usize,
    pub infosets_pl2: Seq<Infoset>,
    pub entries: Seq<PayoffMatrixEntry>,
    pub subgames_pl1: Seq<SubgameOrFree>,
    pub subgames_pl2: Seq<SubgameOrFree>,
}

/// Reads a whole game message at `pos`.
pub open spec fn parse_game(data: Seq<u8>, pos: int) -> Option<(ParsedGame, int)> {
    match parse_treeplex(data, pos) {
        None => None,
        Some(((ns1, infs1), p1)) => match parse_treeplex(data, p1) {
            None => None,
            Some(((ns2, infs2), p2)) => match parse_matrix(data, p2) {
                None => None,
                Some((es, p3)) => match parse_labels(data, p3) {
                    None => None,
                    Some((ls1, p4)) => match parse_labels(data, p4) {
                        None => None,
                        Some((ls2, p5)) => Some(
                            (
                                ParsedGame {
                                    num_sequences_pl1: ns1,
                                    infosets_pl1: infs1,
                                    num_sequences_pl2: ns2,
                                    infosets_pl2: infs2,
                                    entries: es,
                                    subgames_pl1: ls1,
                                    subgames_pl2: ls2,
                                },
                                p5,
                            ),
                        ),
                    },
                },
            },
        },
    }
}

/// The game a parsed message describes.
pub open spec fn parsed_game_of(g: ExtensiveFormGame) -> ParsedGame {
    ParsedGame {
        num_sequences_pl1: g.treeplex_pl1.num_sequences,
        infosets_pl1: g.treeplex_pl1.infosets@,
        num_sequences_pl2: g.treeplex_pl2.num_sequences,
        infosets_pl2: g.treeplex_pl2.infosets@,
        entries: g.payoff_matrix.entries@,
        subgames_pl1: g.subgames_pl1@,
        subgames_pl2: g.subgames_pl2@,
    }
}

/// The first treeplex of an encoded game message parses at its start.
#[verifier::spinoff_prover]
proof fn lemma_game_enc_t1(pre: Seq<u8>, g: ExtensiveFormGame, suf: Seq<u8>)
    requires
        game_fits(g),
    ensures
        parse_treeplex(pre + enc_game(g) + suf, pre.len() as int) == Some(
            (
                (g.treeplex_pl1.num_sequences, g.treeplex_pl1.infosets@),
                (pre.len() + enc_treeplex(
                    g.treeplex_pl1.num_sequences,
                    g.treeplex_pl1.infosets@,
                ).len()) as int,
            ),
        ),
{
    let c1 = enc_treeplex(g.treeplex_pl1.num_sequences, g.treeplex_pl1.infosets@);
    let c2 = enc_treeplex(g.treeplex_pl2.num_sequences, g.treeplex_pl2.infosets@);
    let c3 = enc_matrix(g.payoff_matrix.entries@);
    let c4 = enc_labels(g.subgames_pl1@);
    let c5 = enc_labels(g.subgames_pl2@);
    assert(pre + enc_game(g) + suf =~= pre + c1 + (c2 + c3 + c4 + c5 + suf));
    lemma_parse_treeplex_enc(
        pre,
        g.treeplex_pl1.num_sequences,
        g.treeplex_pl1.infosets@,
        c2 + c3 + c4 + c5 + suf,
    );
}

/// The second treeplex of an encoded game message parses after the
/// first.
#[verifier::spinoff_prover]
proof fn lemma_game_enc_t2(pre: Seq<u8>, g: ExtensiveFormGame, suf: Seq<u8>)
    requires
        game_fits(g),
    ensures
        ({
            let c1 = enc_treeplex(g.treeplex_pl1.num_sequences, g.treeplex_pl1.infosets@);
            let c2 = enc_treeplex(g.treeplex_pl2.num_sequences, g.treeplex_pl2.infosets@);
            parse_treeplex(pre + enc_game(g) + suf, (pre.len() + c1.len()) as int) == Some(
                (
                    (g.treeplex_pl2.num_sequences, g.treeplex_pl2.infosets@),
                    (pre.len() + c1.len() + c2.len()) as int,
                ),
            )
        }),
{
    let c1 = enc_treeplex(g.treeplex_pl1.num_sequences, g.treeplex_pl1.infosets@);
    let c2 = enc_treeplex(g.treeplex_pl2.num_sequences, g.treeplex_pl2.infosets@);
    let c3 = enc_matrix(g.payoff_matrix.entries@);
    let c4 = enc_labels(g.subgames_pl1@);
    let c5 = enc_labels(g.subgames_pl2@);
    assert(pre + enc_game(g) + suf =~= (pre + c1) + c2 + (c3 + c4 + c5 + suf));
    lemma_parse_treeplex_enc(
        pre + c1,
        g.treeplex_pl2.num_sequences,
        g.treeplex_pl2.infosets@,
        c3 + c4 + c5 + suf,
    );
}

/// The payoff matrix of an encoded game message parses after both
/// treeplexes.
#[verifier::spinoff_prover]
proof fn lemma_game_enc_matrix(pre: Seq<u8>, g: ExtensiveFormGame, suf: Seq<u8>)
    requires
        game_fits(g),
    ensures
        ({
            let c1 = enc_treeplex(g.treeplex_pl1.num_sequences, g.treeplex_pl1.infosets@);
            let c2 = enc_treeplex(g.treeplex_pl2.num_sequences, g.treeplex_pl2.infosets@);
            let c3 = enc_matrix(g.payoff_matrix.entries@);
            parse_matrix(pre + enc_game(g) + suf, (pre.len() + c1.len() + c2.len()) as int)
                == Some(
                (g.payoff_matrix.entries@, (pre.len() + c1.len() + c2.len() + c3.len()) as int),
            )
        }),
{
    let c1 = enc_treeplex(g.treeplex_pl1.num_sequences, g.treeplex_pl1.infosets@);
    let c2 = enc_treeplex(g.treeplex_pl2.num_sequences, g.treeplex_pl2.infosets@);
    let c3 = enc_matrix(g.payoff_matrix.entries@);
    let c4 = enc_labels(g.subgames_pl1@);
    let c5 = enc_labels(g.subgames_pl2@);
    assert(pre + enc_game(g) + suf =~= (pre + c1 + c2) + c3 + (c4 + c5 + suf));
    lemma_parse_matrix_enc(pre + c1 + c2, g.payoff_matrix.entries@, c4 + c5 + suf);
}

/// The first label array of an encoded game message parses after the
/// payoff matrix.
#[verifier::spinoff_prover]
proof fn lemma_game_enc_labels1(pre: Seq<u8>, g: ExtensiveFormGame, suf: Seq<u8>)
    requires
        game_fits(g),
    ensures
        ({
            let c1 = enc_treeplex(g.treeplex_pl1.num_sequences, g.treeplex_pl1.infosets@);
            let c2 = enc_treeplex(g.treeplex_pl2.num_sequences, g.treeplex_pl2.infosets@);
            let c3 = enc_matrix(g.payoff_matrix.entries@);
            let c4 = enc_labels(g.subgames_pl1@);
            parse_labels(
                pre + enc_game(g) + suf,
                (pre.len() + c1.len() + c2.len() + c3.len()) as int,
            ) == Some(
                (
                    g.subgames_pl1@,
                    (pre.len() + c1.len() + c2.len() + c3.len() + c4.len()) as int,
                ),
            )
        }),
{
    let c1 = enc_treeplex(g.treeplex_pl1.num_sequences, g.treeplex_pl1.infosets@);
    let c2 = enc_treeplex(g.treeplex_pl2.num_sequences, g.treeplex_pl2.infosets@);
    let c3 = enc_matrix(g.payoff_matrix.entries@);
    let c4 = enc_labels(g.subgames_pl1@);
    let c5 = enc_labels(g.subgames_pl2@);
    assert(pre + enc_game(g) + suf =~= (pre + c1 + c2 + c3) + c4 + (c5 + suf));
    lemma_parse_labels_enc(pre + c1 + c2 + c3, g.subgames_pl1@, c5 + suf);
}

/// The second label array of an encoded game message parses last.
#[verifier::spinoff_prover]
proof fn lemma_game_enc_labels2(pre: Seq<u8>, g: ExtensiveFormGame, suf: Seq<u8>)
    requires
        game_fits(g),
    ensures
        ({
            let c1 = enc_treeplex(g.treeplex_pl1.num_sequences, g.treeplex_pl1.infosets@);
            let c2 = enc_treeplex(g.treeplex_pl2.num_sequences, g.treeplex_pl2.infosets@);
            let c3 = enc_matrix(g.payoff_matrix.entries@);
            let c4 = enc_labels(g.subgames_pl1@);
            parse_labels(
                pre + enc_game(g) + suf,
                (pre.len() + c1.len() + c2.len() + c3.len() + c4.len()) as int,
            ) == Some((g.subgames_pl2@, (pre.len() + enc_game(g).len()) as int))
        }),
{
    let c1 = enc_treeplex(g.treeplex_pl1.num_sequences, g.treeplex_pl1.infosets@);
    let c2 = enc_treeplex(g.treeplex_pl2.num_sequences, g.treeplex_pl2.infosets@);
    let c3 = enc_matrix(g.payoff_matrix.entries@);
    let c4 = enc_labels(g.subgames_pl1@);
    let c5 = enc_labels(g.subgames_pl2@);
    assert(pre + enc_game(g) + suf =~= (pre + c1 + c2 + c3 + c4) + c5 + suf);
    lemma_parse_labels_enc(pre + c1 + c2 + c3 + c4, g.subgames_pl2@, suf);
}

/// Parsing an encoded game message yields every component back.
pub proof fn lemma_parse_game_enc(pre: Seq<u8>, g: ExtensiveFormGame, suf: Seq<u8>)
    requires
        game_fits(g),
    ensures
        parse_game(pre + enc_game(g) + suf, pre.len() as int) == Some(
            (parsed_game_of(g), (pre.len() + enc_game(g).len()) as int),
        ),
{
    lemma_game_enc_t1(pre, g, suf);
    lemma_game_enc_t2(pre, g, suf);
    lemma_game_enc_matrix(pre, g, suf);
    lemma_game_enc_labels1(pre, g, suf);
    lemma_game_enc_labels2(pre, g, suf);
}

/// Decoding an encoded game message reproduces every component of the
/// game exactly, the floating payoff bit patterns included.
pub proof fn lemma_game_message_round_trip(g: ExtensiveFormGame)
    requires
        game_fits(g),
    ensures
        parse_game(enc_game(g), 0) == Some((parsed_game_of(g), enc_game(g).len() as int)),
{
    lemma_parse_game_enc(Seq::empty(), g, Seq::empty());
    assert(Seq::<u8>::empty() + enc_game(g) + Seq::<u8>::empty() =~= enc_game(g));
}

/// The vector message: a count, then the entries' 64-bit patterns.
pub open spec fn enc_vector(items: Seq<u64>) -> Seq<u8> {
    enc_u32(items.len() as u32) + enc_u64_seq(items)
}

/// Reads a vector message at `pos`.
pub open spec fn parse_vector(data: Seq<u8>, pos: int) -> Option<(Seq<u64>, int)> {
    match parse_u32(data, pos) {
        None => None,
        Some((cnt, p1)) => match parse_u64_seq(data, p1, cnt as int) {
            None => None,
            Some((vs, p2)) => Some((vs, p2)),
        },
    }
}

/// Parsing an encoded vector message yields the entries back.
pub proof fn lemma_parse_vector_enc(pre: Seq<u8>, items: Seq<u64>, suf: Seq<u8>)
    requires
        items.len() <= u32::MAX,
    ensures
        parse_vector(pre + enc_vector(items) + suf, pre.len() as int) == Some(
            (items, (pre.len() + enc_vector(items).len()) as int),
        ),
{
    let data = pre + enc_vector(items) + suf;
    let c1 = enc_u32(items.len() as u32);
    let c2 = enc_u64_seq(items);
    assert(data =~= pre + c1 + (c2 + suf));
    lemma_parse_u32_enc(pre, items.len() as u32, c2 + suf);
    assert(data =~= (pre + c1) + c2 + suf);
    lemma_parse_u64_seq_enc(pre + c1, items, suf);
}

/// Decoding an encoded vector message reproduces every entry's bit
/// pattern exactly.
pub proof fn lemma_vector_message_round_trip(items: Seq<u64>)
    requires
        items.len() <= u32::MAX,
    ensures
        parse_vector(enc_vector(items), 0) == Some((items, enc_vector(items).len() as int)),
{
    lemma_parse_vector_enc(Seq::empty(), items, Seq::empty());
    assert(Seq::<u8>::empty() + enc_vector(items) + Seq::<u8>::empty() =~= enc_vector(items));
}


impl Treeplex {
    /// Appends this treeplex's wire encoding.
    pub fn serialize(&self, out: &mut Vec<u8>)
        requires
            treeplex_fits(self.num_sequences, self.infosets@),
        ensures
            final(out)@ == old(out)@ + enc_treeplex(self.num_sequences, self.infosets@),
    {
        write_u32(out, self.num_sequences as u32);
        write_u32(out, self.infosets.len() as u32);
        let ghost head = old(out)@ + enc_u32(self.num_sequences as u32) + enc_u32(
            self.infosets.len() as u32,
        );
        let n_inf = self.infosets.len();
        let mut i: usize = 0;
        while i < n_inf
            invariant
                i <= n_inf,
                out@ == head + enc_infoset_seq(self.infosets@.take(i as int)),
            decreases n_inf - i,
        {
            let ghost before = self.infosets@.take(i as int);
            self.infosets[i].serialize(out);
            proof {
                lemma_enc_infoset_seq_push(before, self.infosets@[i as int]);
                assert(before.push(self.infosets@[i as int]) =~= self.infosets@.take(i + 1));
            }
            i = i + 1;
        }
        proof {
            assert(self.infosets@.take(n_inf as int) =~= self.infosets@);
            assert(out@ =~= old(out)@ + enc_treeplex(self.num_sequences, self.infosets@));
        }
    }

    /// Reads one treeplex at `pos`, giving it to `player`, and returns
    /// it with the next position.  Malformed input yields `None`.
    pub fn deserialize(player: Player, data: &Vec<u8>, pos: usize) -> (r: Option<(Treeplex, usize)>)
        ensures
            match r {
                Some((t, p)) => parse_treeplex(data@, pos as int) == Some(
                    ((t.num_sequences, t.infosets@), p as int),
                ) && t.player == player && t.seq_to_infoset_id_range.len() == 0,
                None => parse_treeplex(data@, pos as int) is None,
            },
    {
        let (num_sequences, p1) = match read_u32(data, pos) {
            Some(x) => x,
            None => {
                return None;
            },
        };
        let (count, p2) = match read_u32(data, p1) {
            Some(x) => x,
            None => {
                return None;
            },
        };
        let mut infosets: Vec<Infoset> = Vec::new();
        let mut cur: usize = p2;
        let mut i: u32 = 0;
        while i < count
            invariant
                i <= count,
                infosets.len() == i,
                parse_infoset_seq(data@, p2 as int, i as int) == Some((infosets@, cur as int)),
            decreases count - i,
        {
            let (inf, np) = match Infoset::deserialize(data, cur) {
                Some(x) => x,
                None => {
                    proof {
                        lemma_parse_infoset_seq_fail(
                            data@,
                            p2 as int,
                            i as int,
                            infosets@,
                            cur as int,
                            count as int,
                        );
                    }
                    return None;
                },
            };
            proof {
                lemma_parse_infoset_seq_snoc(
                    data@,
                    p2 as int,
                    i as int,
                    infosets@,
                    cur as int,
                    inf,
                    np as int,
                );
            }
            infosets.push(inf);
            cur = np;
            i = i + 1;
        }
        Some((Treeplex::new(player, num_sequences as usize, infosets), cur))
    }
}

impl PayoffMatrixEntry {
    /// Appends this entry's wire encoding.
    pub fn serialize(&self, out: &mut Vec<u8>)
        requires
            entry_fits(*self),
        ensures
            final(out)@ == old(out)@ + enc_entry(*self),
    {
        write_u32(out, self.seq_pl1 as u32);
        write_u32(out, self.seq_pl2 as u32);
        write_u64(out, self.chance_factor);
        write_u64(out, self.payoff_pl1);
        write_u64(out, self.payoff_pl2);
        proof {
            assert(out@ =~= old(out)@ + enc_entry(*self));
        }
    }

    /// Reads one entry at `pos`, returning it with the next position.
    pub fn deserialize(data: &Vec<u8>, pos: usize) -> (r: Option<(PayoffMatrixEntry, usize)>)
        ensures
            match r {
                Some((e, p)) => parse_entry(data@, pos as int) == Some((e, p as int)),
                None => parse_entry(data@, pos as int) is None,
            },
    {
        let (s1, p1) = match read_u32(data, pos) {
            Some(x) => x,
            None => {
                return None;
            },
        };
        let (s2, p2) = match read_u32(data, p1) {
            Some(x) => x,
            None => {
                return None;
            },
        };
        let (cf, p3) = match read_u64(data, p2) {
            Some(x) => x,
            None => {
                return None;
            },
        };
        let (u1, p4) = match read_u64(data, p3) {
            Some(x) => x,
            None => {
                return None;
            },
        };
        let (u2, p5) = match read_u64(data, p4) {
            Some(x) => x,
            None => {
                return None;
            },
        };
        Some((PayoffMatrixEntry::new(s1 as usize, s2 as usize, cf, u1, u2), p5))
    }
}

impl PayoffMatrix {
    /// Appends this matrix's wire encoding.
    pub fn serialize(&self, out: &mut Vec<u8>)
        requires
            matrix_fits(self.entries@),
        ensures
            final(out)@ == old(out)@ + enc_matrix(self.entries@),
    {
        write_u32(out, self.entries.len() as u32);
        let ghost head = old(out)@ + enc_u32(self.entries.len() as u32);
        let n = self.entries.len();
        let mut i: usize = 0;
        while i < n
            invariant
                i <= n,
                out@ == head + enc_entry_seq(self.entries@.take(i as int)),
            decreases n - i,
        {
            let ghost before = self.entries@.take(i as int);
            self.entries[i].serialize(out);
            proof {
                lemma_enc_entry_seq_push(before, self.entries@[i as int]);
                assert(before.push(self.entries@[i as int]) =~= self.entries@.take(i + 1));
            }
            i = i + 1;
        }
        proof {
            assert(self.entries@.take(n as int) =~= self.entries@);
            assert(out@ =~= old(out)@ + enc_matrix(self.entries@));
        }
    }

    /// Reads one payoff matrix at `pos`, returning it with the next
    /// position.  The entries come back exactly as stored; merging of
    /// duplicate sequence pairs is numeric work done by the caller.
    pub fn deserialize(data: &Vec<u8>, pos: usize) -> (r: Option<(PayoffMatrix, usize)>)
        ensures
            match r {
                Some((m, p)) => parse_matrix(data@, pos as int) == Some((m.entries@, p as int)),
                None => parse_matrix(data@, pos as int) is None,
            },
    {
        let (count, p1) = match read_u32(data, pos) {
            Some(x) => x,
            None => {
                return None;
            },
        };
        let mut entries: Vec<PayoffMatrixEntry> = Vec::new();
        let mut cur: usize = p1;
        let mut i: u32 = 0;
        while i < count
            invariant
                i <= count,
                entries.len() == i,
                parse_entry_seq(data@, p1 as int, i as int) == Some((entries@, cur as int)),
            decreases count - i,
        {
            let (e, np) = match PayoffMatrixEntry::deserialize(data, cur) {
                Some(x) => x,
                None => {
                    proof {
                        lemma_parse_entry_seq_fail(
                            data@,
                            p1 as int,
                            i as int,
                            entries@,
                            cur as int,
                            count as int,
                        );
                    }
                    return None;
                },
            };
            proof {
                lemma_parse_entry_seq_snoc(
                    data@,
                    p1 as int,
                    i as int,
                    entries@,
                    cur as int,
                    e,
                    np as int,
                );
            }
            entries.push(e);
            cur = np;
            i = i + 1;
        }
        Some((PayoffMatrix::new(entries), cur))
    }
}

/// Appends the wire encoding of one label array.
fn write_labels(labels: &Vec<SubgameOrFree>, out: &mut Vec<u8>)
    requires
        labels_fit(labels@),
    ensures
        final(out)@ == old(out)@ + enc_labels(labels@),
{
    write_u32(out, labels.len() as u32);
    let ghost head = old(out)@ + enc_u32(labels.len() as u32);
    let n = labels.len();
    let mut i: usize = 0;
    while i < n
        invariant
            i <= n,
            out@ == head + enc_label_seq(labels@.take(i as int)),
        decreases n - i,
    {
        let ghost before = labels@.take(i as int);
        let v = labels[i].to_integer();
        write_u32(out, v as u32);
        proof {
            lemma_enc_label_seq_push(before, labels@[i as int]);
            assert(before.push(labels@[i as int]) =~= labels@.take(i + 1));
            assert(out@ =~= head + enc_label_seq(labels@.take(i + 1)));
        }
        i = i + 1;
    }
    proof {
        assert(labels@.take(n as int) =~= labels@);
        assert(out@ =~= old(out)@ + enc_labels(labels@));
    }
}

/// Reads one label array at `pos`.
fn read_labels(data: &Vec<u8>, pos: usize) -> (r: Option<(Vec<SubgameOrFree>, usize)>)
    ensures
        match r {
            Some((ls, p)) => parse_labels(data@, pos as int) == Some((ls@, p as int))
                && labels_fit(ls@),
            None => parse_labels(data@, pos as int) is None,
        },
{
    let (count, p1) = match read_u32(data, pos) {
        Some(x) => x,
        None => {
            return None;
        },
    };
    let mut labels: Vec<SubgameOrFree> = Vec::new();
    let mut cur: usize = p1;
    let mut i: u32 = 0;
    while i < count
        invariant
            i <= count,
            labels.len() == i,
            parse_label_seq(data@, p1 as int, i as int) == Some((labels@, cur as int)),
            labels_fit(labels@),
        decreases count - i,
    {
        let (v, np) = match read_u32(data, cur) {
            Some(x) => x,
            None => {
                proof {
                    lemma_parse_label_seq_fail(
                        data@,
                        p1 as int,
                        i as int,
                        labels@,
                        cur as int,
                        count as int,
                    );
                }
                return None;
            },
        };
        let l = SubgameOrFree::from_integer(v as usize);
        proof {
            assert(l == label_of_u32(v));
            lemma_parse_label_seq_snoc(
                data@,
                p1 as int,
                i as int,
                labels@,
                cur as int,
                l,
                np as int,
            );
        }
        labels.push(l);
        cur = np;
        i = i + 1;
    }
    Some((labels, cur))
}

impl ExtensiveFormGame {
    /// Appends this game's wire encoding: both treeplexes, the payoff
    /// matrix, then both players' subgame-label arrays.
    pub fn serialize(&self, out: &mut Vec<u8>)
        requires
            game_fits(*self),
        ensures
            final(out)@ == old(out)@ + enc_game(*self),
    {
        self.treeplex_pl1.serialize(out);
        self.treeplex_pl2.serialize(out);
        self.payoff_matrix.serialize(out);
        write_labels(&self.subgames_pl1, out);
        write_labels(&self.subgames_pl2, out);
        proof {
            assert(out@ =~= old(out)@ + enc_game(*self));
        }
    }

    /// Reads a whole game message at `pos`; malformed input yields
    /// `None`.  The number of subgames is recomputed from the decoded
    /// labels, so it is again their exact maximum, and the derived
    /// child-infoset tables of the decoded treeplexes start empty.
    pub fn deserialize(data: &Vec<u8>, pos: usize) -> (r: Option<(ExtensiveFormGame, usize)>)
        ensures
            match r {
                Some((g, p)) => parse_game(data@, pos as int) == Some((parsed_game_of(g), p as int))
                    && g.treeplex_pl1.player == Player::Player1 && g.treeplex_pl2.player
                    == Player::Player2 && g.num_subgames_ok()
                    && g.treeplex_pl1.seq_to_infoset_id_range.len() == 0
                    && g.treeplex_pl2.seq_to_infoset_id_range.len() == 0,
                None => parse_game(data@, pos as int) is None,
            },
    {
        let (treeplex_pl1, p1) = match Treeplex::deserialize(Player::Player1, data, pos) {
            Some(x) => x,
            None => {
                return None;
            },
        };
        let (treeplex_pl2, p2) = match Treeplex::deserialize(Player::Player2, data, p1) {
            Some(x) => x,
            None => {
                return None;
            },
        };
        let (payoff_matrix, p3) = match PayoffMatrix::deserialize(data, p2) {
            Some(x) => x,
            None => {
                return None;
            },
        };
        let (subgames_pl1, p4) = match read_labels(data, p3) {
            Some(x) => x,
            None => {
                return None;
            },
        };
        let (subgames_pl2, p5) = match read_labels(data, p4) {
            Some(x) => x,
            None => {
                return None;
            },
        };
        let game = ExtensiveFormGame::new(
            treeplex_pl1,
            treeplex_pl2,
            payoff_matrix,
            subgames_pl1,
            subgames_pl2,
        );
        Some((game, p5))
    }
}

/// Appends the wire encoding of a vector message: the entry count,
/// then each entry's 64-bit pattern.
pub fn serialize_vector(entries: &Vec<u64>, out: &mut Vec<u8>)
    requires
        entries.len() <= u32::MAX,
    ensures
        final(out)@ == old(out)@ + enc_vector(entries@),
{
    write_u32(out, entries.len() as u32);
    let ghost head = old(out)@ + enc_u32(entries.len() as u32);
    let n = entries.len();
    let mut i: usize = 0;
    while i < n
        invariant
            i <= n,
            out@ == head + enc_u64_seq(entries@.take(i as int)),
        decreases n - i,
    {
        let ghost before = entries@.take(i as int);
        write_u64(out, entries[i]);
        proof {
            lemma_enc_u64_seq_push(before, entries@[i as int]);
            assert(before.push(entries@[i as int]) =~= entries@.take(i + 1));
            assert(out@ =~= head + enc_u64_seq(entries@.take(i + 1)));
        }
        i = i + 1;
    }
    proof {
        assert(entries@.take(n as int) =~= entries@);
        assert(out@ =~= old(out)@ + enc_vector(entries@));
    }
}

/// Reads a vector message at `pos`, returning the entries' 64-bit
/// patterns with the next position.
pub fn deserialize_vector(data: &Vec<u8>, pos: usize) -> (r: Option<(Vec<u64>, usize)>)
    ensures
        match r {
            Some((vs, p)) => parse_vector(data@, pos as int) == Some((vs@, p as int)),
            None => parse_vector(data@, pos as int) is None,
        },
{
    let (count, p1) = match read_u32(data, pos) {
        Some(x) => x,
        None => {
            return None;
        },
    };
    let mut entries: Vec<u64> = Vec::new();
    let mut cur: usize = p1;
    let mut i: u32 = 0;
    while i < count
        invariant
            i <= count,
            entries.len() == i,
            parse_u64_seq(data@, p1 as int, i as int) == Some((entries@, cur as int)),
        decreases count - i,
    {
        let (v, np) = match read_u64(data, cur) {
            Some(x) => x,
            None => {
                proof {
                    lemma_parse_u64_seq_fail(
                        data@,
                        p1 as int,
                        i as int,
                        entries@,
                        cur as int,
                        count as int,
                    );
                }
                return None;
            },
        };
        proof {
            lemma_parse_u64_seq_snoc(data@, p1 as int, i as int, entries@, cur as int, v, np as int);
        }
        entries.push(v);
        cur = np;
        i = i + 1;
    }
    Some((entries, cur))
}

} // verus!
