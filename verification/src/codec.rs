//! The canonical byte encoding of the ledger's values. One format serves
//! three purposes: the block-header bytes that feed the proof-of-work digest,
//! the persistence payload, and the gossip wire messages. Every encoder and
//! decoder is verified, and decoding an encoding is proved to give the value
//! back.
//!
//! The format: a `u64` is eight little-endian bytes; an `i64` is its
//! two's-complement image as a `u64`; a string is the byte length of its
//! UTF-8 encoding followed by those bytes; a list is its length followed by
//! the items in order.

use vstd::prelude::*;
use vstd::bytes::*;
use vstd::utf8::*;
use vstd::slice::slice_subrange;
use vstd::slice::slice_to_vec;
use vstd::string::StrSliceExecFns;
use crate::types::{Transaction, Block, TxView, BlockView, tx_views, block_views};

verus! {

// ----------------------------------------------------------------------
// Specification-level encoders.
// ----------------------------------------------------------------------
pub open spec fn enc_u64(x: u64) -> Seq<u8> {
    spec_u64_to_le_bytes(x)
}

pub open spec fn enc_i64(x: i64) -> Seq<u8> {
    enc_u64(x as u64)
}

pub open spec fn enc_str(s: Seq<char>) -> Seq<u8> {
    enc_u64(encode_utf8(s).len() as u64) + encode_utf8(s)
}

pub open spec fn enc_tx(t: TxView) -> Seq<u8> {
    enc_str(t.sender) + enc_str(t.receiver) + enc_i64(t.amount)
}

pub open spec fn enc_tx_list(txs: Seq<TxView>) -> Seq<u8>
    decreases txs.len(),
{
    if txs.len() == 0 {
        Seq::empty()
    } else {
        enc_tx(txs[0]) + enc_tx_list(txs.drop_first())
    }
}

pub open spec fn enc_txs(txs: Seq<TxView>) -> Seq<u8> {
    enc_u64(txs.len() as u64) + enc_tx_list(txs)
}

/// The header of a block: every field except the stored hash. These are the
/// bytes whose digest the stored hash must equal.
pub open spec fn enc_header(b: BlockView) -> Seq<u8> {
    enc_u64(b.index) + enc_u64(b.timestamp) + enc_txs(b.transactions) + enc_str(b.previous_hash)
        + enc_u64(b.nonce)
}

pub open spec fn enc_block(b: BlockView) -> Seq<u8> {
    enc_header(b) + enc_str(b.hash)
}

pub open spec fn enc_block_list(bs: Seq<BlockView>) -> Seq<u8>
    decreases bs.len(),
{
    if bs.len() == 0 {
        Seq::empty()
    } else {
        enc_block(bs[0]) + enc_block_list(bs.drop_first())
    }
}

pub open spec fn enc_blocks(bs: Seq<BlockView>) -> Seq<u8> {
    enc_u64(bs.len() as u64) + enc_block_list(bs)
}

// ----------------------------------------------------------------------
// Side conditions under which an encoding can be decoded back: every length
// header must fit its eight bytes. Values held in real vectors and strings
// always satisfy them.
// ----------------------------------------------------------------------
pub open spec fn str_fits(s: Seq<char>) -> bool {
    encode_utf8(s).len() <= u64::MAX
}

pub open spec fn tx_fits(t: TxView) -> bool {
    str_fits(t.sender) && str_fits(t.receiver)
}

pub open spec fn txs_fit(txs: Seq<TxView>) -> bool {
    txs.len() <= u64::MAX && forall|i: int| 0 <= i < txs.len() ==> tx_fits(#[trigger] txs[i])
}

pub open spec fn block_fits(b: BlockView) -> bool {
    txs_fit(b.transactions) && str_fits(b.previous_hash) && str_fits(b.hash)
}

pub open spec fn blocks_fit(bs: Seq<BlockView>) -> bool {
    bs.len() <= u64::MAX && forall|i: int| 0 <= i < bs.len() ==> block_fits(#[trigger] bs[i])
}

// ----------------------------------------------------------------------
// Specification-level decoders. Each returns the decoded value and the
// position just past what it consumed, or nothing if the bytes do not parse.
// ----------------------------------------------------------------------
pub open spec fn dec_u64(bytes: Seq<u8>, pos: int) -> Option<(u64, int)> {
    if 0 <= pos && pos + 8 <= bytes.len() {
        Some((spec_u64_from_le_bytes(bytes.subrange(pos, pos + 8)), pos + 8))
    } else {
        None
    }
}

pub open spec fn dec_i64(bytes: Seq<u8>, pos: int) -> Option<(i64, int)> {
    match dec_u64(bytes, pos) {
        Some((x, p)) => Some((x as i64, p)),
        None => None,
    }
}

pub open spec fn dec_str(bytes: Seq<u8>, pos: int) -> Option<(Seq<char>, int)> {
    match dec_u64(bytes, pos) {
        Some((n, p)) => {
            if p + n <= bytes.len() && valid_utf8(bytes.subrange(p, p + n)) {
                Some((decode_utf8(bytes.subrange(p, p + n)), p + n))
            } else {
                None
            }
        },
        None => None,
    }
}

pub open spec fn dec_tx(bytes: Seq<u8>, pos: int) -> Option<(TxView, int)> {
    match dec_str(bytes, pos) {
        Some((sender, p1)) => match dec_str(bytes, p1) {
            Some((receiver, p2)) => match dec_i64(bytes, p2) {
                Some((amount, p3)) => Some((TxView { sender, receiver, amount }, p3)),
                None => None,
            },
            None => None,
        },
        None => None,
    }
}

pub open spec fn dec_tx_list(bytes: Seq<u8>, pos: int, count: u64) -> Option<(Seq<TxView>, int)>
    decreases count,
{
    if count == 0 {
        Some((Seq::empty(), pos))
    } else {
        match dec_tx(bytes, pos) {
            Some((t, p)) => match dec_tx_list(bytes, p, (count - 1) as u64) {
                Some((rest, e)) => Some((seq![t] + rest, e)),
                None => None,
            },
            None => None,
        }
    }
}

pub open spec fn dec_txs(bytes: Seq<u8>, pos: int) -> Option<(Seq<TxView>, int)> {
    match dec_u64(bytes, pos) {
        Some((n, p)) => dec_tx_list(bytes, p, n),
        None => None,
    }
}

pub open spec fn dec_block(bytes: Seq<u8>, pos: int) -> Option<(BlockView, int)> {
    match dec_u64(bytes, pos) {
        Some((index, p1)) => match dec_u64(bytes, p1) {
            Some((timestamp, p2)) => match dec_txs(bytes, p2) {
                Some((transactions, p3)) => match dec_str(bytes, p3) {
                    Some((previous_hash, p4)) => match dec_u64(bytes, p4) {
                        Some((nonce, p5)) => match dec_str(bytes, p5) {
                            Some((hash, p6)) => Some(
                                (
                                    BlockView {
                                        index,
                                        timestamp,
                                        transactions,
                                        previous_hash,
                                        nonce,
                                        hash,
                                    },
                                    p6,
                                ),
                            ),
                            None => None,
                        },
                        None => None,
                    },
                    None => None,
                },
                None => None,
            },
            None => None,
        },
        None => None,
    }
}

pub open spec fn dec_block_list(bytes: Seq<u8>, pos: int, count: u64) -> Option<
    (Seq<BlockView>, int),
>
    decreases count,
{
    if count == 0 {
        Some((Seq::empty(), pos))
    } else {
        match dec_block(bytes, pos) {
            Some((b, p)) => match dec_block_list(bytes, p, (count - 1) as u64) {
                Some((rest, e)) => Some((seq![b] + rest, e)),
                None => None,
            },
            None => None,
        }
    }
}

pub open spec fn dec_blocks(bytes: Seq<u8>, pos: int) -> Option<(Seq<BlockView>, int)> {
    match dec_u64(bytes, pos) {
        Some((n, p)) => dec_block_list(bytes, p, n),
        None => None,
    }
}

// ----------------------------------------------------------------------
// Executable encoders. Each appends its encoding to the output buffer.
// ----------------------------------------------------------------------
pub fn write_u64(out: &mut Vec<u8>, x: u64)
    ensures
        final(out)@ == old(out)@ + enc_u64(x),
{
    let mut b = u64_to_le_bytes(x);
    out.append(&mut b);
}

pub fn write_i64(out: &mut Vec<u8>, x: i64)
    ensures
        final(out)@ == old(out)@ + enc_i64(x),
{
    write_u64(out, x as u64);
}

pub fn write_str(out: &mut Vec<u8>, s: &str)
    ensures
        final(out)@ == old(out)@ + enc_str(s@),
        str_fits(s@),
{
    let mut body = s.as_bytes_vec();
    write_u64(out, body.len() as u64);
    out.append(&mut body);
}

pub fn write_tx(out: &mut Vec<u8>, t: &Transaction)
    ensures
        final(out)@ == old(out)@ + enc_tx(t@),
        tx_fits(t@),
{
    write_str(out, t.sender.as_str());
    write_str(out, t.receiver.as_str());
    write_i64(out, t.amount);
    proof {
        assert(out@ =~= old(out)@ + enc_tx(t@));
    }
}

proof fn lemma_enc_tx_list_push(txs: Seq<TxView>, t: TxView)
    ensures
        enc_tx_list(txs.push(t)) == enc_tx_list(txs) + enc_tx(t),
    decreases txs.len(),
{
    if txs.len() == 0 {
        assert(txs.push(t)[0] == t);
        assert(txs.push(t).drop_first() =~= Seq::<TxView>::empty());
        assert(enc_tx_list(Seq::<TxView>::empty()) == Seq::<u8>::empty());
        assert(enc_tx_list(txs.push(t)) == enc_tx(t) + Seq::<u8>::empty());
        assert(enc_tx_list(txs.push(t)) =~= enc_tx_list(txs) + enc_tx(t));
    } else {
        assert(txs.push(t).drop_first() =~= txs.drop_first().push(t));
        assert(txs.push(t)[0] == txs[0]);
        lemma_enc_tx_list_push(txs.drop_first(), t);
        let h = enc_tx(txs[0]);
        let r1 = enc_tx_list(txs.drop_first());
        let e = enc_tx(t);
        assert(enc_tx_list(txs.push(t)) == h + enc_tx_list(txs.drop_first().push(t)));
        assert(enc_tx_list(txs.drop_first().push(t)) == r1 + e);
        assert(h + (r1 + e) =~= (h + r1) + e);
        assert(enc_tx_list(txs) == h + r1);
    }
}

pub fn write_txs(out: &mut Vec<u8>, txs: &Vec<Transaction>)
    ensures
        final(out)@ == old(out)@ + enc_txs(tx_views(txs@)),
        txs_fit(tx_views(txs@)),
{
    write_u64(out, txs.len() as u64);
    let mut i: usize = 0;
    while i < txs.len()
        invariant
            i <= txs@.len(),
            txs@.len() <= u64::MAX,
            out@ == old(out)@ + enc_u64(txs@.len() as u64) + enc_tx_list(
                tx_views(txs@).take(i as int),
            ),
            forall|k: int| 0 <= k < i ==> tx_fits(#[trigger] tx_views(txs@)[k]),
        decreases txs@.len() - i,
    {
        write_tx(out, &txs[i]);
        i = i + 1;
        proof {
            let tv = tx_views(txs@);
            assert(tv.take(i as int) =~= tv.take(i - 1).push(tv[i - 1]));
            lemma_enc_tx_list_push(tv.take(i - 1), tv[i - 1]);
            assert(out@ =~= old(out)@ + enc_u64(txs@.len() as u64) + enc_tx_list(
                tv.take(i as int),
            ));
        }
    }
    proof {
        assert(tx_views(txs@).take(txs@.len() as int) =~= tx_views(txs@));
        assert(out@ =~= old(out)@ + enc_txs(tx_views(txs@)));
    }
}

/// The bytes whose digest a block's stored hash must equal: every field of
/// the block except the hash itself.
pub fn header_bytes(b: &Block) -> (r: Vec<u8>)
    ensures
        r@ == enc_header(b@),
{
    let mut out: Vec<u8> = Vec::new();
    write_u64(&mut out, b.index);
    write_u64(&mut out, b.timestamp);
    write_txs(&mut out, &b.transactions);
    write_str(&mut out, b.previous_hash.as_str());
    write_u64(&mut out, b.nonce);
    proof {
        assert(out@ =~= enc_header(b@));
    }
    out
}

pub fn write_block(out: &mut Vec<u8>, b: &Block)
    ensures
        final(out)@ == old(out)@ + enc_block(b@),
        block_fits(b@),
{
    write_u64(out, b.index);
    write_u64(out, b.timestamp);
    write_txs(out, &b.transactions);
    write_str(out, b.previous_hash.as_str());
    write_u64(out, b.nonce);
    write_str(out, b.hash.as_str());
    proof {
        assert(out@ =~= old(out)@ + enc_block(b@));
    }
}

proof fn lemma_enc_block_list_push(bs: Seq<BlockView>, b: BlockView)
    ensures
        enc_block_list(bs.push(b)) == enc_block_list(bs) + enc_block(b),
    decreases bs.len(),
{
    if bs.len() == 0 {
        assert(bs.push(b)[0] == b);
        assert(bs.push(b).drop_first() =~= Seq::<BlockView>::empty());
        assert(enc_block_list(Seq::<BlockView>::empty()) == Seq::<u8>::empty());
        assert(enc_block_list(bs.push(b)) == enc_block(b) + Seq::<u8>::empty());
        assert(enc_block_list(bs.push(b)) =~= enc_block_list(bs) + enc_block(b));
    } else {
        assert(bs.push(b).drop_first() =~= bs.drop_first().push(b));
        assert(bs.push(b)[0] == bs[0]);
        lemma_enc_block_list_push(bs.drop_first(), b);
        let h = enc_block(bs[0]);
        let r1 = enc_block_list(bs.drop_first());
        let e = enc_block(b);
        assert(enc_block_list(bs.push(b)) == h + enc_block_list(bs.drop_first().push(b)));
        assert(enc_block_list(bs.drop_first().push(b)) == r1 + e);
        assert(h + (r1 + e) =~= (h + r1) + e);
        assert(enc_block_list(bs) == h + r1);
    }
}

pub fn write_blocks(out: &mut Vec<u8>, blocks: &Vec<Block>)
    ensures
        final(out)@ == old(out)@ + enc_blocks(block_views(blocks@)),
        blocks_fit(block_views(blocks@)),
{
    write_u64(out, blocks.len() as u64);
    let mut i: usize = 0;
    while i < blocks.len()
        invariant
            i <= blocks@.len(),
            blocks@.len() <= u64::MAX,
            out@ == old(out)@ + enc_u64(blocks@.len() as u64) + enc_block_list(
                block_views(blocks@).take(i as int),
            ),
            forall|k: int| 0 <= k < i ==> block_fits(#[trigger] block_views(blocks@)[k]),
        decreases blocks@.len() - i,
    {
        write_block(out, &blocks[i]);
        i = i + 1;
        proof {
            let bv = block_views(blocks@);
            assert(bv.take(i as int) =~= bv.take(i - 1).push(bv[i - 1]));
            lemma_enc_block_list_push(bv.take(i - 1), bv[i - 1]);
            assert(out@ =~= old(out)@ + enc_u64(blocks@.len() as u64) + enc_block_list(
                bv.take(i as int),
            ));
        }
    }
    proof {
        assert(block_views(blocks@).take(blocks@.len() as int) =~= block_views(blocks@));
        assert(out@ =~= old(out)@ + enc_blocks(block_views(blocks@)));
    }
}

// ----------------------------------------------------------------------
// Executable decoders. Each mirrors its specification decoder exactly.
// ----------------------------------------------------------------------

/// Relies on `String::from_utf8`: it returns the string holding exactly the
/// given bytes, and fails precisely on bytes that are not valid UTF-8.
#[verifier::external_body]
fn string_from_utf8(bytes: Vec<u8>) -> (r: Option<String>)
    ensures
        match r {
            Some(s) => valid_utf8(bytes@) && encode_utf8(s@) == bytes@,
            None => !valid_utf8(bytes@),
        },
{
    match String::from_utf8(bytes) {
        Ok(s) => Some(s),
        Err(_) => None,
    }
}

pub fn read_u64(bytes: &Vec<u8>, pos: usize) -> (r: Option<(u64, usize)>)
    ensures
        match r {
            Some((x, p)) => dec_u64(bytes@, pos as int) == Some((x, p as int)),
            None => dec_u64(bytes@, pos as int) is None,
        },
{
    if pos <= bytes.len() && bytes.len() - pos >= 8 {
        let s = slice_subrange(bytes.as_slice(), pos, pos + 8);
        Some((u64_from_le_bytes(s), pos + 8))
    } else {
        None
    }
}

pub fn read_i64(bytes: &Vec<u8>, pos: usize) -> (r: Option<(i64, usize)>)
    ensures
        match r {
            Some((x, p)) => dec_i64(bytes@, pos as int) == Some((x, p as int)),
            None => dec_i64(bytes@, pos as int) is None,
        },
{
    match read_u64(bytes, pos) {
        Some((x, p)) => Some((x as i64, p)),
        None => None,
    }
}

pub fn read_str(bytes: &Vec<u8>, pos: usize) -> (r: Option<(String, usize)>)
    ensures
        match r {
            Some((s, p)) => dec_str(bytes@, pos as int) == Some((s@, p as int)),
            None => dec_str(bytes@, pos as int) is None,
        },
{
    match read_u64(bytes, pos) {
        Some((n, p)) => {
            if n <= (bytes.len() - p) as u64 {
                let nn = n as usize;
                let body = slice_to_vec(slice_subrange(bytes.as_slice(), p, p + nn));
                match string_from_utf8(body) {
                    Some(s) => {
                        proof {
                            broadcast use encode_utf8_decode_utf8;

                        }
                        Some((s, p + nn))
                    },
                    None => None,
                }
            } else {
                None
            }
        },
        None => None,
    }
}

pub fn read_tx(bytes: &Vec<u8>, pos: usize) -> (r: Option<(Transaction, usize)>)
    ensures
        match r {
            Some((t, p)) => dec_tx(bytes@, pos as int) == Some((t@, p as int)),
            None => dec_tx(bytes@, pos as int) is None,
        },
{
    match read_str(bytes, pos) {
        Some((sender, p1)) => match read_str(bytes, p1) {
            Some((receiver, p2)) => match read_i64(bytes, p2) {
                Some((amount, p3)) => Some((Transaction { sender, receiver, amount }, p3)),
                None => None,
            },
            None => None,
        },
        None => None,
    }
}

pub fn read_txs(bytes: &Vec<u8>, pos: usize) -> (r: Option<(Vec<Transaction>, usize)>)
    ensures
        match r {
            Some((txs, p)) => dec_txs(bytes@, pos as int) == Some((tx_views(txs@), p as int)),
            None => dec_txs(bytes@, pos as int) is None,
        },
{
    match read_u64(bytes, pos) {
        Some((n, p0)) => {
            let mut acc: Vec<Transaction> = Vec::new();
            let mut cur: usize = p0;
            let mut i: u64 = 0;
            while i < n
                invariant
                    i <= n,
                    dec_u64(bytes@, pos as int) == Some((n, p0 as int)),
                    dec_tx_list(bytes@, p0 as int, n) == match dec_tx_list(
                        bytes@,
                        cur as int,
                        (n - i) as u64,
                    ) {
                        Some((rest, e)) => Some((tx_views(acc@) + rest, e)),
                        None => None::<(Seq<TxView>, int)>,
                    },
                decreases n - i,
            {
                match read_tx(bytes, cur) {
                    Some((t, p)) => {
                        proof {
                            let inner = dec_tx_list(bytes@, p as int, (n - i - 1) as u64);
                            if inner is Some {
                                let pr = inner->Some_0;
                                assert(tx_views(acc@.push(t)) =~= tx_views(acc@) + seq![t@]);
                                assert(tx_views(acc@) + (seq![t@] + pr.0) =~= tx_views(acc@.push(t))
                                    + pr.0);
                            }
                        }
                        acc.push(t);
                        cur = p;
                        i = i + 1;
                    },
                    None => {
                        return None;
                    },
                }
            }
            proof {
                assert(tx_views(acc@) + Seq::<TxView>::empty() =~= tx_views(acc@));
            }
            Some((acc, cur))
        },
        None => None,
    }
}

pub fn read_block(bytes: &Vec<u8>, pos: usize) -> (r: Option<(Block, usize)>)
    ensures
        match r {
            Some((b, p)) => dec_block(bytes@, pos as int) == Some((b@, p as int)),
            None => dec_block(bytes@, pos as int) is None,
        },
{
    match read_u64(bytes, pos) {
        Some((index, p1)) => match read_u64(bytes, p1) {
            Some((timestamp, p2)) => match read_txs(bytes, p2) {
                Some((transactions, p3)) => match read_str(bytes, p3) {
                    Some((previous_hash, p4)) => match read_u64(bytes, p4) {
                        Some((nonce, p5)) => match read_str(bytes, p5) {
                            Some((hash, p6)) => Some(
                                (
                                    Block {
                                        index,
                                        timestamp,
                                        transactions,
                                        previous_hash,
                                        nonce,
                                        hash,
                                    },
                                    p6,
                                ),
                            ),
                            None => None,
                        },
                        None => None,
                    },
                    None => None,
                },
                None => None,
            },
            None => None,
        },
        None => None,
    }
}

pub fn read_blocks(bytes: &Vec<u8>, pos: usize) -> (r: Option<(Vec<Block>, usize)>)
    ensures
        match r {
            Some((bs, p)) => dec_blocks(bytes@, pos as int) == Some((block_views(bs@), p as int)),
            None => dec_blocks(bytes@, pos as int) is None,
        },
{
    match read_u64(bytes, pos) {
        Some((n, p0)) => {
            let mut acc: Vec<Block> = Vec::new();
            let mut cur: usize = p0;
            let mut i: u64 = 0;
            while i < n
                invariant
                    i <= n,
                    dec_u64(bytes@, pos as int) == Some((n, p0 as int)),
                    dec_block_list(bytes@, p0 as int, n) == match dec_block_list(
                        bytes@,
                        cur as int,
                        (n - i) as u64,
                    ) {
                        Some((rest, e)) => Some((block_views(acc@) + rest, e)),
                        None => None::<(Seq<BlockView>, int)>,
                    },
                decreases n - i,
            {
                match read_block(bytes, cur) {
                    Some((b, p)) => {
                        proof {
                            let inner = dec_block_list(bytes@, p as int, (n - i - 1) as u64);
                            if inner is Some {
                                let pr = inner->Some_0;
                                assert(block_views(acc@.push(b)) =~= block_views(acc@)
                                    + seq![b@]);
                                assert(block_views(acc@) + (seq![b@] + pr.0) =~= block_views(
                                    acc@.push(b),
                                ) + pr.0);
                            }
                        }
                        acc.push(b);
                        cur = p;
                        i = i + 1;
                    },
                    None => {
                        return None;
                    },
                }
            }
            proof {
                assert(block_views(acc@) + Seq::<BlockView>::empty() =~= block_views(acc@));
            }
            Some((acc, cur))
        },
        None => None,
    }
}

// ----------------------------------------------------------------------
// Decoding an encoding gives the value back.
// ----------------------------------------------------------------------

/// Splits knowledge of a two-part chunk of `bytes` into knowledge of the
/// parts.
pub proof fn lemma_subrange_concat(bytes: Seq<u8>, pos: int, a: Seq<u8>, b: Seq<u8>)
    requires
        0 <= pos,
        pos + a.len() + b.len() <= bytes.len(),
        bytes.subrange(pos, pos + a.len() + b.len()) == a + b,
    ensures
        bytes.subrange(pos, pos + a.len() as int) == a,
        bytes.subrange(pos + a.len() as int, pos + a.len() + b.len()) == b,
{
    assert forall|k: int| 0 <= k < a.len() implies bytes.subrange(pos, pos + a.len() as int)[k]
        == a[k] by {
        assert(bytes.subrange(pos, pos + a.len() + b.len())[k] == (a + b)[k]);
    }
    assert(bytes.subrange(pos, pos + a.len() as int) =~= a);
    assert forall|k: int|
        0 <= k < b.len() implies bytes.subrange(pos + a.len() as int, pos + a.len() + b.len())[k]
        == b[k] by {
        assert(bytes.subrange(pos + a.len() as int, pos + a.len() + b.len())[k] == bytes[pos
            + a.len() + k]);
        assert(bytes.subrange(pos, pos + a.len() + b.len())[a.len() + k] == bytes[pos + a.len()
            + k]);
        assert((a + b)[a.len() + k] == b[k]);
    }
    assert(bytes.subrange(pos + a.len() as int, pos + a.len() + b.len()) =~= b);
}

pub proof fn lemma_dec_u64_enc(bytes: Seq<u8>, pos: int, x: u64)
    requires
        0 <= pos,
        pos + enc_u64(x).len() <= bytes.len(),
        bytes.subrange(pos, pos + enc_u64(x).len() as int) == enc_u64(x),
    ensures
        enc_u64(x).len() == 8,
        dec_u64(bytes, pos) == Some((x, pos + 8)),
{
    lemma_auto_spec_u64_to_from_le_bytes();
}

pub proof fn lemma_dec_i64_enc(bytes: Seq<u8>, pos: int, x: i64)
    requires
        0 <= pos,
        pos + enc_i64(x).len() <= bytes.len(),
        bytes.subrange(pos, pos + enc_i64(x).len() as int) == enc_i64(x),
    ensures
        enc_i64(x).len() == 8,
        dec_i64(bytes, pos) == Some((x, pos + 8)),
{
    lemma_dec_u64_enc(bytes, pos, x as u64);
    assert((x as u64) as i64 == x) by (bit_vector);
}

pub proof fn lemma_dec_str_enc(bytes: Seq<u8>, pos: int, s: Seq<char>)
    requires
        0 <= pos,
        str_fits(s),
        pos + enc_str(s).len() <= bytes.len(),
        bytes.subrange(pos, pos + enc_str(s).len() as int) == enc_str(s),
    ensures
        dec_str(bytes, pos) == Some((s, pos + enc_str(s).len() as int)),
{
    broadcast use encode_utf8_valid_utf8, encode_utf8_decode_utf8;

    let body = encode_utf8(s);
    let n: u64 = body.len() as u64;
    lemma_auto_spec_u64_to_from_le_bytes();
    lemma_subrange_concat(bytes, pos, enc_u64(n), body);
    lemma_dec_u64_enc(bytes, pos, n);
}

pub proof fn lemma_dec_tx_enc(bytes: Seq<u8>, pos: int, t: TxView)
    requires
        0 <= pos,
        tx_fits(t),
        pos + enc_tx(t).len() <= bytes.len(),
        bytes.subrange(pos, pos + enc_tx(t).len() as int) == enc_tx(t),
    ensures
        dec_tx(bytes, pos) == Some((t, pos + enc_tx(t).len() as int)),
{
    let a = enc_str(t.sender);
    let b = enc_str(t.receiver);
    let c = enc_i64(t.amount);
    assert(enc_tx(t) =~= a + (b + c));
    lemma_subrange_concat(bytes, pos, a, b + c);
    lemma_dec_str_enc(bytes, pos, t.sender);
    lemma_subrange_concat(bytes, pos + a.len(), b, c);
    lemma_dec_str_enc(bytes, pos + a.len(), t.receiver);
    lemma_dec_i64_enc(bytes, pos + a.len() + b.len(), t.amount);
}

pub proof fn lemma_dec_tx_list_enc(bytes: Seq<u8>, pos: int, txs: Seq<TxView>)
    requires
        0 <= pos,
        txs_fit(txs),
        pos + enc_tx_list(txs).len() <= bytes.len(),
        bytes.subrange(pos, pos + enc_tx_list(txs).len() as int) == enc_tx_list(txs),
    ensures
        dec_tx_list(bytes, pos, txs.len() as u64) == Some(
            (txs, pos + enc_tx_list(txs).len() as int),
        ),
    decreases txs.len(),
{
    if txs.len() == 0 {
    } else {
        let a = enc_tx(txs[0]);
        let rest = enc_tx_list(txs.drop_first());
        lemma_subrange_concat(bytes, pos, a, rest);
        lemma_dec_tx_enc(bytes, pos, txs[0]);
        assert(txs_fit(txs.drop_first())) by {
            assert(forall|i: int|
                0 <= i < txs.drop_first().len() ==> #[trigger] txs.drop_first()[i] == txs[i + 1]);
        }
        lemma_dec_tx_list_enc(bytes, pos + a.len(), txs.drop_first());
        assert(seq![txs[0]] + txs.drop_first() =~= txs);
    }
}

pub proof fn lemma_dec_txs_enc(bytes: Seq<u8>, pos: int, txs: Seq<TxView>)
    requires
        0 <= pos,
        txs_fit(txs),
        pos + enc_txs(txs).len() <= bytes.len(),
        bytes.subrange(pos, pos + enc_txs(txs).len() as int) == enc_txs(txs),
    ensures
        dec_txs(bytes, pos) == Some((txs, pos + enc_txs(txs).len() as int)),
{
    let n: u64 = txs.len() as u64;
    lemma_subrange_concat(bytes, pos, enc_u64(n), enc_tx_list(txs));
    lemma_dec_u64_enc(bytes, pos, n);
    lemma_dec_tx_list_enc(bytes, pos + 8, txs);
}

pub proof fn lemma_dec_block_enc(bytes: Seq<u8>, pos: int, b: BlockView)
    requires
        0 <= pos,
        block_fits(b),
        pos + enc_block(b).len() <= bytes.len(),
        bytes.subrange(pos, pos + enc_block(b).len() as int) == enc_block(b),
    ensures
        dec_block(bytes, pos) == Some((b, pos + enc_block(b).len() as int)),
{
    let s1 = enc_u64(b.index);
    let s2 = enc_u64(b.timestamp);
    let s3 = enc_txs(b.transactions);
    let s4 = enc_str(b.previous_hash);
    let s5 = enc_u64(b.nonce);
    let s6 = enc_str(b.hash);
    assert(enc_block(b) =~= s1 + (s2 + (s3 + (s4 + (s5 + s6)))));
    lemma_subrange_concat(bytes, pos, s1, s2 + (s3 + (s4 + (s5 + s6))));
    lemma_dec_u64_enc(bytes, pos, b.index);
    let p1 = pos + s1.len();
    lemma_subrange_concat(bytes, p1, s2, s3 + (s4 + (s5 + s6)));
    lemma_dec_u64_enc(bytes, p1, b.timestamp);
    let p2 = p1 + s2.len();
    lemma_subrange_concat(bytes, p2, s3, s4 + (s5 + s6));
    lemma_dec_txs_enc(bytes, p2, b.transactions);
    let p3 = p2 + s3.len();
    lemma_subrange_concat(bytes, p3, s4, s5 + s6);
    lemma_dec_str_enc(bytes, p3, b.previous_hash);
    let p4 = p3 + s4.len();
    lemma_subrange_concat(bytes, p4, s5, s6);
    lemma_dec_u64_enc(bytes, p4, b.nonce);
    let p5 = p4 + s5.len();
    lemma_dec_str_enc(bytes, p5, b.hash);
}

pub proof fn lemma_dec_block_list_enc(bytes: Seq<u8>, pos: int, bs: Seq<BlockView>)
    requires
        0 <= pos,
        blocks_fit(bs),
        pos + enc_block_list(bs).len() <= bytes.len(),
        bytes.subrange(pos, pos + enc_block_list(bs).len() as int) == enc_block_list(bs),
    ensures
        dec_block_list(bytes, pos, bs.len() as u64) == Some(
            (bs, pos + enc_block_list(bs).len() as int),
        ),
    decreases bs.len(),
{
    if bs.len() == 0 {
    } else {
        let a = enc_block(bs[0]);
        let rest = enc_block_list(bs.drop_first());
        lemma_subrange_concat(bytes, pos, a, rest);
        lemma_dec_block_enc(bytes, pos, bs[0]);
        assert(blocks_fit(bs.drop_first())) by {
            assert(forall|i: int|
                0 <= i < bs.drop_first().len() ==> #[trigger] bs.drop_first()[i] == bs[i + 1]);
        }
        lemma_dec_block_list_enc(bytes, pos + a.len(), bs.drop_first());
        assert(seq![bs[0]] + bs.drop_first() =~= bs);
    }
}

pub proof fn lemma_dec_blocks_enc(bytes: Seq<u8>, pos: int, bs: Seq<BlockView>)
    requires
        0 <= pos,
        blocks_fit(bs),
        pos + enc_blocks(bs).len() <= bytes.len(),
        bytes.subrange(pos, pos + enc_blocks(bs).len() as int) == enc_blocks(bs),
    ensures
        dec_blocks(bytes, pos) == Some((bs, pos + enc_blocks(bs).len() as int)),
{
    let n: u64 = bs.len() as u64;
    lemma_subrange_concat(bytes, pos, enc_u64(n), enc_block_list(bs));
    lemma_dec_u64_enc(bytes, pos, n);
    lemma_dec_block_list_enc(bytes, pos + 8, bs);
}

} // verus!
