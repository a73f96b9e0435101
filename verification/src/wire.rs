//! Gossip wire messages: a one-byte tag followed by the tagged value in the
//! canonical encoding. Decoding is total — bytes that do not parse yield
//! nothing, never a fault — and decoding an encoding gives the message back.

use vstd::prelude::*;
use crate::types::{Transaction, Block, TxView, BlockView, block_views};
use crate::codec::{
    enc_tx, enc_block, enc_blocks, dec_tx, dec_block, dec_blocks, tx_fits, block_fits, blocks_fit,
    write_tx, write_block, write_blocks, read_tx, read_block, read_blocks, lemma_subrange_concat,
    lemma_dec_tx_enc, lemma_dec_block_enc, lemma_dec_blocks_enc,
};

verus! {

/// The messages peers exchange on the gossip topics.
#[derive(Debug, PartialEq)]
pub enum WireMessage {
    NewBlock(Block),
    NewTransaction(Transaction),
    ChainRequest,
    ChainResponse(Vec<Block>),
}

/// The mathematical value of a wire message.
pub ghost enum MessageView {
    NewBlock(BlockView),
    NewTransaction(TxView),
    ChainRequest,
    ChainResponse(Seq<BlockView>),
}

impl View for WireMessage {
    type V = MessageView;

    open spec fn view(&self) -> MessageView {
        match self {
            WireMessage::NewBlock(b) => MessageView::NewBlock(b@),
            WireMessage::NewTransaction(t) => MessageView::NewTransaction(t@),
            WireMessage::ChainRequest => MessageView::ChainRequest,
            WireMessage::ChainResponse(bs) => MessageView::ChainResponse(block_views(bs@)),
        }
    }
}

pub open spec fn enc_message(m: MessageView) -> Seq<u8> {
    match m {
        MessageView::NewBlock(b) => seq![1u8] + enc_block(b),
        MessageView::NewTransaction(t) => seq![2u8] + enc_tx(t),
        MessageView::ChainRequest => seq![3u8],
        MessageView::ChainResponse(bs) => seq![4u8] + enc_blocks(bs),
    }
}

/// Decodes one message; an unknown tag, a malformed body or trailing bytes
/// all yield nothing.
pub open spec fn dec_message(bytes: Seq<u8>) -> Option<MessageView> {
    if bytes.len() == 0 {
        None
    } else if bytes[0] == 1 {
        match dec_block(bytes, 1) {
            Some((b, e)) => {
                if e == bytes.len() {
                    Some(MessageView::NewBlock(b))
                } else {
                    None
                }
            },
            None => None,
        }
    } else if bytes[0] == 2 {
        match dec_tx(bytes, 1) {
            Some((t, e)) => {
                if e == bytes.len() {
                    Some(MessageView::NewTransaction(t))
                } else {
                    None
                }
            },
            None => None,
        }
    } else if bytes[0] == 3 {
        if bytes.len() == 1 {
            Some(MessageView::ChainRequest)
        } else {
            None
        }
    } else if bytes[0] == 4 {
        match dec_blocks(bytes, 1) {
            Some((bs, e)) => {
                if e == bytes.len() {
                    Some(MessageView::ChainResponse(bs))
                } else {
                    None
                }
            },
            None => None,
        }
    } else {
        None
    }
}

/// The length headers inside the message fit their eight bytes; true of any
/// message built from real vectors and strings.
pub open spec fn message_fits(m: MessageView) -> bool {
    match m {
        MessageView::NewBlock(b) => block_fits(b),
        MessageView::NewTransaction(t) => tx_fits(t),
        MessageView::ChainRequest => true,
        MessageView::ChainResponse(bs) => blocks_fit(bs),
    }
}

pub fn encode_message(m: &WireMessage) -> (r: Vec<u8>)
    ensures
        r@ == enc_message(m@),
        message_fits(m@),
{
    let mut out: Vec<u8> = Vec::new();
    match m {
        WireMessage::NewBlock(b) => {
            out.push(1u8);
            write_block(&mut out, b);
            proof {
                assert(out@ =~= enc_message(m@));
            }
        },
        WireMessage::NewTransaction(t) => {
            out.push(2u8);
            write_tx(&mut out, t);
            proof {
                assert(out@ =~= enc_message(m@));
            }
        },
        WireMessage::ChainRequest => {
            out.push(3u8);
            proof {
                assert(out@ =~= enc_message(m@));
            }
        },
        WireMessage::ChainResponse(bs) => {
            out.push(4u8);
            write_blocks(&mut out, bs);
            proof {
                assert(out@ =~= enc_message(m@));
            }
        },
    }
    out
}

pub fn decode_message(bytes: &Vec<u8>) -> (r: Option<WireMessage>)
    ensures
        match r {
            Some(m) => dec_message(bytes@) == Some(m@),
            None => dec_message(bytes@) is None,
        },
{
    if bytes.len() == 0 {
        return None;
    }
    let tag = bytes[0];
    if tag == 1 {
        match read_block(bytes, 1) {
            Some((b, e)) => {
                if e == bytes.len() {
                    Some(WireMessage::NewBlock(b))
                } else {
                    None
                }
            },
            None => None,
        }
    } else if tag == 2 {
        match read_tx(bytes, 1) {
            Some((t, e)) => {
                if e == bytes.len() {
                    Some(WireMessage::NewTransaction(t))
                } else {
                    None
                }
            },
            None => None,
        }
    } else if tag == 3 {
        if bytes.len() == 1 {
            Some(WireMessage::ChainRequest)
        } else {
            None
        }
    } else if tag == 4 {
        match read_blocks(bytes, 1) {
            Some((bs, e)) => {
                if e == bytes.len() {
                    Some(WireMessage::ChainResponse(bs))
                } else {
                    None
                }
            },
            None => None,
        }
    } else {
        None
    }
}

/// The gossip topic a message is published on: transactions travel on the
/// `"transactions"` topic, everything else on `"blocks"`.
pub open spec fn spec_topic_for(m: MessageView) -> Seq<char> {
    match m {
        MessageView::NewTransaction(_) => "transactions"@,
        _ => "blocks"@,
    }
}

pub fn topic_for(m: &WireMessage) -> (r: &'static str)
    ensures
        r@ == spec_topic_for(m@),
{
    match m {
        WireMessage::NewTransaction(_) => "transactions",
        _ => "blocks",
    }
}

/// Decoding an encoded message gives the message back.
pub proof fn lemma_message_round_trip(m: MessageView)
    requires
        message_fits(m),
    ensures
        dec_message(enc_message(m)) == Some(m),
{
    let bytes = enc_message(m);
    match m {
        MessageView::NewBlock(b) => {
            assert(bytes.subrange(0, (1 + enc_block(b).len()) as int) =~= seq![1u8] + enc_block(b));
            lemma_subrange_concat(bytes, 0, seq![1u8], enc_block(b));
            lemma_dec_block_enc(bytes, 1, b);
        },
        MessageView::NewTransaction(t) => {
            assert(bytes.subrange(0, (1 + enc_tx(t).len()) as int) =~= seq![2u8] + enc_tx(t));
            lemma_subrange_concat(bytes, 0, seq![2u8], enc_tx(t));
            lemma_dec_tx_enc(bytes, 1, t);
        },
        MessageView::ChainRequest => {
        },
        MessageView::ChainResponse(bs) => {
            assert(bytes.subrange(0, (1 + enc_blocks(bs).len()) as int) =~= seq![4u8] + enc_blocks(bs));
            lemma_subrange_concat(bytes, 0, seq![4u8], enc_blocks(bs));
            lemma_dec_blocks_enc(bytes, 1, bs);
        },
    }
}

} // verus!
