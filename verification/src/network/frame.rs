//! Frames: the byte form of a message and how it is read back. A frame is
//! the number of the message's kind in four bytes, then what the message
//! holds in canonical bytes. Reading takes a message from the start of the
//! bytes and does not mind what follows it.

use vstd::prelude::*;
use vstd::utf8::decode_utf8;
use vstd::utf8::encode_utf8;
use vstd::utf8::valid_utf8;
use crate::block::Block;
use crate::block::BlockView;
use crate::block::Header;
use crate::block::HeaderView;
use crate::crypto::hash::H160;
use crate::crypto::hash::H256;
use crate::crypto::merkle::digests_view;
use crate::encoding::concat_all;
use crate::encoding::le_bytes;
use crate::encoding::le_value;
use crate::encoding::lemma_concat_all_push;
use crate::encoding::lemma_parse_items_fails;
use crate::encoding::lemma_parse_items_next;
use crate::encoding::lemma_radix_values;
use crate::encoding::lemma_le_value_bound;
use crate::encoding::len_prefix;
use crate::encoding::parse_bytes;
use crate::encoding::parse_items;
use crate::encoding::parse_list;
use crate::encoding::push_all;
use crate::encoding::push_le;
use crate::encoding::push_len;
use crate::encoding::read_le;
use crate::network::frame_laws::lemma_frame_round_trip;
use crate::network::frame_laws::lemma_held_blocks_fit;
use crate::network::frame_laws::lemma_held_content_fits;
use crate::network::frame_laws::lemma_held_digests_fit;
use crate::network::frame_laws::message_fits;
use crate::network::message::blocks_view;
use crate::network::message::Message;
use crate::network::message::MessageView;
use crate::network::message::optional_view;
use crate::transaction::bytes_encoding;
use crate::transaction::content_view;
use crate::transaction::inputs_view;
use crate::transaction::outputs_view;
use crate::transaction::Input;
use crate::transaction::InputView;
use crate::transaction::Output;
use crate::transaction::OutputView;
use crate::transaction::SignedTrans;
use crate::transaction::SignedTransView;
use crate::transaction::Transaction;
use crate::transaction::TransactionView;

verus! {

/// Canonical bytes of a list of digests: the count, then each digest.
pub open spec fn digests_encoding(digests: Seq<Seq<u8>>) -> Seq<u8> {
    len_prefix(digests.len()) + concat_all(digests)
}

/// Canonical bytes of a list of signed transactions: the count, then each.
pub open spec fn content_encoding(content: Seq<SignedTransView>) -> Seq<u8> {
    len_prefix(content.len()) + concat_all(content.map_values(|t: SignedTransView| t.encoding()))
}

/// Canonical bytes of a block: the header, then the content.
pub open spec fn block_encoding(block: BlockView) -> Seq<u8> {
    block.header.encoding() + content_encoding(block.content)
}

/// Canonical bytes of a list of blocks: the count, then each block.
pub open spec fn blocks_encoding(blocks: Seq<BlockView>) -> Seq<u8> {
    len_prefix(blocks.len()) + concat_all(blocks.map_values(|b: BlockView| block_encoding(b)))
}

/// Canonical bytes of a text: the length of its UTF-8 form, then that form.
pub open spec fn text_encoding(text: Seq<char>) -> Seq<u8> {
    bytes_encoding(encode_utf8(text))
}

/// The number of a message's kind.
pub open spec fn tag_of(m: MessageView) -> nat {
    match m {
        MessageView::Ping(_) => 0,
        MessageView::Pong(_) => 1,
        MessageView::NewBlockHashes(_) => 2,
        MessageView::GetBlocks(_) => 3,
        MessageView::Blocks(_) => 4,
        MessageView::NewTransactionHashes(_) => 5,
        MessageView::GetTransactions(_) => 6,
        MessageView::Transactions(_) => 7,
    }
}

/// Canonical bytes of what a message holds.
pub open spec fn payload_of(m: MessageView) -> Seq<u8> {
    match m {
        MessageView::Ping(nonce) => le_bytes(nonce as nat, 8),
        MessageView::Pong(text) => text_encoding(text),
        MessageView::NewBlockHashes(hashes) => digests_encoding(hashes),
        MessageView::GetBlocks(hashes) => digests_encoding(hashes),
        MessageView::Blocks(blocks) => blocks_encoding(blocks),
        MessageView::NewTransactionHashes(hashes) => digests_encoding(hashes),
        MessageView::GetTransactions(hashes) => digests_encoding(hashes),
        MessageView::Transactions(content) => content_encoding(content),
    }
}

/// The frame of a message.
pub open spec fn frame_of(m: MessageView) -> Seq<u8> {
    le_bytes(tag_of(m), 4) + payload_of(m)
}

/// Reading a digest: the next 32 bytes.
pub open spec fn parse_digest(b: Seq<u8>) -> Option<(Seq<u8>, nat)> {
    if b.len() >= 32 {
        Some((b.take(32), 32nat))
    } else {
        None
    }
}

/// The reader of digests, as a value.
pub open spec fn digest_parser() -> spec_fn(Seq<u8>) -> Option<(Seq<u8>, nat)> {
    |b: Seq<u8>| parse_digest(b)
}

/// Reading an input: the index, then the digest referred to.
pub open spec fn parse_input(b: Seq<u8>) -> Option<(InputView, nat)> {
    if b.len() >= 33 {
        Some((InputView { index: b[0], previous_hash: b.subrange(1, 33) }, 33nat))
    } else {
        None
    }
}

/// The reader of inputs, as a value.
pub open spec fn input_parser() -> spec_fn(Seq<u8>) -> Option<(InputView, nat)> {
    |b: Seq<u8>| parse_input(b)
}

/// Reading an output: the amount, then the address.
pub open spec fn parse_output(b: Seq<u8>) -> Option<(OutputView, nat)> {
    if b.len() >= 21 {
        Some((OutputView { balance: b[0], address: b.subrange(1, 21) }, 21nat))
    } else {
        None
    }
}

/// The reader of outputs, as a value.
pub open spec fn output_parser() -> spec_fn(Seq<u8>) -> Option<(OutputView, nat)> {
    |b: Seq<u8>| parse_output(b)
}

/// Reading a transaction: the fields in order.
#[verifier::opaque]
pub open spec fn parse_transaction(b: Seq<u8>) -> Option<(TransactionView, nat)> {
    if b.len() < 32 {
        None
    } else {
        match parse_list(b.skip(32), input_parser()) {
            Some((inputs, used)) => match parse_list(b.skip((32 + used) as int), output_parser()) {
                Some((outputs, more)) => Some(
                    (TransactionView { id: b.take(32), inputs, outputs }, 32 + used + more),
                ),
                None => None,
            },
            None => None,
        }
    }
}

/// Reading a signed transaction: the fields in order.
#[verifier::opaque]
pub open spec fn parse_signed(b: Seq<u8>) -> Option<(SignedTransView, nat)> {
    match parse_transaction(b) {
        Some((transaction, used)) => match parse_bytes(b.skip(used as int)) {
            Some((signature, more)) => match parse_bytes(b.skip((used + more) as int)) {
                Some((public_key, last)) => Some(
                    (SignedTransView { transaction, signature, public_key }, used + more + last),
                ),
                None => None,
            },
            None => None,
        },
        None => None,
    }
}

/// The reader of signed transactions, as a value.
pub open spec fn signed_parser() -> spec_fn(Seq<u8>) -> Option<(SignedTransView, nat)> {
    |b: Seq<u8>| parse_signed(b)
}

/// Reading a header: the fields in order, 116 bytes in all.
pub open spec fn parse_header(b: Seq<u8>) -> Option<(HeaderView, nat)> {
    if b.len() >= 116 {
        Some(
            (
                HeaderView {
                    parent: b.subrange(0, 32),
                    nonce: le_value(b.subrange(32, 36)) as u32,
                    difficulty: b.subrange(36, 68),
                    timestamp: le_value(b.subrange(68, 84)) as u128,
                    merkle_root: b.subrange(84, 116),
                },
                116nat,
            ),
        )
    } else {
        None
    }
}

/// Reading a block: the header, then the content.
#[verifier::opaque]
pub open spec fn parse_block(b: Seq<u8>) -> Option<(BlockView, nat)> {
    match parse_header(b) {
        Some((header, used)) => match parse_list(b.skip(used as int), signed_parser()) {
            Some((content, more)) => Some((BlockView { header, content }, used + more)),
            None => None,
        },
        None => None,
    }
}

/// The reader of blocks, as a value.
pub open spec fn block_parser() -> spec_fn(Seq<u8>) -> Option<(BlockView, nat)> {
    |b: Seq<u8>| parse_block(b)
}

/// Reading a text: a byte string that is valid UTF-8.
pub open spec fn parse_text(b: Seq<u8>) -> Option<(Seq<char>, nat)> {
    match parse_bytes(b) {
        Some((bytes, used)) => if valid_utf8(bytes) {
            Some((decode_utf8(bytes), used))
        } else {
            None
        },
        None => None,
    }
}

/// Reading what a message of the kind numbered `tag` holds.
pub open spec fn parse_payload(tag: nat, b: Seq<u8>) -> Option<(MessageView, nat)> {
    if tag == 0 {
        if b.len() >= 8 {
            Some((MessageView::Ping(le_value(b.take(8)) as u64), 8nat))
        } else {
            None
        }
    } else if tag == 1 {
        match parse_text(b) {
            Some((text, used)) => Some((MessageView::Pong(text), used)),
            None => None,
        }
    } else if tag == 2 {
        match parse_list(b, digest_parser()) {
            Some((hashes, used)) => Some((MessageView::NewBlockHashes(hashes), used)),
            None => None,
        }
    } else if tag == 3 {
        match parse_list(b, digest_parser()) {
            Some((hashes, used)) => Some((MessageView::GetBlocks(hashes), used)),
            None => None,
        }
    } else if tag == 4 {
        match parse_list(b, block_parser()) {
            Some((blocks, used)) => Some((MessageView::Blocks(blocks), used)),
            None => None,
        }
    } else if tag == 5 {
        match parse_list(b, digest_parser()) {
            Some((hashes, used)) => Some((MessageView::NewTransactionHashes(hashes), used)),
            None => None,
        }
    } else if tag == 6 {
        match parse_list(b, digest_parser()) {
            Some((hashes, used)) => Some((MessageView::GetTransactions(hashes), used)),
            None => None,
        }
    } else if tag == 7 {
        match parse_list(b, signed_parser()) {
            Some((content, used)) => Some((MessageView::Transactions(content), used)),
            None => None,
        }
    } else {
        None
    }
}

/// Reading a frame: the message at its start and the number of bytes that
/// the message took, or nothing for a malformed frame.
pub open spec fn parse_frame(b: Seq<u8>) -> Option<(MessageView, nat)> {
    if b.len() < 4 {
        None
    } else {
        match parse_payload(le_value(b.take(4)), b.skip(4)) {
            Some((m, used)) => Some((m, 4 + used)),
            None => None,
        }
    }
}

/// The message of a frame, or nothing for a malformed frame.
pub open spec fn message_of(b: Seq<u8>) -> Option<MessageView> {
    match parse_frame(b) {
        Some((m, _)) => Some(m),
        None => None,
    }
}

/// The text of a byte string by `String::from_utf8` of std: bytes that
/// are valid UTF-8 give the text they encode, others give nothing.
#[verifier::external_body]
fn text_of(bytes: Vec<u8>) -> (text: Option<String>)
    ensures
        text is Some == valid_utf8(bytes@),
        text is Some ==> text->0@ == decode_utf8(bytes@),
{
    String::from_utf8(bytes).ok()
}

/// Appends the canonical bytes of a list of digests.
fn push_digests(out: &mut Vec<u8>, digests: &Vec<H256>)
    ensures
        final(out)@ == old(out)@ + digests_encoding(digests_view(digests@)),
{
    push_len(out, digests.len());
    let ghost head = out@;
    let ghost all = digests_view(digests@);
    let mut i: usize = 0;
    proof {
        assert(all.subrange(0, 0) =~= Seq::<Seq<u8>>::empty());
        assert(out@ =~= head + concat_all(all.subrange(0, 0)));
    }
    while i < digests.len()
        invariant
            i <= digests.len(),
            all == digests_view(digests@),
            out@ == head + concat_all(all.subrange(0, i as int)),
        decreases digests.len() - i,
    {
        push_all(out, digests[i].bytes.as_slice());
        proof {
            lemma_concat_all_push(all.subrange(0, i as int), all[i as int]);
            assert(all.subrange(0, i as int).push(all[i as int]) =~= all.subrange(0, i + 1));
            assert(out@ =~= head + concat_all(all.subrange(0, i + 1)));
        }
        i += 1;
    }
    proof {
        assert(all.subrange(0, i as int) =~= all);
        assert(out@ =~= old(out)@ + digests_encoding(all));
    }
}

/// Appends the canonical bytes of a list of signed transactions.
fn push_content(out: &mut Vec<u8>, content: &Vec<SignedTrans>)
    ensures
        final(out)@ == old(out)@ + content_encoding(content_view(content@)),
{
    push_len(out, content.len());
    let ghost head = out@;
    let ghost all = content_view(content@).map_values(|t: SignedTransView| t.encoding());
    let mut i: usize = 0;
    proof {
        assert(all.subrange(0, 0) =~= Seq::<Seq<u8>>::empty());
        assert(out@ =~= head + concat_all(all.subrange(0, 0)));
    }
    while i < content.len()
        invariant
            i <= content.len(),
            all == content_view(content@).map_values(|t: SignedTransView| t.encoding()),
            out@ == head + concat_all(all.subrange(0, i as int)),
        decreases content.len() - i,
    {
        let bytes = content[i].encode();
        push_all(out, bytes.as_slice());
        proof {
            lemma_concat_all_push(all.subrange(0, i as int), all[i as int]);
            assert(all.subrange(0, i as int).push(all[i as int]) =~= all.subrange(0, i + 1));
            assert(out@ =~= head + concat_all(all.subrange(0, i + 1)));
        }
        i += 1;
    }
    proof {
        assert(all.subrange(0, i as int) =~= all);
        assert(out@ =~= old(out)@ + content_encoding(content_view(content@)));
    }
}

/// Appends the canonical bytes of a block.
fn push_block(out: &mut Vec<u8>, block: &Block)
    ensures
        final(out)@ == old(out)@ + block_encoding(block@),
{
    let header = block.header.encode();
    push_all(out, header.as_slice());
    push_content(out, &block.content);
    assert(out@ =~= old(out)@ + block_encoding(block@));
}

/// Appends the canonical bytes of a list of blocks.
fn push_blocks(out: &mut Vec<u8>, blocks: &Vec<Block>)
    ensures
        final(out)@ == old(out)@ + blocks_encoding(blocks_view(blocks@)),
{
    push_len(out, blocks.len());
    let ghost head = out@;
    let ghost all = blocks_view(blocks@).map_values(|b: BlockView| block_encoding(b));
    let mut i: usize = 0;
    proof {
        assert(all.subrange(0, 0) =~= Seq::<Seq<u8>>::empty());
        assert(out@ =~= head + concat_all(all.subrange(0, 0)));
    }
    while i < blocks.len()
        invariant
            i <= blocks.len(),
            all == blocks_view(blocks@).map_values(|b: BlockView| block_encoding(b)),
            out@ == head + concat_all(all.subrange(0, i as int)),
        decreases blocks.len() - i,
    {
        push_block(out, &blocks[i]);
        proof {
            lemma_concat_all_push(all.subrange(0, i as int), all[i as int]);
            assert(all.subrange(0, i as int).push(all[i as int]) =~= all.subrange(0, i + 1));
            assert(out@ =~= head + concat_all(all.subrange(0, i + 1)));
        }
        i += 1;
    }
    proof {
        assert(all.subrange(0, i as int) =~= all);
        assert(out@ =~= old(out)@ + blocks_encoding(blocks_view(blocks@)));
    }
}

/// The frame of a message. The message fits in its frame, so that the
/// frame is read back as the message.
pub fn encode(message: &Message) -> (frame: Vec<u8>)
    ensures
        frame@ == frame_of(message@),
        message_fits(message@),
        message_of(frame@) == Some(message@),
{
    let mut out: Vec<u8> = Vec::new();
    proof {
        lemma_radix_values();
    }
    match message {
        Message::Ping(nonce) => {
            push_le(&mut out, 0, 4);
            push_le(&mut out, *nonce as u128, 8);
        },
        Message::Pong(text) => {
            push_le(&mut out, 1, 4);
            let bytes = text.as_str().as_bytes();
            push_len(&mut out, bytes.len());
            push_all(&mut out, bytes);
        },
        Message::NewBlockHashes(hashes) => {
            push_le(&mut out, 2, 4);
            push_digests(&mut out, hashes);
            proof {
                lemma_held_digests_fit(*hashes);
            }
        },
        Message::GetBlocks(hashes) => {
            push_le(&mut out, 3, 4);
            push_digests(&mut out, hashes);
            proof {
                lemma_held_digests_fit(*hashes);
            }
        },
        Message::Blocks(blocks) => {
            push_le(&mut out, 4, 4);
            push_blocks(&mut out, blocks);
            proof {
                lemma_held_blocks_fit(*blocks);
            }
        },
        Message::NewTransactionHashes(hashes) => {
            push_le(&mut out, 5, 4);
            push_digests(&mut out, hashes);
            proof {
                lemma_held_digests_fit(*hashes);
            }
        },
        Message::GetTransactions(hashes) => {
            push_le(&mut out, 6, 4);
            push_digests(&mut out, hashes);
            proof {
                lemma_held_digests_fit(*hashes);
            }
        },
        Message::Transactions(content) => {
            push_le(&mut out, 7, 4);
            push_content(&mut out, content);
            proof {
                lemma_held_content_fits(*content);
            }
        },
    }
    proof {
        assert(out@ =~= frame_of(message@));
        lemma_frame_round_trip(message@, Seq::empty());
        assert(frame_of(message@) + Seq::<u8>::empty() =~= frame_of(message@));
    }
    out
}

/// A copy of the bytes from `from` up to `to`.
fn copy_range(bytes: &[u8], from: usize, to: usize) -> (r: Vec<u8>)
    requires
        from <= to <= bytes.len(),
    ensures
        r@ == bytes@.subrange(from as int, to as int),
{
    let mut r: Vec<u8> = Vec::new();
    let mut i: usize = from;
    proof {
        assert(r@ =~= bytes@.subrange(from as int, from as int));
    }
    while i < to
        invariant
            from <= i <= to <= bytes.len(),
            r@ == bytes@.subrange(from as int, i as int),
        decreases to - i,
    {
        r.push(bytes[i]);
        i += 1;
        proof {
            assert(r@ =~= bytes@.subrange(from as int, i as int));
        }
    }
    r
}

/// The digest in the 32 bytes from `pos` on.
fn digest_at(bytes: &[u8], pos: usize) -> (h: H256)
    requires
        pos + 32 <= bytes.len(),
    ensures
        h@ == bytes@.subrange(pos as int, pos + 32),
{
    let mut out = [0u8; 32];
    let mut i: usize = 0;
    while i < 32
        invariant
            i <= 32,
            pos + 32 <= bytes.len(),
            forall|j: int| 0 <= j < i ==> out@[j] == bytes@[pos + j],
        decreases 32 - i,
    {
        out[i] = bytes[pos + i];
        i += 1;
    }
    let h = H256 { bytes: out };
    proof {
        assert(h@ =~= bytes@.subrange(pos as int, pos + 32));
    }
    h
}

/// The address in the 20 bytes from `pos` on.
fn address_at(bytes: &[u8], pos: usize) -> (h: H160)
    requires
        pos + 20 <= bytes.len(),
    ensures
        h@ == bytes@.subrange(pos as int, pos + 20),
{
    let mut out = [0u8; 20];
    let mut i: usize = 0;
    while i < 20
        invariant
            i <= 20,
            pos + 20 <= bytes.len(),
            forall|j: int| 0 <= j < i ==> out@[j] == bytes@[pos + j],
        decreases 20 - i,
    {
        out[i] = bytes[pos + i];
        i += 1;
    }
    let h = H160 { bytes: out };
    proof {
        assert(h@ =~= bytes@.subrange(pos as int, pos + 20));
    }
    h
}

/// Reads a digest that starts at `pos`.
fn read_digest(bytes: &[u8], pos: usize) -> (r: Option<(H256, usize)>)
    requires
        pos <= bytes.len(),
    ensures
        match (r, parse_digest(bytes@.skip(pos as int))) {
            (Some((x, end)), Some((v, k))) => x@ == v && end == pos + k && end <= bytes.len(),
            (None, None) => true,
            _ => false,
        },
{
    if bytes.len() - pos < 32 {
        return None;
    }
    let h = digest_at(bytes, pos);
    proof {
        assert(bytes@.skip(pos as int).take(32) =~= bytes@.subrange(pos as int, pos + 32));
    }
    Some((h, pos + 32))
}

/// Reads an input that starts at `pos`.
fn read_input(bytes: &[u8], pos: usize) -> (r: Option<(Input, usize)>)
    requires
        pos <= bytes.len(),
    ensures
        match (r, parse_input(bytes@.skip(pos as int))) {
            (Some((x, end)), Some((v, k))) => x@ == v && end == pos + k && end <= bytes.len(),
            (None, None) => true,
            _ => false,
        },
{
    if bytes.len() - pos < 33 {
        return None;
    }
    let input = Input { index: bytes[pos], previous_hash: digest_at(bytes, pos + 1) };
    proof {
        assert(bytes@.skip(pos as int).subrange(1, 33) =~= bytes@.subrange(pos + 1, pos + 33));
    }
    Some((input, pos + 33))
}

/// Reads an output that starts at `pos`.
fn read_output(bytes: &[u8], pos: usize) -> (r: Option<(Output, usize)>)
    requires
        pos <= bytes.len(),
    ensures
        match (r, parse_output(bytes@.skip(pos as int))) {
            (Some((x, end)), Some((v, k))) => x@ == v && end == pos + k && end <= bytes.len(),
            (None, None) => true,
            _ => false,
        },
{
    if bytes.len() - pos < 21 {
        return None;
    }
    let output = Output { balance: bytes[pos], address: address_at(bytes, pos + 1) };
    proof {
        assert(bytes@.skip(pos as int).subrange(1, 21) =~= bytes@.subrange(pos + 1, pos + 21));
    }
    Some((output, pos + 21))
}

/// Reads a byte string that starts at `pos`.
fn read_byte_string(bytes: &[u8], pos: usize) -> (r: Option<(Vec<u8>, usize)>)
    requires
        pos <= bytes.len(),
    ensures
        match (r, parse_bytes(bytes@.skip(pos as int))) {
            (Some((x, end)), Some((v, k))) => x@ == v && end == pos + k && end <= bytes.len(),
            (None, None) => true,
            _ => false,
        },
{
    if bytes.len() - pos < 8 {
        return None;
    }
    let n = read_le(bytes, pos, 8);
    proof {
        assert(bytes@.skip(pos as int).take(8) =~= bytes@.subrange(pos as int, pos + 8));
    }
    if n > (bytes.len() - pos - 8) as u128 {
        return None;
    }
    let end = pos + 8 + n as usize;
    let v = copy_range(bytes, pos + 8, end);
    proof {
        assert(bytes@.skip(pos as int).subrange(8, 8 + n as int) =~= bytes@.subrange(
            pos + 8,
            end as int,
        ));
    }
    Some((v, end))
}

/// Reads a list of digests that starts at `pos`.
fn read_digests(bytes: &[u8], pos: usize) -> (r: Option<(Vec<H256>, usize)>)
    requires
        pos <= bytes.len(),
    ensures
        match (r, parse_list(bytes@.skip(pos as int), digest_parser())) {
            (Some((items, end)), Some((v, k))) => digests_view(items@) == v && end == pos + k && end
                <= bytes.len(),
            (None, None) => true,
            _ => false,
        },
{
    if bytes.len() - pos < 8 {
        return None;
    }
    let n = read_le(bytes, pos, 8);
    let start = pos + 8;
    let ghost b = bytes@.skip(start as int);
    let ghost item = digest_parser();
    proof {
        assert(bytes@.skip(pos as int).take(8) =~= bytes@.subrange(pos as int, pos + 8));
        assert(bytes@.skip(pos as int).skip(8) =~= b);
    }
    let mut items: Vec<H256> = Vec::new();
    let mut at: usize = start;
    let mut i: u128 = 0;
    proof {
        assert(digests_view(items@) =~= Seq::<Seq<u8>>::empty());
    }
    while i < n
        invariant
            start <= at <= bytes.len(),
            start == pos + 8,
            i <= n,
            n == le_value(bytes@.skip(pos as int).take(8)),
            b == bytes@.skip(pos as int).skip(8),
            b == bytes@.skip(start as int),
            item == digest_parser(),
            parse_items(b, i as nat, item) == Some((digests_view(items@), (at - start) as nat)),
        decreases n - i,
    {
        let ghost before = digests_view(items@);
        proof {
            assert(b.skip(at - start) =~= bytes@.skip(at as int));
        }
        match read_digest(bytes, at) {
            Some((x, next)) => {
                proof {
                    lemma_parse_items_next(b, i as nat, item, before, (at - start) as nat);
                }
                items.push(x);
                at = next;
                i += 1;
                proof {
                    assert(digests_view(items@) =~= before.push(x@));
                }
            },
            None => {
                proof {
                    lemma_parse_items_next(b, i as nat, item, before, (at - start) as nat);
                    lemma_parse_items_fails(b, (i + 1) as nat, n as nat, item);
                }
                return None;
            },
        }
    }
    Some((items, at))
}

/// Reads a list of inputs that starts at `pos`.
fn read_inputs(bytes: &[u8], pos: usize) -> (r: Option<(Vec<Input>, usize)>)
    requires
        pos <= bytes.len(),
    ensures
        match (r, parse_list(bytes@.skip(pos as int), input_parser())) {
            (Some((items, end)), Some((v, k))) => inputs_view(items@) == v && end == pos + k && end
                <= bytes.len(),
            (None, None) => true,
            _ => false,
        },
{
    if bytes.len() - pos < 8 {
        return None;
    }
    let n = read_le(bytes, pos, 8);
    let start = pos + 8;
    let ghost b = bytes@.skip(start as int);
    let ghost item = input_parser();
    proof {
        assert(bytes@.skip(pos as int).take(8) =~= bytes@.subrange(pos as int, pos + 8));
        assert(bytes@.skip(pos as int).skip(8) =~= b);
    }
    let mut items: Vec<Input> = Vec::new();
    let mut at: usize = start;
    let mut i: u128 = 0;
    proof {
        assert(inputs_view(items@) =~= Seq::<InputView>::empty());
    }
    while i < n
        invariant
            start <= at <= bytes.len(),
            start == pos + 8,
            i <= n,
            n == le_value(bytes@.skip(pos as int).take(8)),
            b == bytes@.skip(pos as int).skip(8),
            b == bytes@.skip(start as int),
            item == input_parser(),
            parse_items(b, i as nat, item) == Some((inputs_view(items@), (at - start) as nat)),
        decreases n - i,
    {
        let ghost before = inputs_view(items@);
        proof {
            assert(b.skip(at - start) =~= bytes@.skip(at as int));
        }
        match read_input(bytes, at) {
            Some((x, next)) => {
                proof {
                    lemma_parse_items_next(b, i as nat, item, before, (at - start) as nat);
                }
                items.push(x);
                at = next;
                i += 1;
                proof {
                    assert(inputs_view(items@) =~= before.push(x@));
                }
            },
            None => {
                proof {
                    lemma_parse_items_next(b, i as nat, item, before, (at - start) as nat);
                    lemma_parse_items_fails(b, (i + 1) as nat, n as nat, item);
                }
                return None;
            },
        }
    }
    Some((items, at))
}

/// Reads a list of outputs that starts at `pos`.
fn read_outputs(bytes: &[u8], pos: usize) -> (r: Option<(Vec<Output>, usize)>)
    requires
        pos <= bytes.len(),
    ensures
        match (r, parse_list(bytes@.skip(pos as int), output_parser())) {
            (Some((items, end)), Some((v, k))) => outputs_view(items@) == v && end == pos + k && end
                <= bytes.len(),
            (None, None) => true,
            _ => false,
        },
{
    if bytes.len() - pos < 8 {
        return None;
    }
    let n = read_le(bytes, pos, 8);
    let start = pos + 8;
    let ghost b = bytes@.skip(start as int);
    let ghost item = output_parser();
    proof {
        assert(bytes@.skip(pos as int).take(8) =~= bytes@.subrange(pos as int, pos + 8));
        assert(bytes@.skip(pos as int).skip(8) =~= b);
    }
    let mut items: Vec<Output> = Vec::new();
    let mut at: usize = start;
    let mut i: u128 = 0;
    proof {
        assert(outputs_view(items@) =~= Seq::<OutputView>::empty());
    }
    while i < n
        invariant
            start <= at <= bytes.len(),
            start == pos + 8,
            i <= n,
            n == le_value(bytes@.skip(pos as int).take(8)),
            b == bytes@.skip(pos as int).skip(8),
            b == bytes@.skip(start as int),
            item == output_parser(),
            parse_items(b, i as nat, item) == Some((outputs_view(items@), (at - start) as nat)),
        decreases n - i,
    {
        let ghost before = outputs_view(items@);
        proof {
            assert(b.skip(at - start) =~= bytes@.skip(at as int));
        }
        match read_output(bytes, at) {
            Some((x, next)) => {
                proof {
                    lemma_parse_items_next(b, i as nat, item, before, (at - start) as nat);
                }
                items.push(x);
                at = next;
                i += 1;
                proof {
                    assert(outputs_view(items@) =~= before.push(x@));
                }
            },
            None => {
                proof {
                    lemma_parse_items_next(b, i as nat, item, before, (at - start) as nat);
                    lemma_parse_items_fails(b, (i + 1) as nat, n as nat, item);
                }
                return None;
            },
        }
    }
    Some((items, at))
}

/// Reads a transaction that starts at `pos`.
fn read_transaction(bytes: &[u8], pos: usize) -> (r: Option<(Transaction, usize)>)
    requires
        pos <= bytes.len(),
    ensures
        match (r, parse_transaction(bytes@.skip(pos as int))) {
            (Some((x, end)), Some((v, k))) => x@ == v && end == pos + k && end <= bytes.len(),
            (None, None) => true,
            _ => false,
        },
{
    let ghost b = bytes@.skip(pos as int);
    proof {
        reveal(parse_transaction);
    }
    let (id, after_id) = match read_digest(bytes, pos) {
        Some(found) => found,
        None => {
            return None;
        },
    };
    proof {
        assert(b.skip(32) =~= bytes@.skip(after_id as int));
    }
    let (inputs, after_inputs) = match read_inputs(bytes, after_id) {
        Some(found) => found,
        None => {
            return None;
        },
    };
    proof {
        assert(b.skip(after_inputs - pos) =~= bytes@.skip(after_inputs as int));
    }
    let (outputs, end) = match read_outputs(bytes, after_inputs) {
        Some(found) => found,
        None => {
            return None;
        },
    };
    Some((Transaction { id, inputs, outputs }, end))
}

/// Reads a signed transaction that starts at `pos`.
fn read_signed(bytes: &[u8], pos: usize) -> (r: Option<(SignedTrans, usize)>)
    requires
        pos <= bytes.len(),
    ensures
        match (r, parse_signed(bytes@.skip(pos as int))) {
            (Some((x, end)), Some((v, k))) => x@ == v && end == pos + k && end <= bytes.len(),
            (None, None) => true,
            _ => false,
        },
{
    let ghost b = bytes@.skip(pos as int);
    proof {
        reveal(parse_signed);
    }
    let (transaction, after_transaction) = match read_transaction(bytes, pos) {
        Some(found) => found,
        None => {
            return None;
        },
    };
    proof {
        assert(b.skip(after_transaction - pos) =~= bytes@.skip(after_transaction as int));
    }
    let (signature, after_signature) = match read_byte_string(bytes, after_transaction) {
        Some(found) => found,
        None => {
            return None;
        },
    };
    proof {
        assert(b.skip(after_signature - pos) =~= bytes@.skip(after_signature as int));
    }
    let (public_key, end) = match read_byte_string(bytes, after_signature) {
        Some(found) => found,
        None => {
            return None;
        },
    };
    Some((SignedTrans { transaction, signature, public_key }, end))
}

/// Reads a list of signed transactions that starts at `pos`.
fn read_content(bytes: &[u8], pos: usize) -> (r: Option<(Vec<SignedTrans>, usize)>)
    requires
        pos <= bytes.len(),
    ensures
        match (r, parse_list(bytes@.skip(pos as int), signed_parser())) {
            (Some((items, end)), Some((v, k))) => content_view(items@) == v && end == pos + k && end
                <= bytes.len(),
            (None, None) => true,
            _ => false,
        },
{
    if bytes.len() - pos < 8 {
        return None;
    }
    let n = read_le(bytes, pos, 8);
    let start = pos + 8;
    let ghost b = bytes@.skip(start as int);
    let ghost item = signed_parser();
    proof {
        assert(bytes@.skip(pos as int).take(8) =~= bytes@.subrange(pos as int, pos + 8));
        assert(bytes@.skip(pos as int).skip(8) =~= b);
    }
    let mut items: Vec<SignedTrans> = Vec::new();
    let mut at: usize = start;
    let mut i: u128 = 0;
    proof {
        assert(content_view(items@) =~= Seq::<SignedTransView>::empty());
    }
    while i < n
        invariant
            start <= at <= bytes.len(),
            start == pos + 8,
            i <= n,
            n == le_value(bytes@.skip(pos as int).take(8)),
            b == bytes@.skip(pos as int).skip(8),
            b == bytes@.skip(start as int),
            item == signed_parser(),
            parse_items(b, i as nat, item) == Some((content_view(items@), (at - start) as nat)),
        decreases n - i,
    {
        let ghost before = content_view(items@);
        proof {
            assert(b.skip(at - start) =~= bytes@.skip(at as int));
        }
        match read_signed(bytes, at) {
            Some((x, next)) => {
                proof {
                    lemma_parse_items_next(b, i as nat, item, before, (at - start) as nat);
                }
                items.push(x);
                at = next;
                i += 1;
                proof {
                    assert(content_view(items@) =~= before.push(x@));
                }
            },
            None => {
                proof {
                    lemma_parse_items_next(b, i as nat, item, before, (at - start) as nat);
                    lemma_parse_items_fails(b, (i + 1) as nat, n as nat, item);
                }
                return None;
            },
        }
    }
    Some((items, at))
}

/// Reads a header that starts at `pos`.
fn read_header(bytes: &[u8], pos: usize) -> (r: Option<(Header, usize)>)
    requires
        pos <= bytes.len(),
    ensures
        match (r, parse_header(bytes@.skip(pos as int))) {
            (Some((x, end)), Some((v, k))) => x@ == v && end == pos + k && end <= bytes.len(),
            (None, None) => true,
            _ => false,
        },
{
    if bytes.len() - pos < 116 {
        return None;
    }
    let ghost b = bytes@.skip(pos as int);
    proof {
        assert(b.subrange(0, 32) =~= bytes@.subrange(pos as int, pos + 32));
        assert(b.subrange(32, 36) =~= bytes@.subrange(pos + 32, pos + 32 + 4));
        assert(b.subrange(36, 68) =~= bytes@.subrange(pos + 36, pos + 36 + 32));
        assert(b.subrange(68, 84) =~= bytes@.subrange(pos + 68, pos + 68 + 16));
        assert(b.subrange(84, 116) =~= bytes@.subrange(pos + 84, pos + 84 + 32));
        lemma_le_value_bound(b.subrange(32, 36));
        lemma_le_value_bound(b.subrange(68, 84));
        lemma_radix_values();
    }
    let header = Header {
        parent: digest_at(bytes, pos),
        nonce: read_le(bytes, pos + 32, 4) as u32,
        difficulty: digest_at(bytes, pos + 36),
        timestamp: read_le(bytes, pos + 68, 16),
        merkle_root: digest_at(bytes, pos + 84),
    };
    Some((header, pos + 116))
}

/// Reads a block that starts at `pos`.
fn read_block(bytes: &[u8], pos: usize) -> (r: Option<(Block, usize)>)
    requires
        pos <= bytes.len(),
    ensures
        match (r, parse_block(bytes@.skip(pos as int))) {
            (Some((x, end)), Some((v, k))) => x@ == v && end == pos + k && end <= bytes.len(),
            (None, None) => true,
            _ => false,
        },
{
    let ghost b = bytes@.skip(pos as int);
    proof {
        reveal(parse_block);
    }
    let (header, after_header) = match read_header(bytes, pos) {
        Some(found) => found,
        None => {
            return None;
        },
    };
    proof {
        assert(b.skip(after_header - pos) =~= bytes@.skip(after_header as int));
    }
    let (content, end) = match read_content(bytes, after_header) {
        Some(found) => found,
        None => {
            return None;
        },
    };
    Some((Block { header, content }, end))
}

/// Reads a list of blocks that starts at `pos`.
fn read_blocks(bytes: &[u8], pos: usize) -> (r: Option<(Vec<Block>, usize)>)
    requires
        pos <= bytes.len(),
    ensures
        match (r, parse_list(bytes@.skip(pos as int), block_parser())) {
            (Some((items, end)), Some((v, k))) => blocks_view(items@) == v && end == pos + k && end
                <= bytes.len(),
            (None, None) => true,
            _ => false,
        },
{
    if bytes.len() - pos < 8 {
        return None;
    }
    let n = read_le(bytes, pos, 8);
    let start = pos + 8;
    let ghost b = bytes@.skip(start as int);
    let ghost item = block_parser();
    proof {
        assert(bytes@.skip(pos as int).take(8) =~= bytes@.subrange(pos as int, pos + 8));
        assert(bytes@.skip(pos as int).skip(8) =~= b);
    }
    let mut items: Vec<Block> = Vec::new();
    let mut at: usize = start;
    let mut i: u128 = 0;
    proof {
        assert(blocks_view(items@) =~= Seq::<BlockView>::empty());
    }
    while i < n
        invariant
            start <= at <= bytes.len(),
            start == pos + 8,
            i <= n,
            n == le_value(bytes@.skip(pos as int).take(8)),
            b == bytes@.skip(pos as int).skip(8),
            b == bytes@.skip(start as int),
            item == block_parser(),
            parse_items(b, i as nat, item) == Some((blocks_view(items@), (at - start) as nat)),
        decreases n - i,
    {
        let ghost before = blocks_view(items@);
        proof {
            assert(b.skip(at - start) =~= bytes@.skip(at as int));
        }
        match read_block(bytes, at) {
            Some((x, next)) => {
                proof {
                    lemma_parse_items_next(b, i as nat, item, before, (at - start) as nat);
                }
                items.push(x);
                at = next;
                i += 1;
                proof {
                    assert(blocks_view(items@) =~= before.push(x@));
                }
            },
            None => {
                proof {
                    lemma_parse_items_next(b, i as nat, item, before, (at - start) as nat);
                    lemma_parse_items_fails(b, (i + 1) as nat, n as nat, item);
                }
                return None;
            },
        }
    }
    Some((items, at))
}

/// Reads a text that starts at `pos`.
fn read_text(bytes: &[u8], pos: usize) -> (r: Option<(String, usize)>)
    requires
        pos <= bytes.len(),
    ensures
        match (r, parse_text(bytes@.skip(pos as int))) {
            (Some((x, end)), Some((v, k))) => x@ == v && end == pos + k && end <= bytes.len(),
            (None, None) => true,
            _ => false,
        },
{
    let (raw, end) = match read_byte_string(bytes, pos) {
        Some(found) => found,
        None => {
            return None;
        },
    };
    match text_of(raw) {
        Some(text) => Some((text, end)),
        None => None,
    }
}

/// Reads the message at the start of a frame; gives nothing for a
/// malformed frame.
pub fn decode(frame: &[u8]) -> (message: Option<Message>)
    ensures
        optional_view(message) == message_of(frame@),
{
    if frame.len() < 4 {
        return None;
    }
    let tag = read_le(frame, 0, 4);
    proof {
        assert(frame@.take(4) =~= frame@.subrange(0, 4));
        lemma_radix_values();
    }
    if tag == 0 {
        if frame.len() - 4 < 8 {
            return None;
        }
        let nonce = read_le(frame, 4, 8);
        proof {
            assert(frame@.skip(4).take(8) =~= frame@.subrange(4, 12));
            lemma_le_value_bound(frame@.subrange(4, 12));
        }
        Some(Message::Ping(nonce as u64))
    } else if tag == 1 {
        match read_text(frame, 4) {
            Some((text, _)) => Some(Message::Pong(text)),
            None => None,
        }
    } else if tag == 2 {
        match read_digests(frame, 4) {
            Some((hashes, _)) => Some(Message::NewBlockHashes(hashes)),
            None => None,
        }
    } else if tag == 3 {
        match read_digests(frame, 4) {
            Some((hashes, _)) => Some(Message::GetBlocks(hashes)),
            None => None,
        }
    } else if tag == 4 {
        match read_blocks(frame, 4) {
            Some((blocks, _)) => Some(Message::Blocks(blocks)),
            None => None,
        }
    } else if tag == 5 {
        match read_digests(frame, 4) {
            Some((hashes, _)) => Some(Message::NewTransactionHashes(hashes)),
            None => None,
        }
    } else if tag == 6 {
        match read_digests(frame, 4) {
            Some((hashes, _)) => Some(Message::GetTransactions(hashes)),
            None => None,
        }
    } else if tag == 7 {
        match read_content(frame, 4) {
            Some((content, _)) => Some(Message::Transactions(content)),
            None => None,
        }
    } else {
        None
    }
}

} // verus!