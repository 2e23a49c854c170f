//! Frames and messages are two forms of one thing: a message that was
//! written is read back as it was, and what is read from a frame is what
//! stands written at its start.

use vstd::prelude::*;
use vstd::utf8::decode_utf8_encode_utf8;
use vstd::utf8::encode_utf8;
use vstd::utf8::encode_utf8_decode_utf8;
use vstd::utf8::encode_utf8_valid_utf8;
use vstd::utf8::valid_utf8;
use crate::block::Block;
use crate::block::BlockView;
use crate::block::HeaderView;
use crate::crypto::hash::H256;
use crate::crypto::merkle::digests_view;
use crate::network::message::blocks_view;
use crate::transaction::content_view;
use crate::transaction::SignedTrans;
use crate::encoding::concat_all;
use crate::encoding::le_bytes;
use crate::encoding::le_value;
use crate::encoding::lemma_le_bytes_len;
use crate::encoding::lemma_le_bytes_of_value;
use crate::encoding::lemma_le_value_bound;
use crate::encoding::lemma_le_value_of_bytes;
use crate::encoding::lemma_parse_items_of_written;
use crate::encoding::lemma_parse_items_sound;
use crate::encoding::lemma_radix_values;
use crate::encoding::len_prefix;
use crate::encoding::parse_bytes;
use crate::encoding::parse_list;
use crate::encoding::radix;
use crate::network::frame::block_encoding;
use crate::network::frame::block_parser;
use crate::network::frame::blocks_encoding;
use crate::network::frame::content_encoding;
use crate::network::frame::digest_parser;
use crate::network::frame::digests_encoding;
use crate::network::frame::frame_of;
use crate::network::frame::input_parser;
use crate::network::frame::message_of;
use crate::network::frame::output_parser;
use crate::network::frame::parse_block;
use crate::network::frame::parse_digest;
use crate::network::frame::parse_frame;
use crate::network::frame::parse_header;
use crate::network::frame::parse_input;
use crate::network::frame::parse_output;
use crate::network::frame::parse_payload;
use crate::network::frame::parse_signed;
use crate::network::frame::parse_text;
use crate::network::frame::parse_transaction;
use crate::network::frame::payload_of;
use crate::network::frame::signed_parser;
use crate::network::frame::tag_of;
use crate::network::frame::text_encoding;
use crate::network::message::MessageView;
use crate::transaction::bytes_encoding;
use crate::transaction::inputs_encoding;
use crate::transaction::outputs_encoding;
use crate::transaction::InputView;
use crate::transaction::OutputView;
use crate::transaction::SignedTransView;
use crate::transaction::TransactionView;

verus! {

/// A count that eight bytes can hold.
pub open spec fn count_fits(n: nat) -> bool {
    n < radix(8)
}

/// A digest of the right width.
pub open spec fn digest_fits(d: Seq<u8>) -> bool {
    d.len() == 32
}

/// An input whose digest has the right width.
pub open spec fn input_fits(v: InputView) -> bool {
    v.previous_hash.len() == 32
}

/// An output whose address has the right width.
pub open spec fn output_fits(v: OutputView) -> bool {
    v.address.len() == 20
}

/// A transaction that can stand in a frame: widths right, counts within
/// eight bytes.
pub open spec fn transaction_fits(v: TransactionView) -> bool {
    &&& v.id.len() == 32
    &&& count_fits(v.inputs.len())
    &&& count_fits(v.outputs.len())
    &&& forall|i: int| 0 <= i < v.inputs.len() ==> input_fits(#[trigger] v.inputs[i])
    &&& forall|i: int| 0 <= i < v.outputs.len() ==> output_fits(#[trigger] v.outputs[i])
}

/// A signed transaction that can stand in a frame.
pub open spec fn signed_fits(v: SignedTransView) -> bool {
    &&& transaction_fits(v.transaction)
    &&& count_fits(v.signature.len())
    &&& count_fits(v.public_key.len())
}

/// A header whose digests have the right width.
pub open spec fn header_fits(v: HeaderView) -> bool {
    &&& v.parent.len() == 32
    &&& v.difficulty.len() == 32
    &&& v.merkle_root.len() == 32
}

/// A block that can stand in a frame.
pub open spec fn block_fits(v: BlockView) -> bool {
    &&& header_fits(v.header)
    &&& count_fits(v.content.len())
    &&& forall|i: int| 0 <= i < v.content.len() ==> signed_fits(#[trigger] v.content[i])
}

/// A list of digests that can stand in a frame.
pub open spec fn digests_fit(digests: Seq<Seq<u8>>) -> bool {
    &&& count_fits(digests.len())
    &&& forall|i: int| 0 <= i < digests.len() ==> digest_fits(#[trigger] digests[i])
}

/// A list of signed transactions that can stand in a frame.
pub open spec fn content_fits(content: Seq<SignedTransView>) -> bool {
    &&& count_fits(content.len())
    &&& forall|i: int| 0 <= i < content.len() ==> signed_fits(#[trigger] content[i])
}

/// A message that can stand in a frame.
pub open spec fn message_fits(m: MessageView) -> bool {
    match m {
        MessageView::Ping(_) => true,
        MessageView::Pong(text) => count_fits(encode_utf8(text).len()),
        MessageView::NewBlockHashes(hashes) => digests_fit(hashes),
        MessageView::GetBlocks(hashes) => digests_fit(hashes),
        MessageView::Blocks(blocks) => count_fits(blocks.len()) && forall|i: int|
            0 <= i < blocks.len() ==> block_fits(#[trigger] blocks[i]),
        MessageView::NewTransactionHashes(hashes) => digests_fit(hashes),
        MessageView::GetTransactions(hashes) => digests_fit(hashes),
        MessageView::Transactions(content) => content_fits(content),
    }
}

/// Digests held in memory can stand in a frame.
pub proof fn lemma_held_digests_fit(digests: Vec<H256>)
    ensures
        digests_fit(digests_view(digests@)),
{
    lemma_radix_values();
    assert(digests@.len() == digests.len());
    assert forall|i: int| 0 <= i < digests.len() implies digest_fits(
        #[trigger] digests_view(digests@)[i],
    ) by {
        assert(digests@[i]@.len() == 32);
    }
}

/// A signed transaction held in memory can stand in a frame.
pub proof fn lemma_held_signed_fits(signed: SignedTrans)
    ensures
        signed_fits(signed@),
{
    lemma_radix_values();
    let t = signed.transaction;
    assert(t.id@.len() == 32);
    assert(t.inputs@.len() == t.inputs.len());
    assert(t.outputs@.len() == t.outputs.len());
    assert(signed.signature@.len() == signed.signature.len());
    assert(signed.public_key@.len() == signed.public_key.len());
    assert forall|i: int| 0 <= i < t@.inputs.len() implies input_fits(#[trigger] t@.inputs[i]) by {
        assert(t.inputs@[i].previous_hash@.len() == 32);
    }
    assert forall|i: int| 0 <= i < t@.outputs.len() implies output_fits(
        #[trigger] t@.outputs[i],
    ) by {
        assert(t.outputs@[i].address@.len() == 20);
    }
}

/// Signed transactions held in memory can stand in a frame.
pub proof fn lemma_held_content_fits(content: Vec<SignedTrans>)
    ensures
        content_fits(content_view(content@)),
{
    lemma_radix_values();
    assert(content@.len() == content.len());
    assert forall|i: int| 0 <= i < content.len() implies signed_fits(
        #[trigger] content_view(content@)[i],
    ) by {
        lemma_held_signed_fits(content@[i]);
    }
}

/// A block held in memory can stand in a frame.
pub proof fn lemma_held_block_fits(block: Block)
    ensures
        block_fits(block@),
{
    lemma_held_content_fits(block.content);
    assert(block.header.parent@.len() == 32);
    assert(block.header.difficulty@.len() == 32);
    assert(block.header.merkle_root@.len() == 32);
}

/// Blocks held in memory can stand in a frame.
pub proof fn lemma_held_blocks_fit(blocks: Vec<Block>)
    ensures
        count_fits(blocks.len() as nat),
        forall|i: int| 0 <= i < blocks.len() ==> block_fits(#[trigger] blocks_view(blocks@)[i]),
{
    lemma_radix_values();
    assert(blocks@.len() == blocks.len());
    assert forall|i: int| 0 <= i < blocks.len() implies block_fits(
        #[trigger] blocks_view(blocks@)[i],
    ) by {
        lemma_held_block_fits(blocks@[i]);
    }
}

/// Written, then read: a byte string that fits is read back as it was,
/// whatever follows it.
proof fn lemma_bytes_round_trip(bytes: Seq<u8>, tail: Seq<u8>)
    requires
        count_fits(bytes.len()),
    ensures
        parse_bytes(bytes_encoding(bytes) + tail) == Some(
            (bytes, bytes_encoding(bytes).len()),
        ),
        bytes_encoding(bytes).len() == 8 + bytes.len(),
{
    let b = bytes_encoding(bytes) + tail;
    lemma_le_bytes_len(bytes.len(), 8);
    lemma_le_value_of_bytes(bytes.len(), 8);
    assert(b.take(8) =~= len_prefix(bytes.len()));
    assert(b.subrange(8, 8 + bytes.len() as int) =~= bytes);
}

/// Read, then written: a byte string that was read fits, and its bytes are
/// what stands at the start of the bytes read.
proof fn lemma_bytes_sound(b: Seq<u8>)
    ensures
        parse_bytes(b) matches Some((v, k)) ==> k <= b.len() && b.take(k as int)
            == bytes_encoding(v) && count_fits(v.len()),
{
    if let Some((v, k)) = parse_bytes(b) {
        lemma_le_bytes_of_value(b.take(8));
        lemma_le_value_bound(b.take(8));
        assert(b.take(k as int) =~= b.take(8) + v);
    }
}

/// Written, then read: a list that fits is read back as it was,
/// whatever follows it.
proof fn lemma_list_round_trip<T>(
    items: Seq<T>,
    written: spec_fn(T) -> Seq<u8>,
    item: spec_fn(Seq<u8>) -> Option<(T, nat)>,
    tail: Seq<u8>,
)
    requires
        count_fits(items.len()),
        forall|i: int, tail: Seq<u8>|
            0 <= i < items.len() ==> #[trigger] item(written(items[i]) + tail) == Some(
                (items[i], written(items[i]).len()),
            ),
    ensures
        parse_list(len_prefix(items.len()) + concat_all(items.map_values(written)) + tail, item)
            == Some((items, (8 + concat_all(items.map_values(written)).len()) as nat)),
        len_prefix(items.len()).len() == 8,
{
    let body = concat_all(items.map_values(written));
    let b = len_prefix(items.len()) + body + tail;
    lemma_le_bytes_len(items.len(), 8);
    lemma_le_value_of_bytes(items.len(), 8);
    assert(b.take(8) =~= len_prefix(items.len()));
    assert(b.skip(8) =~= body + tail);
    lemma_parse_items_of_written(items, written, item, tail);
}

/// Read, then written: a list that was read fits, and its bytes are
/// what stands at the start of the bytes read.
proof fn lemma_list_sound<T>(
    b: Seq<u8>,
    item: spec_fn(Seq<u8>) -> Option<(T, nat)>,
    written: spec_fn(T) -> Seq<u8>,
    good: spec_fn(T) -> bool,
)
    requires
        forall|x: Seq<u8>|
            (#[trigger] item(x)) matches Some((v, k)) ==> k <= x.len() && x.take(k as int)
                == written(v) && good(v),
    ensures
        parse_list(b, item) matches Some((items, k)) ==> {
            &&& k <= b.len()
            &&& b.take(k as int) == len_prefix(items.len()) + concat_all(items.map_values(written))
            &&& count_fits(items.len())
            &&& forall|i: int| 0 <= i < items.len() ==> good(#[trigger] items[i])
        },
{
    if let Some((items, k)) = parse_list(b, item) {
        let n = le_value(b.take(8));
        lemma_parse_items_sound(b.skip(8), n, item, written, good);
        lemma_le_bytes_of_value(b.take(8));
        lemma_le_value_bound(b.take(8));
        let used = (k - 8) as nat;
        assert(b.take(k as int) =~= b.take(8) + b.skip(8).take(used as int));
    }
}

/// Written, then read: a digest that fits is read back as it was,
/// whatever follows it.
proof fn lemma_digest_round_trip(d: Seq<u8>, tail: Seq<u8>)
    requires
        digest_fits(d),
    ensures
        parse_digest(d + tail) == Some((d, d.len())),
{
    assert((d + tail).take(32) =~= d);
}

/// Written, then read: a list of digests that fits is read back as it was,
/// whatever follows it.
proof fn lemma_digests_round_trip(digests: Seq<Seq<u8>>, tail: Seq<u8>)
    requires
        digests_fit(digests),
    ensures
        parse_list(digests_encoding(digests) + tail, digest_parser()) == Some(
            (digests, digests_encoding(digests).len()),
        ),
{
    let written = |d: Seq<u8>| d;
    assert forall|i: int, tail: Seq<u8>| 0 <= i < digests.len() implies #[trigger] digest_parser()(
        written(digests[i]) + tail,
    ) == Some((digests[i], written(digests[i]).len())) by {
        lemma_digest_round_trip(digests[i], tail);
    }
    assert(digests.map_values(written) =~= digests);
    lemma_list_round_trip(digests, written, digest_parser(), tail);
}

/// Read, then written: a list of digests that was read fits, and its bytes are
/// what stands at the start of the bytes read.
proof fn lemma_digests_sound(b: Seq<u8>)
    ensures
        parse_list(b, digest_parser()) matches Some((digests, k)) ==> k <= b.len() && b.take(
            k as int,
        ) == digests_encoding(digests) && digests_fit(digests),
{
    let written = |d: Seq<u8>| d;
    let good = |d: Seq<u8>| digest_fits(d);
    lemma_list_sound(b, digest_parser(), written, good);
    if let Some((digests, k)) = parse_list(b, digest_parser()) {
        assert(digests.map_values(written) =~= digests);
    }
}

/// Written, then read: an input that fits is read back as it was,
/// whatever follows it.
proof fn lemma_input_round_trip(v: InputView, tail: Seq<u8>)
    requires
        input_fits(v),
    ensures
        parse_input(v.encoding() + tail) == Some((v, v.encoding().len())),
{
    let b = v.encoding() + tail;
    assert(b.subrange(1, 33) =~= v.previous_hash);
}

/// Read, then written: an input that was read fits, and its bytes are
/// what stands at the start of the bytes read.
proof fn lemma_input_sound(b: Seq<u8>)
    ensures
        parse_input(b) matches Some((v, k)) ==> k <= b.len() && b.take(k as int) == v.encoding()
            && input_fits(v),
{
    if let Some((v, k)) = parse_input(b) {
        assert(b.take(33) =~= v.encoding());
    }
}

/// Written, then read: an output that fits is read back as it was,
/// whatever follows it.
proof fn lemma_output_round_trip(v: OutputView, tail: Seq<u8>)
    requires
        output_fits(v),
    ensures
        parse_output(v.encoding() + tail) == Some((v, v.encoding().len())),
{
    let b = v.encoding() + tail;
    assert(b.subrange(1, 21) =~= v.address);
}

/// Read, then written: an output that was read fits, and its bytes are
/// what stands at the start of the bytes read.
proof fn lemma_output_sound(b: Seq<u8>)
    ensures
        parse_output(b) matches Some((v, k)) ==> k <= b.len() && b.take(k as int)
            == v.encoding() && output_fits(v),
{
    if let Some((v, k)) = parse_output(b) {
        assert(b.take(21) =~= v.encoding());
    }
}

/// Written, then read: a transaction that fits is read back as it was,
/// whatever follows it.
proof fn lemma_transaction_round_trip(v: TransactionView, tail: Seq<u8>)
    requires
        transaction_fits(v),
    ensures
        parse_transaction(v.encoding() + tail) == Some((v, v.encoding().len())),
{
    reveal(parse_transaction);
    let b = v.encoding() + tail;
    let ins = |i: InputView| i.encoding();
    let outs = |o: OutputView| o.encoding();
    let inputs_bytes = inputs_encoding(v.inputs);
    let outputs_bytes = outputs_encoding(v.outputs);
    assert(b.take(32) =~= v.id);
    assert(b.skip(32) =~= len_prefix(v.inputs.len()) + concat_all(v.inputs.map_values(ins)) + (
    outputs_bytes + tail));
    assert forall|i: int, rest: Seq<u8>| 0 <= i < v.inputs.len() implies #[trigger] input_parser()(
        ins(v.inputs[i]) + rest,
    ) == Some((v.inputs[i], ins(v.inputs[i]).len())) by {
        lemma_input_round_trip(v.inputs[i], rest);
    }
    lemma_list_round_trip(v.inputs, ins, input_parser(), outputs_bytes + tail);
    assert(inputs_bytes =~= len_prefix(v.inputs.len()) + concat_all(v.inputs.map_values(ins)));
    let used = inputs_bytes.len();
    assert(b.skip((32 + used) as int) =~= len_prefix(v.outputs.len()) + concat_all(
        v.outputs.map_values(outs),
    ) + tail);
    assert forall|i: int, rest: Seq<u8>| 0 <= i < v.outputs.len() implies #[trigger] output_parser()(
        outs(v.outputs[i]) + rest,
    ) == Some((v.outputs[i], outs(v.outputs[i]).len())) by {
        lemma_output_round_trip(v.outputs[i], rest);
    }
    lemma_list_round_trip(v.outputs, outs, output_parser(), tail);
    assert(outputs_bytes =~= len_prefix(v.outputs.len()) + concat_all(v.outputs.map_values(outs)));
}

/// Read, then written: a transaction that was read fits, and its bytes are
/// what stands at the start of the bytes read.
proof fn lemma_transaction_sound(b: Seq<u8>)
    ensures
        parse_transaction(b) matches Some((v, k)) ==> k <= b.len() && b.take(k as int)
            == v.encoding() && transaction_fits(v),
{
    reveal(parse_transaction);
    if let Some((v, k)) = parse_transaction(b) {
        let ins = |i: InputView| i.encoding();
        let outs = |o: OutputView| o.encoding();
        assert forall|x: Seq<u8>| (#[trigger] input_parser()(x)) matches Some((i, n)) ==> n <= x.len()
        && x.take(n as int) == ins(i) && input_fits(i) by {
            lemma_input_sound(x);
        }
        assert forall|x: Seq<u8>| (#[trigger] output_parser()(x)) matches Some((o, n)) ==> n <= x.len()
        && x.take(n as int) == outs(o) && output_fits(o) by {
            lemma_output_sound(x);
        }
        lemma_list_sound(b.skip(32), input_parser(), ins, |i: InputView| input_fits(i));
        if let Some((inputs, used)) = parse_list(b.skip(32), input_parser()) {
            let rest = b.skip((32 + used) as int);
            lemma_list_sound(rest, output_parser(), outs, |o: OutputView| output_fits(o));
            if let Some((outputs, more)) = parse_list(rest, output_parser()) {
                assert(b.take(k as int) =~= b.take(32) + b.skip(32).take(used as int) + rest.take(
                    more as int,
                ));
                assert(v.encoding() =~= b.take(32) + b.skip(32).take(used as int) + rest.take(
                    more as int,
                ));
            }
        }
    }
}

/// Written, then read: a signed transaction that fits is read back as it was,
/// whatever follows it.
proof fn lemma_signed_round_trip(v: SignedTransView, tail: Seq<u8>)
    requires
        signed_fits(v),
    ensures
        parse_signed(v.encoding() + tail) == Some((v, v.encoding().len())),
{
    reveal(parse_signed);
    let b = v.encoding() + tail;
    let t = v.transaction.encoding();
    let s = bytes_encoding(v.signature);
    let p = bytes_encoding(v.public_key);
    assert(b =~= t + (s + p + tail));
    lemma_transaction_round_trip(v.transaction, s + p + tail);
    assert(b.skip(t.len() as int) =~= s + (p + tail));
    lemma_bytes_round_trip(v.signature, p + tail);
    assert(b.skip((t.len() + s.len()) as int) =~= p + tail);
    lemma_bytes_round_trip(v.public_key, tail);
}

/// Read, then written: a signed transaction that was read fits, and its bytes are
/// what stands at the start of the bytes read.
proof fn lemma_signed_sound(b: Seq<u8>)
    ensures
        parse_signed(b) matches Some((v, k)) ==> k <= b.len() && b.take(k as int)
            == v.encoding() && signed_fits(v),
{
    reveal(parse_signed);
    if let Some((v, k)) = parse_signed(b) {
        lemma_transaction_sound(b);
        if let Some((transaction, used)) = parse_transaction(b) {
            let after = b.skip(used as int);
            lemma_bytes_sound(after);
            if let Some((signature, more)) = parse_bytes(after) {
                let last = b.skip((used + more) as int);
                lemma_bytes_sound(last);
                if let Some((public_key, end)) = parse_bytes(last) {
                    assert(b.take(k as int) =~= b.take(used as int) + after.take(more as int)
                        + last.take(end as int));
                }
            }
        }
    }
}

/// Written, then read: a list of signed transactions that fits is read back as it was,
/// whatever follows it.
proof fn lemma_content_round_trip(content: Seq<SignedTransView>, tail: Seq<u8>)
    requires
        content_fits(content),
    ensures
        parse_list(content_encoding(content) + tail, signed_parser()) == Some(
            (content, content_encoding(content).len()),
        ),
{
    let written = |t: SignedTransView| t.encoding();
    assert forall|i: int, rest: Seq<u8>| 0 <= i < content.len() implies #[trigger] signed_parser()(
        written(content[i]) + rest,
    ) == Some((content[i], written(content[i]).len())) by {
        lemma_signed_round_trip(content[i], rest);
    }
    lemma_list_round_trip(content, written, signed_parser(), tail);
    assert(content_encoding(content) =~= len_prefix(content.len()) + concat_all(
        content.map_values(written),
    ));
}

/// Read, then written: a list of signed transactions that was read fits, and its bytes are
/// what stands at the start of the bytes read.
proof fn lemma_content_sound(b: Seq<u8>)
    ensures
        parse_list(b, signed_parser()) matches Some((content, k)) ==> k <= b.len() && b.take(
            k as int,
        ) == content_encoding(content) && content_fits(content),
{
    let written = |t: SignedTransView| t.encoding();
    assert forall|x: Seq<u8>| (#[trigger] signed_parser()(x)) matches Some((t, n)) ==> n <= x.len()
        && x.take(n as int) == written(t) && signed_fits(t) by {
        lemma_signed_sound(x);
    }
    lemma_list_sound(b, signed_parser(), written, |t: SignedTransView| signed_fits(t));
    if let Some((content, k)) = parse_list(b, signed_parser()) {
        assert(content_encoding(content) =~= len_prefix(content.len()) + concat_all(
            content.map_values(written),
        ));
    }
}

/// Written, then read: a header that fits is read back as it was,
/// whatever follows it.
proof fn lemma_header_round_trip(v: HeaderView, tail: Seq<u8>)
    requires
        header_fits(v),
    ensures
        parse_header(v.encoding() + tail) == Some((v, v.encoding().len())),
        v.encoding().len() == 116,
{
    let b = v.encoding() + tail;
    lemma_le_bytes_len(v.nonce as nat, 4);
    lemma_le_bytes_len(v.timestamp as nat, 16);
    lemma_radix_values();
    lemma_le_value_of_bytes(v.nonce as nat, 4);
    lemma_le_value_of_bytes(v.timestamp as nat, 16);
    assert(b.subrange(0, 32) =~= v.parent);
    assert(b.subrange(32, 36) =~= le_bytes(v.nonce as nat, 4));
    assert(b.subrange(36, 68) =~= v.difficulty);
    assert(b.subrange(68, 84) =~= le_bytes(v.timestamp as nat, 16));
    assert(b.subrange(84, 116) =~= v.merkle_root);
}

/// Read, then written: a header that was read fits, and its bytes are
/// what stands at the start of the bytes read.
proof fn lemma_header_sound(b: Seq<u8>)
    ensures
        parse_header(b) matches Some((v, k)) ==> k <= b.len() && b.take(k as int)
            == v.encoding() && header_fits(v),
{
    if let Some((v, k)) = parse_header(b) {
        lemma_radix_values();
        lemma_le_value_bound(b.subrange(32, 36));
        lemma_le_value_bound(b.subrange(68, 84));
        lemma_le_bytes_of_value(b.subrange(32, 36));
        lemma_le_bytes_of_value(b.subrange(68, 84));
        assert(b.take(116) =~= v.encoding());
    }
}

/// Written, then read: a block that fits is read back as it was,
/// whatever follows it.
proof fn lemma_block_round_trip(v: BlockView, tail: Seq<u8>)
    requires
        block_fits(v),
    ensures
        parse_block(block_encoding(v) + tail) == Some((v, block_encoding(v).len())),
{
    reveal(parse_block);
    let b = block_encoding(v) + tail;
    let h = v.header.encoding();
    let c = content_encoding(v.content);
    assert(b =~= h + (c + tail));
    lemma_header_round_trip(v.header, c + tail);
    assert(b.skip(116) =~= c + tail);
    lemma_content_round_trip(v.content, tail);
}

/// Read, then written: a block that was read fits, and its bytes are
/// what stands at the start of the bytes read.
proof fn lemma_block_sound(b: Seq<u8>)
    ensures
        parse_block(b) matches Some((v, k)) ==> k <= b.len() && b.take(k as int)
            == block_encoding(v) && block_fits(v),
{
    reveal(parse_block);
    if let Some((v, k)) = parse_block(b) {
        lemma_header_sound(b);
        let after = b.skip(116);
        lemma_content_sound(after);
        if let Some((content, more)) = parse_list(after, signed_parser()) {
            assert(b.take(k as int) =~= b.take(116) + after.take(more as int));
        }
    }
}

/// Written, then read: a list of blocks that fits is read back as it was,
/// whatever follows it.
proof fn lemma_blocks_round_trip(blocks: Seq<BlockView>, tail: Seq<u8>)
    requires
        count_fits(blocks.len()),
        forall|i: int| 0 <= i < blocks.len() ==> block_fits(#[trigger] blocks[i]),
    ensures
        parse_list(blocks_encoding(blocks) + tail, block_parser()) == Some(
            (blocks, blocks_encoding(blocks).len()),
        ),
{
    let written = |b: BlockView| block_encoding(b);
    assert forall|i: int, rest: Seq<u8>| 0 <= i < blocks.len() implies #[trigger] block_parser()(
        written(blocks[i]) + rest,
    ) == Some((blocks[i], written(blocks[i]).len())) by {
        lemma_block_round_trip(blocks[i], rest);
    }
    lemma_list_round_trip(blocks, written, block_parser(), tail);
    assert(blocks_encoding(blocks) =~= len_prefix(blocks.len()) + concat_all(
        blocks.map_values(written),
    ));
}

/// Read, then written: a list of blocks that was read fits, and its bytes are
/// what stands at the start of the bytes read.
proof fn lemma_blocks_sound(b: Seq<u8>)
    ensures
        parse_list(b, block_parser()) matches Some((blocks, k)) ==> k <= b.len() && b.take(
            k as int,
        ) == blocks_encoding(blocks) && count_fits(blocks.len()) && forall|i: int|
            0 <= i < blocks.len() ==> block_fits(#[trigger] blocks[i]),
{
    let written = |v: BlockView| block_encoding(v);
    assert forall|x: Seq<u8>| (#[trigger] block_parser()(x)) matches Some((v, n)) ==> n <= x.len()
        && x.take(n as int) == written(v) && block_fits(v) by {
        lemma_block_sound(x);
    }
    lemma_list_sound(b, block_parser(), written, |v: BlockView| block_fits(v));
    if let Some((blocks, k)) = parse_list(b, block_parser()) {
        assert(blocks_encoding(blocks) =~= len_prefix(blocks.len()) + concat_all(
            blocks.map_values(written),
        ));
    }
}

/// Written, then read: a text that fits is read back as it was,
/// whatever follows it.
proof fn lemma_text_round_trip(text: Seq<char>, tail: Seq<u8>)
    requires
        count_fits(encode_utf8(text).len()),
    ensures
        parse_text(text_encoding(text) + tail) == Some((text, text_encoding(text).len())),
{
    lemma_bytes_round_trip(encode_utf8(text), tail);
    encode_utf8_valid_utf8(text);
    encode_utf8_decode_utf8(text);
}

/// Read, then written: a text that was read fits, and its bytes are
/// what stands at the start of the bytes read.
proof fn lemma_text_sound(b: Seq<u8>)
    ensures
        parse_text(b) matches Some((text, k)) ==> k <= b.len() && b.take(k as int)
            == text_encoding(text) && count_fits(encode_utf8(text).len()),
{
    lemma_bytes_sound(b);
    if let Some((bytes, used)) = parse_bytes(b) {
        if valid_utf8(bytes) {
            decode_utf8_encode_utf8(bytes);
        }
    }
}

/// Written, then read: what a message that fits holds is read back under
/// the number of its kind, whatever follows it.
proof fn lemma_payload_round_trip(m: MessageView, tail: Seq<u8>)
    requires
        message_fits(m),
    ensures
        parse_payload(tag_of(m), payload_of(m) + tail) == Some((m, payload_of(m).len())),
{
    let payload = payload_of(m);
    match m {
        MessageView::Ping(nonce) => {
            lemma_radix_values();
            lemma_le_bytes_len(nonce as nat, 8);
            lemma_le_value_of_bytes(nonce as nat, 8);
            assert((payload + tail).take(8) =~= le_bytes(nonce as nat, 8));
        },
        MessageView::Pong(text) => {
            lemma_text_round_trip(text, tail);
        },
        MessageView::NewBlockHashes(hashes) => {
            lemma_digests_round_trip(hashes, tail);
        },
        MessageView::GetBlocks(hashes) => {
            lemma_digests_round_trip(hashes, tail);
        },
        MessageView::Blocks(blocks) => {
            lemma_blocks_round_trip(blocks, tail);
        },
        MessageView::NewTransactionHashes(hashes) => {
            lemma_digests_round_trip(hashes, tail);
        },
        MessageView::GetTransactions(hashes) => {
            lemma_digests_round_trip(hashes, tail);
        },
        MessageView::Transactions(content) => {
            lemma_content_round_trip(content, tail);
        },
    }
}

/// Read, then written: what was read under the number of a kind is a
/// message of that kind that fits, and what it holds is what stands at the
/// start of the bytes read.
proof fn lemma_payload_sound(tag: nat, b: Seq<u8>)
    ensures
        parse_payload(tag, b) matches Some((m, k)) ==> k <= b.len() && b.take(k as int)
            == payload_of(m) && tag_of(m) == tag && message_fits(m),
{
    if tag == 0 {
        if b.len() >= 8 {
            lemma_radix_values();
            lemma_le_bytes_of_value(b.take(8));
            lemma_le_value_bound(b.take(8));
        }
    } else if tag == 1 {
        lemma_text_sound(b);
    } else if tag == 4 {
        lemma_blocks_sound(b);
    } else if tag == 7 {
        lemma_content_sound(b);
    } else if tag == 2 || tag == 3 || tag == 5 || tag == 6 {
        lemma_digests_sound(b);
    }
}

/// Written, then read: a message that fits in a frame is read back from
/// its frame as it was, whatever bytes follow the frame.
pub proof fn lemma_frame_round_trip(m: MessageView, tail: Seq<u8>)
    requires
        message_fits(m),
    ensures
        parse_frame(frame_of(m) + tail) == Some((m, frame_of(m).len())),
        message_of(frame_of(m) + tail) == Some(m),
{
    let b = frame_of(m) + tail;
    lemma_le_bytes_len(tag_of(m), 4);
    lemma_radix_values();
    lemma_le_value_of_bytes(tag_of(m), 4);
    assert(b.take(4) =~= le_bytes(tag_of(m), 4));
    assert(b.skip(4) =~= payload_of(m) + tail);
    lemma_payload_round_trip(m, tail);
}

/// Read, then written: the message read from a frame fits in a frame, and
/// its frame is what stands at the start of the bytes.
pub proof fn lemma_frame_sound(b: Seq<u8>)
    ensures
        parse_frame(b) matches Some((m, k)) ==> k <= b.len() && b.take(k as int) == frame_of(m)
            && message_fits(m),
{
    if let Some((m, k)) = parse_frame(b) {
        let after = b.skip(4);
        lemma_le_bytes_of_value(b.take(4));
        lemma_payload_sound(le_value(b.take(4)), after);
        let used = (k - 4) as nat;
        assert(b.take(k as int) =~= b.take(4) + after.take(used as int));
    }
}

/// A frame is read as a message exactly when it starts with the frame of
/// that message.
pub proof fn lemma_message_of_frame(b: Seq<u8>, m: MessageView)
    ensures
        message_of(b) == Some(m) <==> message_fits(m) && exists|tail: Seq<u8>|
            b == #[trigger] (frame_of(m) + tail),
{
    lemma_frame_sound(b);
    if message_of(b) == Some(m) {
        let (_, k) = parse_frame(b)->0;
        assert(b =~= b.take(k as int) + b.skip(k as int));
        assert(b == frame_of(m) + b.skip(k as int));
    }
    if message_fits(m) && exists|tail: Seq<u8>| b == #[trigger] (frame_of(m) + tail) {
        let tail = choose|tail: Seq<u8>| b == #[trigger] (frame_of(m) + tail);
        lemma_frame_round_trip(m, tail);
    }
}

} // verus!
