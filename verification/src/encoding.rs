//! The canonical byte form that identities are computed from: integers
//! little-endian in their full width, a sequence as its length in eight
//! bytes followed by its items, a record as its fields in order.

use vstd::prelude::*;

verus! {

/// The `n` low bytes of `x`, least significant first.
pub open spec fn le_bytes(x: nat, n: nat) -> Seq<u8>
    decreases n,
{
    if n == 0 {
        Seq::empty()
    } else {
        seq![(x % 256) as u8] + le_bytes(x / 256, (n - 1) as nat)
    }
}

/// A length prefix: the length as an eight-byte integer.
pub open spec fn len_prefix(n: nat) -> Seq<u8> {
    le_bytes(n, 8)
}

/// The byte forms of the items of `items`, one after the other.
pub open spec fn concat_all(items: Seq<Seq<u8>>) -> Seq<u8>
    decreases items.len(),
{
    if items.len() == 0 {
        Seq::empty()
    } else {
        concat_all(items.drop_last()) + items.last()
    }
}

/// `n` bytes are `n` bytes long.
pub proof fn lemma_le_bytes_len(x: nat, n: nat)
    ensures
        le_bytes(x, n).len() == n,
    decreases n,
{
    if n > 0 {
        lemma_le_bytes_len(x / 256, (n - 1) as nat);
    }
}

/// Appending one more item appends its byte form.
pub proof fn lemma_concat_all_push(items: Seq<Seq<u8>>, item: Seq<u8>)
    ensures
        concat_all(items.push(item)) == concat_all(items) + item,
{
    assert(items.push(item).drop_last() =~= items);
}

/// Items of one width take that width each.
pub proof fn lemma_concat_all_len(items: Seq<Seq<u8>>, width: nat)
    requires
        forall|i: int| 0 <= i < items.len() ==> (#[trigger] items[i]).len() == width,
    ensures
        concat_all(items).len() == items.len() * width,
    decreases items.len(),
{
    if items.len() > 0 {
        lemma_concat_all_len(items.drop_last(), width);
        assert(items.len() * width == (items.len() - 1) * width + width) by (nonlinear_arith);
    }
}

/// Appends the `width` low bytes of `x`, least significant first.
pub fn push_le(out: &mut Vec<u8>, x: u128, width: usize)
    ensures
        final(out)@ == old(out)@ + le_bytes(x as nat, width as nat),
{
    let mut rest: u128 = x;
    let mut i: usize = 0;
    assert(out@ + le_bytes(rest as nat, (width - i) as nat) =~= old(out)@ + le_bytes(
        x as nat,
        width as nat,
    ));
    while i < width
        invariant
            i <= width,
            out@ + le_bytes(rest as nat, (width - i) as nat) == old(out)@ + le_bytes(
                x as nat,
                width as nat,
            ),
        decreases width - i,
    {
        let ghost before = out@;
        let low: u8 = (rest % 256) as u8;
        out.push(low);
        assert(before + le_bytes(rest as nat, (width - i) as nat) =~= before.push(low) + le_bytes(
            (rest / 256) as nat,
            (width - i - 1) as nat,
        ));
        rest = rest / 256;
        i += 1;
    }
    assert(out@ + le_bytes(rest as nat, 0) =~= out@);
}

/// Appends a copy of `src`.
pub fn push_all(out: &mut Vec<u8>, src: &[u8])
    ensures
        final(out)@ == old(out)@ + src@,
{
    let mut i: usize = 0;
    assert(out@ =~= old(out)@ + src@.subrange(0, 0));
    while i < src.len()
        invariant
            i <= src.len(),
            out@ == old(out)@ + src@.subrange(0, i as int),
        decreases src.len() - i,
    {
        out.push(src[i]);
        i += 1;
        assert(out@ =~= old(out)@ + src@.subrange(0, i as int));
    }
    assert(src@.subrange(0, src@.len() as int) =~= src@);
}

/// Appends the length prefix of a sequence of `n` items.
pub fn push_len(out: &mut Vec<u8>, n: usize)
    ensures
        final(out)@ == old(out)@ + len_prefix(n as nat),
{
    push_le(out, n as u128, 8);
}

/// The number that a byte string denotes when read least significant byte
/// first.
pub open spec fn le_value(b: Seq<u8>) -> nat
    decreases b.len(),
{
    if b.len() == 0 {
        0
    } else {
        b[0] as nat + 256 * le_value(b.drop_first())
    }
}

/// How many numbers `n` bytes can tell apart.
pub open spec fn radix(n: nat) -> nat
    decreases n,
{
    if n == 0 {
        1
    } else {
        256 * radix((n - 1) as nat)
    }
}

/// The widths in use, as numbers.
pub proof fn lemma_radix_values()
    ensures
        radix(1) == 0x100,
        radix(4) == 0x1_0000_0000,
        radix(8) == 0x1_0000_0000_0000_0000,
        radix(16) == 0x1_0000_0000_0000_0000_0000_0000_0000_0000,
{
    reveal_with_fuel(radix, 17);
}

/// A byte string denotes a number below the radix of its length.
pub proof fn lemma_le_value_bound(b: Seq<u8>)
    ensures
        le_value(b) < radix(b.len()),
    decreases b.len(),
{
    if b.len() > 0 {
        lemma_le_value_bound(b.drop_first());
    }
}

/// Reading back what was written gives the number, if the width sufficed.
pub proof fn lemma_le_value_of_bytes(x: nat, n: nat)
    requires
        x < radix(n),
    ensures
        le_value(le_bytes(x, n)) == x,
    decreases n,
{
    lemma_le_bytes_len(x, n);
    if n > 0 {
        let rest = le_bytes(x / 256, (n - 1) as nat);
        assert(le_bytes(x, n).drop_first() =~= rest);
        lemma_le_value_of_bytes(x / 256, (n - 1) as nat);
    }
}

/// Writing what was read gives the bytes back.
pub proof fn lemma_le_bytes_of_value(b: Seq<u8>)
    ensures
        le_bytes(le_value(b), b.len()) == b,
    decreases b.len(),
{
    if b.len() > 0 {
        lemma_le_bytes_of_value(b.drop_first());
        let x = le_value(b);
        assert(x % 256 == b[0] as nat);
        assert(x / 256 == le_value(b.drop_first()));
        assert(le_bytes(x, b.len()) =~= b);
    } else {
        assert(le_bytes(le_value(b), 0) =~= b);
    }
}

/// What reading `n` items from the start of `b` gives, each item read by
/// `item` where the one before ended: the items and the number of bytes
/// they took, or nothing if an item cannot be read.
pub open spec fn parse_items<T>(
    b: Seq<u8>,
    n: nat,
    item: spec_fn(Seq<u8>) -> Option<(T, nat)>,
) -> Option<(Seq<T>, nat)>
    decreases n,
{
    if n == 0 {
        Some((Seq::empty(), 0nat))
    } else {
        match parse_items(b, (n - 1) as nat, item) {
            Some((front, used)) => match item(b.skip(used as int)) {
                Some((x, k)) => Some((front.push(x), used + k)),
                None => None,
            },
            None => None,
        }
    }
}

/// What reading a list from the start of `b` gives: the length in eight
/// bytes, then that many items.
pub open spec fn parse_list<T>(b: Seq<u8>, item: spec_fn(Seq<u8>) -> Option<(T, nat)>) -> Option<
    (Seq<T>, nat),
> {
    if b.len() < 8 {
        None
    } else {
        match parse_items(b.skip(8), le_value(b.take(8)), item) {
            Some((items, used)) => Some((items, 8 + used)),
            None => None,
        }
    }
}

/// What reading a byte string from the start of `b` gives: the length in
/// eight bytes, then that many bytes.
pub open spec fn parse_bytes(b: Seq<u8>) -> Option<(Seq<u8>, nat)> {
    if b.len() >= 8 && b.len() - 8 >= le_value(b.take(8)) {
        Some((b.subrange(8, 8 + le_value(b.take(8)) as int), 8 + le_value(b.take(8))))
    } else {
        None
    }
}

/// Items that were written one after the other are read back as they
/// were, whatever follows them, if each alone is read back as it was.
pub proof fn lemma_parse_items_of_written<T>(
    items: Seq<T>,
    written: spec_fn(T) -> Seq<u8>,
    item: spec_fn(Seq<u8>) -> Option<(T, nat)>,
    rest: Seq<u8>,
)
    requires
        forall|i: int, tail: Seq<u8>|
            0 <= i < items.len() ==> #[trigger] item(written(items[i]) + tail) == Some(
                (items[i], written(items[i]).len()),
            ),
    ensures
        parse_items(concat_all(items.map_values(written)) + rest, items.len(), item) == Some(
            (items, concat_all(items.map_values(written)).len()),
        ),
    decreases items.len(),
{
    let all = items.map_values(written);
    if items.len() == 0 {
        assert(items =~= Seq::<T>::empty());
    } else {
        let front = items.drop_last();
        let last = items.last();
        assert(all.drop_last() =~= front.map_values(written));
        let head = concat_all(front.map_values(written));
        assert(concat_all(all) == head + written(last));
        assert(concat_all(all) + rest =~= head + (written(last) + rest));
        assert forall|i: int, tail: Seq<u8>| 0 <= i < front.len() implies #[trigger] item(
            written(front[i]) + tail,
        ) == Some((front[i], written(front[i]).len())) by {
            assert(front[i] == items[i]);
        }
        lemma_parse_items_of_written(front, written, item, written(last) + rest);
        assert((head + (written(last) + rest)).skip(head.len() as int) =~= written(last) + rest);
        assert(item(written(items[items.len() - 1]) + rest) == Some((last, written(last).len())));
        assert(front.push(last) =~= items);
    }
}

/// What was read is what stands written at the start of the bytes, if that
/// holds of each item alone; and what holds of each item read alone holds
/// of all that were read.
pub proof fn lemma_parse_items_sound<T>(
    b: Seq<u8>,
    n: nat,
    item: spec_fn(Seq<u8>) -> Option<(T, nat)>,
    written: spec_fn(T) -> Seq<u8>,
    good: spec_fn(T) -> bool,
)
    requires
        forall|x: Seq<u8>|
            (#[trigger] item(x)) matches Some((v, k)) ==> k <= x.len() && x.take(k as int)
                == written(v) && good(v),
    ensures
        parse_items(b, n, item) matches Some((items, used)) ==> {
            &&& items.len() == n
            &&& used <= b.len()
            &&& b.take(used as int) == concat_all(items.map_values(written))
            &&& forall|i: int| 0 <= i < n ==> good(#[trigger] items[i])
        },
    decreases n,
{
    if n == 0 {
        assert(b.take(0) =~= Seq::<u8>::empty());
        assert(Seq::<T>::empty().map_values(written) =~= Seq::<Seq<u8>>::empty());
    } else {
        lemma_parse_items_sound(b, (n - 1) as nat, item, written, good);
        if let Some((front, used)) = parse_items(b, (n - 1) as nat, item) {
            let tail = b.skip(used as int);
            if let Some((x, k)) = item(tail) {
                let items = front.push(x);
                assert(items.map_values(written) =~= front.map_values(written).push(written(x)));
                lemma_concat_all_push(front.map_values(written), written(x));
                assert(b.take((used + k) as int) =~= b.take(used as int) + tail.take(k as int));
                assert forall|i: int| 0 <= i < n implies good(#[trigger] items[i]) by {
                    if i < n - 1 {
                        assert(items[i] == front[i]);
                    }
                }
            }
        }
    }
}

/// Reading one item more: the item that stands where the items before it
/// ended.
pub proof fn lemma_parse_items_next<T>(
    b: Seq<u8>,
    i: nat,
    item: spec_fn(Seq<u8>) -> Option<(T, nat)>,
    front: Seq<T>,
    used: nat,
)
    requires
        parse_items(b, i, item) == Some((front, used)),
    ensures
        parse_items(b, i + 1, item) == match item(b.skip(used as int)) {
            Some((x, k)) => Some((front.push(x), used + k)),
            None => None,
        },
{
}

/// Where fewer items cannot be read, more cannot be read either.
pub proof fn lemma_parse_items_fails<T>(
    b: Seq<u8>,
    m: nat,
    n: nat,
    item: spec_fn(Seq<u8>) -> Option<(T, nat)>,
)
    requires
        m <= n,
        parse_items(b, m, item) is None,
    ensures
        parse_items(b, n, item) is None,
    decreases n,
{
    if m < n {
        lemma_parse_items_fails(b, m, (n - 1) as nat, item);
    }
}

/// Reads the number that the `width` bytes from `pos` on denote, least
/// significant byte first.
pub fn read_le(bytes: &[u8], pos: usize, width: usize) -> (x: u128)
    requires
        width <= 16,
        pos + width <= bytes.len(),
    ensures
        x == le_value(bytes@.subrange(pos as int, pos + width)),
{
    let mut x: u128 = 0;
    let mut i: usize = width;
    proof {
        assert(bytes@.subrange(pos + width, pos + width) =~= Seq::<u8>::empty());
    }
    while i > 0
        invariant
            i <= width <= 16,
            pos + width <= bytes.len(),
            x == le_value(bytes@.subrange(pos + i, pos + width)),
        decreases i,
    {
        let ghost tail = bytes@.subrange(pos + i, pos + width);
        i -= 1;
        proof {
            let longer = bytes@.subrange(pos + i, pos + width);
            assert(longer.drop_first() =~= tail);
            lemma_le_value_bound(tail);
            lemma_radix_monotone(tail.len(), 15);
            lemma_radix_values();
            assert(radix(15) * 256 == radix(16)) by {
                reveal_with_fuel(radix, 2);
            }
        }
        x = x * 256 + bytes[pos + i] as u128;
    }
    x
}

/// A longer string can tell more numbers apart.
pub proof fn lemma_radix_monotone(m: nat, n: nat)
    requires
        m <= n,
    ensures
        radix(m) <= radix(n),
    decreases n,
{
    if m < n {
        lemma_radix_monotone(m, (n - 1) as nat);
    }
}

} // verus!
