//! The binary form of values: a strict subset of CBOR. Every value has one
//! encoding: lengths are definite and every head is as short as it can be.

use crate::bytes::copy_bytes;
use vstd::prelude::*;
use vstd::string::StringSliceAdditionalSpecFns;

verus! {

/// A value in the shape in which it is written to bytes.
#[derive(Debug)]
pub enum Item {
    /// A number from 0 to 2^64 - 1.
    Unsigned(u64),
    /// The number `-1 - n`.
    Negative(u64),
    /// A string of bytes.
    Bytes(Vec<u8>),
    /// A text, as its UTF-8 bytes.
    Text(Vec<u8>),
    /// A sequence of items.
    Array(Vec<Item>),
    /// A sequence of keys with their values.
    Pairs(Vec<(Item, Item)>),
    /// A truth value.
    Bool(bool),
}

/// The mathematical value of an [`Item`].
pub enum ItemView {
    Unsigned(u64),
    Negative(u64),
    Bytes(Seq<u8>),
    Text(Seq<u8>),
    Array(Seq<ItemView>),
    Pairs(Seq<(ItemView, ItemView)>),
    Bool(bool),
}

impl View for Item {
    type V = ItemView;

    open spec fn view(&self) -> ItemView {
        item_view(*self)
    }
}

pub open spec fn item_view(item: Item) -> ItemView
    decreases item,
{
    match item {
        Item::Unsigned(v) => ItemView::Unsigned(v),
        Item::Negative(v) => ItemView::Negative(v),
        Item::Bytes(b) => ItemView::Bytes(b@),
        Item::Text(t) => ItemView::Text(t@),
        Item::Array(items) => ItemView::Array(items_view(items@)),
        Item::Pairs(entries) => ItemView::Pairs(pairs_view(entries@)),
        Item::Bool(b) => ItemView::Bool(b),
    }
}

/// The values of a sequence of items.
pub open spec fn items_view(items: Seq<Item>) -> Seq<ItemView>
    decreases items,
{
    Seq::new(
        items.len(),
        |i: int|
            if 0 <= i < items.len() {
                item_view(items[i])
            } else {
                ItemView::Bool(false)
            },
    )
}

/// The values of a sequence of keys with their values.
pub open spec fn pairs_view(entries: Seq<(Item, Item)>) -> Seq<(ItemView, ItemView)>
    decreases entries,
{
    Seq::new(
        entries.len(),
        |i: int|
            if 0 <= i < entries.len() {
                (item_view(entries[i].0), item_view(entries[i].1))
            } else {
                (ItemView::Bool(false), ItemView::Bool(false))
            },
    )
}

/// The item of a text.
pub open spec fn text_item(text: &str) -> ItemView {
    ItemView::Text(text.spec_bytes())
}

/// The item of a byte string that is written as an array of small numbers.
pub open spec fn byte_array_item(bytes: Seq<u8>) -> ItemView {
    ItemView::Array(Seq::new(bytes.len(), |i: int| ItemView::Unsigned(bytes[i] as u64)))
}

impl Item {
    /// The item of a text.
    pub fn text(text: &str) -> (r: Item)
        ensures
            r@ == text_item(text),
    {
        Item::Text(copy_bytes(text.as_bytes()))
    }

    /// The byte string `bytes`.
    pub fn bytes(bytes: &[u8]) -> (r: Item)
        ensures
            r@ == ItemView::Bytes(bytes@),
    {
        Item::Bytes(copy_bytes(bytes))
    }

    /// The bytes as an array of small numbers.
    pub fn byte_array(bytes: &[u8]) -> (r: Item)
        ensures
            r@ == byte_array_item(bytes@),
    {
        let mut items: Vec<Item> = Vec::new();
        let mut i: usize = 0;
        while i < bytes.len()
            invariant
                i <= bytes.len(),
                items@.len() == i,
                forall|k: int| 0 <= k < i ==> (#[trigger] items@[k])@ == ItemView::Unsigned(bytes@[k] as u64),
            decreases bytes.len() - i,
        {
            items.push(Item::Unsigned(bytes[i] as u64));
            i = i + 1;
        }
        assert(items_view(items@) =~= Seq::new(
            bytes@.len(),
            |i: int| ItemView::Unsigned(bytes@[i] as u64),
        ));
        Item::Array(items)
    }
}

/// The entries with one more at the end.
pub fn push_entry(entries: &mut Vec<(Item, Item)>, key: &str, value: Item)
    ensures
        pairs_view(final(entries)@) == pairs_view(old(entries)@).push((text_item(key), value@)),
{
    let k = Item::text(key);
    entries.push((k, value));
    assert(pairs_view(entries@) =~= pairs_view(old(entries)@).push((text_item(key), value@)));
}

/// The items with one more at the end.
pub fn push_item(items: &mut Vec<Item>, value: Item)
    ensures
        items_view(final(items)@) == items_view(old(items)@).push(value@),
{
    items.push(value);
    assert(items_view(items@) =~= items_view(old(items)@).push(value@));
}

/// The `n` bytes of `v`, most significant byte first.
pub open spec fn be_bytes(v: nat, n: nat) -> Seq<u8>
    decreases n,
{
    if n == 0 {
        Seq::empty()
    } else {
        be_bytes(v / 256, (n - 1) as nat).push((v % 256) as u8)
    }
}

/// The number that bytes stand for, most significant byte first.
pub open spec fn be_value(bytes: Seq<u8>) -> nat
    decreases bytes.len(),
{
    if bytes.len() == 0 {
        0
    } else {
        be_value(bytes.drop_last()) * 256 + bytes.last() as nat
    }
}

/// The number of bytes in which the argument of a head follows its first
/// byte.
pub open spec fn arg_width(arg: u64) -> nat {
    if arg < 24 {
        0
    } else if arg < 0x100 {
        1
    } else if arg < 0x1_0000 {
        2
    } else if arg < 0x1_0000_0000 {
        4
    } else {
        8
    }
}

/// What the low five bits of a head's first byte say where the argument
/// follows in `width` bytes.
pub open spec fn width_info(width: nat) -> int {
    if width == 1 {
        24
    } else if width == 2 {
        25
    } else if width == 4 {
        26
    } else {
        27
    }
}

/// The head of an item: its major type in the top three bits, then its
/// argument in the fewest bytes that hold it, most significant byte first.
pub open spec fn head(major: u8, arg: u64) -> Seq<u8> {
    let m = major as int * 32;
    if arg < 24 {
        seq![(m + arg) as u8]
    } else {
        seq![(m + width_info(arg_width(arg))) as u8] + be_bytes(arg as nat, arg_width(arg))
    }
}

/// The bytes of an item.
pub open spec fn item_bytes(item: ItemView) -> Seq<u8>
    decreases item, 0nat,
{
    match item {
        ItemView::Unsigned(v) => head(0, v),
        ItemView::Negative(v) => head(1, v),
        ItemView::Bytes(b) => head(2, b.len() as u64) + b,
        ItemView::Text(t) => head(3, t.len() as u64) + t,
        ItemView::Array(items) => head(4, items.len() as u64) + items_bytes(items, 0),
        ItemView::Pairs(entries) => head(5, entries.len() as u64) + entries_bytes(entries, 0),
        ItemView::Bool(b) => seq![if b { 0xf5u8 } else { 0xf4u8 }],
    }
}

/// The bytes of the items from index `from` on, one after the other.
pub open spec fn items_bytes(items: Seq<ItemView>, from: nat) -> Seq<u8>
    decreases items, items.len() - from,
{
    if from >= items.len() {
        Seq::empty()
    } else {
        item_bytes(items[from as int]) + items_bytes(items, from + 1)
    }
}

/// The bytes of the entries from index `from` on: key, value, key, value.
pub open spec fn entries_bytes(entries: Seq<(ItemView, ItemView)>, from: nat) -> Seq<u8>
    decreases entries, entries.len() - from,
{
    if from >= entries.len() {
        Seq::empty()
    } else {
        item_bytes(entries[from as int].0) + item_bytes(entries[from as int].1) + entries_bytes(
            entries,
            from + 1,
        )
    }
}

/// Appends the `n` bytes of `v`, most significant byte first.
fn write_be(out: &mut Vec<u8>, v: u64, n: usize)
    ensures
        final(out)@ == old(out)@ + be_bytes(v as nat, n as nat),
    decreases n,
{
    if n > 0 {
        write_be(out, v / 256, n - 1);
        out.push((v % 256) as u8);
        assert(out@ =~= old(out)@ + be_bytes(v as nat, n as nat));
    } else {
        assert(out@ =~= old(out)@ + be_bytes(v as nat, n as nat));
    }
}

fn write_head(out: &mut Vec<u8>, major: u8, arg: u64)
    requires
        major < 8,
    ensures
        final(out)@ == old(out)@ + head(major, arg),
{
    let m: u8 = major * 32;
    if arg < 24 {
        out.push(m + arg as u8);
    } else if arg < 0x100 {
        out.push(m + 24);
        write_be(out, arg, 1);
    } else if arg < 0x1_0000 {
        out.push(m + 25);
        write_be(out, arg, 2);
    } else if arg < 0x1_0000_0000 {
        out.push(m + 26);
        write_be(out, arg, 4);
    } else {
        out.push(m + 27);
        write_be(out, arg, 8);
    }
    assert(out@ =~= old(out)@ + head(major, arg));
}

fn write_bytes(out: &mut Vec<u8>, bytes: &Vec<u8>)
    ensures
        final(out)@ == old(out)@ + bytes@,
{
    let mut i: usize = 0;
    while i < bytes.len()
        invariant
            i <= bytes.len(),
            out@ == old(out)@ + bytes@.subrange(0, i as int),
        decreases bytes.len() - i,
    {
        out.push(bytes[i]);
        i = i + 1;
        assert(out@ =~= old(out)@ + bytes@.subrange(0, i as int));
    }
    assert(bytes@.subrange(0, bytes.len() as int) =~= bytes@);
}

/// Appends the bytes of `item` to `out`.
#[verifier::rlimit(30)]
pub fn encode_into(item: &Item, out: &mut Vec<u8>)
    ensures
        final(out)@ == old(out)@ + item_bytes(item@),
    decreases item,
{
    match item {
        Item::Unsigned(v) => {
            write_head(out, 0, *v);
        },
        Item::Negative(v) => {
            write_head(out, 1, *v);
        },
        Item::Bytes(b) => {
            write_head(out, 2, b.len() as u64);
            write_bytes(out, b);
            assert(out@ =~= old(out)@ + (head(2, b@.len() as u64) + b@));
        },
        Item::Text(t) => {
            write_head(out, 3, t.len() as u64);
            write_bytes(out, t);
            assert(out@ =~= old(out)@ + (head(3, t@.len() as u64) + t@));
        },
        Item::Array(items) => {
            write_head(out, 4, items.len() as u64);
            let ghost views = item@->Array_0;
            let ghost first = head(4, items.len() as u64);
            assert(views.len() == items@.len());
            let mut j: usize = 0;
            while j < items.len()
                invariant
                    j <= items.len(),
                    views == item@->Array_0,
                    views.len() == items.len(),
                    *item == Item::Array(*items),
                    out@ + items_bytes(views, j as nat) == old(out)@ + first + items_bytes(
                        views,
                        0,
                    ),
                decreases items.len() - j,
            {
                let ghost before = out@;
                encode_into(&items[j], out);
                proof {
                    assert(views[j as int] == items@[j as int]@);
                    assert(out@ + items_bytes(views, (j + 1) as nat) =~= before + items_bytes(
                        views,
                        j as nat,
                    ));
                }
                j = j + 1;
            }
            assert(out@ =~= old(out)@ + (first + items_bytes(views, 0)));
        },
        Item::Pairs(entries) => {
            write_head(out, 5, entries.len() as u64);
            let ghost views = item@->Pairs_0;
            let ghost first = head(5, entries.len() as u64);
            assert(views.len() == entries@.len());
            let mut j: usize = 0;
            while j < entries.len()
                invariant
                    j <= entries.len(),
                    views == item@->Pairs_0,
                    views.len() == entries.len(),
                    *item == Item::Pairs(*entries),
                    out@ + entries_bytes(views, j as nat) == old(out)@ + first + entries_bytes(
                        views,
                        0,
                    ),
                decreases entries.len() - j,
            {
                let ghost before = out@;
                encode_into(&entries[j].0, out);
                encode_into(&entries[j].1, out);
                proof {
                    assert(views[j as int] == (entries@[j as int].0@, entries@[j as int].1@));
                    assert(out@ + entries_bytes(views, (j + 1) as nat) =~= before + entries_bytes(
                        views,
                        j as nat,
                    ));
                }
                j = j + 1;
            }
            assert(out@ =~= old(out)@ + (first + entries_bytes(views, 0)));
        },
        Item::Bool(b) => {
            out.push(if *b { 0xf5 } else { 0xf4 });
            assert(out@ =~= old(out)@ + item_bytes(item@));
        },
    }
}

/// The bytes of `item`.
pub fn encode(item: &Item) -> (r: Vec<u8>)
    ensures
        r@ == item_bytes(item@),
{
    let mut out: Vec<u8> = Vec::new();
    encode_into(item, &mut out);
    assert(out@ =~= item_bytes(item@));
    out
}

/// The deepest nesting of arrays and maps that is read.
pub const MAX_DEPTH: usize = 16;

/// The smallest argument that is written in `width` bytes.
pub open spec fn least_arg(width: nat) -> nat {
    if width == 1 {
        24
    } else if width == 2 {
        0x100
    } else if width == 4 {
        0x1_0000
    } else {
        0x1_0000_0000
    }
}

/// The head at the start of `bytes`: its major type, its argument and its
/// length. There is none where the bytes end early, where the argument is
/// written in more bytes than it needs, or where no length is given.
pub open spec fn parse_head(bytes: Seq<u8>) -> Option<(u8, u64, int)> {
    if bytes.len() == 0 {
        None
    } else {
        let major = bytes[0] / 32;
        let info = bytes[0] % 32;
        if info < 24 {
            Some((major, info as u64, 1))
        } else if info <= 27 {
            let width: int = if info == 24 {
                1
            } else if info == 25 {
                2
            } else if info == 26 {
                4
            } else {
                8
            };
            let arg = be_value(bytes.subrange(1, 1 + width));
            if bytes.len() >= 1 + width && arg >= least_arg(width as nat) {
                Some((major, arg as u64, 1 + width))
            } else {
                None
            }
        } else {
            None
        }
    }
}

/// The item at the start of `bytes` and its length, read with arrays and
/// maps nested at most `depth` deep.
pub open spec fn parse_item(bytes: Seq<u8>, depth: nat) -> Option<(ItemView, int)>
    decreases depth, 0nat, 0nat,
{
    match parse_head(bytes) {
        None => None,
        Some((major, arg, n)) => {
            if major == 0 {
                Some((ItemView::Unsigned(arg), n))
            } else if major == 1 {
                Some((ItemView::Negative(arg), n))
            } else if major == 2 {
                if bytes.len() - n >= arg {
                    Some((ItemView::Bytes(bytes.subrange(n, n + arg)), n + arg))
                } else {
                    None
                }
            } else if major == 3 {
                if bytes.len() - n >= arg {
                    Some((ItemView::Text(bytes.subrange(n, n + arg)), n + arg))
                } else {
                    None
                }
            } else if major == 4 {
                if depth == 0 {
                    None
                } else {
                    match parse_items(bytes.skip(n), arg as nat, (depth - 1) as nat) {
                        Some((items, used)) => Some((ItemView::Array(items), n + used)),
                        None => None,
                    }
                }
            } else if major == 5 {
                if depth == 0 {
                    None
                } else {
                    match parse_entries(bytes.skip(n), arg as nat, (depth - 1) as nat) {
                        Some((entries, used)) => Some((ItemView::Pairs(entries), n + used)),
                        None => None,
                    }
                }
            } else if major == 7 && n == 1 && arg == 20 {
                Some((ItemView::Bool(false), 1))
            } else if major == 7 && n == 1 && arg == 21 {
                Some((ItemView::Bool(true), 1))
            } else {
                None
            }
        },
    }
}

/// The `count` items at the start of `bytes` and their length.
pub open spec fn parse_items(bytes: Seq<u8>, count: nat, depth: nat) -> Option<
    (Seq<ItemView>, int),
>
    decreases depth, 1nat, count,
{
    if count == 0 {
        Some((Seq::empty(), 0))
    } else {
        match parse_item(bytes, depth) {
            None => None,
            Some((first, k)) => match parse_items(bytes.skip(k), (count - 1) as nat, depth) {
                None => None,
                Some((rest, used)) => Some((seq![first] + rest, k + used)),
            },
        }
    }
}

/// The `count` entries at the start of `bytes` and their length.
pub open spec fn parse_entries(bytes: Seq<u8>, count: nat, depth: nat) -> Option<
    (Seq<(ItemView, ItemView)>, int),
>
    decreases depth, 1nat, count,
{
    if count == 0 {
        Some((Seq::empty(), 0))
    } else {
        match parse_item(bytes, depth) {
            None => None,
            Some((key, k)) => match parse_item(bytes.skip(k), depth) {
                None => None,
                Some((value, v)) => match parse_entries(
                    bytes.skip(k).skip(v),
                    (count - 1) as nat,
                    depth,
                ) {
                    None => None,
                    Some((rest, used)) => Some((seq![(key, value)] + rest, k + v + used)),
                },
            },
        }
    }
}

/// The item that `bytes` are the whole encoding of.
pub open spec fn parse(bytes: Seq<u8>) -> Option<ItemView> {
    match parse_item(bytes, MAX_DEPTH as nat) {
        Some((item, used)) => if used == bytes.len() {
            Some(item)
        } else {
            None
        },
        None => None,
    }
}

/// Whether an item can be written and read back with arrays and maps nested
/// at most `depth` deep: no length exceeds 64 bits.
pub open spec fn item_fits(item: ItemView, depth: nat) -> bool
    decreases item,
{
    match item {
        ItemView::Unsigned(_) => true,
        ItemView::Negative(_) => true,
        ItemView::Bool(_) => true,
        ItemView::Bytes(b) => b.len() <= u64::MAX,
        ItemView::Text(t) => t.len() <= u64::MAX,
        ItemView::Array(items) => depth > 0 && items.len() <= u64::MAX && forall|i: int|
            0 <= i < items.len() ==> item_fits(#[trigger] items[i], (depth - 1) as nat),
        ItemView::Pairs(entries) => depth > 0 && entries.len() <= u64::MAX && forall|i: int|
            0 <= i < entries.len() ==> item_fits((#[trigger] entries[i]).0, (depth - 1) as nat)
                && item_fits(entries[i].1, (depth - 1) as nat),
    }
}

/// Bytes of length `n` stand for a number below 256^n.
pub proof fn lemma_be_value_bound(bytes: Seq<u8>)
    ensures
        be_value(bytes) < crate::u256::pow256(bytes.len()),
    decreases bytes.len(),
{
    if bytes.len() > 0 {
        lemma_be_value_bound(bytes.drop_last());
    }
}

/// The bytes of a number that fits into them stand for that number.
pub proof fn lemma_be_round_trip(v: nat, n: nat)
    requires
        v < crate::u256::pow256(n),
    ensures
        be_bytes(v, n).len() == n,
        be_value(be_bytes(v, n)) == v,
    decreases n,
{
    if n > 0 {
        assert(v / 256 < crate::u256::pow256((n - 1) as nat)) by (nonlinear_arith)
            requires
                v < 256 * crate::u256::pow256((n - 1) as nat),
        ;
        lemma_be_round_trip(v / 256, (n - 1) as nat);
        let b = be_bytes(v, n);
        assert(b.drop_last() =~= be_bytes(v / 256, (n - 1) as nat));
    }
}

/// An argument fits into the bytes in which it is written.
pub proof fn lemma_arg_fits(arg: u64)
    requires
        arg >= 24,
    ensures
        arg < crate::u256::pow256(arg_width(arg)),
        arg >= least_arg(arg_width(arg)),
{
    reveal_with_fuel(crate::u256::pow256, 9);
}

/// A head that was written is read back.
pub proof fn lemma_parse_head(major: u8, arg: u64, rest: Seq<u8>)
    requires
        major < 8,
    ensures
        parse_head(head(major, arg) + rest) == Some((major, arg, head(major, arg).len() as int)),
        1 <= head(major, arg).len() <= 9,
{
    let h = head(major, arg);
    let s = h + rest;
    let m = major as int * 32;
    assert(s[0] == h[0]);
    if arg >= 24 {
        let width = arg_width(arg);
        lemma_arg_fits(arg);
        lemma_be_round_trip(arg as nat, width);
        assert(s.subrange(1, 1 + width as int) =~= be_bytes(arg as nat, width));
        assert(h[0] == (m + width_info(width)) as u8);
    }
}

/// A byte string or a text that was written is read back.
proof fn lemma_parse_string(major: u8, content: Seq<u8>, rest: Seq<u8>, depth: nat)
    requires
        major == 2 || major == 3,
        content.len() <= u64::MAX,
    ensures
        parse_head(head(major, content.len() as u64) + content + rest) == Some(
            (major, content.len() as u64, head(major, content.len() as u64).len() as int),
        ),
        (head(major, content.len() as u64) + content + rest).subrange(
            head(major, content.len() as u64).len() as int,
            (head(major, content.len() as u64).len() + content.len()) as int,
        ) == content,
{
    let h = head(major, content.len() as u64);
    let bytes = h + content + rest;
    lemma_parse_head(major, content.len() as u64, content + rest);
    assert(bytes =~= h + (content + rest));
    assert(bytes.subrange(h.len() as int, (h.len() + content.len()) as int) =~= content);
}

/// An item that was written is read back, whatever follows it.
pub proof fn lemma_parse_item(item: ItemView, rest: Seq<u8>, depth: nat)
    requires
        item_fits(item, depth),
    ensures
        parse_item(item_bytes(item) + rest, depth) == Some(
            (item, item_bytes(item).len() as int),
        ),
    decreases item, 0nat,
{
    let bytes = item_bytes(item) + rest;
    match item {
        ItemView::Unsigned(v) => {
            lemma_parse_head(0, v, rest);
        },
        ItemView::Negative(v) => {
            lemma_parse_head(1, v, rest);
        },
        ItemView::Bool(b) => {
            assert(bytes[0] == if b { 0xf5u8 } else { 0xf4u8 });
        },
        ItemView::Bytes(b) => {
            lemma_parse_string(2, b, rest, depth);
        },
        ItemView::Text(t) => {
            lemma_parse_string(3, t, rest, depth);
        },
        ItemView::Array(items) => {
            lemma_parse_array(items, rest, depth);
        },
        ItemView::Pairs(entries) => {
            lemma_parse_pairs(entries, rest, depth);
        },
    }
}

proof fn lemma_parse_array(items: Seq<ItemView>, rest: Seq<u8>, depth: nat)
    requires
        item_fits(ItemView::Array(items), depth),
    ensures
        parse_item(item_bytes(ItemView::Array(items)) + rest, depth) == Some(
            (ItemView::Array(items), item_bytes(ItemView::Array(items)).len() as int),
        ),
    decreases items, items.len() + 1,
{
    let bytes = item_bytes(ItemView::Array(items)) + rest;
    let h = head(4, items.len() as u64);
    let body = items_bytes(items, 0);
    lemma_parse_head(4, items.len() as u64, body + rest);
    assert(bytes =~= h + (body + rest));
    assert(bytes.skip(h.len() as int) =~= body + rest);
    lemma_parse_items(items, 0, rest, (depth - 1) as nat);
    assert(items.subrange(0, items.len() as int) =~= items);
}

proof fn lemma_parse_pairs(entries: Seq<(ItemView, ItemView)>, rest: Seq<u8>, depth: nat)
    requires
        item_fits(ItemView::Pairs(entries), depth),
    ensures
        parse_item(item_bytes(ItemView::Pairs(entries)) + rest, depth) == Some(
            (ItemView::Pairs(entries), item_bytes(ItemView::Pairs(entries)).len() as int),
        ),
    decreases entries, entries.len() + 1,
{
    let bytes = item_bytes(ItemView::Pairs(entries)) + rest;
    let h = head(5, entries.len() as u64);
    let body = entries_bytes(entries, 0);
    lemma_parse_head(5, entries.len() as u64, body + rest);
    assert(bytes =~= h + (body + rest));
    assert(bytes.skip(h.len() as int) =~= body + rest);
    lemma_parse_entries(entries, 0, rest, (depth - 1) as nat);
    assert(entries.subrange(0, entries.len() as int) =~= entries);
}

/// Items that were written one after the other are read back.
#[verifier::rlimit(30)]
pub proof fn lemma_parse_items(items: Seq<ItemView>, from: nat, rest: Seq<u8>, depth: nat)
    requires
        from <= items.len(),
        forall|i: int| 0 <= i < items.len() ==> item_fits(#[trigger] items[i], depth),
    ensures
        parse_items(items_bytes(items, from) + rest, (items.len() - from) as nat, depth) == Some(
            (items.subrange(from as int, items.len() as int), items_bytes(items, from).len() as int),
        ),
    decreases items, items.len() - from,
{
    if from == items.len() {
        assert(items.subrange(from as int, items.len() as int) =~= Seq::<ItemView>::empty());
    } else {
        let first = items[from as int];
        let first_bytes = item_bytes(first);
        let later = items_bytes(items, from + 1);
        let bytes = items_bytes(items, from) + rest;
        assert(bytes =~= first_bytes + (later + rest));
        lemma_parse_item(first, later + rest, depth);
        assert(bytes.skip(first_bytes.len() as int) =~= later + rest);
        lemma_parse_items(items, from + 1, rest, depth);
        assert(seq![first] + items.subrange((from + 1) as int, items.len() as int) =~= items.subrange(
            from as int,
            items.len() as int,
        ));
    }
}

/// Entries that were written one after the other are read back.
#[verifier::rlimit(30)]
pub proof fn lemma_parse_entries(
    entries: Seq<(ItemView, ItemView)>,
    from: nat,
    rest: Seq<u8>,
    depth: nat,
)
    requires
        from <= entries.len(),
        forall|i: int|
            0 <= i < entries.len() ==> item_fits((#[trigger] entries[i]).0, depth) && item_fits(
                entries[i].1,
                depth,
            ),
    ensures
        parse_entries(entries_bytes(entries, from) + rest, (entries.len() - from) as nat, depth)
            == Some(
            (
                entries.subrange(from as int, entries.len() as int),
                entries_bytes(entries, from).len() as int,
            ),
        ),
    decreases entries, entries.len() - from,
{
    if from == entries.len() {
        assert(entries.subrange(from as int, entries.len() as int) =~= Seq::<
            (ItemView, ItemView),
        >::empty());
    } else {
        let key = entries[from as int].0;
        let value = entries[from as int].1;
        let key_bytes = item_bytes(key);
        let value_bytes = item_bytes(value);
        let later = entries_bytes(entries, from + 1);
        let bytes = entries_bytes(entries, from) + rest;
        assert(bytes =~= key_bytes + (value_bytes + (later + rest)));
        lemma_parse_item(key, value_bytes + (later + rest), depth);
        assert(bytes.skip(key_bytes.len() as int) =~= value_bytes + (later + rest));
        lemma_parse_item(value, later + rest, depth);
        assert(bytes.skip(key_bytes.len() as int).skip(value_bytes.len() as int) =~= later + rest);
        lemma_parse_entries(entries, from + 1, rest, depth);
        assert(seq![(key, value)] + entries.subrange((from + 1) as int, entries.len() as int)
            =~= entries.subrange(from as int, entries.len() as int));
    }
}

/// Reading the bytes of an item gives the item.
pub proof fn lemma_round_trip(item: ItemView)
    requires
        item_fits(item, MAX_DEPTH as nat),
    ensures
        parse(item_bytes(item)) == Some(item),
{
    lemma_parse_item(item, Seq::empty(), MAX_DEPTH as nat);
    assert(item_bytes(item) + Seq::<u8>::empty() =~= item_bytes(item));
}

/// The number that the `n` bytes from `pos` on stand for.
fn read_be(bytes: &[u8], pos: usize, n: usize) -> (r: u64)
    requires
        pos + n <= bytes.len(),
        n <= 8,
    ensures
        r == be_value(bytes@.subrange(pos as int, pos + n)),
{
    let mut v: u64 = 0;
    let mut i: usize = 0;
    assert(bytes@.subrange(pos as int, pos as int) =~= Seq::<u8>::empty());
    while i < n
        invariant
            i <= n,
            n <= 8,
            pos + n <= bytes.len(),
            v == be_value(bytes@.subrange(pos as int, pos + i)),
        decreases n - i,
    {
        proof {
            let so_far = bytes@.subrange(pos as int, pos + i);
            lemma_be_value_bound(so_far);
            crate::u256::lemma_pow256_grows(i as nat, 7);
            reveal_with_fuel(crate::u256::pow256, 8);
            assert(bytes@.subrange(pos as int, pos + i + 1).drop_last() =~= so_far);
        }
        v = v * 256 + bytes[pos + i] as u64;
        i = i + 1;
    }
    v
}

/// Reads the head at `pos`.
fn read_head(bytes: &[u8], pos: usize) -> (r: Option<(u8, u64, usize)>)
    requires
        pos <= bytes.len(),
    ensures
        match r {
            Some((major, arg, next)) => pos < next <= bytes.len() && parse_head(
                bytes@.skip(pos as int),
            ) == Some((major, arg, next - pos)),
            None => parse_head(bytes@.skip(pos as int)) is None,
        },
{
    if pos >= bytes.len() {
        return None;
    }
    let ghost rest = bytes@.skip(pos as int);
    assert(rest[0] == bytes@[pos as int]);
    let first: u8 = bytes[pos];
    let major: u8 = first / 32;
    let info: u8 = first % 32;
    if info < 24 {
        return Some((major, info as u64, pos + 1));
    }
    if info > 27 {
        return None;
    }
    let width: usize = if info == 24 {
        1
    } else if info == 25 {
        2
    } else if info == 26 {
        4
    } else {
        8
    };
    if bytes.len() - pos - 1 < width {
        return None;
    }
    let arg = read_be(bytes, pos + 1, width);
    proof {
        assert(rest.subrange(1, 1 + width) =~= bytes@.subrange(pos + 1, pos + 1 + width));
    }
    let least: u64 = if width == 1 {
        24
    } else if width == 2 {
        0x100
    } else if width == 4 {
        0x1_0000
    } else {
        0x1_0000_0000
    };
    if arg < least {
        return None;
    }
    Some((major, arg, pos + 1 + width))
}

/// Reads the item at `pos`, with arrays and maps nested at most `depth`
/// deep, and gives it with the place behind it.
#[verifier::rlimit(30)]
pub fn decode_item(bytes: &[u8], pos: usize, depth: usize) -> (r: Option<(Item, usize)>)
    requires
        pos <= bytes.len(),
    ensures
        match r {
            Some((item, next)) => pos < next <= bytes.len() && parse_item(
                bytes@.skip(pos as int),
                depth as nat,
            ) == Some((item@, next - pos)),
            None => parse_item(bytes@.skip(pos as int), depth as nat) is None,
        },
    decreases depth, 0nat,
{
    let ghost rest = bytes@.skip(pos as int);
    let (major, arg, start) = match read_head(bytes, pos) {
        Some(h) => h,
        None => {
            return None;
        },
    };
    let ghost n = start - pos;
    proof {
        assert(rest.skip(n) =~= bytes@.skip(start as int));
    }
    if major == 0 {
        Some((Item::Unsigned(arg), start))
    } else if major == 1 {
        Some((Item::Negative(arg), start))
    } else if major == 2 || major == 3 {
        if ((bytes.len() - start) as u64) < arg {
            return None;
        }
        let len: usize = arg as usize;
        let content = copy_bytes(vstd::slice::slice_subrange(bytes, start, start + len));
        proof {
            assert(rest.subrange(n, n + arg) =~= bytes@.subrange(start as int, start + len));
        }
        if major == 2 {
            Some((Item::Bytes(content), start + len))
        } else {
            Some((Item::Text(content), start + len))
        }
    } else if major == 4 {
        if depth == 0 {
            return None;
        }
        match decode_items(bytes, start, arg, depth - 1) {
            Some((items, next)) => Some((Item::Array(items), next)),
            None => None,
        }
    } else if major == 5 {
        if depth == 0 {
            return None;
        }
        match decode_entries(bytes, start, arg, depth - 1) {
            Some((entries, next)) => Some((Item::Pairs(entries), next)),
            None => None,
        }
    } else if major == 7 && start - pos == 1 && arg == 20 {
        Some((Item::Bool(false), start))
    } else if major == 7 && start - pos == 1 && arg == 21 {
        Some((Item::Bool(true), start))
    } else {
        None
    }
}

/// Reads `count` items from `start` on.
#[verifier::rlimit(30)]
fn decode_items(bytes: &[u8], start: usize, count: u64, depth: usize) -> (r: Option<
    (Vec<Item>, usize),
>)
    requires
        start <= bytes.len(),
    ensures
        match r {
            Some((items, next)) => start <= next <= bytes.len() && parse_items(
                bytes@.skip(start as int),
                count as nat,
                depth as nat,
            ) == Some((items_view(items@), next - start)),
            None => parse_items(bytes@.skip(start as int), count as nat, depth as nat) is None,
        },
    decreases depth, 1nat,
{
    let mut items: Vec<Item> = Vec::new();
    let mut cur: usize = start;
    let mut left: u64 = count;
    proof {
        assert(items_view(items@) =~= Seq::<ItemView>::empty());
        match parse_items(bytes@.skip(cur as int), left as nat, depth as nat) {
            Some((later, used)) => {
                assert(items_view(items@) + later =~= later);
            },
            None => {},
        }
    }
    while left > 0
        invariant
            start <= cur <= bytes.len(),
            parse_items(bytes@.skip(start as int), count as nat, depth as nat) == (match parse_items(
                bytes@.skip(cur as int),
                left as nat,
                depth as nat,
            ) {
                Some((later, used)) => Some((items_view(items@) + later, cur - start + used)),
                None => None,
            }),
        decreases left,
    {
        let ghost here = bytes@.skip(cur as int);
        let ghost done = items_view(items@);
        match decode_item(bytes, cur, depth) {
            None => {
                return None;
            },
            Some((item, next)) => {
                proof {
                    assert(here.skip(next - cur) =~= bytes@.skip(next as int));
                    match parse_items(bytes@.skip(next as int), (left - 1) as nat, depth as nat) {
                        Some((later, used)) => {
                            assert(done + (seq![item@] + later) =~= done.push(item@) + later);
                        },
                        None => {},
                    }
                }
                push_item(&mut items, item);
                cur = next;
                left = left - 1;
            },
        }
    }
    proof {
        assert(items_view(items@) + Seq::<ItemView>::empty() =~= items_view(items@));
    }
    Some((items, cur))
}

/// Reads `count` keys with their values from `start` on.
#[verifier::rlimit(30)]
fn decode_entries(bytes: &[u8], start: usize, count: u64, depth: usize) -> (r: Option<
    (Vec<(Item, Item)>, usize),
>)
    requires
        start <= bytes.len(),
    ensures
        match r {
            Some((entries, next)) => start <= next <= bytes.len() && parse_entries(
                bytes@.skip(start as int),
                count as nat,
                depth as nat,
            ) == Some((pairs_view(entries@), next - start)),
            None => parse_entries(bytes@.skip(start as int), count as nat, depth as nat) is None,
        },
    decreases depth, 1nat,
{
    let mut entries: Vec<(Item, Item)> = Vec::new();
    let mut cur: usize = start;
    let mut left: u64 = count;
    proof {
        assert(pairs_view(entries@) =~= Seq::<(ItemView, ItemView)>::empty());
        match parse_entries(bytes@.skip(cur as int), left as nat, depth as nat) {
            Some((later, used)) => {
                assert(pairs_view(entries@) + later =~= later);
            },
            None => {},
        }
    }
    while left > 0
        invariant
            start <= cur <= bytes.len(),
            parse_entries(bytes@.skip(start as int), count as nat, depth as nat) == (
            match parse_entries(bytes@.skip(cur as int), left as nat, depth as nat) {
                Some((later, used)) => Some((pairs_view(entries@) + later, cur - start + used)),
                None => None,
            }),
        decreases left,
    {
        let ghost here = bytes@.skip(cur as int);
        let ghost done = pairs_view(entries@);
        let (key, middle) = match decode_item(bytes, cur, depth) {
            None => {
                return None;
            },
            Some(found) => found,
        };
        proof {
            assert(here.skip(middle - cur) =~= bytes@.skip(middle as int));
        }
        let (value, next) = match decode_item(bytes, middle, depth) {
            None => {
                return None;
            },
            Some(found) => found,
        };
        proof {
            assert(here.skip(middle - cur).skip(next - middle) =~= bytes@.skip(next as int));
            match parse_entries(bytes@.skip(next as int), (left - 1) as nat, depth as nat) {
                Some((later, used)) => {
                    assert(done + (seq![(key@, value@)] + later) =~= done.push((key@, value@))
                        + later);
                },
                None => {},
            }
        }
        entries.push((key, value));
        proof {
            assert(pairs_view(entries@) =~= done.push((key@, value@)));
        }
        cur = next;
        left = left - 1;
    }
    proof {
        assert(pairs_view(entries@) + Seq::<(ItemView, ItemView)>::empty() =~= pairs_view(
            entries@,
        ));
    }
    Some((entries, cur))
}

/// Reads the item that `bytes` are the whole encoding of.
pub fn decode(bytes: &[u8]) -> (r: Option<Item>)
    ensures
        match r {
            Some(item) => parse(bytes@) == Some(item@),
            None => parse(bytes@) is None,
        },
{
    assert(bytes@.skip(0) =~= bytes@);
    match decode_item(bytes, 0, MAX_DEPTH) {
        Some((item, next)) => {
            if next == bytes.len() {
                Some(item)
            } else {
                None
            }
        },
        None => None,
    }
}

/// The bytes that an array of numbers below 256 stands for.
pub open spec fn byte_array_value(item: ItemView) -> Option<Seq<u8>> {
    match item {
        ItemView::Array(items) => if forall|i: int|
            0 <= i < items.len() ==> (#[trigger] items[i]) is Unsigned && items[i]->Unsigned_0
                < 256 {
            Some(Seq::new(items.len(), |i: int| items[i]->Unsigned_0 as u8))
        } else {
            None
        },
        _ => None,
    }
}

/// The array that was made of bytes stands for those bytes.
pub proof fn lemma_byte_array(bytes: Seq<u8>)
    ensures
        byte_array_value(byte_array_item(bytes)) == Some(bytes),
        bytes.len() <= u64::MAX ==> item_fits(byte_array_item(bytes), 1),
{
    let items = byte_array_item(bytes)->Array_0;
    assert(Seq::new(items.len(), |i: int| items[i]->Unsigned_0 as u8) =~= bytes);
    if bytes.len() <= u64::MAX {
        assert forall|i: int| 0 <= i < items.len() implies item_fits(#[trigger] items[i], 0) by {
            assert(items[i] is Unsigned);
        }
    }
}

/// An item that fits at one depth fits at every greater depth.
pub proof fn lemma_fits_deeper(item: ItemView, depth: nat, deeper: nat)
    requires
        item_fits(item, depth),
        depth <= deeper,
    ensures
        item_fits(item, deeper),
    decreases item,
{
    match item {
        ItemView::Array(items) => {
            assert forall|i: int| 0 <= i < items.len() implies item_fits(
                #[trigger] items[i],
                (deeper - 1) as nat,
            ) by {
                lemma_fits_deeper(items[i], (depth - 1) as nat, (deeper - 1) as nat);
            }
        },
        ItemView::Pairs(entries) => {
            assert forall|i: int| 0 <= i < entries.len() implies item_fits(
                (#[trigger] entries[i]).0,
                (deeper - 1) as nat,
            ) && item_fits(entries[i].1, (deeper - 1) as nat) by {
                lemma_fits_deeper(entries[i].0, (depth - 1) as nat, (deeper - 1) as nat);
                lemma_fits_deeper(entries[i].1, (depth - 1) as nat, (deeper - 1) as nat);
            }
        },
        _ => {},
    }
}

impl Item {
    /// Whether the item is the text `text`.
    pub fn is_text(&self, text: &str) -> (r: bool)
        ensures
            r == (self@ == text_item(text)),
    {
        match self {
            Item::Text(t) => crate::bytes::bytes_equal(t.as_slice(), text.as_bytes()),
            _ => false,
        }
    }

    /// The bytes that the item stands for, where it is an array of numbers
    /// below 256.
    pub fn as_byte_array(&self) -> (r: Option<Vec<u8>>)
        ensures
            match r {
                Some(bytes) => byte_array_value(self@) == Some(bytes@),
                None => byte_array_value(self@) is None,
            },
    {
        match self {
            Item::Array(items) => {
                let ghost views = items_view(items@);
                let mut out: Vec<u8> = Vec::new();
                let mut i: usize = 0;
                while i < items.len()
                    invariant
                        i <= items.len(),
                        views == items_view(items@),
                        self@ == ItemView::Array(views),
                        out@.len() == i,
                        forall|k: int|
                            0 <= k < i ==> (#[trigger] views[k]) is Unsigned && views[k]->Unsigned_0
                                < 256 && out@[k] == views[k]->Unsigned_0 as u8,
                    decreases items.len() - i,
                {
                    assert(views[i as int] == items@[i as int]@);
                    match &items[i] {
                        Item::Unsigned(v) => {
                            if *v >= 256 {
                                return None;
                            }
                            out.push(*v as u8);
                        },
                        _ => {
                            return None;
                        },
                    }
                    i = i + 1;
                }
                assert(out@ =~= Seq::new(views.len(), |i: int| views[i]->Unsigned_0 as u8));
                Some(out)
            },
            _ => None,
        }
    }
}

/// What the items are read as, where every one of them can be read.
pub open spec fn all_read<T>(items: Seq<ItemView>, read: spec_fn(ItemView) -> Option<T>) -> Option<
    Seq<T>,
> {
    if forall|i: int| 0 <= i < items.len() ==> read(#[trigger] items[i]) is Some {
        Some(Seq::new(items.len(), |i: int| read(items[i])->Some_0))
    } else {
        None
    }
}

/// Items that were made of values are read back as those values.
pub proof fn lemma_all_read<T>(
    values: Seq<T>,
    write: spec_fn(T) -> ItemView,
    read: spec_fn(ItemView) -> Option<T>,
)
    requires
        forall|i: int| 0 <= i < values.len() ==> read(write(#[trigger] values[i])) == Some(values[i]),
    ensures
        all_read(values.map_values(write), read) == Some(values),
{
    let items = values.map_values(write);
    assert forall|i: int| 0 <= i < items.len() implies read(#[trigger] items[i]) is Some by {
        assert(items[i] == write(values[i]));
    }
    assert(Seq::new(items.len(), |i: int| read(items[i])->Some_0) =~= values) by {
        assert forall|i: int| 0 <= i < items.len() implies read(items[i])->Some_0 == values[i] by {
            assert(items[i] == write(values[i]));
        }
    }
}

/// A short text of ASCII characters, used as a key, can be written and read
/// back.
pub proof fn lemma_key(text: &str)
    requires
        vstd::string::is_ascii(text),
        text@.len() <= 64,
    ensures
        item_fits(text_item(text), 0),
        text.spec_bytes().len() == text@.len(),
        forall|i: int| 0 <= i < text@.len() ==> text.spec_bytes()[i] == text@[i] as u8,
{
    vstd::utf8::is_ascii_chars_encode_utf8(text@);
}

/// Bytes are the bytes of the number they stand for.
pub proof fn lemma_be_bytes_of_value(bytes: Seq<u8>)
    ensures
        be_bytes(be_value(bytes), bytes.len()) == bytes,
    decreases bytes.len(),
{
    if bytes.len() > 0 {
        let front = bytes.drop_last();
        lemma_be_bytes_of_value(front);
        let v = be_value(bytes);
        assert(v / 256 == be_value(front) && v % 256 == bytes.last()) by {
            vstd::arithmetic::div_mod::lemma_fundamental_div_mod_converse(
                v as int,
                256,
                be_value(front) as int,
                bytes.last() as int,
            );
        }
        assert(be_bytes(v, bytes.len()) =~= bytes);
    } else {
        assert(be_bytes(be_value(bytes), 0) =~= bytes);
    }
}

/// A head that is read is the head of what it says, in its one form.
pub proof fn lemma_head_read(bytes: Seq<u8>)
    ensures
        parse_head(bytes) matches Some((major, arg, n)) ==> major < 8 && 1 <= n <= bytes.len()
            && bytes.subrange(0, n) == head(major, arg),
{
    match parse_head(bytes) {
        None => {},
        Some((major, arg, n)) => {
            let info = bytes[0] % 32;
            assert(bytes[0] == major as int * 32 + info);
            if info < 24 {
                assert(bytes.subrange(0, n) =~= head(major, arg));
            } else {
                let width = (n - 1) as nat;
                let digits = bytes.subrange(1, n);
                lemma_be_value_bound(digits);
                lemma_be_bytes_of_value(digits);
                reveal_with_fuel(crate::u256::pow256, 9);
                assert(arg == be_value(digits));
                assert(arg_width(arg) == width);
                assert(width_info(width) == info);
                assert(bytes.subrange(0, n) =~= head(major, arg));
            }
        },
    }
}

/// The bytes of items behind a first one are the bytes of those items.
proof fn lemma_items_bytes_shift(first: ItemView, rest: Seq<ItemView>, from: nat)
    requires
        from <= rest.len(),
    ensures
        items_bytes(seq![first] + rest, from + 1) == items_bytes(rest, from),
    decreases rest.len() - from,
{
    let all = seq![first] + rest;
    if from < rest.len() {
        lemma_items_bytes_shift(first, rest, from + 1);
        assert(all[from as int + 1] == rest[from as int]);
    }
}

/// The bytes of entries behind a first one are the bytes of those entries.
proof fn lemma_entries_bytes_shift(
    first: (ItemView, ItemView),
    rest: Seq<(ItemView, ItemView)>,
    from: nat,
)
    requires
        from <= rest.len(),
    ensures
        entries_bytes(seq![first] + rest, from + 1) == entries_bytes(rest, from),
    decreases rest.len() - from,
{
    let all = seq![first] + rest;
    if from < rest.len() {
        lemma_entries_bytes_shift(first, rest, from + 1);
        assert(all[from as int + 1] == rest[from as int]);
    }
}

/// What is read is an item that fits, and the bytes read are its bytes:
/// nothing is read but the one encoding of an item.
#[verifier::rlimit(30)]
pub proof fn lemma_item_read(bytes: Seq<u8>, depth: nat)
    ensures
        parse_item(bytes, depth) matches Some((item, n)) ==> 1 <= n <= bytes.len() && bytes.subrange(
            0,
            n,
        ) == item_bytes(item) && item_fits(item, depth),
    decreases depth, 0nat, 0nat,
{
    lemma_head_read(bytes);
    match parse_head(bytes) {
        None => {},
        Some((major, arg, n)) => {
            let h = head(major, arg);
            if major == 2 || major == 3 {
                if bytes.len() - n >= arg {
                    let content = bytes.subrange(n, n + arg);
                    assert(content.len() as u64 == arg);
                    assert(bytes.subrange(0, n + arg) =~= h + content);
                }
            } else if major == 4 && depth > 0 {
                let rest = bytes.skip(n);
                lemma_items_read(rest, arg as nat, (depth - 1) as nat);
                match parse_items(rest, arg as nat, (depth - 1) as nat) {
                    Some((items, used)) => {
                        assert(items.len() as u64 == arg);
                        assert(bytes.subrange(0, n + used) =~= h + rest.subrange(0, used));
                    },
                    None => {},
                }
            } else if major == 5 && depth > 0 {
                let rest = bytes.skip(n);
                lemma_entries_read(rest, arg as nat, (depth - 1) as nat);
                match parse_entries(rest, arg as nat, (depth - 1) as nat) {
                    Some((entries, used)) => {
                        assert(entries.len() as u64 == arg);
                        assert(bytes.subrange(0, n + used) =~= h + rest.subrange(0, used));
                    },
                    None => {},
                }
            } else if major == 7 && n == 1 && (arg == 20 || arg == 21) {
                assert(bytes.subrange(0, 1) =~= seq![bytes[0]]);
            }
        },
    }
}

/// Items that are read fit, and the bytes read are their bytes.
#[verifier::rlimit(30)]
pub proof fn lemma_items_read(bytes: Seq<u8>, count: nat, depth: nat)
    ensures
        parse_items(bytes, count, depth) matches Some((items, used)) ==> 0 <= used <= bytes.len()
            && items.len() == count && bytes.subrange(0, used) == items_bytes(items, 0)
            && forall|i: int| 0 <= i < items.len() ==> item_fits(#[trigger] items[i], depth),
    decreases depth, 1nat, count,
{
    if count == 0 {
        assert(bytes.subrange(0, 0) =~= Seq::<u8>::empty());
    } else {
        lemma_item_read(bytes, depth);
        match parse_item(bytes, depth) {
            None => {},
            Some((first, k)) => {
                let later = bytes.skip(k);
                lemma_items_read(later, (count - 1) as nat, depth);
                match parse_items(later, (count - 1) as nat, depth) {
                    None => {},
                    Some((rest, used)) => {
                        let items = seq![first] + rest;
                        lemma_items_bytes_shift(first, rest, 0);
                        assert(items[0] == first);
                        assert(bytes.subrange(0, k + used) =~= bytes.subrange(0, k)
                            + later.subrange(0, used));
                        assert forall|i: int| 0 <= i < items.len() implies item_fits(
                            #[trigger] items[i],
                            depth,
                        ) by {
                            if i > 0 {
                                assert(items[i] == rest[i - 1]);
                            }
                        }
                    },
                }
            },
        }
    }
}

/// Entries that are read fit, and the bytes read are their bytes.
#[verifier::rlimit(30)]
pub proof fn lemma_entries_read(bytes: Seq<u8>, count: nat, depth: nat)
    ensures
        parse_entries(bytes, count, depth) matches Some((entries, used)) ==> 0 <= used
            <= bytes.len() && entries.len() == count && bytes.subrange(0, used) == entries_bytes(
            entries,
            0,
        ) && forall|i: int|
            0 <= i < entries.len() ==> item_fits((#[trigger] entries[i]).0, depth) && item_fits(
                entries[i].1,
                depth,
            ),
    decreases depth, 1nat, count,
{
    if count == 0 {
        assert(bytes.subrange(0, 0) =~= Seq::<u8>::empty());
    } else {
        lemma_item_read(bytes, depth);
        match parse_item(bytes, depth) {
            None => {},
            Some((key, k)) => {
                let middle = bytes.skip(k);
                lemma_item_read(middle, depth);
                match parse_item(middle, depth) {
                    None => {},
                    Some((value, v)) => {
                        let later = middle.skip(v);
                        lemma_entries_read(later, (count - 1) as nat, depth);
                        match parse_entries(later, (count - 1) as nat, depth) {
                            None => {},
                            Some((rest, used)) => {
                                let entries = seq![(key, value)] + rest;
                                lemma_entries_bytes_shift((key, value), rest, 0);
                                assert(entries[0] == (key, value));
                                assert(bytes.subrange(0, k + v + used) =~= bytes.subrange(0, k)
                                    + middle.subrange(0, v) + later.subrange(0, used));
                                assert forall|i: int| 0 <= i < entries.len() implies item_fits(
                                    (#[trigger] entries[i]).0,
                                    depth,
                                ) && item_fits(entries[i].1, depth) by {
                                    if i > 0 {
                                        assert(entries[i] == rest[i - 1]);
                                    }
                                }
                            },
                        }
                    },
                }
            },
        }
    }
}

/// Bytes that are read are the bytes of the item read: no item has two
/// encodings.
pub proof fn lemma_read_is_written(bytes: Seq<u8>)
    ensures
        parse(bytes) matches Some(item) ==> item_bytes(item) == bytes && item_fits(
            item,
            MAX_DEPTH as nat,
        ),
{
    lemma_item_read(bytes, MAX_DEPTH as nat);
    match parse_item(bytes, MAX_DEPTH as nat) {
        Some((item, used)) => {
            if used == bytes.len() {
                assert(bytes.subrange(0, used) =~= bytes);
            }
        },
        None => {},
    }
}

/// A start of the bytes of an item that is not all of them is not read.
pub proof fn lemma_prefix_refused(item: ItemView, k: int)
    requires
        item_fits(item, MAX_DEPTH as nat),
        0 <= k < item_bytes(item).len(),
    ensures
        parse(item_bytes(item).subrange(0, k)) is None,
{
    let whole = item_bytes(item);
    let start = whole.subrange(0, k);
    let rest = whole.subrange(k, whole.len() as int);
    lemma_read_is_written(start);
    match parse(start) {
        Some(other) => {
            lemma_parse_item(other, rest, MAX_DEPTH as nat);
            lemma_parse_item(item, Seq::empty(), MAX_DEPTH as nat);
            assert(whole + Seq::<u8>::empty() =~= whole);
            assert(start + rest =~= whole);
        },
        None => {},
    }
}

} // verus!
