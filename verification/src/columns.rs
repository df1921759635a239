//! Cap'n Proto messages that hold columns: the root is a list of lists, of numbers or of byte blocks.

use crate::feed as f;
use capnp::message::{Builder, ReaderOptions};
use capnp::{any_pointer_list, data_list, primitive_list, serialize};
use vstd::prelude::*;

verus! {

/// Messages longer than this are refused by a reader with the usual options.
pub const READ_LIMIT: usize = 67_108_864;

/// Lists and blocks from this length on are not written.
pub const LENGTH_LIMIT: usize = 536_870_912;

/// A list of a message.
#[derive(Debug)]
pub enum Column {
    Numbers(Vec<u32>),
    Blocks(Vec<Vec<u8>>),
}

/// A list of a message as a mathematical value.
pub enum ColumnView {
    Numbers(Seq<u32>),
    Blocks(Seq<Seq<u8>>),
}

impl View for Column {
    type V = ColumnView;

    open spec fn view(&self) -> ColumnView {
        match self {
            Column::Numbers(v) => ColumnView::Numbers(v@),
            Column::Blocks(v) => ColumnView::Blocks(f::views(v@)),
        }
    }
}

/// The list of numbers at a position of the root list of the Cap'n Proto message in some bytes: None
/// if the root list ends before, or the message of an error.
pub uninterp spec fn capnp_numbers(bytes: Seq<u8>, slot: u32) -> Result<
    Option<Seq<u32>>,
    Seq<char>,
>;

/// The list of byte blocks at a position of the root list, likewise.
pub uninterp spec fn capnp_blocks(bytes: Seq<u8>, slot: u32) -> Result<
    Option<Seq<Seq<u8>>>,
    Seq<char>,
>;

/// The bytes of the Cap'n Proto message whose root list holds the given lists.
pub uninterp spec fn capnp_bytes(columns: Seq<ColumnView>) -> Seq<u8>;

/// Result of reading a list of numbers as a mathematical value.
pub open spec fn numbers_view(r: Result<Option<Vec<u32>>, String>) -> Result<
    Option<Seq<u32>>,
    Seq<char>,
> {
    match r {
        Ok(Some(v)) => Ok(Some(v@)),
        Ok(None) => Ok(None),
        Err(e) => Err(e@),
    }
}

/// Result of reading a list of blocks as a mathematical value.
pub open spec fn blocks_view(r: Result<Option<Vec<Vec<u8>>>, String>) -> Result<
    Option<Seq<Seq<u8>>>,
    Seq<char>,
> {
    match r {
        Ok(Some(v)) => Ok(Some(f::views(v@))),
        Ok(None) => Ok(None),
        Err(e) => Err(e@),
    }
}

/// `capnp::serialize::read_message` with the usual options, then the list at a position of the root
/// list, read as `capnp::primitive_list`. What comes back depends on the bytes and the position
/// alone; which bytes give which error is not said.
#[verifier::external_body]
pub(crate) fn read_numbers(bytes: &[u8], slot: u32) -> (r: Result<Option<Vec<u32>>, String>)
    ensures
        numbers_view(r) == capnp_numbers(bytes@, slot),
{
    let options = ReaderOptions::new();
    let message = serialize::read_message(bytes, options).map_err(|e| e.to_string())?;
    let root = message.get_root::<any_pointer_list::Reader>().map_err(|e| e.to_string())?;
    match root.try_get(slot) {
        Some(list) => match list.get_as::<primitive_list::Reader<u32>>() {
            Ok(numbers) => Ok(Some(numbers.iter().collect())),
            Err(e) => Err(e.to_string()),
        },
        None => Ok(None),
    }
}

/// `capnp::serialize::read_message` with the usual options, then the list at a position of the root
/// list, read as `capnp::data_list`. What comes back depends on the bytes and the position alone;
/// which bytes give which error is not said.
#[verifier::external_body]
pub(crate) fn read_blocks(bytes: &[u8], slot: u32) -> (r: Result<Option<Vec<Vec<u8>>>, String>)
    ensures
        blocks_view(r) == capnp_blocks(bytes@, slot),
{
    let options = ReaderOptions::new();
    let message = serialize::read_message(bytes, options).map_err(|e| e.to_string())?;
    let root = message.get_root::<any_pointer_list::Reader>().map_err(|e| e.to_string())?;
    match root.try_get(slot) {
        Some(list) => {
            let blocks = list.get_as::<data_list::Reader>().map_err(|e| e.to_string())?;
            let copies: capnp::Result<Vec<Vec<u8>>> = blocks.iter().map(|b| Ok(b?.to_vec())).collect();
            copies.map(Some).map_err(|e| e.to_string())
        },
        None => Ok(None),
    }
}

/// A list that a message can hold.
pub open spec fn short(column: ColumnView) -> bool {
    match column {
        ColumnView::Numbers(s) => s.len() < LENGTH_LIMIT,
        ColumnView::Blocks(s) => s.len() < LENGTH_LIMIT && forall|k: int|
            0 <= k < s.len() ==> (#[trigger] s[k]).len() < LENGTH_LIMIT,
    }
}

/// Lists that a message can hold.
pub open spec fn writable(columns: Seq<ColumnView>) -> bool {
    &&& columns.len() < LENGTH_LIMIT
    &&& forall|i: int| 0 <= i < columns.len() ==> short(#[trigger] columns[i])
}

/// Reading a list of a message gives the given one.
pub open spec fn column_reads_as(bytes: Seq<u8>, slot: u32, column: ColumnView) -> bool {
    match column {
        ColumnView::Numbers(s) => capnp_numbers(bytes, slot) == Ok::<Option<Seq<u32>>, Seq<char>>(
            Some(s),
        ),
        ColumnView::Blocks(s) => capnp_blocks(bytes, slot) == Ok::<
            Option<Seq<Seq<u8>>>,
            Seq<char>,
        >(Some(s)),
    }
}

/// Reading the lists of a message gives the given ones.
pub open spec fn reads_as(bytes: Seq<u8>, columns: Seq<ColumnView>) -> bool {
    forall|i: int|
        0 <= i < columns.len() ==> column_reads_as(bytes, i as u32, #[trigger] columns[i])
}

/// `capnp::message::Builder` and `capnp::serialize::write_message_to_words`: a message whose root
/// list holds the given lists, as bytes. They depend on the lists alone. If they are no more than a
/// reader takes, reading gives every list back.
#[verifier::external_body]
pub(crate) fn write_columns(columns: &Vec<Column>) -> (r: Vec<u8>)
    requires
        writable(f::views(columns@)),
    ensures
        r@ == capnp_bytes(f::views(columns@)),
        r@.len() <= READ_LIMIT ==> reads_as(r@, f::views(columns@)),
{
    let mut message = Builder::new_default();
    let mut root = message.initn_root::<any_pointer_list::Builder>(columns.len() as u32);
    for (slot, column) in (0u32..).zip(columns) {
        let mut at = root.reborrow().get(slot);
        match column {
            // always succeeds for a slice
            Column::Numbers(list) => at.set_as::<primitive_list::Owned<u32>>(&list[..]).unwrap_or(()),
            Column::Blocks(list) => {
                let mut to = at.initn_as::<data_list::Builder>(list.len() as u32);
                (0u32..).zip(list).for_each(|(k, x)| to.set(k, x))
            },
        }
    }
    serialize::write_message_to_words(&message)
}

} // verus!
