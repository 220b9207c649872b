//! Named binary tags: a tree of typed values, each written as a type
//! number, a name and a content, with every number in big-endian order.

use vstd::prelude::*;
use vstd::slice::{slice_subrange, slice_to_vec};
use vstd::string::*;
use vstd::utf8::{decode_utf8, valid_utf8};
use crate::endian::{
    be_i16, be_i32, be_i64, be_u16, be_u32, be_u64, be_value, lemma_be_value_bound,
    lemma_be_value_one, signed, to_i16, to_i32, to_i64, to_i8, to_u32, to_u64,
};
use crate::id::str_eq;
use crate::text::decode_text;

verus! {

/// The type number that ends a compound.
pub const TYPE_ID_END: u8 = 0;

/// The type number of a byte.
pub const TYPE_ID_BYTE: u8 = 1;

/// The type number of a 16-bit integer.
pub const TYPE_ID_SHORT: u8 = 2;

/// The type number of a 32-bit integer.
pub const TYPE_ID_INT: u8 = 3;

/// The type number of a 64-bit integer.
pub const TYPE_ID_LONG: u8 = 4;

/// The type number of a 32-bit floating-point number.
pub const TYPE_ID_FLOAT: u8 = 5;

/// The type number of a 64-bit floating-point number.
pub const TYPE_ID_DOUBLE: u8 = 6;

/// The type number of an array of bytes.
pub const TYPE_ID_BYTE_ARRAY: u8 = 7;

/// The type number of a string.
pub const TYPE_ID_STRING: u8 = 8;

/// The type number of a list.
pub const TYPE_ID_LIST: u8 = 9;

/// The type number of a compound.
pub const TYPE_ID_COMPOUND: u8 = 10;

/// The type number of an array of 32-bit integers.
pub const TYPE_ID_INT_ARRAY: u8 = 11;

/// The type number of an array of 64-bit integers.
pub const TYPE_ID_LONG_ARRAY: u8 = 12;

/// Why bytes could not be read as tags.
#[derive(Copy, Clone, Debug, PartialEq, Eq, Structural)]
pub enum NbtError {
    /// A type number that stands for no type.
    InvalidTypeId(u8),
    /// A name or a string that is not UTF-8.
    InvalidUtf8,
    /// The outermost tag is not a compound.
    InvalidRoot,
    /// The bytes end within a value.
    UnexpectedEnd,
    /// An array or a list with a negative length.
    NegativeLength(i32),
}

impl NbtError {
    /// What `message` says of this error.
    pub open spec fn spec_message(self) -> Seq<char> {
        match self {
            NbtError::InvalidTypeId(_) => "Invalid NBT tag id"@,
            NbtError::InvalidUtf8 => "Invalid UTF-8 string in NBT parsing"@,
            NbtError::InvalidRoot => "Invalid NBT header"@,
            NbtError::UnexpectedEnd => "Unexpected end of NBT data"@,
            NbtError::NegativeLength(_) => "Negative length in NBT data"@,
        }
    }

    /// A short text that says what went wrong.
    pub fn message(&self) -> (text: &'static str)
        ensures
            text@ == self.spec_message(),
    {
        match self {
            NbtError::InvalidTypeId(_) => "Invalid NBT tag id",
            NbtError::InvalidUtf8 => "Invalid UTF-8 string in NBT parsing",
            NbtError::InvalidRoot => "Invalid NBT header",
            NbtError::UnexpectedEnd => "Unexpected end of NBT data",
            NbtError::NegativeLength(_) => "Negative length in NBT data",
        }
    }
}

/// The result of reading tags.
pub type NbtResult<T> = Result<T, NbtError>;

/// A tag's content.
///
/// Floating-point numbers are kept as the bits in which they are written.
/// A compound keeps its entries in the order in which they are written,
/// also where a name occurs more than once; `get` then finds the last.
#[derive(Debug, PartialEq)]
pub enum Tag {
    Byte(i8),
    Short(i16),
    Int(i32),
    Long(i64),
    Float(u32),
    Double(u64),
    ByteArray(Vec<i8>),
    String(String),
    List(Vec<Tag>),
    Compound(Vec<(String, Tag)>),
    IntArray(Vec<i32>),
    LongArray(Vec<i64>),
}

/// What a tag holds.
pub enum TagView {
    Byte(i8),
    Short(i16),
    Int(i32),
    Long(i64),
    Float(u32),
    Double(u64),
    ByteArray(Seq<i8>),
    String(Seq<char>),
    List(Seq<TagView>),
    Compound(Seq<(Seq<char>, TagView)>),
    IntArray(Seq<i32>),
    LongArray(Seq<i64>),
}

impl View for Tag {
    type V = TagView;

    open spec fn view(&self) -> TagView {
        tag_view_of(*self)
    }
}

/// What `tag` holds.
pub open spec fn tag_view_of(tag: Tag) -> TagView
    decreases tag,
{
    match tag {
        Tag::Byte(v) => TagView::Byte(v),
        Tag::Short(v) => TagView::Short(v),
        Tag::Int(v) => TagView::Int(v),
        Tag::Long(v) => TagView::Long(v),
        Tag::Float(v) => TagView::Float(v),
        Tag::Double(v) => TagView::Double(v),
        Tag::ByteArray(v) => TagView::ByteArray(v@),
        Tag::String(v) => TagView::String(v@),
        Tag::List(items) => TagView::List(items_view_of(items@)),
        Tag::Compound(entries) => TagView::Compound(entries_view_of(entries@)),
        Tag::IntArray(v) => TagView::IntArray(v@),
        Tag::LongArray(v) => TagView::LongArray(v@),
    }
}

/// What the items of a list hold, one by one.
pub open spec fn items_view_of(items: Seq<Tag>) -> Seq<TagView>
    decreases items,
{
    if items.len() == 0 {
        Seq::empty()
    } else {
        items_view_of(items.drop_last()).push(tag_view_of(items.last()))
    }
}

/// What the entries of a compound hold, one by one.
pub open spec fn entries_view_of(entries: Seq<(String, Tag)>) -> Seq<(Seq<char>, TagView)>
    decreases entries,
{
    if entries.len() == 0 {
        Seq::empty()
    } else {
        entries_view_of(entries.drop_last()).push(
            (entries.last().0@, tag_view_of(entries.last().1)),
        )
    }
}

/// The items of a list stand in the order of its tags.
pub proof fn lemma_items_view_of(items: Seq<Tag>)
    ensures
        items_view_of(items).len() == items.len(),
        forall|j: int| 0 <= j < items.len() ==> items_view_of(items)[j] == (#[trigger] items[j])@,
    decreases items.len(),
{
    if items.len() > 0 {
        lemma_items_view_of(items.drop_last());
        assert forall|j: int| 0 <= j < items.len() implies items_view_of(items)[j] == (
        #[trigger] items[j])@ by {
            if j < items.len() - 1 {
                assert(items.drop_last()[j] == items[j]);
            }
        }
    }
}

/// The entries of a compound stand in the order of its names and tags.
pub proof fn lemma_entries_view_of(entries: Seq<(String, Tag)>)
    ensures
        entries_view_of(entries).len() == entries.len(),
        forall|j: int|
            0 <= j < entries.len() ==> entries_view_of(entries)[j] == (
                entries[j].0@,
                (#[trigger] entries[j]).1@,
            ),
    decreases entries.len(),
{
    if entries.len() > 0 {
        lemma_entries_view_of(entries.drop_last());
        assert forall|j: int| 0 <= j < entries.len() implies entries_view_of(entries)[j] == (
            entries[j].0@,
            (#[trigger] entries[j]).1@,
        ) by {
            if j < entries.len() - 1 {
                assert(entries.drop_last()[j] == entries[j]);
            }
        }
    }
}

/// What a compound holds under `name`: the content of the last entry with
/// that name, if there is one.
pub open spec fn last_entry(entries: Seq<(Seq<char>, TagView)>, name: Seq<char>) -> Option<
    TagView,
>
    decreases entries.len(),
{
    if entries.len() == 0 {
        None
    } else if entries.last().0 == name {
        Some(entries.last().1)
    } else {
        last_entry(entries.drop_last(), name)
    }
}

impl Tag {
    /// The content that a compound holds under `name`; `None` if it holds
    /// none, or if the tag is no compound. Where the name was written more
    /// than once, the last entry counts.
    pub fn get(&self, name: &str) -> (r: Option<&Tag>)
        ensures
            match self@ {
                TagView::Compound(entries) => match r {
                    Some(tag) => last_entry(entries, name@) == Some(tag@),
                    None => last_entry(entries, name@) is None,
                },
                _ => r is None,
            },
    {
        match self {
            Tag::Compound(entries) => {
                let ghost all = entries_view_of(entries@);
                proof {
                    lemma_entries_view_of(entries@);
                    assert(all.take(all.len() as int) =~= all);
                }
                let mut i: usize = entries.len();
                while i > 0
                    invariant
                        self@ == TagView::Compound(all),
                        i <= entries@.len(),
                        all.len() == entries@.len(),
                        forall|j: int|
                            0 <= j < entries@.len() ==> all[j] == (
                                entries@[j].0@,
                                (#[trigger] entries@[j]).1@,
                            ),
                        last_entry(all, name@) == last_entry(all.take(i as int), name@),
                    decreases i,
                {
                    i -= 1;
                    proof {
                        let entry = entries@[i as int];
                        assert(all[i as int] == (entry.0@, entry.1@));
                        assert(all.take(i + 1).last() == all[i as int]);
                        assert(all.take(i + 1).drop_last() =~= all.take(i as int));
                    }
                    if str_eq(entries[i].0.as_str(), name) {
                        assert(last_entry(all.take(i + 1), name@) == Some(all[i as int].1));
                        return Some(&entries[i].1);
                    }
                }
                None
            },
            _ => None,
        }
    }
}

/// A whole document: the outermost compound and its name.
#[derive(Debug, PartialEq)]
pub struct Data {
    root_name: String,
    root_tag: Tag,
}

impl Data {
    /// The name of the outermost tag.
    pub closed spec fn spec_root_name(&self) -> Seq<char> {
        self.root_name@
    }

    /// The outermost tag.
    pub closed spec fn spec_root_tag(&self) -> TagView {
        self.root_tag@
    }

    /// The document with the outermost tag `root_tag`, named `root_name`.
    pub fn new(root_name: String, root_tag: Tag) -> (data: Data)
        ensures
            data.spec_root_name() == root_name@,
            data.spec_root_tag() == root_tag@,
    {
        Data { root_name, root_tag }
    }

    /// The name of the outermost tag.
    pub fn root_name(&self) -> (name: &String)
        ensures
            name@ == self.spec_root_name(),
    {
        &self.root_name
    }

    /// The outermost tag.
    pub fn root_tag(&self) -> (tag: &Tag)
        ensures
            tag@ == self.spec_root_tag(),
    {
        &self.root_tag
    }
}

/// What was read from the start of some bytes, and how many bytes it took.
pub type Parsed<T> = Result<(T, int), NbtError>;

/// The byte at the start of `b`.
pub open spec fn spec_u8(b: Seq<u8>) -> Parsed<u8> {
    if b.len() < 1 {
        Err(NbtError::UnexpectedEnd)
    } else {
        Ok((b[0], 1))
    }
}

/// The unsigned number in the first `width` bytes of `b`.
pub open spec fn spec_unsigned(b: Seq<u8>, width: int) -> Parsed<nat> {
    if b.len() < width {
        Err(NbtError::UnexpectedEnd)
    } else {
        Ok((be_value(b.take(width)), width))
    }
}

/// The length that stands at the start of `b`: a signed 32-bit integer
/// that is not negative.
pub open spec fn spec_length(b: Seq<u8>) -> Parsed<int> {
    match spec_unsigned(b, 4) {
        Err(e) => Err(e),
        Ok((value, used)) => {
            let len = signed(value, 0x1_0000_0000);
            if len < 0 {
                Err(NbtError::NegativeLength(to_i32(value)))
            } else {
                Ok((len, used))
            }
        },
    }
}

/// The string at the start of `b`: its length in bytes as an unsigned
/// 16-bit integer, then the bytes, which are UTF-8. Where `b` ends before
/// the string does, the bytes that are missing count as zero.
pub open spec fn spec_string(b: Seq<u8>) -> Parsed<Seq<char>> {
    match spec_unsigned(b, 2) {
        Err(e) => Err(e),
        Ok((len, _)) => {
            let there = if b.len() - 2 < len {
                b.len() - 2
            } else {
                len as int
            };
            let raw = b.subrange(2, 2 + there) + Seq::new((len - there) as nat, |i: int| 0u8);
            if !valid_utf8(raw) {
                Err(NbtError::InvalidUtf8)
            } else {
                Ok((decode_utf8(raw), 2 + there))
            }
        },
    }
}

/// The head of a tag at the start of `b`: the type number and, unless the
/// number is that of the end of a compound, the name.
pub open spec fn spec_meta(b: Seq<u8>) -> Parsed<(u8, Seq<char>)> {
    if b.len() < 1 {
        Err(NbtError::UnexpectedEnd)
    } else if b[0] == 0 {
        Ok(((0u8, Seq::empty()), 1))
    } else if b[0] > 12 {
        Err(NbtError::InvalidTypeId(b[0]))
    } else {
        match spec_string(b.skip(1)) {
            Err(e) => Err(e),
            Ok((name, used)) => Ok(((b[0], name), 1 + used)),
        }
    }
}

/// The element of `width` bytes that stands at index `i` of an array whose
/// elements start at the fifth byte of `b`.
pub open spec fn element(b: Seq<u8>, width: int, i: int) -> nat {
    be_value(b.subrange(4 + width * i, 4 + width * i + width))
}

/// The array at the start of `b`: its length, then so many elements of
/// `width` bytes each, here as unsigned numbers.
pub open spec fn spec_array(b: Seq<u8>, width: int) -> Parsed<Seq<nat>> {
    match spec_length(b) {
        Err(e) => Err(e),
        Ok((len, _)) => {
            if b.len() < 4 + width * len {
                Err(NbtError::UnexpectedEnd)
            } else {
                Ok((Seq::new(len as nat, |i: int| element(b, width, i)), 4 + width * len))
            }
        },
    }
}

/// The content of a tag of type `type_id` at the start of `b`.
#[verifier::opaque]
pub open spec fn spec_content(b: Seq<u8>, type_id: u8) -> Parsed<TagView>
    decreases b.len(), 1int, 0int,
{
    if type_id == 1 {
        match spec_unsigned(b, 1) {
            Err(e) => Err(e),
            Ok((v, used)) => Ok((TagView::Byte(to_i8(v)), used)),
        }
    } else if type_id == 2 {
        match spec_unsigned(b, 2) {
            Err(e) => Err(e),
            Ok((v, used)) => Ok((TagView::Short(to_i16(v)), used)),
        }
    } else if type_id == 3 {
        match spec_unsigned(b, 4) {
            Err(e) => Err(e),
            Ok((v, used)) => Ok((TagView::Int(to_i32(v)), used)),
        }
    } else if type_id == 4 {
        match spec_unsigned(b, 8) {
            Err(e) => Err(e),
            Ok((v, used)) => Ok(
                (TagView::Long(to_i64(v)), used),
            ),
        }
    } else if type_id == 5 {
        match spec_unsigned(b, 4) {
            Err(e) => Err(e),
            Ok((v, used)) => Ok((TagView::Float(to_u32(v)), used)),
        }
    } else if type_id == 6 {
        match spec_unsigned(b, 8) {
            Err(e) => Err(e),
            Ok((v, used)) => Ok((TagView::Double(to_u64(v)), used)),
        }
    } else if type_id == 7 {
        match spec_array(b, 1) {
            Err(e) => Err(e),
            Ok((v, used)) => Ok(
                (TagView::ByteArray(v.map_values(|e: nat| to_i8(e))), used),
            ),
        }
    } else if type_id == 8 {
        match spec_string(b) {
            Err(e) => Err(e),
            Ok((v, used)) => Ok((TagView::String(v), used)),
        }
    } else if type_id == 9 {
        match spec_u8(b) {
            Err(e) => Err(e),
            Ok((elem, _)) => match spec_length(b.skip(1)) {
                Err(e) => Err(e),
                Ok((len, _)) => match spec_items(b.skip(5), elem, len as nat) {
                    Err(e) => Err(e),
                    Ok((items, used)) => Ok((TagView::List(items), 5 + used)),
                },
            },
        }
    } else if type_id == 10 {
        match spec_entries(b) {
            Err(e) => Err(e),
            Ok((entries, used)) => Ok((TagView::Compound(entries), used)),
        }
    } else if type_id == 11 {
        match spec_array(b, 4) {
            Err(e) => Err(e),
            Ok((v, used)) => Ok(
                (TagView::IntArray(v.map_values(|e: nat| to_i32(e))), used),
            ),
        }
    } else if type_id == 12 {
        match spec_array(b, 8) {
            Err(e) => Err(e),
            Ok((v, used)) => Ok(
                (
                    TagView::LongArray(
                        v.map_values(|e: nat| to_i64(e)),
                    ),
                    used,
                ),
            ),
        }
    } else {
        Err(NbtError::InvalidTypeId(type_id))
    }
}

/// The `n` contents of type `elem` that stand one after the other at the
/// start of `b`: the items of a list.
#[verifier::opaque]
pub open spec fn spec_items(b: Seq<u8>, elem: u8, n: nat) -> Parsed<Seq<TagView>>
    decreases b.len(), 2int, n,
{
    if n == 0 {
        Ok((Seq::empty(), 0))
    } else {
        match spec_content(b, elem) {
            Err(e) => Err(e),
            Ok((first, used)) => {
                if used < 0 || used > b.len() {
                    Err(NbtError::UnexpectedEnd)
                } else {
                    match spec_items(b.skip(used), elem, (n - 1) as nat) {
                        Err(e) => Err(e),
                        Ok((rest, more)) => Ok((seq![first] + rest, used + more)),
                    }
                }
            },
        }
    }
}

/// The entries of a compound at the start of `b`: tags, each with its
/// head and its content, up to a head that ends the compound.
#[verifier::opaque]
pub open spec fn spec_entries(b: Seq<u8>) -> Parsed<Seq<(Seq<char>, TagView)>>
    decreases b.len(), 0int, 0int,
{
    match spec_meta(b) {
        Err(e) => Err(e),
        Ok(((type_id, name), head)) => {
            if type_id == 0 {
                Ok((Seq::empty(), head))
            } else if head < 1 || head > b.len() {
                Err(NbtError::UnexpectedEnd)
            } else {
                match spec_content(b.skip(head), type_id) {
                    Err(e) => Err(e),
                    Ok((tag, used)) => {
                        if used < 0 || head + used > b.len() {
                            Err(NbtError::UnexpectedEnd)
                        } else {
                            match spec_entries(b.skip(head + used)) {
                                Err(e) => Err(e),
                                Ok((rest, more)) => Ok(
                                    (seq![(name, tag)] + rest, head + used + more),
                                ),
                            }
                        }
                    },
                }
            }
        },
    }
}

/// The document at the start of `b`: the head of a compound, then the
/// compound.
pub open spec fn spec_data(b: Seq<u8>) -> Parsed<(Seq<char>, TagView)> {
    match spec_meta(b) {
        Err(e) => Err(e),
        Ok(((type_id, name), head)) => {
            if type_id != 10 {
                Err(NbtError::InvalidRoot)
            } else {
                match spec_content(b.skip(head), type_id) {
                    Err(e) => Err(e),
                    Ok((tag, used)) => Ok(((name, tag), head + used)),
                }
            }
        },
    }
}

/// Bytes to read tags from, and how far they have been read.
///
/// Reading either succeeds and moves the reader past what was read, or
/// fails and leaves the reader where it was.
#[derive(Clone, Copy)]
pub struct Reader<'a> {
    bytes: &'a [u8],
    pos: usize,
}

impl<'a> Reader<'a> {
    #[verifier::type_invariant]
    spec fn in_bounds(&self) -> bool {
        self.pos <= self.bytes@.len()
    }

    /// The bytes that have not been read yet.
    pub closed spec fn remaining(&self) -> Seq<u8> {
        self.bytes@.skip(self.pos as int)
    }

    /// A reader at the start of `bytes`.
    pub fn new(bytes: &'a [u8]) -> (read: Reader<'a>)
        ensures
            read.remaining() == bytes@,
    {
        assert(bytes@.skip(0) =~= bytes@);
        Reader { bytes, pos: 0 }
    }

    /// How many bytes have not been read yet.
    pub fn remaining_len(&self) -> (n: usize)
        ensures
            n == self.remaining().len(),
    {
        proof {
            use_type_invariant(self);
        }
        self.bytes.len() - self.pos
    }

    /// The next `n` bytes, if there are so many.
    fn take(&mut self, n: usize) -> (r: Option<&'a [u8]>)
        ensures
            match r {
                Some(part) => {
                    &&& n <= old(self).remaining().len()
                    &&& part@ == old(self).remaining().take(n as int)
                    &&& final(self).remaining() == old(self).remaining().skip(n as int)
                },
                None => n > old(self).remaining().len() && *final(self) == *old(self),
            },
    {
        proof {
            use_type_invariant(&*self);
        }
        if n > self.bytes.len() - self.pos {
            return None;
        }
        let part = slice_subrange(self.bytes, self.pos, self.pos + n);
        assert(part@ =~= self.remaining().take(n as int));
        assert(self.bytes@.skip(self.pos + n) =~= self.remaining().skip(n as int));
        self.pos = self.pos + n;
        Some(part)
    }
}

/// Whether reading ended as `expected` says: with the value, the reader
/// past the bytes of the value; or with the error, the reader where it
/// was.
pub open spec fn outcome<'a, V>(
    before: &Reader<'a>,
    after: &Reader<'a>,
    expected: Parsed<V>,
    got: NbtResult<V>,
) -> bool {
    match expected {
        Ok((value, used)) => {
            &&& got == Ok::<V, NbtError>(value)
            &&& 0 <= used <= before.remaining().len()
            &&& after.remaining() == before.remaining().skip(used)
        },
        Err(e) => got == Err::<V, NbtError>(e) && *after == *before,
    }
}

/// What a result of reading a tag's head stands for.
pub open spec fn meta_view(r: NbtResult<(u8, String)>) -> NbtResult<(u8, Seq<char>)> {
    match r {
        Ok((type_id, name)) => Ok((type_id, name@)),
        Err(e) => Err(e),
    }
}

/// What a result of reading a string stands for.
pub open spec fn string_view(r: NbtResult<String>) -> NbtResult<Seq<char>> {
    match r {
        Ok(text) => Ok(text@),
        Err(e) => Err(e),
    }
}

/// What a result of reading a content stands for.
pub open spec fn tag_view(r: NbtResult<Tag>) -> NbtResult<TagView> {
    match r {
        Ok(tag) => Ok(tag@),
        Err(e) => Err(e),
    }
}

/// What a result of reading a document stands for.
pub open spec fn data_view(r: NbtResult<Data>) -> NbtResult<(Seq<char>, TagView)> {
    match r {
        Ok(data) => Ok((data.spec_root_name(), data.spec_root_tag())),
        Err(e) => Err(e),
    }
}

/// Reads a byte.
fn read_u8(read: &mut Reader) -> (r: NbtResult<u8>)
    ensures
        outcome(old(read), final(read), spec_u8(old(read).remaining()), r),
{
    match read.take(1) {
        Some(part) => Ok(part[0]),
        None => Err(NbtError::UnexpectedEnd),
    }
}

/// Reads the length of an array or a list.
fn read_length(read: &mut Reader) -> (r: NbtResult<usize>)
    ensures
        outcome(
            old(read),
            final(read),
            spec_length(old(read).remaining()),
            match r {
                Ok(len) => Ok(len as int),
                Err(e) => Err(e),
            },
        ),
        r matches Ok(len) ==> len <= i32::MAX,
{
    let start = *read;
    match read.take(4) {
        Some(part) => {
            assert(part@.take(4) =~= part@);
            proof {
                lemma_be_value_bound(part@);
            }
            let len: i32 = be_i32(part);
            if len < 0 {
                *read = start;
                Err(NbtError::NegativeLength(len))
            } else {
                Ok(len as usize)
            }
        },
        None => Err(NbtError::UnexpectedEnd),
    }
}

/// Reads a string: its length in bytes as an unsigned 16-bit integer, then
/// the bytes, which must be UTF-8. Where the input ends before the string
/// does, the bytes that are missing count as zero.
pub fn read_string(read: &mut Reader) -> (r: NbtResult<String>)
    ensures
        outcome(old(read), final(read), spec_string(old(read).remaining()), string_view(r)),
{
    let ghost b = read.remaining();
    let start = *read;
    let head = match read.take(2) {
        Some(head) => head,
        None => {
            return Err(NbtError::UnexpectedEnd);
        },
    };
    assert(head@.take(2) =~= head@);
    let len: usize = be_u16(head) as usize;
    let left: usize = read.remaining_len();
    let there: usize = if left < len {
        left
    } else {
        len
    };
    let part = match read.take(there) {
        Some(part) => part,
        None => {
            *read = start;
            return Err(NbtError::UnexpectedEnd);
        },
    };
    proof {
        assert(part@ =~= b.subrange(2, 2 + there));
        assert(read.remaining() =~= b.skip(2 + there));
    }
    let mut raw: Vec<u8> = slice_to_vec(part);
    while raw.len() < len
        invariant
            there <= raw@.len() <= len,
            raw@ =~= part@ + Seq::new((raw@.len() - there) as nat, |i: int| 0u8),
            part@.len() == there,
        decreases len - raw@.len(),
    {
        raw.push(0);
    }
    match decode_text(raw) {
        Some(text) => Ok(text),
        None => {
            *read = start;
            Err(NbtError::InvalidUtf8)
        },
    }
}

/// Reads the head of a tag: the type number and, unless the number is
/// that of the end of a compound, the name.
pub fn read_meta(read: &mut Reader) -> (r: NbtResult<(u8, String)>)
    ensures
        outcome(old(read), final(read), spec_meta(old(read).remaining()), meta_view(r)),
{
    let ghost b = read.remaining();
    let start = *read;
    let type_id: u8 = match read_u8(read) {
        Ok(type_id) => type_id,
        Err(e) => {
            return Err(e);
        },
    };
    if type_id == TYPE_ID_END {
        Ok((TYPE_ID_END, String::new()))
    } else if type_id <= 12 {
        let r = read_string(read);
        proof {
            if let Ok((_, used)) = spec_string(b.skip(1)) {
                assert(b.skip(1).skip(used) =~= b.skip(1 + used));
            }
        }
        match r {
            Ok(name) => Ok((type_id, name)),
            Err(e) => {
                *read = start;
                Err(e)
            },
        }
    } else {
        *read = start;
        Err(NbtError::InvalidTypeId(type_id))
    }
}

/// Reads the content of an array of bytes: the length, then the bytes.
pub fn read_byte_array_content(read: &mut Reader) -> (r: NbtResult<Tag>)
    ensures
        outcome(
            old(read),
            final(read),
            spec_content(old(read).remaining(), TYPE_ID_BYTE_ARRAY),
            tag_view(r),
        ),
{
    proof {
        reveal_with_fuel(spec_content, 1);
        reveal_with_fuel(spec_items, 1);
        reveal_with_fuel(spec_entries, 1);
    }
    let ghost b = read.remaining();
    let start = *read;
    let len: usize = match read_length(read) {
        Ok(len) => len,
        Err(e) => {
            return Err(e);
        },
    };
    let part = match read.take(len) {
        Some(part) => part,
        None => {
            *read = start;
            return Err(NbtError::UnexpectedEnd);
        },
    };
    proof {
        assert(read.remaining() =~= b.skip(4 + len));
    }
    let mut buf: Vec<i8> = Vec::new();
    let mut i: usize = 0;
    while i < len
        invariant
            i <= len,
            part@.len() == len,
            buf@.len() == i,
            forall|j: int| 0 <= j < i ==> buf@[j] == to_i8(part@[j] as nat),
        decreases len - i,
    {
        let byte: u8 = part[i];
        let value: i8 = if byte >= 128 {
            (byte as i16 - 256) as i8
        } else {
            byte as i8
        };
        buf.push(value);
        i += 1;
    }
    proof {
        let expected = Seq::new(len as nat, |i: int| element(b, 1, i));
        assert forall|j: int| 0 <= j < len implies buf@[j] == to_i8(expected[j]) by {
            assert(b.subrange(4 + 1 * j, 4 + 1 * j + 1) =~= seq![part@[j]]);
            lemma_be_value_one(seq![part@[j]]);
        }
        assert(buf@ =~= expected.map_values(|e: nat| to_i8(e)));
    }
    Ok(Tag::ByteArray(buf))
}

/// Reads the content of an array of 32-bit integers: the length, then the
/// integers.
pub fn read_int_array_content(read: &mut Reader) -> (r: NbtResult<Tag>)
    ensures
        outcome(
            old(read),
            final(read),
            spec_content(old(read).remaining(), TYPE_ID_INT_ARRAY),
            tag_view(r),
        ),
{
    proof {
        reveal_with_fuel(spec_content, 1);
        reveal_with_fuel(spec_items, 1);
        reveal_with_fuel(spec_entries, 1);
    }
    let ghost b = read.remaining();
    let start = *read;
    let len: usize = match read_length(read) {
        Ok(len) => len,
        Err(e) => {
            return Err(e);
        },
    };
    if (read.remaining_len() as u64) < (len as u64) * 4 {
        *read = start;
        return Err(NbtError::UnexpectedEnd);
    }
    let mut buf: Vec<i32> = Vec::new();
    let mut i: usize = 0;
    while i < len
        invariant
            i <= len,
            b.len() >= 4 + 4 * len,
            read.remaining() == b.skip(4 + 4 * i),
            buf@.len() == i,
            forall|j: int| 0 <= j < i ==> buf@[j] == to_i32(element(b, 4, j)),
        decreases len - i,
    {
        match read.take(4) {
            Some(part) => {
                proof {
                    assert(part@.take(4) =~= b.subrange(4 + 4 * i, 4 + 4 * i + 4));
                    assert(read.remaining() =~= b.skip(4 + 4 * (i + 1)));
                }
                buf.push(be_i32(part));
            },
            None => {
                assert(false);
            },
        }
        i += 1;
    }
    proof {
        let expected = Seq::new(len as nat, |i: int| element(b, 4, i));
        assert(buf@ =~= expected.map_values(|e: nat| to_i32(e)));
    }
    Ok(Tag::IntArray(buf))
}

/// Reads the content of an array of 64-bit integers: the length, then the
/// integers.
pub fn read_long_array_content(read: &mut Reader) -> (r: NbtResult<Tag>)
    ensures
        outcome(
            old(read),
            final(read),
            spec_content(old(read).remaining(), TYPE_ID_LONG_ARRAY),
            tag_view(r),
        ),
{
    proof {
        reveal_with_fuel(spec_content, 1);
        reveal_with_fuel(spec_items, 1);
        reveal_with_fuel(spec_entries, 1);
    }
    let ghost b = read.remaining();
    let start = *read;
    let len: usize = match read_length(read) {
        Ok(len) => len,
        Err(e) => {
            return Err(e);
        },
    };
    if (read.remaining_len() as u64) < (len as u64) * 8 {
        *read = start;
        return Err(NbtError::UnexpectedEnd);
    }
    let mut buf: Vec<i64> = Vec::new();
    let mut i: usize = 0;
    while i < len
        invariant
            i <= len,
            b.len() >= 4 + 8 * len,
            read.remaining() == b.skip(4 + 8 * i),
            buf@.len() == i,
            forall|j: int| 0 <= j < i ==> buf@[j] == to_i64(element(b, 8, j)),
        decreases len - i,
    {
        match read.take(8) {
            Some(part) => {
                proof {
                    assert(part@.take(8) =~= b.subrange(4 + 8 * i, 4 + 8 * i + 8));
                    assert(read.remaining() =~= b.skip(4 + 8 * (i + 1)));
                }
                buf.push(be_i64(part));
            },
            None => {
                assert(false);
            },
        }
        i += 1;
    }
    proof {
        let expected = Seq::new(len as nat, |i: int| element(b, 8, i));
        assert(buf@ =~= expected.map_values(|e: nat| to_i64(e)));
    }
    Ok(Tag::LongArray(buf))
}

/// A list stands for the items that its tags stand for.
proof fn lemma_list_view(items: Vec<Tag>, done: Seq<TagView>)
    requires
        done.len() == items@.len(),
        forall|j: int| 0 <= j < done.len() ==> done[j] == items@[j]@,
    ensures
        Tag::List(items)@ == TagView::List(done),
{
    lemma_items_view_of(items@);
    assert forall|j: int| 0 <= j < done.len() implies items_view_of(items@)[j] == done[j] by {
        let item = items@[j];
        assert(done[j] == item@);
    }
    assert(items_view_of(items@) =~= done);
}

/// A compound stands for the entries that its names and tags stand for.
proof fn lemma_compound_view(entries: Vec<(String, Tag)>, done: Seq<(Seq<char>, TagView)>)
    requires
        done.len() == entries@.len(),
        forall|j: int|
            0 <= j < done.len() ==> done[j] == (entries@[j].0@, (#[trigger] entries@[j]).1@),
    ensures
        Tag::Compound(entries)@ == TagView::Compound(done),
{
    lemma_entries_view_of(entries@);
    assert forall|j: int| 0 <= j < done.len() implies entries_view_of(entries@)[j] == done[j] by {
        let entry = entries@[j];
        assert(done[j] == (entry.0@, entry.1@));
    }
    assert(entries_view_of(entries@) =~= done);
}

/// The items that were read, followed by those that are still to be read.
pub open spec fn after_items(done: Seq<TagView>, used: int, rest: Parsed<Seq<TagView>>) -> Parsed<
    Seq<TagView>,
> {
    match rest {
        Err(e) => Err(e),
        Ok((items, more)) => Ok((done + items, used + more)),
    }
}

/// The entries that were read, followed by those that are still to be read.
pub open spec fn after_entries(
    done: Seq<(Seq<char>, TagView)>,
    used: int,
    rest: Parsed<Seq<(Seq<char>, TagView)>>,
) -> Parsed<Seq<(Seq<char>, TagView)>> {
    match rest {
        Err(e) => Err(e),
        Ok((entries, more)) => Ok((done + entries, used + more)),
    }
}

/// A list is the type number of its items, their count and the items.
proof fn lemma_list_content(b: Seq<u8>)
    ensures
        spec_content(b, TYPE_ID_LIST) == match spec_u8(b) {
            Err(e) => Err::<(TagView, int), NbtError>(e),
            Ok((elem, _)) => match spec_length(b.skip(1)) {
                Err(e) => Err(e),
                Ok((len, _)) => match spec_items(b.skip(5), elem, len as nat) {
                    Err(e) => Err(e),
                    Ok((items, used)) => Ok((TagView::List(items), 5 + used)),
                },
            },
        },
{
    reveal_with_fuel(spec_content, 1);
    reveal_with_fuel(spec_items, 1);
    reveal_with_fuel(spec_entries, 1);
}

/// A compound is its entries.
proof fn lemma_compound_content(b: Seq<u8>)
    ensures
        spec_content(b, TYPE_ID_COMPOUND) == match spec_entries(b) {
            Err(e) => Err::<(TagView, int), NbtError>(e),
            Ok((entries, used)) => Ok((TagView::Compound(entries), used)),
        },
{
    reveal_with_fuel(spec_content, 1);
    reveal_with_fuel(spec_items, 1);
    reveal_with_fuel(spec_entries, 1);
}

/// Before any item is read, all are still to be read.
proof fn lemma_items_start(s: Seq<u8>, elem: u8, n: nat)
    ensures
        after_items(Seq::empty(), 0, spec_items(s.skip(0), elem, n)) == spec_items(s, elem, n),
{
    assert(s.skip(0) =~= s);
    if let Ok((all, _)) = spec_items(s, elem, n) {
        assert(Seq::<TagView>::empty() + all =~= all);
    }
}

/// Once an item is read, it counts among those that were read.
proof fn lemma_items_step(cur: Seq<u8>, elem: u8, n: nat, done: Seq<TagView>, used: int)
    requires
        n > 0,
        spec_content(cur, elem) is Ok,
        0 <= spec_content(cur, elem)->Ok_0.1 <= cur.len(),
    ensures
        after_items(done, used, spec_items(cur, elem, n)) == after_items(
            done.push(spec_content(cur, elem)->Ok_0.0),
            used + spec_content(cur, elem)->Ok_0.1,
            spec_items(cur.skip(spec_content(cur, elem)->Ok_0.1), elem, (n - 1) as nat),
        ),
{
    reveal_with_fuel(spec_content, 1);
    reveal_with_fuel(spec_items, 1);
    reveal_with_fuel(spec_entries, 1);
    let view = spec_content(cur, elem)->Ok_0.0;
    let u = spec_content(cur, elem)->Ok_0.1;
    if let Ok((more, _)) = spec_items(cur.skip(u), elem, (n - 1) as nat) {
        assert(done + (seq![view] + more) =~= done.push(view) + more);
    }
}

/// An item that cannot be read fails the list.
proof fn lemma_items_fail(cur: Seq<u8>, elem: u8, n: nat, done: Seq<TagView>, used: int)
    requires
        n > 0,
        spec_content(cur, elem) is Err,
    ensures
        after_items(done, used, spec_items(cur, elem, n)) == Err::<(Seq<TagView>, int), NbtError>(
            spec_content(cur, elem)->Err_0,
        ),
{
    reveal_with_fuel(spec_content, 1);
    reveal_with_fuel(spec_items, 1);
    reveal_with_fuel(spec_entries, 1);
}

/// When no item is left, the list is the items that were read.
proof fn lemma_items_end(cur: Seq<u8>, elem: u8, done: Seq<TagView>, used: int)
    ensures
        after_items(done, used, spec_items(cur, elem, 0)) == Ok::<(Seq<TagView>, int), NbtError>(
            (done, used),
        ),
{
    reveal_with_fuel(spec_content, 1);
    reveal_with_fuel(spec_items, 1);
    reveal_with_fuel(spec_entries, 1);
    assert(done + Seq::<TagView>::empty() =~= done);
}

/// Before any entry is read, all are still to be read.
proof fn lemma_entries_start(b: Seq<u8>)
    ensures
        after_entries(Seq::empty(), 0, spec_entries(b.skip(0))) == spec_entries(b),
{
    assert(b.skip(0) =~= b);
    if let Ok((all, _)) = spec_entries(b) {
        assert(Seq::<(Seq<char>, TagView)>::empty() + all =~= all);
    }
}

/// A head that cannot be read fails the compound.
proof fn lemma_entries_head_fail(cur: Seq<u8>, done: Seq<(Seq<char>, TagView)>, used: int)
    requires
        spec_meta(cur) is Err,
    ensures
        after_entries(done, used, spec_entries(cur)) == Err::<
            (Seq<(Seq<char>, TagView)>, int),
            NbtError,
        >(spec_meta(cur)->Err_0),
{
    reveal_with_fuel(spec_content, 1);
    reveal_with_fuel(spec_items, 1);
    reveal_with_fuel(spec_entries, 1);
}

/// At the head that ends the compound, the compound is the entries that
/// were read.
proof fn lemma_entries_end(cur: Seq<u8>, done: Seq<(Seq<char>, TagView)>, used: int)
    requires
        spec_meta(cur) is Ok,
        spec_meta(cur)->Ok_0.0.0 == 0,
    ensures
        after_entries(done, used, spec_entries(cur)) == Ok::<
            (Seq<(Seq<char>, TagView)>, int),
            NbtError,
        >((done, used + spec_meta(cur)->Ok_0.1)),
{
    reveal_with_fuel(spec_content, 1);
    reveal_with_fuel(spec_items, 1);
    reveal_with_fuel(spec_entries, 1);
    assert(done + Seq::<(Seq<char>, TagView)>::empty() =~= done);
}

/// A content that cannot be read fails the compound.
proof fn lemma_entries_content_fail(cur: Seq<u8>, done: Seq<(Seq<char>, TagView)>, used: int)
    requires
        spec_meta(cur) is Ok,
        spec_meta(cur)->Ok_0.0.0 != 0,
        1 <= spec_meta(cur)->Ok_0.1 <= cur.len(),
        spec_content(cur.skip(spec_meta(cur)->Ok_0.1), spec_meta(cur)->Ok_0.0.0) is Err,
    ensures
        after_entries(done, used, spec_entries(cur)) == Err::<
            (Seq<(Seq<char>, TagView)>, int),
            NbtError,
        >(spec_content(cur.skip(spec_meta(cur)->Ok_0.1), spec_meta(cur)->Ok_0.0.0)->Err_0),
{
    reveal_with_fuel(spec_content, 1);
    reveal_with_fuel(spec_items, 1);
    reveal_with_fuel(spec_entries, 1);
}

/// Once an entry is read, it counts among those that were read.
proof fn lemma_entries_step(cur: Seq<u8>, done: Seq<(Seq<char>, TagView)>, used: int)
    requires
        spec_meta(cur) is Ok,
        spec_meta(cur)->Ok_0.0.0 != 0,
        1 <= spec_meta(cur)->Ok_0.1 <= cur.len(),
        spec_content(cur.skip(spec_meta(cur)->Ok_0.1), spec_meta(cur)->Ok_0.0.0) is Ok,
        0 <= spec_content(cur.skip(spec_meta(cur)->Ok_0.1), spec_meta(cur)->Ok_0.0.0)->Ok_0.1
            <= cur.len() - spec_meta(cur)->Ok_0.1,
    ensures
        ({
            let name = spec_meta(cur)->Ok_0.0.1;
            let head = spec_meta(cur)->Ok_0.1;
            let content = spec_content(cur.skip(head), spec_meta(cur)->Ok_0.0.0)->Ok_0;
            after_entries(done, used, spec_entries(cur)) == after_entries(
                done.push((name, content.0)),
                used + head + content.1,
                spec_entries(cur.skip(head + content.1)),
            )
        }),
{
    reveal_with_fuel(spec_content, 1);
    reveal_with_fuel(spec_items, 1);
    reveal_with_fuel(spec_entries, 1);
    let name = spec_meta(cur)->Ok_0.0.1;
    let head = spec_meta(cur)->Ok_0.1;
    let content = spec_content(cur.skip(head), spec_meta(cur)->Ok_0.0.0)->Ok_0;
    if let Ok((more, _)) = spec_entries(cur.skip(head + content.1)) {
        assert(done + (seq![(name, content.0)] + more) =~= done.push((name, content.0)) + more);
    }
}

/// Reads the content of a tag of type `type_id`. A type number that
/// stands for no type, or for the end of a compound, is an error.
pub fn read_content(read: &mut Reader, type_id: u8) -> (r: NbtResult<Tag>)
    ensures
        outcome(old(read), final(read), spec_content(old(read).remaining(), type_id), tag_view(r)),
    decreases old(read).remaining().len(), 1int,
{
    if type_id == TYPE_ID_BYTE_ARRAY {
        read_byte_array_content(read)
    } else if type_id == TYPE_ID_LIST {
        read_list_content(read)
    } else if type_id == TYPE_ID_COMPOUND {
        read_compound_content(read)
    } else if type_id == TYPE_ID_INT_ARRAY {
        read_int_array_content(read)
    } else if type_id == TYPE_ID_LONG_ARRAY {
        read_long_array_content(read)
    } else {
        read_plain_content(read, type_id)
    }
}

/// Reads the content of a tag that holds one number or one string.
fn read_plain_content(read: &mut Reader, type_id: u8) -> (r: NbtResult<Tag>)
    requires
        type_id != TYPE_ID_BYTE_ARRAY,
        type_id != TYPE_ID_LIST,
        type_id != TYPE_ID_COMPOUND,
        type_id != TYPE_ID_INT_ARRAY,
        type_id != TYPE_ID_LONG_ARRAY,
    ensures
        outcome(old(read), final(read), spec_content(old(read).remaining(), type_id), tag_view(r)),
{
    proof {
        reveal_with_fuel(spec_content, 1);
        reveal_with_fuel(spec_items, 1);
        reveal_with_fuel(spec_entries, 1);
    }
    if type_id == TYPE_ID_BYTE {
        match read.take(1) {
            Some(part) => {
                proof {
                    assert(part@.take(1) =~= part@);
                    lemma_be_value_one(part@);
                }
                let byte: u8 = part[0];
                let value: i8 = if byte >= 128 {
                    (byte as i16 - 256) as i8
                } else {
                    byte as i8
                };
                Ok(Tag::Byte(value))
            },
            None => Err(NbtError::UnexpectedEnd),
        }
    } else if type_id == TYPE_ID_SHORT {
        match read.take(2) {
            Some(part) => {
                assert(part@.take(2) =~= part@);
                Ok(Tag::Short(be_i16(part)))
            },
            None => Err(NbtError::UnexpectedEnd),
        }
    } else if type_id == TYPE_ID_INT {
        match read.take(4) {
            Some(part) => {
                assert(part@.take(4) =~= part@);
                Ok(Tag::Int(be_i32(part)))
            },
            None => Err(NbtError::UnexpectedEnd),
        }
    } else if type_id == TYPE_ID_LONG {
        match read.take(8) {
            Some(part) => {
                assert(part@.take(8) =~= part@);
                Ok(Tag::Long(be_i64(part)))
            },
            None => Err(NbtError::UnexpectedEnd),
        }
    } else if type_id == TYPE_ID_FLOAT {
        match read.take(4) {
            Some(part) => {
                proof {
                    assert(part@.take(4) =~= part@);
                    lemma_be_value_bound(part@);
                }
                Ok(Tag::Float(be_u32(part)))
            },
            None => Err(NbtError::UnexpectedEnd),
        }
    } else if type_id == TYPE_ID_DOUBLE {
        match read.take(8) {
            Some(part) => {
                proof {
                    assert(part@.take(8) =~= part@);
                    lemma_be_value_bound(part@);
                }
                Ok(Tag::Double(be_u64(part)))
            },
            None => Err(NbtError::UnexpectedEnd),
        }
    } else if type_id == TYPE_ID_STRING {
        match read_string(read) {
            Ok(text) => Ok(Tag::String(text)),
            Err(e) => Err(e),
        }
    } else {
        Err(NbtError::InvalidTypeId(type_id))
    }
}

/// Reads the content of a list: the type number of the items, their
/// count, then the contents of the items.
pub fn read_list_content(read: &mut Reader) -> (r: NbtResult<Tag>)
    ensures
        outcome(
            old(read),
            final(read),
            spec_content(old(read).remaining(), TYPE_ID_LIST),
            tag_view(r),
        ),
    decreases old(read).remaining().len(), 0int,
{
    let ghost b = read.remaining();
    let start = *read;
    proof {
        lemma_list_content(b);
    }
    let elem: u8 = match read_u8(read) {
        Ok(elem) => elem,
        Err(e) => {
            return Err(e);
        },
    };
    let len: usize = match read_length(read) {
        Ok(len) => len,
        Err(e) => {
            *read = start;
            return Err(e);
        },
    };
    let ghost s = read.remaining();
    proof {
        assert(s =~= b.skip(5));
        assert(s.skip(0) =~= s);
        lemma_items_start(s, elem, len as nat);
    }
    let mut items: Vec<Tag> = Vec::new();
    let ghost mut done: Seq<TagView> = Seq::empty();
    let ghost mut used: int = 0;
    let mut i: usize = 0;
    while i < len
        invariant
            i <= len,
            start == *old(read),
            b == old(read).remaining(),
            0 <= used <= s.len(),
            read.remaining() == s.skip(used),
            s == b.skip(5),
            5 <= b.len(),
            items@.len() == i,
            done.len() == i,
            forall|j: int| 0 <= j < i ==> done[j] == items@[j]@,
            spec_items(s, elem, len as nat) == after_items(
                done,
                used,
                spec_items(s.skip(used), elem, (len - i) as nat),
            ),
            spec_content(b, TYPE_ID_LIST) == match spec_items(s, elem, len as nat) {
                Err(e) => Err::<(TagView, int), NbtError>(e),
                Ok((items, used)) => Ok((TagView::List(items), 5 + used)),
            },
        decreases len - i,
    {
        let ghost cur = read.remaining();
        match read_content(read, elem) {
            Err(e) => {
                proof {
                    lemma_items_fail(cur, elem, (len - i) as nat, done, used);
                }
                *read = start;
                return Err(e);
            },
            Ok(tag) => {
                proof {
                    let view = spec_content(cur, elem)->Ok_0.0;
                    let u = spec_content(cur, elem)->Ok_0.1;
                    lemma_items_step(cur, elem, (len - i) as nat, done, used);
                    assert(s.skip(used).skip(u) =~= s.skip(used + u));
                    done = done.push(view);
                    used = used + u;
                }
                items.push(tag);
                i += 1;
            },
        }
    }
    proof {
        lemma_items_end(s.skip(used), elem, done, used);
        assert(b.skip(5).skip(used) =~= b.skip(5 + used));
        lemma_list_view(items, done);
    }
    Ok(Tag::List(items))
}

/// Reads the content of a compound: tags, each with its head and its
/// content, up to a head that ends the compound.
pub fn read_compound_content(read: &mut Reader) -> (r: NbtResult<Tag>)
    ensures
        outcome(
            old(read),
            final(read),
            spec_content(old(read).remaining(), TYPE_ID_COMPOUND),
            tag_view(r),
        ),
    decreases old(read).remaining().len(), 0int,
{
    let ghost b = read.remaining();
    let start = *read;
    proof {
        lemma_compound_content(b);
        lemma_entries_start(b);
    }
    let mut entries: Vec<(String, Tag)> = Vec::new();
    let ghost mut done: Seq<(Seq<char>, TagView)> = Seq::empty();
    let ghost mut used: int = 0;
    loop
        invariant
            start == *old(read),
            b == start.remaining(),
            0 <= used <= b.len(),
            read.remaining() == b.skip(used),
            entries@.len() == done.len(),
            forall|j: int|
                0 <= j < done.len() ==> done[j] == (entries@[j].0@, (#[trigger] entries@[j]).1@),
            spec_entries(b) == after_entries(done, used, spec_entries(b.skip(used))),
            spec_content(b, TYPE_ID_COMPOUND) == match spec_entries(b) {
                Err(e) => Err::<(TagView, int), NbtError>(e),
                Ok((entries, used)) => Ok((TagView::Compound(entries), used)),
            },
        decreases b.len() - used,
    {
        let ghost cur = read.remaining();
        let (type_id, name) = match read_meta(read) {
            Ok(meta) => meta,
            Err(e) => {
                proof {
                    lemma_entries_head_fail(cur, done, used);
                }
                *read = start;
                return Err(e);
            },
        };
        let ghost head = spec_meta(cur)->Ok_0.1;
        proof {
            assert(b.skip(used).skip(head) =~= b.skip(used + head));
        }
        if type_id == TYPE_ID_END {
            proof {
                lemma_entries_end(cur, done, used);
                lemma_compound_view(entries, done);
            }
            return Ok(Tag::Compound(entries));
        }
        match read_content(read, type_id) {
            Err(e) => {
                proof {
                    lemma_entries_content_fail(cur, done, used);
                }
                *read = start;
                return Err(e);
            },
            Ok(tag) => {
                proof {
                    let view = spec_content(cur.skip(head), type_id)->Ok_0.0;
                    let u = spec_content(cur.skip(head), type_id)->Ok_0.1;
                    lemma_entries_step(cur, done, used);
                    assert(cur.skip(head).skip(u) =~= cur.skip(head + u));
                    assert(b.skip(used).skip(head + u) =~= b.skip(used + head + u));
                    done = done.push((name@, view));
                    used = used + head + u;
                }
                entries.push((name, tag));
            },
        }
    }
}

/// Reading whole documents.
pub trait Read {
    /// Whether reading a document may turn `self` into `after` and give `r`.
    open spec fn data_outcome(&self, after: &Self, r: NbtResult<Data>) -> bool {
        true
    }

    /// Reads a document: the head of a compound, then the compound.
    fn read_nbt_data(&mut self) -> (r: NbtResult<Data>)
        ensures
            old(self).data_outcome(final(self), r),
    ;
}

impl<'a> Read for Reader<'a> {
    open spec fn data_outcome(&self, after: &Self, r: NbtResult<Data>) -> bool {
        outcome(self, after, spec_data(self.remaining()), data_view(r))
    }

    fn read_nbt_data(&mut self) -> (r: NbtResult<Data>) {
        let ghost b = self.remaining();
        let start = *self;
        let (root_id, root_name) = match read_meta(self) {
            Ok(meta) => meta,
            Err(e) => {
                return Err(e);
            },
        };
        if root_id != TYPE_ID_COMPOUND {
            *self = start;
            return Err(NbtError::InvalidRoot);
        }
        let ghost head = spec_meta(b)->Ok_0.1;
        let content = match read_content(self, root_id) {
            Ok(content) => content,
            Err(e) => {
                *self = start;
                return Err(e);
            },
        };
        proof {
            let u = spec_content(b.skip(head), root_id)->Ok_0.1;
            assert(b.skip(head).skip(u) =~= b.skip(head + u));
        }
        Ok(Data::new(root_name, content))
    }
}

} // verus!
