//! Records in MessagePack: their sizes, their encoding, and reading them
//! back.
use std::io::Cursor;
use vstd::prelude::*;
use vstd::utf8::{decode_utf8, valid_utf8};

verus! {

broadcast use vstd::slice::group_slice_axioms;

/// A value of a record.
#[derive(Debug)]
pub enum MsgObject {
    Array(Vec<Box<MsgObject>>),
    Bin(Vec<u8>),
    Dict(Vec<(String, Box<MsgObject>)>),
    UInt(u64),
    Bool(bool),
}

/// The `n` low bytes of a number, the first counting most.
pub open spec fn be_bytes(v: int, n: nat) -> Seq<u8>
    decreases n,
{
    if n == 0 {
        Seq::empty()
    } else {
        be_bytes(v / 256, (n - 1) as nat).push((v % 256) as u8)
    }
}

/// The encoding of an unsigned number: the shortest of the five forms.
pub open spec fn uint_bytes(v: u64) -> Seq<u8> {
    if v < 128 {
        seq![v as u8]
    } else if v < 256 {
        seq![0xccu8] + be_bytes(v as int, 1)
    } else if v < 65536 {
        seq![0xcdu8] + be_bytes(v as int, 2)
    } else if v < 4294967296 {
        seq![0xceu8] + be_bytes(v as int, 4)
    } else {
        seq![0xcfu8] + be_bytes(v as int, 8)
    }
}

/// The head of an array of `len` elements: the shortest of the three forms.
pub open spec fn array_len_bytes(len: u32) -> Seq<u8> {
    if len < 16 {
        seq![(0x90 + len) as u8]
    } else if len < 65536 {
        seq![0xdcu8] + be_bytes(len as int, 2)
    } else {
        seq![0xddu8] + be_bytes(len as int, 4)
    }
}

/// The head of a run of `len` bytes: the shortest of the three forms.
pub open spec fn bin_len_bytes(len: u32) -> Seq<u8> {
    if len < 256 {
        seq![0xc4u8] + be_bytes(len as int, 1)
    } else if len < 65536 {
        seq![0xc5u8] + be_bytes(len as int, 2)
    } else {
        seq![0xc6u8] + be_bytes(len as int, 4)
    }
}

/// `rmp::encode::write_uint` on a vector: appends the encoding of `val`, in
/// the form with the fewest bytes. Writing to a vector does not fail.
#[verifier::external_body]
pub(crate) fn write_uint(buf: &mut Vec<u8>, val: u64)
    ensures
        final(buf)@ == old(buf)@ + uint_bytes(val),
{
    rmp::encode::write_uint(buf, val).unwrap();
}

/// `rmp::encode::write_array_len` on a vector: appends the head of an array
/// of `len` elements, in the form with the fewest bytes.
#[verifier::external_body]
pub(crate) fn write_array_len(buf: &mut Vec<u8>, len: u32)
    ensures
        final(buf)@ == old(buf)@ + array_len_bytes(len),
{
    rmp::encode::write_array_len(buf, len).unwrap();
}

/// `rmp::encode::write_bin_len` on a vector: appends the head of a run of
/// `len` bytes, in the form with the fewest bytes.
#[verifier::external_body]
pub(crate) fn write_bin_len(buf: &mut Vec<u8>, len: u32)
    ensures
        final(buf)@ == old(buf)@ + bin_len_bytes(len),
{
    rmp::encode::write_bin_len(buf, len).unwrap();
}

/// Whether a value can be encoded: a number of 32 bits, a run of 1 to 2^32 - 1
/// bytes, or an array of at most 255 such values.
pub open spec fn encodable(object: MsgObject) -> bool
    decreases object,
{
    match object {
        MsgObject::Array(vec) => vec@.len() <= 255 && forall|i: int|
            0 <= i < vec@.len() ==> encodable(*#[trigger] vec@[i]),
        MsgObject::Bin(bin) => 1 <= bin@.len() <= u32::MAX,
        MsgObject::UInt(data) => data <= u32::MAX,
        _ => false,
    }
}

/// The size stated for the head of an array of `len` elements.
pub fn get_array_head_size(len: usize) -> (r: usize)
    requires
        len <= 255,
    ensures
        r == if len <= 15 {
            1int
        } else {
            2int
        },
        len <= 15 ==> r == array_len_bytes(len as u32).len(),
{
    if len <= 15 {
        1
    } else {
        2
    }
}

/// The size of the encoding of a run of `len` bytes.
pub fn get_bin_size_from_len(len: usize) -> (r: usize)
    requires
        1 <= len <= u32::MAX,
        bin_len_bytes(len as u32).len() + len <= usize::MAX,
    ensures
        r == bin_len_bytes(len as u32).len() + len,
        r == len + if len <= 255 {
            2int
        } else if len <= 65535 {
            3int
        } else {
            5int
        },
{
    proof {
        lemma_be_len(len as int, 1);
        lemma_be_len(len as int, 2);
        lemma_be_len(len as int, 4);
    }
    if len <= 255 {
        2 + len
    } else if len <= 65535 {
        3 + len
    } else {
        5 + len
    }
}

/// The size of the encoding of a number of 32 bits.
pub fn get_int_size(data: u64) -> (r: usize)
    requires
        data <= u32::MAX,
    ensures
        r == uint_bytes(data).len(),
        r == if data <= 127 {
            1int
        } else if data <= 255 {
            2int
        } else if data <= 65535 {
            3int
        } else {
            5int
        },
{
    proof {
        lemma_be_len(data as int, 1);
        lemma_be_len(data as int, 2);
        lemma_be_len(data as int, 4);
    }
    if data <= 127 {
        1
    } else if data <= 255 {
        2
    } else if data <= 65535 {
        3
    } else {
        5
    }
}

/// `n` bytes are `n` bytes.
pub proof fn lemma_be_len(v: int, n: nat)
    ensures
        be_bytes(v, n).len() == n,
    decreases n,
{
    if n > 0 {
        lemma_be_len(v / 256, (n - 1) as nat);
    }
}

/// The size stated for a run of bytes.
fn get_bin_size(bin: &Vec<u8>) -> (r: usize)
    requires
        1 <= bin@.len() <= u32::MAX,
        bin_len_bytes(bin@.len() as u32).len() + bin@.len() <= usize::MAX,
    ensures
        r == bin_len_bytes(bin@.len() as u32).len() + bin@.len(),
{
    get_bin_size_from_len(bin.len())
}

/// The size stated for a value: the sum over its parts.
pub open spec fn spec_msg_size(object: MsgObject) -> int
    decreases object,
{
    match object {
        MsgObject::Array(vec) => (if vec@.len() <= 15 {
            1int
        } else {
            2int
        }) + elems_size(vec@, vec@.len() as int),
        MsgObject::Bin(bin) => (bin_len_bytes(bin@.len() as u32).len() + bin@.len()) as int,
        MsgObject::UInt(data) => uint_bytes(data).len() as int,
        _ => 0,
    }
}

/// The sizes stated for the first `n` elements of an array, together.
pub open spec fn elems_size(vec: Seq<Box<MsgObject>>, n: int) -> int
    decreases vec, n,
{
    if n <= 0 || n > vec.len() {
        0
    } else {
        elems_size(vec, n - 1) + spec_msg_size(*vec[n - 1])
    }
}

/// The size stated for an array.
fn get_array_size(vec: &Vec<Box<MsgObject>>) -> (r: usize)
    requires
        vec@.len() <= 255,
        forall|i: int| 0 <= i < vec@.len() ==> encodable(*#[trigger] vec@[i]),
        spec_msg_size(MsgObject::Array(*vec)) <= usize::MAX,
    ensures
        r == spec_msg_size(MsgObject::Array(*vec)),
    decreases vec,
{
    let mut size = get_array_head_size(vec.len());
    let mut i: usize = 0;
    while i < vec.len()
        invariant
            0 <= i <= vec@.len(),
            vec@.len() <= 255,
            forall|k: int| 0 <= k < vec@.len() ==> encodable(*#[trigger] vec@[k]),
            spec_msg_size(MsgObject::Array(*vec)) <= usize::MAX,
            size == (if vec@.len() <= 15 {
                1int
            } else {
                2int
            }) + elems_size(vec@, i as int),
        decreases vec@.len() - i,
    {
        proof {
            lemma_elems_size_grows(vec@, i + 1, vec@.len() as int);
        }
        size = size + msg_size(&vec[i]);
        i += 1;
    }
    size
}

/// The sizes stated for the parts of a value are none below zero; so the
/// sizes of more elements are no less than those of fewer.
pub proof fn lemma_elems_size_grows(vec: Seq<Box<MsgObject>>, a: int, b: int)
    requires
        0 <= a <= b <= vec.len(),
    ensures
        0 <= elems_size(vec, a) <= elems_size(vec, b),
        forall|i: int| 0 <= i < vec.len() ==> 0 <= spec_msg_size(*#[trigger] vec[i]),
    decreases b - a,
{
    assert forall|i: int| 0 <= i < vec.len() implies 0 <= spec_msg_size(*#[trigger] vec[i]) by {
        lemma_size_nonneg(*vec[i]);
    }
    lemma_elems_nonneg(vec, a);
    if b > a {
        lemma_elems_size_grows(vec, a, b - 1);
    }
}

/// The size stated for a value is not below zero.
pub proof fn lemma_size_nonneg(object: MsgObject)
    ensures
        0 <= spec_msg_size(object),
    decreases object,
{
    match object {
        MsgObject::Array(vec) => {
            lemma_elems_nonneg(vec@, vec@.len() as int);
        },
        _ => {},
    }
}

/// The sizes stated for the first `n` elements of an array are, together,
/// not below zero.
proof fn lemma_elems_nonneg(vec: Seq<Box<MsgObject>>, n: int)
    ensures
        0 <= elems_size(vec, n),
    decreases vec, n,
{
    if 0 < n <= vec.len() {
        lemma_elems_nonneg(vec, n - 1);
        lemma_size_nonneg(*vec[n - 1]);
    }
}

/// The size stated for a value.
pub fn msg_size(object: &MsgObject) -> (r: usize)
    requires
        encodable(*object),
        spec_msg_size(*object) <= usize::MAX,
    ensures
        r == spec_msg_size(*object),
    decreases *object,
{
    match object {
        MsgObject::Array(vec) => get_array_size(vec),
        MsgObject::Bin(bin) => get_bin_size(bin),
        MsgObject::UInt(data) => get_int_size(*data),
        _ => 0,
    }
}

/// The encoding of a value.
pub open spec fn spec_encode(object: MsgObject) -> Seq<u8>
    decreases object,
{
    match object {
        MsgObject::Array(vec) => array_len_bytes(vec@.len() as u32) + elems_encode(
            vec@,
            vec@.len() as int,
        ),
        MsgObject::Bin(bin) => bin_len_bytes(bin@.len() as u32) + bin@,
        MsgObject::UInt(data) => uint_bytes(data),
        _ => Seq::empty(),
    }
}

/// The encodings of the first `n` elements of an array, one behind the
/// other.
pub open spec fn elems_encode(vec: Seq<Box<MsgObject>>, n: int) -> Seq<u8>
    decreases vec, n,
{
    if n <= 0 || n > vec.len() {
        Seq::empty()
    } else {
        elems_encode(vec, n - 1) + spec_encode(*vec[n - 1])
    }
}

/// Appends a run of bytes with its head.
fn write_bin(buf: &mut Vec<u8>, data: &Vec<u8>)
    requires
        data@.len() <= u32::MAX,
    ensures
        final(buf)@ == old(buf)@ + bin_len_bytes(data@.len() as u32) + data@,
{
    write_bin_len(buf, data.len() as u32);
    let ghost head = buf@;
    let mut i: usize = 0;
    while i < data.len()
        invariant
            0 <= i <= data@.len(),
            buf@ == head + data@.take(i as int),
        decreases data@.len() - i,
    {
        buf.push(data[i]);
        proof {
            assert(data@.take(i + 1) =~= data@.take(i as int).push(data@[i as int]));
            assert(buf@ =~= head + data@.take(i + 1));
        }
        i += 1;
    }
    proof {
        assert(data@.take(i as int) =~= data@);
    }
}

/// Appends the encoding of an array.
fn write_array(buf: &mut Vec<u8>, vec: &Vec<Box<MsgObject>>)
    requires
        vec@.len() <= 255,
        forall|i: int| 0 <= i < vec@.len() ==> encodable(*#[trigger] vec@[i]),
    ensures
        final(buf)@ == old(buf)@ + spec_encode(MsgObject::Array(*vec)),
    decreases vec,
{
    write_array_len(buf, vec.len() as u32);
    let ghost head = buf@;
    let mut i: usize = 0;
    while i < vec.len()
        invariant
            0 <= i <= vec@.len(),
            vec@.len() <= 255,
            forall|k: int| 0 <= k < vec@.len() ==> encodable(*#[trigger] vec@[k]),
            buf@ == head + elems_encode(vec@, i as int),
        decreases vec@.len() - i,
    {
        write_object(buf, &vec[i]);
        proof {
            assert(buf@ =~= head + elems_encode(vec@, i + 1));
        }
        i += 1;
    }
    proof {
        assert(buf@ =~= old(buf)@ + spec_encode(MsgObject::Array(*vec)));
    }
}

/// Appends the encoding of a value.
fn write_object(buf: &mut Vec<u8>, object: &MsgObject)
    requires
        encodable(*object),
    ensures
        final(buf)@ == old(buf)@ + spec_encode(*object),
    decreases *object,
{
    match object {
        MsgObject::Array(vec) => write_array(buf, vec),
        MsgObject::Bin(bin) => {
            write_bin(buf, bin);
            proof {
                assert(buf@ =~= old(buf)@ + spec_encode(*object));
            }
        },
        MsgObject::UInt(data) => {
            write_uint(buf, *data);
        },
        _ => {
            proof {
                assert(buf@ =~= old(buf)@ + spec_encode(*object));
            }
        },
    }
}

/// The encoding of a value.
pub fn encode(object: &MsgObject) -> (r: Vec<u8>)
    requires
        encodable(*object),
    ensures
        r@ == spec_encode(*object),
{
    let mut buf: Vec<u8> = Vec::new();
    write_object(&mut buf, object);
    proof {
        assert(buf@ =~= spec_encode(*object));
    }
    buf
}

/// Writes the encoding of a value to the front of `bytes`; the bytes behind
/// it stay. Returns whether `bytes` had room for it: where not, nothing is
/// written.
pub fn msgpack(bytes: &mut [u8], object: &MsgObject) -> (r: bool)
    requires
        encodable(*object),
    ensures
        r == (spec_encode(*object).len() <= old(bytes)@.len()),
        final(bytes)@.len() == old(bytes)@.len(),
        r ==> final(bytes)@ == spec_encode(*object) + old(bytes)@.skip(
            spec_encode(*object).len() as int,
        ),
        !r ==> final(bytes)@ == old(bytes)@,
{
    let encoded = encode(object);
    let total = bytes.len();
    if encoded.len() > total {
        return false;
    }
    let mut i: usize = 0;
    while i < encoded.len()
        invariant
            0 <= i <= encoded@.len(),
            encoded@.len() <= total,
            total == bytes@.len(),
            bytes@.len() == old(bytes)@.len(),
            forall|k: int| 0 <= k < i ==> bytes@[k] == encoded@[k],
            forall|k: int| i <= k < total ==> bytes@[k] == old(bytes)@[k],
        decreases encoded@.len() - i,
    {
        bytes[i] = encoded[i];
        i += 1;
    }
    proof {
        assert(bytes@ =~= encoded@ + old(bytes)@.skip(encoded@.len() as int));
    }
    true
}

/// The size of the record of an image: an array of the label, the width,
/// the height and the bytes of the image.
pub fn record_size(label: u64, width: u64, height: u64, img_size: usize) -> (r: usize)
    requires
        label <= u32::MAX,
        width <= u32::MAX,
        height <= u32::MAX,
        1 <= img_size <= u32::MAX,
        img_size + 21 <= usize::MAX,
    ensures
        r == record_head(label, width, height, img_size as u32).len() + img_size,
{
    proof {
        lemma_be_len(img_size as int, 1);
        lemma_be_len(img_size as int, 2);
        lemma_be_len(img_size as int, 4);
    }
    let array_head = get_array_head_size(4);
    let label_len = get_int_size(label);
    let width_len = get_int_size(width);
    let height_len = get_int_size(height);
    let bin_len = get_bin_size_from_len(img_size);
    array_head + bin_len + label_len + width_len + height_len
}

/// What stands in front of the bytes of the image in the record of an
/// image.
pub open spec fn record_head(label: u64, width: u64, height: u64, img_size: u32) -> Seq<u8> {
    array_len_bytes(4) + uint_bytes(label) + uint_bytes(width) + uint_bytes(height) + bin_len_bytes(
        img_size,
    )
}

/// What stands in front of the bytes of the image in the record of an
/// image.
pub fn write_record_head(label: u64, width: u64, height: u64, img_size: u32) -> (r: Vec<u8>)
    ensures
        r@ == record_head(label, width, height, img_size),
{
    let mut buf: Vec<u8> = Vec::new();
    write_array_len(&mut buf, 4);
    write_uint(&mut buf, label);
    write_uint(&mut buf, width);
    write_uint(&mut buf, height);
    write_bin_len(&mut buf, img_size);
    proof {
        assert(buf@ =~= record_head(label, width, height, img_size));
    }
    buf
}

/// What a value is, as contracts speak of it. The entries of a dictionary
/// stand in the order in which they were read.
pub enum MsgView {
    Array(Seq<MsgView>),
    Bin(Seq<u8>),
    Dict(Seq<(Seq<char>, MsgView)>),
    UInt(u64),
    Bool(bool),
}

/// What a value is.
pub open spec fn obj_view(object: MsgObject) -> MsgView
    decreases object,
{
    match object {
        MsgObject::Array(vec) => MsgView::Array(elems_view(vec@, vec@.len() as int)),
        MsgObject::Bin(bin) => MsgView::Bin(bin@),
        MsgObject::Dict(entries) => MsgView::Dict(
            entries_view(entries@, entries@.len() as int),
        ),
        MsgObject::UInt(data) => MsgView::UInt(data),
        MsgObject::Bool(b) => MsgView::Bool(b),
    }
}

/// What the first `n` elements of an array are.
pub open spec fn elems_view(vec: Seq<Box<MsgObject>>, n: int) -> Seq<MsgView>
    decreases vec, n,
{
    if n <= 0 || n > vec.len() {
        Seq::empty()
    } else {
        elems_view(vec, n - 1).push(obj_view(*vec[n - 1]))
    }
}

/// What the first `n` entries of a dictionary are.
pub open spec fn entries_view(entries: Seq<(String, Box<MsgObject>)>, n: int) -> Seq<
    (Seq<char>, MsgView),
>
    decreases entries, n,
{
    if n <= 0 || n > entries.len() {
        Seq::empty()
    } else {
        entries_view(entries, n - 1).push((entries[n - 1].0@, obj_view(*entries[n - 1].1)))
    }
}

impl View for MsgObject {
    type V = MsgView;

    open spec fn view(&self) -> MsgView {
        obj_view(*self)
    }
}

/// What the first byte of an encoded value says of the value.
#[derive(Debug, Clone, Copy)]
pub enum Tag {
    /// An array, in one of its three forms.
    Array,
    /// A run of bytes, in one of its three forms.
    Bin,
    /// A dictionary of fewer than 16 entries, with their number.
    Dict(u8),
    /// An unsigned number of at most 32 bits, in one of its four forms.
    UInt,
    /// The truth value true.
    True,
    /// Anything else: nothing that is read here.
    Other,
}

/// What a first byte says of the value that it begins.
pub open spec fn tag_of(b: u8) -> Tag {
    if b <= 0x7f || 0xcc <= b <= 0xce {
        Tag::UInt
    } else if b <= 0x8f {
        Tag::Dict((b - 0x80) as u8)
    } else if b <= 0x9f || b == 0xdc || b == 0xdd {
        Tag::Array
    } else if 0xc4 <= b <= 0xc6 {
        Tag::Bin
    } else if b == 0xc3 {
        Tag::True
    } else {
        Tag::Other
    }
}

/// The number that bytes stand for, the first counting most.
pub open spec fn be_value(s: Seq<u8>) -> nat
    decreases s.len(),
{
    if s.len() == 0 {
        0
    } else {
        be_value(s.drop_last()) * 256 + s.last() as nat
    }
}

/// The number in the `n` bytes behind the byte at `pos`, and the place
/// behind them; nothing where the bytes end before.
pub open spec fn number_behind(bytes: Seq<u8>, pos: int, n: int) -> Option<(nat, int)> {
    if 0 <= pos && pos + 1 + n <= bytes.len() {
        Some((be_value(bytes.subrange(pos + 1, pos + 1 + n)), pos + 1 + n))
    } else {
        None
    }
}

/// The unsigned number that begins at `pos`, and the place behind it.
pub open spec fn uint_at(bytes: Seq<u8>, pos: int) -> Option<(nat, int)>
    recommends
        0 <= pos < bytes.len(),
        tag_of(bytes[pos]) is UInt,
{
    let b = bytes[pos];
    if b <= 0x7f {
        Some((b as nat, pos + 1))
    } else if b == 0xcc {
        number_behind(bytes, pos, 1)
    } else if b == 0xcd {
        number_behind(bytes, pos, 2)
    } else {
        number_behind(bytes, pos, 4)
    }
}

/// The number of elements of the array that begins at `pos`, and the place
/// of the first of them.
pub open spec fn array_len_at(bytes: Seq<u8>, pos: int) -> Option<(nat, int)>
    recommends
        0 <= pos < bytes.len(),
        tag_of(bytes[pos]) is Array,
{
    let b = bytes[pos];
    if b == 0xdc {
        number_behind(bytes, pos, 2)
    } else if b == 0xdd {
        number_behind(bytes, pos, 4)
    } else {
        Some(((b - 0x90) as nat, pos + 1))
    }
}

/// The length of the run of bytes that begins at `pos`, and the place of
/// the first of them.
pub open spec fn bin_len_at(bytes: Seq<u8>, pos: int) -> Option<(nat, int)>
    recommends
        0 <= pos < bytes.len(),
        tag_of(bytes[pos]) is Bin,
{
    let b = bytes[pos];
    if b == 0xc4 {
        number_behind(bytes, pos, 1)
    } else if b == 0xc5 {
        number_behind(bytes, pos, 2)
    } else {
        number_behind(bytes, pos, 4)
    }
}

/// The value that begins at `pos`, and the place behind it; nothing where
/// no value that is read here begins at `pos`, or where the bytes end
/// before the value does.
pub open spec fn parse_at(bytes: Seq<u8>, pos: int) -> Option<(MsgView, int)>
    decreases bytes.len() - pos, 0int, 0int,
{
    if pos < 0 || pos >= bytes.len() {
        None
    } else {
        match tag_of(bytes[pos]) {
            Tag::UInt => match uint_at(bytes, pos) {
                Some((v, end)) => Some((MsgView::UInt(v as u64), end)),
                None => None,
            },
            Tag::True => Some((MsgView::Bool(true), pos + 1)),
            Tag::Bin => match bin_len_at(bytes, pos) {
                Some((len, start)) => if start + len <= bytes.len() {
                    Some((MsgView::Bin(bytes.subrange(start, start + len)), start + len))
                } else {
                    None
                },
                None => None,
            },
            Tag::Array => match array_len_at(bytes, pos) {
                Some((n, start)) => match parse_elems(bytes, start, n as int) {
                    Some((elems, end)) => Some((MsgView::Array(elems), end)),
                    None => None,
                },
                None => None,
            },
            Tag::Dict(n) => match parse_entries(bytes, pos + 1, n as int) {
                Some((entries, end)) => Some((MsgView::Dict(entries), end)),
                None => None,
            },
            Tag::Other => None,
        }
    }
}

/// The `n` values that stand one behind the other from `pos` on, and the
/// place behind the last.
pub open spec fn parse_elems(bytes: Seq<u8>, pos: int, n: int) -> Option<(Seq<MsgView>, int)>
    decreases bytes.len() - pos, 1int, n,
{
    if n <= 0 {
        Some((Seq::empty(), pos))
    } else {
        match parse_elems(bytes, pos, n - 1) {
            Some((elems, p)) => if pos <= p < bytes.len() {
                match parse_at(bytes, p) {
                    Some((v, end)) => Some((elems.push(v), end)),
                    None => None,
                }
            } else {
                None
            },
            None => None,
        }
    }
}

/// The `n` entries that stand one behind the other from `pos` on, and the
/// place behind the last. An entry is a key, which is a run of bytes that
/// are a text in UTF-8, and behind it a value.
pub open spec fn parse_entries(bytes: Seq<u8>, pos: int, n: int) -> Option<
    (Seq<(Seq<char>, MsgView)>, int),
>
    decreases bytes.len() - pos, 1int, n,
{
    if n <= 0 {
        Some((Seq::empty(), pos))
    } else {
        match parse_entries(bytes, pos, n - 1) {
            Some((entries, p)) => if pos <= p < bytes.len() {
                match parse_at(bytes, p) {
                    Some((MsgView::Bin(key), q)) => if valid_utf8(key) && pos <= q < bytes.len() {
                        match parse_at(bytes, q) {
                            Some((v, end)) => Some((entries.push((decode_utf8(key), v)), end)),
                            None => None,
                        }
                    } else {
                        None
                    },
                    _ => None,
                }
            } else {
                None
            },
            None => None,
        }
    }
}

/// `rmp::decode::read_marker` on the bytes from `pos` on, and `Marker::to_u8`
/// on what it gives: the byte at `pos`, which a marker stands for and gives
/// back as it was, or nothing where there is no byte.
#[verifier::external_body]
fn marker_at(bytes: &[u8], pos: usize) -> (r: Option<u8>)
    requires
        pos <= bytes@.len(),
    ensures
        r == if pos < bytes@.len() {
            Some(bytes@[pos as int])
        } else {
            None
        },
{
    let mut rd = Cursor::new(bytes);
    rd.set_position(pos as u64);
    match rmp::decode::read_marker(&mut rd) {
        Ok(marker) => Some(marker.to_u8()),
        Err(_) => None,
    }
}

/// What a first byte says of the value that it begins.
fn tag(b: u8) -> (r: Tag)
    ensures
        r == tag_of(b),
{
    if b <= 0x7f || (0xcc <= b && b <= 0xce) {
        Tag::UInt
    } else if b <= 0x8f {
        Tag::Dict(b - 0x80)
    } else if b <= 0x9f || b == 0xdc || b == 0xdd {
        Tag::Array
    } else if 0xc4 <= b && b <= 0xc6 {
        Tag::Bin
    } else if b == 0xc3 {
        Tag::True
    } else {
        Tag::Other
    }
}

/// `rmp::decode::read_int` for 64 bits on the bytes from `pos` on, where an
/// unsigned number of at most 32 bits begins: the number, which is the
/// first byte itself or stands in the 1, 2 or 4 bytes behind it, and the
/// place behind it. The call fails where the bytes end before.
#[verifier::external_body]
fn read_uint_at(bytes: &[u8], pos: usize) -> (r: Option<(u64, usize)>)
    requires
        pos < bytes@.len(),
        tag_of(bytes@[pos as int]) is UInt,
    ensures
        match r {
            Some((v, end)) => uint_at(bytes@, pos as int) == Some((v as nat, end as int)),
            None => uint_at(bytes@, pos as int) is None,
        },
{
    let mut rd = Cursor::new(bytes);
    rd.set_position(pos as u64);
    match rmp::decode::read_int::<u64, _>(&mut rd) {
        Ok(v) => Some((v, rd.position() as usize)),
        Err(_) => None,
    }
}

/// `rmp::decode::read_array_len` on the bytes from `pos` on, where an array
/// begins: the number of its elements, which stands in the first byte or
/// in the 2 or 4 bytes behind it, and the place behind it. The call fails
/// where the bytes end before.
#[verifier::external_body]
fn read_array_len_at(bytes: &[u8], pos: usize) -> (r: Option<(u32, usize)>)
    requires
        pos < bytes@.len(),
        tag_of(bytes@[pos as int]) is Array,
    ensures
        match r {
            Some((n, end)) => array_len_at(bytes@, pos as int) == Some((n as nat, end as int)),
            None => array_len_at(bytes@, pos as int) is None,
        },
{
    let mut rd = Cursor::new(bytes);
    rd.set_position(pos as u64);
    match rmp::decode::read_array_len(&mut rd) {
        Ok(n) => Some((n, rd.position() as usize)),
        Err(_) => None,
    }
}

/// `rmp::decode::read_bin_len` on the bytes from `pos` on, where a run of
/// bytes begins: its length, which stands in the 1, 2 or 4 bytes behind
/// the first, and the place behind it. The call fails where the bytes end
/// before.
#[verifier::external_body]
fn read_bin_len_at(bytes: &[u8], pos: usize) -> (r: Option<(u32, usize)>)
    requires
        pos < bytes@.len(),
        tag_of(bytes@[pos as int]) is Bin,
    ensures
        match r {
            Some((n, end)) => bin_len_at(bytes@, pos as int) == Some((n as nat, end as int)),
            None => bin_len_at(bytes@, pos as int) is None,
        },
{
    let mut rd = Cursor::new(bytes);
    rd.set_position(pos as u64);
    match rmp::decode::read_bin_len(&mut rd) {
        Ok(n) => Some((n, rd.position() as usize)),
        Err(_) => None,
    }
}

/// `String::from_utf8`: the text that the bytes encode in UTF-8, or
/// nothing where they encode none.
#[verifier::external_body]
fn text_of(bytes: Vec<u8>) -> (r: Option<String>)
    ensures
        r is Some == valid_utf8(bytes@),
        r matches Some(s) ==> s@ == decode_utf8(bytes@),
{
    String::from_utf8(bytes).ok()
}

/// A value ends behind the place where it begins, and within the bytes.
pub proof fn lemma_parse_bounds(bytes: Seq<u8>, pos: int)
    ensures
        parse_at(bytes, pos) matches Some((_, end)) ==> 0 <= pos < end <= bytes.len(),
    decreases bytes.len() - pos, 0int, 0int,
{
    if 0 <= pos < bytes.len() {
        match tag_of(bytes[pos]) {
            Tag::Array => {
                if let Some((n, start)) = array_len_at(bytes, pos) {
                    lemma_elems_bounds(bytes, start, n as int);
                }
            },
            Tag::Dict(n) => {
                lemma_entries_bounds(bytes, pos + 1, n as int);
            },
            _ => {},
        }
    }
}

/// `n` values take at least `n` bytes, and end within the bytes.
pub proof fn lemma_elems_bounds(bytes: Seq<u8>, pos: int, n: int)
    requires
        0 <= pos <= bytes.len(),
    ensures
        parse_elems(bytes, pos, n) matches Some((elems, end)) ==> elems.len() == (if n < 0 {
            0
        } else {
            n
        }) && pos + elems.len() <= end <= bytes.len(),
    decreases bytes.len() - pos, 1int, n,
{
    if n > 0 {
        lemma_elems_bounds(bytes, pos, n - 1);
        if let Some((elems, p)) = parse_elems(bytes, pos, n - 1) {
            if pos <= p < bytes.len() {
                lemma_parse_bounds(bytes, p);
            }
        }
    }
}

/// `n` entries take at least `n` bytes, and end within the bytes.
pub proof fn lemma_entries_bounds(bytes: Seq<u8>, pos: int, n: int)
    requires
        0 <= pos <= bytes.len(),
    ensures
        parse_entries(bytes, pos, n) matches Some((entries, end)) ==> entries.len() == (if n < 0 {
            0
        } else {
            n
        }) && pos + entries.len() <= end <= bytes.len(),
    decreases bytes.len() - pos, 1int, n,
{
    if n > 0 {
        lemma_entries_bounds(bytes, pos, n - 1);
        if let Some((entries, p)) = parse_entries(bytes, pos, n - 1) {
            if pos <= p < bytes.len() {
                lemma_parse_bounds(bytes, p);
                if let Some((MsgView::Bin(key), q)) = parse_at(bytes, p) {
                    if pos <= q < bytes.len() {
                        lemma_parse_bounds(bytes, q);
                    }
                }
            }
        }
    }
}

/// Where fewer values cannot be read, more cannot.
pub proof fn lemma_elems_fail(bytes: Seq<u8>, pos: int, k: int, n: int)
    requires
        k <= n,
        parse_elems(bytes, pos, k) is None,
    ensures
        parse_elems(bytes, pos, n) is None,
    decreases n - k,
{
    if k < n {
        lemma_elems_fail(bytes, pos, k, n - 1);
    }
}

/// Where fewer entries cannot be read, more cannot.
pub proof fn lemma_entries_fail(bytes: Seq<u8>, pos: int, k: int, n: int)
    requires
        k <= n,
        parse_entries(bytes, pos, k) is None,
    ensures
        parse_entries(bytes, pos, n) is None,
    decreases n - k,
{
    if k < n {
        lemma_entries_fail(bytes, pos, k, n - 1);
    }
}

/// What the elements of an array are stays when one more comes behind
/// them.
pub proof fn lemma_elems_view_push(vec: Seq<Box<MsgObject>>, x: Box<MsgObject>, n: int)
    requires
        0 <= n <= vec.len(),
    ensures
        elems_view(vec.push(x), n) == elems_view(vec, n),
    decreases n,
{
    if n > 0 {
        lemma_elems_view_push(vec, x, n - 1);
        assert(vec.push(x)[n - 1] == vec[n - 1]);
    }
}

/// What the entries of a dictionary are stays when one more comes behind
/// them.
pub proof fn lemma_entries_view_push(
    entries: Seq<(String, Box<MsgObject>)>,
    x: (String, Box<MsgObject>),
    n: int,
)
    requires
        0 <= n <= entries.len(),
    ensures
        entries_view(entries.push(x), n) == entries_view(entries, n),
    decreases n,
{
    if n > 0 {
        lemma_entries_view_push(entries, x, n - 1);
        assert(entries.push(x)[n - 1] == entries[n - 1]);
    }
}

/// Reads the unsigned number that begins at `pos`.
fn parse_uint(bytes: &[u8], pos: usize) -> (r: Option<(MsgObject, usize)>)
    requires
        pos < bytes@.len(),
        tag_of(bytes@[pos as int]) is UInt,
    ensures
        match r {
            Some((obj, end)) => parse_at(bytes@, pos as int) == Some((obj@, end as int)),
            None => parse_at(bytes@, pos as int) is None,
        },
{
    match read_uint_at(bytes, pos) {
        Some((data, end)) => Some((MsgObject::UInt(data), end)),
        None => None,
    }
}

/// Reads the run of bytes that begins at `pos`.
fn parse_bin(bytes: &[u8], pos: usize) -> (r: Option<(MsgObject, usize)>)
    requires
        pos < bytes@.len(),
        tag_of(bytes@[pos as int]) is Bin,
    ensures
        match r {
            Some((obj, end)) => parse_at(bytes@, pos as int) == Some((obj@, end as int)),
            None => parse_at(bytes@, pos as int) is None,
        },
{
    let (size, start) = match read_bin_len_at(bytes, pos) {
        Some(head) => head,
        None => {
            return None;
        },
    };
    let total = bytes.len();
    if size as usize > total - start {
        return None;
    }
    let end = start + size as usize;
    let mut bin: Vec<u8> = Vec::new();
    let mut i: usize = start;
    while i < end
        invariant
            start <= i <= end <= bytes@.len(),
            bin@ == bytes@.subrange(start as int, i as int),
        decreases end - i,
    {
        bin.push(bytes[i]);
        proof {
            assert(bin@ =~= bytes@.subrange(start as int, i + 1));
        }
        i += 1;
    }
    Some((MsgObject::Bin(bin), end))
}

/// Reads the array that begins at `pos`.
fn parse_array(bytes: &[u8], pos: usize) -> (r: Option<(MsgObject, usize)>)
    requires
        pos < bytes@.len(),
        tag_of(bytes@[pos as int]) is Array,
    ensures
        match r {
            Some((obj, end)) => parse_at(bytes@, pos as int) == Some((obj@, end as int)),
            None => parse_at(bytes@, pos as int) is None,
        },
    decreases bytes@.len() - pos, 0int,
{
    let (num, start) = match read_array_len_at(bytes, pos) {
        Some(head) => head,
        None => {
            return None;
        },
    };
    let mut ret: Vec<Box<MsgObject>> = Vec::new();
    let mut p: usize = start;
    let mut i: u32 = 0;
    while i < num
        invariant
            i <= num,
            pos < start <= p <= bytes@.len(),
            tag_of(bytes@[pos as int]) is Array,
            array_len_at(bytes@, pos as int) == Some((num as nat, start as int)),
            ret@.len() == i,
            parse_elems(bytes@, start as int, i as int) == Some(
                (elems_view(ret@, i as int), p as int),
            ),
        decreases num - i,
    {
        let next = if p < bytes.len() {
            parse_object(bytes, p)
        } else {
            None
        };
        match next {
            Some((obj, end)) => {
                proof {
                    lemma_parse_bounds(bytes@, p as int);
                    lemma_elems_view_push(ret@, Box::new(obj), i as int);
                }
                ret.push(Box::new(obj));
                p = end;
            },
            None => {
                proof {
                    lemma_elems_fail(bytes@, start as int, i + 1, num as int);
                }
                return None;
            },
        }
        i += 1;
    }
    Some((MsgObject::Array(ret), p))
}

/// Reads the dictionary of `num` entries that begins at `pos`.
fn parse_map(num: u8, bytes: &[u8], pos: usize) -> (r: Option<(MsgObject, usize)>)
    requires
        pos < bytes@.len(),
        tag_of(bytes@[pos as int]) == Tag::Dict(num),
    ensures
        match r {
            Some((obj, end)) => parse_at(bytes@, pos as int) == Some((obj@, end as int)),
            None => parse_at(bytes@, pos as int) is None,
        },
    decreases bytes@.len() - pos, 0int,
{
    let total = bytes.len();
    let start = pos + 1;
    let mut ret: Vec<(String, Box<MsgObject>)> = Vec::new();
    let mut p: usize = start;
    let mut i: u8 = 0;
    while i < num
        invariant
            i <= num,
            pos < bytes@.len(),
            start == pos + 1,
            total == bytes@.len(),
            start <= p <= bytes@.len(),
            tag_of(bytes@[pos as int]) == Tag::Dict(num),
            ret@.len() == i,
            parse_entries(bytes@, start as int, i as int) == Some(
                (entries_view(ret@, i as int), p as int),
            ),
        decreases num - i,
    {
        let key = if p < total {
            parse_object(bytes, p)
        } else {
            None
        };
        let (name, q) = match key {
            Some((MsgObject::Bin(raw), q)) => match text_of(raw) {
                Some(name) => (name, q),
                None => {
                    proof {
                        lemma_entries_fail(bytes@, start as int, i + 1, num as int);
                    }
                    return None;
                },
            },
            _ => {
                proof {
                    lemma_entries_fail(bytes@, start as int, i + 1, num as int);
                }
                return None;
            },
        };
        proof {
            lemma_parse_bounds(bytes@, p as int);
        }
        let val = if q < total {
            parse_object(bytes, q)
        } else {
            None
        };
        match val {
            Some((obj, end)) => {
                proof {
                    lemma_parse_bounds(bytes@, q as int);
                    lemma_entries_view_push(ret@, (name, Box::new(obj)), i as int);
                }
                ret.push((name, Box::new(obj)));
                p = end;
            },
            None => {
                proof {
                    lemma_entries_fail(bytes@, start as int, i + 1, num as int);
                }
                return None;
            },
        }
        i += 1;
    }
    Some((MsgObject::Dict(ret), p))
}

/// Reads the value that begins at `pos`: the value and the place behind it,
/// or nothing where no value that is read here begins at `pos`, or where
/// the bytes end before the value does.
pub fn parse_object(bytes: &[u8], pos: usize) -> (r: Option<(MsgObject, usize)>)
    requires
        pos <= bytes@.len(),
    ensures
        match r {
            Some((obj, end)) => parse_at(bytes@, pos as int) == Some((obj@, end as int)),
            None => parse_at(bytes@, pos as int) is None,
        },
    decreases bytes@.len() - pos, 1int,
{
    if pos >= bytes.len() {
        return None;
    }
    let first = match marker_at(bytes, pos) {
        Some(first) => first,
        None => {
            return None;
        },
    };
    match tag(first) {
        Tag::Array => parse_array(bytes, pos),
        Tag::Bin => parse_bin(bytes, pos),
        Tag::Dict(num) => parse_map(num, bytes, pos),
        Tag::UInt => parse_uint(bytes, pos),
        Tag::True => Some((MsgObject::Bool(true), pos + 1)),
        Tag::Other => None,
    }
}

/// What some values are, each in its place.
pub open spec fn views(objs: Seq<MsgObject>) -> Seq<MsgView> {
    objs.map_values(|o: MsgObject| o@)
}

/// Whether the bytes are these values, one behind the other, and nothing
/// more.
pub open spec fn fills(bytes: Seq<u8>, values: Seq<MsgView>) -> bool {
    parse_elems(bytes, 0, values.len() as int) == Some((values, bytes.len() as int))
}

/// The first values of some that can be read: they can be read too, they
/// are the same, and each of the others takes at least one byte more.
pub proof fn lemma_elems_prefix(bytes: Seq<u8>, pos: int, m: int, n: int)
    requires
        0 <= m <= n,
        0 <= pos <= bytes.len(),
        parse_elems(bytes, pos, n) is Some,
    ensures
        parse_elems(bytes, pos, m) is Some,
        parse_elems(bytes, pos, m).unwrap().1 + (n - m) <= parse_elems(bytes, pos, n).unwrap().1,
        parse_elems(bytes, pos, m).unwrap().0 == parse_elems(bytes, pos, n).unwrap().0.take(m),
    decreases n - m,
{
    lemma_elems_bounds(bytes, pos, n);
    if m < n {
        lemma_elems_prefix(bytes, pos, m, n - 1);
        lemma_elems_bounds(bytes, pos, n - 1);
        let (before, p) = parse_elems(bytes, pos, n - 1).unwrap();
        lemma_parse_bounds(bytes, p);
        assert(parse_elems(bytes, pos, n).unwrap().0.take(m) =~= before.take(m));
    } else {
        assert(parse_elems(bytes, pos, n).unwrap().0.take(n) =~= parse_elems(
            bytes,
            pos,
            n,
        ).unwrap().0);
    }
}

/// Bytes are the values of one list at most.
pub proof fn law_unpack_unique(bytes: Seq<u8>, a: Seq<MsgView>, b: Seq<MsgView>)
    requires
        fills(bytes, a),
        fills(bytes, b),
    ensures
        a == b,
{
    if a.len() <= b.len() {
        lemma_elems_prefix(bytes, 0, a.len() as int, b.len() as int);
    } else {
        lemma_elems_prefix(bytes, 0, b.len() as int, a.len() as int);
    }
}

/// Reads the values that the bytes are, one behind the other. Nothing is
/// returned where the bytes are no list of values that are read here: where
/// a value begins with a byte that stands for none of them, where a key is
/// no text, or where the bytes end within a value.
pub fn msg_unpack(bytes: &[u8]) -> (r: Option<Vec<MsgObject>>)
    ensures
        match r {
            Some(objs) => fills(bytes@, views(objs@)),
            None => forall|values: Seq<MsgView>| !fills(bytes@, values),
        },
{
    let mut ret: Vec<MsgObject> = Vec::new();
    let total = bytes.len();
    let mut p: usize = 0;
    proof {
        assert(views(ret@) =~= Seq::<MsgView>::empty());
    }
    while p < total
        invariant
            p <= total,
            total == bytes@.len(),
            parse_elems(bytes@, 0, ret@.len() as int) == Some((views(ret@), p as int)),
        decreases total - p,
    {
        match parse_object(bytes, p) {
            Some((obj, end)) => {
                proof {
                    lemma_parse_bounds(bytes@, p as int);
                    assert(views(ret@.push(obj)) =~= views(ret@).push(obj@));
                }
                ret.push(obj);
                p = end;
            },
            None => {
                proof {
                    let k = ret@.len() as int;
                    assert forall|values: Seq<MsgView>| !fills(bytes@, values) by {
                        let n = values.len() as int;
                        if fills(bytes@, values) {
                            if n <= k {
                                lemma_elems_prefix(bytes@, 0, n, k);
                            } else {
                                lemma_elems_fail(bytes@, 0, k + 1, n);
                            }
                        }
                    }
                }
                return None;
            },
        }
    }
    Some(ret)
}

/// 256 to the power of `n`.
pub open spec fn limit(n: nat) -> nat
    decreases n,
{
    if n == 0 {
        1
    } else {
        256 * limit((n - 1) as nat)
    }
}

/// A number that fits in `n` bytes is the number that its `n` bytes stand
/// for.
pub proof fn lemma_be_round(v: int, n: nat)
    requires
        0 <= v < limit(n),
    ensures
        be_value(be_bytes(v, n)) == v,
    decreases n,
{
    if n > 0 {
        lemma_be_round(v / 256, (n - 1) as nat);
        assert(be_bytes(v, n).drop_last() =~= be_bytes(v / 256, (n - 1) as nat));
    }
}

/// A part of bytes that stand in other bytes stands in them too.
proof fn lemma_part(bytes: Seq<u8>, pos: int, enc: Seq<u8>, a: int, b: int)
    requires
        0 <= pos,
        pos + enc.len() <= bytes.len(),
        bytes.subrange(pos, pos + enc.len()) == enc,
        0 <= a <= b <= enc.len(),
    ensures
        bytes.subrange(pos + a, pos + b) == enc.subrange(a, b),
{
    assert forall|i: int| 0 <= i < b - a implies bytes.subrange(pos + a, pos + b)[i] == enc.subrange(
        a,
        b,
    )[i] by {
        assert(bytes.subrange(pos, pos + enc.len())[a + i] == bytes[pos + a + i]);
    }
    assert(bytes.subrange(pos + a, pos + b) =~= enc.subrange(a, b));
}

/// A number behind a first byte, where they stand in other bytes.
proof fn lemma_number_encoded(bytes: Seq<u8>, pos: int, first: u8, v: int, n: nat)
    requires
        0 <= pos,
        0 <= v < limit(n),
        pos + 1 + n <= bytes.len(),
        bytes.subrange(pos, pos + 1 + n) == seq![first] + be_bytes(v, n),
    ensures
        bytes[pos] == first,
        number_behind(bytes, pos, n as int) == Some((v as nat, pos + 1 + n)),
{
    let enc = seq![first] + be_bytes(v, n);
    lemma_be_len(v, n);
    lemma_be_round(v, n);
    lemma_part(bytes, pos, enc, 1, 1 + n as int);
    assert(enc.subrange(1, 1 + n as int) =~= be_bytes(v, n));
    assert(bytes.subrange(pos, pos + 1 + n)[0] == bytes[pos]);
}

/// Where the encoding of a value stands in bytes, the value is read there,
/// and ends where the encoding ends.
pub proof fn lemma_parse_encoded(object: MsgObject, bytes: Seq<u8>, pos: int)
    requires
        encodable(object),
        0 <= pos,
        pos + spec_encode(object).len() <= bytes.len(),
        bytes.subrange(pos, pos + spec_encode(object).len()) == spec_encode(object),
    ensures
        parse_at(bytes, pos) == Some((object@, pos + spec_encode(object).len())),
    decreases object,
{
    let enc = spec_encode(object);
    assert(limit(1) == 256 && limit(2) == 65536 && limit(4) == 4294967296) by {
        reveal_with_fuel(limit, 5);
    }
    match object {
        MsgObject::UInt(data) => {
            lemma_be_len(data as int, 1);
            lemma_be_len(data as int, 2);
            lemma_be_len(data as int, 4);
            if data < 128 {
                assert(bytes.subrange(pos, pos + 1)[0] == bytes[pos]);
            } else if data < 256 {
                lemma_number_encoded(bytes, pos, 0xccu8, data as int, 1);
            } else if data < 65536 {
                lemma_number_encoded(bytes, pos, 0xcdu8, data as int, 2);
            } else {
                lemma_number_encoded(bytes, pos, 0xceu8, data as int, 4);
            }
        },
        MsgObject::Bin(bin) => {
            let len = bin@.len() as int;
            let head = bin_len_bytes(len as u32);
            lemma_be_len(len, 1);
            lemma_be_len(len, 2);
            lemma_be_len(len, 4);
            lemma_part(bytes, pos, enc, 0, head.len() as int);
            assert(enc.subrange(0, head.len() as int) =~= head);
            lemma_part(bytes, pos, enc, head.len() as int, enc.len() as int);
            assert(enc.subrange(head.len() as int, enc.len() as int) =~= bin@);
            if len < 256 {
                lemma_number_encoded(bytes, pos, 0xc4u8, len, 1);
            } else if len < 65536 {
                lemma_number_encoded(bytes, pos, 0xc5u8, len, 2);
            } else {
                lemma_number_encoded(bytes, pos, 0xc6u8, len, 4);
            }
        },
        MsgObject::Array(vec) => {
            let n = vec@.len() as int;
            let head = array_len_bytes(n as u32);
            let body = elems_encode(vec@, n);
            lemma_be_len(n, 2);
            lemma_part(bytes, pos, enc, 0, head.len() as int);
            assert(enc.subrange(0, head.len() as int) =~= head);
            lemma_part(bytes, pos, enc, head.len() as int, enc.len() as int);
            assert(enc.subrange(head.len() as int, enc.len() as int) =~= body);
            if n < 16 {
                assert(bytes.subrange(pos, pos + 1)[0] == bytes[pos]);
            } else {
                lemma_number_encoded(bytes, pos, 0xdcu8, n, 2);
            }
            lemma_elems_encoded(vec@, bytes, pos + head.len(), n);
        },
        _ => {},
    }
}

/// Where the encodings of the first `n` elements of an array stand in
/// bytes, one behind the other, the elements are read there.
pub proof fn lemma_elems_encoded(vec: Seq<Box<MsgObject>>, bytes: Seq<u8>, start: int, n: int)
    requires
        forall|i: int| 0 <= i < vec.len() ==> encodable(*#[trigger] vec[i]),
        0 <= n <= vec.len(),
        0 <= start,
        start + elems_encode(vec, n).len() <= bytes.len(),
        bytes.subrange(start, start + elems_encode(vec, n).len()) == elems_encode(vec, n),
    ensures
        parse_elems(bytes, start, n) == Some(
            (elems_view(vec, n), start + elems_encode(vec, n).len()),
        ),
    decreases vec, n,
{
    if n > 0 {
        let enc = elems_encode(vec, n);
        let before = elems_encode(vec, n - 1);
        let last = spec_encode(*vec[n - 1]);
        lemma_part(bytes, start, enc, 0, before.len() as int);
        assert(enc.subrange(0, before.len() as int) =~= before);
        lemma_part(bytes, start, enc, before.len() as int, enc.len() as int);
        assert(enc.subrange(before.len() as int, enc.len() as int) =~= last);
        lemma_elems_encoded(vec, bytes, start, n - 1);
        lemma_parse_encoded(*vec[n - 1], bytes, start + before.len());
        lemma_encoded_len(*vec[n - 1]);
    }
}

/// The encoding of a value that can be encoded has a byte at least.
pub proof fn lemma_encoded_len(object: MsgObject)
    requires
        encodable(object),
    ensures
        spec_encode(object).len() > 0,
{
    match object {
        MsgObject::UInt(data) => {
            lemma_be_len(data as int, 1);
        },
        _ => {},
    }
}

/// What is read from the encoding of a value is that value, and nothing
/// else.
pub proof fn law_unpack_encoded(object: MsgObject)
    requires
        encodable(object),
    ensures
        fills(spec_encode(object), seq![object@]),
{
    let enc = spec_encode(object);
    lemma_encoded_len(object);
    assert(enc.subrange(0, enc.len() as int) =~= enc);
    lemma_parse_encoded(object, enc, 0);
    assert(parse_elems(enc, 0, 0) == Some((Seq::<MsgView>::empty(), 0int)));
    assert(Seq::<MsgView>::empty().push(object@) =~= seq![object@]);
    assert(parse_elems(enc, 0, 1) == Some((seq![object@], enc.len() as int))) by {
        reveal_with_fuel(parse_elems, 2);
    }
}

/// The elements of an array are what each of them is, in their places.
pub proof fn lemma_elems_view_at(vec: Seq<Box<MsgObject>>, n: int, i: int)
    requires
        0 <= i < n <= vec.len(),
    ensures
        elems_view(vec, n).len() == n,
        elems_view(vec, n)[i] == obj_view(*vec[i]),
    decreases n,
{
    lemma_elems_view_len(vec, n);
    if i < n - 1 {
        lemma_elems_view_at(vec, n - 1, i);
    } else {
        lemma_elems_view_len(vec, n - 1);
    }
}

/// There are as many elements in what an array is as in the array.
pub proof fn lemma_elems_view_len(vec: Seq<Box<MsgObject>>, n: int)
    requires
        0 <= n <= vec.len(),
    ensures
        elems_view(vec, n).len() == n,
    decreases n,
{
    if n > 0 {
        lemma_elems_view_len(vec, n - 1);
    }
}

/// The value of the last entry with this key, where there is one.
pub open spec fn last_named(entries: Seq<(Seq<char>, MsgView)>, key: Seq<char>) -> Option<
    MsgView,
>
    decreases entries.len(),
{
    if entries.len() == 0 {
        None
    } else if entries.last().0 == key {
        Some(entries.last().1)
    } else {
        last_named(entries.drop_last(), key)
    }
}

/// The value that a dictionary holds under a key: that of the last entry
/// with the key, where the key stands more than once.
pub fn field<'a>(entries: &'a Vec<(String, Box<MsgObject>)>, key: &String) -> (r: Option<
    &'a MsgObject,
>)
    ensures
        match r {
            Some(obj) => last_named(entries_view(entries@, entries@.len() as int), key@) == Some(
                obj@,
            ),
            None => last_named(entries_view(entries@, entries@.len() as int), key@) is None,
        },
{
    let mut i: usize = entries.len();
    while i > 0
        invariant
            i <= entries@.len(),
            last_named(entries_view(entries@, entries@.len() as int), key@) == last_named(
                entries_view(entries@, i as int),
                key@,
            ),
        decreases i,
    {
        proof {
            assert(entries_view(entries@, i as int).drop_last() =~= entries_view(entries@, i - 1));
        }
        if entries[i - 1].0 == *key {
            return Some(&*entries[i - 1].1);
        }
        i -= 1;
    }
    None
}

} // verus!
