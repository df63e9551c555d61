//! Access to JSON documents in their binary encoding.
//!
//! The bytes come from storage or from the network and may be truncated or
//! hold wild offsets: every access is checked, and what does not lie in the
//! document is reported as an error.

use crate::number::{
    decode_u16_le, decode_u32_le, le_value, lemma_le_value_of_few, lemma_varint_bounds,
    try_decode_var_u64, varint,
};
use crate::text::{append_decimal, decimal};
use vstd::prelude::*;
use vstd::slice::slice_subrange;
use vstd::string::*;

verus! {

/// Bytes of the type code in front of a value.
pub const TYPE_LEN: usize = 1;

/// Bytes of a literal (`null`, `true`, `false`).
pub const LITERAL_LEN: usize = 1;

pub const U16_LEN: usize = 2;

pub const U32_LEN: usize = 4;

/// Bytes of an integer or a double.
pub const NUMBER_LEN: usize = 8;

/// Bytes of a date, datetime or timestamp.
pub const TIME_LEN: usize = 8;

/// Bytes of a duration: the nanoseconds and the number of fractional digits.
pub const DURATION_LEN: usize = 12;

/// Bytes of the element count of an array or an object.
pub const ELEMENT_COUNT_LEN: usize = 4;

/// Bytes of the element count and of the size of an array or an object.
pub const HEADER_LEN: usize = 8;

/// Bytes of the offset in a key entry.
pub const KEY_OFFSET_LEN: usize = 4;

/// Bytes of a key entry: the offset and the length of the key.
pub const KEY_ENTRY_LEN: usize = 6;

/// Bytes of a value entry: the type code and the offset of the value.
pub const VALUE_ENTRY_LEN: usize = 5;

/// The type of a JSON value.
#[derive(Clone, Copy, Debug, PartialEq, Eq, Structural)]
pub enum JsonType {
    Object,
    Array,
    Literal,
    I64,
    U64,
    Double,
    String,
    Opaque,
    Date,
    Datetime,
    Timestamp,
    Time,
}

/// The type that a type code stands for.
pub open spec fn json_type(code: u8) -> Option<JsonType> {
    if code == 0x01 {
        Some(JsonType::Object)
    } else if code == 0x03 {
        Some(JsonType::Array)
    } else if code == 0x04 {
        Some(JsonType::Literal)
    } else if code == 0x09 {
        Some(JsonType::I64)
    } else if code == 0x0a {
        Some(JsonType::U64)
    } else if code == 0x0b {
        Some(JsonType::Double)
    } else if code == 0x0c {
        Some(JsonType::String)
    } else if code == 0x0d {
        Some(JsonType::Opaque)
    } else if code == 0x0e {
        Some(JsonType::Date)
    } else if code == 0x0f {
        Some(JsonType::Datetime)
    } else if code == 0x10 {
        Some(JsonType::Timestamp)
    } else if code == 0x11 {
        Some(JsonType::Time)
    } else {
        None
    }
}

impl JsonType {
    /// The type that a type code stands for, if any.
    pub fn from_code(code: u8) -> (r: Option<JsonType>)
        ensures
            r == json_type(code),
    {
        match code {
            0x01 => Some(JsonType::Object),
            0x03 => Some(JsonType::Array),
            0x04 => Some(JsonType::Literal),
            0x09 => Some(JsonType::I64),
            0x0a => Some(JsonType::U64),
            0x0b => Some(JsonType::Double),
            0x0c => Some(JsonType::String),
            0x0d => Some(JsonType::Opaque),
            0x0e => Some(JsonType::Date),
            0x0f => Some(JsonType::Datetime),
            0x10 => Some(JsonType::Timestamp),
            0x11 => Some(JsonType::Time),
            _ => None,
        }
    }
}

/// Why a document could not be read.
#[derive(Debug)]
pub enum Error {
    /// An offset or a length leaves the document.
    CorruptedData(String),
    /// A type code or a value is not of the type that is asked for.
    InvalidDataType(String),
    /// A variable-length integer ends past the document.
    UnexpectedEof,
}

/// What an [`Error`] says.
pub enum ErrorView {
    CorruptedData(Seq<char>),
    InvalidDataType(Seq<char>),
    UnexpectedEof,
}

impl View for Error {
    type V = ErrorView;

    open spec fn view(&self) -> ErrorView {
        match self {
            Error::CorruptedData(msg) => ErrorView::CorruptedData(msg@),
            Error::InvalidDataType(msg) => ErrorView::InvalidDataType(msg@),
            Error::UnexpectedEof => ErrorView::UnexpectedEof,
        }
    }
}

/// Which position of an array a path names.
#[derive(Clone, Copy, Debug, PartialEq, Eq, Structural)]
pub enum ArrayIndex {
    /// Counted from the first element.
    Left(u32),
    /// Counted from the last element.
    Right(u32),
}

/// A JSON value: its type and its encoding.
#[derive(Clone, Copy, Debug)]
pub struct JsonRef<'a> {
    pub type_code: JsonType,
    pub value: &'a [u8],
}

/// The type and the encoding of a [`JsonRef`].
pub struct JsonView {
    pub tp: JsonType,
    pub value: Seq<u8>,
}

impl<'a> View for JsonRef<'a> {
    type V = JsonView;

    open spec fn view(&self) -> JsonView {
        JsonView { tp: self.type_code, value: self.value@ }
    }
}

/// Whether a call ended as `want` says.
pub open spec fn same_json(r: Result<JsonRef, Error>, want: Result<JsonView, ErrorView>) -> bool {
    match (r, want) {
        (Ok(j), Ok(v)) => j@ == v,
        (Err(e), Err(w)) => e@ == w,
        _ => false,
    }
}

/// Whether a call ended as `want` says.
pub open spec fn same_bytes(r: Result<&[u8], Error>, want: Result<Seq<u8>, ErrorView>) -> bool {
    match (r, want) {
        (Ok(b), Ok(v)) => b@ == v,
        (Err(e), Err(w)) => e@ == w,
        _ => false,
    }
}

pub open spec fn out_of_bounds_text(start: nat, end: nat, len: nat) -> Seq<char> {
    "JSON binary out of bounds: ["@ + decimal(start) + ", "@ + decimal(end) + ") of len "@
        + decimal(len)
}

pub open spec fn past_end_text(what: Seq<char>, off: nat, len: nat) -> Seq<char> {
    what + decimal(off) + " past len "@ + decimal(len)
}

pub open spec fn key_range_text(off: nat, len: nat) -> Seq<char> {
    "JSON object key range overflow: off="@ + decimal(off) + " len="@ + decimal(len)
}

pub open spec fn corrupted_data(text: Seq<char>) -> ErrorView {
    ErrorView::CorruptedData(text)
}

/// `s[start..end]`, if that lies in `s`.
pub open spec fn slice_at(s: Seq<u8>, start: nat, end: nat) -> Result<Seq<u8>, ErrorView> {
    if start <= end <= s.len() {
        Ok(s.subrange(start as int, end as int))
    } else {
        Err(corrupted_data(out_of_bounds_text(start, end, s.len())))
    }
}

/// The `len` bytes of `s` at `start`; `overflow` says what is reported where
/// the end of the range is no machine offset.
pub open spec fn range_at(s: Seq<u8>, start: nat, len: nat, overflow: Seq<char>) -> Result<
    Seq<u8>,
    ErrorView,
> {
    if start + len > usize::MAX {
        Err(corrupted_data(overflow))
    } else {
        slice_at(s, start, start + len)
    }
}

/// The number that `len` bytes at `off` hold, little-endian.
pub open spec fn number_at(s: Seq<u8>, off: nat, len: nat, overflow: Seq<char>) -> Result<
    nat,
    ErrorView,
> {
    match range_at(s, off, len, overflow) {
        Ok(b) => Ok(le_value(b)),
        Err(e) => Err(e),
    }
}

pub open spec fn u32_at(s: Seq<u8>, off: nat) -> Result<nat, ErrorView> {
    number_at(s, off, 4, "JSON binary u32 offset overflow at "@ + decimal(off))
}

pub open spec fn u16_at(s: Seq<u8>, off: nat) -> Result<nat, ErrorView> {
    number_at(s, off, 2, "JSON binary u16 offset overflow at "@ + decimal(off))
}

/// The element count in the header of an array or an object.
pub open spec fn elem_count(s: Seq<u8>) -> nat {
    le_value(s.take(4))
}

/// The length-prefixed bytes of a string or of an opaque value. They start at
/// `off`; `lead` bytes stand in front of the length.
pub open spec fn prefixed_at(
    s: Seq<u8>,
    off: nat,
    lead: nat,
    past_end: Seq<char>,
    length_overflow: Seq<char>,
    range_overflow: Seq<char>,
) -> Result<Seq<u8>, ErrorView> {
    if off + lead > s.len() {
        Err(corrupted_data(past_end_text(past_end, off + lead, s.len())))
    } else {
        match varint(s.skip((off + lead) as int)) {
            None => Err(ErrorView::UnexpectedEof),
            Some((n, k)) => {
                let total = ((n as u64) as usize) as nat + k + lead;
                if total > usize::MAX {
                    Err(corrupted_data(length_overflow))
                } else {
                    range_at(s, off, total, range_overflow)
                }
            },
        }
    }
}

/// The encoding of a value of type `tp` whose entry stands at `entry_off` and
/// names the offset `off`.
pub open spec fn payload_at(s: Seq<u8>, tp: JsonType, entry_off: nat, off: nat) -> Result<
    Seq<u8>,
    ErrorView,
> {
    match tp {
        JsonType::Literal => range_at(s, entry_off + 1, 1, "JSON literal range overflow"@),
        JsonType::U64 | JsonType::I64 | JsonType::Double => range_at(
            s,
            off,
            8,
            "JSON number range overflow"@,
        ),
        JsonType::String => prefixed_at(
            s,
            off,
            0,
            "JSON string offset "@,
            "JSON string length overflow"@,
            "JSON string range overflow"@,
        ),
        JsonType::Opaque => if off + 1 > usize::MAX {
            Err(corrupted_data("JSON opaque offset overflow"@))
        } else {
            prefixed_at(
                s,
                off,
                1,
                "JSON opaque offset "@,
                "JSON opaque length overflow"@,
                "JSON opaque range overflow"@,
            )
        },
        JsonType::Date | JsonType::Datetime | JsonType::Timestamp => range_at(
            s,
            off,
            8,
            "JSON time range overflow"@,
        ),
        JsonType::Time => range_at(s, off, 12, "JSON duration range overflow"@),
        JsonType::Object | JsonType::Array => if off + 4 > usize::MAX {
            Err(corrupted_data("JSON nested size offset overflow"@))
        } else {
            match u32_at(s, off + 4) {
                Err(e) => Err(e),
                Ok(size) => range_at(s, off, size, "JSON nested range overflow"@),
            }
        },
    }
}

/// The value whose entry stands at `entry_off`.
pub open spec fn entry_value(s: Seq<u8>, entry_off: nat) -> Result<JsonView, ErrorView> {
    if entry_off >= s.len() {
        let end = if entry_off < usize::MAX {
            entry_off + 1
        } else {
            entry_off
        };
        Err(corrupted_data(out_of_bounds_text(entry_off, end, s.len())))
    } else {
        match json_type(s[entry_off as int]) {
            None => Err(ErrorView::InvalidDataType("unexpected JSON type"@)),
            Some(tp) => match u32_at(s, entry_off + 1) {
                Err(e) => Err(e),
                Ok(off) => match payload_at(s, tp, entry_off, off) {
                    Err(e) => Err(e),
                    Ok(value) => Ok(JsonView { tp, value }),
                },
            },
        }
    }
}

/// Element `idx` of an array.
pub open spec fn array_elem(s: Seq<u8>, idx: nat) -> Result<JsonView, ErrorView> {
    if idx * 5 > usize::MAX {
        Err(corrupted_data("JSON array index overflow"@))
    } else if 8 + idx * 5 > usize::MAX {
        Err(corrupted_data("JSON array entry offset overflow"@))
    } else {
        entry_value(s, 8 + idx * 5)
    }
}

/// Key `i` of an object.
pub open spec fn object_key(s: Seq<u8>, i: nat) -> Result<Seq<u8>, ErrorView> {
    if i * 6 > usize::MAX {
        Err(corrupted_data("JSON object key index overflow"@))
    } else if 8 + i * 6 > usize::MAX {
        Err(corrupted_data("JSON object key-entry offset overflow"@))
    } else {
        match u32_at(s, 8 + i * 6) {
            Err(e) => Err(e),
            Ok(off) => match u16_at(s, 8 + i * 6 + 4) {
                Err(e) => Err(e),
                Ok(len) => range_at(s, off, len, key_range_text(off, len)),
            },
        }
    }
}

/// Value `i` of an object.
pub open spec fn object_val(s: Seq<u8>, i: nat) -> Result<JsonView, ErrorView> {
    let keys = elem_count(s) * 6;
    if s.len() < 4 {
        Err(corrupted_data(out_of_bounds_text(0, 4, s.len())))
    } else if keys > usize::MAX {
        Err(corrupted_data("JSON object key-entries size overflow"@))
    } else if 8 + keys + i * 5 > usize::MAX {
        Err(corrupted_data("JSON object value-entry offset overflow"@))
    } else {
        entry_value(s, 8 + keys + i * 5)
    }
}

/// Whether `a` comes before `b` in lexicographic order.
pub open spec fn bytes_less(a: Seq<u8>, b: Seq<u8>) -> bool
    decreases a.len(),
{
    if b.len() == 0 {
        false
    } else if a.len() == 0 {
        true
    } else {
        a[0] < b[0] || (a[0] == b[0] && bytes_less(a.drop_first(), b.drop_first()))
    }
}

/// Where the binary search for `key` between `i` and `j` ends.
pub open spec fn search_from(s: Seq<u8>, key: Seq<u8>, i: nat, j: nat) -> Result<nat, ErrorView>
    decreases j - i,
{
    if i >= j {
        Ok(i)
    } else {
        let mid = (i + j) / 2;
        match object_key(s, mid) {
            Err(e) => Err(e),
            Ok(k) => if bytes_less(k, key) {
                search_from(s, key, mid + 1, j)
            } else {
                search_from(s, key, i, mid)
            },
        }
    }
}

/// What the search for `key` in an object finds.
pub open spec fn object_search(s: Seq<u8>, key: Seq<u8>) -> Result<Option<nat>, ErrorView> {
    if s.len() < 4 {
        Err(corrupted_data(out_of_bounds_text(0, 4, s.len())))
    } else {
        match search_from(s, key, 0, elem_count(s)) {
            Err(e) => Err(e),
            Ok(i) => if i < elem_count(s) {
                match object_key(s, i) {
                    Err(e) => Err(e),
                    Ok(k) => if k == key {
                        Ok(Some(i))
                    } else {
                        Ok(None)
                    },
                }
            } else {
                Ok(None)
            },
        }
    }
}

fn corrupted(text: &str) -> (e: Error)
    ensures
        e@ == corrupted_data(text@),
{
    Error::CorruptedData(text.to_owned())
}

fn corrupted_at(text: &str, off: usize) -> (e: Error)
    ensures
        e@ == corrupted_data(text@ + decimal(off as nat)),
{
    let mut msg: String = text.to_owned();
    append_decimal(&mut msg, off as u64);
    Error::CorruptedData(msg)
}

fn out_of_bounds(start: usize, end: usize, len: usize) -> (e: Error)
    ensures
        e@ == corrupted_data(out_of_bounds_text(start as nat, end as nat, len as nat)),
{
    let mut msg: String = "JSON binary out of bounds: [".to_owned();
    append_decimal(&mut msg, start as u64);
    msg.append(", ");
    append_decimal(&mut msg, end as u64);
    msg.append(") of len ");
    append_decimal(&mut msg, len as u64);
    Error::CorruptedData(msg)
}

fn past_end(what: &str, off: usize, len: usize) -> (e: Error)
    ensures
        e@ == corrupted_data(past_end_text(what@, off as nat, len as nat)),
{
    let mut msg: String = what.to_owned();
    append_decimal(&mut msg, off as u64);
    msg.append(" past len ");
    append_decimal(&mut msg, len as u64);
    Error::CorruptedData(msg)
}

fn key_range_overflow(off: usize, len: usize) -> (e: Error)
    ensures
        e@ == corrupted_data(key_range_text(off as nat, len as nat)),
{
    let mut msg: String = "JSON object key range overflow: off=".to_owned();
    append_decimal(&mut msg, off as u64);
    msg.append(" len=");
    append_decimal(&mut msg, len as u64);
    Error::CorruptedData(msg)
}

/// Compares two byte strings: whether `a` comes before `b`, and whether they
/// are the same.
fn bytes_compare(a: &[u8], b: &[u8]) -> (r: (bool, bool))
    ensures
        r.0 == bytes_less(a@, b@),
        r.1 == (a@ == b@),
{
    let mut i: usize = 0;
    assert(a@.skip(0) =~= a@);
    assert(b@.skip(0) =~= b@);
    while i < a.len() && i < b.len() && a[i] == b[i]
        invariant
            i <= a@.len(),
            i <= b@.len(),
            bytes_less(a@, b@) == bytes_less(a@.skip(i as int), b@.skip(i as int)),
            forall|j: int| 0 <= j < i ==> a@[j] == b@[j],
        decreases a@.len() - i,
    {
        assert(a@.skip(i as int).drop_first() =~= a@.skip(i + 1));
        assert(b@.skip(i as int).drop_first() =~= b@.skip(i + 1));
        i = i + 1;
    }
    if i == b.len() {
        if i == a.len() {
            assert(a@ =~= b@);
        }
        (false, i == a.len())
    } else if i == a.len() {
        (true, false)
    } else {
        assert(a@[i as int] != b@[i as int]);
        (a[i] < b[i], false)
    }
}

impl<'a> JsonRef<'a> {
    pub fn new(type_code: JsonType, value: &'a [u8]) -> (r: JsonRef<'a>)
        ensures
            r@ == (JsonView { tp: type_code, value: value@ }),
    {
        JsonRef { type_code, value }
    }

    /// The type of the value.
    pub fn get_type(&self) -> (r: JsonType)
        ensures
            r == self@.tp,
    {
        self.type_code
    }

    /// The encoding of the value.
    pub fn value(&self) -> (r: &'a [u8])
        ensures
            r@ == self@.value,
    {
        self.value
    }

    /// The element count of an array or an object, as its header says.
    pub fn get_elem_count(&self) -> (r: usize)
        requires
            self@.value.len() >= ELEMENT_COUNT_LEN,
        ensures
            r == elem_count(self@.value),
            r <= u32::MAX,
    {
        decode_u32_le(self.value) as usize
    }

    /// The bytes `start..end` of the encoding, if they lie in it.
    fn try_slice(&self, start: usize, end: usize) -> (r: Result<&'a [u8], Error>)
        ensures
            same_bytes(r, slice_at(self@.value, start as nat, end as nat)),
    {
        if start <= end && end <= self.value.len() {
            Ok(slice_subrange(self.value, start, end))
        } else {
            Err(out_of_bounds(start, end, self.value.len()))
        }
    }

    /// The `len` bytes at `start`; `overflow` is reported where the end of
    /// the range is no machine offset.
    fn try_range(&self, start: usize, len: usize, overflow: &str) -> (r: Result<&'a [u8], Error>)
        ensures
            same_bytes(r, range_at(self@.value, start as nat, len as nat, overflow@)),
    {
        match start.checked_add(len) {
            None => Err(corrupted(overflow)),
            Some(end) => self.try_slice(start, end),
        }
    }

    fn try_decode_u32_le_at(&self, off: usize) -> (r: Result<u32, Error>)
        ensures
            match (r, u32_at(self@.value, off as nat)) {
                (Ok(v), Ok(n)) => v as nat == n,
                (Err(e), Err(w)) => e@ == w,
                _ => false,
            },
    {
        match off.checked_add(U32_LEN) {
            None => Err(corrupted_at("JSON binary u32 offset overflow at ", off)),
            Some(end) => match self.try_slice(off, end) {
                Err(e) => Err(e),
                Ok(b) => {
                    assert(b@.take(4) =~= b@);
                    Ok(decode_u32_le(b))
                },
            },
        }
    }

    fn try_decode_u16_le_at(&self, off: usize) -> (r: Result<u16, Error>)
        ensures
            match (r, u16_at(self@.value, off as nat)) {
                (Ok(v), Ok(n)) => v as nat == n,
                (Err(e), Err(w)) => e@ == w,
                _ => false,
            },
    {
        match off.checked_add(U16_LEN) {
            None => Err(corrupted_at("JSON binary u16 offset overflow at ", off)),
            Some(end) => match self.try_slice(off, end) {
                Err(e) => Err(e),
                Ok(b) => {
                    assert(b@.take(2) =~= b@);
                    Ok(decode_u16_le(b))
                },
            },
        }
    }

    /// The position, counted from the first element, that `idx` names. `None`
    /// where `idx` counts from the last element and there are too few.
    pub fn array_get_index(&self, idx: ArrayIndex) -> (r: Option<usize>)
        requires
            idx is Right ==> self@.value.len() >= ELEMENT_COUNT_LEN,
        ensures
            match idx {
                ArrayIndex::Left(i) => r == Some(i as usize),
                ArrayIndex::Right(i) => match r {
                    Some(k) => k == elem_count(self@.value) - 1 - i,
                    None => elem_count(self@.value) < 1 + i,
                },
            },
    {
        match idx {
            ArrayIndex::Left(i) => Some(i as usize),
            ArrayIndex::Right(i) => {
                let count: usize = self.get_elem_count();
                if count <= i as usize {
                    None
                } else {
                    Some(count - 1 - i as usize)
                }
            },
        }
    }

    /// Element `idx` of an array.
    pub fn array_get_elem(&self, idx: usize) -> (r: Result<JsonRef<'a>, Error>)
        ensures
            same_json(r, array_elem(self@.value, idx as nat)),
    {
        match idx.checked_mul(VALUE_ENTRY_LEN) {
            None => Err(corrupted("JSON array index overflow")),
            Some(entries) => match HEADER_LEN.checked_add(entries) {
                None => Err(corrupted("JSON array entry offset overflow")),
                Some(off) => self.val_entry_get(off),
            },
        }
    }

    /// Key `i` of an object.
    pub fn object_get_key(&self, i: usize) -> (r: Result<&'a [u8], Error>)
        ensures
            same_bytes(r, object_key(self@.value, i as nat)),
    {
        let entries: usize = match i.checked_mul(KEY_ENTRY_LEN) {
            None => return Err(corrupted("JSON object key index overflow")),
            Some(n) => n,
        };
        let start: usize = match HEADER_LEN.checked_add(entries) {
            None => return Err(corrupted("JSON object key-entry offset overflow")),
            Some(n) => n,
        };
        let key_off: usize = match self.try_decode_u32_le_at(start) {
            Err(e) => return Err(e),
            Ok(n) => n as usize,
        };
        let key_len: usize = match self.try_decode_u16_le_at(start + KEY_OFFSET_LEN) {
            Err(e) => return Err(e),
            Ok(n) => n as usize,
        };
        match key_off.checked_add(key_len) {
            None => Err(key_range_overflow(key_off, key_len)),
            Some(key_end) => self.try_slice(key_off, key_end),
        }
    }

    /// Value `i` of an object.
    pub fn object_get_val(&self, i: usize) -> (r: Result<JsonRef<'a>, Error>)
        ensures
            same_json(r, object_val(self@.value, i as nat)),
    {
        if self.value.len() < ELEMENT_COUNT_LEN {
            return Err(out_of_bounds(0, ELEMENT_COUNT_LEN, self.value.len()));
        }
        let keys: usize = match self.get_elem_count().checked_mul(KEY_ENTRY_LEN) {
            None => return Err(corrupted("JSON object key-entries size overflow")),
            Some(n) => n,
        };
        let off: Option<usize> = match (HEADER_LEN.checked_add(keys), i.checked_mul(VALUE_ENTRY_LEN)) {
            (Some(base), Some(entries)) => base.checked_add(entries),
            _ => None,
        };
        match off {
            None => Err(corrupted("JSON object value-entry offset overflow")),
            Some(off) => self.val_entry_get(off),
        }
    }

    /// Searches for `key` among the keys of an object, which stand in
    /// ascending order, and gives its position.
    pub fn object_search_key(&self, key: &[u8]) -> (r: Result<Option<usize>, Error>)
        ensures
            match (r, object_search(self@.value, key@)) {
                (Ok(Some(i)), Ok(Some(n))) => i as nat == n,
                (Ok(None), Ok(None)) => true,
                (Err(e), Err(w)) => e@ == w,
                _ => false,
            },
    {
        if self.value.len() < ELEMENT_COUNT_LEN {
            return Err(out_of_bounds(0, ELEMENT_COUNT_LEN, self.value.len()));
        }
        let len: usize = self.get_elem_count();
        let mut j: usize = len;
        let mut i: usize = 0;
        while i < j
            invariant
                i <= j <= len,
                self@.value.len() >= ELEMENT_COUNT_LEN,
                len == elem_count(self@.value),
                search_from(self@.value, key@, i as nat, j as nat) == search_from(
                    self@.value,
                    key@,
                    0,
                    elem_count(self@.value),
                ),
            decreases j - i,
        {
            let mid: usize = i + (j - i) / 2;
            assert(mid == (i + j) / 2);
            match self.object_get_key(mid) {
                Err(e) => return Err(e),
                Ok(k) => if bytes_compare(k, key).0 {
                    i = mid + 1;
                } else {
                    j = mid;
                },
            }
        }
        if i < len {
            match self.object_get_key(i) {
                Err(e) => Err(e),
                Ok(k) => if bytes_compare(k, key).1 {
                    Ok(Some(i))
                } else {
                    Ok(None)
                },
            }
        } else {
            Ok(None)
        }
    }

    /// The bytes of a string or of an opaque value; see [`prefixed_at`].
    fn try_prefixed(
        &self,
        off: usize,
        lead: usize,
        past: &str,
        length_overflow: &str,
        range_overflow: &str,
    ) -> (r: Result<&'a [u8], Error>)
        requires
            off + lead <= usize::MAX,
        ensures
            same_bytes(
                r,
                prefixed_at(
                    self@.value,
                    off as nat,
                    lead as nat,
                    past@,
                    length_overflow@,
                    range_overflow@,
                ),
            ),
    {
        let body: usize = off + lead;
        if body > self.value.len() {
            return Err(past_end(past, body, self.value.len()));
        }
        let tail: &[u8] = slice_subrange(self.value, body, self.value.len());
        assert(tail@ =~= self@.value.skip(body as int));
        proof {
            lemma_varint_bounds(tail@);
        }
        match try_decode_var_u64(tail) {
            None => Err(Error::UnexpectedEof),
            Some((n, n_len)) => {
                let total: Option<usize> = match (n as usize).checked_add(n_len) {
                    None => None,
                    Some(t) => t.checked_add(lead),
                };
                match total {
                    None => Err(corrupted(length_overflow)),
                    Some(t) => self.try_range(off, t, range_overflow),
                }
            },
        }
    }

    /// The encoding of a value of type `tp`; see [`payload_at`].
    fn try_payload(&self, tp: JsonType, entry_off: usize, off: usize) -> (r: Result<
        &'a [u8],
        Error,
    >)
        requires
            entry_off < self@.value.len(),
        ensures
            same_bytes(r, payload_at(self@.value, tp, entry_off as nat, off as nat)),
    {
        assert(entry_off < self.value.len());
        match tp {
            JsonType::Literal => self.try_range(
                entry_off + TYPE_LEN,
                LITERAL_LEN,
                "JSON literal range overflow",
            ),
            JsonType::U64 | JsonType::I64 | JsonType::Double => self.try_range(
                off,
                NUMBER_LEN,
                "JSON number range overflow",
            ),
            JsonType::String => self.try_prefixed(
                off,
                0,
                "JSON string offset ",
                "JSON string length overflow",
                "JSON string range overflow",
            ),
            JsonType::Opaque => if off == usize::MAX {
                Err(corrupted("JSON opaque offset overflow"))
            } else {
                self.try_prefixed(
                    off,
                    1,
                    "JSON opaque offset ",
                    "JSON opaque length overflow",
                    "JSON opaque range overflow",
                )
            },
            JsonType::Date | JsonType::Datetime | JsonType::Timestamp => self.try_range(
                off,
                TIME_LEN,
                "JSON time range overflow",
            ),
            JsonType::Time => self.try_range(off, DURATION_LEN, "JSON duration range overflow"),
            JsonType::Object | JsonType::Array => match off.checked_add(ELEMENT_COUNT_LEN) {
                None => Err(corrupted("JSON nested size offset overflow")),
                Some(size_off) => match self.try_decode_u32_le_at(size_off) {
                    Err(e) => Err(e),
                    Ok(size) => self.try_range(off, size as usize, "JSON nested range overflow"),
                },
            },
        }
    }

    /// The value whose entry stands at `val_entry_off`.
    pub fn val_entry_get(&self, val_entry_off: usize) -> (r: Result<JsonRef<'a>, Error>)
        ensures
            same_json(r, entry_value(self@.value, val_entry_off as nat)),
    {
        if val_entry_off >= self.value.len() {
            return Err(
                out_of_bounds(
                    val_entry_off,
                    val_entry_off.saturating_add(TYPE_LEN),
                    self.value.len(),
                ),
            );
        }
        let tp: JsonType = match JsonType::from_code(self.value[val_entry_off]) {
            None => return Err(Error::InvalidDataType("unexpected JSON type".to_owned())),
            Some(tp) => tp,
        };
        let off: usize = match self.try_decode_u32_le_at(val_entry_off + TYPE_LEN) {
            Err(e) => return Err(e),
            Ok(n) => n as usize,
        };
        match self.try_payload(tp, val_entry_off, off) {
            Err(e) => Err(e),
            Ok(value) => Ok(JsonRef::new(tp, value)),
        }
    }

    /// The literal that the document is. `rendered` is the document as text,
    /// for the message.
    pub fn as_literal(&self, rendered: &str) -> (r: Result<u8, Error>)
        requires
            self@.tp == JsonType::Literal ==> self@.value.len() > 0,
        ensures
            match r {
                Ok(b) => self@.tp == JsonType::Literal && b == self@.value[0],
                Err(e) => self@.tp != JsonType::Literal && e@ == ErrorView::InvalidDataType(
                    "Can not covert from  from "@ + rendered@ + " to literal"@,
                ),
            },
    {
        match self.type_code {
            JsonType::Literal => Ok(self.value[0]),
            _ => {
                let mut msg: String = "Can not covert from  from ".to_owned();
                msg.append(rendered);
                msg.append(" to literal");
                Err(Error::InvalidDataType(msg))
            },
        }
    }

    /// The length of the document's encoding, type code included.
    pub fn binary_len(&self) -> (r: usize)
        requires
            self@.value.len() < usize::MAX,
        ensures
            r == 1 + self@.value.len(),
    {
        TYPE_LEN + self.value.len()
    }
}

proof fn lemma_bytes_less_irreflexive(a: Seq<u8>)
    ensures
        !bytes_less(a, a),
    decreases a.len(),
{
    if a.len() > 0 {
        lemma_bytes_less_irreflexive(a.drop_first());
    }
}

proof fn lemma_bytes_less_transitive(a: Seq<u8>, b: Seq<u8>, c: Seq<u8>)
    requires
        bytes_less(a, b),
        bytes_less(b, c),
    ensures
        bytes_less(a, c),
    decreases a.len(),
{
    if a.len() > 0 && a[0] == b[0] && b[0] == c[0] {
        lemma_bytes_less_transitive(a.drop_first(), b.drop_first(), c.drop_first());
    }
}

proof fn lemma_bytes_less_total(a: Seq<u8>, b: Seq<u8>)
    ensures
        a == b || bytes_less(a, b) || bytes_less(b, a),
    decreases a.len(),
{
    if a.len() == 0 && b.len() == 0 {
        assert(a =~= b);
    } else if a.len() > 0 && b.len() > 0 && a[0] == b[0] {
        lemma_bytes_less_total(a.drop_first(), b.drop_first());
        if a.drop_first() == b.drop_first() {
            assert(a =~= seq![a[0]] + a.drop_first());
            assert(b =~= seq![b[0]] + b.drop_first());
        }
    }
}

/// Whether all keys of an object can be read.
pub open spec fn keys_readable(s: Seq<u8>) -> bool {
    forall|i: nat| i < elem_count(s) ==> (#[trigger] object_key(s, i)) is Ok
}

/// Whether the keys of an object can be read and none comes before one that
/// stands in front of it. A key may occur several times in a row.
pub open spec fn keys_ascending(s: Seq<u8>) -> bool {
    &&& keys_readable(s)
    &&& forall|i: nat, j: nat|
        i < j < elem_count(s) ==> !bytes_less(
            (#[trigger] object_key(s, j))->Ok_0,
            (#[trigger] object_key(s, i))->Ok_0,
        )
}

/// In an ascending run of keys the binary search ends at the first key that
/// does not come before the one it looks for.
proof fn lemma_search_from(s: Seq<u8>, key: Seq<u8>, i: nat, j: nat)
    requires
        keys_ascending(s),
        i <= j <= elem_count(s),
        forall|k: nat| k < i ==> bytes_less((#[trigger] object_key(s, k))->Ok_0, key),
        forall|k: nat|
            j <= k < elem_count(s) ==> !bytes_less((#[trigger] object_key(s, k))->Ok_0, key),
    ensures
        search_from(s, key, i, j) matches Ok(n) && n <= elem_count(s) && (forall|k: nat|
            k < n ==> bytes_less((#[trigger] object_key(s, k))->Ok_0, key)) && (forall|k: nat|
            n <= k < elem_count(s) ==> !bytes_less((#[trigger] object_key(s, k))->Ok_0, key)),
    decreases j - i,
{
    if i < j {
        let mid = (i + j) / 2;
        let at = object_key(s, mid)->Ok_0;
        assert(object_key(s, mid) is Ok);
        if bytes_less(at, key) {
            assert forall|k: nat| k < mid + 1 implies bytes_less(
                (#[trigger] object_key(s, k))->Ok_0,
                key,
            ) by {
                let before = object_key(s, k)->Ok_0;
                lemma_bytes_less_total(before, at);
                if k < mid && before != at {
                    lemma_bytes_less_transitive(before, at, key);
                }
            }
            lemma_search_from(s, key, mid + 1, j);
        } else {
            assert forall|k: nat| mid <= k < elem_count(s) implies !bytes_less(
                (#[trigger] object_key(s, k))->Ok_0,
                key,
            ) by {
                let after = object_key(s, k)->Ok_0;
                lemma_bytes_less_total(at, after);
                if mid < k && after != at && bytes_less(after, key) {
                    lemma_bytes_less_transitive(at, after, key);
                }
            }
            lemma_search_from(s, key, i, mid);
        }
    }
}

/// Where the keys of an object stand in ascending order, the search finds each
/// of them: at its own position, or at the first of several equal ones.
pub proof fn lemma_search_finds_every_key(s: Seq<u8>, i: nat)
    requires
        s.len() >= 4,
        keys_ascending(s),
        i < elem_count(s),
    ensures
        object_search(s, object_key(s, i)->Ok_0) matches Ok(Some(n)) && n <= i && object_key(s, n)
            == object_key(s, i) && (forall|k: nat|
            k < n ==> #[trigger] object_key(s, k) != object_key(s, i)),
        (forall|k: nat| k < i ==> #[trigger] object_key(s, k) != object_key(s, i))
            ==> object_search(s, object_key(s, i)->Ok_0) == Ok::<Option<nat>, ErrorView>(Some(i)),
{
    let key = object_key(s, i)->Ok_0;
    lemma_search_from(s, key, 0, elem_count(s));
    lemma_bytes_less_irreflexive(key);
    let n = search_from(s, key, 0, elem_count(s))->Ok_0;
    assert(object_key(s, i) is Ok);
    assert(n <= i) by {
        if i < n {
            assert(bytes_less(object_key(s, i)->Ok_0, key));
        }
    }
    assert(object_key(s, n) is Ok);
    lemma_bytes_less_total(object_key(s, n)->Ok_0, key);
    assert forall|k: nat| k < n implies #[trigger] object_key(s, k) != object_key(s, i) by {
        assert(bytes_less(object_key(s, k)->Ok_0, key));
    }
}

/// Where the keys of an object stand in ascending order, the search for a key
/// that is not among them finds nothing.
pub proof fn lemma_search_misses_other_keys(s: Seq<u8>, key: Seq<u8>)
    requires
        s.len() >= 4,
        keys_ascending(s),
        forall|i: nat| i < elem_count(s) ==> (#[trigger] object_key(s, i))->Ok_0 != key,
    ensures
        object_search(s, key) == Ok::<Option<nat>, ErrorView>(None),
{
    lemma_search_from(s, key, 0, elem_count(s));
    let n = search_from(s, key, 0, elem_count(s))->Ok_0;
    if n < elem_count(s) {
        assert(object_key(s, n) is Ok);
    }
}

/// Whatever the document holds, a position that the search gives is that of
/// the key.
pub proof fn lemma_search_gives_the_key(s: Seq<u8>, key: Seq<u8>)
    ensures
        object_search(s, key) matches Ok(Some(i)) ==> i < elem_count(s) && object_key(s, i) == Ok::<
            Seq<u8>,
            ErrorView,
        >(key),
{
}

/// Whether `part` is a run of bytes of `s`.
pub open spec fn lies_in(part: Seq<u8>, s: Seq<u8>) -> bool {
    exists|a: int, b: int| 0 <= a <= b <= s.len() && part == #[trigger] s.subrange(a, b)
}

/// Whatever the document holds, the encoding of a value that is read lies in
/// the document.
pub proof fn lemma_value_lies_in_document(s: Seq<u8>, entry_off: nat)
    ensures
        entry_value(s, entry_off) matches Ok(v) ==> lies_in(v.value, s),
{
}

/// Whatever the document holds, a key that is read lies in the document.
pub proof fn lemma_key_lies_in_document(s: Seq<u8>, i: nat)
    ensures
        object_key(s, i) matches Ok(k) ==> lies_in(k, s),
{
}

/// Whether `a` comes before `b` in the order of unsigned bytes: up to some place
/// they agree, and there `a` has ended and `b` has not, or `a` has the smaller
/// byte.
pub open spec fn unsigned_less(a: Seq<u8>, b: Seq<u8>) -> bool {
    exists|i: int|
        #![trigger a.take(i), b.take(i)]
        0 <= i <= a.len() && i <= b.len() && a.take(i) == b.take(i) && ((i == a.len() && i < b.len())
            || (i < a.len() && i < b.len() && (a[i] as int) < b[i] as int))
}

/// At the first place in which two byte strings differ, the smaller byte
/// decides, or the end.
pub proof fn lemma_order_of_bytes(a: Seq<u8>, b: Seq<u8>, i: int)
    requires
        0 <= i <= a.len(),
        i <= b.len(),
        forall|j: int| 0 <= j < i ==> a[j] == b[j],
    ensures
        i == a.len() && i < b.len() ==> bytes_less(a, b) && !bytes_less(b, a),
        i < a.len() && i < b.len() && (a[i] as int) < b[i] as int ==> bytes_less(a, b)
            && !bytes_less(b, a),
        i == a.len() && i == b.len() ==> !bytes_less(a, b) && !bytes_less(b, a),
    decreases i,
{
    if i > 0 {
        let x = a.drop_first();
        let y = b.drop_first();
        assert forall|j: int| 0 <= j < i - 1 implies x[j] == y[j] by {
            assert(a[j + 1] == b[j + 1]);
        }
        assert(a[0] == b[0]);
        lemma_order_of_bytes(x, y, i - 1);
    }
}

/// Keys are compared as unsigned bytes.
pub proof fn lemma_bytes_are_unsigned(a: Seq<u8>, b: Seq<u8>)
    ensures
        bytes_less(a, b) == unsigned_less(a, b),
    decreases a.len(),
{
    if unsigned_less(a, b) {
        let i = choose|i: int|
            #![trigger a.take(i), b.take(i)]
            0 <= i <= a.len() && i <= b.len() && a.take(i) == b.take(i) && ((i == a.len() && i
                < b.len()) || (i < a.len() && i < b.len() && (a[i] as int) < b[i] as int));
        assert forall|j: int| 0 <= j < i implies a[j] == b[j] by {
            assert(a.take(i)[j] == b.take(i)[j]);
        }
        lemma_order_of_bytes(a, b, i);
    }
    if bytes_less(a, b) {
        lemma_first_difference(a, b);
    }
}

proof fn lemma_first_difference(a: Seq<u8>, b: Seq<u8>)
    requires
        bytes_less(a, b),
    ensures
        unsigned_less(a, b),
    decreases a.len(),
{
    if a.len() == 0 || a[0] < b[0] {
        assert(a.take(0) =~= b.take(0));
    } else {
        let x = a.drop_first();
        let y = b.drop_first();
        lemma_first_difference(x, y);
        let i = choose|i: int|
            #![trigger x.take(i), y.take(i)]
            0 <= i <= x.len() && i <= y.len() && x.take(i) == y.take(i) && ((i == x.len() && i
                < y.len()) || (i < x.len() && i < y.len() && (x[i] as int) < y[i] as int));
        assert forall|j: int| 0 <= j < i + 1 implies a[j] == b[j] by {
            if j > 0 {
                assert(x.take(i)[j - 1] == y.take(i)[j - 1]);
            }
        }
        assert(a.take(i + 1) =~= b.take(i + 1));
    }
}

/// In an object whose keys can be read and ascend as unsigned bytes, a search
/// finds the first position of its key, and nothing where no key is the one
/// that is looked for.
pub proof fn lemma_search_in_unsigned_order(s: Seq<u8>, key: Seq<u8>)
    requires
        s.len() >= 4,
        forall|i: nat| i < elem_count(s) ==> (#[trigger] object_key(s, i)) is Ok,
        forall|i: nat, j: nat|
            i < j < elem_count(s) ==> !unsigned_less(
                (#[trigger] object_key(s, j))->Ok_0,
                (#[trigger] object_key(s, i))->Ok_0,
            ),
    ensures
        (exists|i: nat| i < elem_count(s) && (#[trigger] object_key(s, i))->Ok_0 == key)
            ==> (object_search(s, key) matches Ok(Some(n)) && n < elem_count(s) && object_key(s, n)
            == Ok::<Seq<u8>, ErrorView>(key) && (forall|k: nat|
            k < n ==> (#[trigger] object_key(s, k))->Ok_0 != key)),
        !(exists|i: nat| i < elem_count(s) && (#[trigger] object_key(s, i))->Ok_0 == key)
            ==> object_search(s, key) == Ok::<Option<nat>, ErrorView>(None),
{
    assert forall|i: nat, j: nat| i < j < elem_count(s) implies !bytes_less(
        (#[trigger] object_key(s, j))->Ok_0,
        (#[trigger] object_key(s, i))->Ok_0,
    ) by {
        lemma_bytes_are_unsigned(object_key(s, j)->Ok_0, object_key(s, i)->Ok_0);
    }
    assert(keys_ascending(s));
    if exists|i: nat| i < elem_count(s) && (#[trigger] object_key(s, i))->Ok_0 == key {
        let i = choose|i: nat| i < elem_count(s) && (#[trigger] object_key(s, i))->Ok_0 == key;
        lemma_search_finds_every_key(s, i);
        let n = object_search(s, key)->Ok_0->0;
        assert(object_key(s, i) is Ok);
        assert forall|k: nat| k < n implies (#[trigger] object_key(s, k))->Ok_0 != key by {
            assert(object_key(s, k) is Ok);
        }
    } else {
        lemma_search_misses_other_keys(s, key);
    }
}

/// A search looks first at the key in the middle: where that cannot be read the
/// search reports why. In an object without keys it finds nothing.
pub proof fn lemma_search_starts_in_the_middle(s: Seq<u8>, key: Seq<u8>)
    requires
        s.len() >= 4,
    ensures
        elem_count(s) == 0 ==> object_search(s, key) == Ok::<Option<nat>, ErrorView>(None),
        elem_count(s) > 0 && object_key(s, elem_count(s) / 2) is Err ==> object_search(s, key)
            == Err::<Option<nat>, ErrorView>(object_key(s, elem_count(s) / 2)->Err_0),
{
}

/// The four bytes at `off` as a number.
pub open spec fn four_bytes(s: Seq<u8>, off: int) -> int {
    s[off] + 256 * s[off + 1] + 65_536 * s[off + 2] + 16_777_216 * s[off + 3]
}

proof fn lemma_u32_at(s: Seq<u8>, off: nat)
    requires
        s.len() <= usize::MAX,
    ensures
        off + 4 <= s.len() ==> u32_at(s, off) == Ok::<nat, ErrorView>(
            four_bytes(s, off as int) as nat,
        ),
        off + 4 > s.len() ==> u32_at(s, off) is Err && u32_at(s, off)->Err_0 is CorruptedData,
        off + 2 <= s.len() ==> u16_at(s, off) == Ok::<nat, ErrorView>(
            (s[off as int] + 256 * s[off as int + 1]) as nat,
        ),
        off + 2 > s.len() ==> u16_at(s, off) is Err && u16_at(s, off)->Err_0 is CorruptedData,
{
    if off + 4 <= s.len() {
        lemma_le_value_of_few(s.subrange(off as int, off as int + 4));
    }
    if off + 2 <= s.len() {
        lemma_le_value_of_few(s.subrange(off as int, off as int + 2));
    }
}

/// The header of an array or an object starts with the number of its elements,
/// in four bytes, the least significant first.
pub proof fn lemma_header(s: Seq<u8>)
    requires
        s.len() >= 4,
    ensures
        elem_count(s) == s[0] + 256 * s[1] + 65_536 * s[2] + 16_777_216 * s[3],
{
    lemma_le_value_of_few(s.take(4));
}

/// Behind the eight bytes of the header stand the key entries, six bytes each:
/// four for the offset of the key and two for its length. The key is that many
/// bytes at that offset; what does not lie in the document is reported.
pub proof fn lemma_key_layout(s: Seq<u8>, i: nat)
    requires
        s.len() <= usize::MAX,
    ensures
        ({
            let e = 8 + 6 * i;
            let off = four_bytes(s, e as int);
            let len = s[e as int + 4] + 256 * s[e as int + 5];
            &&& e + 6 <= s.len() && off + len <= s.len() ==> object_key(s, i) == Ok::<
                Seq<u8>,
                ErrorView,
            >(s.subrange(off, off + len))
            &&& e + 6 > s.len() || off + len > s.len() ==> object_key(s, i) is Err && object_key(
                s,
                i,
            )->Err_0 is CorruptedData
        }),
{
    let e = 8 + 6 * i;
    lemma_u32_at(s, e);
    lemma_u32_at(s, e + 4);
}

/// Behind the header of an array, and behind the key entries of an object,
/// stand the value entries, five bytes each.
pub proof fn lemma_value_layout(s: Seq<u8>, i: nat)
    requires
        4 <= s.len() <= usize::MAX,
    ensures
        8 + 5 * i < s.len() ==> array_elem(s, i) == entry_value(s, 8 + 5 * i),
        8 + 5 * i >= s.len() ==> array_elem(s, i) is Err && array_elem(s, i)->Err_0 is CorruptedData,
        8 + 6 * elem_count(s) + 5 * i < s.len() ==> object_val(s, i) == entry_value(
            s,
            8 + 6 * elem_count(s) + 5 * i,
        ),
        8 + 6 * elem_count(s) + 5 * i >= s.len() ==> object_val(s, i) is Err && object_val(
            s,
            i,
        )->Err_0 is CorruptedData,
{
}

/// Whether a read gives just these bytes of the document, with this type, where
/// they lie in it, and reports corrupted data where they do not: which bytes
/// were asked for, and how many there are.
pub open spec fn reads(
    r: Result<JsonView, ErrorView>,
    tp: JsonType,
    s: Seq<u8>,
    start: int,
    end: int,
) -> bool {
    if end <= s.len() {
        r == Ok::<JsonView, ErrorView>(JsonView { tp, value: s.subrange(start, end) })
    } else if end <= usize::MAX {
        r == Err::<JsonView, ErrorView>(
            ErrorView::CorruptedData(
                "JSON binary out of bounds: ["@ + decimal(start as nat) + ", "@ + decimal(
                    end as nat,
                ) + ") of len "@ + decimal(s.len()),
            ),
        )
    } else {
        r is Err && r->Err_0 is CorruptedData
    }
}

/// A value entry is a type code and four bytes. A literal stands in the first
/// of them. For all other types they are the offset of the value: eight bytes
/// of a number or of a date, datetime or timestamp, twelve of a duration; for a
/// nested array or object as many as its header says behind the count. No other
/// code is a type.
pub proof fn lemma_value_by_type(s: Seq<u8>, e: nat)
    requires
        s.len() <= usize::MAX,
        e + 5 <= s.len(),
    ensures
        ({
            let code = s[e as int];
            let off = four_bytes(s, e as int + 1);
            let r = entry_value(s, e);
            &&& code == 0x04 ==> reads(r, JsonType::Literal, s, e as int + 1, e as int + 2)
            &&& code == 0x09 ==> reads(r, JsonType::I64, s, off, off + 8)
            &&& code == 0x0a ==> reads(r, JsonType::U64, s, off, off + 8)
            &&& code == 0x0b ==> reads(r, JsonType::Double, s, off, off + 8)
            &&& code == 0x0e ==> reads(r, JsonType::Date, s, off, off + 8)
            &&& code == 0x0f ==> reads(r, JsonType::Datetime, s, off, off + 8)
            &&& code == 0x10 ==> reads(r, JsonType::Timestamp, s, off, off + 8)
            &&& code == 0x11 ==> reads(r, JsonType::Time, s, off, off + 12)
            &&& code == 0x01 || code == 0x03 ==> {
                let tp = if code == 0x01 {
                    JsonType::Object
                } else {
                    JsonType::Array
                };
                if off + 8 <= s.len() {
                    reads(r, tp, s, off, off + four_bytes(s, off + 4))
                } else {
                    r is Err && r->Err_0 is CorruptedData
                }
            }
            &&& code != 0x01 && code != 0x03 && code != 0x04 && !(0x09 <= code <= 0x11) ==> r == Err::<
                JsonView,
                ErrorView,
            >(ErrorView::InvalidDataType("unexpected JSON type"@))
        }),
{
    lemma_u32_at(s, e + 1);
    let off = four_bytes(s, e as int + 1) as nat;
    lemma_u32_at(s, off + 4);
}

/// A string is its length, as a variable-length integer, and that many bytes;
/// an opaque value has one byte of type in front of the length. All of that is
/// read. A length that does not end in the document is an unexpected end.
pub proof fn lemma_prefixed_values(s: Seq<u8>, e: nat)
    requires
        s.len() <= usize::MAX,
        e + 5 <= s.len(),
    ensures
        ({
            let code = s[e as int];
            let off = four_bytes(s, e as int + 1);
            let r = entry_value(s, e);
            let lead = if code == 0x0d {
                1int
            } else {
                0
            };
            let tp = if code == 0x0d {
                JsonType::Opaque
            } else {
                JsonType::String
            };
            &&& (code == 0x0c || code == 0x0d) && off + lead > s.len() ==> r is Err
                && r->Err_0 is CorruptedData
            &&& code == 0x0c && off > s.len() ==> r == Err::<JsonView, ErrorView>(
                ErrorView::CorruptedData(
                    "JSON string offset "@ + decimal(off as nat) + " past len "@ + decimal(s.len()),
                ),
            )
            &&& code == 0x0d && off + 1 > s.len() && off < usize::MAX ==> r == Err::<
                JsonView,
                ErrorView,
            >(
                ErrorView::CorruptedData(
                    "JSON opaque offset "@ + decimal((off + 1) as nat) + " past len "@ + decimal(
                        s.len(),
                    ),
                ),
            )
            &&& (code == 0x0c || code == 0x0d) && off + lead <= s.len() ==> match varint(
                s.skip(off + lead),
            ) {
                Some((n, k)) => n <= usize::MAX ==> reads(r, tp, s, off, off + lead + k + n),
                None => r == Err::<JsonView, ErrorView>(ErrorView::UnexpectedEof),
            }
        }),
{
    lemma_u32_at(s, e + 1);
    let off = four_bytes(s, e as int + 1);
    let lead = if s[e as int] == 0x0d {
        1int
    } else {
        0
    };
    if off + lead <= s.len() {
        lemma_varint_bounds(s.skip(off + lead));
    }
}

/// What is reported where bytes do not lie in the document.
pub proof fn lemma_error_texts(start: nat, end: nat, len: nat, what: Seq<char>)
    ensures
        out_of_bounds_text(start, end, len) == "JSON binary out of bounds: ["@ + decimal(start)
            + ", "@ + decimal(end) + ") of len "@ + decimal(len),
        past_end_text(what, start, len) == what + decimal(start) + " past len "@ + decimal(len),
        key_range_text(start, len) == "JSON object key range overflow: off="@ + decimal(start)
            + " len="@ + decimal(len),
{
}

/// A call ends as stated: with the same value, or with the same error.
pub proof fn lemma_same_outcome(
    r: Result<JsonRef, Error>,
    want: Result<JsonView, ErrorView>,
    b: Result<&[u8], Error>,
    bytes: Result<Seq<u8>, ErrorView>,
)
    ensures
        same_json(r, want) == match r {
            Ok(j) => want == Ok::<JsonView, ErrorView>(
                JsonView { tp: j.type_code, value: j.value@ },
            ),
            Err(e) => want == Err::<JsonView, ErrorView>(e@),
        },
        same_bytes(b, bytes) == match b {
            Ok(x) => bytes == Ok::<Seq<u8>, ErrorView>(x@),
            Err(e) => bytes == Err::<Seq<u8>, ErrorView>(e@),
        },
{
}

/// What is reported where a place in the document cannot be counted any more.
/// The first limit that is passed is the one that is told.
pub proof fn lemma_overflow_texts(s: Seq<u8>, i: nat, off: nat, e: nat)
    ensures
        ({
            let max = usize::MAX as int;
            let told = |text: Seq<char>| ErrorView::CorruptedData(text);
            let elem = array_elem(s, i);
            let key = object_key(s, i);
            let val = object_val(s, i);
            let keys = four_bytes(s, 0) * 6;
            &&& i * 5 > max ==> elem is Err && elem->Err_0 == told("JSON array index overflow"@)
            &&& i * 5 <= max < 8 + i * 5 ==> elem is Err && elem->Err_0 == told(
                "JSON array entry offset overflow"@,
            )
            &&& i * 6 > max ==> key is Err && key->Err_0 == told(
                "JSON object key index overflow"@,
            )
            &&& i * 6 <= max < 8 + i * 6 ==> key is Err && key->Err_0 == told(
                "JSON object key-entry offset overflow"@,
            )
            &&& s.len() >= 4 && keys > max ==> val is Err && val->Err_0 == told(
                "JSON object key-entries size overflow"@,
            )
            &&& s.len() >= 4 && keys <= max < 8 + keys + i * 5 ==> val is Err && val->Err_0 == told(
                "JSON object value-entry offset overflow"@,
            )
            &&& off + 4 > max ==> u32_at(s, off) is Err && u32_at(s, off)->Err_0 == told(
                "JSON binary u32 offset overflow at "@ + decimal(off),
            )
            &&& off + 2 > max ==> u16_at(s, off) is Err && u16_at(s, off)->Err_0 == told(
                "JSON binary u16 offset overflow at "@ + decimal(off),
            )
        }),
{
    if s.len() >= 4 {
        assert(s.take(4) =~= s.subrange(0, 4));
        lemma_le_value_of_few(s.take(4));
    }
}

/// The same for the bytes of a value, by its type: `e` is the place of its entry
/// and `off` what the entry says.
pub proof fn lemma_overflow_texts_of_values(s: Seq<u8>, e: nat, off: nat)
    ensures
        ({
            let max = usize::MAX as int;
            let told = |r: Result<Seq<u8>, ErrorView>, text: Seq<char>|
                r == Err::<Seq<u8>, ErrorView>(ErrorView::CorruptedData(text));
            let number = "JSON number range overflow"@;
            let time = "JSON time range overflow"@;
            let size = u32_at(s, off + 4);
            let string = varint(s.skip(off as int));
            let opaque = varint(s.skip(off as int + 1));
            &&& e + 2 > max ==> told(
                payload_at(s, JsonType::Literal, e, off),
                "JSON literal range overflow"@,
            )
            &&& off + 8 > max ==> {
                &&& told(payload_at(s, JsonType::I64, e, off), number)
                &&& told(payload_at(s, JsonType::U64, e, off), number)
                &&& told(payload_at(s, JsonType::Double, e, off), number)
                &&& told(payload_at(s, JsonType::Date, e, off), time)
                &&& told(payload_at(s, JsonType::Datetime, e, off), time)
                &&& told(payload_at(s, JsonType::Timestamp, e, off), time)
            }
            &&& off + 12 > max ==> told(
                payload_at(s, JsonType::Time, e, off),
                "JSON duration range overflow"@,
            )
            &&& off + 4 > max ==> {
                let text = "JSON nested size offset overflow"@;
                &&& told(payload_at(s, JsonType::Object, e, off), text)
                &&& told(payload_at(s, JsonType::Array, e, off), text)
            }
            &&& off + 4 <= max && size is Ok && off + size->Ok_0 > max ==> {
                let text = "JSON nested range overflow"@;
                &&& told(payload_at(s, JsonType::Object, e, off), text)
                &&& told(payload_at(s, JsonType::Array, e, off), text)
            }
            &&& off <= s.len() && string is Some && (string->0).0 <= max ==> {
                let total = (string->0).0 + (string->0).1;
                let r = payload_at(s, JsonType::String, e, off);
                &&& total > max ==> told(r, "JSON string length overflow"@)
                &&& total <= max < off + total ==> told(r, "JSON string range overflow"@)
            }
            &&& off + 1 > max ==> told(
                payload_at(s, JsonType::Opaque, e, off),
                "JSON opaque offset overflow"@,
            )
            &&& off + 1 <= s.len() && off + 1 <= max && opaque is Some && (opaque->0).0 <= max ==> {
                let total = (opaque->0).0 + (opaque->0).1 + 1;
                let r = payload_at(s, JsonType::Opaque, e, off);
                &&& total > max ==> told(r, "JSON opaque length overflow"@)
                &&& total <= max < off + total ==> told(r, "JSON opaque range overflow"@)
            }
        }),
{
    lemma_varint_bounds(s.skip(off as int));
    lemma_varint_bounds(s.skip(off as int + 1));
}

} // verus!
