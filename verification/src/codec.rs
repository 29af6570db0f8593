//! The parts of a binary snapshot: counts, numbers, texts, and the checksum over them.

use vstd::prelude::*;
use crate::error::{outcome, plain, Error, ErrorView};
use crate::text::{byte_count, decimal, decimal_count, decimal_text, join2, join3};

verus! {

broadcast use {
    vstd::string::group_string_axioms,
    vstd::utf8::encode_utf8_valid_utf8,
    vstd::utf8::encode_utf8_decode_utf8,
};

pub const FNV_OFFSET_BASIS: u64 = 0xcbf29ce484222325;

pub const FNV_PRIME: u64 = 0x100000001b3;

pub const MAX_STRING_BYTES: usize = 67108864;

/// The hash after one more byte.
pub open spec fn hash_step(hash: u64, byte: u8) -> u64 {
    (hash ^ (byte as u64)).wrapping_mul(FNV_PRIME)
}

/// The hash after more bytes.
pub open spec fn hashed(hash: u64, bytes: Seq<u8>) -> u64
    decreases bytes.len(),
{
    if bytes.len() == 0 {
        hash
    } else {
        hash_step(hashed(hash, bytes.drop_last()), bytes.last())
    }
}

/// The checksum of bytes.
pub open spec fn checksum(bytes: Seq<u8>) -> u64 {
    hashed(FNV_OFFSET_BASIS, bytes)
}

proof fn lemma_hashed_twice(hash: u64, first: Seq<u8>, second: Seq<u8>)
    ensures
        hashed(hash, first + second) == hashed(hashed(hash, first), second),
    decreases second.len(),
{
    let all = first + second;
    if second.len() == 0 {
        assert(all =~= first);
    } else {
        lemma_hashed_twice(hash, first, second.drop_last());
        assert(all.drop_last() =~= first + second.drop_last());
        assert(all.last() == second.last());
    }
}

/// A reader or a writer with the hash of what has gone through it.
pub struct ChecksumIo<T> {
    pub inner: T,
    pub hash: u64,
    pub enabled: bool,
}

impl<T> ChecksumIo<T> {
    pub fn new(inner: T) -> (io: ChecksumIo<T>)
        ensures
            io.inner == inner,
            io.hash == checksum(Seq::empty()),
            io.enabled,
    {
        ChecksumIo { inner, hash: FNV_OFFSET_BASIS, enabled: true }
    }

    /// Ends the hashing and gives the hash.
    pub fn finish_hash(&mut self) -> (hash: u64)
        ensures
            hash == old(self).hash,
            *final(self) == (ChecksumIo { inner: old(self).inner, hash: old(self).hash, enabled: false }),
    {
        self.enabled = false;
        self.hash
    }

    pub fn into_inner(self) -> (inner: T)
        ensures
            inner == self.inner,
    {
        self.inner
    }

    /// Hashes bytes, unless the hashing has ended.
    pub fn update(&mut self, bytes: &[u8])
        ensures
            *final(self) == (ChecksumIo {
                inner: old(self).inner,
                hash: if old(self).enabled {
                    hashed(old(self).hash, bytes@)
                } else {
                    old(self).hash
                },
                enabled: old(self).enabled,
            }),
    {
        if self.enabled {
            let ghost start = *self;
            let mut index: usize = 0;
            assert(bytes@.take(0) =~= Seq::<u8>::empty());
            while index < bytes.len()
                invariant
                    index <= bytes@.len(),
                    self.hash == hashed(start.hash, bytes@.take(index as int)),
                    self.inner == start.inner,
                    self.enabled == start.enabled,
                decreases bytes@.len() - index,
            {
                let ghost longer = bytes@.take(index + 1);
                proof {
                    assert(longer.drop_last() =~= bytes@.take(index as int));
                    assert(longer.last() == bytes@[index as int]);
                }
                self.hash = (self.hash ^ (bytes[index] as u64)).wrapping_mul(FNV_PRIME);
                index = index + 1;
            }
            assert(bytes@.take(bytes@.len() as int) =~= bytes@);
        }
    }
}

/// Bytes with the position of the next one to read.
pub struct Source {
    pub bytes: Vec<u8>,
    pub at: usize,
}

/// The error of a snapshot that is not one.
pub open spec fn corrupted(message: Seq<char>) -> ErrorView {
    ErrorView::CorruptSnapshot(message)
}

/// The error of a snapshot that is not one.
pub fn corrupt(message: &str) -> (error: Error)
    ensures
        error@ == corrupted(message@),
{
    Error::CorruptSnapshot(message.to_owned())
}

/// The error of an action that failed.
pub fn io_error(action: &str, error: &str) -> (result: Error)
    ensures
        result@ == ErrorView::StorageIo(action@ + ": "@ + error@),
{
    Error::StorageIo(join3(action, ": ", error))
}

/// The error of an action on a file that failed.
pub open spec fn path_failure(action: Seq<char>, path: Seq<char>, error: Seq<char>) -> ErrorView {
    ErrorView::StorageIo(action + " '"@ + path + "': "@ + error)
}

/// The error of an action on a file that failed.
pub fn path_io(action: &str, path: &str, error: &str) -> (result: Error)
    ensures
        result@ == path_failure(action@, path@, error@),
{
    let head = join3(action, " '", path);
    Error::StorageIo(join3(head.as_str(), "': ", error))
}

impl ChecksumIo<Source> {
    /// Whether the position is within the bytes and the hash is that of those read.
    pub open spec fn wf(self) -> bool {
        &&& self.inner.at <= self.inner.bytes@.len()
        &&& self.enabled ==> self.hash == checksum(self.inner.bytes@.take(self.inner.at as int))
    }

    pub open spec fn bytes(self) -> Seq<u8> {
        self.inner.bytes@
    }

    pub open spec fn at(self) -> nat {
        self.inner.at as nat
    }
}

/// Whether reading gave what was expected of the bytes from the position on, and moved behind it.
pub open spec fn advanced<T>(
    before: ChecksumIo<Source>,
    after: ChecksumIo<Source>,
    result: Result<T, ErrorView>,
    expected: Result<(T, nat), ErrorView>,
) -> bool {
    &&& after.wf()
    &&& after.bytes() == before.bytes()
    &&& after.enabled == before.enabled
    &&& match result {
        Ok(value) => expected == Ok::<(T, nat), ErrorView>((value, after.at())),
        Err(error) => expected == Err::<(T, nat), ErrorView>(error),
    }
}

/// The next `count` bytes.
pub open spec fn taken(bytes: Seq<u8>, at: nat, count: nat) -> Result<(Seq<u8>, nat), ErrorView> {
    if at + count > bytes.len() {
        Err(corrupted("snapshot ended unexpectedly"@))
    } else {
        Ok((bytes.subrange(at as int, (at + count) as int), at + count))
    }
}

/// The position behind the next `count` bytes; where there are fewer, none is read.
pub open spec fn behind(bytes: Seq<u8>, at: nat, count: nat) -> nat {
    if at + count > bytes.len() {
        at
    } else {
        at + count
    }
}

/// Reads the next `count` bytes.
pub fn read_exact(reader: &mut ChecksumIo<Source>, count: usize) -> (result: Result<Vec<u8>, Error>)
    requires
        old(reader).wf(),
    ensures
        advanced(*old(reader), *final(reader), outcome(result), taken(old(reader).bytes(), old(reader).at(), count as nat)),
        final(reader).at() == behind(old(reader).bytes(), old(reader).at(), count as nat),
{
    let at: usize = reader.inner.at;
    let total: usize = reader.inner.bytes.len();
    if count > total - at {
        return Err(corrupt("snapshot ended unexpectedly"));
    }
    let ghost bytes = reader.inner.bytes@;
    let mut out: Vec<u8> = Vec::new();
    let mut index: usize = 0;
    assert(out@ =~= bytes.subrange(at as int, at as int));
    while index < count
        invariant
            index <= count,
            bytes == reader.inner.bytes@,
            total == bytes.len(),
            at + count <= total,
            out@ == bytes.subrange(at as int, (at + index) as int),
        decreases count - index,
    {
        out.push(reader.inner.bytes[at + index]);
        index = index + 1;
        assert(out@ =~= bytes.subrange(at as int, (at + index) as int));
    }
    reader.update(out.as_slice());
    reader.inner.at = at + count;
    proof {
        lemma_hashed_twice(FNV_OFFSET_BASIS, bytes.take(at as int), out@);
        assert(bytes.take(at as int) + out@ =~= bytes.take(at + count));
    }
    Ok(out)
}

/// The next byte.
pub open spec fn taken_u8(bytes: Seq<u8>, at: nat) -> Result<(u8, nat), ErrorView> {
    match taken(bytes, at, 1) {
        Err(error) => Err(error),
        Ok((part, next)) => Ok((part[0], next)),
    }
}

pub fn read_u8(reader: &mut ChecksumIo<Source>) -> (result: Result<u8, Error>)
    requires
        old(reader).wf(),
    ensures
        advanced(*old(reader), *final(reader), plain(result), taken_u8(old(reader).bytes(), old(reader).at())),
        final(reader).at() == behind(old(reader).bytes(), old(reader).at(), 1),
{
    let bytes = read_exact(reader, 1)?;
    Ok(bytes[0])
}

pub open spec fn taken_u32(bytes: Seq<u8>, at: nat) -> Result<(u32, nat), ErrorView> {
    match taken(bytes, at, 4) {
        Err(error) => Err(error),
        Ok((part, next)) => Ok((vstd::bytes::spec_u32_from_le_bytes(part), next)),
    }
}

pub fn read_u32(reader: &mut ChecksumIo<Source>) -> (result: Result<u32, Error>)
    requires
        old(reader).wf(),
    ensures
        advanced(*old(reader), *final(reader), plain(result), taken_u32(old(reader).bytes(), old(reader).at())),
        final(reader).at() == behind(old(reader).bytes(), old(reader).at(), 4),
{
    let bytes = read_exact(reader, 4)?;
    Ok(vstd::bytes::u32_from_le_bytes(bytes.as_slice()))
}

pub open spec fn taken_u64(bytes: Seq<u8>, at: nat) -> Result<(u64, nat), ErrorView> {
    match taken(bytes, at, 8) {
        Err(error) => Err(error),
        Ok((part, next)) => Ok((vstd::bytes::spec_u64_from_le_bytes(part), next)),
    }
}

pub fn read_u64(reader: &mut ChecksumIo<Source>) -> (result: Result<u64, Error>)
    requires
        old(reader).wf(),
    ensures
        advanced(*old(reader), *final(reader), plain(result), taken_u64(old(reader).bytes(), old(reader).at())),
        final(reader).at() == behind(old(reader).bytes(), old(reader).at(), 8),
{
    let bytes = read_exact(reader, 8)?;
    Ok(vstd::bytes::u64_from_le_bytes(bytes.as_slice()))
}

/// The integer whose two's complement these bits are.
pub open spec fn signed(bits: u64) -> i64 {
    if bits <= i64::MAX {
        bits as i64
    } else {
        (bits - 0x1_0000_0000_0000_0000) as i64
    }
}

/// The two's complement of an integer.
pub open spec fn unsigned(value: i64) -> u64 {
    if value >= 0 {
        value as u64
    } else {
        (value + 0x1_0000_0000_0000_0000) as u64
    }
}

pub open spec fn taken_i64(bytes: Seq<u8>, at: nat) -> Result<(i64, nat), ErrorView> {
    match taken_u64(bytes, at) {
        Err(error) => Err(error),
        Ok((bits, next)) => Ok((signed(bits), next)),
    }
}

pub fn read_i64(reader: &mut ChecksumIo<Source>) -> (result: Result<i64, Error>)
    requires
        old(reader).wf(),
    ensures
        advanced(*old(reader), *final(reader), plain(result), taken_i64(old(reader).bytes(), old(reader).at())),
        final(reader).at() == behind(old(reader).bytes(), old(reader).at(), 8),
{
    let bits: u64 = read_u64(reader)?;
    if bits <= i64::MAX as u64 {
        Ok(bits as i64)
    } else {
        Ok((bits as i128 - 0x1_0000_0000_0000_0000) as i64)
    }
}

/// The next count, of at most `maximum`.
pub open spec fn taken_count(bytes: Seq<u8>, at: nat, label: Seq<char>, maximum: usize) -> Result<(usize, nat), ErrorView> {
    match taken_u64(bytes, at) {
        Err(error) => Err(error),
        Ok((count, next)) => if count > usize::MAX {
            Err(corrupted(label + " is too large"@))
        } else if count > maximum {
            Err(
                corrupted(
                    label + " "@ + decimal_text(count as nat) + " exceeds maximum "@ + decimal_text(maximum as nat),
                ),
            )
        } else {
            Ok((count as usize, next))
        },
    }
}

/// Reads a count of at most `maximum`; one that is refused is read too.
pub fn read_count(reader: &mut ChecksumIo<Source>, label: &str, maximum: usize) -> (result: Result<usize, Error>)
    requires
        old(reader).wf(),
    ensures
        advanced(
            *old(reader),
            *final(reader),
            plain(result),
            taken_count(old(reader).bytes(), old(reader).at(), label@, maximum),
        ),
        final(reader).at() == behind(old(reader).bytes(), old(reader).at(), 8),
{
    let count: u64 = read_u64(reader)?;
    if count > usize::MAX as u64 {
        return Err(Error::CorruptSnapshot(join2(label, " is too large")));
    }
    if count > maximum as u64 {
        let found = decimal(count);
        let most = decimal_count(maximum);
        let head = join3(label, " ", found.as_str());
        return Err(Error::CorruptSnapshot(join3(head.as_str(), " exceeds maximum ", most.as_str())));
    }
    Ok(count as usize)
}

/// The next truth value.
pub open spec fn taken_bool(bytes: Seq<u8>, at: nat, label: Seq<char>) -> Result<(bool, nat), ErrorView> {
    match taken_u8(bytes, at) {
        Err(error) => Err(error),
        Ok((value, next)) => if value == 0 {
            Ok((false, next))
        } else if value == 1 {
            Ok((true, next))
        } else {
            Err(corrupted("invalid "@ + label + ": "@ + decimal_text(value as nat)))
        },
    }
}

/// Reads a truth value; a byte that is none is read too.
pub fn read_bool(reader: &mut ChecksumIo<Source>, label: &str) -> (result: Result<bool, Error>)
    requires
        old(reader).wf(),
    ensures
        advanced(*old(reader), *final(reader), plain(result), taken_bool(old(reader).bytes(), old(reader).at(), label@)),
        final(reader).at() == behind(old(reader).bytes(), old(reader).at(), 1),
{
    let value: u8 = read_u8(reader)?;
    if value == 0 {
        Ok(false)
    } else if value == 1 {
        Ok(true)
    } else {
        let found = decimal(value as u64);
        let head = join2("invalid ", label);
        Err(Error::CorruptSnapshot(join3(head.as_str(), ": ", found.as_str())))
    }
}

/// `String::from_utf8` gives the text that the bytes encode, and fails exactly where they encode
/// none.
#[verifier::external_body]
fn decode_text(bytes: Vec<u8>) -> (result: Option<String>)
    ensures
        match result {
            Some(text) => vstd::utf8::valid_utf8(bytes@) && text@ == vstd::utf8::decode_utf8(bytes@),
            None => !vstd::utf8::valid_utf8(bytes@),
        },
{
    String::from_utf8(bytes).ok()
}

/// The next text.
pub open spec fn taken_string(bytes: Seq<u8>, at: nat) -> Result<(Seq<char>, nat), ErrorView> {
    match taken_count(bytes, at, "string length"@, MAX_STRING_BYTES) {
        Err(error) => Err(error),
        Ok((length, next)) => match taken(bytes, next, length as nat) {
            Err(error) => Err(error),
            Ok((part, next)) => if vstd::utf8::valid_utf8(part) {
                Ok((vstd::utf8::decode_utf8(part), next))
            } else {
                Err(corrupted("string is not valid UTF-8"@))
            },
        },
    }
}

/// The position behind the next text, whether it is one or not; behind its length alone where that is
/// refused or fewer bytes follow.
pub open spec fn string_end(bytes: Seq<u8>, at: nat) -> nat {
    match taken_count(bytes, at, "string length"@, MAX_STRING_BYTES) {
        Err(_) => behind(bytes, at, 8),
        Ok((length, next)) => behind(bytes, next, length as nat),
    }
}

pub fn read_string(reader: &mut ChecksumIo<Source>) -> (result: Result<String, Error>)
    requires
        old(reader).wf(),
    ensures
        advanced(*old(reader), *final(reader), outcome(result), taken_string(old(reader).bytes(), old(reader).at())),
        final(reader).at() == string_end(old(reader).bytes(), old(reader).at()),
{
    let length: usize = read_count(reader, "string length", MAX_STRING_BYTES)?;
    let bytes = read_exact(reader, length)?;
    match decode_text(bytes) {
        Some(text) => Ok(text),
        None => Err(corrupt("string is not valid UTF-8")),
    }
}

impl ChecksumIo<Vec<u8>> {
    /// Whether the hash is that of the bytes written.
    pub open spec fn wf(self) -> bool {
        self.enabled ==> self.hash == checksum(self.inner@)
    }

    pub open spec fn bytes(self) -> Seq<u8> {
        self.inner@
    }
}

/// Whether writing made these bytes of the ones before.
pub open spec fn became(before: ChecksumIo<Vec<u8>>, after: ChecksumIo<Vec<u8>>, bytes: Seq<u8>) -> bool {
    &&& after.wf()
    &&& after.enabled == before.enabled
    &&& after.bytes() == bytes
}

/// Whether writing made what was expected of the bytes before, or failed with the error.
pub open spec fn wrote(
    before: ChecksumIo<Vec<u8>>,
    after: ChecksumIo<Vec<u8>>,
    result: Result<(), Error>,
    expected: Result<Seq<u8>, ErrorView>,
) -> bool {
    match result {
        Ok(_) => expected is Ok && became(before, after, expected->Ok_0),
        Err(error) => expected == Err::<Seq<u8>, ErrorView>(error@),
    }
}

pub fn write_bytes(writer: &mut ChecksumIo<Vec<u8>>, bytes: &[u8])
    requires
        old(writer).wf(),
    ensures
        became(*old(writer), *final(writer), old(writer).bytes() + bytes@),
{
    let ghost before = writer.inner@;
    let mut index: usize = 0;
    assert(before + bytes@.take(0) =~= before);
    while index < bytes.len()
        invariant
            index <= bytes@.len(),
            writer.inner@ == before + bytes@.take(index as int),
            writer.hash == old(writer).hash,
            writer.enabled == old(writer).enabled,
        decreases bytes@.len() - index,
    {
        writer.inner.push(bytes[index]);
        index = index + 1;
        assert(writer.inner@ =~= before + bytes@.take(index as int));
    }
    assert(bytes@.take(bytes@.len() as int) =~= bytes@);
    writer.update(bytes);
    proof {
        lemma_hashed_twice(FNV_OFFSET_BASIS, before, bytes@);
    }
}

pub fn write_u8(writer: &mut ChecksumIo<Vec<u8>>, value: u8)
    requires
        old(writer).wf(),
    ensures
        became(*old(writer), *final(writer), old(writer).bytes() + seq![value]),
{
    let mut one: Vec<u8> = Vec::new();
    one.push(value);
    assert(one@ =~= seq![value]);
    write_bytes(writer, one.as_slice());
}

pub fn write_u32(writer: &mut ChecksumIo<Vec<u8>>, value: u32)
    requires
        old(writer).wf(),
    ensures
        became(*old(writer), *final(writer), old(writer).bytes() + vstd::bytes::spec_u32_to_le_bytes(value)),
{
    let bytes = vstd::bytes::u32_to_le_bytes(value);
    write_bytes(writer, bytes.as_slice());
}

pub fn write_u64(writer: &mut ChecksumIo<Vec<u8>>, value: u64)
    requires
        old(writer).wf(),
    ensures
        became(*old(writer), *final(writer), old(writer).bytes() + vstd::bytes::spec_u64_to_le_bytes(value)),
{
    let bytes = vstd::bytes::u64_to_le_bytes(value);
    write_bytes(writer, bytes.as_slice());
}

pub fn write_i64(writer: &mut ChecksumIo<Vec<u8>>, value: i64)
    requires
        old(writer).wf(),
    ensures
        became(*old(writer), *final(writer), old(writer).bytes() + vstd::bytes::spec_u64_to_le_bytes(unsigned(value))),
{
    let bits: u64 = if value >= 0 {
        value as u64
    } else {
        (value as i128 + 0x1_0000_0000_0000_0000) as u64
    };
    write_u64(writer, bits);
}

pub fn write_count(writer: &mut ChecksumIo<Vec<u8>>, value: usize)
    requires
        old(writer).wf(),
    ensures
        became(*old(writer), *final(writer), old(writer).bytes() + vstd::bytes::spec_u64_to_le_bytes(value as u64)),
{
    write_u64(writer, value as u64);
}

pub open spec fn bool_byte(value: bool) -> u8 {
    if value {
        1
    } else {
        0
    }
}

pub fn write_bool(writer: &mut ChecksumIo<Vec<u8>>, value: bool)
    requires
        old(writer).wf(),
    ensures
        became(*old(writer), *final(writer), old(writer).bytes() + seq![bool_byte(value)]),
{
    let byte: u8 = if value {
        1
    } else {
        0
    };
    write_u8(writer, byte);
}

/// The bytes with a text at their end.
pub open spec fn put_string(text: Seq<char>, done: Seq<u8>) -> Result<Seq<u8>, ErrorView> {
    if byte_count(text) > MAX_STRING_BYTES {
        Err(
            corrupted(
                "string is "@ + decimal_text(byte_count(text)) + " bytes; maximum is "@ + decimal_text(
                    MAX_STRING_BYTES as nat,
                ),
            ),
        )
    } else {
        Ok(done + vstd::bytes::spec_u64_to_le_bytes(byte_count(text) as u64) + vstd::utf8::encode_utf8(text))
    }
}

pub fn write_string(writer: &mut ChecksumIo<Vec<u8>>, value: &str) -> (result: Result<(), Error>)
    requires
        old(writer).wf(),
    ensures
        wrote(*old(writer), *final(writer), result, put_string(value@, old(writer).bytes())),
{
    let bytes = value.as_bytes();
    if bytes.len() > MAX_STRING_BYTES {
        let found = decimal_count(bytes.len());
        let most = decimal_count(MAX_STRING_BYTES);
        let head = join2("string is ", found.as_str());
        return Err(Error::CorruptSnapshot(join3(head.as_str(), " bytes; maximum is ", most.as_str())));
    }
    write_count(writer, bytes.len());
    write_bytes(writer, bytes);
    Ok(())
}

/// The error of something that there is too much of to save.
pub open spec fn within(label: Seq<char>, value: nat, maximum: nat) -> Result<(), ErrorView> {
    if value > maximum {
        Err(
            ErrorView::StorageIo(
                label + " "@ + decimal_text(value) + " exceeds snapshot maximum "@ + decimal_text(maximum),
            ),
        )
    } else {
        Ok(())
    }
}

pub fn ensure_maximum(label: &str, value: usize, maximum: usize) -> (result: Result<(), Error>)
    ensures
        plain(result) == within(label@, value as nat, maximum as nat),
{
    if value > maximum {
        let found = decimal_count(value);
        let most = decimal_count(maximum);
        let head = join3(label, " ", found.as_str());
        return Err(Error::StorageIo(join3(head.as_str(), " exceeds snapshot maximum ", most.as_str())));
    }
    Ok(())
}

/// Whether the first bytes stand at the beginning of the others.
pub open spec fn begins(first: Seq<u8>, all: Seq<u8>) -> bool {
    first.len() <= all.len() && all.take(first.len() as int) == first
}

pub proof fn lemma_begins(first: Seq<u8>, second: Seq<u8>, all: Seq<u8>)
    requires
        begins(first + second, all),
    ensures
        begins(first, first + second),
        begins(first, all),
        taken(all, first.len(), second.len()) == Ok::<(Seq<u8>, nat), ErrorView>((second, (first + second).len())),
{
    let both = first + second;
    assert(both.take(first.len() as int) =~= first);
    assert(all.take(first.len() as int) =~= all.take(both.len() as int).take(first.len() as int));
    assert(all.subrange(first.len() as int, both.len() as int) =~= second) by {
        assert forall|i: int| 0 <= i < second.len() implies all.subrange(first.len() as int, both.len() as int)[i] == second[i] by {
            assert(all.take(both.len() as int)[first.len() + i] == both[first.len() + i]);
        }
    }
}

pub proof fn lemma_begins_further(first: Seq<u8>, second: Seq<u8>, all: Seq<u8>)
    requires
        begins(first, second),
        begins(second, all),
    ensures
        begins(first, all),
{
    assert(all.take(first.len() as int) =~= all.take(second.len() as int).take(first.len() as int));
}

/// What is read of a byte that was written is the byte.
pub proof fn lemma_u8_back(value: u8, done: Seq<u8>, all: Seq<u8>)
    requires
        begins(done + seq![value], all),
    ensures
        begins(done, done + seq![value]),
        begins(done, all),
        taken_u8(all, done.len()) == Ok::<(u8, nat), ErrorView>((value, (done + seq![value]).len())),
{
    lemma_begins(done, seq![value], all);
}

pub proof fn lemma_u32_back(value: u32, done: Seq<u8>, all: Seq<u8>)
    requires
        begins(done + vstd::bytes::spec_u32_to_le_bytes(value), all),
    ensures
        begins(done, done + vstd::bytes::spec_u32_to_le_bytes(value)),
        begins(done, all),
        taken_u32(all, done.len()) == Ok::<(u32, nat), ErrorView>(
            (value, (done + vstd::bytes::spec_u32_to_le_bytes(value)).len()),
        ),
{
    vstd::bytes::lemma_auto_spec_u32_to_from_le_bytes();
    lemma_begins(done, vstd::bytes::spec_u32_to_le_bytes(value), all);
}

pub proof fn lemma_u64_back(value: u64, done: Seq<u8>, all: Seq<u8>)
    requires
        begins(done + vstd::bytes::spec_u64_to_le_bytes(value), all),
    ensures
        begins(done, done + vstd::bytes::spec_u64_to_le_bytes(value)),
        begins(done, all),
        taken_u64(all, done.len()) == Ok::<(u64, nat), ErrorView>(
            (value, (done + vstd::bytes::spec_u64_to_le_bytes(value)).len()),
        ),
{
    vstd::bytes::lemma_auto_spec_u64_to_from_le_bytes();
    lemma_begins(done, vstd::bytes::spec_u64_to_le_bytes(value), all);
}

/// The two's complement of an integer denotes it.
pub proof fn law_signed(value: i64)
    ensures
        signed(unsigned(value)) == value,
{
}

/// What is read of a text that was written is the text.
pub proof fn law_string_back(text: Seq<char>, done: Seq<u8>, all: Seq<u8>)
    requires
        put_string(text, done) is Ok,
        begins(put_string(text, done)->Ok_0, all),
    ensures
        begins(done, put_string(text, done)->Ok_0),
        begins(done, all),
        taken_string(all, done.len()) == Ok::<(Seq<char>, nat), ErrorView>((text, put_string(text, done)->Ok_0.len())),
{
    let length = byte_count(text) as u64;
    let counted = done + vstd::bytes::spec_u64_to_le_bytes(length);
    lemma_begins(counted, vstd::utf8::encode_utf8(text), all);
    lemma_u64_back(length, done, all);
    lemma_begins_further(done, counted, counted + vstd::utf8::encode_utf8(text));
}

} // verus!
