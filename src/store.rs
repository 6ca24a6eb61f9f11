//! Byte stores: the random-access capability each storage region lives in.
use crate::error::Error;
use random_access_memory::{RandomAccessMemory, RandomAccessMemoryMethods};
use random_access_storage::RandomAccess;
use vstd::prelude::*;

verus! {

/// `s` after writing `data` at `offset`: the store grows to cover the write,
/// and any gap left before `offset` reads as zeros.
pub open spec fn write_at(s: Seq<u8>, offset: nat, data: Seq<u8>) -> Seq<u8> {
    let end = offset + data.len();
    let len = if end > s.len() { end } else { s.len() };
    Seq::new(
        len,
        |i: int|
            if offset <= i < end {
                data[i - offset]
            } else if i < s.len() {
                s[i]
            } else {
                0u8
            },
    )
}

/// Reading back a range just written gives the bytes written.
pub proof fn lemma_write_then_read(s: Seq<u8>, offset: nat, data: Seq<u8>)
    ensures
        write_at(s, offset, data).subrange(offset as int, (offset + data.len()) as int) == data,
        write_at(s, offset, data).len() >= offset + data.len(),
{
    assert(write_at(s, offset, data).subrange(offset as int, (offset + data.len()) as int) =~= data);
}

/// A write leaves the bytes outside its range as they were.
pub proof fn lemma_write_elsewhere(s: Seq<u8>, offset: nat, data: Seq<u8>, a: nat, b: nat)
    requires
        a <= b <= s.len(),
        b <= offset || offset + data.len() <= a,
    ensures
        write_at(s, offset, data).subrange(a as int, b as int) == s.subrange(a as int, b as int),
{
    assert(write_at(s, offset, data).subrange(a as int, b as int) =~= s.subrange(a as int, b as int));
}

/// A random-access byte store, such as a file or a buffer in memory.
pub trait ByteStore: Sized {
    /// The bytes the store holds.
    spec fn bytes(&self) -> Seq<u8>;

    /// The store's own consistency condition.
    spec fn inv(&self) -> bool;

    /// Whether the store never fails a write, nor a read of a range it holds
    /// (a buffer in memory, unlike a file).
    spec fn reliable(&self) -> bool;

    /// Number of bytes held.
    fn len(&self) -> (r: usize)
        requires
            self.inv(),
        ensures
            r == self.bytes().len(),
    ;

    /// Write `data` at `offset`, growing the store where needed.
    fn write(&mut self, offset: usize, data: &[u8]) -> (r: Result<(), Error>)
        requires
            old(self).inv(),
            offset + data@.len() <= usize::MAX,
        ensures
            final(self).inv(),
            final(self).reliable() == old(self).reliable(),
            old(self).reliable() ==> r is Ok,
            r matches Err(e) ==> e == Error::Io,
            r is Ok ==> final(self).bytes() == write_at(old(self).bytes(), offset as nat, data@),
    ;

    /// Read `length` bytes at `offset`; fails where the range is not held.
    fn read(&mut self, offset: usize, length: usize) -> (r: Result<Vec<u8>, Error>)
        requires
            old(self).inv(),
            offset + length <= usize::MAX,
        ensures
            final(self).inv(),
            final(self).bytes() == old(self).bytes(),
            final(self).reliable() == old(self).reliable(),
            r matches Err(e) ==> e == Error::Io,
            offset + length > old(self).bytes().len() ==> r is Err,
            old(self).reliable() && offset + length <= old(self).bytes().len() ==> r is Ok,
            r matches Ok(v) ==> offset + length <= old(self).bytes().len() && v@ == old(
                self,
            ).bytes().subrange(offset as int, offset + length),
    ;
}

#[verifier::external_type_specification]
#[verifier::external_body]
#[verifier::reject_recursive_types(T)]
pub struct ExRandomAccess<T>(RandomAccess<T>);

#[verifier::external_type_specification]
#[verifier::external_body]
pub struct ExRandomAccessMemoryMethods(RandomAccessMemoryMethods);

/// What an in-memory random-access store holds.
pub uninterp spec fn memory_contents(m: RandomAccess<RandomAccessMemoryMethods>) -> Seq<u8>;

/// Relies on random_access_memory::RandomAccessMemory::default: a store with
/// no pages and length zero.
#[verifier::external_body]
fn memory_default() -> (r: RandomAccess<RandomAccessMemoryMethods>)
    ensures
        memory_contents(r) == Seq::<u8>::empty(),
{
    RandomAccessMemory::default()
}

/// Relies on random_access_storage::RandomAccess::write over
/// RandomAccessMemoryMethods: opening and writing always succeed, the length
/// becomes the larger of the old one and `offset + data.len()`, and fresh
/// pages are zero-filled.
#[verifier::external_body]
fn memory_write(m: &mut RandomAccess<RandomAccessMemoryMethods>, offset: usize, data: &[u8]) -> (r:
    bool)
    requires
        offset + data@.len() <= usize::MAX,
    ensures
        r,
        memory_contents(*final(m)) == write_at(memory_contents(*old(m)), offset as nat, data@),
{
    m.write(offset, data).is_ok()
}

/// Relies on random_access_storage::RandomAccess::read over
/// RandomAccessMemoryMethods: it fails exactly when the range ends past the
/// length, and otherwise returns the bytes held there (zeros where nothing
/// was written).
#[verifier::external_body]
fn memory_read(m: &mut RandomAccess<RandomAccessMemoryMethods>, offset: usize, length: usize) -> (r:
    Option<Vec<u8>>)
    requires
        offset + length <= usize::MAX,
    ensures
        memory_contents(*final(m)) == memory_contents(*old(m)),
        r is Some <==> offset + length <= memory_contents(*old(m)).len(),
        r matches Some(v) ==> v@ == memory_contents(*old(m)).subrange(
            offset as int,
            offset + length,
        ),
{
    m.read(offset, length).ok()
}

/// A byte store kept in memory.
pub struct MemoryStore {
    inner: RandomAccess<RandomAccessMemoryMethods>,
    length: usize,
}

impl MemoryStore {
    /// An empty store.
    pub fn new() -> (r: MemoryStore)
        ensures
            r.inv(),
            r.reliable(),
            r.bytes() == Seq::<u8>::empty(),
    {
        MemoryStore { inner: memory_default(), length: 0 }
    }
}

impl ByteStore for MemoryStore {
    closed spec fn bytes(&self) -> Seq<u8> {
        memory_contents(self.inner)
    }

    closed spec fn inv(&self) -> bool {
        memory_contents(self.inner).len() == self.length
    }

    open spec fn reliable(&self) -> bool {
        true
    }

    fn len(&self) -> (r: usize) {
        self.length
    }

    fn write(&mut self, offset: usize, data: &[u8]) -> (r: Result<(), Error>) {
        let ok = memory_write(&mut self.inner, offset, data);
        if offset + data.len() > self.length {
            self.length = offset + data.len();
        }
        if ok {
            Ok(())
        } else {
            Err(Error::Io)
        }
    }

    fn read(&mut self, offset: usize, length: usize) -> (r: Result<Vec<u8>, Error>) {
        match memory_read(&mut self.inner, offset, length) {
            Some(v) => Ok(v),
            None => Err(Error::Io),
        }
    }
}

} // verus!
