//! The host's side of the buffer protocol and of a call.
//!
//! The host reaches a guest only through a [`PluginLoader`]: it asks the guest
//! to reserve and release buffers, reads and writes the guest's memory between
//! calls, and runs exports by name. A [`Host`] wraps a loader and keeps, as
//! ghost state, the record of every exchange it has had with the guest, of
//! every look at the guest's memory and of every write into it, so that the
//! contracts below can say what was handed to the guest, what was read and
//! written, and in what order.

use crate::buffer::{
    buffer_at, c_string_at, frame, frameable, overwritten, read_buffer, within, write_buffer,
};
use crate::error::{AbiError, CallError};
use crate::interface::FunctionSignature;
use crate::negotiation::{metadata_text, utf8_lossy};
use vstd::prelude::*;
use vstd::utf8::{decode_utf8, valid_utf8};

verus! {

/// What a host needs of a loaded guest. Every method runs guest code or
/// touches guest memory, so nothing is promised of what any of them returns.
pub trait PluginLoader {
    /// Asks the guest to reserve exactly `size` bytes and returns the offset
    /// that the guest answers with.
    fn allocate_buffer(&mut self, size: u32) -> Result<u32, CallError>;

    /// Asks the guest to release the `size` bytes that it reserved at `ptr`.
    fn free_buffer(&mut self, ptr: u32, size: u32) -> Result<(), CallError>;

    /// The guest's linear memory as it is now. What it holds, and how large
    /// it is, may differ after any call into the guest.
    fn memory(&mut self) -> &mut [u8];

    /// Runs the export `name` on `arguments` and returns what it returned,
    /// if it returned anything.
    fn invoke(&mut self, name: &str, arguments: &[u32]) -> Result<Option<u32>, CallError>;
}

/// One exchange between host and guest: what the host asked for and what the
/// guest answered.
pub enum Exchange {
    /// The host asked for `size` bytes.
    Allocate { size: u32, outcome: Result<u32, CallError> },
    /// The host gave back the `size` bytes at `ptr`.
    Free { ptr: u32, size: u32, failure: Option<CallError> },
    /// The host ran the export `name` on `arguments`.
    Invoke { name: Seq<char>, arguments: Seq<u32>, outcome: Result<Option<u32>, CallError> },
}

/// The error of an outcome that carries no value, if it is one.
pub open spec fn failure_of(outcome: Result<(), CallError>) -> Option<CallError> {
    match outcome {
        Ok(_) => None,
        Err(e) => Some(e),
    }
}

/// One look of the host at the guest's memory.
pub struct Read {
    /// The number of exchanges that came before the look.
    pub at: int,
    /// What the memory held.
    pub memory: Seq<u8>,
}

/// One attempt of the host to write a buffer into the guest's memory.
pub struct Write {
    /// The number of exchanges that came before the attempt.
    pub at: int,
    /// Where the header of the buffer was to start.
    pub ptr: u32,
    /// What the memory held before the attempt.
    pub before: Seq<u8>,
    /// What the memory held after it.
    pub after: Seq<u8>,
}

/// Whether `after` is `before` and one more.
pub open spec fn one_more<T>(before: Seq<T>, after: Seq<T>) -> bool {
    after.len() == before.len() + 1 && after.drop_last() == before
}

/// A loader together with the record of what was asked of it, of what its
/// memory held each time it was read, and of what each write did to it.
pub struct Host<P: PluginLoader> {
    loader: P,
    record: Ghost<Seq<Exchange>>,
    seen: Ghost<Seq<Read>>,
    written: Ghost<Seq<Write>>,
}

impl<P: PluginLoader> Host<P> {
    /// Every exchange with the guest so far, oldest first.
    pub closed spec fn exchanges(&self) -> Seq<Exchange> {
        self.record@
    }

    /// The loader that the host wraps.
    pub closed spec fn plugin_loader(&self) -> P {
        self.loader
    }

    /// Every look at the guest's memory so far, oldest first.
    pub closed spec fn reads(&self) -> Seq<Read> {
        self.seen@
    }

    /// Every attempt to write a buffer into the guest's memory so far, oldest
    /// first.
    pub closed spec fn writes(&self) -> Seq<Write> {
        self.written@
    }

    /// What the guest's memory held when the host last read from it.
    pub open spec fn last_read(&self) -> Seq<u8> {
        self.reads().last().memory
    }

    /// Whether `self` has the reads and writes of `other`.
    pub open spec fn same_looks(&self, other: &Self) -> bool {
        self.reads() == other.reads() && self.writes() == other.writes()
    }

    /// A host that has not yet asked anything of `loader`.
    pub fn new(loader: P) -> (host: Host<P>)
        ensures
            host.exchanges() == Seq::<Exchange>::empty(),
            host.reads() == Seq::<Read>::empty(),
            host.writes() == Seq::<Write>::empty(),
            host.plugin_loader() == loader,
    {
        Host {
            loader,
            record: Ghost(Seq::empty()),
            seen: Ghost(Seq::empty()),
            written: Ghost(Seq::empty()),
        }
    }

    /// Gives the loader back.
    pub fn into_loader(self) -> (loader: P)
        ensures
            loader == self.plugin_loader(),
    {
        self.loader
    }

    /// The loader, to look at.
    pub fn loader(&self) -> (loader: &P)
        ensures
            *loader == self.plugin_loader(),
    {
        &self.loader
    }

    /// Asks the guest for `size` bytes.
    pub fn allocate_buffer(&mut self, size: u32) -> (outcome: Result<u32, CallError>)
        ensures
            final(self).exchanges() == old(self).exchanges().push(
                Exchange::Allocate { size, outcome },
            ),
            final(self).same_looks(old(self)),
    {
        let outcome = self.loader.allocate_buffer(size);
        proof {
            self.record@ = self.record@.push(Exchange::Allocate { size, outcome });
        }
        outcome
    }

    /// Gives the `size` bytes at `ptr` back to the guest.
    pub fn free_buffer(&mut self, ptr: u32, size: u32) -> (outcome: Result<(), CallError>)
        ensures
            final(self).exchanges() == old(self).exchanges().push(
                Exchange::Free { ptr, size, failure: failure_of(outcome) },
            ),
            final(self).same_looks(old(self)),
    {
        let outcome = self.loader.free_buffer(ptr, size);
        proof {
            self.record@ = self.record@.push(
                Exchange::Free { ptr, size, failure: failure_of(outcome) },
            );
        }
        outcome
    }

    /// Runs the export `name` on `arguments`.
    pub fn invoke(&mut self, name: &str, arguments: &[u32]) -> (outcome: Result<
        Option<u32>,
        CallError,
    >)
        ensures
            final(self).exchanges() == old(self).exchanges().push(
                Exchange::Invoke { name: name@, arguments: arguments@, outcome },
            ),
            final(self).same_looks(old(self)),
    {
        let outcome = self.loader.invoke(name, arguments);
        proof {
            self.record@ = self.record@.push(
                Exchange::Invoke { name: name@, arguments: arguments@, outcome },
            );
        }
        outcome
    }

    /// Writes `payload` as a buffer at `ptr` into the guest's memory as it is
    /// now. No exchange takes place.
    ///
    /// A payload that cannot be framed is refused before the memory is
    /// touched. Otherwise the write succeeds exactly if the whole buffer lies
    /// within the memory, which then holds the frame at `ptr` and is
    /// unchanged elsewhere; a write that fails changes nothing.
    pub fn write(&mut self, ptr: u32, payload: &[u8]) -> (r: Result<(), AbiError>)
        ensures
            final(self).exchanges() == old(self).exchanges(),
            final(self).reads() == old(self).reads(),
            !frameable(payload@.len()) ==> {
                &&& r == Err::<(), AbiError>(AbiError::SizeLimitExceeded)
                &&& final(self).writes() == old(self).writes()
            },
            frameable(payload@.len()) ==> {
                let attempt = final(self).writes().last();
                &&& one_more(old(self).writes(), final(self).writes())
                &&& attempt.at == old(self).exchanges().len()
                &&& attempt.ptr == ptr
                &&& r is Ok <==> within(attempt.before.len(), ptr as int, payload@.len() + 4)
                &&& attempt.after == if r is Ok {
                    overwritten(attempt.before, ptr as int, frame(payload@))
                } else {
                    attempt.before
                }
                &&& r matches Err(e) ==> e == AbiError::OutOfBounds
            },
    {
        let ghost writes = self.written@;
        let ghost at = self.record@.len() as int;
        let memory = self.loader.memory();
        let ghost before = memory@;
        let r = write_buffer(memory, ptr, payload);
        let ghost after = memory@;
        proof {
            if frameable(payload@.len()) {
                self.written@ = writes.push(Write { at, ptr, before, after });
                assert(self.written@.drop_last() =~= writes);
            }
        }
        r
    }

    /// Reads the text of the metadata string at `offset` from the guest's
    /// memory as it is now: the bytes from `offset` up to the first zero
    /// byte, with what is not UTF-8 among them replaced. No exchange takes
    /// place.
    pub fn metadata(&mut self, offset: u32) -> (text: String)
        ensures
            final(self).exchanges() == old(self).exchanges(),
            final(self).writes() == old(self).writes(),
            one_more(old(self).reads(), final(self).reads()),
            final(self).reads().last().at == old(self).exchanges().len(),
            text@ == utf8_lossy(c_string_at(final(self).last_read(), offset as int)),
            valid_utf8(c_string_at(final(self).last_read(), offset as int)) ==> text@
                == decode_utf8(c_string_at(final(self).last_read(), offset as int)),
    {
        let ghost reads = self.seen@;
        let ghost at = self.record@.len() as int;
        let memory = self.loader.memory();
        let ghost held = memory@;
        let text = metadata_text(memory, offset);
        proof {
            self.seen@ = reads.push(Read { at, memory: held });
            assert(self.seen@.drop_last() =~= reads);
        }
        text
    }

    /// Reads the payload of the buffer at `ptr` from the guest's memory as it
    /// is now. Fails exactly where header and payload do not both lie within
    /// that memory. No exchange takes place.
    pub fn read(&mut self, ptr: u32) -> (r: Result<Vec<u8>, AbiError>)
        ensures
            final(self).exchanges() == old(self).exchanges(),
            final(self).writes() == old(self).writes(),
            one_more(old(self).reads(), final(self).reads()),
            final(self).reads().last().at == old(self).exchanges().len(),
            match r {
                Ok(payload) => buffer_at(final(self).last_read(), ptr as int) == Some(payload@),
                Err(e) => e == AbiError::OutOfBounds && buffer_at(
                    final(self).last_read(),
                    ptr as int,
                ) is None,
            },
    {
        let ghost reads = self.seen@;
        let ghost at = self.record@.len() as int;
        let memory = self.loader.memory();
        let ghost held = memory@;
        let r = read_buffer(memory, ptr);
        proof {
            self.seen@ = reads.push(Read { at, memory: held });
            assert(self.seen@.drop_last() =~= reads);
        }
        r
    }
}

/// The size of the buffer that holds a payload of `len` bytes.
pub open spec fn buffer_size(len: nat) -> u32 {
    (len + 4) as u32
}

/// Moves `payload` into the guest: asks the guest for a buffer of the
/// payload's size and four bytes more, writes length and payload into it, and
/// returns the pointer that stands for the value from then on.
///
/// A payload that cannot be framed is refused before anything is asked of the
/// guest. Otherwise exactly one buffer is asked for. Where the guest refuses
/// it, the call fails with the guest's error and nothing is written. Where
/// the guest grants it, the buffer is written at once, and the call succeeds
/// exactly if the buffer lies within the guest's memory.
pub fn into_abi<P: PluginLoader>(host: &mut Host<P>, payload: &[u8]) -> (r: Result<u32, AbiError>)
    ensures
        final(host).reads() == old(host).reads(),
        !frameable(payload@.len()) ==> {
            &&& r == Err::<u32, AbiError>(AbiError::SizeLimitExceeded)
            &&& final(host).exchanges() == old(host).exchanges()
            &&& final(host).writes() == old(host).writes()
        },
        frameable(payload@.len()) ==> {
            &&& one_more(old(host).exchanges(), final(host).exchanges())
            &&& final(host).exchanges().last() matches Exchange::Allocate { size, outcome }
            &&& size == buffer_size(payload@.len())
            &&& match outcome {
                Ok(ptr) => {
                    let attempt = final(host).writes().last();
                    &&& one_more(old(host).writes(), final(host).writes())
                    &&& attempt.at == final(host).exchanges().len()
                    &&& attempt.ptr == ptr
                    &&& r == if within(attempt.before.len(), ptr as int, payload@.len() + 4) {
                        Ok::<u32, AbiError>(ptr)
                    } else {
                        Err::<u32, AbiError>(AbiError::OutOfBounds)
                    }
                    &&& attempt.after == if r is Ok {
                        overwritten(attempt.before, ptr as int, frame(payload@))
                    } else {
                        attempt.before
                    }
                },
                Err(e) => {
                    &&& r == Err::<u32, AbiError>(AbiError::Call(e))
                    &&& final(host).writes() == old(host).writes()
                },
            }
        },
{
    if payload.len() > 0xffff_fffb {
        return Err(AbiError::SizeLimitExceeded);
    }
    let size = (payload.len() + 4) as u32;
    let outcome = host.allocate_buffer(size);
    proof {
        assert(host.exchanges().drop_last() =~= old(host).exchanges());
    }
    match outcome {
        Err(e) => Err(AbiError::Call(e)),
        Ok(ptr) => match host.write(ptr, payload) {
            Ok(()) => Ok(ptr),
            Err(_) => Err(AbiError::OutOfBounds),
        },
    }
}

/// Whether `after` is `before` and then one release of the buffer at `ptr`.
pub open spec fn returned(before: Seq<Exchange>, after: Seq<Exchange>, ptr: u32) -> bool {
    &&& after.len() == before.len() + 1
    &&& after.drop_last() == before
    &&& after.last() matches Exchange::Free { ptr: p, .. }
    &&& p == ptr
}

/// Takes a value out of the guest: reads the buffer at `ptr` and then gives
/// the buffer back to the guest, which reserved it.
///
/// The memory is read once. Where no whole buffer lies at `ptr`, or its size
/// is more than a `u32` can state, the call fails and nothing is asked of the
/// guest. Otherwise the buffer is given back exactly once, with the size it
/// was read with, and the call returns its payload unless the guest failed to
/// take the buffer back.
pub fn from_abi<P: PluginLoader>(host: &mut Host<P>, ptr: u32) -> (r: Result<Vec<u8>, AbiError>)
    ensures
        final(host).writes() == old(host).writes(),
        one_more(old(host).reads(), final(host).reads()),
        final(host).reads().last().at == old(host).exchanges().len(),
        match buffer_at(final(host).last_read(), ptr as int) {
            None => {
                &&& r == Err::<Vec<u8>, AbiError>(AbiError::OutOfBounds)
                &&& final(host).exchanges() == old(host).exchanges()
            },
            Some(held) => if !frameable(held.len()) {
                &&& r == Err::<Vec<u8>, AbiError>(AbiError::SizeLimitExceeded)
                &&& final(host).exchanges() == old(host).exchanges()
            } else {
                &&& returned(old(host).exchanges(), final(host).exchanges(), ptr)
                &&& final(host).exchanges().last() matches Exchange::Free { size, failure, .. }
                &&& size == buffer_size(held.len())
                &&& match failure {
                    None => r matches Ok(payload) && payload@ == held,
                    Some(e) => r == Err::<Vec<u8>, AbiError>(AbiError::Call(e)),
                }
            },
        },
{
    match host.read(ptr) {
        Err(_) => Err(AbiError::OutOfBounds),
        Ok(payload) => {
            if payload.len() > 0xffff_fffb {
                return Err(AbiError::SizeLimitExceeded);
            }
            let size = (payload.len() + 4) as u32;
            let ghost before = host.exchanges();
            let released = host.free_buffer(ptr, size);
            proof {
                assert(host.exchanges().drop_last() =~= before);
            }
            match released {
                Ok(()) => Ok(payload),
                Err(e) => Err(AbiError::Call(e)),
            }
        },
    }
}

/// The error with which the guest answered an exchange, if it failed.
pub open spec fn failure(exchange: Exchange) -> Option<CallError> {
    match exchange {
        Exchange::Allocate { outcome: Err(e), .. } => Some(e),
        Exchange::Invoke { outcome: Err(e), .. } => Some(e),
        Exchange::Free { failure, .. } => failure,
        _ => None,
    }
}

/// What `after` holds beyond `before`.
pub open spec fn added<T>(before: Seq<T>, after: Seq<T>) -> Seq<T> {
    after.skip(before.len() as int)
}

/// Whether `after` begins with all of `before`.
pub open spec fn extends<T>(before: Seq<T>, after: Seq<T>) -> bool {
    after.len() >= before.len() && after.take(before.len() as int) == before
}

/// A record extends itself by nothing.
pub proof fn lemma_extends_itself<T>(record: Seq<T>)
    ensures
        extends(record, record),
        added(record, record) == Seq::<T>::empty(),
{
    assert(record.take(record.len() as int) =~= record);
    assert(added(record, record) =~= Seq::<T>::empty());
}

/// One more entry at the end of a record is one more entry at the end of
/// what was added to it.
pub proof fn lemma_extends_by_one<T>(before: Seq<T>, middle: Seq<T>, after: Seq<T>)
    requires
        extends(before, middle),
        one_more(middle, after),
    ensures
        extends(before, after),
        added(before, after) == added(before, middle).push(after.last()),
{
    assert(after.take(before.len() as int) =~= middle.take(before.len() as int)) by {
        assert(after.drop_last() == middle);
    }
    assert(added(before, after) =~= added(before, middle).push(after.last())) by {
        assert(after.drop_last() == middle);
    }
}

/// What was added to a record that extends another, which extends a third,
/// is what was added to the first and then what was added to the second.
pub proof fn lemma_extends_twice<T>(before: Seq<T>, middle: Seq<T>, after: Seq<T>)
    requires
        extends(before, middle),
        extends(middle, after),
    ensures
        extends(before, after),
        added(before, after) == added(before, middle) + added(middle, after),
{
    assert(after.take(before.len() as int) =~= middle.take(before.len() as int)) by {
        assert(after.take(middle.len() as int) == middle);
    }
    assert(added(before, after) =~= added(before, middle) + added(middle, after)) by {
        assert(after.take(middle.len() as int) == middle);
    }
}

/// Whether the exchanges of `added` are, for each payload of `arguments` in
/// turn, one request for a buffer of its size that the guest granted at the
/// pointer of the same position.
pub open spec fn sent(added: Seq<Exchange>, arguments: Seq<Vec<u8>>, pointers: Seq<u32>) -> bool {
    &&& added.len() == pointers.len()
    &&& added.len() <= arguments.len()
    &&& forall|i: int|
        0 <= i < added.len() ==> frameable(arguments[i]@.len()) && #[trigger] added[i] == (
        Exchange::Allocate { size: buffer_size(arguments[i]@.len()), outcome: Ok(pointers[i]) })
}

/// Whether the first exchanges of `added`, up to the number of `arguments`,
/// are requests for the buffers of `arguments`, in order, each for a payload
/// that can be framed.
pub open spec fn sending(added: Seq<Exchange>, arguments: Seq<Vec<u8>>) -> bool {
    forall|i: int|
        0 <= i < added.len() && i < arguments.len() ==> frameable(arguments[i]@.len()) && (
        #[trigger] added[i] matches Exchange::Allocate { size, .. } && size == buffer_size(
            arguments[i]@.len(),
        ))
}

/// Whether the attempts of `writes` are, for each payload of `arguments` in
/// turn, the write of its frame at the pointer of the same position, each
/// made right after the guest granted that pointer and each within the
/// memory as it then was. `base` is the number of exchanges before the first
/// request.
pub open spec fn stored(
    writes: Seq<Write>,
    base: int,
    arguments: Seq<Vec<u8>>,
    pointers: Seq<u32>,
) -> bool {
    &&& writes.len() == pointers.len()
    &&& writes.len() <= arguments.len()
    &&& forall|i: int|
        0 <= i < writes.len() ==> {
            let attempt = #[trigger] writes[i];
            &&& attempt.at == base + i + 1
            &&& attempt.ptr == pointers[i]
            &&& within(attempt.before.len(), attempt.ptr as int, arguments[i]@.len() + 4)
            &&& attempt.after == overwritten(
                attempt.before,
                attempt.ptr as int,
                frame(arguments[i]@),
            )
        }
}

/// Whether a write that was attempted for `payload` did not fit and changed
/// nothing.
pub open spec fn refused(attempt: Write, payload: Seq<u8>) -> bool {
    &&& !within(attempt.before.len(), attempt.ptr as int, payload.len() + 4)
    &&& attempt.after == attempt.before
}

/// Whether an exchange that failed is the last of `made` and gave `r` its
/// error: a call ends with the first failure of the guest.
pub open spec fn ends_at_failure<T>(made: Seq<Exchange>, r: Result<T, AbiError>) -> bool {
    forall|i: int|
        0 <= i < made.len() ==> (failure(#[trigger] made[i]) matches Some(e) ==> i == made.len()
            - 1 && r is Err && r->Err_0 == AbiError::Call(e))
}

/// Whether `added` is one whole call of `signature` on `arguments` that gave
/// `result`: a buffer for each argument, the export run on the pointers to
/// them, and, where the signature declares a result, the release of the
/// buffer that the result was read from.
pub open spec fn complete_call(
    added: Seq<Exchange>,
    signature: &FunctionSignature,
    arguments: Seq<Vec<u8>>,
    result: Option<Seq<u8>>,
) -> bool {
    let n = arguments.len() as int;
    &&& added.len() > n
    &&& added[n] matches Exchange::Invoke { name, arguments: pointers, outcome }
    &&& name == signature.name@
    &&& pointers.len() == n
    &&& sent(added.take(n), arguments, pointers)
    &&& match result {
        None => {
            &&& !signature.has_result()
            &&& outcome is Ok
            &&& added.len() == n + 1
        },
        Some(payload) => {
            &&& signature.has_result()
            &&& frameable(payload.len())
            &&& outcome matches Ok(Some(ptr))
            &&& added.len() == n + 2
            &&& added[n + 1] == (Exchange::Free {
                ptr,
                size: buffer_size(payload.len()),
                failure: None,
            })
        },
    }
}

/// Moves each payload of `arguments` into the guest, in order, and returns
/// the pointers to them. Stops at the first that fails: at a payload that
/// cannot be framed before anything is asked for it, at a buffer that the
/// guest refuses, or at a buffer that the guest grants outside its memory.
pub fn send_arguments<P: PluginLoader>(host: &mut Host<P>, arguments: &Vec<Vec<u8>>) -> (r: Result<
    Vec<u32>,
    AbiError,
>)
    ensures
        final(host).reads() == old(host).reads(),
        extends(old(host).exchanges(), final(host).exchanges()),
        extends(old(host).writes(), final(host).writes()),
        sending(added(old(host).exchanges(), final(host).exchanges()), arguments@),
        final(host).exchanges().len() <= old(host).exchanges().len() + arguments@.len(),
        ends_at_failure(added(old(host).exchanges(), final(host).exchanges()), r),
        arguments@.len() > 0 && !frameable(arguments@[0]@.len()) ==> {
            &&& r == Err::<Vec<u32>, AbiError>(AbiError::SizeLimitExceeded)
            &&& final(host).exchanges() == old(host).exchanges()
            &&& final(host).writes() == old(host).writes()
        },
        ({
            let made = added(old(host).exchanges(), final(host).exchanges());
            let put = added(old(host).writes(), final(host).writes());
            match r {
                Ok(pointers) => {
                    &&& pointers@.len() == arguments@.len()
                    &&& sent(made, arguments@, pointers@)
                    &&& stored(put, old(host).exchanges().len() as int, arguments@, pointers@)
                },
                Err(AbiError::Call(e)) => {
                    &&& made.len() >= 1
                    &&& put.len() == made.len() - 1
                    &&& made.last() matches Exchange::Allocate { outcome: Err(refusal), .. }
                    &&& refusal == e
                },
                Err(AbiError::SizeLimitExceeded) => {
                    &&& made.len() < arguments@.len()
                    &&& put.len() == made.len()
                    &&& !frameable(arguments@[made.len() as int]@.len())
                },
                Err(e) => {
                    &&& e == AbiError::OutOfBounds
                    &&& made.len() >= 1
                    &&& put.len() == made.len()
                    &&& made.last() matches Exchange::Allocate { outcome: Ok(ptr), .. }
                    &&& put.last().ptr == ptr
                    &&& refused(put.last(), arguments@[made.len() - 1]@)
                },
            }
        }),
{
    let ghost before = host.exchanges();
    let ghost wrote = host.writes();
    let ghost base = before.len() as int;
    let mut pointers: Vec<u32> = Vec::new();
    let mut i: usize = 0;
    proof {
        lemma_extends_itself(before);
        lemma_extends_itself(wrote);
    }
    while i < arguments.len()
        invariant
            i <= arguments@.len(),
            before == old(host).exchanges(),
            wrote == old(host).writes(),
            base == before.len(),
            host.reads() == old(host).reads(),
            extends(before, host.exchanges()),
            extends(wrote, host.writes()),
            pointers@.len() == i,
            sent(added(before, host.exchanges()), arguments@, pointers@),
            stored(added(wrote, host.writes()), base, arguments@, pointers@),
        decreases arguments@.len() - i,
    {
        let ghost middle = host.exchanges();
        let ghost held = host.writes();
        let ghost granted = pointers@;
        let sent_one = into_abi(host, arguments[i].as_slice());
        proof {
            let after = host.exchanges();
            let made = added(before, after);
            if frameable(arguments@[i as int]@.len()) {
                lemma_extends_by_one(before, middle, after);
                if after.last() matches Exchange::Allocate { outcome: Ok(ptr), .. } {
                    lemma_extends_by_one(wrote, held, host.writes());
                }
            }
            assert forall|k: int| 0 <= k < made.len() && k < arguments@.len() implies frameable(
                arguments@[k]@.len(),
            ) && (#[trigger] made[k] matches Exchange::Allocate { size, .. } && size
                == buffer_size(arguments@[k]@.len())) by {
                if k < i {
                    assert(made[k] == added(before, middle)[k]);
                }
            }
            assert forall|k: int| 0 <= k < made.len() implies (failure(
                #[trigger] made[k],
            ) matches Some(e) ==> k == made.len() - 1 && sent_one is Err && sent_one->Err_0
                == AbiError::Call(e)) by {
                if k < i {
                    assert(made[k] == added(before, middle)[k]);
                }
            }
        }
        match sent_one {
            Err(e) => {
                proof {
                    if i > 0 {
                        assert(frameable(arguments@[0]@.len())) by {
                            assert(added(before, middle)[0] is Allocate);
                        }
                    } else if !frameable(arguments@[0]@.len()) {
                        assert(middle.take(before.len() as int) =~= middle);
                        assert(held.take(wrote.len() as int) =~= held);
                    }
                }
                return Err(e);
            },
            Ok(ptr) => {
                pointers.push(ptr);
                proof {
                    let after = host.exchanges();
                    let made = added(before, after);
                    let put = added(wrote, host.writes());
                    assert forall|k: int| 0 <= k < made.len() implies frameable(
                        arguments@[k]@.len(),
                    ) && #[trigger] made[k] == (Exchange::Allocate {
                        size: buffer_size(arguments@[k]@.len()),
                        outcome: Ok(pointers@[k]),
                    }) by {
                        if k < i {
                            assert(made[k] == added(before, middle)[k]);
                            assert(pointers@[k] == granted[k]);
                        }
                    }
                    assert forall|k: int| 0 <= k < put.len() implies ({
                        let attempt = #[trigger] put[k];
                        &&& attempt.at == base + k + 1
                        &&& attempt.ptr == pointers@[k]
                        &&& within(
                            attempt.before.len(),
                            attempt.ptr as int,
                            arguments@[k]@.len() + 4,
                        )
                        &&& attempt.after == overwritten(
                            attempt.before,
                            attempt.ptr as int,
                            frame(arguments@[k]@),
                        )
                    }) by {
                        if k < i {
                            assert(put[k] == added(wrote, held)[k]);
                            assert(pointers@[k] == granted[k]);
                        }
                    }
                }
            },
        }
        i = i + 1;
    }
    proof {
        if arguments@.len() > 0 {
            assert(frameable(arguments@[0]@.len())) by {
                assert(added(before, host.exchanges())[0] is Allocate);
            }
        }
    }
    Ok(pointers)
}

/// Whether `seen` is the one look at memory that a result is read with: made
/// after `at` exchanges, at memory that holds `payload` in a buffer at `ptr`.
pub open spec fn result_read(seen: Seq<Read>, at: int, ptr: u32, payload: Seq<u8>) -> bool {
    &&& seen.len() == 1
    &&& seen[0].at == at
    &&& buffer_at(seen[0].memory, ptr as int) == Some(payload)
}

/// Finishes a call whose export returned `raw`: where the signature declares
/// a result, takes it out of the buffer that `raw` points to and gives the
/// buffer back; where it declares none, ignores `raw`.
pub fn receive_result<P: PluginLoader>(
    host: &mut Host<P>,
    signature: &FunctionSignature,
    raw: Option<u32>,
) -> (r: Result<Option<Vec<u8>>, AbiError>)
    ensures
        final(host).writes() == old(host).writes(),
        extends(old(host).exchanges(), final(host).exchanges()),
        extends(old(host).reads(), final(host).reads()),
        final(host).exchanges().len() <= old(host).exchanges().len() + 1,
        !signature.has_result() ==> {
            &&& r matches Ok(None)
            &&& final(host).exchanges() == old(host).exchanges()
            &&& final(host).reads() == old(host).reads()
        },
        signature.has_result() && raw is None ==> {
            &&& r == Err::<Option<Vec<u8>>, AbiError>(AbiError::MissingResult)
            &&& final(host).exchanges() == old(host).exchanges()
            &&& final(host).reads() == old(host).reads()
        },
        signature.has_result() ==> (raw matches Some(ptr) ==> {
            &&& one_more(old(host).reads(), final(host).reads())
            &&& final(host).reads().last().at == old(host).exchanges().len()
            &&& match buffer_at(final(host).last_read(), ptr as int) {
                None => {
                    &&& r == Err::<Option<Vec<u8>>, AbiError>(AbiError::OutOfBounds)
                    &&& final(host).exchanges() == old(host).exchanges()
                },
                Some(held) => if !frameable(held.len()) {
                    &&& r == Err::<Option<Vec<u8>>, AbiError>(AbiError::SizeLimitExceeded)
                    &&& final(host).exchanges() == old(host).exchanges()
                } else {
                    &&& returned(old(host).exchanges(), final(host).exchanges(), ptr)
                    &&& final(host).exchanges().last() matches Exchange::Free {
                        size,
                        failure,
                        ..
                    }
                    &&& size == buffer_size(held.len())
                    &&& match failure {
                        None => r matches Ok(Some(payload)) && payload@ == held,
                        Some(e) => r == Err::<Option<Vec<u8>>, AbiError>(AbiError::Call(e)),
                    }
                },
            }
        }),
{
    proof {
        lemma_extends_itself(host.exchanges());
        lemma_extends_itself(host.reads());
    }
    if signature.output.is_none() {
        return Ok(None);
    }
    match raw {
        None => Err(AbiError::MissingResult),
        Some(ptr) => {
            let ghost before = host.exchanges();
            let ghost seen = host.reads();
            let taken = from_abi(host, ptr);
            proof {
                lemma_extends_by_one(seen, seen, host.reads());
                if host.exchanges() != before {
                    lemma_extends_by_one(before, before, host.exchanges());
                }
            }
            match taken {
                Ok(payload) => Ok(Some(payload)),
                Err(e) => Err(e),
            }
        },
    }
}

/// Calls the function `signature` of the guest on `arguments`, one encoded
/// value per parameter, and returns its encoded result, if it declares one.
///
/// A call with the wrong number of arguments is refused before anything is
/// asked of the guest, and so is one whose first argument cannot be framed.
/// A call that succeeds has had exactly the exchanges of [`complete_call`]:
/// each argument was written into the buffer that the guest granted for it
/// before the export ran, and the result was read from the buffer that the
/// export returned before that buffer was given back. A failure of the guest
/// ends the call with the guest's error and nothing more: the guest can be
/// called again.
pub fn call<P: PluginLoader>(
    host: &mut Host<P>,
    signature: &FunctionSignature,
    arguments: &Vec<Vec<u8>>,
) -> (r: Result<Option<Vec<u8>>, AbiError>)
    ensures
        arguments@.len() != signature.arity() ==> {
            &&& r == Err::<Option<Vec<u8>>, AbiError>(AbiError::ArityMismatch)
            &&& final(host).exchanges() == old(host).exchanges()
            &&& final(host).same_looks(old(host))
        },
        extends(old(host).exchanges(), final(host).exchanges()),
        extends(old(host).writes(), final(host).writes()),
        extends(old(host).reads(), final(host).reads()),
        sending(added(old(host).exchanges(), final(host).exchanges()), arguments@),
        final(host).exchanges().len() <= old(host).exchanges().len() + arguments@.len() + 2,
        ends_at_failure(added(old(host).exchanges(), final(host).exchanges()), r),
        arguments@.len() == signature.arity() && arguments@.len() > 0 && !frameable(
            arguments@[0]@.len(),
        ) ==> {
            &&& r == Err::<Option<Vec<u8>>, AbiError>(AbiError::SizeLimitExceeded)
            &&& final(host).exchanges() == old(host).exchanges()
            &&& final(host).same_looks(old(host))
        },
        ({
            let base = old(host).exchanges().len() as int;
            let n = arguments@.len() as int;
            let made = added(old(host).exchanges(), final(host).exchanges());
            let put = added(old(host).writes(), final(host).writes());
            let seen = added(old(host).reads(), final(host).reads());
            match r {
                Ok(Some(payload)) => {
                    &&& complete_call(made, signature, arguments@, Some(payload@))
                    &&& stored(put, base, arguments@, made[n]->Invoke_arguments)
                    &&& result_read(
                        seen,
                        base + n + 1,
                        made[n]->Invoke_outcome->Ok_0->Some_0,
                        payload@,
                    )
                },
                Ok(None) => {
                    &&& complete_call(made, signature, arguments@, None)
                    &&& stored(put, base, arguments@, made[n]->Invoke_arguments)
                    &&& seen.len() == 0
                },
                Err(AbiError::ArityMismatch) => n != signature.arity(),
                Err(AbiError::Call(e)) => made.len() >= 1 && failure(made.last()) == Some(e),
                Err(AbiError::MissingResult) => {
                    &&& signature.has_result()
                    &&& made.len() == n + 1
                    &&& made.last() matches Exchange::Invoke { outcome: Ok(None), .. }
                },
                Err(AbiError::SizeLimitExceeded) => {
                    ||| made.len() < n && !frameable(arguments@[made.len() as int]@.len())
                    ||| {
                        &&& made.len() == n + 1
                        &&& seen.len() == 1
                        &&& made.last() matches Exchange::Invoke { outcome: Ok(Some(ptr)), .. }
                        &&& buffer_at(seen[0].memory, ptr as int) matches Some(held)
                        &&& !frameable(held.len())
                    }
                },
                Err(e) => {
                    &&& e == AbiError::OutOfBounds
                    &&& {
                        ||| {
                            &&& 1 <= made.len() <= n
                            &&& put.len() == made.len()
                            &&& made.last() matches Exchange::Allocate { outcome: Ok(ptr), .. }
                            &&& put.last().ptr == ptr
                            &&& refused(put.last(), arguments@[made.len() - 1]@)
                        }
                        ||| {
                            &&& made.len() == n + 1
                            &&& seen.len() == 1
                            &&& made.last() matches Exchange::Invoke {
                                outcome: Ok(Some(ptr)),
                                ..
                            }
                            &&& buffer_at(seen[0].memory, ptr as int) is None
                        }
                    }
                },
            }
        }),
{
    let ghost before = host.exchanges();
    let ghost wrote = host.writes();
    let ghost looked = host.reads();
    let ghost n = arguments@.len() as int;
    proof {
        lemma_extends_itself(before);
        lemma_extends_itself(wrote);
        lemma_extends_itself(looked);
    }
    if arguments.len() != signature.params.len() {
        return Err(AbiError::ArityMismatch);
    }
    let pointers = match send_arguments(host, arguments) {
        Ok(pointers) => pointers,
        Err(e) => {
            return Err(e);
        },
    };
    let ghost staged = host.exchanges();
    let raw = host.invoke(signature.name.as_str(), pointers.as_slice());
    let ghost ran = host.exchanges();
    proof {
        assert(ran.drop_last() =~= staged);
        lemma_extends_by_one(before, staged, ran);
        assert(added(before, ran).take(n) =~= added(before, staged));
        assert(added(before, ran)[n] == ran.last());
        assert forall|k: int| 0 <= k < added(before, ran).len() && k < n implies frameable(
            arguments@[k]@.len(),
        ) && (#[trigger] added(before, ran)[k] matches Exchange::Allocate { size, .. } && size
            == buffer_size(arguments@[k]@.len())) by {
            assert(added(before, ran)[k] == added(before, staged)[k]);
        }
        if n > 0 {
            assert(frameable(arguments@[0]@.len())) by {
                assert(added(before, staged)[0] is Allocate);
            }
        }
        assert forall|k: int| 0 <= k < added(before, ran).len() implies (failure(
            #[trigger] added(before, ran)[k],
        ) is Some ==> k == n) by {
            if k < n {
                assert(added(before, ran)[k] == added(before, staged)[k]);
            }
        }
    }
    let raw = match raw {
        Ok(raw) => raw,
        Err(e) => {
            return Err(AbiError::Call(e));
        },
    };
    let result = receive_result(host, signature, raw);
    proof {
        let after = host.exchanges();
        let made = added(before, after);
        lemma_extends_twice(before, ran, after);
        lemma_extends_twice(looked, looked, host.reads());
        assert(made.take(n) =~= added(before, staged));
        assert(made[n] == ran.last());
        assert forall|k: int| 0 <= k < made.len() && k < n implies frameable(
            arguments@[k]@.len(),
        ) && (#[trigger] made[k] matches Exchange::Allocate { size, .. } && size == buffer_size(
            arguments@[k]@.len(),
        )) by {
            assert(made[k] == added(before, staged)[k]);
        }
        assert forall|k: int| 0 <= k < made.len() implies (failure(#[trigger] made[k]) matches Some(
            e,
        ) ==> k == made.len() - 1 && result is Err && result->Err_0 == AbiError::Call(e)) by {
            if k < n {
                assert(made[k] == added(before, staged)[k]);
            } else if k == n {
                assert(made[k] == ran.last());
            } else {
                assert(made[k] == after.last());
            }
        }
        if after.len() > ran.len() {
            assert(made[n + 1] == after.last());
            assert(made.last() == after.last());
        } else {
            assert(made.last() == ran.last());
        }
        if host.reads().len() > looked.len() {
            assert(added(looked, host.reads())[0] == host.reads().last());
        }
    }
    result
}

/// Every argument of a call is written before the export runs: each write
/// is made after fewer exchanges than come before the run.
pub proof fn lemma_written_before_run(
    put: Seq<Write>,
    base: int,
    arguments: Seq<Vec<u8>>,
    pointers: Seq<u32>,
)
    requires
        stored(put, base, arguments, pointers),
    ensures
        forall|i: int| 0 <= i < put.len() ==> (#[trigger] put[i]).at <= base + arguments.len(),
{
}

/// A call without arguments and without a result asks the guest for no
/// buffer, reads none and gives none back: its one exchange is the run of the
/// export.
pub proof fn lemma_call_without_values(added: Seq<Exchange>, signature: &FunctionSignature)
    requires
        complete_call(added, signature, Seq::empty(), None),
    ensures
        added.len() == 1,
        added[0] matches Exchange::Invoke { name, arguments, .. } && name == signature.name@
            && arguments.len() == 0,
{
}

/// A call with one argument and a result asks the guest for exactly one
/// buffer, for the argument, and gives exactly one back, the one that held
/// the result: its exchanges are that request, the run of the export on the
/// one pointer, and that release.
pub proof fn lemma_call_with_one_value(
    added: Seq<Exchange>,
    signature: &FunctionSignature,
    argument: Vec<u8>,
    result: Seq<u8>,
)
    requires
        complete_call(added, signature, seq![argument], Some(result)),
    ensures
        added.len() == 3,
        added[0] matches Exchange::Allocate { size, outcome: Ok(at) },
        added[0]->Allocate_size == buffer_size(argument@.len()),
        added[1] matches Exchange::Invoke { name, arguments, outcome: Ok(Some(ptr)) } && name
            == signature.name@ && arguments == seq![added[0]->Allocate_outcome->Ok_0] && added[2]
            == (Exchange::Free { ptr, size: buffer_size(result.len()), failure: None }),
{
    assert(added.take(1)[0] == added[0]);
    match added[1] {
        Exchange::Invoke { name, arguments, outcome } => {
            assert(arguments =~= seq![arguments[0]]);
        },
        _ => {},
    }
}

} // verus!
