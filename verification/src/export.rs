//! The guest's side of a call: the wrapper that stands between an export and
//! the function that implements it.
//!
//! An export receives one pointer per parameter. The wrapper takes the
//! argument out of each buffer, which releases it, runs the implementation on
//! the arguments, and, where the function declares a result, writes the
//! result into a buffer of its own and returns the pointer to it.

use crate::buffer::{buffer_at, frame, frameable, overwritten};
use crate::error::AbiError;
use crate::guest::{from_abi, into_abi, top_of, without_last, GuestMemory, Region};
use crate::interface::FunctionSignature;
use vstd::prelude::*;

verus! {

/// What a guest supplies: the functions of its interface, on encoded
/// arguments. Nothing is promised of what an implementation returns.
pub trait Plugin {
    /// Runs the function `name` on `arguments`, one encoded value per
    /// parameter, and returns its encoded result, if it has one.
    fn run(&mut self, name: &str, arguments: Vec<Vec<u8>>) -> Option<Vec<u8>>;
}

/// The region that the buffer of a payload of `len` bytes occupies at `ptr`.
pub open spec fn buffer_region(ptr: u32, len: nat) -> Region {
    Region { offset: ptr, size: (len + 4) as u32 }
}

/// What is live after the argument at `ptr` was taken, and the argument; or
/// nothing, where no reserved buffer starts at `ptr`.
pub open spec fn taken(live: Seq<Region>, bytes: Seq<u8>, ptr: u32) -> Option<
    (Seq<Region>, Seq<u8>),
> {
    match buffer_at(bytes, ptr as int) {
        Some(payload) => if frameable(payload.len()) && live.contains(
            buffer_region(ptr, payload.len()),
        ) {
            Some((without_last(live, buffer_region(ptr, payload.len())), payload))
        } else {
            None
        },
        None => None,
    }
}

/// What is live after the arguments at `pointers` were taken in order, up to
/// the first that could not be; and all the arguments, if each could be.
pub open spec fn received(live: Seq<Region>, bytes: Seq<u8>, pointers: Seq<u32>) -> (
    Seq<Region>,
    Option<Seq<Seq<u8>>>,
)
    decreases pointers.len(),
{
    if pointers.len() == 0 {
        (live, Some(Seq::empty()))
    } else {
        let earlier = received(live, bytes, pointers.drop_last());
        match earlier.1 {
            None => earlier,
            Some(payloads) => match taken(earlier.0, bytes, pointers.last()) {
                Some((left, payload)) => (left, Some(payloads.push(payload))),
                None => (earlier.0, None),
            },
        }
    }
}

/// The payloads that a vector of encoded values holds.
pub open spec fn payloads_of(values: Seq<Vec<u8>>) -> Seq<Seq<u8>> {
    Seq::new(values.len(), |i: int| values[i]@)
}

/// Takes the argument out of each buffer of `pointers`, in order, and
/// releases the buffer. Stops at the first pointer at which no reserved
/// buffer starts; the buffers before it stay released.
pub fn receive_arguments(memory: &mut GuestMemory, pointers: &[u32]) -> (r: Result<
    Vec<Vec<u8>>,
    AbiError,
>)
    requires
        old(memory).wf(),
    ensures
        final(memory).wf(),
        final(memory).bytes() == old(memory).bytes(),
        final(memory).live() == received(old(memory).live(), old(memory).bytes(), pointers@).0,
        match r {
            Ok(arguments) => received(old(memory).live(), old(memory).bytes(), pointers@).1
                == Some(payloads_of(arguments@)),
            Err(e) => e == AbiError::OutOfBounds && received(
                old(memory).live(),
                old(memory).bytes(),
                pointers@,
            ).1 is None,
        },
{
    let ghost live = memory.live();
    let ghost bytes = memory.bytes();
    let mut arguments: Vec<Vec<u8>> = Vec::new();
    let mut i: usize = 0;
    proof {
        assert(payloads_of(arguments@) =~= Seq::<Seq<u8>>::empty());
        assert(pointers@.take(0) =~= Seq::<u32>::empty());
    }
    while i < pointers.len()
        invariant
            i <= pointers@.len(),
            memory.wf(),
            live == old(memory).live(),
            bytes == old(memory).bytes(),
            memory.bytes() == bytes,
            received(live, bytes, pointers@.take(i as int)) == (
                memory.live(),
                Some(payloads_of(arguments@)),
            ),
        decreases pointers@.len() - i,
    {
        let ghost so_far = payloads_of(arguments@);
        proof {
            assert(pointers@.take(i + 1).drop_last() =~= pointers@.take(i as int));
            assert(pointers@.take(i + 1).last() == pointers@[i as int]);
        }
        match from_abi(memory, pointers[i]) {
            Err(e) => {
                proof {
                    lemma_received_stays_failed(live, bytes, pointers@, i + 1);
                }
                return Err(e);
            },
            Ok(payload) => {
                arguments.push(payload);
                proof {
                    assert(payloads_of(arguments@) =~= so_far.push(payload@));
                }
            },
        }
        i = i + 1;
    }
    proof {
        assert(pointers@.take(pointers@.len() as int) =~= pointers@);
    }
    Ok(arguments)
}

/// Once an argument could not be taken, none after it is: what is live stays
/// as it was at the failure.
pub proof fn lemma_received_stays_failed(
    live: Seq<Region>,
    bytes: Seq<u8>,
    pointers: Seq<u32>,
    count: int,
)
    requires
        0 <= count <= pointers.len(),
        received(live, bytes, pointers.take(count)).1 is None,
    ensures
        received(live, bytes, pointers) == received(live, bytes, pointers.take(count)),
    decreases pointers.len() - count,
{
    if count < pointers.len() {
        assert(pointers.take(count + 1).drop_last() =~= pointers.take(count));
        lemma_received_stays_failed(live, bytes, pointers, count + 1);
    } else {
        assert(pointers.take(count) =~= pointers);
    }
}

/// What a host wrote into a buffer that the guest reserved for it, the guest
/// takes out unchanged, and releases that buffer.
pub proof fn lemma_sent_is_taken(live: Seq<Region>, bytes: Seq<u8>, ptr: u32, payload: Seq<u8>)
    requires
        frameable(payload.len()),
        ptr + payload.len() + 4 <= bytes.len(),
        live.contains(buffer_region(ptr, payload.len())),
    ensures
        taken(live, overwritten(bytes, ptr as int, frame(payload)), ptr) == Some(
            (without_last(live, buffer_region(ptr, payload.len())), payload),
        ),
{
    crate::buffer::lemma_buffer_round_trip(bytes, ptr as int, payload);
}

/// What a buffer held before it was written does not reach the guest: from
/// two memories that differ in whatever way, the same payload, written at
/// the same reserved place, is taken out the same.
pub proof fn lemma_stale_bytes_are_hidden(
    live: Seq<Region>,
    first: Seq<u8>,
    second: Seq<u8>,
    ptr: u32,
    payload: Seq<u8>,
)
    requires
        frameable(payload.len()),
        ptr + payload.len() + 4 <= first.len(),
        ptr + payload.len() + 4 <= second.len(),
        live.contains(buffer_region(ptr, payload.len())),
    ensures
        taken(live, overwritten(first, ptr as int, frame(payload)), ptr) == taken(
            live,
            overwritten(second, ptr as int, frame(payload)),
            ptr,
        ),
        taken(live, overwritten(first, ptr as int, frame(payload)), ptr) matches Some(got)
            && got.1 == payload,
{
    lemma_sent_is_taken(live, first, ptr, payload);
    lemma_sent_is_taken(live, second, ptr, payload);
}

/// An export without parameters takes no argument and releases nothing.
pub proof fn lemma_receive_nothing(live: Seq<Region>, bytes: Seq<u8>)
    ensures
        received(live, bytes, Seq::empty()) == (live, Some(Seq::<Seq<u8>>::empty())),
{
}

/// An export with one parameter takes the one argument and releases the one
/// buffer that held it, where a reserved buffer starts at the pointer; where
/// none does, it releases nothing.
pub proof fn lemma_receive_one(live: Seq<Region>, bytes: Seq<u8>, ptr: u32)
    ensures
        match taken(live, bytes, ptr) {
            Some((left, payload)) => {
                &&& received(live, bytes, seq![ptr]) == (left, Some(seq![payload]))
                &&& left.len() + 1 == live.len()
            },
            None => received(live, bytes, seq![ptr]) == (live, None::<Seq<Seq<u8>>>),
        },
{
    let pointers = seq![ptr];
    assert(pointers.drop_last() =~= Seq::<u32>::empty());
    assert(pointers.last() == ptr);
    assert(received(live, bytes, pointers.drop_last()) == (live, Some(Seq::<Seq<u8>>::empty())));
    match taken(live, bytes, ptr) {
        Some((left, payload)) => {
            assert(Seq::<Seq<u8>>::empty().push(payload) =~= seq![payload]);
            crate::guest::lemma_release_within(live, buffer_region(ptr, payload.len()));
        },
        None => {},
    }
}

/// Hands the result of a function over: where the signature declares a
/// result, writes it into a buffer of its own and returns the pointer; where
/// it declares none, returns nothing, whatever the implementation gave.
pub fn return_result(
    memory: &mut GuestMemory,
    signature: &FunctionSignature,
    result: Option<Vec<u8>>,
) -> (r: Result<Option<u32>, AbiError>)
    requires
        old(memory).wf(),
    ensures
        final(memory).wf(),
        !signature.has_result() ==> {
            &&& r == Ok::<Option<u32>, AbiError>(None)
            &&& final(memory).live() == old(memory).live()
            &&& final(memory).bytes() == old(memory).bytes()
        },
        signature.has_result() ==> match result {
            None => {
                &&& r == Err::<Option<u32>, AbiError>(AbiError::MissingResult)
                &&& final(memory).live() == old(memory).live()
                &&& final(memory).bytes() == old(memory).bytes()
            },
            Some(payload) => match r {
                Ok(Some(ptr)) => {
                    &&& frameable(payload@.len())
                    &&& ptr == old(memory).top()
                    &&& ptr + payload@.len() + 4 <= old(memory).capacity()
                    &&& final(memory).live() == old(memory).live().push(
                        buffer_region(ptr, payload@.len()),
                    )
                    &&& final(memory).bytes() == overwritten(
                        old(memory).bytes(),
                        ptr as int,
                        frame(payload@),
                    )
                },
                Ok(None) => false,
                Err(e) => {
                    &&& final(memory).live() == old(memory).live()
                    &&& final(memory).bytes() == old(memory).bytes()
                    &&& e == if !frameable(payload@.len()) {
                        AbiError::SizeLimitExceeded
                    } else {
                        AbiError::OutOfMemory
                    }
                    &&& !frameable(payload@.len()) || old(memory).top() + payload@.len() + 4
                        > old(memory).capacity()
                },
            },
        },
{
    if signature.output.is_none() {
        return Ok(None);
    }
    match result {
        None => Err(AbiError::MissingResult),
        Some(payload) => match into_abi(memory, payload.as_slice()) {
            Ok(ptr) => Ok(Some(ptr)),
            Err(e) => Err(e),
        },
    }
}

/// Runs the export of `signature` on `pointers`: takes the arguments, runs
/// `implementation` on them, and hands its result over.
///
/// A call with the wrong number of pointers is refused before anything is
/// touched. Otherwise the buffers of the arguments are released, up to the
/// first that is none, and at most one region is reserved: the buffer of the
/// result, which the returned pointer points to. Once the arguments are
/// received, the wrapper of a function without result returns nothing,
/// whatever the implementation gave; that of a function with a result can
/// fail only for want of a result or of room for it.
pub fn export_wrapper<I: Plugin>(
    memory: &mut GuestMemory,
    implementation: &mut I,
    signature: &FunctionSignature,
    pointers: &[u32],
) -> (r: Result<Option<u32>, AbiError>)
    requires
        old(memory).wf(),
    ensures
        final(memory).wf(),
        pointers@.len() != signature.arity() ==> {
            &&& r == Err::<Option<u32>, AbiError>(AbiError::ArityMismatch)
            &&& final(memory).live() == old(memory).live()
            &&& final(memory).bytes() == old(memory).bytes()
        },
        pointers@.len() == signature.arity() && !signature.has_result() && received(
            old(memory).live(),
            old(memory).bytes(),
            pointers@,
        ).1 is Some ==> r == Ok::<Option<u32>, AbiError>(None),
        pointers@.len() == signature.arity() ==> ({
            let left = received(old(memory).live(), old(memory).bytes(), pointers@);
            match r {
                Ok(Some(ptr)) => {
                    &&& signature.has_result()
                    &&& left.1 is Some
                    &&& ptr == top_of(left.0)
                    &&& final(memory).live().len() == left.0.len() + 1
                    &&& final(memory).live().drop_last() == left.0
                    &&& final(memory).live().last().offset == ptr
                    &&& buffer_at(final(memory).bytes(), ptr as int) matches Some(payload)
                    &&& final(memory).live().last() == buffer_region(ptr, payload.len())
                    &&& final(memory).bytes() == overwritten(
                        old(memory).bytes(),
                        ptr as int,
                        frame(payload),
                    )
                },
                Ok(None) => {
                    &&& !signature.has_result()
                    &&& left.1 is Some
                    &&& final(memory).live() == left.0
                    &&& final(memory).bytes() == old(memory).bytes()
                },
                Err(e) => {
                    &&& e != AbiError::ArityMismatch
                    &&& e == AbiError::OutOfBounds <==> left.1 is None
                    &&& left.1 is Some ==> signature.has_result() && (e
                        == AbiError::MissingResult || e == AbiError::SizeLimitExceeded || e
                        == AbiError::OutOfMemory)
                    &&& final(memory).live() == left.0
                    &&& final(memory).bytes() == old(memory).bytes()
                },
            }
        }),
{
    if pointers.len() != signature.params.len() {
        return Err(AbiError::ArityMismatch);
    }
    let arguments = receive_arguments(memory, pointers)?;
    let result = implementation.run(signature.name.as_str(), arguments);
    let ghost before = memory.live();
    let ghost payload = if result is Some {
        result->Some_0@
    } else {
        Seq::empty()
    };
    let handed = return_result(memory, signature, result);
    proof {
        if let Ok(Some(ptr)) = handed {
            assert(memory.live().drop_last() =~= before);
            crate::buffer::lemma_buffer_round_trip(old(memory).bytes(), ptr as int, payload);
        }
    }
    handed
}

} // verus!
