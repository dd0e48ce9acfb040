//! A guest as a whole: its memory, the strings in which it names itself, and
//! its exports by name.
//!
//! Besides one export per function of its interface, a guest offers five
//! exports of fixed names: two that reserve and release buffers, and three
//! that return where the strings stand that name the interface, its version
//! and the guest.

use crate::buffer::{buffer_at, frame, overwritten, terminate, terminated};
use crate::error::CallError;
use crate::export::{buffer_region, export_wrapper, received, Plugin};
use crate::guest::{
    allocate_buffer, free_buffer, top_of, without_last, GuestMemory, Region,
};
use crate::interface::FunctionSignature;
use vstd::prelude::*;
use vstd::utf8::{encode_utf8, encode_utf8_decode_utf8};

verus! {

/// What a name stands for among the exports of a guest.
#[derive(Clone, Copy, Debug, PartialEq, Eq, Structural)]
pub enum Export {
    /// `allocate_buffer`: reserves a buffer.
    Allocate,
    /// `free_buffer`: releases a buffer.
    Free,
    /// `API_NAME`: where the name of the interface stands.
    ApiName,
    /// `API_VERSION`: where the version of the interface stands.
    ApiVersion,
    /// `PLUGIN_NAME`: where the name of the guest stands.
    PluginName,
    /// The function at this position of the interface.
    Function(usize),
    /// Nothing.
    Missing,
}

/// Whether the two slices hold the same bytes.
pub fn same_bytes(a: &[u8], b: &[u8]) -> (same: bool)
    ensures
        same == (a@ == b@),
{
    if a.len() != b.len() {
        return false;
    }
    let mut i: usize = 0;
    while i < a.len()
        invariant
            i <= a@.len(),
            a@.len() == b@.len(),
            forall|k: int| 0 <= k < i ==> a@[k] == b@[k],
        decreases a@.len() - i,
    {
        if a[i] != b[i] {
            return false;
        }
        i = i + 1;
    }
    proof {
        assert(a@ =~= b@);
    }
    true
}

/// Whether the two strings are the same, character for character.
pub fn same_text(a: &str, b: &str) -> (same: bool)
    ensures
        same == (a@ == b@),
{
    proof {
        encode_utf8_decode_utf8(a@);
        encode_utf8_decode_utf8(b@);
    }
    same_bytes(a.as_bytes(), b.as_bytes())
}

/// The position of the first function named `name` among the first `count`,
/// if there is one.
pub open spec fn position(functions: Seq<FunctionSignature>, name: Seq<char>, count: int) -> Option<
    int,
>
    decreases count,
{
    if count <= 0 {
        None
    } else {
        match position(functions, name, count - 1) {
            Some(i) => Some(i),
            None => if functions[count - 1].name@ == name {
                Some(count - 1)
            } else {
                None
            },
        }
    }
}

/// What `name` stands for among the exports of a guest with these functions.
/// The fixed names come first: a function of one of those names is never
/// reached.
pub open spec fn resolution(functions: Seq<FunctionSignature>, name: Seq<char>) -> Export {
    if name == "allocate_buffer"@ {
        Export::Allocate
    } else if name == "free_buffer"@ {
        Export::Free
    } else if name == "API_NAME"@ {
        Export::ApiName
    } else if name == "API_VERSION"@ {
        Export::ApiVersion
    } else if name == "PLUGIN_NAME"@ {
        Export::PluginName
    } else {
        match position(functions, name, functions.len() as int) {
            Some(i) => Export::Function(i as usize),
            None => Export::Missing,
        }
    }
}

/// A position that `position` gives lies among the functions and is that of
/// a function of the name; it gives none only where no function has the name.
pub proof fn lemma_position(functions: Seq<FunctionSignature>, name: Seq<char>, count: int)
    requires
        count <= functions.len(),
    ensures
        match position(functions, name, count) {
            Some(i) => 0 <= i < count && functions[i].name@ == name && forall|k: int|
                0 <= k < i ==> (#[trigger] functions[k]).name@ != name,
            None => forall|k: int| 0 <= k < count ==> (#[trigger] functions[k]).name@ != name,
        },
    decreases count,
{
    if count > 0 {
        lemma_position(functions, name, count - 1);
    }
}

/// A guest that runs in the process of its host.
pub struct GuestInstance<I: Plugin> {
    memory: GuestMemory,
    implementation: I,
    functions: Vec<FunctionSignature>,
    api_name: u32,
    api_version: u32,
    plugin_name: u32,
}

impl<I: Plugin> GuestInstance<I> {
    /// The guest's memory.
    pub closed spec fn memory(&self) -> GuestMemory {
        self.memory
    }

    /// What implements the functions of the guest's interface.
    pub closed spec fn plugin(&self) -> I {
        self.implementation
    }

    /// The functions of the guest's interface.
    pub closed spec fn functions(&self) -> Seq<FunctionSignature> {
        self.functions@
    }

    /// Where the name of the interface stands.
    pub closed spec fn api_name_at(&self) -> u32 {
        self.api_name
    }

    /// Where the version of the interface stands.
    pub closed spec fn api_version_at(&self) -> u32 {
        self.api_version
    }

    /// Where the name of the guest stands.
    pub closed spec fn plugin_name_at(&self) -> u32 {
        self.plugin_name
    }

    /// The invariant: that of the memory.
    pub open spec fn wf(&self) -> bool {
        self.memory().wf()
    }

    /// What stays as it is whatever export runs: the interface and the places
    /// of the three strings.
    pub open spec fn same_surface(&self, other: &Self) -> bool {
        &&& self.functions() == other.functions()
        &&& self.api_name_at() == other.api_name_at()
        &&& self.api_version_at() == other.api_version_at()
        &&& self.plugin_name_at() == other.plugin_name_at()
    }

    /// A guest with a memory of `capacity` bytes that implements `functions`
    /// by `implementation` and names itself by the three strings, which are
    /// written to the start of its memory, each with the zero byte that ends
    /// it. There is no guest where the strings do not fit.
    pub fn new(
        capacity: u32,
        api_name: &str,
        api_version: &str,
        plugin_name: &str,
        functions: Vec<FunctionSignature>,
        implementation: I,
    ) -> (r: Option<GuestInstance<I>>)
        ensures
            r is Some <==> encode_utf8(api_name@).len() + encode_utf8(api_version@).len()
                + encode_utf8(plugin_name@).len() + 3 <= capacity,
            r matches Some(guest) ==> {
                let first = terminated(encode_utf8(api_name@));
                let second = terminated(encode_utf8(api_version@));
                let third = terminated(encode_utf8(plugin_name@));
                &&& guest.wf()
                &&& guest.plugin() == implementation
                &&& guest.functions() == functions@
                &&& guest.memory().capacity() == capacity
                &&& guest.api_name_at() == 0
                &&& guest.api_version_at() == first.len()
                &&& guest.plugin_name_at() == first.len() + second.len()
                &&& guest.memory().bytes().subrange(0, (first + second + third).len() as int)
                    == first + second + third
                &&& guest.memory().live() == seq![
                    Region { offset: 0, size: first.len() as u32 },
                    Region { offset: first.len() as u32, size: second.len() as u32 },
                    Region { offset: (first.len() + second.len()) as u32, size: third.len() as u32 },
                ]
            },
    {
        let mut memory = GuestMemory::new(capacity);
        let first = terminate(api_name.as_bytes());
        let second = terminate(api_version.as_bytes());
        let third = terminate(plugin_name.as_bytes());
        let size = memory.size();
        if first.len() > size || second.len() > size - first.len() || third.len() > size
            - first.len() - second.len() {
            return None;
        }
        proof {
            reveal_with_fuel(crate::guest::top_of, 4);
        }
        let api_name_at = match allocate_buffer(&mut memory, first.len() as u32) {
            Some(at) => at,
            None => {
                return None;
            },
        };
        let ghost live1 = memory.live();
        proof {
            assert(live1 =~= seq![Region { offset: 0, size: first@.len() as u32 }]);
        }
        let api_version_at = match allocate_buffer(&mut memory, second.len() as u32) {
            Some(at) => at,
            None => {
                return None;
            },
        };
        let ghost live2 = memory.live();
        proof {
            assert(live2 =~= seq![
                Region { offset: 0, size: first@.len() as u32 },
                Region { offset: first@.len() as u32, size: second@.len() as u32 },
            ]);
        }
        let plugin_name_at = match allocate_buffer(&mut memory, third.len() as u32) {
            Some(at) => at,
            None => {
                return None;
            },
        };
        let ghost live3 = memory.live();
        memory.write(api_name_at, first.as_slice());
        memory.write(api_version_at, second.as_slice());
        memory.write(plugin_name_at, third.as_slice());
        proof {
            assert(memory.bytes().subrange(0, (first@ + second@ + third@).len() as int) =~= first@
                + second@ + third@);
            assert(live3 =~= seq![
                Region { offset: 0, size: first@.len() as u32 },
                Region { offset: first@.len() as u32, size: second@.len() as u32 },
                Region {
                    offset: (first@.len() + second@.len()) as u32,
                    size: third@.len() as u32,
                },
            ]);
        }
        Some(
            GuestInstance {
                memory,
                implementation,
                functions,
                api_name: api_name_at,
                api_version: api_version_at,
                plugin_name: plugin_name_at,
            },
        )
    }

    /// The guest's memory, to read.
    pub fn data(&self) -> (data: &[u8])
        ensures
            data@ == self.memory().bytes(),
    {
        self.memory.data()
    }

    /// The guest's memory, to read and write in place.
    pub fn data_mut(&mut self) -> (data: &mut [u8])
        ensures
            data@ == old(self).memory().bytes(),
            final(self).memory().bytes() == final(data)@,
            final(self).memory().live() == old(self).memory().live(),
            final(self).same_surface(old(self)),
    {
        self.memory.data_mut()
    }

    /// The number of regions that are reserved.
    pub fn live_count(&self) -> (count: usize)
        ensures
            count == self.memory().live().len(),
    {
        self.memory.live_count()
    }

    /// The implementation, to look at.
    pub fn implementation(&self) -> (implementation: &I)
        ensures
            *implementation == self.plugin(),
    {
        &self.implementation
    }

    /// What `name` stands for among the guest's exports.
    pub fn resolve(&self, name: &str) -> (export: Export)
        ensures
            export == resolution(self.functions(), name@),
            export matches Export::Function(i) ==> i < self.functions().len()
                && self.functions()[i as int].name@ == name@,
    {
        if same_text(name, "allocate_buffer") {
            return Export::Allocate;
        }
        if same_text(name, "free_buffer") {
            return Export::Free;
        }
        if same_text(name, "API_NAME") {
            return Export::ApiName;
        }
        if same_text(name, "API_VERSION") {
            return Export::ApiVersion;
        }
        if same_text(name, "PLUGIN_NAME") {
            return Export::PluginName;
        }
        let mut i: usize = 0;
        while i < self.functions.len()
            invariant
                i <= self.functions@.len(),
                name@ != "allocate_buffer"@,
                name@ != "free_buffer"@,
                name@ != "API_NAME"@,
                name@ != "API_VERSION"@,
                name@ != "PLUGIN_NAME"@,
                position(self.functions@, name@, i as int) is None,
            decreases self.functions@.len() - i,
        {
            if same_text(self.functions[i].name.as_str(), name) {
                proof {
                    lemma_position_found(self.functions@, name@, i as int);
                }
                return Export::Function(i);
            }
            i = i + 1;
        }
        Export::Missing
    }

    /// Runs the export `name` on `arguments`.
    ///
    /// A name that stands for nothing is a missing export. An export traps
    /// where it is given the wrong number of arguments, where memory runs
    /// out, where a buffer to release is not reserved with that size, and
    /// where a wrapper fails. A trap leaves the guest usable.
    pub fn dispatch(&mut self, name: &str, arguments: &[u32]) -> (r: Result<Option<u32>, CallError>)
        requires
            old(self).wf(),
        ensures
            final(self).wf(),
            final(self).same_surface(old(self)),
            match resolution(old(self).functions(), name@) {
                Export::Missing => {
                    &&& r == Err::<Option<u32>, CallError>(CallError::MissingExport)
                    &&& final(self).memory() == old(self).memory()
                },
                Export::Allocate => {
                    &&& final(self).memory().bytes() == old(self).memory().bytes()
                    &&& if arguments@.len() == 1 && old(self).memory().top() + arguments@[0] <= old(
                        self,
                    ).memory().capacity() {
                        &&& r == Ok::<Option<u32>, CallError>(
                            Some(old(self).memory().top() as u32),
                        )
                        &&& final(self).memory().live() == old(self).memory().live().push(
                            Region { offset: old(self).memory().top() as u32, size: arguments@[0] },
                        )
                    } else {
                        &&& r == Err::<Option<u32>, CallError>(CallError::Trap)
                        &&& final(self).memory().live() == old(self).memory().live()
                    }
                },
                Export::Free => {
                    &&& final(self).memory().bytes() == old(self).memory().bytes()
                    &&& if arguments@.len() == 2 && old(self).memory().live().contains(
                        Region { offset: arguments@[0], size: arguments@[1] },
                    ) {
                        &&& r == Ok::<Option<u32>, CallError>(None)
                        &&& final(self).memory().live() == without_last(
                            old(self).memory().live(),
                            Region { offset: arguments@[0], size: arguments@[1] },
                        )
                    } else {
                        &&& r == Err::<Option<u32>, CallError>(CallError::Trap)
                        &&& final(self).memory().live() == old(self).memory().live()
                    }
                },
                Export::ApiName => {
                    &&& final(self).memory() == old(self).memory()
                    &&& r == if arguments@.len() == 0 {
                        Ok::<Option<u32>, CallError>(Some(old(self).api_name_at()))
                    } else {
                        Err::<Option<u32>, CallError>(CallError::Trap)
                    }
                },
                Export::ApiVersion => {
                    &&& final(self).memory() == old(self).memory()
                    &&& r == if arguments@.len() == 0 {
                        Ok::<Option<u32>, CallError>(Some(old(self).api_version_at()))
                    } else {
                        Err::<Option<u32>, CallError>(CallError::Trap)
                    }
                },
                Export::PluginName => {
                    &&& final(self).memory() == old(self).memory()
                    &&& r == if arguments@.len() == 0 {
                        Ok::<Option<u32>, CallError>(Some(old(self).plugin_name_at()))
                    } else {
                        Err::<Option<u32>, CallError>(CallError::Trap)
                    }
                },
                Export::Function(i) => {
                    let signature = old(self).functions()[i as int];
                    let left = received(
                        old(self).memory().live(),
                        old(self).memory().bytes(),
                        arguments@,
                    );
                    &&& r matches Err(e) ==> e == CallError::Trap
                    &&& arguments@.len() != signature.arity() ==> {
                        &&& r is Err
                        &&& final(self).memory().live() == old(self).memory().live()
                        &&& final(self).memory().bytes() == old(self).memory().bytes()
                    }
                    &&& arguments@.len() == signature.arity() && !signature.has_result()
                        && left.1 is Some ==> r == Ok::<Option<u32>, CallError>(None)
                    &&& arguments@.len() == signature.arity() ==> match r {
                        Ok(Some(ptr)) => {
                            &&& signature.has_result()
                            &&& left.1 is Some
                            &&& ptr == top_of(left.0)
                            &&& final(self).memory().live().len() == left.0.len() + 1
                            &&& final(self).memory().live().drop_last() == left.0
                            &&& buffer_at(final(self).memory().bytes(), ptr as int) matches Some(
                                payload,
                            )
                            &&& final(self).memory().live().last() == buffer_region(
                                ptr,
                                payload.len(),
                            )
                            &&& final(self).memory().bytes() == overwritten(
                                old(self).memory().bytes(),
                                ptr as int,
                                frame(payload),
                            )
                        },
                        Ok(None) => {
                            &&& !signature.has_result()
                            &&& left.1 is Some
                            &&& final(self).memory().live() == left.0
                            &&& final(self).memory().bytes() == old(self).memory().bytes()
                        },
                        Err(_) => {
                            &&& final(self).memory().live() == left.0
                            &&& final(self).memory().bytes() == old(self).memory().bytes()
                        },
                    }
                },
            },
    {
        match self.resolve(name) {
            Export::Missing => Err(CallError::MissingExport),
            Export::Allocate => {
                if arguments.len() != 1 {
                    return Err(CallError::Trap);
                }
                match allocate_buffer(&mut self.memory, arguments[0]) {
                    Some(ptr) => Ok(Some(ptr)),
                    None => Err(CallError::Trap),
                }
            },
            Export::Free => {
                if arguments.len() != 2 || !self.memory.is_allocated(arguments[0], arguments[1]) {
                    return Err(CallError::Trap);
                }
                free_buffer(&mut self.memory, arguments[0], arguments[1]);
                Ok(None)
            },
            Export::ApiName => {
                if arguments.len() != 0 {
                    return Err(CallError::Trap);
                }
                Ok(Some(self.api_name))
            },
            Export::ApiVersion => {
                if arguments.len() != 0 {
                    return Err(CallError::Trap);
                }
                Ok(Some(self.api_version))
            },
            Export::PluginName => {
                if arguments.len() != 0 {
                    return Err(CallError::Trap);
                }
                Ok(Some(self.plugin_name))
            },
            Export::Function(i) => {
                match export_wrapper(
                    &mut self.memory,
                    &mut self.implementation,
                    &self.functions[i],
                    arguments,
                ) {
                    Ok(raw) => Ok(raw),
                    Err(_) => Err(CallError::Trap),
                }
            },
        }
    }
}

/// A function of the name at a position before which none has it is the one
/// that the name stands for.
pub proof fn lemma_position_found(functions: Seq<FunctionSignature>, name: Seq<char>, at: int)
    requires
        0 <= at < functions.len(),
        functions[at].name@ == name,
        position(functions, name, at) is None,
    ensures
        position(functions, name, functions.len() as int) == Some(at),
{
    lemma_position_stays(functions, name, at + 1, functions.len() as int);
}

/// Once a position is found, more functions do not change it.
pub proof fn lemma_position_stays(
    functions: Seq<FunctionSignature>,
    name: Seq<char>,
    count: int,
    more: int,
)
    requires
        0 <= count <= more,
        position(functions, name, count) is Some,
    ensures
        position(functions, name, more) == position(functions, name, count),
    decreases more - count,
{
    if count < more {
        lemma_position_stays(functions, name, count, more - 1);
    }
}

} // verus!
