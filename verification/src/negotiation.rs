//! The handshake that a host performs with a guest before it calls it.
//!
//! A guest names the interface it implements, the version of that interface,
//! and itself, through three exports without parameters. Each returns the
//! offset of a string in the guest's memory that ends with a zero byte. The
//! host loads the guest only if the first two are the strings it expects.

use crate::buffer::{c_string_at, read_c_string};
use crate::error::CallError;
use crate::host::{
    added, extends, lemma_extends_by_one, lemma_extends_itself, one_more, Exchange, Host,
    PluginLoader, Read,
};
use vstd::prelude::*;
use vstd::utf8::{decode_utf8, valid_utf8};

verus! {

/// Why a guest was not loaded.
#[derive(Clone, Copy, Debug, PartialEq, Eq, Structural)]
pub enum Rejection {
    /// The guest lacks one of the three metadata exports.
    MissingExport,
    /// The guest implements another interface, or another version of it.
    IncompatibleApi,
    /// A metadata export is there but trapped or returned no offset.
    Unreadable,
}

/// The interface that a host expects of a guest.
#[derive(Clone, Debug, PartialEq, Eq)]
pub struct ApiIdentity {
    pub name: String,
    pub version: String,
}

/// What a guest says of itself.
#[derive(Clone, Debug, PartialEq, Eq)]
pub struct PluginDescriptor {
    pub api_name: String,
    pub api_version: String,
    pub plugin_name: String,
}

/// How a handshake ended.
#[derive(Clone, Debug, PartialEq, Eq)]
pub enum Negotiation {
    /// The guest may be called; it gave this name for itself.
    Loaded { plugin_name: String },
    /// The guest may not be called.
    Rejected(Rejection),
}

/// Why no guest came out of an attempt to load one.
#[derive(Clone, Copy, Debug, PartialEq, Eq, Structural)]
pub enum LoadError {
    /// The bytes are not a module that can be compiled.
    CompileError,
    /// The module could not be instantiated.
    InstantiateError,
    /// The instance did not pass the handshake and was discarded.
    Rejected(Rejection),
}

impl Negotiation {
    /// The name of the guest that was loaded, or the reason for which none
    /// was.
    pub fn into_result(self) -> (r: Result<String, LoadError>)
        ensures
            match self {
                Negotiation::Loaded { plugin_name } => r matches Ok(name) && name@
                    == plugin_name@,
                Negotiation::Rejected(reason) => r == Err::<String, LoadError>(
                    LoadError::Rejected(reason),
                ),
            },
    {
        match self {
            Negotiation::Loaded { plugin_name } => Ok(plugin_name),
            Negotiation::Rejected(reason) => Err(LoadError::Rejected(reason)),
        }
    }
}

/// The text that a run of bytes stands for when every sequence that is not
/// UTF-8 is replaced by the replacement character.
pub uninterp spec fn utf8_lossy(bytes: Seq<u8>) -> Seq<char>;

/// std's `String::from_utf8_lossy`. The contract names the result, which
/// depends on the bytes alone, and claims that bytes which are UTF-8 are
/// decoded as they stand.
#[verifier::external_body]
fn string_from_utf8_lossy(bytes: &[u8]) -> (text: String)
    ensures
        text@ == utf8_lossy(bytes@),
        valid_utf8(bytes@) ==> text@ == decode_utf8(bytes@),
{
    String::from_utf8_lossy(bytes).into_owned()
}

/// The name of the export that yields the `index`-th metadata string.
pub open spec fn metadata_export(index: int) -> Seq<char> {
    if index == 0 {
        "API_NAME"@
    } else if index == 1 {
        "API_VERSION"@
    } else {
        "PLUGIN_NAME"@
    }
}

/// Whether a guest that names `api_name` and `api_version` implements the
/// interface `expected`: both strings must be equal, character for character.
pub open spec fn compatible(
    expected_name: Seq<char>,
    expected_version: Seq<char>,
    api_name: Seq<char>,
    api_version: Seq<char>,
) -> bool {
    api_name == expected_name && api_version == expected_version
}

/// What the run of a metadata export amounts to: the offset of the string, or
/// the reason for which the guest is rejected.
pub open spec fn offset_of(outcome: Result<Option<u32>, CallError>) -> Result<u32, Rejection> {
    match outcome {
        Ok(Some(offset)) => Ok(offset),
        Ok(None) => Err(Rejection::Unreadable),
        Err(CallError::Trap) => Err(Rejection::Unreadable),
        Err(CallError::MissingExport) => Err(Rejection::MissingExport),
    }
}

/// Reads what the run of a metadata export amounts to.
pub fn interpret(outcome: Result<Option<u32>, CallError>) -> (r: Result<u32, Rejection>)
    ensures
        r == offset_of(outcome),
{
    match outcome {
        Ok(Some(offset)) => Ok(offset),
        Ok(None) => Err(Rejection::Unreadable),
        Err(CallError::Trap) => Err(Rejection::Unreadable),
        Err(CallError::MissingExport) => Err(Rejection::MissingExport),
    }
}

/// The text of the metadata string at `offset`.
pub fn metadata_text(memory: &[u8], offset: u32) -> (text: String)
    ensures
        text@ == utf8_lossy(c_string_at(memory@, offset as int)),
        valid_utf8(c_string_at(memory@, offset as int)) ==> text@ == decode_utf8(
            c_string_at(memory@, offset as int),
        ),
{
    let bytes = read_c_string(memory, offset);
    string_from_utf8_lossy(bytes.as_slice())
}

/// Decides a handshake from what the guest said of itself: the guest is
/// loaded, under its own name, exactly if it names the expected interface and
/// version; otherwise it is rejected as incompatible.
pub fn evaluate(expected: &ApiIdentity, descriptor: PluginDescriptor) -> (r: Negotiation)
    ensures
        match r {
            Negotiation::Loaded { plugin_name } => {
                &&& compatible(
                    expected.name@,
                    expected.version@,
                    descriptor.api_name@,
                    descriptor.api_version@,
                )
                &&& plugin_name@ == descriptor.plugin_name@
            },
            Negotiation::Rejected(reason) => {
                &&& reason == Rejection::IncompatibleApi
                &&& !compatible(
                    expected.name@,
                    expected.version@,
                    descriptor.api_name@,
                    descriptor.api_version@,
                )
            },
        },
{
    if descriptor.api_name == expected.name && descriptor.api_version == expected.version {
        Negotiation::Loaded { plugin_name: descriptor.plugin_name }
    } else {
        Negotiation::Rejected(Rejection::IncompatibleApi)
    }
}

/// The text of the metadata string that `read` shows at `offset`.
pub open spec fn text_at(read: Read, offset: u32) -> Seq<char> {
    utf8_lossy(c_string_at(read.memory, offset as int))
}

/// Whether the text that `read` shows at `offset` is, where the bytes there
/// are UTF-8, those bytes decoded as they stand.
pub open spec fn decodes(read: Read, offset: u32) -> bool {
    valid_utf8(c_string_at(read.memory, offset as int)) ==> text_at(read, offset) == decode_utf8(
        c_string_at(read.memory, offset as int),
    )
}

/// Runs the metadata export `name` and reads the string it points to.
///
/// The export is run once, without arguments. Where the run gives no offset,
/// the call fails with the reason for it and memory is not read. Where it
/// gives one, memory is read once, after the run, and the call returns the
/// text that stands at the offset.
pub fn fetch<P: PluginLoader>(host: &mut Host<P>, name: &str) -> (r: Result<String, Rejection>)
    ensures
        final(host).writes() == old(host).writes(),
        final(host).exchanges().len() == old(host).exchanges().len() + 1,
        final(host).exchanges().drop_last() == old(host).exchanges(),
        final(host).exchanges().last() matches Exchange::Invoke { name: n, arguments, outcome },
        final(host).exchanges().last()->Invoke_name == name@,
        final(host).exchanges().last()->Invoke_arguments.len() == 0,
        match offset_of(final(host).exchanges().last()->Invoke_outcome) {
            Err(reason) => {
                &&& r == Err::<String, Rejection>(reason)
                &&& final(host).reads() == old(host).reads()
            },
            Ok(offset) => {
                &&& r matches Ok(text)
                &&& one_more(old(host).reads(), final(host).reads())
                &&& final(host).reads().last().at == final(host).exchanges().len()
                &&& text@ == text_at(final(host).reads().last(), offset)
                &&& decodes(final(host).reads().last(), offset)
            },
        },
{
    let arguments: Vec<u32> = Vec::new();
    let ghost before = host.exchanges();
    let outcome = host.invoke(name, arguments.as_slice());
    proof {
        assert(host.exchanges().drop_last() =~= before);
    }
    match interpret(outcome) {
        Err(reason) => Err(reason),
        Ok(offset) => Ok(host.metadata(offset)),
    }
}

/// The offset that the `index`-th run of `runs` gave.
pub open spec fn offset_given(runs: Seq<Exchange>, index: int) -> u32 {
    offset_of(runs[index]->Invoke_outcome)->Ok_0
}

/// Performs the handshake: runs the three metadata exports in their order,
/// reads the string that each points to right after its run, stops at the
/// first run that gives no offset, and decides from the three texts as
/// [`evaluate`] does.
///
/// The guest is rejected for a missing export exactly if the last export that
/// was run is missing. It is loaded exactly if all three runs gave an offset
/// and the first two texts are the expected name and version; its name is
/// then the third text.
pub fn negotiate<P: PluginLoader>(host: &mut Host<P>, expected: &ApiIdentity) -> (r: Negotiation)
    ensures
        final(host).writes() == old(host).writes(),
        extends(old(host).exchanges(), final(host).exchanges()),
        extends(old(host).reads(), final(host).reads()),
        ({
            let base = old(host).exchanges().len() as int;
            let runs = added(old(host).exchanges(), final(host).exchanges());
            let seen = added(old(host).reads(), final(host).reads());
            &&& 1 <= runs.len() <= 3
            &&& forall|i: int|
                0 <= i < runs.len() ==> (#[trigger] runs[i] matches Exchange::Invoke {
                    name,
                    arguments,
                    outcome,
                } && name == metadata_export(i) && arguments.len() == 0 && (i < runs.len() - 1
                    ==> offset_of(outcome) is Ok))
            &&& forall|i: int|
                0 <= i < seen.len() ==> (#[trigger] seen[i]).at == base + i + 1 && decodes(
                    seen[i],
                    offset_given(runs, i),
                )
            &&& match offset_of(runs.last()->Invoke_outcome) {
                Err(reason) => {
                    &&& r == Negotiation::Rejected(reason)
                    &&& seen.len() == runs.len() - 1
                },
                Ok(_) => {
                    let api_name = text_at(seen[0], offset_given(runs, 0));
                    let api_version = text_at(seen[1], offset_given(runs, 1));
                    let plugin_name = text_at(seen[2], offset_given(runs, 2));
                    &&& runs.len() == 3
                    &&& seen.len() == 3
                    &&& match r {
                        Negotiation::Loaded { plugin_name: name } => {
                            &&& compatible(
                                expected.name@,
                                expected.version@,
                                api_name,
                                api_version,
                            )
                            &&& name@ == plugin_name
                        },
                        Negotiation::Rejected(reason) => {
                            &&& reason == Rejection::IncompatibleApi
                            &&& !compatible(
                                expected.name@,
                                expected.version@,
                                api_name,
                                api_version,
                            )
                        },
                    }
                },
            }
        }),
{
    let ghost before = host.exchanges();
    let ghost looked = host.reads();
    proof {
        lemma_extends_itself(before);
        lemma_extends_itself(looked);
    }
    let fetched = fetch(host, "API_NAME");
    let ghost first = host.exchanges();
    let ghost first_seen = host.reads();
    proof {
        lemma_extends_by_one(before, before, first);
        if fetched is Ok {
            lemma_extends_by_one(looked, looked, first_seen);
        }
    }
    let api_name = match fetched {
        Ok(text) => text,
        Err(reason) => {
            return Negotiation::Rejected(reason);
        },
    };
    let fetched = fetch(host, "API_VERSION");
    let ghost second = host.exchanges();
    let ghost second_seen = host.reads();
    proof {
        lemma_extends_by_one(before, first, second);
        if fetched is Ok {
            lemma_extends_by_one(looked, first_seen, second_seen);
        }
    }
    let api_version = match fetched {
        Ok(text) => text,
        Err(reason) => {
            return Negotiation::Rejected(reason);
        },
    };
    let fetched = fetch(host, "PLUGIN_NAME");
    proof {
        lemma_extends_by_one(before, second, host.exchanges());
        if fetched is Ok {
            lemma_extends_by_one(looked, second_seen, host.reads());
        }
    }
    match fetched {
        Err(reason) => Negotiation::Rejected(reason),
        Ok(plugin_name) => evaluate(expected, PluginDescriptor { api_name, api_version, plugin_name }),
    }
}

/// A guest that differs from what is expected in a single character of the
/// interface's name or of its version is not compatible.
pub proof fn lemma_mismatch_is_incompatible(
    expected_name: Seq<char>,
    expected_version: Seq<char>,
    api_name: Seq<char>,
    api_version: Seq<char>,
    at: int,
)
    requires
        (0 <= at < expected_name.len() && at < api_name.len() && api_name[at] != expected_name[at])
            || (0 <= at < expected_version.len() && at < api_version.len() && api_version[at]
            != expected_version[at]),
    ensures
        !compatible(expected_name, expected_version, api_name, api_version),
{
}

/// A guest without the export that names its interface is rejected for that,
/// whatever else it offers.
pub proof fn lemma_missing_export_rejects()
    ensures
        offset_of(Err(CallError::MissingExport)) == Err::<u32, Rejection>(Rejection::MissingExport),
{
}

} // verus!
