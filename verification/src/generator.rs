//! From the description of an interface to the stubs on both sides.
//!
//! The description lists the functions of an interface as they were declared.
//! For the host, each function becomes a stub that sends its arguments and
//! runs the export of the same name. For the guest, each function becomes an
//! export that takes one pointer per parameter. What comes out depends on the
//! description alone.

use crate::interface::FunctionSignature;
use vstd::prelude::*;
use vstd::string::StringExecFns;

verus! {

/// One parameter of a declared function.
#[derive(Clone, Debug, PartialEq, Eq)]
pub enum Parameter {
    /// The receiver of a method, which no function of an interface may have.
    Receiver,
    /// A parameter that is bound by `pattern` and has the type `ty`.
    Typed { pattern: String, ty: String },
}

/// A function as it was declared.
#[derive(Clone, Debug, PartialEq, Eq)]
pub struct Method {
    pub name: String,
    pub inputs: Vec<Parameter>,
    pub output: Option<String>,
}

/// What the library that host and guest share declares: the identity of the
/// interface, the name of the type that loads a guest, and the functions.
#[derive(Clone, Debug, PartialEq, Eq)]
pub struct CommonPluginImplementation {
    pub api_name: String,
    pub api_version: String,
    pub loader_name: String,
    pub fns: Vec<Method>,
}

/// What a guest declares: the library it shares with the host, its own name,
/// and the functions it implements.
#[derive(Clone, Debug, PartialEq, Eq)]
pub struct PluginImplementation {
    pub common_lib: String,
    pub plugin_name: String,
    pub fns: Vec<Method>,
}

/// Why a description yields no stubs.
#[derive(Clone, Copy, Debug, PartialEq, Eq, Structural)]
pub enum GenerateError {
    /// The function at `function` has a receiver among its parameters.
    UnexpectedReceiver { function: usize },
    /// The function at `function` has the name of an earlier one.
    DuplicateName { function: usize },
}

/// The host's stub for one function.
#[derive(Clone, Debug, PartialEq, Eq)]
pub struct HostStub {
    /// The name of the stub and of the export that it runs.
    pub name: String,
    /// The patterns that bind the arguments, in the order in which they are
    /// sent.
    pub arguments: Vec<String>,
    /// Whether the stub reads a result from the pointer that the export
    /// returns.
    pub reads_result: bool,
    /// The function as the interface describes it.
    pub signature: FunctionSignature,
}

/// What the shared library holds once its description is expanded.
#[derive(Clone, Debug, PartialEq, Eq)]
pub struct CommonExpansion {
    pub api_name: String,
    /// The name of the interface with the zero byte that ends it in memory.
    pub api_name_c: String,
    pub api_version: String,
    /// The version of the interface with the zero byte that ends it in memory.
    pub api_version_c: String,
    pub loader_name: String,
    pub stubs: Vec<HostStub>,
}

/// The guest's export for one function.
#[derive(Clone, Debug, PartialEq, Eq)]
pub struct GuestExport {
    /// The name of the export.
    pub name: String,
    /// The names of its parameters, one pointer each.
    pub parameters: Vec<String>,
    /// Whether the export returns a pointer.
    pub returns_pointer: bool,
}

/// What a guest holds once its description is expanded.
#[derive(Clone, Debug, PartialEq, Eq)]
pub struct PluginExpansion {
    pub common_lib: String,
    /// The name of the guest with the zero byte that ends it in memory.
    pub plugin_name_c: String,
    pub exports: Vec<GuestExport>,
}

/// The character that writes the digit `d`.
pub open spec fn digit(d: nat) -> char {
    if d == 0 {
        '0'
    } else if d == 1 {
        '1'
    } else if d == 2 {
        '2'
    } else if d == 3 {
        '3'
    } else if d == 4 {
        '4'
    } else if d == 5 {
        '5'
    } else if d == 6 {
        '6'
    } else if d == 7 {
        '7'
    } else if d == 8 {
        '8'
    } else {
        '9'
    }
}

/// The decimal digits of `n`, most significant first.
pub open spec fn decimal(n: nat) -> Seq<char>
    decreases n,
{
    if n < 10 {
        seq![digit(n)]
    } else {
        decimal(n / 10).push(digit(n % 10))
    }
}

/// The name of the `index`-th parameter of an export.
pub open spec fn parameter_name(index: nat) -> Seq<char> {
    seq!['a', 'r', 'g'] + decimal(index)
}

/// `text` with the zero character that ends it in memory.
pub open spec fn with_nul(text: Seq<char>) -> Seq<char> {
    text.push('\0')
}

/// Whether a function has a receiver among its parameters.
pub open spec fn has_receiver(method: &Method) -> bool {
    exists|i: int| 0 <= i < method.inputs@.len() && #[trigger] method.inputs@[i] is Receiver
}

/// Whether the function at `index` has the name of an earlier one.
pub open spec fn repeats_name(fns: Seq<Method>, index: int) -> bool {
    exists|j: int| 0 <= j < index && (#[trigger] fns[j]).name@ == fns[index].name@
}

/// The first fault of a list of functions, if it has one: functions are
/// looked at in order, and in each first the receiver, then the name.
pub open spec fn fault_at(fns: Seq<Method>, index: int) -> Option<GenerateError> {
    if has_receiver(&fns[index]) {
        Some(GenerateError::UnexpectedReceiver { function: index as usize })
    } else if repeats_name(fns, index) {
        Some(GenerateError::DuplicateName { function: index as usize })
    } else {
        None
    }
}

/// Whether `stub` is the host's stub for `method`.
pub open spec fn is_stub_of(stub: &HostStub, method: &Method) -> bool {
    &&& stub.name@ == method.name@
    &&& stub.reads_result == (method.output is Some)
    &&& stub.arguments@.len() == method.inputs@.len()
    &&& forall|i: int|
        0 <= i < method.inputs@.len() ==> (#[trigger] method.inputs@[i] matches Parameter::Typed {
            pattern,
            ..
        } && stub.arguments@[i]@ == pattern@)
    &&& describes(&stub.signature, method)
}

/// Whether `signature` describes `method`: the same name, the types of the
/// parameters in order, and the type of the result.
pub open spec fn describes(signature: &FunctionSignature, method: &Method) -> bool {
    &&& signature.name@ == method.name@
    &&& signature.params@.len() == method.inputs@.len()
    &&& forall|i: int|
        0 <= i < method.inputs@.len() ==> (#[trigger] method.inputs@[i] matches Parameter::Typed {
            ty,
            ..
        } && signature.params@[i]@ == ty@)
    &&& match method.output {
        Some(ty) => signature.output matches Some(r) && r@ == ty@,
        None => signature.output is None,
    }
}

/// Whether `export` is the guest's export for `method`.
pub open spec fn is_export_of(export: &GuestExport, method: &Method) -> bool {
    &&& export.name@ == method.name@
    &&& export.returns_pointer == (method.output is Some)
    &&& export.parameters@.len() == method.inputs@.len()
    &&& forall|i: int|
        0 <= i < method.inputs@.len() ==> (#[trigger] export.parameters@[i])@ == parameter_name(
            i as nat,
        )
}

/// The one character that writes the digit `d`.
fn digit_text(d: usize) -> (text: &'static str)
    requires
        d < 10,
    ensures
        text@ == seq![digit(d as nat)],
{
    proof {
        reveal_strlit("0");
        reveal_strlit("1");
        reveal_strlit("2");
        reveal_strlit("3");
        reveal_strlit("4");
        reveal_strlit("5");
        reveal_strlit("6");
        reveal_strlit("7");
        reveal_strlit("8");
        reveal_strlit("9");
    }
    let text = if d == 0 {
        "0"
    } else if d == 1 {
        "1"
    } else if d == 2 {
        "2"
    } else if d == 3 {
        "3"
    } else if d == 4 {
        "4"
    } else if d == 5 {
        "5"
    } else if d == 6 {
        "6"
    } else if d == 7 {
        "7"
    } else if d == 8 {
        "8"
    } else {
        "9"
    };
    assert(text@ =~= seq![digit(d as nat)]);
    text
}

/// `n` in decimal digits.
pub fn decimal_text(n: usize) -> (text: String)
    ensures
        text@ == decimal(n as nat),
    decreases n,
{
    if n < 10 {
        String::from_str(digit_text(n))
    } else {
        let mut text = decimal_text(n / 10);
        text.append(digit_text(n % 10));
        proof {
            assert(text@ =~= decimal((n / 10) as nat).push(digit((n % 10) as nat)));
        }
        text
    }
}

/// The name of the `index`-th parameter of an export: `arg` and the index.
pub fn parameter_text(index: usize) -> (text: String)
    ensures
        text@ == parameter_name(index as nat),
{
    proof {
        reveal_strlit("arg");
    }
    let mut text = String::from_str("arg");
    let digits = decimal_text(index);
    text.append(digits.as_str());
    proof {
        assert("arg"@ =~= seq!['a', 'r', 'g']);
    }
    text
}

/// `text` with the zero character that ends it in memory.
pub fn nul_terminated(text: &str) -> (terminated: String)
    ensures
        terminated@ == with_nul(text@),
{
    proof {
        reveal_strlit("\0");
    }
    let mut terminated = String::from_str(text);
    terminated.append("\0");
    proof {
        assert(terminated@ =~= with_nul(text@));
    }
    terminated
}

/// Whether one of the first `count` functions has the name `name`.
fn name_taken(fns: &Vec<Method>, count: usize, name: &String) -> (taken: bool)
    requires
        count <= fns@.len(),
    ensures
        taken == exists|j: int| 0 <= j < count && (#[trigger] fns@[j]).name@ == name@,
{
    let mut j: usize = 0;
    while j < count
        invariant
            j <= count <= fns@.len(),
            forall|k: int| 0 <= k < j ==> (#[trigger] fns@[k]).name@ != name@,
        decreases count - j,
    {
        if fns[j].name == *name {
            return true;
        }
        j = j + 1;
    }
    false
}

/// The host's stub for `method`, unless the method has a receiver.
pub fn host_stub(method: &Method) -> (r: Option<HostStub>)
    ensures
        r is None <==> has_receiver(method),
        r matches Some(stub) ==> is_stub_of(&stub, method),
{
    let mut arguments: Vec<String> = Vec::new();
    let mut params: Vec<String> = Vec::new();
    let mut i: usize = 0;
    while i < method.inputs.len()
        invariant
            i <= method.inputs@.len(),
            arguments@.len() == i,
            params@.len() == i,
            forall|k: int|
                0 <= k < i ==> (#[trigger] method.inputs@[k] matches Parameter::Typed {
                    pattern,
                    ty,
                } && arguments@[k]@ == pattern@ && params@[k]@ == ty@),
        decreases method.inputs@.len() - i,
    {
        match &method.inputs[i] {
            Parameter::Receiver => {
                return None;
            },
            Parameter::Typed { pattern, ty } => {
                arguments.push(pattern.clone());
                params.push(ty.clone());
            },
        }
        i = i + 1;
    }
    let output = match &method.output {
        Some(ty) => Some(ty.clone()),
        None => None,
    };
    let reads_result = method.output.is_some();
    let signature = FunctionSignature { name: method.name.clone(), params, output };
    Some(HostStub { name: method.name.clone(), arguments, reads_result, signature })
}

/// The guest's export for `method`, unless the method has a receiver.
pub fn guest_export(method: &Method) -> (r: Option<GuestExport>)
    ensures
        r is None <==> has_receiver(method),
        r matches Some(export) ==> is_export_of(&export, method),
{
    let mut parameters: Vec<String> = Vec::new();
    let mut i: usize = 0;
    while i < method.inputs.len()
        invariant
            i <= method.inputs@.len(),
            parameters@.len() == i,
            forall|k: int| 0 <= k < i ==> !(#[trigger] method.inputs@[k] is Receiver),
            forall|k: int| 0 <= k < i ==> (#[trigger] parameters@[k])@ == parameter_name(k as nat),
        decreases method.inputs@.len() - i,
    {
        match &method.inputs[i] {
            Parameter::Receiver => {
                return None;
            },
            Parameter::Typed { .. } => {
                parameters.push(parameter_text(i));
            },
        }
        i = i + 1;
    }
    Some(
        GuestExport {
            name: method.name.clone(),
            parameters,
            returns_pointer: method.output.is_some(),
        },
    )
}

/// Expands the description of the shared library: the identity of the
/// interface, with and without the zero byte, and one host stub per function,
/// in the order of the description.
///
/// Fails with the first fault of the description, and only then.
pub fn common_plugin_implementation(input: &CommonPluginImplementation) -> (r: Result<
    CommonExpansion,
    GenerateError,
>)
    ensures
        match r {
            Ok(out) => {
                &&& forall|i: int| 0 <= i < input.fns@.len() ==> fault_at(input.fns@, i) is None
                &&& out.api_name@ == input.api_name@
                &&& out.api_name_c@ == with_nul(input.api_name@)
                &&& out.api_version@ == input.api_version@
                &&& out.api_version_c@ == with_nul(input.api_version@)
                &&& out.loader_name@ == input.loader_name@
                &&& out.stubs@.len() == input.fns@.len()
                &&& forall|i: int|
                    0 <= i < input.fns@.len() ==> is_stub_of(
                        #[trigger] &out.stubs@[i],
                        &input.fns@[i],
                    )
            },
            Err(e) => exists|i: int|
                {
                    &&& 0 <= i < input.fns@.len()
                    &&& #[trigger] fault_at(input.fns@, i) == Some(e)
                    &&& forall|j: int| 0 <= j < i ==> fault_at(input.fns@, j) is None
                },
        },
{
    let mut stubs: Vec<HostStub> = Vec::new();
    let mut i: usize = 0;
    while i < input.fns.len()
        invariant
            i <= input.fns@.len(),
            stubs@.len() == i,
            forall|k: int| 0 <= k < i ==> fault_at(input.fns@, k) is None,
            forall|k: int| 0 <= k < i ==> is_stub_of(#[trigger] &stubs@[k], &input.fns@[k]),
        decreases input.fns@.len() - i,
    {
        match host_stub(&input.fns[i]) {
            None => {
                proof {
                    assert(fault_at(input.fns@, i as int) == Some(
                        GenerateError::UnexpectedReceiver { function: i },
                    ));
                }
                return Err(GenerateError::UnexpectedReceiver { function: i });
            },
            Some(stub) => {
                if name_taken(&input.fns, i, &input.fns[i].name) {
                    proof {
                        assert(fault_at(input.fns@, i as int) == Some(
                            GenerateError::DuplicateName { function: i },
                        ));
                    }
                    return Err(GenerateError::DuplicateName { function: i });
                }
                stubs.push(stub);
            },
        }
        i = i + 1;
    }
    Ok(
        CommonExpansion {
            api_name: input.api_name.clone(),
            api_name_c: nul_terminated(input.api_name.as_str()),
            api_version: input.api_version.clone(),
            api_version_c: nul_terminated(input.api_version.as_str()),
            loader_name: input.loader_name.clone(),
            stubs,
        },
    )
}

/// Expands the description of a guest: its name with the zero byte, and one
/// export per function, in the order of the description.
///
/// Fails with the first fault of the description, and only then.
pub fn plugin(input: &PluginImplementation) -> (r: Result<PluginExpansion, GenerateError>)
    ensures
        match r {
            Ok(out) => {
                &&& forall|i: int| 0 <= i < input.fns@.len() ==> fault_at(input.fns@, i) is None
                &&& out.common_lib@ == input.common_lib@
                &&& out.plugin_name_c@ == with_nul(input.plugin_name@)
                &&& out.exports@.len() == input.fns@.len()
                &&& forall|i: int|
                    0 <= i < input.fns@.len() ==> is_export_of(
                        #[trigger] &out.exports@[i],
                        &input.fns@[i],
                    )
            },
            Err(e) => exists|i: int|
                {
                    &&& 0 <= i < input.fns@.len()
                    &&& #[trigger] fault_at(input.fns@, i) == Some(e)
                    &&& forall|j: int| 0 <= j < i ==> fault_at(input.fns@, j) is None
                },
        },
{
    let mut exports: Vec<GuestExport> = Vec::new();
    let mut i: usize = 0;
    while i < input.fns.len()
        invariant
            i <= input.fns@.len(),
            exports@.len() == i,
            forall|k: int| 0 <= k < i ==> fault_at(input.fns@, k) is None,
            forall|k: int| 0 <= k < i ==> is_export_of(#[trigger] &exports@[k], &input.fns@[k]),
        decreases input.fns@.len() - i,
    {
        match guest_export(&input.fns[i]) {
            None => {
                proof {
                    assert(fault_at(input.fns@, i as int) == Some(
                        GenerateError::UnexpectedReceiver { function: i },
                    ));
                }
                return Err(GenerateError::UnexpectedReceiver { function: i });
            },
            Some(export) => {
                if name_taken(&input.fns, i, &input.fns[i].name) {
                    proof {
                        assert(fault_at(input.fns@, i as int) == Some(
                            GenerateError::DuplicateName { function: i },
                        ));
                    }
                    return Err(GenerateError::DuplicateName { function: i });
                }
                exports.push(export);
            },
        }
        i = i + 1;
    }
    Ok(
        PluginExpansion {
            common_lib: input.common_lib.clone(),
            plugin_name_c: nul_terminated(input.plugin_name.as_str()),
            exports,
        },
    )
}

} // verus!
