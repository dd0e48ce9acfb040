use wasm_plugin_framework::buffer::read_buffer;
use wasm_plugin_framework::codec::CodecConfig;
use wasm_plugin_framework::error::{AbiError, CallError};
use wasm_plugin_framework::export::{export_wrapper, receive_arguments, return_result, Plugin};
use wasm_plugin_framework::guest::into_abi as guest_into_abi;
use wasm_plugin_framework::guest::GuestMemory;
use wasm_plugin_framework::host::{
    call, from_abi, into_abi, receive_result, send_arguments, Host, PluginLoader,
};
use wasm_plugin_framework::instance::{same_bytes, same_text, Export, GuestInstance};
use wasm_plugin_framework::interface::FunctionSignature;
use wasm_plugin_framework::negotiation::{
    evaluate, fetch, interpret, metadata_text, negotiate, ApiIdentity, LoadError, Negotiation,
    PluginDescriptor, Rejection,
};
use wasm_plugin_framework::{A, B};

fn signature(name: &str, params: &[&str], output: Option<&str>) -> FunctionSignature {
    FunctionSignature {
        name: name.to_string(),
        params: params.iter().map(|p| p.to_string()).collect(),
        output: output.map(|t| t.to_string()),
    }
}

/// A guest that greets: `a` turns an `A` into a `B`, `reset` takes and gives
/// nothing, `join` takes two values, `silent` owes a result and gives none.
struct Greeter {
    seen: Vec<A>,
    runs: usize,
}

impl Plugin for Greeter {
    fn run(&mut self, name: &str, arguments: Vec<Vec<u8>>) -> Option<Vec<u8>> {
        let config = CodecConfig::default();
        self.runs += 1;
        match name {
            "a" => {
                let a = A::from_bytes(&arguments[0], &config).unwrap();
                let b = B { test: format!("Hello, {}", a.test), test2: a.test2.to_string() };
                self.seen.push(a);
                Some(b.into_bytes(&config).unwrap())
            }
            "join" => {
                let mut all = arguments[0].clone();
                all.extend_from_slice(&arguments[1]);
                Some(all)
            }
            _ => None,
        }
    }
}

fn functions() -> Vec<FunctionSignature> {
    vec![
        signature("a", &["A"], Some("B")),
        signature("reset", &[], None),
        signature("join", &["A", "A"], Some("A")),
        signature("silent", &[], Some("B")),
    ]
}

/// The bytes that the three strings of the guest below take, each with its
/// zero byte.
const METADATA: u32 = 24;

fn guest_named(capacity: u32, api_name: &str, api_version: &str) -> GuestInstance<Greeter> {
    GuestInstance::new(
        capacity,
        api_name,
        api_version,
        "PLUGIN 1",
        functions(),
        Greeter { seen: Vec::new(), runs: 0 },
    )
    .unwrap()
}

/// A guest that runs in the host's process, and counts what is asked of it.
struct Loopback {
    guest: GuestInstance<Greeter>,
    allocations: usize,
    releases: usize,
    trap_on_free: bool,
}

impl Loopback {
    /// A guest with `heap` bytes beyond its metadata.
    fn new(heap: u32) -> Loopback {
        Loopback {
            guest: guest_named(METADATA + heap, "API NAME", "0.1.0"),
            allocations: 0,
            releases: 0,
            trap_on_free: false,
        }
    }
}

impl PluginLoader for Loopback {
    fn allocate_buffer(&mut self, size: u32) -> Result<u32, CallError> {
        self.allocations += 1;
        self.guest.dispatch("allocate_buffer", &[size])?.ok_or(CallError::Trap)
    }

    fn free_buffer(&mut self, ptr: u32, size: u32) -> Result<(), CallError> {
        self.releases += 1;
        if self.trap_on_free {
            return Err(CallError::Trap);
        }
        self.guest.dispatch("free_buffer", &[ptr, size]).map(|_| ())
    }

    fn memory(&mut self) -> &mut [u8] {
        self.guest.data_mut()
    }

    fn invoke(&mut self, name: &str, arguments: &[u32]) -> Result<Option<u32>, CallError> {
        self.guest.dispatch(name, arguments)
    }
}

/// A guest that is nothing but a memory and a table of what its exports
/// return.
struct Scripted {
    memory: Vec<u8>,
    exports: Vec<(&'static str, Result<Option<u32>, CallError>)>,
}

impl PluginLoader for Scripted {
    fn allocate_buffer(&mut self, _size: u32) -> Result<u32, CallError> {
        Err(CallError::MissingExport)
    }

    fn free_buffer(&mut self, _ptr: u32, _size: u32) -> Result<(), CallError> {
        Err(CallError::MissingExport)
    }

    fn memory(&mut self) -> &mut [u8] {
        &mut self.memory
    }

    fn invoke(&mut self, name: &str, _arguments: &[u32]) -> Result<Option<u32>, CallError> {
        match self.exports.iter().find(|(export, _)| *export == name) {
            Some((_, outcome)) => *outcome,
            None => Err(CallError::MissingExport),
        }
    }
}

fn scripted(names: &[&'static str]) -> Scripted {
    let memory = b"API NAME\x000.1.0\0PLUGIN 1\0".to_vec();
    let all = [("API_NAME", 0u32), ("API_VERSION", 9), ("PLUGIN_NAME", 15)];
    let exports = all
        .iter()
        .filter(|(name, _)| names.contains(name))
        .map(|(name, at)| (*name, Ok(Some(*at))))
        .collect();
    Scripted { memory, exports }
}

fn expected() -> ApiIdentity {
    ApiIdentity { name: "API NAME".to_string(), version: "0.1.0".to_string() }
}

#[test]
fn guest_writes_its_names_to_the_start_of_memory() {
    let guest = guest_named(32, "API NAME", "0.1.0");
    assert_eq!(&guest.data()[..24], b"API NAME\x000.1.0\0PLUGIN 1\0");
    assert_eq!(&guest.data()[24..], &[0u8; 8]);
    assert_eq!(guest.live_count(), 3);
}

#[test]
fn guest_needs_room_for_its_names() {
    let plugin = || Greeter { seen: Vec::new(), runs: 0 };
    assert!(GuestInstance::new(23, "API NAME", "0.1.0", "PLUGIN 1", vec![], plugin()).is_none());
    assert!(GuestInstance::new(24, "API NAME", "0.1.0", "PLUGIN 1", vec![], plugin()).is_some());
    assert!(GuestInstance::new(2, "", "", "", vec![], plugin()).is_none());
    assert!(GuestInstance::new(3, "", "", "", vec![], plugin()).is_some());
}

#[test]
fn names_resolve_to_exports() {
    let guest = guest_named(64, "API NAME", "0.1.0");
    assert_eq!(guest.resolve("allocate_buffer"), Export::Allocate);
    assert_eq!(guest.resolve("free_buffer"), Export::Free);
    assert_eq!(guest.resolve("API_NAME"), Export::ApiName);
    assert_eq!(guest.resolve("API_VERSION"), Export::ApiVersion);
    assert_eq!(guest.resolve("PLUGIN_NAME"), Export::PluginName);
    assert_eq!(guest.resolve("a"), Export::Function(0));
    assert_eq!(guest.resolve("silent"), Export::Function(3));
    assert_eq!(guest.resolve("A"), Export::Missing);
    assert_eq!(guest.resolve(""), Export::Missing);
    assert_eq!(guest.resolve("api_name"), Export::Missing);
}

#[test]
fn fixed_names_come_before_functions_and_the_first_of_a_name_wins() {
    let guest = GuestInstance::new(
        16,
        "",
        "",
        "",
        vec![
            signature("API_NAME", &[], None),
            signature("twice", &[], None),
            signature("twice", &["A"], None),
        ],
        Greeter { seen: Vec::new(), runs: 0 },
    )
    .unwrap();
    assert_eq!(guest.resolve("API_NAME"), Export::ApiName);
    assert_eq!(guest.resolve("twice"), Export::Function(1));
}

#[test]
fn same_text_compares_character_for_character() {
    assert!(same_text("", ""));
    assert!(same_text("API NAME", "API NAME"));
    assert!(!same_text("API NAME", "API NAMe"));
    assert!(!same_text("API NAME", "API NAME "));
    assert!(same_text("é", "é"));
    assert!(!same_text("é", "e"));
    assert!(same_bytes(&[1, 2], &[1, 2]));
    assert!(!same_bytes(&[1, 2], &[1, 3]));
    assert!(!same_bytes(&[1, 2], &[1]));
}

#[test]
fn dispatch_runs_the_allocator() {
    let mut guest = guest_named(METADATA + 16, "API NAME", "0.1.0");
    assert_eq!(guest.dispatch("allocate_buffer", &[10]), Ok(Some(24)));
    assert_eq!(guest.dispatch("allocate_buffer", &[7]), Err(CallError::Trap));
    assert_eq!(guest.dispatch("allocate_buffer", &[]), Err(CallError::Trap));
    assert_eq!(guest.dispatch("allocate_buffer", &[1, 2]), Err(CallError::Trap));
    assert_eq!(guest.dispatch("free_buffer", &[24, 9]), Err(CallError::Trap));
    assert_eq!(guest.dispatch("free_buffer", &[24]), Err(CallError::Trap));
    assert_eq!(guest.dispatch("free_buffer", &[24, 10]), Ok(None));
    assert_eq!(guest.dispatch("free_buffer", &[24, 10]), Err(CallError::Trap));
    assert_eq!(guest.live_count(), 3);
}

#[test]
fn dispatch_returns_where_the_names_stand() {
    let mut guest = guest_named(64, "API NAME", "0.1.0");
    assert_eq!(guest.dispatch("API_NAME", &[]), Ok(Some(0)));
    assert_eq!(guest.dispatch("API_VERSION", &[]), Ok(Some(9)));
    assert_eq!(guest.dispatch("PLUGIN_NAME", &[]), Ok(Some(15)));
    assert_eq!(guest.dispatch("PLUGIN_NAME", &[0]), Err(CallError::Trap));
    assert_eq!(metadata_text(guest.data(), 0), "API NAME");
    assert_eq!(metadata_text(guest.data(), 9), "0.1.0");
    assert_eq!(metadata_text(guest.data(), 15), "PLUGIN 1");
}

#[test]
fn dispatch_runs_a_function_through_its_wrapper() {
    let mut guest = guest_named(128, "API NAME", "0.1.0");
    assert_eq!(guest.dispatch("reset", &[]), Ok(None));
    assert_eq!(guest.dispatch("reset", &[1]), Err(CallError::Trap));
    assert_eq!(guest.dispatch("a", &[24]), Err(CallError::Trap));
    assert_eq!(guest.dispatch("silent", &[]), Err(CallError::Trap));
    assert_eq!(guest.dispatch("nothing", &[]), Err(CallError::MissingExport));
    assert_eq!(guest.implementation().runs, 2);
    assert_eq!(guest.live_count(), 3);
}

#[test]
fn host_into_abi_asks_for_payload_and_header() {
    let mut host = Host::new(Loopback::new(64));
    assert_eq!(into_abi(&mut host, &[1, 2, 3]), Ok(24));
    let loader = host.into_loader();
    assert_eq!(loader.allocations, 1);
    assert_eq!(loader.guest.live_count(), 4);
    assert_eq!(&loader.guest.data()[24..31], &[3, 0, 0, 0, 1, 2, 3]);
}

#[test]
fn host_into_abi_reports_a_guest_that_cannot_allocate() {
    let mut host = Host::new(Loopback::new(6));
    assert_eq!(into_abi(&mut host, &[1, 2, 3]), Err(AbiError::Call(CallError::Trap)));
    assert_eq!(host.loader().allocations, 1);
    assert_eq!(host.loader().guest.live_count(), 3);
}

#[test]
fn host_into_abi_reports_a_pointer_outside_memory() {
    let mut memory = Scripted { memory: vec![0; 8], exports: Vec::new() };
    memory.exports.push(("unused", Ok(None)));
    struct Liar(Scripted);
    impl PluginLoader for Liar {
        fn allocate_buffer(&mut self, _size: u32) -> Result<u32, CallError> {
            Ok(6)
        }
        fn free_buffer(&mut self, ptr: u32, size: u32) -> Result<(), CallError> {
            self.0.free_buffer(ptr, size)
        }
        fn memory(&mut self) -> &mut [u8] {
            self.0.memory()
        }
        fn invoke(&mut self, name: &str, arguments: &[u32]) -> Result<Option<u32>, CallError> {
            self.0.invoke(name, arguments)
        }
    }
    let mut host = Host::new(Liar(memory));
    assert_eq!(into_abi(&mut host, &[1]), Err(AbiError::OutOfBounds));
    assert_eq!(host.into_loader().0.memory, vec![0; 8]);
}

#[test]
fn host_from_abi_reads_then_frees() {
    let mut host = Host::new(Loopback::new(64));
    let ptr = into_abi(&mut host, b"payload").unwrap();
    assert_eq!(from_abi(&mut host, ptr), Ok(b"payload".to_vec()));
    let loader = host.into_loader();
    assert_eq!(loader.releases, 1);
    assert_eq!(loader.guest.live_count(), 3);
}

#[test]
fn host_from_abi_frees_nothing_it_could_not_read() {
    let mut host = Host::new(Loopback::new(8));
    assert_eq!(from_abi(&mut host, 30), Err(AbiError::OutOfBounds));
    assert_eq!(from_abi(&mut host, 100), Err(AbiError::OutOfBounds));
    assert_eq!(host.loader().releases, 0);
}

#[test]
fn host_from_abi_reports_a_failed_release() {
    let mut loader = Loopback::new(64);
    loader.trap_on_free = true;
    let mut host = Host::new(loader);
    let ptr = into_abi(&mut host, b"x").unwrap();
    assert_eq!(from_abi(&mut host, ptr), Err(AbiError::Call(CallError::Trap)));
    assert_eq!(host.loader().releases, 1);
}

#[test]
fn host_reads_and_writes_without_asking_the_guest() {
    let mut host = Host::new(Loopback::new(16));
    assert_eq!(host.write(26, &[9, 9]), Ok(()));
    assert_eq!(host.read(26), Ok(vec![9, 9]));
    assert_eq!(host.write(36, &[9]), Err(AbiError::OutOfBounds));
    assert_eq!(host.read(38), Err(AbiError::OutOfBounds));
    assert_eq!(host.metadata(9), "0.1.0");
    assert_eq!(host.loader().allocations, 0);
    assert_eq!(host.loader().releases, 0);
}

#[test]
fn host_handles_pass_requests_through() {
    let mut host = Host::new(Loopback::new(16));
    assert_eq!(host.allocate_buffer(4), Ok(24));
    assert_eq!(host.allocate_buffer(13), Err(CallError::Trap));
    assert_eq!(host.free_buffer(24, 3), Err(CallError::Trap));
    assert_eq!(host.free_buffer(24, 4), Ok(()));
    assert_eq!(host.invoke("reset", &[]), Ok(None));
    assert_eq!(host.invoke("nothing", &[]), Err(CallError::MissingExport));
}

#[test]
fn send_arguments_returns_one_pointer_each() {
    let mut host = Host::new(Loopback::new(64));
    let pointers = send_arguments(&mut host, &vec![vec![1], vec![], vec![2, 3]]).unwrap();
    assert_eq!(pointers, vec![24, 29, 33]);
    assert_eq!(host.loader().allocations, 3);
    assert_eq!(send_arguments(&mut host, &vec![]), Ok(vec![]));
    assert_eq!(host.loader().allocations, 3);
}

#[test]
fn send_arguments_stops_at_the_first_failure() {
    let mut host = Host::new(Loopback::new(12));
    let sent = send_arguments(&mut host, &vec![vec![1, 2], vec![3, 4, 5], vec![6]]);
    assert_eq!(sent, Err(AbiError::Call(CallError::Trap)));
    assert_eq!(host.loader().allocations, 2);
}

#[test]
fn receive_result_ignores_what_an_export_without_result_returned() {
    let mut host = Host::new(Loopback::new(16));
    let reset = signature("reset", &[], None);
    assert_eq!(receive_result(&mut host, &reset, Some(3)), Ok(None));
    assert_eq!(receive_result(&mut host, &reset, None), Ok(None));
    assert_eq!(host.loader().releases, 0);
}

#[test]
fn receive_result_needs_a_pointer_where_a_result_is_declared() {
    let mut host = Host::new(Loopback::new(16));
    let a = signature("a", &["A"], Some("B"));
    assert_eq!(receive_result(&mut host, &a, None), Err(AbiError::MissingResult));
    assert_eq!(receive_result(&mut host, &a, Some(38)), Err(AbiError::OutOfBounds));
    let ptr = into_abi(&mut host, b"r").unwrap();
    assert_eq!(receive_result(&mut host, &a, Some(ptr)), Ok(Some(b"r".to_vec())));
}

#[test]
fn call_without_values_allocates_and_decodes_nothing() {
    let mut host = Host::new(Loopback::new(64));
    let before = host.loader().guest.data().to_vec();
    assert_eq!(call(&mut host, &signature("reset", &[], None), &vec![]), Ok(None));
    let loader = host.into_loader();
    assert_eq!(loader.allocations, 0);
    assert_eq!(loader.releases, 0);
    assert_eq!(loader.guest.implementation().runs, 1);
    assert_eq!(loader.guest.live_count(), 3);
    assert_eq!(loader.guest.data(), &before[..]);
}

#[test]
fn call_with_one_value_each_way_allocates_twice_and_frees_the_result() {
    let config = CodecConfig::default();
    let mut host = Host::new(Loopback::new(128));
    let argument = A { test: "Ada".to_string(), test2: 36 }.into_bytes(&config).unwrap();
    let result = call(&mut host, &signature("a", &["A"], Some("B")), &vec![argument]).unwrap();
    assert!(result.is_some());
    let loader = host.into_loader();
    // one buffer that the host asked for, one release that the host asked for
    assert_eq!(loader.allocations, 1);
    assert_eq!(loader.releases, 1);
    // the guest released the argument and reserved the result itself
    assert_eq!(loader.guest.live_count(), 3);
}

#[test]
fn person_is_greeted() {
    let config = CodecConfig::default();
    let mut host = Host::new(Loopback::new(256));
    let person = A { test: "Ada".to_string(), test2: 36 };
    let argument = person.clone().into_bytes(&config).unwrap();
    let result = call(&mut host, &signature("a", &["A"], Some("B")), &vec![argument])
        .unwrap()
        .unwrap();
    let greeting = B::from_bytes(&result, &config).unwrap();
    assert_eq!(greeting, B { test: "Hello, Ada".to_string(), test2: "36".to_string() });
    let loader = host.into_loader();
    assert_eq!(loader.guest.implementation().seen, vec![person]);
}

#[test]
fn two_calls_in_a_row_do_not_disturb_each_other() {
    let config = CodecConfig::default();
    let mut host = Host::new(Loopback::new(256));
    let a = signature("a", &["A"], Some("B"));
    let first = A { test: "a rather long first name".to_string(), test2: 1 };
    let second = A { test: "Bo".to_string(), test2: u64::MAX };
    let result = call(&mut host, &a, &vec![first.into_bytes(&config).unwrap()]).unwrap().unwrap();
    assert_eq!(
        B::from_bytes(&result, &config),
        Ok(B { test: "Hello, a rather long first name".to_string(), test2: "1".to_string() })
    );
    // the second argument lands where the first result was, and is read as written
    let result = call(&mut host, &a, &vec![second.clone().into_bytes(&config).unwrap()])
        .unwrap()
        .unwrap();
    assert_eq!(
        B::from_bytes(&result, &config),
        Ok(B { test: "Hello, Bo".to_string(), test2: u64::MAX.to_string() })
    );
    let loader = host.into_loader();
    assert_eq!(loader.guest.implementation().seen[1], second);
    assert_eq!(loader.guest.live_count(), 3);
    assert_eq!(&loader.guest.data()[..24], b"API NAME\x000.1.0\0PLUGIN 1\0");
}

#[test]
fn call_with_two_arguments_sends_them_in_order() {
    let mut host = Host::new(Loopback::new(64));
    let join = signature("join", &["A", "A"], Some("A"));
    assert_eq!(call(&mut host, &join, &vec![vec![1, 2], vec![3]]), Ok(Some(vec![1, 2, 3])));
    assert_eq!(host.loader().allocations, 2);
    assert_eq!(host.loader().releases, 1);
}

#[test]
fn call_with_wrong_arity_asks_nothing_of_the_guest() {
    let mut host = Host::new(Loopback::new(64));
    let a = signature("a", &["A"], Some("B"));
    assert_eq!(call(&mut host, &a, &vec![]), Err(AbiError::ArityMismatch));
    assert_eq!(call(&mut host, &a, &vec![vec![], vec![]]), Err(AbiError::ArityMismatch));
    assert_eq!(host.loader().allocations, 0);
    assert_eq!(host.loader().guest.implementation().runs, 0);
}

#[test]
fn failed_call_leaves_the_guest_usable() {
    let mut host = Host::new(Loopback::new(64));
    let missing = signature("nothing", &[], None);
    assert_eq!(call(&mut host, &missing, &vec![]), Err(AbiError::Call(CallError::MissingExport)));
    // the guest's wrapper fails where the implementation gives no result
    let silent = signature("silent", &[], Some("B"));
    assert_eq!(call(&mut host, &silent, &vec![]), Err(AbiError::Call(CallError::Trap)));
    assert_eq!(call(&mut host, &signature("reset", &[], None), &vec![]), Ok(None));
}

#[test]
fn export_without_result_that_is_expected_to_have_one() {
    let mut host = Host::new(Loopback::new(64));
    // the host believes `reset` returns a value; the guest returns nothing
    let reset = signature("reset", &[], Some("B"));
    assert_eq!(call(&mut host, &reset, &vec![]), Err(AbiError::MissingResult));
}

#[test]
fn wrapper_takes_arguments_and_releases_their_buffers() {
    let mut memory = GuestMemory::new(64);
    let first = guest_into_abi(&mut memory, &[1, 2]).unwrap();
    let second = guest_into_abi(&mut memory, &[]).unwrap();
    assert_eq!(receive_arguments(&mut memory, &[first, second]), Ok(vec![vec![1, 2], vec![]]));
    assert_eq!(memory.live_count(), 0);
    assert_eq!(receive_arguments(&mut memory, &[]), Ok(vec![]));
}

#[test]
fn wrapper_stops_at_a_pointer_to_no_buffer() {
    let mut memory = GuestMemory::new(64);
    let first = guest_into_abi(&mut memory, &[1]).unwrap();
    let second = guest_into_abi(&mut memory, &[2]).unwrap();
    assert_eq!(receive_arguments(&mut memory, &[first, 60, second]), Err(AbiError::OutOfBounds));
    assert!(!memory.is_allocated(first, 5));
    assert!(memory.is_allocated(second, 5));
}

#[test]
fn wrapper_hands_a_result_over_in_a_buffer_of_its_own() {
    let mut memory = GuestMemory::new(64);
    let a = signature("a", &["A"], Some("B"));
    assert_eq!(return_result(&mut memory, &a, Some(vec![7, 7])), Ok(Some(0)));
    assert_eq!(&memory.data()[..6], &[2, 0, 0, 0, 7, 7]);
    assert!(memory.is_allocated(0, 6));
    assert_eq!(return_result(&mut memory, &a, None), Err(AbiError::MissingResult));
    let reset = signature("reset", &[], None);
    assert_eq!(return_result(&mut memory, &reset, Some(vec![1])), Ok(None));
    assert_eq!(return_result(&mut memory, &reset, None), Ok(None));
    assert_eq!(memory.live_count(), 1);
    let mut small = GuestMemory::new(5);
    assert_eq!(return_result(&mut small, &a, Some(vec![7, 7])), Err(AbiError::OutOfMemory));
}

#[test]
fn export_wrapper_runs_the_implementation_once() {
    let mut memory = GuestMemory::new(64);
    let mut plugin = Greeter { seen: Vec::new(), runs: 0 };
    let join = signature("join", &["A", "A"], Some("A"));
    let first = guest_into_abi(&mut memory, &[1]).unwrap();
    let second = guest_into_abi(&mut memory, &[2, 3]).unwrap();
    let ptr = export_wrapper(&mut memory, &mut plugin, &join, &[first, second]).unwrap().unwrap();
    assert_eq!(plugin.runs, 1);
    assert_eq!(memory.live_count(), 1);
    assert!(memory.is_allocated(ptr, 7));
    assert_eq!(read_buffer(memory.data(), ptr), Ok(vec![1, 2, 3]));
    assert_eq!(export_wrapper(&mut memory, &mut plugin, &join, &[first]), Err(AbiError::ArityMismatch));
    assert_eq!(plugin.runs, 1);
}

#[test]
fn matching_identity_is_loaded() {
    let mut host = Host::new(Loopback::new(0));
    assert_eq!(
        negotiate(&mut host, &expected()),
        Negotiation::Loaded { plugin_name: "PLUGIN 1".to_string() }
    );
}

#[test]
fn single_character_mismatch_is_incompatible() {
    for (name, version) in [
        ("API NAMe", "0.1.0"),
        ("API NAME", "0.1.1"),
        ("aPI NAME", "0.1.0"),
        ("API NAME ", "0.1.0"),
        ("API NAME", "0.1."),
        ("", ""),
    ] {
        let loader = Loopback {
            guest: guest_named(64, name, version),
            allocations: 0,
            releases: 0,
            trap_on_free: false,
        };
        let mut host = Host::new(loader);
        assert_eq!(
            negotiate(&mut host, &expected()),
            Negotiation::Rejected(Rejection::IncompatibleApi)
        );
    }
}

#[test]
fn missing_metadata_export_is_rejected() {
    let all = ["API_NAME", "API_VERSION", "PLUGIN_NAME"];
    let mut host = Host::new(scripted(&all));
    assert_eq!(
        negotiate(&mut host, &expected()),
        Negotiation::Loaded { plugin_name: "PLUGIN 1".to_string() }
    );
    for missing in all {
        let present: Vec<&'static str> = all.iter().copied().filter(|n| *n != missing).collect();
        let mut host = Host::new(scripted(&present));
        assert_eq!(
            negotiate(&mut host, &expected()),
            Negotiation::Rejected(Rejection::MissingExport)
        );
    }
    let mut host = Host::new(scripted(&[]));
    assert_eq!(negotiate(&mut host, &expected()), Negotiation::Rejected(Rejection::MissingExport));
}

#[test]
fn missing_export_wins_over_a_mismatch_before_it() {
    let mut guest = scripted(&["API_NAME", "API_VERSION"]);
    guest.memory[0] = b'X';
    let mut host = Host::new(guest);
    assert_eq!(negotiate(&mut host, &expected()), Negotiation::Rejected(Rejection::MissingExport));
}

#[test]
fn metadata_export_that_fails_is_unreadable() {
    let mut guest = scripted(&["API_NAME", "API_VERSION"]);
    guest.exports.push(("PLUGIN_NAME", Err(CallError::Trap)));
    let mut host = Host::new(guest);
    assert_eq!(negotiate(&mut host, &expected()), Negotiation::Rejected(Rejection::Unreadable));
    let mut guest = scripted(&["API_VERSION", "PLUGIN_NAME"]);
    guest.exports.push(("API_NAME", Ok(None)));
    let mut host = Host::new(guest);
    assert_eq!(negotiate(&mut host, &expected()), Negotiation::Rejected(Rejection::Unreadable));
}

#[test]
fn fetch_reads_the_string_an_export_points_to() {
    let mut host = Host::new(Loopback::new(64));
    assert_eq!(fetch(&mut host, "API_VERSION"), Ok("0.1.0".to_string()));
    assert_eq!(fetch(&mut host, "NOT_THERE"), Err(Rejection::MissingExport));
    // an export that is there but returns no offset
    assert_eq!(fetch(&mut host, "reset"), Err(Rejection::Unreadable));
    // an export that traps
    assert_eq!(fetch(&mut host, "silent"), Err(Rejection::Unreadable));
}

#[test]
fn interpret_tells_the_outcomes_apart() {
    assert_eq!(interpret(Ok(Some(12))), Ok(12));
    assert_eq!(interpret(Ok(None)), Err(Rejection::Unreadable));
    assert_eq!(interpret(Err(CallError::Trap)), Err(Rejection::Unreadable));
    assert_eq!(interpret(Err(CallError::MissingExport)), Err(Rejection::MissingExport));
}

#[test]
fn metadata_text_replaces_what_is_not_utf8() {
    assert_eq!(metadata_text(b"ab\0cd", 0), "ab");
    assert_eq!(metadata_text(b"ab\0cd", 3), "cd");
    assert_eq!(metadata_text(&[b'a', 0xff, b'b', 0], 0), "a\u{fffd}b");
    assert_eq!(metadata_text("é\0".as_bytes(), 0), "é");
    assert_eq!(metadata_text(b"", 0), "");
}

#[test]
fn evaluate_compares_both_strings_exactly() {
    let descriptor = |name: &str, version: &str| PluginDescriptor {
        api_name: name.to_string(),
        api_version: version.to_string(),
        plugin_name: "p".to_string(),
    };
    assert_eq!(
        evaluate(&expected(), descriptor("API NAME", "0.1.0")),
        Negotiation::Loaded { plugin_name: "p".to_string() }
    );
    assert_eq!(
        evaluate(&expected(), descriptor("API NAME", "0.1.00")),
        Negotiation::Rejected(Rejection::IncompatibleApi)
    );
    assert_eq!(
        evaluate(&expected(), descriptor("api name", "0.1.0")),
        Negotiation::Rejected(Rejection::IncompatibleApi)
    );
    assert_eq!(
        evaluate(&expected(), descriptor("0.1.0", "API NAME")),
        Negotiation::Rejected(Rejection::IncompatibleApi)
    );
}

#[test]
fn negotiation_turns_into_a_result() {
    assert_eq!(
        Negotiation::Loaded { plugin_name: "p".to_string() }.into_result(),
        Ok("p".to_string())
    );
    assert_eq!(
        Negotiation::Rejected(Rejection::MissingExport).into_result(),
        Err(LoadError::Rejected(Rejection::MissingExport))
    );
    assert_eq!(
        Negotiation::Rejected(Rejection::IncompatibleApi).into_result(),
        Err(LoadError::Rejected(Rejection::IncompatibleApi))
    );
    assert_ne!(LoadError::CompileError, LoadError::InstantiateError);
}

#[test]
fn name_ends_at_the_first_zero_byte() {
    let guest = Scripted {
        memory: b"API NAME\x000.1.0\0PLUGIN 1\0xyz".to_vec(),
        exports: vec![
            ("API_NAME", Ok(Some(0))),
            ("API_VERSION", Ok(Some(9))),
            ("PLUGIN_NAME", Ok(Some(15))),
        ],
    };
    let mut host = Host::new(guest);
    assert_eq!(
        negotiate(&mut host, &expected()),
        Negotiation::Loaded { plugin_name: "PLUGIN 1".to_string() }
    );
}

#[test]
fn call_fails_with_the_error_of_the_guest() {
    let mut guest = scripted(&[]);
    guest.exports.push(("f", Err(CallError::Trap)));
    let mut host = Host::new(guest);
    let f = signature("f", &[], None);
    assert_eq!(call(&mut host, &f, &vec![]), Err(AbiError::Call(CallError::Trap)));
    let g = signature("g", &[], Some("B"));
    assert_eq!(call(&mut host, &g, &vec![]), Err(AbiError::Call(CallError::MissingExport)));
    // a refused allocation ends the call before the export runs
    let h = signature("f", &["A"], None);
    assert_eq!(call(&mut host, &h, &vec![vec![1]]), Err(AbiError::Call(CallError::MissingExport)));
}
