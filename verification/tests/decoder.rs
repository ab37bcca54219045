use wasm_linker::wasm::{Module, ModuleType, RawFuncType, WasmError};

const HEADER: [u8; 8] = [0x00, 0x61, 0x73, 0x6d, 0x01, 0x00, 0x00, 0x00];

fn module(sections: &[(u8, Vec<u8>)]) -> Vec<u8> {
    let mut bytes = HEADER.to_vec();
    for (id, payload) in sections {
        bytes.push(*id);
        assert!(payload.len() < 128, "test sections stay below one LEB byte");
        bytes.push(payload.len() as u8);
        bytes.extend_from_slice(payload);
    }
    bytes
}

#[test]
fn decodes_imports_exports_and_types() {
    let bytes = module(&[
        // one function type: (i32, i64) -> i32
        (1, vec![0x01, 0x60, 0x02, 0x7f, 0x7e, 0x01, 0x7f]),
        // import "env"."log" as function with type 0, and "env"."mem" as memory
        (
            2,
            vec![
                0x02, 0x03, b'e', b'n', b'v', 0x03, b'l', b'o', b'g', 0x00, 0x00, 0x03, b'e',
                b'n', b'v', 0x03, b'm', b'e', b'm', 0x02, 0x00, 0x01,
            ],
        ),
        // one local function of type 0
        (3, vec![0x01, 0x00]),
        // export "run" (function index 1) and "zero" (function index 0)
        (
            7,
            vec![
                0x02, 0x03, b'r', b'u', b'n', 0x00, 0x01, 0x04, b'z', b'e', b'r', b'o', 0x00,
                0x00,
            ],
        ),
    ]);
    let m = Module::new(&bytes).unwrap();

    assert_eq!(m.imports.len(), 2);
    assert_eq!(m.imports[0].namespace, "env");
    assert_eq!(m.imports[0].name, Some("log".to_string()));
    assert_eq!(
        m.imports[0].ty,
        ModuleType::Func(vec![ModuleType::I32, ModuleType::I64], Box::new(ModuleType::I32))
    );
    assert_eq!(m.imports[1].name, Some("mem".to_string()));
    assert_eq!(m.imports[1].ty, ModuleType::Memory);

    assert_eq!(m.exports.len(), 2);
    // the type of an exported function sits at its function index minus
    // one: function indices are offset by the imported functions
    assert_eq!(m.exports[0].name, "run");
    assert_eq!(
        m.exports[0].ty,
        ModuleType::Func(vec![ModuleType::I32, ModuleType::I64], Box::new(ModuleType::I32))
    );
    assert_eq!(m.exports[1].name, "zero");
    assert_eq!(m.exports[1].ty, ModuleType::Unknown);
}

#[test]
fn missing_type_section_yields_unknown_function_types() {
    let bytes = module(&[
        // a function import declaring type index 0, but no type section
        (2, vec![0x01, 0x03, b'e', b'n', b'v', 0x03, b'l', b'o', b'g', 0x00, 0x00]),
        // a function export with index 1, likewise untypable
        (7, vec![0x01, 0x03, b'r', b'u', b'n', 0x00, 0x01]),
    ]);
    let m = Module::new(&bytes).unwrap();
    assert_eq!(m.imports.len(), 1);
    assert_eq!(m.imports[0].ty, ModuleType::Unknown);
    assert_eq!(m.exports.len(), 1);
    assert_eq!(m.exports[0].ty, ModuleType::Unknown);
}

#[test]
fn bad_header_is_fatal() {
    assert_eq!(Module::new(b"hello"), Err(WasmError::BadHeader));
    let wrong_version = [0x00, 0x61, 0x73, 0x6d, 0x02, 0x00, 0x00, 0x00];
    assert_eq!(Module::new(&wrong_version), Err(WasmError::BadHeader));
}

#[test]
fn empty_module_decodes_to_nothing() {
    let m = Module::new(&HEADER).unwrap();
    assert!(m.imports.is_empty());
    assert!(m.exports.is_empty());
}

#[test]
fn unknown_sections_are_skipped() {
    let bytes = module(&[
        (0, vec![0x01, 0x02, 0x03]), // custom section
        (11, vec![0xff, 0xee]),      // data section, not decoded
    ]);
    let m = Module::new(&bytes).unwrap();
    assert!(m.imports.is_empty());
    assert!(m.exports.is_empty());
}

#[test]
fn truncated_section_is_fatal() {
    let mut bytes = HEADER.to_vec();
    bytes.push(0x01);
    bytes.push(0x10); // claims sixteen payload bytes, none follow
    assert_eq!(Module::new(&bytes), Err(WasmError::TruncatedSection));
}

#[test]
fn multibyte_names_are_decoded() {
    // namespace "café" (five UTF-8 bytes), importing a memory
    let bytes = module(&[
        (
            2,
            vec![0x01, 0x05, 0x63, 0x61, 0x66, 0xc3, 0xa9, 0x01, b'x', 0x02, 0x00, 0x00],
        ),
    ]);
    let m = Module::new(&bytes).unwrap();
    assert_eq!(m.imports[0].namespace, "caf\u{e9}");
    assert_eq!(m.imports[0].name, Some("x".to_string()));
}

#[test]
fn invalid_utf8_name_is_fatal() {
    let bytes = module(&[(2, vec![0x01, 0x01, 0xff, 0x01, b'x', 0x02, 0x00, 0x00])]);
    assert_eq!(Module::new(&bytes), Err(WasmError::BadName));
}

#[test]
fn multibyte_section_sizes_are_decoded() {
    // a custom section whose 200-byte payload needs a two-byte LEB128
    // size (0xc8 0x01), followed by a decoded import section
    let mut bytes = HEADER.to_vec();
    bytes.push(0x00);
    bytes.push(0xc8);
    bytes.push(0x01);
    bytes.extend(std::iter::repeat(0xaa).take(200));
    bytes.push(0x02);
    let import = vec![0x01, 0x03, b'e', b'n', b'v', 0x03, b'l', b'o', b'g', 0x02, 0x00, 0x00];
    bytes.push(import.len() as u8);
    bytes.extend_from_slice(&import);
    let m = Module::new(&bytes).unwrap();
    assert_eq!(m.imports.len(), 1);
    assert_eq!(m.imports[0].name, Some("log".to_string()));
    assert_eq!(m.imports[0].ty, ModuleType::Memory);
}

#[test]
fn valtype_bytes_map_to_internal_types() {
    assert_eq!(ModuleType::from_valtype(0x7f), ModuleType::I32);
    assert_eq!(ModuleType::from_valtype(0x7e), ModuleType::I64);
    assert_eq!(ModuleType::from_valtype(0x7d), ModuleType::F32);
    assert_eq!(ModuleType::from_valtype(0x7c), ModuleType::F64);
    assert_eq!(ModuleType::from_valtype(0x7b), ModuleType::V128);
    assert_eq!(ModuleType::from_valtype(0x42), ModuleType::Unknown);
}

#[test]
fn functype_takes_first_result_or_void() {
    let no_result = RawFuncType { params: vec![0x7f], results: vec![] };
    assert_eq!(
        ModuleType::from_functype(&no_result),
        ModuleType::Func(vec![ModuleType::I32], Box::new(ModuleType::Void))
    );
    let with_result = RawFuncType { params: vec![], results: vec![0x7e] };
    assert_eq!(
        ModuleType::from_functype(&with_result),
        ModuleType::Func(vec![], Box::new(ModuleType::I64))
    );
}

#[test]
fn typescript_renders_leaf_types() {
    assert_eq!(ModuleType::Memory.as_typescript(), "WebAssembly.Memory");
    assert_eq!(ModuleType::Table.as_typescript(), "WebAssembly.Table");
    assert_eq!(ModuleType::I32.as_typescript(), "number");
    assert_eq!(ModuleType::F64.as_typescript(), "number");
    assert_eq!(ModuleType::Void.as_typescript(), "void");
    assert_eq!(ModuleType::Unknown.as_typescript(), "unknown");
}

#[test]
fn typescript_renders_function_types_with_numbered_arguments() {
    let f = ModuleType::Func(
        vec![ModuleType::I32, ModuleType::F32],
        Box::new(ModuleType::I64),
    );
    assert_eq!(f.as_typescript(), "(arg1: number, arg2: number) => number");
    let nullary = ModuleType::Func(vec![], Box::new(ModuleType::Void));
    assert_eq!(nullary.as_typescript(), "() => void");
}

#[test]
fn typescript_argument_numbering_reaches_two_digits() {
    let params = (0..11).map(|_| ModuleType::I32).collect();
    let f = ModuleType::Func(params, Box::new(ModuleType::Void));
    let got = f.as_typescript();
    assert!(got.starts_with("(arg1: number, arg2: number"));
    assert!(got.contains("arg10: number, arg11: number) => void"));
}
