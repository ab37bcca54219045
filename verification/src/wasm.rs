//! The typed shape of a decoded WebAssembly module: its imports and
//! exports, and the small internal type language they are described in,
//! together with the structural decoder that reads both from the binary
//! section format.

use vstd::prelude::*;
use vstd::string::*;
use vstd::utf8::{decode_utf8, valid_utf8};

verus! {

broadcast use vstd::std_specs::vec::group_vec_axioms;

/// A malformed binary: the module cannot be decoded.  Unknown section
/// kinds are tolerated and skipped; these errors are about framing.
#[derive(Debug, Clone, Copy, PartialEq, Eq, Structural)]
pub enum WasmError {
    /// The magic number or version header is missing or wrong.
    BadHeader,
    /// A section or an entry runs past the bytes that frame it.
    TruncatedSection,
    /// A variable-length integer is malformed or exceeds 32 bits.
    BadInteger,
    /// A name is not valid UTF-8.
    BadName,
    /// An entry of a decoded section has an unknown form.
    BadEntry,
}

/// Internal representation of a WebAssembly entity type.  Function types
/// carry their parameter types and a single return type; a module whose
/// type information cannot be resolved is tolerated and yields `Unknown`.
#[derive(Debug, PartialEq, Eq)]
pub enum ModuleType {
    Func(Vec<ModuleType>, Box<ModuleType>),
    I32,
    I64,
    F32,
    F64,
    V128,
    Memory,
    Table,
    Void,
    Unknown,
}

/// One required import of the module: the namespace (the module name the
/// import is grouped under), the field name, and the imported entity's type.
/// An import with no field name is structurally present but unaddressable.
#[derive(Debug, PartialEq, Eq)]
pub struct ModuleImport {
    pub namespace: String,
    pub name: Option<String>,
    pub ty: ModuleType,
}

/// One export of the module, used only for typings generation.
#[derive(Debug, PartialEq, Eq)]
pub struct ModuleExport {
    pub name: String,
    pub ty: ModuleType,
}

/// A decoded WebAssembly module, reduced to what linking needs.
#[derive(Debug, PartialEq, Eq)]
pub struct Module {
    pub imports: Vec<ModuleImport>,
    pub exports: Vec<ModuleExport>,
}

/// The type denoted by one value-type byte of the binary format.  Bytes
/// this linker does not understand map to `Unknown` rather than failing.
pub open spec fn valtype_spec(b: u8) -> ModuleType {
    if b == 0x7f {
        ModuleType::I32
    } else if b == 0x7e {
        ModuleType::I64
    } else if b == 0x7d {
        ModuleType::F32
    } else if b == 0x7c {
        ModuleType::F64
    } else if b == 0x7b {
        ModuleType::V128
    } else {
        ModuleType::Unknown
    }
}

/// The return type of a function type with the given result bytes: the
/// first result if there is one, `Void` otherwise.
pub open spec fn return_type_spec(results: Seq<u8>) -> ModuleType {
    if results.len() == 0 {
        ModuleType::Void
    } else {
        valtype_spec(results[0])
    }
}

/// Holds iff `t` is the function type built from the given raw parameter
/// and result bytes of a type-section entry.
pub open spec fn is_func_type_of(t: ModuleType, params: Seq<u8>, results: Seq<u8>) -> bool {
    match t {
        ModuleType::Func(ps, ret) => {
            &&& ps@.len() == params.len()
            &&& (forall|i: int| 0 <= i < params.len() ==> ps@[i] == valtype_spec(params[i]))
            &&& *ret == return_type_spec(results)
        },
        _ => false,
    }
}

/// One function type of the module's type section, still as raw
/// value-type bytes.
#[derive(Debug, PartialEq, Eq)]
pub struct RawFuncType {
    pub params: Vec<u8>,
    pub results: Vec<u8>,
}

impl ModuleType {
    /// Decodes one value-type byte.
    pub fn from_valtype(b: u8) -> (r: ModuleType)
        ensures
            r == valtype_spec(b),
    {
        if b == 0x7f {
            ModuleType::I32
        } else if b == 0x7e {
            ModuleType::I64
        } else if b == 0x7d {
            ModuleType::F32
        } else if b == 0x7c {
            ModuleType::F64
        } else if b == 0x7b {
            ModuleType::V128
        } else {
            ModuleType::Unknown
        }
    }

    /// Builds the internal function type for one type-section entry.
    pub fn from_functype(ft: &RawFuncType) -> (r: ModuleType)
        ensures
            is_func_type_of(r, ft.params@, ft.results@),
    {
        let mut ps: Vec<ModuleType> = Vec::new();
        let mut i: usize = 0;
        while i < ft.params.len()
            invariant
                i <= ft.params@.len(),
                ps@.len() == i,
                forall|j: int| 0 <= j < i ==> ps@[j] == valtype_spec(ft.params@[j]),
            decreases ft.params@.len() - i,
        {
            ps.push(ModuleType::from_valtype(ft.params[i]));
            i = i + 1;
        }
        let ret = if ft.results.len() == 0 {
            ModuleType::Void
        } else {
            ModuleType::from_valtype(ft.results[0])
        };
        ModuleType::Func(ps, Box::new(ret))
    }

    /// Renders this type as its TypeScript annotation, for the optional
    /// typings artifact.
    #[verifier::loop_isolation(false)]
    #[verifier::rlimit(60)]
    pub fn as_typescript(&self) -> (r: String)
        ensures
            r@ == typescript_spec(*self),
        decreases self,
    {
        match self {
            ModuleType::Memory => String::from_str("WebAssembly.Memory"),
            ModuleType::Table => String::from_str("WebAssembly.Table"),
            ModuleType::I32 => String::from_str("number"),
            ModuleType::I64 => String::from_str("number"),
            ModuleType::F32 => String::from_str("number"),
            ModuleType::F64 => String::from_str("number"),
            ModuleType::V128 => String::from_str("number"),
            ModuleType::Void => String::from_str("void"),
            ModuleType::Unknown => String::from_str("unknown"),
            ModuleType::Func(args, ret) => {
                let mut out = String::from_str("(");
                proof {
                    assert(args@.skip(0) =~= args@);
                }
                let mut i: usize = 0;
                while i < args.len()
                    invariant
                        0 <= i <= args@.len(),
                        out@ + args_typescript(args@.skip(i as int), (i + 1) as nat) == "("@
                            + args_typescript(args@, 1),
                    decreases args@.len() - i,
                {
                    proof {
                        assert(args@.skip(i as int)[0] == args@[i as int]);
                        assert(args@.skip(i as int).drop_first() =~= args@.skip(i + 1));
                    }
                    out.append("arg");
                    let num = dec_of(i + 1);
                    out.append(num.as_str());
                    out.append(": ");
                    let arg_ts = args[i].as_typescript();
                    out.append(arg_ts.as_str());
                    if i + 1 < args.len() {
                        out.append(", ");
                        proof {
                            assert(out@ + args_typescript(args@.skip(i + 1), (i + 2) as nat)
                                =~= "("@ + args_typescript(args@, 1));
                        }
                    } else {
                        proof {
                            assert(args_typescript(args@.skip(i + 1), (i + 2) as nat)
                                =~= Seq::<char>::empty());
                            assert(out@ + args_typescript(args@.skip(i + 1), (i + 2) as nat)
                                =~= "("@ + args_typescript(args@, 1));
                        }
                    }
                    i = i + 1;
                }
                proof {
                    assert(args_typescript(args@.skip(i as int), (i + 1) as nat) =~= Seq::<
                        char,
                    >::empty());
                    assert(out@ =~= "("@ + args_typescript(args@, 1));
                }
                out.append(") => ");
                let ret_ts = ret.as_typescript();
                out.append(ret_ts.as_str());
                proof {
                    assert(out@ =~= typescript_spec(*self));
                }
                out
            },
        }
    }
}

/// The character of one decimal digit.
pub open spec fn digit_char(n: nat) -> char {
    if n == 0 {
        '0'
    } else if n == 1 {
        '1'
    } else if n == 2 {
        '2'
    } else if n == 3 {
        '3'
    } else if n == 4 {
        '4'
    } else if n == 5 {
        '5'
    } else if n == 6 {
        '6'
    } else if n == 7 {
        '7'
    } else if n == 8 {
        '8'
    } else {
        '9'
    }
}

/// The decimal rendering of `n`, most significant digit first.
pub open spec fn dec_str(n: nat) -> Seq<char>
    decreases n,
{
    if n < 10 {
        seq![digit_char(n)]
    } else {
        dec_str(n / 10).push(digit_char(n % 10))
    }
}

/// The TypeScript annotation of one module type: the numeric value
/// types render as `number`, a function type as an arrow type with
/// numbered arguments, and an unresolved type as `unknown`.
pub open spec fn typescript_spec(t: ModuleType) -> Seq<char>
    decreases t,
{
    match t {
        ModuleType::Memory => "WebAssembly.Memory"@,
        ModuleType::Table => "WebAssembly.Table"@,
        ModuleType::I32 => "number"@,
        ModuleType::I64 => "number"@,
        ModuleType::F32 => "number"@,
        ModuleType::F64 => "number"@,
        ModuleType::V128 => "number"@,
        ModuleType::Void => "void"@,
        ModuleType::Func(args, ret) => "("@ + args_typescript(args@, 1) + ") => "@
            + typescript_spec(*ret),
        ModuleType::Unknown => "unknown"@,
    }
}

/// The argument list of an arrow type: `argK: T`, comma-separated,
/// numbered from `k` on.
pub open spec fn args_typescript(args: Seq<ModuleType>, k: nat) -> Seq<char>
    decreases args,
{
    if args.len() == 0 {
        Seq::empty()
    } else {
        let head = "arg"@ + dec_str(k) + ": "@ + typescript_spec(args[0]);
        if args.len() == 1 {
            head
        } else {
            head + ", "@ + args_typescript(args.drop_first(), (k + 1) as nat)
        }
    }
}

/// One decimal digit as text.
fn digit_str(d: usize) -> (r: String)
    requires
        d < 10,
    ensures
        r@ == seq![digit_char(d as nat)],
{
    proof {
        reveal_strlit("0");
        reveal_strlit("1");
        reveal_strlit("2");
        reveal_strlit("3");
        reveal_strlit("4");
        reveal_strlit("5");
        reveal_strlit("6");
        reveal_strlit("7");
        reveal_strlit("8");
        reveal_strlit("9");
    }
    let r = if d == 0 {
        String::from_str("0")
    } else if d == 1 {
        String::from_str("1")
    } else if d == 2 {
        String::from_str("2")
    } else if d == 3 {
        String::from_str("3")
    } else if d == 4 {
        String::from_str("4")
    } else if d == 5 {
        String::from_str("5")
    } else if d == 6 {
        String::from_str("6")
    } else if d == 7 {
        String::from_str("7")
    } else {
        String::from_str("8")
    };
    if d == 9 {
        let nine = String::from_str("9");
        proof {
            assert(nine@ =~= seq![digit_char(d as nat)]);
        }
        return nine;
    }
    proof {
        assert(r@ =~= seq![digit_char(d as nat)]);
    }
    r
}

/// The decimal rendering of `n`.
fn dec_of(n: usize) -> (r: String)
    ensures
        r@ == dec_str(n as nat),
    decreases n,
{
    if n < 10 {
        digit_str(n)
    } else {
        let mut s = dec_of(n / 10);
        let d = digit_str(n % 10);
        s.append(d.as_str());
        proof {
            assert(s@ =~= dec_str((n / 10) as nat).push(digit_char((n % 10) as nat)));
        }
        s
    }
}

/// Holds iff the bytes from `pos` to `end` are one well-formed unsigned
/// LEB128 integer that fits in 32 bits: every byte but the last carries a
/// continuation marker, the last does not, at most five bytes in all.
pub open spec fn leb_ok(bytes: Seq<u8>, pos: int, end: int) -> bool {
    &&& 0 <= pos < end <= bytes.len()
    &&& end - pos <= 5
    &&& (forall|p: int| pos <= p < end - 1 ==> bytes[p] >= 128)
    &&& bytes[end - 1] < 128
    &&& leb_val(bytes, pos, end) < 0x1_0000_0000
}

/// The value of the LEB128 integer at `pos..end`: seven value bits per
/// byte, least significant group first.
pub open spec fn leb_val(bytes: Seq<u8>, pos: int, end: int) -> nat
    decreases end - pos,
{
    if pos < 0 || end <= pos || end > bytes.len() {
        0
    } else {
        ((bytes[pos] % 128) + 128 * leb_val(bytes, pos + 1, end)) as nat
    }
}

/// Reads one unsigned 32-bit LEB128 integer starting at `pos`.  Fails
/// exactly when no well-formed encoding starts there.
fn read_u32_leb(bytes: &[u8], pos: usize) -> (r: Result<(u32, usize), WasmError>)
    ensures
        match r {
            Ok((v, end)) => leb_ok(bytes@, pos as int, end as int) && v == leb_val(
                bytes@,
                pos as int,
                end as int,
            ),
            Err(e) => (e == WasmError::TruncatedSection || e == WasmError::BadInteger) && forall|
                end: int,
            | !leb_ok(bytes@, pos as int, end),
        },
{
    proof {
        reveal_with_fuel(leb_val, 6);
    }
    let n = bytes.len();
    if pos >= n {
        return Err(WasmError::TruncatedSection);
    }
    let b0 = bytes[pos];
    let x0 = (b0 % 128) as u32;
    if b0 < 128 {
        return Ok((x0, pos + 1));
    }
    if pos + 1 >= n {
        return Err(WasmError::TruncatedSection);
    }
    let b1 = bytes[pos + 1];
    let x1 = (b1 % 128) as u32;
    if b1 < 128 {
        return Ok((x0 + 128 * x1, pos + 2));
    }
    if pos + 2 >= n {
        return Err(WasmError::TruncatedSection);
    }
    let b2 = bytes[pos + 2];
    let x2 = (b2 % 128) as u32;
    if b2 < 128 {
        return Ok((x0 + 128 * x1 + 16384 * x2, pos + 3));
    }
    if pos + 3 >= n {
        return Err(WasmError::TruncatedSection);
    }
    let b3 = bytes[pos + 3];
    let x3 = (b3 % 128) as u32;
    if b3 < 128 {
        return Ok((x0 + 128 * x1 + 16384 * x2 + 2097152 * x3, pos + 4));
    }
    if pos + 4 >= n {
        return Err(WasmError::TruncatedSection);
    }
    let b4 = bytes[pos + 4];
    let x4 = (b4 % 128) as u32;
    if b4 >= 128 {
        return Err(WasmError::BadInteger);
    }
    if x4 >= 16 {
        proof {
            assert(leb_val(bytes@, pos as int, pos + 5) >= 268435456 * 16);
            assert forall|end: int| !leb_ok(bytes@, pos as int, end) by {
                if pos < end < pos + 5 {
                    assert(bytes@[end - 1] >= 128);
                }
            };
        }
        return Err(WasmError::BadInteger);
    }
    Ok((x0 + 128 * x1 + 16384 * x2 + 2097152 * x3 + 268435456 * x4, pos + 5))
}

/// Relies on `String::from_utf8`: it succeeds exactly on valid UTF-8 and
/// then yields the decoded characters of the bytes.
#[verifier::external_body]
fn string_from_utf8(bytes: Vec<u8>) -> (r: Option<String>)
    ensures
        r is Some <==> valid_utf8(bytes@),
        r matches Some(s) ==> s@ == decode_utf8(bytes@),
{
    match String::from_utf8(bytes) {
        Ok(s) => Some(s),
        Err(_) => None,
    }
}

/// Reads one length-prefixed name starting at `pos`: a LEB128 byte count
/// followed by that many bytes of UTF-8.
fn read_name(bytes: &[u8], pos: usize) -> (r: Result<(String, usize), WasmError>)
    ensures
        match r {
            Ok((s, end)) => name_at(bytes@, pos as int) == Some((s@, end as int)),
            Err(_) => name_at(bytes@, pos as int) is None,
        },
{
    let (len, mid) = match read_u32_leb(bytes, pos) {
        Ok(p) => p,
        Err(e) => {
            proof {
                lemma_leb_at_none(bytes@, pos as int);
            }
            return Err(e);
        },
    };
    proof {
        lemma_leb_at_of_ok(bytes@, pos as int, mid as int);
    }
    if (len as usize) > bytes.len() - mid {
        return Err(WasmError::TruncatedSection);
    }
    let end = mid + (len as usize);
    let name_bytes = vstd::slice::slice_to_vec(&bytes[mid..end]);
    proof {
        assert(name_bytes@ == bytes@.subrange(mid as int, end as int));
    }
    match string_from_utf8(name_bytes) {
        Some(s) => Ok((s, end)),
        None => Err(WasmError::BadName),
    }
}

/// What one import-section entry imports: a function with its declared
/// type-section index, a table, a memory, or a form this linker does not
/// type (a global, for one).
#[derive(Debug, Clone, Copy, PartialEq, Eq, Structural)]
pub enum ImportDesc {
    Func(u32),
    Table,
    Memory,
    Other,
}

/// One decoded import-section entry, type index still unresolved.
#[derive(Debug, PartialEq, Eq)]
pub struct RawImport {
    pub namespace: String,
    pub name: Option<String>,
    pub desc: ImportDesc,
}

/// What one export-section entry exports.
#[derive(Debug, Clone, Copy, PartialEq, Eq, Structural)]
pub enum ExportKind {
    Func,
    Table,
    Memory,
    Other,
}

/// One decoded export-section entry, function index still unresolved.
#[derive(Debug, PartialEq, Eq)]
pub struct RawExport {
    pub name: String,
    pub kind: ExportKind,
    pub index: u32,
}

/// The four decoded sections this linker reads; every other section kind
/// is skipped.
#[derive(Debug, PartialEq, Eq)]
pub struct RawModule {
    pub types: Vec<RawFuncType>,
    pub imports: Vec<RawImport>,
    pub functions: Vec<u32>,
    pub exports: Vec<RawExport>,
}

/// Holds iff `t` is the type an import description resolves to against
/// the decoded type section: a function import's type index points into
/// the type section directly, and an out-of-range index tolerantly
/// yields `Unknown` rather than failing.
pub open spec fn import_ty_resolved(t: ModuleType, types: Seq<FuncTypeV>, desc: ImportDesc) -> bool {
    match desc {
        ImportDesc::Func(idx) => if idx < types.len() {
            is_func_type_of(t, types[idx as int].params, types[idx as int].results)
        } else {
            t == ModuleType::Unknown
        },
        ImportDesc::Table => t == ModuleType::Table,
        ImportDesc::Memory => t == ModuleType::Memory,
        ImportDesc::Other => t == ModuleType::Unknown,
    }
}

/// Holds iff `t` is the type an export resolves to.  A function export's
/// type is looked up at `function_index - 1`: function-section indices
/// are offset by the count of imported functions, and this convention is
/// part of the decoder's contract.  An index of zero, or one past the
/// type table, tolerantly yields `Unknown`.
pub open spec fn export_ty_resolved(
    t: ModuleType,
    types: Seq<FuncTypeV>,
    kind: ExportKind,
    index: u32,
) -> bool {
    match kind {
        ExportKind::Func => if 1 <= index && index - 1 < types.len() {
            is_func_type_of(t, types[index - 1].params, types[index - 1].results)
        } else {
            t == ModuleType::Unknown
        },
        ExportKind::Table => t == ModuleType::Table,
        ExportKind::Memory => t == ModuleType::Memory,
        ExportKind::Other => t == ModuleType::Unknown,
    }
}

/// A module with no type section resolves every function-typed import
/// and export to `Unknown` rather than failing.
pub proof fn lemma_no_type_section_yields_unknown(
    t: ModuleType,
    types: Seq<FuncTypeV>,
    desc: ImportDesc,
    kind: ExportKind,
    index: u32,
)
    requires
        types.len() == 0,
    ensures
        import_ty_resolved(t, types, desc) && (desc matches ImportDesc::Func(_)) ==> t
            == ModuleType::Unknown,
        export_ty_resolved(t, types, kind, index) && kind == ExportKind::Func ==> t
            == ModuleType::Unknown,
{
}

/// The eight fixed bytes every well-formed module starts with: the magic
/// number and version one.
pub open spec fn module_has_header(bytes: Seq<u8>) -> bool {
    &&& bytes.len() >= 8
    &&& bytes[0] == 0x00
    &&& bytes[1] == 0x61
    &&& bytes[2] == 0x73
    &&& bytes[3] == 0x6d
    &&& bytes[4] == 0x01
    &&& bytes[5] == 0x00
    &&& bytes[6] == 0x00
    &&& bytes[7] == 0x00
}

/// The shape of one type-section entry: raw parameter and result bytes.
pub struct FuncTypeV {
    pub params: Seq<u8>,
    pub results: Seq<u8>,
}

/// The shape of one import-section entry.
pub struct RawImportV {
    pub namespace: Seq<char>,
    pub name: Option<Seq<char>>,
    pub desc: ImportDesc,
}

/// The shape of one export-section entry.
pub struct RawExportV {
    pub name: Seq<char>,
    pub kind: ExportKind,
    pub index: u32,
}

/// The shape of the decoded sections of a module.
pub struct RawModuleV {
    pub types: Seq<FuncTypeV>,
    pub imports: Seq<RawImportV>,
    pub functions: Seq<u32>,
    pub exports: Seq<RawExportV>,
}

/// The LEB128 integer starting at `pos`, with the position after it, or
/// nothing when no well-formed 32-bit encoding starts there.  The
/// terminating byte of a well-formed run is unique, so the choice is
/// determined.
pub open spec fn leb_at(bytes: Seq<u8>, pos: int) -> Option<(nat, int)> {
    if exists|end: int| leb_ok(bytes, pos, end) {
        let end = choose|end: int| leb_ok(bytes, pos, end);
        Some((leb_val(bytes, pos, end), end))
    } else {
        None
    }
}

/// A LEB128 run ends at its first byte without a continuation marker, so
/// at one position only.
proof fn lemma_leb_end_unique(bytes: Seq<u8>, pos: int, e1: int, e2: int)
    requires
        leb_ok(bytes, pos, e1),
        leb_ok(bytes, pos, e2),
    ensures
        e1 == e2,
{
    if e1 < e2 {
        assert(bytes[e1 - 1] >= 128);
    }
    if e2 < e1 {
        assert(bytes[e2 - 1] >= 128);
    }
}

/// A well-formed run at `pos..end` is what `leb_at` denotes there.
proof fn lemma_leb_at_of_ok(bytes: Seq<u8>, pos: int, end: int)
    requires
        leb_ok(bytes, pos, end),
    ensures
        leb_at(bytes, pos) == Some((leb_val(bytes, pos, end), end)),
{
    let e2 = choose|e: int| leb_ok(bytes, pos, e);
    lemma_leb_end_unique(bytes, pos, end, e2);
}

/// What `leb_at` yields is in range and past its start.
proof fn lemma_leb_at_bounds(bytes: Seq<u8>, pos: int)
    ensures
        leb_at(bytes, pos) matches Some(p) ==> pos < p.1 <= bytes.len() && p.0 < 0x1_0000_0000,
{
    if leb_at(bytes, pos) is Some {
        let end = choose|end: int| leb_ok(bytes, pos, end);
    }
}

/// Where no well-formed run starts, `leb_at` denotes nothing.
proof fn lemma_leb_at_none(bytes: Seq<u8>, pos: int)
    requires
        forall|end: int| !leb_ok(bytes, pos, end),
    ensures
        leb_at(bytes, pos) is None,
{
    if leb_at(bytes, pos) is Some {
        let e = choose|end: int| leb_ok(bytes, pos, end);
        assert(!leb_ok(bytes, pos, e));
    }
}

/// The name starting at `pos`: a LEB128 byte count, then that many bytes
/// of UTF-8.
pub open spec fn name_at(bytes: Seq<u8>, pos: int) -> Option<(Seq<char>, int)> {
    match leb_at(bytes, pos) {
        Some((ln, mid)) => if mid + ln <= bytes.len() && valid_utf8(
            bytes.subrange(mid, mid + ln),
        ) {
            Some((decode_utf8(bytes.subrange(mid, mid + ln)), mid + ln))
        } else {
            None
        },
        None => None,
    }
}

/// What `name_at` yields is in range and past its start.
proof fn lemma_name_at_bounds(bytes: Seq<u8>, pos: int)
    ensures
        name_at(bytes, pos) matches Some(p) ==> pos < p.1 <= bytes.len(),
{
    lemma_leb_at_bounds(bytes, pos);
}

/// The position after the limits of a table or memory description
/// starting at `pos`: a flag byte, then one or two LEB128 bounds.
pub open spec fn limits_end(bytes: Seq<u8>, pos: int) -> Option<int> {
    if 0 <= pos < bytes.len() {
        if bytes[pos] == 0x00 {
            match leb_at(bytes, pos + 1) {
                Some((_, p)) => Some(p),
                None => None,
            }
        } else if bytes[pos] == 0x01 {
            match leb_at(bytes, pos + 1) {
                Some((_, p)) => match leb_at(bytes, p) {
                    Some((_, q)) => Some(q),
                    None => None,
                },
                None => None,
            }
        } else {
            None
        }
    } else {
        None
    }
}

/// What `limits_end` yields is in range and past its start.
proof fn lemma_limits_end_bounds(bytes: Seq<u8>, pos: int)
    ensures
        limits_end(bytes, pos) matches Some(q) ==> pos < q <= bytes.len(),
{
    lemma_leb_at_bounds(bytes, pos + 1);
    if 0 <= pos < bytes.len() && bytes[pos] == 0x01 {
        match leb_at(bytes, pos + 1) {
            Some((_, p)) => {
                lemma_leb_at_bounds(bytes, p);
            },
            None => {},
        }
    }
}

/// One type-section entry starting at `pos`: the function form byte,
/// then the parameter and result bytes, each LEB128-counted.
pub open spec fn functype_at(bytes: Seq<u8>, pos: int) -> Option<(FuncTypeV, int)> {
    if 0 <= pos < bytes.len() && bytes[pos] == 0x60 {
        match leb_at(bytes, pos + 1) {
            Some((pc, p1)) => if p1 + pc <= bytes.len() {
                match leb_at(bytes, p1 + pc) {
                    Some((rc, p2)) => if p2 + rc <= bytes.len() {
                        Some(
                            (
                                FuncTypeV {
                                    params: bytes.subrange(p1, p1 + pc),
                                    results: bytes.subrange(p2, p2 + rc),
                                },
                                p2 + rc,
                            ),
                        )
                    } else {
                        None
                    },
                    None => None,
                }
            } else {
                None
            },
            None => None,
        }
    } else {
        None
    }
}

/// What `functype_at` yields is in range and past its start.
proof fn lemma_functype_at_bounds(bytes: Seq<u8>, pos: int)
    ensures
        functype_at(bytes, pos) matches Some(p) ==> pos < p.1 <= bytes.len(),
{
    lemma_leb_at_bounds(bytes, pos + 1);
    if 0 <= pos < bytes.len() && bytes[pos] == 0x60 {
        match leb_at(bytes, pos + 1) {
            Some((pc, p1)) => {
                lemma_leb_at_bounds(bytes, p1 + pc);
            },
            None => {},
        }
    }
}

/// One import-section entry starting at `pos`: two names, then an entity
/// description.  A global import is typed `Other`; an unknown
/// description byte is a fatal framing error, since its extent is not
/// determined by the grammar this decoder knows.
pub open spec fn import_at(bytes: Seq<u8>, pos: int) -> Option<(RawImportV, int)> {
    match name_at(bytes, pos) {
        Some((ns, p1)) => match name_at(bytes, p1) {
            Some((field, p2)) => if p2 < bytes.len() {
                if bytes[p2] == 0x00 {
                    match leb_at(bytes, p2 + 1) {
                        Some((idx, q)) => Some(
                            (
                                RawImportV {
                                    namespace: ns,
                                    name: Some(field),
                                    desc: ImportDesc::Func(idx as u32),
                                },
                                q,
                            ),
                        ),
                        None => None,
                    }
                } else if bytes[p2] == 0x01 {
                    match limits_end(bytes, p2 + 2) {
                        Some(q) => Some(
                            (
                                RawImportV {
                                    namespace: ns,
                                    name: Some(field),
                                    desc: ImportDesc::Table,
                                },
                                q,
                            ),
                        ),
                        None => None,
                    }
                } else if bytes[p2] == 0x02 {
                    match limits_end(bytes, p2 + 1) {
                        Some(q) => Some(
                            (
                                RawImportV {
                                    namespace: ns,
                                    name: Some(field),
                                    desc: ImportDesc::Memory,
                                },
                                q,
                            ),
                        ),
                        None => None,
                    }
                } else if bytes[p2] == 0x03 {
                    if p2 + 3 <= bytes.len() {
                        Some(
                            (
                                RawImportV {
                                    namespace: ns,
                                    name: Some(field),
                                    desc: ImportDesc::Other,
                                },
                                p2 + 3,
                            ),
                        )
                    } else {
                        None
                    }
                } else {
                    None
                }
            } else {
                None
            },
            None => None,
        },
        None => None,
    }
}

/// What `import_at` yields is in range and past its start.
proof fn lemma_import_at_bounds(bytes: Seq<u8>, pos: int)
    ensures
        import_at(bytes, pos) matches Some(p) ==> pos < p.1 <= bytes.len(),
{
    lemma_name_at_bounds(bytes, pos);
    match name_at(bytes, pos) {
        Some((_, p1)) => {
            lemma_name_at_bounds(bytes, p1);
            match name_at(bytes, p1) {
                Some((_, p2)) => {
                    lemma_leb_at_bounds(bytes, p2 + 1);
                    lemma_limits_end_bounds(bytes, p2 + 2);
                    lemma_limits_end_bounds(bytes, p2 + 1);
                },
                None => {},
            }
        },
        None => {},
    }
}

/// One function-section entry: a LEB128 type index.
pub open spec fn funcidx_at(bytes: Seq<u8>, pos: int) -> Option<(u32, int)> {
    match leb_at(bytes, pos) {
        Some((v, e)) => Some((v as u32, e)),
        None => None,
    }
}

/// One export-section entry starting at `pos`: a name, an entity kind
/// byte, and an entity index.
pub open spec fn export_at(bytes: Seq<u8>, pos: int) -> Option<(RawExportV, int)> {
    match name_at(bytes, pos) {
        Some((n, p1)) => if p1 < bytes.len() && bytes[p1] <= 0x03 {
            match leb_at(bytes, p1 + 1) {
                Some((idx, q)) => Some(
                    (
                        RawExportV {
                            name: n,
                            kind: if bytes[p1] == 0x00 {
                                ExportKind::Func
                            } else if bytes[p1] == 0x01 {
                                ExportKind::Table
                            } else if bytes[p1] == 0x02 {
                                ExportKind::Memory
                            } else {
                                ExportKind::Other
                            },
                            index: idx as u32,
                        },
                        q,
                    ),
                ),
                None => None,
            }
        } else {
            None
        },
        None => None,
    }
}

/// What `export_at` yields is in range and past its start.
proof fn lemma_export_at_bounds(bytes: Seq<u8>, pos: int)
    ensures
        export_at(bytes, pos) matches Some(p) ==> pos < p.1 <= bytes.len(),
{
    lemma_name_at_bounds(bytes, pos);
    match name_at(bytes, pos) {
        Some((_, p1)) => {
            lemma_leb_at_bounds(bytes, p1 + 1);
        },
        None => {},
    }
}

/// `count` type-section entries starting at `pos`, with the position
/// after them.
pub open spec fn functypes_at(bytes: Seq<u8>, pos: int, count: nat) -> Option<
    (Seq<FuncTypeV>, int),
>
    decreases count,
{
    if count == 0 {
        Some((Seq::empty(), pos))
    } else {
        match functype_at(bytes, pos) {
            Some((x, p)) => match functypes_at(bytes, p, (count - 1) as nat) {
                Some((rest, e)) => Some((seq![x] + rest, e)),
                None => None,
            },
            None => None,
        }
    }
}

/// `count` import-section entries starting at `pos`.
pub open spec fn imports_at(bytes: Seq<u8>, pos: int, count: nat) -> Option<
    (Seq<RawImportV>, int),
>
    decreases count,
{
    if count == 0 {
        Some((Seq::empty(), pos))
    } else {
        match import_at(bytes, pos) {
            Some((x, p)) => match imports_at(bytes, p, (count - 1) as nat) {
                Some((rest, e)) => Some((seq![x] + rest, e)),
                None => None,
            },
            None => None,
        }
    }
}

/// `count` function-section entries starting at `pos`.
pub open spec fn funcidxs_at(bytes: Seq<u8>, pos: int, count: nat) -> Option<(Seq<u32>, int)>
    decreases count,
{
    if count == 0 {
        Some((Seq::empty(), pos))
    } else {
        match funcidx_at(bytes, pos) {
            Some((x, p)) => match funcidxs_at(bytes, p, (count - 1) as nat) {
                Some((rest, e)) => Some((seq![x] + rest, e)),
                None => None,
            },
            None => None,
        }
    }
}

/// `count` export-section entries starting at `pos`.
pub open spec fn exports_at(bytes: Seq<u8>, pos: int, count: nat) -> Option<
    (Seq<RawExportV>, int),
>
    decreases count,
{
    if count == 0 {
        Some((Seq::empty(), pos))
    } else {
        match export_at(bytes, pos) {
            Some((x, p)) => match exports_at(bytes, p, (count - 1) as nat) {
                Some((rest, e)) => Some((seq![x] + rest, e)),
                None => None,
            },
            None => None,
        }
    }
}

/// A run of entries only moves forward.
proof fn lemma_functypes_at_bounds(bytes: Seq<u8>, pos: int, count: nat)
    ensures
        functypes_at(bytes, pos, count) matches Some(p) ==> p.1 >= pos && (count > 0 ==> p.1
            > pos),
    decreases count,
{
    if count > 0 {
        lemma_functype_at_bounds(bytes, pos);
        match functype_at(bytes, pos) {
            Some((_, p)) => {
                lemma_functypes_at_bounds(bytes, p, (count - 1) as nat);
            },
            None => {},
        }
    }
}

/// A run of entries only moves forward.
proof fn lemma_imports_at_bounds(bytes: Seq<u8>, pos: int, count: nat)
    ensures
        imports_at(bytes, pos, count) matches Some(p) ==> p.1 >= pos && (count > 0 ==> p.1 > pos),
    decreases count,
{
    if count > 0 {
        lemma_import_at_bounds(bytes, pos);
        match import_at(bytes, pos) {
            Some((_, p)) => {
                lemma_imports_at_bounds(bytes, p, (count - 1) as nat);
            },
            None => {},
        }
    }
}

/// A run of entries only moves forward.
proof fn lemma_exports_at_bounds(bytes: Seq<u8>, pos: int, count: nat)
    ensures
        exports_at(bytes, pos, count) matches Some(p) ==> p.1 >= pos && (count > 0 ==> p.1 > pos),
    decreases count,
{
    if count > 0 {
        lemma_export_at_bounds(bytes, pos);
        match export_at(bytes, pos) {
            Some((_, p)) => {
                lemma_exports_at_bounds(bytes, p, (count - 1) as nat);
            },
            None => {},
        }
    }
}

/// The decoded type section framed at `start..end`: an entry count, that
/// many entries, filling the frame exactly.
pub open spec fn type_section_at(bytes: Seq<u8>, start: int, end: int) -> Option<Seq<FuncTypeV>> {
    match leb_at(bytes, start) {
        Some((count, p)) => match functypes_at(bytes, p, count) {
            Some((xs, e)) => if e == end {
                Some(xs)
            } else {
                None
            },
            None => None,
        },
        None => None,
    }
}

/// The decoded import section framed at `start..end`.
pub open spec fn import_section_at(bytes: Seq<u8>, start: int, end: int) -> Option<
    Seq<RawImportV>,
> {
    match leb_at(bytes, start) {
        Some((count, p)) => match imports_at(bytes, p, count) {
            Some((xs, e)) => if e == end {
                Some(xs)
            } else {
                None
            },
            None => None,
        },
        None => None,
    }
}

/// The decoded function section framed at `start..end`.
pub open spec fn function_section_at(bytes: Seq<u8>, start: int, end: int) -> Option<Seq<u32>> {
    match leb_at(bytes, start) {
        Some((count, p)) => match funcidxs_at(bytes, p, count) {
            Some((xs, e)) => if e == end {
                Some(xs)
            } else {
                None
            },
            None => None,
        },
        None => None,
    }
}

/// The decoded export section framed at `start..end`.
pub open spec fn export_section_at(bytes: Seq<u8>, start: int, end: int) -> Option<
    Seq<RawExportV>,
> {
    match leb_at(bytes, start) {
        Some((count, p)) => match exports_at(bytes, p, count) {
            Some((xs, e)) => if e == end {
                Some(xs)
            } else {
                None
            },
            None => None,
        },
        None => None,
    }
}

/// The walk over the section sequence from `pos` with the sections
/// decoded so far: each section is an id byte and a LEB128-sized frame;
/// the four decoded kinds append their entries, every other kind is
/// skipped without error, and a frame past the bytes' end is fatal.
pub open spec fn walk_sections(bytes: Seq<u8>, pos: int, acc: RawModuleV) -> Option<RawModuleV>
    decreases bytes.len() - pos,
{
    if !(0 <= pos < bytes.len()) {
        Some(acc)
    } else {
        match leb_at(bytes, pos + 1) {
            Some((size, p)) => if p + size > bytes.len() || p <= pos + 1 {
                None
            } else {
                let send = p + size;
                let stepped = if bytes[pos] == 1 {
                    match type_section_at(bytes, p, send) {
                        Some(ts) => Some(
                            RawModuleV {
                                types: acc.types + ts,
                                imports: acc.imports,
                                functions: acc.functions,
                                exports: acc.exports,
                            },
                        ),
                        None => None,
                    }
                } else if bytes[pos] == 2 {
                    match import_section_at(bytes, p, send) {
                        Some(is) => Some(
                            RawModuleV {
                                types: acc.types,
                                imports: acc.imports + is,
                                functions: acc.functions,
                                exports: acc.exports,
                            },
                        ),
                        None => None,
                    }
                } else if bytes[pos] == 3 {
                    match function_section_at(bytes, p, send) {
                        Some(fs) => Some(
                            RawModuleV {
                                types: acc.types,
                                imports: acc.imports,
                                functions: acc.functions + fs,
                                exports: acc.exports,
                            },
                        ),
                        None => None,
                    }
                } else if bytes[pos] == 7 {
                    match export_section_at(bytes, p, send) {
                        Some(es) => Some(
                            RawModuleV {
                                types: acc.types,
                                imports: acc.imports,
                                functions: acc.functions,
                                exports: acc.exports + es,
                            },
                        ),
                        None => None,
                    }
                } else {
                    Some(acc)
                };
                match stepped {
                    Some(a) => walk_sections(bytes, send, a),
                    None => None,
                }
            },
            None => None,
        }
    }
}

/// The sections of nothing.
pub open spec fn empty_raw() -> RawModuleV {
    RawModuleV {
        types: Seq::empty(),
        imports: Seq::empty(),
        functions: Seq::empty(),
        exports: Seq::empty(),
    }
}

/// What the bytes of a WebAssembly binary decode to: the exact header,
/// then the section walk; or nothing, when the header is wrong or some
/// section's framing is malformed.
pub open spec fn decode_module(bytes: Seq<u8>) -> Option<RawModuleV> {
    if module_has_header(bytes) {
        walk_sections(bytes, 8, empty_raw())
    } else {
        None
    }
}

/// A section of a kind the walk does not decode is skipped whole: the
/// walk continues after its frame with the same sections, so the result
/// is that of the same module without it (forward tolerance).
pub proof fn lemma_skipped_section_ignored(bytes: Seq<u8>, pos: int, acc: RawModuleV)
    requires
        0 <= pos < bytes.len(),
        bytes[pos] != 1 && bytes[pos] != 2 && bytes[pos] != 3 && bytes[pos] != 7,
    ensures
        match leb_at(bytes, pos + 1) {
            Some((size, p)) => (p + size <= bytes.len() && p > pos + 1) ==> walk_sections(
                bytes,
                pos,
                acc,
            ) == walk_sections(bytes, p + size, acc),
            None => true,
        },
{
}

/// The shapes of the decoded type-section entries.
pub open spec fn functype_views(s: Seq<RawFuncType>) -> Seq<FuncTypeV> {
    s.map_values(|ft: RawFuncType| FuncTypeV { params: ft.params@, results: ft.results@ })
}

/// The view of an optional name.
pub open spec fn opt_str_view(o: Option<String>) -> Option<Seq<char>> {
    match o {
        Some(s) => Some(s@),
        None => None,
    }
}

/// The shapes of the decoded import-section entries.
pub open spec fn import_views(s: Seq<RawImport>) -> Seq<RawImportV> {
    s.map_values(
        |i: RawImport|
            RawImportV { namespace: i.namespace@, name: opt_str_view(i.name), desc: i.desc },
    )
}

/// The shapes of the decoded export-section entries.
pub open spec fn export_views(s: Seq<RawExport>) -> Seq<RawExportV> {
    s.map_values(|e: RawExport| RawExportV { name: e.name@, kind: e.kind, index: e.index })
}

/// The shape of the decoded sections.
pub open spec fn raw_module_view(raw: RawModule) -> RawModuleV {
    RawModuleV {
        types: functype_views(raw.types@),
        imports: import_views(raw.imports@),
        functions: raw.functions@,
        exports: export_views(raw.exports@),
    }
}

/// Holds iff `m` is the typed import/export table resolved from the
/// decoded sections `raw`: every entry keeps its names, in section
/// order, and its type is resolved against the type section as
/// `import_ty_resolved` and `export_ty_resolved` state.
pub open spec fn module_resolves(m: Module, raw: RawModuleV) -> bool {
    &&& m.imports@.len() == raw.imports.len()
    &&& (forall|i: int|
        0 <= i < raw.imports.len() ==> {
            &&& (#[trigger] m.imports@[i]).namespace@ == raw.imports[i].namespace
            &&& opt_str_view(m.imports@[i].name) == raw.imports[i].name
            &&& import_ty_resolved(m.imports@[i].ty, raw.types, raw.imports[i].desc)
        })
    &&& m.exports@.len() == raw.exports.len()
    &&& (forall|i: int|
        0 <= i < raw.exports.len() ==> {
            &&& (#[trigger] m.exports@[i]).name@ == raw.exports[i].name
            &&& export_ty_resolved(m.exports@[i].ty, raw.types, raw.exports[i].kind, raw.exports[i].index)
        })
}

/// A module whose bytes decode without a type section resolves every
/// function-typed import and export to `Unknown` rather than failing.
pub proof fn lemma_no_type_section_module(m: Module, raw: RawModuleV)
    requires
        raw.types.len() == 0,
        module_resolves(m, raw),
    ensures
        forall|i: int|
            0 <= i < m.imports@.len() && (raw.imports[i].desc matches ImportDesc::Func(_))
                ==> (#[trigger] m.imports@[i]).ty == ModuleType::Unknown,
        forall|i: int|
            0 <= i < m.exports@.len() && raw.exports[i].kind == ExportKind::Func
                ==> (#[trigger] m.exports@[i]).ty == ModuleType::Unknown,
{
    assert forall|i: int|
        0 <= i < m.imports@.len() && (raw.imports[i].desc matches ImportDesc::Func(_)) implies (
    #[trigger] m.imports@[i]).ty == ModuleType::Unknown by {
        lemma_no_type_section_yields_unknown(
            m.imports@[i].ty,
            raw.types,
            raw.imports[i].desc,
            ExportKind::Other,
            0,
        );
    };
    assert forall|i: int|
        0 <= i < m.exports@.len() && raw.exports[i].kind == ExportKind::Func implies (
    #[trigger] m.exports@[i]).ty == ModuleType::Unknown by {
        lemma_no_type_section_yields_unknown(
            m.exports@[i].ty,
            raw.types,
            ImportDesc::Other,
            raw.exports[i].kind,
            raw.exports[i].index,
        );
    };
}

/// Reads the limits of a table or memory description: a flag byte, then
/// one or two LEB128 bounds.
fn parse_limits(bytes: &[u8], pos: usize) -> (r: Result<usize, WasmError>)
    ensures
        match r {
            Ok(p) => limits_end(bytes@, pos as int) == Some(p as int),
            Err(_) => limits_end(bytes@, pos as int) is None,
        },
{
    if pos >= bytes.len() {
        return Err(WasmError::TruncatedSection);
    }
    let flag = bytes[pos];
    if flag != 0x00 && flag != 0x01 {
        return Err(WasmError::BadEntry);
    }
    let p = match read_u32_leb(bytes, pos + 1) {
        Ok((_, p)) => p,
        Err(e) => {
            proof {
                lemma_leb_at_none(bytes@, pos + 1);
            }
            return Err(e);
        },
    };
    proof {
        lemma_leb_at_of_ok(bytes@, pos + 1, p as int);
    }
    if flag == 0x00 {
        Ok(p)
    } else {
        match read_u32_leb(bytes, p) {
            Ok((_, q)) => {
                proof {
                    lemma_leb_at_of_ok(bytes@, p as int, q as int);
                }
                Ok(q)
            },
            Err(e) => {
                proof {
                    lemma_leb_at_none(bytes@, p as int);
                }
                Err(e)
            },
        }
    }
}

/// Decodes the entries of one type section, appending them in order.
/// Only the function form (byte 0x60) is decoded: the extent of a form
/// this decoder does not know is not determined by the grammar it
/// knows, so such an entry cannot be skipped and is a fatal framing
/// error; tolerance of unknown material is at whole sections.
#[verifier::loop_isolation(false)]
fn parse_type_section(bytes: &[u8], start: usize, end: usize, types: &mut Vec<RawFuncType>) -> (r:
    Result<(), WasmError>)
    requires
        end <= bytes@.len(),
    ensures
        match r {
            Ok(()) => type_section_at(bytes@, start as int, end as int) matches Some(ts)
                && functype_views(final(types)@) == functype_views(old(types)@) + ts,
            Err(_) => type_section_at(bytes@, start as int, end as int) is None,
        },
{
    let (count, p_first) = match read_u32_leb(bytes, start) {
        Ok(x) => x,
        Err(e) => {
            proof {
                lemma_leb_at_none(bytes@, start as int);
            }
            return Err(e);
        },
    };
    proof {
        lemma_leb_at_of_ok(bytes@, start as int, p_first as int);
    }
    let ghost p0: int = p_first as int;
    let mut p = p_first;
    let mut k: u32 = 0;
    while k < count
        invariant
            p <= bytes@.len(),
            k <= count,
            match functypes_at(bytes@, p as int, (count - k) as nat) {
                Some(pair) => functypes_at(bytes@, p0, count as nat) matches Some(pair0)
                    && pair0.1 == pair.1 && functype_views(old(types)@) + pair0.0 == functype_views(
                    types@,
                ) + pair.0,
                None => functypes_at(bytes@, p0, count as nat) is None,
            },
        decreases count - k,
    {
        let ghost n = (count - k) as nat;
        if p >= end {
            proof {
                lemma_functypes_at_bounds(bytes@, p as int, n);
            }
            return Err(WasmError::TruncatedSection);
        }
        if bytes[p] != 0x60 {
            return Err(WasmError::BadEntry);
        }
        let (pc, p1) = match read_u32_leb(bytes, p + 1) {
            Ok(x) => x,
            Err(e) => {
                proof {
                    lemma_leb_at_none(bytes@, p + 1);
                }
                return Err(e);
            },
        };
        proof {
            lemma_leb_at_of_ok(bytes@, p + 1, p1 as int);
        }
        if (pc as usize) > bytes.len() - p1 {
            return Err(WasmError::TruncatedSection);
        }
        let pend = p1 + pc as usize;
        let params = vstd::slice::slice_to_vec(&bytes[p1..pend]);
        let (rc, p2) = match read_u32_leb(bytes, pend) {
            Ok(x) => x,
            Err(e) => {
                proof {
                    lemma_leb_at_none(bytes@, pend as int);
                }
                return Err(e);
            },
        };
        proof {
            lemma_leb_at_of_ok(bytes@, pend as int, p2 as int);
        }
        if (rc as usize) > bytes.len() - p2 {
            return Err(WasmError::TruncatedSection);
        }
        let rend = p2 + rc as usize;
        let results = vstd::slice::slice_to_vec(&bytes[p2..rend]);
        let ghost prev_types = types@;
        types.push(RawFuncType { params, results });
        proof {
            let ftv = FuncTypeV {
                params: bytes@.subrange(p1 as int, pend as int),
                results: bytes@.subrange(p2 as int, rend as int),
            };
            assert(functype_at(bytes@, p as int) == Some((ftv, rend as int)));
            assert(functype_views(types@) =~= functype_views(prev_types).push(ftv));
            match functypes_at(bytes@, rend as int, (n - 1) as nat) {
                Some(pair) => {
                    assert(functypes_at(bytes@, p as int, n) matches Some(pp) && pp.0 =~= seq![
                        ftv,
                    ] + pair.0 && pp.1 == pair.1);
                    assert(functype_views(prev_types) + (seq![ftv] + pair.0) =~= functype_views(
                        types@,
                    ) + pair.0);
                },
                None => {
                    assert(functypes_at(bytes@, p as int, n) is None);
                },
            }
        }
        p = rend;
        k = k + 1;
    }
    proof {
        assert(functypes_at(bytes@, p as int, 0) == Some((Seq::<FuncTypeV>::empty(), p as int)));
    }
    if p != end {
        return Err(WasmError::TruncatedSection);
    }
    proof {
        match functypes_at(bytes@, p0, count as nat) {
            Some(pair0) => {
                assert(functype_views(types@) =~= functype_views(types@) + Seq::<
                    FuncTypeV,
                >::empty());
                assert(functype_views(types@) =~= functype_views(old(types)@) + pair0.0);
            },
            None => {},
        }
    }
    Ok(())
}

/// Decodes the entries of one import section, appending them in order.
#[verifier::loop_isolation(false)]
#[verifier::rlimit(60)]
fn parse_import_section(bytes: &[u8], start: usize, end: usize, imports: &mut Vec<RawImport>) -> (r:
    Result<(), WasmError>)
    requires
        end <= bytes@.len(),
    ensures
        match r {
            Ok(()) => import_section_at(bytes@, start as int, end as int) matches Some(is)
                && import_views(final(imports)@) == import_views(old(imports)@) + is,
            Err(_) => import_section_at(bytes@, start as int, end as int) is None,
        },
{
    let (count, p_first) = match read_u32_leb(bytes, start) {
        Ok(x) => x,
        Err(e) => {
            proof {
                lemma_leb_at_none(bytes@, start as int);
            }
            return Err(e);
        },
    };
    proof {
        lemma_leb_at_of_ok(bytes@, start as int, p_first as int);
    }
    let ghost p0: int = p_first as int;
    let mut p = p_first;
    let mut k: u32 = 0;
    while k < count
        invariant
            p <= bytes@.len(),
            k <= count,
            match imports_at(bytes@, p as int, (count - k) as nat) {
                Some(pair) => imports_at(bytes@, p0, count as nat) matches Some(pair0) && pair0.1
                    == pair.1 && import_views(old(imports)@) + pair0.0 == import_views(imports@)
                    + pair.0,
                None => imports_at(bytes@, p0, count as nat) is None,
            },
        decreases count - k,
    {
        let ghost n = (count - k) as nat;
        let (namespace, p1) = match read_name(bytes, p) {
            Ok(x) => x,
            Err(e) => {
                return Err(e);
            },
        };
        let (field, p2) = match read_name(bytes, p1) {
            Ok(x) => x,
            Err(e) => {
                return Err(e);
            },
        };
        if p2 >= end {
            proof {
                lemma_leb_at_bounds(bytes@, p2 + 1);
                lemma_limits_end_bounds(bytes@, p2 + 2);
                lemma_limits_end_bounds(bytes@, p2 + 1);
                match import_at(bytes@, p as int) {
                    Some((iv0, q0)) => {
                        assert(q0 > p2);
                        lemma_imports_at_bounds(bytes@, q0, (n - 1) as nat);
                        assert(imports_at(bytes@, p as int, n) matches Some(pair) ==> pair.1
                            >= q0);
                    },
                    None => {
                        assert(imports_at(bytes@, p as int, n) is None);
                    },
                }
            }
            return Err(WasmError::TruncatedSection);
        }
        let kind = bytes[p2];
        let (desc, p3): (ImportDesc, usize) = if kind == 0x00 {
            match read_u32_leb(bytes, p2 + 1) {
                Ok((idx, q)) => {
                    proof {
                        lemma_leb_at_of_ok(bytes@, p2 + 1, q as int);
                    }
                    (ImportDesc::Func(idx), q)
                },
                Err(e) => {
                    proof {
                        lemma_leb_at_none(bytes@, p2 + 1);
                    }
                    return Err(e);
                },
            }
        } else if kind == 0x01 {
            if 2 > bytes.len() - p2 {
                return Err(WasmError::TruncatedSection);
            }
            match parse_limits(bytes, p2 + 2) {
                Ok(q) => (ImportDesc::Table, q),
                Err(e) => {
                    return Err(e);
                },
            }
        } else if kind == 0x02 {
            match parse_limits(bytes, p2 + 1) {
                Ok(q) => (ImportDesc::Memory, q),
                Err(e) => {
                    return Err(e);
                },
            }
        } else if kind == 0x03 {
            if 3 > bytes.len() - p2 {
                return Err(WasmError::TruncatedSection);
            }
            (ImportDesc::Other, p2 + 3)
        } else {
            return Err(WasmError::BadEntry);
        };
        let ghost prev_imports = imports@;
        let ghost iv = RawImportV { namespace: namespace@, name: Some(field@), desc };
        proof {
            assert(import_at(bytes@, p as int) == Some((iv, p3 as int)));
        }
        imports.push(RawImport { namespace, name: Some(field), desc });
        proof {
            assert(import_views(imports@) =~= import_views(prev_imports).push(iv));
            match imports_at(bytes@, p3 as int, (n - 1) as nat) {
                Some(pair) => {
                    assert(imports_at(bytes@, p as int, n) matches Some(pp) && pp.0 =~= seq![iv]
                        + pair.0 && pp.1 == pair.1);
                    assert(import_views(prev_imports) + (seq![iv] + pair.0) =~= import_views(
                        imports@,
                    ) + pair.0);
                },
                None => {
                    assert(imports_at(bytes@, p as int, n) is None);
                },
            }
        }
        p = p3;
        k = k + 1;
    }
    proof {
        assert(imports_at(bytes@, p as int, 0) == Some((Seq::<RawImportV>::empty(), p as int)));
    }
    if p != end {
        return Err(WasmError::TruncatedSection);
    }
    proof {
        match imports_at(bytes@, p0, count as nat) {
            Some(pair0) => {
                assert(import_views(imports@) =~= import_views(imports@) + Seq::<
                    RawImportV,
                >::empty());
                assert(import_views(imports@) =~= import_views(old(imports)@) + pair0.0);
            },
            None => {},
        }
    }
    Ok(())
}

/// Decodes the entries of one function section, appending the declared
/// type indices in order.
#[verifier::loop_isolation(false)]
fn parse_function_section(bytes: &[u8], start: usize, end: usize, functions: &mut Vec<u32>) -> (r:
    Result<(), WasmError>)
    requires
        end <= bytes@.len(),
    ensures
        match r {
            Ok(()) => function_section_at(bytes@, start as int, end as int) matches Some(fs)
                && final(functions)@ == old(functions)@ + fs,
            Err(_) => function_section_at(bytes@, start as int, end as int) is None,
        },
{
    let (count, p_first) = match read_u32_leb(bytes, start) {
        Ok(x) => x,
        Err(e) => {
            proof {
                lemma_leb_at_none(bytes@, start as int);
            }
            return Err(e);
        },
    };
    proof {
        lemma_leb_at_of_ok(bytes@, start as int, p_first as int);
    }
    let ghost p0: int = p_first as int;
    let mut p = p_first;
    let mut k: u32 = 0;
    while k < count
        invariant
            p <= bytes@.len(),
            k <= count,
            match funcidxs_at(bytes@, p as int, (count - k) as nat) {
                Some(pair) => funcidxs_at(bytes@, p0, count as nat) matches Some(pair0) && pair0.1
                    == pair.1 && old(functions)@ + pair0.0 == functions@ + pair.0,
                None => funcidxs_at(bytes@, p0, count as nat) is None,
            },
        decreases count - k,
    {
        let ghost n = (count - k) as nat;
        let ghost prev = functions@;
        match read_u32_leb(bytes, p) {
            Ok((idx, q)) => {
                proof {
                    lemma_leb_at_of_ok(bytes@, p as int, q as int);
                    assert(funcidx_at(bytes@, p as int) == Some((idx, q as int)));
                }
                functions.push(idx);
                proof {
                    match funcidxs_at(bytes@, q as int, (n - 1) as nat) {
                        Some(pair) => {
                            assert(funcidxs_at(bytes@, p as int, n) matches Some(pp) && pp.0
                                =~= seq![idx] + pair.0 && pp.1 == pair.1);
                            assert(prev + (seq![idx] + pair.0) =~= functions@ + pair.0);
                        },
                        None => {
                            assert(funcidxs_at(bytes@, p as int, n) is None);
                        },
                    }
                }
                p = q;
            },
            Err(e) => {
                proof {
                    lemma_leb_at_none(bytes@, p as int);
                }
                return Err(e);
            },
        }
        k = k + 1;
    }
    proof {
        assert(funcidxs_at(bytes@, p as int, 0) == Some((Seq::<u32>::empty(), p as int)));
    }
    if p != end {
        return Err(WasmError::TruncatedSection);
    }
    proof {
        match funcidxs_at(bytes@, p0, count as nat) {
            Some(pair0) => {
                assert(functions@ =~= functions@ + Seq::<u32>::empty());
                assert(functions@ =~= old(functions)@ + pair0.0);
            },
            None => {},
        }
    }
    Ok(())
}

/// Decodes the entries of one export section, appending them in order.
#[verifier::loop_isolation(false)]
fn parse_export_section(bytes: &[u8], start: usize, end: usize, exports: &mut Vec<RawExport>) -> (r:
    Result<(), WasmError>)
    requires
        end <= bytes@.len(),
    ensures
        match r {
            Ok(()) => export_section_at(bytes@, start as int, end as int) matches Some(es)
                && export_views(final(exports)@) == export_views(old(exports)@) + es,
            Err(_) => export_section_at(bytes@, start as int, end as int) is None,
        },
{
    let (count, p_first) = match read_u32_leb(bytes, start) {
        Ok(x) => x,
        Err(e) => {
            proof {
                lemma_leb_at_none(bytes@, start as int);
            }
            return Err(e);
        },
    };
    proof {
        lemma_leb_at_of_ok(bytes@, start as int, p_first as int);
    }
    let ghost p0: int = p_first as int;
    let mut p = p_first;
    let mut k: u32 = 0;
    while k < count
        invariant
            p <= bytes@.len(),
            k <= count,
            match exports_at(bytes@, p as int, (count - k) as nat) {
                Some(pair) => exports_at(bytes@, p0, count as nat) matches Some(pair0) && pair0.1
                    == pair.1 && export_views(old(exports)@) + pair0.0 == export_views(exports@)
                    + pair.0,
                None => exports_at(bytes@, p0, count as nat) is None,
            },
        decreases count - k,
    {
        let ghost n = (count - k) as nat;
        let (name, p1) = match read_name(bytes, p) {
            Ok(x) => x,
            Err(e) => {
                return Err(e);
            },
        };
        if p1 >= end {
            proof {
                lemma_leb_at_bounds(bytes@, p1 + 1);
                match export_at(bytes@, p as int) {
                    Some((ev0, q0)) => {
                        assert(q0 > p1);
                        lemma_exports_at_bounds(bytes@, q0, (n - 1) as nat);
                        assert(exports_at(bytes@, p as int, n) matches Some(pair) ==> pair.1
                            >= q0);
                    },
                    None => {
                        assert(exports_at(bytes@, p as int, n) is None);
                    },
                }
            }
            return Err(WasmError::TruncatedSection);
        }
        let kb = bytes[p1];
        let kind = if kb == 0x00 {
            ExportKind::Func
        } else if kb == 0x01 {
            ExportKind::Table
        } else if kb == 0x02 {
            ExportKind::Memory
        } else if kb == 0x03 {
            ExportKind::Other
        } else {
            return Err(WasmError::BadEntry);
        };
        let (index, p2) = match read_u32_leb(bytes, p1 + 1) {
            Ok(x) => x,
            Err(e) => {
                proof {
                    lemma_leb_at_none(bytes@, p1 + 1);
                }
                return Err(e);
            },
        };
        proof {
            lemma_leb_at_of_ok(bytes@, p1 + 1, p2 as int);
        }
        let ghost prev_exports = exports@;
        let ghost ev = RawExportV { name: name@, kind, index };
        proof {
            assert(export_at(bytes@, p as int) == Some((ev, p2 as int)));
        }
        exports.push(RawExport { name, kind, index });
        proof {
            assert(export_views(exports@) =~= export_views(prev_exports).push(ev));
            match exports_at(bytes@, p2 as int, (n - 1) as nat) {
                Some(pair) => {
                    assert(exports_at(bytes@, p as int, n) matches Some(pp) && pp.0 =~= seq![ev]
                        + pair.0 && pp.1 == pair.1);
                    assert(export_views(prev_exports) + (seq![ev] + pair.0) =~= export_views(
                        exports@,
                    ) + pair.0);
                },
                None => {
                    assert(exports_at(bytes@, p as int, n) is None);
                },
            }
        }
        p = p2;
        k = k + 1;
    }
    proof {
        assert(exports_at(bytes@, p as int, 0) == Some((Seq::<RawExportV>::empty(), p as int)));
    }
    if p != end {
        return Err(WasmError::TruncatedSection);
    }
    proof {
        match exports_at(bytes@, p0, count as nat) {
            Some(pair0) => {
                assert(export_views(exports@) =~= export_views(exports@) + Seq::<
                    RawExportV,
                >::empty());
                assert(export_views(exports@) =~= export_views(old(exports)@) + pair0.0);
            },
            None => {},
        }
    }
    Ok(())
}

/// Streams once through the binary's section sequence, decoding the
/// type, import, function and export sections and skipping every other
/// section kind without error, exactly as `decode_module` states.
/// Malformed framing is fatal.
#[verifier::loop_isolation(false)]
fn parse_raw(bytes: &[u8]) -> (r: Result<RawModule, WasmError>)
    ensures
        !module_has_header(bytes@) ==> r == Err::<RawModule, WasmError>(WasmError::BadHeader),
        match r {
            Ok(raw) => decode_module(bytes@) == Some(raw_module_view(raw)),
            Err(_) => decode_module(bytes@) is None,
        },
{
    if bytes.len() < 8 {
        return Err(WasmError::BadHeader);
    }
    if !(bytes[0] == 0x00 && bytes[1] == 0x61 && bytes[2] == 0x73 && bytes[3] == 0x6d && bytes[4]
        == 0x01 && bytes[5] == 0x00 && bytes[6] == 0x00 && bytes[7] == 0x00) {
        return Err(WasmError::BadHeader);
    }
    let mut types: Vec<RawFuncType> = Vec::new();
    let mut imports: Vec<RawImport> = Vec::new();
    let mut functions: Vec<u32> = Vec::new();
    let mut exports: Vec<RawExport> = Vec::new();
    proof {
        assert(functype_views(types@) =~= empty_raw().types);
        assert(import_views(imports@) =~= empty_raw().imports);
        assert(export_views(exports@) =~= empty_raw().exports);
        assert((RawModuleV {
            types: functype_views(types@),
            imports: import_views(imports@),
            functions: functions@,
            exports: export_views(exports@),
        }) == empty_raw());
    }
    let mut pos: usize = 8;
    while pos < bytes.len()
        invariant
            8 <= pos <= bytes@.len(),
            module_has_header(bytes@),
            walk_sections(bytes@, 8, empty_raw()) == walk_sections(
                bytes@,
                pos as int,
                RawModuleV {
                    types: functype_views(types@),
                    imports: import_views(imports@),
                    functions: functions@,
                    exports: export_views(exports@),
                },
            ),
        decreases bytes@.len() - pos,
    {
        let ghost acc = RawModuleV {
            types: functype_views(types@),
            imports: import_views(imports@),
            functions: functions@,
            exports: export_views(exports@),
        };
        let id = bytes[pos];
        let (size, p) = match read_u32_leb(bytes, pos + 1) {
            Ok(x) => x,
            Err(e) => {
                proof {
                    lemma_leb_at_none(bytes@, pos + 1);
                }
                return Err(e);
            },
        };
        proof {
            lemma_leb_at_of_ok(bytes@, pos + 1, p as int);
        }
        if (size as usize) > bytes.len() - p {
            return Err(WasmError::TruncatedSection);
        }
        let send = p + size as usize;
        if id == 1 {
            match parse_type_section(bytes, p, send, &mut types) {
                Ok(()) => {},
                Err(e) => {
                    return Err(e);
                },
            }
        } else if id == 2 {
            match parse_import_section(bytes, p, send, &mut imports) {
                Ok(()) => {},
                Err(e) => {
                    return Err(e);
                },
            }
        } else if id == 3 {
            match parse_function_section(bytes, p, send, &mut functions) {
                Ok(()) => {},
                Err(e) => {
                    return Err(e);
                },
            }
        } else if id == 7 {
            match parse_export_section(bytes, p, send, &mut exports) {
                Ok(()) => {},
                Err(e) => {
                    return Err(e);
                },
            }
        }
        pos = send;
    }
    let raw = RawModule { types, imports, functions, exports };
    proof {
        assert(raw_module_view(raw) == (RawModuleV {
            types: functype_views(raw.types@),
            imports: import_views(raw.imports@),
            functions: raw.functions@,
            exports: export_views(raw.exports@),
        }));
    }
    Ok(raw)
}

impl Module {
    /// Resolves the typed import/export table from the raw decoded
    /// sections: each entry keeps its names, and its type is resolved
    /// against the type section as `import_ty_resolved` and
    /// `export_ty_resolved` state.
    pub fn from_raw(raw: RawModule) -> (m: Module)
        ensures
            module_resolves(m, raw_module_view(raw)),
    {
        let ghost rawv = raw_module_view(raw);
        let RawModule { types, imports: raw_imports, functions: _, exports: raw_exports } = raw;
        let mut imports: Vec<ModuleImport> = Vec::new();
        let mut rem_imports = raw_imports;
        let ghost all_imports = rem_imports@;
        while rem_imports.len() > 0
            invariant
                imports@.len() + rem_imports@.len() == all_imports.len(),
                rem_imports@ == all_imports.subrange(imports@.len() as int, all_imports.len() as int),
                forall|i: int|
                    0 <= i < imports@.len() ==> {
                        &&& (#[trigger] imports@[i]).namespace == all_imports[i].namespace
                        &&& imports@[i].name == all_imports[i].name
                        &&& import_ty_resolved(
                            imports@[i].ty,
                            functype_views(types@),
                            all_imports[i].desc,
                        )
                    },
            decreases rem_imports@.len(),
        {
            let ghost k = imports@.len() as int;
            let ri = rem_imports.remove(0);
            proof {
                assert(ri == all_imports[k]);
                assert(rem_imports@ =~= all_imports.subrange(k + 1, all_imports.len() as int));
            }
            let ty = match ri.desc {
                ImportDesc::Func(idx) => {
                    if (idx as usize) < types.len() {
                        proof {
                            assert(functype_views(types@)[idx as int] == (FuncTypeV {
                                params: types@[idx as int].params@,
                                results: types@[idx as int].results@,
                            }));
                        }
                        ModuleType::from_functype(&types[idx as usize])
                    } else {
                        ModuleType::Unknown
                    }
                },
                ImportDesc::Table => ModuleType::Table,
                ImportDesc::Memory => ModuleType::Memory,
                ImportDesc::Other => ModuleType::Unknown,
            };
            imports.push(ModuleImport { namespace: ri.namespace, name: ri.name, ty });
        }
        let mut exports: Vec<ModuleExport> = Vec::new();
        let mut rem_exports = raw_exports;
        let ghost all_exports = rem_exports@;
        while rem_exports.len() > 0
            invariant
                exports@.len() + rem_exports@.len() == all_exports.len(),
                rem_exports@ == all_exports.subrange(exports@.len() as int, all_exports.len() as int),
                forall|i: int|
                    0 <= i < exports@.len() ==> {
                        &&& (#[trigger] exports@[i]).name == all_exports[i].name
                        &&& export_ty_resolved(
                            exports@[i].ty,
                            functype_views(types@),
                            all_exports[i].kind,
                            all_exports[i].index,
                        )
                    },
            decreases rem_exports@.len(),
        {
            let ghost k = exports@.len() as int;
            let re = rem_exports.remove(0);
            proof {
                assert(re == all_exports[k]);
                assert(rem_exports@ =~= all_exports.subrange(k + 1, all_exports.len() as int));
            }
            let ty = match re.kind {
                ExportKind::Func => {
                    if re.index >= 1 && ((re.index - 1) as usize) < types.len() {
                        proof {
                            assert(functype_views(types@)[re.index - 1] == (FuncTypeV {
                                params: types@[re.index - 1].params@,
                                results: types@[re.index - 1].results@,
                            }));
                        }
                        ModuleType::from_functype(&types[(re.index - 1) as usize])
                    } else {
                        ModuleType::Unknown
                    }
                },
                ExportKind::Table => ModuleType::Table,
                ExportKind::Memory => ModuleType::Memory,
                ExportKind::Other => ModuleType::Unknown,
            };
            exports.push(ModuleExport { name: re.name, ty });
        }
        let m = Module { imports, exports };
        proof {
            assert forall|i: int| 0 <= i < rawv.imports.len() implies {
                &&& (#[trigger] m.imports@[i]).namespace@ == rawv.imports[i].namespace
                &&& opt_str_view(m.imports@[i].name) == rawv.imports[i].name
                &&& import_ty_resolved(m.imports@[i].ty, rawv.types, rawv.imports[i].desc)
            } by {
                assert(rawv.imports[i] == (RawImportV {
                    namespace: all_imports[i].namespace@,
                    name: opt_str_view(all_imports[i].name),
                    desc: all_imports[i].desc,
                }));
            };
            assert forall|i: int| 0 <= i < rawv.exports.len() implies {
                &&& (#[trigger] m.exports@[i]).name@ == rawv.exports[i].name
                &&& export_ty_resolved(
                    m.exports@[i].ty,
                    rawv.types,
                    rawv.exports[i].kind,
                    rawv.exports[i].index,
                )
            } by {
                assert(rawv.exports[i] == (RawExportV {
                    name: all_exports[i].name@,
                    kind: all_exports[i].kind,
                    index: all_exports[i].index,
                }));
            };
        }
        m
    }

    /// Decodes a WebAssembly binary into its typed import/export table:
    /// succeeds exactly when the bytes decode as `decode_module` states
    /// (exact header, well-formed section framing), and then resolves
    /// the decoded sections into the typed table.  Malformed framing is
    /// fatal, and no partial module is ever returned.
    pub fn new(bytes: &[u8]) -> (r: Result<Module, WasmError>)
        ensures
            r is Ok <==> decode_module(bytes@) is Some,
            !module_has_header(bytes@) ==> r == Err::<Module, WasmError>(WasmError::BadHeader),
            r matches Ok(m) ==> decode_module(bytes@) matches Some(raw) && module_resolves(m, raw),
    {
        match parse_raw(bytes) {
            Ok(raw) => {
                let ghost rawv = raw_module_view(raw);
                let m = Module::from_raw(raw);
                Ok(m)
            },
            Err(e) => Err(e),
        }
    }
}

} // verus!
