use vstd::prelude::*;

verus! {

/// A WASM value type.  `F32`/`F64` are tags of the binary format; this
/// decoder never manipulates floating-point values.
#[derive(Clone, Copy, Debug, PartialEq, Eq, Structural)]
pub enum ValueType {
    I32,
    I64,
    F32,
    F64,
    V128,
    FuncRef,
    ExternRef,
}

/// A function signature: ordered parameter types, ordered result types.
#[derive(Clone, Debug, PartialEq, Eq)]
pub struct FuncType {
    pub params: Vec<ValueType>,
    pub results: Vec<ValueType>,
}

/// One entry of the type table.  Non-function composite types are recognized
/// but kept as an opaque marker so that the table's index positions stay
/// stable.
#[derive(Clone, Debug, PartialEq, Eq)]
pub enum TypeEntry {
    Func(FuncType),
    Other,
}

/// What an export points at.
#[derive(Clone, Copy, Debug, PartialEq, Eq, Structural)]
pub enum ExportKind {
    Function,
    Table,
    Memory,
    Global,
}

/// One export: a name, a kind, and an index into the kind's space.  The
/// index is passed through unvalidated.
#[derive(Clone, Debug, PartialEq, Eq)]
pub struct ExportEntry {
    pub name: String,
    pub kind: ExportKind,
    pub index: u32,
}

/// One memory: an initial page count and an optional maximum page count
/// (one page is 64 KiB).
#[derive(Clone, Copy, Debug, PartialEq, Eq)]
pub struct MemoryLimit {
    pub initial: u32,
    pub maximum: Option<u32>,
}

/// One custom section: a name and its opaque payload.  File order is kept
/// and names may repeat.
#[derive(Clone, Debug, PartialEq, Eq)]
pub struct CustomSection {
    pub name: String,
    pub payload: Vec<u8>,
}

/// The aggregate result of one decode: owned by the caller, with no
/// back-reference to the input buffer.
#[derive(Clone, Debug, PartialEq, Eq, Default)]
pub struct ModuleSummary {
    pub types: Vec<TypeEntry>,
    pub functions: Vec<u32>,
    pub exports: Vec<ExportEntry>,
    pub memories: Vec<MemoryLimit>,
    pub customs: Vec<CustomSection>,
}

/// Mathematical model of a [`FuncType`].
#[verifier::ext_equal]
pub struct FuncTypeModel {
    pub params: Seq<ValueType>,
    pub results: Seq<ValueType>,
}

/// Mathematical model of a [`TypeEntry`].
#[verifier::ext_equal]
pub enum TypeEntryModel {
    Func(FuncTypeModel),
    Other,
}

/// Mathematical model of an [`ExportEntry`].
#[verifier::ext_equal]
pub struct ExportModel {
    pub name: Seq<char>,
    pub kind: ExportKind,
    pub index: u32,
}

/// Mathematical model of a [`CustomSection`].
#[verifier::ext_equal]
pub struct CustomModel {
    pub name: Seq<char>,
    pub payload: Seq<u8>,
}

/// Mathematical model of a [`ModuleSummary`].
#[verifier::ext_equal]
pub struct ModuleModel {
    pub types: Seq<TypeEntryModel>,
    pub functions: Seq<u32>,
    pub exports: Seq<ExportModel>,
    pub memories: Seq<MemoryLimit>,
    pub customs: Seq<CustomModel>,
}

impl View for FuncType {
    type V = FuncTypeModel;

    open spec fn view(&self) -> FuncTypeModel {
        FuncTypeModel { params: self.params@, results: self.results@ }
    }
}

impl View for TypeEntry {
    type V = TypeEntryModel;

    open spec fn view(&self) -> TypeEntryModel {
        match self {
            TypeEntry::Func(ft) => TypeEntryModel::Func(ft@),
            TypeEntry::Other => TypeEntryModel::Other,
        }
    }
}

impl View for ExportEntry {
    type V = ExportModel;

    open spec fn view(&self) -> ExportModel {
        ExportModel { name: self.name@, kind: self.kind, index: self.index }
    }
}

impl View for CustomSection {
    type V = CustomModel;

    open spec fn view(&self) -> CustomModel {
        CustomModel { name: self.name@, payload: self.payload@ }
    }
}

/// The model of a sequence of type entries.
pub open spec fn entries_view(v: Seq<TypeEntry>) -> Seq<TypeEntryModel> {
    Seq::new(v.len(), |i: int| v[i]@)
}

/// The model of a sequence of exports.
pub open spec fn exports_view(v: Seq<ExportEntry>) -> Seq<ExportModel> {
    Seq::new(v.len(), |i: int| v[i]@)
}

/// The model of a sequence of custom sections.
pub open spec fn customs_view(v: Seq<CustomSection>) -> Seq<CustomModel> {
    Seq::new(v.len(), |i: int| v[i]@)
}

impl View for ModuleSummary {
    type V = ModuleModel;

    open spec fn view(&self) -> ModuleModel {
        ModuleModel {
            types: entries_view(self.types@),
            functions: self.functions@,
            exports: exports_view(self.exports@),
            memories: self.memories@,
            customs: customs_view(self.customs@),
        }
    }
}

/// The module model with every part empty.
pub open spec fn empty_module() -> ModuleModel {
    ModuleModel {
        types: Seq::empty(),
        functions: Seq::empty(),
        exports: Seq::empty(),
        memories: Seq::empty(),
        customs: Seq::empty(),
    }
}

/// A fresh, all-empty summary.
pub fn new_summary() -> (r: ModuleSummary)
    ensures
        r@ == empty_module(),
{
    let r = ModuleSummary {
        types: Vec::new(),
        functions: Vec::new(),
        exports: Vec::new(),
        memories: Vec::new(),
        customs: Vec::new(),
    };
    proof {
        assert(r@ =~~= empty_module());
    }
    r
}

/// The text name of a value type, as an inspector would print it.
pub fn valtype_to_str(val: ValueType) -> (r: &'static str)
    ensures
        val == ValueType::I32 ==> r@ == "i32"@,
        val == ValueType::I64 ==> r@ == "i64"@,
        val == ValueType::F32 ==> r@ == "f32"@,
        val == ValueType::F64 ==> r@ == "f64"@,
        val == ValueType::V128 ==> r@ == "v128"@,
        val == ValueType::FuncRef ==> r@ == "ref"@,
        val == ValueType::ExternRef ==> r@ == "ref"@,
{
    match val {
        ValueType::I32 => "i32",
        ValueType::I64 => "i64",
        ValueType::F32 => "f32",
        ValueType::F64 => "f64",
        ValueType::V128 => "v128",
        ValueType::FuncRef => "ref",
        ValueType::ExternRef => "ref",
    }
}

} // verus!
