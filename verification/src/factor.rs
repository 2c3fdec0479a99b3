//! What a factor declares: its window, its typed inputs and its outputs.
use vstd::prelude::*;
use vstd::string::StringExecFns;

verus! {

/// The element type of a factor input or output column.
#[derive(PartialEq, Eq, Structural, Clone, Copy, Debug)]
pub enum DType {
    F64,
    U32,
    I64,
}

/// The name a column type goes by.
pub open spec fn dtype_name(d: DType) -> Seq<char> {
    match d {
        DType::F64 => "Float64"@,
        DType::U32 => "UInt32"@,
        DType::I64 => "Int64"@,
    }
}

impl DType {
    /// The name this type goes by.
    pub fn name(self) -> (r: &'static str)
        ensures
            r@ == dtype_name(self),
    {
        match self {
            DType::F64 => "Float64",
            DType::U32 => "UInt32",
            DType::I64 => "Int64",
        }
    }
}

/// A named, typed column of a factor.
#[derive(Debug, Clone, Copy, PartialEq, Eq)]
pub struct ColumnSpec {
    pub name: &'static str,
    pub dtype: DType,
}

/// A factor as registered: its name, the kernel it runs, the number of
/// trailing rows the kernel sees, and its input and output columns.
#[derive(Debug, Clone, Copy)]
pub struct FactorDescriptor {
    pub factor_name: &'static str,
    pub kernel_name: &'static str,
    pub window: usize,
    pub inputs: &'static [ColumnSpec],
    pub outputs: &'static [ColumnSpec],
    pub param_set: Option<&'static str>,
}

/// A factor bound to the columns of one panel.
#[derive(Debug)]
pub struct ResolvedFactor {
    pub desc: FactorDescriptor,
    pub input_columns: Vec<String>,
    pub output_columns: Vec<String>,
}

/// The output column names of a factor: its own name when it has one output,
/// otherwise `factor.output` for each output.
pub open spec fn output_names(desc: FactorDescriptor) -> Seq<Seq<char>> {
    if desc.outputs@.len() == 1 {
        seq![desc.factor_name@]
    } else {
        Seq::new(
            desc.outputs@.len(),
            |i: int| desc.factor_name@ + "."@ + desc.outputs@[i].name@,
        )
    }
}

/// The views of a sequence of strings.
pub open spec fn strings_view(v: Seq<String>) -> Seq<Seq<char>> {
    v.map_values(|s: String| s@)
}

/// The output column names of a factor.
pub fn default_output_columns(desc: &FactorDescriptor) -> (r: Vec<String>)
    ensures
        strings_view(r@) == output_names(*desc),
{
    let mut out: Vec<String> = Vec::new();
    if desc.outputs.len() == 1 {
        out.push(<String as StringExecFns>::from_str(desc.factor_name));
        assert(strings_view(out@) =~= output_names(*desc));
        return out;
    }
    let mut i: usize = 0;
    while i < desc.outputs.len()
        invariant
            desc.outputs@.len() != 1,
            i <= desc.outputs.len(),
            out.len() == i,
            forall|j: int| 0 <= j < i ==> #[trigger] out@[j]@ == output_names(*desc)[j],
        decreases desc.outputs.len() - i,
    {
        let mut name = <String as StringExecFns>::from_str(desc.factor_name);
        name.append(".");
        name.append(desc.outputs[i].name);
        out.push(name);
        i = i + 1;
    }
    assert(strings_view(out@) =~= output_names(*desc));
    out
}

} // verus!
