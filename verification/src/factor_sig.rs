//! The rules a `factor` kernel's signature must follow: typed slice inputs,
//! and an `f64`, a tuple of `f64`s, or a `Result` of either as its return type.
use vstd::prelude::*;
use vstd::string::StringExecFns;
use crate::factor::{DType, strings_view};
use crate::factor_attr::{
    FactorArgs, GeneratedFactor, MacroError, OutputShape, WindowArgs, args_view, factor_names,
    factors_for, input_dtype, output_names_for, resolve_output_names,
};
use crate::frame::str_eq;

verus! {

/// A type, as far as the signature rules read it.
#[derive(Debug)]
pub enum TypeModel {
    /// `&T` or `&mut T`.
    Reference { mutable: bool, elem: Box<TypeModel> },
    /// `[T]`.
    Slice(Box<TypeModel>),
    /// A path type without a qualified self.
    Path(PathModel),
    /// `(T, ...)`.
    Tuple(Vec<TypeModel>),
    Other,
}

/// A path type.
#[derive(Debug)]
pub struct PathModel {
    /// The identifier, when the path is one plain identifier.
    pub ident: Option<String>,
    /// The identifier of the last segment, if the path has segments.
    pub last_ident: Option<String>,
    /// The last segment's angle-bracketed arguments, whether each is a type;
    /// `None` when its arguments are not angle-bracketed.
    pub last_angle_args: Option<Vec<bool>>,
    /// The first angle-bracketed argument, when it is a type.
    pub first_type_arg: Option<Box<TypeModel>>,
}

/// The type is `f64`.
pub open spec fn is_f64(t: TypeModel) -> bool {
    t matches TypeModel::Path(p) && p.ident matches Some(s) && s@ == "f64"@
}

/// Whether a type is `f64`.
pub fn is_f64_type(ty: &TypeModel) -> (r: bool)
    ensures
        r == is_f64(*ty),
{
    match ty {
        TypeModel::Path(p) => match &p.ident {
            Some(s) => str_eq(s.as_str(), "f64"),
            None => false,
        },
        _ => false,
    }
}

/// The output shape a return type gives, or why it is refused.
pub open spec fn shape_of(t: TypeModel) -> Result<OutputShape, MacroError> {
    if is_f64(t) {
        Ok(OutputShape::Single)
    } else {
        match t {
            TypeModel::Tuple(elems) => if elems@.len() < 2 {
                Err(MacroError::TupleTooShort)
            } else if exists|i: int| 0 <= i < elems@.len() && !is_f64(#[trigger] elems@[i]) {
                Err(MacroError::OutputNotF64)
            } else {
                Ok(OutputShape::Tuple(elems@.len() as usize))
            },
            _ => Err(MacroError::ReturnTypeUnsupported),
        }
    }
}

/// The output shape of a return type: one `f64`, or a tuple of at least two.
#[verifier::loop_isolation(false)]
pub fn parse_output_shape(ty: &TypeModel) -> (r: Result<OutputShape, MacroError>)
    ensures
        r == shape_of(*ty),
{
    if is_f64_type(ty) {
        return Ok(OutputShape::Single);
    }
    let elems = match ty {
        TypeModel::Tuple(elems) => elems,
        _ => return Err(MacroError::ReturnTypeUnsupported),
    };
    if elems.len() < 2 {
        return Err(MacroError::TupleTooShort);
    }
    let mut i: usize = 0;
    while i < elems.len()
        invariant
            i <= elems.len(),
            forall|j: int| 0 <= j < i ==> is_f64(#[trigger] elems@[j]),
        decreases elems.len() - i,
    {
        if !is_f64_type(&elems[i]) {
            assert(!is_f64(elems@[i as int]));
            return Err(MacroError::OutputNotF64);
        }
        i = i + 1;
    }
    Ok(OutputShape::Tuple(elems.len()))
}

/// The type a `Result<T>` return type wraps; `None` when it is no `Result`.
pub open spec fn result_inner_of(t: TypeModel) -> Result<Option<TypeModel>, MacroError> {
    match t {
        TypeModel::Path(p) => match p.last_ident {
            None => Ok(None),
            Some(last) => if last@ != "Result"@ {
                Ok(None)
            } else {
                match p.last_angle_args {
                    None => Err(MacroError::ResultArity),
                    Some(args) => if args@.len() != 1 || !args@[0] {
                        Err(MacroError::ResultArity)
                    } else {
                        match p.first_type_arg {
                            Some(inner) => Ok(Some(*inner)),
                            None => Err(MacroError::ResultArity),
                        }
                    }
                }
            }
        },
        _ => Ok(None),
    }
}

/// The type a `Result<T>` return type wraps.
pub fn result_inner(ty: &TypeModel) -> (r: Result<Option<&TypeModel>, MacroError>)
    ensures
        match result_inner_of(*ty) {
            Ok(Some(inner)) => r matches Ok(Some(t)) && *t == inner,
            Ok(None) => r matches Ok(None),
            Err(e) => r matches Err(e2) && e2 == e,
        },
{
    let p = match ty {
        TypeModel::Path(p) => p,
        _ => return Ok(None),
    };
    let last = match &p.last_ident {
        Some(s) => s,
        None => return Ok(None),
    };
    if !str_eq(last.as_str(), "Result") {
        return Ok(None);
    }
    let args = match &p.last_angle_args {
        Some(a) => a,
        None => return Err(MacroError::ResultArity),
    };
    if args.len() != 1 || !args[0] {
        return Err(MacroError::ResultArity);
    }
    match &p.first_type_arg {
        Some(inner) => Ok(Some(&**inner)),
        None => Err(MacroError::ResultArity),
    }
}

/// What a kernel returns: the output shape, and whether it is a `Result`.
#[derive(Debug, Clone, Copy)]
pub struct ReturnSpec {
    pub shape: OutputShape,
    pub returns_result: bool,
}

/// The return spec a declared return type gives (`None`: no return type).
pub open spec fn return_spec_of(output: Option<TypeModel>) -> Result<ReturnSpec, MacroError> {
    match output {
        None => Err(MacroError::ReturnMissing),
        Some(t) => match result_inner_of(t) {
            Err(e) => Err(e),
            Ok(Some(inner)) => match shape_of(inner) {
                Err(e) => Err(e),
                Ok(shape) => Ok(ReturnSpec { shape, returns_result: true }),
            },
            Ok(None) => match shape_of(t) {
                Err(e) => Err(e),
                Ok(shape) => Ok(ReturnSpec { shape, returns_result: false }),
            },
        },
    }
}

/// Reads a kernel's return type.
pub fn parse_return_type(output: &Option<TypeModel>) -> (r: Result<ReturnSpec, MacroError>)
    ensures
        r == return_spec_of(*output),
{
    let ty = match output {
        Some(t) => t,
        None => return Err(MacroError::ReturnMissing),
    };
    match result_inner(ty) {
        Err(e) => Err(e),
        Ok(Some(inner)) => match parse_output_shape(inner) {
            Err(e) => Err(e),
            Ok(shape) => Ok(ReturnSpec { shape, returns_result: true }),
        },
        Ok(None) => match parse_output_shape(ty) {
            Err(e) => Err(e),
            Ok(shape) => Ok(ReturnSpec { shape, returns_result: false }),
        },
    }
}

/// The column type a kernel input's type reads, or why it is refused.
pub open spec fn slice_dtype_of(t: TypeModel) -> Result<DType, MacroError> {
    match t {
        TypeModel::Reference { mutable, elem } => if mutable {
            Err(MacroError::InputMutable)
        } else {
            match *elem {
                TypeModel::Slice(inner) => match *inner {
                    TypeModel::Path(p) => match p.ident {
                        Some(s) => if s@ == "f64"@ {
                            Ok(DType::F64)
                        } else if s@ == "u32"@ {
                            Ok(DType::U32)
                        } else if s@ == "i64"@ {
                            Ok(DType::I64)
                        } else {
                            Err(MacroError::InputDType)
                        },
                        None => Err(MacroError::InputDType),
                    },
                    _ => Err(MacroError::InputDType),
                },
                _ => Err(MacroError::InputNotSlice),
            }
        },
        _ => Err(MacroError::InputNotSlice),
    }
}

/// The column type of a kernel input: `&[f64]`, `&[u32]` or `&[i64]`.
pub fn parse_slice_type(ty: &TypeModel) -> (r: Result<DType, MacroError>)
    ensures
        r == slice_dtype_of(*ty),
{
    let (mutable, elem) = match ty {
        TypeModel::Reference { mutable, elem } => (*mutable, elem),
        _ => return Err(MacroError::InputNotSlice),
    };
    if mutable {
        return Err(MacroError::InputMutable);
    }
    let inner = match &**elem {
        TypeModel::Slice(inner) => inner,
        _ => return Err(MacroError::InputNotSlice),
    };
    let p = match &**inner {
        TypeModel::Path(p) => p,
        _ => return Err(MacroError::InputDType),
    };
    match &p.ident {
        Some(s) => input_dtype(s.as_str()),
        None => Err(MacroError::InputDType),
    }
}

/// A kernel argument.
#[derive(Debug)]
pub enum ArgModel {
    /// `self` in some form.
    Receiver,
    /// `pattern: type`.
    Typed { pat: PatModel, ty: TypeModel },
}

/// An argument pattern.
#[derive(Debug)]
pub enum PatModel {
    /// An identifier, with or without a `@` sub-pattern.
    Ident { name: String, has_subpat: bool },
    Other,
}

/// A kernel input: its name and the column type it reads.
#[derive(Debug)]
pub struct InputSpec {
    pub name: String,
    pub dtype: DType,
}

/// The input an argument declares, or why it is refused.
pub open spec fn input_of(a: ArgModel) -> Result<(Seq<char>, DType), MacroError> {
    match a {
        ArgModel::Receiver => Err(MacroError::MethodUnsupported),
        ArgModel::Typed { pat, ty } => match pat {
            PatModel::Ident { name, has_subpat } => if has_subpat {
                Err(MacroError::InputPlainIdent)
            } else {
                match slice_dtype_of(ty) {
                    Err(e) => Err(e),
                    Ok(d) => Ok((name@, d)),
                }
            },
            PatModel::Other => Err(MacroError::InputPattern),
        },
    }
}

/// Reads one kernel argument.
pub fn parse_input(arg: &ArgModel) -> (r: Result<InputSpec, MacroError>)
    ensures
        match input_of(*arg) {
            Ok((name, d)) => r matches Ok(spec) && spec.name@ == name && spec.dtype == d,
            Err(e) => r matches Err(e2) && e2 == e,
        },
{
    let (pat, ty) = match arg {
        ArgModel::Receiver => return Err(MacroError::MethodUnsupported),
        ArgModel::Typed { pat, ty } => (pat, ty),
    };
    let name = match pat {
        PatModel::Ident { name, has_subpat } => {
            if *has_subpat {
                return Err(MacroError::InputPlainIdent);
            }
            name
        },
        PatModel::Other => return Err(MacroError::InputPattern),
    };
    match parse_slice_type(ty) {
        Ok(dtype) => Ok(InputSpec { name: name.clone(), dtype }),
        Err(e) => Err(e),
    }
}

/// A kernel's signature, as far as the rules read it.
#[derive(Debug)]
pub struct SignatureModel {
    pub name: String,
    pub is_const: bool,
    pub is_async: bool,
    pub is_unsafe: bool,
    pub is_generic: bool,
    pub is_variadic: bool,
    pub inputs: Vec<ArgModel>,
    /// The declared return type, if any.
    pub output: Option<TypeModel>,
}

/// What the attribute generates from a kernel.
#[derive(Debug)]
pub struct FunctionAnalysis {
    pub kernel_name: String,
    pub inputs: Vec<InputSpec>,
    pub output_names: Vec<String>,
    pub output_count: usize,
    pub returns_result: bool,
    pub factors: Vec<GeneratedFactor>,
}

/// The first argument that is refused, if any.
pub open spec fn first_bad_input(args: Seq<ArgModel>) -> Option<int> {
    crate::frame::first_where(args.len(), |i: int| input_of(args[i]) is Err)
}

/// The first reason a kernel signature is refused, in the order checked.
pub open spec fn signature_error(sig: SignatureModel, args: FactorArgs) -> Option<MacroError> {
    if sig.is_const {
        Some(MacroError::ConstFn)
    } else if sig.is_async {
        Some(MacroError::AsyncFn)
    } else if sig.is_unsafe {
        Some(MacroError::UnsafeFn)
    } else if sig.is_generic {
        Some(MacroError::GenericFn)
    } else if sig.is_variadic {
        Some(MacroError::VariadicFn)
    } else {
        match first_bad_input(sig.inputs@) {
            Some(i) => Some(input_of(sig.inputs@[i])->Err_0),
            None => match return_spec_of(sig.output) {
                Err(e) => Some(e),
                Ok(rs) => match output_names_for(sig.name@, args_view(args).outputs, rs.shape) {
                    Err(e) => Some(e),
                    Ok(_) => None,
                },
            },
        }
    }
}

impl FunctionAnalysis {
    /// Checks a kernel signature against the attribute arguments and works
    /// out the inputs, the output names and the factors to register.
    #[verifier::loop_isolation(false)]
    pub fn new(sig: &SignatureModel, args: &FactorArgs) -> (r: Result<Self, MacroError>)
        ensures
            signature_error(*sig, *args) matches Some(e) ==> r == Err::<Self, MacroError>(e),
            signature_error(*sig, *args) is None ==> (r matches Ok(a) && {
                let rs = return_spec_of(sig.output)->Ok_0;
                let outs = output_names_for(sig.name@, args_view(*args).outputs, rs.shape)->Ok_0;
                &&& a.kernel_name@ == sig.name@
                &&& a.inputs.len() == sig.inputs.len()
                &&& forall|i: int|
                    0 <= i < a.inputs.len() ==> input_of(sig.inputs@[i]) == Ok::<
                        (Seq<char>, DType),
                        MacroError,
                    >(((#[trigger] a.inputs@[i]).name@, a.inputs@[i].dtype))
                &&& a.returns_result == rs.returns_result
                &&& strings_view(a.output_names@) == outs.0
                &&& a.output_count == outs.1
                &&& a.factors@.map_values(|g: GeneratedFactor| (g.factor_name@, g.window))
                    == factors_for(sig.name@, args.windows)
            }),
    {
        if sig.is_const {
            return Err(MacroError::ConstFn);
        }
        if sig.is_async {
            return Err(MacroError::AsyncFn);
        }
        if sig.is_unsafe {
            return Err(MacroError::UnsafeFn);
        }
        if sig.is_generic {
            return Err(MacroError::GenericFn);
        }
        if sig.is_variadic {
            return Err(MacroError::VariadicFn);
        }
        let ghost bad = |i: int| input_of(sig.inputs@[i]) is Err;
        let mut inputs: Vec<InputSpec> = Vec::new();
        let mut i: usize = 0;
        while i < sig.inputs.len()
            invariant
                bad == (|i: int| input_of(sig.inputs@[i]) is Err),
                i <= sig.inputs.len(),
                inputs.len() == i,
                forall|j: int| 0 <= j < i ==> !#[trigger] bad(j),
                forall|j: int|
                    0 <= j < i ==> input_of(sig.inputs@[j]) == Ok::<(Seq<char>, DType), MacroError>(
                        ((#[trigger] inputs@[j]).name@, inputs@[j].dtype),
                    ),
            decreases sig.inputs.len() - i,
        {
            match parse_input(&sig.inputs[i]) {
                Ok(spec) => inputs.push(spec),
                Err(e) => {
                    proof {
                        crate::frame::lemma_first_where_some(sig.inputs@.len(), bad, i as int);
                    }
                    return Err(e);
                },
            }
            i = i + 1;
        }
        proof {
            crate::frame::lemma_first_where_none(sig.inputs@.len(), bad);
        }
        let return_spec = match parse_return_type(&sig.output) {
            Ok(rs) => rs,
            Err(e) => return Err(e),
        };
        let (output_names, output_count) = match resolve_output_names(
            sig.name.as_str(),
            args.outputs.as_ref(),
            &return_spec.shape,
        ) {
            Ok(v) => v,
            Err(e) => return Err(e),
        };
        let factors = factor_names(sig.name.as_str(), &args.windows);
        Ok(
            FunctionAnalysis {
                kernel_name: sig.name.clone(),
                inputs,
                output_names,
                output_count,
                returns_result: return_spec.returns_result,
                factors,
            },
        )
    }
}

} // verus!
