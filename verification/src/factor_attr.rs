//! The rules of the `factor` attribute: its arguments (`window`, `windows`,
//! `outputs`), the output names a kernel gets, and the factors it registers.
use vstd::prelude::*;
use vstd::string::StringExecFns;
use crate::factor::{DType, strings_view};
use crate::frame::str_eq;

verus! {

/// An attribute argument value, as far as the rules read it.
#[derive(Debug)]
pub enum AttrValue {
    /// An integer literal, by its decimal digits.
    Int(String),
    /// A string literal, by its value.
    Str(String),
    Array(Vec<AttrValue>),
    /// Any other expression.
    Other,
}

/// One attribute argument.
#[derive(Debug)]
pub enum AttrItem {
    /// `name = value`.
    NameValue { name: String, value: AttrValue },
    /// Anything that is not of the form `name = value`.
    Other,
}

/// How many windows a factor declares.
#[derive(Debug)]
pub enum WindowArgs {
    Single(usize),
    Multi(Vec<usize>),
}

/// The parsed attribute arguments.
#[derive(Debug)]
pub struct FactorArgs {
    pub windows: WindowArgs,
    pub outputs: Option<Vec<String>>,
}

/// Why the attribute or the kernel signature is refused.
#[derive(Debug, Clone, Copy, PartialEq, Eq)]
pub enum MacroError {
    NotNameValue,
    DuplicateWindow,
    DuplicateWindows,
    DuplicateOutputs,
    ParamsUnsupported,
    UnsupportedAttribute,
    WindowAndWindows,
    MissingWindow,
    WindowNotInteger,
    WindowTooLarge,
    WindowZero,
    WindowsNotArray,
    WindowsEmpty,
    OutputsNotArray,
    OutputsEmpty,
    OutputNotString,
    OutputEmpty,
    SingleOutputCount,
    MultiOutputsMissing,
    OutputsLengthMismatch,
    InputDType,
    InputNotSlice,
    InputMutable,
    MethodUnsupported,
    InputPattern,
    InputPlainIdent,
    ReturnMissing,
    ResultArity,
    ReturnTypeUnsupported,
    TupleTooShort,
    OutputNotF64,
    ConstFn,
    AsyncFn,
    UnsafeFn,
    GenericFn,
    VariadicFn,
}

/// The message shown for each error.
pub open spec fn message_text(e: MacroError) -> Seq<char> {
    match e {
        MacroError::NotNameValue => "expected name-value factor attribute"@,
        MacroError::DuplicateWindow => "duplicate `window`"@,
        MacroError::DuplicateWindows => "duplicate `windows`"@,
        MacroError::DuplicateOutputs => "duplicate `outputs`"@,
        MacroError::ParamsUnsupported => "`params` are not supported until Phase 6"@,
        MacroError::UnsupportedAttribute => "unsupported factor attribute"@,
        MacroError::WindowAndWindows => "`window` and `windows` cannot be used together"@,
        MacroError::MissingWindow => "expected `window = N` or `windows = [N, ...]`"@,
        MacroError::WindowNotInteger => "`window` must be a positive integer"@,
        MacroError::WindowTooLarge => "number too large to fit in target type"@,
        MacroError::WindowZero => "`window` must be greater than zero"@,
        MacroError::WindowsNotArray => "`windows` must be an array of positive integers"@,
        MacroError::WindowsEmpty => "`windows` cannot be empty"@,
        MacroError::OutputsNotArray => "`outputs` must be an array of string literals"@,
        MacroError::OutputsEmpty => "`outputs` cannot be empty"@,
        MacroError::OutputNotString => "`outputs` entries must be string literals"@,
        MacroError::OutputEmpty => "`outputs` entries cannot be empty"@,
        MacroError::SingleOutputCount => "single-output factors must have exactly one output name"@,
        MacroError::MultiOutputsMissing => "multi-output factors must define `outputs = [...]`"@,
        MacroError::OutputsLengthMismatch => "`outputs` length must match tuple return length"@,
        MacroError::InputDType => "factor input dtype must be `f64`, `u32`, or `i64`"@,
        MacroError::InputNotSlice => "factor inputs must be typed slices like `&[f64]`"@,
        MacroError::InputMutable => "factor inputs cannot be mutable"@,
        MacroError::MethodUnsupported => "factor methods are not supported"@,
        MacroError::InputPattern => "factor input must use an identifier pattern"@,
        MacroError::InputPlainIdent => "factor input must use a plain identifier"@,
        MacroError::ReturnMissing => "factor functions must return `f64`, `(f64, ...)`, or `Result<T>`"@,
        MacroError::ResultArity => "`Result` return type must be `Result<T>`"@,
        MacroError::ReturnTypeUnsupported => "factor return type must be `f64`, `(f64, ...)`, or `Result<T>`"@,
        MacroError::TupleTooShort => "tuple factor output must contain at least two values"@,
        MacroError::OutputNotF64 => "factor outputs must be `f64` values"@,
        MacroError::ConstFn => "factor functions cannot be const"@,
        MacroError::AsyncFn => "factor functions cannot be async"@,
        MacroError::UnsafeFn => "factor functions cannot be unsafe"@,
        MacroError::GenericFn => "factor functions cannot be generic"@,
        MacroError::VariadicFn => "factor functions cannot be variadic"@,
    }
}

impl MacroError {
    /// The message shown for this error.
    pub fn message(&self) -> (r: &'static str)
        ensures
            r@ == message_text(*self),
    {
        match self {
            MacroError::NotNameValue => "expected name-value factor attribute",
            MacroError::DuplicateWindow => "duplicate `window`",
            MacroError::DuplicateWindows => "duplicate `windows`",
            MacroError::DuplicateOutputs => "duplicate `outputs`",
            MacroError::ParamsUnsupported => "`params` are not supported until Phase 6",
            MacroError::UnsupportedAttribute => "unsupported factor attribute",
            MacroError::WindowAndWindows => "`window` and `windows` cannot be used together",
            MacroError::MissingWindow => "expected `window = N` or `windows = [N, ...]`",
            MacroError::WindowNotInteger => "`window` must be a positive integer",
            MacroError::WindowTooLarge => "number too large to fit in target type",
            MacroError::WindowZero => "`window` must be greater than zero",
            MacroError::WindowsNotArray => "`windows` must be an array of positive integers",
            MacroError::WindowsEmpty => "`windows` cannot be empty",
            MacroError::OutputsNotArray => "`outputs` must be an array of string literals",
            MacroError::OutputsEmpty => "`outputs` cannot be empty",
            MacroError::OutputNotString => "`outputs` entries must be string literals",
            MacroError::OutputEmpty => "`outputs` entries cannot be empty",
            MacroError::SingleOutputCount => "single-output factors must have exactly one output name",
            MacroError::MultiOutputsMissing => "multi-output factors must define `outputs = [...]`",
            MacroError::OutputsLengthMismatch => "`outputs` length must match tuple return length",
            MacroError::InputDType => "factor input dtype must be `f64`, `u32`, or `i64`",
            MacroError::InputNotSlice => "factor inputs must be typed slices like `&[f64]`",
            MacroError::InputMutable => "factor inputs cannot be mutable",
            MacroError::MethodUnsupported => "factor methods are not supported",
            MacroError::InputPattern => "factor input must use an identifier pattern",
            MacroError::InputPlainIdent => "factor input must use a plain identifier",
            MacroError::ReturnMissing => "factor functions must return `f64`, `(f64, ...)`, or `Result<T>`",
            MacroError::ResultArity => "`Result` return type must be `Result<T>`",
            MacroError::ReturnTypeUnsupported => "factor return type must be `f64`, `(f64, ...)`, or `Result<T>`",
            MacroError::TupleTooShort => "tuple factor output must contain at least two values",
            MacroError::OutputNotF64 => "factor outputs must be `f64` values",
            MacroError::ConstFn => "factor functions cannot be const",
            MacroError::AsyncFn => "factor functions cannot be async",
            MacroError::UnsafeFn => "factor functions cannot be unsafe",
            MacroError::GenericFn => "factor functions cannot be generic",
            MacroError::VariadicFn => "factor functions cannot be variadic",
        }
    }
}

/// A decimal digit.
pub open spec fn is_digit(c: char) -> bool {
    '0' <= c <= '9'
}

/// The value of a string of decimal digits.
pub open spec fn decimal_value(s: Seq<char>) -> nat
    decreases s.len(),
{
    if s.len() == 0 {
        0
    } else {
        decimal_value(s.drop_last()) * 10 + (s.last() as nat - '0' as nat) as nat
    }
}

/// A non-empty string of decimal digits.
pub open spec fn all_digits(s: Seq<char>) -> bool {
    s.len() > 0 && forall|i: int| 0 <= i < s.len() ==> is_digit(#[trigger] s[i])
}

/// Reads decimal digits as a `usize`; `None` when they are not all digits or
/// the value does not fit.
pub fn parse_decimal(digits: &str) -> (r: Option<usize>)
    ensures
        all_digits(digits@) && decimal_value(digits@) <= usize::MAX ==> r == Some(
            decimal_value(digits@) as usize,
        ),
        !(all_digits(digits@) && decimal_value(digits@) <= usize::MAX) ==> r is None,
{
    let n = digits.unicode_len();
    if n == 0 {
        return None;
    }
    let mut value: usize = 0;
    let mut i: usize = 0;
    while i < n
        invariant
            n == digits@.len(),
            i <= n,
            forall|j: int| 0 <= j < i ==> is_digit(#[trigger] digits@[j]),
            value == decimal_value(digits@.take(i as int)),
        decreases n - i,
    {
        let c = digits.get_char(i);
        proof {
            assert(digits@.take(i + 1).drop_last() =~= digits@.take(i as int));
            assert(digits@.take(i + 1).last() == c);
        }
        if !('0' <= c && c <= '9') {
            return None;
        }
        let d = (c as u32 - '0' as u32) as usize;
        if value > (usize::MAX - d) / 10 {
            proof {
                assert(decimal_value(digits@.take(i + 1)) == value * 10 + d);
                assert(value * 10 + d > usize::MAX) by (nonlinear_arith)
                    requires
                        value > (usize::MAX - d) / 10,
                        d <= 9,
                ;
                lemma_decimal_prefix_le(digits@, i + 1);
            }
            return None;
        }
        proof {
            assert(value * 10 + d <= usize::MAX) by (nonlinear_arith)
                requires
                    value <= (usize::MAX - d) / 10,
                    d <= 9,
            ;
        }
        value = value * 10 + d;
        i = i + 1;
    }
    proof {
        assert(digits@.take(n as int) =~= digits@);
    }
    Some(value)
}

/// A longer run of digits is worth at least as much as its prefix.
proof fn lemma_decimal_prefix_le(s: Seq<char>, k: int)
    requires
        0 <= k <= s.len(),
        forall|j: int| 0 <= j < k ==> is_digit(#[trigger] s[j]),
    ensures
        all_digits(s) ==> decimal_value(s.take(k)) <= decimal_value(s),
    decreases s.len() - k,
{
    if k < s.len() && all_digits(s) {
        lemma_decimal_prefix_le(s, k + 1);
        assert(s.take(k + 1).drop_last() =~= s.take(k));
        assert(is_digit(s[k]));
    } else if k == s.len() {
        assert(s.take(k) =~= s);
    }
}

/// The window an argument value declares, or why it is refused.
pub open spec fn window_value(v: AttrValue) -> Result<usize, MacroError> {
    match v {
        AttrValue::Int(digits) => if !all_digits(digits@) || decimal_value(digits@) > usize::MAX {
            Err(MacroError::WindowTooLarge)
        } else if decimal_value(digits@) == 0 {
            Err(MacroError::WindowZero)
        } else {
            Ok(decimal_value(digits@) as usize)
        },
        _ => Err(MacroError::WindowNotInteger),
    }
}

/// Reads `window = N`: a positive integer literal.
pub fn parse_window(value: &AttrValue) -> (r: Result<usize, MacroError>)
    ensures
        r == window_value(*value),
{
    match value {
        AttrValue::Int(digits) => match parse_decimal(digits.as_str()) {
            None => Err(MacroError::WindowTooLarge),
            Some(0) => Err(MacroError::WindowZero),
            Some(w) => Ok(w),
        },
        _ => Err(MacroError::WindowNotInteger),
    }
}

/// The windows an array declares, or the first reason it is refused.
pub open spec fn windows_value(v: AttrValue) -> Result<Seq<usize>, MacroError> {
    match v {
        AttrValue::Array(elems) => if elems@.len() == 0 {
            Err(MacroError::WindowsEmpty)
        } else {
            windows_of(elems@)
        },
        _ => Err(MacroError::WindowsNotArray),
    }
}

/// The windows of the elements, or the refusal of the first bad one.
pub open spec fn windows_of(elems: Seq<AttrValue>) -> Result<Seq<usize>, MacroError>
    decreases elems.len(),
{
    if elems.len() == 0 {
        Ok(Seq::empty())
    } else {
        match windows_of(elems.drop_last()) {
            Err(e) => Err(e),
            Ok(ws) => match window_value(elems.last()) {
                Err(e) => Err(e),
                Ok(w) => Ok(ws.push(w)),
            },
        }
    }
}

/// A refusal among the first elements is the refusal of all of them.
proof fn lemma_windows_of_failed_prefix(elems: Seq<AttrValue>, k: int)
    requires
        0 <= k <= elems.len(),
        windows_of(elems.take(k)) is Err,
    ensures
        windows_of(elems) == windows_of(elems.take(k)),
    decreases elems.len() - k,
{
    if k < elems.len() {
        assert(elems.take(k + 1).drop_last() =~= elems.take(k));
        lemma_windows_of_failed_prefix(elems, k + 1);
    } else {
        assert(elems.take(k) =~= elems);
    }
}

/// Reads `windows = [N, ...]`: a non-empty array of positive integer literals.
#[verifier::loop_isolation(false)]
pub fn parse_windows(value: &AttrValue) -> (r: Result<Vec<usize>, MacroError>)
    ensures
        match windows_value(*value) {
            Ok(ws) => r matches Ok(v) && v@ == ws,
            Err(e) => r == Err::<Vec<usize>, MacroError>(e),
        },
{
    let elems = match value {
        AttrValue::Array(elems) => elems,
        _ => return Err(MacroError::WindowsNotArray),
    };
    if elems.len() == 0 {
        return Err(MacroError::WindowsEmpty);
    }
    let mut out: Vec<usize> = Vec::new();
    let mut i: usize = 0;
    proof {
        assert(elems@.take(0) =~= Seq::<AttrValue>::empty());
    }
    while i < elems.len()
        invariant
            i <= elems.len(),
            windows_of(elems@.take(i as int)) == Ok::<Seq<usize>, MacroError>(out@),
        decreases elems.len() - i,
    {
        proof {
            assert(elems@.take(i + 1).drop_last() =~= elems@.take(i as int));
            assert(elems@.take(i + 1).last() == elems@[i as int]);
        }
        match parse_window(&elems[i]) {
            Ok(w) => out.push(w),
            Err(e) => {
                proof {
                    lemma_windows_of_failed_prefix(elems@, i + 1);
                }
                return Err(e);
            },
        }
        i = i + 1;
    }
    proof {
        assert(elems@.take(elems.len() as int) =~= elems@);
    }
    Ok(out)
}

/// Output `i` is refused: not a string literal, or empty.
pub open spec fn output_refused(elems: Seq<AttrValue>, i: int) -> bool {
    match elems[i] {
        AttrValue::Str(s) => s@.len() == 0,
        _ => true,
    }
}

/// The output names an array declares, or the first reason it is refused.
pub open spec fn outputs_value(v: AttrValue) -> Result<Seq<Seq<char>>, MacroError> {
    match v {
        AttrValue::Array(elems) => if elems@.len() == 0 {
            Err(MacroError::OutputsEmpty)
        } else {
            match crate::frame::first_where(elems@.len(), |i: int| output_refused(elems@, i)) {
                Some(i) => if elems@[i] is Str {
                    Err(MacroError::OutputEmpty)
                } else {
                    Err(MacroError::OutputNotString)
                },
                None => Ok(
                    Seq::new(
                        elems@.len(),
                        |i: int|
                            match elems@[i] {
                                AttrValue::Str(s) => s@,
                                _ => Seq::empty(),
                            },
                    ),
                ),
            }
        },
        _ => Err(MacroError::OutputsNotArray),
    }
}

/// Reads `outputs = ["name", ...]`: a non-empty array of non-empty string literals.
#[verifier::loop_isolation(false)]
pub fn parse_outputs(value: &AttrValue) -> (r: Result<Vec<String>, MacroError>)
    ensures
        match outputs_value(*value) {
            Ok(names) => r matches Ok(v) && strings_view(v@) == names,
            Err(e) => r == Err::<Vec<String>, MacroError>(e),
        },
{
    let elems = match value {
        AttrValue::Array(elems) => elems,
        _ => return Err(MacroError::OutputsNotArray),
    };
    if elems.len() == 0 {
        return Err(MacroError::OutputsEmpty);
    }
    let ghost refused = |i: int| output_refused(elems@, i);
    let mut out: Vec<String> = Vec::new();
    let mut i: usize = 0;
    while i < elems.len()
        invariant
            i <= elems.len(),
            out.len() == i,
            forall|j: int| 0 <= j < i ==> !#[trigger] refused(j),
            forall|j: int|
                0 <= j < i ==> (#[trigger] elems@[j] matches AttrValue::Str(s) && s@ == out@[j]@),
        decreases elems.len() - i,
    {
        match &elems[i] {
            AttrValue::Str(s) => {
                if s.unicode_len() == 0 {
                    proof {
                        crate::frame::lemma_first_where_some(elems@.len(), refused, i as int);
                    }
                    return Err(MacroError::OutputEmpty);
                }
                out.push(s.clone());
            },
            _ => {
                proof {
                    crate::frame::lemma_first_where_some(elems@.len(), refused, i as int);
                }
                return Err(MacroError::OutputNotString);
            },
        }
        i = i + 1;
    }
    proof {
        crate::frame::lemma_first_where_none(elems@.len(), refused);
        assert(strings_view(out@) =~= Seq::new(
            elems@.len(),
            |i: int|
                match elems@[i] {
                    AttrValue::Str(s) => s@,
                    _ => Seq::empty(),
                },
        ));
    }
    Ok(out)
}

/// What the arguments seen so far declared: `window`, `windows`, `outputs`.
pub struct ArgsSeen {
    pub window: Option<usize>,
    pub windows: Option<Seq<usize>>,
    pub outputs: Option<Seq<Seq<char>>>,
}

/// Reading the arguments in order: what they declare, or the first refusal.
pub open spec fn args_seen(items: Seq<AttrItem>) -> Result<ArgsSeen, MacroError>
    decreases items.len(),
{
    if items.len() == 0 {
        Ok(ArgsSeen { window: None, windows: None, outputs: None })
    } else {
        match args_seen(items.drop_last()) {
            Err(e) => Err(e),
            Ok(seen) => match items.last() {
                AttrItem::Other => Err(MacroError::NotNameValue),
                AttrItem::NameValue { name, value } => if name@ == "window"@ {
                    if seen.window is Some {
                        Err(MacroError::DuplicateWindow)
                    } else {
                        match window_value(value) {
                            Err(e) => Err(e),
                            Ok(w) => Ok(ArgsSeen { window: Some(w), ..seen }),
                        }
                    }
                } else if name@ == "windows"@ {
                    if seen.windows is Some {
                        Err(MacroError::DuplicateWindows)
                    } else {
                        match windows_value(value) {
                            Err(e) => Err(e),
                            Ok(ws) => Ok(ArgsSeen { windows: Some(ws), ..seen }),
                        }
                    }
                } else if name@ == "outputs"@ {
                    if seen.outputs is Some {
                        Err(MacroError::DuplicateOutputs)
                    } else {
                        match outputs_value(value) {
                            Err(e) => Err(e),
                            Ok(os) => Ok(ArgsSeen { outputs: Some(os), ..seen }),
                        }
                    }
                } else if name@ == "params"@ {
                    Err(MacroError::ParamsUnsupported)
                } else {
                    Err(MacroError::UnsupportedAttribute)
                },
            },
        }
    }
}

/// The view of parsed arguments.
pub open spec fn args_view(a: FactorArgs) -> ArgsSeen {
    ArgsSeen {
        window: match a.windows {
            WindowArgs::Single(w) => Some(w),
            WindowArgs::Multi(_) => None,
        },
        windows: match a.windows {
            WindowArgs::Single(_) => None,
            WindowArgs::Multi(ws) => Some(ws@),
        },
        outputs: match a.outputs {
            Some(os) => Some(strings_view(os@)),
            None => None,
        },
    }
}

/// The outcome of reading all arguments: exactly one of `window` and
/// `windows` must be given.
pub open spec fn args_outcome(items: Seq<AttrItem>) -> Result<ArgsSeen, MacroError> {
    match args_seen(items) {
        Err(e) => Err(e),
        Ok(seen) => if seen.window is Some && seen.windows is Some {
            Err(MacroError::WindowAndWindows)
        } else if seen.window is None && seen.windows is None {
            Err(MacroError::MissingWindow)
        } else {
            Ok(seen)
        },
    }
}

/// A refusal among the first arguments is the refusal of all of them.
proof fn lemma_args_failed_prefix(items: Seq<AttrItem>, k: int)
    requires
        0 <= k <= items.len(),
        args_seen(items.take(k)) is Err,
    ensures
        args_seen(items) == args_seen(items.take(k)),
    decreases items.len() - k,
{
    if k < items.len() {
        assert(items.take(k + 1).drop_last() =~= items.take(k));
        lemma_args_failed_prefix(items, k + 1);
    } else {
        assert(items.take(k) =~= items);
    }
}

impl FactorArgs {
    /// Reads the attribute arguments in order.
    #[verifier::loop_isolation(false)]
    pub fn parse(items: &Vec<AttrItem>) -> (r: Result<Self, MacroError>)
        ensures
            match args_outcome(items@) {
                Ok(seen) => r matches Ok(a) && args_view(a) == seen,
                Err(e) => r matches Err(e2) && e2 == e,
            },
    {
        let mut window: Option<usize> = None;
        let mut windows: Option<Vec<usize>> = None;
        let mut outputs: Option<Vec<String>> = None;
        let mut i: usize = 0;
        proof {
            assert(items@.take(0) =~= Seq::<AttrItem>::empty());
        }
        while i < items.len()
            invariant
                i <= items.len(),
                args_seen(items@.take(i as int)) == Ok::<ArgsSeen, MacroError>(
                    ArgsSeen {
                        window: window,
                        windows: match windows {
                            Some(ws) => Some(ws@),
                            None => None,
                        },
                        outputs: match outputs {
                            Some(os) => Some(strings_view(os@)),
                            None => None,
                        },
                    },
                ),
            decreases items.len() - i,
        {
            proof {
                assert(items@.take(i + 1).drop_last() =~= items@.take(i as int));
                assert(items@.take(i + 1).last() == items@[i as int]);
            }
            match &items[i] {
                AttrItem::Other => {
                    proof {
                        lemma_args_failed_prefix(items@, i + 1);
                    }
                    return Err(MacroError::NotNameValue);
                },
                AttrItem::NameValue { name, value } => {
                    if str_eq(name.as_str(), "window") {
                        if window.is_some() {
                            proof {
                                lemma_args_failed_prefix(items@, i + 1);
                            }
                            return Err(MacroError::DuplicateWindow);
                        }
                        match parse_window(value) {
                            Ok(w) => {
                                window = Some(w);
                            },
                            Err(e) => {
                                proof {
                                    lemma_args_failed_prefix(items@, i + 1);
                                }
                                return Err(e);
                            },
                        }
                    } else if str_eq(name.as_str(), "windows") {
                        if windows.is_some() {
                            proof {
                                lemma_args_failed_prefix(items@, i + 1);
                            }
                            return Err(MacroError::DuplicateWindows);
                        }
                        match parse_windows(value) {
                            Ok(ws) => {
                                windows = Some(ws);
                            },
                            Err(e) => {
                                proof {
                                    lemma_args_failed_prefix(items@, i + 1);
                                }
                                return Err(e);
                            },
                        }
                    } else if str_eq(name.as_str(), "outputs") {
                        if outputs.is_some() {
                            proof {
                                lemma_args_failed_prefix(items@, i + 1);
                            }
                            return Err(MacroError::DuplicateOutputs);
                        }
                        match parse_outputs(value) {
                            Ok(os) => {
                                outputs = Some(os);
                            },
                            Err(e) => {
                                proof {
                                    lemma_args_failed_prefix(items@, i + 1);
                                }
                                return Err(e);
                            },
                        }
                    } else if str_eq(name.as_str(), "params") {
                        proof {
                            lemma_args_failed_prefix(items@, i + 1);
                        }
                        return Err(MacroError::ParamsUnsupported);
                    } else {
                        proof {
                            lemma_args_failed_prefix(items@, i + 1);
                        }
                        return Err(MacroError::UnsupportedAttribute);
                    }
                },
            }
            i = i + 1;
        }
        proof {
            assert(items@.take(items.len() as int) =~= items@);
        }
        match (window, windows) {
            (Some(w), None) => Ok(FactorArgs { windows: WindowArgs::Single(w), outputs }),
            (None, Some(ws)) => Ok(FactorArgs { windows: WindowArgs::Multi(ws), outputs }),
            (Some(_), Some(_)) => Err(MacroError::WindowAndWindows),
            (None, None) => Err(MacroError::MissingWindow),
        }
    }
}

/// The shape of a kernel's return value.
#[derive(Debug, Clone, Copy)]
pub enum OutputShape {
    Single,
    Tuple(usize),
}

/// The output names a kernel gets: for one output, the declared name or the
/// kernel's own; for a tuple, the declared names, one per element.
pub open spec fn output_names_for(
    kernel: Seq<char>,
    declared: Option<Seq<Seq<char>>>,
    shape: OutputShape,
) -> Result<(Seq<Seq<char>>, usize), MacroError> {
    match shape {
        OutputShape::Single => {
            let names = match declared {
                Some(n) => n,
                None => seq![kernel],
            };
            if names.len() != 1 {
                Err(MacroError::SingleOutputCount)
            } else {
                Ok((names, 1))
            }
        },
        OutputShape::Tuple(count) => match declared {
            None => Err(MacroError::MultiOutputsMissing),
            Some(n) => if n.len() != count {
                Err(MacroError::OutputsLengthMismatch)
            } else {
                Ok((n, count))
            },
        },
    }
}

/// A copy of a list of names.
fn copy_names(names: &Vec<String>) -> (r: Vec<String>)
    ensures
        strings_view(r@) == strings_view(names@),
{
    let mut r: Vec<String> = Vec::new();
    let mut i: usize = 0;
    while i < names.len()
        invariant
            i <= names.len(),
            r.len() == i,
            forall|j: int| 0 <= j < i ==> #[trigger] r@[j]@ == names@[j]@,
        decreases names.len() - i,
    {
        r.push(names[i].clone());
        i = i + 1;
    }
    assert(strings_view(r@) =~= strings_view(names@));
    r
}

/// The output names of kernel `kernel_name` and their number.
pub fn resolve_output_names(
    kernel_name: &str,
    attr_outputs: Option<&Vec<String>>,
    shape: &OutputShape,
) -> (r: Result<(Vec<String>, usize), MacroError>)
    ensures
        match output_names_for(
            kernel_name@,
            match attr_outputs {
                Some(v) => Some(strings_view(v@)),
                None => None,
            },
            *shape,
        ) {
            Ok((names, count)) => r matches Ok((v, c)) && strings_view(v@) == names && c == count,
            Err(e) => r matches Err(e2) && e2 == e,
        },
{
    match shape {
        OutputShape::Single => {
            let names = match attr_outputs {
                Some(v) => copy_names(v),
                None => {
                    let mut v: Vec<String> = Vec::new();
                    v.push(<String as StringExecFns>::from_str(kernel_name));
                    assert(strings_view(v@) =~= seq![kernel_name@]);
                    v
                },
            };
            if names.len() != 1 {
                return Err(MacroError::SingleOutputCount);
            }
            Ok((names, 1))
        },
        OutputShape::Tuple(count) => {
            let names = match attr_outputs {
                Some(v) => copy_names(v),
                None => return Err(MacroError::MultiOutputsMissing),
            };
            if names.len() != *count {
                return Err(MacroError::OutputsLengthMismatch);
            }
            Ok((names, *count))
        },
    }
}

/// The column type a kernel input slice of element type `name` reads.
pub fn input_dtype(name: &str) -> (r: Result<DType, MacroError>)
    ensures
        name@ == "f64"@ ==> r == Ok::<DType, MacroError>(DType::F64),
        name@ != "f64"@ && name@ == "u32"@ ==> r == Ok::<DType, MacroError>(DType::U32),
        name@ != "f64"@ && name@ != "u32"@ && name@ == "i64"@ ==> r == Ok::<DType, MacroError>(
            DType::I64,
        ),
        name@ != "f64"@ && name@ != "u32"@ && name@ != "i64"@ ==> r == Err::<DType, MacroError>(
            MacroError::InputDType,
        ),
{
    if str_eq(name, "f64") {
        Ok(DType::F64)
    } else if str_eq(name, "u32") {
        Ok(DType::U32)
    } else if str_eq(name, "i64") {
        Ok(DType::I64)
    } else {
        Err(MacroError::InputDType)
    }
}

/// The decimal digits, in order.
pub open spec fn digit_char(d: int) -> char {
    seq!['0', '1', '2', '3', '4', '5', '6', '7', '8', '9'][d]
}

/// The decimal form of `n`, without leading zeros.
pub open spec fn decimal_string(n: nat) -> Seq<char>
    decreases n,
{
    if n < 10 {
        seq![digit_char(n as int)]
    } else {
        decimal_string(n / 10).push(digit_char((n % 10) as int))
    }
}

/// The one-digit text of `d`.
fn digit_str(d: usize) -> (r: &'static str)
    requires
        d < 10,
    ensures
        r@ == seq![digit_char(d as int)],
{
    match d {
        0 => {
            proof {
                reveal_strlit("0");
            }
            "0"
        },
        1 => {
            proof {
                reveal_strlit("1");
            }
            "1"
        },
        2 => {
            proof {
                reveal_strlit("2");
            }
            "2"
        },
        3 => {
            proof {
                reveal_strlit("3");
            }
            "3"
        },
        4 => {
            proof {
                reveal_strlit("4");
            }
            "4"
        },
        5 => {
            proof {
                reveal_strlit("5");
            }
            "5"
        },
        6 => {
            proof {
                reveal_strlit("6");
            }
            "6"
        },
        7 => {
            proof {
                reveal_strlit("7");
            }
            "7"
        },
        8 => {
            proof {
                reveal_strlit("8");
            }
            "8"
        },
        _ => {
            proof {
                reveal_strlit("9");
            }
            "9"
        },
    }
}

/// The decimal form of `n`.
pub fn format_decimal(n: usize) -> (r: String)
    ensures
        r@ == decimal_string(n as nat),
    decreases n,
{
    if n < 10 {
        return <String as StringExecFns>::from_str(digit_str(n));
    }
    let mut s = format_decimal(n / 10);
    s.append(digit_str(n % 10));
    s
}

/// A digit character is worth its digit.
proof fn lemma_digit_value(d: int)
    requires
        0 <= d < 10,
    ensures
        is_digit(digit_char(d)),
        (digit_char(d) as nat - '0' as nat) == d,
{
    let ds = seq!['0', '1', '2', '3', '4', '5', '6', '7', '8', '9'];
    assert(ds[0] == '0' && ds[1] == '1' && ds[2] == '2' && ds[3] == '3' && ds[4] == '4');
    assert(ds[5] == '5' && ds[6] == '6' && ds[7] == '7' && ds[8] == '8' && ds[9] == '9');
    assert(('1' as nat) == 49 && ('9' as nat) == 57 && ('0' as nat) == 48);
    assert(('2' as nat) == 50 && ('3' as nat) == 51 && ('4' as nat) == 52);
    assert(('5' as nat) == 53 && ('6' as nat) == 54 && ('7' as nat) == 55 && ('8' as nat) == 56);
}

/// The decimal form of a number reads back as that number.
pub proof fn lemma_decimal_round_trip(n: nat)
    ensures
        all_digits(decimal_string(n)),
        decimal_value(decimal_string(n)) == n,
    decreases n,
{
    if n < 10 {
        lemma_digit_value(n as int);
        let s = decimal_string(n);
        assert(s.drop_last() =~= Seq::<char>::empty());
        assert(s.last() == digit_char(n as int));
        assert(decimal_value(s.drop_last()) == 0);
        assert(decimal_value(s) == decimal_value(s.drop_last()) * 10 + (s.last() as nat - '0' as nat) as nat);
    } else {
        lemma_digit_value((n % 10) as int);
        lemma_decimal_round_trip(n / 10);
        let s = decimal_string(n);
        assert(s.drop_last() =~= decimal_string(n / 10));
        assert forall|i: int| 0 <= i < s.len() implies is_digit(#[trigger] s[i]) by {
            if i < s.len() - 1 {
                assert(s[i] == decimal_string(n / 10)[i]);
            }
        }
        assert((n / 10) * 10 + n % 10 == n);
        assert(s.last() == digit_char((n % 10) as int));
        assert(decimal_value(s) == decimal_value(s.drop_last()) * 10 + (s.last() as nat - '0' as nat) as nat);
    }
}

/// A factor the attribute registers: its name and window.
#[derive(Debug)]
pub struct GeneratedFactor {
    pub factor_name: String,
    pub window: usize,
}

/// The factors a kernel registers: one under the kernel's name for `window`,
/// or one named `kernel_window` per entry of `windows`.
pub open spec fn factors_for(kernel: Seq<char>, windows: WindowArgs) -> Seq<(Seq<char>, usize)> {
    match windows {
        WindowArgs::Single(w) => seq![(kernel, w)],
        WindowArgs::Multi(ws) => Seq::new(
            ws@.len(),
            |i: int| (kernel + "_"@ + decimal_string(ws@[i] as nat), ws@[i]),
        ),
    }
}

/// The factors a kernel registers.
pub fn factor_names(kernel_name: &str, windows: &WindowArgs) -> (r: Vec<GeneratedFactor>)
    ensures
        r@.map_values(|g: GeneratedFactor| (g.factor_name@, g.window)) == factors_for(
            kernel_name@,
            *windows,
        ),
{
    let mut out: Vec<GeneratedFactor> = Vec::new();
    match windows {
        WindowArgs::Single(w) => {
            out.push(
                GeneratedFactor {
                    factor_name: <String as StringExecFns>::from_str(kernel_name),
                    window: *w,
                },
            );
            assert(out@.map_values(|g: GeneratedFactor| (g.factor_name@, g.window)) =~= factors_for(
                kernel_name@,
                *windows,
            ));
        },
        WindowArgs::Multi(ws) => {
            let mut i: usize = 0;
            while i < ws.len()
                invariant
                    i <= ws.len(),
                    out.len() == i,
                    forall|j: int|
                        0 <= j < i ==> (#[trigger] out@[j]).factor_name@ == kernel_name@ + "_"@
                            + decimal_string(ws@[j] as nat) && out@[j].window == ws@[j],
                decreases ws.len() - i,
            {
                let mut name = <String as StringExecFns>::from_str(kernel_name);
                name.append("_");
                let digits = format_decimal(ws[i]);
                name.append(digits.as_str());
                out.push(GeneratedFactor { factor_name: name, window: ws[i] });
                i = i + 1;
            }
            assert(out@.map_values(|g: GeneratedFactor| (g.factor_name@, g.window)) =~= factors_for(
                kernel_name@,
                *windows,
            ));
        },
    }
    out
}

} // verus!
