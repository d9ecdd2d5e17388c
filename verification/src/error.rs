//! Error codes and the kernel's error type.

use vstd::prelude::*;
use vstd::string::StringExecFns;

verus! {

/// Numeric error code with ranges per subsystem: geometry 1xx, topology
/// 2xx, intersection 3xx, operations 4xx, input 5xx.
#[derive(Clone, Copy, Debug, PartialEq, Eq, Hash, Structural)]
pub enum ErrorCode {
    InvalidKnotVector,
    InsufficientControlPoints,
    NegativeWeight,
    DegenerateCurve,
    DegenerateSurface,
    OpenShell,
    NonManifoldEdge,
    InconsistentOrientation,
    DanglingReference,
    EulerViolation,
    LoopNotClosed,
    NoConvergence,
    MissedBranch,
    DegenerateIntersection,
    EmptyResult,
    SelfIntersecting,
    UnsupportedConfiguration,
    HistoryConflict,
    OperationTimeout,
    MalformedInput,
    UnsupportedFormat,
}

/// The number of each error code.
pub open spec fn error_code_number(c: ErrorCode) -> u32 {
    match c {
        ErrorCode::InvalidKnotVector => 100,
        ErrorCode::InsufficientControlPoints => 101,
        ErrorCode::NegativeWeight => 102,
        ErrorCode::DegenerateCurve => 103,
        ErrorCode::DegenerateSurface => 104,
        ErrorCode::OpenShell => 200,
        ErrorCode::NonManifoldEdge => 201,
        ErrorCode::InconsistentOrientation => 202,
        ErrorCode::DanglingReference => 203,
        ErrorCode::EulerViolation => 204,
        ErrorCode::LoopNotClosed => 205,
        ErrorCode::NoConvergence => 300,
        ErrorCode::MissedBranch => 301,
        ErrorCode::DegenerateIntersection => 302,
        ErrorCode::EmptyResult => 400,
        ErrorCode::SelfIntersecting => 401,
        ErrorCode::UnsupportedConfiguration => 402,
        ErrorCode::HistoryConflict => 403,
        ErrorCode::OperationTimeout => 404,
        ErrorCode::MalformedInput => 500,
        ErrorCode::UnsupportedFormat => 501,
    }
}

/// The decimal digit character for `d` in `0 ..= 9`.
pub open spec fn digit_char(d: int) -> char {
    (48 + d) as char
}

/// `v` written with exactly three decimal digits (zero padded).
pub open spec fn three_digits(v: int) -> Seq<char> {
    seq![digit_char((v / 100) % 10), digit_char((v / 10) % 10), digit_char(v % 10)]
}

/// The text of an error code: `E` followed by its number in three digits.
pub open spec fn error_code_label(c: ErrorCode) -> Seq<char> {
    seq!['E'] + three_digits(error_code_number(c) as int)
}

impl ErrorCode {
    /// The code's number.
    pub fn code(&self) -> (n: u32)
        ensures
            n == error_code_number(*self),
            100 <= n < 600,
    {
        match self {
            ErrorCode::InvalidKnotVector => 100,
            ErrorCode::InsufficientControlPoints => 101,
            ErrorCode::NegativeWeight => 102,
            ErrorCode::DegenerateCurve => 103,
            ErrorCode::DegenerateSurface => 104,
            ErrorCode::OpenShell => 200,
            ErrorCode::NonManifoldEdge => 201,
            ErrorCode::InconsistentOrientation => 202,
            ErrorCode::DanglingReference => 203,
            ErrorCode::EulerViolation => 204,
            ErrorCode::LoopNotClosed => 205,
            ErrorCode::NoConvergence => 300,
            ErrorCode::MissedBranch => 301,
            ErrorCode::DegenerateIntersection => 302,
            ErrorCode::EmptyResult => 400,
            ErrorCode::SelfIntersecting => 401,
            ErrorCode::UnsupportedConfiguration => 402,
            ErrorCode::HistoryConflict => 403,
            ErrorCode::OperationTimeout => 404,
            ErrorCode::MalformedInput => 500,
            ErrorCode::UnsupportedFormat => 501,
        }
    }

    /// The display text of the code, `E` and its three-digit number
    /// (such as `E100`).
    pub fn label(&self) -> (s: String)
        ensures
            s@ == error_code_label(*self),
    {
        let n = self.code();
        let mut s = String::from_str("E");
        proof {
            reveal_strlit("E");
        }
        push_digit(&mut s, (n / 100) % 10);
        push_digit(&mut s, (n / 10) % 10);
        push_digit(&mut s, n % 10);
        s
    }
}

/// Appends the decimal digit `d` to `s`.
fn push_digit(s: &mut String, d: u32)
    requires
        d < 10,
    ensures
        final(s)@ == old(s)@.push(digit_char(d as int)),
{
    let t: &str = match d {
        0 => "0",
        1 => "1",
        2 => "2",
        3 => "3",
        4 => "4",
        5 => "5",
        6 => "6",
        7 => "7",
        8 => "8",
        _ => "9",
    };
    proof {
        reveal_strlit("0");
        reveal_strlit("1");
        reveal_strlit("2");
        reveal_strlit("3");
        reveal_strlit("4");
        reveal_strlit("5");
        reveal_strlit("6");
        reveal_strlit("7");
        reveal_strlit("8");
        reveal_strlit("9");
    }
    s.append(t);
    assert(t@ =~= seq![digit_char(d as int)]);
}

/// The kernel's error type. Every fallible operation returns this.
#[derive(Clone, Debug)]
pub enum KernelError {
    InvalidGeometry { code: ErrorCode, detail: String },
    TopoInconsistency { code: ErrorCode, detail: String },
    IntersectionFailure { code: ErrorCode, detail: String },
    OperationFailed { code: ErrorCode, detail: String },
    InvalidInput { code: ErrorCode, detail: String },
    Degenerate { code: ErrorCode, detail: String },
    NumericalFailure { code: ErrorCode, detail: String },
    Io { detail: String },
}

/// Alias used throughout the kernel.
pub type KResult<T> = Result<T, KernelError>;

/// The code carried by an error, if any.
pub open spec fn kernel_error_code(e: KernelError) -> Option<ErrorCode> {
    match e {
        KernelError::InvalidGeometry { code, .. } => Some(code),
        KernelError::TopoInconsistency { code, .. } => Some(code),
        KernelError::IntersectionFailure { code, .. } => Some(code),
        KernelError::OperationFailed { code, .. } => Some(code),
        KernelError::InvalidInput { code, .. } => Some(code),
        KernelError::Degenerate { code, .. } => Some(code),
        KernelError::NumericalFailure { code, .. } => Some(code),
        KernelError::Io { .. } => None,
    }
}

/// The detail text of an error.
pub open spec fn kernel_error_detail(e: KernelError) -> Seq<char> {
    match e {
        KernelError::InvalidGeometry { detail, .. } => detail@,
        KernelError::TopoInconsistency { detail, .. } => detail@,
        KernelError::IntersectionFailure { detail, .. } => detail@,
        KernelError::OperationFailed { detail, .. } => detail@,
        KernelError::InvalidInput { detail, .. } => detail@,
        KernelError::Degenerate { detail, .. } => detail@,
        KernelError::NumericalFailure { detail, .. } => detail@,
        KernelError::Io { detail } => detail@,
    }
}

/// The variant name of an error.
pub open spec fn kernel_error_kind(e: KernelError) -> Seq<char> {
    match e {
        KernelError::InvalidGeometry { .. } => "InvalidGeometry"@,
        KernelError::TopoInconsistency { .. } => "TopoInconsistency"@,
        KernelError::IntersectionFailure { .. } => "IntersectionFailure"@,
        KernelError::OperationFailed { .. } => "OperationFailed"@,
        KernelError::InvalidInput { .. } => "InvalidInput"@,
        KernelError::Degenerate { .. } => "Degenerate"@,
        KernelError::NumericalFailure { .. } => "NumericalFailure"@,
        KernelError::Io { .. } => "Io"@,
    }
}

/// The human-readable description of each variant, before `(code)`.
pub open spec fn kernel_error_title(e: KernelError) -> Seq<char> {
    match e {
        KernelError::InvalidGeometry { .. } => "invalid geometry"@,
        KernelError::TopoInconsistency { .. } => "topological inconsistency"@,
        KernelError::IntersectionFailure { .. } => "intersection failure"@,
        KernelError::OperationFailed { .. } => "operation failed"@,
        KernelError::InvalidInput { .. } => "invalid input"@,
        KernelError::Degenerate { .. } => "degenerate configuration"@,
        KernelError::NumericalFailure { .. } => "numerical failure"@,
        KernelError::Io { .. } => "io error"@,
    }
}

/// The display message of an error: `title (E123): detail`, or
/// `io error: detail` for I/O errors.
pub open spec fn kernel_error_message(e: KernelError) -> Seq<char> {
    match kernel_error_code(e) {
        Some(c) => kernel_error_title(e) + " ("@ + error_code_label(c) + "): "@
            + kernel_error_detail(e),
        None => kernel_error_title(e) + ": "@ + kernel_error_detail(e),
    }
}

/// The compact form `E123:Kind:detail` (with `E000` for errors without a
/// code).
pub open spec fn kernel_error_compact(e: KernelError) -> Seq<char> {
    match kernel_error_code(e) {
        Some(c) => error_code_label(c) + ":"@ + kernel_error_kind(e) + ":"@ + kernel_error_detail(e),
        None => "E000"@ + ":"@ + kernel_error_kind(e) + ":"@ + kernel_error_detail(e),
    }
}

impl KernelError {
    /// The code carried by this error (`None` for I/O errors).
    pub fn code(&self) -> (c: Option<ErrorCode>)
        ensures
            c == kernel_error_code(*self),
    {
        match self {
            KernelError::InvalidGeometry { code, .. } => Some(*code),
            KernelError::TopoInconsistency { code, .. } => Some(*code),
            KernelError::IntersectionFailure { code, .. } => Some(*code),
            KernelError::OperationFailed { code, .. } => Some(*code),
            KernelError::InvalidInput { code, .. } => Some(*code),
            KernelError::Degenerate { code, .. } => Some(*code),
            KernelError::NumericalFailure { code, .. } => Some(*code),
            KernelError::Io { .. } => None,
        }
    }

    /// The detail text of this error.
    pub fn detail(&self) -> (d: &str)
        ensures
            d@ == kernel_error_detail(*self),
    {
        match self {
            KernelError::InvalidGeometry { detail, .. } => detail.as_str(),
            KernelError::TopoInconsistency { detail, .. } => detail.as_str(),
            KernelError::IntersectionFailure { detail, .. } => detail.as_str(),
            KernelError::OperationFailed { detail, .. } => detail.as_str(),
            KernelError::InvalidInput { detail, .. } => detail.as_str(),
            KernelError::Degenerate { detail, .. } => detail.as_str(),
            KernelError::NumericalFailure { detail, .. } => detail.as_str(),
            KernelError::Io { detail } => detail.as_str(),
        }
    }

    /// The variant name of this error.
    pub fn kind(&self) -> (k: &'static str)
        ensures
            k@ == kernel_error_kind(*self),
    {
        match self {
            KernelError::InvalidGeometry { .. } => "InvalidGeometry",
            KernelError::TopoInconsistency { .. } => "TopoInconsistency",
            KernelError::IntersectionFailure { .. } => "IntersectionFailure",
            KernelError::OperationFailed { .. } => "OperationFailed",
            KernelError::InvalidInput { .. } => "InvalidInput",
            KernelError::Degenerate { .. } => "Degenerate",
            KernelError::NumericalFailure { .. } => "NumericalFailure",
            KernelError::Io { .. } => "Io",
        }
    }

    /// The description that opens the display message.
    fn title(&self) -> (t: &'static str)
        ensures
            t@ == kernel_error_title(*self),
    {
        match self {
            KernelError::InvalidGeometry { .. } => "invalid geometry",
            KernelError::TopoInconsistency { .. } => "topological inconsistency",
            KernelError::IntersectionFailure { .. } => "intersection failure",
            KernelError::OperationFailed { .. } => "operation failed",
            KernelError::InvalidInput { .. } => "invalid input",
            KernelError::Degenerate { .. } => "degenerate configuration",
            KernelError::NumericalFailure { .. } => "numerical failure",
            KernelError::Io { .. } => "io error",
        }
    }

    /// The display message, such as `invalid geometry (E100): detail`.
    pub fn message(&self) -> (s: String)
        ensures
            s@ == kernel_error_message(*self),
    {
        let mut s = String::from_str(self.title());
        match self.code() {
            Some(c) => {
                s.append(" (");
                let label = c.label();
                s.append(label.as_str());
                s.append("): ");
            },
            None => {
                s.append(": ");
            },
        }
        s.append(self.detail());
        s
    }
}

/// Formats an error as `E123:Kind:detail`, using `E000` for errors that
/// carry no code, so that every error has the same shape.
pub fn format_kernel_error(e: &KernelError) -> (s: String)
    ensures
        s@ == kernel_error_compact(*e),
{
    let mut s = match e.code() {
        Some(c) => c.label(),
        None => String::from_str("E000"),
    };
    s.append(":");
    s.append(e.kind());
    s.append(":");
    s.append(e.detail());
    s
}

} // verus!
