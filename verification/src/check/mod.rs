//! Semantic errors of SysY programs and the types the checker reasons about:
//! the error kinds with their numbers and messages, and how an error at a
//! line is reported.
use vstd::prelude::*;
use crate::text::{dec_digits, push_nat};

pub mod scope;
pub mod checker;

pub use scope::{ArrayStruct, ArrayView, Func, KeyView, Scope, ScopeKey, ScopeStack, StackView, Type, TypeView};
pub use checker::{Checker, CheckPair, Rule};

verus! {

/// The kinds of semantic error, each with the number under which it is reported.
#[derive(Debug, Clone, Copy, PartialEq, Eq)]
pub enum ErrorKind {
    /// Type 1: an undefined variable.
    UndefinedVal,
    /// Type 2: an undefined function.
    UndefinedFunc,
    /// Type 3: a variable defined twice.
    RedefineVal,
    /// Type 4: a function defined twice.
    RedefineFunc,
    /// Type 5: mismatched types in an assignment.
    TypeMismatch,
    /// Type 6: mismatched types for an operator.
    TypeMismatchOp,
    /// Type 7: a mismatched return type.
    ReturnMismatch,
    /// Type 8: a function applied to arguments it does not take.
    Inappropriate,
    /// Type 9: indexing something that is not an array.
    NotArrayAssign,
    /// Type 10: calling something that is not a function.
    UnlegalFuncCall,
    /// Type 11: assigning to something that is not a variable.
    UnexpectedFuncAssign,
    /// Type 0: any other error.
    Other,
}

/// The number under which an error kind is reported.
pub open spec fn kind_code(k: ErrorKind) -> nat {
    match k {
        ErrorKind::UndefinedVal => 1,
        ErrorKind::UndefinedFunc => 2,
        ErrorKind::RedefineVal => 3,
        ErrorKind::RedefineFunc => 4,
        ErrorKind::TypeMismatch => 5,
        ErrorKind::TypeMismatchOp => 6,
        ErrorKind::ReturnMismatch => 7,
        ErrorKind::Inappropriate => 8,
        ErrorKind::NotArrayAssign => 9,
        ErrorKind::UnlegalFuncCall => 10,
        ErrorKind::UnexpectedFuncAssign => 11,
        ErrorKind::Other => 0,
    }
}

/// The message of an error kind.
pub open spec fn kind_message(k: ErrorKind) -> Seq<char> {
    match k {
        ErrorKind::UndefinedVal => "Undefined variable"@,
        ErrorKind::UndefinedFunc => "Undefined function"@,
        ErrorKind::RedefineVal => "Redefined variable"@,
        ErrorKind::RedefineFunc => "Redefined function"@,
        ErrorKind::TypeMismatch => "Type mismatched for assignment"@,
        ErrorKind::TypeMismatchOp => "Type mismatched for op"@,
        ErrorKind::ReturnMismatch => "Type mismatched for return"@,
        ErrorKind::Inappropriate => "Function is not applicable for arguments"@,
        ErrorKind::NotArrayAssign => "Not an array"@,
        ErrorKind::UnlegalFuncCall => "Not a function"@,
        ErrorKind::UnexpectedFuncAssign => "The left-hand side of an assignment must be a variable"@,
        ErrorKind::Other => "other"@,
    }
}

impl ErrorKind {
    /// The number under which the kind is reported.
    pub fn code(&self) -> (r: u8)
        ensures
            r as nat == kind_code(*self),
    {
        match self {
            ErrorKind::UndefinedVal => 1,
            ErrorKind::UndefinedFunc => 2,
            ErrorKind::RedefineVal => 3,
            ErrorKind::RedefineFunc => 4,
            ErrorKind::TypeMismatch => 5,
            ErrorKind::TypeMismatchOp => 6,
            ErrorKind::ReturnMismatch => 7,
            ErrorKind::Inappropriate => 8,
            ErrorKind::NotArrayAssign => 9,
            ErrorKind::UnlegalFuncCall => 10,
            ErrorKind::UnexpectedFuncAssign => 11,
            ErrorKind::Other => 0,
        }
    }

    /// The kind's number as text.
    pub fn fmt(&self) -> (r: String)
        ensures
            r@ == dec_digits(kind_code(*self)),
    {
        let mut s = String::new();
        push_nat(&mut s, self.code() as u64);
        s
    }
}

/// A semantic error: its kind, its message, and the text it was found at.
#[derive(Debug)]
pub enum CheckError {
    UndefinedVal(ErrorKind, &'static str, Option<String>),
    UndefinedFunc(ErrorKind, &'static str, Option<String>),
    RedefineVal(ErrorKind, &'static str, Option<String>),
    RedefineFunc(ErrorKind, &'static str, Option<String>),
    TypeMismatch(ErrorKind, &'static str, Option<String>),
    TypeMismatchOp(ErrorKind, &'static str, Option<String>),
    ReturnMismatch(ErrorKind, &'static str, Option<String>),
    Inappropriate(ErrorKind, &'static str, Option<String>),
    NotArrayAssign(ErrorKind, &'static str, Option<String>),
    UnlegalFuncCall(ErrorKind, &'static str, Option<String>),
    UnexpectedFuncAssign(ErrorKind, &'static str, Option<String>),
    Other(ErrorKind, &'static str, Option<String>),
}

/// What a `CheckError` stands for.
pub struct ErrorView {
    pub kind: ErrorKind,
    pub message: Seq<char>,
    pub tip: Option<Seq<char>>,
}

/// The view of an optional text.
pub open spec fn opt_text(t: Option<String>) -> Option<Seq<char>> {
    match t {
        Some(s) => Some(s@),
        None => None,
    }
}

impl View for CheckError {
    type V = ErrorView;

    open spec fn view(&self) -> ErrorView {
        match self {
            CheckError::UndefinedVal(k, m, t) => ErrorView { kind: *k, message: m@, tip: opt_text(*t) },
            CheckError::UndefinedFunc(k, m, t) => ErrorView { kind: *k, message: m@, tip: opt_text(*t) },
            CheckError::RedefineVal(k, m, t) => ErrorView { kind: *k, message: m@, tip: opt_text(*t) },
            CheckError::RedefineFunc(k, m, t) => ErrorView { kind: *k, message: m@, tip: opt_text(*t) },
            CheckError::TypeMismatch(k, m, t) => ErrorView { kind: *k, message: m@, tip: opt_text(*t) },
            CheckError::TypeMismatchOp(k, m, t) => ErrorView { kind: *k, message: m@, tip: opt_text(*t) },
            CheckError::ReturnMismatch(k, m, t) => ErrorView { kind: *k, message: m@, tip: opt_text(*t) },
            CheckError::Inappropriate(k, m, t) => ErrorView { kind: *k, message: m@, tip: opt_text(*t) },
            CheckError::NotArrayAssign(k, m, t) => ErrorView { kind: *k, message: m@, tip: opt_text(*t) },
            CheckError::UnlegalFuncCall(k, m, t) => ErrorView { kind: *k, message: m@, tip: opt_text(*t) },
            CheckError::UnexpectedFuncAssign(k, m, t) => ErrorView { kind: *k, message: m@, tip: opt_text(*t) },
            CheckError::Other(k, m, t) => ErrorView { kind: *k, message: m@, tip: opt_text(*t) },
        }
    }
}

/// The text of an error: its message, then ` -> ` and the text it was found
/// at when there is one.
pub open spec fn error_text(e: ErrorView) -> Seq<char> {
    match e.tip {
        Some(t) => e.message + " -> "@ + t,
        None => e.message,
    }
}

impl CheckError {
    /// The error of a kind, in the variant of that kind, with the message of
    /// that kind.
    pub fn new(kind: ErrorKind, error_tip: Option<String>) -> (r: Self)
        ensures
            r@ == (ErrorView { kind, message: kind_message(kind), tip: opt_text(error_tip) }),
            r is UndefinedVal <==> kind is UndefinedVal,
            r is UndefinedFunc <==> kind is UndefinedFunc,
            r is RedefineVal <==> kind is RedefineVal,
            r is RedefineFunc <==> kind is RedefineFunc,
            r is TypeMismatch <==> kind is TypeMismatch,
            r is TypeMismatchOp <==> kind is TypeMismatchOp,
            r is ReturnMismatch <==> kind is ReturnMismatch,
            r is Inappropriate <==> kind is Inappropriate,
            r is NotArrayAssign <==> kind is NotArrayAssign,
            r is UnlegalFuncCall <==> kind is UnlegalFuncCall,
            r is UnexpectedFuncAssign <==> kind is UnexpectedFuncAssign,
            r is Other <==> kind is Other,
    {
        match kind {
            ErrorKind::UndefinedVal => CheckError::UndefinedVal(kind, "Undefined variable", error_tip),
            ErrorKind::UndefinedFunc => CheckError::UndefinedFunc(kind, "Undefined function", error_tip),
            ErrorKind::RedefineVal => CheckError::RedefineVal(kind, "Redefined variable", error_tip),
            ErrorKind::RedefineFunc => CheckError::RedefineFunc(kind, "Redefined function", error_tip),
            ErrorKind::TypeMismatch => CheckError::TypeMismatch(kind, "Type mismatched for assignment", error_tip),
            ErrorKind::TypeMismatchOp => CheckError::TypeMismatchOp(kind, "Type mismatched for op", error_tip),
            ErrorKind::ReturnMismatch => CheckError::ReturnMismatch(kind, "Type mismatched for return", error_tip),
            ErrorKind::Inappropriate => CheckError::Inappropriate(kind, "Function is not applicable for arguments", error_tip),
            ErrorKind::NotArrayAssign => CheckError::NotArrayAssign(kind, "Not an array", error_tip),
            ErrorKind::UnlegalFuncCall => CheckError::UnlegalFuncCall(kind, "Not a function", error_tip),
            ErrorKind::UnexpectedFuncAssign => CheckError::UnexpectedFuncAssign(
                kind,
                "The left-hand side of an assignment must be a variable",
                error_tip,
            ),
            ErrorKind::Other => CheckError::Other(kind, "other", error_tip),
        }
    }

    /// The kind of the error.
    pub fn get_kind(&self) -> (r: ErrorKind)
        ensures
            r == self@.kind,
    {
        match self {
            CheckError::UndefinedVal(kind, _, _)
            | CheckError::UndefinedFunc(kind, _, _)
            | CheckError::RedefineVal(kind, _, _)
            | CheckError::RedefineFunc(kind, _, _)
            | CheckError::TypeMismatch(kind, _, _)
            | CheckError::TypeMismatchOp(kind, _, _)
            | CheckError::ReturnMismatch(kind, _, _)
            | CheckError::Inappropriate(kind, _, _)
            | CheckError::NotArrayAssign(kind, _, _)
            | CheckError::UnlegalFuncCall(kind, _, _)
            | CheckError::UnexpectedFuncAssign(kind, _, _)
            | CheckError::Other(kind, _, _) => *kind,
        }
    }

    /// The text the error was found at, if any.
    pub fn get_tip(&self) -> (r: Option<String>)
        ensures
            opt_text(r) == self@.tip,
    {
        match self {
            CheckError::UndefinedVal(_, _, tip)
            | CheckError::UndefinedFunc(_, _, tip)
            | CheckError::RedefineVal(_, _, tip)
            | CheckError::RedefineFunc(_, _, tip)
            | CheckError::TypeMismatch(_, _, tip)
            | CheckError::TypeMismatchOp(_, _, tip)
            | CheckError::ReturnMismatch(_, _, tip)
            | CheckError::Inappropriate(_, _, tip)
            | CheckError::NotArrayAssign(_, _, tip)
            | CheckError::UnlegalFuncCall(_, _, tip)
            | CheckError::UnexpectedFuncAssign(_, _, tip)
            | CheckError::Other(_, _, tip) => match tip {
                Some(t) => Some(t.clone()),
                None => None,
            },
        }
    }

    /// The message of the error.
    pub fn get_msg(&self) -> (r: &'static str)
        ensures
            r@ == self@.message,
    {
        match self {
            CheckError::UndefinedVal(_, msg, _)
            | CheckError::UndefinedFunc(_, msg, _)
            | CheckError::RedefineVal(_, msg, _)
            | CheckError::RedefineFunc(_, msg, _)
            | CheckError::TypeMismatch(_, msg, _)
            | CheckError::TypeMismatchOp(_, msg, _)
            | CheckError::ReturnMismatch(_, msg, _)
            | CheckError::Inappropriate(_, msg, _)
            | CheckError::NotArrayAssign(_, msg, _)
            | CheckError::UnlegalFuncCall(_, msg, _)
            | CheckError::UnexpectedFuncAssign(_, msg, _)
            | CheckError::Other(_, msg, _) => msg,
        }
    }

    /// The text of the error (see `error_text`).
    pub fn build_str(&self) -> (r: String)
        ensures
            r@ == error_text(self@),
    {
        let tip = self.get_tip();
        let mut s = String::from_str(self.get_msg());
        match tip {
            Some(t) => {
                s.append(" -> ");
                s.append(t.as_str());
            }
            None => {}
        }
        s
    }
}

/// A semantic error found at a line, and its report once built.
#[derive(Debug)]
pub struct SemanticError {
    line_no: String,
    error_type: Option<CheckError>,
    output: String,
}

/// The report of an error at a line: `Error type N at Line L: text`.
pub open spec fn report_text(line_no: Seq<char>, e: ErrorView) -> Seq<char> {
    "Error type "@ + dec_digits(kind_code(e.kind)) + " at Line "@ + line_no + ": "@ + error_text(e)
}

impl SemanticError {
    /// An error at a line, not reported yet.
    pub fn new(line_no: String, error_type: Option<CheckError>) -> (r: Self)
        ensures
            r.line_no() == line_no@,
            r.error() == match error_type { Some(e) => Some(e@), None => None },
            r.output() == Seq::<char>::empty(),
    {
        Self { line_no, error_type, output: String::new() }
    }

    /// The line the error was found at.
    pub closed spec fn line_no(&self) -> Seq<char> {
        self.line_no@
    }

    /// The error, if any.
    pub closed spec fn error(&self) -> Option<ErrorView> {
        match self.error_type {
            Some(e) => Some(e@),
            None => None,
        }
    }

    /// The report built so far.
    pub closed spec fn output(&self) -> Seq<char> {
        self.output@
    }

    /// Builds the report: `Error type N at Line L: text`, or nothing when
    /// there is no error.
    pub fn build_str(&mut self)
        ensures
            final(self).line_no() == old(self).line_no(),
            final(self).error() == old(self).error(),
            final(self).output() == match old(self).error() {
                Some(e) => report_text(old(self).line_no(), e),
                None => Seq::<char>::empty(),
            },
    {
        match &self.error_type {
            Some(e) => {
                let mut s = String::from_str("Error type ");
                let code = e.get_kind().fmt();
                s.append(code.as_str());
                s.append(" at Line ");
                s.append(self.line_no.as_str());
                s.append(": ");
                let body = e.build_str();
                s.append(body.as_str());
                self.output = s;
            }
            None => {
                self.output = String::new();
            }
        }
    }

    /// The report built so far.
    pub fn get_output(&self) -> (r: &String)
        ensures
            r@ == self.output(),
    {
        &self.output
    }
}


} // verus!
