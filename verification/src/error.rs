//! The ways in which a patch can fail.

use crate::svd::Usage;
use crate::yaml::{Yaml, YamlView};
use svd_parser::svd::SvdError;
use vstd::prelude::*;

verus! {

/// An error of `globset` about a pattern.
#[verifier::external_type_specification]
#[verifier::external_body]
pub struct ExGlobError(globset::Error);

/// An error of `svd_parser` about an element of a device description.
#[verifier::external_type_specification]
#[verifier::external_body]
pub struct ExSvdError(svd_parser::svd::SvdError);

/// What was being done when a patch was refused.
#[derive(PartialEq, Eq, Debug)]
pub enum Step {
    /// Modifying the fields that a specification picks out.
    Modifying(String),
    /// Adding a field of some name.
    Adding(String),
    /// Merging the fields that a specification picks out.
    Merging(String),
    /// Splitting the fields that a specification picks out.
    Splitting(String),
    /// Stripping a string from the start of names.
    StrippingStart(String),
    /// Stripping a string from the end of names.
    StrippingEnd(String),
    /// Giving the fields that a specification picks out what an entry describes.
    Processing(String),
    /// Collecting the fields that a specification picks out into an array.
    Collecting(String),
    /// Adding enumerated values.
    AddingValues(Usage),
    /// Adding the range of what may be written.
    AddingRange,
}

/// The model of a [`Step`].
#[verifier::ext_equal]
pub enum StepView {
    Modifying(Seq<char>),
    Adding(Seq<char>),
    Merging(Seq<char>),
    Splitting(Seq<char>),
    StrippingStart(Seq<char>),
    StrippingEnd(Seq<char>),
    Processing(Seq<char>),
    Collecting(Seq<char>),
    AddingValues(Usage),
    AddingRange,
}

impl View for Step {
    type V = StepView;

    open spec fn view(&self) -> StepView {
        match *self {
            Step::Modifying(spec) => StepView::Modifying(spec@),
            Step::Adding(name) => StepView::Adding(name@),
            Step::Merging(spec) => StepView::Merging(spec@),
            Step::Splitting(spec) => StepView::Splitting(spec@),
            Step::StrippingStart(substr) => StepView::StrippingStart(substr@),
            Step::StrippingEnd(substr) => StepView::StrippingEnd(substr@),
            Step::Processing(spec) => StepView::Processing(spec@),
            Step::Collecting(spec) => StepView::Collecting(spec@),
            Step::AddingValues(usage) => StepView::AddingValues(usage),
            Step::AddingRange => StepView::AddingRange,
        }
    }
}

/// Why a patch was refused.
#[derive(PartialEq, Eq, Debug)]
pub enum PatchError {
    /// The register already has a field of that name.
    FieldExists { register: String, field: String },
    /// A write constraint that is none of `none`, `enum` and a range.
    UnknownWriteConstraint { constraint: Yaml },
    /// A merge that is given neither a specification nor a list of them.
    InvalidMerge { register: String, key: String },
    /// No field to merge.
    NothingToMerge { register: String, key: String },
    /// No field to split.
    NothingToSplit { register: String, spec: String },
    /// No field to collect into an array.
    NothingToCollect { register: String, spec: String },
    /// The fields are not spaced evenly.
    NotCollectable { register: String, spec: String },
    /// No field matches the specification.
    FieldNotFound { peripheral: String, register: String, spec: String },
    /// The field already has enumerated values for that usage.
    EnumExists { field: String, usage: Usage },
    /// The field has more than two sets of enumerated values.
    IncorrectEnumeratedValues,
    /// The enumerated values to copy are copies themselves.
    MultilevelDerive { peripheral: String, name: String },
    /// The enumerated values to copy do not exist.
    EnumNotFound { peripheral: String, name: String },
    /// There are several enumerated values of that name to copy.
    EnumAmbiguous { peripheral: String, name: String },
    /// The enumerated values to copy are meant for another usage.
    UsageMismatch { usage: Usage, found: Usage },
    /// A field cannot copy its own enumerated values.
    SelfDerived,
    /// The name of enumerated values begins with a digit.
    EnumNameDigit { name: String },
    /// The name of an enumerated value begins with a digit.
    ValueNameDigit { name: String },
    /// Two names stand for one value.
    DuplicateValue { name: String, value: i64 },
    /// An enumerated value comes without its number or its description.
    IncompleteValue { name: String },
    /// There are neither values nor a set to copy them from.
    NoValues,
    /// A new field comes without its offset or its width.
    NoBitRange,
    /// A string was expected.
    NotString,
    /// A number was expected.
    NotInteger,
    /// A list was expected.
    NotArray,
    /// A mapping was expected.
    NotHash,
    /// A pattern with alternatives that are nested too deeply.
    PatternTooDeep { pattern: String },
    /// A pattern that `globset` refuses.
    Glob(globset::Error),
    /// A field that `svd_parser` refuses.
    Svd(SvdError),
    /// A step of a patch failed.
    During { step: Step, error: Box<PatchError> },
}

/// The model of a [`PatchError`].
#[verifier::ext_equal]
pub enum ErrorView {
    FieldExists { register: Seq<char>, field: Seq<char> },
    UnknownWriteConstraint { constraint: YamlView },
    InvalidMerge { register: Seq<char>, key: Seq<char> },
    NothingToMerge { register: Seq<char>, key: Seq<char> },
    NothingToSplit { register: Seq<char>, spec: Seq<char> },
    NothingToCollect { register: Seq<char>, spec: Seq<char> },
    NotCollectable { register: Seq<char>, spec: Seq<char> },
    FieldNotFound { peripheral: Seq<char>, register: Seq<char>, spec: Seq<char> },
    EnumExists { field: Seq<char>, usage: Usage },
    IncorrectEnumeratedValues,
    MultilevelDerive { peripheral: Seq<char>, name: Seq<char> },
    EnumNotFound { peripheral: Seq<char>, name: Seq<char> },
    EnumAmbiguous { peripheral: Seq<char>, name: Seq<char> },
    UsageMismatch { usage: Usage, found: Usage },
    SelfDerived,
    EnumNameDigit { name: Seq<char> },
    ValueNameDigit { name: Seq<char> },
    DuplicateValue { name: Seq<char>, value: i64 },
    IncompleteValue { name: Seq<char> },
    NoValues,
    NoBitRange,
    NotString,
    NotInteger,
    NotArray,
    NotHash,
    PatternTooDeep { pattern: Seq<char> },
    Glob(globset::Error),
    Svd(SvdError),
    During { step: StepView, error: Box<ErrorView> },
}

impl View for PatchError {
    type V = ErrorView;

    open spec fn view(&self) -> ErrorView
        decreases *self,
    {
        match *self {
            PatchError::FieldExists { register, field } => ErrorView::FieldExists {
                register: register@,
                field: field@,
            },
            PatchError::UnknownWriteConstraint { constraint } => ErrorView::UnknownWriteConstraint {
                constraint: constraint@,
            },
            PatchError::InvalidMerge { register, key } => ErrorView::InvalidMerge {
                register: register@,
                key: key@,
            },
            PatchError::NothingToMerge { register, key } => ErrorView::NothingToMerge {
                register: register@,
                key: key@,
            },
            PatchError::NothingToSplit { register, spec } => ErrorView::NothingToSplit {
                register: register@,
                spec: spec@,
            },
            PatchError::NothingToCollect { register, spec } => ErrorView::NothingToCollect {
                register: register@,
                spec: spec@,
            },
            PatchError::NotCollectable { register, spec } => ErrorView::NotCollectable {
                register: register@,
                spec: spec@,
            },
            PatchError::FieldNotFound { peripheral, register, spec } => ErrorView::FieldNotFound {
                peripheral: peripheral@,
                register: register@,
                spec: spec@,
            },
            PatchError::EnumExists { field, usage } => ErrorView::EnumExists {
                field: field@,
                usage,
            },
            PatchError::IncorrectEnumeratedValues => ErrorView::IncorrectEnumeratedValues,
            PatchError::MultilevelDerive { peripheral, name } => ErrorView::MultilevelDerive {
                peripheral: peripheral@,
                name: name@,
            },
            PatchError::EnumNotFound { peripheral, name } => ErrorView::EnumNotFound {
                peripheral: peripheral@,
                name: name@,
            },
            PatchError::EnumAmbiguous { peripheral, name } => ErrorView::EnumAmbiguous {
                peripheral: peripheral@,
                name: name@,
            },
            PatchError::UsageMismatch { usage, found } => ErrorView::UsageMismatch { usage, found },
            PatchError::SelfDerived => ErrorView::SelfDerived,
            PatchError::EnumNameDigit { name } => ErrorView::EnumNameDigit { name: name@ },
            PatchError::ValueNameDigit { name } => ErrorView::ValueNameDigit { name: name@ },
            PatchError::DuplicateValue { name, value } => ErrorView::DuplicateValue {
                name: name@,
                value,
            },
            PatchError::IncompleteValue { name } => ErrorView::IncompleteValue { name: name@ },
            PatchError::NoValues => ErrorView::NoValues,
            PatchError::NoBitRange => ErrorView::NoBitRange,
            PatchError::NotString => ErrorView::NotString,
            PatchError::NotInteger => ErrorView::NotInteger,
            PatchError::NotArray => ErrorView::NotArray,
            PatchError::NotHash => ErrorView::NotHash,
            PatchError::PatternTooDeep { pattern } => ErrorView::PatternTooDeep {
                pattern: pattern@,
            },
            PatchError::Glob(e) => ErrorView::Glob(e),
            PatchError::Svd(e) => ErrorView::Svd(e),
            PatchError::During { step, error } => ErrorView::During {
                step: step@,
                error: Box::new((*error).view()),
            },
        }
    }
}

/// What a patch answers.
pub type PatchResult = Result<(), PatchError>;

/// The model of what a patch answers.
pub open spec fn outcome(r: PatchResult) -> Result<(), ErrorView> {
    match r {
        Ok(_) => Ok(()),
        Err(e) => Err(e@),
    }
}

/// What a step that is part of a patch answers: where it fails, the error says which step it was.
pub open spec fn during(step: StepView, answer: Result<(), ErrorView>) -> Result<(), ErrorView> {
    match answer {
        Ok(_) => Ok(()),
        Err(e) => Err(ErrorView::During { step, error: Box::new(e) }),
    }
}

/// Says which step it was that failed, if it did.
pub(crate) fn within(step: Step, answer: PatchResult) -> (r: PatchResult)
    ensures
        outcome(r) == during(step@, outcome(answer)),
{
    match answer {
        Ok(_) => Ok(()),
        Err(e) => Err(PatchError::During { step, error: Box::new(e) }),
    }
}

} // verus!
