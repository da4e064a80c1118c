//! The parts of a device description that a patch of a register reads and writes.

use crate::text::{copy, copy_all, text, texts};
use vstd::prelude::*;

verus! {

/// Who may read and write a field.
#[derive(Clone, Copy, PartialEq, Eq, Structural, Debug)]
pub enum Access {
    ReadOnly,
    ReadWrite,
    ReadWriteOnce,
    WriteOnce,
    WriteOnly,
}

/// What a write does to a field.
#[derive(Clone, Copy, PartialEq, Eq, Structural, Debug)]
pub enum ModifiedWriteValues {
    OneToClear,
    OneToSet,
    OneToToggle,
    ZeroToClear,
    ZeroToSet,
    ZeroToToggle,
    Clear,
    SetAll,
    Modify,
}

/// What a read does to a field.
#[derive(Clone, Copy, PartialEq, Eq, Structural, Debug)]
pub enum ReadAction {
    Clear,
    SetAll,
    Modify,
    ModifyExternal,
}

/// The accesses for which a set of enumerated values is meant.
#[derive(Clone, Copy, PartialEq, Eq, Structural, Debug)]
pub enum Usage {
    Read,
    Write,
    ReadWrite,
}

/// The smallest and the largest number that may be written to a field.
#[derive(Clone, Copy, PartialEq, Eq, Structural, Debug)]
pub struct WriteConstraintRange {
    pub min: u64,
    pub max: u64,
}

/// What may be written to a field.
#[derive(Clone, Copy, PartialEq, Eq, Structural, Debug)]
pub enum WriteConstraint {
    WriteAsRead(bool),
    UseEnumeratedValues(bool),
    Range(WriteConstraintRange),
}

/// The notation in which the position of a field was given.
#[derive(Clone, Copy, PartialEq, Eq, Structural, Debug)]
pub enum BitRangeType {
    BitRange,
    OffsetWidth,
    MsbLsb,
}

/// The bits that a field takes.
#[derive(Clone, Copy, PartialEq, Eq, Structural, Debug)]
pub struct BitRange {
    pub offset: u32,
    pub width: u32,
    pub range_type: BitRangeType,
}

impl BitRange {
    pub open spec fn spec_from_offset_width(offset: u32, width: u32) -> BitRange {
        BitRange { offset, width, range_type: BitRangeType::OffsetWidth }
    }

    /// The range of a number of bits that starts at a given bit.
    #[verifier::when_used_as_spec(spec_from_offset_width)]
    pub fn from_offset_width(offset: u32, width: u32) -> (r: BitRange)
        ensures
            r == Self::spec_from_offset_width(offset, width),
    {
        BitRange { offset, width, range_type: BitRangeType::OffsetWidth }
    }
}

/// A value of a field with its name.
#[derive(PartialEq, Eq, Debug)]
pub struct EnumeratedValue {
    pub name: String,
    pub description: Option<String>,
    pub value: Option<u64>,
    pub is_default: Option<bool>,
}

/// The model of an [`EnumeratedValue`].
#[verifier::ext_equal]
pub struct EnumeratedValueView {
    pub name: Seq<char>,
    pub description: Option<Seq<char>>,
    pub value: Option<u64>,
    pub is_default: Option<bool>,
}

impl View for EnumeratedValue {
    type V = EnumeratedValueView;

    open spec fn view(&self) -> EnumeratedValueView {
        EnumeratedValueView {
            name: self.name@,
            description: text(self.description),
            value: self.value,
            is_default: self.is_default,
        }
    }
}

impl Clone for EnumeratedValue {
    fn clone(&self) -> (r: Self)
        ensures
            r@ == self@,
    {
        EnumeratedValue {
            name: self.name.clone(),
            description: copy(&self.description),
            value: self.value,
            is_default: self.is_default,
        }
    }
}

/// The models of a sequence of values.
pub open spec fn value_views(values: Seq<EnumeratedValue>) -> Seq<EnumeratedValueView> {
    values.map_values(|v: EnumeratedValue| v@)
}

fn copy_values(values: &Vec<EnumeratedValue>) -> (r: Vec<EnumeratedValue>)
    ensures
        value_views(r@) == value_views(values@),
{
    let mut r: Vec<EnumeratedValue> = Vec::new();
    for i in 0..values.len()
        invariant
            r@.len() == i,
            forall|j: int| 0 <= j < i ==> #[trigger] r@[j]@ == values@[j]@,
    {
        r.push(values[i].clone());
    }
    assert(value_views(r@) =~= value_views(values@));
    r
}

/// The named values of a field, or the name of the set that they are copied from.
#[derive(PartialEq, Eq, Debug)]
pub struct EnumeratedValues {
    pub name: Option<String>,
    pub usage: Option<Usage>,
    pub derived_from: Option<String>,
    pub values: Vec<EnumeratedValue>,
}

/// The model of [`EnumeratedValues`].
#[verifier::ext_equal]
pub struct EnumeratedValuesView {
    pub name: Option<Seq<char>>,
    pub usage: Option<Usage>,
    pub derived_from: Option<Seq<char>>,
    pub values: Seq<EnumeratedValueView>,
}

impl View for EnumeratedValues {
    type V = EnumeratedValuesView;

    open spec fn view(&self) -> EnumeratedValuesView {
        EnumeratedValuesView {
            name: text(self.name),
            usage: self.usage,
            derived_from: text(self.derived_from),
            values: value_views(self.values@),
        }
    }
}

impl Clone for EnumeratedValues {
    fn clone(&self) -> (r: Self)
        ensures
            r@ == self@,
    {
        EnumeratedValues {
            name: copy(&self.name),
            usage: self.usage,
            derived_from: copy(&self.derived_from),
            values: copy_values(&self.values),
        }
    }
}

impl EnumeratedValuesView {
    /// The accesses that the values are meant for: unknown of a copied set, all of them where
    /// nothing else is said.
    pub open spec fn effective_usage(self) -> Option<Usage> {
        if self.derived_from is Some {
            None
        } else if self.usage is Some {
            self.usage
        } else {
            Some(Usage::ReadWrite)
        }
    }
}

impl EnumeratedValues {
    /// The accesses that the values are meant for.
    pub fn usage(&self) -> (r: Option<Usage>)
        ensures
            r == self@.effective_usage(),
    {
        if self.derived_from.is_some() {
            None
        } else if self.usage.is_some() {
            self.usage
        } else {
            Some(Usage::ReadWrite)
        }
    }
}

/// The models of a sequence of sets of values.
pub open spec fn enum_views(enums: Seq<EnumeratedValues>) -> Seq<EnumeratedValuesView> {
    enums.map_values(|e: EnumeratedValues| e@)
}

fn copy_enums(enums: &Vec<EnumeratedValues>) -> (r: Vec<EnumeratedValues>)
    ensures
        enum_views(r@) == enum_views(enums@),
{
    let mut r: Vec<EnumeratedValues> = Vec::new();
    for i in 0..enums.len()
        invariant
            r@.len() == i,
            forall|j: int| 0 <= j < i ==> #[trigger] r@[j]@ == enums@[j]@,
    {
        r.push(enums[i].clone());
    }
    assert(enum_views(r@) =~= enum_views(enums@));
    r
}

/// Names for the indexes of an array.
#[derive(PartialEq, Eq, Debug)]
pub struct DimArrayIndex {
    pub header_enum_name: Option<String>,
    pub values: Vec<EnumeratedValue>,
}

/// The model of a [`DimArrayIndex`].
#[verifier::ext_equal]
pub struct DimArrayIndexView {
    pub header_enum_name: Option<Seq<char>>,
    pub values: Seq<EnumeratedValueView>,
}

impl View for DimArrayIndex {
    type V = DimArrayIndexView;

    open spec fn view(&self) -> DimArrayIndexView {
        DimArrayIndexView {
            header_enum_name: text(self.header_enum_name),
            values: value_views(self.values@),
        }
    }
}

impl Clone for DimArrayIndex {
    fn clone(&self) -> (r: Self)
        ensures
            r@ == self@,
    {
        DimArrayIndex {
            header_enum_name: copy(&self.header_enum_name),
            values: copy_values(&self.values),
        }
    }
}

/// How often an element of an array is repeated, and at which distance.
#[derive(PartialEq, Eq, Debug)]
pub struct DimElement {
    pub dim: u32,
    pub dim_increment: u32,
    pub dim_index: Option<Vec<String>>,
    pub dim_name: Option<String>,
    pub dim_array_index: Option<DimArrayIndex>,
}

/// The model of a [`DimElement`].
#[verifier::ext_equal]
pub struct DimElementView {
    pub dim: u32,
    pub dim_increment: u32,
    pub dim_index: Option<Seq<Seq<char>>>,
    pub dim_name: Option<Seq<char>>,
    pub dim_array_index: Option<DimArrayIndexView>,
}

impl View for DimElement {
    type V = DimElementView;

    open spec fn view(&self) -> DimElementView {
        DimElementView {
            dim: self.dim,
            dim_increment: self.dim_increment,
            dim_index: match self.dim_index {
                Some(index) => Some(texts(index@)),
                None => None,
            },
            dim_name: text(self.dim_name),
            dim_array_index: match self.dim_array_index {
                Some(index) => Some(index@),
                None => None,
            },
        }
    }
}

impl Clone for DimElement {
    fn clone(&self) -> (r: Self)
        ensures
            r@ == self@,
    {
        DimElement {
            dim: self.dim,
            dim_increment: self.dim_increment,
            dim_index: match &self.dim_index {
                Some(index) => Some(copy_all(index)),
                None => None,
            },
            dim_name: copy(&self.dim_name),
            dim_array_index: match &self.dim_array_index {
                Some(index) => Some(index.clone()),
                None => None,
            },
        }
    }
}

/// A bit field.
#[derive(PartialEq, Eq, Debug)]
pub struct FieldInfo {
    pub name: String,
    pub description: Option<String>,
    pub bit_range: BitRange,
    pub access: Option<Access>,
    pub modified_write_values: Option<ModifiedWriteValues>,
    pub write_constraint: Option<WriteConstraint>,
    pub read_action: Option<ReadAction>,
    pub enumerated_values: Vec<EnumeratedValues>,
    pub derived_from: Option<String>,
}

/// The model of a [`FieldInfo`].
#[verifier::ext_equal]
pub struct FieldInfoView {
    pub name: Seq<char>,
    pub description: Option<Seq<char>>,
    pub bit_range: BitRange,
    pub access: Option<Access>,
    pub modified_write_values: Option<ModifiedWriteValues>,
    pub write_constraint: Option<WriteConstraint>,
    pub read_action: Option<ReadAction>,
    pub enumerated_values: Seq<EnumeratedValuesView>,
    pub derived_from: Option<Seq<char>>,
}

impl View for FieldInfo {
    type V = FieldInfoView;

    open spec fn view(&self) -> FieldInfoView {
        FieldInfoView {
            name: self.name@,
            description: text(self.description),
            bit_range: self.bit_range,
            access: self.access,
            modified_write_values: self.modified_write_values,
            write_constraint: self.write_constraint,
            read_action: self.read_action,
            enumerated_values: enum_views(self.enumerated_values@),
            derived_from: text(self.derived_from),
        }
    }
}

impl Clone for FieldInfo {
    fn clone(&self) -> (r: Self)
        ensures
            r@ == self@,
    {
        FieldInfo {
            name: self.name.clone(),
            description: copy(&self.description),
            bit_range: self.bit_range,
            access: self.access,
            modified_write_values: self.modified_write_values,
            write_constraint: self.write_constraint,
            read_action: self.read_action,
            enumerated_values: copy_enums(&self.enumerated_values),
            derived_from: copy(&self.derived_from),
        }
    }
}

/// A bit field or, where `dim` is given, an array of bit fields.
#[derive(PartialEq, Eq, Debug)]
pub struct Field {
    pub info: FieldInfo,
    pub dim: Option<DimElement>,
}

/// The model of a [`Field`].
#[verifier::ext_equal]
pub struct FieldView {
    pub info: FieldInfoView,
    pub dim: Option<DimElementView>,
}

/// The model of an array description that may be missing.
pub open spec fn dim_view(dim: Option<DimElement>) -> Option<DimElementView> {
    match dim {
        Some(d) => Some(d@),
        None => None,
    }
}

impl View for Field {
    type V = FieldView;

    open spec fn view(&self) -> FieldView {
        FieldView { info: self.info@, dim: dim_view(self.dim) }
    }
}

fn copy_dim(dim: &Option<DimElement>) -> (r: Option<DimElement>)
    ensures
        dim_view(r) == dim_view(*dim),
{
    match dim {
        Some(d) => Some(d.clone()),
        None => None,
    }
}

impl Clone for Field {
    fn clone(&self) -> (r: Self)
        ensures
            r@ == self@,
    {
        Field { info: self.info.clone(), dim: copy_dim(&self.dim) }
    }
}

impl FieldInfo {
    /// The field on its own.
    pub fn single(self) -> (r: Field)
        ensures
            r@ == (FieldView { info: self@, dim: None }),
    {
        Field { info: self, dim: None }
    }

    /// An array of such fields.
    pub fn array(self, dim: DimElement) -> (r: Field)
        ensures
            r@ == (FieldView { info: self@, dim: Some(dim@) }),
    {
        Field { info: self, dim: Some(dim) }
    }
}

/// The models of a sequence of fields.
pub open spec fn field_views(fields: Seq<Field>) -> Seq<FieldView> {
    fields.map_values(|f: Field| f@)
}

fn copy_fields(fields: &Vec<Field>) -> (r: Vec<Field>)
    ensures
        field_views(r@) == field_views(fields@),
{
    let mut r: Vec<Field> = Vec::new();
    for i in 0..fields.len()
        invariant
            r@.len() == i,
            forall|j: int| 0 <= j < i ==> #[trigger] r@[j]@ == fields@[j]@,
    {
        r.push(fields[i].clone());
    }
    assert(field_views(r@) =~= field_views(fields@));
    r
}

/// The name of a register and its fields, if any are given.
#[derive(PartialEq, Eq, Debug)]
pub struct RegisterInfo {
    pub name: String,
    pub fields: Option<Vec<Field>>,
}

/// The model of a [`RegisterInfo`].
#[verifier::ext_equal]
pub struct RegisterInfoView {
    pub name: Seq<char>,
    pub fields: Option<Seq<FieldView>>,
}

impl View for RegisterInfo {
    type V = RegisterInfoView;

    open spec fn view(&self) -> RegisterInfoView {
        RegisterInfoView {
            name: self.name@,
            fields: match self.fields {
                Some(fields) => Some(field_views(fields@)),
                None => None,
            },
        }
    }
}

impl Clone for RegisterInfo {
    fn clone(&self) -> (r: Self)
        ensures
            r@ == self@,
    {
        RegisterInfo {
            name: self.name.clone(),
            fields: match &self.fields {
                Some(fields) => Some(copy_fields(fields)),
                None => None,
            },
        }
    }
}

/// A register or, where `dim` is given, an array of registers.
#[derive(PartialEq, Eq, Debug)]
pub struct Register {
    pub info: RegisterInfo,
    pub dim: Option<DimElement>,
}

/// The model of a [`Register`].
#[verifier::ext_equal]
pub struct RegisterView {
    pub info: RegisterInfoView,
    pub dim: Option<DimElementView>,
}

impl RegisterView {
    /// The fields of the register; none where the register does not list its fields.
    pub open spec fn fields(self) -> Seq<FieldView> {
        match self.info.fields {
            Some(fields) => fields,
            None => Seq::empty(),
        }
    }

    /// The register with other fields in place of those that it lists.
    pub open spec fn with_fields(self, fields: Seq<FieldView>) -> RegisterView {
        match self.info.fields {
            Some(_) => RegisterView {
                info: RegisterInfoView { fields: Some(fields), ..self.info },
                ..self
            },
            None => self,
        }
    }
}

impl View for Register {
    type V = RegisterView;

    open spec fn view(&self) -> RegisterView {
        RegisterView { info: self.info@, dim: dim_view(self.dim) }
    }
}

impl Clone for Register {
    fn clone(&self) -> (r: Self)
        ensures
            r@ == self@,
    {
        Register { info: self.info.clone(), dim: copy_dim(&self.dim) }
    }
}

} // verus!
