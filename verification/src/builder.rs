//! Making and changing elements of a device description from the parts that are given.

use crate::error::{outcome, ErrorView, PatchError, PatchResult};
use crate::svd::{
    enum_views, value_views, Access, BitRange, DimElement, DimElementView, EnumeratedValue,
    EnumeratedValueView, EnumeratedValues, EnumeratedValuesView, FieldInfo, FieldInfoView,
    ModifiedWriteValues, ReadAction, Usage, WriteConstraint,
};
use crate::text::{text, texts};
use svd_parser::svd;
use svd_parser::svd::SvdError;
use vstd::arithmetic::power2::pow2;
use vstd::prelude::*;

verus! {

/// The parts of a field that are given.
#[derive(PartialEq, Eq, Debug)]
pub struct FieldInfoBuilder {
    pub name: Option<String>,
    pub description: Option<String>,
    pub derived_from: Option<String>,
    pub access: Option<Access>,
    pub modified_write_values: Option<ModifiedWriteValues>,
    pub read_action: Option<ReadAction>,
    pub bit_offset: Option<u32>,
    pub bit_width: Option<u32>,
}

/// The model of a [`FieldInfoBuilder`].
#[verifier::ext_equal]
pub struct FieldInfoBuilderView {
    pub name: Option<Seq<char>>,
    pub description: Option<Seq<char>>,
    pub derived_from: Option<Seq<char>>,
    pub access: Option<Access>,
    pub modified_write_values: Option<ModifiedWriteValues>,
    pub read_action: Option<ReadAction>,
    pub bit_offset: Option<u32>,
    pub bit_width: Option<u32>,
}

impl View for FieldInfoBuilder {
    type V = FieldInfoBuilderView;

    open spec fn view(&self) -> FieldInfoBuilderView {
        FieldInfoBuilderView {
            name: text(self.name),
            description: text(self.description),
            derived_from: text(self.derived_from),
            access: self.access,
            modified_write_values: self.modified_write_values,
            read_action: self.read_action,
            bit_offset: self.bit_offset,
            bit_width: self.bit_width,
        }
    }
}

/// A string that may be missing, where an empty one counts as missing.
pub open spec fn nonempty(s: Option<Seq<char>>) -> Option<Seq<char>> {
    match s {
        Some(t) => if t.len() == 0 {
            None
        } else {
            s
        },
        None => None,
    }
}

fn drop_empty(s: Option<String>) -> (r: Option<String>)
    ensures
        text(r) == nonempty(text(s)),
{
    match s {
        Some(t) => if t.as_str().is_empty() {
            None
        } else {
            Some(t)
        },
        None => None,
    }
}

/// The first of two parts if it is given, else the second.
pub open spec fn given_or<T>(given: Option<T>, otherwise: Option<T>) -> Option<T> {
    if given is Some {
        given
    } else {
        otherwise
    }
}

/// Whether a field of some width can hold each of the values, and the bounds of what may be
/// written to it are in order and fit. A width of no bits is never right; a width of all the
/// bits of a number leaves nothing to check.
pub open spec fn fits(width: u32, values: Seq<u64>, bounds: Option<(u64, u64)>) -> bool {
    &&& width != 0
    &&& width < 64 ==> {
        &&& forall|i: int| 0 <= i < values.len() ==> #[trigger] values[i] < pow2(width as nat)
        &&& bounds matches Some(b) ==> b.0 <= b.1 && b.1 < pow2(width as nat)
    }
}

/// Why `svd_parser` refuses a field of some width with these values and bounds.
pub uninterp spec fn field_refusal(
    width: u32,
    values: Seq<u64>,
    bounds: Option<(u64, u64)>,
) -> SvdError;

/// Has `svd_parser` build a field with `FieldInfoBuilder::build`, at the weak level of
/// validation: a field of the given width, with one set of enumerated values that holds the
/// given numbers, and with the given bounds on what is written.
///
/// Claimed: the field is accepted exactly if the values and the bounds fit the width; the error
/// depends on the three arguments alone.
#[verifier::external_body]
fn check_field(width: u32, values: Vec<u64>, bounds: Option<(u64, u64)>) -> (r: Result<
    (),
    SvdError,
>)
    ensures
        r is Ok <==> fits(width, values@, bounds),
        r matches Err(e) ==> e == field_refusal(width, values@, bounds),
{
    let number = |v: u64| svd::EnumeratedValue::builder().name(String::new()).value(Some(v)).build(svd::ValidateLevel::Disabled);
    let numbers = values.into_iter().map(number).collect::<Result<Vec<_>, SvdError>>()?;
    svd::FieldInfo::builder()
        .name(String::new())
        .bit_range(svd::BitRange::from_offset_width(0, width))
        .enumerated_values(vec![svd::EnumeratedValues::builder().values(numbers).build(svd::ValidateLevel::Disabled)?])
        .write_constraint(bounds.map(|b| svd::WriteConstraint::Range(svd::WriteConstraintRange { min: b.0, max: b.1 })))
        .build(svd::ValidateLevel::Weak)
        .map(|_| ())
}

/// The numbers among the values of a set, in order.
pub open spec fn numbers_of(values: Seq<EnumeratedValueView>) -> Seq<u64>
    decreases values.len(),
{
    if values.len() == 0 {
        Seq::empty()
    } else {
        match values.last().value {
            Some(v) => numbers_of(values.drop_last()).push(v),
            None => numbers_of(values.drop_last()),
        }
    }
}

/// The numbers in several sets of values, in order.
pub open spec fn all_numbers(enums: Seq<EnumeratedValuesView>) -> Seq<u64>
    decreases enums.len(),
{
    if enums.len() == 0 {
        Seq::empty()
    } else {
        all_numbers(enums.drop_last()) + numbers_of(enums.last().values)
    }
}

/// The bounds that a write constraint sets.
pub open spec fn bounds_of(constraint: Option<WriteConstraint>) -> Option<(u64, u64)> {
    match constraint {
        Some(WriteConstraint::Range(range)) => Some((range.min, range.max)),
        _ => None,
    }
}

/// Whether a field is right: its values and its bounds fit its width.
pub open spec fn validity(f: FieldInfoView) -> Result<(), ErrorView> {
    let numbers = all_numbers(f.enumerated_values);
    let bounds = bounds_of(f.write_constraint);
    if fits(f.bit_range.width, numbers, bounds) {
        Ok(())
    } else {
        Err(ErrorView::Svd(field_refusal(f.bit_range.width, numbers, bounds)))
    }
}

/// The field that is made of the given parts and the given name.
pub open spec fn built(parts: FieldInfoBuilderView, name: Seq<char>) -> Result<
    FieldInfoView,
    ErrorView,
> {
    match (parts.bit_offset, parts.bit_width) {
        (Some(offset), Some(width)) => {
            let f = FieldInfoView {
                name,
                description: nonempty(parts.description),
                bit_range: BitRange::from_offset_width(offset, width),
                access: parts.access,
                modified_write_values: parts.modified_write_values,
                write_constraint: None,
                read_action: parts.read_action,
                enumerated_values: Seq::empty(),
                derived_from: parts.derived_from,
            };
            match validity(f) {
                Ok(_) => Ok(f),
                Err(e) => Err(e),
            }
        },
        _ => Err(ErrorView::NoBitRange),
    }
}

/// A field in which the given parts have taken the place of what was there. With a field to
/// copy from, what a copy brings along is dropped instead: the effect of writes, the write
/// constraint and the enumerated values.
pub open spec fn modified(f: FieldInfoView, parts: FieldInfoBuilderView) -> FieldInfoView {
    let kept = FieldInfoView {
        name: match parts.name {
            Some(name) => name,
            None => f.name,
        },
        description: match parts.description {
            Some(_) => nonempty(parts.description),
            None => f.description,
        },
        bit_range: match (parts.bit_offset, parts.bit_width) {
            (Some(offset), Some(width)) => BitRange::from_offset_width(offset, width),
            (Some(offset), None) => BitRange { offset, ..f.bit_range },
            (None, Some(width)) => BitRange { width, ..f.bit_range },
            (None, None) => f.bit_range,
        },
        access: given_or(parts.access, f.access),
        ..f
    };
    match parts.derived_from {
        Some(_) => FieldInfoView {
            derived_from: parts.derived_from,
            modified_write_values: None,
            write_constraint: None,
            enumerated_values: Seq::empty(),
            ..kept
        },
        None => FieldInfoView {
            modified_write_values: given_or(parts.modified_write_values, f.modified_write_values),
            read_action: given_or(parts.read_action, f.read_action),
            ..kept
        },
    }
}

fn push_numbers(numbers: &mut Vec<u64>, values: &Vec<EnumeratedValue>)
    ensures
        final(numbers)@ == old(numbers)@ + numbers_of(value_views(values@)),
{
    let n = values.len();
    let ghost start = numbers@;
    let ghost views = value_views(values@);
    assert(start + numbers_of(views.take(0)) =~= start);
    for i in 0..n
        invariant
            n == values@.len(),
            views == value_views(values@),
            numbers@ == start + numbers_of(views.take(i as int)),
    {
        assert(views.take(i + 1).drop_last() =~= views.take(i as int));
        assert(views.take(i + 1).last() == values@[i as int]@);
        match values[i].value {
            Some(v) => {
                let ghost before = numbers@;
                numbers.push(v);
                assert(before.push(v) =~= start + numbers_of(views.take(i + 1)));
            },
            None => {},
        }
    }
    assert(views.take(n as int) =~= views);
}

impl FieldInfo {
    /// Checks that the values and the bounds of the field fit its width.
    pub fn validate(&self) -> (r: PatchResult)
        ensures
            outcome(r) == validity(self@),
    {
        let n = self.enumerated_values.len();
        let ghost views = enum_views(self.enumerated_values@);
        let mut numbers: Vec<u64> = Vec::new();
        assert(numbers@ =~= all_numbers(views.take(0)));
        for i in 0..n
            invariant
                n == self.enumerated_values@.len(),
                views == enum_views(self.enumerated_values@),
                numbers@ == all_numbers(views.take(i as int)),
        {
            assert(views.take(i + 1).drop_last() =~= views.take(i as int));
            assert(views.take(i + 1).last() == self.enumerated_values@[i as int]@);
            push_numbers(&mut numbers, &self.enumerated_values[i].values);
        }
        assert(views.take(n as int) =~= views);
        let bounds = match self.write_constraint {
            Some(WriteConstraint::Range(range)) => Some((range.min, range.max)),
            _ => None,
        };
        match check_field(self.bit_range.width, numbers, bounds) {
            Ok(_) => Ok(()),
            Err(e) => Err(PatchError::Svd(e)),
        }
    }

    /// Puts the given parts in the place of what is there, and checks the result. The field is
    /// changed even where the check fails.
    pub fn modify_from(&mut self, parts: FieldInfoBuilder) -> (r: PatchResult)
        ensures
            final(self)@ == modified(old(self)@, parts@),
            outcome(r) == validity(modified(old(self)@, parts@)),
    {
        if let Some(name) = parts.name {
            self.name = name;
        }
        if parts.description.is_some() {
            self.description = drop_empty(parts.description);
        }
        match (parts.bit_offset, parts.bit_width) {
            (Some(offset), Some(width)) => {
                self.bit_range = BitRange::from_offset_width(offset, width);
            },
            (Some(offset), None) => {
                self.bit_range.offset = offset;
            },
            (None, Some(width)) => {
                self.bit_range.width = width;
            },
            (None, None) => {},
        }
        if parts.access.is_some() {
            self.access = parts.access;
        }
        if parts.derived_from.is_some() {
            self.derived_from = parts.derived_from;
            self.modified_write_values = None;
            self.write_constraint = None;
            self.enumerated_values = Vec::new();
            assert(enum_views(self.enumerated_values@) =~= Seq::empty());
        } else {
            if parts.modified_write_values.is_some() {
                self.modified_write_values = parts.modified_write_values;
            }
            if parts.read_action.is_some() {
                self.read_action = parts.read_action;
            }
        }
        self.validate()
    }
}

impl FieldInfoBuilder {
    /// Makes a field of the given parts, under the given name.
    pub fn build(self, name: String) -> (r: Result<FieldInfo, PatchError>)
        ensures
            match r {
                Ok(f) => built(self@, name@) == Ok::<FieldInfoView, ErrorView>(f@),
                Err(e) => built(self@, name@) == Err::<FieldInfoView, ErrorView>(e@),
            },
    {
        let bit_range = match (self.bit_offset, self.bit_width) {
            (Some(offset), Some(width)) => BitRange::from_offset_width(offset, width),
            _ => {
                return Err(PatchError::NoBitRange);
            },
        };
        let f = FieldInfo {
            name,
            description: drop_empty(self.description),
            bit_range,
            access: self.access,
            modified_write_values: self.modified_write_values,
            write_constraint: None,
            read_action: self.read_action,
            enumerated_values: Vec::new(),
            derived_from: self.derived_from,
        };
        assert(enum_views(f.enumerated_values@) =~= Seq::empty());
        match f.validate() {
            Ok(_) => Ok(f),
            Err(e) => Err(e),
        }
    }
}

/// The parts of a field that has only a description and a place.
pub open spec fn plain_parts(
    description: Option<Seq<char>>,
    offset: u32,
    width: u32,
) -> FieldInfoBuilderView {
    FieldInfoBuilderView {
        name: None,
        description,
        derived_from: None,
        access: None,
        modified_write_values: None,
        read_action: None,
        bit_offset: Some(offset),
        bit_width: Some(width),
    }
}

/// Makes a field that has only a name, a description and a place.
pub(crate) fn plain_field(
    name: String,
    description: Option<String>,
    offset: u32,
    width: u32,
) -> (r: Result<FieldInfo, PatchError>)
    ensures
        match r {
            Ok(f) => built(plain_parts(text(description), offset, width), name@) == Ok::<
                FieldInfoView,
                ErrorView,
            >(f@),
            Err(e) => built(plain_parts(text(description), offset, width), name@) == Err::<
                FieldInfoView,
                ErrorView,
            >(e@),
        },
{
    let parts = FieldInfoBuilder {
        name: None,
        description,
        derived_from: None,
        access: None,
        modified_write_values: None,
        read_action: None,
        bit_offset: Some(offset),
        bit_width: Some(width),
    };
    parts.build(name)
}

/// The set of values that is made of the given parts. There must be values or a set to copy.
pub open spec fn built_enum(
    name: Option<Seq<char>>,
    usage: Option<Usage>,
    derived_from: Option<Seq<char>>,
    values: Seq<EnumeratedValueView>,
) -> Result<EnumeratedValuesView, ErrorView> {
    if derived_from is None && values.len() == 0 {
        Err(ErrorView::NoValues)
    } else {
        Ok(EnumeratedValuesView { name: nonempty(name), usage, derived_from, values })
    }
}

/// Makes a set of values of the given parts.
pub(crate) fn build_enum(
    name: Option<String>,
    usage: Option<Usage>,
    derived_from: Option<String>,
    values: Vec<EnumeratedValue>,
) -> (r: Result<EnumeratedValues, PatchError>)
    ensures
        match r {
            Ok(e) => built_enum(text(name), usage, text(derived_from), value_views(values@)) == Ok::<
                EnumeratedValuesView,
                ErrorView,
            >(e@),
            Err(e) => built_enum(text(name), usage, text(derived_from), value_views(values@))
                == Err::<EnumeratedValuesView, ErrorView>(e@),
        },
{
    if derived_from.is_none() && values.len() == 0 {
        Err(PatchError::NoValues)
    } else {
        Ok(EnumeratedValues { name: drop_empty(name), usage, derived_from, values })
    }
}

/// The description of an array of a number of elements at some distance, with the text that
/// stands for each index.
pub open spec fn built_dim(dim: u32, dim_increment: u32, dim_index: Seq<Seq<char>>) -> DimElementView {
    DimElementView {
        dim,
        dim_increment,
        dim_index: if dim_index.len() == 0 {
            None
        } else {
            Some(dim_index)
        },
        dim_name: None,
        dim_array_index: None,
    }
}

/// Makes the description of an array.
pub(crate) fn build_dim(dim: u32, dim_increment: u32, dim_index: Vec<String>) -> (r: DimElement)
    ensures
        r@ == built_dim(dim, dim_increment, texts(dim_index@)),
{
    DimElement {
        dim,
        dim_increment,
        dim_index: if dim_index.len() == 0 {
            None
        } else {
            Some(dim_index)
        },
        dim_name: None,
        dim_array_index: None,
    }
}

} // verus!
