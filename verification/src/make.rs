//! Making elements of a device description from what a document says of them.

use crate::builder::{nonempty, FieldInfoBuilder, FieldInfoBuilderView};
use crate::error::{ErrorView, PatchError};
use crate::svd::{
    value_views, Access, EnumeratedValue, EnumeratedValueView, EnumeratedValues,
    EnumeratedValuesView, ModifiedWriteValues, ReadAction, Usage,
};
use crate::text::{begins_with, begins_with_digit, starts_with, starts_with_digit, text};
use crate::yaml::{lookup_number, lookup_text, Mapping, Yaml};
use svd_parser::svd;
use vstd::prelude::*;

verus! {

/// The access rights that a word stands for, if it stands for any.
pub open spec fn access_named(word: Seq<char>) -> Option<Access> {
    if word == "read-only"@ {
        Some(Access::ReadOnly)
    } else if word == "read-write"@ {
        Some(Access::ReadWrite)
    } else if word == "read-writeOnce"@ {
        Some(Access::ReadWriteOnce)
    } else if word == "write-only"@ {
        Some(Access::WriteOnly)
    } else if word == "writeOnce"@ {
        Some(Access::WriteOnce)
    } else {
        None
    }
}

/// Calls `Access::parse_str` of `svd_parser`.
///
/// Claimed: the words that stand for something, and what each stands for, are those of
/// [`access_named`]; any other word gives nothing.
#[verifier::external_body]
fn parse_access(word: &str) -> (r: Option<Access>)
    ensures
        r == access_named(word@),
{
    Some(
        match svd::Access::parse_str(word)? {
            svd::Access::ReadOnly => Access::ReadOnly,
            svd::Access::ReadWrite => Access::ReadWrite,
            svd::Access::ReadWriteOnce => Access::ReadWriteOnce,
            svd::Access::WriteOnly => Access::WriteOnly,
            svd::Access::WriteOnce => Access::WriteOnce,
        },
    )
}

/// The effect of writes that a word stands for, if it stands for any.
pub open spec fn write_effect_named(word: Seq<char>) -> Option<ModifiedWriteValues> {
    if word == "oneToClear"@ {
        Some(ModifiedWriteValues::OneToClear)
    } else if word == "oneToSet"@ {
        Some(ModifiedWriteValues::OneToSet)
    } else if word == "oneToToggle"@ {
        Some(ModifiedWriteValues::OneToToggle)
    } else if word == "zeroToClear"@ {
        Some(ModifiedWriteValues::ZeroToClear)
    } else if word == "zeroToSet"@ {
        Some(ModifiedWriteValues::ZeroToSet)
    } else if word == "zeroToToggle"@ {
        Some(ModifiedWriteValues::ZeroToToggle)
    } else if word == "clear"@ {
        Some(ModifiedWriteValues::Clear)
    } else if word == "set"@ {
        Some(ModifiedWriteValues::SetAll)
    } else if word == "modify"@ {
        Some(ModifiedWriteValues::Modify)
    } else {
        None
    }
}

/// Calls `ModifiedWriteValues::parse_str` of `svd_parser`.
///
/// Claimed: the words that stand for something, and what each stands for, are those of
/// [`write_effect_named`]; any other word gives nothing.
#[verifier::external_body]
fn parse_write_effect(word: &str) -> (r: Option<ModifiedWriteValues>)
    ensures
        r == write_effect_named(word@),
{
    Some(
        match svd::ModifiedWriteValues::parse_str(word)? {
            svd::ModifiedWriteValues::OneToClear => ModifiedWriteValues::OneToClear,
            svd::ModifiedWriteValues::OneToSet => ModifiedWriteValues::OneToSet,
            svd::ModifiedWriteValues::OneToToggle => ModifiedWriteValues::OneToToggle,
            svd::ModifiedWriteValues::ZeroToClear => ModifiedWriteValues::ZeroToClear,
            svd::ModifiedWriteValues::ZeroToSet => ModifiedWriteValues::ZeroToSet,
            svd::ModifiedWriteValues::ZeroToToggle => ModifiedWriteValues::ZeroToToggle,
            svd::ModifiedWriteValues::Clear => ModifiedWriteValues::Clear,
            svd::ModifiedWriteValues::Set => ModifiedWriteValues::SetAll,
            svd::ModifiedWriteValues::Modify => ModifiedWriteValues::Modify,
        },
    )
}

/// The effect of reads that a word stands for, if it stands for any.
pub open spec fn read_action_named(word: Seq<char>) -> Option<ReadAction> {
    if word == "clear"@ {
        Some(ReadAction::Clear)
    } else if word == "set"@ {
        Some(ReadAction::SetAll)
    } else if word == "modify"@ {
        Some(ReadAction::Modify)
    } else if word == "modifyExternal"@ {
        Some(ReadAction::ModifyExternal)
    } else {
        None
    }
}

/// Calls `ReadAction::parse_str` of `svd_parser`.
///
/// Claimed: the words that stand for something, and what each stands for, are those of
/// [`read_action_named`]; any other word gives nothing.
#[verifier::external_body]
fn parse_read_action(word: &str) -> (r: Option<ReadAction>)
    ensures
        r == read_action_named(word@),
{
    Some(
        match svd::ReadAction::parse_str(word)? {
            svd::ReadAction::Clear => ReadAction::Clear,
            svd::ReadAction::Set => ReadAction::SetAll,
            svd::ReadAction::Modify => ReadAction::Modify,
            svd::ReadAction::ModifyExternal => ReadAction::ModifyExternal,
        },
    )
}

/// The parts of a field that a mapping gives. A part that is not of the right kind is an error;
/// a word that stands for nothing counts as not given. Offset and width are cut to 32 bits.
pub open spec fn field_parts(entries: Seq<(Yaml, Yaml)>) -> Result<FieldInfoBuilderView, ErrorView> {
    let description = lookup_text(entries, "description"@);
    let derived_from = lookup_text(entries, "derivedFrom"@);
    let access = lookup_text(entries, "access"@);
    let write_effect = lookup_text(entries, "modifiedWriteValues"@);
    let read_action = lookup_text(entries, "readAction"@);
    let name = lookup_text(entries, "name"@);
    let offset = lookup_number(entries, "bitOffset"@);
    let width = lookup_number(entries, "bitWidth"@);
    if description is Err || derived_from is Err || access is Err || write_effect is Err
        || read_action is Err || name is Err {
        Err(ErrorView::NotString)
    } else if offset is Err || width is Err {
        Err(ErrorView::NotInteger)
    } else {
        Ok(
            FieldInfoBuilderView {
                name: name->Ok_0,
                description: description->Ok_0,
                derived_from: derived_from->Ok_0,
                access: match access->Ok_0 {
                    Some(word) => access_named(word),
                    None => None,
                },
                modified_write_values: match write_effect->Ok_0 {
                    Some(word) => write_effect_named(word),
                    None => None,
                },
                read_action: match read_action->Ok_0 {
                    Some(word) => read_action_named(word),
                    None => None,
                },
                bit_offset: match offset->Ok_0 {
                    Some(v) => Some(v as u32),
                    None => None,
                },
                bit_width: match width->Ok_0 {
                    Some(v) => Some(v as u32),
                    None => None,
                },
            },
        )
    }
}

fn own(s: Option<&str>) -> (r: Option<String>)
    ensures
        match s {
            Some(t) => text(r) == Some(t@),
            None => text(r) is None,
        },
{
    match s {
        Some(t) => Some(t.to_owned()),
        None => None,
    }
}

/// Reads the parts of a field that a mapping gives.
pub fn make_field(fadd: &Mapping) -> (r: Result<FieldInfoBuilder, PatchError>)
    ensures
        match r {
            Ok(parts) => field_parts(fadd@) == Ok::<FieldInfoBuilderView, ErrorView>(parts@),
            Err(e) => field_parts(fadd@) == Err::<FieldInfoBuilderView, ErrorView>(e@),
        },
{
    let description = own(fadd.get_str("description")?);
    let derived_from = own(fadd.get_str("derivedFrom")?);
    let access = match fadd.get_str("access")? {
        Some(word) => parse_access(word),
        None => None,
    };
    let modified_write_values = match fadd.get_str("modifiedWriteValues")? {
        Some(word) => parse_write_effect(word),
        None => None,
    };
    let read_action = match fadd.get_str("readAction")? {
        Some(word) => parse_read_action(word),
        None => None,
    };
    let name = own(fadd.get_str("name")?);
    let bit_offset = match fadd.get_i64("bitOffset")? {
        Some(v) => Some(
            #[verifier::truncate]
            (v as u32),
        ),
        None => None,
    };
    let bit_width = match fadd.get_i64("bitWidth")? {
        Some(v) => Some(
            #[verifier::truncate]
            (v as u32),
        ),
        None => None,
    };
    Ok(
        FieldInfoBuilder {
            name,
            description,
            derived_from,
            access,
            modified_write_values,
            read_action,
            bit_offset,
            bit_width,
        },
    )
}

/// What is appended to the name of a field to name its enumerated values.
pub open spec fn usage_suffix(usage: Usage) -> Seq<char> {
    match usage {
        Usage::Read => seq!['R'],
        Usage::Write => seq!['W'],
        Usage::ReadWrite => Seq::empty(),
    }
}

/// The name of the enumerated values of a field for some usage.
pub open spec fn enum_name(name: Seq<char>, usage: Usage) -> Result<Seq<char>, ErrorView> {
    if begins_with_digit(name) {
        Err(ErrorView::EnumNameDigit { name })
    } else {
        Ok(name + usage_suffix(usage))
    }
}

/// Names the enumerated values of a field.
pub fn make_ev_name(name: &str, usage: Usage) -> (r: Result<String, PatchError>)
    ensures
        match r {
            Ok(s) => enum_name(name@, usage) == Ok::<Seq<char>, ErrorView>(s@),
            Err(e) => enum_name(name@, usage) == Err::<Seq<char>, ErrorView>(e@),
        },
{
    if starts_with_digit(name) {
        return Err(PatchError::EnumNameDigit { name: name.to_owned() });
    }
    let suffix = match usage {
        Usage::Read => "R",
        Usage::Write => "W",
        Usage::ReadWrite => "",
    };
    proof {
        reveal_strlit("R");
        reveal_strlit("W");
        reveal_strlit("");
        assert(suffix@ =~= usage_suffix(usage));
    }
    let mut s = name.to_owned();
    s.append(suffix);
    Ok(s)
}

/// The set of values that is a copy of the set of the given name.
pub open spec fn derived_enum(name: Seq<char>) -> EnumeratedValuesView {
    EnumeratedValuesView {
        name: None,
        usage: None,
        derived_from: Some(name),
        values: Seq::empty(),
    }
}

/// Makes the set of values that is a copy of the set of the given name.
pub fn make_derived_enumerated_values(name: &str) -> (r: EnumeratedValues)
    ensures
        r@ == derived_enum(name@),
{
    let values: Vec<EnumeratedValue> = Vec::new();
    assert(value_views(values@) =~= Seq::empty());
    EnumeratedValues { name: None, usage: None, derived_from: Some(name.to_owned()), values }
}

/// Named values, in the order of their numbers, next to those numbers.
#[verifier::ext_equal]
pub struct ValueTable {
    pub numbers: Seq<i64>,
    pub values: Seq<EnumeratedValueView>,
}

/// The number of leading numbers that are below the given one.
pub open spec fn rank(numbers: Seq<i64>, v: i64) -> int
    decreases numbers.len(),
{
    if numbers.len() == 0 || numbers[0] >= v {
        0
    } else {
        1 + rank(numbers.skip(1), v)
    }
}

/// The named value that a number with a description makes. A negative number stands for its
/// two's complement.
pub open spec fn named_value(
    name: Seq<char>,
    number: i64,
    description: Seq<char>,
) -> EnumeratedValueView {
    EnumeratedValueView {
        name,
        description: nonempty(Some(description)),
        value: Some(number as u64),
        is_default: None,
    }
}

/// The table with what one more entry of a mapping adds to it: a name with its number and its
/// description. A name that begins with an underscore adds nothing.
pub open spec fn with_value(table: ValueTable, key: Yaml, value: Yaml) -> Result<
    ValueTable,
    ErrorView,
> {
    match key.as_text() {
        Err(e) => Err(e),
        Ok(name) => if begins_with(name, '_') {
            Ok(table)
        } else if begins_with_digit(name) {
            Err(ErrorView::ValueNameDigit { name })
        } else {
            match value {
                Yaml::Array(parts) => if parts@.len() == 0 {
                    Err(ErrorView::IncompleteValue { name })
                } else {
                    match parts@[0].as_number() {
                        Err(e) => Err(e),
                        Ok(number) => if parts@.len() == 1 {
                            Err(ErrorView::IncompleteValue { name })
                        } else {
                            match parts@[1].as_text() {
                                Err(e) => Err(e),
                                Ok(description) => if table.numbers.contains(number) {
                                    Err(ErrorView::DuplicateValue { name, value: number })
                                } else {
                                    Ok(
                                        ValueTable {
                                            numbers: table.numbers.insert(
                                                rank(table.numbers, number),
                                                number,
                                            ),
                                            values: table.values.insert(
                                                rank(table.numbers, number),
                                                named_value(name, number, description),
                                            ),
                                        },
                                    )
                                },
                            }
                        },
                    }
                },
                _ => Err(ErrorView::NotArray),
            }
        },
    }
}

/// The table of the values that a mapping lists; the first entry that is wrong is an error.
pub open spec fn value_table(entries: Seq<(Yaml, Yaml)>) -> Result<ValueTable, ErrorView>
    decreases entries.len(),
{
    if entries.len() == 0 {
        Ok(ValueTable { numbers: Seq::empty(), values: Seq::empty() })
    } else {
        match value_table(entries.drop_last()) {
            Err(e) => Err(e),
            Ok(table) => with_value(table, entries.last().0, entries.last().1),
        }
    }
}

/// A rank is a position at which the number can be inserted.
pub(crate) proof fn lemma_rank(numbers: Seq<i64>, v: i64)
    ensures
        0 <= rank(numbers, v) <= numbers.len(),
        forall|i: int| 0 <= i < rank(numbers, v) ==> numbers[i] < v,
        rank(numbers, v) < numbers.len() ==> numbers[rank(numbers, v)] >= v,
    decreases numbers.len(),
{
    if numbers.len() > 0 && numbers[0] < v {
        lemma_rank(numbers.skip(1), v);
        let k = rank(numbers.skip(1), v);
        assert forall|i: int| 0 <= i < rank(numbers, v) implies numbers[i] < v by {
            if i > 0 {
                assert(numbers.skip(1)[i - 1] == numbers[i]);
            }
        }
        if k < numbers.skip(1).len() {
            assert(numbers.skip(1)[k] == numbers[k + 1]);
        }
    }
}

fn find_rank(numbers: &Vec<i64>, v: i64) -> (r: usize)
    ensures
        r == rank(numbers@, v),
{
    let n = numbers.len();
    let mut i: usize = 0;
    assert(numbers@.skip(0) =~= numbers@);
    while i < n && numbers[i] < v
        invariant
            n == numbers@.len(),
            i <= n,
            rank(numbers@, v) == i + rank(numbers@.skip(i as int), v),
        decreases n - i,
    {
        assert(numbers@.skip(i as int).skip(1) =~= numbers@.skip(i + 1));
        i = i + 1;
    }
    i
}

fn has_number(numbers: &Vec<i64>, v: i64) -> (r: bool)
    ensures
        r == numbers@.contains(v),
{
    for i in 0..numbers.len()
        invariant
            forall|j: int| 0 <= j < i ==> numbers@[j] != v,
    {
        if numbers[i] == v {
            return true;
        }
    }
    false
}

fn add_value(
    numbers: &mut Vec<i64>,
    values: &mut Vec<EnumeratedValue>,
    key: &Yaml,
    value: &Yaml,
) -> (r: Result<(), PatchError>)
    requires
        old(numbers)@.len() == old(values)@.len(),
    ensures
        final(numbers)@.len() == final(values)@.len(),
        ({
            let before = ValueTable {
                numbers: old(numbers)@,
                values: value_views(old(values)@),
            };
            let after = ValueTable {
                numbers: final(numbers)@,
                values: value_views(final(values)@),
            };
            match r {
                Ok(_) => with_value(before, *key, *value) == Ok::<ValueTable, ErrorView>(after),
                Err(e) => with_value(before, *key, *value) == Err::<ValueTable, ErrorView>(e@),
            }
        }),
{
    let name = key.str()?;
    if starts_with(name, '_') {
        return Ok(());
    }
    if starts_with_digit(name) {
        return Err(PatchError::ValueNameDigit { name: name.to_owned() });
    }
    let parts = match value {
        Yaml::Array(parts) => parts,
        _ => {
            return Err(PatchError::NotArray);
        },
    };
    if parts.len() == 0 {
        return Err(PatchError::IncompleteValue { name: name.to_owned() });
    }
    let number = parts[0].i64()?;
    if parts.len() == 1 {
        return Err(PatchError::IncompleteValue { name: name.to_owned() });
    }
    let description = parts[1].str()?;
    if has_number(numbers, number) {
        return Err(PatchError::DuplicateValue { name: name.to_owned(), value: number });
    }
    let k = find_rank(numbers, number);
    proof {
        lemma_rank(numbers@, number);
    }
    let ghost before = value_views(values@);
    let description = if description.is_empty() {
        None
    } else {
        Some(description.to_owned())
    };
    let named = EnumeratedValue {
        name: name.to_owned(),
        description,
        value: Some(
            #[verifier::truncate]
            (number as u64),
        ),
        is_default: None,
    };
    numbers.insert(k, number);
    values.insert(k, named);
    assert(value_views(values@) =~= before.insert(k as int, named@));
    Ok(())
}

/// Reads the values that a mapping lists, each as a name with a number and a description, and
/// puts them in the order of their numbers.
pub fn make_ev_array(values: &Mapping) -> (r: Result<Vec<EnumeratedValue>, PatchError>)
    ensures
        match r {
            Ok(v) => value_table(values@) is Ok && value_table(values@)->Ok_0.values == value_views(
                v@,
            ),
            Err(e) => value_table(values@) == Err::<ValueTable, ErrorView>(e@),
        },
{
    let n = values.entries.len();
    let mut numbers: Vec<i64> = Vec::new();
    let mut r: Vec<EnumeratedValue> = Vec::new();
    assert(value_views(r@) =~= Seq::empty());
    for i in 0..n
        invariant
            n == values@.len(),
            numbers@.len() == r@.len(),
            value_table(values@.take(i as int)) == Ok::<ValueTable, ErrorView>(
                ValueTable { numbers: numbers@, values: value_views(r@) },
            ),
    {
        assert(values@.take(i + 1).drop_last() =~= values@.take(i as int));
        match add_value(&mut numbers, &mut r, &values.entries[i].0, &values.entries[i].1) {
            Ok(_) => {},
            Err(e) => {
                proof {
                    lemma_table_prefix_error(values@, i + 1);
                }
                return Err(e);
            },
        }
    }
    assert(values@.take(n as int) =~= values@);
    Ok(r)
}

/// An error of a prefix is the error of the whole.
proof fn lemma_table_prefix_error(entries: Seq<(Yaml, Yaml)>, n: int)
    requires
        0 <= n <= entries.len(),
        value_table(entries.take(n)) is Err,
    ensures
        value_table(entries) == value_table(entries.take(n)),
    decreases entries.len() - n,
{
    if n == entries.len() {
        assert(entries.take(n) =~= entries);
    } else {
        assert(entries.take(n + 1).drop_last() =~= entries.take(n));
        lemma_table_prefix_error(entries, n + 1);
    }
}

} // verus!
