//! What holds of the parts that fields are made of, and of changes that do not go well.

use crate::builder::{built, modified, FieldInfoBuilderView};
use crate::edit::{added, changed, modified_fields, ranged};
use crate::error::ErrorView;
use crate::fields::{bears, lemma_matched_names, matched_names, picks, update_named};
use crate::laws::changes::{
    description_given, is_right, law_right_fields_are_accepted, number_taken_over, text_taken_over,
    word_under,
};
use crate::laws::edits::{lemma_fields_after, lemma_update_length, lemma_update_went_well};
use crate::laws::possible::{lemma_some_named, picks_some};
use crate::make::{access_named, read_action_named, write_effect_named};
use crate::svd::{
    BitRange, BitRangeType, FieldInfoView, FieldView, RegisterView, WriteConstraint,
    WriteConstraintRange,
};
use crate::yaml::{lookup, lookup_number, lookup_text, Yaml};
use vstd::prelude::*;

verus! {

/// A field takes over the parts that it is given: each that is given takes the place of what was
/// there, and each that is not leaves it. Offset and width that are given together make a range by
/// offset and width. An empty description is none. With a field to copy from, the values, the write
/// constraint and the effect of writes go, and the effect of reads stays.
pub proof fn law_parts_are_taken_over(f: FieldInfoView, parts: FieldInfoBuilderView)
    ensures
        ({
            let after = modified(f, parts);
            let copied = parts.derived_from is Some;
            &&& after.name == match parts.name {
                Some(name) => name,
                None => f.name,
            }
            &&& after.description == match parts.description {
                Some(d) => description_given(d),
                None => f.description,
            }
            &&& after.bit_range.offset == match parts.bit_offset {
                Some(offset) => offset,
                None => f.bit_range.offset,
            }
            &&& after.bit_range.width == match parts.bit_width {
                Some(width) => width,
                None => f.bit_range.width,
            }
            &&& after.bit_range.range_type == if parts.bit_offset is Some && parts.bit_width is Some {
                BitRangeType::OffsetWidth
            } else {
                f.bit_range.range_type
            }
            &&& after.access == if parts.access is Some {
                parts.access
            } else {
                f.access
            }
            &&& after.derived_from == if copied {
                parts.derived_from
            } else {
                f.derived_from
            }
            &&& after.modified_write_values == if copied {
                None
            } else if parts.modified_write_values is Some {
                parts.modified_write_values
            } else {
                f.modified_write_values
            }
            &&& after.read_action == if !copied && parts.read_action is Some {
                parts.read_action
            } else {
                f.read_action
            }
            &&& after.write_constraint == if copied {
                None
            } else {
                f.write_constraint
            }
            &&& after.enumerated_values == if copied {
                Seq::empty()
            } else {
                f.enumerated_values
            }
        }),
{
}

/// A field is made of parts that give an offset and a width which is not zero, and of nothing less.
/// It has the name that it is made under and the parts that are given, and no values and no write
/// constraint.
pub proof fn law_fields_are_made_of_parts(parts: FieldInfoBuilderView, name: Seq<char>)
    ensures
        built(parts, name) is Ok <==> parts.bit_offset is Some && parts.bit_width is Some
            && parts.bit_width != Some(0u32),
        parts.bit_offset is None || parts.bit_width is None ==> built(parts, name) == Err::<
            FieldInfoView,
            ErrorView,
        >(ErrorView::NoBitRange),
        built(parts, name) matches Ok(f) ==> {
            &&& f.name == name
            &&& f.description == match parts.description {
                Some(d) => description_given(d),
                None => None,
            }
            &&& parts.bit_offset == Some(f.bit_range.offset)
            &&& parts.bit_width == Some(f.bit_range.width)
            &&& f.bit_range.range_type == BitRangeType::OffsetWidth
            &&& f.access == parts.access
            &&& f.modified_write_values == parts.modified_write_values
            &&& f.read_action == parts.read_action
            &&& f.derived_from == parts.derived_from
            &&& f.write_constraint is None
            &&& f.enumerated_values.len() == 0
        },
{
    if let (Some(offset), Some(width)) = (parts.bit_offset, parts.bit_width) {
        let f = FieldInfoView {
            name,
            description: crate::builder::nonempty(parts.description),
            bit_range: BitRange::from_offset_width(offset, width),
            access: parts.access,
            modified_write_values: parts.modified_write_values,
            write_constraint: None,
            read_action: parts.read_action,
            enumerated_values: Seq::empty(),
            derived_from: parts.derived_from,
        };
        law_right_fields_are_accepted(f);
    }
}

/// A step for each of some fields goes well if it does for each of them. If not, it ends with the
/// first field for which it does not: the fields before that have been changed, that one is as the
/// failed step leaves it, the fields behind it are untouched, and the answer is that of the failed
/// step. Other fields are never touched.
pub proof fn law_steps_stop_at_failure(
    fields: Seq<FieldView>,
    names: Seq<Seq<char>>,
    step: spec_fn(FieldView) -> (FieldView, Result<(), ErrorView>),
)
    ensures
        ({
            let (after, answer) = update_named(fields, names, step);
            &&& after.len() == fields.len()
            &&& answer is Ok <==> forall|i: int|
                0 <= i < fields.len() && bears(#[trigger] fields[i], names) ==> step(
                    fields[i],
                ).1 is Ok
            &&& forall|i: int|
                0 <= i < fields.len() && !bears(#[trigger] fields[i], names) ==> after[i]
                    == fields[i]
            &&& answer is Ok ==> forall|i: int|
                0 <= i < fields.len() && bears(#[trigger] fields[i], names) ==> after[i] == step(
                    fields[i],
                ).0
            &&& answer is Err ==> exists|k: int| #[trigger]
                stops_at(fields, names, step, after, answer, k)
        }),
    decreases fields.len(),
{
    let (after, answer) = update_named(fields, names, step);
    lemma_update_length(fields, names, step);
    if answer is Ok {
        assert forall|i: int| 0 <= i < fields.len() && bears(#[trigger] fields[i], names) implies step(
            fields[i],
        ).1 is Ok && after[i] == step(fields[i]).0 by {
            lemma_update_went_well(fields, names, step, i);
        }
        assert forall|i: int| 0 <= i < fields.len() && !bears(#[trigger] fields[i], names) implies after[i]
            == fields[i] by {
            lemma_update_went_well(fields, names, step, i);
        }
    } else {
        let rest = fields.skip(1);
        let first = if bears(fields[0], names) {
            step(fields[0])
        } else {
            (fields[0], Ok(()))
        };
        if first.1 is Err {
            assert(after == seq![first.0] + rest);
            assert(stops_at(fields, names, step, after, answer, 0));
        } else {
            law_steps_stop_at_failure(rest, names, step);
            let (tail, last) = update_named(rest, names, step);
            assert(after == seq![first.0] + tail);
            let k = choose|k: int| #[trigger] stops_at(rest, names, step, tail, last, k);
            assert(fields[k + 1] == rest[k]);
            assert forall|i: int| 0 <= i < k + 1 && bears(#[trigger] fields[i], names) implies step(
                fields[i],
            ).1 is Ok && after[i] == step(fields[i]).0 by {
                if i > 0 {
                    assert(rest[i - 1] == fields[i]);
                    assert(after[i] == tail[i - 1]);
                }
            }
            assert forall|i: int| k + 1 < i < fields.len() implies after[i] == #[trigger] fields[i] by {
                assert(rest[i - 1] == fields[i]);
                assert(after[i] == tail[i - 1]);
            }
            assert(stops_at(fields, names, step, after, answer, k + 1));
        }
        assert forall|i: int| 0 <= i < fields.len() && !bears(#[trigger] fields[i], names) implies after[i]
            == fields[i] by {
            if i > 0 {
                assert(rest[i - 1] == fields[i]);
            }
        }
        let k = choose|k: int| #[trigger] stops_at(fields, names, step, after, answer, k);
        assert(bears(fields[k], names) && step(fields[k]).1 is Err);
    }
}

/// Whether a step for each of some fields has stopped at the field at a position.
pub open spec fn stops_at(
    fields: Seq<FieldView>,
    names: Seq<Seq<char>>,
    step: spec_fn(FieldView) -> (FieldView, Result<(), ErrorView>),
    after: Seq<FieldView>,
    answer: Result<(), ErrorView>,
    k: int,
) -> bool {
    &&& 0 <= k < fields.len()
    &&& bears(fields[k], names)
    &&& answer is Err
    &&& step(fields[k]) == (after[k], answer)
    &&& forall|i: int|
        0 <= i < k && bears(#[trigger] fields[i], names) ==> step(fields[i]).1 is Ok && after[i]
            == step(fields[i]).0
    &&& forall|i: int| k < i < fields.len() ==> after[i] == #[trigger] fields[i]
}

/// What a mapping asks for under the keys of the write constraint, of which the one with the
/// underscore comes first.
pub open spec fn constraint_asked(entries: Seq<(Yaml, Yaml)>) -> Option<Yaml> {
    if lookup(entries, "_write_constraint"@) is Some {
        lookup(entries, "_write_constraint"@)
    } else {
        lookup(entries, "writeConstraint"@)
    }
}

/// Whether a mapping asks for a write constraint that there is, or for none at all.
pub open spec fn constraint_is_known(entries: Seq<(Yaml, Yaml)>) -> bool {
    match constraint_asked(entries) {
        None => true,
        Some(Yaml::String(s)) => s@ == "none"@ || s@ == "enum"@,
        Some(Yaml::Array(a)) => a@[0] is Integer && a@[1] is Integer,
        _ => false,
    }
}

/// The write constraint that a field has after a mapping has been followed.
pub open spec fn constraint_after(
    before: Option<WriteConstraint>,
    entries: Seq<(Yaml, Yaml)>,
) -> Option<WriteConstraint> {
    if lookup(entries, "derivedFrom"@) is Some {
        None
    } else {
        match constraint_asked(entries) {
            None => before,
            Some(Yaml::String(s)) => if s@ == "none"@ {
                None
            } else {
                Some(WriteConstraint::UseEnumeratedValues(true))
            },
            Some(Yaml::Array(a)) => Some(
                WriteConstraint::Range(
                    WriteConstraintRange {
                        min: a@[0]->Integer_0 as u64,
                        max: a@[1]->Integer_0 as u64,
                    },
                ),
            ),
            _ => before,
        }
    }
}

/// Whether everything that a mapping gives of a field as a string is one.
pub open spec fn strings_are_strings(entries: Seq<(Yaml, Yaml)>) -> bool {
    &&& lookup_text(entries, "name"@) is Ok
    &&& lookup_text(entries, "description"@) is Ok
    &&& lookup_text(entries, "derivedFrom"@) is Ok
    &&& lookup_text(entries, "access"@) is Ok
    &&& lookup_text(entries, "modifiedWriteValues"@) is Ok
    &&& lookup_text(entries, "readAction"@) is Ok
}

/// Whether everything that a mapping gives of a field as a number is one.
pub open spec fn numbers_are_numbers(entries: Seq<(Yaml, Yaml)>) -> bool {
    &&& lookup_number(entries, "bitOffset"@) is Ok
    &&& lookup_number(entries, "bitWidth"@) is Ok
}

/// Whether a field would be right after a mapping has been followed: with the width, the write
/// constraint and the values that it has then.
pub open spec fn right_after(f: FieldInfoView, entries: Seq<(Yaml, Yaml)>) -> bool {
    is_right(
        FieldInfoView {
            bit_range: BitRange {
                width: match lookup_number(entries, "bitWidth"@) {
                    Ok(Some(n)) => n as u32,
                    _ => f.bit_range.width,
                },
                ..f.bit_range
            },
            write_constraint: constraint_after(f.write_constraint, entries),
            enumerated_values: if lookup(entries, "derivedFrom"@) is Some {
                Seq::empty()
            } else {
                f.enumerated_values
            },
            ..f
        },
    )
}

proof fn lemma_change_goes_well(f: FieldView, entries: Seq<(Yaml, Yaml)>)
    ensures
        changed(f, entries).1 is Ok <==> {
            &&& constraint_is_known(entries)
            &&& strings_are_strings(entries)
            &&& numbers_are_numbers(entries)
            &&& right_after(f.info, entries)
        },
        changed(f, entries).1 matches Err(e) ==> {
            &&& !constraint_is_known(entries) ==> e == match constraint_asked(entries) {
                Some(Yaml::Array(_)) => ErrorView::NotInteger,
                Some(v) => ErrorView::UnknownWriteConstraint { constraint: v@ },
                None => e,
            }
            &&& constraint_is_known(entries) && !strings_are_strings(entries) ==> e
                == ErrorView::NotString
            &&& constraint_is_known(entries) && strings_are_strings(entries)
                && !numbers_are_numbers(entries) ==> e == ErrorView::NotInteger
            &&& constraint_is_known(entries) && strings_are_strings(entries)
                && numbers_are_numbers(entries) ==> e is Svd
        },
{
    reveal_strlit("none");
    reveal_strlit("enum");
    assert("none"@[0] == 'n' && "enum"@[0] == 'e');
    let done = changed(f, entries).0.info;
    law_right_fields_are_accepted(done);
    let width = match lookup_number(entries, "bitWidth"@) {
        Ok(Some(n)) => n as u32,
        _ => f.info.bit_range.width,
    };
    let expected = FieldInfoView {
        bit_range: BitRange { width, ..f.info.bit_range },
        write_constraint: constraint_after(f.info.write_constraint, entries),
        enumerated_values: if lookup(entries, "derivedFrom"@) is Some {
            Seq::empty()
        } else {
            f.info.enumerated_values
        },
        ..f.info
    };
    if constraint_is_known(entries) && strings_are_strings(entries) && numbers_are_numbers(entries) {
        assert(done.bit_range.width == expected.bit_range.width);
        assert(done.write_constraint == expected.write_constraint);
        assert(done.enumerated_values == expected.enumerated_values);
        lemma_right_alike(done, expected);
    }
}

proof fn lemma_right_alike(a: FieldInfoView, b: FieldInfoView)
    requires
        a.bit_range.width == b.bit_range.width,
        a.write_constraint == b.write_constraint,
        a.enumerated_values == b.enumerated_values,
    ensures
        is_right(a) == is_right(b),
{
    if is_right(a) {
        assert(is_right(b)) by {
            assert forall|k: int, m: int|
                b.bit_range.width < 64 && 0 <= k < b.enumerated_values.len() && 0 <= m
                    < b.enumerated_values[k].values.len() implies ((
            #[trigger] b.enumerated_values[k].values[m]).value matches Some(n) ==> n
                < vstd::arithmetic::power2::pow2(b.bit_range.width as nat)) by {
                assert(a.enumerated_values[k].values[m] == b.enumerated_values[k].values[m]);
            }
        }
    }
    if is_right(b) {
        assert(is_right(a)) by {
            assert forall|k: int, m: int|
                a.bit_range.width < 64 && 0 <= k < a.enumerated_values.len() && 0 <= m
                    < a.enumerated_values[k].values.len() implies ((
            #[trigger] a.enumerated_values[k].values[m]).value matches Some(n) ==> n
                < vstd::arithmetic::power2::pow2(a.bit_range.width as nat)) by {
                assert(b.enumerated_values[k].values[m] == a.enumerated_values[k].values[m]);
            }
        }
    }
}

/// A modification goes well exactly where no field is picked out, or where it asks for a write
/// constraint that there is, everything that it gives is of the right kind, and each field that is
/// picked out is right afterwards. Where it does not go well, the answer tells of the write
/// constraint before anything else, of what is no string before what is no number, and of these
/// before a field that is not right.
pub proof fn law_modify_answers(reg: RegisterView, spec: Seq<char>, entries: Seq<(Yaml, Yaml)>)
    ensures
        ({
            let answer = modified_fields(reg, spec, entries).1;
            let readable = constraint_is_known(entries) && strings_are_strings(entries)
                && numbers_are_numbers(entries);
            &&& answer is Ok <==> forall|i: int|
                0 <= i < reg.fields().len() && picks(#[trigger] reg.fields()[i], spec) ==> readable
                    && right_after(reg.fields()[i].info, entries)
            &&& answer matches Err(e) ==> {
                &&& !constraint_is_known(entries) ==> e == match constraint_asked(entries) {
                    Some(Yaml::Array(_)) => ErrorView::NotInteger,
                    Some(v) => ErrorView::UnknownWriteConstraint { constraint: v@ },
                    None => e,
                }
                &&& constraint_is_known(entries) && !strings_are_strings(entries) ==> e
                    == ErrorView::NotString
                &&& constraint_is_known(entries) && strings_are_strings(entries)
                    && !numbers_are_numbers(entries) ==> e == ErrorView::NotInteger
                &&& readable ==> e is Svd
            }
        }),
{
    let fields = reg.fields();
    let names = matched_names(fields, spec);
    let step = |f: FieldView| changed(f, entries);
    let (after, answer) = update_named(fields, names, step);
    lemma_matched_names(fields, spec);
    law_steps_stop_at_failure(fields, names, step);
    assert forall|i: int| 0 <= i < fields.len() implies bears(#[trigger] fields[i], names) == picks(
        fields[i],
        spec,
    ) by {}
    if answer is Ok {
        assert forall|i: int| 0 <= i < fields.len() && picks(#[trigger] fields[i], spec) implies constraint_is_known(
            entries,
        ) && strings_are_strings(entries) && numbers_are_numbers(entries) && right_after(
            fields[i].info,
            entries,
        ) by {
            lemma_change_goes_well(fields[i], entries);
            assert(step(fields[i]).1 is Ok);
        }
    } else {
        let k = choose|k: int| #[trigger] stops_at(fields, names, step, after, answer, k);
        lemma_change_goes_well(fields[k], entries);
        assert(picks(fields[k], spec));
        assert(step(fields[k]).1 is Err);
    }
}

/// A modification that does not go well ends with one of the fields that are picked out: those
/// before it are changed as they are where all goes well, and those behind it are not.
pub proof fn law_modify_stops_at_failure(
    reg: RegisterView,
    spec: Seq<char>,
    entries: Seq<(Yaml, Yaml)>,
)
    requires
        modified_fields(reg, spec, entries).1 is Err,
    ensures
        exists|k: int| #[trigger]
            modification_stops_at(
                reg.fields(),
                spec,
                entries,
                modified_fields(reg, spec, entries).0.fields(),
                modified_fields(reg, spec, entries).1,
                k,
            ),
{
    let fields = reg.fields();
    let names = matched_names(fields, spec);
    let step = |f: FieldView| changed(f, entries);
    let (after, answer) = update_named(fields, names, step);
    lemma_matched_names(fields, spec);
    law_steps_stop_at_failure(fields, names, step);
    lemma_update_length(fields, names, step);
    lemma_fields_after(reg, after);
    let k = choose|k: int| #[trigger] stops_at(fields, names, step, after, answer, k);
    assert(picks(fields[k], spec));
    assert forall|i: int| 0 <= i < k implies #[trigger] after[i] == if picks(fields[i], spec) {
        changed(fields[i], entries).0
    } else {
        fields[i]
    } by {
        assert(bears(fields[i], names) == picks(fields[i], spec));
    }
    assert(modified_fields(reg, spec, entries).0.fields() == after);
    assert(modification_stops_at(fields, spec, entries, after, answer, k));
}

/// Whether a modification has stopped at the field at a position.
pub open spec fn modification_stops_at(
    fields: Seq<FieldView>,
    spec: Seq<char>,
    entries: Seq<(Yaml, Yaml)>,
    after: Seq<FieldView>,
    answer: Result<(), ErrorView>,
    k: int,
) -> bool {
    &&& 0 <= k < fields.len()
    &&& picks(fields[k], spec)
    &&& changed(fields[k], entries) == (after[k], answer)
    &&& answer is Err
    &&& after.len() == fields.len()
    &&& forall|i: int|
        0 <= i < k ==> #[trigger] after[i] == if picks(fields[i], spec) {
            changed(fields[i], entries).0
        } else {
            fields[i]
        }
    &&& forall|i: int| k < i < fields.len() ==> #[trigger] after[i] == fields[i]
}

/// Whether a field has every part that a mapping gives, and everything else as it was; with a field
/// to copy from, it has lost what a copy brings along.
pub open spec fn has_parts(
    before: FieldInfoView,
    after: FieldInfoView,
    entries: Seq<(Yaml, Yaml)>,
) -> bool {
    let access = word_under(entries, "access"@, |w: Seq<char>| access_named(w));
    let write = word_under(entries, "modifiedWriteValues"@, |w: Seq<char>| write_effect_named(w));
    let read = word_under(entries, "readAction"@, |w: Seq<char>| read_action_named(w));
    let copied = lookup(entries, "derivedFrom"@) is Some;
    &&& text_taken_over(entries, "name"@, Some(before.name), Some(after.name))
    &&& match lookup_text(entries, "description"@) {
        Ok(Some(d)) => after.description == description_given(d),
        Ok(None) => after.description == before.description,
        Err(_) => false,
    }
    &&& text_taken_over(entries, "derivedFrom"@, before.derived_from, after.derived_from)
    &&& number_taken_over(entries, "bitOffset"@, before.bit_range.offset, after.bit_range.offset)
    &&& number_taken_over(entries, "bitWidth"@, before.bit_range.width, after.bit_range.width)
    &&& after.access == if access is Some {
        access
    } else {
        before.access
    }
    &&& after.modified_write_values == if copied {
        None
    } else if write is Some {
        write
    } else {
        before.modified_write_values
    }
    &&& after.read_action == if !copied && read is Some {
        read
    } else {
        before.read_action
    }
    &&& after.write_constraint == constraint_after(before.write_constraint, entries)
    &&& after.enumerated_values == if copied {
        Seq::empty()
    } else {
        before.enumerated_values
    }
}

/// What a change leaves of a field does not depend on whether the field is right afterwards: it
/// has the parts that are given even where the change is refused for that. Where a part is not of
/// the right kind, only the write constraint has been changed, and nothing at all where that is
/// not known.
pub proof fn law_refused_change_is_made(f: FieldView, entries: Seq<(Yaml, Yaml)>)
    ensures
        ({
            let after = changed(f, entries).0;
            &&& after.dim == f.dim
            &&& !constraint_is_known(entries) ==> after == f
            &&& constraint_is_known(entries) && !(strings_are_strings(entries)
                && numbers_are_numbers(entries)) ==> after.info == FieldInfoView {
                write_constraint: after.info.write_constraint,
                ..f.info
            } && (lookup(entries, "derivedFrom"@) is None ==> after.info.write_constraint
                == constraint_after(f.info.write_constraint, entries))
            &&& constraint_is_known(entries) && strings_are_strings(entries) && numbers_are_numbers(
                entries,
            ) ==> has_parts(f.info, after.info, entries)
        }),
{
    reveal_strlit("none");
    reveal_strlit("enum");
    assert("none"@[0] == 'n' && "enum"@[0] == 'e');
}

/// A field that is not added is told why: its name is there, something is no string, something is
/// no number, there is no offset or no width, or the width is zero, in this order.
pub proof fn law_add_says_why(reg: RegisterView, name: Seq<char>, entries: Seq<(Yaml, Yaml)>)
    requires
        added(reg, name, entries).1 is Err,
    ensures
        ({
            let e = added(reg, name, entries).1->Err_0;
            if exists|i: int|
                0 <= i < reg.fields().len() && (#[trigger] reg.fields()[i]).info.name == name {
                e == (ErrorView::FieldExists { register: reg.info.name, field: name })
            } else if !strings_are_strings(entries) {
                e == ErrorView::NotString
            } else if !numbers_are_numbers(entries) {
                e == ErrorView::NotInteger
            } else if lookup(entries, "bitOffset"@) is None || lookup(entries, "bitWidth"@) is None {
                e == ErrorView::NoBitRange
            } else {
                e is Svd
            }
        }),
{
}

/// A range that is not given is told why: there is no field for it, or one of its bounds is no
/// number.
pub proof fn law_range_says_why(
    reg: RegisterView,
    pname: Seq<char>,
    spec: Seq<char>,
    parts: Seq<Yaml>,
)
    ensures
        ranged(reg, pname, spec, parts).1 matches Err(e) ==> if picks_some(reg.fields(), spec) {
            e == ErrorView::NotInteger
        } else {
            e == (ErrorView::FieldNotFound { peripheral: pname, register: reg.info.name, spec })
        },
{
    lemma_some_named(reg.fields(), spec);
}

} // verus!
