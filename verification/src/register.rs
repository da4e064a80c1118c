//! Patching a register: what a device file says of its fields is changed as a document asks.

use crate::collect::{can_collect, collect_defined, collected};
use crate::edit::{
    added, can_modify, can_process_range, can_strip_end, can_strip_start, cleared, deleted,
    end_can_be_stripped, end_stripped, modified_fields, modify_defined, range_defined, ranged,
    start_can_be_stripped, start_stripped,
};
use crate::enums::{
    can_process_enum, can_process_field, enum_defined, enumerated, field_processed,
    process_field_defined,
};
use crate::error::{outcome, PatchResult};
use crate::fields::{matched_indices, positions};
use crate::merge::{can_merge, merge_defined, merged, referent};
use crate::process::{attempted, guarded, processed, run};
use crate::split::{can_split, split, split_defined};
use crate::svd::{
    field_views, FieldView, Register, RegisterInfo, RegisterInfoView, RegisterView, Usage,
};
use crate::yaml::{Mapping, Yaml};
use vstd::prelude::*;

verus! {

/// Whether a bit of a mask is set.
pub open spec fn bit_set(mask: u64, bit: u64) -> bool {
    mask & (1u64 << bit) != 0
}

/// Whether a field covers a bit of its register.
pub open spec fn covers(f: FieldView, bit: int) -> bool {
    f.info.bit_range.offset <= bit < f.info.bit_range.offset + f.info.bit_range.width
}

/// Whether some field covers a bit of the register.
pub open spec fn covered(fields: Seq<FieldView>, bit: int) -> bool {
    exists|i: int| 0 <= i < fields.len() && covers(#[trigger] fields[i], bit)
}

/// Whether every field has a width, and starts within the bits of a mask.
pub open spec fn has_bitmask(fields: Seq<FieldView>) -> bool {
    forall|i: int|
        0 <= i < fields.len() ==> 1 <= (#[trigger] fields[i]).info.bit_range.width <= 64
            && fields[i].info.bit_range.offset < 64
}

/// The fields of what a device file says of a register.
pub open spec fn info_fields(info: RegisterInfoView) -> Seq<FieldView> {
    match info.fields {
        Some(fields) => fields,
        None => Seq::empty(),
    }
}

proof fn lemma_bits_of_range(width: u64, offset: u64, bit: u64)
    by (bit_vector)
    requires
        1 <= width <= 64,
        offset < 64,
        bit < 64,
    ensures
        (((!0u64 >> ((64 - width) as u64)) << offset) & (1u64 << bit) != 0) == (offset <= bit && bit
            < offset + width),
{
}

proof fn lemma_bits_of_union(a: u64, b: u64, bit: u64)
    by (bit_vector)
    ensures
        ((a | b) & (1u64 << bit) != 0) == (a & (1u64 << bit) != 0 || b & (1u64 << bit) != 0),
        0u64 & (1u64 << bit) == 0,
{
}

/// What can be asked of the description of a register.
pub trait RegisterInfoExt: View<V = RegisterInfoView> {
    /// Calculates the filling of a register: a mask whose set bits are those that some field
    /// covers.
    fn get_bitmask(&self) -> (r: u64)
        requires
            has_bitmask(info_fields(self@)),
        ensures
            forall|bit: u64|
                bit < 64 ==> #[trigger] bit_set(r, bit) == covered(
                    info_fields(self@),
                    bit as int,
                ),
    ;
}

impl RegisterInfoExt for RegisterInfo {
    fn get_bitmask(&self) -> (r: u64) {
        let mut mask: u64 = 0;
        assert forall|bit: u64| bit < 64 implies !#[trigger] bit_set(0u64, bit) by {
            lemma_bits_of_union(0, 0, bit);
        }
        if let Some(fields) = &self.fields {
            let n = fields.len();
            let ghost views = field_views(fields@);
            for i in 0..n
                invariant
                    n == fields@.len(),
                    views == field_views(fields@),
                    has_bitmask(views),
                    forall|bit: u64|
                        bit < 64 ==> #[trigger] bit_set(mask, bit) == covered(
                            views.take(i as int),
                            bit as int,
                        ),
            {
                assert(views[i as int] == fields@[i as int]@);
                let width = fields[i].info.bit_range.width as u64;
                let offset = fields[i].info.bit_range.offset as u64;
                let part: u64 = (!0u64 >> (64 - width)) << offset;
                assert forall|bit: u64| bit < 64 implies #[trigger] bit_set(mask | part, bit)
                    == covered(views.take(i + 1), bit as int) by {
                    lemma_bits_of_range(width, offset, bit);
                    lemma_bits_of_union(mask, part, bit);
                    assert(bit_set(mask, bit) == covered(views.take(i as int), bit as int));
                    assert(bit_set(part, bit) == covers(views[i as int], bit as int));
                    if covered(views.take(i as int), bit as int) {
                        let j = choose|j: int|
                            0 <= j < i && covers(#[trigger] views.take(i as int)[j], bit as int);
                        assert(views.take(i + 1)[j] == views.take(i as int)[j]);
                    }
                    if covers(views[i as int], bit as int) {
                        assert(views.take(i + 1)[i as int] == views[i as int]);
                    }
                    if covered(views.take(i + 1), bit as int) {
                        let j = choose|j: int|
                            0 <= j < i + 1 && covers(#[trigger] views.take(i + 1)[j], bit as int);
                        if j < i {
                            assert(views.take(i as int)[j] == views.take(i + 1)[j]);
                        }
                    }
                }
                mask = mask | part;
            }
            assert(views.take(n as int) =~= views);
        }
        mask
    }
}

/// What a document can ask to be done to a register and its fields.
pub trait RegisterExt: View<V = RegisterView> {
    /// Works through a register, handling all fields: deletions, clearings, modifications,
    /// additions, merges, splits and strips, then the values of fields if they are to be updated,
    /// and at last arrays.
    fn process(&mut self, rmod: &Mapping, pname: &str, update_fields: bool) -> (r: PatchResult)
        requires
            processed(old(self)@, rmod@, pname@, update_fields).1 is Some,
        ensures
            (final(self)@, Some(outcome(r))) == processed(
                old(self)@,
                rmod@,
                pname@,
                update_fields,
            ),
    ;

    /// Adds a field with the given name and contents.
    fn add_field(&mut self, fname: &str, fadd: &Mapping) -> (r: PatchResult)
        ensures
            (final(self)@, outcome(r)) == added(old(self)@, fname@, fadd@),
    ;

    /// Deletes the fields that a specification picks out.
    fn delete_field(&mut self, fspec: &str) -> (r: PatchResult)
        ensures
            r is Ok,
            final(self)@ == deleted(old(self)@, fspec@),
    ;

    /// Clears the contents of the fields that a specification picks out.
    fn clear_field(&mut self, fspec: &str) -> (r: PatchResult)
        ensures
            r is Ok,
            final(self)@ == cleared(old(self)@, fspec@),
    ;

    /// Walks over the fields that a specification picks out: their positions, in order.
    fn iter_fields(&self, spec: &str) -> (r: Vec<usize>)
        ensures
            positions(r@) == matched_indices(self@.fields(), spec@),
    ;

    /// Works through a field, handling either an enumeration or a range.
    fn process_field(&mut self, pname: &str, fspec: &str, fmod: &Yaml) -> (r: PatchResult)
        requires
            process_field_defined(old(self)@, *fmod),
        ensures
            (final(self)@, outcome(r)) == field_processed(old(self)@, pname@, fspec@, *fmod),
    ;

    /// Gives enumerated values to all fields that a specification picks out.
    fn process_field_enum(
        &mut self,
        pname: &str,
        fspec: &str,
        fmod: &Mapping,
        usage: Usage,
    ) -> (r: PatchResult)
        requires
            enum_defined(old(self)@, fmod@),
        ensures
            (final(self)@, outcome(r)) == enumerated(old(self)@, pname@, fspec@, fmod@, usage),
    ;

    /// Gives a range of values that may be written to all fields that a specification picks out.
    fn process_field_range(&mut self, pname: &str, fspec: &str, fmod: &[Yaml]) -> (r: PatchResult)
        requires
            range_defined(old(self)@, fspec@, fmod@),
        ensures
            (final(self)@, outcome(r)) == ranged(old(self)@, pname@, fspec@, fmod@),
    ;

    /// Deletes a substring from the beginning of the names of fields.
    fn strip_start(&mut self, substr: &str) -> (r: PatchResult)
        requires
            start_can_be_stripped(old(self)@, substr@),
        ensures
            (final(self)@, outcome(r)) == start_stripped(old(self)@, substr@),
    ;

    /// Deletes a substring from the end of the names of fields.
    fn strip_end(&mut self, substr: &str) -> (r: PatchResult)
        requires
            end_can_be_stripped(old(self)@, substr@),
        ensures
            (final(self)@, outcome(r)) == end_stripped(old(self)@, substr@),
    ;

    /// Modifies the fields that a specification picks out.
    fn modify_field(&mut self, fspec: &str, fmod: &Mapping) -> (r: PatchResult)
        requires
            modify_defined(old(self)@, fspec@, fmod@),
        ensures
            (final(self)@, outcome(r)) == modified_fields(old(self)@, fspec@, fmod@),
    ;

    /// Merges fields into one: those that the key picks out, or those that a specification or a
    /// list of specifications picks out, under the key as a name.
    fn merge_fields(&mut self, key: &str, value: Option<&Yaml>) -> (r: PatchResult)
        requires
            merge_defined(old(self)@, key@, referent(value)),
        ensures
            (final(self)@, outcome(r)) == merged(old(self)@, key@, referent(value)),
    ;

    /// Splits all fields that a specification picks out into their bits. Name and description
    /// can be customized, with `%s` as a placeholder for the number of the bit.
    fn split_fields(&mut self, fspec: &str, fsplit: &Mapping) -> (r: PatchResult)
        requires
            split_defined(old(self)@, fspec@, fsplit@),
        ensures
            (final(self)@, outcome(r)) == split(old(self)@, fspec@, fsplit@),
    ;

    /// Collects like fields of a register into an array of fields.
    fn collect_fields_in_array(&mut self, fspec: &str, fmod: &Mapping) -> (r: PatchResult)
        requires
            collect_defined(old(self)@, fspec@, fmod@),
        ensures
            (final(self)@, outcome(r)) == collected(old(self)@, fspec@, fmod@),
    ;
}

impl RegisterExt for Register {
    fn process(&mut self, rmod: &Mapping, pname: &str, update_fields: bool) -> (r: PatchResult) {
        match run(self, rmod, pname, update_fields) {
            Some(r) => r,
            None => {
                assert(false);
                Ok(())
            },
        }
    }

    fn add_field(&mut self, fname: &str, fadd: &Mapping) -> (r: PatchResult) {
        crate::edit::add_field(self, fname, fadd)
    }

    fn delete_field(&mut self, fspec: &str) -> (r: PatchResult) {
        crate::edit::delete_field(self, fspec)
    }

    fn clear_field(&mut self, fspec: &str) -> (r: PatchResult) {
        crate::edit::clear_field(self, fspec)
    }

    fn iter_fields(&self, spec: &str) -> (r: Vec<usize>) {
        crate::fields::find_in(self, spec)
    }

    fn process_field(&mut self, pname: &str, fspec: &str, fmod: &Yaml) -> (r: PatchResult) {
        crate::enums::process_field(self, pname, fspec, fmod)
    }

    fn process_field_enum(
        &mut self,
        pname: &str,
        fspec: &str,
        fmod: &Mapping,
        usage: Usage,
    ) -> (r: PatchResult) {
        crate::enums::process_field_enum(self, pname, fspec, fmod, usage)
    }

    fn process_field_range(&mut self, pname: &str, fspec: &str, fmod: &[Yaml]) -> (r: PatchResult) {
        crate::edit::process_field_range(self, pname, fspec, fmod)
    }

    fn strip_start(&mut self, substr: &str) -> (r: PatchResult) {
        crate::edit::strip_start(self, substr)
    }

    fn strip_end(&mut self, substr: &str) -> (r: PatchResult) {
        crate::edit::strip_end(self, substr)
    }

    fn modify_field(&mut self, fspec: &str, fmod: &Mapping) -> (r: PatchResult) {
        crate::edit::modify_field(self, fspec, fmod)
    }

    fn merge_fields(&mut self, key: &str, value: Option<&Yaml>) -> (r: PatchResult) {
        crate::merge::merge_fields(self, key, value)
    }

    fn split_fields(&mut self, fspec: &str, fsplit: &Mapping) -> (r: PatchResult) {
        crate::split::split_fields(self, fspec, fsplit)
    }

    fn collect_fields_in_array(&mut self, fspec: &str, fmod: &Mapping) -> (r: PatchResult) {
        crate::collect::collect_fields_in_array(self, fspec, fmod)
    }
}

/// The same operations for callers that do not know whether an operation can be carried out:
/// where it cannot, there is no answer and nothing changes.
impl Register {
    /// Works through a register if every step can be carried out.
    pub fn try_process(&mut self, rmod: &Mapping, pname: &str, update_fields: bool) -> (r: Option<
        PatchResult,
    >)
        ensures
            match processed(old(self)@, rmod@, pname@, update_fields) {
                (reg, Some(answer)) => final(self)@ == reg && attempted(r) == Some(answer),
                (_, None) => final(self)@ == old(self)@ && r is None,
            },
    {
        let mut trial = self.clone();
        if run(&mut trial, rmod, pname, update_fields).is_none() {
            return None;
        }
        Some(self.process(rmod, pname, update_fields))
    }

    /// Works through a field if that can be carried out.
    pub fn try_process_field(&mut self, pname: &str, fspec: &str, fmod: &Yaml) -> (r: Option<
        PatchResult,
    >)
        ensures
            (final(self)@, attempted(r)) == guarded(
                process_field_defined(old(self)@, *fmod),
                old(self)@,
                field_processed(old(self)@, pname@, fspec@, *fmod),
            ),
    {
        if can_process_field(self, fmod) {
            Some(self.process_field(pname, fspec, fmod))
        } else {
            None
        }
    }

    /// Gives enumerated values to fields if that can be carried out.
    pub fn try_process_field_enum(
        &mut self,
        pname: &str,
        fspec: &str,
        fmod: &Mapping,
        usage: Usage,
    ) -> (r: Option<PatchResult>)
        ensures
            (final(self)@, attempted(r)) == guarded(
                enum_defined(old(self)@, fmod@),
                old(self)@,
                enumerated(old(self)@, pname@, fspec@, fmod@, usage),
            ),
    {
        if can_process_enum(self, fmod) {
            Some(self.process_field_enum(pname, fspec, fmod, usage))
        } else {
            None
        }
    }

    /// Gives a range of values to fields if that can be carried out.
    pub fn try_process_field_range(&mut self, pname: &str, fspec: &str, fmod: &[Yaml]) -> (r:
        Option<PatchResult>)
        ensures
            (final(self)@, attempted(r)) == guarded(
                range_defined(old(self)@, fspec@, fmod@),
                old(self)@,
                ranged(old(self)@, pname@, fspec@, fmod@),
            ),
    {
        if can_process_range(self, fspec, fmod) {
            Some(self.process_field_range(pname, fspec, fmod))
        } else {
            None
        }
    }

    /// Deletes a substring from the beginning of names if that can be carried out.
    pub fn try_strip_start(&mut self, substr: &str) -> (r: Option<PatchResult>)
        ensures
            (final(self)@, attempted(r)) == guarded(
                start_can_be_stripped(old(self)@, substr@),
                old(self)@,
                start_stripped(old(self)@, substr@),
            ),
    {
        if can_strip_start(self, substr) {
            Some(self.strip_start(substr))
        } else {
            None
        }
    }

    /// Deletes a substring from the end of names if that can be carried out.
    pub fn try_strip_end(&mut self, substr: &str) -> (r: Option<PatchResult>)
        ensures
            (final(self)@, attempted(r)) == guarded(
                end_can_be_stripped(old(self)@, substr@),
                old(self)@,
                end_stripped(old(self)@, substr@),
            ),
    {
        if can_strip_end(self, substr) {
            Some(self.strip_end(substr))
        } else {
            None
        }
    }

    /// Modifies fields if that can be carried out.
    pub fn try_modify_field(&mut self, fspec: &str, fmod: &Mapping) -> (r: Option<PatchResult>)
        ensures
            (final(self)@, attempted(r)) == guarded(
                modify_defined(old(self)@, fspec@, fmod@),
                old(self)@,
                modified_fields(old(self)@, fspec@, fmod@),
            ),
    {
        if can_modify(self, fspec, fmod) {
            Some(self.modify_field(fspec, fmod))
        } else {
            None
        }
    }

    /// Merges fields if that can be carried out.
    pub fn try_merge_fields(&mut self, key: &str, value: Option<&Yaml>) -> (r: Option<PatchResult>)
        ensures
            (final(self)@, attempted(r)) == guarded(
                merge_defined(old(self)@, key@, referent(value)),
                old(self)@,
                merged(old(self)@, key@, referent(value)),
            ),
    {
        if can_merge(self, key, value) {
            Some(self.merge_fields(key, value))
        } else {
            None
        }
    }

    /// Splits a field if that can be carried out.
    pub fn try_split_fields(&mut self, fspec: &str, fsplit: &Mapping) -> (r: Option<PatchResult>)
        ensures
            (final(self)@, attempted(r)) == guarded(
                split_defined(old(self)@, fspec@, fsplit@),
                old(self)@,
                split(old(self)@, fspec@, fsplit@),
            ),
    {
        if can_split(self, fspec, fsplit) {
            Some(self.split_fields(fspec, fsplit))
        } else {
            None
        }
    }

    /// Collects fields into an array if that can be carried out.
    pub fn try_collect_fields_in_array(&mut self, fspec: &str, fmod: &Mapping) -> (r: Option<
        PatchResult,
    >)
        ensures
            (final(self)@, attempted(r)) == guarded(
                collect_defined(old(self)@, fspec@, fmod@),
                old(self)@,
                collected(old(self)@, fspec@, fmod@),
            ),
    {
        if can_collect(self, fspec, fmod) {
            Some(self.collect_fields_in_array(fspec, fmod))
        } else {
            None
        }
    }
}

} // verus!
