//! What holds of splitting fields into their bits.

use crate::error::ErrorView;
use crate::fields::{bears, lemma_matched_names, matched_names, named, others, picks};
use crate::laws::edits::lemma_same_filter;
use crate::laws::merging::{
    adjoining, lemma_covered_by_both, lemma_covered_by_parts, lemma_width_not_negative,
};
use crate::merge::{least_offset, total_width};
use crate::register::{covered, covers};
use crate::split::{
    all_bits, bit_fields, field_bits, placeholder, split, split_defined, split_texts,
};
use crate::svd::{BitRange, BitRangeType, FieldInfoView, FieldView, RegisterView};
use crate::text::{decimal, replaced};
use crate::yaml::{lookup_text, Yaml};
use vstd::prelude::*;

verus! {

/// The fields that a specification picks out, in order.
pub open spec fn picked(fields: Seq<FieldView>, spec: Seq<char>) -> Seq<FieldView> {
    fields.filter(|f: FieldView| picks(f, spec))
}

/// The fields that a specification does not pick out, in order.
pub open spec fn not_picked(fields: Seq<FieldView>, spec: Seq<char>) -> Seq<FieldView> {
    fields.filter(|f: FieldView| !picks(f, spec))
}

/// The fields that bear a name which a specification picks out are those that it picks out.
pub(crate) proof fn lemma_picked(fields: Seq<FieldView>, spec: Seq<char>)
    ensures
        named(fields, matched_names(fields, spec)) == picked(fields, spec),
        others(fields, matched_names(fields, spec)) == not_picked(fields, spec),
{
    let names = matched_names(fields, spec);
    lemma_matched_names(fields, spec);
    lemma_same_filter(fields, |f: FieldView| bears(f, names), |f: FieldView| picks(f, spec));
    lemma_same_filter(fields, |f: FieldView| !bears(f, names), |f: FieldView| !picks(f, spec));
}

/// A split that goes well leaves the fields that the specification does not pick out, in order,
/// followed by as many fields of one bit as the others had bits. The bits of a field start where
/// it started, stand one after the other, after the bits of the fields before it, and bear their
/// number in the place that is held for it.
pub proof fn law_split_makes_bits(
    reg: RegisterView,
    spec: Seq<char>,
    entries: Seq<(Yaml, Yaml)>,
    k: int,
    i: int,
)
    requires
        split_defined(reg, spec, entries),
        split(reg, spec, entries).1 is Ok,
    ensures
        ({
            let found = picked(reg.fields(), spec);
            let rest = not_picked(reg.fields(), spec);
            let after = split(reg, spec, entries).0.fields();
            &&& found.len() > 0
            &&& after.len() == rest.len() + total_width(found)
            &&& after.take(rest.len() as int) == rest
            &&& 0 <= k < found.len() && 0 <= i < found[k].info.bit_range.width ==> {
                let f = found[k].info;
                let (name, _) = split_texts(f, entries)->Ok_0;
                let bit = after[rest.len() + total_width(found.take(k)) + i];
                &&& bit.info.bit_range.offset == f.bit_range.offset + i
                &&& bit.info.bit_range.width == 1
                &&& bit.info.name == replaced(name, placeholder(), decimal(i as nat))
            }
        }),
{
    let fields = reg.fields();
    lemma_picked(fields, spec);
    let found = picked(fields, spec);
    let rest = not_picked(fields, spec);
    let bits = all_bits(found, entries);
    let after = split(reg, spec, entries).0.fields();
    assert(after == rest + bits);
    assert(after.take(rest.len() as int) =~= rest);
    lemma_bits_in_order(found, entries, k, i);
    if 0 <= k < found.len() && 0 <= i < found[k].info.bit_range.width {
        lemma_width_not_negative(found.take(k));
        let place = total_width(found.take(k)) + i;
        assert(after[rest.len() + place] == bits[place]);
        lemma_picked_has_room(reg, spec, entries, k);
    }
}

/// A field to split has a position for each of its bits.
proof fn lemma_picked_has_room(
    reg: RegisterView,
    spec: Seq<char>,
    entries: Seq<(Yaml, Yaml)>,
    k: int,
)
    requires
        split_defined(reg, spec, entries),
        split(reg, spec, entries).1 is Ok,
        0 <= k < picked(reg.fields(), spec).len(),
    ensures
        ({
            let range = picked(reg.fields(), spec)[k].info.bit_range;
            range.offset + range.width <= u32::MAX + 1
        }),
{
    let fields = reg.fields();
    let wanted = |f: FieldView| picks(f, spec);
    lemma_picked(fields, spec);
    lemma_matched_names(fields, spec);
    let f = picked(fields, spec)[k];
    assert(picked(fields, spec).contains(f));
    fields.lemma_filter_contains_rev(wanted, f);
    let j = choose|j: int| 0 <= j < fields.len() && fields[j] == f;
    fields.lemma_filter_pred(wanted, k);
    assert(bears(fields[j], matched_names(fields, spec)));
}

/// The bits of a field come after those of the fields before it.
proof fn lemma_bits_in_order(found: Seq<FieldView>, entries: Seq<(Yaml, Yaml)>, k: int, i: int)
    ensures
        all_bits(found, entries).len() == total_width(found),
        0 <= k < found.len() && 0 <= i < found[k].info.bit_range.width ==> total_width(
            found.take(k),
        ) + i < total_width(found) && all_bits(found, entries)[total_width(found.take(k)) + i]
            == field_bits(found[k].info, entries)[i],
    decreases found.len(),
{
    if found.len() > 0 {
        let shorter = found.drop_last();
        let n = shorter.len() as int;
        lemma_bits_in_order(shorter, entries, k, i);
        assert(found.take(n) =~= shorter);
        if 0 <= k < n {
            assert(found.take(k) =~= shorter.take(k));
            lemma_width_not_negative(found.take(k));
        }
    }
}

/// A split keeps the bits of the register that are covered.
pub proof fn law_split_keeps_bits(
    reg: RegisterView,
    spec: Seq<char>,
    entries: Seq<(Yaml, Yaml)>,
    bit: int,
)
    requires
        split_defined(reg, spec, entries),
    ensures
        covered(split(reg, spec, entries).0.fields(), bit) <==> covered(reg.fields(), bit),
{
    if split(reg, spec, entries).1 is Ok {
        let fields = reg.fields();
        lemma_picked(fields, spec);
        let found = picked(fields, spec);
        let rest = not_picked(fields, spec);
        let bits = all_bits(found, entries);
        assert(split(reg, spec, entries).0.fields() == rest + bits);
        lemma_covered_by_both(rest, bits, bit);
        lemma_covered_by_parts(
            fields,
            |f: FieldView| picks(f, spec),
            |f: FieldView| !picks(f, spec),
            bit,
        );
        assert forall|k: int| 0 <= k < found.len() implies (#[trigger] found[k]).info.bit_range.offset
            + found[k].info.bit_range.width <= u32::MAX + 1 by {
            lemma_picked_has_room(reg, spec, entries, k);
        }
        lemma_bits_cover_fields(found, entries, bit);
    }
}

/// The bits of fields cover what the fields cover.
proof fn lemma_bits_cover_fields(found: Seq<FieldView>, entries: Seq<(Yaml, Yaml)>, bit: int)
    requires
        forall|k: int|
            0 <= k < found.len() ==> (#[trigger] found[k]).info.bit_range.offset
                + found[k].info.bit_range.width <= u32::MAX + 1,
    ensures
        covered(all_bits(found, entries), bit) <==> covered(found, bit),
    decreases found.len(),
{
    if found.len() > 0 {
        let shorter = found.drop_last();
        let f = found.last();
        assert forall|k: int| 0 <= k < shorter.len() implies (#[trigger] shorter[k]).info.bit_range.offset
            + shorter[k].info.bit_range.width <= u32::MAX + 1 by {
            assert(shorter[k] == found[k]);
        }
        lemma_bits_cover_fields(shorter, entries, bit);
        assert(found[found.len() - 1] == f);
        let bits = field_bits(f.info, entries);
        let offset = f.info.bit_range.offset as int;
        assert(covered(bits, bit) == covers(f, bit)) by {
            if covers(f, bit) {
                assert(covers(bits[bit - offset], bit));
            }
            if covered(bits, bit) {
                let i = choose|i: int| 0 <= i < bits.len() && covers(#[trigger] bits[i], bit);
                assert(bits[i].info.bit_range.offset == offset + i);
            }
        }
        lemma_covered_by_both(all_bits(shorter, entries), bits, bit);
        lemma_covered_by_both(shorter, seq![f], bit);
        assert(shorter + seq![f] =~= found);
        assert(covered(seq![f], bit) == covers(f, bit)) by {
            assert(seq![f][0] == f);
        }
    }
}

/// The bits of a field adjoin each other, start where it starts and are together as wide as it,
/// so that a merge of them gives back its range.
pub proof fn law_bits_merge_to_range(
    name: Seq<char>,
    description: Option<Seq<char>>,
    offset: u32,
    width: u32,
)
    requires
        width > 0,
        offset + width <= u32::MAX + 1,
    ensures
        adjoining(bit_fields(name, description, offset as int, width as int)),
        least_offset(bit_fields(name, description, offset as int, width as int)) == offset,
        total_width(bit_fields(name, description, offset as int, width as int)) == width,
{
    let bits = bit_fields(name, description, offset as int, width as int);
    crate::laws::merging::lemma_adjoining_extent(bits);
    assert(bits.last().info.bit_range.offset == offset + width - 1);
}

/// A split is refused where there is no field to split, and where the name or the description
/// to use is no string, and nowhere else. It then changes nothing.
pub proof fn law_split_refused(reg: RegisterView, spec: Seq<char>, entries: Seq<(Yaml, Yaml)>)
    ensures
        split(reg, spec, entries).1 is Err <==> picked(reg.fields(), spec).len() == 0
            || lookup_text(entries, "name"@) is Err || lookup_text(entries, "description"@) is Err,
        split(reg, spec, entries).1 is Err ==> split(reg, spec, entries).0 == reg,
{
    lemma_picked(reg.fields(), spec);
}

/// The fields that a split makes are all alike: each takes one bit of the field that it comes from,
/// has the name and the description that are asked for, or else those of that field with a
/// placeholder after the name, in which the number of the bit stands for the first placeholder, and
/// has nothing else of that field. A description that is empty is none.
pub proof fn law_bits_are_plain(
    reg: RegisterView,
    spec: Seq<char>,
    entries: Seq<(Yaml, Yaml)>,
    k: int,
    i: int,
)
    requires
        split_defined(reg, spec, entries),
        split(reg, spec, entries).1 is Ok,
        0 <= k < picked(reg.fields(), spec).len(),
        0 <= i < picked(reg.fields(), spec)[k].info.bit_range.width,
    ensures
        ({
            let found = picked(reg.fields(), spec);
            let rest = not_picked(reg.fields(), spec);
            let after = split(reg, spec, entries).0.fields();
            let f = found[k].info;
            let bit = after[rest.len() + total_width(found.take(k)) + i];
            let name = match lookup_text(entries, "name"@) {
                Ok(Some(n)) => n,
                _ => f.name + seq!['%', 's'],
            };
            let description = match lookup_text(entries, "description"@) {
                Ok(Some(d)) => Some(d),
                _ => f.description,
            };
            &&& bit == FieldView {
                info: FieldInfoView {
                    name: replaced(name, seq!['%', 's'], decimal(i as nat)),
                    description: bit.info.description,
                    bit_range: BitRange {
                        offset: bit.info.bit_range.offset,
                        width: 1,
                        range_type: BitRangeType::OffsetWidth,
                    },
                    access: None,
                    modified_write_values: None,
                    write_constraint: None,
                    read_action: None,
                    enumerated_values: Seq::empty(),
                    derived_from: None,
                },
                dim: None,
            }
            &&& bit.info.bit_range.offset == f.bit_range.offset + i
            &&& match description {
                None => bit.info.description is None,
                Some(d) => {
                    let text = replaced(d, seq!['%', 's'], decimal(i as nat));
                    bit.info.description == if text.len() == 0 {
                        None
                    } else {
                        Some(text)
                    }
                },
            }
        }),
{
    let fields = reg.fields();
    lemma_picked(fields, spec);
    let found = picked(fields, spec);
    let rest = not_picked(fields, spec);
    let bits = all_bits(found, entries);
    let after = split(reg, spec, entries).0.fields();
    assert(after == rest + bits);
    lemma_bits_in_order(found, entries, k, i);
    lemma_width_not_negative(found.take(k));
    let place = total_width(found.take(k)) + i;
    assert(after[rest.len() + place] == bits[place]);
    lemma_picked_has_room(reg, spec, entries, k);
    assert(placeholder() =~= seq!['%', 's']);
}

/// A split without a field to split says so; a name or a description that is no string is said to
/// be no string.
pub proof fn law_split_says_why(reg: RegisterView, spec: Seq<char>, entries: Seq<(Yaml, Yaml)>)
    ensures
        picked(reg.fields(), spec).len() == 0 ==> split(reg, spec, entries).1 == Err::<
            (),
            ErrorView,
        >(ErrorView::NothingToSplit { register: reg.info.name, spec }),
        split(reg, spec, entries).1 is Err && picked(reg.fields(), spec).len() > 0 ==> split(
            reg,
            spec,
            entries,
        ).1 == Err::<(), ErrorView>(ErrorView::NotString),
{
    lemma_picked(reg.fields(), spec);
}

} // verus!
