//! What holds of merging fields, and of the bits that fields cover.

use crate::edit::{deleted, has_field};
use crate::error::ErrorView;
use crate::fields::{
    bears, lemma_matched_indices, lemma_matched_names, matched_indices, matched_names, named,
    others, picks,
};
use crate::laws::edits::lemma_same_filter;
use crate::laws::names::lemma_bytes_of_both;
use crate::merge::{
    common_prefix, first_description, least_offset, lemma_no_names, merge_defined, merge_target,
    merged, names_for, prefix_is_text, shared_bytes, shared_pair, total_width,
};
use crate::register::{covered, covers};
use crate::svd::{BitRange, BitRangeType, FieldInfoView, FieldView, RegisterView};
use crate::yaml::Yaml;
use vstd::prelude::*;
use vstd::utf8::encode_utf8;

verus! {

/// Two lists together cover what either of them covers.
pub(crate) proof fn lemma_covered_by_both(a: Seq<FieldView>, b: Seq<FieldView>, bit: int)
    ensures
        covered(a + b, bit) <==> covered(a, bit) || covered(b, bit),
{
    if covered(a + b, bit) {
        let i = choose|i: int| 0 <= i < (a + b).len() && covers(#[trigger] (a + b)[i], bit);
        if i < a.len() {
            assert((a + b)[i] == a[i]);
        } else {
            assert((a + b)[i] == b[i - a.len()]);
        }
    }
    if covered(a, bit) {
        let i = choose|i: int| 0 <= i < a.len() && covers(#[trigger] a[i], bit);
        assert((a + b)[i] == a[i]);
    }
    if covered(b, bit) {
        let i = choose|i: int| 0 <= i < b.len() && covers(#[trigger] b[i], bit);
        assert((a + b)[a.len() + i] == b[i]);
    }
}

/// The fields that pass a filter and those that do not cover together what all of them cover.
pub(crate) proof fn lemma_covered_by_parts(
    fields: Seq<FieldView>,
    wanted: spec_fn(FieldView) -> bool,
    unwanted: spec_fn(FieldView) -> bool,
    bit: int,
)
    requires
        forall|f: FieldView| #[trigger] unwanted(f) == !wanted(f),
    ensures
        covered(fields, bit) <==> covered(fields.filter(wanted), bit) || covered(
            fields.filter(unwanted),
            bit,
        ),
{
    let a = fields.filter(wanted);
    let b = fields.filter(unwanted);
    if covered(fields, bit) {
        let i = choose|i: int| 0 <= i < fields.len() && covers(#[trigger] fields[i], bit);
        let f = fields[i];
        assert(unwanted(f) == !wanted(f));
        if wanted(f) {
            fields.lemma_filter_contains(wanted, i);
            let j = choose|j: int| 0 <= j < a.len() && a[j] == f;
            assert(covers(a[j], bit));
        } else {
            fields.lemma_filter_contains(unwanted, i);
            let j = choose|j: int| 0 <= j < b.len() && b[j] == f;
            assert(covers(b[j], bit));
        }
    }
    if covered(a, bit) {
        let i = choose|i: int| 0 <= i < a.len() && covers(#[trigger] a[i], bit);
        assert(a.contains(a[i]));
        fields.lemma_filter_contains_rev(wanted, a[i]);
    }
    if covered(b, bit) {
        let i = choose|i: int| 0 <= i < b.len() && covers(#[trigger] b[i], bit);
        assert(b.contains(b[i]));
        fields.lemma_filter_contains_rev(unwanted, b[i]);
    }
}

/// A deletion never covers a bit that was free, and frees only bits of fields that it deletes.
pub proof fn law_delete_frees_bits(reg: RegisterView, spec: Seq<char>, bit: int)
    ensures
        covered(reg.fields(), bit) <==> covered(deleted(reg, spec).fields(), bit) || covered(
            reg.fields().filter(|f: FieldView| picks(f, spec)),
            bit,
        ),
{
    let wanted = |f: FieldView| picks(f, spec);
    let kept = |f: FieldView| !picks(f, spec);
    lemma_covered_by_parts(reg.fields(), wanted, kept, bit);
    crate::laws::edits::law_delete_keeps_order(reg, spec);
}

/// Whether each field starts where the one before it ends.
pub open spec fn adjoining(fields: Seq<FieldView>) -> bool {
    forall|i: int, j: int|
        #![trigger fields[i], fields[j]]
        0 <= i && j == i + 1 && j < fields.len() ==> fields[j].info.bit_range.offset
            == fields[i].info.bit_range.offset + fields[i].info.bit_range.width
}

/// Fields that adjoin each other reach from the offset of the first over all their widths.
pub(crate) proof fn lemma_adjoining_extent(fields: Seq<FieldView>)
    requires
        fields.len() > 0,
        adjoining(fields),
    ensures
        least_offset(fields) == fields[0].info.bit_range.offset,
        fields.last().info.bit_range.offset + fields.last().info.bit_range.width
            == fields[0].info.bit_range.offset + total_width(fields),
        forall|bit: int|
            #![trigger covered(fields, bit)]
            covered(fields, bit) <==> fields[0].info.bit_range.offset <= bit
                < fields[0].info.bit_range.offset + total_width(fields),
    decreases fields.len(),
{
    let n = fields.len() as int;
    let shorter = fields.drop_last();
    assert(total_width(fields) == total_width(shorter) + fields.last().info.bit_range.width);
    if n == 1 {
        assert(total_width(shorter) == 0);
        assert(least_offset(shorter) == u32::MAX);
        assert forall|bit: int| #![trigger covered(fields, bit)]
            covered(fields, bit) <==> fields[0].info.bit_range.offset <= bit
                < fields[0].info.bit_range.offset + total_width(fields) by {
            if covers(fields[0], bit) {
                assert(covered(fields, bit));
            }
        }
    } else {
        assert forall|i: int, j: int|
            #![trigger shorter[i], shorter[j]]
            0 <= i && j == i + 1 && j < shorter.len() implies shorter[j].info.bit_range.offset
            == shorter[i].info.bit_range.offset + shorter[i].info.bit_range.width by {
            assert(shorter[i] == fields[i] && shorter[j] == fields[j]);
        }
        lemma_adjoining_extent(shorter);
        lemma_width_not_negative(shorter);
        assert(fields[n - 1].info.bit_range.offset == fields[n - 2].info.bit_range.offset
            + fields[n - 2].info.bit_range.width);
        assert(shorter.last() == fields[n - 2]);
        assert forall|bit: int| #![trigger covered(fields, bit)]
            covered(fields, bit) <==> fields[0].info.bit_range.offset <= bit
                < fields[0].info.bit_range.offset + total_width(fields) by {
            lemma_covered_by_both(shorter, seq![fields.last()], bit);
            assert(shorter + seq![fields.last()] =~= fields);
            assert(covered(seq![fields.last()], bit) == covers(fields.last(), bit)) by {
                assert(seq![fields.last()][0] == fields.last());
            }
        }
    }
}

/// A sum of widths is no negative number.
pub(crate) proof fn lemma_width_not_negative(fields: Seq<FieldView>)
    ensures
        total_width(fields) >= 0,
    decreases fields.len(),
{
    if fields.len() > 0 {
        lemma_width_not_negative(fields.drop_last());
    }
}

/// The least offset of fields is the offset of one of them, and none starts before it.
pub(crate) proof fn lemma_least_offset(fields: Seq<FieldView>)
    ensures
        forall|i: int|
            0 <= i < fields.len() ==> least_offset(fields) <= (
            #[trigger] fields[i]).info.bit_range.offset,
        fields.len() > 0 ==> exists|i: int|
            0 <= i < fields.len() && (#[trigger] fields[i]).info.bit_range.offset == least_offset(
                fields,
            ),
    decreases fields.len(),
{
    if fields.len() > 0 {
        let shorter = fields.drop_last();
        lemma_least_offset(shorter);
        assert forall|i: int| 0 <= i < fields.len() implies least_offset(fields) <= (
        #[trigger] fields[i]).info.bit_range.offset by {
            if i < shorter.len() {
                assert(shorter[i] == fields[i]);
            }
        }
        if fields.last().info.bit_range.offset == least_offset(fields) {
            assert(fields[fields.len() - 1].info.bit_range.offset == least_offset(fields));
        } else {
            assert(shorter.len() == 0 ==> least_offset(shorter) == u32::MAX);
            let i = choose|i: int|
                0 <= i < shorter.len() && (#[trigger] shorter[i]).info.bit_range.offset
                    == least_offset(shorter);
            assert(fields[i] == shorter[i]);
        }
    }
}

/// A merge that goes well leaves the other fields in order, with one more field at the end. That
/// field starts where the first of the merged fields starts, and is as wide as all of them
/// together; none of the names that were merged is left among the others.
pub proof fn law_merge_makes_one(reg: RegisterView, key: Seq<char>, value: Option<Yaml>)
    requires
        merge_defined(reg, key, value),
        merged(reg, key, value).1 is Ok,
    ensures
        merge_target(reg, key, value) is Ok,
        ({
            let (name, names) = merge_target(reg, key, value)->Ok_0;
            let parts = named(reg.fields(), names);
            let after = merged(reg, key, value).0.fields();
            let f = after.last();
            &&& after.len() > 0
            &&& after.drop_last() == others(reg.fields(), names)
            &&& f.info.name == name
            &&& f.dim is None
            &&& f.info.bit_range.width == total_width(parts)
            &&& forall|i: int|
                0 <= i < parts.len() ==> f.info.bit_range.offset <= (
                #[trigger] parts[i]).info.bit_range.offset
            &&& forall|i: int|
                0 <= i < after.len() - 1 ==> !names.contains((#[trigger] after[i]).info.name)
        }),
{
    let (name, names) = merge_target(reg, key, value)->Ok_0;
    let fields = reg.fields();
    let parts = named(fields, names);
    let rest = others(fields, names);
    let after = merged(reg, key, value).0.fields();
    let kept = |f: FieldView| !bears(f, names);
    if fields.len() == 0 {
        lemma_no_names(reg, key, value);
    }
    assert(after.drop_last() =~= rest);
    lemma_least_offset(parts);
    lemma_width_not_negative(parts);
    assert forall|i: int| 0 <= i < after.len() - 1 implies !names.contains(
        (#[trigger] after[i]).info.name,
    ) by {
        fields.lemma_filter_pred(kept, i);
        assert(after[i] == rest[i]);
    }
}

/// After a merge those bits are covered that the other fields cover, and those from the least
/// offset of the merged fields on over all their widths.
pub proof fn law_merge_bits(reg: RegisterView, key: Seq<char>, value: Option<Yaml>, bit: int)
    requires
        merge_defined(reg, key, value),
        merged(reg, key, value).1 is Ok,
    ensures
        ({
            let names = merge_target(reg, key, value)->Ok_0.1;
            let parts = named(reg.fields(), names);
            covered(merged(reg, key, value).0.fields(), bit) <==> covered(
                others(reg.fields(), names),
                bit,
            ) || least_offset(parts) <= bit < least_offset(parts) + total_width(parts)
        }),
{
    let names = merge_target(reg, key, value)->Ok_0.1;
    let parts = named(reg.fields(), names);
    let rest = others(reg.fields(), names);
    let after = merged(reg, key, value).0.fields();
    if reg.fields().len() == 0 {
        lemma_no_names(reg, key, value);
    }
    lemma_width_not_negative(parts);
    let f = after.last();
    assert(after =~= rest + seq![f]);
    lemma_covered_by_both(rest, seq![f], bit);
    assert(covered(seq![f], bit) == covers(f, bit)) by {
        assert(seq![f][0] == f);
    }
}

/// Whether fields cover without a gap as many bits as their widths add up to.
pub open spec fn seamless(fields: Seq<FieldView>) -> bool {
    forall|bit: int|
        #![trigger covered(fields, bit)]
        covered(fields, bit) <==> least_offset(fields) <= bit < least_offset(fields) + total_width(
            fields,
        )
}

/// A merge of fields without gaps and overlaps keeps the bits of the register that are covered.
pub proof fn law_merge_keeps_bits(
    reg: RegisterView,
    key: Seq<char>,
    value: Option<Yaml>,
    bit: int,
)
    requires
        merge_defined(reg, key, value),
        merged(reg, key, value).1 is Ok,
        seamless(named(reg.fields(), merge_target(reg, key, value)->Ok_0.1)),
    ensures
        covered(merged(reg, key, value).0.fields(), bit) <==> covered(reg.fields(), bit),
{
    let names = merge_target(reg, key, value)->Ok_0.1;
    let fields = reg.fields();
    let wanted = |f: FieldView| bears(f, names);
    let kept = |f: FieldView| !bears(f, names);
    law_merge_bits(reg, key, value, bit);
    lemma_covered_by_parts(fields, wanted, kept, bit);
    assert(covered(named(fields, names), bit) == covered(fields.filter(wanted), bit));
}

/// Fields of which each starts where the one before it ends have no gaps and no overlaps.
pub proof fn law_adjoining_is_seamless(fields: Seq<FieldView>)
    requires
        fields.len() > 0,
        adjoining(fields),
    ensures
        seamless(fields),
{
    lemma_adjoining_extent(fields);
}

/// The names to merge are the names of fields, so that a merge that goes well has found some.
pub proof fn law_merge_finds_fields(reg: RegisterView, key: Seq<char>, value: Option<Yaml>)
    requires
        merged(reg, key, value).1 is Ok,
    ensures
        named(reg.fields(), merge_target(reg, key, value)->Ok_0.1).len() > 0,
{
    let names = merge_target(reg, key, value)->Ok_0.1;
    let fields = reg.fields();
    let wanted = |f: FieldView| bears(f, names);
    lemma_names_are_found(reg, key, value);
    assert(has_field(fields, names[0]));
    let i = choose|i: int| 0 <= i < fields.len() && (#[trigger] fields[i]).info.name == names[0];
    assert(wanted(fields[i]));
    fields.lemma_filter_contains(wanted, i);
}

/// A merge that finds fields of some width goes well. One that finds no fields, or is not asked
/// for in the right way, changes nothing; one that finds only fields without a width is refused
/// after they are gone.
pub proof fn law_merge_answers(reg: RegisterView, key: Seq<char>, value: Option<Yaml>)
    requires
        merge_defined(reg, key, value),
    ensures
        match merge_target(reg, key, value) {
            Err(e) => merged(reg, key, value) == (reg, Err::<(), ErrorView>(e)),
            Ok((_, names)) => if names.len() == 0 {
                merged(reg, key, value) == (
                    reg,
                    Err::<(), ErrorView>(
                        ErrorView::NothingToMerge { register: reg.info.name, key },
                    ),
                )
            } else {
                let parts = named(reg.fields(), names);
                &&& merged(reg, key, value).1 is Ok <==> total_width(parts) > 0
                &&& total_width(parts) == 0 ==> merged(reg, key, value).0 == reg.with_fields(
                    others(reg.fields(), names),
                )
            },
        },
{
    match merge_target(reg, key, value) {
        Ok((name, names)) => {
            let parts = named(reg.fields(), names);
            lemma_width_not_negative(parts);
            if reg.fields().len() == 0 {
                lemma_no_names(reg, key, value);
            }
            if names.len() > 0 && total_width(parts) > 0 {
                lemma_plain_field_accepted(
                    name,
                    first_description(parts),
                    least_offset(parts),
                    total_width(parts) as u32,
                );
            }
        },
        Err(_) => {},
    }
}

/// The names to merge are names of fields.
pub(crate) proof fn lemma_names_are_found(reg: RegisterView, key: Seq<char>, value: Option<Yaml>)
    requires
        merge_target(reg, key, value) is Ok,
    ensures
        forall|k: int|
            0 <= k < merge_target(reg, key, value)->Ok_0.1.len() ==> has_field(
                reg.fields(),
                #[trigger] merge_target(reg, key, value)->Ok_0.1[k],
            ),
{
    match value {
        Some(Yaml::String(spec)) => {
            lemma_matched_names_are_found(reg.fields(), spec@);
        },
        Some(Yaml::Array(specs)) => {
            lemma_names_for_are_found(reg.fields(), specs@);
        },
        _ => {
            lemma_matched_names_are_found(reg.fields(), key);
        },
    }
}

proof fn lemma_matched_names_are_found(fields: Seq<FieldView>, spec: Seq<char>)
    ensures
        forall|k: int|
            0 <= k < matched_names(fields, spec).len() ==> has_field(
                fields,
                #[trigger] matched_names(fields, spec)[k],
            ),
{
    lemma_matched_indices(fields, spec);
    assert forall|k: int| 0 <= k < matched_names(fields, spec).len() implies has_field(
        fields,
        #[trigger] matched_names(fields, spec)[k],
    ) by {
        let i = matched_indices(fields, spec)[k];
        assert(fields[i].info.name == matched_names(fields, spec)[k]);
    }
}

proof fn lemma_names_for_are_found(fields: Seq<FieldView>, specs: Seq<Yaml>)
    requires
        names_for(fields, specs) is Ok,
    ensures
        forall|k: int|
            0 <= k < names_for(fields, specs)->Ok_0.len() ==> has_field(
                fields,
                #[trigger] names_for(fields, specs)->Ok_0[k],
            ),
    decreases specs.len(),
{
    if specs.len() > 0 {
        let before = names_for(fields, specs.drop_last())->Ok_0;
        let spec = specs.last().as_text()->Ok_0;
        lemma_names_for_are_found(fields, specs.drop_last());
        lemma_matched_names_are_found(fields, spec);
        let all = before + matched_names(fields, spec);
        assert(names_for(fields, specs)->Ok_0 == all);
        assert forall|k: int| 0 <= k < all.len() implies has_field(fields, #[trigger] all[k]) by {
            if k < before.len() {
                assert(all[k] == before[k]);
            } else {
                assert(all[k] == matched_names(fields, spec)[k - before.len()]);
            }
        }
    }
}

/// A field without values and constraints is accepted if it has a width.
pub(crate) proof fn lemma_plain_field_accepted(
    name: Seq<char>,
    description: Option<Seq<char>>,
    offset: u32,
    width: u32,
)
    requires
        width > 0,
    ensures
        crate::builder::built(crate::builder::plain_parts(description, offset, width), name) is Ok,
{
    assert(crate::builder::all_numbers(
        Seq::<crate::svd::EnumeratedValuesView>::empty(),
    ) =~= Seq::empty());
    assert(crate::builder::fits(width, Seq::empty(), None));
}

/// Whether each of several strings begins with the same bytes as the first.
pub open spec fn agree_on(names: Seq<Seq<char>>, n: int) -> bool {
    forall|i: int|
        0 <= i < names.len() ==> n <= encode_utf8(#[trigger] names[i]).len() && encode_utf8(
            names[i],
        ).take(n) == encode_utf8(names[0]).take(n)
}

/// The bytes that strings share are shared by all of them, and no more bytes are.
pub proof fn law_shared_bytes_are_most(names: Seq<Seq<char>>, n: int)
    requires
        names.len() > 0,
        0 <= n,
    ensures
        0 <= shared_bytes(names),
        agree_on(names, n) <==> n <= shared_bytes(names),
    decreases names.len(),
{
    let first = encode_utf8(names[0]);
    if names.len() == 1 {
    } else {
        let shorter = names.drop_last();
        let last = encode_utf8(names.last());
        law_shared_bytes_are_most(shorter, n);
        lemma_shared_pair(last, first, n);
        assert(shorter[0] == names[0]);
        if agree_on(names, n) {
            assert forall|i: int| 0 <= i < shorter.len() implies n <= encode_utf8(
                #[trigger] shorter[i],
            ).len() && encode_utf8(shorter[i]).take(n) == first.take(n) by {
                assert(shorter[i] == names[i]);
            }
            assert(agree_on(shorter, n));
            assert(names[names.len() - 1] == names.last());
            assert(n <= first.len()) by {
                assert(n <= encode_utf8(names[0]).len());
            }
        }
        if n <= shared_bytes(names) {
            assert(agree_on(shorter, n));
            assert forall|i: int| 0 <= i < names.len() implies n <= encode_utf8(
                #[trigger] names[i],
            ).len() && encode_utf8(names[i]).take(n) == first.take(n) by {
                if i < shorter.len() {
                    assert(shorter[i] == names[i]);
                }
            }
        }
    }
}

/// Two strings agree on as many bytes as they share.
pub(crate) proof fn lemma_shared_pair(a: Seq<u8>, b: Seq<u8>, n: int)
    requires
        0 <= n,
    ensures
        0 <= shared_pair(a, b) <= a.len(),
        shared_pair(a, b) <= b.len(),
        n <= shared_pair(a, b) <==> n <= a.len() && n <= b.len() && a.take(n) == b.take(n),
    decreases a.len(),
{
    if a.len() == 0 || b.len() == 0 || a[0] != b[0] {
        if n > 0 && n <= a.len() && n <= b.len() {
            assert(a.take(n)[0] == a[0] && b.take(n)[0] == b[0]);
        }
        if n == 0 {
            assert(a.take(0) =~= b.take(0));
        }
    } else {
        lemma_shared_pair(
            a.skip(1),
            b.skip(1),
            if n > 0 {
                n - 1
            } else {
                0
            },
        );
        if n > 0 && n <= a.len() && n <= b.len() {
            if a.take(n) == b.take(n) {
                assert(a.skip(1).take(n - 1) =~= a.take(n).skip(1));
                assert(b.skip(1).take(n - 1) =~= b.take(n).skip(1));
            }
            if a.skip(1).take(n - 1) == b.skip(1).take(n - 1) {
                assert(a.take(n) =~= seq![a[0]] + a.skip(1).take(n - 1));
                assert(b.take(n) =~= seq![b[0]] + b.skip(1).take(n - 1));
            }
        }
        if n == 0 {
            assert(a.take(0) =~= b.take(0));
        }
    }
}

/// The common start of strings is a start of each of them.
pub proof fn law_common_prefix_starts_each(names: Seq<Seq<char>>, i: int)
    requires
        0 <= i < names.len(),
        prefix_is_text(names),
    ensures
        common_prefix(names).is_prefix_of(names[i]),
        encode_utf8(common_prefix(names)).len() == shared_bytes(names),
{
    broadcast use vstd::utf8::encode_utf8_valid_utf8, vstd::utf8::encode_utf8_decode_utf8;

    let n = shared_bytes(names);
    law_shared_bytes_are_most(names, n);
    let first = encode_utf8(names[0]);
    let bytes = encode_utf8(names[i]);
    let head = first.subrange(0, n);
    assert(head =~= first.take(n));
    vstd::utf8::valid_utf8_split(first, n);
    vstd::utf8::decode_utf8_encode_utf8(head);
    assert(bytes.take(n) == head);
    assert(bytes.subrange(0, n) =~= head);
    lemma_boundary_after_text(bytes, n);
    vstd::utf8::valid_utf8_split(bytes, n);
    vstd::utf8::decode_utf8_split(bytes, n);
}

/// Bytes that begin with the bytes of a string can be cut after it.
pub(crate) proof fn lemma_boundary_after_text(bytes: Seq<u8>, n: int)
    requires
        0 <= n <= bytes.len(),
        vstd::utf8::valid_utf8(bytes),
        vstd::utf8::valid_utf8(bytes.subrange(0, n)),
    ensures
        vstd::utf8::is_char_boundary(bytes, n),
    decreases bytes.len(),
{
    if n > 0 {
        let head = bytes.subrange(0, n);
        let tail = vstd::utf8::pop_first_scalar(bytes);
        let k = vstd::utf8::length_of_first_scalar(bytes);
        assert(head[0] == bytes[0]);
        assert(vstd::utf8::pop_first_scalar(head) =~= tail.subrange(0, n - k));
        lemma_boundary_after_text(tail, n - k);
    }
}

/// Whether a merge takes a field: it is picked out by the specification, or by one of the list of
/// them; without these, by the key.
pub open spec fn is_part(f: FieldView, key: Seq<char>, value: Option<Yaml>) -> bool {
    match value {
        Some(Yaml::String(spec)) => picks(f, spec@),
        Some(Yaml::Array(specs)) => exists|i: int| #[trigger] picked_by(f, specs@, i),
        Some(_) => false,
        None => picks(f, key),
    }
}

/// Whether the item of a list at a position is a specification that picks out a field.
pub open spec fn picked_by(f: FieldView, specs: Seq<Yaml>, i: int) -> bool {
    0 <= i < specs.len() && (specs[i] matches Yaml::String(spec) && picks(f, spec@))
}

/// Whether a merge is asked for in the right way: by nothing but its key, by a specification or by
/// a list of specifications.
pub open spec fn is_merge_value(value: Option<Yaml>) -> bool {
    match value {
        Some(Yaml::String(_)) => true,
        Some(Yaml::Array(specs)) => forall|i: int|
            0 <= i < specs@.len() ==> (#[trigger] specs@[i]) is String,
        Some(_) => false,
        None => true,
    }
}

/// Widths add up: of no fields to nothing, of one field to its width, of two lists to those of the
/// one and of the other.
pub proof fn law_widths_add_up(a: Seq<FieldView>, b: Seq<FieldView>, f: FieldView)
    ensures
        total_width(Seq::<FieldView>::empty()) == 0,
        total_width(seq![f]) == f.info.bit_range.width,
        total_width(a + b) == total_width(a) + total_width(b),
    decreases b.len(),
{
    assert(seq![f].drop_last() =~= Seq::<FieldView>::empty());
    assert(total_width(Seq::<FieldView>::empty()) == 0);
    if b.len() == 0 {
        assert(a + b =~= a);
    } else {
        law_widths_add_up(a, b.drop_last(), f);
        assert((a + b).drop_last() =~= a + b.drop_last());
    }
}

proof fn lemma_names_for(fields: Seq<FieldView>, specs: Seq<Yaml>)
    ensures
        names_for(fields, specs) is Ok <==> forall|i: int|
            0 <= i < specs.len() ==> (#[trigger] specs[i]) is String,
        names_for(fields, specs) is Err ==> names_for(fields, specs) == Err::<
            Seq<Seq<char>>,
            ErrorView,
        >(ErrorView::NotString),
        names_for(fields, specs) matches Ok(names) ==> forall|j: int|
            0 <= j < fields.len() ==> bears(#[trigger] fields[j], names) == exists|i: int|
                #[trigger] picked_by(fields[j], specs, i),
    decreases specs.len(),
{
    if specs.len() > 0 {
        let shorter = specs.drop_last();
        let n = shorter.len() as int;
        lemma_names_for(fields, shorter);
        assert forall|i: int| 0 <= i < n implies #[trigger] shorter[i] == specs[i] by {}
        assert(specs[n] == specs.last());
        if names_for(fields, specs) is Ok {
            assert forall|i: int| 0 <= i < specs.len() implies (#[trigger] specs[i]) is String by {
                if i < n {
                    assert(shorter[i] is String);
                }
            }
            let before = names_for(fields, shorter)->Ok_0;
            let spec = specs.last().as_text()->Ok_0;
            let found = matched_names(fields, spec);
            let names = before + found;
            assert(names_for(fields, specs)->Ok_0 == names);
            lemma_matched_names(fields, spec);
            assert forall|j: int| 0 <= j < fields.len() implies bears(#[trigger] fields[j], names)
                == exists|i: int| #[trigger] picked_by(fields[j], specs, i) by {
                let f = fields[j];
                let name = f.info.name;
                if bears(f, names) {
                    let k = names.index_of(name);
                    if k < before.len() {
                        assert(before[k] == name);
                        assert(bears(f, before));
                        let i = choose|i: int| #[trigger] picked_by(f, shorter, i);
                        assert(picked_by(f, specs, i));
                    } else {
                        assert(found[k - before.len()] == name);
                        assert(bears(f, found));
                        assert(picked_by(f, specs, n));
                    }
                }
                if exists|i: int| #[trigger] picked_by(f, specs, i) {
                    let i = choose|i: int| #[trigger] picked_by(f, specs, i);
                    if i < n {
                        assert(picked_by(f, shorter, i));
                        assert(bears(f, before));
                        let k = before.index_of(name);
                        assert(names[k] == name);
                    } else {
                        assert(bears(f, found));
                        let k = found.index_of(name);
                        assert(names[before.len() + k] == name);
                    }
                }
            }
        } else if forall|i: int| 0 <= i < specs.len() ==> (#[trigger] specs[i]) is String {
            assert(specs[n] is String);
        }
    }
}

/// The fields that a merge takes are those that bear one of the names that it finds.
pub(crate) proof fn lemma_parts(reg: RegisterView, key: Seq<char>, value: Option<Yaml>)
    ensures
        merge_target(reg, key, value) is Ok <==> is_merge_value(value),
        merge_target(reg, key, value) matches Ok((name, names)) ==> {
            &&& named(reg.fields(), names) == reg.fields().filter(
                |f: FieldView| is_part(f, key, value),
            )
            &&& others(reg.fields(), names) == reg.fields().filter(
                |f: FieldView| !is_part(f, key, value),
            )
        },
{
    let fields = reg.fields();
    match value {
        Some(Yaml::String(spec)) => {
            lemma_matched_names(fields, spec@);
        },
        Some(Yaml::Array(specs)) => {
            lemma_names_for(fields, specs@);
        },
        Some(_) => {},
        None => {
            lemma_matched_names(fields, key);
        },
    }
    if let Ok((_, names)) = merge_target(reg, key, value) {
        lemma_same_filter(
            fields,
            |f: FieldView| bears(f, names),
            |f: FieldView| is_part(f, key, value),
        );
        lemma_same_filter(
            fields,
            |f: FieldView| !bears(f, names),
            |f: FieldView| !is_part(f, key, value),
        );
    }
}

/// A merge that goes well leaves the fields that it does not take, in order, and one field at the
/// end in place of those that it takes. That field starts at the least offset at which one of them
/// starts, and is as wide as all of them together. It is described as the first of them, unless
/// that description is empty, and has nothing else of any of them. Its name is the key; where the
/// key is all there is, its name is the longest start that the names of those fields have in
/// common.
pub proof fn law_merged_field(reg: RegisterView, key: Seq<char>, value: Option<Yaml>)
    requires
        merge_defined(reg, key, value),
        merged(reg, key, value).1 is Ok,
    ensures
        ({
            let parts = reg.fields().filter(|f: FieldView| is_part(f, key, value));
            let after = merged(reg, key, value).0.fields();
            let f = after.last();
            &&& parts.len() > 0
            &&& after.len() > 0
            &&& after.drop_last() == reg.fields().filter(|f: FieldView| !is_part(f, key, value))
            &&& f == FieldView {
                info: FieldInfoView {
                    name: f.info.name,
                    description: match parts[0].info.description {
                        Some(d) => if d.len() == 0 {
                            None
                        } else {
                            Some(d)
                        },
                        None => None,
                    },
                    bit_range: BitRange {
                        offset: f.info.bit_range.offset,
                        width: f.info.bit_range.width,
                        range_type: BitRangeType::OffsetWidth,
                    },
                    access: None,
                    modified_write_values: None,
                    write_constraint: None,
                    read_action: None,
                    enumerated_values: Seq::empty(),
                    derived_from: None,
                },
                dim: None,
            }
            &&& f.info.bit_range.width == total_width(parts)
            &&& exists|i: int|
                0 <= i < parts.len() && (#[trigger] parts[i]).info.bit_range.offset
                    == f.info.bit_range.offset
            &&& forall|i: int|
                0 <= i < parts.len() ==> f.info.bit_range.offset <= (
                #[trigger] parts[i]).info.bit_range.offset
            &&& value is Some ==> f.info.name == key
            &&& value is None ==> is_longest_start(f.info.name, parts)
        }),
{
    let (name, names) = merge_target(reg, key, value)->Ok_0;
    let fields = reg.fields();
    lemma_parts(reg, key, value);
    let parts = named(fields, names);
    let after = merged(reg, key, value).0.fields();
    law_merge_makes_one(reg, key, value);
    law_merge_finds_fields(reg, key, value);
    lemma_least_offset(parts);
    lemma_width_not_negative(parts);
    let f = after.last();
    assert(f.info.enumerated_values =~= Seq::empty());
    if value is None {
        lemma_longest_start(fields, key);
    }
}

/// Whether a string is the longest one with which the names of fields begin.
pub open spec fn is_longest_start(start: Seq<char>, fields: Seq<FieldView>) -> bool {
    &&& begins_all(start, fields)
    &&& forall|s: Seq<char>| #[trigger] begins_all(s, fields) ==> s.len() <= start.len()
}

/// Whether the names of all fields begin with a string.
pub open spec fn begins_all(start: Seq<char>, fields: Seq<FieldView>) -> bool {
    forall|i: int| 0 <= i < fields.len() ==> start.is_prefix_of((#[trigger] fields[i]).info.name)
}

proof fn lemma_longest_start(fields: Seq<FieldView>, spec: Seq<char>)
    requires
        matched_names(fields, spec).len() > 0,
        prefix_is_text(matched_names(fields, spec)),
    ensures
        is_longest_start(
            common_prefix(matched_names(fields, spec)),
            named(fields, matched_names(fields, spec)),
        ),
{
    let names = matched_names(fields, spec);
    let parts = named(fields, names);
    let wanted = |f: FieldView| bears(f, names);
    let start = common_prefix(names);
    assert forall|i: int| 0 <= i < parts.len() implies start.is_prefix_of(
        (#[trigger] parts[i]).info.name,
    ) by {
        fields.lemma_filter_pred(wanted, i);
        let k = names.index_of(parts[i].info.name);
        law_common_prefix_starts_each(names, k);
    }
    assert forall|s: Seq<char>| #[trigger] begins_all(s, parts) implies s.len() <= start.len() by {
        let bytes = encode_utf8(s);
        let n = bytes.len() as int;
        assert forall|k: int| 0 <= k < names.len() implies #[trigger] encode_utf8(names[k]).len()
            >= n && encode_utf8(names[k]).take(n) == bytes by {
            lemma_matched_names_are_found(fields, spec);
            assert(has_field(fields, names[k]));
            let j = choose|j: int|
                0 <= j < fields.len() && (#[trigger] fields[j]).info.name == names[k];
            assert(wanted(fields[j]));
            fields.lemma_filter_contains(wanted, j);
            let m = parts.index_of(fields[j]);
            assert(s.is_prefix_of(parts[m].info.name));
            let rest = names[k].skip(s.len() as int);
            assert(names[k] =~= s + rest);
            lemma_bytes_of_both(s, rest);
            assert(encode_utf8(names[k]).take(n) =~= bytes);
        }
        assert(agree_on(names, n)) by {
            assert(encode_utf8(names[0]).take(n) == bytes);
        }
        law_shared_bytes_are_most(names, n);
        law_common_prefix_starts_each(names, 0);
        if s.len() > start.len() {
            assert(encode_utf8(names[0]).take(n) == bytes);
            lemma_matched_names_are_found(fields, spec);
            assert(has_field(fields, names[0]));
            let j = choose|j: int|
                0 <= j < fields.len() && (#[trigger] fields[j]).info.name == names[0];
            assert(wanted(fields[j]));
            fields.lemma_filter_contains(wanted, j);
            let m = parts.index_of(fields[j]);
            assert(s.is_prefix_of(parts[m].info.name));
            let rest = s.skip(start.len() as int);
            assert(s =~= start + rest) by {
                assert(start =~= names[0].subrange(0, start.len() as int));
                assert(s =~= names[0].subrange(0, s.len() as int));
            }
            lemma_bytes_of_both(start, rest);
            vstd::utf8::encode_utf8_first_scalar(rest);
            assert(encode_utf8(rest).len() > 0);
        }
    }
}

/// A merge goes well exactly where it is asked for in the right way and takes fields that are not
/// all without a width. It is refused as invalid where it is asked for by something that is neither
/// a string nor a list, and as no string where an item of the list is none. It is refused with
/// nothing changed where there is nothing to merge. Fields without a width are taken away all the
/// same.
pub proof fn law_merge_goes_well(reg: RegisterView, key: Seq<char>, value: Option<Yaml>)
    requires
        merge_defined(reg, key, value),
    ensures
        ({
            let parts = reg.fields().filter(|f: FieldView| is_part(f, key, value));
            let (after, answer) = merged(reg, key, value);
            &&& answer is Ok <==> is_merge_value(value) && total_width(parts) > 0
            &&& !is_merge_value(value) ==> after == reg && answer == Err::<(), ErrorView>(
                match value {
                    Some(Yaml::Array(_)) => ErrorView::NotString,
                    _ => ErrorView::InvalidMerge { register: reg.info.name, key },
                },
            )
            &&& is_merge_value(value) && parts.len() == 0 ==> after == reg && answer == Err::<
                (),
                ErrorView,
            >(ErrorView::NothingToMerge { register: reg.info.name, key })
            &&& is_merge_value(value) && parts.len() > 0 && total_width(parts) == 0 ==> after
                == reg.with_fields(reg.fields().filter(|f: FieldView| !is_part(f, key, value)))
        }),
{
    let fields = reg.fields();
    lemma_parts(reg, key, value);
    law_merge_answers(reg, key, value);
    match merge_target(reg, key, value) {
        Ok((_, names)) => {
            let parts = named(fields, names);
            let wanted = |f: FieldView| bears(f, names);
            lemma_names_are_found(reg, key, value);
            if names.len() > 0 {
                assert(has_field(fields, names[0]));
                let j = choose|j: int|
                    0 <= j < fields.len() && (#[trigger] fields[j]).info.name == names[0];
                assert(wanted(fields[j]));
                fields.lemma_filter_contains(wanted, j);
            } else if parts.len() > 0 {
                fields.lemma_filter_pred(wanted, 0);
            }
        },
        Err(_) => {
            if let Some(Yaml::Array(specs)) = value {
                lemma_names_for(fields, specs@);
            }
        },
    }
}

} // verus!
