//! What holds of deleting, clearing, renaming, changing and adding fields.

use crate::edit::{
    added, changed, cleared, cleared_field, constrained, deleted, end_can_be_stripped, end_stripped,
    has_field, modified_fields, names_like, range_of, ranged, renamed, start_can_be_stripped,
    start_stripped,
};
use crate::error::ErrorView;
use crate::fields::{
    bears, lemma_matched_names, matched_indices, matched_names, picks, update_named,
};
use crate::matching::{name_matches, pattern_matches};
use crate::svd::{FieldView, RegisterView, WriteConstraint};
use crate::text::{begins_with, byte_len, can_slice, comma_pieces};
use crate::yaml::Yaml;
use vstd::prelude::*;
use vstd::utf8::encode_utf8;

verus! {

/// After a deletion no field is left that the specification picks out, and every other field is.
pub proof fn law_delete_is_exact(reg: RegisterView, spec: Seq<char>, f: FieldView)
    ensures
        deleted(reg, spec).fields().contains(f) <==> reg.fields().contains(f) && !picks(f, spec),
{
    let fields = reg.fields();
    let names = matched_names(fields, spec);
    let kept = |f: FieldView| !bears(f, names);
    let rest = fields.filter(kept);
    lemma_matched_names(fields, spec);
    assert(deleted(reg, spec).fields() =~= rest);
    if rest.contains(f) {
        fields.lemma_filter_contains_rev(kept, f);
        let i = rest.index_of(f);
        fields.lemma_filter_pred(kept, i);
        let j = fields.index_of(f);
        assert(bears(fields[j], names) == picks(fields[j], spec));
    }
    if fields.contains(f) && !picks(f, spec) {
        let i = fields.index_of(f);
        assert(bears(fields[i], names) == picks(fields[i], spec));
        fields.lemma_filter_contains(kept, i);
    }
}

/// The fields that are left in order are those that the specification does not pick out.
pub proof fn law_delete_keeps_order(reg: RegisterView, spec: Seq<char>)
    ensures
        deleted(reg, spec).fields() == reg.fields().filter(|f: FieldView| !picks(f, spec)),
{
    let fields = reg.fields();
    let names = matched_names(fields, spec);
    let kept = |f: FieldView| !bears(f, names);
    let unpicked = |f: FieldView| !picks(f, spec);
    lemma_matched_names(fields, spec);
    assert forall|i: int| 0 <= i < fields.len() implies kept(#[trigger] fields[i]) == unpicked(
        fields[i],
    ) by {
        assert(bears(fields[i], names) == picks(fields[i], spec));
    }
    lemma_same_filter(fields, kept, unpicked);
    assert(deleted(reg, spec).fields() =~= fields.filter(kept));
}

/// Two filters that agree on every field leave the same.
pub(crate) proof fn lemma_same_filter(
    fields: Seq<FieldView>,
    p: spec_fn(FieldView) -> bool,
    q: spec_fn(FieldView) -> bool,
)
    requires
        forall|i: int| 0 <= i < fields.len() ==> p(#[trigger] fields[i]) == q(fields[i]),
    ensures
        fields.filter(p) == fields.filter(q),
    decreases fields.len(),
{
    reveal(Seq::filter);
    if fields.len() > 0 {
        let shorter = fields.drop_last();
        assert forall|i: int| 0 <= i < shorter.len() implies p(#[trigger] shorter[i]) == q(
            shorter[i],
        ) by {
            assert(shorter[i] == fields[i]);
        }
        lemma_same_filter(shorter, p, q);
        assert(p(fields[fields.len() - 1]) == q(fields[fields.len() - 1]));
    }
}

/// A deletion that is repeated changes nothing more.
pub proof fn law_delete_twice(reg: RegisterView, spec: Seq<char>)
    ensures
        deleted(deleted(reg, spec), spec) == deleted(reg, spec),
{
    let unpicked = |f: FieldView| !picks(f, spec);
    let once = deleted(reg, spec);
    law_delete_keeps_order(reg, spec);
    law_delete_keeps_order(once, spec);
    assert forall|i: int| 0 <= i < once.fields().len() implies unpicked(
        #[trigger] once.fields()[i],
    ) by {
        reg.fields().lemma_filter_pred(unpicked, i);
    }
    lemma_filter_of_all(once.fields(), unpicked);
    lemma_with_same_fields(once, deleted(once, spec).fields());
}

/// A filter that everything passes changes nothing.
pub(crate) proof fn lemma_filter_of_all(fields: Seq<FieldView>, kept: spec_fn(FieldView) -> bool)
    requires
        forall|i: int| 0 <= i < fields.len() ==> kept(#[trigger] fields[i]),
    ensures
        fields.filter(kept) == fields,
    decreases fields.len(),
{
    reveal(Seq::filter);
    if fields.len() > 0 {
        let shorter = fields.drop_last();
        assert forall|i: int| 0 <= i < shorter.len() implies kept(#[trigger] shorter[i]) by {
            assert(shorter[i] == fields[i]);
        }
        lemma_filter_of_all(shorter, kept);
        assert(kept(fields[fields.len() - 1]));
        assert(shorter.push(fields.last()) =~= fields);
    }
}

/// A specification that begins with an underscore picks out nothing, so that it deletes, clears
/// and modifies nothing.
pub proof fn law_underscore_picks_nothing(
    reg: RegisterView,
    spec: Seq<char>,
    entries: Seq<(Yaml, Yaml)>,
)
    requires
        begins_with(spec, '_'),
    ensures
        matched_indices(reg.fields(), spec).len() == 0,
        deleted(reg, spec) == reg,
        cleared(reg, spec) == reg,
        modified_fields(reg, spec, entries) == (reg, Ok::<(), ErrorView>(())),
{
    let fields = reg.fields();
    let names = matched_names(fields, spec);
    crate::fields::lemma_matched_indices(fields, spec);
    if matched_indices(fields, spec).len() > 0 {
        assert(picks(fields[matched_indices(fields, spec)[0]], spec));
    }
    assert(names.len() == 0);
    let kept = |f: FieldView| !bears(f, names);
    lemma_filter_of_all(fields, kept);
    lemma_with_same_fields(reg, deleted(reg, spec).fields());
    assert(cleared(reg, spec).fields() =~= fields);
    lemma_with_same_fields(reg, cleared(reg, spec).fields());
    lemma_nothing_updated(fields, names, |f: FieldView| changed(f, entries));
}

/// A register that is given the fields that it has is the same.
pub(crate) proof fn lemma_with_same_fields(reg: RegisterView, fields: Seq<FieldView>)
    requires
        fields == reg.fields(),
    ensures
        reg.with_fields(fields) == reg,
{
}

/// Where no field bears one of the names, nothing is updated.
pub(crate) proof fn lemma_nothing_updated(
    fields: Seq<FieldView>,
    names: Seq<Seq<char>>,
    step: spec_fn(FieldView) -> (FieldView, Result<(), ErrorView>),
)
    requires
        forall|i: int| 0 <= i < fields.len() ==> !bears(#[trigger] fields[i], names),
    ensures
        update_named(fields, names, step) == (fields, Ok::<(), ErrorView>(())),
    decreases fields.len(),
{
    if fields.len() > 0 {
        let rest = fields.skip(1);
        assert forall|i: int| 0 <= i < rest.len() implies !bears(#[trigger] rest[i], names) by {
            assert(rest[i] == fields[i + 1]);
        }
        lemma_nothing_updated(rest, names, step);
        assert(seq![fields[0]] + rest =~= fields);
    }
}

/// A list of two specifications picks out what either of them picks out.
pub proof fn law_comma_is_either(name: Seq<char>, first: Seq<char>, second: Seq<char>)
    requires
        !begins_with(first, '_'),
        !begins_with(second, '_'),
    ensures
        name_matches(name, first + seq![','] + second) <==> name_matches(name, first)
            || name_matches(name, second),
{
    let both = first + seq![','] + second;
    let a = comma_pieces(first);
    let b = comma_pieces(second);
    lemma_comma_pieces_join(first, second);
    assert(comma_pieces(both) == a + b);
    assert(!begins_with(both, '_')) by {
        if first.len() > 0 {
            assert(both[0] == first[0]);
        } else {
            assert(both[0] == ',');
        }
    }
    if name_matches(name, both) {
        let k = choose|k: int|
            0 <= k < (a + b).len() && crate::matching::pattern_hits(
                #[trigger] (a + b)[k],
                name,
            );
        if k < a.len() {
            assert((a + b)[k] == a[k]);
        } else {
            assert((a + b)[k] == b[k - a.len()]);
        }
    }
    if name_matches(name, first) {
        let k = choose|k: int|
            0 <= k < a.len() && #[trigger] crate::matching::pattern_hits(a[k], name);
        assert((a + b)[k] == a[k]);
    }
    if name_matches(name, second) {
        let k = choose|k: int|
            0 <= k < b.len() && #[trigger] crate::matching::pattern_hits(b[k], name);
        assert((a + b)[a.len() + k] == b[k]);
    }
}

/// A clearing keeps every field where and what it is, but for the values and the write
/// constraints of the fields that are picked out, which are gone.
pub proof fn law_clear_is_exact(reg: RegisterView, spec: Seq<char>, i: int)
    requires
        0 <= i < reg.fields().len(),
    ensures
        cleared(reg, spec).fields().len() == reg.fields().len(),
        picks(reg.fields()[i], spec) ==> cleared(reg, spec).fields()[i] == cleared_field(
            reg.fields()[i],
        ),
        !picks(reg.fields()[i], spec) ==> cleared(reg, spec).fields()[i] == reg.fields()[i],
        cleared_field(reg.fields()[i]).info.enumerated_values.len() == 0,
        cleared_field(reg.fields()[i]).info.write_constraint is None,
        cleared_field(reg.fields()[i]).info.name == reg.fields()[i].info.name,
        cleared_field(reg.fields()[i]).info.bit_range == reg.fields()[i].info.bit_range,
{
    lemma_matched_names(reg.fields(), spec);
}

/// A clearing that is repeated changes nothing more.
pub proof fn law_clear_twice(reg: RegisterView, spec: Seq<char>)
    ensures
        cleared(cleared(reg, spec), spec) == cleared(reg, spec),
{
    let once = cleared(reg, spec);
    let twice = cleared(once, spec);
    assert(twice.fields() =~= once.fields()) by {
        assert forall|i: int| 0 <= i < once.fields().len() implies #[trigger] twice.fields()[i]
            == once.fields()[i] by {
            law_clear_is_exact(reg, spec, i);
            law_clear_is_exact(once, spec, i);
            assert(cleared_field(cleared_field(reg.fields()[i])) =~= cleared_field(
                reg.fields()[i],
            ));
        }
    }
    lemma_with_same_fields(once, twice.fields());
}

/// A field that has been added stands at the end under its name, with the rest as it was.
pub proof fn law_add_adds_one(reg: RegisterView, name: Seq<char>, entries: Seq<(Yaml, Yaml)>)
    requires
        added(reg, name, entries).1 is Ok,
    ensures
        !has_field(reg.fields(), name),
        has_field(added(reg, name, entries).0.fields(), name),
        added(reg, name, entries).0.fields().drop_last() == reg.fields(),
        added(reg, name, entries).0.fields().last().info.name == name,
        added(reg, name, entries).0.fields().last().dim is None,
        added(reg, name, entries).0.fields().last().info.bit_range.width > 0,
{
    let after = added(reg, name, entries).0.fields();
    assert(after.drop_last() =~= reg.fields());
    assert(after[after.len() - 1].info.name == name);
}

/// A name can be added only once: the second time nothing changes and the name is reported.
pub proof fn law_add_twice(
    reg: RegisterView,
    name: Seq<char>,
    entries: Seq<(Yaml, Yaml)>,
    others: Seq<(Yaml, Yaml)>,
)
    requires
        added(reg, name, entries).1 is Ok,
    ensures
        added(added(reg, name, entries).0, name, others) == (
            added(reg, name, entries).0,
            Err::<(), ErrorView>(
                ErrorView::FieldExists { register: reg.info.name, field: name },
            ),
        ),
{
    law_add_adds_one(reg, name, entries);
}

/// A field that has been added can be deleted again by a specification that picks out only its
/// name.
pub proof fn law_delete_undoes_add(
    reg: RegisterView,
    name: Seq<char>,
    entries: Seq<(Yaml, Yaml)>,
    spec: Seq<char>,
)
    requires
        added(reg, name, entries).1 is Ok,
        name_matches(name, spec),
        forall|i: int| 0 <= i < reg.fields().len() ==> !picks(#[trigger] reg.fields()[i], spec),
    ensures
        deleted(added(reg, name, entries).0, spec).fields() == reg.fields(),
{
    law_add_adds_one(reg, name, entries);
    let unpicked = |f: FieldView| !picks(f, spec);
    let after = added(reg, name, entries).0;
    law_delete_keeps_order(after, spec);
    lemma_filter_of_all(reg.fields(), unpicked);
    assert(!unpicked(after.fields().last()));
    assert(after.fields().filter(unpicked) == reg.fields()) by {
        reveal(Seq::filter);
        assert(after.fields().drop_last() == reg.fields());
    }
}

/// An addition, a stripping or a range that is refused changes nothing.
pub proof fn law_refused_changes_nothing(
    reg: RegisterView,
    name: Seq<char>,
    entries: Seq<(Yaml, Yaml)>,
    pname: Seq<char>,
    parts: Seq<Yaml>,
)
    ensures
        added(reg, name, entries).1 is Err ==> added(reg, name, entries).0 == reg,
        start_stripped(reg, name).1 is Err ==> start_stripped(reg, name).0 == reg,
        end_stripped(reg, name).1 is Err ==> end_stripped(reg, name).0 == reg,
        ranged(reg, pname, name, parts).1 is Err ==> ranged(reg, pname, name, parts).0 == reg,
{
}

/// A range that is given reaches every field that is picked out, and no other.
pub proof fn law_range_is_exact(
    reg: RegisterView,
    pname: Seq<char>,
    spec: Seq<char>,
    parts: Seq<Yaml>,
    i: int,
)
    requires
        ranged(reg, pname, spec, parts).1 is Ok,
        0 <= i < reg.fields().len(),
    ensures
        ranged(reg, pname, spec, parts).0.fields().len() == reg.fields().len(),
        picks(reg.fields()[i], spec) ==> ranged(reg, pname, spec, parts).0.fields()[i]
            == constrained(reg.fields()[i], Some(WriteConstraint::Range(range_of(parts)->Ok_0))),
        !picks(reg.fields()[i], spec) ==> ranged(reg, pname, spec, parts).0.fields()[i]
            == reg.fields()[i],
{
    lemma_matched_names(reg.fields(), spec);
}

/// A range that is given a second time changes nothing more.
pub proof fn law_range_twice(
    reg: RegisterView,
    pname: Seq<char>,
    spec: Seq<char>,
    parts: Seq<Yaml>,
)
    requires
        ranged(reg, pname, spec, parts).1 is Ok,
    ensures
        ranged(ranged(reg, pname, spec, parts).0, pname, spec, parts) == (
            ranged(reg, pname, spec, parts).0,
            Ok::<(), ErrorView>(()),
        ),
{
    let once = ranged(reg, pname, spec, parts).0;
    let before = reg.fields();
    let constraint = Some(WriteConstraint::Range(range_of(parts)->Ok_0));
    assert forall|i: int| 0 <= i < before.len() implies #[trigger] once.fields()[i] == if picks(
        before[i],
        spec,
    ) {
        constrained(before[i], constraint)
    } else {
        before[i]
    } by {
        law_range_is_exact(reg, pname, spec, parts, i);
    }
    lemma_same_names_same_matches(before, once.fields(), spec);
    lemma_matched_names(before, spec);
    lemma_matched_names(once.fields(), spec);
    let twice = ranged(once, pname, spec, parts).0;
    assert(twice.fields() =~= once.fields()) by {
        assert forall|i: int| 0 <= i < once.fields().len() implies #[trigger] twice.fields()[i]
            == once.fields()[i] by {
            law_range_is_exact(once, pname, spec, parts, i);
        }
    }
    lemma_with_same_fields(once, twice.fields());
}

/// What a specification picks out depends on the names alone.
pub(crate) proof fn lemma_same_names_same_matches(a: Seq<FieldView>, b: Seq<FieldView>, spec: Seq<char>)
    requires
        a.len() == b.len(),
        forall|i: int| 0 <= i < a.len() ==> (#[trigger] a[i]).info.name == b[i].info.name,
    ensures
        matched_indices(a, spec) == matched_indices(b, spec),
    decreases a.len(),
{
    if a.len() > 0 {
        assert forall|i: int| 0 <= i < a.len() - 1 implies (#[trigger] a.drop_last()[i]).info.name
            == b.drop_last()[i].info.name by {
            assert(a.drop_last()[i] == a[i]);
        }
        lemma_same_names_same_matches(a.drop_last(), b.drop_last(), spec);
        assert(a[a.len() - 1].info.name == b[a.len() - 1].info.name);
    }
}

/// Stripping the start of names keeps every field but for its name, and takes as many bytes as
/// were asked for from each name that matches.
pub proof fn law_strip_start_shortens(reg: RegisterView, substr: Seq<char>, i: int)
    requires
        start_can_be_stripped(reg, substr),
        start_stripped(reg, substr).1 is Ok,
        0 <= i < reg.fields().len(),
    ensures
        start_stripped(reg, substr).0.fields().len() == reg.fields().len(),
        ({
            let before = reg.fields()[i];
            let after = start_stripped(reg, substr).0.fields()[i];
            &&& after == renamed(before, after.info.name)
            &&& pattern_matches(crate::edit::start_pattern(substr), before.info.name)
                ==> encode_utf8(before.info.name) == encode_utf8(before.info.name).take(
                byte_len(substr),
            ) + encode_utf8(after.info.name)
            &&& !pattern_matches(crate::edit::start_pattern(substr), before.info.name) ==> after
                == before
        }),
{
    let before = reg.fields()[i];
    let after = start_stripped(reg, substr).0.fields()[i];
    assert(renamed(before, before.info.name) =~= before);
    lemma_names_like(reg.fields(), crate::edit::start_pattern(substr));
    if pattern_matches(crate::edit::start_pattern(substr), before.info.name) {
        let bytes = encode_utf8(before.info.name);
        lemma_slice_bytes(before.info.name, byte_len(substr), byte_len(before.info.name));
        assert(bytes =~= bytes.take(byte_len(substr)) + bytes.subrange(
            byte_len(substr),
            bytes.len() as int,
        ));
    }
}

/// Stripping the end of names keeps every field but for its name, and takes as many bytes as
/// were asked for from each name that matches.
pub proof fn law_strip_end_shortens(reg: RegisterView, substr: Seq<char>, i: int)
    requires
        end_can_be_stripped(reg, substr),
        end_stripped(reg, substr).1 is Ok,
        0 <= i < reg.fields().len(),
    ensures
        end_stripped(reg, substr).0.fields().len() == reg.fields().len(),
        ({
            let before = reg.fields()[i];
            let after = end_stripped(reg, substr).0.fields()[i];
            &&& after == renamed(before, after.info.name)
            &&& pattern_matches(crate::edit::end_pattern(substr), before.info.name) ==> encode_utf8(
                after.info.name,
            ) == encode_utf8(before.info.name).take(
                byte_len(before.info.name) - byte_len(substr),
            )
            &&& !pattern_matches(crate::edit::end_pattern(substr), before.info.name) ==> after
                == before
        }),
{
    let before = reg.fields()[i];
    assert(renamed(before, before.info.name) =~= before);
    lemma_names_like(reg.fields(), crate::edit::end_pattern(substr));
    if pattern_matches(crate::edit::end_pattern(substr), before.info.name) {
        let bytes = encode_utf8(before.info.name);
        lemma_slice_bytes(before.info.name, 0, byte_len(before.info.name) - byte_len(substr));
        assert(bytes.subrange(0, byte_len(before.info.name) - byte_len(substr)) =~= bytes.take(
            byte_len(before.info.name) - byte_len(substr),
        ));
    }
}

/// Exactly those fields bear one of the names that match a pattern whose own name matches it.
pub(crate) proof fn lemma_names_like(fields: Seq<FieldView>, pattern: Seq<char>)
    ensures
        forall|i: int|
            0 <= i < fields.len() ==> bears(#[trigger] fields[i], names_like(fields, pattern))
                == pattern_matches(pattern, fields[i].info.name),
{
    let names = names_like(fields, pattern);
    lemma_names_like_match(fields, pattern);
    assert forall|i: int| 0 <= i < fields.len() implies bears(#[trigger] fields[i], names)
        == pattern_matches(pattern, fields[i].info.name) by {
        if bears(fields[i], names) {
            let k = choose|k: int| 0 <= k < names.len() && names[k] == fields[i].info.name;
            assert(pattern_matches(pattern, names[k]));
        }
    }
}

proof fn lemma_names_like_match(fields: Seq<FieldView>, pattern: Seq<char>)
    ensures
        forall|k: int|
            0 <= k < names_like(fields, pattern).len() ==> pattern_matches(
                pattern,
                #[trigger] names_like(fields, pattern)[k],
            ),
        forall|i: int|
            0 <= i < fields.len() && pattern_matches(pattern, (#[trigger] fields[i]).info.name)
                ==> names_like(fields, pattern).contains(fields[i].info.name),
    decreases fields.len(),
{
    if fields.len() > 0 {
        let shorter = fields.drop_last();
        lemma_names_like_match(shorter, pattern);
        let before = names_like(shorter, pattern);
        let all = names_like(fields, pattern);
        assert forall|k: int| 0 <= k < all.len() implies pattern_matches(pattern, #[trigger] all[k]) by {
            if k < before.len() {
                assert(all[k] == before[k]);
            }
        }
        assert forall|i: int|
            0 <= i < fields.len() && pattern_matches(
                pattern,
                (#[trigger] fields[i]).info.name,
            ) implies all.contains(fields[i].info.name) by {
            if i < shorter.len() {
                assert(fields[i] == shorter[i]);
                let k = choose|k: int| 0 <= k < before.len() && before[k] == fields[i].info.name;
                assert(all[k] == fields[i].info.name);
            } else {
                assert(all[all.len() - 1] == fields[i].info.name);
            }
        }
    }
}

/// A part of a string has the bytes between the two positions.
pub(crate) proof fn lemma_slice_bytes(s: Seq<char>, from: int, to: int)
    requires
        can_slice(s, from, to),
    ensures
        encode_utf8(crate::text::byte_slice(s, from, to)) == encode_utf8(s).subrange(from, to),
{
    broadcast use vstd::utf8::encode_utf8_valid_utf8;

    let bytes = encode_utf8(s);
    let rest = bytes.subrange(from, bytes.len() as int);
    vstd::utf8::valid_utf8_split(bytes, from);
    if to == bytes.len() {
        vstd::utf8::is_char_boundary_start_end_of_seq(rest);
    } else {
        vstd::utf8::is_char_boundary_iff_not_is_continuation_byte(bytes, to);
        vstd::utf8::is_char_boundary_iff_not_is_continuation_byte(rest, to - from);
        assert(rest[to - from] == bytes[to]);
    }
    vstd::utf8::valid_utf8_split(rest, to - from);
    assert(rest.subrange(0, to - from) =~= bytes.subrange(from, to));
    vstd::utf8::decode_utf8_encode_utf8(bytes.subrange(from, to));
}

/// A modification that goes well has changed each field that is picked out, and no other.
pub proof fn law_modify_is_exact(
    reg: RegisterView,
    spec: Seq<char>,
    entries: Seq<(Yaml, Yaml)>,
    i: int,
)
    requires
        modified_fields(reg, spec, entries).1 is Ok,
        0 <= i < reg.fields().len(),
    ensures
        modified_fields(reg, spec, entries).0.fields().len() == reg.fields().len(),
        picks(reg.fields()[i], spec) ==> changed(reg.fields()[i], entries) == (
            modified_fields(reg, spec, entries).0.fields()[i],
            Ok::<(), ErrorView>(()),
        ),
        !picks(reg.fields()[i], spec) ==> modified_fields(reg, spec, entries).0.fields()[i]
            == reg.fields()[i],
{
    let names = matched_names(reg.fields(), spec);
    let step = |f: FieldView| changed(f, entries);
    lemma_matched_names(reg.fields(), spec);
    lemma_update_length(reg.fields(), names, step);
    lemma_update_went_well(reg.fields(), names, step, i);
    lemma_fields_after(reg, update_named(reg.fields(), names, step).0);
}

/// A register whose fields are replaced by as many has the new ones.
pub(crate) proof fn lemma_fields_after(reg: RegisterView, fields: Seq<FieldView>)
    requires
        fields.len() == reg.fields().len(),
    ensures
        reg.with_fields(fields).fields() == fields,
{
    if reg.info.fields is None {
        assert(fields =~= reg.fields());
    }
}

/// An update keeps the number of fields.
pub(crate) proof fn lemma_update_length(
    fields: Seq<FieldView>,
    names: Seq<Seq<char>>,
    step: spec_fn(FieldView) -> (FieldView, Result<(), ErrorView>),
)
    ensures
        update_named(fields, names, step).0.len() == fields.len(),
    decreases fields.len(),
{
    if fields.len() > 0 {
        lemma_update_length(fields.skip(1), names, step);
    }
}

/// Where no step fails, each field that bears one of the names has been updated, and no other.
pub(crate) proof fn lemma_update_went_well(
    fields: Seq<FieldView>,
    names: Seq<Seq<char>>,
    step: spec_fn(FieldView) -> (FieldView, Result<(), ErrorView>),
    i: int,
)
    requires
        update_named(fields, names, step).1 is Ok,
        0 <= i < fields.len(),
    ensures
        bears(fields[i], names) ==> step(fields[i]) == (
            update_named(fields, names, step).0[i],
            Ok::<(), ErrorView>(()),
        ),
        !bears(fields[i], names) ==> update_named(fields, names, step).0[i] == fields[i],
    decreases fields.len(),
{
    lemma_update_length(fields.skip(1), names, step);
    let rest = update_named(fields.skip(1), names, step).0;
    if i == 0 {
        let first = if bears(fields[0], names) {
            step(fields[0]).0
        } else {
            fields[0]
        };
        assert(update_named(fields, names, step).0 == seq![first] + rest);
        assert((seq![first] + rest)[0] == first);
        if bears(fields[0], names) {
            assert(step(fields[0]).1 == Ok::<(), ErrorView>(step(fields[0]).1->Ok_0));
        }
    } else {
        lemma_update_went_well(fields.skip(1), names, step, i - 1);
        assert(fields.skip(1)[i - 1] == fields[i]);
        assert(update_named(fields, names, step).0[i] == rest[i - 1]);
    }
}

/// The pieces of two strings with a comma in between are the pieces of both.
pub(crate) proof fn lemma_comma_pieces_join(a: Seq<char>, b: Seq<char>)
    ensures
        comma_pieces(a + seq![','] + b) == comma_pieces(a) + comma_pieces(b),
        comma_pieces(a).len() > 0,
    decreases a.len(),
{
    let both = a + seq![','] + b;
    if a.len() == 0 {
        assert(both.skip(1) =~= b);
        assert(both[0] == ',');
    } else {
        assert(both.skip(1) =~= a.skip(1) + seq![','] + b);
        assert(both[0] == a[0]);
        lemma_comma_pieces_join(a.skip(1), b);
        assert(comma_pieces(both) =~= comma_pieces(a) + comma_pieces(b));
    }
}

} // verus!
