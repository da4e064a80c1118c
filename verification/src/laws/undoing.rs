//! What can be read back from the fields that an operation has made.

use crate::builder::nonempty;
use crate::collect::{
    by_offset, collect_defined, collected, collected_infos, collects, first_place, from_zero,
    has_index, index_in,
};
use crate::edit::has_field;
use crate::error::ErrorView;
use crate::fields::{
    bears, lemma_matched_indices, lemma_matched_names, matched_indices, matched_names, named,
    others, picks,
};
use crate::laws::collecting::{law_collect_makes_array, law_order_keeps_all};
use crate::laws::edits::lemma_filter_of_all;
use crate::laws::merging::lemma_plain_field_accepted;
use crate::laws::names::{
    is_name, law_name_picks_itself, law_star_picks_around, lemma_bytes_of_both, lemma_cut_between,
    without_backslashes,
};
use crate::laws::splitting::{law_bits_merge_to_range, lemma_picked};
use crate::matching::{
    affixes, after_last, before_first, is_plain, is_plain_char, is_small, lies_around,
};
use crate::merge::{merge_defined, merged, names_for};
use crate::split::{all_bits, bit_fields, field_bits, placeholder, split, split_defined};
use crate::svd::{BitRange, FieldInfoView, FieldView, RegisterView};
use crate::text::{begins_with, byte_len, byte_slice, can_slice, decimal, digit, replaced};
use crate::yaml::{lookup_text, Yaml};
use vstd::prelude::*;
use vstd::utf8::encode_utf8;

verus! {

/// Whether a string has a place that takes an index.
pub open spec fn has_placeholder(s: Seq<char>) -> bool {
    exists|i: int| 0 <= i < s.len() - 1 && #[trigger] s[i] == '%' && s[i + 1] == 's'
}

proof fn lemma_no_placeholder_in_rest(s: Seq<char>)
    requires
        !has_placeholder(s),
        s.len() > 0,
    ensures
        !has_placeholder(s.skip(1)),
{
    let rest = s.skip(1);
    if has_placeholder(rest) {
        let i = choose|i: int|
            0 <= i < rest.len() - 1 && #[trigger] rest[i] == '%' && rest[i + 1] == 's';
        assert(s[i + 1] == '%' && s[i + 2] == 's');
    }
}

/// A string without placeholders stays as it is.
proof fn lemma_nothing_replaced(s: Seq<char>, by: Seq<char>)
    requires
        !has_placeholder(s),
    ensures
        replaced(s, placeholder(), by) == s,
    decreases s.len(),
{
    if s.len() >= 2 {
        assert(s.take(2) != placeholder()) by {
            if s.take(2) == placeholder() {
                assert(s.take(2)[0] == '%' && s.take(2)[1] == 's');
                assert(s[0] == '%' && s[0int + 1] == 's');
            }
        }
        lemma_no_placeholder_in_rest(s);
        lemma_nothing_replaced(s.skip(1), by);
        assert(seq![s[0]] + s.skip(1) =~= s);
    }
}

/// The one placeholder of a string gives way.
proof fn lemma_one_replaced(start: Seq<char>, end: Seq<char>, by: Seq<char>)
    requires
        !has_placeholder(start),
        !has_placeholder(end),
    ensures
        replaced(start + placeholder() + end, placeholder(), by) == start + by + end,
    decreases start.len(),
{
    let s = start + placeholder() + end;
    if start.len() == 0 {
        assert(s.take(2) =~= placeholder());
        assert(s.skip(2) =~= end);
        lemma_nothing_replaced(end, by);
        assert(by + end =~= start + by + end);
    } else {
        assert(s.take(2) != placeholder()) by {
            if s.take(2) == placeholder() {
                assert(s.take(2)[0] == '%' && s.take(2)[1] == 's');
                assert(s[1] == 's');
                assert(start[0] == '%' && start[0int + 1] == 's');
            }
        }
        lemma_no_placeholder_in_rest(start);
        assert(s.skip(1) =~= start.skip(1) + placeholder() + end);
        lemma_one_replaced(start.skip(1), end, by);
        assert(seq![s[0]] + (start.skip(1) + by + end) =~= start + by + end);
    }
}

/// A number in decimal notation consists of digits.
proof fn lemma_decimal_is_digits(n: nat)
    ensures
        decimal(n).len() > 0,
        forall|i: int| 0 <= i < decimal(n).len() ==> '0' <= #[trigger] decimal(n)[i] <= '9',
    decreases n,
{
    if n >= 10 {
        lemma_decimal_is_digits(n / 10);
        let before = decimal(n / 10);
        assert forall|i: int| 0 <= i < decimal(n).len() implies '0' <= #[trigger] decimal(n)[i]
            <= '9' by {
            if i < before.len() {
                assert(decimal(n)[i] == before[i]);
            } else {
                assert(decimal(n)[i] == digit(n % 10));
            }
        }
    } else {
        assert(decimal(n)[0] == digit(n));
    }
}

/// A plain name with a number behind it is a plain name.
proof fn lemma_numbered_name(name: Seq<char>, n: nat)
    requires
        is_name(name),
        name.len() + 10 <= 0x1000_0000,
        n <= u32::MAX,
    ensures
        is_name(name + decimal(n)),
        is_small(name + decimal(n)),
{
    assert(decimal(n).len() <= 10) by {
        reveal_with_fuel(decimal, 10);
    }
    let both = name + decimal(n);
    lemma_decimal_is_digits(n);
    assert forall|i: int| 0 <= i < both.len() implies is_plain_char(#[trigger] both[i])
        && both[i] != ',' by {
        if i < name.len() {
            assert(is_plain_char(name[i]));
            assert(name.contains(name[i]));
        } else {
            assert(both[i] == decimal(n)[i - name.len()]);
        }
    }
    if begins_with(both, '_') && name.len() == 0 {
        assert(both[0] == decimal(n)[0]);
    }
}

/// A plain name picks out the fields that bear it.
proof fn lemma_matched_by_name(fields: Seq<FieldView>, spec: Seq<char>, name: Seq<char>)
    requires
        is_name(spec),
        is_small(spec),
        without_backslashes(fields),
    ensures
        matched_names(fields, spec).contains(name) <==> name == spec && has_field(fields, name),
{
    let names = matched_names(fields, spec);
    let found = matched_indices(fields, spec);
    lemma_matched_indices(fields, spec);
    lemma_matched_names(fields, spec);
    if names.contains(name) {
        let k = choose|k: int| 0 <= k < names.len() && names[k] == name;
        assert(picks(fields[found[k]], spec));
        law_name_picks_itself(fields[found[k]].info.name, spec);
        assert(fields[found[k]].info.name == name);
    }
    if name == spec && has_field(fields, name) {
        let i = choose|i: int| 0 <= i < fields.len() && (#[trigger] fields[i]).info.name == name;
        law_name_picks_itself(fields[i].info.name, spec);
        assert(bears(fields[i], names));
    }
}

/// A list of plain names picks out the fields that bear one of them.
proof fn lemma_names_of_list(
    fields: Seq<FieldView>,
    specs: Seq<Yaml>,
    wanted: Seq<Seq<char>>,
    name: Seq<char>,
)
    requires
        specs.len() == wanted.len(),
        forall|i: int|
            0 <= i < specs.len() ==> (#[trigger] specs[i]).as_text() == Ok::<Seq<char>, ErrorView>(
                wanted[i],
            ),
        forall|i: int|
            0 <= i < wanted.len() ==> is_name(#[trigger] wanted[i]) && is_small(wanted[i]),
        without_backslashes(fields),
    ensures
        names_for(fields, specs) is Ok,
        names_for(fields, specs)->Ok_0.contains(name) <==> wanted.contains(name) && has_field(
            fields,
            name,
        ),
    decreases specs.len(),
{
    if specs.len() > 0 {
        let shorter = specs.drop_last();
        let fewer = wanted.drop_last();
        let last = wanted.last();
        let n = fewer.len() as int;
        assert forall|i: int| 0 <= i < shorter.len() implies (#[trigger] shorter[i]).as_text() == Ok::<
            Seq<char>,
            ErrorView,
        >(fewer[i]) by {
            assert(specs[i] == shorter[i]);
        }
        assert forall|i: int| 0 <= i < fewer.len() implies is_name(#[trigger] fewer[i]) && is_small(
            fewer[i],
        ) by {
            assert(wanted[i] == fewer[i]);
        }
        lemma_names_of_list(fields, shorter, fewer, name);
        assert(specs[n].as_text() == Ok::<Seq<char>, ErrorView>(wanted[n]));
        lemma_matched_by_name(fields, last, name);
        let a = names_for(fields, shorter)->Ok_0;
        let b = matched_names(fields, last);
        assert((a + b).contains(name) <==> a.contains(name) || b.contains(name)) by {
            if a.contains(name) {
                let i = choose|i: int| 0 <= i < a.len() && a[i] == name;
                assert((a + b)[i] == name);
            }
            if b.contains(name) {
                let i = choose|i: int| 0 <= i < b.len() && b[i] == name;
                assert((a + b)[a.len() + i] == name);
            }
        }
        assert(wanted.contains(name) <==> fewer.contains(name) || name == last) by {
            if wanted.contains(name) {
                let i = choose|i: int| 0 <= i < wanted.len() && wanted[i] == name;
                if i < n {
                    assert(fewer[i] == name);
                }
            }
            if fewer.contains(name) {
                let i = choose|i: int| 0 <= i < fewer.len() && fewer[i] == name;
                assert(wanted[i] == name);
            }
            assert(wanted[n] == last);
        }
    } else {
        assert(!wanted.contains(name));
    }
}

/// A filter that nothing passes leaves nothing.
proof fn lemma_filter_of_none(fields: Seq<FieldView>, wanted: spec_fn(FieldView) -> bool)
    requires
        forall|i: int| 0 <= i < fields.len() ==> !wanted(#[trigger] fields[i]),
    ensures
        fields.filter(wanted) == Seq::<FieldView>::empty(),
    decreases fields.len(),
{
    reveal(Seq::filter);
    if fields.len() > 0 {
        let shorter = fields.drop_last();
        assert forall|i: int| 0 <= i < shorter.len() implies !wanted(#[trigger] shorter[i]) by {
            assert(shorter[i] == fields[i]);
        }
        lemma_filter_of_none(shorter, wanted);
        assert(!wanted(fields[fields.len() - 1]));
    }
}

/// Where just one item passes a filter, the filter leaves that item, and its opposite the others.
proof fn lemma_filter_of_one(
    fields: Seq<FieldView>,
    wanted: spec_fn(FieldView) -> bool,
    unwanted: spec_fn(FieldView) -> bool,
    k: int,
)
    requires
        0 <= k < fields.len(),
        forall|i: int| 0 <= i < fields.len() ==> wanted(#[trigger] fields[i]) == (i == k),
        forall|i: int| 0 <= i < fields.len() ==> unwanted(#[trigger] fields[i]) == (i != k),
    ensures
        fields.filter(wanted) == seq![fields[k]],
        fields.filter(unwanted) == fields.remove(k),
{
    let front = fields.take(k);
    let one = seq![fields[k]];
    let back = fields.skip(k + 1);
    assert(fields =~= front + one + back);
    assert forall|i: int| 0 <= i < front.len() implies !wanted(#[trigger] front[i]) && unwanted(
        front[i],
    ) by {
        assert(front[i] == fields[i]);
    }
    assert forall|i: int| 0 <= i < back.len() implies !wanted(#[trigger] back[i]) && unwanted(
        back[i],
    ) by {
        assert(back[i] == fields[k + 1 + i]);
    }
    assert forall|i: int| 0 <= i < one.len() implies wanted(#[trigger] one[i]) && !unwanted(
        one[i],
    ) by {
        assert(one[i] == fields[k]);
    }
    Seq::filter_distributes_over_add(front + one, back, wanted);
    Seq::filter_distributes_over_add(front, one, wanted);
    Seq::filter_distributes_over_add(front + one, back, unwanted);
    Seq::filter_distributes_over_add(front, one, unwanted);
    lemma_filter_of_none(front, wanted);
    lemma_filter_of_none(back, wanted);
    lemma_filter_of_none(one, unwanted);
    lemma_filter_of_all(front, unwanted);
    lemma_filter_of_all(back, unwanted);
    lemma_filter_of_all(one, wanted);
    assert(fields.filter(wanted) =~= one);
    assert(fields.filter(unwanted) =~= front + back);
    assert(front + back =~= fields.remove(k));
}

/// What the bits of a field without placeholders are called, and how they are described.
proof fn lemma_bit_texts(f: FieldInfoView, i: int)
    requires
        !has_placeholder(f.name),
        f.description matches Some(d) ==> !has_placeholder(d),
        0 <= i < f.bit_range.width,
    ensures
        field_bits(f, Seq::empty()).len() == f.bit_range.width,
        field_bits(f, Seq::empty())[i].info.name == f.name + decimal(i as nat),
        field_bits(f, Seq::empty())[i].info.description == nonempty(f.description),
{
    let index = decimal(i as nat);
    let none = Seq::<char>::empty();
    lemma_one_replaced(f.name, none, index);
    assert(f.name + placeholder() + none =~= f.name + placeholder());
    assert(f.name + index + none =~= f.name + index);
    if let Some(d) = f.description {
        lemma_nothing_replaced(d, index);
    }
}

/// A merge of the bits of a field undoes its split. Where no name has a backslash in it, a plain
/// name, without a placeholder, names just one field, and that field is of some width and has no
/// placeholder in its description, and where no field bears this name with a number of one of its
/// bits behind it, the field can be split by its name. A merge under the name, with the list of
/// the names of the bits, goes well then. It leaves the other fields as they were, and at the end
/// of the list a single field of the same name, the same place and the same description; an empty
/// description is left out.
pub proof fn law_merge_undoes_split(reg: RegisterView, specs: Vec<Yaml>, k: int)
    requires
        without_backslashes(reg.fields()),
        0 <= k < reg.fields().len(),
        is_name(reg.fields()[k].info.name),
        reg.fields()[k].info.name.len() + 10 <= 0x1000_0000,
        !has_placeholder(reg.fields()[k].info.name),
        reg.fields()[k].info.description matches Some(d) ==> !has_placeholder(d),
        reg.fields()[k].info.bit_range.width > 0,
        reg.fields()[k].info.bit_range.offset + reg.fields()[k].info.bit_range.width <= u32::MAX
            + 1,
        forall|j: int|
            0 <= j < reg.fields().len() && j != k ==> (#[trigger] reg.fields()[j]).info.name
                != reg.fields()[k].info.name,
        forall|j: int, i: int|
            0 <= j < reg.fields().len() && 0 <= i < reg.fields()[k].info.bit_range.width ==> (
            #[trigger] reg.fields()[j]).info.name != reg.fields()[k].info.name
                + #[trigger] decimal(i as nat),
        specs@.len() == reg.fields()[k].info.bit_range.width,
        forall|i: int|
            0 <= i < specs@.len() ==> (#[trigger] specs@[i]).as_text() == Ok::<
                Seq<char>,
                ErrorView,
            >(reg.fields()[k].info.name + decimal(i as nat)),
    ensures
        ({
            let before = reg.fields()[k].info;
            let name = before.name;
            let (halfway, answer) = split(reg, name, Seq::empty());
            let (end, last_answer) = merged(halfway, name, Some(Yaml::Array(specs)));
            let after = end.fields();
            let f = after.last();
            &&& split_defined(reg, name, Seq::empty())
            &&& answer is Ok
            &&& merge_defined(halfway, name, Some(Yaml::Array(specs)))
            &&& last_answer is Ok
            &&& after.len() == reg.fields().len()
            &&& after.drop_last() == reg.fields().remove(k)
            &&& f.dim is None
            &&& f.info.name == name
            &&& f.info.bit_range == BitRange::from_offset_width(
                before.bit_range.offset,
                before.bit_range.width,
            )
            &&& f.info.description == nonempty(before.description)
        }),
{
    let fields = reg.fields();
    let before = fields[k].info;
    let name = before.name;
    let width = before.bit_range.width;
    let (halfway, _) = split(reg, name, Seq::empty());
    let picked_out = |f: FieldView| picks(f, name);
    let passed_over = |f: FieldView| !picks(f, name);
    assert forall|j: int| 0 <= j < fields.len() implies picked_out(#[trigger] fields[j]) == (j == k)
        && passed_over(fields[j]) == (j != k) by {
        law_name_picks_itself(fields[j].info.name, name);
    }
    lemma_filter_of_one(fields, picked_out, passed_over, k);
    lemma_picked(fields, name);
    lemma_matched_names(fields, name);
    let rest = fields.remove(k);
    let found = seq![fields[k]];
    let bits = field_bits(before, Seq::empty());
    assert(all_bits(found, Seq::empty()) =~= bits) by {
        reveal_with_fuel(all_bits, 2);
    }
    let mid = rest + bits;
    assert(halfway.fields() == mid);
    lemma_merge_of_bits(halfway, rest, before, specs);
}

/// The merge of the bits of a field that stand behind other fields.
proof fn lemma_merge_of_bits(
    halfway: RegisterView,
    rest: Seq<FieldView>,
    before: FieldInfoView,
    specs: Vec<Yaml>,
)
    requires
        halfway.info.fields is Some,
        halfway.fields() == rest + field_bits(before, Seq::empty()),
        without_backslashes(rest),
        is_name(before.name),
        before.name.len() + 10 <= 0x1000_0000,
        !has_placeholder(before.name),
        before.description matches Some(d) ==> !has_placeholder(d),
        before.bit_range.width > 0,
        before.bit_range.offset + before.bit_range.width <= u32::MAX + 1,
        forall|j: int, i: int|
            0 <= j < rest.len() && 0 <= i < before.bit_range.width ==> (
            #[trigger] rest[j]).info.name != before.name + #[trigger] decimal(i as nat),
        specs@.len() == before.bit_range.width,
        forall|i: int|
            0 <= i < specs@.len() ==> (#[trigger] specs@[i]).as_text() == Ok::<
                Seq<char>,
                ErrorView,
            >(before.name + decimal(i as nat)),
    ensures
        merge_defined(halfway, before.name, Some(Yaml::Array(specs))),
        ({
            let (end, answer) = merged(halfway, before.name, Some(Yaml::Array(specs)));
            &&& answer is Ok
            &&& end.fields().len() > 0
            &&& end.fields().drop_last() == rest
            &&& end.fields().last().dim is None
            &&& end.fields().last().info.name == before.name
            &&& end.fields().last().info.bit_range == BitRange::from_offset_width(
                before.bit_range.offset,
                before.bit_range.width,
            )
            &&& end.fields().last().info.description == nonempty(before.description)
        }),
{
    let mid = halfway.fields();
    let bits = field_bits(before, Seq::empty());
    let offset = before.bit_range.offset;
    let width = before.bit_range.width;
    let numbered = Seq::new(width as nat, |i: int| before.name + decimal(i as nat));
    assert forall|i: int| 0 <= i < numbered.len() implies is_name(#[trigger] numbered[i])
        && is_small(numbered[i]) && !numbered[i].contains('\\') by {
        lemma_numbered_name(before.name, i as nat);
        if numbered[i].contains('\\') {
            assert(is_plain_char(numbered[i][numbered[i].index_of('\\')]));
        }
    }
    assert(without_backslashes(mid)) by {
        assert forall|j: int| 0 <= j < mid.len() implies !(
        #[trigger] mid[j]).info.name.contains('\\') by {
            if j < rest.len() {
                assert(mid[j] == rest[j]);
            } else {
                lemma_bit_texts(before, j - rest.len());
                assert(mid[j] == bits[j - rest.len()]);
                assert(numbered[j - rest.len()] == mid[j].info.name);
            }
        }
    }
    assert forall|i: int| 0 <= i < specs@.len() implies (#[trigger] specs@[i]).as_text() == Ok::<
        Seq<char>,
        ErrorView,
    >(numbered[i]) by {}
    lemma_names_of_list(mid, specs@, numbered, numbered[0]);
    let names = names_for(mid, specs@)->Ok_0;
    let wanted = |f: FieldView| bears(f, names);
    let unwanted = |f: FieldView| !bears(f, names);
    assert forall|i: int| 0 <= i < bits.len() implies wanted(#[trigger] bits[i]) && !unwanted(
        bits[i],
    ) by {
        lemma_bit_texts(before, i);
        assert(mid[rest.len() + i] == bits[i]);
        assert(numbered[i] == bits[i].info.name);
        lemma_names_of_list(mid, specs@, numbered, bits[i].info.name);
    }
    assert forall|j: int| 0 <= j < rest.len() implies !wanted(#[trigger] rest[j]) && unwanted(
        rest[j],
    ) by {
        lemma_names_of_list(mid, specs@, numbered, rest[j].info.name);
        if numbered.contains(rest[j].info.name) {
            let i = choose|i: int| 0 <= i < numbered.len() && numbered[i] == rest[j].info.name;
            assert(numbered[i] == before.name + decimal(i as nat));
        }
    }
    Seq::filter_distributes_over_add(rest, bits, wanted);
    Seq::filter_distributes_over_add(rest, bits, unwanted);
    lemma_filter_of_none(rest, wanted);
    lemma_filter_of_all(bits, wanted);
    lemma_filter_of_all(rest, unwanted);
    lemma_filter_of_none(bits, unwanted);
    assert(named(mid, names) =~= bits);
    assert(others(mid, names) =~= rest);
    lemma_bit_texts(before, 0);
    assert(names.contains(bits[0].info.name)) by {
        assert(wanted(bits[0]));
    }
    law_bits_merge_to_range(before.name + placeholder(), before.description, offset, width);
    assert(bits =~= bit_fields(
        before.name + placeholder(),
        before.description,
        offset as int,
        width as int,
    ));
    lemma_plain_field_accepted(before.name, bits[0].info.description, offset, width);
    let end = merged(halfway, before.name, Some(Yaml::Array(specs))).0;
    assert(end.fields().drop_last() =~= rest);
}

/// What stands before and behind the one star of a specification.
proof fn lemma_affixes_of_star(start: Seq<char>, end: Seq<char>)
    requires
        is_plain(start),
        is_plain(end),
    ensures
        affixes(start + seq!['*'] + end) == (start, end),
{
    assert(!start.contains('*')) by {
        if start.contains('*') {
            assert(is_plain_char(start[start.index_of('*')]));
        }
    }
    assert(!end.contains('*')) by {
        if end.contains('*') {
            assert(is_plain_char(end[end.index_of('*')]));
        }
    }
    let spec = start + seq!['*'] + end;
    assert(spec[start.len() as int] == '*');
    lemma_before_star(start, end);
    lemma_after_star(start, end);
}

proof fn lemma_before_star(start: Seq<char>, end: Seq<char>)
    requires
        !start.contains('*'),
    ensures
        before_first(start + seq!['*'] + end, '*') == start,
    decreases start.len(),
{
    let spec = start + seq!['*'] + end;
    if start.len() > 0 {
        let rest = start.skip(1);
        assert(start.contains(start[0]));
        assert(!rest.contains('*')) by {
            if rest.contains('*') {
                let i = rest.index_of('*');
                assert(start[i + 1] == '*');
            }
        }
        assert(spec.skip(1) =~= rest + seq!['*'] + end);
        lemma_before_star(rest, end);
        assert(seq![start[0]] + rest =~= start);
    } else {
        assert(spec[0] == '*');
        assert(start =~= Seq::empty());
    }
}

proof fn lemma_after_star(start: Seq<char>, end: Seq<char>)
    requires
        !end.contains('*'),
    ensures
        after_last(start + seq!['*'] + end, '*') == end,
    decreases end.len(),
{
    let spec = start + seq!['*'] + end;
    assert(spec[start.len() as int] == '*');
    if end.len() > 0 {
        let rest = end.drop_last();
        assert(end.contains(end.last()));
        assert(!rest.contains('*')) by {
            if rest.contains('*') {
                let i = rest.index_of('*');
                assert(end[i] == '*');
            }
        }
        assert(spec.drop_last() =~= start + seq!['*'] + rest);
        lemma_after_star(start, rest);
        assert(rest.push(end.last()) =~= end);
    } else {
        assert(spec.last() == '*');
        assert(end =~= Seq::empty());
    }
}

/// What stands between two strings can be cut out.
proof fn lemma_cut_out(start: Seq<char>, middle: Seq<char>, end: Seq<char>)
    ensures
        ({
            let name = start + middle + end;
            &&& can_slice(name, byte_len(start), byte_len(name) - byte_len(end))
            &&& byte_slice(name, byte_len(start), byte_len(name) - byte_len(end)) == middle
        }),
{
    let name = start + middle + end;
    assert(name =~= start + (middle + end));
    lemma_cut_between(start, middle + end);
    lemma_cut_between(start + middle, end);
    lemma_cut_between(start, middle);
    let bytes = encode_utf8(name);
    let from = byte_len(start);
    let to = byte_len(start + middle);
    assert(bytes.subrange(from, to) =~= encode_utf8(start + middle).subrange(from, to)) by {
        lemma_bytes_of_both(start + middle, end);
    }
}

/// A field that is picked out by a specification with one star can be told from the others by
/// what its name has in place of the star.
proof fn lemma_index_around_star(name: Seq<char>, start: Seq<char>, end: Seq<char>)
    requires
        is_plain(start),
        is_plain(end),
        lies_around(start, end, name),
    ensures
        has_index(name, start + seq!['*'] + end),
        start + index_in(name, start + seq!['*'] + end) + end == name,
{
    lemma_affixes_of_star(start, end);
    let middle = name.subrange(start.len() as int, name.len() - end.len());
    assert(name =~= start + middle + end);
    lemma_cut_out(start, middle, end);
}

/// The fields that an array is made of are fields to collect.
proof fn lemma_collected_field(fields: Seq<FieldView>, names: Seq<Seq<char>>, i: int)
    requires
        0 <= i < by_offset(collected_infos(fields, names)).len(),
    ensures
        exists|j: int|
            0 <= j < fields.len() && collects(#[trigger] fields[j], names) && fields[j].info
                == by_offset(collected_infos(fields, names))[i],
{
    let infos = collected_infos(fields, names);
    let ordered = by_offset(infos);
    let wanted = |f: FieldView| collects(f, names);
    let chosen = fields.filter(wanted);
    law_order_keeps_all(infos);
    let info = ordered[i];
    ordered.to_multiset_ensures();
    infos.to_multiset_ensures();
    assert(ordered.contains(info));
    assert(ordered.to_multiset().count(info) > 0);
    assert(infos.to_multiset().count(info) > 0);
    let m = choose|m: int| 0 <= m < infos.len() && infos[m] == info;
    assert(chosen[m].info == info);
    assert(chosen.contains(chosen[m]));
    fields.lemma_filter_contains_rev(wanted, chosen[m]);
    fields.lemma_filter_pred(wanted, m);
    let j = choose|j: int| 0 <= j < fields.len() && fields[j] == chosen[m];
    assert(collects(fields[j], names) && fields[j].info == info);
}

/// The names without backslashes that a plain string with one star in it picks out all have
/// something in place of the star, so that fields with such names can always be collected by it.
pub proof fn law_star_gives_indexes(
    reg: RegisterView,
    start: Seq<char>,
    end: Seq<char>,
    entries: Seq<(Yaml, Yaml)>,
)
    requires
        is_name(start),
        is_plain(end),
        !end.contains(','),
        without_backslashes(reg.fields()),
    ensures
        collect_defined(reg, start + seq!['*'] + end, entries),
{
    lemma_indexes_around_star(reg.fields(), start, end);
}

proof fn lemma_indexes_around_star(fields: Seq<FieldView>, start: Seq<char>, end: Seq<char>)
    requires
        is_name(start),
        is_plain(end),
        !end.contains(','),
        without_backslashes(fields),
    ensures
        ({
            let spec = start + seq!['*'] + end;
            forall|j: int|
                0 <= j < fields.len() && collects(#[trigger] fields[j], matched_names(fields, spec))
                    ==> has_index(fields[j].info.name, spec) && start + index_in(
                    fields[j].info.name,
                    spec,
                ) + end == fields[j].info.name
        }),
{
    let spec = start + seq!['*'] + end;
    let names = matched_names(fields, spec);
    lemma_matched_names(fields, spec);
    assert forall|j: int| 0 <= j < fields.len() && collects(#[trigger] fields[j], names) implies has_index(
        fields[j].info.name,
        spec,
    ) && start + index_in(fields[j].info.name, spec) + end == fields[j].info.name by {
        assert(picks(fields[j], spec));
        law_star_picks_around(fields[j].info.name, start, end);
        lemma_index_around_star(fields[j].info.name, start, end);
    }
}

/// An array loses no name without backslashes. After a collection by a plain string with one star
/// and no placeholder in it, which does not number the elements and asks for no name, the name of
/// the array with one of its indexes in the place of the placeholder is the name of the field that
/// has become this element.
pub proof fn law_array_keeps_names(
    reg: RegisterView,
    start: Seq<char>,
    end: Seq<char>,
    entries: Seq<(Yaml, Yaml)>,
    i: int,
)
    requires
        reg.info.fields is Some,
        reg.fields().len() <= u32::MAX,
        is_name(start),
        is_plain(end),
        !end.contains(','),
        without_backslashes(reg.fields()),
        !has_placeholder(start),
        !has_placeholder(end),
        !from_zero(entries),
        lookup_text(entries, "name"@) == Ok::<Option<Seq<char>>, ErrorView>(None),
        collected(reg, start + seq!['*'] + end, entries).1 is Ok,
    ensures
        ({
            let spec = start + seq!['*'] + end;
            let names = matched_names(reg.fields(), spec);
            let infos = by_offset(collected_infos(reg.fields(), names));
            let array = collected(reg, spec, entries).0.fields()[first_place(reg.fields(), names)];
            array.dim matches Some(dim) && dim.dim_index matches Some(indexes) && indexes.len()
                == infos.len() && (0 <= i < infos.len() ==> replaced(
                array.info.name,
                placeholder(),
                indexes[i],
            ) == infos[i].name)
        }),
{
    let fields = reg.fields();
    let spec = start + seq!['*'] + end;
    let names = matched_names(fields, spec);
    let infos = by_offset(collected_infos(fields, names));
    law_collect_makes_array(reg, spec, entries, i);
    if 0 <= i < infos.len() {
        lemma_indexes_around_star(fields, start, end);
        lemma_collected_field(fields, names, i);
        let j = choose|j: int|
            0 <= j < fields.len() && collects(#[trigger] fields[j], names) && fields[j].info
                == infos[i];
        lemma_one_replaced(start, end, index_in(fields[j].info.name, spec));
        lemma_affixes_of_star(start, end);
    }
}

} // verus!
