//! What holds of reading a document.

use crate::error::ErrorView;
use crate::yaml::{
    entries_under, lookup, lookup_entries, lookup_number, lookup_text, strings_of, strings_under,
    Yaml,
};
use vstd::prelude::*;

verus! {

/// Whether a key of a mapping is the given string.
pub open spec fn is_key(y: Yaml, key: Seq<char>) -> bool {
    y matches Yaml::String(s) && s@ == key
}

/// Whether the entry at a position is the first one under a key.
pub open spec fn is_first_under(entries: Seq<(Yaml, Yaml)>, key: Seq<char>, i: int) -> bool {
    &&& 0 <= i < entries.len()
    &&& is_key(entries[i].0, key)
    &&& forall|j: int| 0 <= j < i ==> !is_key((#[trigger] entries[j]).0, key)
}

/// What is found under a key is the value of the first entry whose key is that string; nothing is
/// found exactly where there is no such entry.
pub proof fn law_lookup_finds_first(entries: Seq<(Yaml, Yaml)>, key: Seq<char>, i: int)
    ensures
        is_first_under(entries, key, i) ==> lookup(entries, key) == Some(entries[i].1),
        lookup(entries, key) is None <==> forall|j: int|
            0 <= j < entries.len() ==> !is_key((#[trigger] entries[j]).0, key),
        lookup(entries, key) is Some ==> exists|j: int| #[trigger]
            is_first_under(entries, key, j) && lookup(entries, key) == Some(entries[j].1),
    decreases entries.len(),
{
    if entries.len() > 0 {
        let rest = entries.skip(1);
        law_lookup_finds_first(rest, key, i - 1);
        assert forall|j: int| 0 <= j < rest.len() implies #[trigger] rest[j] == entries[j + 1] by {}
        if is_key(entries[0].0, key) {
            assert(is_first_under(entries, key, 0));
        } else {
            if is_first_under(entries, key, i) {
                assert(i > 0);
                assert forall|j: int| 0 <= j < i - 1 implies !is_key((#[trigger] rest[j]).0, key) by {
                    assert(rest[j] == entries[j + 1]);
                }
                assert(is_first_under(rest, key, i - 1));
            }
            if lookup(entries, key) is None {
                assert forall|j: int| 0 <= j < entries.len() implies !is_key(
                    (#[trigger] entries[j]).0,
                    key,
                ) by {
                    if j > 0 {
                        assert(entries[j] == rest[j - 1]);
                    }
                }
            } else {
                let j = choose|j: int| #[trigger]
                    is_first_under(rest, key, j) && lookup(rest, key) == Some(rest[j].1);
                assert forall|m: int| 0 <= m < j + 1 implies !is_key(
                    (#[trigger] entries[m]).0,
                    key,
                ) by {
                    if m > 0 {
                        assert(entries[m] == rest[m - 1]);
                    }
                }
                assert(entries[j + 1] == rest[j]);
                assert(is_first_under(entries, key, j + 1));
            }
        }
    }
}

/// A string counts as a string, a number as a number and a mapping as a mapping, and nothing else
/// does.
pub proof fn law_kinds(y: Yaml)
    ensures
        y.as_text() == match y {
            Yaml::String(s) => Ok(s@),
            _ => Err(ErrorView::NotString),
        },
        y.as_number() == match y {
            Yaml::Integer(n) => Ok(n),
            _ => Err(ErrorView::NotInteger),
        },
        y.as_entries() == match y {
            Yaml::Hash(h) => Ok(h.entries@),
            _ => Err(ErrorView::NotHash),
        },
{
}

/// What is asked for under a key is there if the value is of the kind that is asked for, and is an
/// error if it is of another kind; without a value nothing is there, which is no error.
pub proof fn law_values_under_keys(entries: Seq<(Yaml, Yaml)>, key: Seq<char>)
    ensures
        lookup(entries, key) is None ==> lookup_text(entries, key) == Ok::<
            Option<Seq<char>>,
            ErrorView,
        >(None) && lookup_number(entries, key) == Ok::<Option<i64>, ErrorView>(None)
            && lookup_entries(entries, key) == Ok::<Option<Seq<(Yaml, Yaml)>>, ErrorView>(None)
            && entries_under(entries, key).len() == 0 && strings_under(entries, key).len() == 0,
        lookup(entries, key) matches Some(Yaml::String(s)) ==> lookup_text(entries, key) == Ok::<
            Option<Seq<char>>,
            ErrorView,
        >(Some(s@)) && strings_under(entries, key) == seq![s@],
        lookup(entries, key) matches Some(Yaml::Integer(n)) ==> lookup_number(entries, key) == Ok::<
            Option<i64>,
            ErrorView,
        >(Some(n)),
        lookup(entries, key) matches Some(Yaml::Hash(h)) ==> lookup_entries(entries, key) == Ok::<
            Option<Seq<(Yaml, Yaml)>>,
            ErrorView,
        >(Some(h.entries@)) && entries_under(entries, key) == h.entries@,
        lookup(entries, key) matches Some(Yaml::Array(a)) ==> strings_under(entries, key)
            == strings_of(a@),
        lookup(entries, key) matches Some(v) ==> {
            &&& v !is String ==> lookup_text(entries, key) == Err::<Option<Seq<char>>, ErrorView>(
                ErrorView::NotString,
            )
            &&& v !is Integer ==> lookup_number(entries, key) == Err::<Option<i64>, ErrorView>(
                ErrorView::NotInteger,
            )
            &&& v !is Hash ==> lookup_entries(entries, key) == Err::<
                Option<Seq<(Yaml, Yaml)>>,
                ErrorView,
            >(ErrorView::NotHash) && entries_under(entries, key).len() == 0
            &&& v !is String && v !is Array ==> strings_under(entries, key).len() == 0
        },
{
}

/// The strings of a list are those of its first part followed by those of the rest; of a single
/// item they are the item itself if it is a string, and none otherwise.
pub proof fn law_strings_of_list(first: Seq<Yaml>, rest: Seq<Yaml>, item: Yaml)
    ensures
        strings_of(first + rest) == strings_of(first) + strings_of(rest),
        strings_of(seq![item]) == match item {
            Yaml::String(s) => seq![s@],
            _ => Seq::empty(),
        },
        strings_of(Seq::<Yaml>::empty()).len() == 0,
    decreases rest.len(),
{
    let one = seq![item];
    assert(one.drop_last() =~= Seq::<Yaml>::empty());
    assert(strings_of(one.drop_last()) =~= Seq::<Seq<char>>::empty());
    assert(strings_of(one) =~= match item {
        Yaml::String(s) => seq![s@],
        _ => Seq::empty(),
    });
    if rest.len() == 0 {
        assert(first + rest =~= first);
        assert(strings_of(first) + strings_of(rest) =~= strings_of(first));
    } else {
        law_strings_of_list(first, rest.drop_last(), item);
        assert((first + rest).drop_last() =~= first + rest.drop_last());
        assert(strings_of(first + rest) =~= strings_of(first) + strings_of(rest));
    }
}

} // verus!
