//! What holds of the words that a document uses, and of the names of sets of values.

use crate::error::ErrorView;
use crate::make::{access_named, derived_enum, enum_name, read_action_named, write_effect_named};
use crate::svd::{Access, EnumeratedValuesView, ModifiedWriteValues, ReadAction, Usage};
use vstd::prelude::*;

verus! {

/// The word for access rights.
pub open spec fn access_word(access: Access) -> Seq<char> {
    match access {
        Access::ReadOnly => "read-only"@,
        Access::ReadWrite => "read-write"@,
        Access::ReadWriteOnce => "read-writeOnce"@,
        Access::WriteOnce => "writeOnce"@,
        Access::WriteOnly => "write-only"@,
    }
}

/// The word for an effect of writes.
pub open spec fn write_effect_word(effect: ModifiedWriteValues) -> Seq<char> {
    match effect {
        ModifiedWriteValues::OneToClear => "oneToClear"@,
        ModifiedWriteValues::OneToSet => "oneToSet"@,
        ModifiedWriteValues::OneToToggle => "oneToToggle"@,
        ModifiedWriteValues::ZeroToClear => "zeroToClear"@,
        ModifiedWriteValues::ZeroToSet => "zeroToSet"@,
        ModifiedWriteValues::ZeroToToggle => "zeroToToggle"@,
        ModifiedWriteValues::Clear => "clear"@,
        ModifiedWriteValues::SetAll => "set"@,
        ModifiedWriteValues::Modify => "modify"@,
    }
}

/// The word for an effect of reads.
pub open spec fn read_action_word(action: ReadAction) -> Seq<char> {
    match action {
        ReadAction::Clear => "clear"@,
        ReadAction::SetAll => "set"@,
        ReadAction::Modify => "modify"@,
        ReadAction::ModifyExternal => "modifyExternal"@,
    }
}

/// Each kind of access rights has a word, which stands for it, and no other word does.
pub proof fn law_words_for_access(access: Access, word: Seq<char>)
    ensures
        access_named(word) == Some(access) <==> word == access_word(access),
{
    reveal_strlit("read-only");
    reveal_strlit("read-write");
    reveal_strlit("read-writeOnce");
    reveal_strlit("write-only");
    reveal_strlit("writeOnce");
    assert("read-only"@.len() == 9 && "writeOnce"@.len() == 9);
    assert("read-only"@[0] == 'r' && "writeOnce"@[0] == 'w');
    assert("read-write"@.len() == 10 && "write-only"@.len() == 10);
    assert("read-write"@[0] == 'r' && "write-only"@[0] == 'w');
    assert("read-writeOnce"@.len() == 14);
}

/// Each effect of writes has a word, which stands for it, and no other word does.
pub proof fn law_words_for_write_effects(effect: ModifiedWriteValues, word: Seq<char>)
    ensures
        write_effect_named(word) == Some(effect) <==> word == write_effect_word(effect),
{
    reveal_strlit("oneToClear");
    reveal_strlit("oneToSet");
    reveal_strlit("oneToToggle");
    reveal_strlit("zeroToClear");
    reveal_strlit("zeroToSet");
    reveal_strlit("zeroToToggle");
    reveal_strlit("clear");
    reveal_strlit("set");
    reveal_strlit("modify");
    assert("oneToClear"@.len() == 10 && "oneToSet"@.len() == 8 && "oneToToggle"@.len() == 11);
    assert("zeroToClear"@.len() == 11 && "zeroToSet"@.len() == 9 && "zeroToToggle"@.len() == 12);
    assert("oneToToggle"@[0] == 'o' && "zeroToClear"@[0] == 'z');
    assert("clear"@.len() == 5 && "set"@.len() == 3 && "modify"@.len() == 6);
}

/// Each effect of reads has a word, which stands for it, and no other word does.
pub proof fn law_words_for_read_actions(action: ReadAction, word: Seq<char>)
    ensures
        read_action_named(word) == Some(action) <==> word == read_action_word(action),
{
    reveal_strlit("clear");
    reveal_strlit("set");
    reveal_strlit("modify");
    reveal_strlit("modifyExternal");
    assert("clear"@.len() == 5 && "set"@.len() == 3 && "modify"@.len() == 6);
    assert("modifyExternal"@.len() == 14);
}

/// A set of values is called after a field: by the name alone for all accesses, with an `R` behind
/// it for reads and a `W` behind it for writes. A name that begins with a digit is refused.
pub proof fn law_names_of_sets(name: Seq<char>, usage: Usage)
    ensures
        enum_name(name, usage) is Err <==> name.len() > 0 && '0' <= name[0] <= '9',
        enum_name(name, usage) matches Err(e) ==> e == (ErrorView::EnumNameDigit { name }),
        enum_name(name, usage) matches Ok(full) ==> match usage {
            Usage::ReadWrite => full == name,
            Usage::Read => full == name.push('R'),
            Usage::Write => full == name.push('W'),
        },
{
    if enum_name(name, usage) is Ok {
        assert(name + seq!['R'] =~= name.push('R'));
        assert(name + seq!['W'] =~= name.push('W'));
        assert(name + Seq::<char>::empty() =~= name);
    }
}

/// A copy of a set says of which, and nothing else.
pub proof fn law_copy_says_of_which(name: Seq<char>)
    ensures
        derived_enum(name).derived_from == Some(name),
        derived_enum(name).name is None,
        derived_enum(name).usage is None,
        derived_enum(name).values.len() == 0,
{
}

/// Values are meant for the accesses that their set names, and for all of them if it names none.
/// Nothing is known of a copy.
pub proof fn law_usage_of_sets(e: EnumeratedValuesView)
    ensures
        e.derived_from is Some ==> e.effective_usage() is None,
        e.derived_from is None && e.usage is Some ==> e.effective_usage() == e.usage,
        e.derived_from is None && e.usage is None ==> e.effective_usage() == Some(Usage::ReadWrite),
{
}

} // verus!
