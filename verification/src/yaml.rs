//! The document that a patch is written in.

use crate::error::{ErrorView, PatchError};
use crate::text::same;
use vstd::prelude::*;

verus! {

/// A value of a document.
#[derive(PartialEq, Eq, Debug)]
pub enum Yaml {
    Real(String),
    Integer(i64),
    String(String),
    Boolean(bool),
    Array(Vec<Yaml>),
    Hash(Mapping),
    Alias(usize),
    Null,
    BadValue,
}

/// A mapping, in the order in which it was written.
#[derive(PartialEq, Eq, Debug)]
pub struct Mapping {
    pub entries: Vec<(Yaml, Yaml)>,
}

/// The model of a [`Yaml`], with everything that it holds.
#[verifier::ext_equal]
pub enum YamlView {
    Real(Seq<char>),
    Integer(i64),
    String(Seq<char>),
    Boolean(bool),
    Array(Seq<YamlView>),
    Hash(Seq<(YamlView, YamlView)>),
    Alias(usize),
    Null,
    BadValue,
}

impl View for Mapping {
    type V = Seq<(Yaml, Yaml)>;

    open spec fn view(&self) -> Seq<(Yaml, Yaml)> {
        self.entries@
    }
}

impl View for Yaml {
    type V = YamlView;

    open spec fn view(&self) -> YamlView {
        self.model()
    }
}

impl Yaml {
    /// The model of this value.
    pub open spec fn model(self) -> YamlView
        decreases self,
    {
        match self {
            Yaml::Real(s) => YamlView::Real(s@),
            Yaml::Integer(i) => YamlView::Integer(i),
            Yaml::String(s) => YamlView::String(s@),
            Yaml::Boolean(b) => YamlView::Boolean(b),
            Yaml::Array(a) => YamlView::Array(
                Seq::new(
                    a@.len(),
                    |i: int|
                        if 0 <= i < a@.len() {
                            a@[i].model()
                        } else {
                            YamlView::Null
                        },
                ),
            ),
            Yaml::Hash(h) => YamlView::Hash(
                Seq::new(
                    h.entries@.len(),
                    |i: int|
                        if 0 <= i < h.entries@.len() {
                            (h.entries@[i].0.model(), h.entries@[i].1.model())
                        } else {
                            (YamlView::Null, YamlView::Null)
                        },
                ),
            ),
            Yaml::Alias(n) => YamlView::Alias(n),
            Yaml::Null => YamlView::Null,
            Yaml::BadValue => YamlView::BadValue,
        }
    }

    /// A copy of this value, with everything that it holds.
    pub(crate) fn duplicate(&self) -> (r: Yaml)
        ensures
            r@ == self@,
        decreases *self,
    {
        proof {
            reveal_with_fuel(Yaml::model, 2);
        }
        match self {
            Yaml::Real(s) => Yaml::Real(s.clone()),
            Yaml::Integer(i) => Yaml::Integer(*i),
            Yaml::String(s) => Yaml::String(s.clone()),
            Yaml::Boolean(b) => Yaml::Boolean(*b),
            Yaml::Array(a) => {
                let mut items: Vec<Yaml> = Vec::new();
                let n = a.len();
                for i in 0..n
                    invariant
                        n == a@.len(),
                        *self == Yaml::Array(*a),
                        items@.len() == i,
                        forall|j: int| 0 <= j < i ==> (#[trigger] items@[j])@ == a@[j]@,
                {
                    assert(decreases_to!(*self => self->Array_0));
                    assert(decreases_to!(*a => a@));
                    assert(decreases_to!(a@ => a@[i as int]));
                    items.push(a[i].duplicate());
                }
                let r = Yaml::Array(items);
                assert(r@->Array_0 =~= self@->Array_0);
                r
            },
            Yaml::Hash(h) => {
                let mut entries: Vec<(Yaml, Yaml)> = Vec::new();
                let n = h.entries.len();
                for i in 0..n
                    invariant
                        n == h.entries@.len(),
                        *self == Yaml::Hash(*h),
                        entries@.len() == i,
                        forall|j: int|
                            0 <= j < i ==> (#[trigger] entries@[j]).0@ == h.entries@[j].0@
                                && entries@[j].1@ == h.entries@[j].1@,
                {
                    let entry = &h.entries[i];
                    assert(decreases_to!(*self => self->Hash_0));
                    assert(decreases_to!(*h => h.entries));
                    assert(decreases_to!(h.entries => h.entries@));
                    assert(decreases_to!(h.entries@ => h.entries@[i as int]));
                    assert(decreases_to!(*entry => entry.0));
                    assert(decreases_to!(*entry => entry.1));
                    entries.push((entry.0.duplicate(), entry.1.duplicate()));
                }
                let r = Yaml::Hash(Mapping { entries });
                assert(r@->Hash_0 =~= self@->Hash_0);
                r
            },
            Yaml::Alias(n) => Yaml::Alias(*n),
            Yaml::Null => Yaml::Null,
            Yaml::BadValue => Yaml::BadValue,
        }
    }

    /// The characters of a string; an error for every other value.
    pub open spec fn as_text(self) -> Result<Seq<char>, ErrorView> {
        match self {
            Yaml::String(s) => Ok(s@),
            _ => Err(ErrorView::NotString),
        }
    }

    /// The number; an error for every other value.
    pub open spec fn as_number(self) -> Result<i64, ErrorView> {
        match self {
            Yaml::Integer(i) => Ok(i),
            _ => Err(ErrorView::NotInteger),
        }
    }

    /// The entries of a mapping; an error for every other value.
    pub open spec fn as_entries(self) -> Result<Seq<(Yaml, Yaml)>, ErrorView> {
        match self {
            Yaml::Hash(h) => Ok(h@),
            _ => Err(ErrorView::NotHash),
        }
    }

    /// The string that this value is.
    pub fn str(&self) -> (r: Result<&str, PatchError>)
        ensures
            match r {
                Ok(s) => self.as_text() == Ok::<Seq<char>, ErrorView>(s@),
                Err(e) => self.as_text() == Err::<Seq<char>, ErrorView>(e@),
            },
    {
        match self {
            Yaml::String(s) => Ok(s.as_str()),
            _ => Err(PatchError::NotString),
        }
    }

    /// The number that this value is.
    pub fn i64(&self) -> (r: Result<i64, PatchError>)
        ensures
            match r {
                Ok(i) => self.as_number() == Ok::<i64, ErrorView>(i),
                Err(e) => self.as_number() == Err::<i64, ErrorView>(e@),
            },
    {
        match self {
            Yaml::Integer(i) => Ok(*i),
            _ => Err(PatchError::NotInteger),
        }
    }

    /// The mapping that this value is.
    pub fn hash(&self) -> (r: Result<&Mapping, PatchError>)
        ensures
            match r {
                Ok(h) => self.as_entries() == Ok::<Seq<(Yaml, Yaml)>, ErrorView>(h@),
                Err(e) => self.as_entries() == Err::<Seq<(Yaml, Yaml)>, ErrorView>(e@),
            },
    {
        match self {
            Yaml::Hash(h) => Ok(h),
            _ => Err(PatchError::NotHash),
        }
    }
}

/// The value of the first entry whose key is the given string.
pub open spec fn lookup(entries: Seq<(Yaml, Yaml)>, key: Seq<char>) -> Option<Yaml>
    decreases entries.len(),
{
    if entries.len() == 0 {
        None
    } else if entries[0].0.as_text() == Ok::<Seq<char>, ErrorView>(key) {
        Some(entries[0].1)
    } else {
        lookup(entries.skip(1), key)
    }
}

/// The string under a key, if the key is there; an error where the value is no string.
pub open spec fn lookup_text(entries: Seq<(Yaml, Yaml)>, key: Seq<char>) -> Result<
    Option<Seq<char>>,
    ErrorView,
> {
    match lookup(entries, key) {
        None => Ok(None),
        Some(v) => match v.as_text() {
            Ok(s) => Ok(Some(s)),
            Err(e) => Err(e),
        },
    }
}

/// The number under a key, if the key is there; an error where the value is no number.
pub open spec fn lookup_number(entries: Seq<(Yaml, Yaml)>, key: Seq<char>) -> Result<
    Option<i64>,
    ErrorView,
> {
    match lookup(entries, key) {
        None => Ok(None),
        Some(v) => match v.as_number() {
            Ok(i) => Ok(Some(i)),
            Err(e) => Err(e),
        },
    }
}

/// The mapping under a key, if the key is there; an error where the value is no mapping.
pub open spec fn lookup_entries(entries: Seq<(Yaml, Yaml)>, key: Seq<char>) -> Result<
    Option<Seq<(Yaml, Yaml)>>,
    ErrorView,
> {
    match lookup(entries, key) {
        None => Ok(None),
        Some(v) => match v.as_entries() {
            Ok(h) => Ok(Some(h)),
            Err(e) => Err(e),
        },
    }
}

/// The entries of the mapping under a key; none where there is no such mapping.
pub open spec fn entries_under(entries: Seq<(Yaml, Yaml)>, key: Seq<char>) -> Seq<(Yaml, Yaml)> {
    match lookup(entries, key) {
        Some(Yaml::Hash(h)) => h@,
        _ => Seq::empty(),
    }
}

/// The strings of a list, in order.
pub open spec fn strings_of(values: Seq<Yaml>) -> Seq<Seq<char>>
    decreases values.len(),
{
    if values.len() == 0 {
        Seq::empty()
    } else {
        match values.last().as_text() {
            Ok(s) => strings_of(values.drop_last()).push(s),
            Err(_) => strings_of(values.drop_last()),
        }
    }
}

/// The string under a key, or the strings of the list under it; none where there is neither.
pub open spec fn strings_under(entries: Seq<(Yaml, Yaml)>, key: Seq<char>) -> Seq<Seq<char>> {
    match lookup(entries, key) {
        Some(Yaml::String(s)) => seq![s@],
        Some(Yaml::Array(a)) => strings_of(a@),
        _ => Seq::empty(),
    }
}

/// The characters of each of a sequence of string slices.
pub open spec fn slices(strings: Seq<&str>) -> Seq<Seq<char>> {
    strings.map_values(|s: &str| s@)
}

impl Mapping {
    /// Finds the value under a string.
    pub fn get(&self, key: &str) -> (r: Option<&Yaml>)
        ensures
            match r {
                Some(v) => lookup(self@, key@) == Some(*v),
                None => lookup(self@, key@) is None,
            },
    {
        let n = self.entries.len();
        assert(self@.skip(0) =~= self@);
        for i in 0..n
            invariant
                n == self@.len(),
                lookup(self@, key@) == lookup(self@.skip(i as int), key@),
        {
            assert(self@.skip(i as int).skip(1) =~= self@.skip(i + 1));
            match &self.entries[i].0 {
                Yaml::String(s) => {
                    if same(s.as_str(), key) {
                        return Some(&self.entries[i].1);
                    }
                },
                _ => {},
            }
        }
        None
    }

    /// Whether there is a value under a string.
    pub fn contains_key(&self, key: &str) -> (r: bool)
        ensures
            r == lookup(self@, key@) is Some,
    {
        self.get(key).is_some()
    }

    /// The string under a key.
    pub fn get_str(&self, key: &str) -> (r: Result<Option<&str>, PatchError>)
        ensures
            match r {
                Ok(Some(s)) => lookup_text(self@, key@) == Ok::<Option<Seq<char>>, ErrorView>(
                    Some(s@),
                ),
                Ok(None) => lookup_text(self@, key@) == Ok::<Option<Seq<char>>, ErrorView>(None),
                Err(e) => lookup_text(self@, key@) == Err::<Option<Seq<char>>, ErrorView>(e@),
            },
    {
        match self.get(key) {
            None => Ok(None),
            Some(v) => match v.str() {
                Ok(s) => Ok(Some(s)),
                Err(e) => Err(e),
            },
        }
    }

    /// The number under a key.
    pub fn get_i64(&self, key: &str) -> (r: Result<Option<i64>, PatchError>)
        ensures
            match r {
                Ok(v) => lookup_number(self@, key@) == Ok::<Option<i64>, ErrorView>(v),
                Err(e) => lookup_number(self@, key@) == Err::<Option<i64>, ErrorView>(e@),
            },
    {
        match self.get(key) {
            None => Ok(None),
            Some(v) => match v.i64() {
                Ok(i) => Ok(Some(i)),
                Err(e) => Err(e),
            },
        }
    }

    /// The mapping under a key.
    pub fn get_hash(&self, key: &str) -> (r: Result<Option<&Mapping>, PatchError>)
        ensures
            match r {
                Ok(Some(h)) => lookup_entries(self@, key@) == Ok::<
                    Option<Seq<(Yaml, Yaml)>>,
                    ErrorView,
                >(Some(h@)),
                Ok(None) => lookup_entries(self@, key@) == Ok::<
                    Option<Seq<(Yaml, Yaml)>>,
                    ErrorView,
                >(None),
                Err(e) => lookup_entries(self@, key@) == Err::<
                    Option<Seq<(Yaml, Yaml)>>,
                    ErrorView,
                >(e@),
            },
    {
        match self.get(key) {
            None => Ok(None),
            Some(v) => match v.hash() {
                Ok(h) => Ok(Some(h)),
                Err(e) => Err(e),
            },
        }
    }

    /// The string or the strings under a key.
    pub fn str_vec(&self, key: &str) -> (r: Vec<&str>)
        ensures
            slices(r@) == strings_under(self@, key@),
    {
        let mut r: Vec<&str> = Vec::new();
        match self.get(key) {
            Some(Yaml::String(s)) => {
                r.push(s.as_str());
                assert(slices(r@) =~= seq![s@]);
            },
            Some(Yaml::Array(a)) => {
                let n = a.len();
                assert(slices(r@) =~= strings_of(a@.take(0)));
                for i in 0..n
                    invariant
                        n == a@.len(),
                        slices(r@) == strings_of(a@.take(i as int)),
                {
                    let ghost before = r@;
                    assert(a@.take(i + 1).drop_last() =~= a@.take(i as int));
                    assert(a@.take(i + 1).last() == a@[i as int]);
                    match &a[i] {
                        Yaml::String(s) => {
                            r.push(s.as_str());
                            assert(slices(r@) =~= slices(before).push(s@));
                        },
                        _ => {},
                    }
                }
                assert(a@.take(n as int) =~= a@);
            },
            _ => {
                assert(slices(r@) =~= Seq::empty());
            },
        }
        r
    }
}

} // verus!
