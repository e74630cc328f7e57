//! The configuration tree: a dynamically typed, recursive value as the YAML
//! data model gives it (null, boolean, number, string, sequence, mapping).
//! Mappings are ordered lists of key/value pairs; well-formed trees have
//! unique keys in every mapping.

use vstd::prelude::*;

verus! {

/// A numeric scalar. Integers are held exactly; any other numeral is held
/// by its decimal rendering, so the tree carries no machine floats.
#[derive(Clone, Debug, PartialEq)]
pub enum NumberValue {
    Int(i64),
    UInt(u64),
    Decimal(String),
}

/// The mathematical value of a `NumberValue`.
pub enum SpecNumber {
    Int(i64),
    UInt(u64),
    Decimal(Seq<char>),
}

impl View for NumberValue {
    type V = SpecNumber;

    open spec fn view(&self) -> SpecNumber {
        match self {
            NumberValue::Int(i) => SpecNumber::Int(*i),
            NumberValue::UInt(u) => SpecNumber::UInt(*u),
            NumberValue::Decimal(s) => SpecNumber::Decimal(s@),
        }
    }
}

/// A configuration tree. Produced by parsing a file or by merging; merging
/// builds fresh trees and never mutates its inputs. Copies are made with
/// [`ConfigValue::deep_clone`].
#[derive(Debug, PartialEq)]
pub enum ConfigValue {
    Null,
    Bool(bool),
    Number(NumberValue),
    Str(String),
    Sequence(Vec<ConfigValue>),
    Mapping(Vec<(ConfigValue, ConfigValue)>),
}

/// The mathematical value of a configuration tree.
pub enum SpecConfig {
    Null,
    Bool(bool),
    Number(SpecNumber),
    Str(Seq<char>),
    Sequence(Seq<SpecConfig>),
    Mapping(Seq<(SpecConfig, SpecConfig)>),
}

pub open spec fn config_view(c: ConfigValue) -> SpecConfig
    decreases c,
{
    match c {
        ConfigValue::Null => SpecConfig::Null,
        ConfigValue::Bool(b) => SpecConfig::Bool(b),
        ConfigValue::Number(n) => SpecConfig::Number(n@),
        ConfigValue::Str(s) => SpecConfig::Str(s@),
        ConfigValue::Sequence(items) => SpecConfig::Sequence(items_view(items@)),
        ConfigValue::Mapping(entries) => SpecConfig::Mapping(entries_view(entries@)),
    }
}

pub open spec fn items_view(s: Seq<ConfigValue>) -> Seq<SpecConfig>
    decreases s,
{
    if s.len() == 0 {
        Seq::empty()
    } else {
        items_view(s.drop_last()).push(config_view(s.last()))
    }
}

pub open spec fn entries_view(s: Seq<(ConfigValue, ConfigValue)>) -> Seq<(SpecConfig, SpecConfig)>
    decreases s,
{
    if s.len() == 0 {
        Seq::empty()
    } else {
        entries_view(s.drop_last()).push((config_view(s.last().0), config_view(s.last().1)))
    }
}

impl View for ConfigValue {
    type V = SpecConfig;

    open spec fn view(&self) -> SpecConfig {
        config_view(*self)
    }
}

/// `items_view` maps the sequence pointwise.
pub proof fn lemma_items_view(s: Seq<ConfigValue>)
    ensures
        items_view(s).len() == s.len(),
        forall|i: int| 0 <= i < s.len() ==> items_view(s)[i] == config_view(s[i]),
    decreases s.len(),
{
    if s.len() > 0 {
        lemma_items_view(s.drop_last());
    }
}

/// `entries_view` maps the sequence pointwise.
pub proof fn lemma_entries_view(s: Seq<(ConfigValue, ConfigValue)>)
    ensures
        entries_view(s).len() == s.len(),
        forall|i: int| 0 <= i < s.len() ==> entries_view(s)[i]
            == (config_view(s[i].0), config_view(s[i].1)),
    decreases s.len(),
{
    if s.len() > 0 {
        lemma_entries_view(s.drop_last());
    }
}

/// No mapping anywhere in the tree repeats a key.
pub open spec fn spec_unique_keys(entries: Seq<(SpecConfig, SpecConfig)>) -> bool {
    forall|i: int, j: int| 0 <= i < j < entries.len() ==> #[trigger] entries[i].0 != #[trigger] entries[j].0
}

pub open spec fn spec_wf(v: SpecConfig) -> bool
    decreases v,
{
    match v {
        SpecConfig::Sequence(items) => forall|i: int| 0 <= i < items.len() ==> spec_wf(#[trigger] items[i]),
        SpecConfig::Mapping(entries) => spec_unique_keys(entries) && forall|i: int|
            0 <= i < entries.len() ==> spec_wf(#[trigger] entries[i].0) && spec_wf(entries[i].1),
        _ => true,
    }
}

/// A view's variant follows the tree's variant; a mapping's view holds the
/// view of its entries and a string's view the string's characters.
pub proof fn lemma_config_view_variants(c: ConfigValue)
    ensures
        config_view(c) is Mapping <==> c is Mapping,
        c is Mapping ==> config_view(c)->Mapping_0 == entries_view(c->Mapping_0@),
        config_view(c) is Str <==> c is Str,
        c is Str ==> config_view(c)->Str_0 == c->Str_0@,
{
    match c {
        ConfigValue::Null => {},
        ConfigValue::Bool(_) => {},
        ConfigValue::Number(_) => {},
        ConfigValue::Str(_) => {},
        ConfigValue::Sequence(_) => {},
        ConfigValue::Mapping(_) => {},
    }
}

/// Whether some entry of a mapping carries this key.
pub open spec fn spec_has_key(entries: Seq<(SpecConfig, SpecConfig)>, key: SpecConfig) -> bool {
    exists|i: int| 0 <= i < entries.len() && (#[trigger] entries[i]).0 == key
}

/// The position of the first entry carrying this key.
pub open spec fn spec_key_index(entries: Seq<(SpecConfig, SpecConfig)>, key: SpecConfig) -> int
    decreases entries.len(),
{
    if entries.len() == 0 {
        0
    } else if entries[0].0 == key {
        0
    } else {
        1 + spec_key_index(entries.drop_first(), key)
    }
}

/// The value of the first entry carrying this key.
pub open spec fn spec_value_of(entries: Seq<(SpecConfig, SpecConfig)>, key: SpecConfig) -> SpecConfig {
    entries[spec_key_index(entries, key)].1
}

/// When the key occurs, `spec_key_index` names its first occurrence.
pub proof fn lemma_key_index(entries: Seq<(SpecConfig, SpecConfig)>, key: SpecConfig)
    requires
        spec_has_key(entries, key),
    ensures
        0 <= spec_key_index(entries, key) < entries.len(),
        entries[spec_key_index(entries, key)].0 == key,
        forall|j: int| 0 <= j < spec_key_index(entries, key) ==> (#[trigger] entries[j]).0 != key,
    decreases entries.len(),
{
    if entries.len() > 0 && entries[0].0 != key {
        let tail = entries.drop_first();
        assert(spec_has_key(tail, key)) by {
            let i = choose|i: int| 0 <= i < entries.len() && (#[trigger] entries[i]).0 == key;
            assert(tail[i - 1] == entries[i]);
        }
        lemma_key_index(tail, key);
        assert(forall|j: int| 1 <= j < entries.len() ==> (#[trigger] entries[j]) == tail[j - 1]);
    }
}

/// A match at `i` with no earlier match pins `spec_key_index` to `i`.
pub proof fn lemma_key_index_first(entries: Seq<(SpecConfig, SpecConfig)>, key: SpecConfig, i: int)
    requires
        0 <= i < entries.len(),
        entries[i].0 == key,
        forall|j: int| 0 <= j < i ==> (#[trigger] entries[j]).0 != key,
    ensures
        spec_has_key(entries, key),
        spec_key_index(entries, key) == i,
{
    assert(spec_has_key(entries, key));
    lemma_key_index(entries, key);
    let k = spec_key_index(entries, key);
    if k < i {
        assert(entries[k].0 != key);
    }
    if k > i {
        assert(entries[i].0 != key);
    }
}

impl NumberValue {
    /// A fresh copy with the same mathematical value.
    pub fn duplicate(&self) -> (r: NumberValue)
        ensures
            r@ == self@,
    {
        match self {
            NumberValue::Int(i) => NumberValue::Int(*i),
            NumberValue::UInt(u) => NumberValue::UInt(*u),
            NumberValue::Decimal(s) => NumberValue::Decimal(s.clone()),
        }
    }

    /// Decides equality of the mathematical values.
    pub fn number_eq(&self, other: &NumberValue) -> (r: bool)
        ensures
            r == (self@ == other@),
    {
        match (self, other) {
            (NumberValue::Int(x), NumberValue::Int(y)) => *x == *y,
            (NumberValue::UInt(x), NumberValue::UInt(y)) => *x == *y,
            (NumberValue::Decimal(x), NumberValue::Decimal(y)) => *x == *y,
            _ => false,
        }
    }
}

impl ConfigValue {
    /// A fresh tree with the same mathematical value.
    pub fn deep_clone(&self) -> (r: ConfigValue)
        ensures
            r@ == self@,
        decreases *self,
    {
        match self {
            ConfigValue::Null => ConfigValue::Null,
            ConfigValue::Bool(b) => ConfigValue::Bool(*b),
            ConfigValue::Number(n) => ConfigValue::Number(n.duplicate()),
            ConfigValue::Str(s) => ConfigValue::Str(s.clone()),
            ConfigValue::Sequence(items) => {
                let mut out: Vec<ConfigValue> = Vec::new();
                let mut i: usize = 0;
                #[verifier::loop_isolation(false)]
                while i < items.len()
                    invariant
                        i <= items.len(),
                        out@.len() == i,
                        forall|k: int| 0 <= k < i ==> (#[trigger] out@[k])@ == items@[k]@,
                    decreases items.len() - i,
                {
                    proof {
                        assert(decreases_to!(*self => *items));
                        assert(decreases_to!(*items => items@[i as int]));
                    }
                    out.push(items[i].deep_clone());
                    i = i + 1;
                }
                proof {
                    lemma_items_view(out@);
                    lemma_items_view(items@);
                    assert(items_view(out@) =~= items_view(items@));
                }
                ConfigValue::Sequence(out)
            },
            ConfigValue::Mapping(entries) => {
                let mut out: Vec<(ConfigValue, ConfigValue)> = Vec::new();
                let mut i: usize = 0;
                #[verifier::loop_isolation(false)]
                while i < entries.len()
                    invariant
                        i <= entries.len(),
                        out@.len() == i,
                        forall|k: int| 0 <= k < i ==> (#[trigger] out@[k]).0@ == entries@[k].0@
                            && out@[k].1@ == entries@[k].1@,
                    decreases entries.len() - i,
                {
                    proof {
                        assert(decreases_to!(*self => *entries));
                        assert(decreases_to!(*entries => entries@[i as int]));
                    }
                    let k = entries[i].0.deep_clone();
                    let v = entries[i].1.deep_clone();
                    out.push((k, v));
                    i = i + 1;
                }
                proof {
                    lemma_entries_view(out@);
                    lemma_entries_view(entries@);
                    assert(entries_view(out@) =~= entries_view(entries@));
                }
                ConfigValue::Mapping(out)
            },
        }
    }

    /// Decides equality of the mathematical values of two trees.
    pub fn value_eq(&self, other: &ConfigValue) -> (r: bool)
        ensures
            r == (self@ == other@),
        decreases *self,
    {
        match (self, other) {
            (ConfigValue::Null, ConfigValue::Null) => true,
            (ConfigValue::Bool(x), ConfigValue::Bool(y)) => *x == *y,
            (ConfigValue::Number(x), ConfigValue::Number(y)) => x.number_eq(y),
            (ConfigValue::Str(x), ConfigValue::Str(y)) => *x == *y,
            (ConfigValue::Sequence(v1), ConfigValue::Sequence(v2)) => {
                proof {
                    lemma_items_view(v1@);
                    lemma_items_view(v2@);
                }
                if v1.len() != v2.len() {
                    return false;
                }
                let mut i: usize = 0;
                #[verifier::loop_isolation(false)]
                while i < v1.len()
                    invariant
                        i <= v1.len(),
                        v1@.len() == v2@.len(),
                        items_view(v1@).len() == v1@.len(),
                        items_view(v2@).len() == v2@.len(),
                        forall|k: int| 0 <= k < v1@.len() ==> #[trigger] items_view(v1@)[k] == v1@[k]@,
                        forall|k: int| 0 <= k < v2@.len() ==> #[trigger] items_view(v2@)[k] == v2@[k]@,
                        forall|k: int| 0 <= k < i ==> (#[trigger] v1@[k])@ == v2@[k]@,
                        self@ == SpecConfig::Sequence(items_view(v1@)),
                        other@ == SpecConfig::Sequence(items_view(v2@)),
                    decreases v1.len() - i,
                {
                    proof {
                        assert(decreases_to!(*self => *v1));
                        assert(decreases_to!(*v1 => v1@[i as int]));
                    }
                    if !v1[i].value_eq(&v2[i]) {
                        proof {
                            assert(items_view(v1@)[i as int] != items_view(v2@)[i as int]);
                        }
                        return false;
                    }
                    i = i + 1;
                }
                proof {
                    assert(items_view(v1@) =~= items_view(v2@));
                }
                true
            },
            (ConfigValue::Mapping(m1), ConfigValue::Mapping(m2)) => {
                proof {
                    lemma_entries_view(m1@);
                    lemma_entries_view(m2@);
                }
                if m1.len() != m2.len() {
                    return false;
                }
                let mut i: usize = 0;
                #[verifier::loop_isolation(false)]
                while i < m1.len()
                    invariant
                        i <= m1.len(),
                        m1@.len() == m2@.len(),
                        entries_view(m1@).len() == m1@.len(),
                        entries_view(m2@).len() == m2@.len(),
                        forall|k: int| 0 <= k < m1@.len() ==> #[trigger] entries_view(m1@)[k]
                            == (m1@[k].0@, m1@[k].1@),
                        forall|k: int| 0 <= k < m2@.len() ==> #[trigger] entries_view(m2@)[k]
                            == (m2@[k].0@, m2@[k].1@),
                        forall|k: int| 0 <= k < i ==> (#[trigger] m1@[k]).0@ == m2@[k].0@
                            && m1@[k].1@ == m2@[k].1@,
                        self@ == SpecConfig::Mapping(entries_view(m1@)),
                        other@ == SpecConfig::Mapping(entries_view(m2@)),
                    decreases m1.len() - i,
                {
                    proof {
                        assert(decreases_to!(*self => *m1));
                        assert(decreases_to!(*m1 => m1@[i as int]));
                        assert(decreases_to!(m1@[i as int] => m1@[i as int].0));
                        assert(decreases_to!(m1@[i as int] => m1@[i as int].1));
                    }
                    if !m1[i].0.value_eq(&m2[i].0) {
                        proof {
                            assert(entries_view(m1@)[i as int] != entries_view(m2@)[i as int]);
                        }
                        return false;
                    }
                    if !m1[i].1.value_eq(&m2[i].1) {
                        proof {
                            assert(entries_view(m1@)[i as int] != entries_view(m2@)[i as int]);
                        }
                        return false;
                    }
                    i = i + 1;
                }
                proof {
                    assert(entries_view(m1@) =~= entries_view(m2@));
                }
                true
            },
            _ => false,
        }
    }
}

/// The position of the first entry of `entries` whose key equals `key`,
/// or `None` when no entry does.
pub fn find_key(entries: &Vec<(ConfigValue, ConfigValue)>, key: &ConfigValue) -> (r: Option<usize>)
    ensures
        match r {
            Some(i) => i < entries@.len() && spec_has_key(entries_view(entries@), key@)
                && i as int == spec_key_index(entries_view(entries@), key@),
            None => !spec_has_key(entries_view(entries@), key@),
        },
{
    proof {
        lemma_entries_view(entries@);
    }
    let ghost ev = entries_view(entries@);
    let mut i: usize = 0;
    while i < entries.len()
        invariant
            i <= entries.len(),
            ev == entries_view(entries@),
            ev.len() == entries@.len(),
            forall|k: int| 0 <= k < entries@.len() ==> #[trigger] ev[k] == (entries@[k].0@, entries@[k].1@),
            forall|j: int| 0 <= j < i ==> (#[trigger] ev[j]).0 != key@,
        decreases entries.len() - i,
    {
        if entries[i].0.value_eq(key) {
            proof {
                lemma_key_index_first(ev, key@, i as int);
            }
            return Some(i);
        }
        i = i + 1;
    }
    proof {
        if spec_has_key(ev, key@) {
            let j = choose|j: int| 0 <= j < ev.len() && (#[trigger] ev[j]).0 == key@;
            assert(ev[j].0 != key@);
        }
    }
    None
}

impl ConfigValue {
    /// Looks a key up in a mapping tree: the value of the first entry whose
    /// key has the same mathematical value, `None` when the key is absent or
    /// the tree is not a mapping.
    pub fn mapping_get(&self, key: &ConfigValue) -> (r: Option<&ConfigValue>)
        ensures
            match r {
                Some(v) => self@ is Mapping && spec_has_key(self@->Mapping_0, key@)
                    && v@ == spec_value_of(self@->Mapping_0, key@),
                None => !(self@ is Mapping) || !spec_has_key(self@->Mapping_0, key@),
            },
    {
        match self {
            ConfigValue::Mapping(entries) => {
                proof {
                    lemma_entries_view(entries@);
                }
                match find_key(entries, key) {
                    Some(i) => Some(&entries[i].1),
                    None => None,
                }
            },
            _ => None,
        }
    }
}

} // verus!
