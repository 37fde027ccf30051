//! The values a document holds, the objects that map keys to them, and the
//! parse error; each with the mathematical value it stands for.
use crate::text::chars_of;
use vstd::prelude::*;
use vstd::string::*;

verus! {

/// A parsed value.
#[derive(Debug, PartialEq)]
pub enum YANValue {
    Null,
    Bool(bool),
    Int(i64),
    /// A floating-point number, kept as its literal text, which follows the
    /// format's number grammar (e.g. `1.5`, `-2e3`, `0.25E+1`).
    Float(String),
    String(String),
    Array(Vec<YANValue>),
    Object(YANObject),
    TypeHint { name: String, value: Box<YANValue> },
}

/// An object: keys mapped to values, each key once, in the order in which the
/// keys were first written.
#[derive(Debug, PartialEq)]
pub struct YANObject {
    entries: Vec<(String, YANValue)>,
}

/// What a value is.
pub enum SpecValue {
    Null,
    Bool(bool),
    Int(i64),
    Float(Seq<char>),
    Str(Seq<char>),
    Array(Seq<SpecValue>),
    Object(Seq<(Seq<char>, SpecValue)>),
    TypeHint(Seq<char>, Box<SpecValue>),
}

/// A parse error: its message and the line it names (0 inside inline objects).
pub struct SpecError {
    pub message: Seq<char>,
    pub line: nat,
}

/// A failed parse.
#[derive(Debug)]
pub struct YANParseError {
    pub message: String,
    pub line: usize,
}

impl YANValue {
    pub open spec fn deep(self) -> SpecValue
        decreases self,
    {
        match self {
            YANValue::Null => SpecValue::Null,
            YANValue::Bool(b) => SpecValue::Bool(b),
            YANValue::Int(n) => SpecValue::Int(n),
            YANValue::Float(s) => SpecValue::Float(s@),
            YANValue::String(s) => SpecValue::Str(s@),
            YANValue::Array(v) => SpecValue::Array(deep_values(v@)),
            YANValue::Object(o) => SpecValue::Object(o.deep()),
            YANValue::TypeHint { name, value } => SpecValue::TypeHint(
                name@,
                Box::new((*value).deep()),
            ),
        }
    }
}

/// What a list of values stands for.
pub open spec fn deep_values(s: Seq<YANValue>) -> Seq<SpecValue>
    decreases s,
{
    if s.len() == 0 {
        seq![]
    } else {
        deep_values(s.drop_last()).push(s.last().deep())
    }
}

/// What a list of entries stands for.
pub open spec fn deep_entries(s: Seq<(String, YANValue)>) -> Seq<(Seq<char>, SpecValue)>
    decreases s,
{
    if s.len() == 0 {
        seq![]
    } else {
        deep_entries(s.drop_last()).push((s.last().0@, s.last().1.deep()))
    }
}

impl YANObject {
    /// The entries, in order.
    pub closed spec fn deep(self) -> Seq<(Seq<char>, SpecValue)>
        decreases self,
    {
        deep_entries(self.entries@)
    }
}

impl YANParseError {
    pub open spec fn spec(self) -> SpecError {
        SpecError { message: self.message@, line: self.line as nat }
    }
}

/// `entries` with `key` set to `value`: in place where `key` is already
/// there, else at the end.
pub open spec fn insert_entry(
    entries: Seq<(Seq<char>, SpecValue)>,
    key: Seq<char>,
    value: SpecValue,
) -> Seq<(Seq<char>, SpecValue)>
    decreases entries.len(),
{
    if entries.len() == 0 {
        seq![(key, value)]
    } else if entries[0].0 == key {
        seq![(key, value)] + entries.drop_first()
    } else {
        seq![entries[0]] + insert_entry(entries.drop_first(), key, value)
    }
}

/// The value that `entries` holds for `key`.
pub open spec fn lookup(entries: Seq<(Seq<char>, SpecValue)>, key: Seq<char>) -> Option<SpecValue>
    decreases entries.len(),
{
    if entries.len() == 0 {
        None
    } else if entries[0].0 == key {
        Some(entries[0].1)
    } else {
        lookup(entries.drop_first(), key)
    }
}

/// No key occurs twice.
pub open spec fn keys_unique(entries: Seq<(Seq<char>, SpecValue)>) -> bool {
    forall|i: int, j: int|
        0 <= i < entries.len() && 0 <= j < entries.len() && i != j ==> #[trigger] entries[i].0
            != #[trigger] entries[j].0
}

/// `deep_entries` maps the entries one by one.
pub proof fn lemma_deep_entries_len(s: Seq<(String, YANValue)>)
    ensures
        deep_entries(s).len() == s.len(),
        forall|i: int|
            0 <= i < s.len() ==> #[trigger] deep_entries(s)[i] == (s[i].0@, s[i].1.deep()),
    decreases s.len(),
{
    if s.len() > 0 {
        lemma_deep_entries_len(s.drop_last());
    }
}

/// Inserting where the first entry with `key` stands replaces it.
pub proof fn lemma_insert_at(
    entries: Seq<(Seq<char>, SpecValue)>,
    key: Seq<char>,
    value: SpecValue,
    j: int,
)
    requires
        0 <= j < entries.len(),
        entries[j].0 == key,
        forall|k: int| 0 <= k < j ==> #[trigger] entries[k].0 != key,
    ensures
        insert_entry(entries, key, value) == entries.update(j, (key, value)),
    decreases entries.len(),
{
    if j > 0 {
        lemma_insert_at(entries.drop_first(), key, value, j - 1);
        assert(entries.update(j, (key, value)) =~= seq![entries[0]] + entries.drop_first().update(
            j - 1,
            (key, value),
        ));
    }
}

/// Inserting a key that is absent appends it.
pub proof fn lemma_insert_absent(
    entries: Seq<(Seq<char>, SpecValue)>,
    key: Seq<char>,
    value: SpecValue,
)
    requires
        forall|k: int| 0 <= k < entries.len() ==> #[trigger] entries[k].0 != key,
    ensures
        insert_entry(entries, key, value) == entries.push((key, value)),
    decreases entries.len(),
{
    if entries.len() > 0 {
        lemma_insert_absent(entries.drop_first(), key, value);
        assert(entries.push((key, value)) =~= seq![entries[0]] + entries.drop_first().push(
            (key, value),
        ));
    }
}

impl YANObject {
    /// No key occurs twice.
    #[verifier::type_invariant]
    spec fn keys_once(self) -> bool {
        keys_unique(deep_entries(self.entries@))
    }

    /// An object with no entries.
    pub fn new() -> (o: YANObject)
        ensures
            o.deep() == Seq::<(Seq<char>, SpecValue)>::empty(),
            keys_unique(o.deep()),
    {
        YANObject { entries: Vec::new() }
    }

    /// Sets `key` to `value`: the entry of `key` is replaced where there is
    /// one, else a new entry is added at the end.
    pub fn insert(&mut self, key: String, value: YANValue)
        ensures
            final(self).deep() == insert_entry(old(self).deep(), key@, value.deep()),
            keys_unique(final(self).deep()),
    {
        proof {
            use_type_invariant(&*self);
        }
        let mut entries: Vec<(String, YANValue)> = Vec::new();
        std::mem::swap(&mut entries, &mut self.entries);
        let ghost old_entries = entries@;
        let ghost result = insert_entry(deep_entries(old_entries), key@, value.deep());
        proof {
            lemma_deep_entries_len(old_entries);
            crate::laws::law_insert_keeps_keys_unique(deep_entries(old_entries), key@, value.deep());
        }
        let mut j: usize = 0;
        while j < entries.len()
            invariant
                entries@ == old_entries,
                j <= old_entries.len(),
                forall|k: int| 0 <= k < j ==> #[trigger] old_entries[k].0@ != key@,
            ensures
                j < old_entries.len() ==> old_entries[j as int].0@ == key@,
            decreases old_entries.len() - j,
        {
            if entries[j].0 == key {
                break;
            }
            j += 1;
        }
        if j < entries.len() {
            proof {
                lemma_deep_entries_len(old_entries);
                lemma_insert_at(deep_entries(old_entries), key@, value.deep(), j as int);
            }
            entries.set(j, (key, value));
            proof {
                lemma_deep_entries_len(entries@);
                assert(deep_entries(entries@) =~= result);
            }
        } else {
            proof {
                lemma_deep_entries_len(old_entries);
                lemma_insert_absent(deep_entries(old_entries), key@, value.deep());
            }
            entries.push((key, value));
            assert(entries@.drop_last() == old_entries);
        }
        self.entries = entries;
    }

    /// The value of `key`, if the object has it.
    pub fn get(&self, key: &str) -> (r: Option<&YANValue>)
        ensures
            match r {
                Some(v) => lookup(self.deep(), key@) == Some(v.deep()),
                None => lookup(self.deep(), key@) is None,
            },
    {
        let k = String::from_str(key);
        let mut j: usize = 0;
        proof {
            lemma_deep_entries_len(self.entries@);
            assert(self.deep().skip(0) =~= self.deep());
        }
        while j < self.entries.len()
            invariant
                j <= self.entries@.len(),
                k@ == key@,
                lookup(self.deep(), key@) == lookup(self.deep().skip(j as int), key@),
                deep_entries(self.entries@).len() == self.entries@.len(),
                forall|i: int|
                    0 <= i < self.entries@.len() ==> #[trigger] deep_entries(self.entries@)[i]
                        == (self.entries@[i].0@, self.entries@[i].1.deep()),
            decreases self.entries@.len() - j,
        {
            let ghost rest = self.deep().skip(j as int);
            assert(rest.drop_first() =~= self.deep().skip(j + 1));
            if self.entries[j].0 == k {
                return Some(&self.entries[j].1);
            }
            j += 1;
        }
        None
    }

    /// Number of keys.
    pub fn len(&self) -> (n: usize)
        ensures
            n == self.deep().len(),
    {
        proof {
            lemma_deep_entries_len(self.entries@);
        }
        self.entries.len()
    }

    /// The entries, in order.
    pub fn into_entries(self) -> (r: Vec<(String, YANValue)>)
        ensures
            deep_entries(r@) == self.deep(),
    {
        self.entries
    }

    /// The key and value of the `i`-th entry.
    pub fn entry(&self, i: usize) -> (r: (&String, &YANValue))
        requires
            i < self.deep().len(),
        ensures
            (r.0@, r.1.deep()) == self.deep()[i as int],
    {
        proof {
            lemma_deep_entries_len(self.entries@);
        }
        (&self.entries[i].0, &self.entries[i].1)
    }
}

impl YANParseError {
    /// `YAN parse error at line {line}: {message}`.
    pub fn to_string(&self) -> (s: String)
        ensures
            s@ == "YAN parse error at line "@ + crate::number::decimal(self.line as nat) + ": "@
                + self.message@,
    {
        let mut out = chars_of("YAN parse error at line ");
        let mut d = crate::number::decimal_chars(self.line);
        out.append(&mut d);
        let mut sep = chars_of(": ");
        out.append(&mut sep);
        let mut m = chars_of(self.message.as_str());
        out.append(&mut m);
        crate::text::string_of(&out)
    }
}

} // verus!
