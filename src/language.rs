use vstd::prelude::*;
use vstd::string::StringSliceAdditionalSpecFns;
use vstd::utf8::valid_utf8;

use crate::tree::{
    entry_of, find_key, first_with_key, flattened_table, join_path, path_of, table_get,
    table_lookup, LanguageStringObject,
};

verus! {

/// serde_json's JSON document type, carried opaquely as a language's attachments.
#[verifier::external_type_specification]
#[verifier::external_body]
pub struct ExValue(serde_json::Value);

/// Relies on std::str::from_utf8: it succeeds exactly on valid UTF-8, and the
/// text it returns is made of those very bytes.
#[verifier::external_body]
fn utf8_text(bytes: &[u8]) -> (r: Option<&str>)
    ensures
        r is Some <==> valid_utf8(bytes@),
        r matches Some(t) ==> t.spec_bytes() == bytes@,
{
    std::str::from_utf8(bytes).ok()
}

/// Represents a single language lookup instance
pub struct Language {
    name: String,
    short_name: String,
    strings: Vec<(String, LanguageStringObject)>,
    resources: Vec<(String, Vec<u8>)>,
    attachments: Vec<(String, serde_json::Value)>,
}

/// What a language holds.
pub struct LanguageView {
    pub name: Seq<char>,
    pub short_name: Seq<char>,
    pub strings: Seq<(String, LanguageStringObject)>,
    pub resources: Seq<(String, Vec<u8>)>,
    pub attachments: Seq<(String, serde_json::Value)>,
}

impl View for Language {
    type V = LanguageView;

    closed spec fn view(&self) -> LanguageView {
        LanguageView {
            name: self.name@,
            short_name: self.short_name@,
            strings: self.strings@,
            resources: self.resources@,
            attachments: self.attachments@,
        }
    }
}

impl LanguageView {
    /// The string that the flat key `name` names in this language.
    pub open spec fn lookup(self, name: Seq<char>) -> Option<Seq<char>> {
        table_lookup(self.strings, path_of(name))
    }

    /// The bytes of the resource called `name`.
    pub open spec fn resource(self, name: Seq<char>) -> Option<Seq<u8>> {
        match entry_of(self.resources, name) {
            Some(b) => Some(b@),
            None => None,
        }
    }

    /// The document attached under `name`.
    pub open spec fn attachment(self, name: Seq<char>) -> Option<serde_json::Value> {
        entry_of(self.attachments, name)
    }

    /// The flat keys of all strings of this language.
    pub open spec fn flat_keys(self) -> Set<Seq<char>> {
        Set::new(
            |k: Seq<char>|
                exists|p: Seq<Seq<char>>| #[trigger]
                    table_lookup(self.strings, p) is Some && join_path(p) == k,
        )
    }
}

/// An association list with one entry set: the key `key` now gives `value`,
/// every other key what it gave before.
pub open spec fn entry_set<V>(after: Seq<(String, V)>, before: Seq<(String, V)>, key: Seq<char>, value: V) -> bool {
    &&& entry_of(after, key) == Some(value)
    &&& forall|k: Seq<char>| k != key ==> #[trigger] entry_of(after, k) == entry_of(before, k)
}

/// Two association lists with the same keys everywhere, and the same values
/// wherever the key is `k`, agree on `k`.
proof fn lemma_entry_of_same<V>(a: Seq<(String, V)>, b: Seq<(String, V)>, k: Seq<char>)
    requires
        a.len() == b.len(),
        forall|i: int| 0 <= i < a.len() ==> #[trigger] a[i].0@ == b[i].0@,
        forall|i: int| 0 <= i < a.len() && a[i].0@ == k ==> #[trigger] a[i].1 == b[i].1,
    ensures
        entry_of(a, k) == entry_of(b, k),
{
    if exists|f: int| first_with_key(a, k, f) {
        let f = choose|f: int| first_with_key(a, k, f);
        assert forall|j: int| 0 <= j < f implies b[j].0@ != k by {
            assert(a[j].0@ == b[j].0@);
        }
        assert(a[f].0@ == b[f].0@);
        assert(first_with_key(b, k, f));
        crate::tree::lemma_entry_of_first(a, k, f);
        crate::tree::lemma_entry_of_first(b, k, f);
    } else {
        if exists|f: int| first_with_key(b, k, f) {
            let f = choose|f: int| first_with_key(b, k, f);
            assert forall|j: int| 0 <= j < f implies a[j].0@ != k by {
                assert(a[j].0@ == b[j].0@);
            }
            assert(a[f].0@ == b[f].0@);
            assert(first_with_key(a, k, f));
        }
    }
}

/// Sets the value under `key` in an association list, in place where the key
/// is there already, else at the end.
fn set_entry<V>(entries: &mut Vec<(String, V)>, key: &str, value: V)
    ensures
        entry_set(final(entries)@, old(entries)@, key@, value),
{
    let ghost before = entries@;
    match find_key(entries, key) {
        Some(idx) => {
            entries[idx] = (key.to_owned(), value);
            proof {
                assert(first_with_key(entries@, key@, idx as int));
                crate::tree::lemma_entry_of_first(entries@, key@, idx as int);
                assert forall|k: Seq<char>| k != key@ implies #[trigger] entry_of(entries@, k)
                    == entry_of(before, k) by {
                    lemma_entry_of_same(entries@, before, k);
                }
            }
        },
        None => {
            entries.push((key.to_owned(), value));
            proof {
                let n = before.len() as int;
                assert forall|j: int| 0 <= j < n implies entries@[j].0@ != key@ by {
                    if entries@[j].0@ == key@ {
                        crate::tree::lemma_entry_of_some(before, key@, j);
                    }
                }
                assert(first_with_key(entries@, key@, n));
                crate::tree::lemma_entry_of_first(entries@, key@, n);
                assert forall|k: Seq<char>| k != key@ implies #[trigger] entry_of(entries@, k)
                    == entry_of(before, k) by {
                    if exists|f: int| first_with_key(before, k, f) {
                        let f = choose|f: int| first_with_key(before, k, f);
                        assert(first_with_key(entries@, k, f));
                        crate::tree::lemma_entry_of_first(entries@, k, f);
                        crate::tree::lemma_entry_of_first(before, k, f);
                    } else if exists|f: int| first_with_key(entries@, k, f) {
                        let f = choose|f: int| first_with_key(entries@, k, f);
                        assert(f < n);
                        assert forall|j: int| 0 <= j <= f implies entries@[j] == before[j] by {}
                        assert(first_with_key(before, k, f));
                    }
                }
            }
        },
    }
}

impl Language {
    /// Create a new language instance
    ///
    /// # Arguments
    /// * `name` - Full language name
    /// * `short_name` - Language code
    /// * `strings` - Language lookup table
    /// * `resources` - Named resources that come with the language
    pub fn new(
        name: String,
        short_name: String,
        strings: Vec<(String, LanguageStringObject)>,
        resources: Vec<(String, Vec<u8>)>,
    ) -> (r: Self)
        ensures
            r@ == (LanguageView {
                name: name@,
                short_name: short_name@,
                strings: strings@,
                resources: resources@,
                attachments: Seq::empty(),
            }),
    {
        let r = Language { name, short_name, strings, resources, attachments: Vec::new() };
        assert(r@.attachments =~= Seq::empty());
        r
    }

    /// Attach a document to this language, in place of any document of that name
    pub fn attach(&mut self, name: &str, attachment: serde_json::Value)
        ensures
            final(self)@.name == old(self)@.name,
            final(self)@.short_name == old(self)@.short_name,
            final(self)@.strings == old(self)@.strings,
            final(self)@.resources == old(self)@.resources,
            entry_set(final(self)@.attachments, old(self)@.attachments, name@, attachment),
    {
        set_entry(&mut self.attachments, name, attachment);
    }

    /// Get an attachment
    pub fn attachment(&self, name: &str) -> (r: Option<&serde_json::Value>)
        ensures
            match r {
                Some(v) => self@.attachment(name@) == Some(*v),
                None => self@.attachment(name@) is None,
            },
    {
        match find_key(&self.attachments, name) {
            Some(idx) => {
                proof {
                    crate::tree::lemma_entry_of_first(self.attachments@, name@, idx as int);
                }
                Some(&self.attachments[idx].1)
            },
            None => None,
        }
    }

    /// Get full language name
    pub fn name(&self) -> (r: &str)
        ensures
            r@ == self@.name,
    {
        self.name.as_str()
    }

    /// Whether this language's code is `code`.
    pub fn has_short_name(&self, code: &String) -> (r: bool)
        ensures
            r == (self@.short_name == code@),
    {
        self.short_name == *code
    }

    /// Get language code
    pub fn short_name(&self) -> (r: &str)
        ensures
            r@ == self@.short_name,
    {
        self.short_name.as_str()
    }

    /// The table of strings, as it was given
    pub fn string_table(&self) -> (r: &Vec<(String, LanguageStringObject)>)
        ensures
            r@ == self@.strings,
    {
        &self.strings
    }

    /// The named resources, as they were given
    pub fn resource_table(&self) -> (r: &Vec<(String, Vec<u8>)>)
        ensures
            r@ == self@.resources,
    {
        &self.resources
    }

    /// Get language lookup table, flattened: each string under its flat key
    pub fn strings(&self) -> (r: Vec<(String, String)>)
        ensures
            flattened_table(r@, self@.strings, None),
    {
        LanguageStringObject::flatten_all(&self.strings, None)
    }

    /// Look up a string in the given language
    ///
    /// # Arguments
    /// * `name` - String to find
    pub fn get(&self, name: &str) -> (r: Option<&str>)
        ensures
            crate::tree::opt_str_view(r) == self@.lookup(name@),
    {
        table_get(&self.strings, name)
    }

    /// Return an embedded resource as a utf8 string
    pub fn utf8_resource(&self, name: &str) -> (r: Option<&str>)
        ensures
            match self@.resource(name@) {
                Some(b) => (r is Some <==> valid_utf8(b)) && (r matches Some(t) ==> t.spec_bytes()
                    == b),
                None => r is None,
            },
    {
        match self.binary_resource(name) {
            Some(bytes) => utf8_text(bytes),
            None => None,
        }
    }

    /// Return an embedded resource as a slice of bytes
    pub fn binary_resource(&self, name: &str) -> (r: Option<&[u8]>)
        ensures
            match r {
                Some(b) => self@.resource(name@) == Some(b@),
                None => self@.resource(name@) is None,
            },
    {
        match find_key(&self.resources, name) {
            Some(idx) => {
                proof {
                    crate::tree::lemma_entry_of_first(self.resources@, name@, idx as int);
                }
                Some(self.resources[idx].1.as_slice())
            },
            None => None,
        }
    }
}

} // verus!
