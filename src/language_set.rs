use vstd::prelude::*;
use vstd::string::StringSliceAdditionalSpecFns;
use vstd::utf8::valid_utf8;

use crate::language::{Language, LanguageView};
use crate::tree::{flattened_table, join_path, opt_str_view, prefixed, table_holds, table_lookup};

verus! {

/// No two languages of `langs` share a code.
pub open spec fn codes_distinct(langs: Seq<Language>) -> bool {
    forall|i: int, j: int|
        0 <= i < langs.len() && 0 <= j < langs.len() && i != j ==> langs[i]@.short_name
            != langs[j]@.short_name
}

/// Some language of `langs` has the code `code`.
pub open spec fn has_code(langs: Seq<Language>, code: Seq<char>) -> bool {
    exists|i: int| 0 <= i < langs.len() && #[trigger] langs[i]@.short_name == code
}

/// `i` is the first position in `langs` of a language with code `code`.
pub open spec fn first_code(langs: Seq<Language>, code: Seq<char>, i: int) -> bool {
    &&& 0 <= i < langs.len()
    &&& langs[i]@.short_name == code
    &&& forall|j: int| 0 <= j < i ==> langs[j]@.short_name != code
}

/// The languages of `langs` by their codes.
pub open spec fn by_code(langs: Seq<Language>) -> Map<Seq<char>, LanguageView> {
    Map::new(
        |c: Seq<char>| has_code(langs, c),
        |c: Seq<char>| langs[choose|i: int| first_code(langs, c, i)]@,
    )
}

/// A searchable set of language string instances
pub struct LanguageSet {
    current: String,
    fallback: String,
    languages: Vec<Language>,
}

/// What a language set holds: the current and fallback codes, and the
/// languages by code.
pub struct LanguageSetView {
    pub current: Seq<char>,
    pub fallback: Seq<char>,
    pub languages: Map<Seq<char>, LanguageView>,
}

impl LanguageSetView {
    /// The string under `name` in the language with code `code`.
    pub open spec fn lookup_in(self, code: Seq<char>, name: Seq<char>) -> Option<Seq<char>> {
        if self.languages.contains_key(code) {
            self.languages[code].lookup(name)
        } else {
            None
        }
    }

    /// The string under `name` in the current language, else in the fallback language.
    pub open spec fn resolve(self, name: Seq<char>) -> Option<Seq<char>> {
        match self.lookup_in(self.current, name) {
            Some(s) => Some(s),
            None => self.lookup_in(self.fallback, name),
        }
    }

    /// The bytes of the resource `name` in the language with code `code`.
    pub open spec fn resource_in(self, code: Seq<char>, name: Seq<char>) -> Option<Seq<u8>> {
        if self.languages.contains_key(code) {
            self.languages[code].resource(name)
        } else {
            None
        }
    }

    /// The bytes of the resource `name` in the current language, else in the fallback language.
    pub open spec fn resolve_resource(self, name: Seq<char>) -> Option<Seq<u8>> {
        match self.resource_in(self.current, name) {
            Some(b) => Some(b),
            None => self.resource_in(self.fallback, name),
        }
    }

    /// The resource `name` of the language `code`, where it is text.
    pub open spec fn text_in(self, code: Seq<char>, name: Seq<char>) -> Option<Seq<u8>> {
        match self.resource_in(code, name) {
            Some(b) => if valid_utf8(b) {
                Some(b)
            } else {
                None
            },
            None => None,
        }
    }

    /// The resource `name` as text, from the current language, else from the fallback language.
    pub open spec fn resolve_text(self, name: Seq<char>) -> Option<Seq<u8>> {
        match self.text_in(self.current, name) {
            Some(b) => Some(b),
            None => self.text_in(self.fallback, name),
        }
    }
}

/// `keys` lists, once each, the keys of `lang` that `fallback` lacks.
pub open spec fn extra_keys(keys: Seq<String>, lang: Set<Seq<char>>, fallback: Set<Seq<char>>) -> bool {
    &&& forall|i: int, j: int| 0 <= i < keys.len() && 0 <= j < keys.len() && i != j ==> keys[i]@ != keys[j]@
    &&& forall|k: Seq<char>| #[trigger] listed(keys, k) <==> (lang.contains(k) && !fallback.contains(k))
}

/// The view of an optional text by its bytes.
pub open spec fn opt_str_bytes(s: Option<&str>) -> Option<Seq<u8>> {
    match s {
        Some(t) => Some(t.spec_bytes()),
        None => None,
    }
}

/// The view of optional bytes.
pub open spec fn opt_bytes(s: Option<&[u8]>) -> Option<Seq<u8>> {
    match s {
        Some(t) => Some(t@),
        None => None,
    }
}

impl View for LanguageSet {
    type V = LanguageSetView;

    closed spec fn view(&self) -> LanguageSetView {
        LanguageSetView {
            current: self.current@,
            fallback: self.fallback@,
            languages: by_code(self.languages@),
        }
    }
}

/// The first language with a code is the one under that code.
proof fn lemma_by_code_first(langs: Seq<Language>, i: int)
    requires
        first_code(langs, langs[i]@.short_name, i),
    ensures
        by_code(langs).contains_key(langs[i]@.short_name),
        by_code(langs)[langs[i]@.short_name] == langs[i]@,
{
    let c = langs[i]@.short_name;
    assert(has_code(langs, c));
    let j = choose|j: int| first_code(langs, c, j);
    assert(j == i) by {
        if j < i {
            assert(langs[j]@.short_name != c);
        } else if i < j {
            assert(langs[i]@.short_name != c);
        }
    }
}

/// With distinct codes, the language at a position is the one under its code.
proof fn lemma_by_code_at(langs: Seq<Language>, i: int)
    requires
        codes_distinct(langs),
        0 <= i < langs.len(),
    ensures
        by_code(langs).contains_key(langs[i]@.short_name),
        by_code(langs)[langs[i]@.short_name] == langs[i]@,
{
    assert(first_code(langs, langs[i]@.short_name, i));
    lemma_by_code_first(langs, i);
}

/// Adding a language of a new code adds it under that code.
proof fn lemma_by_code_push(langs: Seq<Language>, l: Language)
    requires
        codes_distinct(langs),
        !has_code(langs, l@.short_name),
    ensures
        codes_distinct(langs.push(l)),
        by_code(langs.push(l)) == by_code(langs).insert(l@.short_name, l@),
{
    let n = langs.push(l);
    assert forall|i: int, j: int|
        0 <= i < n.len() && 0 <= j < n.len() && i != j implies n[i]@.short_name
        != n[j]@.short_name by {
        if i < langs.len() && j < langs.len() {
            assert(n[i] == langs[i] && n[j] == langs[j]);
        } else if i < langs.len() {
            assert(n[i] == langs[i]);
        } else {
            assert(n[j] == langs[j]);
        }
    }
    let m = by_code(langs).insert(l@.short_name, l@);
    assert forall|c: Seq<char>| #[trigger] by_code(n).contains_key(c) == m.contains_key(c) by {
        if has_code(n, c) {
            let i = choose|i: int| 0 <= i < n.len() && #[trigger] n[i]@.short_name == c;
            if i < langs.len() {
                assert(n[i] == langs[i]);
                assert(has_code(langs, c));
            }
        }
        if has_code(langs, c) {
            let i = choose|i: int| 0 <= i < langs.len() && #[trigger] langs[i]@.short_name == c;
            assert(n[i] == langs[i]);
            assert(has_code(n, c));
        }
        if c == l@.short_name {
            assert(n[langs.len() as int] == l);
            assert(has_code(n, c));
        }
    }
    assert forall|c: Seq<char>| #[trigger] by_code(n).contains_key(c) implies by_code(n)[c]
        == m[c] by {
        let i = choose|i: int| 0 <= i < n.len() && #[trigger] n[i]@.short_name == c;
        lemma_by_code_at(n, i);
        if i < langs.len() {
            assert(n[i] == langs[i]);
            lemma_by_code_at(langs, i);
        }
    }
    assert(by_code(n) =~= m);
}

/// Putting a language in the place of the one with its code puts it under that code.
proof fn lemma_by_code_update(langs: Seq<Language>, k: int, l: Language)
    requires
        codes_distinct(langs),
        0 <= k < langs.len(),
        langs[k]@.short_name == l@.short_name,
    ensures
        codes_distinct(langs.update(k, l)),
        by_code(langs.update(k, l)) == by_code(langs).insert(l@.short_name, l@),
{
    let n = langs.update(k, l);
    assert forall|i: int| 0 <= i < n.len() implies #[trigger] n[i]@.short_name
        == langs[i]@.short_name by {}
    let m = by_code(langs).insert(l@.short_name, l@);
    lemma_by_code_at(langs, k);
    assert forall|c: Seq<char>| #[trigger] by_code(n).contains_key(c) == m.contains_key(c) by {
        if has_code(n, c) {
            let i = choose|i: int| 0 <= i < n.len() && #[trigger] n[i]@.short_name == c;
            assert(langs[i]@.short_name == c);
        }
        if has_code(langs, c) {
            let i = choose|i: int| 0 <= i < langs.len() && #[trigger] langs[i]@.short_name == c;
            assert(n[i]@.short_name == c);
        }
    }
    assert forall|c: Seq<char>| #[trigger] by_code(n).contains_key(c) implies by_code(n)[c]
        == m[c] by {
        let i = choose|i: int| 0 <= i < n.len() && #[trigger] n[i]@.short_name == c;
        lemma_by_code_at(n, i);
        if i != k {
            lemma_by_code_at(langs, i);
        }
    }
    assert(by_code(n) =~= m);
}

/// Some pair of `flat` has the key `key`.
pub open spec fn has_flat_key(flat: Seq<(String, String)>, key: Seq<char>) -> bool {
    exists|m: int| 0 <= m < flat.len() && #[trigger] flat[m].0@ == key
}

/// The keys of the flat view of a language are its flat keys.
proof fn lemma_flat_keys(flat: Seq<(String, String)>, lang: LanguageView, key: Seq<char>)
    requires
        flattened_table(flat, lang.strings, None),
    ensures
        has_flat_key(flat, key) <==> lang.flat_keys().contains(key),
{
    if has_flat_key(flat, key) {
        let m = choose|m: int| 0 <= m < flat.len() && #[trigger] flat[m].0@ == key;
        assert(table_holds(lang.strings, None, flat[m]));
        let p = choose|p: Seq<Seq<char>>|
            #[trigger] table_lookup(lang.strings, p) == Some(flat[m].1@) && join_path(
                prefixed(None, p),
            ) == flat[m].0@;
        assert(prefixed(None, p) == p);
    }
    if lang.flat_keys().contains(key) {
        let p = choose|p: Seq<Seq<char>>| #[trigger]
            table_lookup(lang.strings, p) is Some && join_path(p) == key;
        assert(prefixed(None, p) == p);
        assert(crate::tree::flat_has(flat, join_path(prefixed(None, p)), table_lookup(lang.strings, p)->0));
    }
}

/// Whether some pair of `flat` has the key `key`.
fn flat_has_key(flat: &Vec<(String, String)>, key: &String) -> (r: bool)
    ensures
        r == has_flat_key(flat@, key@),
{
    let mut i: usize = 0;
    while i < flat.len()
        invariant
            i <= flat@.len(),
            forall|m: int| 0 <= m < i ==> flat@[m].0@ != key@,
        decreases flat@.len() - i,
    {
        if flat[i].0 == *key {
            return true;
        }
        i += 1;
    }
    false
}

/// Whether `keys` holds `key`.
fn holds_key(keys: &Vec<String>, key: &String) -> (r: bool)
    ensures
        r == exists|m: int| 0 <= m < keys@.len() && #[trigger] keys@[m]@ == key@,
{
    let mut i: usize = 0;
    while i < keys.len()
        invariant
            i <= keys@.len(),
            forall|m: int| 0 <= m < i ==> keys@[m]@ != key@,
        decreases keys@.len() - i,
    {
        if keys[i] == *key {
            return true;
        }
        i += 1;
    }
    false
}

/// `keys` holds `key`.
pub open spec fn listed(keys: Seq<String>, key: Seq<char>) -> bool {
    exists|a: int| 0 <= a < keys.len() && #[trigger] keys[a]@ == key
}

/// The keys of `flat` that `fallback` lacks, once each.
fn keys_missing_from(flat: &Vec<(String, String)>, fallback: &Vec<(String, String)>) -> (r: Vec<
    String,
>)
    ensures
        forall|i: int, j: int| 0 <= i < r@.len() && 0 <= j < r@.len() && i != j ==> r@[i]@ != r@[j]@,
        forall|k: Seq<char>| #[trigger]
            listed(r@, k) <==> (has_flat_key(flat@, k) && !has_flat_key(fallback@, k)),
{
    let mut keys: Vec<String> = Vec::new();
    let mut i: usize = 0;
    while i < flat.len()
        invariant
            i <= flat@.len(),
            forall|a: int, b: int|
                0 <= a < keys@.len() && 0 <= b < keys@.len() && a != b ==> keys@[a]@ != keys@[b]@,
            forall|k: Seq<char>| #[trigger]
                listed(keys@, k) <==> (has_flat_key(flat@.take(i as int), k) && !has_flat_key(
                    fallback@,
                    k,
                )),
        decreases flat@.len() - i,
    {
        let key = &flat[i].0;
        let ghost before = keys@;
        let ghost seen = flat@.take(i as int);
        let ghost now = flat@.take(i + 1);
        proof {
            assert forall|k: Seq<char>| has_flat_key(now, k) <==> (has_flat_key(seen, k) || flat@[i as int].0@ == k) by {
                if has_flat_key(now, k) {
                    let m = choose|m: int| 0 <= m < now.len() && #[trigger] now[m].0@ == k;
                    if m < i {
                        assert(seen[m] == now[m]);
                    }
                }
                if has_flat_key(seen, k) {
                    let m = choose|m: int| 0 <= m < seen.len() && #[trigger] seen[m].0@ == k;
                    assert(seen[m] == now[m]);
                }
                if flat@[i as int].0@ == k {
                    assert(now[i as int] == flat@[i as int]);
                }
            }
        }
        if !flat_has_key(fallback, key) && !holds_key(&keys, key) {
            keys.push(key.clone());
            proof {
                assert forall|k: Seq<char>| #[trigger] listed(keys@, k) <==> listed(before, k) || k == key@ by {
                    if listed(keys@, k) {
                        let a = choose|a: int| 0 <= a < keys@.len() && #[trigger] keys@[a]@ == k;
                        if a < before.len() {
                            assert(before[a]@ == k);
                        }
                    }
                    if listed(before, k) {
                        let a = choose|a: int| 0 <= a < before.len() && #[trigger] before[a]@ == k;
                        assert(keys@[a] == before[a]);
                    }
                    if k == key@ {
                        assert(keys@[before.len() as int]@ == k);
                    }
                }
                assert(!listed(before, key@));
            }
        } else {
            proof {
                assert forall|k: Seq<char>| #[trigger] listed(keys@, k) <==> (has_flat_key(now, k)
                    && !has_flat_key(fallback@, k)) by {
                    if k == key@ && !has_flat_key(fallback@, k) {
                        assert(listed(before, key@));
                    }
                }
            }
        }
        i += 1;
    }
    assert(flat@.take(i as int) =~= flat@);
    keys
}

impl LanguageSet {
    /// The codes of the languages are distinct.
    pub closed spec fn wf(&self) -> bool {
        codes_distinct(self.languages@)
    }

    /// The position of the language with code `code`.
    fn position(&self, code: &String) -> (r: Option<usize>)
        ensures
            match r {
                Some(i) => first_code(self.languages@, code@, i as int),
                None => !has_code(self.languages@, code@),
            },
    {
        let mut i: usize = 0;
        while i < self.languages.len()
            invariant
                i <= self.languages@.len(),
                forall|j: int| 0 <= j < i ==> self.languages@[j]@.short_name != code@,
            decreases self.languages@.len() - i,
        {
            if self.languages[i].has_short_name(code) {
                return Some(i);
            }
            i += 1;
        }
        None
    }

    /// The language with code `code`.
    fn language(&self, code: &String) -> (r: Option<&Language>)
        ensures
            match r {
                Some(l) => self@.languages.contains_key(code@) && self@.languages[code@] == l@,
                None => !self@.languages.contains_key(code@),
            },
    {
        match self.position(code) {
            Some(i) => {
                proof {
                    lemma_by_code_first(self.languages@, i as int);
                }
                Some(&self.languages[i])
            },
            None => None,
        }
    }

    /// Create a new language set; its current language is the fallback language
    ///
    /// # Arguments
    /// * `fallback_language` - Language code for the fallback language
    /// * `languages` - Languages to use; of two with one code, the later one stays
    pub fn new(fallback_language: &str, languages: Vec<Language>) -> (r: Self)
        ensures
            r.wf(),
            r@.current == fallback_language@,
            r@.fallback == fallback_language@,
            forall|c: Seq<char>| #[trigger] r@.languages.contains_key(c) <==> has_code(languages@, c),
            forall|i: int|
                0 <= i < languages@.len() && (forall|j: int|
                    i < j < languages@.len() ==> languages@[j]@.short_name
                        != languages@[i]@.short_name) ==> #[trigger] r@.languages[languages@[i]@.short_name]
                    == languages@[i]@,
    {
        let ghost all = languages@;
        let mut rest = languages;
        let mut set = LanguageSet {
            current: fallback_language.to_owned(),
            fallback: fallback_language.to_owned(),
            languages: Vec::new(),
        };
        assert(set.languages@ =~= Seq::<Language>::empty());
        while rest.len() > 0
            invariant
                rest@.len() <= all.len(),
                rest@ == all.take(rest@.len() as int),
                set.wf(),
                set@.current == fallback_language@,
                set@.fallback == fallback_language@,
                forall|c: Seq<char>|
                    set@.languages.contains_key(c) <==> exists|i: int|
                        rest@.len() <= i < all.len() && #[trigger] all[i]@.short_name == c,
                forall|i: int|
                    rest@.len() <= i < all.len() && (forall|j: int|
                        i < j < all.len() ==> all[j]@.short_name != all[i]@.short_name)
                        ==> #[trigger] set@.languages[all[i]@.short_name] == all[i]@,
            decreases rest@.len(),
        {
            let ghost n = rest@.len() as int;
            let l = rest.pop().unwrap();
            assert(all.take(n)[n - 1] == all[n - 1]);
            assert(l == all[n - 1]);
            let code = l.short_name().to_owned();
            let ghost before = set@;
            if set.position(&code).is_none() {
                proof {
                    lemma_by_code_push(set.languages@, l);
                }
                set.languages.push(l);
                proof {
                    assert(!before.languages.contains_key(code@));
                    assert(set@.languages == before.languages.insert(code@, all[n - 1]@));
                }
            } else {
                proof {
                    assert(before.languages.contains_key(code@));
                }
            }
            proof {
                assert(set@.languages.dom() =~= before.languages.dom().insert(code@));
                assert forall|c: Seq<char>|
                    set@.languages.contains_key(c) <==> exists|i: int|
                        n - 1 <= i < all.len() && #[trigger] all[i]@.short_name == c by {
                    if c == code@ {
                        assert(all[n - 1]@.short_name == c);
                    } else if set@.languages.contains_key(c) {
                        assert(before.languages.contains_key(c));
                    }
                }
                assert forall|i: int|
                    n - 1 <= i < all.len() && (forall|j: int|
                        i < j < all.len() ==> all[j]@.short_name != all[i]@.short_name)
                        implies #[trigger] set@.languages[all[i]@.short_name] == all[i]@ by {
                    if i == n - 1 {
                        assert(!before.languages.contains_key(code@));
                    } else if before.languages.contains_key(code@) {
                    } else {
                        assert(all[i]@.short_name != code@);
                    }
                }
            }
            assert(rest@ =~= all.take(rest@.len() as int));
        }
        proof {
            assert forall|c: Seq<char>| set@.languages.contains_key(c) <==> has_code(all, c) by {
                if has_code(all, c) {
                    let i = choose|i: int| 0 <= i < all.len() && #[trigger] all[i]@.short_name == c;
                    assert(all[i]@.short_name == c);
                }
            }
        }
        set
    }

    /// List all supported languages
    pub fn all_languages(&self) -> (r: Vec<&Language>)
        requires
            self.wf(),
        ensures
            forall|i: int|
                0 <= i < r@.len() ==> self@.languages.contains_key(r@[i]@.short_name)
                    && self@.languages[r@[i]@.short_name] == r@[i]@,
            forall|c: Seq<char>|
                self@.languages.contains_key(c) ==> exists|i: int|
                    0 <= i < r@.len() && #[trigger] r@[i]@.short_name == c,
            forall|i: int, j: int|
                0 <= i < r@.len() && 0 <= j < r@.len() && i != j ==> r@[i]@.short_name
                    != r@[j]@.short_name,
    {
        let mut r: Vec<&Language> = Vec::new();
        let mut i: usize = 0;
        while i < self.languages.len()
            invariant
                self.wf(),
                i <= self.languages@.len(),
                r@.len() == i,
                forall|j: int| 0 <= j < i ==> r@[j] == &self.languages@[j],
            decreases self.languages@.len() - i,
        {
            r.push(&self.languages[i]);
            i += 1;
        }
        proof {
            assert forall|j: int| 0 <= j < r@.len() implies self@.languages.contains_key(
                r@[j]@.short_name,
            ) && self@.languages[r@[j]@.short_name] == r@[j]@ by {
                lemma_by_code_at(self.languages@, j);
            }
            assert forall|c: Seq<char>| self@.languages.contains_key(c) implies exists|j: int|
                0 <= j < r@.len() && #[trigger] r@[j]@.short_name == c by {
                let j = choose|j: int|
                    0 <= j < self.languages@.len() && #[trigger] self.languages@[j]@.short_name == c;
                assert(r@[j]@.short_name == c);
            }
        }
        r
    }

    /// Return the set's fallback language
    pub fn fallback_language(&self) -> (r: Option<&Language>)
        ensures
            match r {
                Some(l) => self@.languages.contains_key(self@.fallback) && self@.languages[self@.fallback] == l@,
                None => !self@.languages.contains_key(self@.fallback),
            },
    {
        self.language(&self.fallback)
    }

    /// Return the set's current language
    pub fn current_language(&self) -> (r: Option<&Language>)
        ensures
            match r {
                Some(l) => self@.languages.contains_key(self@.current) && self@.languages[self@.current] == l@,
                None => !self@.languages.contains_key(self@.current),
            },
    {
        self.language(&self.current)
    }

    /// Add a language to the set, in place of any language with its code
    ///
    /// # Arguments
    /// * `language` - New language
    pub fn add_language(&mut self, language: Language)
        requires
            old(self).wf(),
        ensures
            final(self).wf(),
            final(self)@ == (LanguageSetView {
                languages: old(self)@.languages.insert(language@.short_name, language@),
                ..old(self)@
            }),
    {
        let code = language.short_name().to_owned();
        match self.position(&code) {
            Some(i) => {
                proof {
                    lemma_by_code_update(self.languages@, i as int, language);
                }
                self.languages[i] = language;
            },
            None => {
                proof {
                    lemma_by_code_push(self.languages@, language);
                }
                self.languages.push(language);
            },
        }
    }

    /// Check the completeness of all language packs against the fallback:
    /// for each language, the flat keys that it has and the fallback lacks.
    /// Without a fallback language the report is empty.
    pub fn verify(&self) -> (r: Vec<(String, Vec<String>)>)
        requires
            self.wf(),
        ensures
            !self@.languages.contains_key(self@.fallback) ==> r@.len() == 0,
            self@.languages.contains_key(self@.fallback) ==> {
                &&& forall|i: int, j: int|
                    0 <= i < r@.len() && 0 <= j < r@.len() && i != j ==> r@[i].0@ != r@[j].0@
                &&& forall|c: Seq<char>|
                    self@.languages.contains_key(c) <==> exists|i: int|
                        0 <= i < r@.len() && #[trigger] r@[i].0@ == c
                &&& forall|i: int|
                    0 <= i < r@.len() ==> #[trigger] extra_keys(
                        r@[i].1@,
                        self@.languages[r@[i].0@].flat_keys(),
                        self@.languages[self@.fallback].flat_keys(),
                    )
            },
    {
        let mut report: Vec<(String, Vec<String>)> = Vec::new();
        let fallback = match self.fallback_language() {
            Some(l) => l,
            None => {
                return report;
            },
        };
        let fallback_flat = fallback.strings();
        let ghost fb = self@.languages[self@.fallback];
        let mut i: usize = 0;
        while i < self.languages.len()
            invariant
                self.wf(),
                i <= self.languages@.len(),
                report@.len() == i,
                self@.languages.contains_key(self@.fallback),
                fb == self@.languages[self@.fallback],
                flattened_table(fallback_flat@, fb.strings, None),
                forall|j: int|
                    0 <= j < i ==> #[trigger] report@[j].0@ == self.languages@[j]@.short_name,
                forall|j: int|
                    0 <= j < i ==> #[trigger] extra_keys(
                        report@[j].1@,
                        self.languages@[j]@.flat_keys(),
                        fb.flat_keys(),
                    ),
            decreases self.languages@.len() - i,
        {
            let lang = &self.languages[i];
            let flat = lang.strings();
            let keys = keys_missing_from(&flat, &fallback_flat);
            proof {
                assert forall|k: Seq<char>| #[trigger]
                    listed(keys@, k) <==> (lang@.flat_keys().contains(k) && !fb.flat_keys().contains(
                        k,
                    )) by {
                    lemma_flat_keys(flat@, lang@, k);
                    lemma_flat_keys(fallback_flat@, fb, k);
                    assert(listed(keys@, k) <==> (has_flat_key(flat@, k) && !has_flat_key(fallback_flat@, k)));
                }
                assert(extra_keys(keys@, lang@.flat_keys(), fb.flat_keys()));
            }
            let ghost before = report@;
            report.push((lang.short_name().to_owned(), keys));
            proof {
                assert forall|j: int| 0 <= j < i + 1 implies #[trigger] extra_keys(
                    report@[j].1@,
                    self.languages@[j]@.flat_keys(),
                    fb.flat_keys(),
                ) by {
                    if j < i {
                        assert(report@[j] == before[j]);
                    }
                }
                assert forall|j: int| 0 <= j < i + 1 implies #[trigger] report@[j].0@
                    == self.languages@[j]@.short_name by {
                    if j < i {
                        assert(report@[j] == before[j]);
                    }
                }
            }
            i += 1;
        }
        proof {
            assert forall|a: int, b: int|
                0 <= a < report@.len() && 0 <= b < report@.len() && a != b implies report@[a].0@
                != report@[b].0@ by {
                assert(report@[a].0@ == self.languages@[a]@.short_name);
                assert(report@[b].0@ == self.languages@[b]@.short_name);
            }
            assert forall|c: Seq<char>|
                self@.languages.contains_key(c) <==> exists|j: int|
                    0 <= j < report@.len() && #[trigger] report@[j].0@ == c by {
                if self@.languages.contains_key(c) {
                    let j = choose|j: int|
                        0 <= j < self.languages@.len() && #[trigger] self.languages@[j]@.short_name
                            == c;
                    assert(report@[j].0@ == c);
                }
                if exists|j: int| 0 <= j < report@.len() && #[trigger] report@[j].0@ == c {
                    let j = choose|j: int| 0 <= j < report@.len() && #[trigger] report@[j].0@ == c;
                    assert(self.languages@[j]@.short_name == c);
                }
            }
            assert forall|j: int| 0 <= j < report@.len() implies #[trigger] extra_keys(
                report@[j].1@,
                self@.languages[report@[j].0@].flat_keys(),
                self@.languages[self@.fallback].flat_keys(),
            ) by {
                assert(report@[j].0@ == self.languages@[j]@.short_name);
                lemma_by_code_at(self.languages@, j);
            }
        }
        report
    }

    /// Set the fallback language for lookups
    ///
    /// # Arguments
    /// * `language` - New language
    ///
    /// returns false if the language code is not recognized
    pub fn set_fallback_language(&mut self, language: &str) -> (r: bool)
        requires
            old(self).wf(),
        ensures
            final(self).wf(),
            r == old(self)@.languages.contains_key(language@),
            r ==> final(self)@ == (LanguageSetView { fallback: language@, ..old(self)@ }),
            !r ==> final(self)@ == old(self)@,
    {
        let code = language.to_owned();
        if self.position(&code).is_some() {
            self.fallback = code;
            true
        } else {
            false
        }
    }

    /// Set the current language for lookups
    ///
    /// # Arguments
    /// * `language` - New language
    ///
    /// returns false if the language code is not recognized
    pub fn set_language(&mut self, language: &str) -> (r: bool)
        requires
            old(self).wf(),
        ensures
            final(self).wf(),
            r == old(self)@.languages.contains_key(language@),
            r ==> final(self)@ == (LanguageSetView { current: language@, ..old(self)@ }),
            !r ==> final(self)@ == old(self)@,
    {
        let code = language.to_owned();
        if self.position(&code).is_some() {
            self.current = code;
            true
        } else {
            false
        }
    }

    /// Look up a string in a specific language
    ///
    /// # Arguments
    /// * `language` - Language to search
    /// * `name` - String to find
    pub fn get_from_lang(&self, language: &str, name: &str) -> (r: Option<&str>)
        ensures
            opt_str_view(r) == self@.lookup_in(language@, name@),
    {
        match self.language(&language.to_owned()) {
            Some(lang) => lang.get(name),
            None => None,
        }
    }

    /// Look up a string in the current language, then in the fallback language
    ///
    /// # Arguments
    /// * `name` - String to find
    pub fn get(&self, name: &str) -> (r: Option<&str>)
        ensures
            opt_str_view(r) == self@.resolve(name@),
    {
        let found = match self.current_language() {
            Some(lang) => lang.get(name),
            None => None,
        };
        match found {
            Some(s) => Some(s),
            None => match self.fallback_language() {
                Some(lang) => lang.get(name),
                None => None,
            },
        }
    }

    /// Look up a string; a missing string gives the empty string
    pub fn get_or_empty(&self, name: &str) -> (r: &str)
        ensures
            r@ == match self@.resolve(name@) {
                Some(s) => s,
                None => Seq::empty(),
            },
    {
        match self.get(name) {
            Some(s) => s,
            None => {
                proof {
                    reveal_strlit("");
                }
                ""
            },
        }
    }

    /// Return an embedded resource as a utf8 string, from the current
    /// language, else from the fallback language
    pub fn utf8_resource(&self, name: &str) -> (r: Option<&str>)
        ensures
            opt_str_bytes(r) == self@.resolve_text(name@),
    {
        let found = match self.current_language() {
            Some(lang) => lang.utf8_resource(name),
            None => None,
        };
        match found {
            Some(s) => Some(s),
            None => match self.fallback_language() {
                Some(lang) => lang.utf8_resource(name),
                None => None,
            },
        }
    }

    /// Return an embedded resource as a slice of bytes, from the current
    /// language, else from the fallback language
    pub fn binary_resource(&self, name: &str) -> (r: Option<&[u8]>)
        ensures
            opt_bytes(r) == self@.resolve_resource(name@),
    {
        let found = match self.current_language() {
            Some(lang) => lang.binary_resource(name),
            None => None,
        };
        match found {
            Some(b) => Some(b),
            None => match self.fallback_language() {
                Some(lang) => lang.binary_resource(name),
                None => None,
            },
        }
    }
}

impl std::ops::Index<&str> for LanguageSet {
    type Output = str;

    /// Look up a string; a missing string gives the empty string
    fn index(&self, name: &str) -> &str {
        self.get_or_empty(name)
    }
}

/// Where the current language is the fallback language, a lookup is a
/// lookup in that one language.
pub proof fn lemma_same_current_and_fallback(set: LanguageSetView, name: Seq<char>)
    requires
        set.current == set.fallback,
    ensures
        set.resolve(name) == set.lookup_in(set.current, name),
{
}

/// A lookup tries the current language first: its string wins wherever it
/// has one, and the fallback language answers only where it has none.
pub proof fn lemma_current_before_fallback(set: LanguageSetView, name: Seq<char>)
    ensures
        set.lookup_in(set.current, name) is Some ==> set.resolve(name) == set.lookup_in(
            set.current,
            name,
        ),
        set.lookup_in(set.current, name) is None ==> set.resolve(name) == set.lookup_in(
            set.fallback,
            name,
        ),
{
}

} // verus!
