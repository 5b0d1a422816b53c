use vstd::prelude::*;
use vstd::string::StrSliceExecFns;
use vstd::string::StringExecFns;

verus! {

/// The character that joins nested keys into one flat key.
pub const SEPARATOR: char = '\\';

/// One node of a translation table: a string, or a named group of nodes.
///
/// A group is an association list; when a key occurs twice in one group,
/// the first occurrence is the one that counts.
#[derive(Debug)]
pub enum LanguageStringObject {
    /// A string endpoint
    Direct(String),
    /// A named group of nodes, one step further down a path
    Category(Vec<(String, LanguageStringObject)>),
}

/// `k` is the first position in `entries` whose key is `key`.
pub open spec fn first_with_key<V>(entries: Seq<(String, V)>, key: Seq<char>, k: int) -> bool {
    &&& 0 <= k < entries.len()
    &&& entries[k].0@ == key
    &&& forall|j: int| 0 <= j < k ==> entries[j].0@ != key
}

/// The value stored under `key` in an association list.
pub open spec fn entry_of<V>(entries: Seq<(String, V)>, key: Seq<char>) -> Option<V> {
    if exists|k: int| first_with_key(entries, key, k) {
        Some(entries[choose|k: int| first_with_key(entries, key, k)].1)
    } else {
        None
    }
}

/// The string reached from `node` by following `path`: a string counts only
/// where the path ends on it, and a group is never a result.
pub open spec fn node_lookup(node: LanguageStringObject, path: Seq<Seq<char>>) -> Option<Seq<char>>
    decreases path.len(),
{
    match node {
        LanguageStringObject::Direct(s) => if path.len() == 0 {
            Some(s@)
        } else {
            None
        },
        LanguageStringObject::Category(c) => if path.len() == 0 {
            None
        } else {
            match entry_of(c@, path[0]) {
                Some(child) => node_lookup(child, path.drop_first()),
                None => None,
            }
        },
    }
}

/// The string reached from a table of top-level entries by following `path`.
pub open spec fn table_lookup(
    entries: Seq<(String, LanguageStringObject)>,
    path: Seq<Seq<char>>,
) -> Option<Seq<char>> {
    if path.len() == 0 {
        None
    } else {
        match entry_of(entries, path[0]) {
            Some(child) => node_lookup(child, path.drop_first()),
            None => None,
        }
    }
}

/// The flat key of a path: its segments joined by the separator.
pub open spec fn join_path(path: Seq<Seq<char>>) -> Seq<char>
    decreases path.len(),
{
    if path.len() == 0 {
        Seq::empty()
    } else if path.len() == 1 {
        path[0]
    } else {
        path[0] + seq![SEPARATOR] + join_path(path.drop_first())
    }
}

/// No segment of `path` holds the separator.
pub open spec fn plain_path(path: Seq<Seq<char>>) -> bool {
    forall|i: int, j: int| 0 <= i < path.len() && 0 <= j < path[i].len() ==> path[i][j] != SEPARATOR
}

/// The path that a flat key names: the segments between separators.
pub open spec fn path_of(key: Seq<char>) -> Seq<Seq<char>> {
    choose|p: Seq<Seq<char>>| p.len() > 0 && plain_path(p) && join_path(p) == key
}

/// The path below an optional prefix segment.
pub open spec fn prefixed(root: Option<Seq<char>>, path: Seq<Seq<char>>) -> Seq<Seq<char>> {
    match root {
        Some(k) => seq![k] + path,
        None => path,
    }
}

/// `pair` is a string of the table `entries` below `root`, under its flat key.
pub open spec fn table_holds(
    entries: Seq<(String, LanguageStringObject)>,
    root: Option<Seq<char>>,
    pair: (String, String),
) -> bool {
    exists|p: Seq<Seq<char>>|
        #[trigger] table_lookup(entries, p) == Some(pair.1@) && join_path(prefixed(root, p))
            == pair.0@
}

/// `pair` is a string of `node`, stored under `own_key`, under its flat key.
pub open spec fn node_holds(node: LanguageStringObject, own_key: Seq<char>, pair: (String, String)) -> bool {
    exists|p: Seq<Seq<char>>|
        #[trigger] node_lookup(node, p) == Some(pair.1@) && join_path(seq![own_key] + p) == pair.0@
}

/// Some pair of `flat` is `(key, value)`.
pub open spec fn flat_has(flat: Seq<(String, String)>, key: Seq<char>, value: Seq<char>) -> bool {
    exists|i: int| 0 <= i < flat.len() && #[trigger] flat[i].0@ == key && flat[i].1@ == value
}

/// `flat` is the flat view of `entries` below `root`: every pair in it is a
/// string of the table under its flat key, and every string of the table
/// stands in it under its flat key.
pub open spec fn flattened_table(
    flat: Seq<(String, String)>,
    entries: Seq<(String, LanguageStringObject)>,
    root: Option<Seq<char>>,
) -> bool {
    &&& forall|i: int| 0 <= i < flat.len() ==> #[trigger] table_holds(entries, root, flat[i])
    &&& forall|p: Seq<Seq<char>>| #[trigger]
        table_lookup(entries, p) is Some ==> flat_has(
            flat,
            join_path(prefixed(root, p)),
            table_lookup(entries, p)->0,
        )
}

/// `flat` is the flat view of `node` stored under `own_key`.
pub open spec fn flattened_node(
    flat: Seq<(String, String)>,
    node: LanguageStringObject,
    own_key: Seq<char>,
) -> bool {
    &&& forall|i: int| 0 <= i < flat.len() ==> #[trigger] node_holds(node, own_key, flat[i])
    &&& forall|p: Seq<Seq<char>>| #[trigger]
        node_lookup(node, p) is Some ==> flat_has(
            flat,
            join_path(seq![own_key] + p),
            node_lookup(node, p)->0,
        )
}

/// Only the first position with a key counts for that key.
pub proof fn lemma_entry_of_first<V>(entries: Seq<(String, V)>, key: Seq<char>, k: int)
    requires
        first_with_key(entries, key, k),
    ensures
        entry_of(entries, key) == Some(entries[k].1),
{
    let c = choose|c: int| first_with_key(entries, key, c);
    assert(c == k) by {
        if c < k {
            assert(entries[c].0@ != key);
        } else if k < c {
            assert(entries[k].0@ != key);
        }
    }
}

/// A key found in an association list has a first position.
pub proof fn lemma_entry_of_some<V>(entries: Seq<(String, V)>, key: Seq<char>, k: int)
    requires
        0 <= k < entries.len(),
        entries[k].0@ == key,
    ensures
        exists|f: int| 0 <= f <= k && first_with_key(entries, key, f),
    decreases k,
{
    if exists|j: int| 0 <= j < k && entries[j].0@ == key {
        let j = choose|j: int| 0 <= j < k && entries[j].0@ == key;
        lemma_entry_of_some(entries, key, j);
    } else {
        assert(first_with_key(entries, key, k));
    }
}

/// Joining a prefix segment with a path gives the flat key of the path below the prefix.
pub proof fn lemma_join_under(root: Option<Seq<char>>, key: Seq<char>, rest: Seq<Seq<char>>)
    ensures
        join_path(seq![join_path(prefixed(root, seq![key]))] + rest) == join_path(
            prefixed(root, seq![key] + rest),
        ),
{
    match root {
        Some(r) => {
            let a = seq![r, key];
            assert(prefixed(root, seq![key]) =~= a);
            assert(a.drop_first() =~= seq![key]);
            assert(join_path(seq![key]) == key);
            assert(join_path(a) == r + seq![SEPARATOR] + key);
            let full = seq![r] + (seq![key] + rest);
            assert(prefixed(root, seq![key] + rest) == full);
            assert(full.drop_first() =~= seq![key] + rest);
            let left = seq![r + seq![SEPARATOR] + key] + rest;
            assert(left.drop_first() =~= rest);
            assert((seq![key] + rest).drop_first() =~= rest);
            if rest.len() == 0 {
                assert(left =~= seq![r + seq![SEPARATOR] + key]);
                assert(seq![key] + rest =~= seq![key]);
            } else {
                assert(join_path(left) == (r + seq![SEPARATOR] + key) + seq![SEPARATOR] + join_path(
                    rest,
                ));
                assert(join_path(seq![key] + rest) == key + seq![SEPARATOR] + join_path(rest));
                assert(join_path(full) == r + seq![SEPARATOR] + join_path(seq![key] + rest));
                assert(join_path(left) =~= join_path(full));
            }
        },
        None => {
            assert(prefixed(root, seq![key]) =~= seq![key]);
        },
    }
}

/// Returns whether a position before `i` holds the same key as position `i`.
fn key_before<V>(entries: &Vec<(String, V)>, i: usize) -> (r: bool)
    requires
        i < entries@.len(),
    ensures
        r == exists|j: int| 0 <= j < i && entries@[j].0@ == entries@[i as int].0@,
{
    let mut j: usize = 0;
    while j < i
        invariant
            j <= i < entries@.len(),
            forall|m: int| 0 <= m < j ==> entries@[m].0@ != entries@[i as int].0@,
        decreases i - j,
    {
        if entries[j].0 == entries[i].0 {
            return true;
        }
        j += 1;
    }
    false
}

/// The position of the first entry under `key`, if any.
pub fn find_key<V>(entries: &Vec<(String, V)>, key: &str) -> (r: Option<usize>)
    ensures
        match r {
            Some(k) => first_with_key(entries@, key@, k as int),
            None => entry_of(entries@, key@) is None,
        },
{
    let wanted = key.to_owned();
    let mut j: usize = 0;
    while j < entries.len()
        invariant
            j <= entries@.len(),
            wanted@ == key@,
            forall|m: int| 0 <= m < j ==> entries@[m].0@ != key@,
        decreases entries@.len() - j,
    {
        if entries[j].0 == wanted {
            return Some(j);
        }
        j += 1;
    }
    assert(!exists|k: int| first_with_key(entries@, key@, k));
    None
}

impl LanguageStringObject {
    /// Flatten a LanguageStringObject tree into a flat object
    pub fn flatten(&self, own_key: &str) -> (r: Vec<(String, String)>)
        ensures
            flattened_node(r@, *self, own_key@),
        decreases self,
    {
        match self {
            LanguageStringObject::Direct(s) => {
                let r = vec![(own_key.to_owned(), s.clone())];
                proof {
                    let p0 = Seq::<Seq<char>>::empty();
                    assert(seq![own_key@] + p0 =~= seq![own_key@]);
                    assert(node_lookup(*self, p0) == Some(r@[0].1@));
                    assert(node_holds(*self, own_key@, r@[0]));
                    assert forall|p: Seq<Seq<char>>| #[trigger]
                        node_lookup(*self, p) is Some implies flat_has(
                        r@,
                        join_path(seq![own_key@] + p),
                        node_lookup(*self, p)->0,
                    ) by {
                        assert(p =~= p0);
                        assert(r@[0].0@ == join_path(seq![own_key@] + p));
                    }
                }
                r
            },
            LanguageStringObject::Category(c) => {
                let r = Self::flatten_all(c, Some(own_key));
                proof {
                    assert forall|p: Seq<Seq<char>>|
                        node_lookup(*self, p) == table_lookup(c@, p) by {}
                    assert forall|i: int| 0 <= i < r@.len() implies #[trigger] node_holds(
                        *self,
                        own_key@,
                        r@[i],
                    ) by {
                        assert(table_holds(c@, Some(own_key@), r@[i]));
                        let p = choose|p: Seq<Seq<char>>|
                            #[trigger] table_lookup(c@, p) == Some(r@[i].1@) && join_path(
                                prefixed(Some(own_key@), p),
                            ) == r@[i].0@;
                        assert(node_lookup(*self, p) == table_lookup(c@, p));
                    }
                    assert forall|p: Seq<Seq<char>>| #[trigger]
                        node_lookup(*self, p) is Some implies flat_has(
                        r@,
                        join_path(seq![own_key@] + p),
                        node_lookup(*self, p)->0,
                    ) by {
                        assert(node_lookup(*self, p) == table_lookup(c@, p));
                    }
                }
                r
            },
        }
    }

    /// Flatten every entry of a table; with a root key, each flat key starts
    /// with that key and the separator.
    pub fn flatten_all(c: &Vec<(String, LanguageStringObject)>, root_key: Option<&str>) -> (r: Vec<
        (String, String),
    >)
        ensures
            flattened_table(r@, c@, opt_str_view(root_key)),
        decreases c,
    {
        let ghost root = opt_str_view(root_key);
        let mut map: Vec<(String, String)> = Vec::new();
        let mut i: usize = 0;
        while i < c.len()
            invariant
                i <= c@.len(),
                root == opt_str_view(root_key),
                forall|m: int| 0 <= m < map@.len() ==> #[trigger] table_holds(c@, root, map@[m]),
                forall|p: Seq<Seq<char>>| #[trigger]
                    table_lookup(c@, p) is Some && (exists|k: int|
                        0 <= k < i && first_with_key(c@, p[0], k)) ==> flat_has(
                        map@,
                        join_path(prefixed(root, p)),
                        table_lookup(c@, p)->0,
                    ),
            decreases c@.len() - i,
        {
            if !key_before(c, i) {
                let key = match root_key {
                    Some(r) => {
                        let mut k = r.to_owned();
                        k.append("\\");
                        k.append(c[i].0.as_str());
                        k
                    },
                    None => c[i].0.clone(),
                };
                proof {
                    reveal_strlit("\\");
                    let ki = c@[i as int].0@;
                    let a = prefixed(root, seq![ki]);
                    assert(join_path(seq![ki]) == ki);
                    match root {
                        Some(rv) => {
                            assert(a.drop_first() =~= seq![ki]);
                            assert(join_path(a) == rv + seq![SEPARATOR] + ki);
                            assert(key@ =~= join_path(a));
                        },
                        None => {
                            assert(a =~= seq![ki]);
                        },
                    }
                    assert(key@ == join_path(a));
                }
                let ghost old_map = map@;
                let mut sub = c[i].1.flatten(key.as_str());
                let ghost sub_seq = sub@;
                map.append(&mut sub);
                proof {
                    let ki = c@[i as int].0@;
                    let child = c@[i as int].1;
                    assert(first_with_key(c@, ki, i as int));
                    lemma_entry_of_first(c@, ki, i as int);
                    assert forall|m: int| 0 <= m < map@.len() implies #[trigger] table_holds(
                        c@,
                        root,
                        map@[m],
                    ) by {
                        if m >= old_map.len() {
                            let pair = sub_seq[m - old_map.len()];
                            assert(map@[m] == pair);
                            assert(node_holds(child, key@, pair));
                            let q = choose|q: Seq<Seq<char>>|
                                #[trigger] node_lookup(child, q) == Some(pair.1@) && join_path(
                                    seq![key@] + q,
                                ) == pair.0@;
                            let p = seq![ki] + q;
                            assert(p.drop_first() =~= q);
                            lemma_join_under(root, ki, q);
                            assert(table_lookup(c@, p) == Some(pair.1@));
                        } else {
                            assert(map@[m] == old_map[m]);
                        }
                    }
                    assert forall|p: Seq<Seq<char>>| #[trigger]
                        table_lookup(c@, p) is Some && (exists|k: int|
                            0 <= k < i + 1 && first_with_key(c@, p[0], k)) implies flat_has(
                        map@,
                        join_path(prefixed(root, p)),
                        table_lookup(c@, p)->0,
                    ) by {
                        let k = choose|k: int| 0 <= k < i + 1 && first_with_key(c@, p[0], k);
                        if k < i {
                            let n = choose|n: int|
                                0 <= n < old_map.len() && #[trigger] old_map[n].0@ == join_path(
                                    prefixed(root, p),
                                ) && old_map[n].1@ == table_lookup(c@, p)->0;
                            assert(map@[n] == old_map[n]);
                        } else {
                            if p[0] != ki {
                                assert(first_with_key(c@, p[0], i as int));
                            }
                            let q = p.drop_first();
                            assert(p =~= seq![ki] + q);
                            assert(node_lookup(child, q) == table_lookup(c@, p));
                            lemma_join_under(root, ki, q);
                            let n = choose|n: int|
                                0 <= n < sub_seq.len() && #[trigger] sub_seq[n].0@ == join_path(
                                    seq![key@] + q,
                                ) && sub_seq[n].1@ == node_lookup(child, q)->0;
                            assert(map@[old_map.len() + n] == sub_seq[n]);
                        }
                    }
                }
            } else {
                proof {
                    assert forall|p: Seq<Seq<char>>| #[trigger]
                        table_lookup(c@, p) is Some && (exists|k: int|
                            0 <= k < i + 1 && first_with_key(c@, p[0], k)) implies flat_has(
                        map@,
                        join_path(prefixed(root, p)),
                        table_lookup(c@, p)->0,
                    ) by {
                        let k = choose|k: int| 0 <= k < i + 1 && first_with_key(c@, p[0], k);
                        if k == i {
                            let j = choose|j: int|
                                0 <= j < i && c@[j].0@ == c@[i as int].0@;
                            assert(c@[j].0@ != p[0]);
                        }
                    }
                }
            }
            i += 1;
        }
        proof {
            assert forall|p: Seq<Seq<char>>| #[trigger]
                table_lookup(c@, p) is Some implies flat_has(
                map@,
                join_path(prefixed(root, p)),
                table_lookup(c@, p)->0,
            ) by {
                let k = choose|k: int| first_with_key(c@, p[0], k);
                assert(0 <= k < i);
            }
        }
        map
    }
}

/// The view of an optional string.
pub open spec fn opt_str_view(s: Option<&str>) -> Option<Seq<char>> {
    match s {
        Some(t) => Some(t@),
        None => None,
    }
}

/// The views of a sequence of strings.
pub open spec fn seg_views(segs: Seq<String>) -> Seq<Seq<char>> {
    segs.map_values(|s: String| s@)
}

/// Different paths whose segments hold no separator have different flat keys.
pub proof fn lemma_join_injective(a: Seq<Seq<char>>, b: Seq<Seq<char>>)
    requires
        a.len() > 0,
        b.len() > 0,
        plain_path(a),
        plain_path(b),
        join_path(a) == join_path(b),
    ensures
        a == b,
    decreases a.len(),
{
    let a0 = a[0];
    let b0 = b[0];
    let ja = join_path(a);
    let jb = join_path(b);
    let n = a0.len() as int;
    let m = b0.len() as int;
    assert(n <= ja.len());
    assert(m <= jb.len());
    if n < m {
        assert(jb[n] == b0[n]);
        assert(b[0][n] != SEPARATOR);
        if a.len() > 1 {
            assert(ja[n] == SEPARATOR);
        }
        assert(false);
    } else if m < n {
        assert(ja[m] == a0[m]);
        assert(a[0][m] != SEPARATOR);
        if b.len() > 1 {
            assert(jb[m] == SEPARATOR);
        }
        assert(false);
    } else {
        assert(a0 =~= ja.subrange(0, n));
        assert(b0 =~= jb.subrange(0, n));
        if a.len() == 1 && b.len() == 1 {
            assert(a =~= b);
        } else if a.len() == 1 {
            assert(jb.len() > n);
        } else if b.len() == 1 {
            assert(ja.len() > n);
        } else {
            let ra = a.drop_first();
            let rb = b.drop_first();
            assert(join_path(ra) =~= ja.subrange(n + 1, ja.len() as int));
            assert(join_path(rb) =~= jb.subrange(n + 1, jb.len() as int));
            assert forall|i: int, j: int| 0 <= i < ra.len() && 0 <= j < ra[i].len() implies ra[i][j]
                != SEPARATOR by {
                assert(ra[i] == a[i + 1]);
            }
            assert forall|i: int, j: int| 0 <= i < rb.len() && 0 <= j < rb[i].len() implies rb[i][j]
                != SEPARATOR by {
                assert(rb[i] == b[i + 1]);
            }
            lemma_join_injective(ra, rb);
            assert(a =~= b) by {
                assert forall|i: int| 0 <= i < a.len() implies a[i] == b[i] by {
                    if i > 0 {
                        assert(a[i] == ra[i - 1]);
                        assert(b[i] == rb[i - 1]);
                    }
                }
            }
        }
    }
}

/// Adding a segment at the end of a path adds the separator and the segment to its key.
pub proof fn lemma_join_push(p: Seq<Seq<char>>, x: Seq<char>)
    requires
        p.len() > 0,
    ensures
        join_path(p.push(x)) == join_path(p) + seq![SEPARATOR] + x,
    decreases p.len(),
{
    let q = p.push(x);
    assert(q.drop_first() =~= p.drop_first().push(x));
    if p.len() == 1 {
        assert(q.drop_first() =~= seq![x]);
        assert(join_path(seq![x]) == x);
        assert(join_path(q) =~= join_path(p) + seq![SEPARATOR] + x);
    } else {
        lemma_join_push(p.drop_first(), x);
        assert(join_path(q) =~= join_path(p) + seq![SEPARATOR] + x);
    }
}

/// A plain nonempty path is the path that its own flat key names.
pub proof fn lemma_path_of_join(p: Seq<Seq<char>>)
    requires
        p.len() > 0,
        plain_path(p),
    ensures
        path_of(join_path(p)) == p,
{
    let q = path_of(join_path(p));
    assert(q.len() > 0 && plain_path(q) && join_path(q) == join_path(p));
    lemma_join_injective(q, p);
}

/// Splits a flat key at each separator.
pub fn split_key(name: &str) -> (r: Vec<String>)
    ensures
        r@.len() > 0,
        plain_path(seg_views(r@)),
        join_path(seg_views(r@)) == name@,
        seg_views(r@) == path_of(name@),
{
    let n = name.unicode_len();
    let mut segs: Vec<String> = Vec::new();
    let mut start: usize = 0;
    let mut i: usize = 0;
    while i < n
        invariant
            start <= i <= n,
            n == name@.len(),
            plain_path(seg_views(segs@)),
            forall|j: int| start <= j < i ==> name@[j] != SEPARATOR,
            segs@.len() == 0 ==> start == 0,
            segs@.len() > 0 ==> join_path(seg_views(segs@)) + seq![SEPARATOR] == name@.subrange(
                0,
                start as int,
            ),
        decreases n - i,
    {
        if name.get_char(i) == '\\' {
            let seg = name.substring_char(start, i).to_owned();
            let ghost old_segs = seg_views(segs@);
            segs.push(seg);
            proof {
                assert(seg_views(segs@) =~= old_segs.push(seg@));
                if old_segs.len() > 0 {
                    lemma_join_push(old_segs, seg@);
                } else {
                    assert(seg_views(segs@) =~= seq![seg@]);
                }
                assert(join_path(seg_views(segs@)) + seq![SEPARATOR] =~= name@.subrange(
                    0,
                    i + 1,
                ));
                assert forall|a: int, b: int|
                    0 <= a < seg_views(segs@).len() && 0 <= b < seg_views(segs@)[a].len() implies seg_views(
                    segs@,
                )[a][b] != SEPARATOR by {
                    if a < old_segs.len() {
                        assert(seg_views(segs@)[a] == old_segs[a]);
                    } else {
                        assert(seg_views(segs@)[a][b] == name@[start + b]);
                    }
                }
            }
            start = i + 1;
        }
        i += 1;
    }
    let last = name.substring_char(start, n).to_owned();
    let ghost old_segs = seg_views(segs@);
    segs.push(last);
    proof {
        assert(seg_views(segs@) =~= old_segs.push(last@));
        if old_segs.len() > 0 {
            lemma_join_push(old_segs, last@);
        } else {
            assert(seg_views(segs@) =~= seq![last@]);
        }
        assert(join_path(seg_views(segs@)) =~= name@);
        assert forall|a: int, b: int|
            0 <= a < seg_views(segs@).len() && 0 <= b < seg_views(segs@)[a].len() implies seg_views(
            segs@,
        )[a][b] != SEPARATOR by {
            if a < old_segs.len() {
                assert(seg_views(segs@)[a] == old_segs[a]);
            } else {
                assert(seg_views(segs@)[a][b] == name@[start + b]);
            }
        }
        lemma_path_of_join(seg_views(segs@));
    }
    segs
}

/// Looks up a flat key in a table by walking its path; walking into a string
/// before the path ends, or ending on a group, is a miss.
pub fn table_get<'a>(entries: &'a Vec<(String, LanguageStringObject)>, name: &str) -> (r: Option<
    &'a str,
>)
    ensures
        opt_str_view(r) == table_lookup(entries@, path_of(name@)),
{
    let segs = split_key(name);
    let ghost path = seg_views(segs@);
    let mut cur: &'a Vec<(String, LanguageStringObject)> = entries;
    let mut k: usize = 0;
    assert(path.skip(0) =~= path);
    loop
        invariant
            k < segs@.len(),
            path == seg_views(segs@),
            path == path_of(name@),
            table_lookup(entries@, path) == table_lookup(cur@, path.skip(k as int)),
        decreases segs@.len() - k,
    {
        let ghost q = path.skip(k as int);
        assert(q[0] == segs@[k as int]@);
        match find_key(cur, segs[k].as_str()) {
            None => {
                return None;
            },
            Some(idx) => {
                proof {
                    lemma_entry_of_first(cur@, q[0], idx as int);
                }
                match &cur[idx].1 {
                    LanguageStringObject::Direct(s) => {
                        if k == segs.len() - 1 {
                            assert(q.drop_first().len() == 0);
                            return Some(s.as_str());
                        } else {
                            return None;
                        }
                    },
                    LanguageStringObject::Category(c) => {
                        if k == segs.len() - 1 {
                            assert(q.drop_first().len() == 0);
                            return None;
                        } else {
                            assert(q.drop_first() =~= path.skip(k + 1));
                            cur = c;
                            k += 1;
                        }
                    },
                }
            },
        }
    }
}

/// Looking up the flat key of a leaf's path in the flat view of a table gives
/// that leaf's string, and so does looking the flat key up in the table,
/// provided that no key on a path to a string holds the separator.
pub proof fn lemma_flatten_agrees_with_lookup(
    entries: Seq<(String, LanguageStringObject)>,
    flat: Seq<(String, String)>,
    path: Seq<Seq<char>>,
)
    requires
        flattened_table(flat, entries, None),
        table_lookup(entries, path) is Some,
        forall|q: Seq<Seq<char>>| #[trigger] table_lookup(entries, q) is Some ==> plain_path(q),
    ensures
        table_lookup(entries, path_of(join_path(path))) == table_lookup(entries, path),
        flat_has(flat, join_path(path), table_lookup(entries, path)->0),
        forall|i: int|
            0 <= i < flat.len() && #[trigger] flat[i].0@ == join_path(path) ==> Some(flat[i].1@)
                == table_lookup(entries, path),
{
    assert(prefixed(None, path) == path);
    lemma_path_of_join(path);
    assert forall|i: int|
        0 <= i < flat.len() && #[trigger] flat[i].0@ == join_path(path) implies Some(flat[i].1@)
        == table_lookup(entries, path) by {
        assert(table_holds(entries, None, flat[i]));
        let q = choose|q: Seq<Seq<char>>|
            #[trigger] table_lookup(entries, q) == Some(flat[i].1@) && join_path(prefixed(None, q))
                == flat[i].0@;
        assert(prefixed(None, q) == q);
        lemma_join_injective(q, path);
    }
}

/// Distinct paths to strings of one table stand in its flat view under
/// distinct flat keys, provided that their keys hold no separator.
pub proof fn lemma_flatten_keys_distinct(
    entries: Seq<(String, LanguageStringObject)>,
    flat: Seq<(String, String)>,
    p1: Seq<Seq<char>>,
    p2: Seq<Seq<char>>,
)
    requires
        flattened_table(flat, entries, None),
        table_lookup(entries, p1) is Some,
        table_lookup(entries, p2) is Some,
        p1 != p2,
        plain_path(p1),
        plain_path(p2),
    ensures
        join_path(p1) != join_path(p2),
        flat_has(flat, join_path(p1), table_lookup(entries, p1)->0),
        flat_has(flat, join_path(p2), table_lookup(entries, p2)->0),
{
    assert(prefixed(None, p1) == p1);
    assert(prefixed(None, p2) == p2);
    if join_path(p1) == join_path(p2) {
        lemma_join_injective(p1, p2);
    }
}

/// A path that ends on a string reaches nothing when it goes on.
proof fn lemma_node_no_string_beyond_string(
    node: LanguageStringObject,
    path: Seq<Seq<char>>,
    more: Seq<Seq<char>>,
)
    requires
        node_lookup(node, path) is Some,
        more.len() > 0,
    ensures
        node_lookup(node, path + more) is None,
    decreases path.len(),
{
    if path.len() > 0 {
        let full = path + more;
        assert(full[0] == path[0]);
        assert(full.drop_first() =~= path.drop_first() + more);
        if let LanguageStringObject::Category(c) = node {
            let child = entry_of(c@, path[0])->0;
            lemma_node_no_string_beyond_string(child, path.drop_first(), more);
        }
    } else {
        assert(path + more =~= more);
    }
}

/// A lookup whose path walks through a string before it ends is a miss: the
/// string is not the result of the longer path.
pub proof fn lemma_no_string_beyond_string(
    entries: Seq<(String, LanguageStringObject)>,
    path: Seq<Seq<char>>,
    more: Seq<Seq<char>>,
)
    requires
        table_lookup(entries, path) is Some,
        more.len() > 0,
    ensures
        table_lookup(entries, path + more) is None,
{
    let full = path + more;
    assert(full[0] == path[0]);
    assert(full.drop_first() =~= path.drop_first() + more);
    let child = entry_of(entries, path[0])->0;
    lemma_node_no_string_beyond_string(child, path.drop_first(), more);
}

} // verus!
