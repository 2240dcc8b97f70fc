//! Ordered byte maps on disk.
//!
//! A `sled::Tree` is an ordered map from byte strings to byte strings. What a
//! handle's tree holds is named by [`tree_entries`]; the functions below say
//! what each call does to it. The claims are those of a tree that one handle
//! alone writes to: the store opens each of its trees once, keeps the handles
//! private and never clones them. Where the database reports a failure, nothing
//! is claimed of what a tree holds afterwards.

use vstd::prelude::*;

use crate::bytes::{
    lemma_lex_antisymmetric, lemma_lex_irreflexive, lemma_lex_total, lemma_lex_transitive, lex_le,
    lex_lt,
};

verus! {

/// The database that the trees belong to.
#[verifier::external_type_specification]
#[verifier::external_body]
pub struct ExDb(sled::Db);

/// An ordered map from byte strings to byte strings.
#[verifier::external_type_specification]
#[verifier::external_body]
pub struct ExTree(sled::Tree);

/// Writes to one tree that are to be made together.
#[verifier::external_type_specification]
#[verifier::external_body]
pub struct ExBatch(sled::Batch);

/// A failure that the database reports.
#[verifier::external_type_specification]
#[verifier::external_body]
pub struct ExSledError(sled::Error);

/// What a tree maps each of its keys to.
pub uninterp spec fn tree_entries(tree: sled::Tree) -> Map<Seq<u8>, Seq<u8>>;

/// The path that a database was opened with; none for a temporary one.
pub uninterp spec fn db_path(db: sled::Db) -> Option<Seq<char>>;

/// The path of the database that a tree belongs to, and the tree's name.
pub uninterp spec fn tree_place(tree: sled::Tree) -> (Option<Seq<char>>, Seq<char>);

/// What a batch sets each of its keys to.
pub uninterp spec fn batch_entries(batch: sled::Batch) -> Map<Seq<u8>, Seq<u8>>;

/// The map that holds nothing.
pub open spec fn no_entries() -> Map<Seq<u8>, Seq<u8>> {
    Map::empty()
}

/// A key and its value.
pub type Entry = (Vec<u8>, Vec<u8>);

/// Entries in mathematical terms.
pub open spec fn entries_view(v: Seq<Entry>) -> Seq<(Seq<u8>, Seq<u8>)> {
    v.map_values(|e: Entry| (e.0@, e.1@))
}

/// Whether `k` is one of the keys that are asked for.
pub open spec fn in_range(k: Seq<u8>, lo: Seq<u8>, hi: Seq<u8>) -> bool {
    lex_le(lo, k) && lex_le(k, hi)
}

/// Whether `k` begins with `p`.
pub open spec fn has_prefix(k: Seq<u8>, p: Seq<u8>) -> bool {
    p.len() <= k.len() && k.take(p.len() as int) == p
}

/// `s` lists what `m` holds under the keys of `keys`, in ascending order of the keys.
pub open spec fn lists(
    s: Seq<(Seq<u8>, Seq<u8>)>,
    m: Map<Seq<u8>, Seq<u8>>,
    keys: Set<Seq<u8>>,
) -> bool {
    &&& forall|i: int, j: int| 0 <= i < j < s.len() ==> lex_lt(#[trigger] s[i].0, #[trigger] s[j].0)
    &&& forall|i: int|
        0 <= i < s.len() ==> keys.contains(#[trigger] s[i].0) && m.contains_key(s[i].0)
            && m[s[i].0] == s[i].1
    &&& forall|k: Seq<u8>|
        keys.contains(k) && #[trigger] m.contains_key(k) ==> exists|i: int|
            0 <= i < s.len() && (#[trigger] s[i]).0 == k
}

/// The entries of `m` between two keys, both included, in ascending order.
pub open spec fn range_listing(m: Map<Seq<u8>, Seq<u8>>, lo: Seq<u8>, hi: Seq<u8>) -> Seq<
    (Seq<u8>, Seq<u8>),
> {
    choose|s: Seq<(Seq<u8>, Seq<u8>)>| lists(s, m, range_keys(lo, hi))
}

/// The entries of `m` whose keys begin with `p`, in ascending order.
pub open spec fn prefix_listing(m: Map<Seq<u8>, Seq<u8>>, p: Seq<u8>) -> Seq<(Seq<u8>, Seq<u8>)> {
    choose|s: Seq<(Seq<u8>, Seq<u8>)>| lists(s, m, prefix_keys(p))
}

/// The keys from `lo` to `hi`.
pub open spec fn range_keys(lo: Seq<u8>, hi: Seq<u8>) -> Set<Seq<u8>> {
    Set::new(|k: Seq<u8>| in_range(k, lo, hi))
}

/// The keys that begin with `p`.
pub open spec fn prefix_keys(p: Seq<u8>) -> Set<Seq<u8>> {
    Set::new(|k: Seq<u8>| has_prefix(k, p))
}

/// Two listings of the same entries are the same.
pub proof fn lemma_listing_unique(
    s: Seq<(Seq<u8>, Seq<u8>)>,
    t: Seq<(Seq<u8>, Seq<u8>)>,
    m: Map<Seq<u8>, Seq<u8>>,
    keys: Set<Seq<u8>>,
)
    requires
        lists(s, m, keys),
        lists(t, m, keys),
    ensures
        s == t,
{
    lemma_listing_prefix(s, t, m, keys, s.len() as int);
    lemma_listing_prefix(t, s, m, keys, t.len() as int);
    if s.len() < t.len() {
        assert(t.take(t.len() as int) =~= t);
        assert(false);
    }
    assert(s.take(s.len() as int) =~= s);
    assert(t.take(t.len() as int) =~= t);
    assert(s.take(s.len() as int) =~= t.take(s.len() as int));
}

proof fn lemma_listing_prefix(
    s: Seq<(Seq<u8>, Seq<u8>)>,
    t: Seq<(Seq<u8>, Seq<u8>)>,
    m: Map<Seq<u8>, Seq<u8>>,
    keys: Set<Seq<u8>>,
    n: int,
)
    requires
        lists(s, m, keys),
        lists(t, m, keys),
        0 <= n <= s.len(),
    ensures
        n <= t.len(),
        s.take(n) == t.take(n),
    decreases n,
{
    if n == 0 {
        assert(s.take(0) =~= t.take(0));
    } else {
        let i = n - 1;
        lemma_listing_prefix(s, t, m, keys, i);
        assert forall|j: int| 0 <= j < i implies s[j] == t[j] by {
            assert(s.take(i)[j] == s[j]);
            assert(t.take(i)[j] == t[j]);
        }
        let k = s[i].0;
        assert(m.contains_key(k));
        let p = choose|p: int| 0 <= p < t.len() && (#[trigger] t[p]).0 == k;
        if p < i {
            lemma_lex_irreflexive(k);
            assert(lex_lt(s[p].0, s[i].0));
            assert(false);
        }
        let l = t[i].0;
        assert(m.contains_key(l));
        let q = choose|q: int| 0 <= q < s.len() && (#[trigger] s[q]).0 == l;
        if q < i {
            lemma_lex_irreflexive(l);
            assert(lex_lt(t[q].0, t[i].0));
            assert(false);
        }
        if p > i {
            assert(lex_lt(t[i].0, t[p].0));
            if q > i {
                assert(lex_lt(s[i].0, s[q].0));
                lemma_lex_antisymmetric(k, l);
            }
            lemma_lex_irreflexive(k);
            assert(false);
        }
        assert(s[i] == t[i]);
        assert(s.take(n) =~= s.take(i).push(s[i]));
        assert(t.take(n) =~= t.take(i).push(t[i]));
    }
}

/// What `range` hands out is the listing of the range.
pub proof fn lemma_range_listing(
    s: Seq<(Seq<u8>, Seq<u8>)>,
    m: Map<Seq<u8>, Seq<u8>>,
    lo: Seq<u8>,
    hi: Seq<u8>,
)
    requires
        lists(s, m, range_keys(lo, hi)),
    ensures
        s == range_listing(m, lo, hi),
{
    lemma_listing_unique(s, range_listing(m, lo, hi), m, range_keys(lo, hi));
}

/// What `scan_prefix` hands out is the listing of the prefix.
pub proof fn lemma_prefix_listing(
    s: Seq<(Seq<u8>, Seq<u8>)>,
    m: Map<Seq<u8>, Seq<u8>>,
    p: Seq<u8>,
)
    requires
        lists(s, m, prefix_keys(p)),
    ensures
        s == prefix_listing(m, p),
{
    lemma_listing_unique(s, prefix_listing(m, p), m, prefix_keys(p));
}

/// Where a key goes in a listing.
proof fn lemma_key_position(s: Seq<(Seq<u8>, Seq<u8>)>, k: Seq<u8>) -> (p: int)
    requires
        forall|i: int, j: int|
            0 <= i < j < s.len() ==> lex_lt(#[trigger] s[i].0, #[trigger] s[j].0),
        forall|i: int| 0 <= i < s.len() ==> (#[trigger] s[i]).0 != k,
    ensures
        0 <= p <= s.len(),
        forall|i: int| 0 <= i < p ==> lex_lt(#[trigger] s[i].0, k),
        forall|i: int| p <= i < s.len() ==> lex_lt(k, #[trigger] s[i].0),
    decreases s.len(),
{
    if s.len() == 0 {
        0
    } else {
        let last = s.len() - 1;
        lemma_lex_total(s[last].0, k);
        if lex_lt(s[last].0, k) {
            assert forall|i: int| 0 <= i < s.len() implies lex_lt(#[trigger] s[i].0, k) by {
                if i < last {
                    lemma_lex_transitive(s[i].0, s[last].0, k);
                }
            }
            s.len() as int
        } else {
            let init = s.drop_last();
            assert forall|i: int| 0 <= i < init.len() implies #[trigger] init[i] == s[i] by {}
            let p = lemma_key_position(init, k);
            assert forall|i: int| 0 <= i < p implies lex_lt(#[trigger] s[i].0, k) by {
                assert(init[i] == s[i]);
            }
            assert forall|i: int| p <= i < s.len() implies lex_lt(k, #[trigger] s[i].0) by {
                if i < last {
                    assert(init[i] == s[i]);
                }
            }
            p
        }
    }
}

/// A listing with one more key.
pub proof fn lemma_listing_insert(
    s: Seq<(Seq<u8>, Seq<u8>)>,
    m: Map<Seq<u8>, Seq<u8>>,
    keys: Set<Seq<u8>>,
    k: Seq<u8>,
    v: Seq<u8>,
) -> (p: int)
    requires
        lists(s, m, keys),
        !m.contains_key(k),
        keys.contains(k),
    ensures
        0 <= p <= s.len(),
        lists(s.insert(p, (k, v)), m.insert(k, v), keys),
{
    assert forall|i: int| 0 <= i < s.len() implies (#[trigger] s[i]).0 != k by {
        assert(m.contains_key(s[i].0));
    }
    let p = lemma_key_position(s, k);
    let t = s.insert(p, (k, v));
    let n = m.insert(k, v);
    assert forall|i: int, j: int| 0 <= i < j < t.len() implies lex_lt(
        #[trigger] t[i].0,
        #[trigger] t[j].0,
    ) by {
        let a = if i < p { i } else { i - 1 };
        let b = if j < p { j } else { j - 1 };
        if i == p {
            assert(t[j] == s[b]);
        } else if j == p {
            assert(t[i] == s[a]);
        } else {
            assert(t[i] == s[a]);
            assert(t[j] == s[b]);
        }
    }
    assert forall|i: int| 0 <= i < t.len() implies keys.contains(#[trigger] t[i].0)
        && n.contains_key(t[i].0) && n[t[i].0] == t[i].1 by {
        if i != p {
            let a = if i < p { i } else { i - 1 };
            assert(t[i] == s[a]);
            assert(keys.contains(s[a].0));
        }
    }
    assert forall|q: Seq<u8>| keys.contains(q) && #[trigger] n.contains_key(q) implies exists|i: int|
        0 <= i < t.len() && (#[trigger] t[i]).0 == q by {
        if q == k {
            assert(t[p].0 == q);
        } else {
            assert(m.contains_key(q));
            let a = choose|a: int| 0 <= a < s.len() && (#[trigger] s[a]).0 == q;
            let i = if a < p { a } else { a + 1 };
            assert(t[i] == s[a]);
        }
    }
    p
}

/// What is outside the keys asked for does not matter.
pub proof fn lemma_listing_outside(
    s: Seq<(Seq<u8>, Seq<u8>)>,
    m: Map<Seq<u8>, Seq<u8>>,
    keys: Set<Seq<u8>>,
    k: Seq<u8>,
    v: Seq<u8>,
)
    requires
        lists(s, m, keys),
        !keys.contains(k),
    ensures
        lists(s, m.insert(k, v), keys),
{
    let n = m.insert(k, v);
    assert forall|i: int| 0 <= i < s.len() implies keys.contains(#[trigger] s[i].0)
        && n.contains_key(s[i].0) && n[s[i].0] == s[i].1 by {
        assert(keys.contains(s[i].0));
    }
    assert forall|q: Seq<u8>| keys.contains(q) && #[trigger] n.contains_key(q) implies exists|i: int|
        0 <= i < s.len() && (#[trigger] s[i]).0 == q by {
        assert(m.contains_key(q));
    }
}

/// A listing with the value of one key replaced.
pub proof fn lemma_listing_replace(
    s: Seq<(Seq<u8>, Seq<u8>)>,
    m: Map<Seq<u8>, Seq<u8>>,
    keys: Set<Seq<u8>>,
    k: Seq<u8>,
    v: Seq<u8>,
) -> (p: int)
    requires
        lists(s, m, keys),
        m.contains_key(k),
        keys.contains(k),
    ensures
        0 <= p < s.len(),
        s[p].0 == k,
        lists(s.update(p, (k, v)), m.insert(k, v), keys),
{
    let p = choose|p: int| 0 <= p < s.len() && (#[trigger] s[p]).0 == k;
    let t = s.update(p, (k, v));
    let n = m.insert(k, v);
    assert forall|i: int| 0 <= i < s.len() implies (#[trigger] t[i]).0 == s[i].0 by {}
    assert forall|i: int, j: int| 0 <= i < j < t.len() implies lex_lt(
        #[trigger] t[i].0,
        #[trigger] t[j].0,
    ) by {
        assert(lex_lt(s[i].0, s[j].0));
    }
    assert forall|i: int| 0 <= i < t.len() implies keys.contains(#[trigger] t[i].0)
        && n.contains_key(t[i].0) && n[t[i].0] == t[i].1 by {
        assert(keys.contains(s[i].0));
        if i != p {
            if s[i].0 == k {
                lemma_lex_irreflexive(k);
                if i < p {
                    assert(lex_lt(s[i].0, s[p].0));
                } else {
                    assert(lex_lt(s[p].0, s[i].0));
                }
            }
        }
    }
    assert forall|q: Seq<u8>| keys.contains(q) && #[trigger] n.contains_key(q) implies exists|i: int|
        0 <= i < t.len() && (#[trigger] t[i]).0 == q by {
        assert(m.contains_key(q));
        let a = choose|a: int| 0 <= a < s.len() && (#[trigger] s[a]).0 == q;
        assert(t[a].0 == q);
    }
    p
}

/// What finitely many keys map to can be listed.
pub proof fn lemma_listing_exists(m: Map<Seq<u8>, Seq<u8>>, keys: Set<Seq<u8>>) -> (s: Seq<
    (Seq<u8>, Seq<u8>),
>)
    requires
        m.dom().finite(),
    ensures
        lists(s, m, keys),
    decreases m.dom().len(),
{
    if m.dom().len() == 0 {
        let s = Seq::<(Seq<u8>, Seq<u8>)>::empty();
        assert forall|k: Seq<u8>| !(#[trigger] m.contains_key(k)) by {
            if m.dom().contains(k) {
                assert(m.dom().remove(k).len() + 1 == m.dom().len());
            }
        }
        assert(lists(s, m, keys));
        s
    } else {
        let k = m.dom().choose();
        assert(m.dom().contains(k)) by {
            vstd::set::axiom_set_choose_len(m.dom());
        }
        let rest = m.remove(k);
        assert(rest.dom() =~= m.dom().remove(k));
        let s = lemma_listing_exists(rest, keys);
        assert(rest.insert(k, m[k]) =~= m);
        if keys.contains(k) {
            let p = lemma_listing_insert(s, rest, keys, k, m[k]);
            s.insert(p, (k, m[k]))
        } else {
            lemma_listing_outside(s, rest, keys, k, m[k]);
            s
        }
    }
}

/// A finite map's range listing lists the range.
pub proof fn lemma_range_is_listed(m: Map<Seq<u8>, Seq<u8>>, lo: Seq<u8>, hi: Seq<u8>)
    requires
        m.dom().finite(),
    ensures
        lists(range_listing(m, lo, hi), m, range_keys(lo, hi)),
{
    let s = lemma_listing_exists(m, range_keys(lo, hi));
    lemma_range_listing(s, m, lo, hi);
}

/// A finite map's prefix listing lists what begins with the prefix.
pub proof fn lemma_prefix_is_listed(m: Map<Seq<u8>, Seq<u8>>, p: Seq<u8>)
    requires
        m.dom().finite(),
    ensures
        lists(prefix_listing(m, p), m, prefix_keys(p)),
{
    let s = lemma_listing_exists(m, prefix_keys(p));
    lemma_prefix_listing(s, m, p);
}

/// Whether each key stands for what it stood for before a change, or for what it
/// stands for after it.
pub open spec fn between(
    before: Map<Seq<u8>, Seq<u8>>,
    done: Map<Seq<u8>, Seq<u8>>,
    m: Map<Seq<u8>, Seq<u8>>,
) -> bool {
    forall|k: Seq<u8>| #[trigger] m.get(k) == before.get(k) || m.get(k) == done.get(k)
}

/// A text that may be missing, in mathematical terms.
pub open spec fn optional_str(s: Option<&str>) -> Option<Seq<char>> {
    match s {
        Some(s) => Some(s@),
        None => None,
    }
}

/// Calls `sled::Config::open` on a configuration with the path, where there is
/// one, and the temporary flag. The database is the one at that path, or a temporary
/// one. Nothing is claimed of what it holds: that is what was on disk.
#[verifier::external_body]
pub(crate) fn open_database(path: Option<&str>, temporary: bool) -> (r: Result<
    sled::Db,
    sled::Error,
>)
    requires
        temporary == (path is None),
    ensures
        r matches Ok(db) ==> db_path(db) == optional_str(path),
{
    let config = sled::Config::new().temporary(temporary);
    match path {
        Some(p) => config.path(p).open(),
        None => config.open(),
    }
}

/// Calls `sled::Db::open_tree`. The tree is the one of that name in the database.
/// Nothing is claimed of what it holds: that is what was on disk.
#[verifier::external_body]
pub(crate) fn open_tree(db: &sled::Db, name: &str) -> (r: Result<sled::Tree, sled::Error>)
    ensures
        r matches Ok(tree) ==> tree_place(tree) == (db_path(*db), name@),
{
    db.open_tree(name)
}

/// Calls `sled::Db::was_recovered`, which tells whether the database was there
/// before it was opened.
#[verifier::external_body]
pub(crate) fn was_recovered(db: &sled::Db) -> (r: bool) {
    db.was_recovered()
}

/// Calls `flush` of the database, which writes to disk what is still in memory
/// and leaves what the trees hold as it is.
#[verifier::external_body]
pub(crate) fn flush(db: &sled::Db) -> (r: Result<usize, sled::Error>) {
    db.flush()
}

/// Calls `flush` of a tree, which writes to disk what is still in memory and
/// leaves what the tree holds as it is.
#[verifier::external_body]
pub(crate) fn flush_tree(tree: &sled::Tree) -> (r: Result<usize, sled::Error>) {
    tree.flush()
}

/// Calls `sled::Db::size_on_disk`.
#[verifier::external_body]
pub(crate) fn size_on_disk(db: &sled::Db) -> (r: Result<u64, sled::Error>) {
    db.size_on_disk()
}

/// Calls `sled::Tree::get`: the value that the tree holds under the key, or
/// `None` where it holds none.
#[verifier::external_body]
pub(crate) fn get(tree: &sled::Tree, key: &[u8]) -> (r: Result<Option<Vec<u8>>, sled::Error>)
    ensures
        r matches Ok(v) ==> match v {
            Some(value) => tree_entries(*tree).contains_key(key@) && tree_entries(*tree)[key@]
                == value@,
            None => !tree_entries(*tree).contains_key(key@),
        },
{
    tree.get(key).map(|v| v.map(|b| b.to_vec()))
}

/// Calls `sled::Tree::insert`: sets the key to the value and leaves every other
/// key as it is. Where it fails, the key has been set or it has not: the page that
/// holds it is exchanged in one step. A failure is returned, not raised as a panic.
#[verifier::external_body]
pub(crate) fn insert(tree: &mut sled::Tree, key: &[u8], value: &[u8]) -> (r: Result<
    (),
    sled::Error,
>)
    ensures
        r is Ok ==> tree_entries(*final(tree)) == tree_entries(*old(tree)).insert(key@, value@),
        between(
            tree_entries(*old(tree)),
            tree_entries(*old(tree)).insert(key@, value@),
            tree_entries(*final(tree)),
        ),
        tree_place(*final(tree)) == tree_place(*old(tree)),
    no_unwind
{
    tree.insert(key, value).map(|_previous| ())
}

/// Calls `sled::Tree::remove`: takes the key out and leaves every other key as
/// it is. Where it fails, the key has been taken out or it has not.
#[verifier::external_body]
pub(crate) fn remove(tree: &mut sled::Tree, key: &[u8]) -> (r: Result<(), sled::Error>)
    ensures
        r is Ok ==> tree_entries(*final(tree)) == tree_entries(*old(tree)).remove(key@),
        between(
            tree_entries(*old(tree)),
            tree_entries(*old(tree)).remove(key@),
            tree_entries(*final(tree)),
        ),
        tree_place(*final(tree)) == tree_place(*old(tree)),
{
    tree.remove(key).map(|_previous| ())
}

/// Calls `sled::Tree::range` on `lo..=hi` and collects what the iterator yields:
/// the entries whose keys lie between the two, both included, in ascending order
/// of the keys.
#[verifier::external_body]
fn range_entries(tree: &sled::Tree, lo: &[u8], hi: &[u8]) -> (r: Result<Vec<Entry>, sled::Error>)
    ensures
        r matches Ok(v) ==> lists(entries_view(v@), tree_entries(*tree), range_keys(lo@, hi@)),
{
    tree.range(lo..=hi).map(|e| e.map(|(k, v)| (k.to_vec(), v.to_vec()))).collect()
}

/// Calls `sled::Tree::scan_prefix` and collects what the iterator yields: the
/// entries whose keys begin with the prefix, in ascending order of the keys.
#[verifier::external_body]
fn prefix_entries(tree: &sled::Tree, prefix: &[u8]) -> (r: Result<Vec<Entry>, sled::Error>)
    ensures
        r matches Ok(v) ==> lists(entries_view(v@), tree_entries(*tree), prefix_keys(prefix@)),
{
    tree.scan_prefix(prefix).map(|e| e.map(|(k, v)| (k.to_vec(), v.to_vec()))).collect()
}

/// The entries of the tree between two keys, both included.
pub(crate) fn range(tree: &sled::Tree, lo: &[u8], hi: &[u8]) -> (r: Result<Vec<Entry>, sled::Error>)
    ensures
        r matches Ok(v) ==> {
            &&& entries_view(v@) == range_listing(tree_entries(*tree), lo@, hi@)
            &&& lists(entries_view(v@), tree_entries(*tree), range_keys(lo@, hi@))
        },
{
    let r = range_entries(tree, lo, hi);
    proof {
        if r is Ok {
            lemma_range_listing(entries_view(r->Ok_0@), tree_entries(*tree), lo@, hi@);
        }
    }
    r
}

/// The entries of the tree under a prefix.
pub(crate) fn scan_prefix(tree: &sled::Tree, prefix: &[u8]) -> (r: Result<Vec<Entry>, sled::Error>)
    ensures
        r matches Ok(v) ==> {
            &&& entries_view(v@) == prefix_listing(tree_entries(*tree), prefix@)
            &&& lists(entries_view(v@), tree_entries(*tree), prefix_keys(prefix@))
        },
{
    let r = prefix_entries(tree, prefix);
    proof {
        if r is Ok {
            lemma_prefix_listing(entries_view(r->Ok_0@), tree_entries(*tree), prefix@);
        }
    }
    r
}

/// Calls `sled::Batch::default`: a batch that sets no key.
#[verifier::external_body]
pub(crate) fn new_batch() -> (b: sled::Batch)
    ensures
        batch_entries(b) == no_entries(),
{
    sled::Batch::default()
}

/// Calls `sled::Batch::insert`: from now on the batch sets the key to the value,
/// whatever it set it to before.
#[verifier::external_body]
pub(crate) fn batch_insert(batch: &mut sled::Batch, key: &[u8], value: &[u8])
    ensures
        batch_entries(*final(batch)) == batch_entries(*old(batch)).insert(key@, value@),
{
    batch.insert(key, value)
}

/// Calls `transaction` of `sled::Transactional` on three trees of one database,
/// with `apply_batch` of one batch on each. Where it succeeds, every write of
/// the three batches has been made, and no other. Where it fails, it may have made
/// some of them: they are made one after the other. A failure is returned, not raised
/// as a panic. The trees have to be different ones: two handles of one tree would both
/// show the writes of two batches.
#[verifier::external_body]
pub(crate) fn apply_batches(
    data: &mut sled::Tree,
    meta: &mut sled::Tree,
    types: &mut sled::Tree,
    batches: (&sled::Batch, &sled::Batch, &sled::Batch),
) -> (r: Result<(), sled::Error>)
    requires
        tree_place(*old(data)) != tree_place(*old(meta)),
        tree_place(*old(data)) != tree_place(*old(types)),
        tree_place(*old(meta)) != tree_place(*old(types)),
    ensures
        r is Ok ==> tree_entries(*final(data)) == tree_entries(*old(data)).union_prefer_right(
            batch_entries(*batches.0),
        ),
        r is Ok ==> tree_entries(*final(meta)) == tree_entries(*old(meta)).union_prefer_right(
            batch_entries(*batches.1),
        ),
        r is Ok ==> tree_entries(*final(types)) == tree_entries(*old(types)).union_prefer_right(
            batch_entries(*batches.2),
        ),
        between(
            tree_entries(*old(data)),
            tree_entries(*old(data)).union_prefer_right(batch_entries(*batches.0)),
            tree_entries(*final(data)),
        ),
        between(
            tree_entries(*old(meta)),
            tree_entries(*old(meta)).union_prefer_right(batch_entries(*batches.1)),
            tree_entries(*final(meta)),
        ),
        between(
            tree_entries(*old(types)),
            tree_entries(*old(types)).union_prefer_right(batch_entries(*batches.2)),
            tree_entries(*final(types)),
        ),
        tree_place(*final(data)) == tree_place(*old(data)),
        tree_place(*final(meta)) == tree_place(*old(meta)),
        tree_place(*final(types)) == tree_place(*old(types)),
    no_unwind
{
    let trees: (&sled::Tree, &sled::Tree, &sled::Tree) = (data, meta, types);
    let applied = sled::Transactional::<sled::Error>::transaction(&trees, |tx| {
        tx.0.apply_batch(batches.0)?;
        tx.1.apply_batch(batches.1)?;
        tx.2.apply_batch(batches.2)?;
        Ok(())
    });
    applied.map_err(|e| match e {
        sled::transaction::TransactionError::Abort(e) => e,
        sled::transaction::TransactionError::Storage(e) => e,
    })
}

} // verus!
