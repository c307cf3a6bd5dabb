//! Theorems about the model: what insertion, lookup, deletion and traversal
//! do to the map that a tree stands for, and how they relate.
//!
//! The main statements:
//! - insertion and deletion keep a tree valid (`lemma_inserted_wf`,
//!   `lemma_removed_wf`) and are `Map::insert` and `Map::remove` on the map
//!   of the tree (`lemma_inserted_map`, `lemma_removed_map`);
//! - a lookup after any run of insertions gives the last value inserted
//!   under the key (`law_round_trip`);
//! - inserting a key that is there changes nothing but its value
//!   (`law_replacement`), and a new entry makes the children count of its
//!   node grow by one (`law_count_after_insert`);
//! - deleting a key right after inserting it gives back the tree as it was
//!   (`law_delete_undoes_insert`), and deleting a key that is not there
//!   changes nothing (`law_delete_absent`);
//! - traversal gives each key once, with its value, in strictly ascending
//!   order (`lemma_entries`).

use vstd::prelude::*;
use crate::bytes::common_prefix_len;
use crate::bytes::lemma_common_prefix;
use crate::bytes::lex_lt;
use crate::cell::Cell;
use crate::tree::Tree;

verus! {

/// When may `split` be applied to `t` for `key`: `key` is not the key of the
/// leaf `t`, or does not pass through the dispatch node `t`.
pub open spec fn splits(t: Tree, key: Seq<u8>) -> bool {
    match t {
        Tree::Empty => false,
        Tree::Leaf { path, .. } => key != path,
        Tree::Inner { path, .. } => !path.is_prefix_of(key),
    }
}

/// Cutting `n` bytes off the front of both a tree's path and a key that
/// shares them changes nothing for lookup.
pub proof fn lemma_with_path_lookup(t: Tree, n: int, k: Seq<u8>)
    requires
        0 <= n <= t.path().len(),
        n <= k.len(),
        t.path().take(n) == k.take(n),
    ensures
        t.with_path(t.path().skip(n)).lookup(k.skip(n)) == t.lookup(k),
{
    let p = t.path();
    assert(k =~= k.take(n) + k.skip(n));
    assert(p =~= p.take(n) + p.skip(n));
    match t {
        Tree::Empty => {},
        Tree::Leaf { path, value } => {},
        Tree::Inner { path, kids } => {
            let short = p.skip(n);
            if short.is_prefix_of(k.skip(n)) {
                assert(k.skip(n).skip(short.len() as int) =~= k.skip(p.len() as int));
            }
        },
    }
}

/// The two selectors of a split differ, and the split is a valid node.
pub proof fn lemma_split_wf(t: Tree, key: Seq<u8>, value: u64)
    requires
        t.wf(),
        splits(t, key),
    ensures
        t.split(key, value).wf(),
        t.split(key, value).count() == 2,
{
    let p = t.path();
    let n = common_prefix_len(p, key) as int;
    lemma_common_prefix(p, key);
    let mine = p.skip(n);
    let theirs = key.skip(n);
    let a = Cell::of(mine);
    let b = Cell::of(theirs);
    assert(a != b) by {
        if n == p.len() && n == key.len() {
            assert(key =~= key.take(n));
        }
    }
    let m0 = Map::<Cell, Tree>::empty().insert(a, t.with_path(mine));
    let m = m0.insert(b, Tree::Leaf { path: theirs, value });
    assert forall|c: Cell| #[trigger] m.contains_key(c) implies {
        &&& m[c].wf()
        &&& Cell::of(m[c].path()) == c
        &&& (c is End ==> m[c] is Leaf)
    } by {}
}

/// A split holds `key` with `value`, and everything else as before.
pub proof fn lemma_split_lookup(t: Tree, key: Seq<u8>, value: u64, k: Seq<u8>)
    requires
        t.wf(),
        splits(t, key),
    ensures
        t.split(key, value).lookup(k) == if k == key {
            Some(value)
        } else {
            t.lookup(k)
        },
{
    let p = t.path();
    let n = common_prefix_len(p, key) as int;
    lemma_common_prefix(p, key);
    let mine = p.skip(n);
    let theirs = key.skip(n);
    let a = Cell::of(mine);
    let b = Cell::of(theirs);
    let cp = key.take(n);
    assert(a != b) by {
        if n == p.len() && n == key.len() {
            assert(key =~= key.take(n));
        }
    }
    let m = Map::<Cell, Tree>::empty().insert(a, t.with_path(mine)).insert(
        b,
        Tree::Leaf { path: theirs, value },
    );
    let s = t.split(key, value);
    assert(key =~= cp + theirs);
    let rest = k.skip(n);
    if cp.is_prefix_of(k) {
        assert(k =~= cp + rest);
        let c = Cell::of(rest);
        if c == b {
            assert(s.lookup(k) == m[b].lookup(rest));
        } else if c == a {
            lemma_with_path_lookup(t, n, k);
        }
    }
}

/// A key that goes on, after `n` bytes, under another selector than a valid
/// node's path does is not in the node (for a dispatch node, `n` lies inside
/// its path).
pub proof fn lemma_off_path(t: Tree, n: int, k: Seq<u8>)
    requires
        t.wf(),
        0 <= n <= t.path().len(),
        n <= k.len(),
        t is Leaf || n < t.path().len(),
        Cell::of(k.skip(n)) != Cell::of(t.path().skip(n)),
    ensures
        t.lookup(k) is None,
{}

/// Insertion keeps a tree valid, and keeps the selector that the tree's path
/// begins with whenever the key begins with the same one.
pub proof fn lemma_inserted_wf(t: Tree, key: Seq<u8>, value: u64)
    requires
        t.wf_root(),
    ensures
        t.inserted(key, value).wf(),
        t.wf() && Cell::of(t.path()) == Cell::of(key) && (Cell::of(key) is End ==> t is Leaf)
            ==> Cell::of(t.inserted(key, value).path()) == Cell::of(key) && (Cell::of(key) is End
            ==> t.inserted(key, value) is Leaf),
    decreases t,
{
    match t {
        Tree::Empty => {},
        Tree::Leaf { path, .. } => {
            if key != path {
                lemma_split_wf(t, key, value);
                lemma_common_prefix(path, key);
            }
        },
        Tree::Inner { path, kids } => {
            let rest = key.skip(path.len() as int);
            let sel = Cell::of(rest);
            if !path.is_prefix_of(key) {
                lemma_split_wf(t, key, value);
                lemma_common_prefix(path, key);
            } else if kids.contains_key(sel) {
                let child = kids[sel];
                lemma_inserted_wf(child, rest, value);
            } else {
                let kids2 = kids.insert(sel, Tree::Leaf { path: rest, value });
                assert forall|c: Cell| #[trigger] kids2.contains_key(c) implies {
                    &&& kids2[c].wf()
                    &&& Cell::of(kids2[c].path()) == c
                    &&& (c is End ==> kids2[c] is Leaf)
                } by {}
            }
        },
    }
}

/// After `key` has been set to `value`, looking `key` up gives `value`, and
/// every other key gives what it gave before.
pub proof fn lemma_inserted_lookup(t: Tree, key: Seq<u8>, value: u64, k: Seq<u8>)
    requires
        t.wf_root(),
    ensures
        t.inserted(key, value).lookup(k) == if k == key {
            Some(value)
        } else {
            t.lookup(k)
        },
    decreases t,
{
    let r = t.inserted(key, value);
    match t {
        Tree::Empty => {},
        Tree::Leaf { path, .. } => {
            if key != path {
                lemma_split_lookup(t, key, value, k);
            }
        },
        Tree::Inner { path, kids } => {
            let rest = key.skip(path.len() as int);
            let sel = Cell::of(rest);
            let krest = k.skip(path.len() as int);
            let c = Cell::of(krest);
            if !path.is_prefix_of(key) {
                lemma_split_lookup(t, key, value, k);
            } else {
                assert(key =~= path + rest);
                let fresh = if kids.contains_key(sel) {
                    kids[sel].inserted(rest, value)
                } else {
                    Tree::Leaf { path: rest, value }
                };
                if path.is_prefix_of(k) {
                    assert(k =~= path + krest);
                    if c == sel {
                        assert(r.lookup(k) == fresh.lookup(krest));
                        if kids.contains_key(sel) {
                            lemma_inserted_lookup(kids[sel], rest, value, krest);
                        }
                    }
                }
            }
        },
    }
}

/// Insertion is `Map::insert` on the map that the tree stands for.
pub proof fn lemma_inserted_map(t: Tree, key: Seq<u8>, value: u64)
    requires
        t.wf_root(),
    ensures
        t.inserted(key, value).as_map() == t.as_map().insert(key, value),
{
    let a = t.inserted(key, value).as_map();
    let b = t.as_map().insert(key, value);
    assert forall|k: Seq<u8>| #[trigger] a.contains_key(k) == b.contains_key(k) by {
        lemma_inserted_lookup(t, key, value, k);
    }
    assert forall|k: Seq<u8>| #[trigger] a.contains_key(k) implies a[k] == b[k] by {
        lemma_inserted_lookup(t, key, value, k);
    }
}

/// A finite set of one element holds nothing but the element it chooses.
pub proof fn lemma_singleton<A>(s: Set<A>, x: A)
    requires
        s.finite(),
        s.len() == 1,
        s.contains(x),
    ensures
        s.choose() == x,
        s =~= set![x],
{
    // taking `x` away leaves a set of no element
    assert(s.remove(x).len() == 0);
}

/// Putting `p` in front of a node's path puts `p` in front of its keys.
pub proof fn lemma_prepend_lookup(c: Tree, p: Seq<u8>, k: Seq<u8>)
    requires
        c.wf(),
    ensures
        c.with_path(p + c.path()).lookup(k) == if p.is_prefix_of(k) {
            c.lookup(k.skip(p.len() as int))
        } else {
            None
        },
{
    let long = c.with_path(p + c.path());
    let n = p.len() as int;
    if p.is_prefix_of(k) {
        assert(long.path().take(n) =~= p);
        lemma_with_path_lookup(long, n, k);
        assert(long.path().skip(n) =~= c.path());
    }
}

/// The children of a valid dispatch node, one of them gone, settle into a
/// valid tree, which keeps the node's path in front.
pub proof fn lemma_settled_wf(path: Seq<u8>, kids: Map<Cell, Tree>)
    requires
        kids.dom().finite(),
        !kids.contains_key(Cell::Vacant),
        forall|c: Cell| #[trigger]
            kids.contains_key(c) ==> {
                &&& kids[c].wf()
                &&& Cell::of(kids[c].path()) == c
                &&& (c is End ==> kids[c] is Leaf)
            },
    ensures
        Tree::settled(path, kids).wf_root(),
        Tree::settled(path, kids) is Empty <==> kids.dom().len() == 0,
        path.len() > 0 && kids.dom().len() > 0 ==> Cell::of(Tree::settled(path, kids).path())
            == Cell::of(path),
        kids.dom().len() > 0 ==> path.is_prefix_of(Tree::settled(path, kids).path()),
{
    if kids.dom().len() == 1 && !kids.contains_key(Cell::End) {
        let c = kids.dom().choose();
        assert(kids.dom().contains(c));
        assert(kids.contains_key(c));
        let only = kids[c];
        assert((path + only.path()).subrange(0, path.len() as int) =~= path);
    } else if kids.dom().len() > 0 {
        assert(path.subrange(0, path.len() as int) =~= path);
    }
}

/// Deletion keeps a tree valid. What is left of a node keeps the node's
/// path in front of its own.
pub proof fn lemma_removed_wf(t: Tree, key: Seq<u8>)
    requires
        t.wf_root(),
    ensures
        t.removed(key).wf_root(),
        t.wf() && !(t.removed(key) is Empty) ==> t.path().is_prefix_of(t.removed(key).path()),
        t.wf() && !(t.removed(key) is Empty) && t.path().len() > 0 ==> Cell::of(
            t.removed(key).path(),
        ) == Cell::of(t.path()),
    decreases t,
{
    match t {
        Tree::Empty => {},
        Tree::Leaf { path, .. } => {
            assert(path.subrange(0, path.len() as int) =~= path);
        },
        Tree::Inner { path, kids } => {
            let rest = key.skip(path.len() as int);
            let sel = Cell::of(rest);
            assert(path.subrange(0, path.len() as int) =~= path);
            if path.is_prefix_of(key) && kids.contains_key(sel) {
                let old = kids[sel];
                lemma_removed_wf(old, rest);
                let child = old.removed(rest);
                if child is Empty {
                    let left = kids.remove(sel);
                    assert forall|c: Cell| #[trigger] left.contains_key(c) implies {
                        &&& left[c].wf()
                        &&& Cell::of(left[c].path()) == c
                        &&& (c is End ==> left[c] is Leaf)
                    } by {
                        assert(kids.contains_key(c));
                    }
                    lemma_settled_wf(path, left);
                } else {
                    // what is filed under `End` is the leaf of the empty
                    // rest, which deletion takes away
                    if sel is End {
                        assert(old.path() =~= rest);
                    }
                    let next = kids.insert(sel, child);
                    assert(next.dom() =~= kids.dom());
                    assert(old.path().len() > 0);
                    assert(t.removed(key) == Tree::Inner { path, kids: next });
                    assert forall|c: Cell| #[trigger] next.contains_key(c) implies {
                        &&& next[c].wf()
                        &&& Cell::of(next[c].path()) == c
                        &&& (c is End ==> next[c] is Leaf)
                    } by {
                        if c != sel {
                            assert(kids.contains_key(c));
                        }
                    }
                }
            }
        },
    }
}

/// After `key` has been deleted, looking `key` up gives nothing, and every
/// other key gives what it gave before.
pub proof fn lemma_removed_lookup(t: Tree, key: Seq<u8>, k: Seq<u8>)
    requires
        t.wf_root(),
    ensures
        t.removed(key).lookup(k) == if k == key {
            None
        } else {
            t.lookup(k)
        },
    decreases t,
{
    let r = t.removed(key);
    match t {
        Tree::Empty => {},
        Tree::Leaf { .. } => {},
        Tree::Inner { path, kids } => {
            let n = path.len() as int;
            let rest = key.skip(n);
            let sel = Cell::of(rest);
            let krest = k.skip(n);
            let ksel = Cell::of(krest);
            if path.is_prefix_of(key) && kids.contains_key(sel) {
                assert(key =~= path + rest);
                if path.is_prefix_of(k) {
                    assert(k =~= path + krest);
                }
                let old = kids[sel];
                lemma_removed_lookup(old, rest, krest);
                lemma_removed_lookup(old, rest, rest);
                let child = old.removed(rest);
                if child is Empty {
                    let left = kids.remove(sel);
                    if left.dom().len() == 0 {
                        if kids.contains_key(ksel) && ksel != sel {
                            assert(left.contains_key(ksel));
                            assert(left.dom().contains(ksel));
                        }
                    } else if left.dom().len() == 1 && !left.contains_key(Cell::End) {
                        let c = left.dom().choose();
                        assert(left.dom().contains(c));
                        assert(kids.contains_key(c));
                        let only = left[c];
                        lemma_prepend_lookup(only, path, k);
                        if path.is_prefix_of(k) {
                            if ksel != c {
                                lemma_off_path(only, 0, krest);
                                if kids.contains_key(ksel) && ksel != sel {
                                    assert(left.dom().contains(ksel));
                                    lemma_singleton(left.dom(), c);
                                }
                            }
                        }
                    } else {
                        assert(r == Tree::Inner { path, kids: left });
                        if path.is_prefix_of(k) && ksel != sel {
                            assert(left.contains_key(ksel) == kids.contains_key(ksel));
                        }
                    }
                } else {
                    let next = kids.insert(sel, child);
                    assert(r == Tree::Inner { path, kids: next });
                    if path.is_prefix_of(k) && ksel != sel {
                        assert(next.contains_key(ksel) == kids.contains_key(ksel));
                    }
                }
            }
        },
    }
}

/// Deletion is `Map::remove` on the map that the tree stands for.
pub proof fn lemma_removed_map(t: Tree, key: Seq<u8>)
    requires
        t.wf_root(),
    ensures
        t.removed(key).as_map() == t.as_map().remove(key),
{
    let a = t.removed(key).as_map();
    let b = t.as_map().remove(key);
    assert forall|k: Seq<u8>| #[trigger] a.contains_key(k) == b.contains_key(k) by {
        lemma_removed_lookup(t, key, k);
    }
    assert forall|k: Seq<u8>| #[trigger] a.contains_key(k) implies a[k] == b[k] by {
        lemma_removed_lookup(t, key, k);
    }
}

/// The keys of `e` are strictly ascending in lexicographic order.
pub open spec fn ascending(e: Seq<(Seq<u8>, u64)>) -> bool {
    forall|i: int, j: int| 0 <= i < j < e.len() ==> lex_lt(#[trigger] e[i].0, #[trigger] e[j].0)
}

/// `entry` is a key of `t` with its value, written with `prefix` in front.
pub open spec fn held(t: Tree, prefix: Seq<u8>, entry: (Seq<u8>, u64)) -> bool {
    &&& (prefix + t.path()).is_prefix_of(entry.0)
    &&& t.lookup(entry.0.skip(prefix.len() as int)) == Some(entry.1)
}

/// The rank of the selector under which `key` goes on behind its first `n`
/// bytes.
pub open spec fn rank_behind(key: Seq<u8>, n: int) -> int {
    Cell::of(key.skip(n)).rank()
}

/// Of two keys that share a prefix, the one that goes on under the smaller
/// selector is the smaller key.
pub proof fn lemma_lex_by_selector(p: Seq<u8>, a: Seq<u8>, b: Seq<u8>)
    requires
        p.is_prefix_of(a),
        p.is_prefix_of(b),
        rank_behind(a, p.len() as int) < rank_behind(b, p.len() as int),
    ensures
        lex_lt(a, b),
{
    let n = p.len() as int;
    assert(a.take(n) =~= p);
    assert(b.take(n) =~= p);
    assert(a.take(n) == b.take(n));
    if n < a.len() {
        assert(a.skip(n)[0] == a[n]);
    }
    if n < b.len() {
        assert(b.skip(n)[0] == b[n]);
    }
}

/// `key` is among the keys of `e`.
pub open spec fn covers(e: Seq<(Seq<u8>, u64)>, key: Seq<u8>) -> bool {
    exists|i: int| 0 <= i < e.len() && (#[trigger] e[i]).0 == key
}

/// An entry of a child of a valid dispatch node is an entry of the node, and
/// its key goes on behind the node's path under the child's selector.
pub proof fn lemma_held_up(t: Tree, prefix: Seq<u8>, cell: Cell, entry: (Seq<u8>, u64))
    requires
        t.wf(),
        t is Inner,
        t->kids.contains_key(cell),
        held(t->kids[cell], prefix + t.path(), entry),
    ensures
        held(t, prefix, entry),
        rank_behind(entry.0, (prefix + t.path()).len() as int) == cell.rank(),
{
    let path = t->Inner_path;
    let kids = t->kids;
    let p = prefix + path;
    let kid = kids[cell];
    let key = entry.0;
    let long = p + kid.path();
    assert forall|x: int| 0 <= x < long.len() implies long[x] == key[x] by {}
    let k = key.skip(prefix.len() as int);
    let rest = key.skip(p.len() as int);
    assert(k.skip(path.len() as int) =~= rest);
    assert(path =~= k.subrange(0, path.len() as int)) by {
        assert forall|x: int| 0 <= x < path.len() implies path[x] == k[x] by {}
    }
}

/// Two ascending runs, every key of the first below every key of the second,
/// make an ascending run.
pub proof fn lemma_ascending_add(a: Seq<(Seq<u8>, u64)>, b: Seq<(Seq<u8>, u64)>)
    requires
        ascending(a),
        ascending(b),
        forall|i: int, j: int|
            0 <= i < a.len() && 0 <= j < b.len() ==> lex_lt(#[trigger] a[i].0, #[trigger] b[j].0),
    ensures
        ascending(a + b),
{
    let e = a + b;
    assert forall|i: int, j: int| 0 <= i < j < e.len() implies lex_lt(
        #[trigger] e[i].0,
        #[trigger] e[j].0,
    ) by {
        if j < a.len() {
            assert(e[i] == a[i] && e[j] == a[j]);
        } else if i >= a.len() {
            assert(e[i] == b[i - a.len()] && e[j] == b[j - a.len()]);
        } else {
            assert(e[i] == a[i] && e[j] == b[j - a.len()]);
        }
    }
}

/// A key among the keys of a run is among the keys of the run with another
/// put before or behind it.
pub proof fn lemma_covers_add(a: Seq<(Seq<u8>, u64)>, b: Seq<(Seq<u8>, u64)>, key: Seq<u8>)
    requires
        covers(a, key) || covers(b, key),
    ensures
        covers(a + b, key),
{
    let e = a + b;
    if covers(a, key) {
        let i = choose|i: int| 0 <= i < a.len() && (#[trigger] a[i]).0 == key;
        assert(e[i] == a[i]);
    } else {
        let j = choose|j: int| 0 <= j < b.len() && (#[trigger] b[j]).0 == key;
        assert(e[a.len() + j] == b[j]);
    }
}

/// What the children of a valid dispatch node with selectors of rank below
/// `hi` give in traversal order: keys of the node with their values, in
/// strictly ascending order, and each such key once.
pub proof fn lemma_entries_below(t: Tree, prefix: Seq<u8>, hi: nat)
    requires
        t.wf(),
        t is Inner,
        hi <= 257,
    ensures
        ascending(t.entries_below(prefix, hi)),
        forall|i: int|
            0 <= i < t.entries_below(prefix, hi).len() ==> held(
                t,
                prefix,
                #[trigger] t.entries_below(prefix, hi)[i],
            ) && rank_behind(t.entries_below(prefix, hi)[i].0, (prefix + t.path()).len() as int)
                < hi,
        forall|k: Seq<u8>|
            (#[trigger] t.lookup(k)) is Some && rank_behind(k, t.path().len() as int) < hi
                ==> covers(t.entries_below(prefix, hi), prefix + k),
    decreases t, hi,
{
    let e = t.entries_below(prefix, hi);
    let path = t->Inner_path;
    let kids = t->kids;
    let p = prefix + path;
    if hi == 0 {
        assert forall|k: Seq<u8>|
            (#[trigger] t.lookup(k)) is Some && rank_behind(k, path.len() as int)
                < hi implies covers(e, prefix + k) by {
            assert(Cell::of(k.skip(path.len() as int)).rank() >= 0);
        }
    } else {
        let cell = Cell::at(hi - 1);
        let a = t.entries_below(prefix, (hi - 1) as nat);
        lemma_entries_below(t, prefix, (hi - 1) as nat);
        let b = if kids.contains_key(cell) {
            kids[cell].entries(p)
        } else {
            Seq::empty()
        };
        assert(e == a + b);
        if kids.contains_key(cell) {
            lemma_entries(kids[cell], p);
        }
        assert forall|j: int| 0 <= j < b.len() implies held(t, prefix, #[trigger] b[j])
            && rank_behind(b[j].0, p.len() as int) == hi - 1 by {
            lemma_held_up(t, prefix, cell, b[j]);
        }
        assert(ascending(e)) by {
            assert forall|i: int, j: int| 0 <= i < a.len() && 0 <= j < b.len() implies lex_lt(
                #[trigger] a[i].0,
                #[trigger] b[j].0,
            ) by {
                assert(held(t, prefix, a[i]));
                assert(held(t, prefix, b[j]));
                lemma_lex_by_selector(p, a[i].0, b[j].0);
            }
            lemma_ascending_add(a, b);
        }
        assert forall|i: int| 0 <= i < e.len() implies held(t, prefix, #[trigger] e[i])
            && rank_behind(e[i].0, p.len() as int) < hi by {
            if i < a.len() {
                assert(e[i] == a[i]);
            } else {
                assert(e[i] == b[i - a.len()]);
            }
        }
        assert forall|k: Seq<u8>|
            (#[trigger] t.lookup(k)) is Some && rank_behind(k, path.len() as int)
                < hi implies covers(e, prefix + k) by {
            let rest = k.skip(path.len() as int);
            if rank_behind(k, path.len() as int) < hi - 1 {
                assert(covers(a, prefix + k));
            } else {
                Cell::lemma_at_rank(Cell::of(rest));
                assert(Cell::of(rest) == cell);
                assert(kids[cell].lookup(rest) is Some);
                assert(covers(b, p + rest));
                assert(k =~= path + rest);
                assert(p + rest =~= prefix + k);
            }
            lemma_covers_add(a, b, prefix + k);
        }
    }
}

/// Where no child has a selector of a rank from `lo` up to `hi`, the
/// children below `hi` give what the children below `lo` give.
pub proof fn lemma_entries_gap(t: Tree, prefix: Seq<u8>, lo: nat, hi: nat)
    requires
        t is Inner,
        lo <= hi <= 257,
        forall|c: Cell| #[trigger] t->kids.contains_key(c) ==> !(lo <= c.rank() < hi),
    ensures
        t.entries_below(prefix, hi) == t.entries_below(prefix, lo),
    decreases hi,
{
    if lo < hi {
        lemma_entries_gap(t, prefix, lo, (hi - 1) as nat);
    }
}

/// What a valid tree gives in traversal order: its keys with their values,
/// in strictly ascending order, and each key once.
pub proof fn lemma_entries(t: Tree, prefix: Seq<u8>)
    requires
        t.wf_root(),
    ensures
        ascending(t.entries(prefix)),
        forall|i: int|
            0 <= i < t.entries(prefix).len() ==> held(t, prefix, #[trigger] t.entries(prefix)[i]),
        forall|k: Seq<u8>|
            (#[trigger] t.lookup(k)) is Some ==> covers(t.entries(prefix), prefix + k),
    decreases t, 258nat,
{
    let e = t.entries(prefix);
    match t {
        Tree::Empty => {},
        Tree::Leaf { path, value } => {
            let key = prefix + path;
            assert(key.skip(prefix.len() as int) =~= path);
            assert forall|k: Seq<u8>| (#[trigger] t.lookup(k)) is Some implies covers(
                e,
                prefix + k,
            ) by {
                assert(e[0].0 == prefix + k);
            }
        },
        Tree::Inner { path, kids } => {
            lemma_entries_below(t, prefix, 257);
            assert forall|k: Seq<u8>| (#[trigger] t.lookup(k)) is Some implies covers(
                e,
                prefix + k,
            ) by {}
        },
    }
}

/// The tree after the insertions `ops`, first to last.
pub open spec fn inserted_all(t: Tree, ops: Seq<(Seq<u8>, u64)>) -> Tree
    decreases ops.len(),
{
    if ops.len() == 0 {
        t
    } else {
        inserted_all(t, ops.drop_last()).inserted(ops.last().0, ops.last().1)
    }
}

/// Round trip. After any sequence of insertions, looking up a key that was
/// inserted gives the value of the last insertion of that key.
pub proof fn law_round_trip(t: Tree, ops: Seq<(Seq<u8>, u64)>, i: int)
    requires
        t.wf_root(),
        0 <= i < ops.len(),
        forall|j: int| i < j < ops.len() ==> ops[j].0 != ops[i].0,
    ensures
        inserted_all(t, ops).wf(),
        inserted_all(t, ops).lookup(ops[i].0) == Some(ops[i].1),
    decreases ops.len(),
{
    let before = inserted_all(t, ops.drop_last());
    lemma_inserted_all_wf(t, ops.drop_last());
    lemma_inserted_wf(before, ops.last().0, ops.last().1);
    lemma_inserted_lookup(before, ops.last().0, ops.last().1, ops[i].0);
    if i < ops.len() - 1 {
        law_round_trip(t, ops.drop_last(), i);
    }
}

/// Insertions keep a tree valid.
pub proof fn lemma_inserted_all_wf(t: Tree, ops: Seq<(Seq<u8>, u64)>)
    requires
        t.wf_root(),
    ensures
        inserted_all(t, ops).wf_root(),
    decreases ops.len(),
{
    if ops.len() > 0 {
        lemma_inserted_all_wf(t, ops.drop_last());
        lemma_inserted_wf(inserted_all(t, ops.drop_last()), ops.last().0, ops.last().1);
    }
}

/// Two trees differ in the values of their leaves at most: node by node
/// they have the same path and the same selectors, hence the same children
/// count and size class.
pub open spec fn same_layout(a: Tree, b: Tree) -> bool
    decreases a,
{
    match a {
        Tree::Empty => b is Empty,
        Tree::Leaf { path, .. } => b is Leaf && b.path() == path,
        Tree::Inner { path, kids } => {
            &&& b is Inner
            &&& b.path() == path
            &&& b->kids.dom() == kids.dom()
            &&& forall|c: Cell| #[trigger] kids.contains_key(c) ==> same_layout(kids[c], b->kids[c])
        },
    }
}

/// Every tree has its own layout.
pub proof fn lemma_same_layout_refl(t: Tree)
    ensures
        same_layout(t, t),
    decreases t,
{
    match t {
        Tree::Inner { path, kids } => {
            assert forall|c: Cell| #[trigger] kids.contains_key(c) implies same_layout(
                kids[c],
                kids[c],
            ) by {
                lemma_same_layout_refl(kids[c]);
            }
        },
        _ => {},
    }
}

/// Replacement. Inserting a key that the tree holds changes the value under
/// that key and nothing else: every node keeps its path, its selectors and
/// its children count.
pub proof fn law_replacement(t: Tree, key: Seq<u8>, value: u64)
    requires
        t.wf_root(),
        t.lookup(key) is Some,
    ensures
        same_layout(t.inserted(key, value), t),
        t.inserted(key, value).count() == t.count(),
        t.inserted(key, value).kind() == t.kind(),
    decreases t,
{
    match t {
        Tree::Empty => {},
        Tree::Leaf { .. } => {},
        Tree::Inner { path, kids } => {
            let rest = key.skip(path.len() as int);
            let sel = Cell::of(rest);
            let child = kids[sel].inserted(rest, value);
            let next = kids.insert(sel, child);
            law_replacement(kids[sel], rest, value);
            assert(next.dom() =~= kids.dom());
            assert forall|c: Cell| #[trigger] next.contains_key(c) implies same_layout(
                next[c],
                kids[c],
            ) by {
                if c != sel {
                    lemma_same_layout_refl(kids[c]);
                }
            }
        },
    }
}

/// Children count. Insertion makes the children count of the node that it
/// returns: one for a fresh leaf, two for a fresh split, and for a dispatch
/// node that the key passes through one more than before where the key gets
/// an entry of its own there, else as many as before.
pub proof fn law_count_after_insert(t: Tree, key: Seq<u8>, value: u64)
    requires
        t.wf_root(),
    ensures
        t.inserted(key, value).count() == (if t is Empty {
            1
        } else if splits(t, key) {
            2
        } else if t is Leaf {
            1
        } else if t->kids.contains_key(Cell::of(key.skip(t.path().len() as int))) {
            t.count()
        } else {
            t.count() + 1
        }),
        t.inserted(key, value).kind() == (if t is Empty || t is Leaf && !splits(t, key) {
            crate::tree::Kind::Leaf
        } else {
            crate::tree::Kind::holding(t.inserted(key, value).count())
        }),
{
    match t {
        Tree::Empty => {},
        Tree::Leaf { path, .. } => {
            if key != path {
                lemma_split_wf(t, key, value);
            }
        },
        Tree::Inner { path, kids } => {
            let rest = key.skip(path.len() as int);
            let sel = Cell::of(rest);
            if !path.is_prefix_of(key) {
                lemma_split_wf(t, key, value);
            } else if kids.contains_key(sel) {
                assert(kids.insert(sel, kids[sel].inserted(rest, value)).dom() =~= kids.dom());
            }
        },
    }
}

/// Deleting a key that the tree does not hold leaves the tree as it is.
pub proof fn law_delete_absent(t: Tree, key: Seq<u8>)
    requires
        t.wf_root(),
        t.lookup(key) is None,
    ensures
        t.removed(key) == t,
    decreases t,
{
    match t {
        Tree::Inner { path, kids } => {
            let rest = key.skip(path.len() as int);
            let sel = Cell::of(rest);
            if path.is_prefix_of(key) && kids.contains_key(sel) {
                law_delete_absent(kids[sel], rest);
                assert(kids.insert(sel, kids[sel]) =~= kids);
            }
        },
        _ => {},
    }
}

/// Deleting the key of a fresh split gives back the tree that was split,
/// unless the key runs on behind the leaf that was split.
pub proof fn lemma_split_undone(t: Tree, key: Seq<u8>, value: u64)
    requires
        t.wf(),
        splits(t, key),
        !t.extends_leaf(key),
    ensures
        t.split(key, value).removed(key) == t,
{
    let p = t.path();
    let n = common_prefix_len(p, key) as int;
    lemma_common_prefix(p, key);
    let mine = p.skip(n);
    let theirs = key.skip(n);
    let a = Cell::of(mine);
    let b = Cell::of(theirs);
    let cp = key.take(n);
    assert(a != b) by {
        if n == p.len() && n == key.len() {
            assert(key =~= key.take(n));
        }
    }
    let kept = t.with_path(mine);
    let leaf = Tree::Leaf { path: theirs, value };
    let m = Map::<Cell, Tree>::empty().insert(a, kept).insert(b, leaf);
    assert(leaf.removed(theirs) is Empty);
    let left = m.remove(b);
    lemma_singleton(left.dom(), a);
    assert(mine.len() > 0);
    assert(cp + mine =~= p);
}

/// Deletion inverse. Deleting a key right after it has been inserted gives
/// back the tree as it was before, for every key that the tree did not hold
/// and that does not run on behind one of its leaves.
///
/// (Where the key does run on behind a leaf, the insertion turns the leaf
/// into a dispatch node with the leaf under `End`, and the deletion leaves
/// that node in place, since a single child under `End` is not merged.)
pub proof fn law_delete_undoes_insert(t: Tree, key: Seq<u8>, value: u64)
    requires
        t.wf_root(),
        t.lookup(key) is None,
        !t.extends_leaf(key),
    ensures
        t.inserted(key, value).removed(key) == t,
    decreases t,
{
    match t {
        Tree::Empty => {},
        Tree::Leaf { path, .. } => {
            lemma_split_undone(t, key, value);
        },
        Tree::Inner { path, kids } => {
            let rest = key.skip(path.len() as int);
            let sel = Cell::of(rest);
            if !path.is_prefix_of(key) {
                lemma_split_undone(t, key, value);
            } else if kids.contains_key(sel) {
                let child = kids[sel];
                law_delete_undoes_insert(child, rest, value);
                let grown = child.inserted(rest, value);
                let next = kids.insert(sel, grown);
                assert(next.insert(sel, child) =~= kids);
            } else {
                let leaf = Tree::Leaf { path: rest, value };
                let next = kids.insert(sel, leaf);
                assert(leaf.removed(rest) is Empty);
                assert(next.remove(sel) =~= kids);
            }
        },
    }
}

} // verus!
