//! Sets of directories under the install directory. A path is its components;
//! a set is kept in ascending order, in which a directory comes before
//! everything below it.
use crate::text::{chars_of, texts};
use vstd::prelude::*;

verus! {

/// The paths that vectors of components hold.
pub open spec fn paths(dirs: Seq<Vec<String>>) -> Seq<Seq<Seq<char>>> {
    dirs.map_values(|dir: Vec<String>| texts(dir@))
}

/// The order of texts: by the first character that differs, a shorter text
/// before its continuations.
pub open spec fn text_less(a: Seq<char>, b: Seq<char>) -> bool
    decreases b.len(),
{
    if b.len() == 0 {
        false
    } else if a.len() == 0 {
        true
    } else if a[0] != b[0] {
        a[0] < b[0]
    } else {
        text_less(a.skip(1), b.skip(1))
    }
}

/// The order of paths: by the first component that differs, a directory before
/// what is below it.
pub open spec fn path_less(a: Seq<Seq<char>>, b: Seq<Seq<char>>) -> bool
    decreases b.len(),
{
    if b.len() == 0 {
        false
    } else if a.len() == 0 {
        true
    } else if a[0] != b[0] {
        text_less(a[0], b[0])
    } else {
        path_less(a.skip(1), b.skip(1))
    }
}

/// A set of paths is kept in ascending order, each path once.
pub open spec fn ordered(dirs: Seq<Seq<Seq<char>>>) -> bool {
    forall|i: int, j: int| 0 <= i < j < dirs.len() ==> path_less(dirs[i], dirs[j])
}

/// The set with one more path.
pub open spec fn with_dir(dirs: Seq<Seq<Seq<char>>>, dir: Seq<Seq<char>>) -> Seq<Seq<Seq<char>>>
    decreases dirs.len(),
{
    if dirs.len() == 0 {
        seq![dir]
    } else if dirs.last() == dir {
        dirs
    } else if path_less(dirs.last(), dir) {
        dirs.push(dir)
    } else {
        with_dir(dirs.drop_last(), dir).push(dirs.last())
    }
}

// ---------------------------------------------------------------------------
// The order
// ---------------------------------------------------------------------------

proof fn lemma_text_total(a: Seq<char>, b: Seq<char>)
    ensures
        a == b || text_less(a, b) || text_less(b, a),
    decreases b.len(),
{
    if a.len() > 0 && b.len() > 0 && a[0] == b[0] {
        lemma_text_total(a.skip(1), b.skip(1));
        if a.skip(1) == b.skip(1) {
            assert(a == seq![a[0]] + a.skip(1));
            assert(b == seq![b[0]] + b.skip(1));
        }
    } else if a.len() == 0 && b.len() == 0 {
        assert(a == b);
    }
}

proof fn lemma_text_chain(a: Seq<char>, b: Seq<char>, c: Seq<char>)
    requires
        text_less(a, b),
        text_less(b, c),
    ensures
        text_less(a, c),
    decreases c.len(),
{
    if a.len() > 0 && a[0] == b[0] && b[0] == c[0] {
        lemma_text_chain(a.skip(1), b.skip(1), c.skip(1));
    }
}

proof fn lemma_text_irreflexive(a: Seq<char>)
    ensures
        !text_less(a, a),
    decreases a.len(),
{
    if a.len() > 0 {
        lemma_text_irreflexive(a.skip(1));
    }
}

/// Of two different paths one comes first.
pub proof fn lemma_path_total(a: Seq<Seq<char>>, b: Seq<Seq<char>>)
    ensures
        a == b || path_less(a, b) || path_less(b, a),
    decreases b.len(),
{
    if a.len() > 0 && b.len() > 0 {
        if a[0] == b[0] {
            lemma_path_total(a.skip(1), b.skip(1));
            if a.skip(1) == b.skip(1) {
                assert(a == seq![a[0]] + a.skip(1));
                assert(b == seq![b[0]] + b.skip(1));
            }
        } else {
            lemma_text_total(a[0], b[0]);
        }
    } else if a.len() == 0 && b.len() == 0 {
        assert(a == b);
    }
}

/// What comes before a path comes before all that follows it.
pub proof fn lemma_path_chain(a: Seq<Seq<char>>, b: Seq<Seq<char>>, c: Seq<Seq<char>>)
    requires
        path_less(a, b),
        path_less(b, c),
    ensures
        path_less(a, c),
    decreases c.len(),
{
    if a.len() > 0 {
        if a[0] == b[0] && b[0] == c[0] {
            lemma_path_chain(a.skip(1), b.skip(1), c.skip(1));
        } else if a[0] != b[0] && b[0] != c[0] {
            lemma_text_chain(a[0], b[0], c[0]);
            if a[0] == c[0] {
                lemma_text_irreflexive(a[0]);
            }
        }
    }
}

/// No path comes before itself.
pub proof fn lemma_path_irreflexive(a: Seq<Seq<char>>)
    ensures
        !path_less(a, a),
    decreases a.len(),
{
    if a.len() > 0 {
        lemma_path_irreflexive(a.skip(1));
    }
}

/// A directory comes before everything below it, so that the set taken from
/// its end gives the deepest directories first.
pub proof fn law_parent_comes_first(dir: Seq<Seq<char>>, path: Seq<Seq<char>>)
    requires
        dir.len() < path.len(),
        path.take(dir.len() as int) == dir,
    ensures
        path_less(dir, path),
    decreases dir.len(),
{
    if dir.len() > 0 {
        assert(dir[0] == path[0]) by {
            assert(path.take(dir.len() as int)[0] == path[0]);
        }
        assert(path.skip(1).take(dir.len() - 1) == dir.skip(1)) by {
            assert(path.skip(1).take(dir.len() - 1) == path.take(dir.len() as int).skip(1));
        }
        law_parent_comes_first(dir.skip(1), path.skip(1));
    }
}

/// Adding a path keeps the order, and adds that path alone.
pub proof fn lemma_with_dir(dirs: Seq<Seq<Seq<char>>>, dir: Seq<Seq<char>>)
    requires
        ordered(dirs),
    ensures
        ordered(with_dir(dirs, dir)),
        forall|d: Seq<Seq<char>>| #[trigger]
            with_dir(dirs, dir).contains(d) <==> dirs.contains(d) || d == dir,
    decreases dirs.len(),
{
    let out = with_dir(dirs, dir);
    if dirs.len() == 0 {
        lemma_contains_push(dirs, dir);
        assert(out == dirs.push(dir));
    } else if dirs.last() == dir {
        assert(dirs[dirs.len() - 1] == dir);
    } else if path_less(dirs.last(), dir) {
        assert forall|i: int, j: int| 0 <= i < j < out.len() implies path_less(out[i], out[j]) by {
            if j == dirs.len() {
                if i < dirs.len() - 1 {
                    assert(path_less(dirs[i], dirs[dirs.len() - 1]));
                    lemma_path_chain(dirs[i], dirs.last(), dir);
                }
            } else {
                assert(path_less(dirs[i], dirs[j]));
            }
        }
        lemma_contains_push(dirs, dir);
    } else {
        let init = dirs.drop_last();
        assert forall|i: int, j: int| 0 <= i < j < init.len() implies path_less(init[i], init[j]) by {
            assert(path_less(dirs[i], dirs[j]));
        }
        lemma_with_dir(init, dir);
        let inner = with_dir(init, dir);
        lemma_path_total(dirs.last(), dir);
        assert forall|i: int, j: int| 0 <= i < j < out.len() implies path_less(out[i], out[j]) by {
            if j == inner.len() {
                assert(inner.contains(inner[i]));
                if inner[i] != dir {
                    let k = choose|k: int| 0 <= k < init.len() && init[k] == inner[i];
                    assert(path_less(dirs[k], dirs[dirs.len() - 1]));
                }
            } else {
                assert(path_less(inner[i], inner[j]));
            }
        }
        lemma_contains_push(inner, dirs.last());
        lemma_contains_push(init, dirs.last());
        assert(init.push(dirs.last()) == dirs);
    }
}

proof fn lemma_contains_push(dirs: Seq<Seq<Seq<char>>>, dir: Seq<Seq<char>>)
    ensures
        forall|d: Seq<Seq<char>>| #[trigger]
            dirs.push(dir).contains(d) <==> dirs.contains(d) || d == dir,
{
    let out = dirs.push(dir);
    assert forall|d: Seq<Seq<char>>| out.contains(d) <==> dirs.contains(d) || d == dir by {
        if dirs.contains(d) {
            let k = choose|k: int| 0 <= k < dirs.len() && dirs[k] == d;
            assert(out[k] == d);
        }
        if d == dir {
            assert(out[dirs.len() as int] == d);
        }
    }
}

// ---------------------------------------------------------------------------
// The set
// ---------------------------------------------------------------------------

/// Whether text `a` comes before text `b`.
fn text_before(a: &String, b: &String) -> (before: bool)
    ensures
        before == text_less(a@, b@),
{
    let left = chars_of(a.as_str());
    let right = chars_of(b.as_str());
    let mut i: usize = 0;
    proof {
        assert(a@.skip(0) == a@);
        assert(b@.skip(0) == b@);
    }
    while i < left.len() && i < right.len() && left[i] == right[i]
        invariant
            left@ == a@,
            right@ == b@,
            i <= left.len(),
            i <= right.len(),
            text_less(a@, b@) == text_less(a@.skip(i as int), b@.skip(i as int)),
        decreases left.len() - i,
    {
        proof {
            assert(a@.skip(i as int).skip(1) == a@.skip(i + 1));
            assert(b@.skip(i as int).skip(1) == b@.skip(i + 1));
        }
        i += 1;
    }
    if i >= right.len() {
        false
    } else if i >= left.len() {
        true
    } else {
        left[i] < right[i]
    }
}

/// Whether two paths are the same.
fn same_path(a: &Vec<String>, b: &Vec<String>) -> (same: bool)
    ensures
        same == (texts(a@) == texts(b@)),
{
    if a.len() != b.len() {
        proof {
            assert(texts(a@).len() != texts(b@).len());
        }
        return false;
    }
    for i in 0..a.len()
        invariant
            a@.len() == b@.len(),
            forall|k: int| 0 <= k < i ==> texts(a@)[k] == texts(b@)[k],
    {
        if a[i] != b[i] {
            proof {
                assert(texts(a@)[i as int] != texts(b@)[i as int]);
            }
            return false;
        }
    }
    proof {
        assert(texts(a@) == texts(b@));
    }
    true
}

/// Whether path `a` comes before path `b`.
fn path_before(a: &Vec<String>, b: &Vec<String>) -> (before: bool)
    ensures
        before == path_less(texts(a@), texts(b@)),
{
    let ghost left = texts(a@);
    let ghost right = texts(b@);
    let mut i: usize = 0;
    proof {
        assert(left.skip(0) == left);
        assert(right.skip(0) == right);
    }
    while i < a.len() && i < b.len() && a[i] == b[i]
        invariant
            left == texts(a@),
            right == texts(b@),
            i <= a.len(),
            i <= b.len(),
            path_less(left, right) == path_less(left.skip(i as int), right.skip(i as int)),
        decreases a.len() - i,
    {
        proof {
            assert(left.skip(i as int).skip(1) == left.skip(i + 1));
            assert(right.skip(i as int).skip(1) == right.skip(i + 1));
            assert(left.skip(i as int)[0] == a@[i as int]@);
            assert(right.skip(i as int)[0] == b@[i as int]@);
        }
        i += 1;
    }
    if i >= b.len() {
        false
    } else if i >= a.len() {
        true
    } else {
        proof {
            assert(left.skip(i as int)[0] == a@[i as int]@);
            assert(right.skip(i as int)[0] == b@[i as int]@);
        }
        text_before(&a[i], &b[i])
    }
}

/// Adds a path to a set of paths.
pub fn insert_dir(dirs: &mut Vec<Vec<String>>, dir: Vec<String>)
    ensures
        paths(final(dirs)@) == with_dir(paths(old(dirs)@), texts(dir@)),
{
    let ghost all = paths(dirs@);
    let ghost new = texts(dir@);
    let mut at: usize = dirs.len();
    proof {
        assert(all.take(at as int) == all);
        assert(with_dir(all, new) + all.skip(at as int) == with_dir(all, new));
    }
    while at > 0
        invariant
            all == paths(old(dirs)@),
            paths(dirs@) == all,
            new == texts(dir@),
            at <= all.len(),
            with_dir(all, new) == with_dir(all.take(at as int), new) + all.skip(at as int),
        decreases at,
    {
        let ghost here = texts(dirs@[at - 1]@);
        proof {
            assert(all[at - 1] == here);
            assert(all.take(at as int).last() == here);
            assert(all.take(at as int).drop_last() == all.take(at - 1));
            assert(all.take(at as int) + all.skip(at as int) == all);
        }
        if same_path(&dirs[at - 1], &dir) {
            return;
        }
        if path_before(&dirs[at - 1], &dir) {
            let ghost before = dirs@;
            dirs.insert(at, dir);
            proof {
                assert(dirs@ == before.insert(at as int, dir));
                assert(paths(dirs@) == all.take(at as int).push(new) + all.skip(at as int));
            }
            return;
        }
        proof {
            assert(with_dir(all.take(at - 1), new).push(here) + all.skip(at as int) == with_dir(
                all.take(at - 1),
                new,
            ) + all.skip(at - 1)) by {
                assert(all.skip(at - 1) == seq![here] + all.skip(at as int));
            }
        }
        at -= 1;
    }
    let ghost before = dirs@;
    dirs.insert(0, dir);
    proof {
        assert(all.take(0) == Seq::<Seq<Seq<char>>>::empty());
        assert(dirs@ == before.insert(0, dir));
        assert(paths(dirs@) == seq![new] + all.skip(0));
    }
}

// ---------------------------------------------------------------------------
// Laws: the order
// ---------------------------------------------------------------------------

/// Texts are ordered by the code point of the first character that differs.
pub proof fn law_text_order(front: Seq<char>, a: Seq<char>, b: Seq<char>)
    requires
        a.len() > 0,
        b.len() > 0,
        a[0] != b[0],
    ensures
        text_less(front + a, front + b) <==> (a[0] as int) < b[0] as int,
        text_less(front, front + a),
        !text_less(front + a, front),
    decreases front.len(),
{
    if front.len() == 0 {
        assert(front + a == a);
        assert(front + b == b);
    } else {
        let rest = front.skip(1);
        law_text_order(rest, a, b);
        assert((front + a).skip(1) == rest + a);
        assert((front + b).skip(1) == rest + b);
        assert((front + a)[0] == front[0]);
        assert((front + b)[0] == front[0]);
    }
}

/// Paths are ordered by the first component that differs.
pub proof fn law_path_order(front: Seq<Seq<char>>, a: Seq<Seq<char>>, b: Seq<Seq<char>>)
    requires
        a.len() > 0,
        b.len() > 0,
        a[0] != b[0],
    ensures
        path_less(front + a, front + b) <==> text_less(a[0], b[0]),
        path_less(front, front + a),
        !path_less(front + a, front),
    decreases front.len(),
{
    if front.len() == 0 {
        assert(front + a == a);
        assert(front + b == b);
    } else {
        let rest = front.skip(1);
        law_path_order(rest, a, b);
        assert((front + a).skip(1) == rest + a);
        assert((front + b).skip(1) == rest + b);
        assert((front + a)[0] == front[0]);
        assert((front + b)[0] == front[0]);
    }
}

/// A set with one more path holds that path and what it held, in order.
pub proof fn law_set_with_one_more(
    dirs: Seq<Seq<Seq<char>>>,
    dir: Seq<Seq<char>>,
    other: Seq<Seq<char>>,
)
    requires
        forall|i: int, j: int| 0 <= i < j < dirs.len() ==> path_less(dirs[i], dirs[j]),
    ensures
        with_dir(dirs, dir).contains(other) <==> dirs.contains(other) || other == dir,
        forall|i: int, j: int|
            0 <= i < j < with_dir(dirs, dir).len() ==> path_less(
                with_dir(dirs, dir)[i],
                with_dir(dirs, dir)[j],
            ),
{
    lemma_with_dir(dirs, dir);
}

} // verus!
