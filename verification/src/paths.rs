//! `/`-separated paths relative to the traced root; the empty path is the root.

use crate::text::{copy_of, part, push_all};
use vstd::prelude::*;

verus! {

/// The index of the last slash, or -1.
pub open spec fn last_slash(p: Seq<char>) -> int
    decreases p.len(),
{
    if p.len() == 0 {
        -1
    } else if p.last() == '/' {
        p.len() - 1
    } else {
        last_slash(p.drop_last())
    }
}

/// What stands before the last slash; empty if there is none.
pub open spec fn parent(p: Seq<char>) -> Seq<char> {
    if last_slash(p) < 0 {
        Seq::empty()
    } else {
        p.take(last_slash(p))
    }
}

/// What stands after the last slash.
pub open spec fn file_name(p: Seq<char>) -> Seq<char> {
    p.skip(last_slash(p) + 1)
}

/// The names that lead from the root to a path. Repeated slashes count as one.
pub open spec fn components(p: Seq<char>) -> Seq<Seq<char>>
    decreases p.len(),
{
    if p.len() == 0 {
        Seq::empty()
    } else {
        proof {
            lemma_last_slash(p);
        }
        if file_name(p).len() == 0 {
            components(parent(p))
        } else {
            components(parent(p)).push(file_name(p))
        }
    }
}

/// The path of `name` inside the directory `prefix`.
pub open spec fn joined_path(prefix: Seq<char>, name: Seq<char>) -> Seq<char> {
    if prefix.len() == 0 {
        name
    } else {
        prefix + seq!['/'] + name
    }
}

pub proof fn lemma_last_slash(p: Seq<char>)
    ensures
        -1 <= last_slash(p) < p.len(),
        last_slash(p) >= 0 ==> p[last_slash(p)] == '/',
        forall|i: int| last_slash(p) < i < p.len() ==> p[i] != '/',
    decreases p.len(),
{
    if p.len() > 0 && p.last() != '/' {
        let q = p.drop_last();
        lemma_last_slash(q);
        assert forall|i: int| last_slash(p) < i < p.len() implies p[i] != '/' by {
            if i < q.len() {
                assert(q[i] == p[i]);
            }
        }
    }
}

/// The last slash is the only index that fits the description.
pub proof fn lemma_last_slash_is(p: Seq<char>, i: int)
    requires
        -1 <= i < p.len(),
        i >= 0 ==> p[i] == '/',
        forall|j: int| i < j < p.len() ==> p[j] != '/',
    ensures
        last_slash(p) == i,
{
    lemma_last_slash(p);
}

/// The names on the way to the parent lead on to the path itself.
pub proof fn lemma_components_parent(p: Seq<char>)
    ensures
        components(p) == (if file_name(p).len() == 0 {
            components(parent(p))
        } else {
            components(parent(p)).push(file_name(p))
        }),
{
    lemma_last_slash(p);
    if p.len() == 0 {
        assert(parent(p) =~= p);
        assert(file_name(p).len() == 0);
    }
}

/// A path that ends in a run `seg` without slashes, after a slash at `st - 1`.
pub proof fn lemma_components_segment(p: Seq<char>, st: int, end: int)
    requires
        0 <= st <= end <= p.len(),
        st > 0 ==> p[st - 1] == '/',
        forall|j: int| st <= j < end ==> p[j] != '/',
    ensures
        components(p.take(end)) == (if st == end {
            components(p.take(if st > 0 { st - 1 } else { 0 }))
        } else {
            components(p.take(if st > 0 { st - 1 } else { 0 })).push(p.subrange(st, end))
        }),
{
    let q = p.take(end);
    lemma_last_slash_is(q, st - 1);
    lemma_components_parent(q);
    assert(file_name(q) =~= p.subrange(st, end));
    if st > 0 {
        assert(parent(q) =~= p.take(st - 1));
    } else {
        assert(parent(q) =~= p.take(0));
    }
}

pub proof fn lemma_components_empty(p: Seq<char>)
    requires
        p.len() == 0,
    ensures
        components(p) == Seq::<Seq<char>>::empty(),
{
    lemma_last_slash(p);
}

/// The parent and the name of a path.
pub fn split(p: &[char]) -> (r: (&[char], &[char]))
    ensures
        r.0@ == parent(p@),
        r.1@ == file_name(p@),
{
    let mut n: usize = p.len();
    while n > 0 && p[n - 1] != '/'
        invariant
            n <= p.len(),
            forall|j: int| n <= j < p.len() ==> p@[j] != '/',
        decreases n,
    {
        n -= 1;
    }
    proof {
        lemma_last_slash_is(p@, n - 1);
    }
    let name = part(p, n, p.len());
    assert(name@ =~= file_name(p@));
    if n == 0 {
        let head = part(p, 0, 0);
        assert(head@ =~= parent(p@));
        (head, name)
    } else {
        let head = part(p, 0, n - 1);
        assert(head@ =~= parent(p@));
        (head, name)
    }
}

/// The path of `name` inside the directory `prefix`.
pub fn join(prefix: &[char], name: &[char]) -> (r: Vec<char>)
    ensures
        r@ == joined_path(prefix@, name@),
{
    if prefix.len() == 0 {
        copy_of(name)
    } else {
        let mut r = copy_of(prefix);
        r.push('/');
        push_all(&mut r, name);
        assert(r@ =~= prefix@ + seq!['/'] + name@);
        r
    }
}

} // verus!
