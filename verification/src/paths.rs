//! Relative paths as sequences of directory components.
//!
//! A path beneath the gallery root is a list of components; the root is the
//! empty list.  The tree and scanner place nodes and images by these
//! components, so prefix tests and equality are the central operations.

use vstd::prelude::*;

verus! {

/// The view of a component list: each component as its character sequence.
pub open spec fn path_view(p: Seq<String>) -> Seq<Seq<char>> {
    p.map_values(|s: String| s@)
}

/// `p` is a (not necessarily strict) prefix of `q`.
pub open spec fn is_path_prefix(p: Seq<Seq<char>>, q: Seq<Seq<char>>) -> bool {
    p.len() <= q.len() && q.take(p.len() as int) == p
}

/// Component-wise equality of two paths.
pub fn path_eq(a: &Vec<String>, b: &Vec<String>) -> (r: bool)
    ensures
        r == (path_view(a@) == path_view(b@)),
{
    if a.len() != b.len() {
        assert(path_view(a@).len() != path_view(b@).len());
        return false;
    }
    let n: usize = a.len();
    for i in 0..n
        invariant
            n == a@.len() == b@.len(),
            forall|j: int| 0 <= j < i ==> path_view(a@)[j] == path_view(b@)[j],
    {
        if !a[i].eq(&b[i]) {
            assert(path_view(a@)[i as int] != path_view(b@)[i as int]);
            return false;
        }
    }
    proof {
        assert(path_view(a@) =~= path_view(b@));
    }
    true
}

/// Does `full` start with the components of `pre`?
pub fn path_starts_with(full: &Vec<String>, pre: &Vec<String>) -> (r: bool)
    ensures
        r == is_path_prefix(path_view(pre@), path_view(full@)),
{
    if pre.len() > full.len() {
        return false;
    }
    let n: usize = pre.len();
    for i in 0..n
        invariant
            n == pre@.len(),
            n <= full@.len(),
            forall|j: int| 0 <= j < i ==> path_view(full@)[j] == path_view(pre@)[j],
    {
        if !full[i].eq(&pre[i]) {
            assert(path_view(full@)[i as int] != path_view(pre@)[i as int]);
            assert(!is_path_prefix(path_view(pre@), path_view(full@))) by {
                if is_path_prefix(path_view(pre@), path_view(full@)) {
                    assert(path_view(full@).take(n as int)[i as int] == path_view(pre@)[i as int]);
                }
            }
            return false;
        }
    }
    proof {
        assert(path_view(full@).take(n as int) =~= path_view(pre@));
    }
    true
}

/// The components joined with `/` separators; the empty path joins to the
/// empty string.
pub open spec fn spec_join(p: Seq<Seq<char>>) -> Seq<char>
    decreases p.len(),
{
    if p.len() == 0 {
        Seq::empty()
    } else if p.len() == 1 {
        p[0]
    } else {
        spec_join(p.drop_last()) + seq!['/'] + p.last()
    }
}

/// Joins the components with `/` separators.
pub fn join_path(p: &Vec<String>) -> (r: String)
    ensures
        r@ == spec_join(path_view(p@)),
{
    let mut r = String::new();
    let n: usize = p.len();
    proof {
        reveal_strlit("/");
        assert(path_view(p@).take(0) =~= Seq::<Seq<char>>::empty());
    }
    for i in 0..n
        invariant
            n == p@.len(),
            r@ == spec_join(path_view(p@).take(i as int)),
    {
        let ghost pv = path_view(p@);
        proof {
            assert(pv.take(i as int + 1).drop_last() =~= pv.take(i as int));
            assert(pv.take(i as int + 1).last() == pv[i as int]);
        }
        if i > 0 {
            r.append("/");
            proof {
                reveal_strlit("/");
                assert("/"@ =~= seq!['/']);
            }
        }
        r.append(p[i].as_str());
        proof {
            assert(r@ == spec_join(pv.take(i as int + 1)));
        }
    }
    proof {
        assert(path_view(p@).take(n as int) =~= path_view(p@));
    }
    r
}

/// Appending a component to a joined path adds one separator and the
/// component; on an empty path it is the whole result.
pub proof fn lemma_spec_join_push(p: Seq<Seq<char>>, x: Seq<char>)
    ensures
        spec_join(p.push(x)) == if p.len() == 0 {
            x
        } else {
            spec_join(p) + seq!['/'] + x
        },
{
    assert(p.push(x).drop_last() =~= p);
    assert(p.push(x).last() == x);
    if p.len() == 0 {
        assert(p.push(x)[0] == x);
    }
}

/// Splits a path string into its `/`-separated components: joining the
/// result gives the input back, no component holds a separator, and only
/// the empty string splits into no components.
#[verifier::loop_isolation(false)]
pub fn split_path(s: &str) -> (r: Vec<String>)
    ensures
        spec_join(path_view(r@)) == s@,
        forall|i: int, j: int|
            0 <= i < r@.len() && 0 <= j < r@[i]@.len() ==> r@[i]@[j] != '/',
        (s@.len() == 0) <==> (r@.len() == 0),
{
    let len: usize = s.unicode_len();
    let mut comps: Vec<String> = Vec::new();
    if len == 0 {
        proof {
            assert(path_view(comps@) =~= Seq::<Seq<char>>::empty());
        }
        return comps;
    }
    let mut cur = String::new();
    let mut i: usize = 0;
    while i < len
        invariant
            i <= len,
            spec_join(path_view(comps@).push(cur@)) == s@.take(i as int),
            forall|q: int| 0 <= q < cur@.len() ==> cur@[q] != '/',
            forall|q: int, j: int|
                0 <= q < comps@.len() && 0 <= j < comps@[q]@.len() ==> comps@[q]@[j] != '/',
        decreases len - i,
    {
        let c = s.get_char(i);
        let ghost pv = path_view(comps@);
        let ghost cur0 = cur@;
        if c == '/' {
            comps.push(cur);
            cur = String::new();
            proof {
                assert(path_view(comps@) =~= pv.push(cur0));
                lemma_spec_join_push(pv, cur0);
                lemma_spec_join_push(pv.push(cur0), cur@);
                assert(spec_join(path_view(comps@).push(cur@)) =~= s@.take(i as int + 1)) by {
                    assert(s@.take(i as int + 1) =~= s@.take(i as int).push('/'));
                }
            }
        } else {
            cur.push(c);
            proof {
                lemma_spec_join_push(pv, cur0);
                lemma_spec_join_push(pv, cur@);
                assert(cur@ == cur0.push(c));
                assert(spec_join(pv.push(cur@)) =~= s@.take(i as int + 1)) by {
                    assert(s@.take(i as int + 1) =~= s@.take(i as int).push(c));
                }
            }
        }
        i = i + 1;
    }
    let ghost pv = path_view(comps@);
    let ghost cur0 = cur@;
    comps.push(cur);
    proof {
        assert(path_view(comps@) =~= pv.push(cur0));
        assert(s@.take(len as int) =~= s@);
    }
    comps
}

/// A copy of a component list, equal in view.
pub fn clone_path(p: &Vec<String>) -> (r: Vec<String>)
    ensures
        path_view(r@) == path_view(p@),
        r@.len() == p@.len(),
{
    let r = p.clone();
    proof {
        assert(path_view(r@) =~= path_view(p@));
    }
    r
}

/// Strict lexicographic order on character sequences, by character value.
pub open spec fn str_lt(a: Seq<char>, b: Seq<char>) -> bool
    decreases a.len(),
{
    if b.len() == 0 {
        false
    } else if a.len() == 0 {
        true
    } else if a[0] == b[0] {
        str_lt(a.skip(1), b.skip(1))
    } else {
        (a[0] as int) < (b[0] as int)
    }
}

/// Two character sequences are ordered one way or the other, or equal.
pub proof fn lemma_str_lt_trichotomy(a: Seq<char>, b: Seq<char>)
    ensures
        str_lt(a, b) || str_lt(b, a) || a == b,
    decreases a.len(),
{
    if a.len() == 0 && b.len() == 0 {
        assert(a =~= b);
    } else if a.len() > 0 && b.len() > 0 && a[0] == b[0] {
        lemma_str_lt_trichotomy(a.skip(1), b.skip(1));
        if !str_lt(a, b) && !str_lt(b, a) {
            assert(a.skip(1) == b.skip(1));
            assert(a =~= b) by {
                assert(forall|i: int| 1 <= i < a.len() ==> a[i] == a.skip(1)[i - 1]);
                assert(forall|i: int| 1 <= i < b.len() ==> b[i] == b.skip(1)[i - 1]);
            }
        }
    }
}

/// The lexicographic order is transitive.
pub proof fn lemma_str_lt_trans(a: Seq<char>, b: Seq<char>, c: Seq<char>)
    requires
        str_lt(a, b),
        str_lt(b, c),
    ensures
        str_lt(a, c),
    decreases a.len() + b.len() + c.len(),
{
    if a.len() > 0 && b.len() > 0 && c.len() > 0 {
        if a[0] == b[0] && b[0] == c[0] {
            lemma_str_lt_trans(a.skip(1), b.skip(1), c.skip(1));
        }
    }
}

/// Compares two strings in the lexicographic order of their characters.
#[verifier::loop_isolation(false)]
pub fn str_less(a: &str, b: &str) -> (r: bool)
    ensures
        r == str_lt(a@, b@),
{
    let alen: usize = a.unicode_len();
    let blen: usize = b.unicode_len();
    let mut i: usize = 0;
    proof {
        assert(a@.skip(0) =~= a@);
        assert(b@.skip(0) =~= b@);
    }
    while i < alen && i < blen
        invariant
            i <= alen,
            i <= blen,
            str_lt(a@, b@) == str_lt(a@.skip(i as int), b@.skip(i as int)),
        decreases alen - i,
    {
        let ca = a.get_char(i);
        let cb = b.get_char(i);
        proof {
            assert(a@.skip(i as int)[0] == a@[i as int]);
            assert(b@.skip(i as int)[0] == b@[i as int]);
            assert(a@.skip(i as int).skip(1) =~= a@.skip(i as int + 1));
            assert(b@.skip(i as int).skip(1) =~= b@.skip(i as int + 1));
        }
        if !(ca == cb) {
            return (ca as u32) < (cb as u32);
        }
        i = i + 1;
    }
    proof {
        if i >= alen {
            assert(a@.skip(i as int) =~= Seq::<char>::empty());
        }
        if i >= blen {
            assert(b@.skip(i as int) =~= Seq::<char>::empty());
        }
    }
    alen < blen
}

} // verus!
