//! Path text: the `SafePath` key type and the segment arithmetic the
//! scanner relies on (a directory's own name, joining a child name onto
//! a parent path).

use vstd::prelude::*;
use vstd::string::StrSliceExecFns;
use vstd::string::StringExecFns;

use crate::config::contains_text;

verus! {

/// A filesystem path that is known to be valid text.
///
/// Construction from raw operating-system paths happens at the edge of
/// the library; everything inside works on the text itself. Two
/// `SafePath`s are equal exactly when their text is equal, which makes
/// the type usable as a unique key.
#[derive(Debug, Clone, Eq, PartialEq, Hash)]
pub struct SafePath {
    pub path: String,
}

impl View for SafePath {
    type V = Seq<char>;

    open spec fn view(&self) -> Seq<char> {
        self.path@
    }
}

impl SafePath {
    #[must_use]
    pub fn new(s: &str) -> (r: Self)
        ensures
            r@ == s@,
    {
        Self { path: s.to_owned() }
    }
}

/// `s` with every trailing separator removed.
pub open spec fn strip_trailing_slashes(s: Seq<char>) -> Seq<char>
    decreases s.len(),
{
    if s.len() > 0 && s.last() == '/' {
        strip_trailing_slashes(s.drop_last())
    } else {
        s
    }
}

/// The suffix of `s` after its last separator (all of `s` when it has
/// none).
pub open spec fn after_last_slash(s: Seq<char>) -> Seq<char>
    decreases s.len(),
{
    if s.len() == 0 {
        s
    } else if s.last() == '/' {
        Seq::empty()
    } else {
        after_last_slash(s.drop_last()).push(s.last())
    }
}

/// A path's own name: its final non-empty segment, or the path itself
/// when it has none (a bare separator, or the empty path).
pub open spec fn own_name(s: Seq<char>) -> Seq<char> {
    if after_last_slash(strip_trailing_slashes(s)).len() > 0 {
        after_last_slash(strip_trailing_slashes(s))
    } else {
        s
    }
}

/// The text of the path for the entry `name` directly inside `parent`.
pub open spec fn join_texts(parent: Seq<char>, name: Seq<char>) -> Seq<char> {
    if parent.len() > 0 && parent.last() == '/' {
        parent + name
    } else {
        parent + seq!['/'] + name
    }
}

/// `root` extended by each segment of `segs` in turn.
pub open spec fn join_all(root: Seq<char>, segs: Seq<Seq<char>>) -> Seq<char>
    decreases segs.len(),
{
    if segs.len() == 0 {
        root
    } else {
        join_texts(join_all(root, segs.drop_last()), segs.last())
    }
}

/// A single directory name as it can appear inside a path: non-empty
/// and free of separators.
pub open spec fn is_segment(n: Seq<char>) -> bool {
    n.len() > 0 && !n.contains('/')
}

/// A directory name the traversal may step into: a segment that is not
/// an excluded name.
pub open spec fn valid_step(excludes: Seq<String>, name: Seq<char>) -> bool {
    is_segment(name) && !contains_text(excludes, name)
}

/// `p` is `root` extended by the chain `segs`, every link of which is
/// a name the traversal may step into.
pub open spec fn scan_chain(
    root: Seq<char>,
    excludes: Seq<String>,
    segs: Seq<Seq<char>>,
    p: Seq<char>,
) -> bool {
    &&& p == join_all(root, segs)
    &&& forall|i: int| 0 <= i < segs.len() ==> valid_step(excludes, #[trigger] segs[i])
}

/// `p` lies within `bound` levels below `root` on a chain of directory
/// names none of which is excluded.
pub open spec fn candidate_path(
    root: Seq<char>,
    excludes: Seq<String>,
    bound: nat,
    p: Seq<char>,
) -> bool {
    exists|segs: Seq<Seq<char>>|
        segs.len() <= bound && #[trigger] scan_chain(root, excludes, segs, p)
}

/// Joining segments onto a root makes the path longer by at least one
/// character per segment.
proof fn lemma_join_all_len(root: Seq<char>, s: Seq<Seq<char>>)
    requires
        forall|i: int| 0 <= i < s.len() ==> is_segment(#[trigger] s[i]),
    ensures
        join_all(root, s).len() >= root.len() + s.len(),
    decreases s.len(),
{
    if s.len() > 0 {
        assert(forall|i: int|
            0 <= i < s.drop_last().len() ==> is_segment(#[trigger] s.drop_last()[i])) by {
            assert(forall|i: int| 0 <= i < s.len() - 1 ==> s.drop_last()[i] == s[i]);
        }
        lemma_join_all_len(root, s.drop_last());
        assert(is_segment(s[s.len() - 1]));
    }
}

/// The suffix after the last separator of a separator-terminated text
/// extended by separator-free text is that separator-free text.
proof fn lemma_after_last_slash_concat(w: Seq<char>, x: Seq<char>)
    requires
        w.len() > 0,
        w.last() == '/',
        !x.contains('/'),
    ensures
        after_last_slash(w + x) == x,
    decreases x.len(),
{
    if x.len() == 0 {
        assert(w + x =~= w);
        assert(after_last_slash(w) =~= Seq::<char>::empty());
        assert(x =~= Seq::<char>::empty());
    } else {
        assert(x.last() != '/') by {
            if x.last() == '/' {
                assert(x[x.len() - 1] == '/');
                assert(x.contains('/'));
            }
        }
        assert((w + x).last() == x.last());
        assert((w + x).drop_last() =~= w + x.drop_last());
        assert(!x.drop_last().contains('/')) by {
            if x.drop_last().contains('/') {
                let i = choose|i: int| 0 <= i < x.drop_last().len() && x.drop_last()[i] == '/';
                assert(x[i] == '/');
                assert(x.contains('/'));
            }
        }
        lemma_after_last_slash_concat(w, x.drop_last());
        assert(after_last_slash(w + x) == after_last_slash((w + x).drop_last()).push(x.last()));
        assert(x.drop_last().push(x.last()) =~= x);
    }
}

/// A joined path ends in its final segment, and its length is fixed by
/// whether the parent already ends in a separator.
proof fn lemma_join_texts_name(a: Seq<char>, x: Seq<char>)
    requires
        is_segment(x),
    ensures
        after_last_slash(join_texts(a, x)) == x,
        join_texts(a, x).len() == if a.len() > 0 && a.last() == '/' {
            a.len() + x.len()
        } else {
            a.len() + 1 + x.len()
        },
{
    if a.len() > 0 && a.last() == '/' {
        lemma_after_last_slash_concat(a, x);
    } else {
        let w = a + seq!['/'];
        assert(w.last() == '/');
        assert(w + x =~= a + seq!['/'] + x);
        lemma_after_last_slash_concat(w, x);
    }
}

/// A path that ends in a segment does not end in a separator.
proof fn lemma_join_all_last_char(root: Seq<char>, s: Seq<Seq<char>>)
    requires
        s.len() > 0,
        forall|i: int| 0 <= i < s.len() ==> is_segment(#[trigger] s[i]),
    ensures
        join_all(root, s).len() > 0,
        join_all(root, s).last() != '/',
{
    let a = join_all(root, s.drop_last());
    let x = s.last();
    assert(is_segment(s[s.len() - 1]));
    assert(x.last() != '/') by {
        if x.last() == '/' {
            assert(x[x.len() - 1] == '/');
            assert(x.contains('/'));
        }
    }
    if a.len() > 0 && a.last() == '/' {
        assert((a + x).last() == x.last());
    } else {
        assert((a + seq!['/'] + x).last() == x.last());
    }
}

/// Fixing the root, a path determines the chain of segments that was
/// joined onto the root to form it.
proof fn lemma_join_all_injective(root: Seq<char>, s1: Seq<Seq<char>>, s2: Seq<Seq<char>>)
    requires
        forall|i: int| 0 <= i < s1.len() ==> is_segment(#[trigger] s1[i]),
        forall|i: int| 0 <= i < s2.len() ==> is_segment(#[trigger] s2[i]),
        join_all(root, s1) == join_all(root, s2),
    ensures
        s1 == s2,
    decreases s1.len(),
{
    if s1.len() == 0 && s2.len() == 0 {
        assert(s1 =~= s2);
    } else if s1.len() == 0 {
        lemma_join_all_len(root, s2);
        assert(false);
    } else if s2.len() == 0 {
        lemma_join_all_len(root, s1);
        assert(false);
    } else {
        let d1 = s1.drop_last();
        let d2 = s2.drop_last();
        let a1 = join_all(root, d1);
        let a2 = join_all(root, d2);
        let x1 = s1.last();
        let x2 = s2.last();
        let u = join_all(root, s1);
        assert(forall|i: int| 0 <= i < d1.len() ==> is_segment(#[trigger] d1[i])) by {
            assert(forall|i: int| 0 <= i < s1.len() - 1 ==> d1[i] == s1[i]);
        }
        assert(forall|i: int| 0 <= i < d2.len() ==> is_segment(#[trigger] d2[i])) by {
            assert(forall|i: int| 0 <= i < s2.len() - 1 ==> d2[i] == s2[i]);
        }
        assert(is_segment(s1[s1.len() - 1]) && is_segment(s2[s2.len() - 1]));
        lemma_join_texts_name(a1, x1);
        lemma_join_texts_name(a2, x2);
        assert(x1 == x2);
        let e1 = a1.len() > 0 && a1.last() == '/';
        let e2 = a2.len() > 0 && a2.last() == '/';
        if e1 == e2 {
            assert(a1.len() == a2.len());
            if e1 {
                assert(a1 =~= a2) by {
                    assert(forall|i: int| 0 <= i < a1.len() ==> (a1 + x1)[i] == a1[i]);
                    assert(forall|i: int| 0 <= i < a2.len() ==> (a2 + x2)[i] == a2[i]);
                }
            } else {
                assert(a1 =~= a2) by {
                    assert(forall|i: int|
                        0 <= i < a1.len() ==> (a1 + seq!['/'] + x1)[i] == a1[i]);
                    assert(forall|i: int|
                        0 <= i < a2.len() ==> (a2 + seq!['/'] + x2)[i] == a2[i]);
                }
            }
            lemma_join_all_injective(root, d1, d2);
            assert(s1 =~= s2) by {
                assert(s1.len() == s2.len());
                assert(forall|i: int| 0 <= i < s1.len() - 1 ==> s1[i] == d1[i] && s2[i] == d2[i]);
            }
        } else {
            if e1 {
                if d1.len() > 0 {
                    lemma_join_all_last_char(root, d1);
                    assert(false);
                }
                assert(a1 == root);
                assert(a2.len() + 1 == a1.len());
                if d2.len() == 0 {
                    assert(a2 == root);
                    assert(false);
                } else {
                    lemma_join_all_len(root, d2);
                    assert(false);
                }
            } else {
                if d2.len() > 0 {
                    lemma_join_all_last_char(root, d2);
                    assert(false);
                }
                assert(a2 == root);
                assert(a1.len() + 1 == a2.len());
                if d1.len() == 0 {
                    assert(a1 == root);
                    assert(false);
                } else {
                    lemma_join_all_len(root, d1);
                    assert(false);
                }
            }
        }
    }
}

/// Exclusion: a directory that lies below an excluded name is out of
/// the traversal's reach. A path that passes through a segment listed
/// in `excludes` is not a candidate path under any depth bound: no
/// chain of admissible steps from the root forms it.
pub proof fn lemma_excluded_ancestor_not_candidate(
    root: Seq<char>,
    excludes: Seq<String>,
    bound: nat,
    segs: Seq<Seq<char>>,
    i: int,
)
    requires
        forall|k: int| 0 <= k < segs.len() ==> is_segment(#[trigger] segs[k]),
        0 <= i < segs.len(),
        contains_text(excludes, segs[i]),
    ensures
        !candidate_path(root, excludes, bound, join_all(root, segs)),
{
    if candidate_path(root, excludes, bound, join_all(root, segs)) {
        let other = choose|other: Seq<Seq<char>>|
            other.len() <= bound && #[trigger] scan_chain(
                root,
                excludes,
                other,
                join_all(root, segs),
            );
        assert(forall|k: int| 0 <= k < other.len() ==> is_segment(#[trigger] other[k])) by {
            assert(forall|k: int|
                0 <= k < other.len() ==> valid_step(excludes, #[trigger] other[k]));
        }
        lemma_join_all_injective(root, segs, other);
        assert(valid_step(excludes, other[i]));
        assert(false);
    }
}

/// Computes a path's own name (its final non-empty segment, or the
/// path itself when there is none).
pub fn last_segment(s: &str) -> (r: String)
    ensures
        r@ == own_name(s@),
{
    let n = s.unicode_len();
    proof {
        assert(s@.subrange(0, n as int) =~= s@);
    }
    let mut end: usize = n;
    while end > 0 && s.get_char(end - 1) == '/'
        invariant
            0 <= end <= n,
            n == s@.len(),
            strip_trailing_slashes(s@) == strip_trailing_slashes(s@.subrange(0, end as int)),
        decreases end,
    {
        proof {
            assert(s@.subrange(0, end as int).last() == s@[end - 1]);
            assert(s@.subrange(0, end as int).drop_last() =~= s@.subrange(0, end - 1));
        }
        end -= 1;
    }
    proof {
        if end > 0 {
            assert(s@.subrange(0, end as int).last() == s@[end - 1]);
        }
        assert(strip_trailing_slashes(s@) == s@.subrange(0, end as int));
    }
    let mut start: usize = end;
    while start > 0 && s.get_char(start - 1) != '/'
        invariant
            0 <= start <= end <= n,
            n == s@.len(),
            after_last_slash(s@.subrange(0, end as int)) =~= after_last_slash(
                s@.subrange(0, start as int),
            ) + s@.subrange(start as int, end as int),
        decreases start,
    {
        proof {
            assert(s@.subrange(0, start as int).last() == s@[start - 1]);
            assert(s@.subrange(0, start as int).drop_last() =~= s@.subrange(0, start - 1));
            assert(after_last_slash(s@.subrange(0, start as int)) == after_last_slash(
                s@.subrange(0, start - 1),
            ).push(s@[start - 1]));
            assert(after_last_slash(s@.subrange(0, start - 1)).push(s@[start - 1]) + s@.subrange(
                start as int,
                end as int,
            ) =~= after_last_slash(s@.subrange(0, start - 1)) + s@.subrange(start - 1, end as int));
        }
        start -= 1;
    }
    proof {
        if start > 0 {
            assert(s@.subrange(0, start as int).last() == s@[start - 1]);
            assert(after_last_slash(s@.subrange(0, start as int)) =~= Seq::<char>::empty());
        } else {
            assert(s@.subrange(0, 0) =~= Seq::<char>::empty());
        }
        assert(after_last_slash(s@.subrange(0, end as int)) =~= s@.subrange(
            start as int,
            end as int,
        ));
    }
    if start < end {
        let seg = s.substring_char(start, end);
        seg.to_owned()
    } else {
        proof {
            assert(s@.subrange(start as int, end as int).len() == 0);
        }
        s.to_owned()
    }
}

/// Whether the text contains a separator.
pub fn has_slash(s: &String) -> (r: bool)
    ensures
        r == s@.contains('/'),
{
    let n = s.as_str().unicode_len();
    let mut i: usize = 0;
    while i < n
        invariant
            0 <= i <= n,
            n == s@.len(),
            forall|k: int| 0 <= k < i ==> s@[k] != '/',
        decreases n - i,
    {
        if s.as_str().get_char(i) == '/' {
            assert(s@.contains('/'));
            return true;
        }
        i += 1;
    }
    assert(!s@.contains('/'));
    false
}

/// Computes the path of the entry `name` directly inside `parent`.
pub fn join_path(parent: &String, name: &String) -> (r: String)
    ensures
        r@ == join_texts(parent@, name@),
{
    let n = parent.as_str().unicode_len();
    let mut r = parent.clone();
    if n == 0 || parent.as_str().get_char(n - 1) != '/' {
        r.append("/");
        proof {
            reveal_strlit("/");
            assert(("/")@ =~= seq!['/']);
        }
    }
    r.append(name.as_str());
    proof {
        if parent@.len() > 0 && parent@.last() == '/' {
            assert(r@ =~= join_texts(parent@, name@));
        } else {
            assert(r@ =~= parent@ + seq!['/'] + name@);
        }
    }
    r
}

} // verus!
