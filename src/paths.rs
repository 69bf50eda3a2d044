//! Directory paths as text: their order, the set of paths a walk has
//! reached, and joining a directory path with a name.

use crate::text::{
    chars_of, compare_text, lemma_text_less_irreflexive, lemma_text_less_total,
    lemma_text_less_transitive, push_char, push_text, text_less,
};
use std::cmp::Ordering;
use vstd::prelude::*;

verus! {

/// The paths are sorted strictly, so none occurs twice.
pub open spec fn strictly_sorted(paths: Seq<Seq<char>>) -> bool {
    forall|i: int, j: int|
        0 <= i < j < paths.len() ==> text_less(#[trigger] paths[i], #[trigger] paths[j])
}

/// How many paths of a sorted sequence come before `key`.
pub open spec fn path_rank(paths: Seq<Seq<char>>, key: Seq<char>) -> int
    decreases paths.len(),
{
    if paths.len() == 0 {
        0
    } else if text_less(paths.last(), key) {
        paths.len() as int
    } else {
        path_rank(paths.drop_last(), key)
    }
}

/// In a sorted sequence, the paths before the rank of `key` are exactly
/// those before `key`.
pub proof fn lemma_path_rank(paths: Seq<Seq<char>>, key: Seq<char>)
    requires
        strictly_sorted(paths),
    ensures
        0 <= path_rank(paths, key) <= paths.len(),
        forall|i: int| 0 <= i < path_rank(paths, key) ==> text_less(#[trigger] paths[i], key),
        forall|i: int|
            path_rank(paths, key) <= i < paths.len() ==> !text_less(#[trigger] paths[i], key),
    decreases paths.len(),
{
    if paths.len() > 0 {
        let n = paths.len() - 1;
        let init = paths.drop_last();
        if text_less(paths[n], key) {
            assert forall|i: int| 0 <= i < paths.len() implies text_less(
                #[trigger] paths[i],
                key,
            ) by {
                if i < n {
                    assert(text_less(paths[i], paths[n]));
                    lemma_text_less_transitive(paths[i], paths[n], key);
                }
            }
        } else {
            assert(strictly_sorted(init)) by {
                assert forall|i: int, j: int| 0 <= i < j < init.len() implies text_less(
                    #[trigger] init[i],
                    #[trigger] init[j],
                ) by {
                    assert(init[i] == paths[i] && init[j] == paths[j]);
                }
            }
            lemma_path_rank(init, key);
            assert forall|i: int| 0 <= i < path_rank(paths, key) implies text_less(
                #[trigger] paths[i],
                key,
            ) by {
                assert(init[i] == paths[i]);
            }
            assert forall|i: int| path_rank(paths, key) <= i < paths.len() implies !text_less(
                #[trigger] paths[i],
                key,
            ) by {
                if i < n {
                    assert(init[i] == paths[i]);
                }
            }
        }
    }
}

/// A set of paths, kept sorted.
pub struct PathSet {
    paths: Vec<String>,
}

impl View for PathSet {
    type V = Seq<Seq<char>>;

    closed spec fn view(&self) -> Seq<Seq<char>> {
        self.paths@.map_values(|p: String| p@)
    }
}

impl PathSet {
    #[verifier::type_invariant]
    pub open spec fn inv(&self) -> bool {
        strictly_sorted(self@)
    }

    /// An empty set.
    pub fn new() -> (r: PathSet)
        ensures
            r@ == Seq::<Seq<char>>::empty(),
    {
        let r = PathSet { paths: Vec::new() };
        assert(r@ =~= Seq::<Seq<char>>::empty());
        r
    }

    /// How many paths the set holds.
    pub fn len(&self) -> (r: usize)
        ensures
            r == self@.len(),
    {
        self.paths.len()
    }

    /// Where `key` stands in the order, and whether it is present.
    fn locate(&self, key: &str) -> (r: (usize, bool))
        ensures
            r.0 == path_rank(self@, key@),
            r.1 == self@.contains(key@),
            r.1 ==> self@[r.0 as int] == key@,
    {
        proof {
            use_type_invariant(self);
            lemma_path_rank(self@, key@);
        }
        let mut lo: usize = 0;
        let mut hi: usize = self.paths.len();
        while lo < hi
            invariant
                lo <= hi <= self@.len(),
                self@.len() == self.paths@.len(),
                strictly_sorted(self@),
                forall|i: int| 0 <= i < lo ==> text_less(#[trigger] self@[i], key@),
                forall|i: int| hi <= i < self@.len() ==> !text_less(#[trigger] self@[i], key@),
                forall|i: int| 0 <= i < self@.len() ==> #[trigger] self@[i] == self.paths@[i]@,
            decreases hi - lo,
        {
            let mid = lo + (hi - lo) / 2;
            let c = compare_text(self.paths[mid].as_str(), key);
            if let Ordering::Less = c {
                proof {
                    assert forall|i: int| 0 <= i <= mid implies text_less(
                        #[trigger] self@[i],
                        key@,
                    ) by {
                        if i < mid {
                            lemma_text_less_transitive(self@[i], self@[mid as int], key@);
                        }
                    }
                }
                lo = mid + 1;
            } else {
                proof {
                    assert forall|i: int| mid <= i < self@.len() implies !text_less(
                        #[trigger] self@[i],
                        key@,
                    ) by {
                        if i > mid && text_less(self@[i], key@) {
                            lemma_text_less_transitive(self@[mid as int], self@[i], key@);
                        }
                    }
                }
                hi = mid;
            }
        }
        proof {
            assert forall|i: int| 0 <= i < self@.len() && i != lo implies #[trigger] self@[i]
                != key@ by {
                if i < lo {
                    lemma_text_less_irreflexive(key@);
                } else {
                    assert(text_less(self@[lo as int], self@[i]));
                }
            }
            if path_rank(self@, key@) < lo {
                let q = path_rank(self@, key@);
                assert(!text_less(self@[q], key@));
            }
            if path_rank(self@, key@) > lo {
                assert(text_less(self@[lo as int], key@));
            }
        }
        let found = lo < self.paths.len() && match compare_text(self.paths[lo].as_str(), key) {
            Ordering::Equal => true,
            _ => false,
        };
        proof {
            if found {
                assert(self@[lo as int] == key@);
            } else if self@.contains(key@) {
                let k = choose|k: int| 0 <= k < self@.len() && self@[k] == key@;
                assert(self@[k] == key@);
            }
        }
        (lo, found)
    }

    /// Whether `key` is in the set.
    pub fn contains(&self, key: &str) -> (r: bool)
        ensures
            r == self@.contains(key@),
    {
        self.locate(key).1
    }

    /// Adds `key`; the set is unchanged when it is already present.
    pub fn insert(&mut self, key: String)
        ensures
            final(self)@.to_set() == old(self)@.to_set().insert(key@),
            final(self)@.len() <= old(self)@.len() + 1,
    {
        proof {
            use_type_invariant(&*self);
        }
        let (i, found) = self.locate(key.as_str());
        if !found {
            let ghost before = self@;
            proof {
                lemma_path_rank(before, key@);
                before.insert_ensures(i as int, key@);
            }
            let ghost after = before.insert(i as int, key@);
            proof {
                assert forall|a: int, b: int| 0 <= a < b < after.len() implies text_less(
                    #[trigger] after[a],
                    #[trigger] after[b],
                ) by {
                    let p = i as int;
                    if b < p {
                    } else if b == p {
                    } else if a < p {
                        lemma_text_less_total(before[b - 1], key@);
                        lemma_text_less_transitive(before[a], key@, before[b - 1]);
                    } else if a == p {
                        lemma_text_less_total(before[b - 1], key@);
                    } else {
                        assert(text_less(before[a - 1], before[b - 1]));
                    }
                }
                assert(after.to_set() =~= before.to_set().insert(key@)) by {
                    assert forall|x: Seq<char>| after.contains(x) implies before.to_set().insert(
                        key@,
                    ).contains(x) by {
                        let k = choose|k: int| 0 <= k < after.len() && after[k] == x;
                        if k < i {
                            assert(before[k] == x);
                        } else if k > i {
                            assert(before[k - 1] == x);
                        }
                    }
                    assert forall|x: Seq<char>| before.contains(x) implies after.contains(x) by {
                        let k = choose|k: int| 0 <= k < before.len() && before[k] == x;
                        if k < i {
                            assert(after[k] == x);
                        } else {
                            assert(after[k + 1] == x);
                        }
                    }
                    assert(after[i as int] == key@);
                }
            }
            let mut taken = PathSet::new();
            std::mem::swap(self, &mut taken);
            let mut paths = taken.paths;
            assert(paths@.map_values(|p: String| p@) =~= before);
            paths.insert(i, key);
            assert(paths@.map_values(|p: String| p@) =~= after);
            *self = PathSet { paths };
        } else {
            assert(self@.to_set() =~= self@.to_set().insert(key@));
        }
    }
}

/// The last position of `c` in `s`, if any.
pub open spec fn last_index_of(s: Seq<char>, c: char) -> Option<int>
    decreases s.len(),
{
    if s.len() == 0 {
        None
    } else if s.last() == c {
        Some(s.len() - 1)
    } else {
        last_index_of(s.drop_last(), c)
    }
}

/// `last_index_of` finds the last occurrence.
pub proof fn lemma_last_index_of(s: Seq<char>, c: char)
    ensures
        last_index_of(s, c) matches Some(i) ==> 0 <= i < s.len() && s[i] == c && forall|j: int|
            i < j < s.len() ==> s[j] != c,
        last_index_of(s, c) is None ==> forall|j: int| 0 <= j < s.len() ==> s[j] != c,
    decreases s.len(),
{
    if s.len() > 0 && s.last() != c {
        lemma_last_index_of(s.drop_last(), c);
        assert forall|j: int| 0 <= j < s.len() - 1 implies s[j] == s.drop_last()[j] by {}
    }
}

/// `dir` joined with `name`: a `/` is put between them unless `dir` is
/// empty or already ends with one.
pub open spec fn join_path(dir: Seq<char>, name: Seq<char>) -> Seq<char> {
    if dir.len() == 0 {
        name
    } else if dir.last() == '/' {
        dir + name
    } else {
        dir + seq!['/'] + name
    }
}

/// `dir` joined with `name`, as `join_path` puts it.
pub fn join(dir: &str, name: &str) -> (r: String)
    ensures
        r@ == join_path(dir@, name@),
{
    let cs = chars_of(dir);
    let mut s = String::new();
    push_text(&mut s, dir);
    if cs.len() > 0 && cs[cs.len() - 1] != '/' {
        push_char(&mut s, '/');
    }
    push_text(&mut s, name);
    assert(s@ =~= join_path(dir@, name@));
    s
}

} // verus!
