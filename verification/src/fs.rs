//! What `fs.statSync(path)` reports about a path.
//!
//! Reading the file system is I/O and is done outside this crate; this
//! module holds what is computed on what such calls produce: the record of
//! `fs.statSync`, and the sorting of the entry names of `fs.readdirSync`.
use crate::text::chars_of;
use vstd::multiset::Multiset;
use vstd::prelude::*;

verus! {

/// The minimal metadata of `fs.statSync(path)`.
#[derive(Debug, Clone, Copy, PartialEq, Eq)]
pub struct Metadata {
    is_file: bool,
    is_dir: bool,
    len: u64,
}

impl Metadata {
    /// The metadata of a path that is a regular file (`is_file`), a
    /// directory (`is_dir`), and `len` bytes long.
    pub fn new(is_file: bool, is_dir: bool, len: u64) -> (m: Self)
        ensures
            m.file_flag() == is_file,
            m.dir_flag() == is_dir,
            m.byte_len() == len,
    {
        Metadata { is_file, is_dir, len }
    }

    pub closed spec fn file_flag(&self) -> bool {
        self.is_file
    }

    pub closed spec fn dir_flag(&self) -> bool {
        self.is_dir
    }

    pub closed spec fn byte_len(&self) -> u64 {
        self.len
    }

    /// True for a regular file.
    pub fn is_file(&self) -> (b: bool)
        ensures
            b == self.file_flag(),
    {
        self.is_file
    }

    /// True for a directory.
    pub fn is_dir(&self) -> (b: bool)
        ensures
            b == self.dir_flag(),
    {
        self.is_dir
    }

    /// Size in bytes (for a directory, whatever the OS reports).
    pub fn len(&self) -> (n: u64)
        ensures
            n == self.byte_len(),
    {
        self.len
    }

    /// True when the size is zero.
    pub fn is_empty(&self) -> (b: bool)
        ensures
            b == (self.byte_len() == 0),
    {
        self.len == 0
    }
}


/// `a` sorts strictly before `b`: lexicographic order on characters by code
/// point, a proper prefix first. For UTF-8 text this is the byte order that
/// `str`'s `Ord` uses.
pub open spec fn name_lt(a: Seq<char>, b: Seq<char>) -> bool
    decreases a.len(),
{
    if b.len() == 0 {
        false
    } else if a.len() == 0 {
        true
    } else if (a[0] as u32) < (b[0] as u32) {
        true
    } else if a[0] == b[0] {
        name_lt(a.drop_first(), b.drop_first())
    } else {
        false
    }
}

/// `s` is in ascending order: no later name sorts before an earlier one.
pub open spec fn names_sorted(s: Seq<String>) -> bool {
    forall|i: int, j: int| 0 <= i < j < s.len() ==> !name_lt(#[trigger] s[j]@, #[trigger] s[i]@)
}

proof fn lemma_name_lt_transitive(a: Seq<char>, b: Seq<char>, c: Seq<char>)
    requires
        name_lt(a, b),
        name_lt(b, c),
    ensures
        name_lt(a, c),
    decreases a.len(),
{
    if a.len() > 0 && b.len() > 0 && c.len() > 0 && a[0] == b[0] && b[0] == c[0] {
        lemma_name_lt_transitive(a.drop_first(), b.drop_first(), c.drop_first());
    }
}

/// Whether `a` sorts strictly before `b` (see [`name_lt`]).
fn name_lt_exec(a: &String, b: &String) -> (r: bool)
    ensures
        r == name_lt(a@, b@),
{
    let x = chars_of(a.as_str());
    let y = chars_of(b.as_str());
    let mut i: usize = 0;
    proof {
        assert(x@.skip(0) =~= x@);
        assert(y@.skip(0) =~= y@);
    }
    while i < x.len() && i < y.len()
        invariant
            i <= x@.len(),
            i <= y@.len(),
            x@ == a@,
            y@ == b@,
            name_lt(a@, b@) == name_lt(x@.skip(i as int), y@.skip(i as int)),
        decreases x@.len() - i,
    {
        let cx = x[i];
        let cy = y[i];
        proof {
            assert(x@.skip(i as int)[0] == cx);
            assert(y@.skip(i as int)[0] == cy);
            assert(x@.skip(i as int).drop_first() =~= x@.skip(i + 1));
            assert(y@.skip(i as int).drop_first() =~= y@.skip(i + 1));
        }
        if (cx as u32) < (cy as u32) {
            return true;
        }
        if cx != cy {
            return false;
        }
        i = i + 1;
    }
    if i < y.len() {
        proof {
            assert(x@.skip(i as int).len() == 0);
        }
        true
    } else {
        proof {
            assert(y@.skip(i as int).len() == 0);
        }
        false
    }
}

/// Index of a name of `v` that no other name of `v` sorts before.
fn min_name_index(v: &Vec<String>) -> (m: usize)
    requires
        v@.len() > 0,
    ensures
        m < v@.len(),
        forall|k: int| 0 <= k < v@.len() ==> !name_lt(#[trigger] v@[k]@, v@[m as int]@),
{
    let mut best: usize = 0;
    let mut k: usize = 1;
    proof {
        lemma_name_lt_irreflexive(v@[0]@);
    }
    while k < v.len()
        invariant
            0 < k <= v@.len(),
            best < k,
            forall|j: int| 0 <= j < k ==> !name_lt(#[trigger] v@[j]@, v@[best as int]@),
        decreases v@.len() - k,
    {
        if name_lt_exec(&v[k], &v[best]) {
            proof {
                assert forall|j: int| 0 <= j < k + 1 implies !name_lt(#[trigger] v@[j]@, v@[k as int]@) by {
                    if j < k && name_lt(v@[j]@, v@[k as int]@) {
                        lemma_name_lt_transitive(v@[j]@, v@[k as int]@, v@[best as int]@);
                    }
                    if j == k {
                        lemma_name_lt_irreflexive(v@[k as int]@);
                    }
                }
            }
            best = k;
        }
        k = k + 1;
    }
    best
}

proof fn lemma_name_lt_irreflexive(a: Seq<char>)
    ensures
        !name_lt(a, a),
    decreases a.len(),
{
    if a.len() > 0 {
        lemma_name_lt_irreflexive(a.drop_first());
    }
}

/// The entry names of `fs.readdirSync` in a fixed order: `names` sorted in
/// ascending order (see [`name_lt`]), each name kept as often as it occurs.
pub fn sort_names(names: Vec<String>) -> (sorted: Vec<String>)
    ensures
        sorted@.to_multiset() == names@.to_multiset(),
        names_sorted(sorted@),
{
    broadcast use vstd::seq_lib::group_to_multiset_ensures;
    broadcast use vstd::multiset::group_multiset_axioms;

    let ghost all = names@;
    let mut rest = names;
    let mut out: Vec<String> = Vec::new();
    proof {
        assert(out@.to_multiset() =~= Multiset::<String>::empty());
        assert(out@.to_multiset().add(rest@.to_multiset()) =~= all.to_multiset());
    }
    while rest.len() > 0
        invariant
            out@.to_multiset().add(rest@.to_multiset()) == all.to_multiset(),
            names_sorted(out@),
            forall|i: int, j: int|
                0 <= i < out@.len() && 0 <= j < rest@.len() ==> !name_lt(#[trigger] rest@[j]@, #[trigger] out@[i]@),
        decreases rest@.len(),
    {
        let m = min_name_index(&rest);
        let ghost r0 = rest@;
        let ghost o0 = out@;
        let x = rest.remove(m);
        proof {
            assert(x == r0[m as int]);
            assert(rest@ == r0.remove(m as int));
        }
        out.push(x);
        proof {
            assert(out@ == o0.push(x));
            assert(r0.contains(x));
            vstd::seq_lib::to_multiset_contains(r0, x);
            assert(r0.to_multiset().count(x) > 0);
            vstd::seq_lib::to_multiset_build(o0, x);
            vstd::seq_lib::to_multiset_remove(r0, m as int);
            assert(out@.to_multiset() == o0.to_multiset().insert(x));
            assert(rest@.to_multiset() == r0.to_multiset().remove(x));
            assert(out@.to_multiset().add(rest@.to_multiset()) =~= o0.to_multiset().add(r0.to_multiset()));
            assert forall|i: int, j: int| 0 <= i < j < out@.len() implies !name_lt(#[trigger] out@[j]@, #[trigger] out@[i]@) by {
                if j == o0.len() {
                    assert(out@[i] == o0[i]);
                    assert(r0[m as int] == x);
                } else {
                    assert(out@[i] == o0[i] && out@[j] == o0[j]);
                }
            }
            assert forall|i: int, j: int|
                0 <= i < out@.len() && 0 <= j < rest@.len() implies !name_lt(#[trigger] rest@[j]@, #[trigger] out@[i]@) by {
                let k = if j < m { j } else { j + 1 };
                assert(rest@[j] == r0[k]);
                if i < o0.len() {
                    assert(out@[i] == o0[i]);
                } else {
                    assert(out@[i] == x);
                }
            }
        }
    }
    proof {
        assert(rest@.to_multiset() =~= Multiset::<String>::empty());
        assert(out@.to_multiset().add(rest@.to_multiset()) =~= out@.to_multiset());
    }
    out
}


/// `name_lt` is the lexicographic order on whole names: `a` sorts before `b`
/// exactly when `a` is a proper prefix of `b`, or at the first position
/// where they differ `a` has the smaller code point.
pub proof fn lemma_name_lt_lexicographic(a: Seq<char>, b: Seq<char>)
    ensures
        name_lt(a, b) <==> ((a.len() < b.len() && b.take(a.len() as int) == a) || exists|i: int|
            0 <= i < a.len() && i < b.len() && a.take(i) == b.take(i) && (#[trigger] a[i] as u32) < (b[i] as u32)),
    decreases a.len(),
{
    if a.len() == 0 {
        if b.len() > 0 {
            assert(b.take(0) =~= a);
        }
    } else if b.len() == 0 {
    } else if (a[0] as u32) < (b[0] as u32) {
        assert(a.take(0) =~= b.take(0));
    } else if a[0] == b[0] {
        let a1 = a.drop_first();
        let b1 = b.drop_first();
        lemma_name_lt_lexicographic(a1, b1);
        if a1.len() < b1.len() && b1.take(a1.len() as int) == a1 {
            assert(b.take(a.len() as int) =~= a) by {
                assert forall|k: int| 0 <= k < a.len() implies #[trigger] b.take(a.len() as int)[k] == a[k] by {
                    if k > 0 {
                        assert(b1.take(a1.len() as int)[k - 1] == a1[k - 1]);
                    }
                }
            }
        }
        if a.len() < b.len() && b.take(a.len() as int) == a {
            assert(b1.take(a1.len() as int) =~= a1) by {
                assert forall|k: int| 0 <= k < a1.len() implies #[trigger] b1.take(a1.len() as int)[k] == a1[k] by {
                    assert(b.take(a.len() as int)[k + 1] == a[k + 1]);
                }
            }
        }
        if exists|i: int| 0 <= i < a1.len() && i < b1.len() && a1.take(i) == b1.take(i) && (#[trigger] a1[i] as u32) < (b1[i] as u32) {
            let i = choose|i: int| 0 <= i < a1.len() && i < b1.len() && a1.take(i) == b1.take(i) && (#[trigger] a1[i] as u32) < (b1[i] as u32);
            assert(a.take(i + 1) =~= b.take(i + 1)) by {
                assert forall|k: int| 0 <= k < i + 1 implies #[trigger] a.take(i + 1)[k] == b.take(i + 1)[k] by {
                    if k > 0 {
                        assert(a1.take(i)[k - 1] == b1.take(i)[k - 1]);
                    }
                }
            }
            assert(a[i + 1] == a1[i]);
        }
        if exists|i: int| 0 <= i < a.len() && i < b.len() && a.take(i) == b.take(i) && (#[trigger] a[i] as u32) < (b[i] as u32) {
            let i = choose|i: int| 0 <= i < a.len() && i < b.len() && a.take(i) == b.take(i) && (#[trigger] a[i] as u32) < (b[i] as u32);
            assert(i > 0);
            assert(a1.take(i - 1) =~= b1.take(i - 1)) by {
                assert forall|k: int| 0 <= k < i - 1 implies #[trigger] a1.take(i - 1)[k] == b1.take(i - 1)[k] by {
                    assert(a.take(i)[k + 1] == b.take(i)[k + 1]);
                }
            }
            assert(a1[i - 1] == a[i]);
        }
    } else {
        if a.len() < b.len() && b.take(a.len() as int) == a {
            assert(b.take(a.len() as int)[0] == a[0]);
        }
        if exists|i: int| 0 <= i < a.len() && i < b.len() && a.take(i) == b.take(i) && (#[trigger] a[i] as u32) < (b[i] as u32) {
            let i = choose|i: int| 0 <= i < a.len() && i < b.len() && a.take(i) == b.take(i) && (#[trigger] a[i] as u32) < (b[i] as u32);
            if i > 0 {
                assert(a.take(i)[0] == b.take(i)[0]);
            }
        }
    }
}

/// What [`sort_names`] gives is in ascending order over whole names: for
/// every earlier name `a` and later name `b`, `b` is neither a proper prefix
/// of `a` nor smaller than `a` in code point at the first position where
/// they differ.
pub proof fn lemma_sorted_names_lexicographic(sorted: Seq<String>)
    requires
        names_sorted(sorted),
    ensures
        forall|i: int, j: int| 0 <= i < j < sorted.len() ==> {
            let a = #[trigger] sorted[i]@;
            let b = #[trigger] sorted[j]@;
            !(b.len() < a.len() && a.take(b.len() as int) == b) && !exists|k: int|
                0 <= k < b.len() && k < a.len() && b.take(k) == a.take(k) && (#[trigger] b[k] as u32) < (a[k] as u32)
        },
{
    assert forall|i: int, j: int| 0 <= i < j < sorted.len() implies {
        let a = #[trigger] sorted[i]@;
        let b = #[trigger] sorted[j]@;
        !(b.len() < a.len() && a.take(b.len() as int) == b) && !exists|k: int|
            0 <= k < b.len() && k < a.len() && b.take(k) == a.take(k) && (#[trigger] b[k] as u32) < (a[k] as u32)
    } by {
        lemma_name_lt_lexicographic(sorted[j]@, sorted[i]@);
    }
}

} // verus!
