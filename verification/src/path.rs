//! POSIX-style paths as character sequences: splitting on `/`, joining and
//! normalising.
use crate::text::append_chars;
use vstd::prelude::*;

verus! {

pub open spec fn dot() -> Seq<char> {
    seq!['.']
}

pub open spec fn dot_dot() -> Seq<char> {
    seq!['.', '.']
}

pub open spec fn slash() -> Seq<char> {
    seq!['/']
}

/// The segments of `s` between `/` characters, empty ones included:
/// `"/a//b"` gives `["", "a", "", "b"]`, and `""` gives `[""]`.
pub open spec fn split_slash(s: Seq<char>) -> Seq<Seq<char>>
    decreases s.len(),
{
    if s.len() == 0 {
        seq![Seq::<char>::empty()]
    } else {
        let p = split_slash(s.drop_last());
        if s.last() == '/' {
            p.push(Seq::<char>::empty())
        } else {
            p.update(p.len() - 1, p.last().push(s.last()))
        }
    }
}

/// A segment that is not empty.
pub open spec fn non_empty_segment() -> spec_fn(Seq<char>) -> bool {
    |seg: Seq<char>| seg.len() > 0
}

/// The non-empty segments of `s`.
pub open spec fn path_parts(s: Seq<char>) -> Seq<Seq<char>> {
    split_slash(s).filter(non_empty_segment())
}

/// Segments joined with `/` between them.
pub open spec fn join_slash(parts: Seq<Seq<char>>) -> Seq<char>
    decreases parts.len(),
{
    if parts.len() == 0 {
        Seq::<char>::empty()
    } else if parts.len() == 1 {
        parts[0]
    } else {
        join_slash(parts.drop_last()) + slash() + parts.last()
    }
}

/// Segments each preceded by `/`: `["a", "b"]` gives `"/a/b"`.
pub open spec fn abs_path(parts: Seq<Seq<char>>) -> Seq<char>
    decreases parts.len(),
{
    if parts.len() == 0 {
        Seq::<char>::empty()
    } else {
        abs_path(parts.drop_last()) + slash() + parts.last()
    }
}

/// A path that starts with `/`.
pub open spec fn is_absolute(p: Seq<char>) -> bool {
    p.len() > 0 && p[0] == '/'
}

/// One normalisation step: `""` and `"."` are dropped, `".."` removes the
/// last kept segment unless that is itself `".."`; a `".."` that cannot be
/// removed is kept in a relative path and dropped in an absolute one (it
/// would climb above the root).
pub open spec fn norm_step(stack: Seq<Seq<char>>, seg: Seq<char>, absolute: bool) -> Seq<Seq<char>> {
    if seg.len() == 0 || seg == dot() {
        stack
    } else if seg == dot_dot() {
        if stack.len() > 0 && stack.last() != dot_dot() {
            stack.drop_last()
        } else if !absolute {
            stack.push(seg)
        } else {
            stack
        }
    } else {
        stack.push(seg)
    }
}

/// The segments kept after applying [`norm_step`] to `segs` from left to right.
pub open spec fn norm_fold(stack: Seq<Seq<char>>, segs: Seq<Seq<char>>, absolute: bool) -> Seq<Seq<char>>
    decreases segs.len(),
{
    if segs.len() == 0 {
        stack
    } else {
        norm_step(norm_fold(stack, segs.drop_last(), absolute), segs.last(), absolute)
    }
}

/// The segments of the normal form of `p`.
pub open spec fn norm_segments(p: Seq<char>) -> Seq<Seq<char>> {
    norm_fold(Seq::empty(), split_slash(p), is_absolute(p))
}

/// The normal form of `p`: `.` segments removed, `..` folded into its parent,
/// repeated slashes collapsed, no trailing slash. An absolute path stays
/// absolute; an empty relative result is `"."`.
pub open spec fn normalize_spec(p: Seq<char>) -> Seq<char> {
    let st = norm_segments(p);
    if is_absolute(p) {
        slash() + join_slash(st)
    } else if st.len() == 0 {
        dot()
    } else {
        join_slash(st)
    }
}

/// `s` without its trailing `/` characters.
pub open spec fn trim_trailing_slashes(s: Seq<char>) -> Seq<char>
    decreases s.len(),
{
    if s.len() > 0 && s.last() == '/' {
        trim_trailing_slashes(s.drop_last())
    } else {
        s
    }
}

/// `rel` resolved against `base`: `rel` itself when it is absolute, else
/// `base` (trailing slashes removed), `/`, `rel`.
pub open spec fn join_spec(base: Seq<char>, rel: Seq<char>) -> Seq<char> {
    if is_absolute(rel) {
        rel
    } else {
        trim_trailing_slashes(base) + slash() + rel
    }
}

/// The character views of a sequence of character vectors.
pub open spec fn views(v: Seq<Vec<char>>) -> Seq<Seq<char>> {
    v.map_values(|x: Vec<char>| x@)
}

pub proof fn lemma_split_slash_len(s: Seq<char>)
    ensures
        split_slash(s).len() >= 1,
    decreases s.len(),
{
    if s.len() > 0 {
        lemma_split_slash_len(s.drop_last());
    }
}

fn is_dot(seg: &Vec<char>) -> (b: bool)
    ensures
        b == (seg@ == dot()),
{
    if seg.len() == 1 && seg[0] == '.' {
        proof {
            assert(seg@ =~= dot());
        }
        true
    } else {
        false
    }
}

fn is_dot_dot(seg: &Vec<char>) -> (b: bool)
    ensures
        b == (seg@ == dot_dot()),
{
    if seg.len() == 2 && seg[0] == '.' && seg[1] == '.' {
        proof {
            assert(seg@ =~= dot_dot());
        }
        true
    } else {
        false
    }
}

/// Applies one normalisation step to `stack`.
fn apply_step(stack: &mut Vec<Vec<char>>, seg: Vec<char>, absolute: bool)
    ensures
        views(final(stack)@) == norm_step(views(old(stack)@), seg@, absolute),
{
    let ghost old_views = views(stack@);
    if seg.len() == 0 || is_dot(&seg) {
    } else if is_dot_dot(&seg) {
        let n = stack.len();
        if n > 0 && !is_dot_dot(&stack[n - 1]) {
            stack.pop();
            proof {
                assert(views(stack@) =~= old_views.drop_last());
            }
        } else if !absolute {
            stack.push(seg);
            proof {
                assert(views(stack@) =~= old_views.push(dot_dot()));
            }
        }
    } else {
        let ghost sv = seg@;
        stack.push(seg);
        proof {
            assert(views(stack@) =~= old_views.push(sv));
        }
    }
}

/// Normal form of the path `p` (see [`normalize_spec`]).
pub fn normalize_chars(p: &Vec<char>) -> (r: Vec<char>)
    ensures
        r@ == normalize_spec(p@),
{
    let absolute = p.len() > 0 && p[0] == '/';
    let mut stack: Vec<Vec<char>> = Vec::new();
    let mut cur: Vec<char> = Vec::new();
    let mut i: usize = 0;
    proof {
        assert(p@.take(0) =~= Seq::<char>::empty());
        assert(views(stack@) =~= Seq::<Seq<char>>::empty());
        assert(split_slash(p@.take(0)).drop_last() =~= Seq::<Seq<char>>::empty());
    }
    while i < p.len()
        invariant
            absolute == is_absolute(p@),
            i <= p@.len(),
            split_slash(p@.take(i as int)).len() >= 1,
            views(stack@) == norm_fold(
                Seq::empty(),
                split_slash(p@.take(i as int)).drop_last(),
                absolute,
            ),
            cur@ == split_slash(p@.take(i as int)).last(),
        decreases p@.len() - i,
    {
        let c = p[i];
        let ghost prev = split_slash(p@.take(i as int));
        proof {
            assert(p@.take(i + 1).drop_last() =~= p@.take(i as int));
            assert(p@.take(i + 1).last() == c);
            lemma_split_slash_len(p@.take(i as int));
        }
        if c == '/' {
            let seg = cur;
            cur = Vec::new();
            apply_step(&mut stack, seg, absolute);
            proof {
                let next = split_slash(p@.take(i + 1));
                assert(next == prev.push(Seq::<char>::empty()));
                assert(next.drop_last() =~= prev);
                assert(prev =~= prev.drop_last().push(prev.last()));
                assert(cur@ =~= next.last());
            }
        } else {
            cur.push(c);
            proof {
                let next = split_slash(p@.take(i + 1));
                assert(next == prev.update(prev.len() - 1, prev.last().push(c)));
                assert(next.drop_last() =~= prev.drop_last());
            }
        }
        i = i + 1;
    }
    proof {
        assert(p@.take(p@.len() as int) =~= p@);
        let sp = split_slash(p@);
        assert(sp =~= sp.drop_last().push(sp.last()));
    }
    apply_step(&mut stack, cur, absolute);
    let ghost st = views(stack@);
    assert(st == norm_segments(p@));
    let mut out: Vec<char> = Vec::new();
    if absolute {
        out.push('/');
    }
    let ghost prefix = out@;
    let n = stack.len();
    let mut k: usize = 0;
    proof {
        assert(st.take(0) =~= Seq::<Seq<char>>::empty());
        assert(out@ =~= prefix + join_slash(st.take(0)));
    }
    while k < n
        invariant
            n == stack@.len(),
            st == views(stack@),
            k <= n,
            out@ == prefix + join_slash(st.take(k as int)),
        decreases n - k,
    {
        let ghost before = out@;
        if k > 0 {
            out.push('/');
        }
        append_chars(&mut out, &stack[k]);
        proof {
            let t = st.take(k + 1);
            assert(t.drop_last() =~= st.take(k as int));
            assert(t.last() == stack@[k as int]@);
            if k == 0 {
                assert(join_slash(t) == t[0]);
                assert(out@ =~= prefix + join_slash(t));
            } else {
                assert(join_slash(t) == join_slash(st.take(k as int)) + slash() + t.last());
                assert(out@ =~= prefix + join_slash(t));
            }
        }
        k = k + 1;
    }
    proof {
        assert(st.take(n as int) =~= st);
    }
    if !absolute && n == 0 {
        out.push('.');
        proof {
            assert(out@ =~= dot());
        }
    }
    proof {
        if absolute {
            assert(prefix =~= slash());
        } else {
            assert(prefix =~= Seq::<char>::empty());
            assert(out@ =~= normalize_spec(p@));
        }
    }
    out
}


/// The non-empty segments of `p` (see [`path_parts`]).
pub fn split_nonempty(p: &Vec<char>) -> (parts: Vec<Vec<char>>)
    ensures
        views(parts@) == path_parts(p@),
{
    let mut parts: Vec<Vec<char>> = Vec::new();
    let mut cur: Vec<char> = Vec::new();
    let mut i: usize = 0;
    proof {
        assert(p@.take(0) =~= Seq::<char>::empty());
        assert(split_slash(p@.take(0)).drop_last() =~= Seq::<Seq<char>>::empty());
        reveal(Seq::filter);
        assert(views(parts@) =~= Seq::<Seq<char>>::empty());
    }
    while i < p.len()
        invariant
            i <= p@.len(),
            split_slash(p@.take(i as int)).len() >= 1,
            views(parts@) == split_slash(p@.take(i as int)).drop_last().filter(non_empty_segment()),
            cur@ == split_slash(p@.take(i as int)).last(),
        decreases p@.len() - i,
    {
        let c = p[i];
        let ghost prev = split_slash(p@.take(i as int));
        proof {
            assert(p@.take(i + 1).drop_last() =~= p@.take(i as int));
            assert(p@.take(i + 1).last() == c);
            lemma_split_slash_len(p@.take(i as int));
        }
        if c == '/' {
            let ghost old_views = views(parts@);
            let seg = cur;
            cur = Vec::new();
            let ghost sv = seg@;
            if seg.len() > 0 {
                parts.push(seg);
                proof {
                    assert(views(parts@) =~= old_views.push(sv));
                }
            }
            proof {
                let next = split_slash(p@.take(i + 1));
                assert(next == prev.push(Seq::<char>::empty()));
                assert(next.drop_last() =~= prev);
                assert(prev =~= prev.drop_last().push(prev.last()));
                reveal(Seq::filter);
                assert(cur@ =~= next.last());
            }
        } else {
            cur.push(c);
            proof {
                let next = split_slash(p@.take(i + 1));
                assert(next == prev.update(prev.len() - 1, prev.last().push(c)));
                assert(next.drop_last() =~= prev.drop_last());
            }
        }
        i = i + 1;
    }
    proof {
        assert(p@.take(p@.len() as int) =~= p@);
        let sp = split_slash(p@);
        assert(sp =~= sp.drop_last().push(sp.last()));
        reveal(Seq::filter);
    }
    let ghost old_views = views(parts@);
    let ghost sv = cur@;
    if cur.len() > 0 {
        parts.push(cur);
        proof {
            assert(views(parts@) =~= old_views.push(sv));
        }
    }
    parts
}

/// `s` without its trailing `/` characters.
pub fn trim_trailing_slashes_chars(s: &Vec<char>) -> (r: Vec<char>)
    ensures
        r@ == trim_trailing_slashes(s@),
{
    let mut end: usize = s.len();
    proof {
        assert(s@.take(end as int) =~= s@);
    }
    while end > 0 && s[end - 1] == '/'
        invariant
            end <= s@.len(),
            trim_trailing_slashes(s@) == trim_trailing_slashes(s@.take(end as int)),
        decreases end,
    {
        proof {
            assert(s@.take(end as int).drop_last() =~= s@.take(end - 1));
        }
        end = end - 1;
    }
    let mut r: Vec<char> = Vec::new();
    let mut i: usize = 0;
    while i < end
        invariant
            end <= s@.len(),
            i <= end,
            r@ == s@.take(i as int),
        decreases end - i,
    {
        r.push(s[i]);
        proof {
            assert(s@.take(i + 1) =~= s@.take(i as int).push(s@[i as int]));
        }
        i = i + 1;
    }
    r
}

/// `rel` resolved against `base` (see [`join_spec`]).
pub fn join_chars(base: &Vec<char>, rel: &Vec<char>) -> (r: Vec<char>)
    ensures
        r@ == join_spec(base@, rel@),
{
    if rel.len() > 0 && rel[0] == '/' {
        let mut r: Vec<char> = Vec::new();
        append_chars(&mut r, rel);
        proof {
            assert(r@ =~= rel@);
        }
        r
    } else {
        let mut r = trim_trailing_slashes_chars(base);
        r.push('/');
        append_chars(&mut r, rel);
        proof {
            assert(r@ =~= trim_trailing_slashes(base@) + slash() + rel@);
        }
        r
    }
}


/// No `/` in `s`.
pub open spec fn no_slash(s: Seq<char>) -> bool {
    forall|i: int| 0 <= i < s.len() ==> #[trigger] s[i] != '/'
}

/// The segments that normalisation keeps: non-empty, free of `/`, never
/// `"."`; `".."` only in a relative path and only before every other name.
pub open spec fn clean_stack(st: Seq<Seq<char>>, absolute: bool) -> bool {
    &&& forall|i: int| 0 <= i < st.len() ==> #[trigger] st[i].len() > 0
    &&& forall|i: int| 0 <= i < st.len() ==> no_slash(#[trigger] st[i])
    &&& forall|i: int| 0 <= i < st.len() ==> #[trigger] st[i] != dot()
    &&& absolute ==> forall|i: int| 0 <= i < st.len() ==> #[trigger] st[i] != dot_dot()
    &&& forall|i: int, j: int| 0 <= i < j < st.len() && #[trigger] st[j] == dot_dot() ==> #[trigger] st[i] == dot_dot()
}

proof fn lemma_split_segments_no_slash(s: Seq<char>)
    ensures
        forall|i: int| 0 <= i < split_slash(s).len() ==> no_slash(#[trigger] split_slash(s)[i]),
    decreases s.len(),
{
    lemma_split_slash_len(s);
    if s.len() > 0 {
        lemma_split_segments_no_slash(s.drop_last());
        lemma_split_slash_len(s.drop_last());
        let p = split_slash(s.drop_last());
        if s.last() != '/' {
            assert(no_slash(p.last()));
            assert(no_slash(p.last().push(s.last())));
        }
    }
}

proof fn lemma_step_clean(st: Seq<Seq<char>>, seg: Seq<char>, absolute: bool)
    requires
        clean_stack(st, absolute),
        no_slash(seg),
    ensures
        clean_stack(norm_step(st, seg, absolute), absolute),
{
    let r = norm_step(st, seg, absolute);
    if seg.len() == 0 || seg == dot() {
    } else if seg == dot_dot() {
        if st.len() > 0 && st.last() != dot_dot() {
            assert forall|i: int, j: int| 0 <= i < j < r.len() && #[trigger] r[j] == dot_dot() implies #[trigger] r[i] == dot_dot() by {
                assert(r[j] == st[j] && r[i] == st[i]);
            }
        } else if !absolute {
            assert forall|i: int, j: int| 0 <= i < j < r.len() && #[trigger] r[j] == dot_dot() implies #[trigger] r[i] == dot_dot() by {
                if j == st.len() {
                    assert(r[i] == st[i]);
                    if i < st.len() - 1 {
                        assert(st[st.len() - 1] == dot_dot());
                    }
                } else {
                    assert(r[j] == st[j] && r[i] == st[i]);
                }
            }
        }
    } else {
        assert forall|i: int, j: int| 0 <= i < j < r.len() && #[trigger] r[j] == dot_dot() implies #[trigger] r[i] == dot_dot() by {
            assert(r[j] == st[j] && r[i] == st[i]);
        }
    }
}

proof fn lemma_fold_clean(st: Seq<Seq<char>>, segs: Seq<Seq<char>>, absolute: bool)
    requires
        clean_stack(st, absolute),
        forall|i: int| 0 <= i < segs.len() ==> no_slash(#[trigger] segs[i]),
    ensures
        clean_stack(norm_fold(st, segs, absolute), absolute),
    decreases segs.len(),
{
    if segs.len() > 0 {
        assert forall|i: int| 0 <= i < segs.drop_last().len() implies no_slash(#[trigger] segs.drop_last()[i]) by {
            assert(segs.drop_last()[i] == segs[i]);
        }
        lemma_fold_clean(st, segs.drop_last(), absolute);
        assert(no_slash(segs[segs.len() - 1]));
        lemma_step_clean(norm_fold(st, segs.drop_last(), absolute), segs.last(), absolute);
    }
}

proof fn lemma_fold_append(st: Seq<Seq<char>>, a: Seq<Seq<char>>, b: Seq<Seq<char>>, absolute: bool)
    ensures
        norm_fold(st, a + b, absolute) == norm_fold(norm_fold(st, a, absolute), b, absolute),
    decreases b.len(),
{
    if b.len() == 0 {
        assert(a + b =~= a);
    } else {
        assert((a + b).drop_last() =~= a + b.drop_last());
        assert((a + b).last() == b.last());
        lemma_fold_append(st, a, b.drop_last(), absolute);
    }
}

proof fn lemma_fold_clean_identity(st: Seq<Seq<char>>, t: Seq<Seq<char>>, absolute: bool)
    requires
        clean_stack(st + t, absolute),
    ensures
        norm_fold(st, t, absolute) == st + t,
    decreases t.len(),
{
    let whole = st + t;
    if t.len() == 0 {
        assert(st + t =~= st);
    } else {
        let t1 = t.drop_last();
        assert(st + t1 =~= whole.drop_last());
        let w1 = whole.drop_last();
        assert forall|i: int, j: int| 0 <= i < j < w1.len() && #[trigger] w1[j] == dot_dot() implies #[trigger] w1[i] == dot_dot() by {
            assert(w1[i] == whole[i] && w1[j] == whole[j]);
        }
        assert(clean_stack(w1, absolute));
        lemma_fold_clean_identity(st, t1, absolute);
        let last = t.last();
        assert(last == whole[whole.len() - 1]);
        assert(last.len() > 0);
        assert(last != dot());
        if last == dot_dot() {
            assert(!absolute);
            if w1.len() > 0 {
                assert(w1.last() == whole[whole.len() - 2]);
            }
        }
        assert(whole =~= w1.push(last));
    }
}

proof fn lemma_split_no_slash(s: Seq<char>)
    requires
        no_slash(s),
    ensures
        split_slash(s) == seq![s],
    decreases s.len(),
{
    if s.len() == 0 {
        assert(s =~= Seq::<char>::empty());
        assert(split_slash(s) =~= seq![s]);
    } else {
        assert(no_slash(s.drop_last())) by {
            assert forall|i: int| 0 <= i < s.drop_last().len() implies #[trigger] s.drop_last()[i] != '/' by {
                assert(s.drop_last()[i] == s[i]);
            }
        }
        lemma_split_no_slash(s.drop_last());
        assert(s[s.len() - 1] != '/');
        assert(s.drop_last().push(s.last()) =~= s);
        assert(split_slash(s) =~= seq![s]);
    }
}

/// Splitting `y + l` where `l` holds no `/` extends the last segment of `y`.
proof fn lemma_split_extend(y: Seq<char>, l: Seq<char>)
    requires
        no_slash(l),
    ensures
        split_slash(y + l) == split_slash(y).update(
            split_slash(y).len() - 1,
            split_slash(y).last() + l,
        ),
    decreases l.len(),
{
    lemma_split_slash_len(y);
    let sy = split_slash(y);
    if l.len() == 0 {
        assert(y + l =~= y);
        assert(sy.last() + l =~= sy.last());
        assert(sy.update(sy.len() - 1, sy.last()) =~= sy);
    } else {
        let l1 = l.drop_last();
        lemma_split_extend(y, l1);
        assert((y + l).drop_last() =~= y + l1);
        assert((y + l).last() == l.last());
        assert(l.last() == l[l.len() - 1]);
        let p = split_slash(y + l1);
        assert((sy.last() + l1).push(l.last()) =~= sy.last() + l);
        assert(p.update(p.len() - 1, p.last().push(l.last())) =~= sy.update(
            sy.len() - 1,
            sy.last() + l,
        ));
    }
}

proof fn lemma_split_join(st: Seq<Seq<char>>)
    requires
        st.len() >= 1,
        forall|i: int| 0 <= i < st.len() ==> no_slash(#[trigger] st[i]),
    ensures
        split_slash(join_slash(st)) == st,
    decreases st.len(),
{
    if st.len() == 1 {
        lemma_split_no_slash(st[0]);
        assert(st =~= seq![st[0]]);
    } else {
        let st1 = st.drop_last();
        assert forall|i: int| 0 <= i < st1.len() implies no_slash(#[trigger] st1[i]) by {
            assert(st1[i] == st[i]);
        }
        lemma_split_join(st1);
        let x = join_slash(st1);
        let y = x + slash();
        assert(y.drop_last() =~= x);
        assert(split_slash(y) == split_slash(x).push(Seq::<char>::empty()));
        assert(no_slash(st[st.len() - 1]));
        lemma_split_extend(y, st.last());
        assert(Seq::<char>::empty() + st.last() =~= st.last());
        assert(join_slash(st) == y + st.last());
        assert(split_slash(y).update(split_slash(y).len() - 1, split_slash(y).last() + st.last())
            =~= st);
    }
}

proof fn lemma_join_with_root(st: Seq<Seq<char>>)
    requires
        st.len() >= 1,
    ensures
        slash() + join_slash(st) == join_slash(seq![Seq::<char>::empty()] + st),
    decreases st.len(),
{
    let e = seq![Seq::<char>::empty()];
    if st.len() == 1 {
        assert((e + st).drop_last() =~= e);
        assert(join_slash(e) == Seq::<char>::empty());
        assert(slash() + join_slash(st) =~= Seq::<char>::empty() + slash() + st[0]);
    } else {
        lemma_join_with_root(st.drop_last());
        assert((e + st).drop_last() =~= e + st.drop_last());
        assert((e + st).last() == st.last());
        assert(slash() + join_slash(st) =~= (slash() + join_slash(st.drop_last())) + slash()
            + st.last());
    }
}

proof fn lemma_join_first_char(st: Seq<Seq<char>>)
    requires
        st.len() >= 1,
        st[0].len() > 0,
    ensures
        join_slash(st).len() > 0,
        join_slash(st)[0] == st[0][0],
    decreases st.len(),
{
    if st.len() > 1 {
        lemma_join_first_char(st.drop_last());
    }
}

/// Normalising is idempotent: a normalised path is its own normal form.
pub proof fn lemma_normalize_idempotent(p: Seq<char>)
    ensures
        normalize_spec(normalize_spec(p)) == normalize_spec(p),
{
    let abs = is_absolute(p);
    let st = norm_segments(p);
    let q = normalize_spec(p);
    lemma_split_segments_no_slash(p);
    assert(clean_stack(Seq::<Seq<char>>::empty(), abs));
    lemma_fold_clean(Seq::empty(), split_slash(p), abs);
    assert(clean_stack(st, abs));
    assert(Seq::<Seq<char>>::empty() + st =~= st);
    lemma_fold_clean_identity(Seq::empty(), st, abs);
    let e = seq![Seq::<char>::empty()];
    assert(norm_fold(Seq::empty(), e, abs) == Seq::<Seq<char>>::empty()) by {
        assert(e.drop_last() =~= Seq::<Seq<char>>::empty());
        assert(norm_fold(Seq::empty(), e.drop_last(), abs) == Seq::<Seq<char>>::empty());
        assert(e.last().len() == 0);
    }
    if abs {
        assert(is_absolute(q));
        if st.len() == 0 {
            assert(q =~= slash());
            assert(slash().drop_last() =~= Seq::<char>::empty());
            assert(split_slash(Seq::<char>::empty()) == seq![Seq::<char>::empty()]);
            assert(q.last() == '/');
            assert(split_slash(q) =~= seq![Seq::<char>::empty(), Seq::<char>::empty()]);
            lemma_fold_append(Seq::empty(), e, e, true);
            assert(e + e =~= seq![Seq::<char>::empty(), Seq::<char>::empty()]);
            assert(norm_segments(q) == Seq::<Seq<char>>::empty());
            assert(normalize_spec(q) =~= slash() + join_slash(Seq::<Seq<char>>::empty()));
        } else {
            lemma_join_with_root(st);
            let est = e + st;
            assert forall|i: int| 0 <= i < est.len() implies no_slash(#[trigger] est[i]) by {
                if i > 0 {
                    assert(est[i] == st[i - 1]);
                }
            }
            lemma_split_join(est);
            lemma_fold_append(Seq::empty(), e, st, true);
            assert(norm_segments(q) == st);
        }
    } else {
        if st.len() == 0 {
            assert(q == dot());
            assert(no_slash(dot()));
            lemma_split_no_slash(dot());
            assert(split_slash(q) =~= seq![dot()]);
            assert(seq![dot()].drop_last() =~= Seq::<Seq<char>>::empty());
            assert(norm_segments(q) == Seq::<Seq<char>>::empty());
        } else {
            lemma_join_first_char(st);
            assert(!is_absolute(q));
            lemma_split_join(st);
            assert(norm_segments(q) == st);
        }
    }
}

/// Normalising keeps a path absolute or relative.
pub proof fn lemma_normalize_keeps_absoluteness(p: Seq<char>)
    ensures
        is_absolute(normalize_spec(p)) == is_absolute(p),
{
    if !is_absolute(p) {
        let st = norm_segments(p);
        if st.len() > 0 {
            lemma_split_segments_no_slash(p);
            lemma_fold_clean(Seq::empty(), split_slash(p), false);
            lemma_join_first_char(st);
        }
    }
}


/// No two `/` in a row in `r`.
pub open spec fn no_double_slash(r: Seq<char>) -> bool {
    forall|i: int| 0 <= i < r.len() - 1 ==> !(#[trigger] r[i] == '/' && r[i + 1] == '/')
}

/// The shape of a normal form: not empty, no `//`, no trailing `/` (but for
/// `/` itself), and apart from the forms `/` and `.`, its segments (after the
/// leading `/` of an absolute path) are non-empty and never `.`, with `..`
/// only in a relative path and only before every other segment.
pub open spec fn normal_shape(r: Seq<char>) -> bool {
    &&& r.len() > 0
    &&& no_double_slash(r)
    &&& (r == slash() || r.last() != '/')
    &&& (r == slash() || r == dot() || {
        let segs = if is_absolute(r) {
            split_slash(r).drop_first()
        } else {
            split_slash(r)
        };
        segs.len() > 0 && clean_stack(segs, is_absolute(r))
    })
}

proof fn lemma_join_clean_chars(st: Seq<Seq<char>>)
    requires
        st.len() >= 1,
        forall|i: int| 0 <= i < st.len() ==> #[trigger] st[i].len() > 0,
        forall|i: int| 0 <= i < st.len() ==> no_slash(#[trigger] st[i]),
    ensures
        join_slash(st).len() > 0,
        no_double_slash(join_slash(st)),
        join_slash(st)[0] != '/',
        join_slash(st).last() != '/',
    decreases st.len(),
{
    let l = st.last();
    assert(l.len() > 0 && no_slash(l));
    assert(l[0] != '/');
    assert(l[l.len() - 1] != '/');
    if st.len() == 1 {
        assert(join_slash(st) == st[0]);
    } else {
        let st1 = st.drop_last();
        assert forall|i: int| 0 <= i < st1.len() implies #[trigger] st1[i].len() > 0 && no_slash(st1[i]) by {
            assert(st1[i] == st[i]);
        }
        lemma_join_clean_chars(st1);
        let x = join_slash(st1);
        let r = join_slash(st);
        assert(r == x + slash() + l);
        assert(r[0] == x[0]);
        assert(r.last() == l[l.len() - 1]);
        assert forall|i: int| 0 <= i < r.len() - 1 implies !(#[trigger] r[i] == '/' && r[i + 1] == '/') by {
            if i < x.len() - 1 {
                assert(r[i] == x[i] && r[i + 1] == x[i + 1]);
            } else if i == x.len() - 1 {
                assert(r[i] == x[x.len() - 1]);
            } else if i == x.len() {
                assert(r[i + 1] == l[0]);
            } else {
                assert(r[i] == l[i - x.len() - 1]);
            }
        }
    }
}

/// The normal form has the shape [`normal_shape`] describes and is absolute
/// exactly when the path was.
pub proof fn lemma_normalize_shape(p: Seq<char>)
    ensures
        normal_shape(normalize_spec(p)),
        is_absolute(normalize_spec(p)) == is_absolute(p),
{
    let abs = is_absolute(p);
    let st = norm_segments(p);
    let q = normalize_spec(p);
    lemma_normalize_keeps_absoluteness(p);
    lemma_split_segments_no_slash(p);
    assert(clean_stack(Seq::<Seq<char>>::empty(), abs));
    lemma_fold_clean(Seq::empty(), split_slash(p), abs);
    assert(clean_stack(st, abs));
    if st.len() == 0 {
        if abs {
            assert(q =~= slash());
        } else {
            assert(q == dot());
        }
        assert(no_double_slash(q));
    } else {
        lemma_join_clean_chars(st);
        lemma_split_join(st);
        let j = join_slash(st);
        if abs {
            let e = seq![Seq::<char>::empty()];
            lemma_join_with_root(st);
            let est = e + st;
            assert forall|i: int| 0 <= i < est.len() implies no_slash(#[trigger] est[i]) by {
                if i > 0 {
                    assert(est[i] == st[i - 1]);
                }
            }
            lemma_split_join(est);
            assert(split_slash(q).drop_first() =~= st);
            assert(q == slash() + j);
            assert(q.last() == j.last());
            assert(q != slash());
            assert forall|i: int| 0 <= i < q.len() - 1 implies !(#[trigger] q[i] == '/' && q[i + 1] == '/') by {
                if i == 0 {
                    assert(q[1] == j[0]);
                } else {
                    assert(q[i] == j[i - 1] && q[i + 1] == j[i]);
                }
            }
        } else {
            assert(q == j);
            assert(q != dot()) by {
                if q == dot() {
                    lemma_split_no_slash(dot());
                    assert(no_slash(dot()));
                    assert(split_slash(dot()) =~= seq![dot()]);
                    assert(st[0] == dot());
                }
            }
            assert(q != slash()) by {
                if q == slash() {
                    assert(q[0] == '/');
                }
            }
        }
    }
}

} // verus!
