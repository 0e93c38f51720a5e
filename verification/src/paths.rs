//! Pure path algebra: collapses `..` and empty segments and confines any
//! joined path inside a designated root directory. No I/O happens here;
//! every filesystem-mutating operation of the engine routes its target
//! path through these functions first.

use vstd::prelude::*;
use vstd::string::*;
use vstd::pervasive::VecAdditionalExecFns;

verus! {

/// The two-character traversal segment `".."`.
pub open spec fn dotdot() -> Seq<char> {
    seq!['.', '.']
}

/// Splits a character sequence on `'/'`. Always returns at least one
/// (possibly empty) part; `n` separators yield `n + 1` parts.
pub open spec fn split_path(s: Seq<char>) -> Seq<Seq<char>>
    decreases s.len(),
{
    if s.len() == 0 {
        seq![Seq::<char>::empty()]
    } else if s[0] == '/' {
        seq![Seq::<char>::empty()] + split_path(s.skip(1))
    } else {
        let rest = split_path(s.skip(1));
        rest.update(0, seq![s[0]] + rest[0])
    }
}

/// The traversal-cancellation rule, viewed from the right: a `".."` part
/// removes the nearest surviving part before it (or nothing, at the root),
/// an empty part disappears, and every other part survives in order.
pub open spec fn cancel_parts(parts: Seq<Seq<char>>) -> Seq<Seq<char>>
    decreases parts.len(),
{
    if parts.len() == 0 {
        Seq::<Seq<char>>::empty()
    } else {
        let prev = cancel_parts(parts.drop_last());
        if parts.last() == dotdot() {
            if prev.len() == 0 {
                prev
            } else {
                prev.drop_last()
            }
        } else if parts.last().len() == 0 {
            prev
        } else {
            prev.push(parts.last())
        }
    }
}

/// Joins parts back together, preceding every part with one `'/'`.
pub open spec fn join_parts(parts: Seq<Seq<char>>) -> Seq<char>
    decreases parts.len(),
{
    if parts.len() == 0 {
        Seq::<char>::empty()
    } else {
        join_parts(parts.drop_last()) + seq!['/'] + parts.last()
    }
}

/// Left-to-right, non-overlapping replacement of `"//"` by `"/"`.
pub open spec fn spec_strip_double(s: Seq<char>) -> Seq<char>
    decreases s.len(),
{
    if s.len() < 2 {
        s
    } else if s[0] == '/' && s[1] == '/' {
        seq!['/'] + spec_strip_double(s.skip(2))
    } else {
        seq![s[0]] + spec_strip_double(s.skip(1))
    }
}

/// The leading separator kept by sanitization when `preserve` is set and
/// the input starts with one.
pub open spec fn sanitize_prefix(s: Seq<char>, preserve: bool) -> Seq<char> {
    if preserve && s.len() > 0 && s[0] == '/' {
        seq!['/']
    } else {
        Seq::<char>::empty()
    }
}

/// What `sanitize_path` returns.
pub open spec fn spec_sanitize_path(s: Seq<char>, preserve: bool) -> Seq<char> {
    spec_strip_double(sanitize_prefix(s, preserve) + join_parts(cancel_parts(split_path(s))))
}

pub open spec fn is_path_prefix(pre: Seq<char>, s: Seq<char>) -> bool {
    pre.len() <= s.len() && s.take(pre.len() as int) == pre
}

/// What `safe_path_join` returns.
pub open spec fn spec_safe_path_join(p1: Seq<char>, p2: Seq<char>, chroot: Seq<char>) -> Seq<char> {
    let joined = spec_sanitize_path(p1 + seq!['/'] + p2, true);
    if is_path_prefix(chroot, joined) {
        spec_strip_double(joined)
    } else {
        spec_strip_double(chroot + seq!['/'] + joined)
    }
}

/// What `chrooted_path` returns.
pub open spec fn spec_chrooted_path(p: Seq<char>, chroot: Seq<char>) -> Seq<char> {
    spec_safe_path_join(p, Seq::<char>::empty(), chroot)
}

/// No two adjacent separators anywhere in `s`.
pub open spec fn no_double_sep(s: Seq<char>) -> bool {
    forall|i: int| 0 <= i < s.len() - 1 ==> !(#[trigger] s[i] == '/' && s[i + 1] == '/')
}

/// No part of `s` is the traversal segment `".."`.
pub open spec fn no_dotdot_part(s: Seq<char>) -> bool {
    forall|i: int| 0 <= i < split_path(s).len() ==> #[trigger] split_path(s)[i] != dotdot()
}

/// Replace `"//"` with `"/"`, left to right; purely cosmetic.
pub fn strip_double_slash(path: &String) -> (r: String)
    ensures
        r@ == spec_strip_double(path@),
{
    let s: &str = path.as_str();
    let n: usize = s.unicode_len();
    let mut out: String = String::new();
    let mut i: usize = 0;
    proof {
        assert(s@.skip(0) =~= s@);
        assert(out@ + spec_strip_double(s@) =~= spec_strip_double(s@));
    }
    while i < n
        invariant
            n == s@.len(),
            i <= n,
            out@ + spec_strip_double(s@.skip(i as int)) == spec_strip_double(s@),
        decreases n - i,
    {
        if i + 1 < n && s.get_char(i) == '/' && s.get_char(i + 1) == '/' {
            proof {
                assert(s@.skip(i as int).len() >= 2);
                assert(s@.skip(i as int)[0] == '/' && s@.skip(i as int)[1] == '/');
                assert(s@.skip(i as int).skip(2) =~= s@.skip(i as int + 2));
                reveal_strlit("/");
                assert("/"@ =~= seq!['/']);
            }
            out.append("/");
            proof {
                assert(out@ + spec_strip_double(s@.skip(i as int + 2)) =~= spec_strip_double(s@));
            }
            i = i + 2;
        } else {
            let c: &str = s.substring_char(i, i + 1);
            proof {
                assert(c@ =~= seq![s@[i as int]]);
                if s@.skip(i as int).len() >= 2 {
                    assert(s@.skip(i as int)[0] == s@[i as int]);
                    assert(s@.skip(i as int)[1] == s@[i as int + 1]);
                }
                assert(s@.skip(i as int).skip(1) =~= s@.skip(i as int + 1));
            }
            out.append(c);
            proof {
                assert(out@ + spec_strip_double(s@.skip(i as int + 1)) =~= spec_strip_double(s@));
            }
            i = i + 1;
        }
    }
    proof {
        assert(s@.skip(n as int) =~= Seq::<char>::empty());
    }
    out
}

/// The views of a vector of borrowed path parts.
pub open spec fn views_of_parts(parts: Seq<&str>) -> Seq<Seq<char>> {
    parts.map_values(|p: &str| p@)
}

/// The parts of `psv` selected by the index sequence `idxs`, in order.
pub open spec fn parts_at(psv: Seq<Seq<char>>, idxs: Seq<int>) -> Seq<Seq<char>> {
    idxs.map_values(|j: int| psv[j])
}

pub proof fn lemma_split_len(s: Seq<char>)
    ensures
        split_path(s).len() >= 1,
    decreases s.len(),
{
    if s.len() == 0 {
    } else {
        lemma_split_len(s.skip(1));
    }
}

pub proof fn lemma_split_no_sep(s: Seq<char>)
    requires
        forall|t: int| 0 <= t < s.len() ==> s[t] != '/',
    ensures
        split_path(s) == seq![s],
    decreases s.len(),
{
    if s.len() == 0 {
        assert(s =~= Seq::<char>::empty());
        assert(split_path(s) =~= seq![s]);
    } else {
        lemma_split_no_sep(s.skip(1));
        lemma_split_len(s.skip(1));
        assert(seq![s[0]] + s.skip(1) =~= s);
        assert(split_path(s) =~= seq![s]);
    }
}

pub proof fn lemma_split_concat(a: Seq<char>, b: Seq<char>)
    ensures
        split_path(a + seq!['/'] + b) == split_path(a) + split_path(b),
    decreases a.len(),
{
    let s = a + seq!['/'] + b;
    if a.len() == 0 {
        assert(s =~= seq!['/'] + b);
        assert(s[0] == '/');
        assert(s.skip(1) =~= b);
        assert(a =~= Seq::<char>::empty());
        assert(split_path(s) =~= split_path(a) + split_path(b));
    } else {
        lemma_split_concat(a.skip(1), b);
        lemma_split_len(a.skip(1));
        lemma_split_len(b);
        assert(s[0] == a[0]);
        assert(s.skip(1) =~= a.skip(1) + seq!['/'] + b);
        if a[0] == '/' {
            assert(split_path(s) =~= split_path(a) + split_path(b));
        } else {
            let ra = split_path(a.skip(1));
            let rest = split_path(s.skip(1));
            assert(rest == ra + split_path(b));
            assert(rest[0] == ra[0]);
            assert(split_path(s) == rest.update(0, seq![a[0]] + rest[0]));
            assert(split_path(a) == ra.update(0, seq![a[0]] + ra[0]));
            assert(split_path(s) =~= split_path(a) + split_path(b));
        }
    }
}

/// Backward scan for the nearest index below `k` that is not yet marked
/// for removal, stopping at index 0 in any case.
fn scan_back(removed: &Vec<bool>, k: usize) -> (j: usize)
    requires
        1 <= k,
        k <= removed@.len(),
    ensures
        j < k,
        forall|t: int| j < t < k ==> removed@[t] == true,
        j == 0 || removed@[j as int] == false,
{
    let mut j: usize = k - 1;
    while j > 0 && removed[j]
        invariant
            j < k,
            k <= removed@.len(),
            forall|t: int| j < t < k ==> removed@[t] == true,
        decreases j,
    {
        j = j - 1;
    }
    j
}

/// Neutralizes a path containing `..` and empty segments: each `..` part
/// cancels the nearest surviving part before it, empty parts vanish, and
/// the survivors are re-joined, keeping a single leading separator when
/// the input had one and `preserve_root_path_sep` is set.
pub fn sanitize_path(file_path: &String, preserve_root_path_sep: bool) -> (r: String)
    ensures
        r@ == spec_sanitize_path(file_path@, preserve_root_path_sep),
{
    let s: &str = file_path.as_str();
    let n: usize = s.unicode_len();

    // Split the path on '/'.
    let mut parts: Vec<&str> = Vec::new();
    let mut seg_start: usize = 0;
    let mut i: usize = 0;
    proof {
        assert(s@.subrange(0, n as int) =~= s@);
        assert(views_of_parts(parts@) =~= Seq::<Seq<char>>::empty());
        assert(views_of_parts(parts@) + split_path(s@) =~= split_path(s@));
    }
    while i < n
        invariant
            s@ == file_path@,
            n == s@.len(),
            seg_start <= i <= n,
            forall|t: int| seg_start <= t < i ==> s@[t] != '/',
            views_of_parts(parts@) + split_path(s@.subrange(seg_start as int, n as int))
                == split_path(s@),
        decreases n - i,
    {
        if s.get_char(i) == '/' {
            let seg: &str = s.substring_char(seg_start, i);
            proof {
                let a = s@.subrange(seg_start as int, i as int);
                let b = s@.subrange(i as int + 1, n as int);
                assert(seg@ == a);
                assert(s@.subrange(seg_start as int, n as int) =~= a + seq!['/'] + b);
                lemma_split_concat(a, b);
                lemma_split_no_sep(a);
                assert(views_of_parts(parts@.push(seg)) =~= views_of_parts(parts@).push(a));
                assert(views_of_parts(parts@).push(a) + split_path(b)
                    =~= views_of_parts(parts@) + (seq![a] + split_path(b)));
            }
            parts.push(seg);
            seg_start = i + 1;
        }
        i = i + 1;
    }
    let last_seg: &str = s.substring_char(seg_start, n);
    proof {
        let a = s@.subrange(seg_start as int, n as int);
        lemma_split_no_sep(a);
        assert(views_of_parts(parts@.push(last_seg)) =~= views_of_parts(parts@).push(a));
        assert(views_of_parts(parts@).push(a) =~= views_of_parts(parts@) + seq![a]);
    }
    parts.push(last_seg);
    let ghost psv: Seq<Seq<char>> = views_of_parts(parts@);
    proof {
        assert(psv == split_path(s@));
    }

    // Mark parts for removal: every ".." part, the nearest not-yet-removed
    // part before it, and every empty part.
    let m: usize = parts.len();
    let mut removed: Vec<bool> = Vec::new();
    let mut z: usize = 0;
    while z < m
        invariant
            removed@.len() == z,
            z <= m,
            forall|t: int| 0 <= t < z ==> removed@[t] == false,
        decreases m - z,
    {
        removed.push(false);
        z = z + 1;
    }

    let ghost mut surv: Seq<int> = Seq::<int>::empty();
    let mut k: usize = 0;
    proof {
        assert(psv.take(0) =~= Seq::<Seq<char>>::empty());
        assert(parts_at(psv, surv) =~= cancel_parts(psv.take(0)));
    }
    while k < m
        invariant
            m == parts@.len(),
            psv == views_of_parts(parts@),
            psv.len() == m,
            removed@.len() == m,
            k <= m,
            forall|a: int, b: int| 0 <= a < b < surv.len() ==> surv[a] < surv[b],
            forall|q: int| 0 <= q < surv.len() ==> 0 <= #[trigger] surv[q] < k,
            forall|j: int| 0 <= j < k ==> (#[trigger] removed@[j] == false <==> surv.contains(j)),
            forall|j: int| k <= j < m ==> removed@[j] == false,
            parts_at(psv, surv) == cancel_parts(psv.take(k as int)),
        decreases m - k,
    {
        let p: &str = parts[k];
        let plen: usize = p.unicode_len();
        let is_dd: bool = plen == 2 && p.get_char(0) == '.' && p.get_char(1) == '.';
        proof {
            assert(psv[k as int] == p@);
            if is_dd {
                assert(p@ =~= dotdot());
            } else {
                if p@.len() == 2 {
                    assert(p@[0] != '.' || p@[1] != '.');
                }
                assert(p@ != dotdot());
            }
            assert(psv.take(k as int + 1).drop_last() =~= psv.take(k as int));
            assert(psv.take(k as int + 1).last() == psv[k as int]);
        }
        if is_dd {
            removed.set(k, true);
            proof {
                assert(!surv.contains(k as int));
            }
            if k > 0 {
                let j: usize = scan_back(&removed, k);
                proof {
                    if surv.len() > 0 {
                        let last = surv.last();
                        assert(surv.contains(last));
                        assert(forall|q: int| 0 <= q < surv.len() ==> surv[q] <= last);
                        assert(removed@[last] == false);
                        assert forall|t: int| last < t < k implies removed@[t] == true by {
                            if removed@[t] == false {
                                assert(surv.contains(t));
                                let q = choose|q: int| 0 <= q < surv.len() && surv[q] == t;
                                assert(surv[q] <= last);
                            }
                        }
                        if j as int > last {
                            assert(removed@[j as int] == true);
                            assert(j == 0 || removed@[j as int] == false);
                            assert(false);
                        }
                        if (j as int) < last {
                            assert(removed@[last] == true);
                            assert(false);
                        }
                        assert(j as int == last);
                    } else {
                        assert forall|t: int| 0 <= t < k implies removed@[t] == true by {
                            if removed@[t] == false {
                                assert(surv.contains(t));
                            }
                        }
                        if j > 0 {
                            assert(removed@[j as int] == true);
                            assert(false);
                        }
                    }
                }
                removed.set(j, true);
                proof {
                    if surv.len() > 0 {
                        let prev = surv;
                        surv = surv.drop_last();
                        assert(forall|q: int| 0 <= q < surv.len() ==> surv[q] == prev[q]);
                        assert forall|jj: int| 0 <= jj < k + 1 implies
                            (#[trigger] removed@.update(k as int, true).update(j as int, true)[jj] == false
                                <==> surv.contains(jj)) by {
                            let rr = removed@.update(k as int, true).update(j as int, true);
                            if jj == k as int || jj == j as int {
                                assert(rr[jj] == true);
                                if surv.contains(jj) {
                                    let q = choose|q: int| 0 <= q < surv.len() && surv[q] == jj;
                                    assert(prev[q] == jj);
                                    assert(q < prev.len() - 1);
                                    assert(prev[q] < prev[prev.len() - 1]);
                                    assert(false);
                                }
                            } else {
                                if surv.contains(jj) {
                                    let q = choose|q: int| 0 <= q < surv.len() && surv[q] == jj;
                                    assert(prev[q] == jj);
                                    assert(prev.contains(jj));
                                } else {
                                    if prev.contains(jj) {
                                        let q = choose|q: int| 0 <= q < prev.len() && prev[q] == jj;
                                        assert(q == prev.len() - 1);
                                        assert(false);
                                    }
                                }
                            }
                        }
                        assert(parts_at(psv, surv) =~= parts_at(psv, prev).drop_last());
                    } else {
                        assert(removed@.update(k as int, true).update(j as int, true)
                            =~= removed@.update(k as int, true));
                    }
                }
            } else {
                proof {
                    if surv.len() > 0 {
                        assert(0 <= surv[0]);
                        assert(surv[0] < k as int);
                        assert(false);
                    }
                    assert(surv.len() == 0);
                }
            }
            proof {
                assert(parts_at(psv, surv) == cancel_parts(psv.take(k as int + 1)));
            }
        } else if plen == 0 {
            removed.set(k, true);
            proof {
                assert(!surv.contains(k as int));
                assert(p@.len() == 0);
                assert(parts_at(psv, surv) == cancel_parts(psv.take(k as int + 1)));
            }
        } else {
            proof {
                let prev = surv;
                surv = surv.push(k as int);
                assert(forall|q: int| 0 <= q < prev.len() ==> surv[q] == prev[q]);
                assert(surv.last() == k as int);
                assert forall|jj: int| 0 <= jj < k + 1 implies
                    (#[trigger] removed@[jj] == false <==> surv.contains(jj)) by {
                    if jj == k as int {
                        assert(surv[surv.len() - 1] == jj);
                        assert(surv.contains(jj));
                    } else {
                        if surv.contains(jj) {
                            let q = choose|q: int| 0 <= q < surv.len() && surv[q] == jj;
                            assert(q < prev.len());
                            assert(prev.contains(jj));
                        } else {
                            if prev.contains(jj) {
                                let q = choose|q: int| 0 <= q < prev.len() && prev[q] == jj;
                                assert(surv[q] == jj);
                            }
                        }
                    }
                }
                assert(parts_at(psv, surv) =~= parts_at(psv, prev).push(psv[k as int]));
                assert(parts_at(psv, surv) == cancel_parts(psv.take(k as int + 1)));
            }
        }
        k = k + 1;
    }

    // Re-join the surviving parts, one separator before each.
    let ghost total: Seq<Seq<char>> = parts_at(psv, surv);
    proof {
        assert(psv.take(m as int) =~= psv);
        assert(total == cancel_parts(psv));
    }
    let mut out: String = String::new();
    if preserve_root_path_sep && n > 0 && s.get_char(0) == '/' {
        out.append("/");
        proof {
            reveal_strlit("/");
            assert(out@ =~= sanitize_prefix(s@, preserve_root_path_sep));
        }
    } else {
        proof {
            assert(out@ =~= sanitize_prefix(s@, preserve_root_path_sep));
        }
    }
    let ghost prefix: Seq<char> = out@;
    let mut t: usize = 0;
    let ghost mut idx: int = 0;
    proof {
        assert(total.take(0) =~= Seq::<Seq<char>>::empty());
        assert(out@ =~= prefix + join_parts(total.take(0)));
    }
    while t < m
        invariant
            m == parts@.len(),
            psv == views_of_parts(parts@),
            psv.len() == m,
            removed@.len() == m,
            t <= m,
            0 <= idx <= surv.len(),
            total == parts_at(psv, surv),
            forall|a: int, b: int| 0 <= a < b < surv.len() ==> surv[a] < surv[b],
            forall|q: int| 0 <= q < surv.len() ==> 0 <= #[trigger] surv[q] < m,
            forall|j: int| 0 <= j < m ==> (#[trigger] removed@[j] == false <==> surv.contains(j)),
            forall|q: int| 0 <= q < idx ==> #[trigger] surv[q] < t,
            forall|q: int| idx <= q < surv.len() ==> #[trigger] surv[q] >= t,
            out@ == prefix + join_parts(total.take(idx)),
        decreases m - t,
    {
        if !removed[t] {
            proof {
                assert(surv.contains(t as int));
                let q = choose|q: int| 0 <= q < surv.len() && surv[q] == t as int;
                if q < idx {
                    assert(surv[q] < t as int);
                    assert(false);
                }
                if q > idx {
                    assert(surv[idx] < surv[q]);
                    assert(surv[idx] >= t as int);
                    assert(false);
                }
                assert(q == idx);
                assert(total[idx] == psv[t as int]);
            }
            out.append("/");
            let pt: &str = parts[t];
            out.append(pt);
            proof {
                reveal_strlit("/");
                assert(pt@ == psv[t as int]);
                assert(total.take(idx + 1).drop_last() =~= total.take(idx));
                assert(total.take(idx + 1).last() == total[idx]);
                assert(out@ =~= prefix + join_parts(total.take(idx + 1)));
                idx = idx + 1;
            }
        } else {
            proof {
                assert(!surv.contains(t as int));
                if idx < surv.len() {
                    assert(surv[idx] != t as int) by {
                        if surv[idx] == t as int {
                            assert(surv.contains(t as int));
                        }
                    }
                }
            }
        }
        t = t + 1;
    }
    proof {
        assert(idx == surv.len()) by {
            if idx < surv.len() {
                assert(surv[idx] >= m);
                assert(surv[idx] < m);
            }
        }
        assert(total.take(idx) =~= total);
        assert(prefix == sanitize_prefix(file_path@, preserve_root_path_sep));
    }
    strip_double_slash(&out)
}

/// Textual prefix test over characters, the containment notion used by
/// `safe_path_join`.
pub fn path_starts_with(s: &str, pre: &str) -> (r: bool)
    ensures
        r == is_path_prefix(pre@, s@),
{
    let n: usize = s.unicode_len();
    let m: usize = pre.unicode_len();
    if m > n {
        return false;
    }
    let mut i: usize = 0;
    while i < m
        invariant
            n == s@.len(),
            m == pre@.len(),
            m <= n,
            i <= m,
            forall|t: int| 0 <= t < i ==> s@[t] == pre@[t],
        decreases m - i,
    {
        if s.get_char(i) != pre.get_char(i) {
            proof {
                assert(s@.take(m as int)[i as int] != pre@[i as int]);
            }
            return false;
        }
        i = i + 1;
    }
    proof {
        assert(s@.take(m as int) =~= pre@);
    }
    true
}

proof fn lemma_split_parts_no_sep(s: Seq<char>)
    ensures
        forall|i: int, z: int|
            0 <= i < split_path(s).len() && 0 <= z < split_path(s)[i].len()
                ==> #[trigger] split_path(s)[i][z] != '/',
    decreases s.len(),
{
    if s.len() == 0 {
    } else if s[0] == '/' {
        lemma_split_parts_no_sep(s.skip(1));
        let sp = split_path(s);
        let rest = split_path(s.skip(1));
        assert forall|i: int, z: int|
            0 <= i < sp.len() && 0 <= z < sp[i].len() implies #[trigger] sp[i][z] != '/' by {
            if i > 0 {
                assert(sp[i] == rest[i - 1]);
            }
        }
    } else {
        lemma_split_parts_no_sep(s.skip(1));
        lemma_split_len(s.skip(1));
        let sp = split_path(s);
        let rest = split_path(s.skip(1));
        assert forall|i: int, z: int|
            0 <= i < sp.len() && 0 <= z < sp[i].len() implies #[trigger] sp[i][z] != '/' by {
            if i == 0 {
                assert(sp[0] == seq![s[0]] + rest[0]);
                if z > 0 {
                    assert(sp[0][z] == rest[0][z - 1]);
                }
            } else {
                assert(sp[i] == rest[i]);
            }
        }
    }
}

proof fn lemma_cancel_props(parts: Seq<Seq<char>>)
    requires
        forall|i: int, z: int|
            0 <= i < parts.len() && 0 <= z < parts[i].len() ==> #[trigger] parts[i][z] != '/',
    ensures
        forall|i: int|
            0 <= i < cancel_parts(parts).len()
                ==> (#[trigger] cancel_parts(parts)[i]).len() > 0
                    && cancel_parts(parts)[i] != dotdot(),
        forall|i: int, z: int|
            0 <= i < cancel_parts(parts).len() && 0 <= z < cancel_parts(parts)[i].len()
                ==> #[trigger] cancel_parts(parts)[i][z] != '/',
    decreases parts.len(),
{
    if parts.len() == 0 {
    } else {
        assert(forall|i: int, z: int|
            0 <= i < parts.drop_last().len() && 0 <= z < parts.drop_last()[i].len()
                ==> #[trigger] parts.drop_last()[i][z] != '/');
        lemma_cancel_props(parts.drop_last());
        let prev = cancel_parts(parts.drop_last());
        let cur = cancel_parts(parts);
        if parts.last() == dotdot() {
            assert(forall|i: int| 0 <= i < cur.len() ==> #[trigger] cur[i] == prev[i]);
        } else if parts.last().len() == 0 {
            assert(cur == prev);
        } else {
            assert(cur == prev.push(parts.last()));
            assert(forall|i: int| 0 <= i < cur.len() - 1 ==> #[trigger] cur[i] == prev[i]);
            assert(cur.last() == parts.last());
            assert(parts.last() == parts[parts.len() - 1]);
            assert(forall|z: int|
                0 <= z < parts.last().len() ==> #[trigger] parts.last()[z] != '/');
        }
    }
}

proof fn lemma_cancel_empties(parts: Seq<Seq<char>>)
    requires
        forall|i: int| 0 <= i < parts.len() ==> (#[trigger] parts[i]).len() == 0,
    ensures
        cancel_parts(parts).len() == 0,
    decreases parts.len(),
{
    if parts.len() == 0 {
    } else {
        lemma_cancel_empties(parts.drop_last());
        assert(parts.last().len() == 0);
        assert(dotdot().len() == 2);
        assert(parts.last() != dotdot());
    }
}

proof fn lemma_cancel_after_empty(parts: Seq<Seq<char>>)
    requires
        forall|i: int|
            0 <= i < parts.len()
                ==> (#[trigger] parts[i]).len() > 0 && parts[i] != dotdot(),
    ensures
        cancel_parts(seq![Seq::<char>::empty()] + parts) == parts,
    decreases parts.len(),
{
    let u = seq![Seq::<char>::empty()] + parts;
    assert(dotdot().len() == 2);
    if parts.len() == 0 {
        assert(u =~= seq![Seq::<char>::empty()]);
        assert(u.drop_last() =~= Seq::<Seq<char>>::empty());
        assert(cancel_parts(Seq::<Seq<char>>::empty()).len() == 0);
        assert(u.last().len() == 0);
        assert(u.last() != dotdot());
        assert(cancel_parts(u) =~= parts);
    } else {
        assert(forall|i: int|
            0 <= i < parts.drop_last().len()
                ==> (#[trigger] parts.drop_last()[i]).len() > 0
                    && parts.drop_last()[i] != dotdot());
        lemma_cancel_after_empty(parts.drop_last());
        assert(u.drop_last() =~= seq![Seq::<char>::empty()] + parts.drop_last());
        assert(u.last() == parts.last());
        assert(parts.last() == parts[parts.len() - 1]);
        assert(parts.last().len() > 0 && parts.last() != dotdot());
        assert(cancel_parts(u) == cancel_parts(u.drop_last()).push(u.last()));
        assert(cancel_parts(u) =~= parts);
    }
}

proof fn lemma_join_no_double(parts: Seq<Seq<char>>)
    requires
        forall|i: int| 0 <= i < parts.len() ==> (#[trigger] parts[i]).len() > 0,
        forall|i: int, z: int|
            0 <= i < parts.len() && 0 <= z < parts[i].len() ==> #[trigger] parts[i][z] != '/',
    ensures
        no_double_sep(join_parts(parts)),
        parts.len() > 0 ==> join_parts(parts).len() >= 2,
        parts.len() > 0 ==> join_parts(parts)[0] == '/',
        parts.len() > 0 ==> join_parts(parts).last() != '/',
    decreases parts.len(),
{
    if parts.len() == 0 {
    } else {
        lemma_join_no_double(parts.drop_last());
        let jd = join_parts(parts.drop_last());
        let lp = parts.last();
        let jp = join_parts(parts);
        assert(jp == jd + seq!['/'] + lp);
        assert(lp.len() > 0);
        assert(jp.last() == lp[lp.len() - 1]);
        assert(jp.last() != '/');
        assert forall|i: int| 0 <= i < jp.len() - 1 implies
            !(#[trigger] jp[i] == '/' && jp[i + 1] == '/') by {
            if i < jd.len() - 1 {
                assert(jp[i] == jd[i] && jp[i + 1] == jd[i + 1]);
            } else if i == jd.len() - 1 {
                assert(jp[i] == jd.last());
            } else if i == jd.len() {
                assert(jp[i + 1] == lp[0]);
            } else {
                assert(jp[i] == lp[i - jd.len() - 1]);
            }
        }
    }
}

proof fn lemma_split_join(parts: Seq<Seq<char>>)
    requires
        parts.len() > 0,
        forall|i: int, z: int|
            0 <= i < parts.len() && 0 <= z < parts[i].len() ==> #[trigger] parts[i][z] != '/',
    ensures
        split_path(join_parts(parts)) == seq![Seq::<char>::empty()] + parts,
    decreases parts.len(),
{
    if parts.len() == 1 {
        let p = parts[0];
        assert(parts.drop_last() =~= Seq::<Seq<char>>::empty());
        assert(join_parts(Seq::<Seq<char>>::empty()) == Seq::<char>::empty());
        assert(parts.last() == p);
        assert(join_parts(parts) =~= Seq::<char>::empty() + seq!['/'] + p);
        lemma_split_concat(Seq::<char>::empty(), p);
        lemma_split_no_sep(p);
        assert(split_path(Seq::<char>::empty()) == seq![Seq::<char>::empty()]);
        assert(split_path(join_parts(parts)) =~= seq![Seq::<char>::empty()] + parts);
    } else {
        lemma_split_join(parts.drop_last());
        let jd = join_parts(parts.drop_last());
        let lp = parts.last();
        lemma_split_concat(jd, lp);
        lemma_split_no_sep(lp);
        assert(split_path(join_parts(parts))
            == (seq![Seq::<char>::empty()] + parts.drop_last()) + seq![lp]);
        assert((seq![Seq::<char>::empty()] + parts.drop_last()) + seq![lp]
            =~= seq![Seq::<char>::empty()] + parts);
    }
}

proof fn lemma_strip_id(s: Seq<char>)
    requires
        no_double_sep(s),
    ensures
        spec_strip_double(s) == s,
    decreases s.len(),
{
    if s.len() < 2 {
    } else {
        assert(!(s[0] == '/' && s[1] == '/'));
        assert(no_double_sep(s.skip(1))) by {
            assert(forall|i: int|
                0 <= i < s.skip(1).len() - 1 ==> #[trigger] s.skip(1)[i] == s[i + 1]);
        }
        lemma_strip_id(s.skip(1));
        assert(spec_strip_double(s) =~= s);
    }
}

proof fn lemma_strip_pass(a: Seq<char>, t: Seq<char>)
    requires
        no_double_sep(a),
        !(a.len() > 0 && t.len() > 0 && a.last() == '/' && t[0] == '/'),
    ensures
        spec_strip_double(a + t) == a + spec_strip_double(t),
    decreases a.len(),
{
    let u = a + t;
    if a.len() == 0 {
        assert(u =~= t);
        assert(a + spec_strip_double(t) =~= spec_strip_double(t));
    } else if u.len() < 2 {
        assert(t.len() == 0);
        assert(spec_strip_double(t) =~= t);
        assert(spec_strip_double(u) == u);
        assert(u =~= a + spec_strip_double(t));
    } else {
        assert(u[0] == a[0]);
        assert(!(u[0] == '/' && u[1] == '/')) by {
            if a.len() >= 2 {
                assert(u[1] == a[1]);
            } else {
                assert(a.last() == a[0]);
                if t.len() > 0 {
                    assert(u[1] == t[0]);
                }
            }
        }
        assert(no_double_sep(a.skip(1))) by {
            assert(forall|i: int|
                0 <= i < a.skip(1).len() - 1 ==> #[trigger] a.skip(1)[i] == a[i + 1]);
        }
        assert(!(a.skip(1).len() > 0 && t.len() > 0 && a.skip(1).last() == '/' && t[0] == '/'))
            by {
            if a.len() >= 2 {
                assert(a.skip(1).last() == a.last());
            }
        }
        lemma_strip_pass(a.skip(1), t);
        assert(u.skip(1) =~= a.skip(1) + t);
        assert(spec_strip_double(u) == seq![a[0]] + (a.skip(1) + spec_strip_double(t)));
        assert(seq![a[0]] + (a.skip(1) + spec_strip_double(t)) =~= a + spec_strip_double(t));
    }
}

/// The shape of every sanitized path: the bare prefix when nothing
/// survives, otherwise the survivors joined, which starts with one
/// separator and contains no doubled separator and no `..` part.
proof fn lemma_sanitize_shape(s: Seq<char>, preserve: bool)
    ensures
        ({
            let c = cancel_parts(split_path(s));
            let r = spec_sanitize_path(s, preserve);
            &&& (c.len() == 0 ==> r == sanitize_prefix(s, preserve))
            &&& (c.len() > 0 ==> r == join_parts(c))
            &&& no_double_sep(r)
            &&& (r.len() > 0 ==> r[0] == '/')
            &&& (forall|i: int|
                0 <= i < c.len() ==> (#[trigger] c[i]).len() > 0 && c[i] != dotdot())
            &&& (forall|i: int, z: int|
                0 <= i < c.len() && 0 <= z < c[i].len() ==> #[trigger] c[i][z] != '/')
        }),
{
    let c = cancel_parts(split_path(s));
    let r = spec_sanitize_path(s, preserve);
    let pre = sanitize_prefix(s, preserve);
    lemma_split_parts_no_sep(s);
    lemma_cancel_props(split_path(s));
    lemma_join_no_double(c);
    if c.len() == 0 {
        assert(pre + join_parts(c) =~= pre);
        assert(pre.len() < 2);
        assert(r == pre);
        assert(no_double_sep(r));
    } else {
        let jn = join_parts(c);
        if pre.len() == 0 {
            assert(pre + jn =~= jn);
            lemma_strip_id(jn);
            assert(r == jn);
        } else {
            let u = pre + jn;
            assert(u[0] == '/' && u[1] == jn[0]);
            assert(jn[0] == '/');
            assert(u.skip(2) =~= jn.skip(1));
            assert(no_double_sep(jn.skip(1))) by {
                assert(forall|i: int|
                    0 <= i < jn.skip(1).len() - 1 ==> #[trigger] jn.skip(1)[i] == jn[i + 1]);
            }
            lemma_strip_id(jn.skip(1));
            assert(spec_strip_double(u) == seq!['/'] + jn.skip(1));
            assert(seq!['/'] + jn.skip(1) =~= jn);
            assert(r == jn);
        }
        assert(r[0] == '/');
    }
}

/// Sanitizing is idempotent: applying `sanitize_path` to its own result
/// changes nothing, whatever the input path.
pub proof fn lemma_sanitize_idempotent(s: Seq<char>, preserve: bool)
    ensures
        spec_sanitize_path(spec_sanitize_path(s, preserve), preserve)
            == spec_sanitize_path(s, preserve),
{
    let c = cancel_parts(split_path(s));
    let r = spec_sanitize_path(s, preserve);
    lemma_sanitize_shape(s, preserve);
    if c.len() == 0 {
        if r.len() == 0 {
            assert(split_path(r) == seq![Seq::<char>::empty()]);
            lemma_cancel_empties(split_path(r));
            lemma_sanitize_shape(r, preserve);
            assert(sanitize_prefix(r, preserve) =~= r);
        } else {
            assert(r == sanitize_prefix(s, preserve));
            assert(r == seq!['/']);
            assert(preserve);
            assert(r[0] == '/');
            assert(r.skip(1) =~= Seq::<char>::empty());
            assert(split_path(Seq::<char>::empty()) == seq![Seq::<char>::empty()]);
            assert(split_path(r) == seq![Seq::<char>::empty()] + split_path(r.skip(1)));
            let sp = split_path(r);
            assert(forall|i: int| 0 <= i < sp.len() ==> (#[trigger] sp[i]).len() == 0);
            lemma_cancel_empties(sp);
            lemma_sanitize_shape(r, preserve);
            assert(sanitize_prefix(r, preserve) =~= r);
        }
    } else {
        assert(r == join_parts(c));
        lemma_split_join(c);
        lemma_cancel_after_empty(c);
        assert(cancel_parts(split_path(r)) == c);
        lemma_sanitize_shape(r, preserve);
    }
}

/// Containment: whatever the two fragments hold — absolute paths,
/// traversal chains, doubled separators — the joined result starts with
/// the chroot directory, provided the chroot itself has no doubled
/// separator.
pub proof fn lemma_safe_join_contained(p1: Seq<char>, p2: Seq<char>, c: Seq<char>)
    requires
        no_double_sep(c),
    ensures
        is_path_prefix(c, spec_safe_path_join(p1, p2, c)),
{
    let j = spec_sanitize_path(p1 + seq!['/'] + p2, true);
    lemma_sanitize_shape(p1 + seq!['/'] + p2, true);
    if is_path_prefix(c, j) {
        lemma_strip_id(j);
    } else {
        assert(c.len() > 0) by {
            if c.len() == 0 {
                assert(j.take(0) =~= c);
            }
        }
        let r = spec_safe_path_join(p1, p2, c);
        if c.last() != '/' {
            lemma_strip_pass(c, seq!['/'] + j);
            assert(c + (seq!['/'] + j) =~= c + seq!['/'] + j);
            assert(r == c + spec_strip_double(seq!['/'] + j));
            assert(r.take(c.len() as int) =~= c);
        } else {
            let c2 = c.take(c.len() - 1);
            assert(no_double_sep(c2)) by {
                assert(forall|i: int| 0 <= i < c2.len() - 1 ==> #[trigger] c2[i] == c[i]);
                assert(forall|i: int| 0 <= i < c2.len() ==> #[trigger] c2[i] == c[i]);
            }
            assert(!(c2.len() > 0 && c2.last() == '/')) by {
                if c2.len() > 0 && c2.last() == '/' {
                    assert(c[c.len() - 2] == '/' && c[c.len() - 1] == '/');
                }
            }
            lemma_strip_pass(c2, seq!['/', '/'] + j);
            assert(c2 + (seq!['/', '/'] + j) =~= c + seq!['/'] + j);
            assert(spec_strip_double(seq!['/', '/'] + j) == seq!['/'] + spec_strip_double(j))
                by {
                assert((seq!['/', '/'] + j)[0] == '/');
                assert((seq!['/', '/'] + j)[1] == '/');
                assert((seq!['/', '/'] + j).skip(2) =~= j);
            }
            lemma_strip_id(j);
            assert(r == c2 + (seq!['/'] + j));
            assert(r.take(c.len() as int) =~= c);
        }
    }
}

/// Traversal removal: the result of a safe join never contains a `..`
/// part, provided the chroot directory contains none itself.
pub proof fn lemma_safe_join_no_dotdot(p1: Seq<char>, p2: Seq<char>, c: Seq<char>)
    requires
        no_double_sep(c),
        no_dotdot_part(c),
    ensures
        no_dotdot_part(spec_safe_path_join(p1, p2, c)),
{
    let src = p1 + seq!['/'] + p2;
    let j = spec_sanitize_path(src, true);
    let cc = cancel_parts(split_path(src));
    lemma_sanitize_shape(src, true);
    let r = spec_safe_path_join(p1, p2, c);
    assert(Seq::<char>::empty() != dotdot());
    if is_path_prefix(c, j) {
        lemma_strip_id(j);
        assert(r == j);
        lemma_sanitize_no_dotdot(src, true);
    } else {
        assert(c.len() > 0) by {
            if c.len() == 0 {
                assert(j.take(0) =~= c);
            }
        }
        if c.last() != '/' {
            lemma_strip_pass(c, seq!['/'] + j);
            assert(c + (seq!['/'] + j) =~= c + seq!['/'] + j);
            assert(r == c + spec_strip_double(seq!['/'] + j));
            let scl = split_path(c).len() as int;
            assert(split_path(c).take(scl) =~= split_path(c));
            if cc.len() == 0 {
                // the sanitized join is empty or a lone separator, and in
                // both cases the appended tail is a single empty part
                assert(j.len() <= 1);
                if j.len() == 0 {
                    assert(seq!['/'] + j =~= seq!['/']);
                    assert(spec_strip_double(seq!['/'] + j) == seq!['/'] + j);
                } else {
                    assert(j == seq!['/']);
                    assert((seq!['/'] + j)[0] == '/' && (seq!['/'] + j)[1] == '/');
                    assert((seq!['/'] + j).skip(2) =~= Seq::<char>::empty());
                    assert(spec_strip_double(seq!['/'] + j)
                        == seq!['/'] + spec_strip_double(Seq::<char>::empty()));
                    assert(seq!['/'] + spec_strip_double(Seq::<char>::empty()) =~= seq!['/']);
                }
                assert(r =~= c + seq!['/'] + Seq::<char>::empty());
                lemma_split_concat(c, Seq::<char>::empty());
                lemma_no_dotdot_from_split(r, c, scl, seq![Seq::<char>::empty()]);
            } else {
                assert(j == join_parts(cc));
                assert(j[0] == '/');
                assert((seq!['/'] + j)[0] == '/' && (seq!['/'] + j)[1] == '/');
                assert((seq!['/'] + j).skip(2) =~= j.skip(1));
                assert(no_double_sep(j.skip(1))) by {
                    assert(forall|i: int|
                        0 <= i < j.skip(1).len() - 1 ==> #[trigger] j.skip(1)[i] == j[i + 1]);
                }
                lemma_strip_id(j.skip(1));
                assert(spec_strip_double(seq!['/'] + j) == seq!['/'] + j.skip(1));
                assert(r =~= c + seq!['/'] + j.skip(1));
                lemma_split_concat(c, j.skip(1));
                lemma_split_join(cc);
                lemma_split_concat(Seq::<char>::empty(), j.skip(1));
                assert(Seq::<char>::empty() + seq!['/'] + j.skip(1) =~= j);
                assert(split_path(Seq::<char>::empty()) + split_path(j.skip(1))
                    == seq![Seq::<char>::empty()] + cc);
                assert(split_path(j.skip(1)) =~= cc) by {
                    let lhs = seq![Seq::<char>::empty()] + split_path(j.skip(1));
                    assert(lhs == seq![Seq::<char>::empty()] + cc);
                    assert(forall|i: int|
                        0 <= i < split_path(j.skip(1)).len()
                            ==> #[trigger] split_path(j.skip(1))[i] == lhs[i + 1]);
                    assert(forall|i: int|
                        0 <= i < cc.len()
                            ==> #[trigger] cc[i] == (seq![Seq::<char>::empty()] + cc)[i + 1]);
                }
                lemma_no_dotdot_from_split(r, c, scl, cc);
            }
        } else {
            let c2 = c.take(c.len() - 1);
            assert(no_double_sep(c2)) by {
                assert(forall|i: int| 0 <= i < c2.len() ==> #[trigger] c2[i] == c[i]);
            }
            assert(!(c2.len() > 0 && c2.last() == '/')) by {
                if c2.len() > 0 && c2.last() == '/' {
                    assert(c[c.len() - 2] == '/' && c[c.len() - 1] == '/');
                }
            }
            lemma_strip_pass(c2, seq!['/', '/'] + j);
            assert(c2 + (seq!['/', '/'] + j) =~= c + seq!['/'] + j);
            assert(spec_strip_double(seq!['/', '/'] + j) == seq!['/'] + spec_strip_double(j))
                by {
                assert((seq!['/', '/'] + j)[0] == '/');
                assert((seq!['/', '/'] + j)[1] == '/');
                assert((seq!['/', '/'] + j).skip(2) =~= j);
            }
            lemma_strip_id(j);
            assert(r == c2 + (seq!['/'] + j));
            assert(r =~= c2 + seq!['/'] + j);
            lemma_split_concat(c2, j);
            // split(c) is split(c2) followed by one empty part
            assert(c =~= c2 + seq!['/'] + Seq::<char>::empty());
            lemma_split_concat(c2, Seq::<char>::empty());
            let sc2 = split_path(c2);
            assert(split_path(c) == sc2 + seq![Seq::<char>::empty()]);
            assert(sc2 =~= split_path(c).take(sc2.len() as int)) by {
                assert(forall|i: int|
                    0 <= i < sc2.len()
                        ==> #[trigger] sc2[i] == (sc2 + seq![Seq::<char>::empty()])[i]);
            }
            if cc.len() == 0 {
                assert(j.len() <= 1);
                if j.len() == 0 {
                    assert(split_path(j) == seq![Seq::<char>::empty()]);
                    lemma_no_dotdot_from_split(r, c, sc2.len() as int,
                        seq![Seq::<char>::empty()]);
                } else {
                    assert(j == seq!['/']);
                    assert(j[0] == '/');
                    assert(j.skip(1) =~= Seq::<char>::empty());
                    assert(split_path(j)
                        == seq![Seq::<char>::empty()] + split_path(Seq::<char>::empty()));
                    assert(split_path(j)
                        =~= seq![Seq::<char>::empty(), Seq::<char>::empty()]);
                    assert(forall|i: int|
                        0 <= i < split_path(j).len()
                            ==> #[trigger] split_path(j)[i] != dotdot());
                    lemma_no_dotdot_from_split(r, c, sc2.len() as int, split_path(j));
                }
            } else {
                assert(j == join_parts(cc));
                lemma_split_join(cc);
                let tail = seq![Seq::<char>::empty()] + cc;
                assert(forall|i: int|
                    0 <= i < tail.len() ==> #[trigger] tail[i] != dotdot());
                lemma_no_dotdot_from_split(r, c, sc2.len() as int, tail);
            }
        }
    }
}

/// The sanitized form of any path contains no `..` part.
pub proof fn lemma_sanitize_no_dotdot(s: Seq<char>, preserve: bool)
    ensures
        no_dotdot_part(spec_sanitize_path(s, preserve)),
{
    let c = cancel_parts(split_path(s));
    let r = spec_sanitize_path(s, preserve);
    lemma_sanitize_shape(s, preserve);
    if c.len() == 0 {
        if r.len() == 0 {
            assert(split_path(r) == seq![Seq::<char>::empty()]);
        } else {
            assert(r == seq!['/']);
            assert(r[0] == '/');
            assert(r.skip(1) =~= Seq::<char>::empty());
            assert(split_path(r) == seq![Seq::<char>::empty()] + seq![Seq::<char>::empty()]);
        }
    } else {
        assert(r == join_parts(c));
        lemma_split_join(c);
    }
}

/// A path whose parts are a prefix of the parts of `c` followed by parts
/// that are not `..` has no `..` part when `c` has none.
proof fn lemma_no_dotdot_from_split(r: Seq<char>, c: Seq<char>, k: int, tail: Seq<Seq<char>>)
    requires
        no_dotdot_part(c),
        0 <= k <= split_path(c).len(),
        split_path(r) == split_path(c).take(k) + tail,
        forall|i: int| 0 <= i < tail.len() ==> #[trigger] tail[i] != dotdot(),
    ensures
        no_dotdot_part(r),
{
    assert forall|i: int| 0 <= i < split_path(r).len() implies
        #[trigger] split_path(r)[i] != dotdot() by {
        if i < k {
            assert(split_path(r)[i] == split_path(c)[i]);
        } else {
            assert(split_path(r)[i] == tail[i - k]);
        }
    }
}

/// Joins two paths and forces the result inside `chroot_dir`: the joined,
/// sanitized path is returned as is when it already starts with the chroot
/// directory, and is prepended with it otherwise.
pub fn safe_path_join(path1: &String, path2: &String, chroot_dir: &String) -> (r: String)
    ensures
        r@ == spec_safe_path_join(path1@, path2@, chroot_dir@),
{
    let mut combined: String = path1.clone();
    combined.append("/");
    combined.append(path2.as_str());
    proof {
        reveal_strlit("/");
        assert(combined@ =~= path1@ + seq!['/'] + path2@);
    }
    let joined: String = sanitize_path(&combined, true);
    if path_starts_with(joined.as_str(), chroot_dir.as_str()) {
        strip_double_slash(&joined)
    } else {
        let mut prefixed: String = chroot_dir.clone();
        prefixed.append("/");
        prefixed.append(joined.as_str());
        proof {
            reveal_strlit("/");
            assert(prefixed@ =~= chroot_dir@ + seq!['/'] + joined@);
        }
        strip_double_slash(&prefixed)
    }
}

/// Containment of a single confined path: it starts with the chroot
/// directory and keeps no `..` part, whatever the input path holds.
pub proof fn lemma_chrooted_path_contained(p: Seq<char>, c: Seq<char>)
    requires
        no_double_sep(c),
        no_dotdot_part(c),
    ensures
        is_path_prefix(c, spec_chrooted_path(p, c)),
        no_dotdot_part(spec_chrooted_path(p, c)),
{
    lemma_safe_join_contained(p, Seq::<char>::empty(), c);
    lemma_safe_join_no_dotdot(p, Seq::<char>::empty(), c);
}

/// Sanitizes a single path and confines it inside the chroot directory.
pub fn chrooted_path(file_path: &String, chroot_dir: &String) -> (r: String)
    ensures
        r@ == spec_chrooted_path(file_path@, chroot_dir@),
{
    let empty: String = String::new();
    safe_path_join(file_path, &empty, chroot_dir)
}

} // verus!
