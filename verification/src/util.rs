//! Shared utility functions: edit distance and relative-import resolution.
use vstd::prelude::*;
use crate::text::{chars_of, join_range, join_seq, seq_views, slice_chars, split_chars, split_seq, string_of};

verus! {

pub open spec fn min_nat(x: nat, y: nat) -> nat {
    if x <= y {
        x
    } else {
        y
    }
}

/// Levenshtein distance between two byte sequences: the least number of
/// single-byte insertions, deletions and substitutions that turn `a` into `b`.
pub open spec fn levenshtein(a: Seq<u8>, b: Seq<u8>) -> nat
    decreases a.len() + b.len(),
{
    if a.len() == 0 {
        b.len()
    } else if b.len() == 0 {
        a.len()
    } else {
        let cost: nat = if a.last() == b.last() {
            0
        } else {
            1
        };
        min_nat(
            min_nat(levenshtein(a.drop_last(), b) + 1, levenshtein(a, b.drop_last()) + 1),
            levenshtein(a.drop_last(), b.drop_last()) + cost,
        )
    }
}

/// The distance between two texts, counted over their UTF-8 bytes.
pub open spec fn text_distance(a: Seq<char>, b: Seq<char>) -> nat {
    levenshtein(vstd::utf8::encode_utf8(a), vstd::utf8::encode_utf8(b))
}

/// The distance never exceeds the longer length.
pub proof fn lemma_levenshtein_bound(a: Seq<u8>, b: Seq<u8>)
    ensures
        levenshtein(a, b) <= if a.len() >= b.len() {
            a.len()
        } else {
            b.len()
        },
    decreases a.len() + b.len(),
{
    if a.len() > 0 && b.len() > 0 {
        lemma_levenshtein_bound(a.drop_last(), b.drop_last());
    }
}

/// A sequence is at distance zero from itself.
pub proof fn lemma_levenshtein_self(a: Seq<u8>)
    ensures
        levenshtein(a, a) == 0,
    decreases a.len(),
{
    if a.len() > 0 {
        lemma_levenshtein_self(a.drop_last());
    }
}

/// Distance zero means the sequences are equal.
pub proof fn lemma_levenshtein_zero(a: Seq<u8>, b: Seq<u8>)
    requires
        levenshtein(a, b) == 0,
    ensures
        a == b,
    decreases a.len() + b.len(),
{
    if a.len() > 0 && b.len() > 0 {
        lemma_levenshtein_zero(a.drop_last(), b.drop_last());
        assert(a =~= a.drop_last().push(a.last()));
        assert(b =~= b.drop_last().push(b.last()));
    } else {
        assert(a =~= b);
    }
}

/// The distance does not depend on the order of its arguments.
pub proof fn lemma_levenshtein_symmetric(a: Seq<u8>, b: Seq<u8>)
    ensures
        levenshtein(a, b) == levenshtein(b, a),
    decreases a.len() + b.len(),
{
    if a.len() > 0 && b.len() > 0 {
        lemma_levenshtein_symmetric(a.drop_last(), b);
        lemma_levenshtein_symmetric(a, b.drop_last());
        lemma_levenshtein_symmetric(a.drop_last(), b.drop_last());
    }
}

/// The distance is at least the difference of the lengths.
pub proof fn lemma_levenshtein_lower_bound(a: Seq<u8>, b: Seq<u8>)
    ensures
        levenshtein(a, b) >= a.len() - b.len(),
        levenshtein(a, b) >= b.len() - a.len(),
    decreases a.len() + b.len(),
{
    if a.len() > 0 && b.len() > 0 {
        lemma_levenshtein_lower_bound(a.drop_last(), b);
        lemma_levenshtein_lower_bound(a, b.drop_last());
        lemma_levenshtein_lower_bound(a.drop_last(), b.drop_last());
    }
}

/// Triangle inequality: going through `b` is never shorter than going
/// from `a` to `c` directly.
pub proof fn lemma_levenshtein_triangle(a: Seq<u8>, b: Seq<u8>, c: Seq<u8>)
    ensures
        levenshtein(a, c) <= levenshtein(a, b) + levenshtein(b, c),
    decreases a.len() + b.len() + c.len(),
{
    if a.len() == 0 {
        lemma_levenshtein_lower_bound(b, c);
    } else if c.len() == 0 {
        lemma_levenshtein_lower_bound(a, b);
    } else if b.len() == 0 {
        lemma_levenshtein_bound(a, c);
    } else {
        let a1 = a.drop_last();
        let b1 = b.drop_last();
        let c1 = c.drop_last();
        let ab = levenshtein(a, b);
        let bc = levenshtein(b, c);
        if ab == levenshtein(a1, b) + 1 {
            lemma_levenshtein_triangle(a1, b, c);
        } else if bc == levenshtein(b, c1) + 1 {
            lemma_levenshtein_triangle(a, b, c1);
        } else if ab == levenshtein(a, b1) + 1 {
            if bc == levenshtein(b1, c) + 1 {
                lemma_levenshtein_triangle(a, b1, c);
            } else {
                lemma_levenshtein_triangle(a, b1, c1);
            }
        } else {
            if bc == levenshtein(b1, c) + 1 {
                lemma_levenshtein_triangle(a1, b1, c);
            } else {
                lemma_levenshtein_triangle(a1, b1, c1);
            }
        }
    }
}

/// `s` with the byte `u` inserted before position `i`.
pub open spec fn insert_at(s: Seq<u8>, i: int, u: u8) -> Seq<u8> {
    s.take(i).push(u) + s.skip(i)
}

/// `y` follows from `x` by one single-byte insertion, deletion or
/// substitution.
pub open spec fn one_edit(x: Seq<u8>, y: Seq<u8>) -> bool {
    ||| exists|i: int, u: u8| 0 <= i <= x.len() && #[trigger] insert_at(x, i, u) == y
    ||| exists|i: int, u: u8| 0 <= i <= y.len() && #[trigger] insert_at(y, i, u) == x
    ||| exists|i: int, u: u8| 0 <= i < x.len() && #[trigger] x.update(i, u) == y
}

/// The `k`-th string of `p` turns into the next by one edit.
pub open spec fn edit_step(p: Seq<Seq<u8>>, k: int) -> bool {
    one_edit(p[k], p[k + 1])
}

/// A sequence of strings, each one edit away from the one before; it
/// takes `p.len() - 1` edits from its first string to its last.
pub open spec fn is_edit_path(p: Seq<Seq<u8>>) -> bool {
    &&& p.len() >= 1
    &&& forall|k: int| 0 <= k < p.len() - 1 ==> #[trigger] edit_step(p, k)
}

/// Appending the same bytes to both sides never raises the distance.
proof fn lemma_common_suffix(x: Seq<u8>, y: Seq<u8>, q: Seq<u8>)
    ensures
        levenshtein(x + q, y + q) <= levenshtein(x, y),
    decreases q.len(),
{
    if q.len() == 0 {
        assert(x + q =~= x);
        assert(y + q =~= y);
    } else {
        let q1 = q.drop_last();
        lemma_common_suffix(x, y, q1);
        let xq = x + q;
        let yq = y + q;
        assert(xq.drop_last() =~= x + q1);
        assert(yq.drop_last() =~= y + q1);
        assert(xq.last() == yq.last());
    }
}

/// A string and itself with one more byte, or one other last byte, are at
/// distance at most one.
proof fn lemma_last_byte(p: Seq<u8>, u: u8, v: u8)
    ensures
        levenshtein(p, p.push(u)) <= 1,
        levenshtein(p.push(u), p) <= 1,
        levenshtein(p.push(u), p.push(v)) <= 1,
{
    lemma_levenshtein_self(p);
    assert(p.push(u).drop_last() =~= p);
    assert(p.push(v).drop_last() =~= p);
}

/// One edit is at distance at most one.
proof fn lemma_one_edit_bound(x: Seq<u8>, y: Seq<u8>)
    requires
        one_edit(x, y),
    ensures
        levenshtein(x, y) <= 1,
{
    if exists|i: int, u: u8| 0 <= i <= x.len() && #[trigger] insert_at(x, i, u) == y {
        let (i, u) = choose|i: int, u: u8| 0 <= i <= x.len() && #[trigger] insert_at(x, i, u) == y;
        let p = x.take(i);
        let q = x.skip(i);
        assert(x =~= p + q);
        lemma_common_suffix(p, p.push(u), q);
        lemma_last_byte(p, u, u);
    } else if exists|i: int, u: u8| 0 <= i <= y.len() && #[trigger] insert_at(y, i, u) == x {
        let (i, u) = choose|i: int, u: u8| 0 <= i <= y.len() && #[trigger] insert_at(y, i, u) == x;
        let p = y.take(i);
        let q = y.skip(i);
        assert(y =~= p + q);
        lemma_common_suffix(p.push(u), p, q);
        lemma_last_byte(p, u, u);
    } else {
        let (i, u) = choose|i: int, u: u8| 0 <= i < x.len() && #[trigger] x.update(i, u) == y;
        let p = x.take(i);
        let q = x.skip(i + 1);
        assert(x =~= p.push(x[i]) + q);
        assert(y =~= p.push(u) + q);
        lemma_common_suffix(p.push(x[i]), p.push(u), q);
        lemma_last_byte(p, x[i], u);
    }
}

/// One edit stays one edit when both strings get the same last byte.
proof fn lemma_one_edit_push(s: Seq<u8>, t: Seq<u8>, x: u8)
    requires
        one_edit(s, t),
    ensures
        one_edit(s.push(x), t.push(x)),
{
    if exists|i: int, u: u8| 0 <= i <= s.len() && #[trigger] insert_at(s, i, u) == t {
        let (i, u) = choose|i: int, u: u8| 0 <= i <= s.len() && #[trigger] insert_at(s, i, u) == t;
        assert(insert_at(s.push(x), i, u) =~= t.push(x));
    } else if exists|i: int, u: u8| 0 <= i <= t.len() && #[trigger] insert_at(t, i, u) == s {
        let (i, u) = choose|i: int, u: u8| 0 <= i <= t.len() && #[trigger] insert_at(t, i, u) == s;
        assert(insert_at(t.push(x), i, u) =~= s.push(x));
    } else {
        let (i, u) = choose|i: int, u: u8| 0 <= i < s.len() && #[trigger] s.update(i, u) == t;
        assert(s.push(x).update(i, u) =~= t.push(x));
    }
}

/// An edit path from `a` to `b` with exactly `levenshtein(a, b)` edits.
proof fn lemma_edit_path_exists(a: Seq<u8>, b: Seq<u8>) -> (p: Seq<Seq<u8>>)
    ensures
        is_edit_path(p),
        p[0] == a,
        p.last() == b,
        p.len() == levenshtein(a, b) + 1,
    decreases a.len() + b.len(),
{
    if a.len() == 0 {
        let p = Seq::new((b.len() + 1) as nat, |k: int| b.take(k));
        assert forall|k: int| 0 <= k < p.len() - 1 implies #[trigger] edit_step(p, k) by {
            assert(insert_at(b.take(k), k, b[k]) =~= b.take(k + 1));
        }
        assert(p[0] =~= a);
        assert(p.last() =~= b);
        p
    } else if b.len() == 0 {
        let n = a.len() as int;
        let p = Seq::new((n + 1) as nat, |k: int| a.take(n - k));
        assert forall|k: int| 0 <= k < p.len() - 1 implies #[trigger] edit_step(p, k) by {
            assert(insert_at(a.take(n - k - 1), n - k - 1, a[n - k - 1]) =~= a.take(n - k));
        }
        assert(p[0] =~= a);
        assert(p.last() =~= b);
        p
    } else {
        let a1 = a.drop_last();
        let b1 = b.drop_last();
        let x = a.last();
        let y = b.last();
        let d = levenshtein(a, b);
        if d == levenshtein(a1, b) + 1 {
            let q = lemma_edit_path_exists(a1, b);
            let p = seq![a] + q;
            assert(insert_at(a1, a1.len() as int, x) =~= a);
            assert forall|k: int| 0 <= k < p.len() - 1 implies #[trigger] edit_step(p, k) by {
                if k == 0 {
                    assert(p[1] == q[0]);
                } else {
                    assert(edit_step(q, k - 1));
                    assert(p[k] == q[k - 1]);
                    assert(p[k + 1] == q[k]);
                }
            }
            p
        } else if d == levenshtein(a, b1) + 1 {
            let q = lemma_edit_path_exists(a, b1);
            let p = q.push(b);
            assert(insert_at(b1, b1.len() as int, y) =~= b);
            assert forall|k: int| 0 <= k < p.len() - 1 implies #[trigger] edit_step(p, k) by {
                if k < q.len() - 1 {
                    assert(edit_step(q, k));
                } else {
                    assert(p[k] == q.last());
                }
            }
            p
        } else {
            let q = lemma_edit_path_exists(a1, b1);
            let r = Seq::new(q.len(), |k: int| q[k].push(x));
            assert forall|k: int| 0 <= k < r.len() - 1 implies #[trigger] edit_step(r, k) by {
                assert(edit_step(q, k));
                lemma_one_edit_push(q[k], q[k + 1], x);
            }
            assert(r[0] =~= a);
            if x == y {
                assert(r.last() =~= b);
                r
            } else {
                let p = r.push(b);
                assert(b1.push(x).update(b1.len() as int, y) =~= b);
                assert forall|k: int| 0 <= k < p.len() - 1 implies #[trigger] edit_step(p, k) by {
                    if k < r.len() - 1 {
                        assert(edit_step(r, k));
                    } else {
                        assert(p[k] == b1.push(x));
                    }
                }
                p
            }
        }
    }
}

/// Any edit path bounds the distance between its ends by its number of
/// edits.
proof fn lemma_edit_path_bound(p: Seq<Seq<u8>>)
    requires
        is_edit_path(p),
    ensures
        levenshtein(p[0], p.last()) <= p.len() - 1,
    decreases p.len(),
{
    if p.len() == 1 {
        lemma_levenshtein_self(p[0]);
    } else {
        let q = p.drop_last();
        assert forall|k: int| 0 <= k < q.len() - 1 implies #[trigger] edit_step(q, k) by {
            assert(edit_step(p, k));
        }
        lemma_edit_path_bound(q);
        assert(edit_step(p, p.len() - 2));
        lemma_one_edit_bound(p[p.len() - 2], p.last());
        lemma_levenshtein_triangle(p[0], p[p.len() - 2], p.last());
    }
}

/// The distance is the least number of single-byte insertions, deletions
/// and substitutions that turn `a` into `b`: some edit path from `a` to `b`
/// has exactly that many edits, and none has fewer.
pub proof fn law_levenshtein_least_edits(a: Seq<u8>, b: Seq<u8>)
    ensures
        exists|p: Seq<Seq<u8>>|
            is_edit_path(p) && p[0] == a && p.last() == b && #[trigger] p.len() == levenshtein(a, b) + 1,
        forall|p: Seq<Seq<u8>>|
            is_edit_path(p) && p[0] == a && p.last() == b ==> levenshtein(a, b) <= #[trigger] p.len() - 1,
{
    let w = lemma_edit_path_exists(a, b);
    assert(w.len() == levenshtein(a, b) + 1);
    assert forall|p: Seq<Seq<u8>>|
        is_edit_path(p) && p[0] == a && p.last() == b implies levenshtein(a, b) <= #[trigger] p.len() - 1 by {
        lemma_edit_path_bound(p);
    }
}

/// `x + 1`, or `usize::MAX` where that does not fit.
fn inc_sat(x: usize) -> (r: usize)
    ensures
        r == if x < usize::MAX {
            x + 1
        } else {
            usize::MAX as int
        },
{
    if x < usize::MAX {
        x + 1
    } else {
        usize::MAX
    }
}

/// Levenshtein edit distance between two strings, over their bytes.
///
/// Used for "did you mean?" suggestions on unresolved references.
pub fn edit_distance(a: &str, b: &str) -> (d: usize)
    ensures
        d == text_distance(a@, b@),
{
    let ab = a.as_bytes();
    let bb = b.as_bytes();
    let a_len = ab.len();
    let b_len = bb.len();
    let ghost sa = ab@;
    let ghost sb = bb@;
    // prev[j] = distance between a[..i] and b[..j]
    let mut prev: Vec<usize> = Vec::new();
    let mut j: usize = 0;
    while j < b_len
        invariant
            j <= b_len,
            b_len == sb.len(),
            prev@.len() == j,
            forall|k: int| 0 <= k < j ==> prev@[k] == levenshtein(sa.take(0), sb.take(k)),
        decreases b_len - j,
    {
        prev.push(j);
        assert(levenshtein(sa.take(0), sb.take(j as int)) == j);
        j = j + 1;
    }
    prev.push(b_len);
    assert(levenshtein(sa.take(0), sb.take(b_len as int)) == b_len);
    let mut i: usize = 0;
    while i < a_len
        invariant
            i <= a_len,
            a_len == sa.len(),
            b_len == sb.len(),
            ab@ == sa,
            bb@ == sb,
            prev@.len() == b_len + 1,
            forall|k: int|
                0 <= k <= b_len ==> prev@[k] == levenshtein(sa.take(i as int), sb.take(k)),
        decreases a_len - i,
    {
        let mut cur: Vec<usize> = Vec::new();
        cur.push(i + 1);
        proof {
            assert(sa.take(i + 1).len() > 0);
            assert(levenshtein(sa.take(i + 1), sb.take(0)) == i + 1);
        }
        let mut j: usize = 0;
        while j < b_len
            invariant
                i < a_len,
                j <= b_len,
                a_len == sa.len(),
                b_len == sb.len(),
                ab@ == sa,
                bb@ == sb,
                prev@.len() == b_len + 1,
                forall|k: int|
                    0 <= k <= b_len ==> prev@[k] == levenshtein(sa.take(i as int), sb.take(k)),
                cur@.len() == j + 1,
                forall|k: int|
                    0 <= k <= j ==> cur@[k] == levenshtein(sa.take(i + 1), sb.take(k)),
            decreases b_len - j,
        {
            let cost: usize = if ab[i] == bb[j] {
                0
            } else {
                1
            };
            proof {
                let x = sa.take(i + 1);
                let y = sb.take(j + 1);
                assert(x.drop_last() =~= sa.take(i as int));
                assert(y.drop_last() =~= sb.take(j as int));
                assert(x.last() == sa[i as int]);
                assert(y.last() == sb[j as int]);
                lemma_levenshtein_bound(sa.take(i as int), sb.take(j as int));
            }
            let del = inc_sat(prev[j + 1]);
            let ins = inc_sat(cur[j]);
            let sub = prev[j] + cost;
            let m1 = if del <= ins {
                del
            } else {
                ins
            };
            let m = if m1 <= sub {
                m1
            } else {
                sub
            };
            cur.push(m);
            j = j + 1;
        }
        prev = cur;
        i = i + 1;
    }
    assert(sa.take(a_len as int) =~= sa);
    assert(sb.take(b_len as int) =~= sb);
    prev[b_len]
}

/// Edit distance between two character sequences, over their UTF-8 bytes.
pub fn distance_chars(a: &[char], b: &[char]) -> (d: usize)
    ensures
        d == text_distance(a@, b@),
{
    let sa = string_of(a);
    let sb = string_of(b);
    edit_distance(sa.as_str(), sb.as_str())
}

// ---------------------------------------------------------------------------
// Relative imports
// ---------------------------------------------------------------------------

/// Number of leading `.` characters.
pub open spec fn leading_dots(s: Seq<char>) -> nat
    decreases s.len(),
{
    if s.len() == 0 || s[0] != '.' {
        0
    } else {
        1 + leading_dots(s.drop_first())
    }
}

/// The absolute module path that a relative import names.
///
/// In a package (`__init__.py`) one dot names the package itself; in a plain
/// module one dot names its parent package.  Going up stops at the root.
pub open spec fn relative_import_target(current: Seq<char>, relative: Seq<char>, is_package: bool) -> Seq<char> {
    let dots = leading_dots(relative);
    let remainder = relative.skip(dots as int);
    let parts = split_seq(current, '.');
    let effective: int = if is_package {
        dots - 1
    } else {
        dots as int
    };
    let up = if effective <= parts.len() {
        effective
    } else {
        parts.len() as int
    };
    let base = join_seq(parts.take(parts.len() - up), '.');
    if remainder.len() == 0 {
        base
    } else if base.len() == 0 {
        remainder
    } else {
        base.push('.') + remainder
    }
}

/// `n` dots.
pub open spec fn dots(n: nat) -> Seq<char> {
    Seq::new(n, |i: int| '.')
}

proof fn lemma_leading_dots(n: nat, r: Seq<char>)
    requires
        r.len() == 0 || r[0] != '.',
    ensures
        leading_dots(dots(n) + r) == n,
        (dots(n) + r).skip(n as int) == r,
    decreases n,
{
    assert((dots(n) + r).skip(n as int) =~= r);
    if n > 0 {
        lemma_leading_dots((n - 1) as nat, r);
        assert((dots(n) + r).drop_first() =~= dots((n - 1) as nat) + r);
    } else {
        assert(dots(n) + r =~= r);
    }
}

/// In a plain module, `n >= 1` leading dots go up `n` levels from the
/// module's own path (one dot names its parent package), never past the
/// root: the target of the dots alone is the path with its last `n`
/// segments removed.
pub proof fn law_relative_dots_go_up(current: Seq<char>, n: nat)
    requires
        n >= 1,
    ensures
        relative_import_target(current, dots(n), false) == join_seq(
            split_seq(current, '.').take(
                split_seq(current, '.').len() - if n <= split_seq(current, '.').len() {
                    n as int
                } else {
                    split_seq(current, '.').len() as int
                },
            ),
            '.',
        ),
{
    lemma_leading_dots(n, Seq::empty());
    assert(dots(n) + Seq::<char>::empty() =~= dots(n));
}

/// A name after the dots names that module inside the package the dots
/// alone name: the same number of levels is gone up whether or not a name
/// follows.
pub proof fn law_relative_name_after_dots(current: Seq<char>, n: nat, r: Seq<char>, is_package: bool)
    requires
        r.len() > 0,
        r[0] != '.',
        is_package ==> n >= 1,
    ensures
        relative_import_target(current, dots(n) + r, is_package) == ({
            let base = relative_import_target(current, dots(n), is_package);
            if base.len() == 0 {
                r
            } else {
                base.push('.') + r
            }
        }),
{
    lemma_leading_dots(n, r);
    lemma_leading_dots(n, Seq::empty());
    assert(dots(n) + Seq::<char>::empty() =~= dots(n));
}

/// In a package (`__init__.py`) one dot names the package itself: `n + 1`
/// dots in a package name what `n` dots name in a plain module of the same
/// path.
pub proof fn law_relative_package_one_level_less(current: Seq<char>, n: nat, r: Seq<char>)
    requires
        r.len() == 0 || r[0] != '.',
    ensures
        relative_import_target(current, dots(n + 1) + r, true) == relative_import_target(
            current,
            dots(n) + r,
            false,
        ),
{
    lemma_leading_dots(n + 1, r);
    lemma_leading_dots(n, r);
}

/// Resolve a relative import like `.foo` or `..bar` against the current module path.
///
/// For `__init__.py` modules (packages), `.foo` means "submodule foo of this package".
/// For regular modules, `.foo` means "sibling module foo".
pub fn resolve_relative_import(current_module: &str, relative: &str, is_package: bool) -> (r: String)
    requires
        is_package ==> leading_dots(relative@) >= 1,
    ensures
        r@ == relative_import_target(current_module@, relative@, is_package),
{
    let rel = chars_of(relative);
    let mut dots: usize = 0;
    assert(rel@.skip(0) =~= rel@);
    while dots < rel.len() && rel[dots] == '.'
        invariant
            dots <= rel.len(),
            leading_dots(rel@) == dots + leading_dots(rel@.skip(dots as int)),
        decreases rel.len() - dots,
    {
        assert(rel@.skip(dots as int).drop_first() =~= rel@.skip(dots + 1));
        dots = dots + 1;
    }
    assert(leading_dots(rel@.skip(dots as int)) == 0);
    let remainder = slice_chars(rel.as_slice(), dots, rel.len());
    assert(remainder@ =~= rel@.skip(dots as int));
    let cur = chars_of(current_module);
    let parts = split_chars(cur.as_slice(), '.');
    let effective: usize = if is_package {
        dots - 1
    } else {
        dots
    };
    let up = if effective <= parts.len() {
        effective
    } else {
        parts.len()
    };
    let base = join_range(&parts, 0, parts.len() - up, '.');
    assert(seq_views(parts@).subrange(0, parts.len() - up) =~= seq_views(parts@).take(
        parts.len() - up,
    ));
    if remainder.len() == 0 {
        string_of(base.as_slice())
    } else {
        let mut result = string_of(base.as_slice());
        if base.len() != 0 {
            result.push('.');
        }
        let mut k: usize = 0;
        let ghost start = result@;
        while k < remainder.len()
            invariant
                k <= remainder.len(),
                result@ == start + remainder@.take(k as int),
            decreases remainder.len() - k,
        {
            result.push(remainder[k]);
            assert(remainder@.take(k + 1) =~= remainder@.take(k as int).push(remainder@[k as int]));
            k = k + 1;
        }
        assert(remainder@.take(remainder.len() as int) =~= remainder@);
        proof {
            if base.len() == 0 {
                assert(start + remainder@ =~= remainder@);
            }
        }
        result
    }
}

} // verus!
