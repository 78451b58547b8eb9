//! How a path falls into components, and how a region of NUL-separated
//! fragments does.
//!
//! A component is a root marker (`/` or `//`), the parent reference `..`, or a
//! name. Runs of slashes separate components and `.` is no component at all.

use crate::path::{dot, root_double, root_single, DOT, NUL, SLASH};
use vstd::prelude::*;

verus! {

/// The index of the first byte of `s` that is `b`, or the length of `s` where
/// no byte is.
pub open spec fn index_of(s: Seq<u8>, b: u8) -> int
    decreases s.len(),
{
    if s.len() == 0 || s[0] == b {
        0
    } else {
        1 + index_of(s.skip(1), b)
    }
}

/// How many slashes `s` begins with.
pub open spec fn leading_slashes(s: Seq<u8>) -> int
    decreases s.len(),
{
    if s.len() == 0 || s[0] != SLASH {
        0
    } else {
        1 + leading_slashes(s.skip(1))
    }
}

/// Whether the segment `t` is a component: it is neither empty nor `.`.
pub open spec fn is_component(t: Seq<u8>) -> bool {
    t.len() > 0 && t != dot()
}

/// `t` as a list of components: itself, or nothing.
pub open spec fn as_component(t: Seq<u8>) -> Seq<Seq<u8>> {
    if is_component(t) {
        seq![t]
    } else {
        Seq::empty()
    }
}

/// The components of `s` that are no root marker: the segments between its
/// slashes, without the empty ones and without `.`.
pub open spec fn parts(s: Seq<u8>) -> Seq<Seq<u8>>
    decreases s.len(),
{
    if s.len() == 0 {
        Seq::empty()
    } else {
        let k = index_of(s, SLASH);
        if 0 <= k < s.len() {
            as_component(s.take(k)) + parts(s.skip(k + 1))
        } else {
            as_component(s)
        }
    }
}

/// The root marker that `s` begins with, as a list: `//` for exactly two
/// leading slashes, `/` for one or for three and more, nothing for a
/// relative path.
pub open spec fn root_of(s: Seq<u8>) -> Seq<Seq<u8>> {
    let n = leading_slashes(s);
    if n == 0 {
        Seq::empty()
    } else if n == 2 {
        seq![root_double()]
    } else {
        seq![root_single()]
    }
}

/// The components of the path `s`, from left to right.
pub open spec fn components(s: Seq<u8>) -> Seq<Seq<u8>> {
    root_of(s) + parts(s)
}

/// The components that a region of fragments holds: those of each fragment in
/// turn, a fragment ending at a NUL or at the end of the region.
pub open spec fn pending(c: Seq<u8>) -> Seq<Seq<u8>>
    decreases c.len(),
{
    if c.len() == 0 {
        Seq::empty()
    } else {
        let z = index_of(c, NUL);
        if 0 <= z < c.len() {
            components(c.take(z)) + pending(c.skip(z + 1))
        } else {
            components(c)
        }
    }
}

/// What `index_of` finds.
pub proof fn lemma_index_of(s: Seq<u8>, b: u8)
    ensures
        0 <= index_of(s, b) <= s.len(),
        forall|j: int| 0 <= j < index_of(s, b) ==> s[j] != b,
        index_of(s, b) < s.len() ==> s[index_of(s, b)] == b,
    decreases s.len(),
{
    if !(s.len() == 0 || s[0] == b) {
        let t = s.skip(1);
        lemma_index_of(t, b);
        assert forall|j: int| 0 <= j < index_of(s, b) implies s[j] != b by {
            if j > 0 {
                assert(t[j - 1] == s[j]);
            }
        }
    }
}

/// An index with the properties of `index_of` is `index_of`.
pub proof fn lemma_index_of_is(s: Seq<u8>, b: u8, k: int)
    requires
        0 <= k <= s.len(),
        forall|j: int| 0 <= j < k ==> s[j] != b,
        k < s.len() ==> s[k] == b,
    ensures
        index_of(s, b) == k,
    decreases s.len(),
{
    if !(s.len() == 0 || s[0] == b) {
        let t = s.skip(1);
        assert forall|j: int| 0 <= j < k - 1 implies t[j] != b by {
            assert(t[j] == s[j + 1]);
        }
        lemma_index_of_is(t, b, k - 1);
    }
}

/// What `leading_slashes` counts.
pub proof fn lemma_leading_slashes(s: Seq<u8>)
    ensures
        0 <= leading_slashes(s) <= s.len(),
        forall|j: int| 0 <= j < leading_slashes(s) ==> s[j] == SLASH,
        leading_slashes(s) < s.len() ==> s[leading_slashes(s)] != SLASH,
    decreases s.len(),
{
    if !(s.len() == 0 || s[0] != SLASH) {
        let t = s.skip(1);
        lemma_leading_slashes(t);
        assert forall|j: int| 0 <= j < leading_slashes(s) implies s[j] == SLASH by {
            if j > 0 {
                assert(t[j - 1] == s[j]);
            }
        }
    }
}

/// A count with the properties of `leading_slashes` is `leading_slashes`.
pub proof fn lemma_leading_slashes_is(s: Seq<u8>, n: int)
    requires
        0 <= n <= s.len(),
        forall|j: int| 0 <= j < n ==> s[j] == SLASH,
        n < s.len() ==> s[n] != SLASH,
    ensures
        leading_slashes(s) == n,
    decreases s.len(),
{
    if !(s.len() == 0 || s[0] != SLASH) {
        let t = s.skip(1);
        assert forall|j: int| 0 <= j < n - 1 implies t[j] == SLASH by {
            assert(t[j] == s[j + 1]);
        }
        lemma_leading_slashes_is(t, n - 1);
    }
}

/// Slashes at the front of a path separate nothing: without any number of
/// them the path has the same parts.
pub proof fn lemma_parts_skip_slashes(s: Seq<u8>, n: int)
    requires
        0 <= n <= leading_slashes(s),
    ensures
        parts(s.skip(n)) == parts(s),
    decreases n,
{
    lemma_leading_slashes(s);
    if n == 0 {
        assert(s.skip(0) =~= s);
    } else {
        let t = s.skip(1);
        assert(s[0] == SLASH);
        assert(index_of(s, SLASH) == 0);
        assert(s.take(0).len() == 0);
        assert(parts(s) == as_component(s.take(0)) + parts(t));
        assert(as_component(s.take(0)) + parts(t) =~= parts(t));
        lemma_parts_skip_slashes(t, n - 1);
        assert(t.skip(n - 1) =~= s.skip(n));
    }
}

/// Behind its leading slashes a path begins with none.
pub proof fn lemma_no_slash_behind_slashes(s: Seq<u8>)
    ensures
        leading_slashes(s.skip(leading_slashes(s))) == 0,
{
    lemma_leading_slashes(s);
    let n = leading_slashes(s);
    let t = s.skip(n);
    if t.len() > 0 {
        assert(t[0] == s[n]);
    }
}

/// The parts of a path that begins with a segment: that segment, where it is
/// a component, and the parts of what follows it.
pub proof fn lemma_parts_split(s: Seq<u8>)
    requires
        s.len() > 0,
    ensures
        parts(s) == as_component(s.take(index_of(s, SLASH))) + parts(s.skip(index_of(s, SLASH))),
{
    lemma_index_of(s, SLASH);
    let k = index_of(s, SLASH);
    if k < s.len() {
        let t = s.skip(k);
        assert(t[0] == SLASH);
        assert(t.len() > 0);
        lemma_leading_slashes(t);
        assert(leading_slashes(t) >= 1);
        lemma_parts_skip_slashes(t, 1);
        assert(t.skip(1) =~= s.skip(k + 1));
    } else {
        assert(s.take(k) =~= s);
        assert(s.skip(k).len() == 0);
        assert(as_component(s) + parts(s.skip(k)) =~= as_component(s));
    }
}

/// `s` without the slashes that it ends with.
pub open spec fn trim_slashes(s: Seq<u8>) -> Seq<u8>
    decreases s.len(),
{
    if s.len() > 0 && s.last() == SLASH {
        trim_slashes(s.drop_last())
    } else {
        s
    }
}

/// The text under which the path `path` goes onto the stack: the path without
/// its trailing slashes. A path of slashes alone is stored as its root
/// marker, `//` where it has two bytes and `/` otherwise.
pub open spec fn seed_text(path: Seq<u8>) -> Seq<u8> {
    let t = trim_slashes(path);
    if t.len() > 0 {
        t
    } else if path.len() == 2 {
        root_double()
    } else {
        root_single()
    }
}

/// The target of a symbolic link as the system handed it over, without the
/// NUL that some systems put at its end.
pub open spec fn link_text(target: Seq<u8>) -> Seq<u8> {
    if target.len() > 0 && target.last() == NUL {
        target.drop_last()
    } else {
        target
    }
}

/// The text of a C string: the bytes before its first NUL.
pub open spec fn c_text(bytes: Seq<u8>) -> Seq<u8> {
    bytes.take(index_of(bytes, NUL))
}

/// The length of the token that `c` begins with: it ends before the first
/// slash or NUL.
pub open spec fn token_len(c: Seq<u8>) -> int {
    if index_of(c, SLASH) <= index_of(c, NUL) {
        index_of(c, SLASH)
    } else {
        index_of(c, NUL)
    }
}

/// `c` without what separates one token from the next: its leading slashes
/// and, behind them, one NUL.
pub open spec fn skip_separators(c: Seq<u8>) -> Seq<u8> {
    let t = c.skip(leading_slashes(c));
    if t.len() > 0 && t[0] == NUL {
        t.skip(1)
    } else {
        t
    }
}

/// What stands at the front of the non-empty region `c`: a root marker where
/// it begins with a slash, else its first token, which may be empty or `.`.
pub open spec fn front(c: Seq<u8>) -> Seq<u8> {
    if c[0] == SLASH {
        if leading_slashes(c) == 2 {
            root_double()
        } else {
            root_single()
        }
    } else {
        c.take(token_len(c))
    }
}

/// What is left of the non-empty region `c` behind its front and the
/// separators that follow it.
pub open spec fn behind(c: Seq<u8>) -> Seq<u8> {
    if c[0] == SLASH {
        skip_separators(c)
    } else {
        skip_separators(c.skip(token_len(c)))
    }
}

/// What is left of the region `c` when its first component has been taken:
/// fronts that are no component are passed over, and the first one that is
/// goes with the separators behind it. Nothing is left of a region without
/// components.
pub open spec fn after_pop(c: Seq<u8>) -> Seq<u8>
    decreases c.len(),
{
    if c.len() == 0 {
        c
    } else if is_component(front(c)) {
        behind(c)
    } else {
        proof {
            lemma_behind_shorter(c);
        }
        after_pop(behind(c))
    }
}

/// What `token_len` finds.
pub proof fn lemma_token_len(c: Seq<u8>)
    ensures
        0 <= token_len(c) <= c.len(),
        token_len(c) <= index_of(c, NUL),
        token_len(c) <= index_of(c, SLASH),
        forall|j: int| 0 <= j < token_len(c) ==> c[j] != SLASH && c[j] != NUL,
        token_len(c) < c.len() ==> c[token_len(c)] == SLASH || c[token_len(c)] == NUL,
{
    lemma_index_of(c, SLASH);
    lemma_index_of(c, NUL);
}

/// A length with the properties of `token_len` is `token_len`.
pub proof fn lemma_token_len_is(c: Seq<u8>, k: int)
    requires
        0 <= k <= c.len(),
        forall|j: int| 0 <= j < k ==> c[j] != SLASH && c[j] != NUL,
        k < c.len() ==> c[k] == SLASH || c[k] == NUL,
    ensures
        token_len(c) == k,
{
    lemma_index_of(c, SLASH);
    lemma_index_of(c, NUL);
    let a = index_of(c, SLASH);
    let b = index_of(c, NUL);
    if a < k {
        assert(c[a] == SLASH);
    }
    if b < k {
        assert(c[b] == NUL);
    }
}

/// Taking the front of a region away makes it shorter.
pub proof fn lemma_behind_shorter(c: Seq<u8>)
    requires
        c.len() > 0,
    ensures
        behind(c).len() < c.len(),
{
    if c[0] == SLASH {
        lemma_leading_slashes(c);
    } else {
        lemma_token_len(c);
        let k = token_len(c);
        let d = c.skip(k);
        lemma_leading_slashes(d);
        if k == 0 {
            assert(d =~= c);
            assert(c[0] == NUL);
        }
    }
}

/// Taking a component off a region that is not empty makes it shorter.
pub proof fn lemma_after_pop_shorter(c: Seq<u8>)
    requires
        c.len() > 0,
    ensures
        after_pop(c).len() < c.len(),
    decreases c.len(),
{
    lemma_behind_shorter(c);
    let b = behind(c);
    if !is_component(front(c)) {
        if b.len() > 0 {
            lemma_after_pop_shorter(b);
        } else {
            assert(after_pop(b) == b);
        }
        assert(after_pop(c) == after_pop(b));
    }
}

/// Inside its first fragment a region can be entered anywhere: from the
/// `m`-th byte on it holds the components of what is left of that fragment,
/// and then those of the fragments behind it.
proof fn lemma_pending_within_fragment(c: Seq<u8>, m: int)
    requires
        0 <= m <= index_of(c, NUL),
    ensures
        index_of(c, NUL) < c.len() ==> pending(c.skip(m)) == components(
            c.take(index_of(c, NUL)).skip(m),
        ) + pending(c.skip(index_of(c, NUL) + 1)),
        index_of(c, NUL) >= c.len() ==> pending(c.skip(m)) == components(c.skip(m)),
{
    lemma_index_of(c, NUL);
    let z = index_of(c, NUL);
    let d = c.skip(m);
    if d.len() == 0 {
        assert(leading_slashes(d) == 0);
        assert(parts(d) =~= Seq::<Seq<u8>>::empty());
        assert(components(d) =~= Seq::<Seq<u8>>::empty());
    } else {
        assert forall|j: int| 0 <= j < z - m implies d[j] != NUL by {
            assert(d[j] == c[j + m]);
        }
        if z - m < d.len() {
            assert(d[z - m] == c[z]);
        }
        lemma_index_of_is(d, NUL, z - m);
        if z < c.len() {
            assert(d.take(z - m) =~= c.take(z).skip(m));
            assert(d.skip(z - m + 1) =~= c.skip(z + 1));
        }
    }
}

/// A fragment that begins with `n` bytes none of which is a NUL begins with
/// as many slashes as the region it was cut from.
proof fn lemma_leading_slashes_of_fragment(c: Seq<u8>, z: int)
    requires
        0 <= z <= c.len(),
        leading_slashes(c) <= z,
    ensures
        leading_slashes(c.take(z)) == leading_slashes(c),
{
    lemma_leading_slashes(c);
    let n = leading_slashes(c);
    let f = c.take(z);
    assert forall|j: int| 0 <= j < n implies f[j] == SLASH by {
        assert(f[j] == c[j]);
    }
    if n < f.len() {
        assert(f[n] == c[n]);
    }
    lemma_leading_slashes_is(f, n);
}

/// A run of slashes holds no NUL, so it ends inside the first fragment.
proof fn lemma_slashes_before_nul(c: Seq<u8>)
    ensures
        leading_slashes(c) <= index_of(c, NUL),
{
    lemma_leading_slashes(c);
    lemma_index_of(c, NUL);
    let z = index_of(c, NUL);
    if z < leading_slashes(c) {
        assert(c[z] == SLASH);
    }
}

/// The components of a region are what stands at its front, where that is a
/// component, and then the components of what lies behind the front.
pub proof fn lemma_pending_step(c: Seq<u8>)
    requires
        c.len() > 0,
    ensures
        pending(c) == as_component(front(c)) + pending(behind(c)),
{
    lemma_index_of(c, NUL);
    let z = index_of(c, NUL);
    let f = c.take(z);
    let tail = if z < c.len() {
        pending(c.skip(z + 1))
    } else {
        Seq::<Seq<u8>>::empty()
    };
    assert(pending(c) == components(f) + tail) by {
        if z >= c.len() {
            assert(f =~= c);
            assert(components(c) + tail =~= components(c));
        }
    }
    if c[0] == SLASH {
        let n = leading_slashes(c);
        lemma_leading_slashes(c);
        lemma_slashes_before_nul(c);
        lemma_leading_slashes_of_fragment(c, z);
        assert(front(c).len() > 0);
        assert(front(c)[0] == SLASH);
        assert(dot()[0] == DOT);
        assert(root_of(f) == seq![front(c)]);
        lemma_parts_skip_slashes(f, n);
        let t = c.skip(n);
        if t.len() > 0 && t[0] == NUL {
            assert(t[0] == c[n]);
            assert(n == z);
            assert(t.skip(1) =~= c.skip(z + 1));
            assert(f.skip(n).len() == 0);
            assert(parts(f.skip(n)) =~= Seq::<Seq<u8>>::empty());
            assert(components(f) + tail =~= seq![front(c)] + tail);
        } else {
            lemma_pending_within_fragment(c, n);
            lemma_no_slash_behind_slashes(f);
            if z < c.len() {
                assert(n < z) by {
                    if n == z {
                        assert(t[0] == c[z]);
                    }
                }
                assert(components(f.skip(n)) =~= parts(f));
            } else {
                assert(f =~= c);
                assert(components(c.skip(n)) =~= parts(f));
            }
            assert(pending(behind(c)) == parts(f) + tail) by {
                if z >= c.len() {
                    assert(parts(f) + tail =~= parts(f));
                }
            }
            assert(components(f) + tail =~= seq![front(c)] + (parts(f) + tail));
        }
    } else {
        lemma_token_len(c);
        let k = token_len(c);
        assert(index_of(f, SLASH) == k) by {
            assert forall|j: int| 0 <= j < k implies f[j] != SLASH by {
                assert(f[j] == c[j]);
            }
            if k < f.len() {
                assert(f[k] == c[k]);
            }
            lemma_index_of_is(f, SLASH, k);
        }
        assert(leading_slashes(f) == 0) by {
            if f.len() > 0 {
                assert(f[0] == c[0]);
            }
        }
        assert(root_of(f) =~= Seq::<Seq<u8>>::empty());
        assert(components(f) =~= parts(f));
        assert(front(c) =~= f.take(k));
        let d = c.skip(k);
        let m = leading_slashes(d);
        lemma_leading_slashes(d);
        assert(k + m <= z) by {
            if z < k + m {
                assert(d[z - k] == c[z]);
            }
        }
        let t = d.skip(m);
        assert(t =~= c.skip(k + m));
        let g = f.skip(k);
        assert(leading_slashes(g) == m) by {
            assert forall|j: int| 0 <= j < m implies g[j] == SLASH by {
                assert(g[j] == d[j]);
            }
            if m < g.len() {
                assert(g[m] == d[m]);
            }
            lemma_leading_slashes_is(g, m);
        }
        lemma_parts_skip_slashes(g, m);
        assert(g.skip(m) =~= f.skip(k + m));
        assert(parts(f) == as_component(front(c)) + parts(g)) by {
            if f.len() > 0 {
                lemma_parts_split(f);
            } else {
                assert(g.len() == 0);
                assert(front(c).len() == 0);
                assert(as_component(front(c)) + parts(g) =~= Seq::<Seq<u8>>::empty());
            }
        }
        if t.len() > 0 && t[0] == NUL {
            assert(t[0] == c[k + m]);
            assert(k + m == z);
            assert(t.skip(1) =~= c.skip(z + 1));
            assert(f.skip(k + m).len() == 0);
            assert(parts(g) =~= Seq::<Seq<u8>>::empty());
            assert(components(f) + tail =~= as_component(front(c)) + tail);
        } else {
            lemma_pending_within_fragment(c, k + m);
            lemma_no_slash_behind_slashes(g);
            if z < c.len() {
                assert(components(f.skip(k + m)) =~= parts(g));
            } else {
                assert(f =~= c);
                assert(components(c.skip(k + m)) =~= parts(g));
            }
            assert(pending(behind(c)) == parts(g) + tail) by {
                if z >= c.len() {
                    assert(parts(g) + tail =~= parts(g));
                }
            }
            assert(components(f) + tail =~= as_component(front(c)) + (parts(g) + tail));
        }
    }
}

/// A path without NUL is one fragment: as a region it holds the path's own
/// components.
pub proof fn law_pending_of_path(s: Seq<u8>)
    requires
        !s.contains(NUL),
    ensures
        pending(s) == components(s),
{
    lemma_index_of(s, NUL);
    if s.len() == 0 {
        assert(leading_slashes(s) == 0);
        assert(components(s) =~= Seq::<Seq<u8>>::empty());
    } else {
        let z = index_of(s, NUL);
        if z < s.len() {
            assert(s.contains(s[z]));
        }
    }
}

/// A slash at the end of a path adds no part to it.
pub proof fn lemma_parts_push_slash(s: Seq<u8>)
    ensures
        parts(s.push(SLASH)) == parts(s),
    decreases s.len(),
{
    let t = s.push(SLASH);
    if s.len() == 0 {
        assert(t[0] == SLASH);
        assert(index_of(t, SLASH) == 0);
        assert(t.take(0).len() == 0);
        assert(t.skip(1).len() == 0);
        assert(parts(t.skip(1)) =~= Seq::<Seq<u8>>::empty());
        assert(parts(s) =~= Seq::<Seq<u8>>::empty());
        assert(parts(t) =~= as_component(t.take(0)) + parts(t.skip(1)));
    } else {
        lemma_index_of(s, SLASH);
        let k = index_of(s, SLASH);
        assert forall|j: int| 0 <= j < k implies t[j] != SLASH by {
            assert(t[j] == s[j]);
        }
        if k < s.len() {
            assert(t[k] == s[k]);
        }
        lemma_index_of_is(t, SLASH, k);
        if k < s.len() {
            assert(t.take(k) =~= s.take(k));
            assert(t.skip(k + 1) =~= s.skip(k + 1).push(SLASH));
            lemma_parts_push_slash(s.skip(k + 1));
        } else {
            assert(t.take(k) =~= s);
            assert(t.skip(k + 1).len() == 0);
            assert(as_component(s) + parts(t.skip(k + 1)) =~= as_component(s));
        }
    }
}

/// A byte behind a run of slashes that has already ended does not change
/// the run.
pub proof fn lemma_leading_slashes_push(s: Seq<u8>, b: u8)
    requires
        leading_slashes(s) < s.len(),
    ensures
        leading_slashes(s.push(b)) == leading_slashes(s),
{
    lemma_leading_slashes(s);
    let n = leading_slashes(s);
    let t = s.push(b);
    assert forall|j: int| 0 <= j < n implies t[j] == SLASH by {
        assert(t[j] == s[j]);
    }
    assert(t[n] == s[n]);
    lemma_leading_slashes_is(t, n);
}

/// What `trim_slashes` leaves: the front of the path up to its last byte
/// that is no slash.
pub proof fn lemma_trim_slashes(s: Seq<u8>)
    ensures
        trim_slashes(s).len() <= s.len(),
        trim_slashes(s) == s.take(trim_slashes(s).len() as int),
        trim_slashes(s).len() > 0 ==> trim_slashes(s).last() != SLASH,
        forall|j: int| trim_slashes(s).len() <= j < s.len() ==> s[j] == SLASH,
    decreases s.len(),
{
    if s.len() > 0 && s.last() == SLASH {
        let t = s.drop_last();
        lemma_trim_slashes(t);
        let n = trim_slashes(t).len() as int;
        assert(t.take(n) =~= s.take(n));
        assert forall|j: int| n <= j < s.len() implies s[j] == SLASH by {
            if j < t.len() {
                assert(t[j] == s[j]);
            }
        }
    } else {
        assert(s.take(s.len() as int) =~= s);
    }
}

/// Slashes at the end of a path that holds more than slashes change none of
/// its components.
pub proof fn lemma_trim_components(s: Seq<u8>)
    requires
        trim_slashes(s).len() > 0,
    ensures
        components(trim_slashes(s)) == components(s),
    decreases s.len(),
{
    if s.len() > 0 && s.last() == SLASH {
        let t = s.drop_last();
        assert(t.push(SLASH) =~= s);
        lemma_trim_components(t);
        lemma_parts_push_slash(t);
        lemma_trim_slashes(t);
        lemma_leading_slashes(t);
        let n = trim_slashes(t).len() as int;
        assert(leading_slashes(t) < t.len()) by {
            if leading_slashes(t) >= t.len() {
                assert(t.take(n)[n - 1] == t[n - 1]);
            }
        }
        lemma_leading_slashes_push(t, SLASH);
    }
}

/// The text under which a path is stored has the components of the path.
pub proof fn lemma_seed_components(path: Seq<u8>)
    requires
        path.len() > 0,
    ensures
        components(seed_text(path)) == components(path),
        path.contains(NUL) == seed_text(path).contains(NUL),
        seed_text(path).len() > 0,
        seed_text(path).len() <= path.len(),
{
    lemma_trim_slashes(path);
    let t = trim_slashes(path);
    if t.len() > 0 {
        lemma_trim_components(path);
        if path.contains(NUL) {
            let j = choose|j: int| 0 <= j < path.len() && path[j] == NUL;
            assert(t[j] == NUL);
        }
        if t.contains(NUL) {
            let j = choose|j: int| 0 <= j < t.len() && t[j] == NUL;
            assert(path[j] == NUL);
        }
    } else {
        let n = path.len() as int;
        lemma_leading_slashes_is(path, n);
        assert(parts(path) =~= Seq::<Seq<u8>>::empty()) by {
            lemma_parts_skip_slashes(path, n);
            assert(path.skip(n).len() == 0);
        }
        let seed = seed_text(path);
        assert(seed.len() == if n == 2 {
            2int
        } else {
            1int
        });
        assert(forall|j: int| 0 <= j < seed.len() ==> seed[j] == SLASH);
        lemma_leading_slashes_is(seed, seed.len() as int);
        assert(parts(seed) =~= Seq::<Seq<u8>>::empty()) by {
            lemma_parts_skip_slashes(seed, seed.len() as int);
            assert(seed.skip(seed.len() as int).len() == 0);
        }
        assert(components(seed) =~= components(path));
        if path.contains(NUL) {
            let j = choose|j: int| 0 <= j < path.len() && path[j] == NUL;
        }
        if seed.contains(NUL) {
            let j = choose|j: int| 0 <= j < seed.len() && seed[j] == NUL;
        }
    }
}

/// A path that goes on the stack puts its components in front of those
/// that wait there.
pub proof fn lemma_pending_push(text: Seq<u8>, below: Seq<u8>)
    requires
        !text.contains(NUL),
    ensures
        pending(text.push(NUL) + below) == components(text) + pending(below),
{
    let c = text.push(NUL) + below;
    let z = text.len() as int;
    assert forall|j: int| 0 <= j < z implies c[j] != NUL by {
        assert(c[j] == text[j]);
        assert(text.contains(text[j]));
    }
    assert(c[z] == NUL);
    lemma_index_of_is(c, NUL, z);
    assert(c.take(z) =~= text);
    assert(c.skip(z + 1) =~= below);
}

/// Taking a component off a region takes the first of the components that
/// it holds and leaves the others. Of a region without components nothing
/// is left.
pub proof fn lemma_after_pop(c: Seq<u8>)
    ensures
        pending(c).len() == 0 ==> after_pop(c).len() == 0,
        pending(c).len() > 0 ==> pending(after_pop(c)) == pending(c).drop_first(),
        after_pop(c).len() <= c.len(),
    decreases c.len(),
{
    if c.len() > 0 {
        lemma_pending_step(c);
        lemma_behind_shorter(c);
        let b = behind(c);
        if is_component(front(c)) {
            assert((seq![front(c)] + pending(b)).drop_first() =~= pending(b));
        } else {
            lemma_after_pop(b);
            assert(as_component(front(c)) + pending(b) =~= pending(b));
        }
    }
}

/// No part of a path holds a slash, and each is a component.
pub proof fn lemma_parts_hold_no_slash(s: Seq<u8>, i: int)
    requires
        0 <= i < parts(s).len(),
    ensures
        is_component(parts(s)[i]),
        !parts(s)[i].contains(SLASH),
    decreases s.len(),
{
    if s.len() > 0 {
        lemma_index_of(s, SLASH);
        let k = index_of(s, SLASH);
        let head = if k < s.len() {
            s.take(k)
        } else {
            s
        };
        if is_component(head) && i == 0 {
            if head.contains(SLASH) {
                let j = choose|j: int| 0 <= j < head.len() && head[j] == SLASH;
                assert(s[j] == SLASH);
            }
        } else if k < s.len() {
            let shift = as_component(head).len() as int;
            assert(parts(s)[i] == parts(s.skip(k + 1))[i - shift]);
            lemma_parts_hold_no_slash(s.skip(k + 1), i - shift);
        }
    }
}

/// A part of a path holds no byte that the path does not hold.
pub proof fn lemma_parts_hold_bytes_of_path(s: Seq<u8>, i: int, b: u8)
    requires
        0 <= i < parts(s).len(),
        parts(s)[i].contains(b),
    ensures
        s.contains(b),
    decreases s.len(),
{
    if s.len() > 0 {
        lemma_index_of(s, SLASH);
        let k = index_of(s, SLASH);
        let head = if k < s.len() {
            s.take(k)
        } else {
            s
        };
        if is_component(head) && i == 0 {
            let j = choose|j: int| 0 <= j < head.len() && head[j] == b;
            assert(s[j] == b);
        } else if k < s.len() {
            let shift = as_component(head).len() as int;
            let tail = s.skip(k + 1);
            assert(parts(s)[i] == parts(tail)[i - shift]);
            lemma_parts_hold_bytes_of_path(tail, i - shift, b);
            let j = choose|j: int| 0 <= j < tail.len() && tail[j] == b;
            assert(s[j + k + 1] == b);
        }
    }
}

/// Whether every fragment of the region `c` holds a byte: no NUL stands
/// first in the region, and none stands behind another.
pub open spec fn tidy(c: Seq<u8>) -> bool {
    forall|j: int| 0 <= j < c.len() && #[trigger] c[j] == NUL ==> j > 0 && c[j - 1] != NUL
}

/// What is left of a tidy region behind a byte that is no NUL is tidy.
pub proof fn lemma_tidy_skip(c: Seq<u8>, m: int)
    requires
        tidy(c),
        0 <= m <= c.len(),
        m < c.len() ==> c[m] != NUL,
    ensures
        tidy(c.skip(m)),
{
    let d = c.skip(m);
    assert forall|j: int| 0 <= j < d.len() && #[trigger] d[j] == NUL implies j > 0 && d[j - 1]
        != NUL by {
        assert(d[j] == c[j + m]);
        if j > 0 {
            assert(d[j - 1] == c[j + m - 1]);
        }
    }
}

/// A tidy region without its separators at the front is tidy.
proof fn lemma_tidy_skip_separators(c: Seq<u8>)
    requires
        tidy(c),
    ensures
        tidy(skip_separators(c)),
{
    lemma_leading_slashes(c);
    let n = leading_slashes(c);
    let t = c.skip(n);
    if t.len() > 0 && t[0] == NUL {
        assert(t[0] == c[n]);
        assert(t.skip(1) =~= c.skip(n + 1));
        if n + 1 < c.len() {
            assert(c[n + 1] != NUL) by {
                if c[n + 1] == NUL {
                    assert(c[n + 1 - 1] != NUL);
                }
            }
        }
        lemma_tidy_skip(c, n + 1);
    } else {
        if t.len() > 0 {
            assert(t[0] == c[n]);
        }
        lemma_tidy_skip(c, n);
    }
}

/// Taking a component off a tidy region leaves a tidy region.
pub proof fn lemma_tidy_after_pop(c: Seq<u8>)
    requires
        tidy(c),
    ensures
        tidy(after_pop(c)),
    decreases c.len(),
{
    if c.len() > 0 {
        lemma_behind_shorter(c);
        assert(c[0] != NUL);
        if c[0] == SLASH {
            lemma_tidy_skip_separators(c);
        } else {
            lemma_token_len(c);
            let k = token_len(c);
            assert(k > 0);
            let d = c.skip(k);
            // The token ends at a separator, or at the end of the region.
            lemma_leading_slashes(d);
            let n = leading_slashes(d);
            let t = d.skip(n);
            assert(t =~= c.skip(k + n));
            if t.len() > 0 && t[0] == NUL {
                assert(t[0] == c[k + n]);
                assert(t.skip(1) =~= c.skip(k + n + 1));
                if k + n + 1 < c.len() {
                    assert(c[k + n + 1] != NUL) by {
                        if c[k + n + 1] == NUL {
                            assert(c[k + n + 1 - 1] != NUL);
                        }
                    }
                }
                lemma_tidy_skip(c, k + n + 1);
            } else {
                if t.len() > 0 {
                    assert(t[0] == c[k + n]);
                }
                lemma_tidy_skip(c, k + n);
            }
        }
        if !is_component(front(c)) {
            lemma_tidy_after_pop(behind(c));
        }
    }
}

/// A text that holds a byte and no NUL is a fragment of its own: pushed on
/// a tidy region, it leaves the region tidy.
pub proof fn lemma_tidy_push(text: Seq<u8>, below: Seq<u8>)
    requires
        text.len() > 0,
        !text.contains(NUL),
        tidy(below),
    ensures
        tidy(text.push(NUL) + below),
{
    let c = text.push(NUL) + below;
    let z = text.len() as int;
    assert forall|j: int| 0 <= j < c.len() && #[trigger] c[j] == NUL implies j > 0 && c[j - 1]
        != NUL by {
        if j < z {
            assert(c[j] == text[j]);
            assert(text.contains(text[j]));
        } else if j == z {
            assert(c[j - 1] == text[z - 1]);
            assert(text.contains(text[z - 1]));
        } else {
            assert(c[j] == below[j - z - 1]);
            if j - z - 1 > 0 {
                assert(c[j - 1] == below[j - z - 2]);
            }
        }
    }
}

} // verus!
