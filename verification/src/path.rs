//! The byte-level vocabulary of paths: what a parent is, and how two pieces
//! are joined.

use vstd::prelude::*;

verus! {

/// The byte that ends a fragment or a C string.
pub const NUL: u8 = 0;

/// The byte `/`.
pub const SLASH: u8 = 0x2f;

/// The byte `.`.
pub const DOT: u8 = 0x2e;

/// The path `.`.
pub open spec fn dot() -> Seq<u8> {
    seq![DOT]
}

/// The path `..`.
pub open spec fn dotdot() -> Seq<u8> {
    seq![DOT, DOT]
}

/// The bytes `/..`.
pub open spec fn slash_dotdot() -> Seq<u8> {
    seq![SLASH, DOT, DOT]
}

/// The bytes `/.`.
pub open spec fn slash_dot() -> Seq<u8> {
    seq![SLASH, DOT]
}

/// The bytes `../`.
pub open spec fn dotdot_slash() -> Seq<u8> {
    seq![DOT, DOT, SLASH]
}

/// The root marker `/`.
pub open spec fn root_single() -> Seq<u8> {
    seq![SLASH]
}

/// The root marker `//`.
pub open spec fn root_double() -> Seq<u8> {
    seq![SLASH, SLASH]
}

/// Whether `s` is one of the two root markers.
pub open spec fn is_root(s: Seq<u8>) -> bool {
    s == root_single() || s == root_double()
}

/// The index of the last `/` in `s`, or -1 where it holds none.
pub open spec fn last_slash(s: Seq<u8>) -> int
    decreases s.len(),
{
    if s.len() == 0 {
        -1
    } else if s.last() == SLASH {
        s.len() - 1
    } else {
        last_slash(s.drop_last())
    }
}

/// Whether `s` can only be left upwards by adding another `..`: it is `..`
/// itself or ends in `/..`.
pub open spec fn climbs(s: Seq<u8>) -> bool {
    s == dotdot() || slash_dotdot().is_suffix_of(s)
}

/// The lexical parent of the path `s`.
///
/// The empty path stands for the current directory, whose parent is `..`. A
/// path that climbs gets one more `/..`. Any other path loses its last
/// component: a root marker stays, and a single relative name leaves the
/// empty path.
pub open spec fn parent_path(s: Seq<u8>) -> Seq<u8> {
    if s.len() == 0 {
        dotdot()
    } else if climbs(s) {
        s + slash_dotdot()
    } else {
        let i = last_slash(s);
        if i < 0 {
            Seq::empty()
        } else if i == 0 {
            s.take(1)
        } else if i == 1 && s[0] == SLASH {
            s.take(2)
        } else {
            s.take(i)
        }
    }
}

/// Whether a `/` has to stand between `base` and a name that follows it:
/// not after a root marker, and not at the start of a relative path.
pub open spec fn needs_separator(base: Seq<u8>) -> bool {
    !(base.len() == 0 || is_root(base))
}

/// `base` with `name` appended as one more component.
pub open spec fn join(base: Seq<u8>, name: Seq<u8>) -> Seq<u8> {
    if needs_separator(base) {
        base.push(SLASH) + name
    } else {
        base + name
    }
}

/// What `last_slash` finds: the byte there is a `/`, and none follows it.
pub proof fn lemma_last_slash(s: Seq<u8>)
    ensures
        -1 <= last_slash(s) < s.len(),
        last_slash(s) >= 0 ==> s[last_slash(s)] == SLASH,
        forall|k: int| last_slash(s) < k < s.len() ==> s[k] != SLASH,
    decreases s.len(),
{
    if s.len() > 0 && s.last() != SLASH {
        let t = s.drop_last();
        lemma_last_slash(t);
        assert forall|k: int| last_slash(s) < k < s.len() implies s[k] != SLASH by {
            if k < t.len() {
                assert(t[k] == s[k]);
            }
        }
    }
}

/// Each `../` at the front of a path takes three of its bytes.
pub proof fn lemma_leading_dotdots_bound(s: Seq<u8>)
    ensures
        3 * leading_dotdots(s) <= s.len(),
    decreases s.len(),
{
    if dotdot_slash().is_prefix_of(s) {
        lemma_leading_dotdots_bound(s.skip(3));
    }
}

/// An absolute path has an absolute parent.
pub proof fn lemma_parent_absolute(s: Seq<u8>)
    requires
        s.len() > 0,
        s[0] == SLASH,
    ensures
        parent_path(s).len() > 0,
        parent_path(s)[0] == SLASH,
{
    lemma_last_slash(s);
    if last_slash(s) < 0 {
        assert(s[0] != SLASH);
    }
}

/// The path `out` after the component `c` has been applied to it: a root
/// marker takes its place, `..` leaves its parent, and a name is joined to it.
pub open spec fn apply_component(out: Seq<u8>, c: Seq<u8>) -> Seq<u8> {
    if is_root(c) {
        c
    } else if c == dotdot() {
        parent_path(out)
    } else {
        join(out, c)
    }
}

/// The path `out` after the components `comps` have been applied to it, one
/// after the other.
pub open spec fn lexical(out: Seq<u8>, comps: Seq<Seq<u8>>) -> Seq<u8>
    decreases comps.len(),
{
    if comps.len() == 0 {
        out
    } else {
        lexical(apply_component(out, comps[0]), comps.drop_first())
    }
}

/// Whether `out`, and every path that arises while the components `comps`
/// are applied to it, is at most `cap` bytes long.
pub open spec fn lexical_fits(out: Seq<u8>, comps: Seq<Seq<u8>>, cap: nat) -> bool
    decreases comps.len(),
{
    out.len() <= cap && (comps.len() == 0 || lexical_fits(
        apply_component(out, comps[0]),
        comps.drop_first(),
        cap,
    ))
}

/// How many times `s` begins with `../`.
pub open spec fn leading_dotdots(s: Seq<u8>) -> nat
    decreases s.len(),
{
    if dotdot_slash().is_prefix_of(s) {
        1 + leading_dotdots(s.skip(3))
    } else {
        0
    }
}

/// Whether `s` is a root marker, `/` or `//`.
pub fn is_root_marker(s: &[u8]) -> (r: bool)
    ensures
        r == is_root(s@),
{
    let r = (s.len() == 1 && s[0] == SLASH) || (s.len() == 2 && s[0] == SLASH && s[1] == SLASH);
    proof {
        if r {
            if s.len() == 1 {
                assert(s@ =~= root_single());
            } else {
                assert(s@ =~= root_double());
            }
        } else {
            if s@ == root_single() {
                assert(root_single().len() == 1 && root_single()[0] == SLASH);
            }
            if s@ == root_double() {
                assert(root_double().len() == 2 && root_double()[0] == SLASH && root_double()[1]
                    == SLASH);
            }
        }
    }
    r
}

/// Whether `s` is `..`.
pub fn is_dotdot(s: &[u8]) -> (r: bool)
    ensures
        r == (s@ == dotdot()),
{
    let r = s.len() == 2 && s[0] == DOT && s[1] == DOT;
    proof {
        if r {
            assert(s@ =~= dotdot());
        } else if s@ == dotdot() {
            assert(dotdot().len() == 2 && dotdot()[0] == DOT && dotdot()[1] == DOT);
        }
    }
    r
}

} // verus!
