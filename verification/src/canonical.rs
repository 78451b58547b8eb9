//! Canonical paths: a root marker and names behind it, with one slash
//! between two names. They are what a resolution results in, and they are
//! their own normal form.

use crate::decompose::{components, leading_slashes};
use crate::normal::{
    is_normal, is_segment, lemma_lexical_push, lemma_root, lemma_segment, lemma_text, text,
};
use crate::normalized;
use crate::path::{dot, dotdot, is_root, join, lexical, needs_separator, NUL, SLASH};
use vstd::prelude::*;

verus! {

/// Whether the component `c` is a name: neither `.` nor `..`, and without a
/// slash or a NUL in it.
pub open spec fn is_name(c: Seq<u8>) -> bool {
    c.len() > 0 && c != dot() && c != dotdot() && !c.contains(SLASH) && !c.contains(NUL)
}

/// Whether `cs` are the components of a canonical path: a root marker, and
/// names behind it.
pub open spec fn is_canonical(cs: Seq<Seq<u8>>) -> bool {
    cs.len() > 0 && is_root(cs[0]) && forall|i: int| 1 <= i < cs.len() ==> is_name(#[trigger] cs[i])
}

/// The path that the components `cs` of a canonical path spell: the root
/// marker, and each name joined to what stands before it.
pub open spec fn spell(cs: Seq<Seq<u8>>) -> Seq<u8>
    decreases cs.len(),
{
    if cs.len() == 0 {
        Seq::empty()
    } else if cs.len() == 1 {
        cs[0]
    } else {
        join(spell(cs.drop_last()), cs.last())
    }
}

/// The components of a canonical path are a normal form, and the path is
/// what they come to when they are applied one after the other.
pub proof fn lemma_canonical_is_normal(cs: Seq<Seq<u8>>)
    requires
        is_canonical(cs),
    ensures
        is_normal(cs),
        text(cs) == spell(cs),
        !spell(cs).contains(NUL),
    decreases cs.len(),
{
    assert forall|i: int| 0 < i < cs.len() implies is_segment(#[trigger] cs[i]) by {
        assert(is_name(cs[i]));
    }
    assert forall|i: int| 0 < i < cs.len() && #[trigger] cs[i] == dotdot() implies cs[i - 1]
        == dotdot() by {
        assert(is_name(cs[i]));
    }
    let q = spell(cs);
    if cs.len() == 1 {
        lemma_root(cs[0]);
        assert(cs.drop_first().len() == 0);
        assert(lexical(cs[0], cs.drop_first()) == cs[0]);
        if q.contains(NUL) {
            let j = choose|j: int| 0 <= j < q.len() && q[j] == NUL;
        }
    } else {
        let front = cs.drop_last();
        let name = cs.last();
        assert(is_canonical(front)) by {
            assert forall|i: int| 1 <= i < front.len() implies is_name(#[trigger] front[i]) by {
                assert(front[i] == cs[i]);
            }
            assert(front[0] == cs[0]);
        }
        lemma_canonical_is_normal(front);
        assert(front.push(name) =~= cs);
        lemma_lexical_push(Seq::empty(), front, name);
        assert(is_name(cs[cs.len() - 1]));
        lemma_segment(name);
        let base = spell(front);
        if q.contains(NUL) {
            let j = choose|j: int| 0 <= j < q.len() && q[j] == NUL;
            let off: int = if needs_separator(base) {
                base.len() as int + 1
            } else {
                base.len() as int
            };
            if j < base.len() {
                assert(base[j] == NUL);
                assert(base.contains(NUL));
            } else if j >= off {
                assert(name[j - off] == NUL);
                assert(name.contains(NUL));
            }
        }
    }
}

/// What a canonical path looks like, and that it falls into the components
/// that spell it.
pub proof fn lemma_spell(cs: Seq<Seq<u8>>)
    requires
        is_canonical(cs),
    ensures
        components(spell(cs)) == cs,
        lexical(Seq::empty(), cs) == spell(cs),
        normalized(spell(cs)) == spell(cs),
        spell(cs).len() > 0,
        spell(cs)[0] == SLASH,
        !spell(cs).contains(NUL),
        leading_slashes(spell(cs)) == cs[0].len(),
        cs.len() > 1 ==> !is_root(spell(cs)) && spell(cs).last() != SLASH,
{
    lemma_canonical_is_normal(cs);
    lemma_text(cs);
}

} // verus!
