//! The reset transition: on the reset signal every contact-eligible
//! body despawns, and only the preview (and anything not
//! contact-eligible) survives.

use vstd::prelude::*;

use crate::fruit::{ids_unique, world_wf, Fruit, World};

verus! {

/// The bodies of `s` that are not contact-eligible, in order.
pub open spec fn non_colliders(s: Seq<Fruit>) -> Seq<Fruit>
    decreases s.len(),
{
    if s.len() == 0 {
        Seq::empty()
    } else if s[0].collider {
        non_colliders(s.drop_first())
    } else {
        seq![s[0]] + non_colliders(s.drop_first())
    }
}

/// What the reset keeps: only non-eligible bodies, all of them, order
/// and uniqueness intact.
pub proof fn lemma_non_colliders(s: Seq<Fruit>)
    ensures
        forall|m: int|
            0 <= m < non_colliders(s).len() ==> s.contains(#[trigger] non_colliders(s)[m])
                && !non_colliders(s)[m].collider,
        ids_unique(s) ==> ids_unique(non_colliders(s)),
        non_colliders(s).len() <= s.len(),
        (forall|k: int| 0 <= k < s.len() ==> #[trigger] s[k].collider) ==> non_colliders(s).len()
            == 0,
    decreases s.len(),
{
    if s.len() > 0 {
        lemma_non_colliders(s.drop_first());
        let r = non_colliders(s);
        let rt = non_colliders(s.drop_first());
        assert forall|m: int| 0 <= m < r.len() implies s.contains(r[m]) && !r[m].collider by {
            if s[0].collider {
                assert(s.drop_first().contains(r[m]));
                let wit = choose|w: int| 0 <= w < s.drop_first().len() && s.drop_first()[w] == r[m];
                assert(s[wit + 1] == r[m]);
            } else {
                if m == 0 {
                    assert(s[0] == r[0]);
                } else {
                    assert(rt[m - 1] == r[m]);
                    assert(s.drop_first().contains(rt[m - 1]));
                    let wit = choose|w: int|
                        0 <= w < s.drop_first().len() && s.drop_first()[w] == rt[m - 1];
                    assert(s[wit + 1] == r[m]);
                }
            }
        }
        if ids_unique(s) {
            assert(ids_unique(s.drop_first())) by {
                assert forall|i: int, j: int|
                    0 <= i < j < s.drop_first().len() implies #[trigger] s.drop_first()[i].id
                    != #[trigger] s.drop_first()[j].id by {
                    assert(s[i + 1].id != s[j + 1].id);
                }
            }
            assert forall|i: int, j: int| 0 <= i < j < r.len() implies #[trigger] r[i].id
                != #[trigger] r[j].id by {
                if !s[0].collider {
                    if i == 0 {
                        assert(s.drop_first().contains(rt[j - 1]));
                        let wit = choose|w: int|
                            0 <= w < s.drop_first().len() && s.drop_first()[w] == rt[j - 1];
                        assert(s[0].id != s[wit + 1].id);
                    }
                }
            }
        }
        if forall|k: int| 0 <= k < s.len() ==> #[trigger] s[k].collider {
            assert(s[0].collider);
            assert forall|k: int| 0 <= k < s.drop_first().len() implies #[trigger] s.drop_first()[k].collider by {
                assert(s[k + 1].collider);
            }
        }
    }
}

/// Despawn every contact-eligible body.  The preview is untouched, so
/// after a reset the playfield holds no contact-eligible body and the
/// player plays on.
pub fn reset(w: &mut World)
    requires
        world_wf(*old(w)),
    ensures
        world_wf(*final(w)),
        final(w).fruits@ =~= non_colliders(old(w).fruits@),
        forall|k: int|
            0 <= k < final(w).fruits@.len() ==> !(#[trigger] final(w).fruits@[k]).collider,
        final(w).player == old(w).player,
        final(w).next_id == old(w).next_id,
{
    let ghost before = w.fruits@;
    let mut kept: Vec<Fruit> = Vec::new();
    let mut k: usize = 0;
    let m = w.fruits.len();
    proof {
        assert(before.subrange(0, m as int) =~= before);
    }
    while k < m
        invariant
            0 <= k <= m,
            m == w.fruits@.len(),
            w.fruits@ == before,
            non_colliders(before) =~= kept@ + non_colliders(before.subrange(k as int, m as int)),
        decreases m - k,
    {
        let ghost rem = before.subrange(k as int, m as int);
        let f = w.fruits[k];
        proof {
            assert(rem[0] == f);
            assert(rem.drop_first() =~= before.subrange(k as int + 1, m as int));
        }
        if !f.collider {
            kept.push(f);
        }
        k = k + 1;
    }
    proof {
        assert(before.subrange(m as int, m as int) =~= Seq::<Fruit>::empty());
        assert(kept@ =~= non_colliders(before));
        lemma_non_colliders(before);
        assert forall|x: int| 0 <= x < kept@.len() implies #[trigger] kept@[x].id < w.next_id by {
            assert(before.contains(kept@[x]));
            let wit = choose|wit: int| 0 <= wit < before.len() && before[wit] == kept@[x];
            assert(before[wit].id < w.next_id);
        }
    }
    w.fruits = kept;
}

} // verus!
