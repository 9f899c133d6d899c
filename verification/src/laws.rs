//! Laws of the store, stated once for every collection it can hold.
use vstd::prelude::*;

use crate::records::{PaperView, ProfessorView};
use crate::store::{
    has_id, idx_of, lemma_idx_of, lemma_max_paper_id_bounds, lemma_next_id_exceeds,
    max_paper_id, paper_ids_unique, sorted_by_id, spec_create, spec_delete, spec_next_id,
    spec_next_paper_id,
};

verus! {

/// Creations with no deletions allocate strictly increasing, unique
/// ids: each create returns the current next id, which no professor
/// already carries, and leaves the following next id exactly one
/// higher.
pub proof fn lemma_create_ids_strictly_increase(
    s: Seq<ProfessorView>,
    name: Seq<char>,
    dept: Seq<char>,
    desc: Seq<char>,
)
    requires
        sorted_by_id(s),
        spec_next_id(s) <= u32::MAX,
    ensures
        !has_id(s, spec_next_id(s) as u32),
        spec_next_id(spec_create(s, name, dept, desc)) == spec_next_id(s) + 1,
        sorted_by_id(spec_create(s, name, dept, desc)),
{
    lemma_next_id_exceeds(s);
    assert forall|i: int| 0 <= i < s.len() implies (#[trigger] s[i].id) != spec_next_id(s) as u32 by {
        assert(s[i].id < spec_next_id(s));
    }
    let s2 = spec_create(s, name, dept, desc);
    assert(s2.last().id == spec_next_id(s) as u32);
    assert forall|i: int, j: int| 0 <= i < j < s2.len() implies s2[i].id < s2[j].id by {
        if j < s2.len() - 1 {
            assert(s[i].id < s[j].id);
        } else {
            assert(s[i].id < spec_next_id(s));
        }
    }
}

/// After deleting the professor carrying the maximum id, the next
/// create allocates an id no greater than the deleted one — id reuse
/// is expected.  When the remaining maximum sits directly below the
/// deleted id, exactly that id is handed out again.
pub proof fn lemma_delete_max_allows_reuse(s: Seq<ProfessorView>, k: u32)
    requires
        sorted_by_id(s),
        s.len() > 0,
        k == s.last().id,
        k >= 1,
    ensures
        has_id(s, k),
        spec_next_id(spec_delete(s, k)) <= k,
        s.len() >= 2 && s[s.len() - 2].id + 1 == k ==> spec_next_id(spec_delete(s, k)) == k,
{
    assert(s[s.len() - 1].id == k);
    assert(has_id(s, k));
    lemma_idx_of(s, k);
    assert(idx_of(s, k) == s.len() - 1);
    let s2 = spec_delete(s, k);
    assert(s2 =~= s.remove(s.len() - 1));
    if s.len() == 1 {
        assert(s2.len() == 0);
    } else {
        assert(s2.last() == s[s.len() - 2]);
        assert(s[s.len() - 2].id < k);
    }
}

/// Persist and reload: the snapshot text written for any well-formed
/// store decodes to exactly the store's own collection, which passes
/// the startup checks again — nothing is lost or altered on the round
/// trip.
pub proof fn lemma_snapshot_reloads(s: Seq<ProfessorView>)
    requires
        crate::store::store_wf(s),
    ensures
        crate::codec::spec_decode(crate::codec::spec_encode(s)) == Some(s),
        crate::store::store_wf(s),
{
    crate::codec::lemma_decode_encode(s);
}

/// Paper creations on one professor never produce duplicate paper ids:
/// every id present lies below the next allocation, and appending the
/// freshly allocated paper keeps the ids unique and moves the next
/// allocation one higher.  Writers are serialized by the guard, so
/// simultaneous creations take effect one after the other, each under
/// this law.
pub proof fn lemma_paper_ids_never_collide(ps: Seq<PaperView>)
    ensures
        forall|j: int| 0 <= j < ps.len() ==> (#[trigger] ps[j].id) < spec_next_paper_id(ps),
        forall|q: PaperView|
            q.id == spec_next_paper_id(ps) ==> spec_next_paper_id(#[trigger] ps.push(q))
                == spec_next_paper_id(ps) + 1 && (paper_ids_unique(ps) ==> paper_ids_unique(
                ps.push(q),
            )),
{
    lemma_max_paper_id_bounds(ps);
    assert forall|q: PaperView| q.id == spec_next_paper_id(ps) implies spec_next_paper_id(
        #[trigger] ps.push(q),
    ) == spec_next_paper_id(ps) + 1 && (paper_ids_unique(ps) ==> paper_ids_unique(
        ps.push(q),
    )) by {
        let ps2 = ps.push(q);
        assert(ps2.drop_last() =~= ps);
        assert(ps2.last() == q);
        assert(max_paper_id(ps2) == q.id);
        if paper_ids_unique(ps) {
            assert forall|x: int, y: int| 0 <= x < y < ps2.len() implies ps2[x].id != ps2[y].id by {
                if y < ps2.len() - 1 {
                    assert(ps[x].id != ps[y].id);
                } else {
                    assert(ps[x].id <= max_paper_id(ps));
                }
            }
        }
    }
}

} // verus!
