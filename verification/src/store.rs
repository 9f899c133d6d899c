//! The in-memory authoritative collection of professors and its
//! single-operation mutations.
//!
//! The collection is held sorted ascending by professor id, with ids
//! unique; within each professor the paper ids are unique.  Identifier
//! allocation follows the max-plus-one rule: the next professor id is
//! `max(existing ids) + 1` (1 when empty), and paper ids follow the same
//! rule scoped to their professor.
use vstd::prelude::*;

use crate::records::{Paper, PaperView, Professor, ProfessorView};

verus! {

/// Why a store operation could not be carried out.
#[derive(Clone, Copy, PartialEq, Eq, Structural, Debug)]
pub enum StoreError {
    ProfessorNotFound,
    PaperNotFound,
    GenerationFailed,
}

pub open spec fn sorted_by_id(s: Seq<ProfessorView>) -> bool {
    forall|i: int, j: int| 0 <= i < j < s.len() ==> s[i].id < s[j].id
}

pub open spec fn paper_ids_unique(ps: Seq<PaperView>) -> bool {
    forall|i: int, j: int| 0 <= i < j < ps.len() ==> ps[i].id != ps[j].id
}

pub open spec fn store_wf(s: Seq<ProfessorView>) -> bool {
    &&& sorted_by_id(s)
    &&& forall|i: int| 0 <= i < s.len() ==> paper_ids_unique(#[trigger] s[i].papers)
}

pub open spec fn prof_ids_unique(s: Seq<ProfessorView>) -> bool {
    forall|i: int, j: int| 0 <= i < j < s.len() ==> s[i].id != s[j].id
}

/// What a parsed snapshot must satisfy, in any order, to be loaded:
/// professor ids pairwise distinct and paper ids distinct within each
/// professor — no store can represent a duplicate either way.
pub open spec fn loadable(s: Seq<ProfessorView>) -> bool {
    &&& prof_ids_unique(s)
    &&& forall|i: int| 0 <= i < s.len() ==> paper_ids_unique(#[trigger] s[i].papers)
}

/// Two collections holding exactly the same records, in any order.
pub open spec fn same_records(a: Seq<ProfessorView>, b: Seq<ProfessorView>) -> bool {
    &&& a.len() == b.len()
    &&& forall|i: int| 0 <= i < a.len() ==> b.contains(#[trigger] a[i])
    &&& forall|i: int| 0 <= i < b.len() ==> a.contains(#[trigger] b[i])
}

pub open spec fn has_id(s: Seq<ProfessorView>, id: u32) -> bool {
    exists|i: int| 0 <= i < s.len() && s[i].id == id
}

/// The index of the professor carrying `id`; meaningful only when
/// `has_id(s, id)` holds, and then unique as soon as `s` is sorted.
pub open spec fn idx_of(s: Seq<ProfessorView>, id: u32) -> int {
    choose|i: int| 0 <= i < s.len() && s[i].id == id
}

/// The id the next created professor receives: max existing id plus one,
/// or 1 for an empty store.  Since the store is sorted, the maximum id is
/// the last one.
pub open spec fn spec_next_id(s: Seq<ProfessorView>) -> int {
    if s.len() == 0 {
        1
    } else {
        s.last().id + 1
    }
}

/// The id the next created paper receives within one professor.
pub open spec fn max_paper_id(ps: Seq<PaperView>) -> int
    decreases ps.len(),
{
    if ps.len() == 0 {
        0
    } else {
        let m = max_paper_id(ps.drop_last());
        if ps.last().id > m {
            ps.last().id as int
        } else {
            m
        }
    }
}

pub open spec fn spec_next_paper_id(ps: Seq<PaperView>) -> int {
    max_paper_id(ps) + 1
}

/// The store after a successful create: the fresh professor, with no
/// papers yet, appended at the end (it carries the largest id).
pub open spec fn spec_create(
    s: Seq<ProfessorView>,
    name: Seq<char>,
    dept: Seq<char>,
    desc: Seq<char>,
) -> Seq<ProfessorView> {
    s.push(
        ProfessorView {
            id: spec_next_id(s) as u32,
            name,
            dept,
            desc,
            papers: Seq::empty(),
        },
    )
}

/// The store after a delete: the carrier of `id` removed, or the store
/// unchanged when no professor carries it.
pub open spec fn spec_delete(s: Seq<ProfessorView>, id: u32) -> Seq<ProfessorView> {
    if has_id(s, id) {
        s.remove(idx_of(s, id))
    } else {
        s
    }
}

pub open spec fn has_paper(ps: Seq<PaperView>, pid: u32) -> bool {
    exists|i: int| 0 <= i < ps.len() && ps[i].id == pid
}

/// The position of the paper carrying `pid`; meaningful only when
/// `has_paper(ps, pid)` holds, and then unique as soon as the paper ids
/// are unique.
pub open spec fn pidx_of(ps: Seq<PaperView>, pid: u32) -> int {
    choose|i: int| 0 <= i < ps.len() && ps[i].id == pid
}

/// The professor record with its paper list replaced.
pub open spec fn with_papers(p: ProfessorView, ps: Seq<PaperView>) -> ProfessorView {
    ProfessorView { id: p.id, name: p.name, dept: p.dept, desc: p.desc, papers: ps }
}

/// The professor record with its description replaced.
pub open spec fn with_desc(p: ProfessorView, d: Seq<char>) -> ProfessorView {
    ProfessorView { id: p.id, name: p.name, dept: p.dept, desc: d, papers: p.papers }
}

pub proof fn lemma_pidx_of(ps: Seq<PaperView>, pid: u32)
    requires
        paper_ids_unique(ps),
        has_paper(ps, pid),
    ensures
        0 <= pidx_of(ps, pid) < ps.len(),
        ps[pidx_of(ps, pid)].id == pid,
        forall|i: int| 0 <= i < ps.len() && ps[i].id == pid ==> i == pidx_of(ps, pid),
{
    let k = pidx_of(ps, pid);
    assert(0 <= k < ps.len() && ps[k].id == pid);
    assert forall|i: int| 0 <= i < ps.len() && ps[i].id == pid implies i == k by {
        if i < k {
            assert(ps[i].id != ps[k].id);
        } else if k < i {
            assert(ps[k].id != ps[i].id);
        }
    }
}

pub proof fn lemma_idx_of(s: Seq<ProfessorView>, id: u32)
    requires
        sorted_by_id(s),
        has_id(s, id),
    ensures
        0 <= idx_of(s, id) < s.len(),
        s[idx_of(s, id)].id == id,
        forall|i: int| 0 <= i < s.len() && s[i].id == id ==> i == idx_of(s, id),
{
    let k = idx_of(s, id);
    assert(0 <= k < s.len() && s[k].id == id);
    assert forall|i: int| 0 <= i < s.len() && s[i].id == id implies i == k by {
        if i < k {
            assert(s[i].id < s[k].id);
        } else if k < i {
            assert(s[k].id < s[i].id);
        }
    }
}

/// Two collections sorted strictly ascending by id that hold the same
/// records are the same sequence.
pub proof fn lemma_sorted_same_records_equal(a: Seq<ProfessorView>, b: Seq<ProfessorView>)
    requires
        sorted_by_id(a),
        sorted_by_id(b),
        same_records(a, b),
    ensures
        a == b,
    decreases a.len(),
{
    if a.len() == 0 {
        assert(a =~= b);
    } else {
        let j = choose|j: int| 0 <= j < b.len() && b[j] == a[0];
        let k = choose|k: int| 0 <= k < a.len() && a[k] == b[0];
        assert(b.contains(a[0]));
        assert(a.contains(b[0]));
        if j > 0 && k > 0 {
            assert(b[0].id < b[j].id);
            assert(a[0].id < a[k].id);
            assert(false);
        }
        assert(a[0] == b[0]);
        let a2 = a.drop_first();
        let b2 = b.drop_first();
        assert forall|x: int, y: int| 0 <= x < y < a2.len() implies a2[x].id < a2[y].id by {
            assert(a[x + 1].id < a[y + 1].id);
        }
        assert forall|x: int, y: int| 0 <= x < y < b2.len() implies b2[x].id < b2[y].id by {
            assert(b[x + 1].id < b[y + 1].id);
        }
        assert forall|l: int| 0 <= l < a2.len() implies b2.contains(#[trigger] a2[l]) by {
            assert(a2[l] == a[l + 1]);
            assert(b.contains(a[l + 1]));
            let m = choose|m: int| 0 <= m < b.len() && b[m] == a[l + 1];
            assert(a[0].id < a[l + 1].id);
            assert(m > 0);
            assert(b2[m - 1] == a2[l]);
        }
        assert forall|l: int| 0 <= l < b2.len() implies a2.contains(#[trigger] b2[l]) by {
            assert(b2[l] == b[l + 1]);
            assert(a.contains(b[l + 1]));
            let m = choose|m: int| 0 <= m < a.len() && a[m] == b[l + 1];
            assert(b[0].id < b[l + 1].id);
            assert(m > 0);
            assert(a2[m - 1] == b2[l]);
        }
        lemma_sorted_same_records_equal(a2, b2);
        assert forall|i: int| 0 <= i < a.len() implies a[i] == b[i] by {
            if i > 0 {
                assert(a2[i - 1] == b2[i - 1]);
            }
        }
        assert(a =~= b);
    }
}

/// Every id present is below the next one to be allocated.
pub proof fn lemma_next_id_exceeds(s: Seq<ProfessorView>)
    requires
        sorted_by_id(s),
    ensures
        forall|i: int| 0 <= i < s.len() ==> #[trigger] s[i].id < spec_next_id(s),
{
    assert forall|i: int| 0 <= i < s.len() implies #[trigger] s[i].id < spec_next_id(s) by {
        if i < s.len() - 1 {
            assert(s[i].id < s[s.len() - 1].id);
        }
    }
}

/// Every paper id present is at most the running maximum.
pub proof fn lemma_max_paper_id_bounds(ps: Seq<PaperView>)
    ensures
        forall|i: int| 0 <= i < ps.len() ==> #[trigger] ps[i].id <= max_paper_id(ps),
        max_paper_id(ps) >= 0,
    decreases ps.len(),
{
    if ps.len() > 0 {
        lemma_max_paper_id_bounds(ps.drop_last());
        assert forall|i: int| 0 <= i < ps.len() implies #[trigger] ps[i].id <= max_paper_id(ps) by {
            if i < ps.len() - 1 {
                assert(ps.drop_last()[i] == ps[i]);
            }
        }
    }
}

/// The in-memory mapping from professor id to professor record.
pub struct Dataset {
    professors: Vec<Professor>,
}

impl View for Dataset {
    type V = Seq<ProfessorView>;

    closed spec fn view(&self) -> Seq<ProfessorView> {
        self.professors@.map_values(|p: Professor| p@)
    }
}

impl Dataset {
    pub open spec fn wf(&self) -> bool {
        store_wf(self@)
    }

    pub fn new() -> (r: Dataset)
        ensures
            r.wf(),
            r@.len() == 0,
    {
        let r = Dataset { professors: Vec::new() };
        proof {
            assert(r@ =~= Seq::<ProfessorView>::empty());
        }
        r
    }

    /// Wraps a list of professors already in canonical shape: sorted
    /// strictly ascending by id, paper ids unique per professor.
    pub fn from_sorted(professors: Vec<Professor>) -> (r: Dataset)
        requires
            store_wf(professors@.map_values(|p: Professor| p@)),
        ensures
            r.wf(),
            r@ == professors@.map_values(|p: Professor| p@),
    {
        Dataset { professors }
    }

    /// The position of the professor carrying `id`, if any.
    fn find_index(&self, id: u32) -> (r: Option<usize>)
        requires
            self.wf(),
        ensures
            match r {
                Some(i) => has_id(self@, id) && i == idx_of(self@, id),
                None => !has_id(self@, id),
            },
    {
        let n = self.professors.len();
        let mut i: usize = 0;
        while i < n
            invariant
                self.wf(),
                n == self@.len(),
                i <= n,
                forall|j: int| 0 <= j < i ==> self@[j].id != id,
            decreases n - i,
        {
            if self.professors[i].id == id {
                proof {
                    assert(self@[i as int].id == id);
                    lemma_idx_of(self@, id);
                }
                return Some(i);
            }
            i = i + 1;
        }
        None
    }

    /// The snapshot text to persist after a successful mutation: the
    /// whole collection, fully overwriting any earlier snapshot.
    pub fn snapshot(&self) -> (r: String)
        ensures
            r@ == crate::codec::spec_encode(self@),
    {
        crate::codec::encode_professors(&self.professors)
    }

    /// Whether one professor's paper ids are pairwise distinct.
    fn papers_unique(papers: &Vec<Paper>) -> (r: bool)
        ensures
            r == paper_ids_unique(papers@.map_values(|q: Paper| q@)),
    {
        let ghost ps = papers@.map_values(|q: Paper| q@);
        let m = papers.len();
        let mut x: usize = 0;
        while x < m
            invariant
                m == ps.len(),
                ps == papers@.map_values(|q: Paper| q@),
                x <= m,
                forall|a: int, b: int| 0 <= a < b < ps.len() && a < x ==> ps[a].id != ps[b].id,
            decreases m - x,
        {
            let mut y: usize = x + 1;
            while y < m
                invariant
                    m == ps.len(),
                    ps == papers@.map_values(|q: Paper| q@),
                    x < y <= m,
                    x < m,
                    forall|b: int| x < b < y ==> ps[x as int].id != (#[trigger] ps[b].id),
                decreases m - y,
            {
                if papers[x].id == papers[y].id {
                    proof {
                        assert(ps[x as int].id == ps[y as int].id);
                        assert(!paper_ids_unique(ps));
                    }
                    return false;
                }
                y = y + 1;
            }
            proof {
                assert forall|a: int, b: int|
                    0 <= a < b < ps.len() && a < x + 1 implies ps[a].id != ps[b].id by {
                    if a == x {
                        assert(ps[x as int].id != ps[b].id);
                    }
                }
            }
            x = x + 1;
        }
        true
    }

    /// Whether a parsed list, in whatever order it stands, can be
    /// loaded: professor ids pairwise distinct, paper ids distinct
    /// within each professor.
    pub fn check_loadable(professors: &Vec<Professor>) -> (r: bool)
        ensures
            r == loadable(professors@.map_values(|p: Professor| p@)),
    {
        let ghost s = professors@.map_values(|p: Professor| p@);
        let n = professors.len();
        let mut x: usize = 0;
        while x < n
            invariant
                n == s.len(),
                s == professors@.map_values(|p: Professor| p@),
                x <= n,
                forall|a: int, b: int| 0 <= a < b < s.len() && a < x ==> s[a].id != s[b].id,
            decreases n - x,
        {
            let mut y: usize = x + 1;
            while y < n
                invariant
                    n == s.len(),
                    s == professors@.map_values(|p: Professor| p@),
                    x < y <= n,
                    x < n,
                    forall|b: int| x < b < y ==> s[x as int].id != (#[trigger] s[b].id),
                decreases n - y,
            {
                if professors[x].id == professors[y].id {
                    proof {
                        assert(s[x as int].id == s[y as int].id);
                        assert(!prof_ids_unique(s));
                    }
                    return false;
                }
                y = y + 1;
            }
            proof {
                assert forall|a: int, b: int|
                    0 <= a < b < s.len() && a < x + 1 implies s[a].id != s[b].id by {
                    if a == x {
                        assert(s[x as int].id != s[b].id);
                    }
                }
            }
            x = x + 1;
        }
        proof {
            assert(prof_ids_unique(s));
        }
        let mut a: usize = 0;
        while a < n
            invariant
                n == s.len(),
                s == professors@.map_values(|p: Professor| p@),
                a <= n,
                prof_ids_unique(s),
                forall|x2: int| 0 <= x2 < a ==> paper_ids_unique(#[trigger] s[x2].papers),
            decreases n - a,
        {
            let ok = Self::papers_unique(&professors[a].papers);
            proof {
                assert(professors@[a as int]@.papers == s[a as int].papers);
            }
            if !ok {
                proof {
                    assert(!loadable(s));
                }
                return false;
            }
            a = a + 1;
        }
        true
    }

    /// Sorts a duplicate-free list of professors ascending by id; no
    /// record is added, dropped or altered.
    fn sort_professors(input: Vec<Professor>) -> (r: Vec<Professor>)
        requires
            prof_ids_unique(input@.map_values(|p: Professor| p@)),
        ensures
            same_records(r@.map_values(|p: Professor| p@), input@.map_values(|p: Professor| p@)),
            sorted_by_id(r@.map_values(|p: Professor| p@)),
    {
        let ghost iv = input@.map_values(|p: Professor| p@);
        let mut out: Vec<Professor> = Vec::new();
        let n = input.len();
        let mut i: usize = 0;
        while i < n
            invariant
                n == input@.len(),
                iv == input@.map_values(|p: Professor| p@),
                prof_ids_unique(iv),
                i <= n,
                out@.len() == i,
                sorted_by_id(out@.map_values(|p: Professor| p@)),
                forall|a: int| 0 <= a < i ==> out@.map_values(|p: Professor| p@).contains(
                    #[trigger] iv[a],
                ),
                forall|a: int| 0 <= a < out@.len() ==> exists|k: int|
                    0 <= k < i && iv[k] == (#[trigger] out@[a])@,
            decreases n - i,
        {
            let p = input[i].clone();
            let ghost ov = out@.map_values(|q: Professor| q@);
            proof {
                assert(p@ == iv[i as int]);
                assert forall|a: int| 0 <= a < ov.len() implies (#[trigger] ov[a].id)
                    != p@.id by {
                    let k = choose|k: int| 0 <= k < i && iv[k] == ov[a];
                    assert(iv[k].id != iv[i as int].id);
                }
            }
            let m = out.len();
            let mut pos: usize = 0;
            loop
                invariant
                    m == out@.len(),
                    ov == out@.map_values(|q: Professor| q@),
                    pos <= m,
                    forall|a: int| 0 <= a < pos ==> (#[trigger] ov[a].id) < p@.id,
                    forall|a: int| 0 <= a < ov.len() ==> (#[trigger] ov[a].id) != p@.id,
                    sorted_by_id(ov),
                ensures
                    pos <= m,
                    m == out@.len(),
                    ov == out@.map_values(|q: Professor| q@),
                    forall|a: int| 0 <= a < pos ==> (#[trigger] ov[a].id) < p@.id,
                    forall|a: int| pos <= a < ov.len() ==> (#[trigger] ov[a].id) > p@.id,
                decreases m - pos,
            {
                if pos == m {
                    break ;
                }
                if out[pos].id >= p.id {
                    proof {
                        assert(ov[pos as int].id > p@.id);
                        assert forall|a: int| pos <= a < ov.len() implies (#[trigger] ov[a].id)
                            > p@.id by {
                            if a > pos {
                                assert(ov[pos as int].id < ov[a].id);
                            }
                        }
                    }
                    break ;
                }
                pos = pos + 1;
            }
            out.insert(pos, p);
            proof {
                let nv = out@.map_values(|q: Professor| q@);
                assert(nv =~= ov.insert(pos as int, iv[i as int]));
                assert forall|a: int, b: int| 0 <= a < b < nv.len() implies nv[a].id
                    < nv[b].id by {
                    let oa: int = if a < pos { a } else { a - 1 };
                    let ob: int = if b < pos { b } else { b - 1 };
                    if a == pos {
                        assert(nv[b] == ov[ob]);
                    } else if b == pos {
                        assert(nv[a] == ov[oa]);
                    } else {
                        assert(nv[a] == ov[oa]);
                        assert(nv[b] == ov[ob]);
                        if oa < ob {
                            assert(ov[oa].id < ov[ob].id);
                        }
                    }
                }
                assert forall|a: int| 0 <= a < i + 1 implies nv.contains(#[trigger] iv[a]) by {
                    if a == i {
                        assert(nv[pos as int] == iv[a]);
                    } else {
                        let j = choose|j: int| 0 <= j < ov.len() && ov[j] == iv[a];
                        let j2: int = if j < pos {
                            j
                        } else {
                            j + 1
                        };
                        assert(nv[j2] == iv[a]);
                    }
                }
                assert forall|a: int| 0 <= a < nv.len() implies exists|k: int|
                    0 <= k < i + 1 && iv[k] == (#[trigger] nv[a]) by {
                    if a == pos {
                        assert(iv[i as int] == nv[a]);
                    } else {
                        let oa: int = if a < pos {
                            a
                        } else {
                            a - 1
                        };
                        assert(nv[a] == ov[oa]);
                        let k = choose|k: int| 0 <= k < i && iv[k] == ov[oa];
                        assert(iv[k] == nv[a]);
                    }
                }
            }
            i = i + 1;
        }
        proof {
            let rv = out@.map_values(|p: Professor| p@);
            assert forall|a: int| 0 <= a < rv.len() implies iv.contains(#[trigger] rv[a]) by {
                let k = choose|k: int| 0 <= k < n && iv[k] == rv[a];
                assert(iv[k] == rv[a]);
            }
        }
        out
    }

    /// The position of the first paper carrying `pid` in a list.
    fn find_paper_index(papers: &Vec<Paper>, pid: u32) -> (r: Option<usize>)
        ensures
            match r {
                Some(j) => {
                    &&& j < papers@.len()
                    &&& papers@[j as int]@.id == pid
                    &&& forall|a: int| 0 <= a < j ==> (#[trigger] papers@[a]@.id) != pid
                },
                None => forall|a: int| 0 <= a < papers@.len() ==> (#[trigger] papers@[a]@.id)
                    != pid,
            },
    {
        let n = papers.len();
        let mut j: usize = 0;
        while j < n
            invariant
                n == papers@.len(),
                j <= n,
                forall|a: int| 0 <= a < j ==> (#[trigger] papers@[a]@.id) != pid,
            decreases n - j,
        {
            if papers[j].id == pid {
                return Some(j);
            }
            j = j + 1;
        }
        None
    }

    /// A snapshot of the whole collection, sorted ascending by id.
    /// Never fails.
    pub fn list_professors(&self) -> (r: Vec<Professor>)
        requires
            self.wf(),
        ensures
            r@.map_values(|p: Professor| p@) == self@,
            sorted_by_id(r@.map_values(|p: Professor| p@)),
    {
        let n = self.professors.len();
        let mut out: Vec<Professor> = Vec::new();
        let mut i: usize = 0;
        while i < n
            invariant
                n == self.professors@.len(),
                i <= n,
                out@.len() == i,
                forall|k: int| 0 <= k < i ==> out@[k]@ == self@[k],
            decreases n - i,
        {
            out.push(self.professors[i].clone());
            i = i + 1;
        }
        proof {
            assert(out@.map_values(|p: Professor| p@) =~= self@);
        }
        out
    }

    /// The professor carrying `id`, or `None` when the store holds no
    /// such id.
    pub fn get_professor(&self, id: u32) -> (r: Option<Professor>)
        requires
            self.wf(),
        ensures
            match r {
                Some(p) => has_id(self@, id) && p@ == self@[idx_of(self@, id)],
                None => !has_id(self@, id),
            },
    {
        match self.find_index(id) {
            Some(i) => Some(self.professors[i].clone()),
            None => None,
        }
    }

    /// Whether a professor id can still be allocated without exceeding
    /// the id type.
    pub fn can_allocate_professor_id(&self) -> (r: bool)
        requires
            self.wf(),
        ensures
            r == (spec_next_id(self@) <= u32::MAX),
    {
        let n = self.professors.len();
        if n == 0 {
            true
        } else {
            proof {
                assert(self@[n - 1] == self@.last());
            }
            self.professors[n - 1].id < u32::MAX
        }
    }

    /// Whether the professor carrying `prof_id` can still allocate a
    /// paper id without exceeding the id type; vacuously true when no
    /// professor carries it.
    pub fn can_allocate_paper_id(&self, prof_id: u32) -> (r: bool)
        requires
            self.wf(),
        ensures
            r == (has_id(self@, prof_id) ==> spec_next_paper_id(
                self@[idx_of(self@, prof_id)].papers,
            ) <= u32::MAX),
    {
        let i = match self.find_index(prof_id) {
            Some(i) => i,
            None => {
                return true;
            },
        };
        let ghost ps = self@[i as int].papers;
        let n = self.professors[i].papers.len();
        let mut m: u32 = 0;
        let mut j: usize = 0;
        while j < n
            invariant
                i < self.professors@.len(),
                ps == self.professors@[i as int].papers@.map_values(|q: Paper| q@),
                n == self.professors@[i as int].papers@.len(),
                j <= n,
                m == max_paper_id(ps.take(j as int)),
            decreases n - j,
        {
            let cand = self.professors[i].papers[j].id;
            proof {
                assert(ps.take(j + 1).drop_last() =~= ps.take(j as int));
                assert(ps.take(j + 1).last() == ps[j as int]);
                assert(ps[j as int].id == cand);
            }
            if cand > m {
                m = cand;
            }
            j = j + 1;
        }
        proof {
            assert(ps.take(n as int) =~= ps);
        }
        m < u32::MAX
    }

    /// Allocates the next id by the max-plus-one rule, inserts a fresh
    /// professor with no papers, and returns the created record.
    pub fn create_professor(&mut self, name: String, dept: String, desc: String) -> (r: Professor)
        requires
            old(self).wf(),
            spec_next_id(old(self)@) <= u32::MAX,
        ensures
            final(self).wf(),
            final(self)@ == spec_create(old(self)@, name@, dept@, desc@),
            r@ == final(self)@.last(),
            r@.id == spec_next_id(old(self)@),
            r@.name == name@,
            r@.dept == dept@,
            r@.desc == desc@,
            r@.papers.len() == 0,
            !has_id(old(self)@, r@.id),
            has_id(final(self)@, r@.id),
    {
        proof {
            lemma_next_id_exceeds(self@);
        }
        let n = self.professors.len();
        let id: u32 = if n == 0 {
            1
        } else {
            proof {
                assert(self@[n - 1] == self@.last());
            }
            self.professors[n - 1].id + 1
        };
        let created = Professor {
            id,
            name,
            dept,
            desc,
            papers: Vec::new(),
        };
        let stored = created.clone();
        self.professors.push(stored);
        proof {
            let s = old(self)@;
            assert(created@.papers =~= Seq::<PaperView>::empty());
            assert(self@ =~= spec_create(s, created@.name, created@.dept, created@.desc));
            assert(self@.last() == created@);
            assert forall|i: int, j: int| 0 <= i < j < self@.len() implies self@[i].id
                < self@[j].id by {
                if j < self@.len() - 1 {
                    assert(s[i].id < s[j].id);
                } else {
                    lemma_next_id_exceeds(s);
                }
            }
            assert(has_id(self@, created@.id)) by {
                assert(self@[self@.len() - 1].id == created@.id);
            }
        }
        created
    }

    /// Overwrites only the supplied fields of the professor carrying
    /// `id`: always name and dept, the description only when one is
    /// given.  The id and the paper list are never changed.
    pub fn update_professor(&mut self, id: u32, name: String, dept: String, desc: Option<String>)
        -> (r: Result<Professor, StoreError>)
        requires
            old(self).wf(),
        ensures
            final(self).wf(),
            match r {
                Ok(p) => {
                    let k = idx_of(old(self)@, id);
                    &&& has_id(old(self)@, id)
                    &&& p@.id == id
                    &&& p@.name == name@
                    &&& p@.dept == dept@
                    &&& p@.desc == (if desc is Some {
                        desc->0@
                    } else {
                        old(self)@[k].desc
                    })
                    &&& p@.papers == old(self)@[k].papers
                    &&& final(self)@ == old(self)@.update(k, p@)
                },
                Err(e) => {
                    &&& e == StoreError::ProfessorNotFound
                    &&& !has_id(old(self)@, id)
                    &&& final(self)@ == old(self)@
                },
            },
    {
        let i = match self.find_index(id) {
            Some(i) => i,
            None => {
                return Err(StoreError::ProfessorNotFound);
            },
        };
        proof {
            lemma_idx_of(self@, id);
        }
        let mut p = self.professors.remove(i);
        p.name = name;
        p.dept = dept;
        match desc {
            Some(d) => {
                p.desc = d;
            },
            None => {},
        }
        let ret = p.clone();
        self.professors.insert(i, p);
        proof {
            let s = old(self)@;
            let k = i as int;
            assert(self@ =~= s.update(k, ret@));
            assert forall|a: int, b: int| 0 <= a < b < self@.len() implies self@[a].id
                < self@[b].id by {
                assert(s[a].id < s[b].id);
            }
            assert forall|a: int| 0 <= a < self@.len() implies paper_ids_unique(
                #[trigger] self@[a].papers,
            ) by {
                assert(self@[a].papers == s[a].papers);
            }
        }
        Ok(ret)
    }

    /// Removes the professor carrying `id`, if any.
    pub fn delete_professor(&mut self, id: u32) -> (r: Result<(), StoreError>)
        requires
            old(self).wf(),
        ensures
            final(self).wf(),
            final(self)@ == spec_delete(old(self)@, id),
            match r {
                Ok(u) => has_id(old(self)@, id),
                Err(e) => e == StoreError::ProfessorNotFound && !has_id(old(self)@, id),
            },
    {
        let i = match self.find_index(id) {
            Some(i) => i,
            None => {
                return Err(StoreError::ProfessorNotFound);
            },
        };
        proof {
            lemma_idx_of(self@, id);
        }
        self.professors.remove(i);
        proof {
            let s = old(self)@;
            let k = i as int;
            assert(self@ =~= s.remove(k));
            assert(self@ == spec_delete(s, id));
            assert forall|a: int, b: int| 0 <= a < b < self@.len() implies self@[a].id
                < self@[b].id by {
                if b < k {
                    assert(s[a].id < s[b].id);
                } else if a < k {
                    assert(s[a].id < s[b + 1].id);
                } else {
                    assert(s[a + 1].id < s[b + 1].id);
                }
            }
            assert forall|a: int| 0 <= a < self@.len() implies paper_ids_unique(
                #[trigger] self@[a].papers,
            ) by {
                if a < k {
                    assert(self@[a].papers == s[a].papers);
                } else {
                    assert(self@[a].papers == s[a + 1].papers);
                }
            }
        }
        Ok(())
    }

    /// The paper list of the professor carrying `prof_id`.
    pub fn list_papers(&self, prof_id: u32) -> (r: Result<Vec<Paper>, StoreError>)
        requires
            self.wf(),
        ensures
            match r {
                Ok(v) => {
                    &&& has_id(self@, prof_id)
                    &&& v@.map_values(|p: Paper| p@) == self@[idx_of(self@, prof_id)].papers
                },
                Err(e) => e == StoreError::ProfessorNotFound && !has_id(self@, prof_id),
            },
    {
        let i = match self.find_index(prof_id) {
            Some(i) => i,
            None => {
                return Err(StoreError::ProfessorNotFound);
            },
        };
        let p = self.professors[i].clone();
        Ok(p.papers)
    }

    /// Allocates the next paper id within the professor carrying
    /// `prof_id` by the max-plus-one rule, appends the paper, and
    /// returns the created record.  The fresh id differs from every
    /// paper id already present.
    pub fn create_paper(&mut self, prof_id: u32, title: String) -> (r: Result<
        Paper,
        StoreError,
    >)
        requires
            old(self).wf(),
            has_id(old(self)@, prof_id) ==> spec_next_paper_id(
                old(self)@[idx_of(old(self)@, prof_id)].papers,
            ) <= u32::MAX,
        ensures
            final(self).wf(),
            match r {
                Ok(p) => {
                    let k = idx_of(old(self)@, prof_id);
                    let ps = old(self)@[k].papers;
                    &&& has_id(old(self)@, prof_id)
                    &&& p@.id == spec_next_paper_id(ps)
                    &&& p@.title == title@
                    &&& forall|j: int| 0 <= j < ps.len() ==> (#[trigger] ps[j].id) != p@.id
                    &&& final(self)@ == old(self)@.update(
                        k,
                        with_papers(old(self)@[k], ps.push(p@)),
                    )
                },
                Err(e) => {
                    &&& e == StoreError::ProfessorNotFound
                    &&& !has_id(old(self)@, prof_id)
                    &&& final(self)@ == old(self)@
                },
            },
    {
        let i = match self.find_index(prof_id) {
            Some(i) => i,
            None => {
                return Err(StoreError::ProfessorNotFound);
            },
        };
        proof {
            lemma_idx_of(self@, prof_id);
        }
        let mut p = self.professors.remove(i);
        let ghost ps = p@.papers;
        let n = p.papers.len();
        let mut m: u32 = 0;
        let mut j: usize = 0;
        while j < n
            invariant
                n == p.papers@.len(),
                ps == p.papers@.map_values(|q: Paper| q@),
                j <= n,
                m == max_paper_id(ps.take(j as int)),
            decreases n - j,
        {
            let cand = p.papers[j].id;
            proof {
                assert(ps.take(j + 1).drop_last() =~= ps.take(j as int));
                assert(ps.take(j + 1).last() == ps[j as int]);
                assert(ps[j as int].id == cand);
            }
            if cand > m {
                m = cand;
            }
            j = j + 1;
        }
        proof {
            assert(ps.take(n as int) =~= ps);
            lemma_max_paper_id_bounds(ps);
        }
        let paper = Paper { id: m + 1, title };
        let ret = paper.clone();
        p.papers.push(paper);
        self.professors.insert(i, p);
        proof {
            let s = old(self)@;
            let k = i as int;
            assert(p@.papers =~= ps.push(ret@));
            assert(p@ == with_papers(s[k], ps.push(ret@)));
            assert(self@ =~= s.update(k, p@));
            assert forall|a: int, b: int| 0 <= a < b < self@.len() implies self@[a].id
                < self@[b].id by {
                assert(s[a].id < s[b].id);
            }
            assert forall|a: int| 0 <= a < self@.len() implies paper_ids_unique(
                #[trigger] self@[a].papers,
            ) by {
                if a == k {
                    let nps = ps.push(ret@);
                    assert forall|x: int, y: int| 0 <= x < y < nps.len() implies nps[x].id
                        != nps[y].id by {
                        if y < nps.len() - 1 {
                            assert(ps[x].id != ps[y].id);
                        } else {
                            assert(ps[x].id <= max_paper_id(ps));
                        }
                    }
                } else {
                    assert(self@[a] == s[a]);
                }
            }
        }
        Ok(ret)
    }

    /// Overwrites the title of one paper; id and position are kept.
    pub fn update_paper(&mut self, prof_id: u32, paper_id: u32, title: String) -> (r: Result<
        Paper,
        StoreError,
    >)
        requires
            old(self).wf(),
        ensures
            final(self).wf(),
            match r {
                Ok(p) => {
                    let k = idx_of(old(self)@, prof_id);
                    let ps = old(self)@[k].papers;
                    &&& has_id(old(self)@, prof_id)
                    &&& has_paper(ps, paper_id)
                    &&& p@.id == paper_id
                    &&& p@.title == title@
                    &&& final(self)@ == old(self)@.update(
                        k,
                        with_papers(old(self)@[k], ps.update(pidx_of(ps, paper_id), p@)),
                    )
                },
                Err(e) => {
                    &&& final(self)@ == old(self)@
                    &&& (e == StoreError::ProfessorNotFound || e == StoreError::PaperNotFound)
                    &&& (e == StoreError::ProfessorNotFound <==> !has_id(old(self)@, prof_id))
                    &&& (e == StoreError::PaperNotFound <==> has_id(old(self)@, prof_id)
                        && !has_paper(old(self)@[idx_of(old(self)@, prof_id)].papers, paper_id))
                },
            },
    {
        let i = match self.find_index(prof_id) {
            Some(i) => i,
            None => {
                return Err(StoreError::ProfessorNotFound);
            },
        };
        proof {
            lemma_idx_of(self@, prof_id);
        }
        let mut p = self.professors.remove(i);
        let ghost ps = p@.papers;
        proof {
            assert(paper_ids_unique(old(self)@[i as int].papers));
        }
        let j = match Self::find_paper_index(&p.papers, paper_id) {
            Some(j) => j,
            None => {
                self.professors.insert(i, p);
                proof {
                    assert(self@ =~= old(self)@);
                    assert(!has_paper(ps, paper_id));
                }
                return Err(StoreError::PaperNotFound);
            },
        };
        let paper = Paper { id: paper_id, title };
        let ret = paper.clone();
        p.papers.set(j, paper);
        self.professors.insert(i, p);
        proof {
            let s = old(self)@;
            let k = i as int;
            assert(ps[j as int].id == paper_id);
            lemma_pidx_of(ps, paper_id);
            assert(pidx_of(ps, paper_id) == j as int);
            assert(self@[k].papers =~= ps.update(j as int, ret@));
            assert(self@[k] == with_papers(s[k], ps.update(j as int, ret@)));
            assert(self@ =~= s.update(k, self@[k]));
            assert forall|a: int, b: int| 0 <= a < b < self@.len() implies self@[a].id
                < self@[b].id by {
                assert(s[a].id < s[b].id);
            }
            assert forall|a: int| 0 <= a < self@.len() implies paper_ids_unique(
                #[trigger] self@[a].papers,
            ) by {
                if a == k {
                    let nps = ps.update(j as int, ret@);
                    assert forall|x: int, y: int| 0 <= x < y < nps.len() implies nps[x].id
                        != nps[y].id by {
                        assert(ps[x].id != ps[y].id);
                    }
                } else {
                    assert(self@[a] == s[a]);
                }
            }
        }
        Ok(ret)
    }

    /// Removes one paper from its professor's list.
    pub fn delete_paper(&mut self, prof_id: u32, paper_id: u32) -> (r: Result<(), StoreError>)
        requires
            old(self).wf(),
        ensures
            final(self).wf(),
            match r {
                Ok(u) => {
                    let k = idx_of(old(self)@, prof_id);
                    let ps = old(self)@[k].papers;
                    &&& has_id(old(self)@, prof_id)
                    &&& has_paper(ps, paper_id)
                    &&& final(self)@ == old(self)@.update(
                        k,
                        with_papers(old(self)@[k], ps.remove(pidx_of(ps, paper_id))),
                    )
                },
                Err(e) => {
                    &&& final(self)@ == old(self)@
                    &&& (e == StoreError::ProfessorNotFound || e == StoreError::PaperNotFound)
                    &&& (e == StoreError::ProfessorNotFound <==> !has_id(old(self)@, prof_id))
                    &&& (e == StoreError::PaperNotFound <==> has_id(old(self)@, prof_id)
                        && !has_paper(old(self)@[idx_of(old(self)@, prof_id)].papers, paper_id))
                },
            },
    {
        let i = match self.find_index(prof_id) {
            Some(i) => i,
            None => {
                return Err(StoreError::ProfessorNotFound);
            },
        };
        proof {
            lemma_idx_of(self@, prof_id);
        }
        let mut p = self.professors.remove(i);
        let ghost ps = p@.papers;
        proof {
            assert(paper_ids_unique(old(self)@[i as int].papers));
        }
        let j = match Self::find_paper_index(&p.papers, paper_id) {
            Some(j) => j,
            None => {
                self.professors.insert(i, p);
                proof {
                    assert(self@ =~= old(self)@);
                    assert(!has_paper(ps, paper_id));
                }
                return Err(StoreError::PaperNotFound);
            },
        };
        p.papers.remove(j);
        self.professors.insert(i, p);
        proof {
            let s = old(self)@;
            let k = i as int;
            assert(ps[j as int].id == paper_id);
            lemma_pidx_of(ps, paper_id);
            assert(pidx_of(ps, paper_id) == j as int);
            assert(self@[k].papers =~= ps.remove(j as int));
            assert(self@[k] == with_papers(s[k], ps.remove(j as int)));
            assert(self@ =~= s.update(k, self@[k]));
            assert forall|a: int, b: int| 0 <= a < b < self@.len() implies self@[a].id
                < self@[b].id by {
                assert(s[a].id < s[b].id);
            }
            assert forall|a: int| 0 <= a < self@.len() implies paper_ids_unique(
                #[trigger] self@[a].papers,
            ) by {
                if a == k {
                    let nps = ps.remove(j as int);
                    assert forall|x: int, y: int| 0 <= x < y < nps.len() implies nps[x].id
                        != nps[y].id by {
                        let ox: int = if x < j { x } else { x + 1 };
                        let oy: int = if y < j { y } else { y + 1 };
                        assert(nps[x] == ps[ox]);
                        assert(nps[y] == ps[oy]);
                        assert(ps[ox].id != ps[oy].id);
                    }
                } else {
                    assert(self@[a] == s[a]);
                }
            }
        }
        Ok(())
    }

    /// The titles of all papers of one professor, in list order; the
    /// input handed to the description generator.
    pub fn paper_titles(&self, prof_id: u32) -> (r: Result<Vec<String>, StoreError>)
        requires
            self.wf(),
        ensures
            match r {
                Ok(v) => {
                    &&& has_id(self@, prof_id)
                    &&& v@.map_values(|t: String| t@) == self@[idx_of(self@, prof_id)].papers
                        .map_values(|pp: PaperView| pp.title)
                },
                Err(e) => e == StoreError::ProfessorNotFound && !has_id(self@, prof_id),
            },
    {
        let i = match self.find_index(prof_id) {
            Some(i) => i,
            None => {
                return Err(StoreError::ProfessorNotFound);
            },
        };
        let ghost ps = self@[idx_of(self@, prof_id)].papers;
        let n = self.professors[i].papers.len();
        let mut out: Vec<String> = Vec::new();
        let mut j: usize = 0;
        while j < n
            invariant
                self.wf(),
                has_id(self@, prof_id),
                i == idx_of(self@, prof_id),
                i < self@.len(),
                ps == self@[i as int].papers,
                n == self.professors@[i as int].papers@.len(),
                ps == self.professors@[i as int].papers@.map_values(|q: Paper| q@),
                j <= n,
                out@.len() == j,
                forall|a: int| 0 <= a < j ==> out@[a]@ == ps[a].title,
            decreases n - j,
        {
            out.push(self.professors[i].papers[j].title.clone());
            j = j + 1;
        }
        proof {
            assert(out@.map_values(|t: String| t@) =~= ps.map_values(|pp: PaperView| pp.title));
        }
        Ok(out)
    }

    /// Records the outcome of one description-generation attempt.  A
    /// failed attempt (`None`) leaves every record unchanged; a
    /// successful one overwrites only the description of the professor
    /// carrying `prof_id`.
    pub fn apply_generation(&mut self, prof_id: u32, outcome: Option<String>) -> (r: Result<
        String,
        StoreError,
    >)
        requires
            old(self).wf(),
        ensures
            final(self).wf(),
            match r {
                Ok(d) => {
                    let k = idx_of(old(self)@, prof_id);
                    &&& has_id(old(self)@, prof_id)
                    &&& outcome == Some(d)
                    &&& final(self)@ == old(self)@.update(k, with_desc(old(self)@[k], d@))
                },
                Err(e) => {
                    &&& final(self)@ == old(self)@
                    &&& (e == StoreError::ProfessorNotFound || e == StoreError::GenerationFailed)
                    &&& (e == StoreError::ProfessorNotFound <==> !has_id(old(self)@, prof_id))
                    &&& (e == StoreError::GenerationFailed <==> has_id(old(self)@, prof_id)
                        && outcome is None)
                },
            },
    {
        let i = match self.find_index(prof_id) {
            Some(i) => i,
            None => {
                return Err(StoreError::ProfessorNotFound);
            },
        };
        proof {
            lemma_idx_of(self@, prof_id);
        }
        let d = match outcome {
            Some(d) => d,
            None => {
                return Err(StoreError::GenerationFailed);
            },
        };
        let ret = d.clone();
        let mut p = self.professors.remove(i);
        p.desc = d;
        self.professors.insert(i, p);
        proof {
            let s = old(self)@;
            let k = i as int;
            assert(self@[k] == with_desc(s[k], ret@));
            assert(self@ =~= s.update(k, self@[k]));
            assert forall|a: int, b: int| 0 <= a < b < self@.len() implies self@[a].id
                < self@[b].id by {
                assert(s[a].id < s[b].id);
            }
            assert forall|a: int| 0 <= a < self@.len() implies paper_ids_unique(
                #[trigger] self@[a].papers,
            ) by {
                assert(self@[a].papers == s[a].papers);
            }
        }
        Ok(ret)
    }
}


/// Builds the startup store from a snapshot text.  The records may
/// stand in any order; the store sorts them by id.  Malformed text,
/// and text holding a repeated professor id or a repeated paper id —
/// which no store can represent — yield `None`: an unrecoverable
/// startup error, not a request-time one.
pub fn load_dataset(text: &str) -> (r: Option<Dataset>)
    ensures
        match r {
            Some(d) => {
                &&& d.wf()
                &&& (crate::codec::spec_decode(text@) matches Some(v) && same_records(d@, v) && (
                sorted_by_id(v) ==> d@ == v))
            },
            None => crate::codec::spec_decode(text@) is None || (crate::codec::spec_decode(text@)
                matches Some(v) && !loadable(v)),
        },
{
    let professors = match crate::codec::decode_professors(text) {
        Some(ps) => ps,
        None => {
            return None;
        },
    };
    if !Dataset::check_loadable(&professors) {
        return None;
    }
    let ghost v = professors@.map_values(|p: Professor| p@);
    let sorted = Dataset::sort_professors(professors);
    proof {
        let rv = sorted@.map_values(|p: Professor| p@);
        assert forall|a: int| 0 <= a < rv.len() implies paper_ids_unique(
            #[trigger] rv[a].papers,
        ) by {
            assert(v.contains(rv[a]));
            let k = choose|k: int| 0 <= k < v.len() && v[k] == rv[a];
            assert(paper_ids_unique(v[k].papers));
        }
        if sorted_by_id(v) {
            lemma_sorted_same_records_equal(rv, v);
        }
    }
    Some(Dataset::from_sorted(sorted))
}

} // verus!
