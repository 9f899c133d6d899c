//! The data model: papers and the professors that own them.
use vstd::prelude::*;

verus! {

/// Mathematical view of a [`Paper`].
pub struct PaperView {
    pub id: u32,
    pub title: Seq<char>,
}

/// A child record scoped to one professor; its id is unique only within
/// that professor's paper list.
#[derive(Debug)]
pub struct Paper {
    pub id: u32,
    pub title: String,
}

impl View for Paper {
    type V = PaperView;

    open spec fn view(&self) -> PaperView {
        PaperView { id: self.id, title: self.title@ }
    }
}

impl Clone for Paper {
    fn clone(&self) -> (r: Self)
        ensures
            r@ == self@,
    {
        Paper { id: self.id, title: self.title.clone() }
    }
}

/// Mathematical view of a [`Professor`].
pub struct ProfessorView {
    pub id: u32,
    pub name: Seq<char>,
    pub dept: Seq<char>,
    pub desc: Seq<char>,
    pub papers: Seq<PaperView>,
}

/// A top-level record; its id is unique across the whole store.
#[derive(Debug)]
pub struct Professor {
    pub id: u32,
    pub name: String,
    pub dept: String,
    pub desc: String,
    pub papers: Vec<Paper>,
}

impl View for Professor {
    type V = ProfessorView;

    open spec fn view(&self) -> ProfessorView {
        ProfessorView {
            id: self.id,
            name: self.name@,
            dept: self.dept@,
            desc: self.desc@,
            papers: self.papers@.map_values(|p: Paper| p@),
        }
    }
}

impl Clone for Professor {
    fn clone(&self) -> (r: Self)
        ensures
            r@ == self@,
    {
        let mut papers: Vec<Paper> = Vec::new();
        let mut i: usize = 0;
        while i < self.papers.len()
            invariant
                i <= self.papers.len(),
                papers@.len() == i,
                forall|k: int| 0 <= k < i ==> papers@[k]@ == self.papers@[k]@,
            decreases self.papers.len() - i,
        {
            papers.push(self.papers[i].clone());
            i = i + 1;
        }
        proof {
            assert(papers@.map_values(|p: Paper| p@) =~= self.papers@.map_values(|p: Paper| p@));
        }
        let r = Professor {
            id: self.id,
            name: self.name.clone(),
            dept: self.dept.clone(),
            desc: self.desc.clone(),
            papers,
        };
        proof {
            assert(r@ =~= self@);
        }
        r
    }
}

} // verus!
