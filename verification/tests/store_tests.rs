use scholarsync::store::{load_dataset, Dataset, StoreError};

#[test]
fn create_ids_increase() {
    let mut d = Dataset::new();
    let a = d.create_professor("A".to_string(), "CS".to_string(), "".to_string());
    let b = d.create_professor("B".to_string(), "Math".to_string(), "".to_string());
    let c = d.create_professor("C".to_string(), "Phys".to_string(), "".to_string());
    assert_eq!(a.id, 1);
    assert_eq!(b.id, 2);
    assert_eq!(c.id, 3);
}

#[test]
fn delete_max_then_id_is_reused() {
    let mut d = Dataset::new();
    let a = d.create_professor("A".to_string(), "CS".to_string(), "".to_string());
    let b = d.create_professor("B".to_string(), "Math".to_string(), "".to_string());
    assert_eq!(a.id, 1);
    assert_eq!(b.id, 2);
    assert!(d.delete_professor(2).is_ok());
    let c = d.create_professor("C".to_string(), "Phys".to_string(), "".to_string());
    assert_eq!(c.id, 2);
}

#[test]
fn delete_below_max_does_not_lower_next_id() {
    let mut d = Dataset::new();
    d.create_professor("A".to_string(), "CS".to_string(), "".to_string());
    d.create_professor("B".to_string(), "Math".to_string(), "".to_string());
    assert!(d.delete_professor(1).is_ok());
    let c = d.create_professor("C".to_string(), "Phys".to_string(), "".to_string());
    assert_eq!(c.id, 3);
}

#[test]
fn update_keeps_id_and_papers() {
    let mut d = Dataset::new();
    let p = d.create_professor("A".to_string(), "CS".to_string(), "old".to_string());
    d.create_paper(p.id, "T1".to_string()).unwrap();
    d.create_paper(p.id, "T2".to_string()).unwrap();
    let up = d
        .update_professor(p.id, "A2".to_string(), "Math".to_string(), None)
        .unwrap();
    assert_eq!(up.id, p.id);
    assert_eq!(up.name, "A2");
    assert_eq!(up.dept, "Math");
    assert_eq!(up.desc, "old");
    assert_eq!(up.papers.len(), 2);
    assert_eq!(up.papers[0].title, "T1");
    assert_eq!(up.papers[1].title, "T2");
    let up2 = d
        .update_professor(p.id, "A3".to_string(), "Bio".to_string(), Some("new".to_string()))
        .unwrap();
    assert_eq!(up2.desc, "new");
    assert_eq!(up2.papers.len(), 2);
}

#[test]
fn update_missing_professor_not_found() {
    let mut d = Dataset::new();
    let r = d.update_professor(7, "X".to_string(), "Y".to_string(), None);
    assert_eq!(r.unwrap_err(), StoreError::ProfessorNotFound);
}

#[test]
fn list_is_sorted_ascending() {
    let mut d = Dataset::new();
    d.create_professor("A".to_string(), "CS".to_string(), "".to_string());
    d.create_professor("B".to_string(), "Math".to_string(), "".to_string());
    d.create_professor("C".to_string(), "Phys".to_string(), "".to_string());
    d.delete_professor(2).unwrap();
    d.create_professor("D".to_string(), "Chem".to_string(), "".to_string());
    let all = d.list_professors();
    let ids: Vec<u32> = all.iter().map(|p| p.id).collect();
    for w in ids.windows(2) {
        assert!(w[0] < w[1]);
    }
    assert_eq!(ids, vec![1, 3, 4]);
}

#[test]
fn get_missing_professor_not_found() {
    let mut d = Dataset::new();
    d.create_professor("A".to_string(), "CS".to_string(), "".to_string());
    assert!(d.get_professor(999).is_none());
    assert_eq!(
        d.delete_professor(999).unwrap_err(),
        StoreError::ProfessorNotFound
    );
}

#[test]
fn paper_ids_start_at_one_and_increase() {
    let mut d = Dataset::new();
    d.create_professor("A".to_string(), "CS".to_string(), "".to_string());
    let prof2 = d.create_professor("B".to_string(), "Math".to_string(), "".to_string());
    assert_eq!(prof2.id, 2);
    let x = d.create_paper(2, "X".to_string()).unwrap();
    assert_eq!(x.id, 1);
    let y = d.create_paper(2, "Y".to_string()).unwrap();
    assert_eq!(y.id, 2);
}

#[test]
fn many_paper_creations_never_collide() {
    let mut d = Dataset::new();
    let p = d.create_professor("A".to_string(), "CS".to_string(), "".to_string());
    let mut ids = Vec::new();
    for k in 0..8 {
        let paper = d.create_paper(p.id, format!("T{}", k)).unwrap();
        assert!(!ids.contains(&paper.id));
        ids.push(paper.id);
    }
    // deleting a lower id does not make the next allocation collide
    d.delete_paper(p.id, 3).unwrap();
    let fresh = d.create_paper(p.id, "again".to_string()).unwrap();
    assert!(!ids.contains(&fresh.id));
}

#[test]
fn paper_not_found_errors() {
    let mut d = Dataset::new();
    let p = d.create_professor("A".to_string(), "CS".to_string(), "".to_string());
    assert_eq!(
        d.create_paper(9, "X".to_string()).unwrap_err(),
        StoreError::ProfessorNotFound
    );
    assert_eq!(
        d.update_paper(p.id, 5, "X".to_string()).unwrap_err(),
        StoreError::PaperNotFound
    );
    assert_eq!(
        d.update_paper(9, 5, "X".to_string()).unwrap_err(),
        StoreError::ProfessorNotFound
    );
    assert_eq!(
        d.delete_paper(p.id, 5).unwrap_err(),
        StoreError::PaperNotFound
    );
    assert_eq!(
        d.delete_paper(9, 5).unwrap_err(),
        StoreError::ProfessorNotFound
    );
}

#[test]
fn update_and_delete_paper() {
    let mut d = Dataset::new();
    let p = d.create_professor("A".to_string(), "CS".to_string(), "".to_string());
    d.create_paper(p.id, "T1".to_string()).unwrap();
    d.create_paper(p.id, "T2".to_string()).unwrap();
    let up = d.update_paper(p.id, 1, "T1b".to_string()).unwrap();
    assert_eq!(up.id, 1);
    assert_eq!(up.title, "T1b");
    d.delete_paper(p.id, 1).unwrap();
    let papers = d.list_papers(p.id).unwrap();
    assert_eq!(papers.len(), 1);
    assert_eq!(papers[0].id, 2);
    assert_eq!(papers[0].title, "T2");
}

#[test]
fn failed_generation_keeps_description() {
    let mut d = Dataset::new();
    let p = d.create_professor("A".to_string(), "CS".to_string(), "before".to_string());
    let r = d.apply_generation(p.id, None);
    assert_eq!(r.unwrap_err(), StoreError::GenerationFailed);
    assert_eq!(d.get_professor(p.id).unwrap().desc, "before");
}

#[test]
fn successful_generation_overwrites_description() {
    let mut d = Dataset::new();
    let p = d.create_professor("A".to_string(), "CS".to_string(), "before".to_string());
    d.create_paper(p.id, "T1".to_string()).unwrap();
    let r = d.apply_generation(p.id, Some("summary".to_string()));
    assert_eq!(r.unwrap(), "summary");
    let got = d.get_professor(p.id).unwrap();
    assert_eq!(got.desc, "summary");
    assert_eq!(got.papers.len(), 1);
}

#[test]
fn generation_on_missing_professor_not_found() {
    let mut d = Dataset::new();
    let r = d.apply_generation(42, Some("x".to_string()));
    assert_eq!(r.unwrap_err(), StoreError::ProfessorNotFound);
}

#[test]
fn paper_titles_in_order() {
    let mut d = Dataset::new();
    let p = d.create_professor("A".to_string(), "CS".to_string(), "".to_string());
    d.create_paper(p.id, "T1".to_string()).unwrap();
    d.create_paper(p.id, "T2".to_string()).unwrap();
    assert_eq!(d.paper_titles(p.id).unwrap(), vec!["T1", "T2"]);
    assert_eq!(
        d.paper_titles(9).unwrap_err(),
        StoreError::ProfessorNotFound
    );
}

#[test]
fn load_sorts_records_in_any_order() {
    let mut d = Dataset::new();
    d.create_professor("A".to_string(), "CS".to_string(), "".to_string());
    d.create_professor("B".to_string(), "Math".to_string(), "".to_string());
    let text = d.snapshot();
    // renumbering the first professor to 9 puts the records out of order
    let tampered = text.replace("\"id\": 1", "\"id\": 9");
    let back = load_dataset(&tampered).unwrap();
    let all = back.list_professors();
    assert_eq!(all.len(), 2);
    assert_eq!(all[0].id, 2);
    assert_eq!(all[0].name, "B");
    assert_eq!(all[1].id, 9);
    assert_eq!(all[1].name, "A");
}

#[test]
fn load_rejects_duplicate_professor_ids() {
    let mut d = Dataset::new();
    d.create_professor("A".to_string(), "CS".to_string(), "".to_string());
    d.create_professor("B".to_string(), "Math".to_string(), "".to_string());
    let text = d.snapshot();
    let dup = text.replace("\"id\": 1", "\"id\": 2");
    assert!(load_dataset(&dup).is_none());
}

#[test]
fn load_rejects_duplicate_paper_ids() {
    let mut d = Dataset::new();
    d.create_professor("A".to_string(), "CS".to_string(), "".to_string());
    d.create_paper(1, "X".to_string()).unwrap();
    d.create_paper(1, "Y".to_string()).unwrap();
    let text = d.snapshot();
    // paper id lines carry the deeper indent, so only paper ids match here
    let dup = text.replace("        \"id\": 2", "        \"id\": 1");
    assert!(load_dataset(&dup).is_none());
}
