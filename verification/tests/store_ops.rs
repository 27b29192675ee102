use lookup::command::{run_delete_project, run_delete_sample, run_get, run_list, OutLine};
use lookup::store::Store;

fn path_of(out: &[OutLine]) -> Vec<u8> {
    assert_eq!(out.len(), 1);
    match &out[0] {
        OutLine::Path(v) => v.clone(),
        _ => panic!("expected a path line"),
    }
}

#[test]
fn set_then_get_returns_path() {
    let mut st = Store::new();
    st.set(b"p1".to_vec(), b"s1".to_vec(), b"/a/b".to_vec());
    let out = run_get(&st, &b"p1".to_vec(), &b"s1".to_vec());
    assert_eq!(path_of(&out), b"/a/b".to_vec());
}

#[test]
fn set_overwrites_existing_sample() {
    let mut st = Store::new();
    st.set(b"p1".to_vec(), b"s1".to_vec(), b"/a/b".to_vec());
    st.set(b"p1".to_vec(), b"s1".to_vec(), b"/c/d".to_vec());
    let out = run_get(&st, &b"p1".to_vec(), &b"s1".to_vec());
    assert_eq!(path_of(&out), b"/c/d".to_vec());
}

#[test]
fn get_unknown_project_and_sample() {
    let mut st = Store::new();
    st.set(b"p1".to_vec(), b"s1".to_vec(), b"/a/b".to_vec());
    let out = run_get(&st, &b"nope".to_vec(), &b"s1".to_vec());
    assert!(matches!(out[0], OutLine::NoValueForProject));
    let out = run_get(&st, &b"p1".to_vec(), &b"nope".to_vec());
    assert!(matches!(out[0], OutLine::NoValueForSample));
}

#[test]
fn delete_sample_removes_only_that_sample() {
    let mut st = Store::new();
    st.set(b"p1".to_vec(), b"s1".to_vec(), b"/a/b".to_vec());
    st.set(b"p1".to_vec(), b"s2".to_vec(), b"/keep".to_vec());
    let out = run_delete_sample(&mut st, &b"p1".to_vec(), &b"s1".to_vec());
    assert!(out.is_empty());
    let out = run_get(&st, &b"p1".to_vec(), &b"s1".to_vec());
    assert!(matches!(out[0], OutLine::NoValueForSample));
    let out = run_get(&st, &b"p1".to_vec(), &b"s2".to_vec());
    assert_eq!(path_of(&out), b"/keep".to_vec());
}

#[test]
fn delete_sample_missing_project_reports_it() {
    let mut st = Store::new();
    let out = run_delete_sample(&mut st, &b"p1".to_vec(), &b"s1".to_vec());
    assert_eq!(out.len(), 1);
    match &out[0] {
        OutLine::ProjectNotInDb(p) => assert_eq!(p, &b"p1".to_vec()),
        _ => panic!("expected a not-in-database line"),
    }
}

#[test]
fn delete_sample_absent_sample_is_no_error() {
    let mut st = Store::new();
    st.set(b"p1".to_vec(), b"s1".to_vec(), b"/a/b".to_vec());
    let out = run_delete_sample(&mut st, &b"p1".to_vec(), &b"zz".to_vec());
    assert!(out.is_empty());
    let out = run_get(&st, &b"p1".to_vec(), &b"s1".to_vec());
    assert_eq!(path_of(&out), b"/a/b".to_vec());
}

#[test]
fn delete_project_confirmed_removes_it() {
    let mut st = Store::new();
    st.set(b"p1".to_vec(), b"s1".to_vec(), b"/a/b".to_vec());
    let out = run_delete_project(&mut st, &b"p1".to_vec(), &b"y\n".to_vec());
    assert!(out.is_empty());
    let out = run_get(&st, &b"p1".to_vec(), &b"s1".to_vec());
    assert!(matches!(out[0], OutLine::NoValueForProject));
}

#[test]
fn delete_project_declined_keeps_it() {
    for answer in [&b""[..], b"n", b"no", b"Y", b"yes", b" yy "] {
        let mut st = Store::new();
        st.set(b"p1".to_vec(), b"s1".to_vec(), b"/a/b".to_vec());
        let out = run_delete_project(&mut st, &b"p1".to_vec(), &answer.to_vec());
        assert_eq!(out.len(), 1);
        match &out[0] {
            OutLine::NotRemoving(p) => assert_eq!(p, &b"p1".to_vec()),
            _ => panic!("expected a not-removing line"),
        }
        let out = run_get(&st, &b"p1".to_vec(), &b"s1".to_vec());
        assert_eq!(path_of(&out), b"/a/b".to_vec());
    }
}

#[test]
fn delete_project_answer_is_trimmed() {
    let mut st = Store::new();
    st.set(b"p1".to_vec(), b"s1".to_vec(), b"/a/b".to_vec());
    let out = run_delete_project(&mut st, &b"p1".to_vec(), &b"  y \r\n".to_vec());
    assert!(out.is_empty());
    assert!(!st.contains_project(&b"p1".to_vec()));
}

#[test]
fn delete_project_missing_reports_it() {
    let mut st = Store::new();
    let out = run_delete_project(&mut st, &b"p1".to_vec(), &b"y".to_vec());
    assert_eq!(out.len(), 1);
    match &out[0] {
        OutLine::ProjectNotInDb(p) => assert_eq!(p, &b"p1".to_vec()),
        _ => panic!("expected a not-in-database line"),
    }
}

#[test]
fn list_shows_every_entry_and_hides_db() {
    let mut st = Store::new();
    st.set(b"p1".to_vec(), b"s1".to_vec(), b"/a".to_vec());
    st.set(b"p1".to_vec(), b"s2".to_vec(), b"/b".to_vec());
    st.set(b"p2".to_vec(), b"s1".to_vec(), b"/c".to_vec());
    st.set_db_entry(b"/home/u/.lookup.db".to_vec());
    let out = run_list(&st);
    let mut triples: Vec<(Vec<u8>, Vec<u8>, Vec<u8>)> = out
        .iter()
        .map(|l| match l {
            OutLine::Entry(p, s, v) => (p.clone(), s.clone(), v.clone()),
            _ => panic!("expected only listing lines"),
        })
        .collect();
    triples.sort();
    assert_eq!(
        triples,
        vec![
            (b"p1".to_vec(), b"s1".to_vec(), b"/a".to_vec()),
            (b"p1".to_vec(), b"s2".to_vec(), b"/b".to_vec()),
            (b"p2".to_vec(), b"s1".to_vec(), b"/c".to_vec()),
        ]
    );
}

#[test]
fn db_entry_reports_backing_file() {
    let mut st = Store::new();
    st.set(b"p1".to_vec(), b"s1".to_vec(), b"/a".to_vec());
    st.set_db_entry(b"/home/u/.lookup.db".to_vec());
    let out = run_get(&st, &b"DB".to_vec(), &b"DB".to_vec());
    assert_eq!(path_of(&out), b"/home/u/.lookup.db".to_vec());
}

#[test]
fn same_mapping_detects_change_and_equality() {
    let mut a = Store::new();
    let mut b = Store::new();
    a.set(b"p1".to_vec(), b"s1".to_vec(), b"/a".to_vec());
    b.set(b"p1".to_vec(), b"s1".to_vec(), b"/a".to_vec());
    assert!(a.same_mapping(&b));
    b.set(b"p1".to_vec(), b"s1".to_vec(), b"/b".to_vec());
    assert!(!a.same_mapping(&b));
    b.set(b"p1".to_vec(), b"s1".to_vec(), b"/a".to_vec());
    assert!(a.same_mapping(&b));
    b.set(b"p2".to_vec(), b"x".to_vec(), b"/y".to_vec());
    assert!(!a.same_mapping(&b));
}

#[test]
fn get_leaves_mapping_unchanged() {
    let mut a = Store::new();
    a.set(b"p1".to_vec(), b"s1".to_vec(), b"/a".to_vec());
    let mut b = Store::new();
    b.set(b"p1".to_vec(), b"s1".to_vec(), b"/a".to_vec());
    let _ = run_get(&a, &b"p1".to_vec(), &b"s1".to_vec());
    let _ = run_get(&a, &b"zz".to_vec(), &b"s1".to_vec());
    let _ = run_list(&a);
    assert!(a.same_mapping(&b));
}
