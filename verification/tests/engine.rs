use sodg::{GraphError, Hex, Label, MergeConflict, Persistence, Sodg};

#[test]
fn hex_prints_canonical_pairs() {
    let d = Hex::from_vec(vec![0, 0, 255, 254]);
    assert_eq!("00-00-FF-FE", d.print());
}

#[test]
fn hex_round_trip_keeps_bytes_and_text() {
    let d = Hex::from_vec(vec![1, 2, 171]);
    let t = d.print();
    let back = Hex::parse(&t).unwrap();
    assert_eq!(back.to_vec(), vec![1, 2, 171]);
    assert_eq!(back.print(), t);
}

#[test]
fn hex_long_value_round_trips_too() {
    let bytes: Vec<u8> = vec![9, 8, 7, 6, 5, 4, 3, 2, 1, 0, 250];
    let d = Hex::from_vec(bytes.clone());
    let back = Hex::parse(&d.print()).unwrap();
    assert_eq!(bytes, back.to_vec());
}

#[test]
fn hex_empty_prints_dashes() {
    let d = Hex::empty();
    assert_eq!("--", d.print());
    let back = Hex::parse("--").unwrap();
    assert_eq!(back.to_vec(), Vec::<u8>::new());
}

#[test]
fn hex_accepts_lowercase_digits() {
    let d = Hex::parse("d0-bf").unwrap();
    assert_eq!(vec![0xD0, 0xBF], d.to_vec());
    assert_eq!("D0-BF", d.print());
}

#[test]
fn hex_rejects_malformed_text() {
    assert!(matches!(Hex::parse("0"), Err(GraphError::FormatMismatch)));
    assert!(matches!(Hex::parse("001"), Err(GraphError::FormatMismatch)));
    assert!(matches!(Hex::parse("0Z"), Err(GraphError::FormatMismatch)));
    assert!(matches!(Hex::parse("01-"), Err(GraphError::FormatMismatch)));
}

#[test]
fn hex_u64_round_trip() {
    let d = Hex::from_u64(65534);
    assert_eq!("00-00-00-00-00-00-FF-FE", d.print());
    assert_eq!(65534, d.to_u64().unwrap());
}

#[test]
fn hex_i64_round_trip() {
    let d = Hex::from_i64(-2);
    assert_eq!(-2, d.to_i64().unwrap());
}

#[test]
fn hex_width_mismatch_fails() {
    let d = Hex::from_vec(vec![1, 2]);
    assert_eq!(Err(GraphError::FormatMismatch), d.to_u64());
}

#[test]
fn label_round_trip() {
    let l = Label::parse("foo").unwrap();
    assert_eq!("foo", l.print());
    let a = Label::parse("@7").unwrap();
    assert_eq!("@7", a.print());
    let g = Label::parse(".").unwrap();
    assert_eq!(".", g.print());
}

#[test]
fn label_too_long_is_rejected() {
    assert!(Label::parse("abcdefghi").is_err());
    assert!(Label::parse("abcdefgh").is_ok());
}

#[test]
fn label_alpha_is_an_index() {
    assert_eq!(Label::Alpha(12), Label::parse("@12").unwrap());
}

#[test]
fn add_bind_put_and_read_back() {
    let mut g = Sodg::empty(16);
    g.add(0).unwrap();
    g.add(1).unwrap();
    let l = Label::parse("foo").unwrap();
    g.bind(0, 1, l).unwrap();
    g.put(1, Hex::from_vec(vec![1, 2])).unwrap();
    assert_eq!(2, g.len());
    let kids = g.kids(0).unwrap();
    assert_eq!(1, kids.len());
    assert_eq!(l, kids[0].0);
    assert_eq!(1, kids[0].1);
    assert_eq!(vec![1, 2], g.data(1).unwrap().to_vec());
    assert_eq!(Ok(false), g.is_empty(1));
    assert_eq!(Ok(true), g.is_empty(0));
}

#[test]
fn duplicate_vertex_is_rejected() {
    let mut g = Sodg::empty(4);
    g.add(0).unwrap();
    assert_eq!(Err(GraphError::DuplicateVertex(0)), g.add(0));
    assert_eq!(1, g.len());
}

#[test]
fn bind_missing_vertex_fails() {
    let mut g = Sodg::empty(4);
    g.add(0).unwrap();
    let l = Label::parse("x").unwrap();
    assert_eq!(Err(GraphError::NoSuchVertex(7)), g.bind(0, 7, l));
    assert_eq!(Err(GraphError::NoSuchVertex(7)), g.bind(7, 0, l));
    assert!(g.kids(0).unwrap().is_empty());
}

#[test]
fn bind_twice_is_idempotent() {
    let mut g = Sodg::empty(4);
    g.add(0).unwrap();
    g.add(1).unwrap();
    let l = Label::parse("k").unwrap();
    g.bind(0, 1, l).unwrap();
    let once = g.kids(0).unwrap();
    g.bind(0, 1, l).unwrap();
    let twice = g.kids(0).unwrap();
    assert_eq!(once, twice);
}

#[test]
fn edge_capacity_is_bounded() {
    let mut g = Sodg::empty(4);
    g.add(0).unwrap();
    g.add(1).unwrap();
    for i in 0..16usize {
        g.bind(0, 1, Label::Alpha(i)).unwrap();
    }
    assert_eq!(
        Err(GraphError::EdgeCapacityExceeded(0)),
        g.bind(0, 1, Label::Alpha(16))
    );
    assert_eq!(16, g.kids(0).unwrap().len());
    g.bind(0, 1, Label::Alpha(3)).unwrap();
    assert_eq!(16, g.kids(0).unwrap().len());
}

#[test]
fn rebinding_overwrites_target() {
    let mut g = Sodg::empty(4);
    g.add(0).unwrap();
    g.add(1).unwrap();
    g.add(2).unwrap();
    let l = Label::parse("k").unwrap();
    g.bind(0, 1, l).unwrap();
    g.bind(0, 2, l).unwrap();
    let kids = g.kids(0).unwrap();
    assert_eq!(1, kids.len());
    assert_eq!(2, kids[0].1);
}

#[test]
fn next_id_exceeds_every_vertex() {
    let mut g = Sodg::empty(4);
    g.add(0).unwrap();
    g.add(5).unwrap();
    let n = g.next_id();
    assert!(n > 5);
    let m = g.next_id();
    assert!(m > n);
}

#[test]
fn put_commits_the_vertex() {
    let mut g = Sodg::empty(4);
    g.add(0).unwrap();
    assert_eq!(Persistence::Empty, g.persistence(0).unwrap());
    g.put(0, Hex::from_vec(vec![3])).unwrap();
    assert_eq!(Persistence::Stored, g.persistence(0).unwrap());
}

#[test]
fn commit_stores_tentative_vertices() {
    let mut g = Sodg::empty(4);
    let b = g.branch_open().unwrap();
    g.add(5).unwrap();
    assert_eq!(Persistence::Empty, g.persistence(5).unwrap());
    g.branch_commit(b);
    assert!(g.has(5));
    assert_eq!(Persistence::Stored, g.persistence(5).unwrap());
}

#[test]
fn commit_preserves_vertex_data() {
    let mut g = Sodg::empty(4);
    let b = g.branch_open().unwrap();
    g.add(5).unwrap();
    g.put(5, Hex::from_vec(vec![7])).unwrap();
    g.branch_commit(b);
    assert!(g.has(5));
    assert_eq!(Persistence::Stored, g.persistence(5).unwrap());
    assert_eq!(vec![7], g.data(5).unwrap().to_vec());
}

#[test]
fn open_branch_limit_is_bounded() {
    let mut g = Sodg::empty(0);
    for _ in 0..16 {
        g.branch_open().unwrap();
    }
    assert_eq!(Err(GraphError::BranchLimitExceeded), g.branch_open());
}

#[test]
fn hex_u32_prints_four_pairs() {
    let d = Hex::from_u32(65534);
    assert_eq!("00-00-FF-FE", d.print());
    assert_eq!(65534, d.to_u32().unwrap());
}

#[test]
fn hex_i32_round_trip() {
    let d = Hex::from_i32(-2);
    assert_eq!(-2, d.to_i32().unwrap());
    assert!(d.to_u64().is_err());
}

#[test]
fn take_consumes_and_finalizes() {
    let mut g = Sodg::empty(4);
    g.add(0).unwrap();
    g.put(0, Hex::from_vec(vec![5])).unwrap();
    let d = g.take(0).unwrap();
    assert_eq!(vec![5], d.to_vec());
    assert_eq!(Persistence::Taken, g.persistence(0).unwrap());
    assert!(g.take(9).is_err());
}

#[test]
fn discard_deletes_exactly_the_tentative_branch_work() {
    let mut g = Sodg::empty(4);
    g.add(0).unwrap();
    let b = g.branch_open().unwrap();
    g.add(5).unwrap();
    g.branch_discard(b);
    assert!(!g.has(5));
    assert!(g.has(0));
}

#[test]
fn discard_removes_edges_into_deleted_vertices() {
    let mut g = Sodg::empty(4);
    g.add(0).unwrap();
    let b = g.branch_open().unwrap();
    g.add(5).unwrap();
    g.bind(0, 5, Label::Alpha(0)).unwrap();
    g.branch_discard(b);
    assert!(g.has(0));
    assert!(!g.has(5));
    assert_eq!(0, g.kids(0).unwrap().len());
}

#[test]
fn discard_never_touches_committed_vertices() {
    let mut g = Sodg::empty(4);
    let b = g.branch_open().unwrap();
    g.add(5).unwrap();
    g.put(5, Hex::from_vec(vec![7])).unwrap();
    g.branch_commit(b);
    let b2 = g.branch_open().unwrap();
    g.put(5, Hex::from_vec(vec![8])).unwrap();
    g.branch_discard(b2);
    assert!(g.has(5));
    assert_eq!(Persistence::Stored, g.persistence(5).unwrap());
    assert_eq!(vec![8], g.data(5).unwrap().to_vec());
}

#[test]
fn merge_into_empty_base_copies_the_graph() {
    let mut base = Sodg::empty(4);
    let mut inc = Sodg::empty(4);
    inc.add(0).unwrap();
    inc.add(1).unwrap();
    inc.bind(0, 1, Label::parse("n").unwrap()).unwrap();
    let conflicts = base.merge(&inc).unwrap();
    assert!(conflicts.is_empty());
    assert_eq!(2, base.len());
    assert!(base.has(0));
    assert!(base.has(1));
    let kids = base.kids(0).unwrap();
    assert_eq!(1, kids.len());
    assert_eq!(Label::parse("n").unwrap(), kids[0].0);
    assert_eq!(1, kids[0].1);
}

#[test]
fn merge_keeps_base_and_reports_conflicts() {
    let mut base = Sodg::empty(8);
    base.add(0).unwrap();
    base.add(1).unwrap();
    base.add(2).unwrap();
    base.bind(0, 1, Label::parse("k").unwrap()).unwrap();
    base.put(2, Hex::from_vec(vec![1])).unwrap();
    let mut inc = Sodg::empty(8);
    inc.add(0).unwrap();
    inc.add(2).unwrap();
    inc.add(3).unwrap();
    inc.bind(0, 2, Label::parse("k").unwrap()).unwrap();
    inc.put(2, Hex::from_vec(vec![9])).unwrap();
    inc.put(3, Hex::from_vec(vec![4])).unwrap();
    let conflicts = base.merge(&inc).unwrap();
    assert_eq!(2, conflicts.len());
    assert!(matches!(conflicts[0], MergeConflict::Edge(0, _, 1, 2)));
    assert!(matches!(conflicts[1], MergeConflict::Payload(2)));
    assert_eq!(1, base.kids(0).unwrap()[0].1);
    assert_eq!(vec![1], base.data(2).unwrap().to_vec());
    assert_eq!(vec![4], base.data(3).unwrap().to_vec());
}

#[test]
fn merge_adopts_data_where_base_holds_none() {
    let mut base = Sodg::empty(4);
    base.add(0).unwrap();
    let mut inc = Sodg::empty(4);
    inc.add(0).unwrap();
    inc.put(0, Hex::from_vec(vec![3])).unwrap();
    let conflicts = base.merge(&inc).unwrap();
    assert!(conflicts.is_empty());
    assert_eq!(vec![3], base.data(0).unwrap().to_vec());
}

#[test]
fn next_id_is_recovered_from_persisted_ids() {
    assert_eq!(0, sodg::graph::recovered_next_id(&Vec::new()));
    assert_eq!(8, sodg::graph::recovered_next_id(&vec![0, 7, 3]));
}
