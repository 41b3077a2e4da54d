use lstree::meta::{Date, FileType, Meta};
use lstree::sort::{by_meta, sort_metas, Order, SortColumn, SortOrder, Sorter};

fn node(path: &[u8], kind: FileType, size: Option<u64>, modified: Date) -> Meta {
    Meta { path: path.to_vec(), kind, size, modified, sub_metas: None }
}

fn key(column: SortColumn, order: SortOrder) -> Sorter {
    Sorter { column, order }
}

#[test]
fn directories_order_before_files() {
    let ks = vec![key(SortColumn::Kind, SortOrder::Default)];
    let d = node(b"zzz", FileType::Directory, None, Date::Invalid);
    let f = node(b"aaa", FileType::File, None, Date::Invalid);
    assert_eq!(by_meta(&ks, &d, &f), Order::Less);
    assert_eq!(by_meta(&ks, &f, &d), Order::Greater);
}

#[test]
fn name_key_compares_filenames() {
    let ks = vec![key(SortColumn::Name, SortOrder::Default)];
    let a = node(b"dir/alpha", FileType::File, None, Date::Invalid);
    let b = node(b"dir/beta", FileType::File, None, Date::Invalid);
    assert_eq!(by_meta(&ks, &a, &b), Order::Less);
    let ks_rev = vec![key(SortColumn::Name, SortOrder::Reverse)];
    assert_eq!(by_meta(&ks_rev, &a, &b), Order::Greater);
}

#[test]
fn missing_size_orders_before_any_size() {
    let ks = vec![key(SortColumn::Size, SortOrder::Default)];
    let none = node(b"a", FileType::File, None, Date::Invalid);
    let zero = node(b"b", FileType::File, Some(0), Date::Invalid);
    let big = node(b"c", FileType::File, Some(9), Date::Invalid);
    assert_eq!(by_meta(&ks, &none, &zero), Order::Less);
    assert_eq!(by_meta(&ks, &zero, &big), Order::Less);
}

#[test]
fn invalid_date_orders_before_any_timestamp() {
    let ks = vec![key(SortColumn::Date, SortOrder::Default)];
    let inv = node(b"a", FileType::File, None, Date::Invalid);
    let old = node(b"b", FileType::File, None, Date::Timestamp(-5));
    let new = node(b"c", FileType::File, None, Date::Timestamp(5));
    assert_eq!(by_meta(&ks, &inv, &old), Order::Less);
    assert_eq!(by_meta(&ks, &old, &new), Order::Less);
}

#[test]
fn full_tie_falls_back_to_identity() {
    let ks = vec![
        key(SortColumn::Kind, SortOrder::Default),
        key(SortColumn::Size, SortOrder::Reverse),
    ];
    let a = node(b"aaa", FileType::File, Some(4), Date::Invalid);
    let b = node(b"bbb", FileType::File, Some(4), Date::Invalid);
    assert_eq!(by_meta(&ks, &a, &b), Order::Less);
    assert_eq!(by_meta(&ks, &b, &a), Order::Greater);
    assert_eq!(by_meta(&ks, &a, &a), Order::Equal);
}

#[test]
fn keys_apply_left_to_right() {
    let ks = vec![
        key(SortColumn::Kind, SortOrder::Default),
        key(SortColumn::Size, SortOrder::Default),
    ];
    let small_file = node(b"a", FileType::File, Some(1), Date::Invalid);
    let big_dir = node(b"b", FileType::Directory, Some(100), Date::Invalid);
    // the first key decides before size is ever consulted
    assert_eq!(by_meta(&ks, &big_dir, &small_file), Order::Less);
}

#[test]
fn sort_orders_and_keeps_every_node() {
    let ks = vec![
        key(SortColumn::Kind, SortOrder::Default),
        key(SortColumn::Name, SortOrder::Default),
    ];
    let mut v = vec![
        node(b"r/c.txt", FileType::File, Some(2), Date::Invalid),
        node(b"r/d", FileType::Directory, None, Date::Invalid),
        node(b"r/a.txt", FileType::File, Some(1), Date::Invalid),
    ];
    sort_metas(&ks, &mut v);
    let paths: Vec<Vec<u8>> = v.iter().map(|m| m.path.clone()).collect();
    assert_eq!(
        paths,
        vec![b"r/d".to_vec(), b"r/a.txt".to_vec(), b"r/c.txt".to_vec()],
    );
}

#[test]
fn two_runs_give_identical_output() {
    let ks = vec![key(SortColumn::Size, SortOrder::Default)];
    let build = || {
        vec![
            node(b"x", FileType::File, Some(3), Date::Timestamp(1)),
            node(b"y", FileType::File, Some(3), Date::Timestamp(2)),
            node(b"w", FileType::File, Some(1), Date::Timestamp(3)),
            node(b"z", FileType::File, Some(3), Date::Timestamp(4)),
        ]
    };
    let mut first = build();
    let mut second = build();
    sort_metas(&ks, &mut first);
    sort_metas(&ks, &mut second);
    let p1: Vec<Vec<u8>> = first.iter().map(|m| m.path.clone()).collect();
    let p2: Vec<Vec<u8>> = second.iter().map(|m| m.path.clone()).collect();
    assert_eq!(p1, p2);
    // ties on every key fall back to identity, giving one canonical order
    assert_eq!(
        p1,
        vec![b"w".to_vec(), b"x".to_vec(), b"y".to_vec(), b"z".to_vec()],
    );
}

#[test]
fn empty_chain_sorts_by_identity() {
    let ks: Vec<Sorter> = vec![];
    let mut v = vec![
        node(b"b", FileType::File, None, Date::Invalid),
        node(b"a", FileType::Directory, None, Date::Invalid),
    ];
    sort_metas(&ks, &mut v);
    assert_eq!(v[0].path, b"a".to_vec());
    assert_eq!(v[1].path, b"b".to_vec());
}
