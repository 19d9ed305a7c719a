use pilota::mask::FieldMask;
use pilota::workspace::{dep_names, find_loc, member_names, DefEntry, Workspace};

fn entries() -> Vec<DefEntry> {
    vec![
        DefEntry { def_id: 1, location: 10 },
        DefEntry { def_id: 2, location: 20 },
        DefEntry { def_id: 3, location: 10 },
    ]
}

#[test]
fn group_defs_groups_by_location() {
    let ws = Workspace::new(String::from("out"), entries());
    let plan = ws.group_defs(&[1, 2, 3]);
    assert_eq!(plan.crates.len(), 2);
    assert_eq!(plan.crates[0].location, 10);
    assert_eq!(plan.crates[0].def_ids, vec![1, 3]);
    assert_eq!(plan.crates[1].location, 20);
    assert_eq!(plan.crates[1].def_ids, vec![2]);
}

#[test]
fn group_defs_drops_unknown_ids() {
    let ws = Workspace::new(String::from("out"), entries());
    let plan = ws.group_defs(&[1, 99]);
    assert_eq!(plan.crates.len(), 1);
    assert_eq!(plan.crates[0].def_ids, vec![1]);
}

#[test]
fn write_crates_covers_every_entry() {
    let ws = Workspace::new(String::from("out"), entries());
    let plan = ws.write_crates();
    assert_eq!(plan.crates.len(), 2);
    assert_eq!(plan.crates[0].def_ids, vec![1, 3]);
    assert_eq!(plan.crates[1].def_ids, vec![2]);
}

#[test]
fn cx_exposes_the_rows() {
    let ws = Workspace::new(String::from("out"), entries());
    assert_eq!(ws.cx().len(), 3);
}

#[test]
fn find_loc_first_row_wins() {
    let rows = vec![
        DefEntry { def_id: 5, location: 1 },
        DefEntry { def_id: 5, location: 2 },
    ];
    assert_eq!(find_loc(&rows, 5), Some(1));
    assert_eq!(find_loc(&rows, 6), None);
}

#[test]
fn member_names_dedups_then_sorts() {
    let names = vec![
        String::from("b"),
        String::from("a"),
        String::from("a"),
    ];
    assert_eq!(member_names(names), vec![String::from("a"), String::from("b")]);
}

#[test]
fn dep_names_sorts_then_dedups() {
    let names = vec![
        String::from("b"),
        String::from("a"),
        String::from("b"),
    ];
    assert_eq!(dep_names(names), vec![String::from("a"), String::from("b")]);
}

#[test]
fn mask_lookup() {
    let mask = FieldMask::Partial(vec![
        (1, FieldMask::ExcludeAll),
        (2, FieldMask::Partial(vec![(7, FieldMask::ExcludeAll)])),
    ]);
    assert!(!mask.includes(1));
    assert!(mask.includes(2));
    assert!(mask.includes(3));
    let child = mask.child_of(2).unwrap();
    assert!(!child.includes(7));
    assert!(child.includes(8));
    assert!(FieldMask::IncludeAll.includes(1));
    assert!(!FieldMask::ExcludeAll.includes(1));
}
