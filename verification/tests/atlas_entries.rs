use hephae::atlas::entries::{plan_entries, EntriesError, EntryAttr};

type Attr = EntryAttr<String>;

fn atlas(i: usize) -> Attr {
    EntryAttr::Atlas(Ok(i))
}

fn entry(i: usize) -> Attr {
    EntryAttr::Entry(Ok(i))
}

fn plan(fields: Vec<Vec<Attr>>) -> (Vec<(usize, usize)>, Vec<(usize, usize)>) {
    let p = plan_entries(fields).unwrap();
    (p.atlases, p.entries)
}

fn error(fields: Vec<Vec<Attr>>) -> EntriesError<String> {
    plan_entries(fields).err().unwrap()
}

#[test]
fn entries_follow_field_order() {
    assert_eq!(
        plan(vec![vec![atlas(0)], vec![entry(0)], vec![], vec![entry(0)]]),
        (vec![(0, 0)], vec![(1, 0), (3, 0)])
    );
    assert_eq!(
        plan(vec![vec![atlas(1)], vec![atlas(0)], vec![entry(1)], vec![entry(0)]]),
        (vec![(1, 0), (0, 1)], vec![(2, 1), (3, 0)])
    );
    assert_eq!(plan(vec![vec![atlas(0), entry(0)]]), (vec![(0, 0)], vec![(0, 0)]));
    assert_eq!(plan(vec![]), (vec![], vec![]));
}

#[test]
fn attribute_errors() {
    assert_eq!(error(vec![vec![atlas(0), atlas(1)]]), EntriesError::RepeatedAtlas(0));
    assert_eq!(
        error(vec![vec![], vec![entry(0), EntryAttr::Entry(Err("late".to_string()))]]),
        EntriesError::RepeatedEntry(1)
    );
    assert_eq!(error(vec![vec![EntryAttr::Atlas(Err("bad".to_string()))]]), EntriesError::Syntax("bad".to_string()));
    assert_eq!(
        error(vec![vec![atlas(0)], vec![atlas(0)]]),
        EntriesError::AtlasOccupied { field: 1, index: 0 }
    );
    assert_eq!(error(vec![vec![atlas(0)], vec![entry(2)], vec![entry(3)]]), EntriesError::NoAtlas(2));
}

#[test]
fn field_errors_come_before_missing_atlases() {
    assert_eq!(
        error(vec![vec![entry(5)], vec![atlas(0), atlas(0)]]),
        EntriesError::RepeatedAtlas(1)
    );
}
