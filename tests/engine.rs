use deno_emit::registry::{ExportName, ModuleData, ModuleDataCollection, ModuleId, ReExport, ReExportName};
use deno_emit::text_change::{apply_text_changes, sort_changes, ChangeConflict, TextChange};

fn change(start: usize, end: usize, text: &str) -> TextChange {
    TextChange::new(start, end, text.to_string())
}

#[test]
fn changes_apply_in_position_order() {
    let text = "let a = b + c;";
    let changes = vec![change(12, 13, "z"), change(8, 9, "x.y"), change(0, 4, "")];
    assert_eq!(apply_text_changes(text, changes), Ok("a = x.y + z;".to_string()));
}

#[test]
fn insertion_and_removal_at_one_position_do_not_conflict() {
    let text = "export default 5;";
    let changes = vec![change(0, 15, ""), change(0, 0, "const x = ")];
    assert_eq!(apply_text_changes(text, changes), Ok("const x = 5;".to_string()));
}

#[test]
fn overlapping_changes_fail() {
    let changes = vec![change(0, 5, "a"), change(3, 8, "b")];
    assert_eq!(apply_text_changes("0123456789", changes), Err(ChangeConflict::Overlap));
}

#[test]
fn change_past_the_end_fails() {
    assert_eq!(apply_text_changes("abc", vec![change(1, 4, "")]), Err(ChangeConflict::OutOfBounds));
    assert_eq!(apply_text_changes("abc", vec![change(2, 1, "")]), Err(ChangeConflict::OutOfBounds));
}

#[test]
fn no_changes_keep_the_text() {
    assert_eq!(apply_text_changes("keep me", vec![]), Ok("keep me".to_string()));
}

#[test]
fn changes_count_characters_not_bytes() {
    assert_eq!(apply_text_changes("é = 1", vec![change(0, 1, "e")]), Ok("e = 1".to_string()));
}

#[test]
fn sort_is_stable_for_equal_ranges() {
    let sorted = sort_changes(vec![change(4, 4, "b"), change(1, 2, "a"), change(4, 4, "c")]);
    let texts: Vec<&str> = sorted.iter().map(|c| c.new_text.as_str()).collect();
    assert_eq!(texts, vec!["a", "b", "c"]);
}

#[test]
fn module_data_refuses_overlapping_changes() {
    let mut data = ModuleData::new(ModuleId(0));
    assert_eq!(data.add_remove_range(2, 5), Ok(()));
    assert_eq!(data.add_remove_range(5, 6), Ok(()));
    assert!(data.add_remove_range(4, 6).is_err());
    assert!(data.add_remove_range(7, 6).is_err());
    assert_eq!(data.text_changes.len(), 2);
}

#[test]
fn module_ids_follow_first_touch() {
    let mut c = ModuleDataCollection::new();
    let a = c.get_mut(&"file:///a.ts".to_string());
    let b = c.get_mut(&"file:///b.ts".to_string());
    let a2 = c.get_mut(&"file:///a.ts".to_string());
    assert_eq!(a, ModuleId(0));
    assert_eq!(b, ModuleId(1));
    assert_eq!(a2, a);
    assert_eq!(c.len(), 2);
    assert!(c.get(&"file:///c.ts".to_string()).is_none());
}

#[test]
fn module_code_string() {
    assert_eq!(ModuleId(0).to_code_string(), "pack0");
    assert_eq!(ModuleId(42).to_code_string(), "pack42");
}

#[test]
fn export_name_defaults_to_local_name() {
    let e = ExportName { local_name: "x".to_string(), export_name: None };
    assert_eq!(e.export_name(), "x");
    let e = ExportName { local_name: "pack1.y".to_string(), export_name: Some("y".to_string()) };
    assert_eq!(e.export_name(), "y");
}

fn all_of(specifier: &str, id: usize) -> ReExport {
    ReExport { name: ReExportName::All, specifier: specifier.to_string(), module_id: ModuleId(id) }
}

#[test]
fn export_names_follow_export_all_chains_and_cycles() {
    let mut c = ModuleDataCollection::new();
    let a = "file:///a.ts".to_string();
    let b = "file:///b.ts".to_string();
    let m = "file:///c.ts".to_string();
    let ia = c.get_mut(&a);
    let ib = c.get_mut(&b);
    let ic = c.get_mut(&m);
    let mut da = ModuleData::new(ia);
    da.add_export_name("x".to_string());
    da.re_exports.push(all_of(&m, ic.0));
    let mut db = ModuleData::new(ib);
    db.re_exports.push(all_of(&a, ia.0));
    db.add_export_name("x".to_string());
    let mut dc = ModuleData::new(ic);
    dc.re_exports.push(all_of(&b, ib.0));
    dc.re_exports.push(ReExport {
        name: ReExportName::Namespace("ns".to_string()),
        specifier: a.clone(),
        module_id: ia,
    });
    dc.exports.push(ExportName { local_name: "w".to_string(), export_name: Some("b".to_string()) });
    c.set(da);
    c.set(db);
    c.set(dc);
    assert_eq!(c.get_export_names(&m), vec!["b".to_string(), "ns".to_string(), "x".to_string()]);
    assert_eq!(c.get_export_names(&a), vec!["b".to_string(), "ns".to_string(), "x".to_string()]);
    assert!(c.get_export_names(&"file:///none.ts".to_string()).is_empty());
}
