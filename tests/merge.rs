use decker::shortcut::{
    create_shortcut, create_shortcut_obj, decimal_string, gen_id, merge_shortcut, parse_index,
    shortcut_app_name, update_shortcut_file, MergeOutcome,
};
use decker::vdf::{parse, Object, Value};

fn crc32(text: &str) -> u32 {
    crc::Crc::<u32>::new(&crc::CRC_32_ISO_HDLC).checksum(text.as_bytes())
}

fn s(text: &str) -> String {
    text.to_string()
}

fn collection(root: &Object) -> &Object {
    match root.value("Shortcuts") {
        Some(Value::Object(c)) => c,
        _ => panic!("no collection"),
    }
}

fn record<'a>(coll: &'a Object, key: &str) -> &'a Object {
    match coll.value(key) {
        Some(Value::Object(r)) => r,
        _ => panic!("no record"),
    }
}

fn text(rec: &Object, key: &str) -> String {
    match rec.value(key) {
        Some(Value::String(t)) => t.clone(),
        _ => panic!("no string"),
    }
}

fn integer(rec: &Object, key: &str) -> u32 {
    match rec.value(key) {
        Some(Value::Integer(x)) => *x,
        _ => panic!("no integer"),
    }
}

fn record_with_id(id: u32) -> Value {
    let mut r = Object::new();
    r.set_value(s("appid"), Value::Integer(id));
    Value::Object(r)
}

#[test]
fn gen_id_matches_check_value() {
    assert_eq!(gen_id(&s("12345"), &s("6789")), 0xcbf4_3926);
}

#[test]
fn gen_id_sets_top_bit() {
    let id = gen_id(&s("/bin/game"), &s("Decker: g"));
    assert_eq!(id, crc32("/bin/gameDecker: g") | 0x8000_0000);
    assert_ne!(id & 0x8000_0000, 0);
    assert_eq!(gen_id(&s("/bin/game"), &s("Decker: g")), id);
    assert_eq!(gen_id(&s(""), &s("")), 0x8000_0000);
}

#[test]
fn gen_id_depends_on_concatenation() {
    assert_eq!(gen_id(&s("/a/b"), &s("X")), gen_id(&s("/a/"), &s("bX")));
}

#[test]
fn template_fields() {
    let r = create_shortcut_obj(5, s("g"), s("N"), s("/e"), s("/d"));
    let keys: Vec<&str> = r.values.iter().map(|f| f.0.as_str()).collect();
    assert_eq!(
        keys,
        vec![
            "appid", "AppName", "Exe", "StartDir", "icon", "ShortcutPath", "LaunchOptions",
            "IsHidden", "AllowDesktopConfig", "AllowOverlay", "OpenVR", "Devkit", "DevkitGameID",
            "DevkitOverrideAppID", "LastPlayTime", "FlatpakAppID", "tags"
        ]
    );
    assert_eq!(integer(&r, "appid"), 5);
    assert_eq!(text(&r, "DevkitGameID"), "g");
    assert_eq!(integer(&r, "AllowOverlay"), 1);
    assert_eq!(integer(&r, "LastPlayTime"), 1663261394);
    assert_eq!(text(&r, "icon"), "");
}

#[test]
fn concrete_scenario() {
    let mut root = Object::new();
    let id = gen_id(&s("/a/b"), &s("X"));
    let outcome = merge_shortcut(&mut root, id, &s("g"), &s("X"), &s("/a/b"), &s("/w"));
    assert_eq!(outcome, MergeOutcome::Inserted);
    let back = parse(&decker::vdf::write(&root)).unwrap();
    let rec = record(collection(&back), "0");
    assert_eq!(text(rec, "AppName"), "X");
    assert_eq!(text(rec, "Exe"), "/a/b");
    assert_eq!(text(rec, "StartDir"), "/w");
    assert_eq!(integer(rec, "appid"), crc32("/a/bX") | 0x8000_0000);
}

#[test]
fn missing_collection_bootstrap() {
    let mut root = Object::new();
    root.set_value(s("other"), Value::Integer(3));
    let outcome = merge_shortcut(&mut root, 0x8000_0001, &s("g"), &s("N"), &s("/e"), &s("/d"));
    assert_eq!(outcome, MergeOutcome::Inserted);
    assert_eq!(root.values.len(), 2);
    assert_eq!(root.values[1].0, "Shortcuts");
    let coll = collection(&root);
    assert_eq!(coll.values.len(), 1);
    assert_eq!(coll.values[0].0, "0");
}

#[test]
fn gap_preserving_insert() {
    let mut coll = Object::new();
    coll.set_value(s("0"), record_with_id(1));
    coll.set_value(s("1"), record_with_id(2));
    coll.set_value(s("5"), record_with_id(3));
    let mut root = Object::new();
    root.set_value(s("Shortcuts"), Value::Object(coll));
    let outcome = merge_shortcut(&mut root, 0x8000_0009, &s("g"), &s("N"), &s("/e"), &s("/d"));
    assert_eq!(outcome, MergeOutcome::Inserted);
    let coll = collection(&root);
    assert_eq!(coll.values.len(), 4);
    assert_eq!(coll.values[3].0, "6");
}

#[test]
fn non_numeric_keys_are_skipped() {
    let mut coll = Object::new();
    coll.set_value(s("abc"), record_with_id(1));
    coll.set_value(s("3"), Value::String(s("not a record")));
    coll.set_value(s("99999999999"), record_with_id(2));
    let mut root = Object::new();
    root.set_value(s("Shortcuts"), Value::Object(coll));
    merge_shortcut(&mut root, 7, &s("g"), &s("N"), &s("/e"), &s("/d"));
    assert_eq!(collection(&root).values[3].0, "4");
}

#[test]
fn update_idempotence() {
    let mut root = Object::new();
    let first = create_shortcut(&mut root, &s("game"), &s("/e1"), &s("/d1"));
    assert_eq!(first, MergeOutcome::Inserted);
    let before = decker::vdf::write(&root);
    let second = create_shortcut(&mut root, &s("game"), &s("/e1"), &s("/d2"));
    assert_eq!(second, MergeOutcome::Updated);
    let coll = collection(&root);
    assert_eq!(coll.values.len(), 1);
    assert_eq!(coll.values[0].0, "0");
    let rec = record(coll, "0");
    assert_eq!(text(rec, "StartDir"), "/d2");
    assert_eq!(text(rec, "AppName"), "Decker: game");
    assert_eq!(integer(rec, "appid"), crc32("/e1Decker: game") | 0x8000_0000);
    assert_ne!(before, decker::vdf::write(&root));
}

#[test]
fn update_keeps_other_fields_and_position() {
    let mut rec = Object::new();
    rec.set_value(s("IsHidden"), Value::Integer(1));
    rec.set_value(s("appid"), Value::Integer(42));
    rec.set_value(s("AppName"), Value::String(s("old")));
    let mut coll = Object::new();
    coll.set_value(s("0"), record_with_id(1));
    coll.set_value(s("7"), Value::Object(rec));
    coll.set_value(s("8"), record_with_id(42));
    let mut root = Object::new();
    root.set_value(s("Shortcuts"), Value::Object(coll));
    let outcome = merge_shortcut(&mut root, 42, &s("g"), &s("new"), &s("/e"), &s("/d"));
    assert_eq!(outcome, MergeOutcome::Updated);
    let coll = collection(&root);
    assert_eq!(coll.values.len(), 3);
    let rec = record(coll, "7");
    assert_eq!(rec.values.len(), 5);
    assert_eq!(integer(rec, "IsHidden"), 1);
    assert_eq!(text(rec, "AppName"), "new");
    assert_eq!(text(rec, "Exe"), "/e");
    assert_eq!(text(rec, "StartDir"), "/d");
    assert_eq!(record(coll, "8").values.len(), 1);
}

#[test]
fn collection_that_is_not_an_object() {
    let mut root = Object::new();
    root.set_value(s("Shortcuts"), Value::Integer(0));
    let before = decker::vdf::write(&root);
    let outcome = merge_shortcut(&mut root, 1, &s("g"), &s("N"), &s("/e"), &s("/d"));
    assert_eq!(outcome, MergeOutcome::CollectionNotAnObject);
    assert_eq!(decker::vdf::write(&root), before);
}

#[test]
fn file_update_on_empty_file() {
    let (bytes, outcome) = update_shortcut_file(&[], &s("g"), &s("/e"), &s("/d")).unwrap();
    assert_eq!(outcome, MergeOutcome::Inserted);
    let root = parse(&bytes).unwrap();
    let rec = record(collection(&root), "0");
    assert_eq!(text(rec, "AppName"), "Decker: g");
    assert_eq!(text(rec, "DevkitGameID"), "g");
}

#[test]
fn file_update_rejects_malformed_file() {
    assert!(update_shortcut_file(&[0x05], &s("g"), &s("/e"), &s("/d")).is_err());
}

#[test]
fn app_name_of_game() {
    assert_eq!(shortcut_app_name(&s("abc")), "Decker: abc");
}

#[test]
fn index_keys() {
    assert_eq!(parse_index(&s("0")), Some(0));
    assert_eq!(parse_index(&s("007")), Some(7));
    assert_eq!(parse_index(&s("4294967295")), Some(4294967295));
    assert_eq!(parse_index(&s("4294967296")), None);
    assert_eq!(parse_index(&s("")), None);
    assert_eq!(parse_index(&s("1a")), None);
    assert_eq!(parse_index(&s("-1")), None);
}

#[test]
fn decimal_keys() {
    assert_eq!(decimal_string(0), "0");
    assert_eq!(decimal_string(6), "6");
    assert_eq!(decimal_string(4294967296), "4294967296");
}
