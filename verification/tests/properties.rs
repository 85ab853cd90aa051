use boom::Boom;
use boom::BoomCollection;
use boom::BoomData;
use boom::BoomEntry;

fn entry(k: &str, v: &str) -> BoomEntry {
    BoomEntry { key: String::from(k), value: String::from(v) }
}

fn coll(name: &str, values: Vec<BoomEntry>) -> BoomCollection {
    BoomCollection { collection: String::from(name), values }
}

#[test]
fn insert_into_empty_then_get() {
    let mut c = coll("fresh", Vec::new());
    assert!(c.is_empty());
    assert!(c.insert(String::from("k"), String::from("v")).is_none());
    assert_eq!(c.len(), 1);
    assert_eq!(c.get("k").expect("missing k").value, "v");
}

#[test]
fn remove_present_then_absent() {
    let mut c = coll("r", vec![entry("x", "1"), entry("y", "2")]);
    let gone = c.remove("x").expect("missing x");
    assert_eq!(gone.key, "x");
    assert_eq!(gone.value, "1");
    assert!(!c.contains_key("x"));
    assert!(c.remove("x").is_none());
    assert_eq!(c.len(), 1);
}

#[test]
fn reinsert_displaces_and_moves_to_end() {
    let mut c = coll("m", vec![entry("a", "1"), entry("b", "2"), entry("c", "3")]);
    let displaced = c.insert(String::from("a"), String::from("9")).expect("no displaced");
    assert_eq!(displaced.value, "1");
    assert_eq!(c.len(), 3);
    assert_eq!(c.keys(), vec!["b", "c", "a"]);
    assert_eq!(c.index("a"), "9");
}

#[test]
fn insert_many_reports_displaced_in_order() {
    let mut c = coll("d", vec![entry("a", "1"), entry("b", "2")]);
    // fresh keys only: nothing displaced
    assert!(c
        .insert_many(vec![
            (String::from("c"), String::from("3")),
            (String::from("d"), String::from("4")),
        ])
        .is_none());
    // a mixed batch displaces exactly the pre-existing keys, in order
    let displaced = c
        .insert_many(vec![
            (String::from("b"), String::from("20")),
            (String::from("e"), String::from("5")),
            (String::from("a"), String::from("10")),
        ])
        .expect("expected displaced entries");
    assert_eq!(displaced.len(), 2);
    assert_eq!(displaced[0].key, "b");
    assert_eq!(displaced[0].value, "2");
    assert_eq!(displaced[1].key, "a");
    assert_eq!(displaced[1].value, "1");
    assert_eq!(c.len(), 5);
}

#[test]
fn keys_keep_storage_order() {
    let c = coll("o", vec![entry("this", "is"), entry("a", "test")]);
    assert_eq!(c.keys(), vec!["this", "a"]);
}

#[test]
fn save_load_round_trip() {
    let mut d = BoomData { data: Vec::new() };
    assert!(d
        .insert(
            String::from("first"),
            vec![entry("one", "1"), entry("two", "2")],
        )
        .is_none());
    assert!(d.insert(String::from("empty"), Vec::new()).is_none());
    assert!(d
        .insert(
            String::from("tricky"),
            vec![
                entry("quote\"inside", "back\\slash"),
                entry("line\nbreak", "tab\there"),
                entry("", "empty key above, empty value next"),
                entry("blank", ""),
            ],
        )
        .is_none());
    let text = d.save();
    let back = BoomData::load(Some(text.as_str())).expect("round trip failed");
    assert_eq!(back.keys(), vec!["first", "empty", "tricky"]);
    let first = back.get("first").expect("missing first");
    assert_eq!(first.keys(), vec!["one", "two"]);
    assert_eq!(first.index("one"), "1");
    assert_eq!(first.index("two"), "2");
    let empty = back.get("empty").expect("missing empty");
    assert!(empty.is_empty());
    let tricky = back.get("tricky").expect("missing tricky");
    assert_eq!(tricky.len(), 4);
    assert_eq!(tricky.index("quote\"inside"), "back\\slash");
    assert_eq!(tricky.index("line\nbreak"), "tab\there");
    assert_eq!(tricky.index(""), "empty key above, empty value next");
    assert_eq!(tricky.index("blank"), "");
    // saving the reloaded store renders the identical text
    assert_eq!(back.save(), text);
}

#[test]
fn rendered_shape_is_the_documented_format() {
    let mut d = BoomData { data: Vec::new() };
    assert!(d
        .insert(String::from("Desert"), vec![entry("cake", "vanilla")])
        .is_none());
    assert!(d.insert(String::from("Test"), Vec::new()).is_none());
    assert_eq!(
        d.save(),
        "[[data]]\ncollection = \"Desert\"\n[[data.values]]\nkey = \"cake\"\nvalue = \"vanilla\"\n[[data]]\ncollection = \"Test\"\nvalues = []\n"
    );
}

#[test]
fn control_characters_are_escaped() {
    let mut d = BoomData { data: Vec::new() };
    assert!(d
        .insert(String::from("C"), vec![entry("k", "a\nb\tc\r\u{8}\u{c}\u{1}\u{1f}\u{7f}")])
        .is_none());
    assert_eq!(
        d.save(),
        "[[data]]\ncollection = \"C\"\n[[data.values]]\nkey = \"k\"\nvalue = \"a\\nb\\tc\\r\\b\\f\\u0001\\u001F\\u007F\"\n"
    );
    let back = BoomData::load(Some(d.save().as_str())).expect("escaped text must load");
    assert_eq!(back.index("C").index("k"), "a\nb\tc\r\u{8}\u{c}\u{1}\u{1f}\u{7f}");
}

#[test]
fn escapes_decode_to_their_characters() {
    let text = "[[data]]\ncollection = \"A\"\n[[data.values]]\nkey = \"line\\nbreak\"\nvalue = \"tab\\there \\u0041 quote\\\" back\\\\slash\"\n";
    let d = BoomData::load(Some(text)).expect("escaped text must load");
    assert_eq!(d.index("A").index("line\nbreak"), "tab\there A quote\" back\\slash");
}

#[test]
fn tolerates_blank_lines_and_literal_strings() {
    let text = "[[data]]\ncollection = 'Desert'\n\n[[data.values]]\nkey = 'cake'\nvalue = 'vanilla'\n\n[[data.values]]\nkey = 'pie'\nvalue = \"very 'good'\"\n\n[[data]]\ncollection = 'Test'\nvalues = []\n";
    let d = BoomData::load(Some(text)).expect("the relaxed spellings must load");
    assert_eq!(d.keys(), vec!["Desert", "Test"]);
    assert_eq!(d.index("Desert").index("cake"), "vanilla");
    assert_eq!(d.index("Desert").index("pie"), "very 'good'");
    assert!(d.index("Test").is_empty());
}

#[test]
fn unknown_escape_is_corrupt() {
    let text = "[[data]]\ncollection = \"A\"\n[[data.values]]\nkey = \"k\\q\"\nvalue = \"v\"\n";
    assert!(BoomData::load(Some(text)).is_none());
}

#[test]
fn empty_store_round_trip() {
    let d = BoomData { data: Vec::new() };
    assert_eq!(d.save(), "");
    let back = BoomData::load(Some("")).expect("empty text is a valid dataset");
    assert_eq!(back.keys().len(), 0);
}

#[test]
fn load_absent_file_yields_empty_store() {
    let d = BoomData::load(None).expect("absent file must yield an empty store");
    assert_eq!(d.keys().len(), 0);
    let b = Boom::new(String::from("nowhere.toml"), false, None)
        .expect("absent file must yield an empty store");
    assert_eq!(b.all().len(), 0);
}

#[test]
fn load_corrupt_text_fails() {
    assert!(BoomData::load(Some("not the format")).is_none());
    assert!(BoomData::load(Some("[[data]]\ncollection = \"unterminated")).is_none());
    // a parseable text that repeats a collection name is ill-formed
    let dup = "[[data]]\ncollection = \"A\"\nvalues = []\n[[data]]\ncollection = \"A\"\nvalues = []\n";
    assert!(BoomData::load(Some(dup)).is_none());
    // a parseable text that repeats an entry key is ill-formed
    let dup_key = "[[data]]\ncollection = \"A\"\n[[data.values]]\nkey = \"k\"\nvalue = \"1\"\n[[data.values]]\nkey = \"k\"\nvalue = \"2\"\n";
    assert!(BoomData::load(Some(dup_key)).is_none());
}

#[test]
fn store_crud_mirrors_collection_crud() {
    let mut d = BoomData { data: Vec::new() };
    assert!(d.insert_collection(coll("a", vec![entry("k", "v")])).is_none());
    assert!(d.contains_key("a"));
    assert!(!d.contains_key("b"));
    // replacement displaces and moves to the end
    assert!(d.insert(String::from("b"), Vec::new()).is_none());
    let displaced = d
        .insert_collection(coll("a", vec![entry("k2", "v2")]))
        .expect("expected a displaced collection");
    assert_eq!(displaced.index("k"), "v");
    assert_eq!(d.keys(), vec!["b", "a"]);
    assert_eq!(d.index("a").index("k2"), "v2");
    // get_mut mutates in place
    d.get_mut("b").expect("missing b").values.push(entry("n", "1"));
    assert_eq!(d.get("b").expect("missing b").len(), 1);
    // remove returns the collection and a second remove misses
    let gone = d.remove("b").expect("missing b");
    assert_eq!(gone.collection, "b");
    assert!(d.remove("b").is_none());
}

#[test]
fn store_insert_many_reports_displaced() {
    let mut d = BoomData { data: Vec::new() };
    assert!(d
        .insert_many(vec![
            (String::from("x"), vec![entry("k", "v")]),
            (String::from("y"), Vec::new()),
        ])
        .is_none());
    let displaced = d
        .insert_many_collections(vec![coll("y", Vec::new()), coll("z", Vec::new())])
        .expect("expected displaced collections");
    assert_eq!(displaced.len(), 1);
    assert_eq!(displaced[0].collection, "y");
    assert_eq!(d.keys(), vec!["x", "y", "z"]);
}

#[test]
fn facade_delegates_and_remembers_its_path() {
    let mut b = Boom::mem();
    assert!(b.save().is_none(), "memory-only mode must not produce a save");
    assert!(b.create_collection(String::from("lists")).is_none());
    assert!(b.get_mut("lists").expect("missing lists").insert(
        String::from("milk"),
        String::from("two"),
    ).is_none());
    assert_eq!(
        b.get_collection_entry("lists", "milk").expect("missing entry").value,
        "two"
    );
    assert!(b.get_collection_entry("lists", "bread").is_none());
    assert!(b.get_collection_entry("absent", "milk").is_none());
    let e = b.delete_collection_entry("lists", "milk").expect("missing entry");
    assert_eq!(e.value, "two");
    assert!(b.delete_collection_entry("lists", "milk").is_none());
    let c = b.delete_collection("lists").expect("missing lists");
    assert!(c.is_empty());
    assert!(b.delete_collection("lists").is_none());
}

#[test]
fn listings_render_lines() {
    let e = entry("cake", "vanilla");
    assert_eq!(e.listing(), "cake: vanilla");
    let c = coll("Desert", vec![entry("cake", "vanilla"), entry("ice", "cold")]);
    assert_eq!(c.listing(), "cake: vanilla\nice: cold");
    assert_eq!(coll("Empty", Vec::new()).listing(), "");
    let mut b = Boom::mem();
    assert!(b.insert_collection(c).is_none());
    assert!(b.create_collection(String::from("Empty")).is_none());
    let mut wide = coll("Wide", Vec::new());
    for i in 0..12 {
        assert!(wide.insert(format!("k{}", i), String::from("v")).is_none());
    }
    assert!(b.insert_collection(wide).is_none());
    assert_eq!(b.listing(), "Desert (2)\nEmpty (0)\nWide (12)");
}

#[test]
fn facade_round_trip_through_text() {
    let mut b = Boom::new(String::from("data.toml"), true, None).expect("first run");
    assert!(b.create_collection(String::from("Desert")).is_none());
    b.get_mut("Desert").expect("missing").values.push(entry("cake", "vanilla"));
    let text = b.save().expect("a path is remembered");
    let b2 = Boom::new(String::from("data.toml"), false, Some(text.as_str()))
        .expect("own rendering must load");
    assert_eq!(b2.index("Desert").index("cake"), "vanilla");
    assert_eq!(b2.all().len(), 1);
}
