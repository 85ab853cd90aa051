use boom::Boom;
use boom::BoomCollection;

#[test]
fn boom() {
    // The backing file is simulated: an absent file on the first open,
    // then the text that the handle rendered on save.
    let saved: String;
    {
        let mut boom =
            Boom::new(String::from("test.toml"), true, None).expect("Failed to read data");
        assert_eq!(boom.all().len(), 0);
        assert!(boom.create_collection(String::from("Desert")).is_none());
        assert!(boom.get("Desert").is_some());
        assert!(boom
            .get_mut("Desert")
            .expect("Where is my desert???")
            .insert_many(vec![
                (String::from("cake"), String::from("vanilla")),
                (
                    String::from("chocolate"),
                    String::from("chocolate covered raisons"),
                ),
                (String::from("icecream"), String::from("vanilla")),
            ])
            .is_none());
        assert_eq!(boom.index("Desert").index("cake"), "vanilla");
        assert!(boom
            .insert_collection(BoomCollection {
                collection: String::from("Test"),
                values: Vec::new(),
            })
            .is_none());
        // auto-save is on, so the handle's scope ends with one save
        saved = boom.save().expect("Failed to write data to file");
    }
    assert_eq!(
        Boom::new(String::from("test.toml"), false, Some(saved.as_str()))
            .expect("Failed to read data")
            .index("Desert")
            .index("cake"),
        "vanilla"
    )
}
