use corpus::caption_cache::{image_key, CaptionCache, CaptionEntry, StoredLine};
use corpus::store::record_lines;
use serde_json::Value;

/// A record as it is stored.
fn line_of(key: &str, entry: &CaptionEntry) -> String {
    let text = |s: &str| Value::from(s).to_string();
    format!(
        "[{},{{\"model\":{},\"prompt_version\":{},\"caption\":{}}}]\n",
        text(key),
        text(&entry.model),
        text(&entry.prompt_version),
        text(&entry.caption)
    )
}

/// What a stored line says, where it can be read.
fn stored_line(line: &str) -> StoredLine {
    let value: Value = serde_json::from_str(line).ok()?;
    let text = |value: &Value| value.as_str().map(str::to_string);
    Some((
        text(value.get(0)?)?,
        CaptionEntry {
            model: text(&value[1]["model"])?,
            prompt_version: text(&value[1]["prompt_version"])?,
            caption: text(&value[1]["caption"])?,
        },
    ))
}

#[test]
fn a_torn_line_does_not_lose_the_rest() {
    let mut cache = CaptionCache::load(Vec::new());
    cache.put(b"page", "m1", "v1", "kept");
    let mut text: String =
        cache.save().unwrap().iter().map(|(key, entry)| line_of(key, entry)).collect();
    text.push_str(r#"{"captions":["cut off mid-write"#);

    let lines = record_lines(&text).iter().map(|line| stored_line(line)).collect();
    let cache = CaptionCache::load(lines);
    assert_eq!(cache.len(), 1);
    assert_eq!(cache.get(b"page", "m1", "v1"), Some("kept"));
}

#[test]
fn torn_lines_lose_nothing() {
    let entry = |caption: &str| CaptionEntry {
        model: "m".to_string(),
        prompt_version: "v1".to_string(),
        caption: caption.to_string(),
    };
    let cache = CaptionCache::load(vec![
        None,
        Some((image_key(b"a"), entry("one"))),
        None,
        Some((image_key(b"b"), entry("two"))),
        None,
    ]);
    assert_eq!(cache.len(), 2);
    assert_eq!(cache.get(b"a", "m", "v1"), Some("one"));
    assert_eq!(cache.get(b"b", "m", "v1"), Some("two"));
    assert!(CaptionCache::load(vec![None, None]).is_empty());
}

#[test]
fn captions_are_counted() {
    let mut cache = CaptionCache::load(Vec::new());
    for (image, count) in [(b"a", 1), (b"b", 2), (b"a", 2), (b"c", 3)] {
        cache.put(image, "m", "v1", "text");
        assert_eq!(cache.len(), count);
        assert!(!cache.is_empty());
    }
}

#[test]
fn same_image_hits_the_cache() {
    let mut cache = CaptionCache::load(Vec::new());
    let png = b"fake page image";
    assert!(cache.get(png, "m1", "v1").is_none());
    cache.put(png, "m1", "v1", "A departure profile with a 4.5% gradient.");
    assert_eq!(
        cache.get(png, "m1", "v1"),
        Some("A departure profile with a 4.5% gradient.")
    );
    assert!(!cache.is_empty());
}

#[test]
fn a_different_image_or_prompt_is_a_miss() {
    let mut cache = CaptionCache::load(Vec::new());
    cache.put(b"figure a", "m1", "v1", "caption a");
    assert!(cache.get(b"figure b", "m1", "v1").is_none());
    assert!(cache.get(b"figure a", "m1", "v2").is_none());
    assert!(cache.get(b"figure a", "m2", "v1").is_none());
}

#[test]
fn captions_survive_a_reload() {
    let records = {
        let mut cache = CaptionCache::load(Vec::new());
        cache.put(b"page", "m1", "v1", "OIS gradients of 2.5% and 3.3%.");
        cache.save().unwrap()
    };
    let cache = CaptionCache::load(records.into_iter().map(Some).collect());
    assert_eq!(cache.len(), 1);
    assert_eq!(
        cache.get(b"page", "m1", "v1"),
        Some("OIS gradients of 2.5% and 3.3%.")
    );
}

#[test]
fn keys_are_the_digests_of_the_images() {
    assert_eq!(
        image_key(b"abc"),
        "ba7816bf8f01cfea414140de5dae2223b00361a396177a9cb410ff61f20015ad"
    );
    assert_ne!(image_key(b"abc"), image_key(b"abd"));
}

#[test]
fn nothing_is_written_where_nothing_was_put_in() {
    let mut cache = CaptionCache::load(Vec::new());
    assert!(cache.is_empty());
    assert!(cache.save().is_none());
    cache.put(b"page", "m1", "v1", "one");
    assert!(cache.save().is_some());
    cache.saved();
    assert!(cache.save().is_none());
    assert_eq!(cache.get(b"page", "m1", "v1"), Some("one"));
}

#[test]
fn a_new_caption_takes_the_place_of_the_old_one() {
    let mut cache = CaptionCache::load(Vec::new());
    cache.put(b"a", "m1", "v1", "old");
    cache.put(b"b", "m1", "v1", "other");
    cache.put(b"a", "m2", "v1", "new");
    assert_eq!(cache.len(), 2);
    assert!(cache.get(b"a", "m1", "v1").is_none());
    assert_eq!(cache.get(b"a", "m2", "v1"), Some("new"));
    assert_eq!(cache.get(b"b", "m1", "v1"), Some("other"));
}

#[test]
fn later_records_win_and_are_written_in_order() {
    let entry = |caption: &str| CaptionEntry {
        model: "m".to_string(),
        prompt_version: "v1".to_string(),
        caption: caption.to_string(),
    };
    let key = image_key(b"a");
    let cache = CaptionCache::load(vec![
        Some(("zz".to_string(), entry("last"))),
        Some((key.clone(), entry("first"))),
        None,
        Some((key, entry("second"))),
    ]);
    assert_eq!(cache.len(), 2);
    assert_eq!(cache.get(b"a", "m", "v1"), Some("second"));
    let mut cache = cache;
    cache.put(b"a", "m", "v1", "third");
    let records = cache.save().unwrap();
    assert_eq!(records.len(), 2);
    assert!(records[0].0 < records[1].0);
    assert_eq!(records[0].1.caption, "third");
}
