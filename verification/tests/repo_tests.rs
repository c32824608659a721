use rawgallery::datetime::DateTime;
use rawgallery::repo::{NewImage, NewTag, Repository};

fn some_dt() -> DateTime {
    DateTime { year: 2021, month: 7, day: 4, hour: 12, minute: 0, second: 0 }
}

fn new_image(path: &str) -> NewImage {
    NewImage {
        path: path.to_string(),
        rating: 3,
        last_modified: 100,
        thumb_path: "thumbs/one.jpg".to_string(),
        datetime: some_dt(),
    }
}

fn strings(v: &[&str]) -> Vec<String> {
    v.iter().map(|s| s.to_string()).collect()
}

#[test]
fn insert_then_find_by_path() {
    let mut repo = Repository::new();
    let img = repo.insert_image(new_image("/photos/a.cr2"));
    assert_eq!(img.id, 1);
    let found = repo.find_by_path("/photos/a.cr2").unwrap();
    assert_eq!(found.id, img.id);
    assert_eq!(found.rating, 3);
    assert!(repo.find_by_path("/photos/b.cr2").is_none());
}

#[test]
fn identities_count_up() {
    let mut repo = Repository::new();
    let a = repo.insert_image(new_image("/a"));
    let b = repo.insert_image(new_image("/b"));
    assert_eq!(a.id, 1);
    assert_eq!(b.id, 2);
}

#[test]
fn update_keeps_identity_and_path() {
    let mut repo = Repository::new();
    let img = repo.insert_image(new_image("/a"));
    repo.update_image(img.id, 5, 200, "thumbs/two.jpg".to_string(), some_dt());
    let found = repo.find_by_path("/a").unwrap();
    assert_eq!(found.id, img.id);
    assert_eq!(found.rating, 5);
    assert_eq!(found.last_modified, 200);
    assert_eq!(found.thumb_path, "thumbs/two.jpg");
    assert_eq!(repo.image_count(), 1);
}

#[test]
fn tag_dedup_is_idempotent() {
    let mut repo = Repository::new();
    let raw = strings(&["Family|Smith|Alice"]);
    let first = repo.normalize_tags(&raw);
    let count_after_first = repo.tag_count();
    let second = repo.normalize_tags(&raw);
    assert_eq!(first.len(), 1);
    assert_eq!(second.len(), 1);
    assert_eq!(first[0].id, second[0].id);
    assert_eq!(repo.tag_count(), count_after_first);
}

#[test]
fn normalize_splits_on_pipes() {
    let mut repo = Repository::new();
    let tags = repo.normalize_tags(&strings(&["Family|Smith|Alice"]));
    assert_eq!(tags[0].content, vec!["Family", "Smith", "Alice"]);
}

#[test]
fn two_images_share_one_tag_row() {
    let mut repo = Repository::new();
    let t1 = repo.normalize_tags(&strings(&["Travel|Asia"]));
    let t2 = repo.normalize_tags(&strings(&["Travel|Asia"]));
    assert_eq!(t1[0].id, t2[0].id);
    assert_eq!(repo.tag_count(), 1);
}

#[test]
fn case_differing_contents_are_distinct_rows() {
    let mut repo = Repository::new();
    let tags = repo.normalize_tags(&strings(&["Family|Smith|Alice", "Family|Smith|alice"]));
    assert_eq!(tags.len(), 2);
    assert_ne!(tags[0].id, tags[1].id);
    assert_eq!(repo.tag_count(), 2);
}

#[test]
fn find_tag_by_content_is_exact_sequence_equality() {
    let mut repo = Repository::new();
    repo.insert_tag(NewTag { content: strings(&["Family", "Smith"]) });
    assert!(repo.find_tag_by_content(&strings(&["Family", "Smith"])).is_some());
    assert!(repo.find_tag_by_content(&strings(&["Family"])).is_none());
    assert!(repo.find_tag_by_content(&strings(&["Smith", "Family"])).is_none());
    assert!(repo.find_tag_by_content(&strings(&["Family", "Smith", "Alice"])).is_none());
}

#[test]
fn linking_twice_stores_one_link() {
    let mut repo = Repository::new();
    let img = repo.insert_image(new_image("/a"));
    let tag = repo.insert_tag(NewTag { content: strings(&["Travel"]) });
    repo.link_image_tag(img.id, tag.id);
    repo.link_image_tag(img.id, tag.id);
    assert_eq!(repo.link_count(), 1);
    repo.link_image_tag(img.id, tag.id + 1000);
    assert_eq!(repo.link_count(), 2);
}
