use rawgallery::datetime::DateTime;
use rawgallery::pipeline::ingest;
use rawgallery::query::{filter_from_options, GalleryFilter};
use rawgallery::repo::Repository;
use rawgallery::sidecar::ParsedMetadata;

fn dt(year: u32, month: u32, day: u32) -> DateTime {
    DateTime { year, month, day, hour: 10, minute: 0, second: 0 }
}

fn now() -> DateTime {
    DateTime { year: 2030, month: 1, day: 1, hour: 0, minute: 0, second: 0 }
}

fn meta(rating: i32, paths: &[&str]) -> ParsedMetadata {
    ParsedMetadata {
        rating,
        raw_tag_paths: paths.iter().map(|s| s.to_string()).collect(),
    }
}

fn filter(rating: Option<i32>, tags: Option<&str>) -> GalleryFilter {
    filter_from_options(rating, &None, &None, &tags.map(|s| s.to_string()), now())
}

fn seed(repo: &mut Repository) -> (i32, i32, i32) {
    // Three rated images with distinct capture days, out of insertion order.
    let one = ingest(repo, "/one", &meta(1, &["Family|Smith"]), 10, "t/1.jpg", dt(2021, 3, 1))
        .unwrap();
    let five = ingest(repo, "/five", &meta(5, &["Travel|Asia"]), 10, "t/5.jpg", dt(2021, 1, 1))
        .unwrap();
    let three = ingest(repo, "/three", &meta(3, &["Family|Smith"]), 10, "t/3.jpg", dt(2021, 2, 1))
        .unwrap();
    (one.id, three.id, five.id)
}

#[test]
fn min_rating_filters_and_orders_by_capture_time() {
    let mut repo = Repository::new();
    let (_, three, five) = seed(&mut repo);
    let listed = repo.list_images(&filter(Some(3), None), 0);
    let ids: Vec<i32> = listed.iter().map(|(img, _)| img.id).collect();
    // The five-rated image was captured earliest, so it comes first.
    assert_eq!(ids, vec![five, three]);
}

#[test]
fn no_rating_bound_lists_everything_with_tags() {
    let mut repo = Repository::new();
    seed(&mut repo);
    let listed = repo.list_images(&filter(None, None), 0);
    assert_eq!(listed.len(), 3);
    for window in listed.windows(2) {
        let earlier = &window[0].0.datetime;
        let later = &window[1].0.datetime;
        assert!(
            (earlier.year, earlier.month, earlier.day) <= (later.year, later.month, later.day)
        );
    }
}

#[test]
fn untagged_images_are_listed_when_no_tag_filter_is_given() {
    let mut repo = Repository::new();
    ingest(&mut repo, "/bare", &meta(5, &[]), 10, "t/bare.jpg", dt(2021, 1, 1)).unwrap();
    let listed = repo.list_images(&filter(None, None), 0);
    assert_eq!(listed.len(), 1);
    assert_eq!(listed[0].0.path, "/bare");
    assert!(listed[0].1.is_empty());
}

#[test]
fn a_tag_filter_hides_untagged_images() {
    let mut repo = Repository::new();
    ingest(&mut repo, "/bare", &meta(5, &[]), 10, "t/bare.jpg", dt(2021, 1, 1)).unwrap();
    ingest(&mut repo, "/tagged", &meta(5, &["Travel|Asia"]), 10, "t/t.jpg", dt(2021, 2, 1))
        .unwrap();
    let listed = repo.list_images(&filter(None, Some("Asia")), 0);
    assert_eq!(listed.len(), 1);
    assert_eq!(listed[0].0.path, "/tagged");
}

#[test]
fn min_rating_alone_returns_exactly_the_rated_images() {
    let mut repo = Repository::new();
    // One image of each rating; the rating-5 image carries no tags at all.
    ingest(&mut repo, "/one", &meta(1, &["T"]), 10, "t/1.jpg", dt(2021, 1, 1)).unwrap();
    ingest(&mut repo, "/three", &meta(3, &["T"]), 10, "t/3.jpg", dt(2021, 2, 1)).unwrap();
    ingest(&mut repo, "/five", &meta(5, &[]), 10, "t/5.jpg", dt(2021, 3, 1)).unwrap();
    let listed = repo.list_images(&filter(Some(3), None), 0);
    let paths: Vec<&str> = listed.iter().map(|(img, _)| img.path.as_str()).collect();
    assert_eq!(paths, vec!["/three", "/five"]);
}

#[test]
fn tag_filter_selects_overlapping_tags() {
    let mut repo = Repository::new();
    seed(&mut repo);
    let listed = repo.list_images(&filter(None, Some("Smith")), 0);
    assert_eq!(listed.len(), 2);
    for (_, tags) in &listed {
        assert!(tags.iter().any(|t| t.content.iter().any(|s| s == "Smith")));
    }
    let both = repo.list_images(&filter(None, Some("Smith;Asia")), 0);
    assert_eq!(both.len(), 3);
}

#[test]
fn tag_filter_with_no_overlap_hides_everything() {
    let mut repo = Repository::new();
    seed(&mut repo);
    let listed = repo.list_images(&filter(None, Some("Nowhere")), 0);
    assert_eq!(listed.len(), 0);
}

#[test]
fn listed_images_carry_their_tags() {
    let mut repo = Repository::new();
    ingest(
        &mut repo,
        "/a",
        &meta(2, &["Family|Smith|Alice", "Travel|Asia"]),
        10,
        "t/a.jpg",
        dt(2021, 1, 1),
    )
    .unwrap();
    let listed = repo.list_images(&filter(None, None), 0);
    assert_eq!(listed.len(), 1);
    let tags = &listed[0].1;
    assert_eq!(tags.len(), 2);
    assert_eq!(tags[0].content, vec!["Family", "Smith", "Alice"]);
    assert_eq!(tags[1].content, vec!["Travel", "Asia"]);
}

#[test]
fn pages_past_the_end_are_empty() {
    let mut repo = Repository::new();
    seed(&mut repo);
    assert_eq!(repo.list_images(&filter(None, None), 1).len(), 0);
    assert_eq!(repo.list_images(&filter(None, None), 1000).len(), 0);
}

#[test]
fn date_range_is_inclusive() {
    let mut repo = Repository::new();
    seed(&mut repo);
    let f = filter_from_options(
        None,
        &Some("2021-02-01".to_string()),
        &Some("2021-02-01".to_string()),
        &None,
        now(),
    );
    let listed = repo.list_images(&f, 0);
    // Only the image captured on that very day.
    assert_eq!(listed.len(), 1);
    assert_eq!(listed[0].0.path, "/three");
}

#[test]
fn capture_time_ties_break_by_identity() {
    let mut repo = Repository::new();
    let a = ingest(&mut repo, "/a", &meta(1, &["T"]), 10, "t/a.jpg", dt(2021, 1, 1)).unwrap();
    let b = ingest(&mut repo, "/b", &meta(1, &["T"]), 10, "t/b.jpg", dt(2021, 1, 1)).unwrap();
    let listed = repo.list_images(&filter(None, None), 0);
    let ids: Vec<i32> = listed.iter().map(|(img, _)| img.id).collect();
    assert_eq!(ids, vec![a.id, b.id]);
}
