use rawgallery::datetime::DateTime;
use rawgallery::pipeline::{ingest, is_stale, plan, sidecar_path_for};
use rawgallery::repo::Repository;
use rawgallery::sidecar::ParsedMetadata;
use rawgallery::xml::parse_sidecar;

fn dt() -> DateTime {
    DateTime { year: 2021, month: 7, day: 4, hour: 12, minute: 0, second: 0 }
}

fn meta(rating: i32, paths: &[&str]) -> ParsedMetadata {
    ParsedMetadata {
        rating,
        raw_tag_paths: paths.iter().map(|s| s.to_string()).collect(),
    }
}

#[test]
fn sidecar_sits_beside_the_raw_file() {
    assert_eq!(sidecar_path_for("/photos/a.cr2"), "/photos/a.cr2.xmp");
    assert_eq!(sidecar_path_for("b.CR2"), "b.CR2.xmp");
}

#[test]
fn missing_record_is_stale() {
    assert!(is_stale(&None, 100));
}

#[test]
fn staleness_is_strict() {
    let mut repo = Repository::new();
    let img = ingest(&mut repo, "/a", &meta(3, &["T|x"]), 100, "t/one.jpg", dt()).unwrap();
    let stored = Some(img);
    assert!(!is_stale(&stored, 100));
    assert!(!is_stale(&stored, 99));
    assert!(is_stale(&stored, 101));
}

#[test]
fn fresh_candidate_is_returned_unchanged_without_writes() {
    let mut repo = Repository::new();
    let first = ingest(&mut repo, "/a", &meta(3, &["T|x"]), 100, "t/one.jpg", dt()).unwrap();
    let images = repo.image_count();
    let tags = repo.tag_count();
    let links = repo.link_count();
    let again = plan(&repo, "/a", 100).unwrap();
    assert_eq!(again.id, first.id);
    assert_eq!(again.rating, first.rating);
    assert_eq!(again.thumb_path, first.thumb_path);
    assert_eq!(repo.image_count(), images);
    assert_eq!(repo.tag_count(), tags);
    assert_eq!(repo.link_count(), links);
}

#[test]
fn advanced_mtime_forces_reingestion_and_keeps_identity() {
    let mut repo = Repository::new();
    let first = ingest(&mut repo, "/a", &meta(3, &["T|x"]), 100, "t/one.jpg", dt()).unwrap();
    assert!(plan(&repo, "/a", 150).is_none());
    let second = ingest(&mut repo, "/a", &meta(5, &["T|y"]), 150, "t/two.jpg", dt()).unwrap();
    assert_eq!(second.id, first.id);
    assert_eq!(second.rating, 5);
    assert_eq!(second.thumb_path, "t/two.jpg");
    assert_eq!(second.last_modified, 150);
    let stored = repo.find_by_path("/a").unwrap();
    assert_eq!(stored.id, first.id);
    assert_eq!(stored.rating, 5);
    assert_eq!(stored.thumb_path, "t/two.jpg");
    assert_eq!(repo.image_count(), 1);
}

#[test]
fn unknown_path_needs_ingestion() {
    let repo = Repository::new();
    assert!(plan(&repo, "/nowhere", 1).is_none());
}

#[test]
fn failed_parse_leaves_no_rows() {
    let mut repo = Repository::new();
    let doc = "<rdf:Description rdf:about=\"\"></rdf:Description>";
    match parse_sidecar(doc) {
        Ok(_) => panic!("a ratingless sidecar must not parse"),
        Err(_) => {
            // The pipeline never reaches ingestion for this candidate.
        },
    }
    assert_eq!(repo.image_count(), 0);
    assert_eq!(repo.tag_count(), 0);
    assert_eq!(repo.link_count(), 0);
    let _ = &mut repo;
}

#[test]
fn ingest_links_every_tag_once() {
    let mut repo = Repository::new();
    let img = ingest(
        &mut repo,
        "/a",
        &meta(4, &["Family|Smith|Alice", "Travel|Asia", "Family|Smith|Alice"]),
        100,
        "t/one.jpg",
        dt(),
    )
    .unwrap();
    assert_eq!(img.rating, 4);
    assert_eq!(repo.tag_count(), 2);
    assert_eq!(repo.link_count(), 2);
}
