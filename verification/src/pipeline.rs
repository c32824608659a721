//! The per-candidate ingestion decisions: where the sidecar sits, whether a
//! candidate is stale, and what one (re)ingestion does to the store. The
//! surrounding walk, the file reads, and the thumbnail write are the caller's
//! business; everything decided here is stated exactly over the store model.

use vstd::prelude::*;
use crate::datetime::DateTime;
use crate::repo::{
    find_image_by_path, ingest_capacity, lemma_find_image_char, lemma_find_image_hit,
    lemma_insert_image_wf, lemma_link_all_links, lemma_link_all_wf,
    lemma_normalize_wf, lemma_update_image_wf, repo_wf, spec_insert_image, spec_link_all,
    spec_normalize, spec_update_image, Image, ImageModel, NewImage, NewImageModel, RepoModel,
    Repository, StorageError,
};
use crate::sidecar::{MetadataView, ParsedMetadata};

verus! {

/// The sidecar convention: the raw file's own name with `.xmp` appended, the
/// original extension kept.
pub open spec fn spec_sidecar_path(path: Seq<char>) -> Seq<char> {
    path + ".xmp"@
}

pub fn sidecar_path_for(path: &str) -> (r: String)
    ensures
        r@ == spec_sidecar_path(path@),
{
    let s = path.to_owned();
    s.concat(".xmp")
}

/// The staleness rule: a candidate needs (re)processing exactly when no
/// record of it exists, or when the stored modification time predates the one
/// now seen on disk. Equal times count as fresh.
pub open spec fn spec_is_stale(existing: Option<ImageModel>, fs_mtime: int) -> bool {
    match existing {
        Option::None => true,
        Option::Some(im) => im.last_modified < fs_mtime,
    }
}

pub fn is_stale(existing: &Option<Image>, fs_mtime: i64) -> (r: bool)
    ensures
        r == spec_is_stale(existing.deep_view(), fs_mtime as int),
{
    match existing {
        None => true,
        Some(img) => img.last_modified < fs_mtime,
    }
}

/// What the pipeline may reuse for a candidate: the stored record, exactly
/// when one exists and is not stale.
pub open spec fn spec_plan(m: RepoModel, path: Seq<char>, fs_mtime: int) -> Option<ImageModel> {
    match find_image_by_path(m.images, path) {
        Option::Some(im) => if im.last_modified < fs_mtime {
            Option::None
        } else {
            Option::Some(im)
        },
        Option::None => Option::None,
    }
}

/// Decide a candidate: hand back the stored record when it is fresh, nothing
/// when the candidate must be (re)ingested. Nothing is written either way.
pub fn plan(repo: &Repository, path: &str, fs_mtime: i64) -> (r: Option<Image>)
    ensures
        match r {
            Option::Some(img) => spec_plan(repo@, path@, fs_mtime as int) == Option::Some(img@),
            Option::None => spec_plan(repo@, path@, fs_mtime as int) is None,
        },
{
    let existing = repo.find_by_path(path);
    if is_stale(&existing, fs_mtime) {
        None
    } else {
        existing
    }
}

/// Upserting an image record: an existing record for the path gets the new
/// fields in place and keeps its identity; a new path gets a fresh record.
pub open spec fn spec_upsert_image(
    m: RepoModel,
    path: Seq<char>,
    rating: int,
    mtime: int,
    thumb: Seq<char>,
    dt: DateTime,
) -> (RepoModel, ImageModel) {
    match find_image_by_path(m.images, path) {
        Option::Some(old_img) => (
            spec_update_image(m, old_img.id, rating, mtime, thumb, dt),
            ImageModel {
                id: old_img.id,
                path: old_img.path,
                rating,
                last_modified: mtime,
                thumb_path: thumb,
                datetime: dt,
            },
        ),
        Option::None => spec_insert_image(
            m,
            NewImageModel { path, rating, last_modified: mtime, thumb_path: thumb, datetime: dt },
        ),
    }
}

/// The image table's own validity, free of any counter bound: no two rows
/// share a path. The store invariant `repo_wf` implies it.
pub open spec fn image_table_wf(images: Seq<ImageModel>) -> bool {
    forall|i: int, j: int|
        #![trigger images[i], images[j]]
        0 <= i < j < images.len() ==> images[i].path != images[j].path
}

/// With unique paths alone, the upserted record is found under its path
/// afterwards.
pub proof fn lemma_upsert_found(
    m: RepoModel,
    path: Seq<char>,
    rating: int,
    mtime: int,
    thumb: Seq<char>,
    dt: DateTime,
)
    requires
        image_table_wf(m.images),
    ensures
        ({
            let u = spec_upsert_image(m, path, rating, mtime, thumb, dt);
            find_image_by_path(u.0.images, path) == Option::Some(u.1)
        }),
{
    let u = spec_upsert_image(m, path, rating, mtime, thumb, dt);
    lemma_find_image_char(m.images, path);
    match find_image_by_path(m.images, path) {
        Option::Some(old_img) => {
            let i = choose|i: int| 0 <= i < m.images.len() && m.images[i] == old_img;
            assert(u.0.images[i] == u.1);
            assert forall|j: int| 0 <= j < i implies u.0.images[j].path != path by {
                assert(m.images[j].path != m.images[i].path);
                assert(u.0.images[j].path == m.images[j].path);
            }
            lemma_find_image_hit(u.0.images, path, i);
        },
        Option::None => {
            let i = m.images.len() as int;
            assert(u.0.images[i] == u.1);
            assert forall|j: int| 0 <= j < i implies u.0.images[j].path != path by {
                assert(u.0.images[j] == m.images[j]);
            }
            lemma_find_image_hit(u.0.images, path, i);
        },
    }
}

/// The upserted record is found under its path afterwards, with the new
/// fields; nothing else about the store moves.
pub proof fn lemma_upsert_image_wf(
    m: RepoModel,
    path: Seq<char>,
    rating: int,
    mtime: int,
    thumb: Seq<char>,
    dt: DateTime,
)
    requires
        repo_wf(m),
        m.next_image_id < i32::MAX,
    ensures
        ({
            let u = spec_upsert_image(m, path, rating, mtime, thumb, dt);
            &&& repo_wf(u.0)
            &&& find_image_by_path(u.0.images, path) == Option::Some(u.1)
            &&& u.1.path == path
            &&& u.1.rating == rating
            &&& u.1.last_modified == mtime
            &&& u.1.thumb_path == thumb
            &&& u.1.datetime == dt
            &&& u.1.id == (match find_image_by_path(m.images, path) {
                Option::Some(old_img) => old_img.id,
                Option::None => m.next_image_id,
            })
            &&& u.0.tags == m.tags
            &&& u.0.links == m.links
            &&& u.0.next_tag_id == m.next_tag_id
            &&& u.0.next_link_id == m.next_link_id
            &&& u.0.next_image_id <= m.next_image_id + 1
        }),
{
    let u = spec_upsert_image(m, path, rating, mtime, thumb, dt);
    lemma_find_image_char(m.images, path);
    match find_image_by_path(m.images, path) {
        Option::Some(old_img) => {
            lemma_update_image_wf(m, old_img.id, rating, mtime, thumb, dt);
            let i = choose|i: int| 0 <= i < m.images.len() && m.images[i] == old_img;
            assert(u.0.images[i] == u.1);
            assert forall|j: int| 0 <= j < i implies u.0.images[j].path != path by {
                assert(m.images[j].path != m.images[i].path);
                assert(u.0.images[j].path == m.images[j].path);
            }
            lemma_find_image_hit(u.0.images, path, i);
        },
        Option::None => {
            lemma_insert_image_wf(
                m,
                NewImageModel {
                    path,
                    rating,
                    last_modified: mtime,
                    thumb_path: thumb,
                    datetime: dt,
                },
            );
            let i = m.images.len() as int;
            assert(u.0.images[i] == u.1);
            assert forall|j: int| 0 <= j < i implies u.0.images[j].path != path by {
                assert(u.0.images[j] == m.images[j]);
            }
            lemma_find_image_hit(u.0.images, path, i);
        },
    }
}

/// What one (re)ingestion does: upsert the image record under its path, then
/// resolve the raw tag paths through the deduplicating find-or-insert, then
/// link the record to each resolved tag.
pub open spec fn spec_ingest(
    m: RepoModel,
    path: Seq<char>,
    meta: MetadataView,
    mtime: int,
    thumb: Seq<char>,
    dt: DateTime,
) -> (RepoModel, ImageModel) {
    let u = spec_upsert_image(m, path, meta.rating, mtime, thumb, dt);
    let n = spec_normalize(u.0, meta.raw_tag_paths);
    let l = spec_link_all(n.0, u.1.id, n.1);
    (l, u.1)
}

/// Ingest one candidate whose sidecar parsed: upsert its record, resolve and
/// link its tags. Succeeds exactly when identities are left for everything
/// this ingestion could assign; a refused ingestion leaves the store
/// untouched.
pub fn ingest(
    repo: &mut Repository,
    path: &str,
    meta: &ParsedMetadata,
    fs_mtime: i64,
    thumb_path: &str,
    datetime: DateTime,
) -> (r: Result<Image, StorageError>)
    requires
        repo_wf(old(repo)@),
    ensures
        repo_wf(final(repo)@),
        r is Ok <==> ingest_capacity(old(repo)@, meta.raw_tag_paths@.len() as int),
        match r {
            Result::Ok(img) => {
                let g = spec_ingest(
                    old(repo)@,
                    path@,
                    meta@,
                    fs_mtime as int,
                    thumb_path@,
                    datetime,
                );
                final(repo)@ == g.0 && img@ == g.1
            },
            Result::Err(e) => e == StorageError::IdSpaceExhausted && final(repo)@ == old(repo)@,
        },
{
    let n_paths = meta.raw_tag_paths.len();
    if !repo.has_capacity(n_paths) {
        return Err(StorageError::IdSpaceExhausted);
    }
    let ghost g = spec_ingest(old(repo)@, path@, meta@, fs_mtime as int, thumb_path@, datetime);
    let ghost u = spec_upsert_image(
        old(repo)@,
        path@,
        meta@.rating,
        fs_mtime as int,
        thumb_path@,
        datetime,
    );
    proof {
        lemma_upsert_image_wf(
            old(repo)@,
            path@,
            meta@.rating,
            fs_mtime as int,
            thumb_path@,
            datetime,
        );
    }
    let img: Image = match repo.find_by_path(path) {
        Some(existing) => {
            let id = existing.id;
            repo.update_image(id, meta.rating, fs_mtime, thumb_path.to_owned(), datetime);
            Image {
                id,
                path: existing.path,
                rating: meta.rating,
                last_modified: fs_mtime,
                thumb_path: thumb_path.to_owned(),
                datetime,
            }
        },
        None => {
            let new_image = NewImage {
                path: path.to_owned(),
                rating: meta.rating,
                last_modified: fs_mtime,
                thumb_path: thumb_path.to_owned(),
                datetime,
            };
            repo.insert_image(new_image)
        },
    };
    proof {
        assert(repo@ == u.0);
        assert(img@ == u.1);
        lemma_normalize_wf(u.0, meta@.raw_tag_paths);
    }
    let tags = repo.normalize_tags(&meta.raw_tag_paths);
    let ghost nm = spec_normalize(u.0, meta@.raw_tag_paths);
    proof {
        assert(repo@ == nm.0);
        assert(tags.deep_view() == nm.1);
        lemma_link_all_wf(nm.0, u.1.id, nm.1);
    }
    let mut j: usize = 0;
    while j < tags.len()
        invariant
            j <= tags.len(),
            repo_wf(nm.0),
            tags.deep_view() == nm.1,
            nm.1.len() == tags.len(),
            img@ == u.1,
            img.id as int == u.1.id,
            nm.0.next_link_id + nm.1.len() <= i32::MAX,
            repo@ == spec_link_all(nm.0, u.1.id, nm.1.take(j as int)),
        decreases tags.len() - j,
    {
        proof {
            lemma_link_all_wf(nm.0, u.1.id, nm.1.take(j as int));
            assert(nm.1.take(j + 1).drop_last() =~= nm.1.take(j as int));
            assert(nm.1.take(j + 1).last() == nm.1[j as int]);
            assert(tags[j as int]@ == nm.1[j as int]);
        }
        let tag_id = tags[j].id;
        repo.link_image_tag(img.id, tag_id);
        j = j + 1;
    }
    proof {
        assert(nm.1.take(nm.1.len() as int) =~= nm.1);
        assert(repo@ == g.0);
        lemma_link_all_wf(nm.0, u.1.id, nm.1);
    }
    Ok(img)
}

} // verus!
