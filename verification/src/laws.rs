//! The guarantees that tie the pieces together, stated and proved over the
//! store model: deduplication is idempotent and content-exact, and an
//! ingestion leaves a record that a second pass finds fresh and keeps
//! identity across reprocessing.

use vstd::prelude::*;
use crate::datetime::DateTime;
use crate::pipeline::{image_table_wf, lemma_upsert_found, spec_ingest, spec_plan,
    spec_upsert_image};
use crate::repo::{
    find_tag_by_content, has_link, lemma_find_or_insert_tag_unique, lemma_find_tag_char,
    lemma_find_tag_hit, lemma_link_all_keeps_rest, lemma_link_all_links,
    lemma_normalize_keeps_rest, spec_find_or_insert_tag, spec_insert_tag, spec_normalize,
    tag_table_wf, RepoModel, TagModel,
};
use crate::sidecar::MetadataView;

verus! {

/// Resolving the same content sequence twice yields the same tag identity
/// both times, and the second resolution changes nothing: deduplication is
/// idempotent.
pub proof fn lemma_normalize_idempotent(m: RepoModel, content: Seq<Seq<char>>)
    ensures
        ({
            let r1 = spec_find_or_insert_tag(m, content);
            let r2 = spec_find_or_insert_tag(r1.0, content);
            r2.0 == r1.0 && r2.1 == r1.1
        }),
{
    lemma_find_tag_char(m.tags, content);
    match find_tag_by_content(m.tags, content) {
        Option::Some(t) => {},
        Option::None => {
            let t = spec_insert_tag(m, content).1;
            let tags1 = spec_insert_tag(m, content).0.tags;
            assert(tags1[m.tags.len() as int] == t);
            assert forall|j: int| 0 <= j < m.tags.len() implies tags1[j].content != content by {
                assert(tags1[j] == m.tags[j]);
            }
            lemma_find_tag_hit(tags1, content, m.tags.len() as int);
        },
    }
}

/// The same holds of a whole raw tag path: normalizing it a second time
/// against the storage the first pass left behind resolves to the same tag
/// identity and changes nothing.
pub proof fn lemma_normalize_path_idempotent(m: RepoModel, raw_path: Seq<char>)
    ensures
        ({
            let n1 = spec_normalize(m, seq![raw_path]);
            let n2 = spec_normalize(n1.0, seq![raw_path]);
            n2.0 == n1.0 && n2.1 == n1.1
        }),
{
    let one = seq![raw_path];
    let content = crate::text::spec_split(raw_path, '|');
    let r1 = spec_find_or_insert_tag(m, content);
    let r2 = spec_find_or_insert_tag(r1.0, content);
    assert(one.drop_last() =~= Seq::<Seq<char>>::empty());
    assert(one.last() == raw_path);
    assert(spec_normalize(m, Seq::<Seq<char>>::empty()) == (m, Seq::<TagModel>::empty()));
    assert(spec_normalize(m, one) == (r1.0, Seq::<TagModel>::empty().push(r1.1)));
    assert(spec_normalize(r1.0, Seq::<Seq<char>>::empty()) == (r1.0, Seq::<TagModel>::empty()));
    assert(spec_normalize(r1.0, one) == (r2.0, Seq::<TagModel>::empty().push(r2.1)));
    lemma_normalize_idempotent(m, content);
}

/// Two content sequences that differ in any way, letter case included,
/// resolve to two different tag identities: deduplication compares the full
/// sequence exactly. Only the tag table's own validity is assumed; the
/// store invariant implies it.
pub proof fn lemma_distinct_contents_distinct_tags(
    m: RepoModel,
    c1: Seq<Seq<char>>,
    c2: Seq<Seq<char>>,
)
    requires
        tag_table_wf(m.tags, m.next_tag_id),
        c1 != c2,
    ensures
        ({
            let r1 = spec_find_or_insert_tag(m, c1);
            let r2 = spec_find_or_insert_tag(r1.0, c2);
            r1.1.content == c1 && r2.1.content == c2 && r1.1.id != r2.1.id
        }),
{
    lemma_find_or_insert_tag_unique(m, c1);
    let r1 = spec_find_or_insert_tag(m, c1);
    lemma_find_or_insert_tag_unique(r1.0, c2);
    let r2 = spec_find_or_insert_tag(r1.0, c2);
    let i1 = choose|i: int| 0 <= i < r1.0.tags.len() && #[trigger] r1.0.tags[i] == r1.1;
    let i2 = choose|i: int| 0 <= i < r2.0.tags.len() && #[trigger] r2.0.tags[i] == r2.1;
    assert(r2.0.tags[i1] == r1.0.tags[i1]);
    if r1.1.id == r2.1.id {
        if i1 == i2 {
            assert(r1.1 == r2.1);
        } else {
            assert(r2.0.tags[i1].id != r2.0.tags[i2].id);
        }
        assert(false);
    }
}

/// After an ingestion at some modification time, the same candidate at the
/// same time is fresh: the plan hands back the very record the ingestion
/// stored, so a second pass parses nothing, derives nothing, and writes
/// nothing, and the identity it reports is unchanged. Only unique paths are
/// assumed; the store invariant implies that.
pub proof fn lemma_process_twice_fresh(
    m: RepoModel,
    path: Seq<char>,
    meta: MetadataView,
    mtime: int,
    thumb: Seq<char>,
    dt: DateTime,
)
    requires
        image_table_wf(m.images),
    ensures
        ({
            let g = spec_ingest(m, path, meta, mtime, thumb, dt);
            spec_plan(g.0, path, mtime) == Option::Some(g.1)
        }),
{
    lemma_upsert_found(m, path, meta.rating, mtime, thumb, dt);
    let u = spec_upsert_image(m, path, meta.rating, mtime, thumb, dt);
    lemma_normalize_keeps_rest(u.0, meta.raw_tag_paths);
    let n = spec_normalize(u.0, meta.raw_tag_paths);
    lemma_link_all_keeps_rest(n.0, u.1.id, n.1);
}

/// Reprocessing a candidate whose record exists keeps the record's identity
/// while giving it the new rating, modification time, thumbnail path, and
/// capture time; every tag the new sidecar carries ends up linked to that
/// same identity. Nothing beyond the record's existence is assumed.
pub proof fn lemma_reingest_keeps_identity(
    m: RepoModel,
    path: Seq<char>,
    meta: MetadataView,
    mtime: int,
    thumb: Seq<char>,
    dt: DateTime,
)
    requires
        crate::repo::find_image_by_path(m.images, path) is Some,
    ensures
        ({
            let g = spec_ingest(m, path, meta, mtime, thumb, dt);
            let old_img = crate::repo::find_image_by_path(m.images, path)->0;
            let u = spec_upsert_image(m, path, meta.rating, mtime, thumb, dt);
            let n = spec_normalize(u.0, meta.raw_tag_paths);
            &&& g.1.id == old_img.id
            &&& g.1.rating == meta.rating
            &&& g.1.last_modified == mtime
            &&& g.1.thumb_path == thumb
            &&& g.1.datetime == dt
            &&& n.1.len() == meta.raw_tag_paths.len()
            &&& forall|k: int|
                0 <= k < n.1.len() ==> has_link(g.0.links, g.1.id, #[trigger] n.1[k].id)
        }),
{
    let u = spec_upsert_image(m, path, meta.rating, mtime, thumb, dt);
    lemma_normalize_keeps_rest(u.0, meta.raw_tag_paths);
    let n = spec_normalize(u.0, meta.raw_tag_paths);
    lemma_link_all_links(n.0, u.1.id, n.1);
}

} // verus!
