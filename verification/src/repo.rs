//! The persistence model: image records keyed by path, tag records keyed by
//! their content sequence, and the many-to-many links between them. Identities
//! are assigned by the store on first insert and never change; a path names at
//! most one image, a content sequence at most one tag, and a link pair is
//! never duplicated.

use vstd::prelude::*;
use vstd::pervasive::VecAdditionalExecFns;
use crate::datetime::DateTime;
use crate::text::{str_eq, split_str, spec_split};

verus! {

/// A stored image record.
#[derive(Debug)]
pub struct Image {
    pub id: i32,
    pub path: String,
    pub rating: i32,
    pub last_modified: i64,
    pub thumb_path: String,
    pub datetime: DateTime,
}

pub struct ImageModel {
    pub id: int,
    pub path: Seq<char>,
    pub rating: int,
    pub last_modified: int,
    pub thumb_path: Seq<char>,
    pub datetime: DateTime,
}

impl View for Image {
    type V = ImageModel;

    open spec fn view(&self) -> ImageModel {
        ImageModel {
            id: self.id as int,
            path: self.path@,
            rating: self.rating as int,
            last_modified: self.last_modified as int,
            thumb_path: self.thumb_path@,
            datetime: self.datetime,
        }
    }
}

impl DeepView for Image {
    type V = ImageModel;

    open spec fn deep_view(&self) -> ImageModel {
        self@
    }
}

impl Clone for Image {
    fn clone(&self) -> (r: Self)
        ensures
            r@ == self@,
    {
        Image {
            id: self.id,
            path: self.path.clone(),
            rating: self.rating,
            last_modified: self.last_modified,
            thumb_path: self.thumb_path.clone(),
            datetime: self.datetime,
        }
    }
}

/// What a new image record holds before the store assigns its identity.
#[derive(Debug)]
pub struct NewImage {
    pub path: String,
    pub rating: i32,
    pub last_modified: i64,
    pub thumb_path: String,
    pub datetime: DateTime,
}

pub struct NewImageModel {
    pub path: Seq<char>,
    pub rating: int,
    pub last_modified: int,
    pub thumb_path: Seq<char>,
    pub datetime: DateTime,
}

impl View for NewImage {
    type V = NewImageModel;

    open spec fn view(&self) -> NewImageModel {
        NewImageModel {
            path: self.path@,
            rating: self.rating as int,
            last_modified: self.last_modified as int,
            thumb_path: self.thumb_path@,
            datetime: self.datetime,
        }
    }
}

/// A stored tag: one hierarchical path, root segment first.
#[derive(Debug)]
pub struct Tag {
    pub id: i32,
    pub content: Vec<String>,
}

pub struct TagModel {
    pub id: int,
    pub content: Seq<Seq<char>>,
}

impl View for Tag {
    type V = TagModel;

    open spec fn view(&self) -> TagModel {
        TagModel { id: self.id as int, content: self.content.deep_view() }
    }
}

impl DeepView for Tag {
    type V = TagModel;

    open spec fn deep_view(&self) -> TagModel {
        self@
    }
}

impl Clone for Tag {
    fn clone(&self) -> (r: Self)
        ensures
            r@ == self@,
    {
        let content = clone_strings(&self.content);
        Tag { id: self.id, content }
    }
}

/// Clone a vector of strings, character for character.
fn clone_strings(v: &Vec<String>) -> (r: Vec<String>)
    ensures
        r.deep_view() == v.deep_view(),
{
    let mut r: Vec<String> = Vec::new();
    let mut i: usize = 0;
    while i < v.len()
        invariant
            i <= v.len(),
            r.deep_view() =~= v.deep_view().take(i as int),
        decreases v.len() - i,
    {
        let ghost prev = r.deep_view();
        let x = v[i].clone();
        r.push(x);
        proof {
            assert(x@ == v@[i as int]@);
            assert forall|j: int| 0 <= j < prev.len() + 1 implies r.deep_view()[j] == v.deep_view().take(
                i + 1,
            )[j] by {
                if j < i {
                    assert(r.deep_view()[j] == prev[j]);
                } else {
                    assert(r.deep_view()[j] == x@);
                }
            }
            assert(r.deep_view() =~= v.deep_view().take(i + 1));
        }
        i = i + 1;
    }
    proof {
        assert(v.deep_view().take(v.len() as int) =~= v.deep_view());
    }
    r
}

/// What a new tag holds before the store assigns its identity.
#[derive(Debug)]
pub struct NewTag {
    pub content: Vec<String>,
}

/// A stored image-tag link.
#[derive(Clone, Copy, PartialEq, Eq, Structural, Debug)]
pub struct ImageTag {
    pub id: i32,
    pub image_id: i32,
    pub tag_id: i32,
}

pub struct LinkModel {
    pub id: int,
    pub image_id: int,
    pub tag_id: int,
}

impl View for ImageTag {
    type V = LinkModel;

    open spec fn view(&self) -> LinkModel {
        LinkModel { id: self.id as int, image_id: self.image_id as int, tag_id: self.tag_id as int }
    }
}

impl DeepView for ImageTag {
    type V = LinkModel;

    open spec fn deep_view(&self) -> LinkModel {
        self@
    }
}

/// What a new link holds before the store assigns its identity.
#[derive(Clone, Copy, PartialEq, Eq, Structural, Debug)]
pub struct NewImageTag {
    pub image_id: i32,
    pub tag_id: i32,
}

/// Why a storage operation was refused.
#[derive(Clone, Copy, PartialEq, Eq, Structural, Debug)]
pub enum StorageError {
    /// No identity is left to assign.
    IdSpaceExhausted,
}

/// The whole store, as contracts see it.
pub struct RepoModel {
    pub images: Seq<ImageModel>,
    pub tags: Seq<TagModel>,
    pub links: Seq<LinkModel>,
    pub next_image_id: int,
    pub next_tag_id: int,
    pub next_link_id: int,
}

/// The store: all records in memory, identities counted up from one.
pub struct Repository {
    images: Vec<Image>,
    tags: Vec<Tag>,
    links: Vec<ImageTag>,
    next_image_id: i32,
    next_tag_id: i32,
    next_link_id: i32,
}

impl View for Repository {
    type V = RepoModel;

    closed spec fn view(&self) -> RepoModel {
        RepoModel {
            images: self.images.deep_view(),
            tags: self.tags.deep_view(),
            links: self.links.deep_view(),
            next_image_id: self.next_image_id as int,
            next_tag_id: self.next_tag_id as int,
            next_link_id: self.next_link_id as int,
        }
    }
}

/// The first image whose path is `path`.
pub open spec fn find_image_by_path(images: Seq<ImageModel>, path: Seq<char>) -> Option<ImageModel>
    decreases images.len(),
{
    if images.len() == 0 {
        Option::None
    } else if images[0].path == path {
        Option::Some(images[0])
    } else {
        find_image_by_path(images.drop_first(), path)
    }
}

/// The first tag whose content is `content`.
pub open spec fn find_tag_by_content(tags: Seq<TagModel>, content: Seq<Seq<char>>) -> Option<
    TagModel,
>
    decreases tags.len(),
{
    if tags.len() == 0 {
        Option::None
    } else if tags[0].content == content {
        Option::Some(tags[0])
    } else {
        find_tag_by_content(tags.drop_first(), content)
    }
}

/// Whether the pair (image, tag) is already linked.
pub open spec fn has_link(links: Seq<LinkModel>, image_id: int, tag_id: int) -> bool
    decreases links.len(),
{
    if links.len() == 0 {
        false
    } else if links[0].image_id == image_id && links[0].tag_id == tag_id {
        true
    } else {
        has_link(links.drop_first(), image_id, tag_id)
    }
}

/// A scan that matched at `i` after missing everywhere before it has found
/// the first image with this path.
pub proof fn lemma_find_image_hit(images: Seq<ImageModel>, path: Seq<char>, i: int)
    requires
        0 <= i < images.len(),
        images[i].path == path,
        forall|j: int| 0 <= j < i ==> images[j].path != path,
    ensures
        find_image_by_path(images, path) == Option::Some(images[i]),
    decreases i,
{
    if i > 0 {
        lemma_find_image_hit(images.drop_first(), path, i - 1);
    }
}

pub proof fn lemma_find_image_miss(images: Seq<ImageModel>, path: Seq<char>)
    requires
        forall|j: int| 0 <= j < images.len() ==> images[j].path != path,
    ensures
        find_image_by_path(images, path) is None,
    decreases images.len(),
{
    if images.len() > 0 {
        lemma_find_image_miss(images.drop_first(), path);
    }
}

/// What a find outcome says about the whole table.
pub proof fn lemma_find_image_char(images: Seq<ImageModel>, path: Seq<char>)
    ensures
        match find_image_by_path(images, path) {
            Option::None => forall|j: int| 0 <= j < images.len() ==> images[j].path != path,
            Option::Some(im) => im.path == path && exists|i: int|
                0 <= i < images.len() && images[i] == im,
        },
    decreases images.len(),
{
    if images.len() > 0 {
        lemma_find_image_char(images.drop_first(), path);
        if images[0].path != path {
            match find_image_by_path(images, path) {
                Option::None => {
                    assert forall|j: int| 0 <= j < images.len() implies images[j].path != path by {
                        if j > 0 {
                            assert(images.drop_first()[j - 1] == images[j]);
                        }
                    }
                },
                Option::Some(im) => {
                    let i0 = choose|i: int|
                        0 <= i < images.drop_first().len() && images.drop_first()[i] == im;
                    assert(images[i0 + 1] == im);
                },
            }
        }
    }
}

pub proof fn lemma_find_tag_hit(tags: Seq<TagModel>, content: Seq<Seq<char>>, i: int)
    requires
        0 <= i < tags.len(),
        tags[i].content == content,
        forall|j: int| 0 <= j < i ==> tags[j].content != content,
    ensures
        find_tag_by_content(tags, content) == Option::Some(tags[i]),
    decreases i,
{
    if i > 0 {
        lemma_find_tag_hit(tags.drop_first(), content, i - 1);
    }
}

pub proof fn lemma_find_tag_miss(tags: Seq<TagModel>, content: Seq<Seq<char>>)
    requires
        forall|j: int| 0 <= j < tags.len() ==> tags[j].content != content,
    ensures
        find_tag_by_content(tags, content) is None,
    decreases tags.len(),
{
    if tags.len() > 0 {
        lemma_find_tag_miss(tags.drop_first(), content);
    }
}

pub proof fn lemma_find_tag_char(tags: Seq<TagModel>, content: Seq<Seq<char>>)
    ensures
        match find_tag_by_content(tags, content) {
            Option::None => forall|j: int| 0 <= j < tags.len() ==> tags[j].content != content,
            Option::Some(t) => t.content == content && exists|i: int|
                0 <= i < tags.len() && tags[i] == t,
        },
    decreases tags.len(),
{
    if tags.len() > 0 {
        lemma_find_tag_char(tags.drop_first(), content);
        if tags[0].content != content {
            match find_tag_by_content(tags, content) {
                Option::None => {
                    assert forall|j: int| 0 <= j < tags.len() implies tags[j].content != content by {
                        if j > 0 {
                            assert(tags.drop_first()[j - 1] == tags[j]);
                        }
                    }
                },
                Option::Some(t) => {
                    let i0 = choose|i: int|
                        0 <= i < tags.drop_first().len() && tags.drop_first()[i] == t;
                    assert(tags[i0 + 1] == t);
                },
            }
        }
    }
}

pub proof fn lemma_has_link_hit(links: Seq<LinkModel>, image_id: int, tag_id: int, i: int)
    requires
        0 <= i < links.len(),
        links[i].image_id == image_id,
        links[i].tag_id == tag_id,
    ensures
        has_link(links, image_id, tag_id),
    decreases i,
{
    if i > 0 {
        lemma_has_link_hit(links.drop_first(), image_id, tag_id, i - 1);
    }
}

pub proof fn lemma_has_link_miss(links: Seq<LinkModel>, image_id: int, tag_id: int)
    requires
        forall|j: int|
            0 <= j < links.len() ==> !(links[j].image_id == image_id && links[j].tag_id == tag_id),
    ensures
        !has_link(links, image_id, tag_id),
    decreases links.len(),
{
    if links.len() > 0 {
        lemma_has_link_miss(links.drop_first(), image_id, tag_id);
    }
}

pub proof fn lemma_has_link_char(links: Seq<LinkModel>, image_id: int, tag_id: int)
    ensures
        has_link(links, image_id, tag_id) <==> exists|i: int|
            0 <= i < links.len() && links[i].image_id == image_id && #[trigger] links[i].tag_id
                == tag_id,
    decreases links.len(),
{
    if links.len() > 0 {
        lemma_has_link_char(links.drop_first(), image_id, tag_id);
        if !(links[0].image_id == image_id && links[0].tag_id == tag_id) {
            if has_link(links, image_id, tag_id) {
                let i0 = choose|i: int|
                    0 <= i < links.drop_first().len() && links.drop_first()[i].image_id == image_id
                        && #[trigger] links.drop_first()[i].tag_id == tag_id;
                assert(links[i0 + 1].image_id == image_id && links[i0 + 1].tag_id == tag_id);
            } else {
                assert forall|i: int|
                    0 <= i < links.len() && links[i].image_id == image_id implies #[trigger] links[i].tag_id
                    != tag_id by {
                    if i > 0 {
                        assert(links.drop_first()[i - 1] == links[i]);
                    }
                }
            }
        } else {
            assert(links[0].image_id == image_id && links[0].tag_id == tag_id);
        }
    }
}

/// The store's invariant: identities unique and below their counters, paths
/// unique among images, content sequences unique among tags, link pairs
/// unique.
pub open spec fn repo_wf(m: RepoModel) -> bool {
    &&& forall|i: int, j: int|
        #![trigger m.images[i], m.images[j]]
        0 <= i < j < m.images.len() ==> m.images[i].id != m.images[j].id && m.images[i].path
            != m.images[j].path
    &&& forall|i: int|
        #![trigger m.images[i]]
        0 <= i < m.images.len() ==> 1 <= m.images[i].id < m.next_image_id
    &&& forall|i: int, j: int|
        #![trigger m.tags[i], m.tags[j]]
        0 <= i < j < m.tags.len() ==> m.tags[i].id != m.tags[j].id && m.tags[i].content
            != m.tags[j].content
    &&& forall|i: int| #![trigger m.tags[i]] 0 <= i < m.tags.len() ==> 1 <= m.tags[i].id < m.next_tag_id
    &&& forall|i: int, j: int|
        #![trigger m.links[i], m.links[j]]
        0 <= i < j < m.links.len() ==> !(m.links[i].image_id == m.links[j].image_id
            && m.links[i].tag_id == m.links[j].tag_id)
    &&& forall|i: int|
        #![trigger m.links[i]]
        0 <= i < m.links.len() ==> 1 <= m.links[i].id < m.next_link_id
    &&& 1 <= m.next_image_id <= i32::MAX
    &&& 1 <= m.next_tag_id <= i32::MAX
    &&& 1 <= m.next_link_id <= i32::MAX
}

/// The empty store.
pub open spec fn empty_repo() -> RepoModel {
    RepoModel {
        images: Seq::empty(),
        tags: Seq::empty(),
        links: Seq::empty(),
        next_image_id: 1,
        next_tag_id: 1,
        next_link_id: 1,
    }
}

/// Whether one ingestion that may insert an image, `n_paths` tags, and
/// `n_paths` links still has identities to assign.
pub open spec fn ingest_capacity(m: RepoModel, n_paths: int) -> bool {
    &&& m.next_image_id < i32::MAX
    &&& m.next_tag_id + n_paths <= i32::MAX
    &&& m.next_link_id + n_paths <= i32::MAX
}

/// Compare two content sequences character for character.
pub fn contents_equal(a: &Vec<String>, b: &Vec<String>) -> (r: bool)
    ensures
        r == (a.deep_view() == b.deep_view()),
{
    if a.len() != b.len() {
        proof {
            assert(a.deep_view().len() == a.len());
            assert(b.deep_view().len() == b.len());
        }
        return false;
    }
    let mut i: usize = 0;
    while i < a.len()
        invariant
            i <= a.len(),
            a.len() == b.len(),
            forall|j: int| 0 <= j < i ==> a.deep_view()[j] == b.deep_view()[j],
        decreases a.len() - i,
    {
        if !str_eq(a[i].as_str(), b[i].as_str()) {
            proof {
                assert(a.deep_view()[i as int] != b.deep_view()[i as int]);
            }
            return false;
        }
        i = i + 1;
    }
    proof {
        assert(a.deep_view() =~= b.deep_view());
    }
    true
}

/// Inserting an image: the record takes the next identity and goes at the
/// end; nothing else moves.
pub open spec fn spec_insert_image(m: RepoModel, nv: NewImageModel) -> (RepoModel, ImageModel) {
    let img = ImageModel {
        id: m.next_image_id,
        path: nv.path,
        rating: nv.rating,
        last_modified: nv.last_modified,
        thumb_path: nv.thumb_path,
        datetime: nv.datetime,
    };
    (RepoModel { images: m.images.push(img), next_image_id: m.next_image_id + 1, ..m }, img)
}

/// Updating an image in place: the record keeping this identity gets the new
/// fields; its identity and path stay.
pub open spec fn spec_update_image(
    m: RepoModel,
    id: int,
    rating: int,
    last_modified: int,
    thumb_path: Seq<char>,
    datetime: DateTime,
) -> RepoModel {
    RepoModel {
        images: m.images.map_values(
            |im: ImageModel|
                if im.id == id {
                    ImageModel { rating, last_modified, thumb_path, datetime, ..im }
                } else {
                    im
                },
        ),
        ..m
    }
}

/// Inserting a tag: the record takes the next identity and goes at the end.
pub open spec fn spec_insert_tag(m: RepoModel, content: Seq<Seq<char>>) -> (RepoModel, TagModel) {
    let t = TagModel { id: m.next_tag_id, content };
    (RepoModel { tags: m.tags.push(t), next_tag_id: m.next_tag_id + 1, ..m }, t)
}

/// Deduplicating find-or-insert: an existing tag with exactly this content
/// sequence is reused, otherwise a new one is inserted. Equality is the full
/// segment sequence, character for character — letter case included, and no
/// prefix or single-segment match counts. Tag rows are never deleted.
pub open spec fn spec_find_or_insert_tag(m: RepoModel, content: Seq<Seq<char>>) -> (
    RepoModel,
    TagModel,
) {
    match find_tag_by_content(m.tags, content) {
        Option::Some(t) => (m, t),
        Option::None => spec_insert_tag(m, content),
    }
}

/// Linking an image to a tag: a pair already present is left alone, a new
/// pair goes at the end.
pub open spec fn spec_add_link(m: RepoModel, image_id: int, tag_id: int) -> RepoModel {
    if has_link(m.links, image_id, tag_id) {
        m
    } else {
        RepoModel {
            links: m.links.push(LinkModel { id: m.next_link_id, image_id, tag_id }),
            next_link_id: m.next_link_id + 1,
            ..m
        }
    }
}

/// Normalizing raw tag paths, left to right: each is split on `|` and
/// resolved through the deduplicating find-or-insert.
pub open spec fn spec_normalize(m: RepoModel, raw_paths: Seq<Seq<char>>) -> (
    RepoModel,
    Seq<TagModel>,
)
    decreases raw_paths.len(),
{
    if raw_paths.len() == 0 {
        (m, Seq::empty())
    } else {
        let r1 = spec_normalize(m, raw_paths.drop_last());
        let r2 = spec_find_or_insert_tag(r1.0, spec_split(raw_paths.last(), '|'));
        (r2.0, r1.1.push(r2.1))
    }
}

/// Linking an image to every tag of a list, left to right.
pub open spec fn spec_link_all(m: RepoModel, image_id: int, tags: Seq<TagModel>) -> RepoModel
    decreases tags.len(),
{
    if tags.len() == 0 {
        m
    } else {
        spec_add_link(spec_link_all(m, image_id, tags.drop_last()), image_id, tags.last().id)
    }
}

pub proof fn lemma_insert_image_wf(m: RepoModel, nv: NewImageModel)
    requires
        repo_wf(m),
        m.next_image_id < i32::MAX,
        find_image_by_path(m.images, nv.path) is None,
    ensures
        repo_wf(spec_insert_image(m, nv).0),
{
    lemma_find_image_char(m.images, nv.path);
    let m1 = spec_insert_image(m, nv).0;
    let img = spec_insert_image(m, nv).1;
    assert forall|i: int, j: int|
        #![trigger m1.images[i], m1.images[j]]
        0 <= i < j < m1.images.len() implies m1.images[i].id != m1.images[j].id
        && m1.images[i].path != m1.images[j].path by {
        if j == m.images.len() {
            assert(m1.images[j] == img);
            assert(m1.images[i] == m.images[i]);
        } else {
            assert(m1.images[i] == m.images[i]);
            assert(m1.images[j] == m.images[j]);
        }
    }
    assert forall|i: int| #![trigger m1.images[i]] 0 <= i < m1.images.len() implies 1
        <= m1.images[i].id < m1.next_image_id by {
        if i < m.images.len() {
            assert(m1.images[i] == m.images[i]);
        }
    }
}

pub proof fn lemma_update_image_wf(
    m: RepoModel,
    id: int,
    rating: int,
    last_modified: int,
    thumb_path: Seq<char>,
    datetime: DateTime,
)
    requires
        repo_wf(m),
    ensures
        repo_wf(spec_update_image(m, id, rating, last_modified, thumb_path, datetime)),
{
    let m1 = spec_update_image(m, id, rating, last_modified, thumb_path, datetime);
    assert forall|i: int, j: int|
        #![trigger m1.images[i], m1.images[j]]
        0 <= i < j < m1.images.len() implies m1.images[i].id != m1.images[j].id
        && m1.images[i].path != m1.images[j].path by {
        assert(m1.images[i].id == m.images[i].id && m1.images[i].path == m.images[i].path);
        assert(m1.images[j].id == m.images[j].id && m1.images[j].path == m.images[j].path);
    }
    assert forall|i: int| #![trigger m1.images[i]] 0 <= i < m1.images.len() implies 1
        <= m1.images[i].id < m1.next_image_id by {
        assert(m1.images[i].id == m.images[i].id);
    }
}

pub proof fn lemma_insert_tag_wf(m: RepoModel, content: Seq<Seq<char>>)
    requires
        repo_wf(m),
        m.next_tag_id < i32::MAX,
        find_tag_by_content(m.tags, content) is None,
    ensures
        repo_wf(spec_insert_tag(m, content).0),
{
    lemma_find_tag_char(m.tags, content);
    let m1 = spec_insert_tag(m, content).0;
    let t = spec_insert_tag(m, content).1;
    assert forall|i: int, j: int|
        #![trigger m1.tags[i], m1.tags[j]]
        0 <= i < j < m1.tags.len() implies m1.tags[i].id != m1.tags[j].id && m1.tags[i].content
        != m1.tags[j].content by {
        if j == m.tags.len() {
            assert(m1.tags[j] == t);
            assert(m1.tags[i] == m.tags[i]);
        } else {
            assert(m1.tags[i] == m.tags[i]);
            assert(m1.tags[j] == m.tags[j]);
        }
    }
    assert forall|i: int| #![trigger m1.tags[i]] 0 <= i < m1.tags.len() implies 1 <= m1.tags[i].id
        < m1.next_tag_id by {
        if i < m.tags.len() {
            assert(m1.tags[i] == m.tags[i]);
        }
    }
}

pub proof fn lemma_find_or_insert_tag_wf(m: RepoModel, content: Seq<Seq<char>>)
    requires
        repo_wf(m),
        m.next_tag_id < i32::MAX,
    ensures
        repo_wf(spec_find_or_insert_tag(m, content).0),
        m.tags.is_prefix_of(spec_find_or_insert_tag(m, content).0.tags),
        m.next_tag_id <= spec_find_or_insert_tag(m, content).0.next_tag_id <= m.next_tag_id + 1,
        spec_find_or_insert_tag(m, content).0.images == m.images,
        spec_find_or_insert_tag(m, content).0.links == m.links,
        spec_find_or_insert_tag(m, content).0.next_image_id == m.next_image_id,
        spec_find_or_insert_tag(m, content).0.next_link_id == m.next_link_id,
        spec_find_or_insert_tag(m, content).1.content == content,
        1 <= spec_find_or_insert_tag(m, content).1.id < spec_find_or_insert_tag(
            m,
            content,
        ).0.next_tag_id,
        exists|i: int|
            0 <= i < spec_find_or_insert_tag(m, content).0.tags.len()
                && #[trigger] spec_find_or_insert_tag(m, content).0.tags[i]
                == spec_find_or_insert_tag(m, content).1,
{
    lemma_find_tag_char(m.tags, content);
    match find_tag_by_content(m.tags, content) {
        Option::Some(t) => {
            let i = choose|i: int| 0 <= i < m.tags.len() && m.tags[i] == t;
            assert(1 <= m.tags[i].id < m.next_tag_id);
            assert(m.tags.is_prefix_of(m.tags));
            assert(spec_find_or_insert_tag(m, content).0.tags[i] == spec_find_or_insert_tag(
                m,
                content,
            ).1);
        },
        Option::None => {
            lemma_insert_tag_wf(m, content);
            assert(m.tags.is_prefix_of(spec_insert_tag(m, content).0.tags));
            assert(spec_find_or_insert_tag(m, content).0.tags[m.tags.len() as int]
                == spec_find_or_insert_tag(m, content).1);
        },
    }
}

/// The tag table's own validity, free of any counter bound: identities and
/// content sequences pairwise distinct, identities below the counter. The
/// store invariant `repo_wf` implies it.
pub open spec fn tag_table_wf(tags: Seq<TagModel>, next_tag_id: int) -> bool {
    &&& forall|i: int, j: int|
        #![trigger tags[i], tags[j]]
        0 <= i < j < tags.len() ==> tags[i].id != tags[j].id && tags[i].content != tags[j].content
    &&& forall|i: int| #![trigger tags[i]] 0 <= i < tags.len() ==> tags[i].id < next_tag_id
}

/// The deduplicating find-or-insert keeps the tag table valid and returns
/// one of its rows, under no assumption but the table's own validity.
pub proof fn lemma_find_or_insert_tag_unique(m: RepoModel, content: Seq<Seq<char>>)
    requires
        tag_table_wf(m.tags, m.next_tag_id),
    ensures
        ({
            let r = spec_find_or_insert_tag(m, content);
            &&& tag_table_wf(r.0.tags, r.0.next_tag_id)
            &&& r.1.content == content
            &&& r.1.id < r.0.next_tag_id
            &&& m.next_tag_id <= r.0.next_tag_id
            &&& exists|i: int| 0 <= i < r.0.tags.len() && #[trigger] r.0.tags[i] == r.1
            &&& m.tags.is_prefix_of(r.0.tags)
        }),
{
    lemma_find_tag_char(m.tags, content);
    let r = spec_find_or_insert_tag(m, content);
    match find_tag_by_content(m.tags, content) {
        Option::Some(t) => {
            let i = choose|i: int| 0 <= i < m.tags.len() && m.tags[i] == t;
            assert(m.tags[i].id < m.next_tag_id);
            assert(r.0.tags[i] == r.1);
            assert(m.tags.is_prefix_of(m.tags));
        },
        Option::None => {
            let t = spec_insert_tag(m, content).1;
            assert(r.0.tags[m.tags.len() as int] == r.1);
            assert forall|i: int, j: int|
                #![trigger r.0.tags[i], r.0.tags[j]]
                0 <= i < j < r.0.tags.len() implies r.0.tags[i].id != r.0.tags[j].id
                && r.0.tags[i].content != r.0.tags[j].content by {
                if j == m.tags.len() {
                    assert(r.0.tags[j] == t);
                    assert(r.0.tags[i] == m.tags[i]);
                } else {
                    assert(r.0.tags[i] == m.tags[i]);
                    assert(r.0.tags[j] == m.tags[j]);
                }
            }
            assert forall|i: int| #![trigger r.0.tags[i]] 0 <= i < r.0.tags.len() implies r.0.tags[i].id
                < r.0.next_tag_id by {
                if i < m.tags.len() {
                    assert(r.0.tags[i] == m.tags[i]);
                }
            }
            assert(m.tags.is_prefix_of(r.0.tags));
        },
    }
}

/// After linking a list of tags, every one of its pairs is linked; no
/// assumption on the store is needed.
pub proof fn lemma_link_all_links(m: RepoModel, image_id: int, tags: Seq<TagModel>)
    ensures
        forall|k: int|
            0 <= k < tags.len() ==> has_link(
                spec_link_all(m, image_id, tags).links,
                image_id,
                #[trigger] tags[k].id,
            ),
    decreases tags.len(),
{
    if tags.len() > 0 {
        lemma_link_all_links(m, image_id, tags.drop_last());
        let m1 = spec_link_all(m, image_id, tags.drop_last());
        let m2 = spec_link_all(m, image_id, tags);
        let fresh = !has_link(m1.links, image_id, tags.last().id);
        if fresh {
            lemma_has_link_hit(m2.links, image_id, tags.last().id, m1.links.len() as int);
            assert(m1.links =~= m2.links.subrange(0, m1.links.len() as int));
        }
        assert forall|k: int| 0 <= k < tags.len() implies has_link(
            m2.links,
            image_id,
            #[trigger] tags[k].id,
        ) by {
            if k < tags.len() - 1 {
                assert(tags.drop_last()[k] == tags[k]);
                assert(has_link(m1.links, image_id, tags[k].id));
                if fresh {
                    lemma_has_link_prefix(m1.links, m2.links, image_id, tags[k].id);
                }
            } else {
                assert(tags[k] == tags.last());
            }
        }
    }
}

/// Resolving tags touches only the tag table: images, links, and the other
/// counters stay as they are, and one tag comes back per raw path.
pub proof fn lemma_normalize_keeps_rest(m: RepoModel, raw_paths: Seq<Seq<char>>)
    ensures
        spec_normalize(m, raw_paths).0.images == m.images,
        spec_normalize(m, raw_paths).0.links == m.links,
        spec_normalize(m, raw_paths).0.next_image_id == m.next_image_id,
        spec_normalize(m, raw_paths).0.next_link_id == m.next_link_id,
        spec_normalize(m, raw_paths).1.len() == raw_paths.len(),
    decreases raw_paths.len(),
{
    if raw_paths.len() > 0 {
        lemma_normalize_keeps_rest(m, raw_paths.drop_last());
    }
}

/// Linking touches only the link table: everything else stays as it is.
pub proof fn lemma_link_all_keeps_rest(m: RepoModel, image_id: int, tags: Seq<TagModel>)
    ensures
        spec_link_all(m, image_id, tags).images == m.images,
        spec_link_all(m, image_id, tags).tags == m.tags,
        spec_link_all(m, image_id, tags).next_image_id == m.next_image_id,
        spec_link_all(m, image_id, tags).next_tag_id == m.next_tag_id,
    decreases tags.len(),
{
    if tags.len() > 0 {
        lemma_link_all_keeps_rest(m, image_id, tags.drop_last());
    }
}

/// A pair linked in a prefix stays linked in the whole.
pub proof fn lemma_has_link_prefix(
    links1: Seq<LinkModel>,
    links2: Seq<LinkModel>,
    image_id: int,
    tag_id: int,
)
    requires
        links1.is_prefix_of(links2),
        has_link(links1, image_id, tag_id),
    ensures
        has_link(links2, image_id, tag_id),
{
    lemma_has_link_char(links1, image_id, tag_id);
    let i = choose|i: int|
        0 <= i < links1.len() && links1[i].image_id == image_id && #[trigger] links1[i].tag_id
            == tag_id;
    assert(links2[i] == links1[i]);
    lemma_has_link_hit(links2, image_id, tag_id, i);
}

pub proof fn lemma_add_link_wf(m: RepoModel, image_id: int, tag_id: int)
    requires
        repo_wf(m),
        m.next_link_id < i32::MAX,
    ensures
        repo_wf(spec_add_link(m, image_id, tag_id)),
        m.links.is_prefix_of(spec_add_link(m, image_id, tag_id).links),
        m.next_link_id <= spec_add_link(m, image_id, tag_id).next_link_id <= m.next_link_id + 1,
        spec_add_link(m, image_id, tag_id).images == m.images,
        spec_add_link(m, image_id, tag_id).tags == m.tags,
        spec_add_link(m, image_id, tag_id).next_image_id == m.next_image_id,
        spec_add_link(m, image_id, tag_id).next_tag_id == m.next_tag_id,
        has_link(spec_add_link(m, image_id, tag_id).links, image_id, tag_id),
{
    let m1 = spec_add_link(m, image_id, tag_id);
    lemma_has_link_char(m.links, image_id, tag_id);
    if !has_link(m.links, image_id, tag_id) {
        let lk = LinkModel { id: m.next_link_id, image_id, tag_id };
        assert forall|i: int, j: int|
            #![trigger m1.links[i], m1.links[j]]
            0 <= i < j < m1.links.len() implies !(m1.links[i].image_id == m1.links[j].image_id
            && m1.links[i].tag_id == m1.links[j].tag_id) by {
            if j == m.links.len() {
                assert(m1.links[j] == lk);
                assert(m1.links[i] == m.links[i]);
            } else {
                assert(m1.links[i] == m.links[i]);
                assert(m1.links[j] == m.links[j]);
            }
        }
        assert forall|i: int| #![trigger m1.links[i]] 0 <= i < m1.links.len() implies 1
            <= m1.links[i].id < m1.next_link_id by {
            if i < m.links.len() {
                assert(m1.links[i] == m.links[i]);
            }
        }
        lemma_has_link_hit(m1.links, image_id, tag_id, m.links.len() as int);
    }
    assert(m.links.is_prefix_of(m1.links));
}

pub proof fn lemma_normalize_wf(m: RepoModel, raw_paths: Seq<Seq<char>>)
    requires
        repo_wf(m),
        m.next_tag_id + raw_paths.len() <= i32::MAX,
    ensures
        repo_wf(spec_normalize(m, raw_paths).0),
        m.tags.is_prefix_of(spec_normalize(m, raw_paths).0.tags),
        m.next_tag_id <= spec_normalize(m, raw_paths).0.next_tag_id <= m.next_tag_id
            + raw_paths.len(),
        spec_normalize(m, raw_paths).0.images == m.images,
        spec_normalize(m, raw_paths).0.links == m.links,
        spec_normalize(m, raw_paths).0.next_image_id == m.next_image_id,
        spec_normalize(m, raw_paths).0.next_link_id == m.next_link_id,
        spec_normalize(m, raw_paths).1.len() == raw_paths.len(),
        forall|k: int|
            0 <= k < raw_paths.len() ==> 1 <= #[trigger] spec_normalize(m, raw_paths).1[k].id
                < spec_normalize(m, raw_paths).0.next_tag_id,
    decreases raw_paths.len(),
{
    if raw_paths.len() > 0 {
        lemma_normalize_wf(m, raw_paths.drop_last());
        let r1 = spec_normalize(m, raw_paths.drop_last());
        lemma_find_or_insert_tag_wf(r1.0, spec_split(raw_paths.last(), '|'));
        let r2 = spec_find_or_insert_tag(r1.0, spec_split(raw_paths.last(), '|'));
        assert forall|k: int| 0 <= k < m.tags.len() implies m.tags[k] == r2.0.tags[k] by {
            assert(m.tags[k] == r1.0.tags[k]);
            assert(r1.0.tags[k] == r2.0.tags[k]);
        }
        assert(m.tags =~= r2.0.tags.subrange(0, m.tags.len() as int));
        assert forall|k: int| 0 <= k < raw_paths.len() implies 1 <= #[trigger] spec_normalize(
            m,
            raw_paths,
        ).1[k].id < spec_normalize(m, raw_paths).0.next_tag_id by {
            if k < raw_paths.len() - 1 {
                assert(spec_normalize(m, raw_paths).1[k] == r1.1[k]);
            } else {
                assert(spec_normalize(m, raw_paths).1[k] == r2.1);
            }
        }
    } else {
        assert(m.tags.is_prefix_of(m.tags));
    }
}

pub proof fn lemma_link_all_wf(m: RepoModel, image_id: int, tags: Seq<TagModel>)
    requires
        repo_wf(m),
        m.next_link_id + tags.len() <= i32::MAX,
    ensures
        repo_wf(spec_link_all(m, image_id, tags)),
        m.links.is_prefix_of(spec_link_all(m, image_id, tags).links),
        m.next_link_id <= spec_link_all(m, image_id, tags).next_link_id <= m.next_link_id
            + tags.len(),
        spec_link_all(m, image_id, tags).images == m.images,
        spec_link_all(m, image_id, tags).tags == m.tags,
        spec_link_all(m, image_id, tags).next_image_id == m.next_image_id,
        spec_link_all(m, image_id, tags).next_tag_id == m.next_tag_id,
    decreases tags.len(),
{
    if tags.len() > 0 {
        lemma_link_all_wf(m, image_id, tags.drop_last());
        let m1 = spec_link_all(m, image_id, tags.drop_last());
        lemma_add_link_wf(m1, image_id, tags.last().id);
        let m2 = spec_link_all(m, image_id, tags);
        assert forall|k: int| 0 <= k < m.links.len() implies m.links[k] == m2.links[k] by {
            assert(m.links[k] == m1.links[k]);
            assert(m1.links[k] == m2.links[k]);
        }
        assert(m.links =~= m2.links.subrange(0, m.links.len() as int));
    } else {
        assert(m.links.is_prefix_of(m.links));
    }
}

impl Repository {
    /// A fresh, empty store.
    pub fn new() -> (r: Repository)
        ensures
            r@ == empty_repo(),
            repo_wf(r@),
    {
        let r = Repository {
            images: Vec::new(),
            tags: Vec::new(),
            links: Vec::new(),
            next_image_id: 1,
            next_tag_id: 1,
            next_link_id: 1,
        };
        proof {
            assert(r@.images =~= empty_repo().images);
            assert(r@.tags =~= empty_repo().tags);
            assert(r@.links =~= empty_repo().links);
            assert(r@ == empty_repo());
        }
        r
    }

    /// The image stored under this path, if any.
    pub fn find_by_path(&self, path: &str) -> (r: Option<Image>)
        ensures
            match r {
                Option::Some(img) => find_image_by_path(self@.images, path@) == Option::Some(img@),
                Option::None => find_image_by_path(self@.images, path@) is None,
            },
    {
        let mut i: usize = 0;
        while i < self.images.len()
            invariant
                i <= self.images.len(),
                forall|j: int| 0 <= j < i ==> self@.images[j].path != path@,
            decreases self.images.len() - i,
        {
            if str_eq(self.images[i].path.as_str(), path) {
                proof {
                    lemma_find_image_hit(self@.images, path@, i as int);
                }
                return Some(self.images[i].clone());
            }
            i = i + 1;
        }
        proof {
            lemma_find_image_miss(self@.images, path@);
        }
        None
    }

    /// The tag stored under this content sequence, if any.
    pub fn find_tag_by_content(&self, content: &Vec<String>) -> (r: Option<Tag>)
        ensures
            match r {
                Option::Some(t) => find_tag_by_content(self@.tags, content.deep_view())
                    == Option::Some(t@),
                Option::None => find_tag_by_content(self@.tags, content.deep_view()) is None,
            },
    {
        let mut i: usize = 0;
        while i < self.tags.len()
            invariant
                i <= self.tags.len(),
                forall|j: int| 0 <= j < i ==> self@.tags[j].content != content.deep_view(),
            decreases self.tags.len() - i,
        {
            if contents_equal(&self.tags[i].content, content) {
                proof {
                    lemma_find_tag_hit(self@.tags, content.deep_view(), i as int);
                }
                return Some(self.tags[i].clone());
            }
            i = i + 1;
        }
        proof {
            lemma_find_tag_miss(self@.tags, content.deep_view());
        }
        None
    }

    /// Insert a record under a path not yet stored.
    pub fn insert_image(&mut self, new: NewImage) -> (r: Image)
        requires
            repo_wf(old(self)@),
            find_image_by_path(old(self)@.images, new@.path) is None,
            old(self)@.next_image_id < i32::MAX,
        ensures
            repo_wf(final(self)@),
            final(self)@ == spec_insert_image(old(self)@, new@).0,
            r@ == spec_insert_image(old(self)@, new@).1,
    {
        proof {
            lemma_insert_image_wf(old(self)@, new@);
        }
        let img = Image {
            id: self.next_image_id,
            path: new.path,
            rating: new.rating,
            last_modified: new.last_modified,
            thumb_path: new.thumb_path,
            datetime: new.datetime,
        };
        let r = img.clone();
        self.images.push(img);
        self.next_image_id = self.next_image_id + 1;
        proof {
            assert(self@.images =~= spec_insert_image(old(self)@, new@).0.images);
            assert(self@ == spec_insert_image(old(self)@, new@).0);
        }
        r
    }

    /// Give the record with this identity new fields; its identity and path
    /// stay as they are. A record nobody stored is left alone.
    pub fn update_image(
        &mut self,
        id: i32,
        rating: i32,
        last_modified: i64,
        thumb_path: String,
        datetime: DateTime,
    )
        requires
            repo_wf(old(self)@),
        ensures
            repo_wf(final(self)@),
            final(self)@ == spec_update_image(
                old(self)@,
                id as int,
                rating as int,
                last_modified as int,
                thumb_path@,
                datetime,
            ),
    {
        let ghost target = spec_update_image(
            old(self)@,
            id as int,
            rating as int,
            last_modified as int,
            thumb_path@,
            datetime,
        );
        proof {
            lemma_update_image_wf(
                old(self)@,
                id as int,
                rating as int,
                last_modified as int,
                thumb_path@,
                datetime,
            );
        }
        let mut i: usize = 0;
        while i < self.images.len()
            invariant
                i <= self.images.len(),
                self@ == old(self)@,
                repo_wf(old(self)@),
                target == spec_update_image(
                    old(self)@,
                    id as int,
                    rating as int,
                    last_modified as int,
                    thumb_path@,
                    datetime,
                ),
                forall|j: int| 0 <= j < i ==> #[trigger] self@.images[j].id != id as int,
            decreases self.images.len() - i,
        {
            if self.images[i].id == id {
                let updated = Image {
                    id: self.images[i].id,
                    path: self.images[i].path.clone(),
                    rating,
                    last_modified,
                    thumb_path,
                    datetime,
                };
                self.images.set(i, updated);
                proof {
                    assert forall|j: int|
                        0 <= j < self@.images.len() implies self@.images[j] == target.images[j] by {
                        if j != i {
                            assert(self@.images[j] == old(self)@.images[j]);
                            if j > i {
                                assert(old(self)@.images[i as int].id == id as int);
                                assert(old(self)@.images[i as int].id != old(
                                    self,
                                )@.images[j].id);
                            }
                            assert(old(self)@.images[j].id != id as int);
                        }
                    }
                    assert(self@.images =~= target.images);
                    assert(self@ == target);
                }
                return ;
            }
            i = i + 1;
        }
        proof {
            assert forall|j: int|
                0 <= j < self@.images.len() implies self@.images[j] == target.images[j] by {
                assert(self@.images[j].id != id as int);
            }
            assert(self@.images =~= target.images);
            assert(self@ == target);
        }
    }

    /// Insert a tag under a content sequence not yet stored.
    pub fn insert_tag(&mut self, new: NewTag) -> (r: Tag)
        requires
            repo_wf(old(self)@),
            find_tag_by_content(old(self)@.tags, new.content.deep_view()) is None,
            old(self)@.next_tag_id < i32::MAX,
        ensures
            repo_wf(final(self)@),
            final(self)@ == spec_insert_tag(old(self)@, new.content.deep_view()).0,
            r@ == spec_insert_tag(old(self)@, new.content.deep_view()).1,
    {
        proof {
            lemma_insert_tag_wf(old(self)@, new.content.deep_view());
        }
        let t = Tag { id: self.next_tag_id, content: new.content };
        let r = t.clone();
        self.tags.push(t);
        self.next_tag_id = self.next_tag_id + 1;
        proof {
            assert(self@.tags =~= spec_insert_tag(old(self)@, new.content.deep_view()).0.tags);
            assert(self@ == spec_insert_tag(old(self)@, new.content.deep_view()).0);
        }
        r
    }

    /// Resolve a content sequence to its tag, inserting it on first
    /// encounter: the deduplicating find-or-insert.
    pub fn find_or_insert_tag(&mut self, content: Vec<String>) -> (r: Tag)
        requires
            repo_wf(old(self)@),
            old(self)@.next_tag_id < i32::MAX,
        ensures
            repo_wf(final(self)@),
            final(self)@ == spec_find_or_insert_tag(old(self)@, content.deep_view()).0,
            r@ == spec_find_or_insert_tag(old(self)@, content.deep_view()).1,
    {
        match self.find_tag_by_content(&content) {
            Some(t) => t,
            None => self.insert_tag(NewTag { content }),
        }
    }

    /// Link an image to a tag; a pair already linked is left alone.
    pub fn link_image_tag(&mut self, image_id: i32, tag_id: i32)
        requires
            repo_wf(old(self)@),
            old(self)@.next_link_id < i32::MAX,
        ensures
            repo_wf(final(self)@),
            final(self)@ == spec_add_link(old(self)@, image_id as int, tag_id as int),
    {
        proof {
            lemma_add_link_wf(old(self)@, image_id as int, tag_id as int);
        }
        let mut i: usize = 0;
        while i < self.links.len()
            invariant
                i <= self.links.len(),
                self@ == old(self)@,
                repo_wf(old(self)@),
                forall|j: int|
                    0 <= j < i ==> !(#[trigger] self@.links[j].image_id == image_id as int
                        && self@.links[j].tag_id == tag_id as int),
            decreases self.links.len() - i,
        {
            if self.links[i].image_id == image_id && self.links[i].tag_id == tag_id {
                proof {
                    lemma_has_link_hit(self@.links, image_id as int, tag_id as int, i as int);
                }
                return ;
            }
            i = i + 1;
        }
        proof {
            lemma_has_link_miss(self@.links, image_id as int, tag_id as int);
        }
        let lk = ImageTag { id: self.next_link_id, image_id, tag_id };
        self.links.push(lk);
        self.next_link_id = self.next_link_id + 1;
        proof {
            assert(self@.links =~= spec_add_link(
                old(self)@,
                image_id as int,
                tag_id as int,
            ).links);
            assert(self@ == spec_add_link(old(self)@, image_id as int, tag_id as int));
        }
    }

    /// Normalize raw tag paths: split each on `|` and resolve it through the
    /// deduplicating find-or-insert, in order.
    pub fn normalize_tags(&mut self, raw_tag_paths: &Vec<String>) -> (r: Vec<Tag>)
        requires
            repo_wf(old(self)@),
            old(self)@.next_tag_id + raw_tag_paths@.len() <= i32::MAX,
        ensures
            repo_wf(final(self)@),
            final(self)@ == spec_normalize(old(self)@, raw_tag_paths.deep_view()).0,
            r.deep_view() == spec_normalize(old(self)@, raw_tag_paths.deep_view()).1,
    {
        let ghost raw = raw_tag_paths.deep_view();
        let mut r: Vec<Tag> = Vec::new();
        let mut i: usize = 0;
        proof {
            assert(raw.take(0) =~= Seq::<Seq<char>>::empty());
            assert(r.deep_view() =~= Seq::<TagModel>::empty());
        }
        while i < raw_tag_paths.len()
            invariant
                i <= raw_tag_paths.len(),
                repo_wf(old(self)@),
                raw == raw_tag_paths.deep_view(),
                raw.len() == raw_tag_paths.len(),
                repo_wf(self@),
                self@ == spec_normalize(old(self)@, raw.take(i as int)).0,
                r.deep_view() == spec_normalize(old(self)@, raw.take(i as int)).1,
                old(self)@.next_tag_id + raw.len() <= i32::MAX,
                self@.next_tag_id <= old(self)@.next_tag_id + i,
            decreases raw_tag_paths.len() - i,
        {
            proof {
                lemma_normalize_wf(old(self)@, raw.take(i as int));
                assert(raw.take(i + 1).drop_last() =~= raw.take(i as int));
                assert(raw.take(i + 1).last() == raw[i as int]);
            }
            let content = split_str(raw_tag_paths[i].as_str(), '|');
            let t = self.find_or_insert_tag(content);
            let ghost prev_r = r.deep_view();
            r.push(t);
            proof {
                assert(r.deep_view() =~= prev_r.push(r.deep_view().last()));
                assert(r.deep_view() == spec_normalize(old(self)@, raw.take(i + 1)).1);
            }
            i = i + 1;
        }
        proof {
            assert(raw.take(raw.len() as int) =~= raw);
        }
        r
    }

    /// Whether one ingestion with `n_paths` raw tag paths can still be given
    /// identities.
    pub fn has_capacity(&self, n_paths: usize) -> (r: bool)
        requires
            repo_wf(self@),
        ensures
            r == ingest_capacity(self@, n_paths as int),
    {
        self.next_image_id < i32::MAX && n_paths <= (i32::MAX - self.next_tag_id) as usize
            && n_paths <= (i32::MAX - self.next_link_id) as usize
    }

    /// The image table, for reading.
    pub fn images_ref(&self) -> (r: &Vec<Image>)
        ensures
            r.deep_view() == self@.images,
    {
        &self.images
    }

    /// The tag table, for reading.
    pub fn tags_ref(&self) -> (r: &Vec<Tag>)
        ensures
            r.deep_view() == self@.tags,
    {
        &self.tags
    }

    /// The link table, for reading.
    pub fn links_ref(&self) -> (r: &Vec<ImageTag>)
        ensures
            r.deep_view() == self@.links,
    {
        &self.links
    }

    /// How many images the store holds.
    pub fn image_count(&self) -> (r: usize)
        ensures
            r == self@.images.len(),
    {
        self.images.len()
    }

    /// How many tags the store holds.
    pub fn tag_count(&self) -> (r: usize)
        ensures
            r == self@.tags.len(),
    {
        self.tags.len()
    }

    /// How many links the store holds.
    pub fn link_count(&self) -> (r: usize)
        ensures
            r == self@.links.len(),
    {
        self.links.len()
    }
}

} // verus!
