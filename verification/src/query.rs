//! The query surface the gallery view reads: images filtered by minimum
//! rating, an inclusive capture-date range, and a tag-overlap predicate;
//! each image carries the tags the filter selects for it; the whole listing
//! is ordered by capture time (identity breaking ties) and cut into
//! fixed-size pages.

use vstd::prelude::*;
use crate::datetime::{dt_le, dt_lt, dt_not_after, dt_before, DateTime, spec_filter_from,
    spec_filter_to, filter_from_bound, filter_to_bound};
use crate::repo::{
    has_link, lemma_has_link_hit, lemma_has_link_miss, repo_wf, Image, ImageModel, RepoModel,
    Repository, Tag, TagModel,
};
use crate::text::{spec_split, split_str, str_eq};

verus! {

/// How many images one page holds.
pub const PAGE_SIZE: usize = 50;

/// A gallery filter, with every default already applied.
pub struct GalleryFilter {
    pub min_rating: i32,
    pub from: DateTime,
    pub to: DateTime,
    pub tag_filter: Vec<String>,
}

pub struct FilterModel {
    pub min_rating: int,
    pub from: DateTime,
    pub to: DateTime,
    pub tag_filter: Seq<Seq<char>>,
}

impl View for GalleryFilter {
    type V = FilterModel;

    open spec fn view(&self) -> FilterModel {
        FilterModel {
            min_rating: self.min_rating as int,
            from: self.from,
            to: self.to,
            tag_filter: self.tag_filter.deep_view(),
        }
    }
}

/// Build a filter from the raw query fields: a missing rating bound means
/// zero, the date bounds fall back as the datetime grammar says, and a
/// missing or empty tag field means no tag restriction; a nonempty one is
/// split on `;`.
pub fn filter_from_options(
    rating: Option<i32>,
    from: &Option<String>,
    to: &Option<String>,
    tags: &Option<String>,
    now: DateTime,
) -> (r: GalleryFilter)
    ensures
        r@.min_rating == (match rating {
            Option::Some(v) => v as int,
            Option::None => 0,
        }),
        r@.from == spec_filter_from(from.deep_view()),
        r@.to == spec_filter_to(to.deep_view(), now),
        r@.tag_filter == (match tags.deep_view() {
            Option::Some(s) => if s.len() > 0 {
                spec_split(s, ';')
            } else {
                Seq::<Seq<char>>::empty()
            },
            Option::None => Seq::<Seq<char>>::empty(),
        }),
{
    let min_rating = match rating {
        Some(v) => v,
        None => 0,
    };
    let tag_filter: Vec<String> = match tags {
        Some(s) => {
            if s.as_str().unicode_len() > 0 {
                split_str(s.as_str(), ';')
            } else {
                let empty: Vec<String> = Vec::new();
                proof {
                    assert(empty.deep_view() =~= Seq::<Seq<char>>::empty());
                }
                empty
            }
        },
        None => {
            let empty: Vec<String> = Vec::new();
            proof {
                assert(empty.deep_view() =~= Seq::<Seq<char>>::empty());
            }
            empty
        },
    };
    GalleryFilter {
        min_rating,
        from: filter_from_bound(from),
        to: filter_to_bound(to, now),
        tag_filter,
    }
}

/// Whether an image passes the rating and date bounds.
pub open spec fn image_matches(im: ImageModel, f: FilterModel) -> bool {
    &&& im.rating >= f.min_rating
    &&& dt_le(f.from, im.datetime)
    &&& dt_le(im.datetime, f.to)
}

/// Whether a tag's content shares at least one segment with the filter.
pub open spec fn tag_overlaps(content: Seq<Seq<char>>, filter: Seq<Seq<char>>) -> bool {
    exists|i: int, j: int|
        0 <= i < content.len() && 0 <= j < filter.len() && content[i] == filter[j]
}

/// Whether the filter selects this tag: an empty tag filter selects every
/// tag, a nonempty one those that overlap it.
pub open spec fn tag_selected(t: TagModel, f: FilterModel) -> bool {
    f.tag_filter.len() == 0 || tag_overlaps(t.content, f.tag_filter)
}

/// The tags listed for an image: those linked to it and selected by the
/// filter, in tag-table order.
pub open spec fn spec_tags_for(
    tags: Seq<TagModel>,
    links: Seq<crate::repo::LinkModel>,
    image_id: int,
    f: FilterModel,
) -> Seq<TagModel>
    decreases tags.len(),
{
    if tags.len() == 0 {
        Seq::empty()
    } else {
        let rest = spec_tags_for(tags.drop_last(), links, image_id, f);
        let t = tags.last();
        if has_link(links, image_id, t.id) && tag_selected(t, f) {
            rest.push(t)
        } else {
            rest
        }
    }
}

/// Whether the listing shows this image: it passes the rating and date
/// bounds, and — only when a tag restriction is given — at least one of its
/// tags overlaps it. Without a tag restriction every image in bounds
/// appears, tagged or not; exactly the images the filter asks for are
/// returned.
pub open spec fn spec_included(m: RepoModel, f: FilterModel, im: ImageModel) -> bool {
    image_matches(im, f) && (f.tag_filter.len() == 0 || spec_tags_for(
        m.tags,
        m.links,
        im.id,
        f,
    ).len() > 0)
}

/// Whether this record is one of the store's image rows.
pub open spec fn has_image(m: RepoModel, im: ImageModel) -> bool {
    exists|i: int| 0 <= i < m.images.len() && m.images[i] == im
}

/// The listing order: capture time ascending, identity breaking ties.
pub open spec fn img_lt(a: ImageModel, b: ImageModel) -> bool {
    dt_lt(a.datetime, b.datetime) || (a.datetime == b.datetime && a.id < b.id)
}

pub open spec fn img_sorted(s: Seq<ImageModel>) -> bool {
    forall|i: int, j: int| 0 <= i < j < s.len() ==> img_lt(#[trigger] s[i], #[trigger] s[j])
}

/// Two records with different identities always compare, one way only.
pub proof fn lemma_img_lt_connected(a: ImageModel, b: ImageModel)
    requires
        a.id != b.id,
    ensures
        img_lt(a, b) || img_lt(b, a),
        !(img_lt(a, b) && img_lt(b, a)),
{
}

pub proof fn lemma_img_lt_trans(a: ImageModel, b: ImageModel, c: ImageModel)
    ensures
        img_lt(a, b) && img_lt(b, c) ==> img_lt(a, c),
{
}

fn img_before(a: &Image, b: &Image) -> (r: bool)
    ensures
        r == img_lt(a@, b@),
{
    if dt_before(&a.datetime, &b.datetime) {
        true
    } else {
        a.datetime == b.datetime && a.id < b.id
    }
}

/// How many entries the page shows: the whole remainder past the page
/// offset, at most one page of it.
pub open spec fn spec_page_len(total: int, page: int) -> int {
    if PAGE_SIZE * page >= total {
        0
    } else if total - PAGE_SIZE * page < PAGE_SIZE {
        total - PAGE_SIZE * page
    } else {
        PAGE_SIZE as int
    }
}

/// What a correct listing is, relative to the sorted sequence `full` of all
/// shown images: `full` is strictly ordered, holds exactly the store's
/// included images, and the result is its requested page, each image paired
/// with the tags listed for it.
pub open spec fn spec_listing(
    m: RepoModel,
    f: FilterModel,
    page: int,
    full: Seq<ImageModel>,
    r: Seq<(Image, Vec<Tag>)>,
) -> bool {
    &&& img_sorted(full)
    &&& forall|k: int|
        0 <= k < full.len() ==> has_image(m, #[trigger] full[k]) && spec_included(m, f, full[k])
    &&& forall|i: int|
        0 <= i < m.images.len() && spec_included(m, f, #[trigger] m.images[i]) ==> full.contains(
            m.images[i],
        )
    &&& r.len() == spec_page_len(full.len() as int, page)
    &&& forall|k: int|
        0 <= k < r.len() ==> (#[trigger] r[k]).0@ == full[PAGE_SIZE * page + k]
            && r[k].1.deep_view() == spec_tags_for(m.tags, m.links, full[PAGE_SIZE * page + k].id, f)
}

impl Repository {
    /// Whether this image-tag pair is linked.
    fn is_linked(&self, image_id: i32, tag_id: i32) -> (r: bool)
        ensures
            r == has_link(self@.links, image_id as int, tag_id as int),
    {
        let links = self.links_ref();
        let mut i: usize = 0;
        while i < links.len()
            invariant
                i <= links.len(),
                links.deep_view() == self@.links,
                forall|j: int|
                    0 <= j < i ==> !(#[trigger] self@.links[j].image_id == image_id as int
                        && self@.links[j].tag_id == tag_id as int),
            decreases links.len() - i,
        {
            if links[i].image_id == image_id && links[i].tag_id == tag_id {
                proof {
                    lemma_has_link_hit(self@.links, image_id as int, tag_id as int, i as int);
                }
                return true;
            }
            i = i + 1;
        }
        proof {
            lemma_has_link_miss(self@.links, image_id as int, tag_id as int);
        }
        false
    }

    /// The tags the filter lists for an image: those linked to it and
    /// selected, in tag-table order.
    pub fn tags_for_image(&self, image_id: i32, filter: &GalleryFilter) -> (r: Vec<Tag>)
        ensures
            r.deep_view() == spec_tags_for(self@.tags, self@.links, image_id as int, filter@),
    {
        let tags = self.tags_ref();
        let mut r: Vec<Tag> = Vec::new();
        let mut i: usize = 0;
        proof {
            assert(r.deep_view() =~= Seq::<TagModel>::empty());
            assert(self@.tags.take(0) =~= Seq::<TagModel>::empty());
        }
        while i < tags.len()
            invariant
                i <= tags.len(),
                tags.deep_view() == self@.tags,
                tags.deep_view().len() == tags.len(),
                r.deep_view() == spec_tags_for(
                    self@.tags.take(i as int),
                    self@.links,
                    image_id as int,
                    filter@,
                ),
            decreases tags.len() - i,
        {
            proof {
                assert(self@.tags.take(i + 1).drop_last() =~= self@.tags.take(i as int));
                assert(self@.tags.take(i + 1).last() == self@.tags[i as int]);
            }
            let linked = self.is_linked(image_id, tags[i].id);
            let selected = if filter.tag_filter.len() == 0 {
                proof {
                    assert(filter@.tag_filter.len() == 0);
                }
                true
            } else {
                overlaps(&tags[i].content, &filter.tag_filter)
            };
            if linked && selected {
                let ghost prev = r.deep_view();
                r.push(tags[i].clone());
                proof {
                    assert(r.deep_view() =~= prev.push(self@.tags[i as int]));
                }
            }
            i = i + 1;
        }
        proof {
            assert(self@.tags.take(tags.len() as int) =~= self@.tags);
        }
        r
    }

    /// The listing: exactly the stored images the filter shows — rating and
    /// date bounds, and, when a tag restriction is given, at least one
    /// overlapping tag — ordered by capture time then identity, the
    /// requested page of it, each image with the tags listed for it.
    pub fn list_images(&self, filter: &GalleryFilter, page: usize) -> (r: Vec<(Image, Vec<Tag>)>)
        requires
            repo_wf(self@),
            page <= usize::MAX / (PAGE_SIZE as usize),
        ensures
            exists|full: Seq<ImageModel>| spec_listing(self@, filter@, page as int, full, r@),
    {
        let images = self.images_ref();
        let mut fullv: Vec<Image> = Vec::new();
        let mut i: usize = 0;
        proof {
            assert(fullv.deep_view() =~= Seq::<ImageModel>::empty());
        }
        while i < images.len()
            invariant
                i <= images.len(),
                repo_wf(self@),
                images.deep_view() == self@.images,
                images.deep_view().len() == images.len(),
                img_sorted(fullv.deep_view()),
                forall|k: int|
                    0 <= k < fullv.deep_view().len() ==> exists|oi: int|
                        0 <= oi < i && self@.images[oi] == #[trigger] fullv.deep_view()[k],
                forall|k: int|
                    0 <= k < fullv.deep_view().len() ==> spec_included(
                        self@,
                        filter@,
                        #[trigger] fullv.deep_view()[k],
                    ),
                forall|j: int|
                    0 <= j < i && spec_included(self@, filter@, #[trigger] self@.images[j])
                        ==> fullv.deep_view().contains(self@.images[j]),
            decreases images.len() - i,
        {
            let img = &images[i];
            let matches = img.rating >= filter.min_rating && dt_not_after(&filter.from, &img.datetime)
                && dt_not_after(&img.datetime, &filter.to);
            let mut included = false;
            if matches {
                if filter.tag_filter.len() == 0 {
                    included = true;
                    proof {
                        assert(filter@.tag_filter.len() == 0);
                    }
                } else {
                    let listed = self.tags_for_image(img.id, filter);
                    if listed.len() > 0 {
                        included = true;
                    }
                }
            }
            proof {
                assert(img@ == self@.images[i as int]);
                assert(included == spec_included(self@, filter@, self@.images[i as int]));
            }
            if included {
                let ghost before = fullv.deep_view();
                proof {
                    assert forall|k: int| 0 <= k < before.len() implies before[k].id
                        != img@.id by {
                        let oi = choose|oi: int| 0 <= oi < i && self@.images[oi] == before[k];
                        assert(self@.images[oi].id != self@.images[i as int].id);
                    }
                }
                sorted_insert(&mut fullv, img.clone());
                proof {
                    assert forall|k: int| 0 <= k < fullv.deep_view().len() implies exists|oi: int|
                        0 <= oi < i + 1 && self@.images[oi] == #[trigger] fullv.deep_view()[k] by {
                        if before.contains(fullv.deep_view()[k]) {
                            let bk = choose|bk: int|
                                0 <= bk < before.len() && before[bk] == fullv.deep_view()[k];
                            let oi = choose|oi: int|
                                0 <= oi < i && self@.images[oi] == before[bk];
                            assert(0 <= oi < i + 1 && self@.images[oi] == fullv.deep_view()[k]);
                        } else {
                            assert(fullv.deep_view()[k] == img@);
                            assert(self@.images[i as int] == fullv.deep_view()[k]);
                        }
                    }
                    assert forall|j: int|
                        0 <= j < i + 1 && spec_included(self@, filter@, #[trigger] self@.images[j])
                        implies fullv.deep_view().contains(self@.images[j]) by {
                        if j < i {
                            assert(before.contains(self@.images[j]));
                            let bk = choose|bk: int|
                                0 <= bk < before.len() && before[bk] == self@.images[j];
                            assert(fullv.deep_view().contains(before[bk]));
                        } else {
                            assert(fullv.deep_view().contains(img@));
                        }
                    }
                }
            } else {
                proof {
                    assert forall|j: int|
                        0 <= j < i + 1 && spec_included(self@, filter@, #[trigger] self@.images[j])
                        implies fullv.deep_view().contains(self@.images[j]) by {}
                }
            }
            i = i + 1;
        }
        proof {
            assert(images.deep_view().len() == self@.images.len());
        }
        let total = fullv.len();
        let start = if total / PAGE_SIZE < page {
            total
        } else {
            PAGE_SIZE * page
        };
        let end = if total - start < PAGE_SIZE {
            total
        } else {
            start + PAGE_SIZE
        };
        let mut r: Vec<(Image, Vec<Tag>)> = Vec::new();
        let mut k: usize = start;
        while k < end
            invariant
                start <= k <= end <= fullv.len(),
                repo_wf(self@),
                r@.len() == k - start,
                fullv.deep_view().len() == fullv.len(),
                forall|q: int|
                    0 <= q < r@.len() ==> (#[trigger] r@[q]).0@ == fullv.deep_view()[start + q]
                        && r@[q].1.deep_view() == spec_tags_for(
                        self@.tags,
                        self@.links,
                        fullv.deep_view()[start + q].id,
                        filter@,
                    ),
            decreases end - k,
        {
            let img = fullv[k].clone();
            let listed = self.tags_for_image(img.id, filter);
            r.push((img, listed));
            k = k + 1;
        }
        proof {
            let full = fullv.deep_view();
            let p = page as int;
            assert(start as int == if PAGE_SIZE * p >= full.len() {
                full.len() as int
            } else {
                PAGE_SIZE * p
            });
            assert(r@.len() == spec_page_len(full.len() as int, p));
            assert forall|q: int| 0 <= q < r@.len() implies (#[trigger] r@[q]).0@ == full[PAGE_SIZE
                * p + q] && r@[q].1.deep_view() == spec_tags_for(
                self@.tags,
                self@.links,
                full[PAGE_SIZE * p + q].id,
                filter@,
            ) by {
                assert(start + q == PAGE_SIZE * p + q);
            }
            assert(spec_listing(self@, filter@, p, full, r@));
        }
        r
    }
}

/// Whether any segment of `content` equals any segment of `filter`.
fn overlaps(content: &Vec<String>, filter: &Vec<String>) -> (r: bool)
    ensures
        r == tag_overlaps(content.deep_view(), filter.deep_view()),
{
    let mut i: usize = 0;
    while i < content.len()
        invariant
            i <= content.len(),
            forall|ii: int, j: int|
                0 <= ii < i && 0 <= j < filter.deep_view().len() ==> #[trigger] content.deep_view()[ii]
                    != #[trigger] filter.deep_view()[j],
        decreases content.len() - i,
    {
        let mut j: usize = 0;
        while j < filter.len()
            invariant
                i < content.len(),
                j <= filter.len(),
                forall|jj: int|
                    0 <= jj < j ==> content.deep_view()[i as int] != #[trigger] filter.deep_view()[jj],
            decreases filter.len() - j,
        {
            if str_eq(content[i].as_str(), filter[j].as_str()) {
                proof {
                    assert(content.deep_view()[i as int] == filter.deep_view()[j as int]);
                }
                return true;
            }
            j = j + 1;
        }
        i = i + 1;
    }
    proof {
        assert(!tag_overlaps(content.deep_view(), filter.deep_view()));
    }
    false
}

/// Put a record into its place in a strictly ordered list of records with
/// pairwise different identities.
fn sorted_insert(v: &mut Vec<Image>, img: Image)
    requires
        img_sorted(old(v).deep_view()),
        forall|k: int| 0 <= k < old(v).deep_view().len() ==> #[trigger] old(v).deep_view()[k].id != img@.id,
    ensures
        img_sorted(final(v).deep_view()),
        final(v).deep_view().len() == old(v).deep_view().len() + 1,
        forall|k: int|
            0 <= k < final(v).deep_view().len() ==> #[trigger] final(v).deep_view()[k] == img@ || old(
                v,
            ).deep_view().contains(final(v).deep_view()[k]),
        forall|k: int|
            0 <= k < old(v).deep_view().len() ==> final(v).deep_view().contains(
                #[trigger] old(v).deep_view()[k],
            ),
        final(v).deep_view().contains(img@),
{
    let ghost before = v.deep_view();
    let mut p: usize = 0;
    while p < v.len() && img_before(&v[p], &img)
        invariant
            p <= v.len(),
            v.deep_view() == before,
            v.deep_view().len() == v.len(),
            img_sorted(before),
            forall|k: int| 0 <= k < before.len() ==> #[trigger] before[k].id != img@.id,
            forall|k: int| 0 <= k < p ==> img_lt(#[trigger] before[k], img@),
        decreases v.len() - p,
    {
        p = p + 1;
    }
    proof {
        assert forall|k: int| p <= k < before.len() implies img_lt(img@, #[trigger] before[k]) by {
            lemma_img_lt_connected(before[p as int], img@);
            if k > p {
                lemma_img_lt_trans(img@, before[p as int], before[k]);
            }
        }
    }
    v.insert(p, img);
    proof {
        let after = v.deep_view();
        assert(after.len() == before.len() + 1);
        assert forall|x: int, y: int| 0 <= x < y < after.len() implies img_lt(
            #[trigger] after[x],
            #[trigger] after[y],
        ) by {
            if x < p && y < p {
                assert(after[x] == before[x] && after[y] == before[y]);
            } else if x < p && y == p {
                assert(after[x] == before[x] && after[y] == img@);
            } else if x < p && y > p {
                assert(after[x] == before[x] && after[y] == before[y - 1]);
                assert(img_lt(before[x], before[y - 1]));
            } else if x == p {
                assert(after[x] == img@ && after[y] == before[y - 1]);
            } else {
                assert(after[x] == before[x - 1] && after[y] == before[y - 1]);
            }
        }
        assert forall|k: int| 0 <= k < after.len() implies #[trigger] after[k] == img@
            || before.contains(after[k]) by {
            if k < p {
                assert(after[k] == before[k]);
            } else if k > p {
                assert(after[k] == before[k - 1]);
            }
        }
        assert forall|k: int| 0 <= k < before.len() implies after.contains(
            #[trigger] before[k],
        ) by {
            if k < p {
                assert(after[k] == before[k]);
            } else {
                assert(after[k + 1] == before[k]);
            }
        }
        assert(after[p as int] == img@);
    }
}

} // verus!
