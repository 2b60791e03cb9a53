use sitegen::date::MyDate;
use sitegen::post::{Post, PostError, PostMeta, Tag};
use sitegen::post_db::PostDb;

fn make_post(slug: &str, date: (u16, u8, u8), tags: &[&str], path: &str) -> Post {
    let meta = PostMeta {
        input_path: path.to_string(),
        slug: slug.to_string(),
        author: "Ada".to_string(),
        title: format!("Title of {}", slug),
        blurb: None,
        created_date: MyDate { year: date.0, month: date.1, day: date.2 },
        modified_date: None,
        draft: false,
        tags: tags.iter().map(|t| Tag(t.to_string())).collect(),
        newer_post: None,
        older_post: None,
    };
    Post::assemble(meta, String::new())
}

#[test]
fn builds_sorted_descending_with_links() {
    let posts = vec![
        make_post("middle", (2024, 1, 15), &[], "b.md"),
        make_post("oldest", (2023, 6, 1), &[], "c.md"),
        make_post("newest", (2024, 3, 1), &[], "a.md"),
    ];
    let db = PostDb::build(posts).unwrap();
    let order: Vec<&str> = db.all_posts.iter().map(|p| p.meta.slug.as_str()).collect();
    assert_eq!(order, vec!["newest", "middle", "oldest"]);
    assert_eq!(db.all_posts[0].meta.newer_post, None);
    assert_eq!(db.all_posts[0].meta.older_post, Some(1));
    assert_eq!(db.all_posts[1].meta.newer_post, Some(0));
    assert_eq!(db.all_posts[1].meta.older_post, Some(2));
    assert_eq!(db.all_posts[2].meta.newer_post, Some(1));
    assert_eq!(db.all_posts[2].meta.older_post, None);
}

#[test]
fn equal_dates_keep_input_order() {
    let posts = vec![
        make_post("first", (2024, 1, 1), &[], "a.md"),
        make_post("second", (2024, 1, 1), &[], "b.md"),
        make_post("third", (2024, 1, 1), &[], "c.md"),
    ];
    let db = PostDb::build(posts).unwrap();
    let order: Vec<&str> = db.all_posts.iter().map(|p| p.meta.slug.as_str()).collect();
    assert_eq!(order, vec!["first", "second", "third"]);
}

#[test]
fn duplicate_slug_fails_with_both_paths() {
    let posts = vec![
        make_post("same", (2024, 2, 1), &[], "newer.md"),
        make_post("same", (2023, 2, 1), &[], "older.md"),
        make_post("other", (2022, 2, 1), &[], "other.md"),
    ];
    let e = PostDb::build(posts).unwrap_err();
    assert_eq!(
        e,
        PostError::DuplicateSlug {
            slug: "same".to_string(),
            path_a: "newer.md".to_string(),
            path_b: "older.md".to_string(),
        }
    );
}

#[test]
fn empty_and_single_collections() {
    let db = PostDb::build(Vec::new()).unwrap();
    assert_eq!(db.all_posts.len(), 0);
    assert!(db.tags().is_empty());

    let db = PostDb::build(vec![make_post("only", (2024, 1, 1), &[], "a.md")]).unwrap();
    assert_eq!(db.all_posts.len(), 1);
    assert_eq!(db.all_posts[0].meta.newer_post, None);
    assert_eq!(db.all_posts[0].meta.older_post, None);
}

#[test]
fn slug_index_finds_every_post() {
    let posts = vec![
        make_post("alpha", (2024, 1, 2), &[], "a.md"),
        make_post("beta", (2024, 1, 1), &[], "b.md"),
    ];
    let db = PostDb::build(posts).unwrap();
    for (slug, idx) in db.posts_by_slug.iter() {
        assert_eq!(&db.all_posts[*idx].meta.slug, slug);
    }
    assert_eq!(db.posts_by_slug.len(), 2);
}

#[test]
fn get_by_id_is_bounds_checked() {
    let db = PostDb::build(vec![make_post("only", (2024, 1, 1), &[], "a.md")]).unwrap();
    assert!(db.get_by_id(0).is_some());
    assert!(db.get_by_id(1).is_none());
    assert!(db.get_by_id(usize::MAX).is_none());
}

#[test]
fn tags_listed_in_first_use_order_without_duplicates() {
    let posts = vec![
        make_post("one", (2024, 3, 1), &["rust", "verus"], "a.md"),
        make_post("two", (2024, 2, 1), &["verus", "proofs"], "b.md"),
    ];
    let db = PostDb::build(posts).unwrap();
    let tags: Vec<&str> = db.tags().iter().map(|t| t.0.as_str()).collect();
    assert_eq!(tags, vec!["rust", "verus", "proofs"]);
}

#[test]
fn documents_for_tag_in_collection_order() {
    let posts = vec![
        make_post("old", (2023, 1, 1), &["shared", "onlyold"], "a.md"),
        make_post("new", (2024, 1, 1), &["shared"], "b.md"),
    ];
    let db = PostDb::build(posts).unwrap();
    let shared: Vec<&str> = db
        .get_by_tag(&Tag("shared".to_string()))
        .iter()
        .map(|p| p.meta.slug.as_str())
        .collect();
    assert_eq!(shared, vec!["new", "old"]);
    let only: Vec<&str> = db
        .get_by_tag(&Tag("onlyold".to_string()))
        .iter()
        .map(|p| p.meta.slug.as_str())
        .collect();
    assert_eq!(only, vec!["old"]);
}

#[test]
fn absent_tag_yields_empty_not_error() {
    let db = PostDb::build(vec![make_post("only", (2024, 1, 1), &["a"], "a.md")]).unwrap();
    assert!(db.get_by_tag(&Tag("nope".to_string())).is_empty());
    // and no listed tag is empty of documents
    for t in db.tags() {
        assert!(!db.get_by_tag(t).is_empty());
    }
}

#[test]
fn repeated_tag_on_one_post_appends_twice() {
    let db = PostDb::build(vec![make_post("only", (2024, 1, 1), &["a", "a"], "a.md")]).unwrap();
    let hits = db.get_by_tag(&Tag("a".to_string()));
    assert_eq!(hits.len(), 2);
}

#[test]
fn front_posts_skips_drafts_and_caps() {
    let mut posts = Vec::new();
    for i in 0..8u8 {
        let mut p = make_post(&format!("p{}", i), (2024, 1, 20 - i), &[], "x.md");
        p.meta.draft = i % 2 == 1; // p1, p3, p5, p7 are drafts
        posts.push(p);
    }
    let db = PostDb::build(posts).unwrap();
    // sorted order equals input order here (descending days)
    assert_eq!(db.front_posts(5), vec![0, 2, 4, 6]);
    assert_eq!(db.front_posts(2), vec![0, 2]);
    assert_eq!(db.front_posts(0), Vec::<usize>::new());
}

#[test]
fn tag_identity_is_exact_text() {
    let db = PostDb::build(vec![make_post("only", (2024, 1, 1), &["Rust"], "a.md")]).unwrap();
    assert!(db.get_by_tag(&Tag("rust".to_string())).is_empty());
    assert_eq!(db.get_by_tag(&Tag("Rust".to_string())).len(), 1);
}
