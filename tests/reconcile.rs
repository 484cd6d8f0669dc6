use std::cmp::Ordering;

use bounce_helmet::{BridgeGuard, DesiredSet, GuardError, Reconciler, RenderedMap, Step, Tag, TagKind};

fn title(s: &str) -> Tag {
    Tag::new(TagKind::Title, s.to_string(), Vec::new())
}

fn meta(name: &str, content: &str) -> Tag {
    Tag::new(
        TagKind::Meta,
        String::new(),
        vec![
            ("name".to_string(), name.to_string()),
            ("content".to_string(), content.to_string()),
        ],
    )
}

fn describe(t: &Tag) -> String {
    let mut s = format!("{:?}:{}", t.kind, t.content);
    for (k, v) in t.attrs.iter() {
        s.push_str(&format!(" {}={}", k, v));
    }
    s
}

#[derive(Default)]
struct Medium {
    next: u32,
    applied: Vec<String>,
    detached: Vec<(String, Option<u32>)>,
}

fn run(to_render: DesiredSet, last: Option<RenderedMap<u32>>, medium: &mut Medium) -> RenderedMap<u32> {
    let mut r = Reconciler::new(to_render, last);
    loop {
        match r.step() {
            Step::Apply => {
                medium.next += 1;
                let h = medium.next;
                medium.applied.push(describe(r.pending_tag().unwrap()));
                r.applied(Some(h));
            }
            Step::Detach(t, h) => medium.detached.push((describe(&t), h)),
            Step::Done => break,
        }
    }
    r.finish()
}

fn entries(m: &RenderedMap<u32>) -> Vec<(String, Option<u32>)> {
    (0..m.len()).map(|i| (describe(m.tag(i)), *m.handle(i))).collect()
}

fn set(tags: Vec<Tag>) -> DesiredSet {
    DesiredSet::from_tags(tags)
}

#[test]
fn two_cycles_replace_title_keep_meta() {
    let mut medium = Medium::default();
    let first = run(set(vec![title("A"), meta("x", "1")]), None, &mut medium);
    assert_eq!(
        entries(&first),
        vec![
            ("Title:A".to_string(), Some(1)),
            ("Meta: name=x content=1".to_string(), Some(2)),
        ]
    );
    assert_eq!(medium.applied.len(), 2);
    assert!(medium.detached.is_empty());

    let mut medium2 = Medium { next: medium.next, ..Medium::default() };
    let second = run(set(vec![title("B"), meta("x", "1")]), Some(first), &mut medium2);
    assert_eq!(
        entries(&second),
        vec![
            ("Title:B".to_string(), Some(3)),
            ("Meta: name=x content=1".to_string(), Some(2)),
        ]
    );
    assert_eq!(medium2.applied, vec!["Title:B".to_string()]);
    assert_eq!(medium2.detached, vec![("Title:A".to_string(), Some(1))]);
}

#[test]
fn first_run_applies_every_tag() {
    let mut medium = Medium::default();
    let out = run(set(vec![meta("b", "2"), title("T"), meta("a", "1")]), None, &mut medium);
    assert_eq!(
        medium.applied,
        vec![
            "Title:T".to_string(),
            "Meta: name=a content=1".to_string(),
            "Meta: name=b content=2".to_string(),
        ]
    );
    assert!(medium.detached.is_empty());
    assert_eq!(out.len(), 3);
}

#[test]
fn empty_desired_set_detaches_everything() {
    let mut medium = Medium::default();
    let first = run(set(vec![title("A"), meta("x", "1")]), None, &mut medium);
    let mut medium2 = Medium::default();
    let out = run(DesiredSet::new(), Some(first), &mut medium2);
    assert_eq!(out.len(), 0);
    assert!(medium2.applied.is_empty());
    assert_eq!(
        medium2.detached,
        vec![
            ("Title:A".to_string(), Some(1)),
            ("Meta: name=x content=1".to_string(), Some(2)),
        ]
    );
}

#[test]
fn both_empty_makes_no_calls() {
    let mut medium = Medium::default();
    let out = run(DesiredSet::new(), None, &mut medium);
    assert_eq!(out.len(), 0);
    assert!(medium.applied.is_empty());
    assert!(medium.detached.is_empty());
    let out = run(DesiredSet::new(), Some(RenderedMap::new()), &mut medium);
    assert_eq!(out.len(), 0);
    assert!(medium.applied.is_empty());
    assert!(medium.detached.is_empty());
}

#[test]
fn same_set_twice_reuses_every_handle() {
    let mut medium = Medium::default();
    let tags = || vec![title("A"), meta("x", "1"), meta("y", "2")];
    let first = run(set(tags()), None, &mut medium);
    let before = entries(&first);
    let mut medium2 = Medium::default();
    let second = run(set(tags()), Some(first), &mut medium2);
    assert!(medium2.applied.is_empty());
    assert!(medium2.detached.is_empty());
    assert_eq!(entries(&second), before);
}

#[test]
fn kept_tag_is_not_applied_again() {
    let mut medium = Medium::default();
    let first = run(set(vec![meta("keep", "1"), meta("old", "1")]), None, &mut medium);
    let mut medium2 = Medium { next: medium.next, ..Medium::default() };
    let second = run(set(vec![meta("keep", "1"), meta("new", "1")]), Some(first), &mut medium2);
    assert_eq!(medium2.applied, vec!["Meta: name=new content=1".to_string()]);
    assert_eq!(medium2.detached, vec![("Meta: name=old content=1".to_string(), Some(2))]);
    assert_eq!(
        entries(&second),
        vec![
            ("Meta: name=keep content=1".to_string(), Some(1)),
            ("Meta: name=new content=1".to_string(), Some(3)),
        ]
    );
}

#[test]
fn several_stale_entries_before_one_new_tag() {
    let mut medium = Medium::default();
    let first = run(set(vec![title("a"), title("b"), title("c")]), None, &mut medium);
    let mut medium2 = Medium { next: medium.next, ..Medium::default() };
    let second = run(set(vec![title("d")]), Some(first), &mut medium2);
    assert_eq!(
        medium2.detached,
        vec![
            ("Title:a".to_string(), Some(1)),
            ("Title:b".to_string(), Some(2)),
            ("Title:c".to_string(), Some(3)),
        ]
    );
    assert_eq!(medium2.applied, vec!["Title:d".to_string()]);
    assert_eq!(entries(&second), vec![("Title:d".to_string(), Some(4))]);
}

#[test]
fn teardown_after_several_cycles_detaches_each_live_handle_once() {
    let mut medium = Medium::default();
    let m1 = run(set(vec![title("A"), meta("x", "1")]), None, &mut medium);
    let m2 = run(set(vec![title("B"), meta("x", "1")]), Some(m1), &mut medium);
    let m3 = run(set(vec![title("B"), meta("y", "1")]), Some(m2), &mut medium);
    let live = entries(&m3);
    let before = medium.detached.len();
    let end = run(DesiredSet::new(), Some(m3), &mut medium);
    assert_eq!(end.len(), 0);
    assert_eq!(medium.detached[before..].to_vec(), live);
    let mut handles: Vec<Option<u32>> = medium.detached.iter().map(|d| d.1).collect();
    handles.sort();
    handles.dedup();
    assert_eq!(handles.len(), medium.detached.len());
    assert_eq!(handles.len() as u32, medium.next);
}

#[test]
fn desired_set_ignores_construction_order() {
    let a = set(vec![title("T"), meta("a", "1"), meta("b", "2")]);
    let b = set(vec![meta("b", "2"), meta("a", "1"), title("T")]);
    let c = set(vec![meta("a", "1"), title("T"), meta("b", "2"), title("T")]);
    let seq = |s: &DesiredSet| (0..s.len()).map(|i| describe(s.get(i))).collect::<Vec<_>>();
    assert_eq!(seq(&a), seq(&b));
    assert_eq!(seq(&a), seq(&c));
    assert_eq!(
        seq(&a),
        vec![
            "Title:T".to_string(),
            "Meta: name=a content=1".to_string(),
            "Meta: name=b content=2".to_string(),
        ]
    );
}

#[test]
fn desired_set_collapses_equal_tags() {
    let mut s = DesiredSet::new();
    s.insert(title("A"));
    s.insert(title("A"));
    s.insert(meta("x", "1"));
    s.insert(meta("x", "1"));
    assert_eq!(s.len(), 2);
}

#[test]
fn tag_order_by_kind_then_content_then_attrs() {
    assert_eq!(title("z").compare(&meta("a", "1")), Ordering::Less);
    assert_eq!(meta("a", "1").compare(&title("z")), Ordering::Greater);
    assert_eq!(title("a").compare(&title("b")), Ordering::Less);
    assert_eq!(title("ab").compare(&title("a")), Ordering::Greater);
    assert_eq!(title("").compare(&title("a")), Ordering::Less);
    assert_eq!(title("same").compare(&title("same")), Ordering::Equal);
    assert_eq!(meta("a", "1").compare(&meta("a", "2")), Ordering::Less);
    assert_eq!(meta("b", "1").compare(&meta("a", "9")), Ordering::Greater);
    assert_eq!(meta("a", "1").compare(&meta("a", "1")), Ordering::Equal);
    let short = Tag::new(TagKind::Link, String::new(), vec![("rel".to_string(), "icon".to_string())]);
    let long = Tag::new(
        TagKind::Link,
        String::new(),
        vec![("rel".to_string(), "icon".to_string()), ("href".to_string(), "/a".to_string())],
    );
    assert_eq!(short.compare(&long), Ordering::Less);
    assert_eq!(long.compare(&short), Ordering::Greater);
}

#[test]
fn kinds_are_ordered_as_declared() {
    let kinds = [
        TagKind::Title,
        TagKind::Script,
        TagKind::Style,
        TagKind::Base,
        TagKind::Link,
        TagKind::Meta,
        TagKind::Html,
        TagKind::Body,
    ];
    for (i, k) in kinds.iter().enumerate() {
        assert_eq!(k.rank_of() as usize, i);
    }
}

#[test]
fn unicode_text_compares_by_scalar_value() {
    assert_eq!(title("é").compare(&title("z")), Ordering::Greater);
    assert_eq!(title("aé").compare(&title("aé")), Ordering::Equal);
}

#[test]
fn guard_refuses_a_second_bridge() {
    let mut g = BridgeGuard::new();
    assert!(!g.registered());
    assert_eq!(g.register(), Ok(()));
    assert!(g.registered());
    assert_eq!(g.register(), Err(GuardError::AlreadyRegistered));
    assert!(g.registered());
    g.release();
    assert!(!g.registered());
    assert_eq!(g.register(), Ok(()));
}
