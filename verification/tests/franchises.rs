use franchises::builder::{build, Builder};
use franchises::model::is_franchise_edge;
use franchises::text::title_le;
use franchises::date::FuzzyDate;
use franchises::extract::{extract, Franchise};
use franchises::graph::FranchiseGraph;
use franchises::model::{
    media_list_outcome, FetchError, FilterPolicy, MediaKind, PageResult, RelationEdge,
    RelationKind, ServiceError, ServiceReply, TitleRecord,
};

fn date(y: Option<i32>, m: Option<i32>, d: Option<i32>) -> FuzzyDate {
    FuzzyDate { year: y, month: m, day: d }
}

fn edge(kind: RelationKind, to: u64, media: Option<MediaKind>) -> RelationEdge {
    RelationEdge { relation_kind: kind, related_id: to, related_kind: media }
}

fn record(id: u64, title: &str, d: FuzzyDate, edges: Vec<RelationEdge>) -> TitleRecord {
    TitleRecord { id, display_title: title.to_string(), release_date: d, related_edges: edges }
}

fn franchise_shape(f: &Franchise) -> (String, Vec<u64>) {
    (
        f.representative_title.clone(),
        f.entries.iter().map(|e| e.id).collect(),
    )
}

#[test]
fn date_without_month_sorts_after_dated_month() {
    let plain_2020 = date(Some(2020), None, None);
    let jan_2020 = date(Some(2020), Some(1), None);
    assert!(!plain_2020.le(&jan_2020));
    assert!(jan_2020.le(&plain_2020));
}

#[test]
fn date_without_year_sorts_after_any_year() {
    let unknown = date(None, None, None);
    let dated = date(Some(2026), Some(12), Some(31));
    assert!(dated.le(&unknown));
    assert!(!unknown.le(&dated));
}

#[test]
fn date_order_is_by_year_first() {
    let b = date(Some(2010), None, None);
    let a = date(Some(2015), Some(1), Some(1));
    assert!(b.le(&a));
    assert!(!a.le(&b));
}

#[test]
fn kind_aware_filter_requires_anime_target() {
    let p = FilterPolicy::KindAware;
    assert!(is_franchise_edge(p, RelationKind::Prequel, Some(MediaKind::Anime)));
    assert!(is_franchise_edge(p, RelationKind::Summary, Some(MediaKind::Anime)));
    assert!(!is_franchise_edge(p, RelationKind::Prequel, Some(MediaKind::Manga)));
    assert!(!is_franchise_edge(p, RelationKind::Prequel, None));
    assert!(!is_franchise_edge(p, RelationKind::Adaptation, Some(MediaKind::Anime)));
    assert!(!is_franchise_edge(p, RelationKind::Character, Some(MediaKind::Anime)));
}

#[test]
fn kind_blind_filter_ignores_target_kind() {
    let p = FilterPolicy::KindBlind;
    assert!(is_franchise_edge(p, RelationKind::SpinOff, Some(MediaKind::Manga)));
    assert!(is_franchise_edge(p, RelationKind::Sequel, None));
    assert!(!is_franchise_edge(p, RelationKind::Source, Some(MediaKind::Anime)));
}

#[test]
fn exclusion_list_filter_rejects_only_three_kinds() {
    let p = FilterPolicy::ExclusionList;
    assert!(!is_franchise_edge(p, RelationKind::Adaptation, Some(MediaKind::Anime)));
    assert!(!is_franchise_edge(p, RelationKind::Character, None));
    assert!(!is_franchise_edge(p, RelationKind::Source, Some(MediaKind::Manga)));
    assert!(is_franchise_edge(p, RelationKind::Compilation, None));
    assert!(is_franchise_edge(p, RelationKind::Contains, None));
    assert!(is_franchise_edge(p, RelationKind::Other, None));
}

#[test]
fn edge_insertion_is_direction_blind_and_idempotent() {
    let mut g1 = FranchiseGraph::new();
    g1.insert_edge(1, 2);
    let mut g2 = FranchiseGraph::new();
    g2.insert_edge(2, 1);
    g2.insert_edge(1, 2);
    g2.insert_edge(2, 1);
    assert!(g1.has_edge(1, 2) && g1.has_edge(2, 1));
    assert!(g2.has_edge(1, 2) && g2.has_edge(2, 1));
    assert_eq!(g1.vertex_count(), g2.vertex_count());
    let records = vec![
        record(1, "one", date(Some(2000), None, None), vec![]),
        record(2, "two", date(Some(2001), None, None), vec![]),
    ];
    let f1: Vec<(String, Vec<u64>)> = extract(&g1, &records).iter().map(franchise_shape).collect();
    let f2: Vec<(String, Vec<u64>)> = extract(&g2, &records).iter().map(franchise_shape).collect();
    assert_eq!(f1, f2);
}

#[test]
fn isolated_titles_form_singleton_franchises() {
    let seeds = vec![
        record(1, "alpha", date(Some(2000), None, None), vec![]),
        record(2, "beta", date(Some(2001), None, None), vec![]),
    ];
    let responses: Vec<ServiceReply<PageResult>> = vec![];
    let g = build(&seeds, FilterPolicy::KindAware, &responses).unwrap();
    let fs = extract(&g, &seeds);
    assert_eq!(fs.len(), 2);
    assert_eq!(fs[0].representative_title, "alpha");
    assert_eq!(fs[0].entries.len(), 1);
    assert_eq!(fs[1].representative_title, "beta");
    assert_eq!(fs[1].entries.len(), 1);
}

#[test]
fn franchises_sorted_by_representative_title() {
    let seeds = vec![
        record(1, "bravo", date(Some(2000), None, None), vec![]),
        record(2, "alpha", date(Some(2001), None, None), vec![]),
        record(3, "charlie", date(Some(2002), None, None), vec![]),
    ];
    let responses: Vec<ServiceReply<PageResult>> = vec![];
    let g = build(&seeds, FilterPolicy::KindAware, &responses).unwrap();
    let fs = extract(&g, &seeds);
    let titles: Vec<String> = fs.iter().map(|f| f.representative_title.clone()).collect();
    assert_eq!(titles, vec!["alpha", "bravo", "charlie"]);
}

#[test]
fn rerunning_extraction_yields_identical_output() {
    let mut g = FranchiseGraph::new();
    g.insert_edge(1, 2);
    g.insert_vertex(3);
    let records = vec![
        record(1, "one", date(Some(2002), None, None), vec![]),
        record(2, "two", date(Some(2001), None, None), vec![]),
        record(3, "three", date(None, None, None), vec![]),
    ];
    let a: Vec<(String, Vec<u64>)> = extract(&g, &records).iter().map(franchise_shape).collect();
    let b: Vec<(String, Vec<u64>)> = extract(&g, &records).iter().map(franchise_shape).collect();
    assert_eq!(a, b);
}

#[test]
fn entries_ordered_by_date_with_missing_last() {
    let mut g = FranchiseGraph::new();
    g.insert_edge(1, 2);
    g.insert_edge(2, 3);
    let records = vec![
        record(1, "A", date(Some(2015), Some(1), Some(1)), vec![]),
        record(2, "B", date(Some(2010), None, None), vec![]),
        record(3, "C", date(None, None, None), vec![]),
    ];
    let fs = extract(&g, &records);
    assert_eq!(fs.len(), 1);
    let titles: Vec<String> = fs[0].entries.iter().map(|e| e.title.clone()).collect();
    assert_eq!(titles, vec!["B", "A", "C"]);
    assert_eq!(fs[0].representative_title, "B");
}

#[test]
fn lookup_resolves_unknown_prequel_into_one_franchise() {
    let seeds = vec![
        record(
            1,
            "first",
            date(Some(2000), None, None),
            vec![edge(RelationKind::Prequel, 4, Some(MediaKind::Anime))],
        ),
        record(2, "second", date(Some(2001), None, None), vec![]),
        record(3, "third", date(Some(2002), None, None), vec![]),
    ];
    let responses = vec![ServiceReply::Data(PageResult {
        has_next_page: false,
        titles: vec![record(4, "fourth", date(Some(1999), None, None), vec![])],
    })];
    let g = build(&seeds, FilterPolicy::KindAware, &responses).unwrap();
    assert_eq!(g.vertex_count(), 4);
    assert!(g.has_edge(1, 4));
    let fs = extract(&g, &seeds);
    assert_eq!(fs.len(), 3);
    let merged: Vec<&Franchise> = fs.iter().filter(|f| f.entries.len() == 1 && f.entries[0].id == 1).collect();
    assert_eq!(merged.len(), 1);
}

#[test]
fn service_error_aborts_the_build() {
    let seeds = vec![record(
        1,
        "first",
        date(Some(2000), None, None),
        vec![edge(RelationKind::Sequel, 4, Some(MediaKind::Anime))],
    )];
    let responses = vec![ServiceReply::Failures(vec![ServiceError {
        status: 500,
        message: "boom".to_string(),
    }])];
    match build(&seeds, FilterPolicy::KindAware, &responses) {
        Err(FetchError::Service { status, message }) => {
            assert_eq!(status, 500);
            assert_eq!(message, "boom");
        }
        _ => panic!("expected a service error"),
    }
}

#[test]
fn unrecognized_reply_is_a_decode_failure() {
    let seeds = vec![record(
        1,
        "first",
        date(Some(2000), None, None),
        vec![edge(RelationKind::Sequel, 4, Some(MediaKind::Anime))],
    )];
    let responses = vec![ServiceReply::Unrecognized];
    assert!(matches!(
        build(&seeds, FilterPolicy::KindAware, &responses),
        Err(FetchError::Decode)
    ));
    let responses = vec![ServiceReply::Failures(vec![])];
    assert!(matches!(
        build(&seeds, FilterPolicy::KindAware, &responses),
        Err(FetchError::Decode)
    ));
}

#[test]
fn exhausted_replies_are_a_transport_failure() {
    let seeds = vec![record(
        1,
        "first",
        date(Some(2000), None, None),
        vec![edge(RelationKind::Sequel, 4, Some(MediaKind::Anime))],
    )];
    let responses: Vec<ServiceReply<PageResult>> = vec![];
    assert!(matches!(
        build(&seeds, FilterPolicy::KindAware, &responses),
        Err(FetchError::Transport)
    ));
}

#[test]
fn self_reference_terminates_immediately() {
    let seeds = vec![record(
        1,
        "loop",
        date(Some(2000), None, None),
        vec![edge(RelationKind::Sequel, 1, Some(MediaKind::Anime))],
    )];
    let responses: Vec<ServiceReply<PageResult>> = vec![];
    let g = build(&seeds, FilterPolicy::KindAware, &responses).unwrap();
    assert_eq!(g.vertex_count(), 1);
    assert!(!g.has_edge(1, 1));
}

#[test]
fn silently_omitted_id_still_terminates() {
    let seeds = vec![record(
        1,
        "first",
        date(Some(2000), None, None),
        vec![edge(RelationKind::Sequel, 4, Some(MediaKind::Anime))],
    )];
    let responses = vec![ServiceReply::Data(PageResult { has_next_page: false, titles: vec![] })];
    let g = build(&seeds, FilterPolicy::KindAware, &responses).unwrap();
    assert_eq!(g.vertex_count(), 2);
}

#[test]
fn pagination_walks_pages_in_order_and_chains_rounds() {
    let seeds = vec![record(
        1,
        "first",
        date(Some(2000), None, None),
        vec![edge(RelationKind::Sequel, 4, Some(MediaKind::Anime))],
    )];
    let responses = vec![
        ServiceReply::Data(PageResult {
            has_next_page: true,
            titles: vec![record(
                4,
                "fourth",
                date(Some(2001), None, None),
                vec![edge(RelationKind::Sequel, 5, Some(MediaKind::Anime))],
            )],
        }),
        ServiceReply::Data(PageResult { has_next_page: false, titles: vec![] }),
        ServiceReply::Data(PageResult {
            has_next_page: false,
            titles: vec![record(5, "fifth", date(Some(2002), None, None), vec![])],
        }),
    ];
    let g = build(&seeds, FilterPolicy::KindAware, &responses).unwrap();
    assert_eq!(g.vertex_count(), 3);
    assert!(g.has_edge(1, 4));
    assert!(g.has_edge(4, 5));
    assert!(!g.has_edge(1, 5));
}

#[test]
fn builder_reports_request_state() {
    let seeds = vec![record(
        1,
        "first",
        date(Some(2000), None, None),
        vec![edge(RelationKind::Sequel, 4, Some(MediaKind::Anime))],
    )];
    let b = Builder::new(&seeds, FilterPolicy::KindAware);
    assert!(!b.done());
    assert_eq!(b.request_page(), 1);
    assert_eq!(b.request_ids().as_slice(), &[4u64]);
}

#[test]
fn media_list_outcome_takes_the_first_list() {
    let lists = vec![
        vec![record(1, "one", date(Some(2000), None, None), vec![])],
        vec![record(2, "two", date(Some(2001), None, None), vec![])],
    ];
    let r = media_list_outcome(ServiceReply::Data(lists)).unwrap();
    assert_eq!(r.len(), 1);
    assert_eq!(r[0].id, 1);
}

#[test]
fn media_list_outcome_maps_failures() {
    let r = media_list_outcome(ServiceReply::Data(vec![]));
    assert!(matches!(r, Err(FetchError::Decode)));
    let r = media_list_outcome(ServiceReply::Failures(vec![ServiceError {
        status: 404,
        message: "missing".to_string(),
    }]));
    match r {
        Err(FetchError::Service { status, message }) => {
            assert_eq!(status, 404);
            assert_eq!(message, "missing");
        }
        _ => panic!("expected a service error"),
    }
    let r = media_list_outcome(ServiceReply::Failures(vec![]));
    assert!(matches!(r, Err(FetchError::Decode)));
    let r = media_list_outcome(ServiceReply::Unrecognized);
    assert!(matches!(r, Err(FetchError::Decode)));
}

#[test]
fn component_without_records_gets_empty_representative() {
    let mut g = FranchiseGraph::new();
    g.insert_edge(7, 8);
    let records: Vec<TitleRecord> = vec![];
    let fs = extract(&g, &records);
    assert_eq!(fs.len(), 1);
    assert_eq!(fs[0].representative_title, "");
    assert_eq!(fs[0].entries.len(), 0);
}

#[test]
fn title_order_is_lexicographic() {
    assert!(title_le("abc", "abd"));
    assert!(!title_le("abd", "abc"));
    assert!(title_le("ab", "abc"));
    assert!(!title_le("abc", "ab"));
    assert!(title_le("", "a"));
    assert!(title_le("same", "same"));
}
