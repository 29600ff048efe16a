use itertools::Itertools;
use ruskcov::span::{cover, Span, PAGE_SIZE};

#[test]
fn simple() {
    let v = vec![100, 200, 300];

    let a: Vec<_> = v
        .into_iter()
        .map(Span::new)
        .coalesce(|prev, cur| prev.extend(cur))
        .collect();

    assert_eq!(
        vec![Span {
            start: 0,
            len: PAGE_SIZE,
            addrs: vec![100, 200, 300],
        },],
        a
    );
}

#[test]
fn sparse() {
    let v = vec![10000, 20000, 30000];

    let a: Vec<_> = v
        .into_iter()
        .map(Span::new)
        .coalesce(|prev, cur| prev.extend(cur))
        .collect();

    assert_eq!(
        vec![
            Span {
                start: 8192,
                len: PAGE_SIZE,
                addrs: vec![10000],
            },
            Span {
                start: 16384,
                len: PAGE_SIZE,
                addrs: vec![20000],
            },
            Span {
                start: 28672,
                len: PAGE_SIZE,
                addrs: vec![30000],
            },
        ],
        a
    );
}

#[test]
fn adjacent() {
    let v = vec![4000, 5000];

    let a: Vec<_> = v
        .into_iter()
        .map(Span::new)
        .coalesce(|prev, cur| prev.extend(cur))
        .collect();

    assert_eq!(
        vec![Span {
            start: 0,
            len: PAGE_SIZE * 2,
            addrs: vec![4000, 5000],
        },],
        a
    );
}

#[test]
fn span_new_rounds_down_to_the_page() {
    assert_eq!(Span::new(0), Span { start: 0, len: 4096, addrs: vec![0] });
    assert_eq!(Span::new(4095), Span { start: 0, len: 4096, addrs: vec![4095] });
    assert_eq!(Span::new(4096), Span { start: 4096, len: 4096, addrs: vec![4096] });
    assert_eq!(Span::new(12345), Span { start: 12288, len: 4096, addrs: vec![12345] });
}

#[test]
fn extend_merges_within_one_page_past_the_end() {
    // the next page
    let merged = Span::new(100).extend(Span::new(4096)).unwrap();
    assert_eq!(merged, Span { start: 0, len: 8192, addrs: vec![100, 4096] });
    // one page apart: the span also takes the page between
    let merged = Span::new(100).extend(Span::new(8191)).unwrap();
    assert_eq!(merged, Span { start: 0, len: 8192, addrs: vec![100, 8191] });
    // two pages apart
    let (first, second) = Span::new(100).extend(Span::new(8192)).unwrap_err();
    assert_eq!(first, Span::new(100));
    assert_eq!(second, Span::new(8192));
}

#[test]
fn extend_turns_down_an_earlier_span() {
    let (first, second) = Span::new(8192).extend(Span::new(100)).unwrap_err();
    assert_eq!(first, Span::new(8192));
    assert_eq!(second, Span::new(100));
}

#[test]
fn extend_near_the_top_of_the_address_space() {
    let top = usize::MAX - 4096 - 4095;
    let merged = Span::new(top - 4096).extend(Span::new(top)).unwrap();
    assert_eq!(merged.start, top - 4096);
    assert_eq!(merged.len, 8192);
}

#[test]
fn cover_simple() {
    assert_eq!(
        cover(vec![100, 200, 300]),
        vec![Span { start: 0, len: PAGE_SIZE, addrs: vec![100, 200, 300] }]
    );
}

#[test]
fn cover_sparse() {
    let spans = cover(vec![10000, 20000, 30000]);
    assert_eq!(spans.len(), 3);
    assert_eq!(spans.iter().map(|s| s.start).collect::<Vec<_>>(), vec![8192, 16384, 28672]);
    assert!(spans.iter().all(|s| s.len == 4096 && s.addrs.len() == 1));
}

#[test]
fn cover_adjacent() {
    assert_eq!(
        cover(vec![4000, 5000]),
        vec![Span { start: 0, len: 8192, addrs: vec![4000, 5000] }]
    );
}

#[test]
fn cover_sorts_its_input() {
    assert_eq!(
        cover(vec![30000, 100, 20000, 200]),
        vec![
            Span { start: 0, len: 4096, addrs: vec![100, 200] },
            Span { start: 16384, len: 4096, addrs: vec![20000] },
            Span { start: 28672, len: 4096, addrs: vec![30000] },
        ]
    );
}

#[test]
fn cover_of_nothing_is_nothing() {
    assert_eq!(cover(vec![]), Vec::<Span>::new());
}

#[test]
fn cover_keeps_repeated_addresses() {
    assert_eq!(
        cover(vec![100, 100]),
        vec![Span { start: 0, len: 4096, addrs: vec![100, 100] }]
    );
}

fn sample(seed: u64, n: usize, max: usize) -> Vec<usize> {
    let mut state = seed;
    let mut out = Vec::new();
    for _ in 0..n {
        state = state.wrapping_mul(6364136223846793005).wrapping_add(1442695040888963407);
        out.push((state >> 33) as usize % max);
    }
    out.sort();
    out
}

#[test]
fn prop_contig() {
    for seed in 0..40 {
        let a = sample(seed, (seed as usize * 7) % 200, 100000);
        for Span { start, len, addrs } in cover(a) {
            assert!(addrs.into_iter().all(|addr| addr >= start && addr < (start + len)));
        }
    }
}

#[test]
fn prop_non_overlap() {
    for seed in 0..40 {
        let a = sample(seed, 1 + (seed as usize * 11) % 300, 100000);
        let spans = cover(a);
        for (idx, span) in spans[1..].iter().enumerate() {
            let prev = &spans[idx];
            assert!(
                span.start >= (prev.start + prev.len),
                "non-contig span {:?}, prev {:?}",
                span,
                prev
            );
        }
    }
}

#[test]
fn prop_all_addrs() {
    for seed in 0..40 {
        let a = sample(seed, (seed as usize * 13) % 300, 100000);
        let spans = cover(a.clone());
        let spanaddrs: Vec<usize> = spans.into_iter().flat_map(|s| s.addrs).collect();
        assert_eq!(a, spanaddrs);
    }
}

#[test]
fn prop_is_sorted() {
    for seed in 0..40 {
        let a = sample(seed, 2 + (seed as usize * 17) % 300, 100000);
        let spans = cover(a);
        for (idx, span) in spans[1..].iter().enumerate() {
            let prev = &spans[idx];
            assert!(prev < span);
        }
    }
}

#[test]
fn prop_aligned_whole_pages() {
    for seed in 0..40 {
        let a = sample(seed, (seed as usize * 19) % 300, 100000);
        for span in cover(a) {
            assert_eq!(span.start % PAGE_SIZE, 0);
            assert!(span.len > 0);
            assert_eq!(span.len % PAGE_SIZE, 0);
        }
    }
}
