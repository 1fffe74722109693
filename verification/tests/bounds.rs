use clipper_rust::{find_next_loc_min, get_bounds, process_bound, BoundChains, BoundEdge, IntPoint, IntRect};

fn edge(bx: i64, by: i64, tx: i64, ty: i64) -> (IntPoint, IntPoint) {
    (IntPoint::new(bx, by), IntPoint::new(tx, ty))
}

#[test]
fn get_bounds_spans_every_bound_edge() {
    let minima = vec![
        BoundChains {
            left: vec![edge(0, 10, 5, 0)],
            right: vec![edge(0, 10, 10, 5), edge(10, 5, 8, -2)],
        },
        // no left bound: the minimum is passed over
        BoundChains { left: vec![], right: vec![edge(100, 100, 100, 50)] },
        BoundChains { left: vec![edge(-3, 20, -1, 12)], right: vec![] },
    ];
    assert_eq!(get_bounds(&minima), IntRect::new(-3, -2, 10, 20));
}

#[test]
fn get_bounds_of_nothing_is_empty() {
    assert_eq!(get_bounds(&Vec::new()), IntRect::new(0, 0, 0, 0));
    let no_left = vec![BoundChains { left: vec![], right: vec![edge(1, 1, 2, 2)] }];
    assert_eq!(get_bounds(&no_left), IntRect::new(0, 0, 0, 0));
}

fn ring_edge(bot: (i64, i64), top: (i64, i64), i: usize, n: usize) -> BoundEdge {
    BoundEdge {
        bot: IntPoint::new(bot.0, bot.1),
        top: IntPoint::new(top.0, top.1),
        curr: IntPoint::new(bot.0, bot.1),
        next: (i + 1) % n,
        prev: (i + n - 1) % n,
        next_in_lml: None,
        out_idx: -1,
        wind_delta: 1,
    }
}

fn diamond() -> Vec<BoundEdge> {
    vec![
        ring_edge((5, 10), (10, 5), 0, 4),
        ring_edge((10, 5), (5, 0), 1, 4),
        ring_edge((0, 5), (5, 0), 2, 4),
        ring_edge((5, 10), (0, 5), 3, 4),
    ]
}

#[test]
fn process_bound_links_a_bound_up_to_its_top() {
    let mut es = diamond();
    let mut minima = Vec::new();
    let mut touched = Vec::new();
    let r = process_bound(&mut es, &mut minima, 0, true, &mut touched);
    assert_eq!(r, Some(2));
    assert_eq!(es[0].next_in_lml, Some(1));
    assert_eq!(es[1].next_in_lml, None);
    assert!(touched.contains(&0));
    assert!(minima.is_empty());

    let r = process_bound(&mut es, &mut minima, 3, false, &mut touched);
    assert_eq!(r, Some(1));
    assert_eq!(es[3].next_in_lml, Some(2));
    assert_eq!(es[2].next_in_lml, None);
}

#[test]
fn process_bound_ends_before_a_horizontal_top_that_reaches_back() {
    let mut es = vec![
        ring_edge((0, 10), (10, 10), 0, 4),
        ring_edge((10, 10), (10, 0), 1, 4),
        ring_edge((10, 0), (0, 0), 2, 4),
        ring_edge((0, 10), (0, 0), 3, 4),
    ];
    let before = es.clone();
    let mut minima = Vec::new();
    let mut touched = Vec::new();
    let r = process_bound(&mut es, &mut minima, 1, true, &mut touched);
    assert_eq!(r, Some(2));
    assert_eq!(es, before);
}

#[test]
fn process_bound_reports_a_walk_that_never_ends() {
    // every edge's top is the bottom of the next: the climb goes round forever
    let mut es = vec![
        ring_edge((0, 0), (1, 0), 0, 2),
        ring_edge((1, 0), (0, 0), 1, 2),
    ];
    let mut minima = Vec::new();
    let mut touched = Vec::new();
    assert_eq!(process_bound(&mut es, &mut minima, 0, true, &mut touched), None);
}

#[test]
fn find_next_loc_min_finds_the_shared_bottom() {
    let mut es = diamond();
    // each edge starts at the vertex it leaves
    let starts = [(5, 10), (10, 5), (5, 0), (0, 5)];
    for (i, &(x, y)) in starts.iter().enumerate() {
        es[i].curr = IntPoint::new(x, y);
    }
    assert_eq!(find_next_loc_min(&es, 1), Some(0));
    assert_eq!(find_next_loc_min(&es, 0), Some(0));
}
