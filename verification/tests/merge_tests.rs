use cubiculum::merge::{discrete_interval_map, intersection, merge, merge_multiple, total_span};
use cubiculum::structs::Interval;

fn iv(chrom: &str, start: u64, end: u64, name: &str) -> Interval {
    Interval::from(
        Some(String::from(chrom)),
        Some(start),
        Some(end),
        Some(String::from(name)),
    )
}

#[test]
fn discretizer_identical() {
    let input: Vec<Interval> = vec![
        Interval::from(Some(String::from("chr1")), Some(100), Some(200), Some(String::from("one"))),
        Interval::from(Some(String::from("chr1")), Some(100), Some(200), Some(String::from("two"))),
    ];
    let (vec, map) = discrete_interval_map(&input);
    println!("{:#?}", vec);
    println!("{:#?}", map);
}

#[test]
fn discretizer_simple_overlap() {
    let input: Vec<Interval> = vec![
        Interval::from(Some(String::from("chr1")), Some(100), Some(200), Some(String::from("one"))),
        Interval::from(Some(String::from("chr1")), Some(150), Some(220), Some(String::from("two"))),
    ];
    let (vec, map) = discrete_interval_map(&input);
    println!("{:#?}", vec);
    println!("{:#?}", map);
}

#[test]
fn discretizer_nested_overlap() {
    let input: Vec<Interval> = vec![
        Interval::from(Some(String::from("chr1")), Some(100), Some(200), Some(String::from("one"))),
        Interval::from(Some(String::from("chr1")), Some(150), Some(180), Some(String::from("two"))),
    ];
    let (vec, map) = discrete_interval_map(&input);
    println!("{:#?}", vec);
    println!("{:#?}", map);
}

#[test]
fn discretizer_shared_start() {
    let input: Vec<Interval> = vec![
        Interval::from(Some(String::from("chr1")), Some(100), Some(200), Some(String::from("one"))),
        Interval::from(Some(String::from("chr1")), Some(100), Some(220), Some(String::from("two"))),
    ];
    let (vec, map) = discrete_interval_map(&input);
    println!("{:#?}", vec);
    println!("{:#?}", map);
}

#[test]
fn discretizer_three_intervals() {
    let input: Vec<Interval> = vec![
        Interval::from(Some(String::from("chr1")), Some(100), Some(200), Some(String::from("one"))),
        Interval::from(Some(String::from("chr1")), Some(100), Some(220), Some(String::from("two"))),
        Interval::from(Some(String::from("chr1")), Some(230), Some(250), Some(String::from("three"))),
    ];
    let (vec, map) = discrete_interval_map(&input);
    println!("{:#?}", vec);
    println!("{:#?}", map);
}

#[test]
fn real_life_test() {
    let input: Vec<Interval> = vec![
        iv("chr9", 113042724, 113044268, "ENST00000374227.8#ZFP37_1"),
        iv("chr9", 113049361, 113049496, "ENST00000374227.8#ZFP37_2"),
        iv("chr9", 113049790, 113049872, "ENST00000374227.8#ZFP37_3"),
        iv("chr9", 113056556, 113056688, "ENST00000374227.8#ZFP37_4"),
        iv("chr9", 113042724, 113044268, "NM_001282515.2#ZFP37_1"),
        iv("chr9", 113049361, 113049496, "NM_001282515.2#ZFP37_2"),
        iv("chr9", 113049790, 113049917, "NM_001282515.2#ZFP37_3"),
        iv("chr9", 113056556, 113056688, "NM_001282515.2#ZFP37_4"),
        iv("chr9", 113042724, 113044268, "NM_001282518.2#ZFP37_1"),
        iv("chr9", 113049361, 113049496, "NM_001282518.2#ZFP37_2"),
        iv("chr9", 113049790, 113049875, "NM_001282518.2#ZFP37_3"),
        iv("chr9", 113056556, 113056688, "NM_001282518.2#ZFP37_4"),
    ];
    let (vec, map) = discrete_interval_map(&input);
    println!("{:#?}", vec);
    println!("{:#?}", map);
}

// DISCRETIZATION COVERAGE: an interval fully containing an elementary
// interval contributes its name to that interval's list, and the
// elementary intervals tile exactly the covered positions.
#[test]
fn discretizer_contributors_exact() {
    let input: Vec<Interval> = vec![
        iv("chr1", 100, 200, "one"),
        iv("chr1", 150, 220, "two"),
    ];
    let (pieces, map) = discrete_interval_map(&input);
    assert_eq!(pieces.len(), 3);
    assert_eq!((pieces[0].start, pieces[0].end), (Some(100), Some(150)));
    assert_eq!((pieces[1].start, pieces[1].end), (Some(150), Some(200)));
    assert_eq!((pieces[2].start, pieces[2].end), (Some(200), Some(220)));
    assert_eq!(pieces[0].name.as_deref(), Some("0"));
    assert_eq!(pieces[1].name.as_deref(), Some("1"));
    assert_eq!(pieces[2].name.as_deref(), Some("2"));
    assert_eq!(map.get("0").unwrap(), &vec![String::from("one")]);
    assert_eq!(
        map.get("1").unwrap(),
        &vec![String::from("one"), String::from("two")]
    );
    assert_eq!(map.get("2").unwrap(), &vec![String::from("two")]);
}

#[test]
fn discretizer_skips_uncovered_gaps() {
    let input: Vec<Interval> = vec![
        iv("chr1", 10, 20, "left"),
        iv("chr1", 50, 60, "right"),
    ];
    let (pieces, map) = discrete_interval_map(&input);
    // the gap between the two clusters yields no elementary interval
    assert_eq!(pieces.len(), 2);
    assert_eq!((pieces[0].start, pieces[0].end), (Some(10), Some(20)));
    assert_eq!((pieces[1].start, pieces[1].end), (Some(50), Some(60)));
    assert_eq!(map.get("0").unwrap(), &vec![String::from("left")]);
    assert_eq!(map.get("1").unwrap(), &vec![String::from("right")]);
    assert!(map.get("2").is_none());
}

#[test]
fn intersection_basic() {
    let inter_size = intersection(10, 20, 15, 23);
    assert_eq!(inter_size, Some(5));
    // touching intervals count as overlapping, with a zero-length overlap
    assert_eq!(intersection(10, 20, 20, 30), Some(0));
    // separated intervals do not intersect
    assert_eq!(intersection(10, 20, 21, 30), None);
}

#[test]
fn merge_pair_basic() {
    let inter1 = iv("chr1", 100, 200, "inter1");
    let inter2 = iv("chr1", 170, 300, "inter1");
    let merged = merge(inter1, inter2).unwrap();
    assert_eq!(merged.start, Some(100));
    assert_eq!(merged.end, Some(300));
    assert!(merged.chrom.is_none());
    assert!(merged.name.is_none());
    // disjoint spans do not merge
    assert!(merge(iv("chr1", 0, 5, "a"), iv("chr1", 7, 9, "b")).is_none());
}

#[test]
fn merge_multiple_folds_runs() {
    let input: Vec<Interval> = vec![
        iv("chr1", 0, 10, "a"),
        iv("chr1", 5, 20, "b"),
        iv("chr1", 20, 30, "c"),
        iv("chr1", 40, 50, "d"),
    ];
    let merged = merge_multiple(&input);
    assert_eq!(merged.len(), 2);
    assert_eq!((merged[0].start, merged[0].end), (Some(0), Some(30)));
    assert_eq!((merged[1].start, merged[1].end), (Some(40), Some(50)));
}

// MERGE IDEMPOTENCE: a strictly separated, sorted set passes through
// unchanged.
#[test]
fn merge_multiple_idempotent_on_separated() {
    let input: Vec<Interval> = vec![
        iv("chr1", 0, 10, "a"),
        iv("chr1", 12, 20, "b"),
        iv("chr1", 25, 30, "c"),
    ];
    let merged = merge_multiple(&input);
    assert_eq!(merged.len(), 3);
    for (m, orig) in merged.iter().zip(input.iter()) {
        assert_eq!(m.start, orig.start);
        assert_eq!(m.end, orig.end);
    }
    // running the fold again changes nothing further
    let twice = merge_multiple(&merged);
    assert_eq!(twice.len(), merged.len());
    for (a, b) in twice.iter().zip(merged.iter()) {
        assert_eq!(a.start, b.start);
        assert_eq!(a.end, b.end);
    }
}

#[test]
fn total_span_basic() {
    let input: Vec<Interval> = vec![
        iv("chr1", 100, 300, "outer"),
        iv("chr1", 120, 140, "inner"),
        iv("chr1", 90, 110, "left"),
    ];
    let span = total_span(&input);
    assert_eq!(span.start, Some(90));
    assert_eq!(span.end, Some(300));
    assert_eq!(span.chrom.as_deref(), Some("chr1"));
    assert_eq!(span.name.as_deref(), Some("chr1:90-300"));
}
