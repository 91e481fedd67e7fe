use cubiculum::extract::{parse_bed, CubiculumError};
use cubiculum::structs::{BedEntry, Coordinates, Interval, Named, Stranded, UtrBlock, UtrSide};

#[test]
fn interval_updates() {
    let mut interval = Interval::new();
    assert!(interval.chrom.is_none());
    interval.update_chrom(String::from("chr3"));
    interval.update_start(15);
    interval.update_end(40);
    interval.update_name(String::from("feature"));
    assert_eq!(interval.chrom.as_deref(), Some("chr3"));
    assert_eq!(interval.start, Some(15));
    assert_eq!(interval.end, Some(40));
    assert_eq!(interval.name.as_deref(), Some("feature"));
    assert_eq!(interval.length(), Some(25));
}

#[test]
fn coordinates_capability() {
    let interval = Interval::from(Some(String::from("chrX")), Some(5), Some(12), None);
    assert_eq!(interval.start(), Some(&5));
    assert_eq!(interval.end(), Some(&12));
    assert_eq!(interval.chrom().map(|c| c.as_str()), Some("chrX"));
    assert_eq!(interval.length(), Some(7));
    let mut resettable = interval.clone();
    resettable.reset_start();
    assert!(resettable.start.is_none());
    assert!(resettable.length().is_none());
}

#[test]
fn named_capability() {
    let mut interval = Interval::new();
    assert!(Named::name(&interval).is_none());
    interval.update_name(String::from("gene"));
    assert_eq!(Named::name(&interval), Some("gene"));
    Named::update_name(&mut interval, "renamed");
    assert_eq!(Named::name(&interval), Some("renamed"));
}

#[test]
fn bed_constructors_populate_progressively() {
    let b3 = BedEntry::bed3(String::from("chr1"), 5, 10);
    assert_eq!(b3.format(), 3);
    assert!(b3.name().is_none());
    let b6 = BedEntry::bed6(String::from("chr1"), 5, 10, String::from("n"), String::from("0"), true);
    assert_eq!(b6.format(), 6);
    assert_eq!(b6.strand(), Some(true));
    let b12 = BedEntry::bed12(
        String::from("chr1"),
        5,
        40,
        String::from("n"),
        String::from("0"),
        false,
        5,
        40,
        String::from("0"),
        2,
        vec![10, 15],
        vec![0, 20],
    );
    assert_eq!(b12.format(), 12);
    assert_eq!(b12.exon_num(), Some(2));
    assert_eq!(b12.exon_sizes().unwrap(), &vec![10, 15]);
    assert_eq!(b12.exon_starts().unwrap(), &vec![0, 20]);
    assert_eq!(b12.thick_start(), Some(5));
    assert_eq!(b12.thick_end(), Some(40));
    assert_eq!(b12.thin_start(), Some(5));
    assert_eq!(b12.thin_end(), Some(40));
    assert_eq!(b12.score().map(|s| s.as_str()), Some("0"));
    assert!(b12.rgb().is_some());
    let empty = BedEntry::empty();
    assert_eq!(empty.format(), 0);
}

#[test]
fn from_interval_projection() {
    let interval = Interval::from(Some(String::from("chr2")), Some(7), Some(19), None);
    let entry = BedEntry::from_interval(interval).unwrap();
    assert_eq!(entry.format(), 3);
    assert_eq!(entry.thin_start(), Some(7));
    assert_eq!(entry.thin_end(), Some(19));
    // an interval without coordinates projects to nothing
    assert!(BedEntry::from_interval(Interval::new()).is_none());
}

#[test]
fn to_interval_projection() {
    let entry = BedEntry::bed4(String::from("chr7"), 100, 220, String::from("f"));
    let interval = entry.to_interval();
    assert_eq!(interval.chrom.as_deref(), Some("chr7"));
    assert_eq!(interval.start, Some(100));
    assert_eq!(interval.end, Some(220));
    assert_eq!(interval.name.as_deref(), Some("f"));
}

#[test]
fn block_length_sums_blocks() {
    let line = String::from("chr1\t10\t40\tmodel\t0\t+\t10\t40\t0\t2\t10,15,\t0,15,");
    let entry = parse_bed(line, 12, false).unwrap().unwrap();
    assert_eq!(entry.block_length(), 25);
    let poor = BedEntry::bed3(String::from("chr1"), 10, 40);
    assert_eq!(poor.block_length(), 30);
}

#[test]
fn to_blocks_decomposes() {
    let line = String::from("chr1\t10\t40\tmodel\t7\t-\t10\t40\t0\t2\t10,15,\t0,15,");
    let entry = parse_bed(line, 12, false).unwrap().unwrap();
    let blocks = entry.to_blocks().unwrap();
    assert_eq!(blocks.len(), 2);
    assert_eq!(blocks[0].thin_start(), Some(10));
    assert_eq!(blocks[0].thin_end(), Some(20));
    assert_eq!(blocks[1].thin_start(), Some(25));
    assert_eq!(blocks[1].thin_end(), Some(40));
    assert_eq!(blocks[0].format(), 6);
    assert_eq!(blocks[0].score().map(|s| s.as_str()), Some("7"));
    assert_eq!(blocks[0].strand(), Some(false));
    // a poorer record cannot be decomposed
    assert!(BedEntry::bed3(String::from("chr1"), 10, 40).to_blocks().is_none());
}

#[test]
fn clip_by_trims_blocks() {
    let line = String::from("chr1\t10\t40\tmodel\t0\t+\t10\t40\t0\t2\t10,15,\t0,15,");
    let mut entry = parse_bed(line, 12, false).unwrap().unwrap();
    let clipped = entry.clip_by(Some(15), Some(38), false).unwrap().unwrap();
    // blocks [10,20) and [25,40) trimmed to [15,20) and [25,38)
    assert_eq!(clipped.thin_start, Some(15));
    assert_eq!(clipped.thin_end, Some(38));
    assert_eq!(clipped.exon_num, Some(2));
    assert_eq!(clipped.exon_sizes, Some(vec![5, 13]));
    assert_eq!(clipped.exon_starts, Some(vec![0, 10]));
    // the source record stayed untouched
    assert_eq!(entry.thin_start, Some(10));
    // an in-place clip rewrites the record itself
    assert!(entry.clip_by(Some(15), Some(38), true).unwrap().is_none());
    assert_eq!(entry.thin_start, Some(15));
    assert_eq!(entry.exon_sizes, Some(vec![5, 13]));
}

#[test]
fn clip_by_rejects_disjoint_window() {
    let line = String::from("chr1\t10\t40\tmodel\t0\t+\t10\t40\t0\t2\t10,15,\t0,15,");
    let mut entry = parse_bed(line, 12, false).unwrap().unwrap();
    assert!(matches!(
        entry.clip_by(Some(50), Some(60), false),
        Err(CubiculumError::ParseError(_))
    ));
}

#[test]
fn to_cds_clips_to_thick_range() {
    let line = String::from("chr1\t10\t40\tmodel\t0\t+\t15\t38\t0\t2\t10,15,\t0,15,");
    let mut entry = parse_bed(line, 12, false).unwrap().unwrap();
    let cds = entry.to_cds(false).unwrap().unwrap();
    assert_eq!(cds.thin_start, Some(15));
    assert_eq!(cds.thin_end, Some(38));
    assert_eq!(cds.exon_sizes, Some(vec![5, 13]));
    // a record below format eight has no coding range to clip to
    let mut poor = BedEntry::bed6(
        String::from("chr1"),
        10,
        40,
        String::from("n"),
        String::from("0"),
        true,
    );
    assert!(matches!(poor.to_cds(false), Err(CubiculumError::MissingTraitError(_))));
}

#[test]
fn utr_block_views() {
    let source = BedEntry::bed6(
        String::from("chr9"),
        500,
        900,
        String::from("flank"),
        String::from("0"),
        false,
    );
    let mut block = UtrBlock::from_bed(&source);
    assert_eq!(block.chrom.as_deref(), Some("chr9"));
    assert_eq!(block.start, Some(500));
    assert_eq!(block.end, Some(900));
    assert_eq!(block.name.as_deref(), Some("flank"));
    assert_eq!(Stranded::strand(&block), false);
    block.set_side(UtrSide::FivePrime);
    block.set_adjacency(true);
    assert_eq!(block.side, Some(UtrSide::FivePrime));
    assert_eq!(block.adjacent, Some(true));
    block.update_strand(true);
    assert_eq!(Stranded::strand(&block), true);
    assert_eq!(block.length(), Some(400));
    let fresh = UtrBlock::new();
    assert!(fresh.side.is_none() && fresh.adjacent.is_none());
}

#[test]
fn update_thin_start_shifts_anchor() {
    let mut entry = BedEntry::bed3(String::from("chr1"), 10, 40);
    entry.update_thin_start(12);
    assert_eq!(entry.thin_start(), Some(12));
}

#[test]
fn error_messages_are_reachable() {
    let err = parse_bed(String::from("chr1\tnope\t40"), 3, false).unwrap_err();
    assert!(!err.message().is_empty());
}
