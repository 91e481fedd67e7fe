use cubiculum::extract::{parse_bed, to_line, CubiculumError};

#[test]
fn test_graft_upstream() {
    let mut input = parse_bed(
        String::from("chr1\t53298978\t53308962\tXM_047446425.1#ORMDL1#78\t0\t+\t53298978\t53308962\t0,0,100\t3\t174,152,136,\t0,6476,9848,"),
        12,
        false,
    )
    .unwrap()
    .unwrap();
    let graft1 = parse_bed(
        String::from("chr1\t53297131\t53298145\tXM_047446425.1#ORMDL1#78\t1\t+"),
        6,
        false,
    )
    .unwrap()
    .unwrap();
    println!("Adding graft1");
    let grafted = input.graft(graft1, true, true, false, false, false, false);
    assert!(grafted.is_ok());
    let graft2 = parse_bed(
        String::from("chr1\t53298971\t53298978\tXM_047446425.1#ORMDL1#78\t2\t+"),
        6,
        false,
    )
    .unwrap()
    .unwrap();
    println!("Adding graft2");
    let grafted = input.graft(graft2, true, true, false, false, true, false);
    assert!(grafted.is_ok());
    let graft3 = parse_bed(
        String::from("chr1\t53308962\t53310298\tXM_047446425.1#ORMDL1#78\t3\t+"),
        6,
        false,
    )
    .unwrap()
    .unwrap();
    println!("Adding graft3");
    let grafted = input.graft(graft3, true, true, false, false, false, true);
    assert!(grafted.is_ok());
    println!("{:#?}", input);
    println!("{}", to_line(&input, 12).unwrap());
}

#[test]
fn test_graft_both() {
    let input_line = String::from(
        "chr4\t49489819\t49503120\tENST00000259407.7#BAAT#20\t0\t-\t49489819\t49503120\t0,0,100\t3\t594,203,466,\t0,9816,12835,",
    );
    let mut input = parse_bed(input_line, 12, false).unwrap().unwrap();
    let graft1 = parse_bed(
        String::from("chr4\t49472245\t49489819\tENST00000259407.7#BAAT|0\t0\t-"),
        6,
        false,
    )
    .unwrap()
    .unwrap();
    let grafted = input.graft(graft1, true, true, false, false, true, false);
    assert!(grafted.is_ok());
    println!("{}", to_line(&input, 12).unwrap());

    let graft2 = parse_bed(
        String::from("chr4\t49503120\t49503179\tENST00000259407.7#BAAT|1\t0\t-"),
        6,
        false,
    )
    .unwrap()
    .unwrap();
    let grafted = input.graft(graft2, true, true, false, false, false, true);
    assert!(grafted.is_ok());
    println!("{}", to_line(&input, 12).unwrap());

    let graft3 = parse_bed(
        String::from("chr4\t49506738\t49510808\tENST00000259407.7#BAAT|2\t0\t-"),
        6,
        false,
    )
    .unwrap()
    .unwrap();
    let grafted = input.graft(graft3, true, true, false, false, false, false);
    assert!(grafted.is_ok());
    println!("{}", to_line(&input, 12).unwrap());
}

#[test]
fn test_graft_downstream() {
    let mut input = parse_bed(
        String::from("chr4\t136609684\t136613103\tENST00000566855.4#TEX46#5\t0\t+\t136609684\t136613103\t0,0,200\t3\t2,160,210,\t0,843,3209,"),
        12,
        false,
    )
    .unwrap()
    .unwrap();
    let graft = parse_bed(
        String::from("chr4\t136613095\t136613132\tENST00000566855.4#TEX46|1\t0\t+"),
        6,
        false,
    )
    .unwrap()
    .unwrap();
    let result = input.graft(graft, false, true, false, false, false, true).unwrap().unwrap();
    println!("{}", to_line(&result, 12).unwrap());
}

#[test]
fn graft_both_with_overlaps() {
    let mut input = parse_bed(
        String::from("chr10\t81321231\t81325954\tENST00000248420.9#CACTIN#261\t0\t+\t81321231\t81325954\t0,0,100\t9\t215,568,146,163,115,193,120,287,491,\t0,1206,1889,2387,2678,3071,3637,3858,4232,"),
        12,
        false,
    )
    .unwrap()
    .unwrap();
    let graft_up = parse_bed(
        String::from("chr10\t81321176\t81321231\tENST00000248420.9#CACTIN\t0\t+"),
        6,
        false,
    )
    .unwrap()
    .unwrap();
    let grafted_up = input.graft(graft_up, false, true, false, false, true, false).unwrap().unwrap();
    println!("{}", to_line(&grafted_up, 12).unwrap());

    let graft_down1 = parse_bed(
        String::from("chr10\t81325913\t81326232\tENST00000248420.9#CACTIN|2\t0\t+"),
        6,
        false,
    )
    .unwrap()
    .unwrap();
    let mut grafted_down1 = input
        .graft(graft_down1, false, true, true, false, false, false)
        .unwrap()
        .unwrap();
    println!("{}", to_line(&grafted_down1, 12).unwrap());

    let graft_down2 = parse_bed(
        String::from("chr10\t81325954\t81325973\tENST00000248420.9#CACTIN|1\t0\t+"),
        6,
        false,
    )
    .unwrap()
    .unwrap();
    let grafted_down2 = grafted_down1
        .graft(graft_down2, false, true, true, false, false, true)
        .unwrap()
        .unwrap();
    println!("{}", to_line(&grafted_down2, 12).unwrap());
}

#[test]
pub fn graft_problematic1() {
    let mut input = parse_bed(
        String::from("chr5\t33379227\t33414891\tA\t0\t+\t33379227\t33414891\t0,0,100\t13\t98,331,121,396,113,129,106,172,123,184,112,175,94,\t0,8428,9488,10414,12516,12828,23266,29581,30199,31631,32333,34671,35570,"),
        12,
        false,
    )
    .unwrap()
    .unwrap();
    let graft1 = parse_bed(String::from("chr5\t33378734\t33379277\t0\t0\t+"), 6, false)
        .unwrap()
        .unwrap();
    let _ = input.graft(graft1, true, true, true, false, false, false);
    println!("{}", to_line(&input, 12).unwrap());
    let graft2 = parse_bed(String::from("chr5\t33379225\t33379227\t1\t0\t+"), 6, false);
    assert!(graft2.is_ok());
}

#[test]
fn graft_flag_conflicts_are_rejected() {
    let mut input = parse_bed(
        String::from("chr1\t10\t40\tmodel\t0\t+\t10\t40\t0\t2\t10,10,\t0,20,"),
        12,
        false,
    )
    .unwrap()
    .unwrap();
    let addition = parse_bed(String::from("chr1\t40\t50\tpatch\t0\t+"), 6, false)
        .unwrap()
        .unwrap();
    // both flags at once
    let r = input.graft(addition.clone(), false, true, false, false, true, true);
    assert!(matches!(r, Err(CubiculumError::ParseError(_))));
    // a chromosome mismatch
    let other = parse_bed(String::from("chr2\t40\t50\tpatch\t0\t+"), 6, false)
        .unwrap()
        .unwrap();
    let r = input.graft(other, false, true, false, false, false, true);
    assert!(matches!(r, Err(CubiculumError::ParseError(_))));
    // a non-twelve-column record cannot take a graft
    let mut poor = parse_bed(String::from("chr1\t10\t40\tmodel\t0\t+"), 6, false)
        .unwrap()
        .unwrap();
    let r = poor.graft(addition, false, true, false, false, false, true);
    assert!(matches!(r, Err(CubiculumError::MissingTraitError(_))));
}

#[test]
fn graft_overlap_refused_without_permission() {
    let mut input = parse_bed(
        String::from("chr1\t10\t40\tmodel\t0\t+\t10\t40\t0\t2\t10,10,\t0,20,"),
        12,
        false,
    )
    .unwrap()
    .unwrap();
    // the addition ends inside the last block; without allow_overlaps the
    // splice yields no data and the record stays whole
    let addition = parse_bed(String::from("chr1\t25\t35\tpatch\t0\t+"), 6, false)
        .unwrap()
        .unwrap();
    let r = input.graft(addition.clone(), false, true, false, false, false, true).unwrap();
    assert!(r.is_none());
    assert_eq!(input.thin_end, Some(40));
    // with permission the blocks merge
    let r = input.graft(addition, false, true, true, false, false, false).unwrap().unwrap();
    assert_eq!(r.exon_num, Some(2));
    assert_eq!(r.exon_sizes, Some(vec![10, 15]));
    assert_eq!(r.exon_starts, Some(vec![0, 15]));
}

#[test]
fn graft_downstream_extends_last_block() {
    let mut input = parse_bed(
        String::from("chr1\t10\t40\tmodel\t0\t+\t10\t40\t0\t2\t10,10,\t0,20,"),
        12,
        false,
    )
    .unwrap()
    .unwrap();
    let addition = parse_bed(String::from("chr1\t45\t60\tpatch\t0\t+"), 6, false)
        .unwrap()
        .unwrap();
    let r = input.graft(addition, false, true, false, false, false, true).unwrap().unwrap();
    assert_eq!(r.thin_start, Some(10));
    assert_eq!(r.thin_end, Some(60));
    assert_eq!(r.exon_sizes, Some(vec![10, 30]));
    assert_eq!(r.exon_starts, Some(vec![0, 20]));
    // the source record was left untouched
    assert_eq!(input.thin_end, Some(40));
}
