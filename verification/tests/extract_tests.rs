use cubiculum::extract::{bed_to_fraction, parse_bed, to_line, BedFractionMode, CubiculumError};
use cubiculum::structs::BedEntry;

// PANIC-CLASS INPUTS: every malformed input is reported as a typed error.
#[test]
fn invalid_mode_is_rejected() {
    let input: String = String::from("chr9\t101360416\t101385006\tENST00000259407.7#BAAT\t0\t-\t101362427\t101371404\t0\t4\t2599,203,525,152,\t0,7703,10522,24438,");
    assert!(matches!(
        bed_to_fraction(input, "hello", false, false),
        Err(CubiculumError::ParseError(_))
    ));
}

#[test]
fn truncated_line_is_rejected() {
    let input: String = String::from("chr9\t101360416\t101385006\tENST00000259407.7#BAAT\t0\t-\t101362427\t101371404\t0\t4\t2599,203,525,152,");
    assert!(matches!(
        bed_to_fraction(input, "cds", false, false),
        Err(CubiculumError::ParseError(_))
    ));
}

#[test]
fn invalid_value_is_rejected() {
    let input: String = String::from("chr9\tAAA\t101385006\tENST00000259407.7#BAAT\t0\t-\t101362427\t101371404\t0\t4\t2599,203,525,152,\t0,7703,10522,24438,");
    assert!(matches!(
        bed_to_fraction(input, "cds", false, false),
        Err(CubiculumError::ParseError(_))
    ));
}

#[test]
fn negative_length_is_rejected() {
    let input: String = String::from("chr9\t101385006\t101360416\tENST00000259407.7#BAAT\t0\t-\t101362427\t101371404\t0\t4\t2599,203,525,152,\t0,7703,10522,24438,");
    assert!(matches!(
        bed_to_fraction(input, "cds", false, false),
        Err(CubiculumError::ParseError(_))
    ));
}

#[test]
fn out_of_boundary_cds_is_rejected() {
    let input: String = String::from("chr9\t101360416\t101385006\tENST00000259407.7#BAAT\t0\t-\t101362427\t101385008\t0\t4\t2599,203,525,152,\t0,7703,10522,24438,");
    assert!(matches!(
        bed_to_fraction(input, "cds", false, false),
        Err(CubiculumError::ParseError(_))
    ));
}

// PERFORMANCE TESTS
#[test]
fn basic_test() {
    // tests whether bed_to_fraction can return the same line as provided as input
    let input: String = String::from("chr9\t101360416\t101385006\tENST00000259407.7#BAAT\t0\t-\t101362427\t101371404\t0\t4\t2599,203,525,152,\t0,7703,10522,24438,");
    let expected: String = String::from("chr9\t101360416\t101385006\tENST00000259407.7#BAAT\t0\t-\t101362427\t101371404\t0\t4\t2599,203,525,152,\t0,7703,10522,24438,");
    assert_eq!(expected, bed_to_fraction(input, "all", false, false).unwrap().unwrap());
}

#[test]
fn basic_cds_test() {
    // "cds" mode returns the same line as input if a record holds coding sequence only
    let input: String = String::from("chr1\t149156055\t149163998\tXM_047439510.1#LOC124904581\t0\t+\t149156055\t149163998\t0\t4\t36,75,602,112,\t0,2796,6686,7831,");
    let expected: String = String::from("chr1\t149156055\t149163998\tXM_047439510.1#LOC124904581\t0\t+\t149156055\t149163998\t0\t4\t36,75,602,112,\t0,2796,6686,7831,");
    assert_eq!(expected, bed_to_fraction(input, "cds", false, false).unwrap().unwrap());
}

#[test]
fn cds_exon_test() {
    // cds mode for a sequence with both merged and intron-separated UTR exons present
    let input: String = String::from("chr9\t101360416\t101385006\tENST00000259407.7#BAAT\t0\t-\t101362427\t101371404\t0\t4\t2599,203,525,152,\t0,7703,10522,24438,");
    let expected: String = String::from("chr9\t101362427\t101371404\tENST00000259407.7#BAAT\t0\t-\t101362427\t101371404\t0\t3\t588,203,466,\t0,5692,8511,");
    assert_eq!(expected, bed_to_fraction(input, "cds", false, false).unwrap().unwrap());
}

#[test]
fn single_exon_cds_with_utrs() {
    // cds mode on a single exon sequence with arbitrary UTRs
    let input: String = String::from("chr9\t129489948\t129513686\tXM_047424327.1#LINC00963\t0\t+\t129490480\t129491083\t0\t4\t1180,177,350,268,\t0,3470,13374,23470,");
    let expected: String = String::from("chr9\t129490480\t129491083\tXM_047424327.1#LINC00963\t0\t+\t129490480\t129491083\t0\t1\t603,\t0,");
    assert_eq!(expected, bed_to_fraction(input, "cds", false, false).unwrap().unwrap());
}

#[test]
fn intron_test() {
    // tests the intron mode
    let input: String = String::from("chr9\t101360416\t101385006\tENST00000259407.7#BAAT\t0\t-\t101362427\t101371404\t0\t4\t2599,203,525,152,\t0,7703,10522,24438,");
    let expected: String = String::from("chr9\t101363015\t101370938\tENST00000259407.7#BAAT\t0\t-\t101370938\t101370938\t0\t2\t5104,2616,\t0,5307,");
    assert_eq!(expected, bed_to_fraction(input, "cds", true, false).unwrap().unwrap());
}

#[test]
fn uuu() {
    // tests the intron mode
    let input: String = String::from("chr19\t47403123\t47422233\tNM_001346148.2#MEIS3\t0\t-\t47406476\t47422191\t0\t13\t430,67,84,59,77,149,112,150,51,51,160,173,45,\t0,3336,3764,3955,4228,5975,6312,11593,11927,13528,13680,14054,19065,");
    println!("{}", bed_to_fraction(input, "cds", true, false).unwrap().unwrap());
}

#[test]
fn zero_intron_test() {
    // intron mode for single-exon transcripts; must yield no data
    let input: String = String::from("chr9\t129490480\t129491083\tXM_047424327.1#LINC00963\t0\t+\t129490480\t129491083\t0\t1\t603,\t0,");
    assert!(bed_to_fraction(input, "cds", true, false).unwrap().is_none());
}

#[test]
fn zero_intron_with_utrs_test() {
    // the same as the test above but in the presence of UTR blocks
    let input: String = String::from("chr9\t129489948\t129513686\tXM_047424327.1#LINC00963\t0\t+\t129490480\t129491083\t0\t4\t1180,177,350,268,\t0,3470,13374,23470,");
    assert!(bed_to_fraction(input, "cds", true, false).unwrap().is_none());
}

#[test]
fn full_utr_test() {
    // tests full UTR mode
    let input: String = String::from("chr9\t101360416\t101385006\tENST00000259407.7#BAAT\t0\t-\t101362427\t101371404\t0\t4\t2599,203,525,152,\t0,7703,10522,24438,");
    let expected: String = String::from("chr9\t101360416\t101385006\tENST00000259407.7#BAAT\t0\t-\t101385006\t101385006\t0\t3\t2011,59,152,\t0,10988,24438,");
    assert_eq!(expected, bed_to_fraction(input, "utr", false, false).unwrap().unwrap());
}

#[test]
fn no_utr_test() {
    // utr mode for a pure CDS record; must yield no data
    let input: String = String::from("chr9\t101362427\t101371404\tENST00000259407.7#BAAT\t0\t-\t101362427\t101371404\t0\t3\t588,203,466,\t0,5692,8511,");
    assert!(bed_to_fraction(input, "utr", false, false).unwrap().is_none());
}

#[test]
fn fiveprime_utr_forward_test() {
    // tests 5utr mode for a plus-strand transcript
    let input: String = String::from("chr19\t45692665\t45703987\tNM_001163377.2#QPCTL\t0\t+\t45692703\t45703049\t0\t6\t245,144,153,100,117,1084,\t0,747,5881,6135,9132,10238,");
    let expected: String = String::from("chr19\t45692665\t45692703\tNM_001163377.2#QPCTL\t0\t+\t45692703\t45692703\t0\t1\t38,\t0,");
    assert_eq!(expected, bed_to_fraction(input, "5utr", false, false).unwrap().unwrap());
}

#[test]
fn fiveprime_utr_reverse_test() {
    // tests 5utr mode for a minus-strand transcript
    let input: String = String::from("chr9\t101360416\t101385006\tENST00000259407.7#BAAT\t0\t-\t101362427\t101371404\t0\t4\t2599,203,525,152,\t0,7703,10522,24438,");
    let expected: String = String::from("chr9\t101371404\t101385006\tENST00000259407.7#BAAT\t0\t-\t101385006\t101385006\t0\t2\t59,152,\t0,13450,");
    assert_eq!(expected, bed_to_fraction(input, "5utr", false, false).unwrap().unwrap());
}

#[test]
fn threeprime_utr_forward_test() {
    // tests 3utr mode for a plus-strand transcript
    let input: String = String::from("chr19\t45692665\t45703987\tNM_001163377.2#QPCTL\t0\t+\t45692703\t45703049\t0\t6\t245,144,153,100,117,1084,\t0,747,5881,6135,9132,10238,");
    let expected: String = String::from("chr19\t45703049\t45703987\tNM_001163377.2#QPCTL\t0\t+\t45703987\t45703987\t0\t1\t938,\t0,");
    assert_eq!(expected, bed_to_fraction(input, "3utr", false, false).unwrap().unwrap());
}

#[test]
fn threeprime_utr_reverse_test() {
    // tests 3utr mode for a minus-strand transcript
    let input: String = String::from("chr9\t101360416\t101385006\tENST00000259407.7#BAAT\t0\t-\t101362427\t101371404\t0\t4\t2599,203,525,152,\t0,7703,10522,24438,");
    let expected: String = String::from("chr9\t101360416\t101362427\tENST00000259407.7#BAAT\t0\t-\t101362427\t101362427\t0\t1\t2011,\t0,");
    assert_eq!(expected, bed_to_fraction(input, "3utr", false, false).unwrap().unwrap());
}

#[test]
fn full_utr_noncoding_test() {
    // utr mode on pseudogenes; must return the same line as input
    let input: String = String::from("chr1\t3205900\t3216344\tENSMUST00000162897\t0\t-\t3216344\t3216344\t0\t2\t1417,2736,\t0,7708,");
    assert_eq!(input, bed_to_fraction(input.clone(), "utr", false, false).unwrap().unwrap());
}

#[test]
fn fiveprime_utr_noncoding_test() {
    // side-bound utr mode for pseudogenes; returns the same string as input
    let input: String = String::from("chr1\t3205900\t3216344\tENSMUST00000162897\t0\t-\t3216344\t3216344\t0\t2\t1417,2736,\t0,7708,");
    assert_eq!(input, bed_to_fraction(input.clone(), "5utr", false, false).unwrap().unwrap());
}

#[test]
fn utr_intron_test() {
    // intron mode for UTRs only
    let input: String = String::from("chr9\t101360416\t101385006\tENST00000259407.7#BAAT\t0\t-\t101362427\t101371404\t0\t4\t2599,203,525,152,\t0,7703,10522,24438,");
    let expected: String = String::from("chr9\t101371463\t101384854\tENST00000259407.7#BAAT\t0\t-\t101384854\t101384854\t0\t1\t13391,\t0,");
    assert_eq!(expected, bed_to_fraction(input, "utr", true, false).unwrap().unwrap());
}

#[test]
fn fiveprime_utr_intron_test() {
    // intron mode for 5'-UTRs only; returns the same as the test above
    let input: String = String::from("chr9\t101360416\t101385006\tENST00000259407.7#BAAT\t0\t-\t101362427\t101371404\t0\t4\t2599,203,525,152,\t0,7703,10522,24438,");
    let expected: String = String::from("chr9\t101371463\t101384854\tENST00000259407.7#BAAT\t0\t-\t101384854\t101384854\t0\t1\t13391,\t0,");
    assert_eq!(expected, bed_to_fraction(input, "5utr", true, false).unwrap().unwrap());
}

#[test]
fn fiveprime_utr_multiintron_test() {
    // intron mode for 5'-UTR in case of multiple 5'-UTR introns
    let input: String = String::from("chr19\t46746056\t46758575\tENST00000318584.10#FKRP\t0\t+\t46755450\t46756938\t0\t4\t34,62,151,3164,\t0,1970,2458,9355,");
    let expected: String = String::from("chr19\t46746090\t46755411\tENST00000318584.10#FKRP\t0\t+\t46755411\t46755411\t0\t3\t1936,426,6746,\t0,1998,2575,");
    assert_eq!(expected, bed_to_fraction(input, "5utr", true, false).unwrap().unwrap());
}

#[test]
fn threeprime_utr_intron_test() {
    // intron mode for 3'-UTRs only
    let input: String = String::from("chr19\t47403123\t47422233\tNM_001346148.2#MEIS3\t0\t-\t47406476\t47422191\t0\t13\t430,67,84,59,77,149,112,150,51,51,160,173,45,\t0,3336,3764,3955,4228,5975,6312,11593,11927,13528,13680,14054,19065,");
    let expected: String = String::from("chr19\t47403553\t47406459\tNM_001346148.2#MEIS3\t0\t-\t47406459\t47406459\t0\t1\t2906,\t0,");
    assert_eq!(expected, bed_to_fraction(input, "3utr", true, false).unwrap().unwrap());
}

#[test]
fn threeprime_utr_positive_strand_test() {
    // same as the test above, but this time the strand is positive
    let input: String = String::from("chr19\t47778702\t47784682\tENST00000601048.6#SELENOW\t0\t+\t47778785\t47781370\t0\t6\t112,25,54,75,99,393,\t0,2022,2161,2405,2587,5587,");
    let expected: String = String::from("chr19\t47781388\t47784289\tENST00000601048.6#SELENOW\t0\t+\t47784289\t47784289\t0\t1\t2901,\t0,");
    assert_eq!(expected, bed_to_fraction(input, "3utr", true, false).unwrap().unwrap());
}

#[test]
fn no_utr_intron_test() {
    // introns of the UTRs of a transcript with no UTR introns; no data expected
    let input: String = String::from("chr19\t45692665\t45703987\tNM_001163377.2#QPCTL\t0\t+\t45692703\t45703049\t0\t6\t245,144,153,100,117,1084,\t0,747,5881,6135,9132,10238,");
    assert!(bed_to_fraction(input, "utr", true, false).unwrap().is_none());
}

#[test]
fn all_bed6_test() {
    let input: String = String::from("chr19\t47778702\t47784682\tENST00000601048.6#SELENOW\t0\t+\t47778785\t47781370\t0\t6\t112,25,54,75,99,393,\t0,2022,2161,2405,2587,5587,");
    let expected: String = String::from(
        "chr19\t47778702\t47778814\tENST00000601048.6#SELENOW\t1\t+\nchr19\t47780724\t47780749\tENST00000601048.6#SELENOW\t2\t+\nchr19\t47780863\t47780917\tENST00000601048.6#SELENOW\t3\t+\nchr19\t47781107\t47781182\tENST00000601048.6#SELENOW\t4\t+\nchr19\t47781289\t47781388\tENST00000601048.6#SELENOW\t5\t+\nchr19\t47784289\t47784682\tENST00000601048.6#SELENOW\t6\t+",
    );
    assert_eq!(expected, bed_to_fraction(input, "all", false, true).unwrap().unwrap());
}

#[test]
fn cds_bed6_test() {
    let input: String = String::from("chr19\t47778702\t47784682\tENST00000601048.6#SELENOW\t0\t+\t47778785\t47781370\t0\t6\t112,25,54,75,99,393,\t0,2022,2161,2405,2587,5587,");
    let expected: String = String::from(
        "chr19\t47778785\t47778814\tENST00000601048.6#SELENOW\t1\t+\nchr19\t47780724\t47780749\tENST00000601048.6#SELENOW\t2\t+\nchr19\t47780863\t47780917\tENST00000601048.6#SELENOW\t3\t+\nchr19\t47781107\t47781182\tENST00000601048.6#SELENOW\t4\t+\nchr19\t47781289\t47781370\tENST00000601048.6#SELENOW\t5\t+",
    );
    assert_eq!(expected, bed_to_fraction(input, "cds", false, true).unwrap().unwrap());
}

#[test]
fn cds_intron_bed6_test() {
    let input: String = String::from("chr9\t101360416\t101385006\tENST00000259407.7#BAAT\t0\t-\t101362427\t101371404\t0\t4\t2599,203,525,152,\t0,7703,10522,24438,");
    let expected: String = String::from(
        "chr9\t101363015\t101368119\tENST00000259407.7#BAAT\t2\t-\nchr9\t101368322\t101370938\tENST00000259407.7#BAAT\t1\t-",
    );
    assert_eq!(expected, bed_to_fraction(input, "cds", true, true).unwrap().unwrap());
}

#[test]
fn all_intron_bed6_test() {
    // bed6 mode for all introns in the sequence
    let input: String = String::from("chr19\t47403123\t47422233\tNM_001346148.2#MEIS3\t0\t-\t47406476\t47422191\t0\t13\t430,67,84,59,77,149,112,150,51,51,160,173,45,\t0,3336,3764,3955,4228,5975,6312,11593,11927,13528,13680,14054,19065,");
    let expected: String = String::from(
        "chr19\t47403553\t47406459\tNM_001346148.2#MEIS3\t12\t-\nchr19\t47406526\t47406887\tNM_001346148.2#MEIS3\t11\t-\nchr19\t47406971\t47407078\tNM_001346148.2#MEIS3\t10\t-\nchr19\t47407137\t47407351\tNM_001346148.2#MEIS3\t9\t-\nchr19\t47407428\t47409098\tNM_001346148.2#MEIS3\t8\t-\nchr19\t47409247\t47409435\tNM_001346148.2#MEIS3\t7\t-\nchr19\t47409547\t47414716\tNM_001346148.2#MEIS3\t6\t-\nchr19\t47414866\t47415050\tNM_001346148.2#MEIS3\t5\t-\nchr19\t47415101\t47416651\tNM_001346148.2#MEIS3\t4\t-\nchr19\t47416702\t47416803\tNM_001346148.2#MEIS3\t3\t-\nchr19\t47416963\t47417177\tNM_001346148.2#MEIS3\t2\t-\nchr19\t47417350\t47422188\tNM_001346148.2#MEIS3\t1\t-",
    );
    assert_eq!(expected, bed_to_fraction(input, "all", true, true).unwrap().unwrap());
}

// ROUND TRIP: formatting a parsed record at its native format and
// re-parsing yields field-for-field equality.
#[test]
fn parse_format_round_trip() {
    let line: String = String::from("chr9\t101360416\t101385006\tENST00000259407.7#BAAT\t0\t-\t101362427\t101371404\t0\t4\t2599,203,525,152,\t0,7703,10522,24438,");
    let entry = parse_bed(line.clone(), 12, false).unwrap().unwrap();
    let rendered = to_line(&entry, 12).unwrap();
    assert_eq!(rendered, line);
    let reparsed = parse_bed(rendered, 12, false).unwrap().unwrap();
    assert_eq!(reparsed.chrom, entry.chrom);
    assert_eq!(reparsed.thin_start, entry.thin_start);
    assert_eq!(reparsed.thin_end, entry.thin_end);
    assert_eq!(reparsed.name, entry.name);
    assert_eq!(reparsed.score, entry.score);
    assert_eq!(reparsed.strand, entry.strand);
    assert_eq!(reparsed.thick_start, entry.thick_start);
    assert_eq!(reparsed.thick_end, entry.thick_end);
    assert_eq!(reparsed.rgb, entry.rgb);
    assert_eq!(reparsed.exon_num, entry.exon_num);
    assert_eq!(reparsed.exon_sizes, entry.exon_sizes);
    assert_eq!(reparsed.exon_starts, entry.exon_starts);
}

#[test]
fn parse_format_round_trip_bed6() {
    let line: String = String::from("chr1\t53297131\t53298145\tXM_047446425.1#ORMDL1#78\t1\t+");
    let entry = parse_bed(line.clone(), 6, false).unwrap().unwrap();
    let rendered = to_line(&entry, 6).unwrap();
    assert_eq!(rendered, line);
    let reparsed = parse_bed(rendered, 6, false).unwrap().unwrap();
    assert_eq!(reparsed.chrom, entry.chrom);
    assert_eq!(reparsed.thin_start, entry.thin_start);
    assert_eq!(reparsed.name, entry.name);
    assert_eq!(reparsed.strand, entry.strand);
}

#[test]
fn parse_bed_leading_zero_numbers() {
    // non-canonical digits still parse; re-rendering canonicalizes them
    let entry = parse_bed(String::from("chr1\t007\t0100"), 3, false).unwrap().unwrap();
    assert_eq!(entry.thin_start, Some(7));
    assert_eq!(entry.thin_end, Some(100));
    assert_eq!(to_line(&entry, 3).unwrap(), "chr1\t7\t100");
}

#[test]
fn parse_bed_blank_line_is_skippable() {
    assert!(parse_bed(String::from("   \n"), 6, true).unwrap().is_none());
    assert!(matches!(
        parse_bed(String::from("   \n"), 6, false),
        Err(CubiculumError::ParseError(_))
    ));
}

#[test]
fn parse_bed_unsupported_format() {
    let line = String::from("chr1\t1\t2\tx\t0\t+\t1\t2");
    assert!(matches!(
        parse_bed(line.clone(), 7, false),
        Err(CubiculumError::FormattingError(_))
    ));
    assert!(matches!(
        parse_bed(line.clone(), 10, false),
        Err(CubiculumError::FormattingError(_))
    ));
    assert!(matches!(
        parse_bed(line, 13, false),
        Err(CubiculumError::FormattingError(_))
    ));
}

#[test]
fn to_line_errors() {
    let entry = parse_bed(String::from("chr1\t10\t20"), 3, false).unwrap().unwrap();
    // cannot render a poorer record at a richer format
    assert!(matches!(to_line(&entry, 6), Err(CubiculumError::FormattingError(_))));
    // unsupported output format
    let rich = parse_bed(
        String::from("chr1\t10\t20\tx\t0\t+\t10\t20\t0\t1\t10,\t0,"),
        12,
        false,
    )
    .unwrap()
    .unwrap();
    assert!(matches!(to_line(&rich, 7), Err(CubiculumError::FormattingError(_))));
    // a hollowed record misses its fields
    let mut hollow = rich.clone();
    hollow.name = None;
    assert!(matches!(to_line(&hollow, 12), Err(CubiculumError::MissingTraitError(_))));
}

// FRACTION `All` IS IDENTITY at the typed level.
#[test]
fn extract_all_identity_typed() {
    let line: String = String::from("chr19\t45692665\t45703987\tNM_001163377.2#QPCTL\t0\t+\t45692703\t45703049\t0\t6\t245,144,153,100,117,1084,\t0,747,5881,6135,9132,10238,");
    let entry = parse_bed(line, 12, false).unwrap().unwrap();
    let out = cubiculum::extract::extract_fraction(&entry, BedFractionMode::All, false)
        .unwrap()
        .unwrap();
    assert_eq!(out.thin_start, entry.thin_start);
    assert_eq!(out.thin_end, entry.thin_end);
    assert_eq!(out.thick_start, entry.thick_start);
    assert_eq!(out.thick_end, entry.thick_end);
    assert_eq!(out.exon_num, entry.exon_num);
    assert_eq!(out.exon_sizes, entry.exon_sizes);
    assert_eq!(out.exon_starts, entry.exon_starts);
    assert_eq!(out.chrom, entry.chrom);
    assert_eq!(out.name, entry.name);
}

// UTR/CDS PARTITION: cds and utr block lengths add up to the full
// exonic length, with no overlap.
#[test]
fn cds_utr_partition_lengths() {
    let line: String = String::from("chr9\t101360416\t101385006\tENST00000259407.7#BAAT\t0\t-\t101362427\t101371404\t0\t4\t2599,203,525,152,\t0,7703,10522,24438,");
    let entry = parse_bed(line, 12, false).unwrap().unwrap();
    let cds = cubiculum::extract::extract_fraction(&entry, BedFractionMode::Cds, false)
        .unwrap()
        .unwrap();
    let utr = cubiculum::extract::extract_fraction(&entry, BedFractionMode::Utr, false)
        .unwrap()
        .unwrap();
    let total: u64 = entry.exon_sizes.as_ref().unwrap().iter().sum();
    let cds_len: u64 = cds.exon_sizes.as_ref().unwrap().iter().sum();
    let utr_len: u64 = utr.exon_sizes.as_ref().unwrap().iter().sum();
    assert_eq!(cds_len + utr_len, total);
}

// STRAND SYMMETRY: Utr5 on one strand picks the same genomic fragments
// as Utr3 on the flipped record.
#[test]
fn strand_symmetry_fragments() {
    let line: String = String::from("chr19\t45692665\t45703987\tNM_001163377.2#QPCTL\t0\t+\t45692703\t45703049\t0\t6\t245,144,153,100,117,1084,\t0,747,5881,6135,9132,10238,");
    let entry = parse_bed(line, 12, false).unwrap().unwrap();
    let mut flipped = entry.clone();
    flipped.strand = Some(false);
    let five = cubiculum::extract::extract_fraction(&entry, BedFractionMode::Utr5, false)
        .unwrap()
        .unwrap();
    let three = cubiculum::extract::extract_fraction(&flipped, BedFractionMode::Utr3, false)
        .unwrap()
        .unwrap();
    assert_eq!(five.thin_start, three.thin_start);
    assert_eq!(five.thin_end, three.thin_end);
    assert_eq!(five.exon_sizes, three.exon_sizes);
    assert_eq!(five.exon_starts, three.exon_starts);
}

// SINGLE-EXON INTRON EMPTINESS at the typed level.
#[test]
fn single_block_introns_empty_typed() {
    let line: String = String::from("chr9\t129490480\t129491083\tXM_047424327.1#LINC00963\t0\t+\t129490480\t129491083\t0\t1\t603,\t0,");
    let entry = parse_bed(line, 12, false).unwrap().unwrap();
    for mode in [
        BedFractionMode::All,
        BedFractionMode::Cds,
        BedFractionMode::Utr,
        BedFractionMode::Utr5,
        BedFractionMode::Utr3,
    ] {
        assert!(cubiculum::extract::extract_fraction(&entry, mode, true).unwrap().is_none());
    }
}

#[test]
fn single_block_noncoding_unchanged() {
    // a single-block non-coding record passes through utr and 5utr modes whole
    let input: String = String::from("chr5\t1000\t2000\tpseudo\t0\t-\t2000\t2000\t0\t1\t1000,\t0,");
    assert_eq!(input, bed_to_fraction(input.clone(), "utr", false, false).unwrap().unwrap());
    assert_eq!(input, bed_to_fraction(input.clone(), "5utr", false, false).unwrap().unwrap());
}

#[test]
fn utr_block_protruding_both_sides() {
    // a single very short coding exon inside one block: utr mode emits the
    // upstream fragment and then the downstream fragment of the same block
    let input: String = String::from("chr2\t100\t400\tshorty\t0\t+\t180\t220\t0\t1\t300,\t0,");
    let expected: String = String::from("chr2\t100\t400\tshorty\t0\t+\t400\t400\t0\t2\t80,180,\t0,120,");
    assert_eq!(expected, bed_to_fraction(input, "utr", false, false).unwrap().unwrap());
}
