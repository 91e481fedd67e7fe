//! Parsing and rendering of BED lines, and the fraction-extraction engine
//! that derives CDS, UTR or intron sub-features from twelve-column
//! records.

use crate::structs::BedEntry;
use crate::text::{
    all_digits, dec_rep, dec_val, is_digit_char, join_by, lemma_dec_rep_digits, parse_u64,
    push_char, push_u64, sep_free, split_by, split_str,
};
use vstd::prelude::*;

verus! {

/// A typed, recoverable failure: malformed input, a field read that the
/// record's format does not populate, or an unsupported output format.
#[derive(Clone, Debug)]
pub enum CubiculumError {
    ParseError(String),
    MissingTraitError(String),
    FormattingError(String),
}

impl CubiculumError {
    /// A human-readable description of the failure.
    pub fn message(&self) -> (r: &String)
        ensures
            *r == match *self {
                CubiculumError::ParseError(ref m) => *m,
                CubiculumError::MissingTraitError(ref m) => *m,
                CubiculumError::FormattingError(ref m) => *m,
            },
    {
        match self {
            CubiculumError::ParseError(m) => m,
            CubiculumError::MissingTraitError(m) => m,
            CubiculumError::FormattingError(m) => m,
        }
    }
}

/// The requested sub-feature of a record.
#[derive(Clone, Copy, Debug, PartialEq, Eq, Structural)]
pub enum BedFractionMode {
    All,
    Cds,
    Utr,
    Utr5,
    Utr3,
}

/// ASCII whitespace, as stripped from the ends of an input line.
pub open spec fn is_space(c: char) -> bool {
    c == ' ' || c == '\t' || c == '\n' || c == '\r'
}

pub open spec fn trim_front(s: Seq<char>) -> Seq<char>
    decreases s.len(),
{
    if s.len() > 0 && is_space(s[0]) {
        trim_front(s.drop_first())
    } else {
        s
    }
}

pub open spec fn trim_back(s: Seq<char>) -> Seq<char>
    decreases s.len(),
{
    if s.len() > 0 && is_space(s.last()) {
        trim_back(s.drop_last())
    } else {
        s
    }
}

/// The line with ASCII whitespace removed from both ends.
pub open spec fn spec_trim(s: Seq<char>) -> Seq<char> {
    trim_back(trim_front(s))
}

proof fn lemma_trim_front_skip(s: Seq<char>, i: int)
    requires
        0 <= i <= s.len(),
        forall|j: int| 0 <= j < i ==> is_space(#[trigger] s[j]),
        i == s.len() || !is_space(s[i]),
    ensures
        trim_front(s) == s.skip(i),
    decreases i,
{
    if i == 0 {
        assert(s.skip(0) =~= s);
        if s.len() > 0 {
            assert(!is_space(s[0]));
        }
    } else {
        assert(is_space(s[0]));
        lemma_trim_front_skip(s.drop_first(), i - 1);
        assert(s.drop_first().skip(i - 1) =~= s.skip(i));
    }
}

proof fn lemma_trim_back_take(s: Seq<char>, i: int)
    requires
        0 <= i <= s.len(),
        forall|j: int| i <= j < s.len() ==> is_space(#[trigger] s[j]),
        i == 0 || !is_space(s[i - 1]),
    ensures
        trim_back(s) == s.take(i),
    decreases s.len() - i,
{
    if i == s.len() {
        assert(s.take(i) =~= s);
        if s.len() > 0 {
            assert(!is_space(s.last()));
        }
    } else {
        assert(is_space(s.last()));
        lemma_trim_back_take(s.drop_last(), i);
        assert(s.drop_last().take(i) =~= s.take(i));
    }
}

/// The index of the first non-whitespace character.
fn scan_front(s: &str) -> (lo: usize)
    ensures
        0 <= lo <= s@.len(),
        forall|j: int| 0 <= j < lo ==> is_space(#[trigger] s@[j]),
        lo < s@.len() ==> !is_space(s@[lo as int]),
    decreases s@.len(),
{
    let len = s.unicode_len();
    let mut lo: usize = 0;
    while lo < len
        invariant
            0 <= lo <= len,
            len == s@.len(),
            forall|j: int| 0 <= j < lo ==> is_space(#[trigger] s@[j]),
        decreases len - lo,
    {
        let c = s.get_char(lo);
        if !(c == ' ' || c == '\t' || c == '\n' || c == '\r') {
            return lo;
        }
        lo += 1;
    }
    lo
}

/// One past the index of the last non-whitespace character at or after
/// `lo`, or `lo` itself when everything from `lo` on is whitespace.
fn scan_back(s: &str, lo: usize) -> (hi: usize)
    requires
        lo <= s@.len(),
    ensures
        lo <= hi <= s@.len(),
        forall|j: int| hi <= j < s@.len() ==> is_space(#[trigger] s@[j]),
        hi > lo ==> !is_space(s@[hi - 1]),
{
    let len = s.unicode_len();
    let mut hi: usize = len;
    while hi > lo
        invariant
            lo <= hi <= len,
            len == s@.len(),
            forall|j: int| hi <= j < len ==> is_space(#[trigger] s@[j]),
        decreases hi,
    {
        let c = s.get_char(hi - 1);
        if !(c == ' ' || c == '\t' || c == '\n' || c == '\r') {
            return hi;
        }
        hi -= 1;
    }
    hi
}

/// Strips ASCII whitespace from both ends of a line.
pub fn trim_line(s: &str) -> (r: &str)
    ensures
        r@ == spec_trim(s@),
{
    let len = s.unicode_len();
    let lo = scan_front(s);
    let hi = if lo == len {
        lo
    } else {
        scan_back(s, lo)
    };
    proof {
        if lo == len {
            lemma_trim_front_skip(s@, lo as int);
            assert(s@.skip(lo as int).len() == 0);
            assert(trim_back(s@.skip(lo as int)) =~= s@.skip(lo as int));
            assert(s@.subrange(lo as int, lo as int) =~= s@.skip(lo as int));
        } else {
            assert(!is_space(s@[lo as int]));
            lemma_trim_front_skip(s@, lo as int);
            assert(hi > lo);
            assert(!is_space(s@[hi - 1]));
            let t = s@.skip(lo as int);
            assert(forall|j: int|
                hi - lo <= j < t.len() ==> is_space(#[trigger] t[j]) && t[j] == s@[j + lo]);
            lemma_trim_back_take(t, hi - lo);
            assert(t.take(hi - lo) =~= s@.subrange(lo as int, hi as int));
        }
    }
    s.substring_char(lo, hi)
}

/// Exact equality of two strings, character for character.
pub fn str_eq(a: &str, b: &str) -> (r: bool)
    ensures
        r == (a@ == b@),
{
    let la = a.unicode_len();
    let lb = b.unicode_len();
    if la != lb {
        return false;
    }
    let mut i: usize = 0;
    while i < la
        invariant
            0 <= i <= la,
            la == a@.len(),
            la == b@.len(),
            forall|j: int| 0 <= j < i ==> a@[j] == b@[j],
        decreases la - i,
    {
        if a.get_char(i) != b.get_char(i) {
            return false;
        }
        i += 1;
    }
    proof {
        assert(a@ =~= b@);
    }
    true
}

/// A decimal field denotes a `u64`.
pub open spec fn num_ok(f: Seq<char>) -> bool {
    f.len() >= 1 && all_digits(f) && dec_val(f) <= u64::MAX
}

/// The ghost shape of a record: every field as its mathematical value, so
/// that parsing and rendering can be pinned down exactly.
#[verifier::ext_equal]
pub struct BedModel {
    pub format: u8,
    pub chrom: Option<Seq<char>>,
    pub thin_start: Option<u64>,
    pub thin_end: Option<u64>,
    pub name: Option<Seq<char>>,
    pub score: Option<Seq<char>>,
    pub strand: Option<bool>,
    pub thick_start: Option<u64>,
    pub thick_end: Option<u64>,
    pub rgb: Option<Seq<char>>,
    pub exon_num: Option<u16>,
    pub exon_sizes: Option<Seq<u64>>,
    pub exon_starts: Option<Seq<u64>>,
}

/// The ghost shape of a concrete record.
pub open spec fn model_of(e: &BedEntry) -> BedModel {
    BedModel {
        format: crate::structs::spec_format(e),
        chrom: match e.chrom {
            Some(c) => Some(c@),
            None => None,
        },
        thin_start: e.thin_start,
        thin_end: e.thin_end,
        name: match e.name {
            Some(n) => Some(n@),
            None => None,
        },
        score: match e.score {
            Some(sc) => Some(sc@),
            None => None,
        },
        strand: e.strand,
        thick_start: e.thick_start,
        thick_end: e.thick_end,
        rgb: match e.rgb {
            Some(x) => Some(x@),
            None => None,
        },
        exon_num: e.exon_num,
        exon_sizes: match e.exon_sizes {
            Some(v) => Some(v@),
            None => None,
        },
        exon_starts: match e.exon_starts {
            Some(v) => Some(v@),
            None => None,
        },
    }
}

/// Parsing of the comma-joined block lists: empty pieces (such as the one
/// after the conventional trailing comma) are skipped; every other piece
/// must be a decimal `u64`.
pub open spec fn parse_pieces(ps: Seq<Seq<char>>) -> Option<Seq<u64>>
    decreases ps.len(),
{
    if ps.len() == 0 {
        Some(Seq::empty())
    } else {
        let rest = parse_pieces(ps.drop_first());
        if ps[0].len() == 0 {
            rest
        } else if num_ok(ps[0]) {
            match rest {
                Some(r) => Some(seq![dec_val(ps[0]) as u64] + r),
                None => None,
            }
        } else {
            None
        }
    }
}

pub open spec fn parse_u64_list(f: Seq<char>) -> Option<Seq<u64>> {
    parse_pieces(split_by(f, ','))
}

/// A format tag this library accepts on the wire.
pub open spec fn format_supported(format: int) -> bool {
    format == 3 || format == 4 || format == 5 || format == 6 || format == 8 || format == 9
        || format == 12
}

/// Field-by-field parsing of an already tokenized line at the given
/// format; `None` is any content rejection. The line must already have at
/// least `format` fields.
pub open spec fn spec_parse_fields(fields: Seq<Seq<char>>, format: int) -> Option<BedModel> {
    if !num_ok(fields[1]) || !num_ok(fields[2]) {
        None
    } else {
        let ts = dec_val(fields[1]) as u64;
        let te = dec_val(fields[2]) as u64;
        if ts > te {
            None
        } else if format == 3 {
            Some(model3(fields[0], ts, te))
        } else if format == 4 {
            Some(model4(fields[0], ts, te, fields[3]))
        } else if format == 5 {
            Some(model5(fields[0], ts, te, fields[3], fields[4]))
        } else if format == 6 {
            Some(model6(fields[0], ts, te, fields[3], fields[4], fields[5] == seq!['+']))
        } else if !num_ok(fields[6]) || !num_ok(fields[7]) {
            None
        } else {
            let ks = dec_val(fields[6]) as u64;
            let ke = dec_val(fields[7]) as u64;
            if ks < ts || ke > te || ks > ke {
                None
            } else if format == 8 {
                Some(
                    model8(fields[0], ts, te, fields[3], fields[4], fields[5] == seq!['+'], ks, ke),
                )
            } else if format == 9 {
                Some(
                    model9(
                        fields[0],
                        ts,
                        te,
                        fields[3],
                        fields[4],
                        fields[5] == seq!['+'],
                        ks,
                        ke,
                        fields[8],
                    ),
                )
            } else if !num_ok(fields[9]) || dec_val(fields[9]) > u16::MAX {
                None
            } else if parse_u64_list(fields[10]) is None || parse_u64_list(fields[11]) is None {
                None
            } else {
                Some(
                    model12(
                        fields[0],
                        ts,
                        te,
                        fields[3],
                        fields[4],
                        fields[5] == seq!['+'],
                        ks,
                        ke,
                        fields[8],
                        dec_val(fields[9]) as u16,
                        parse_u64_list(fields[10])->0,
                        parse_u64_list(fields[11])->0,
                    ),
                )
            }
        }
    }
}

pub open spec fn model3(chrom: Seq<char>, ts: u64, te: u64) -> BedModel {
    BedModel {
        format: 3,
        chrom: Some(chrom),
        thin_start: Some(ts),
        thin_end: Some(te),
        name: None,
        score: None,
        strand: None,
        thick_start: None,
        thick_end: None,
        rgb: None,
        exon_num: None,
        exon_sizes: None,
        exon_starts: None,
    }
}

pub open spec fn model4(chrom: Seq<char>, ts: u64, te: u64, name: Seq<char>) -> BedModel {
    BedModel { name: Some(name), format: 4, ..model3(chrom, ts, te) }
}

pub open spec fn model5(chrom: Seq<char>, ts: u64, te: u64, name: Seq<char>, score: Seq<char>) -> BedModel {
    BedModel { score: Some(score), format: 5, ..model4(chrom, ts, te, name) }
}

pub open spec fn model6(
    chrom: Seq<char>,
    ts: u64,
    te: u64,
    name: Seq<char>,
    score: Seq<char>,
    strand: bool,
) -> BedModel {
    BedModel { strand: Some(strand), format: 6, ..model5(chrom, ts, te, name, score) }
}

pub open spec fn model8(
    chrom: Seq<char>,
    ts: u64,
    te: u64,
    name: Seq<char>,
    score: Seq<char>,
    strand: bool,
    ks: u64,
    ke: u64,
) -> BedModel {
    BedModel {
        thick_start: Some(ks),
        thick_end: Some(ke),
        format: 8,
        ..model6(chrom, ts, te, name, score, strand)
    }
}

pub open spec fn model9(
    chrom: Seq<char>,
    ts: u64,
    te: u64,
    name: Seq<char>,
    score: Seq<char>,
    strand: bool,
    ks: u64,
    ke: u64,
    rgb: Seq<char>,
) -> BedModel {
    BedModel { rgb: Some(rgb), format: 9, ..model8(chrom, ts, te, name, score, strand, ks, ke) }
}

pub open spec fn model12(
    chrom: Seq<char>,
    ts: u64,
    te: u64,
    name: Seq<char>,
    score: Seq<char>,
    strand: bool,
    ks: u64,
    ke: u64,
    rgb: Seq<char>,
    exon_num: u16,
    sizes: Seq<u64>,
    starts: Seq<u64>,
) -> BedModel {
    BedModel {
        exon_num: Some(exon_num),
        exon_sizes: Some(sizes),
        exon_starts: Some(starts),
        format: 12,
        ..model9(chrom, ts, te, name, score, strand, ks, ke, rgb)
    }
}

/// Whole-line parsing: trim, split at tabs, demand enough fields, then
/// parse field by field. `None` is any content rejection; an unsupported
/// format tag is judged before this function.
pub open spec fn spec_parse_bed(line: Seq<char>, format: int) -> Option<BedModel> {
    let fields = split_by(spec_trim(line), '\t');
    if fields.len() < format {
        None
    } else {
        spec_parse_fields(fields, format)
    }
}

/// Parses one comma-joined numeric list field.
fn parse_list_field(f: &str) -> (r: Option<Vec<u64>>)
    ensures
        r is Some <==> parse_u64_list(f@) is Some,
        r matches Some(v) ==> v@ == parse_u64_list(f@)->0,
{
    let pieces = split_str(f, ',');
    let ghost ps = split_by(f@, ',');
    let mut out: Vec<u64> = Vec::new();
    let mut i: usize = 0;
    proof {
        assert(pieces.deep_view() == ps);
        assert(pieces@.len() == ps.len());
        assert(ps.skip(0) =~= ps);
        match parse_pieces(ps) {
            Some(t) => {
                assert(out@ + t =~= t);
            },
            None => {},
        }
    }
    while i < pieces.len()
        invariant
            0 <= i <= pieces@.len(),
            ps == split_by(f@, ','),
            pieces.deep_view() == ps,
            pieces@.len() == ps.len(),
            parse_pieces(ps) == match parse_pieces(ps.skip(i as int)) {
                Some(t) => Some(out@ + t),
                None => None,
            },
        decreases pieces@.len() - i,
    {
        proof {
            assert(ps.skip(i as int).len() > 0);
            assert(ps.skip(i as int)[0] == ps[i as int]);
            assert(ps.skip(i as int).drop_first() =~= ps.skip(i + 1));
            assert(pieces@[i as int]@ == ps[i as int]);
        }
        let piece = &pieces[i];
        if piece.as_str().is_empty() {
            i += 1;
            continue ;
        }
        match parse_u64(piece.as_str()) {
            Some(v) => {
                out.push(v);
                proof {
                    match parse_pieces(ps.skip(i + 1)) {
                        Some(t) => {
                            assert(out@ + t =~= out@.drop_last() + (seq![v] + t));
                        },
                        None => {},
                    }
                }
                i += 1;
            },
            None => {
                proof {
                    assert(ps.skip(i as int)[0].len() != 0);
                    assert(!num_ok(ps.skip(i as int)[0]));
                    assert(parse_pieces(ps.skip(i as int)) is None);
                    assert(parse_pieces(ps) is None);
                    assert(ps == split_by(f@, ','));
                    assert(parse_u64_list(f@) is None);
                }
                return None;
            },
        }
    }
    proof {
        assert(ps.skip(ps.len() as int) =~= Seq::<Seq<char>>::empty());
        assert(parse_pieces(ps.skip(ps.len() as int)) == Some(Seq::<u64>::empty()));
        assert(out@ + Seq::<u64>::empty() =~= out@);
    }
    Some(out)
}

fn parse_error(msg: &str) -> (r: CubiculumError)
    ensures
        r is ParseError,
{
    CubiculumError::ParseError(msg.to_owned())
}

/// Basic BED line parser: tokenizes a line and builds the typed record
/// for the requested column count. An unsupported column count is a
/// formatting error; any malformed content is a parse error. With
/// `skip_blank` set, a line that is empty after trimming yields no record
/// instead of an error.
pub fn parse_bed(line: String, format: usize, skip_blank: bool) -> (r: Result<
    Option<BedEntry>,
    CubiculumError,
>)
    ensures
        (r matches Err(e) && e is FormattingError) <==> !format_supported(format as int),
        format_supported(format as int) ==> {
            &&& (r matches Ok(Some(entry)) <==> spec_parse_bed(line@, format as int) is Some)
            &&& (r matches Ok(Some(entry)) ==> model_of(&entry) == spec_parse_bed(
                line@,
                format as int,
            )->0)
            &&& (r matches Ok(None) <==> (skip_blank && spec_trim(line@).len() == 0))
        },
{
    if format < 3 || format == 7 || format == 10 || format == 11 || format > 12 {
        return Err(
            CubiculumError::FormattingError(
                "Unsupported BED format; accepted formats are 3, 4, 5, 6, 8, 9 and 12".to_owned(),
            ),
        );
    }
    let trimmed = trim_line(line.as_str());
    if trimmed.is_empty() {
        if skip_blank {
            return Ok(None);
        }
        proof {
            assert(split_by(spec_trim(line@), '\t').len() == 1);
            assert(split_by(spec_trim(line@), '\t').len() < format as int);
        }
        return Err(parse_error("Blank input line"));
    }
    let data = split_str(trimmed, '\t');
    let ghost fields = split_by(spec_trim(line@), '\t');
    proof {
        assert(data.deep_view() == fields);
        assert(data@.len() == fields.len());
    }
    if data.len() < format {
        return Err(parse_error("Input line holds fewer columns than the requested format"));
    }
    proof {
        assert(forall|k: int| 0 <= k < data@.len() ==> (#[trigger] data@[k])@ == fields[k]);
    }
    let chrom: String = data[0].clone();
    let thin_start: u64 = match parse_u64(data[1].as_str()) {
        Some(v) => v,
        None => {
            return Err(parse_error("thinStart is not a valid positive integer"));
        },
    };
    let thin_end: u64 = match parse_u64(data[2].as_str()) {
        Some(v) => v,
        None => {
            return Err(parse_error("thinEnd is not a valid positive integer"));
        },
    };
    if thin_start > thin_end {
        return Err(parse_error("thinStart value cannot be larger than thinEnd"));
    }
    if format == 3 {
        return Ok(Some(BedEntry::bed3(chrom, thin_start, thin_end)));
    }
    let name: String = data[3].clone();
    if format == 4 {
        return Ok(Some(BedEntry::bed4(chrom, thin_start, thin_end, name)));
    }
    let score: String = data[4].clone();
    if format == 5 {
        return Ok(Some(BedEntry::bed5(chrom, thin_start, thin_end, name, score)));
    }
    let strand: bool = str_eq(data[5].as_str(), "+");
    proof {
        reveal_strlit("+");
        assert("+"@ =~= seq!['+']);
    }
    if format == 6 {
        return Ok(Some(BedEntry::bed6(chrom, thin_start, thin_end, name, score, strand)));
    }
    let thick_start: u64 = match parse_u64(data[6].as_str()) {
        Some(v) => v,
        None => {
            return Err(parse_error("thickStart is not a valid positive integer"));
        },
    };
    let thick_end: u64 = match parse_u64(data[7].as_str()) {
        Some(v) => v,
        None => {
            return Err(parse_error("thickEnd is not a valid positive integer"));
        },
    };
    if thick_start < thin_start {
        return Err(parse_error("thickStart value cannot be smaller than thinStart"));
    }
    if thick_end > thin_end {
        return Err(parse_error("thickEnd value cannot be larger than thinEnd"));
    }
    if thick_start > thick_end {
        return Err(parse_error("thickStart value cannot be larger than thickEnd"));
    }
    if format == 8 {
        return Ok(
            Some(
                BedEntry::bed8(
                    chrom,
                    thin_start,
                    thin_end,
                    name,
                    score,
                    strand,
                    thick_start,
                    thick_end,
                ),
            ),
        );
    }
    let rgb: String = data[8].clone();
    if format == 9 {
        return Ok(
            Some(
                BedEntry::bed9(
                    chrom,
                    thin_start,
                    thin_end,
                    name,
                    score,
                    strand,
                    thick_start,
                    thick_end,
                    rgb,
                ),
            ),
        );
    }
    let exon_num_64: u64 = match parse_u64(data[9].as_str()) {
        Some(v) => v,
        None => {
            return Err(parse_error("Exon number is not a valid positive integer"));
        },
    };
    if exon_num_64 > 65535 {
        return Err(parse_error("Exon number does not fit the block count field"));
    }
    let exon_num: u16 = exon_num_64 as u16;
    let exon_sizes: Vec<u64> = match parse_list_field(data[10].as_str()) {
        Some(v) => v,
        None => {
            return Err(parse_error("Invalid exon size value"));
        },
    };
    let exon_starts: Vec<u64> = match parse_list_field(data[11].as_str()) {
        Some(v) => v,
        None => {
            return Err(parse_error("Invalid exon start position"));
        },
    };
    Ok(
        Some(
            BedEntry::bed12(
                chrom,
                thin_start,
                thin_end,
                name,
                score,
                strand,
                thick_start,
                thick_end,
                rgb,
                exon_num,
                exon_sizes,
                exon_starts,
            ),
        ),
    )
}

/// The decimal pieces of a numeric list, each followed by one comma (so a
/// non-empty list ends in the conventional trailing comma).
pub open spec fn list_rep(vals: Seq<u64>) -> Seq<char>
    decreases vals.len(),
{
    if vals.len() == 0 {
        Seq::empty()
    } else {
        dec_rep(vals[0] as int) + seq![','] + list_rep(vals.drop_first())
    }
}

/// The wire fields of a record at the given format, in column order.
pub open spec fn spec_fields(m: BedModel, format: int) -> Seq<Seq<char>> {
    let head = seq![m.chrom->0, dec_rep(m.thin_start->0 as int), dec_rep(m.thin_end->0 as int)];
    if format == 3 {
        head
    } else {
        let head4 = head.push(m.name->0);
        if format == 4 {
            head4
        } else {
            let head5 = head4.push(m.score->0);
            if format == 5 {
                head5
            } else {
                let head6 = head5.push(
                    if m.strand->0 {
                        seq!['+']
                    } else {
                        seq!['-']
                    },
                );
                if format == 6 {
                    head6
                } else {
                    let head8 = head6.push(dec_rep(m.thick_start->0 as int)).push(
                        dec_rep(m.thick_end->0 as int),
                    );
                    if format == 8 {
                        head8
                    } else {
                        let head9 = head8.push(m.rgb->0);
                        if format == 9 {
                            head9
                        } else {
                            head9.push(dec_rep(m.exon_num->0 as int)).push(
                                list_rep(m.exon_sizes->0),
                            ).push(list_rep(m.exon_starts->0))
                        }
                    }
                }
            }
        }
    }
}

/// The rendered line of a record at the given format.
pub open spec fn spec_render(m: BedModel, format: int) -> Seq<char> {
    join_by(spec_fields(m, format), '\t')
}

/// The fields the given output format reads are all populated.
pub open spec fn fields_for_format(m: BedModel, format: int) -> bool {
    &&& m.chrom is Some
    &&& m.thin_start is Some
    &&& m.thin_end is Some
    &&& format >= 4 ==> m.name is Some
    &&& format >= 5 ==> m.score is Some
    &&& format >= 6 ==> m.strand is Some
    &&& format >= 8 ==> m.thick_start is Some && m.thick_end is Some
    &&& format >= 9 ==> m.rgb is Some
    &&& format >= 12 ==> m.exon_num is Some && m.exon_sizes is Some && m.exon_starts is Some
}

fn push_str_field(out: &mut String, f: &String)
    ensures
        final(out)@ == old(out)@ + f@,
{
    out.append(f.as_str());
}

fn push_tab(out: &mut String)
    ensures
        final(out)@ == old(out)@.push('\t'),
{
    push_char(out, '\t');
}

/// Appends the comma-joined rendering of a numeric list.
fn push_list(out: &mut String, vals: &Vec<u64>)
    ensures
        final(out)@ == old(out)@ + list_rep(vals@),
{
    let mut i: usize = 0;
    while i < vals.len()
        invariant
            0 <= i <= vals@.len(),
            out@ == old(out)@ + list_head(vals@, i as int),
        decreases vals@.len() - i,
    {
        push_u64(out, vals[i]);
        push_char(out, ',');
        proof {
            assert(list_head(vals@, i + 1) =~= list_head(vals@, i as int) + dec_rep(
                vals@[i as int] as int,
            ) + seq![',']);
            assert(old(out)@ + list_head(vals@, i + 1) =~= (old(out)@ + list_head(vals@, i as int)
                + dec_rep(vals@[i as int] as int)).push(','));
        }
        i += 1;
    }
    proof {
        lemma_list_head_full(vals@, vals@.len() as int);
        assert(out@ == old(out)@ + list_rep(vals@));
    }
}

/// The rendering of the first `i` values of a list.
pub open spec fn list_head(vals: Seq<u64>, i: int) -> Seq<char>
    decreases i,
{
    if i <= 0 {
        Seq::empty()
    } else {
        list_head(vals, i - 1) + dec_rep(vals[i - 1] as int) + seq![',']
    }
}

proof fn lemma_list_head_full(vals: Seq<u64>, i: int)
    requires
        0 <= i <= vals.len(),
    ensures
        list_head(vals, i) + list_rep(vals.skip(i)) == list_rep(vals),
    decreases i,
{
    if i == 0 {
        assert(vals.skip(0) =~= vals);
        assert(list_head(vals, 0) + list_rep(vals) =~= list_rep(vals));
    } else {
        lemma_list_head_full(vals, i - 1);
        let tail = vals.skip(i - 1);
        assert(tail.len() > 0);
        assert(tail[0] == vals[i - 1]);
        assert(tail.drop_first() =~= vals.skip(i));
        assert(list_rep(tail) == dec_rep(vals[i - 1] as int) + seq![','] + list_rep(vals.skip(i)));
        assert(list_head(vals, i) + list_rep(vals.skip(i)) =~= list_head(vals, i - 1) + list_rep(
            tail,
        ));
    }
}

proof fn lemma_join_push(fs: Seq<Seq<char>>, f: Seq<char>, sep: char)
    requires
        fs.len() >= 1,
    ensures
        join_by(fs.push(f), sep) == join_by(fs, sep) + seq![sep] + f,
    decreases fs.len(),
{
    if fs.len() == 1 {
        assert(fs.push(f).drop_first() =~= seq![f]);
        assert(join_by(seq![f], sep) == f);
        assert(fs.push(f)[0] == fs[0]);
        assert(join_by(fs.push(f), sep) =~= fs[0] + seq![sep] + f);
        assert(join_by(fs, sep) == fs[0]);
    } else {
        lemma_join_push(fs.drop_first(), f, sep);
        assert(fs.push(f).drop_first() =~= fs.drop_first().push(f));
        assert(join_by(fs.push(f), sep) =~= fs[0] + seq![sep] + join_by(
            fs.drop_first().push(f),
            sep,
        ));
        assert(join_by(fs, sep) + seq![sep] + f =~= fs[0] + seq![sep] + (join_by(
            fs.drop_first(),
            sep,
        ) + seq![sep] + f));
    }
}

/// Formats a record into a tab-separated BED line with the requested
/// column count. The record must be at least as rich as the requested
/// format; unsupported counts are rejected as formatting errors and
/// unpopulated fields as missing-trait errors.
#[verifier::rlimit(60)]
#[verifier::spinoff_prover]
pub fn to_line(bed_entry: &BedEntry, format: u8) -> (r: Result<String, CubiculumError>)
    ensures
        (r matches Err(e) && e is FormattingError) <==> (!format_supported(format as int) || (
        format_supported(format as int) && crate::structs::spec_format(bed_entry) < format)),
        (r matches Err(e) && e is MissingTraitError) <==> (format_supported(format as int)
            && crate::structs::spec_format(bed_entry) >= format && !fields_for_format(
            model_of(bed_entry),
            format as int,
        )),
        r matches Ok(s) <==> (format_supported(format as int) && crate::structs::spec_format(
            bed_entry,
        ) >= format && fields_for_format(model_of(bed_entry), format as int)),
        r matches Ok(s) ==> s@ == spec_render(model_of(bed_entry), format as int),
{
    if format < 3 || format == 7 || format == 10 || format == 11 || format > 12 {
        return Err(
            CubiculumError::FormattingError(
                "Requested format is not supported; accepted formats are 3, 4, 5, 6, 8, 9 and 12".to_owned(),
            ),
        );
    }
    let entry_format = bed_entry.format();
    if entry_format < format {
        return Err(
            CubiculumError::FormattingError(
                "Cannot format an entry into a richer line than its own format".to_owned(),
            ),
        );
    }
    let chrom = match bed_entry.chrom.as_ref() {
        Some(x) => x,
        None => {
            return Err(CubiculumError::MissingTraitError("Undefined chromosome field".to_owned()));
        },
    };
    let thin_start = match bed_entry.thin_start {
        Some(x) => x,
        None => {
            return Err(CubiculumError::MissingTraitError("Undefined thinStart field".to_owned()));
        },
    };
    let thin_end = match bed_entry.thin_end {
        Some(x) => x,
        None => {
            return Err(CubiculumError::MissingTraitError("Undefined thinEnd field".to_owned()));
        },
    };
    let ghost m = model_of(bed_entry);
    let mut out: String = chrom.clone();
    push_tab(&mut out);
    push_u64(&mut out, thin_start);
    push_tab(&mut out);
    push_u64(&mut out, thin_end);
    proof {
        let c0 = m.chrom->0;
        let d1 = dec_rep(m.thin_start->0 as int);
        let d2 = dec_rep(m.thin_end->0 as int);
        assert(join_by(seq![c0], '\t') == c0);
        lemma_join_push(seq![c0], d1, '\t');
        lemma_join_push(seq![c0].push(d1), d2, '\t');
        assert(spec_fields(m, 3) =~= seq![c0].push(d1).push(d2));
        assert(out@ =~= join_by(spec_fields(m, 3), '\t'));
    }
    if format == 3 {
        return Ok(out);
    }
    let name = match bed_entry.name.as_ref() {
        Some(x) => x,
        None => {
            return Err(CubiculumError::MissingTraitError("Undefined name field".to_owned()));
        },
    };
    push_tab(&mut out);
    push_str_field(&mut out, name);
    proof {
        lemma_join_push(spec_fields(m, 3), m.name->0, '\t');
        assert(spec_fields(m, 4) =~= spec_fields(m, 3).push(m.name->0));
        assert(out@ =~= join_by(spec_fields(m, 4), '\t'));
    }
    if format == 4 {
        return Ok(out);
    }
    let score = match bed_entry.score.as_ref() {
        Some(x) => x,
        None => {
            return Err(CubiculumError::MissingTraitError("Undefined score field".to_owned()));
        },
    };
    push_tab(&mut out);
    push_str_field(&mut out, score);
    proof {
        lemma_join_push(spec_fields(m, 4), m.score->0, '\t');
        assert(spec_fields(m, 5) =~= spec_fields(m, 4).push(m.score->0));
        assert(out@ =~= join_by(spec_fields(m, 5), '\t'));
    }
    if format == 5 {
        return Ok(out);
    }
    let strand = match bed_entry.strand {
        Some(x) => x,
        None => {
            return Err(CubiculumError::MissingTraitError("Undefined strand field".to_owned()));
        },
    };
    push_tab(&mut out);
    push_char(&mut out, if strand { '+' } else { '-' });
    proof {
        let sf = if m.strand->0 { seq!['+'] } else { seq!['-'] };
        lemma_join_push(spec_fields(m, 5), sf, '\t');
        assert(spec_fields(m, 6) =~= spec_fields(m, 5).push(sf));
        assert(out@ =~= join_by(spec_fields(m, 6), '\t'));
    }
    if format == 6 {
        return Ok(out);
    }
    let thick_start = match bed_entry.thick_start {
        Some(x) => x,
        None => {
            return Err(CubiculumError::MissingTraitError("Undefined thickStart field".to_owned()));
        },
    };
    let thick_end = match bed_entry.thick_end {
        Some(x) => x,
        None => {
            return Err(CubiculumError::MissingTraitError("Undefined thickEnd field".to_owned()));
        },
    };
    push_tab(&mut out);
    push_u64(&mut out, thick_start);
    push_tab(&mut out);
    push_u64(&mut out, thick_end);
    proof {
        let f6 = spec_fields(m, 6);
        lemma_join_push(f6, dec_rep(m.thick_start->0 as int), '\t');
        lemma_join_push(
            f6.push(dec_rep(m.thick_start->0 as int)),
            dec_rep(m.thick_end->0 as int),
            '\t',
        );
        assert(spec_fields(m, 8) =~= f6.push(dec_rep(m.thick_start->0 as int)).push(
            dec_rep(m.thick_end->0 as int),
        ));
        assert(out@ =~= join_by(spec_fields(m, 8), '\t'));
    }
    if format == 8 {
        return Ok(out);
    }
    let rgb = match bed_entry.rgb.as_ref() {
        Some(x) => x,
        None => {
            return Err(CubiculumError::MissingTraitError("Undefined Rgb field".to_owned()));
        },
    };
    push_tab(&mut out);
    push_str_field(&mut out, rgb);
    proof {
        lemma_join_push(spec_fields(m, 8), m.rgb->0, '\t');
        assert(spec_fields(m, 9) =~= spec_fields(m, 8).push(m.rgb->0));
        assert(out@ =~= join_by(spec_fields(m, 9), '\t'));
    }
    if format == 9 {
        return Ok(out);
    }
    let exon_num = match bed_entry.exon_num {
        Some(x) => x,
        None => {
            return Err(CubiculumError::MissingTraitError("Undefined exonNumber field".to_owned()));
        },
    };
    let exon_sizes = match bed_entry.exon_sizes.as_ref() {
        Some(x) => x,
        None => {
            return Err(CubiculumError::MissingTraitError("Undefined exonSizes field".to_owned()));
        },
    };
    let exon_starts = match bed_entry.exon_starts.as_ref() {
        Some(x) => x,
        None => {
            return Err(CubiculumError::MissingTraitError("Undefined exonStarts field".to_owned()));
        },
    };
    push_tab(&mut out);
    push_u64(&mut out, exon_num as u64);
    push_tab(&mut out);
    push_list(&mut out, exon_sizes);
    push_tab(&mut out);
    push_list(&mut out, exon_starts);
    proof {
        let f9 = spec_fields(m, 9);
        lemma_join_push(f9, dec_rep(m.exon_num->0 as int), '\t');
        lemma_join_push(f9.push(dec_rep(m.exon_num->0 as int)), list_rep(m.exon_sizes->0), '\t');
        lemma_join_push(
            f9.push(dec_rep(m.exon_num->0 as int)).push(list_rep(m.exon_sizes->0)),
            list_rep(m.exon_starts->0),
            '\t',
        );
        assert(spec_fields(m, 12) =~= f9.push(dec_rep(m.exon_num->0 as int)).push(
            list_rep(m.exon_sizes->0),
        ).push(list_rep(m.exon_starts->0)));
        assert(out@ =~= join_by(spec_fields(m, 12), '\t'));
    }
    Ok(out)
}

/// The scalar shape of a twelve-column record: the thin and thick spans
/// plus the block geometry, with strings left aside.
pub struct FracShape {
    pub ts: u64,
    pub te: u64,
    pub ks: u64,
    pub ke: u64,
    pub sizes: Seq<u64>,
    pub starts: Seq<u64>,
}

pub open spec fn fshape_wf(sh: FracShape) -> bool {
    &&& sh.ts <= sh.ks
    &&& sh.ks <= sh.ke
    &&& sh.ke <= sh.te
    &&& crate::structs::blocks_wf(sh.ts, sh.te, sh.sizes, sh.starts)
}

pub open spec fn shape_of(e: &BedEntry) -> FracShape {
    FracShape {
        ts: e.thin_start->0,
        te: e.thin_end->0,
        ks: e.thick_start->0,
        ke: e.thick_end->0,
        sizes: e.exon_sizes->0@,
        starts: e.exon_starts->0@,
    }
}

/// The mode asks for the flank upstream (in genomic coordinates) of the
/// coding sequence: the five-prime side on the forward strand, the
/// three-prime side on the reverse strand.
pub open spec fn mode_up(strand: bool, mode: BedFractionMode) -> bool {
    (strand && mode == BedFractionMode::Utr5) || (!strand && mode == BedFractionMode::Utr3)
}

/// The mode asks for the flank downstream of the coding sequence.
pub open spec fn mode_down(strand: bool, mode: BedFractionMode) -> bool {
    (strand && mode == BedFractionMode::Utr3) || (!strand && mode == BedFractionMode::Utr5)
}

/// The retained fragments of one exon block `[bs, be)` against the coding
/// range `[ks, ke)`. A record with an empty coding range is non-coding and
/// counts in full as untranslated material.
pub open spec fn exon_frags(
    mode: BedFractionMode,
    up: bool,
    down: bool,
    ks: int,
    ke: int,
    bs: int,
    be: int,
) -> Seq<(int, int)> {
    if ks == ke {
        if mode == BedFractionMode::Cds {
            Seq::empty()
        } else {
            seq![(bs, be)]
        }
    } else if be <= ks {
        if mode == BedFractionMode::All || mode == BedFractionMode::Utr || up {
            seq![(bs, be)]
        } else {
            Seq::empty()
        }
    } else if bs >= ke {
        if mode == BedFractionMode::All || mode == BedFractionMode::Utr || down {
            seq![(bs, be)]
        } else {
            Seq::empty()
        }
    } else if mode == BedFractionMode::All {
        seq![(bs, be)]
    } else if mode == BedFractionMode::Cds {
        seq![(vstd::math::max(bs, ks), vstd::math::min(be, ke))]
    } else {
        (if bs < ks && (mode == BedFractionMode::Utr || up) {
            seq![(bs, ks)]
        } else {
            Seq::empty()
        }) + (if ke < be && (mode == BedFractionMode::Utr || down) {
            seq![(ke, be)]
        } else {
            Seq::empty()
        })
    }
}

/// The retained fragments of one inter-block gap `[be, ge)`, classified by
/// the block `[bs, be)` that precedes it.
pub open spec fn gap_frags(
    mode: BedFractionMode,
    up: bool,
    down: bool,
    ks: int,
    ke: int,
    bs: int,
    be: int,
    ge: int,
) -> Seq<(int, int)> {
    if ks == ke {
        if mode == BedFractionMode::Cds {
            Seq::empty()
        } else {
            seq![(be, ge)]
        }
    } else if be <= ks {
        if mode == BedFractionMode::All || mode == BedFractionMode::Utr || up {
            seq![(be, ge)]
        } else {
            Seq::empty()
        }
    } else if bs >= ke {
        if mode == BedFractionMode::All || mode == BedFractionMode::Utr || down {
            seq![(be, ge)]
        } else {
            Seq::empty()
        }
    } else if mode == BedFractionMode::All {
        seq![(be, ge)]
    } else if mode == BedFractionMode::Cds {
        if be < ke {
            seq![(be, ge)]
        } else {
            Seq::empty()
        }
    } else if (mode == BedFractionMode::Utr || down) && be > ke {
        seq![(be, ge)]
    } else {
        Seq::empty()
    }
}

/// The fragments contributed by unit `j`: block `j` itself, or the gap
/// between blocks `j` and `j + 1` when introns are asked for.
pub open spec fn unit_frags(
    sh: FracShape,
    mode: BedFractionMode,
    up: bool,
    down: bool,
    intron: bool,
    j: int,
) -> Seq<(int, int)> {
    let bs = sh.ts + sh.starts[j];
    let be = sh.ts + sh.starts[j] + sh.sizes[j];
    if intron {
        gap_frags(mode, up, down, sh.ks as int, sh.ke as int, bs, be, sh.ts + sh.starts[j + 1])
    } else {
        exon_frags(mode, up, down, sh.ks as int, sh.ke as int, bs, be)
    }
}

/// All fragments contributed by the first `i` units, in genomic order.
pub open spec fn frags_upto(
    sh: FracShape,
    mode: BedFractionMode,
    up: bool,
    down: bool,
    intron: bool,
    i: int,
) -> Seq<(int, int)>
    decreases i,
{
    if i <= 0 {
        Seq::empty()
    } else {
        frags_upto(sh, mode, up, down, intron, i - 1) + unit_frags(
            sh,
            mode,
            up,
            down,
            intron,
            i - 1,
        )
    }
}

/// How many units a pass scans: every block, or every inter-block gap.
pub open spec fn unit_count(sh: FracShape, intron: bool) -> int {
    if intron {
        sh.sizes.len() - 1
    } else {
        sh.sizes.len() as int
    }
}

/// The full retained-fragment list of a record for a mode.
pub open spec fn record_frags(
    sh: FracShape,
    mode: BedFractionMode,
    strand: bool,
    intron: bool,
) -> Seq<(int, int)> {
    frags_upto(
        sh,
        mode,
        mode_up(strand, mode),
        mode_down(strand, mode),
        intron,
        unit_count(sh, intron),
    )
}

/// An upper bound on everything the first `i` units can contribute.
pub open spec fn frag_cap(sh: FracShape, intron: bool, i: int) -> int {
    if i <= 0 {
        sh.ts as int
    } else if intron {
        sh.ts + sh.starts[i]
    } else {
        sh.ts + sh.starts[i - 1] + sh.sizes[i - 1]
    }
}

/// Fragment lists of well-formed records are well-formed themselves: every
/// fragment is a non-inverted span inside the record's thin span, and the
/// list is ordered with no overlaps.
pub proof fn lemma_frags_wf(
    sh: FracShape,
    mode: BedFractionMode,
    up: bool,
    down: bool,
    intron: bool,
    i: int,
)
    requires
        fshape_wf(sh),
        0 <= i <= unit_count(sh, intron),
    ensures
        ({
            let fr = frags_upto(sh, mode, up, down, intron, i);
            &&& (forall|k: int|
                0 <= k < fr.len() ==> ((#[trigger] fr[k]).0 <= fr[k].1 && sh.ts <= fr[k].0
                    && fr[k].1 <= frag_cap(sh, intron, i)))
            &&& (forall|k: int, l: int| 0 <= k < l < fr.len() ==> fr[k].1 <= fr[l].0)
            &&& frag_cap(sh, intron, i) <= sh.te
        }),
    decreases i,
{
    if i == 0 {
    } else {
        lemma_frags_wf(sh, mode, up, down, intron, i - 1);
        let fp = frags_upto(sh, mode, up, down, intron, i - 1);
        let uf = unit_frags(sh, mode, up, down, intron, i - 1);
        let fr = frags_upto(sh, mode, up, down, intron, i);
        let bs = sh.ts + sh.starts[i - 1];
        let be = sh.ts + sh.starts[i - 1] + sh.sizes[i - 1];
        crate::structs::lemma_blocks_bounded(sh.ts, sh.te, sh.sizes, sh.starts, i - 1);
        let unit_lo: int = if intron {
            be
        } else {
            bs
        };
        let unit_hi: int = if intron {
            sh.ts + sh.starts[i]
        } else {
            be
        };
        if intron {
            assert(sh.starts[i - 1] + sh.sizes[i - 1] <= sh.starts[i]);
            crate::structs::lemma_blocks_bounded(sh.ts, sh.te, sh.sizes, sh.starts, i);
        }
        assert(unit_lo <= unit_hi);
        assert(unit_hi <= sh.te);
        assert(frag_cap(sh, intron, i - 1) <= unit_lo) by {
            if i - 1 > 0 {
                assert(sh.starts[i - 2] + sh.sizes[i - 2] <= sh.starts[i - 1]);
            }
        };
        assert(unit_hi == frag_cap(sh, intron, i));
        assert(forall|k: int|
            0 <= k < uf.len() ==> ((#[trigger] uf[k]).0 <= uf[k].1 && unit_lo <= uf[k].0
                && uf[k].1 <= unit_hi)) by {
            if !intron {
                assert(bs < be);
                if sh.ks != sh.ke && be > sh.ks && bs < sh.ke && mode != BedFractionMode::All
                    && mode == BedFractionMode::Cds {
                    assert(vstd::math::max(bs, sh.ks as int) <= vstd::math::min(be, sh.ke as int));
                }
            }
        };
        assert(forall|k: int, l: int| 0 <= k < l < uf.len() ==> uf[k].1 <= uf[l].0) by {
            if uf.len() == 2 {
                assert(uf[0].1 == sh.ks as int && uf[1].0 == sh.ke as int);
            }
        };
        assert(forall|k: int|
            0 <= k < fr.len() ==> ((#[trigger] fr[k]).0 <= fr[k].1 && sh.ts <= fr[k].0 && fr[k].1
                <= frag_cap(sh, intron, i))) by {
            assert(forall|k: int| 0 <= k < fp.len() ==> fr[k] == fp[k]);
            assert(forall|k: int| fp.len() <= k < fr.len() ==> fr[k] == uf[k - fp.len()]);
        };
        assert(forall|k: int, l: int| 0 <= k < l < fr.len() ==> fr[k].1 <= fr[l].0) by {
            assert(forall|k: int| 0 <= k < fp.len() ==> fr[k] == fp[k]);
            assert(forall|k: int| fp.len() <= k < fr.len() ==> fr[k] == uf[k - fp.len()]);
            assert(forall|k: int| 0 <= k < fp.len() ==> (#[trigger] fp[k]).1 <= frag_cap(
                sh,
                intron,
                i - 1,
            ));
        };
    }
}

/// The views of collected fragment pairs.
pub open spec fn frag_views(v: Seq<(u64, u64)>) -> Seq<(int, int)> {
    v.map_values(|p: (u64, u64)| (p.0 as int, p.1 as int))
}

/// Walks the units of a record in genomic order and collects the retained
/// fragments for the requested mode.
pub(crate) fn collect_frags(
    mode: BedFractionMode,
    strand: bool,
    ts: u64,
    te: u64,
    ks: u64,
    ke: u64,
    sizes: &Vec<u64>,
    starts: &Vec<u64>,
    use_introns: bool,
) -> (r: Vec<(u64, u64)>)
    requires
        fshape_wf(FracShape { ts, te, ks, ke, sizes: sizes@, starts: starts@ }),
    ensures
        frag_views(r@) == record_frags(
            FracShape { ts, te, ks, ke, sizes: sizes@, starts: starts@ },
            mode,
            strand,
            use_introns,
        ),
{
    let ghost sh = FracShape { ts, te, ks, ke, sizes: sizes@, starts: starts@ };
    let ghost up = mode_up(strand, mode);
    let ghost down = mode_down(strand, mode);
    let report_up: bool = (strand && mode == BedFractionMode::Utr5) || (!strand && mode
        == BedFractionMode::Utr3);
    let report_down: bool = (strand && mode == BedFractionMode::Utr3) || (!strand && mode
        == BedFractionMode::Utr5);
    let n = sizes.len();
    let units: usize = if use_introns {
        n - 1
    } else {
        n
    };
    let mut acc: Vec<(u64, u64)> = Vec::new();
    let mut j: usize = 0;
    proof {
        assert(frag_views(acc@) =~= frags_upto(sh, mode, up, down, use_introns, 0));
    }
    while j < units
        invariant
            0 <= j <= units,
            sh == (FracShape { ts, te, ks, ke, sizes: sizes@, starts: starts@ }),
            fshape_wf(sh),
            up == mode_up(strand, mode),
            down == mode_down(strand, mode),
            report_up == up,
            report_down == down,
            n == sizes@.len(),
            n == starts@.len(),
            units == unit_count(sh, use_introns),
            frag_views(acc@) == frags_upto(sh, mode, up, down, use_introns, j as int),
        decreases units - j,
    {
        proof {
            crate::structs::lemma_blocks_bounded(ts, te, sizes@, starts@, j as int);
            if use_introns {
                crate::structs::lemma_blocks_bounded(ts, te, sizes@, starts@, j + 1);
                assert(starts@[j as int] + sizes@[j as int] <= starts@[j + 1]);
            }
        }
        let bs: u64 = ts + starts[j];
        let be: u64 = bs + sizes[j];
        let ghost uf = unit_frags(sh, mode, up, down, use_introns, j as int);
        let ghost pre = frags_upto(sh, mode, up, down, use_introns, j as int);
        if use_introns {
            let ge: u64 = ts + starts[j + 1];
            let keep: bool = if ks == ke {
                !(mode == BedFractionMode::Cds)
            } else if be <= ks {
                mode == BedFractionMode::All || mode == BedFractionMode::Utr || report_up
            } else if bs >= ke {
                mode == BedFractionMode::All || mode == BedFractionMode::Utr || report_down
            } else if mode == BedFractionMode::All {
                true
            } else if mode == BedFractionMode::Cds {
                be < ke
            } else {
                (mode == BedFractionMode::Utr || report_down) && be > ke
            };
            if keep {
                acc.push((be, ge));
                proof {
                    assert(uf =~= seq![(be as int, ge as int)]);
                    assert(frag_views(acc@) =~= pre + uf);
                }
            } else {
                proof {
                    assert(uf =~= Seq::<(int, int)>::empty());
                    assert(frag_views(acc@) =~= pre + uf);
                }
            }
        } else {
            if ks == ke {
                if !(mode == BedFractionMode::Cds) {
                    acc.push((bs, be));
                    proof {
                        assert(uf =~= seq![(bs as int, be as int)]);
                        assert(frag_views(acc@) =~= pre + uf);
                    }
                } else {
                    proof {
                        assert(uf =~= Seq::<(int, int)>::empty());
                        assert(frag_views(acc@) =~= pre + uf);
                    }
                }
            } else if be <= ks || bs >= ke {
                let keep: bool = if be <= ks {
                    mode == BedFractionMode::All || mode == BedFractionMode::Utr || report_up
                } else {
                    mode == BedFractionMode::All || mode == BedFractionMode::Utr || report_down
                };
                if keep {
                    acc.push((bs, be));
                    proof {
                        assert(uf =~= seq![(bs as int, be as int)]);
                        assert(frag_views(acc@) =~= pre + uf);
                    }
                } else {
                    proof {
                        assert(uf =~= Seq::<(int, int)>::empty());
                        assert(frag_views(acc@) =~= pre + uf);
                    }
                }
            } else if mode == BedFractionMode::All {
                acc.push((bs, be));
                proof {
                    assert(uf =~= seq![(bs as int, be as int)]);
                    assert(frag_views(acc@) =~= pre + uf);
                }
            } else if mode == BedFractionMode::Cds {
                let cs: u64 = if bs > ks {
                    bs
                } else {
                    ks
                };
                let ce: u64 = if be < ke {
                    be
                } else {
                    ke
                };
                acc.push((cs, ce));
                proof {
                    assert(uf =~= seq![(cs as int, ce as int)]);
                    assert(frag_views(acc@) =~= pre + uf);
                }
            } else {
                let keep_pre: bool = bs < ks && (mode == BedFractionMode::Utr || report_up);
                let keep_post: bool = ke < be && (mode == BedFractionMode::Utr || report_down);
                if keep_pre {
                    acc.push((bs, ks));
                }
                if keep_post {
                    acc.push((ke, be));
                }
                proof {
                    if keep_pre && keep_post {
                        assert(uf =~= seq![(bs as int, ks as int), (ke as int, be as int)]);
                        assert(frag_views(acc@) =~= pre + uf);
                    } else if keep_pre {
                        assert(uf =~= seq![(bs as int, ks as int)]);
                        assert(frag_views(acc@) =~= pre + uf);
                    } else if keep_post {
                        assert(uf =~= seq![(ke as int, be as int)]);
                        assert(frag_views(acc@) =~= pre + uf);
                    } else {
                        assert(uf =~= Seq::<(int, int)>::empty());
                        assert(frag_views(acc@) =~= pre + uf);
                    }
                }
            }
        }
        j += 1;
    }
    acc
}

/// The sizes of a fragment list.
pub open spec fn frag_sizes(fr: Seq<(int, int)>) -> Seq<u64> {
    fr.map_values(|f: (int, int)| (f.1 - f.0) as u64)
}

/// The starts of a fragment list, relative to the first fragment.
pub open spec fn frag_rel_starts(fr: Seq<(int, int)>) -> Seq<u64> {
    fr.map_values(|f: (int, int)| (f.0 - fr[0].0) as u64)
}

/// In `All` mode over exons every block is retained whole, so the
/// fragment list is exactly the block list.
pub proof fn lemma_all_frags_are_blocks(sh: FracShape, up: bool, down: bool, i: int)
    requires
        fshape_wf(sh),
        0 <= i <= sh.sizes.len(),
    ensures
        ({
            let fr = frags_upto(sh, BedFractionMode::All, up, down, false, i);
            &&& fr.len() == i
            &&& (forall|k: int|
                0 <= k < i ==> #[trigger] fr[k] == (
                    sh.ts + sh.starts[k],
                    sh.ts + sh.starts[k] + sh.sizes[k],
                ))
        }),
    decreases i,
{
    if i > 0 {
        lemma_all_frags_are_blocks(sh, up, down, i - 1);
        let uf = unit_frags(sh, BedFractionMode::All, up, down, false, i - 1);
        assert(uf =~= seq![
            (sh.ts + sh.starts[i - 1], sh.ts + sh.starts[i - 1] + sh.sizes[i - 1]),
        ]);
    }
}

/// The block structure of the produced record, stated against the
/// fragment list: new thin bounds from the first and last fragment,
/// re-anchored offsets, and thick bounds per mode (the coding bounds for
/// a plain CDS pass, the input's own thick range for a plain `All` pass,
/// and the collapsed no-CDS marker otherwise).
pub open spec fn extraction_out_ok(
    entry: &BedEntry,
    mode: BedFractionMode,
    intron: bool,
    fr: Seq<(int, int)>,
    out: &BedEntry,
) -> bool {
    &&& out.format == Some(12u8)
    &&& out.chrom == entry.chrom
    &&& out.name == entry.name
    &&& out.score == entry.score
    &&& out.strand == entry.strand
    &&& out.rgb == entry.rgb
    &&& out.thin_start == Some(fr[0].0 as u64)
    &&& out.thin_end == Some(fr[fr.len() - 1].1 as u64)
    &&& (if mode == BedFractionMode::Cds && !intron {
        out.thick_start == Some(fr[0].0 as u64) && out.thick_end == Some(fr[fr.len() - 1].1 as u64)
    } else if mode == BedFractionMode::All && !intron {
        out.thick_start == entry.thick_start && out.thick_end == entry.thick_end
    } else {
        out.thick_start == Some(fr[fr.len() - 1].1 as u64) && out.thick_end == Some(
            fr[fr.len() - 1].1 as u64,
        )
    })
    &&& out.exon_num == Some(fr.len() as u16)
    &&& (out.exon_sizes matches Some(v) && v@ == frag_sizes(fr))
    &&& (out.exon_starts matches Some(v) && v@ == frag_rel_starts(fr))
}

/// Derives the requested fraction of a well-formed twelve-column record
/// as a single reconstituted record. Yields no data when the requested
/// fraction is empty for this record; a record with unpopulated
/// twelve-column fields is a missing-trait error and a structurally
/// malformed one a parse error.
#[verifier::rlimit(100)]
#[verifier::spinoff_prover]
pub fn extract_fraction(entry: &BedEntry, mode: BedFractionMode, use_introns: bool) -> (r: Result<
    Option<BedEntry>,
    CubiculumError,
>)
    ensures
        (r matches Err(e) && e is MissingTraitError) <==> !crate::structs::bed12_fielded(entry),
        (r matches Err(e) && e is ParseError) <==> (crate::structs::bed12_fielded(entry) && (
        !crate::structs::bed12_wf(entry) || record_frags(
            shape_of(entry),
            mode,
            entry.strand->0,
            use_introns,
        ).len() > u16::MAX)),
        crate::structs::bed12_wf(entry) ==> {
            let fr = record_frags(shape_of(entry), mode, entry.strand->0, use_introns);
            &&& ((r is Ok && r->Ok_0 is None) <==> fr.len() == 0)
            &&& ((r is Ok && r->Ok_0 is Some) <==> (0 < fr.len() && fr.len() <= u16::MAX))
            &&& ((r is Ok && r->Ok_0 is Some) ==> extraction_out_ok(
                entry,
                mode,
                use_introns,
                fr,
                &r->Ok_0->0,
            ))
        },
        (crate::structs::bed12_wf(entry) && mode == BedFractionMode::All && !use_introns) ==> (r
            is Ok && r->Ok_0 is Some && model_of(&r->Ok_0->0) == model_of(entry)),
        (crate::structs::bed12_wf(entry) && use_introns && entry.exon_sizes->0@.len() == 1) ==> (r
            is Ok && r->Ok_0 is None),
{
    if !entry.check_bed12_fielded() {
        return Err(
            CubiculumError::MissingTraitError(
                "The record does not populate every twelve-column field".to_owned(),
            ),
        );
    }
    if !entry.check_bed12_wf() {
        return Err(parse_error("The record's span, coding range or block list is malformed"));
    }
    let ts = entry.thin_start.unwrap();
    let te = entry.thin_end.unwrap();
    let ks = entry.thick_start.unwrap();
    let ke = entry.thick_end.unwrap();
    let strand = entry.strand.unwrap();
    let sizes = entry.exon_sizes.as_ref().unwrap();
    let starts = entry.exon_starts.as_ref().unwrap();
    let ghost sh = shape_of(entry);
    let ghost up = mode_up(strand, mode);
    let ghost down = mode_down(strand, mode);
    let ghost fr = record_frags(sh, mode, strand, use_introns);
    let frags = collect_frags(mode, strand, ts, te, ks, ke, sizes, starts, use_introns);
    proof {
        lemma_frags_wf(sh, mode, up, down, use_introns, unit_count(sh, use_introns));
        if mode == BedFractionMode::All && !use_introns {
            lemma_all_frags_are_blocks(sh, up, down, sh.sizes.len() as int);
        }
    }
    proof {
        assert(fr.len() == frags@.len());
    }
    if frags.len() == 0 {
        return Ok(None);
    }
    if frags.len() > 65535 {
        let oversized = parse_error("The requested fraction holds more blocks than a record can");
        proof {
            assert(crate::structs::bed12_wf(entry));
            assert(fr.len() > u16::MAX);
            assert(fr == record_frags(shape_of(entry), mode, entry.strand->0, use_introns));
        }
        return Err(oversized);
    }
    let new_ts: u64 = frags[0].0;
    let new_te: u64 = frags[frags.len() - 1].1;
    let mut new_sizes: Vec<u64> = Vec::new();
    let mut new_starts: Vec<u64> = Vec::new();
    let mut k: usize = 0;
    proof {
        assert(new_sizes@ =~= frag_sizes(fr).take(0));
        assert(new_starts@ =~= frag_rel_starts(fr).take(0));
    }
    while k < frags.len()
        invariant
            0 <= k <= frags@.len(),
            frag_views(frags@) == fr,
            fr.len() == frags@.len(),
            new_ts == frags@[0].0,
            forall|a: int|
                0 <= a < fr.len() ==> ((#[trigger] fr[a]).0 <= fr[a].1 && sh.ts <= fr[a].0),
            forall|a: int, b: int| 0 <= a < b < fr.len() ==> fr[a].1 <= fr[b].0,
            new_sizes@ == frag_sizes(fr).take(k as int),
            new_starts@ == frag_rel_starts(fr).take(k as int),
        decreases frags@.len() - k,
    {
        proof {
            if k > 0 {
                assert(fr[0].1 <= fr[k as int].0);
            }
        }
        let f = frags[k];
        new_sizes.push(f.1 - f.0);
        new_starts.push(f.0 - new_ts);
        proof {
            assert(new_sizes@ =~= frag_sizes(fr).take(k + 1));
            assert(new_starts@ =~= frag_rel_starts(fr).take(k + 1));
        }
        k += 1;
    }
    proof {
        assert(frag_sizes(fr).take(fr.len() as int) =~= frag_sizes(fr));
        assert(frag_rel_starts(fr).take(fr.len() as int) =~= frag_rel_starts(fr));
    }
    let is_plain_cds = !use_introns && mode == BedFractionMode::Cds;
    let is_plain_all = !use_introns && mode == BedFractionMode::All;
    let new_ks: u64 = if is_plain_cds {
        new_ts
    } else if is_plain_all {
        ks
    } else {
        new_te
    };
    let new_ke: u64 = if is_plain_cds {
        new_te
    } else if is_plain_all {
        ke
    } else {
        new_te
    };
    let chrom = entry.chrom.as_ref().unwrap().clone();
    let name = entry.name.as_ref().unwrap().clone();
    let score = entry.score.as_ref().unwrap().clone();
    let rgb = entry.rgb.as_ref().unwrap().clone();
    let count: u16 = frags.len() as u16;
    let out = BedEntry::bed12(
        chrom,
        new_ts,
        new_te,
        name,
        score,
        strand,
        new_ks,
        new_ke,
        rgb,
        count,
        new_sizes,
        new_starts,
    );
    proof {
        if mode == BedFractionMode::All && !use_introns {
            assert(fr[0].0 == sh.ts);
            assert(fr[fr.len() - 1].1 == sh.ts + sh.starts[fr.len() - 1] + sh.sizes[fr.len() - 1]);
            assert(frag_sizes(fr) =~= sh.sizes);
            assert(frag_rel_starts(fr) =~= sh.starts);
            assert(fr.len() == entry.exon_num->0 as int);
            assert(model_of(&out) =~= model_of(entry));
        }
    }
    Ok(Some(out))
}

/// The one-based ordinal a split block carries: counted forward on the
/// plus strand and backward on the minus strand.
pub open spec fn spec_ordinal(strand: bool, cnt: int, k: int) -> int {
    if strand {
        k + 1
    } else {
        cnt - k
    }
}

/// One six-column block of a split extraction result.
pub open spec fn split_block_ok(
    entry: &BedEntry,
    fr: Seq<(int, int)>,
    k: int,
    b: &BedEntry,
) -> bool {
    &&& b.format == Some(6u8)
    &&& b.chrom == entry.chrom
    &&& b.thin_start == Some(fr[k].0 as u64)
    &&& b.thin_end == Some(fr[k].1 as u64)
    &&& b.name == entry.name
    &&& (b.score matches Some(sc) && sc@ == dec_rep(
        spec_ordinal(entry.strand->0, fr.len() as int, k),
    ))
    &&& b.strand == entry.strand
}

/// Derives the requested fraction as one six-column record per retained
/// fragment, each carrying its strand-ordered one-based ordinal in the
/// score column.
#[verifier::rlimit(60)]
#[verifier::spinoff_prover]
pub fn extract_fraction_split(entry: &BedEntry, mode: BedFractionMode, use_introns: bool) -> (r:
    Result<Option<Vec<BedEntry>>, CubiculumError>)
    ensures
        (r matches Err(e) && e is MissingTraitError) <==> !crate::structs::bed12_fielded(entry),
        (r matches Err(e) && e is ParseError) <==> (crate::structs::bed12_fielded(entry)
            && !crate::structs::bed12_wf(entry)),
        crate::structs::bed12_wf(entry) ==> {
            let fr = record_frags(shape_of(entry), mode, entry.strand->0, use_introns);
            &&& ((r is Ok && r->Ok_0 is None) <==> fr.len() == 0)
            &&& ((r is Ok && r->Ok_0 is Some) <==> fr.len() > 0)
            &&& ((r is Ok && r->Ok_0 is Some) ==> {
                let v = r->Ok_0->0;
                &&& v@.len() == fr.len()
                &&& (forall|k: int|
                    0 <= k < v@.len() ==> split_block_ok(entry, fr, k, &(#[trigger] v@[k])))
            })
        },
{
    if !entry.check_bed12_fielded() {
        return Err(
            CubiculumError::MissingTraitError(
                "The record does not populate every twelve-column field".to_owned(),
            ),
        );
    }
    if !entry.check_bed12_wf() {
        return Err(parse_error("The record's span, coding range or block list is malformed"));
    }
    let ts = entry.thin_start.unwrap();
    let te = entry.thin_end.unwrap();
    let ks = entry.thick_start.unwrap();
    let ke = entry.thick_end.unwrap();
    let strand = entry.strand.unwrap();
    let sizes = entry.exon_sizes.as_ref().unwrap();
    let starts = entry.exon_starts.as_ref().unwrap();
    let ghost sh = shape_of(entry);
    let ghost fr = record_frags(sh, mode, strand, use_introns);
    let frags = collect_frags(mode, strand, ts, te, ks, ke, sizes, starts, use_introns);
    proof {
        assert(fr.len() == frags@.len());
    }
    if frags.len() == 0 {
        return Ok(None);
    }
    let cnt = frags.len();
    let mut blocks: Vec<BedEntry> = Vec::new();
    let mut k: usize = 0;
    while k < cnt
        invariant
            0 <= k <= cnt,
            cnt == frags@.len(),
            fr == frag_views(frags@),
            fr.len() == cnt,
            entry.chrom is Some,
            entry.name is Some,
            entry.strand == Some(strand),
            blocks@.len() == k,
            forall|a: int| 0 <= a < k ==> split_block_ok(entry, fr, a, &(#[trigger] blocks@[a])),
        decreases cnt - k,
    {
        let f = frags[k];
        let ord: u64 = if strand {
            (k as u64) + 1
        } else {
            ((cnt - k) as u64)
        };
        let score = crate::text::u64_to_string(ord);
        let b = BedEntry::bed6(
            entry.chrom.as_ref().unwrap().clone(),
            f.0,
            f.1,
            entry.name.as_ref().unwrap().clone(),
            score,
            strand,
        );
        proof {
            assert(ord as int == spec_ordinal(strand, fr.len() as int, k as int));
        }
        blocks.push(b);
        k += 1;
    }
    Ok(Some(blocks))
}

/// The fraction mode a command word denotes.
pub open spec fn mode_of(s: Seq<char>) -> Option<BedFractionMode> {
    if s == "all"@ {
        Some(BedFractionMode::All)
    } else if s == "cds"@ {
        Some(BedFractionMode::Cds)
    } else if s == "utr"@ {
        Some(BedFractionMode::Utr)
    } else if s == "5utr"@ {
        Some(BedFractionMode::Utr5)
    } else if s == "3utr"@ {
        Some(BedFractionMode::Utr3)
    } else {
        None
    }
}

/// The structural conditions a parsed twelve-column record must meet
/// beyond what parsing itself guarantees: a consistent block count and a
/// well-formed block list.
pub open spec fn model12_wf(m: BedModel) -> bool {
    &&& m.exon_num->0 as int == m.exon_sizes->0.len()
    &&& crate::structs::blocks_wf(m.thin_start->0, m.thin_end->0, m.exon_sizes->0, m.exon_starts->0)
}

pub open spec fn shape_of_model(m: BedModel) -> FracShape {
    FracShape {
        ts: m.thin_start->0,
        te: m.thin_end->0,
        ks: m.thick_start->0,
        ke: m.thick_end->0,
        sizes: m.exon_sizes->0,
        starts: m.exon_starts->0,
    }
}

/// The model of the record a single-record extraction produces.
pub open spec fn extract_out_model(m: BedModel, mode: BedFractionMode, intron: bool) -> BedModel {
    let fr = record_frags(shape_of_model(m), mode, m.strand->0, intron);
    let last = fr[fr.len() - 1].1 as u64;
    BedModel {
        format: 12,
        chrom: m.chrom,
        name: m.name,
        score: m.score,
        strand: m.strand,
        rgb: m.rgb,
        thin_start: Some(fr[0].0 as u64),
        thin_end: Some(last),
        thick_start: if mode == BedFractionMode::Cds && !intron {
            Some(fr[0].0 as u64)
        } else if mode == BedFractionMode::All && !intron {
            m.thick_start
        } else {
            Some(last)
        },
        thick_end: if mode == BedFractionMode::All && !intron {
            m.thick_end
        } else {
            Some(last)
        },
        exon_num: Some(fr.len() as u16),
        exon_sizes: Some(frag_sizes(fr)),
        exon_starts: Some(frag_rel_starts(fr)),
    }
}

/// One line of a split extraction result, as a six-column model.
pub open spec fn bed6_block_model(m: BedModel, fr: Seq<(int, int)>, k: int) -> BedModel {
    model6(
        m.chrom->0,
        fr[k].0 as u64,
        fr[k].1 as u64,
        m.name->0,
        dec_rep(spec_ordinal(m.strand->0, fr.len() as int, k)),
        m.strand->0,
    )
}

/// The first `k` lines of a split extraction result, newline-separated.
pub open spec fn bed6_lines(m: BedModel, fr: Seq<(int, int)>, k: int) -> Seq<char>
    decreases k,
{
    if k <= 0 {
        Seq::empty()
    } else if k == 1 {
        spec_render(bed6_block_model(m, fr, 0), 6)
    } else {
        bed6_lines(m, fr, k - 1) + seq!['\n'] + spec_render(bed6_block_model(m, fr, k - 1), 6)
    }
}

/// The whole behaviour of `bed_to_fraction` on its happy paths: what the
/// rendered output is once the mode word, the line and the record's
/// structure have been accepted.
pub open spec fn spec_fraction_output(m: BedModel, mode: BedFractionMode, intron: bool, bed6: bool) -> Seq<
    char,
> {
    let fr = record_frags(shape_of_model(m), mode, m.strand->0, intron);
    if bed6 {
        bed6_lines(m, fr, fr.len() as int)
    } else {
        spec_render(extract_out_model(m, mode, intron), 12)
    }
}

/// Derives the requested fraction of a twelve-column input line, either
/// as one reconstituted line or, with `bed6` set, as one six-column line
/// per retained fragment. An unknown mode word, a malformed line or a
/// structurally malformed record is a parse error; a fraction that is
/// empty for this record yields no data.
#[verifier::rlimit(100)]
#[verifier::spinoff_prover]
pub fn bed_to_fraction(line: String, mode: &str, intron: bool, bed6: bool) -> (r: Result<
    Option<String>,
    CubiculumError,
>)
    ensures
        ({
            let md = mode_of(mode@);
            let pm = spec_parse_bed(line@, 12);
            &&& (r is Err <==> (md is None || pm is None || (md is Some && pm is Some
                && !model12_wf(pm->0)) || (md is Some && pm is Some && model12_wf(pm->0) && !bed6
                && record_frags(shape_of_model(pm->0), md->0, pm->0.strand->0, intron).len()
                > u16::MAX)))
            &&& (r matches Err(e) ==> e is ParseError)
            &&& ((r is Ok && r->Ok_0 is None) <==> (md is Some && pm is Some && model12_wf(pm->0)
                && record_frags(shape_of_model(pm->0), md->0, pm->0.strand->0, intron).len() == 0))
            &&& ((r is Ok && r->Ok_0 is Some) ==> r->Ok_0->0@ == spec_fraction_output(
                pm->0,
                md->0,
                intron,
                bed6,
            ))
        }),
{
    let mode_val: BedFractionMode = if str_eq(mode, "all") {
        BedFractionMode::All
    } else if str_eq(mode, "cds") {
        BedFractionMode::Cds
    } else if str_eq(mode, "utr") {
        BedFractionMode::Utr
    } else if str_eq(mode, "5utr") {
        BedFractionMode::Utr5
    } else if str_eq(mode, "3utr") {
        BedFractionMode::Utr3
    } else {
        return Err(
            parse_error("Invalid mode has been provided; valid modes are all, cds, utr, 3utr, 5utr"),
        );
    };
    let entry = match parse_bed(line, 12, false) {
        Ok(Some(e)) => e,
        Ok(None) => {
            proof {
                assert(false);
            }
            return Err(parse_error("Blank input line"));
        },
        Err(e) => {
            proof {
                assert(format_supported(12));
            }
            return Err(
                parse_error(
                    "The input line is not a well-formed twelve-column record",
                ),
            );
        },
    };
    let ghost pm = spec_parse_bed(line@, 12);
    proof {
        assert(pm is Some);
        assert(model_of(&entry) == pm->0);
        assert(crate::structs::bed12_fielded(&entry));
    }
    if !entry.check_bed12_wf() {
        proof {
            assert(!model12_wf(pm->0));
        }
        return Err(parse_error("The record's span, coding range or block list is malformed"));
    }
    proof {
        assert(model12_wf(pm->0));
        assert(shape_of(&entry) == shape_of_model(pm->0));
    }
    if bed6 {
        let blocks = match extract_fraction_split(&entry, mode_val, intron) {
            Ok(Some(v)) => v,
            Ok(None) => {
                return Ok(None);
            },
            Err(_) => {
                proof {
                    assert(false);
                }
                return Err(parse_error("The record's block list is malformed"));
            },
        };
        let ghost m = pm->0;
        let ghost fr = record_frags(shape_of_model(m), mode_val, m.strand->0, intron);
        let mut out = String::new();
        let mut k: usize = 0;
        proof {
            assert(out@ =~= bed6_lines(m, fr, 0));
        }
        while k < blocks.len()
            invariant
                0 <= k <= blocks@.len(),
                blocks@.len() == fr.len(),
                m == pm->0,
                fr == record_frags(shape_of_model(m), mode_val, m.strand->0, intron),
                m.chrom is Some,
                m.name is Some,
                m.strand is Some,
                forall|a: int|
                    0 <= a < blocks@.len() ==> split_block_ok(
                        &entry,
                        fr,
                        a,
                        &(#[trigger] blocks@[a]),
                    ),
                model_of(&entry) == m,
                out@ == bed6_lines(m, fr, k as int),
            decreases blocks@.len() - k,
        {
            let line_str = match to_line(&blocks[k], 6) {
                Ok(sl) => sl,
                Err(_) => {
                    proof {
                        assert(false);
                    }
                    return Err(parse_error("The record's block list is malformed"));
                },
            };
            proof {
                assert(spec_fields(model_of(&blocks@[k as int]), 6) =~= spec_fields(
                    bed6_block_model(m, fr, k as int),
                    6,
                ));
            }
            if k > 0 {
                push_char(&mut out, '\n');
            }
            out.append(line_str.as_str());
            proof {
                if k == 0 {
                    assert(out@ =~= bed6_lines(m, fr, 1));
                } else {
                    assert(out@ =~= bed6_lines(m, fr, k + 1));
                }
            }
            k += 1;
        }
        return Ok(Some(out));
    }
    let out_entry = match extract_fraction(&entry, mode_val, intron) {
        Ok(Some(e)) => e,
        Ok(None) => {
            return Ok(None);
        },
        Err(_) => {
            proof {
                assert(record_frags(
                    shape_of_model(pm->0),
                    mode_val,
                    pm->0.strand->0,
                    intron,
                ).len() > u16::MAX);
            }
            return Err(parse_error("The requested fraction holds more blocks than a record can"));
        },
    };
    let rendered = match to_line(&out_entry, 12) {
        Ok(sl) => sl,
        Err(_) => {
            proof {
                assert(false);
            }
            return Err(parse_error("The record's block list is malformed"));
        },
    };
    proof {
        assert(model_of(&out_entry) =~= extract_out_model(pm->0, mode_val, intron));
    }
    Ok(Some(rendered))
}

proof fn lemma_mirror_upto(
    sh: FracShape,
    up: bool,
    down: bool,
    intron: bool,
    i: int,
)
    ensures
        frags_upto(sh, BedFractionMode::Utr5, up, down, intron, i) == frags_upto(
            sh,
            BedFractionMode::Utr3,
            up,
            down,
            intron,
            i,
        ),
    decreases i,
{
    if i > 0 {
        lemma_mirror_upto(sh, up, down, intron, i - 1);
        assert(unit_frags(sh, BedFractionMode::Utr5, up, down, intron, i - 1) =~= unit_frags(
            sh,
            BedFractionMode::Utr3,
            up,
            down,
            intron,
            i - 1,
        ));
    }
}

/// Strand symmetry: the five-prime fraction of a record equals the
/// three-prime fraction of the same record with its strand flipped — both
/// select the same genomic fragments.
pub proof fn lemma_strand_symmetry(sh: FracShape, strand: bool, intron: bool)
    ensures
        record_frags(sh, BedFractionMode::Utr5, strand, intron) == record_frags(
            sh,
            BedFractionMode::Utr3,
            !strand,
            intron,
        ),
{
    assert(mode_up(strand, BedFractionMode::Utr5) == mode_up(!strand, BedFractionMode::Utr3));
    assert(mode_down(strand, BedFractionMode::Utr5) == mode_down(!strand, BedFractionMode::Utr3));
    lemma_mirror_upto(
        sh,
        mode_up(strand, BedFractionMode::Utr5),
        mode_down(strand, BedFractionMode::Utr5),
        intron,
        unit_count(sh, intron),
    );
}

/// A genomic position is covered by some fragment of the list.
pub open spec fn covers(fr: Seq<(int, int)>, x: int) -> bool {
    exists|k: int| 0 <= k < fr.len() && (#[trigger] fr[k]).0 <= x < fr[k].1
}

proof fn lemma_covers_concat(a: Seq<(int, int)>, b: Seq<(int, int)>, x: int)
    ensures
        covers(a + b, x) <==> (covers(a, x) || covers(b, x)),
{
    let c = a + b;
    if covers(a, x) {
        let k = choose|k: int| 0 <= k < a.len() && (#[trigger] a[k]).0 <= x < a[k].1;
        assert(c[k].0 <= x < c[k].1);
    }
    if covers(b, x) {
        let k = choose|k: int| 0 <= k < b.len() && (#[trigger] b[k]).0 <= x < b[k].1;
        assert(c[k + a.len()].0 <= x < c[k + a.len()].1);
    }
    if covers(c, x) {
        let k = choose|k: int| 0 <= k < c.len() && (#[trigger] c[k]).0 <= x < c[k].1;
        if k < a.len() {
            assert(a[k].0 <= x < a[k].1);
        } else {
            assert(b[k - a.len()].0 <= x < b[k - a.len()].1);
        }
    }
}

#[verifier::rlimit(100)]
#[verifier::spinoff_prover]
proof fn lemma_partition_upto(sh: FracShape, up: bool, down: bool, i: int, x: int)
    requires
        !up,
        !down,
        fshape_wf(sh),
        sh.ks < sh.ke,
        0 <= i <= sh.sizes.len(),
    ensures
        ({
            let fc = frags_upto(sh, BedFractionMode::Cds, up, down, false, i);
            let fu = frags_upto(sh, BedFractionMode::Utr, up, down, false, i);
            let fa = frags_upto(sh, BedFractionMode::All, up, down, false, i);
            &&& ((covers(fc, x) || covers(fu, x)) <==> covers(fa, x))
            &&& !(covers(fc, x) && covers(fu, x))
        }),
    decreases i,
{
    if i > 0 {
        lemma_partition_upto(sh, up, down, i - 1, x);
        let j = i - 1;
        let bs = sh.ts + sh.starts[j];
        let be = sh.ts + sh.starts[j] + sh.sizes[j];
        let ks = sh.ks as int;
        let ke = sh.ke as int;
        let uc = unit_frags(sh, BedFractionMode::Cds, up, down, false, j);
        let uu = unit_frags(sh, BedFractionMode::Utr, up, down, false, j);
        let ua = unit_frags(sh, BedFractionMode::All, up, down, false, j);
        lemma_covers_concat(
            frags_upto(sh, BedFractionMode::Cds, up, down, false, j),
            uc,
            x,
        );
        lemma_covers_concat(
            frags_upto(sh, BedFractionMode::Utr, up, down, false, j),
            uu,
            x,
        );
        lemma_covers_concat(
            frags_upto(sh, BedFractionMode::All, up, down, false, j),
            ua,
            x,
        );
        assert(ua =~= seq![(bs, be)]);
        assert(covers(ua, x) <==> bs <= x < be) by {
            if bs <= x < be {
                assert(ua[0].0 <= x < ua[0].1);
            }
        };
        assert((covers(uc, x) || covers(uu, x)) <==> bs <= x < be) by {
            if be <= ks {
                assert(uc =~= Seq::<(int, int)>::empty());
                assert(uu =~= seq![(bs, be)]);
                if bs <= x < be {
                    assert(uu[0].0 <= x < uu[0].1);
                }
            } else if bs >= ke {
                assert(uc =~= Seq::<(int, int)>::empty());
                assert(uu =~= seq![(bs, be)]);
                if bs <= x < be {
                    assert(uu[0].0 <= x < uu[0].1);
                }
            } else {
                let cs = vstd::math::max(bs, ks);
                let ce = vstd::math::min(be, ke);
                assert(uc =~= seq![(cs, ce)]);
                if bs < ks && ke < be {
                    assert(uu =~= seq![(bs, ks), (ke, be)]);
                } else if bs < ks {
                    assert(uu =~= seq![(bs, ks)]);
                } else if ke < be {
                    assert(uu =~= seq![(ke, be)]);
                } else {
                    assert(uu =~= Seq::<(int, int)>::empty());
                }
                if bs <= x < be {
                    if cs <= x < ce {
                        assert(uc[0].0 <= x < uc[0].1);
                    } else if x < ks {
                        assert(bs < ks);
                        assert(uu[0] == (bs, ks));
                        assert(uu[0].0 <= x < uu[0].1);
                    } else {
                        assert(x >= ke && ke < be);
                        assert(uu[uu.len() - 1] == (ke, be));
                        assert(uu[uu.len() - 1].0 <= x < uu[uu.len() - 1].1);
                    }
                }
            }
        };
        assert(!(covers(uc, x) && covers(uu, x))) by {
            if covers(uc, x) {
                let k = choose|k: int| 0 <= k < uc.len() && (#[trigger] uc[k]).0 <= x < uc[k].1;
                assert(ks <= x < ke);
            }
            if covers(uu, x) {
                let k = choose|k: int| 0 <= k < uu.len() && (#[trigger] uu[k]).0 <= x < uu[k].1;
                assert(x < ks || x >= ke);
            }
        };
        assert(!(covers(uc, x) && covers(
            frags_upto(sh, BedFractionMode::Utr, up, down, false, j),
            x,
        ))) by {
            lemma_frags_disjoint_modes(sh, up, down, j, x);
        };
        assert(!(covers(uu, x) && covers(
            frags_upto(sh, BedFractionMode::Cds, up, down, false, j),
            x,
        ))) by {
            lemma_frags_disjoint_modes(sh, up, down, j, x);
        };
    }
}

/// Everything the first `j` units contribute lies strictly before unit
/// `j`, in any mode over exons; so a position inside unit `j`'s own
/// fragments is not covered by an earlier prefix and vice versa.
proof fn lemma_frags_disjoint_modes(sh: FracShape, up: bool, down: bool, j: int, x: int)
    requires
        fshape_wf(sh),
        0 <= j < sh.sizes.len(),
    ensures
        forall|mode: BedFractionMode, mode2: BedFractionMode|
            !(covers(#[trigger] frags_upto(sh, mode, up, down, false, j), x) && covers(
                #[trigger] unit_frags(sh, mode2, up, down, false, j),
                x,
            )),
{
    let bs = sh.ts + sh.starts[j];
    assert forall|mode: BedFractionMode, mode2: BedFractionMode|
        !(covers(#[trigger] frags_upto(sh, mode, up, down, false, j), x) && covers(
            #[trigger] unit_frags(sh, mode2, up, down, false, j),
            x,
        )) by {
        let fp = frags_upto(sh, mode, up, down, false, j);
        let uf = unit_frags(sh, mode2, up, down, false, j);
        if covers(fp, x) && covers(uf, x) {
            lemma_frags_wf(sh, mode, up, down, false, j);
            let k = choose|k: int| 0 <= k < fp.len() && (#[trigger] fp[k]).0 <= x < fp[k].1;
            assert(x < frag_cap(sh, false, j));
            let l = choose|l: int| 0 <= l < uf.len() && (#[trigger] uf[l]).0 <= x < uf[l].1;
            assert(uf[l].0 >= bs);
            assert(frag_cap(sh, false, j) <= bs) by {
                if j > 0 {
                    assert(sh.starts[j - 1] + sh.sizes[j - 1] <= sh.starts[j]);
                }
            };
            assert(false);
        }
    };
}

/// UTR/CDS partition: over the exons of a coding record, the `Cds` and
/// `Utr` fractions together cover exactly the positions the `All`
/// fraction covers, with no position covered by both.
pub proof fn lemma_cds_utr_partition(sh: FracShape, strand: bool, x: int)
    requires
        fshape_wf(sh),
        sh.ks < sh.ke,
    ensures
        ({
            let fc = record_frags(sh, BedFractionMode::Cds, strand, false);
            let fu = record_frags(sh, BedFractionMode::Utr, strand, false);
            let fa = record_frags(sh, BedFractionMode::All, strand, false);
            &&& ((covers(fc, x) || covers(fu, x)) <==> covers(fa, x))
            &&& !(covers(fc, x) && covers(fu, x))
        }),
{
    assert(mode_up(strand, BedFractionMode::Cds) == false);
    lemma_partition_upto(
        sh,
        false,
        false,
        sh.sizes.len() as int,
        x,
    );
}

/// A CDS-style clipping pass keeps at most one fragment per block.
pub proof fn lemma_cds_frags_at_most_one(sh: FracShape, up: bool, down: bool, i: int)
    requires
        0 <= i,
    ensures
        frags_upto(sh, BedFractionMode::Cds, up, down, false, i).len() <= i,
    decreases i,
{
    if i > 0 {
        lemma_cds_frags_at_most_one(sh, up, down, i - 1);
    }
}

/// A digit character is neither whitespace nor a separator.
proof fn lemma_digit_char_plain(c: char)
    requires
        is_digit_char(c),
    ensures
        !is_space(c),
        c != ',',
        c != '\t',
{
}

proof fn lemma_dec_rep_plain(n: int)
    requires
        n >= 0,
    ensures
        sep_free(dec_rep(n), '\t'),
        sep_free(dec_rep(n), ','),
        forall|i: int| 0 <= i < dec_rep(n).len() ==> !is_space(#[trigger] dec_rep(n)[i]),
{
    lemma_dec_rep_digits(n);
    assert forall|i: int| 0 <= i < dec_rep(n).len() implies (!is_space(#[trigger] dec_rep(n)[i])
        && dec_rep(n)[i] != ',' && dec_rep(n)[i] != '\t') by {
        lemma_digit_char_plain(dec_rep(n)[i]);
    };
}

/// Every character of a rendered numeric list is a digit or a comma.
proof fn lemma_list_rep_plain(vals: Seq<u64>)
    ensures
        sep_free(list_rep(vals), '\t'),
        forall|i: int| 0 <= i < list_rep(vals).len() ==> !is_space(#[trigger] list_rep(vals)[i]),
    decreases vals.len(),
{
    if vals.len() > 0 {
        lemma_list_rep_plain(vals.drop_first());
        lemma_dec_rep_plain(vals[0] as int);
        let whole = list_rep(vals);
        let head = dec_rep(vals[0] as int);
        let rest = list_rep(vals.drop_first());
        assert forall|i: int| 0 <= i < whole.len() implies (!is_space(#[trigger] whole[i])
            && whole[i] != '\t') by {
            if i < head.len() {
                assert(whole[i] == head[i]);
            } else if i == head.len() {
                assert(whole[i] == ',');
            } else {
                assert(whole[i] == rest[i - head.len() - 1]);
            }
        };
    }
}

/// The pieces of a rendered numeric list, separated at commas: one
/// decimal piece per value, and one empty piece after the trailing comma.
proof fn lemma_list_rep_join(vals: Seq<u64>)
    ensures
        list_rep(vals) == join_by(
            Seq::new(vals.len(), |k: int| dec_rep(vals[k] as int)).push(Seq::<char>::empty()),
            ',',
        ),
    decreases vals.len(),
{
    let fs = Seq::new(vals.len(), |k: int| dec_rep(vals[k] as int)).push(Seq::<char>::empty());
    if vals.len() == 0 {
        assert(fs.len() == 1);
        assert(join_by(fs, ',') == fs[0]);
        assert(list_rep(vals) =~= fs[0]);
    } else {
        lemma_list_rep_join(vals.drop_first());
        let fs2 = Seq::new(
            vals.drop_first().len(),
            |k: int| dec_rep(vals.drop_first()[k] as int),
        ).push(Seq::<char>::empty());
        assert(fs.drop_first() =~~= fs2);
        assert(join_by(fs, ',') == fs[0] + seq![','] + join_by(fs.drop_first(), ','));
        assert(list_rep(vals) =~= dec_rep(vals[0] as int) + seq![','] + list_rep(
            vals.drop_first(),
        ));
    }
}

/// Parsing recovers a rendered numeric list exactly.
proof fn lemma_list_round_trip(vals: Seq<u64>)
    ensures
        parse_u64_list(list_rep(vals)) == Some(vals),
{
    let fs = Seq::new(vals.len(), |k: int| dec_rep(vals[k] as int)).push(Seq::<char>::empty());
    lemma_list_rep_join(vals);
    assert forall|k: int| 0 <= k < fs.len() implies sep_free(#[trigger] fs[k], ',') by {
        if k < vals.len() {
            lemma_dec_rep_plain(vals[k] as int);
        }
    };
    crate::text::lemma_split_of_join(fs, ',');
    lemma_parse_pieces_of_reps(vals);
    assert(parse_u64_list(list_rep(vals)) == parse_pieces(fs));
}

proof fn lemma_parse_pieces_of_reps(vals: Seq<u64>)
    ensures
        parse_pieces(
            Seq::new(vals.len(), |k: int| dec_rep(vals[k] as int)).push(Seq::<char>::empty()),
        ) == Some(vals),
    decreases vals.len(),
{
    let fs = Seq::new(vals.len(), |k: int| dec_rep(vals[k] as int)).push(Seq::<char>::empty());
    if vals.len() == 0 {
        assert(fs.len() == 1);
        assert(fs[0].len() == 0);
        assert(fs.drop_first() =~= Seq::<Seq<char>>::empty());
        assert(parse_pieces(fs.drop_first()) == Some(Seq::<u64>::empty()));
        assert(Some(Seq::<u64>::empty()) == Some(vals)) by {
            assert(Seq::<u64>::empty() =~= vals);
        };
    } else {
        lemma_parse_pieces_of_reps(vals.drop_first());
        let fs2 = Seq::new(
            vals.drop_first().len(),
            |k: int| dec_rep(vals.drop_first()[k] as int),
        ).push(Seq::<char>::empty());
        assert(fs.drop_first() =~~= fs2);
        lemma_dec_rep_digits(vals[0] as int);
        crate::text::lemma_dec_val_of_rep(vals[0] as int);
        assert(fs[0] == dec_rep(vals[0] as int));
        assert(num_ok(fs[0]));
        assert(parse_pieces(fs2) == Some(vals.drop_first()));
        assert(parse_pieces(fs) == Some(seq![vals[0]] + vals.drop_first()));
        assert(seq![vals[0]] + vals.drop_first() =~= vals);
    }
}

/// The first character of a joined line is the first character of its
/// first piece, and its last the last of its last piece, when those
/// pieces are non-empty.
proof fn lemma_join_ends(fs: Seq<Seq<char>>, sep: char)
    requires
        fs.len() >= 1,
    ensures
        fs[0].len() > 0 ==> join_by(fs, sep).len() > 0 && join_by(fs, sep)[0] == fs[0][0],
        fs.last().len() > 0 ==> join_by(fs, sep).len() > 0 && join_by(fs, sep).last()
            == fs.last().last(),
    decreases fs.len(),
{
    if fs.len() == 1 {
    } else {
        lemma_join_ends(fs.drop_first(), sep);
        let whole = join_by(fs, sep);
        let rest = join_by(fs.drop_first(), sep);
        assert(whole == fs[0] + seq![sep] + rest);
        if fs[0].len() > 0 {
            assert(whole[0] == fs[0][0]);
        }
        assert(fs.drop_first().last() == fs.last());
        if fs.last().len() > 0 {
            assert(rest.len() > 0);
            assert(whole.last() == rest.last());
        }
    }
}

/// A line none of whose end characters are whitespace trims to itself.
proof fn lemma_trim_noop(s: Seq<char>)
    requires
        s.len() > 0 ==> !is_space(s[0]),
        s.len() > 0 ==> !is_space(s.last()),
    ensures
        spec_trim(s) == s,
{
    assert(trim_front(s) == s);
    assert(trim_back(s) == s);
}

/// The record fields a given format populates, and no others.
pub open spec fn fields_exact(m: BedModel, format: int) -> bool {
    &&& m.format == format
    &&& m.chrom is Some
    &&& m.thin_start is Some
    &&& m.thin_end is Some
    &&& (m.name is Some <==> format >= 4)
    &&& (m.score is Some <==> format >= 5)
    &&& (m.strand is Some <==> format >= 6)
    &&& (m.thick_start is Some <==> format >= 8)
    &&& (m.thick_end is Some <==> format >= 8)
    &&& (m.rgb is Some <==> format >= 9)
    &&& (m.exon_num is Some <==> format >= 12)
    &&& (m.exon_sizes is Some <==> format >= 12)
    &&& (m.exon_starts is Some <==> format >= 12)
}

/// A string field that can sit anywhere on a line: free of tabs, and of
/// whitespace at either end.
pub open spec fn field_renderable(f: Seq<char>) -> bool {
    &&& sep_free(f, '\t')
    &&& f.len() > 0 ==> !is_space(f[0])
    &&& f.len() > 0 ==> !is_space(f.last())
}

/// The numeric sanity the wire format demands of a record.
pub open spec fn model_numbers_ok(m: BedModel, format: int) -> bool {
    &&& m.thin_start->0 <= m.thin_end->0
    &&& (format >= 8 ==> m.thin_start->0 <= m.thick_start->0 && m.thick_start->0
        <= m.thick_end->0 && m.thick_end->0 <= m.thin_end->0)
}

/// Round-trip: rendering a record at its own format and re-parsing the
/// line yields the record back, field for field. The record's string
/// fields must be renderable (no tabs, no whitespace at their ends), the
/// chromosome and — at the formats where they end the line — the name,
/// score and rgb fields non-empty, and a twelve-column record must hold
/// at least one block.
#[verifier::rlimit(100)]
#[verifier::spinoff_prover]
pub proof fn lemma_parse_render_round_trip(m: BedModel, format: int)
    requires
        format_supported(format),
        fields_exact(m, format),
        model_numbers_ok(m, format),
        m.chrom->0.len() > 0,
        field_renderable(m.chrom->0),
        format >= 4 ==> field_renderable(m.name->0),
        format == 4 ==> m.name->0.len() > 0,
        format >= 5 ==> field_renderable(m.score->0),
        format == 5 ==> m.score->0.len() > 0,
        format >= 9 ==> field_renderable(m.rgb->0),
        format == 9 ==> m.rgb->0.len() > 0,
        format >= 12 ==> m.exon_sizes->0.len() > 0 && m.exon_starts->0.len() > 0,
    ensures
        spec_parse_bed(spec_render(m, format), format) == Some(m),
{
    let fs = spec_fields(m, format);
    let line = spec_render(m, format);
    lemma_dec_rep_plain(m.thin_start->0 as int);
    lemma_dec_rep_plain(m.thin_end->0 as int);
    if format >= 8 {
        lemma_dec_rep_plain(m.thick_start->0 as int);
        lemma_dec_rep_plain(m.thick_end->0 as int);
    }
    if format >= 12 {
        lemma_dec_rep_plain(m.exon_num->0 as int);
        lemma_list_rep_plain(m.exon_sizes->0);
        lemma_list_rep_plain(m.exon_starts->0);
    }
    assert(fs.len() >= 1);
    assert(forall|k: int| 0 <= k < fs.len() ==> sep_free(#[trigger] fs[k], '\t'));
    assert(fs[0] == m.chrom->0);
    lemma_join_ends(fs, '\t');
    assert(line[0] == m.chrom->0[0]);
    assert(fs.last().len() > 0 && !is_space(fs.last().last())) by {
        if format == 3 {
            assert(fs.last() == dec_rep(m.thin_end->0 as int));
            lemma_dec_rep_digits(m.thin_end->0 as int);
        } else if format == 4 {
            assert(fs.last() == m.name->0);
        } else if format == 5 {
            assert(fs.last() == m.score->0);
        } else if format == 6 {
            assert(fs.last() == (if m.strand->0 {
                seq!['+']
            } else {
                seq!['-']
            }));
        } else if format == 8 {
            assert(fs.last() == dec_rep(m.thick_end->0 as int));
            lemma_dec_rep_digits(m.thick_end->0 as int);
        } else if format == 9 {
            assert(fs.last() == m.rgb->0);
        } else {
            assert(fs.last() == list_rep(m.exon_starts->0));
            assert(list_rep(m.exon_starts->0).last() == ',') by {
                lemma_list_rep_last(m.exon_starts->0);
            };
        }
    };
    lemma_trim_noop(line);
    crate::text::lemma_split_of_join(fs, '\t');
    assert(split_by(spec_trim(line), '\t') == fs);
    assert(fs.len() == format) by {
        reveal_with_fuel(join_by, 2);
    };
    lemma_dec_rep_digits(m.thin_start->0 as int);
    crate::text::lemma_dec_val_of_rep(m.thin_start->0 as int);
    lemma_dec_rep_digits(m.thin_end->0 as int);
    crate::text::lemma_dec_val_of_rep(m.thin_end->0 as int);
    assert(fs[1] == dec_rep(m.thin_start->0 as int));
    assert(fs[2] == dec_rep(m.thin_end->0 as int));
    assert(num_ok(fs[1]) && dec_val(fs[1]) == m.thin_start->0);
    assert(num_ok(fs[2]) && dec_val(fs[2]) == m.thin_end->0);
    if format == 3 {
        assert(spec_parse_fields(fs, format) =~~= Some(m));
    } else if format == 4 {
        assert(spec_parse_fields(fs, format) =~~= Some(m));
    } else if format == 5 {
        assert(spec_parse_fields(fs, format) =~~= Some(m));
    } else if format == 6 {
        lemma_strand_field(m.strand->0);
        assert(spec_parse_fields(fs, format) =~~= Some(m));
    } else {
        lemma_strand_field(m.strand->0);
        lemma_dec_rep_digits(m.thick_start->0 as int);
        crate::text::lemma_dec_val_of_rep(m.thick_start->0 as int);
        lemma_dec_rep_digits(m.thick_end->0 as int);
        crate::text::lemma_dec_val_of_rep(m.thick_end->0 as int);
        assert(num_ok(fs[6]) && dec_val(fs[6]) == m.thick_start->0);
        assert(num_ok(fs[7]) && dec_val(fs[7]) == m.thick_end->0);
        if format == 8 {
            assert(spec_parse_fields(fs, format) =~~= Some(m));
        } else if format == 9 {
            assert(spec_parse_fields(fs, format) =~~= Some(m));
        } else {
            lemma_dec_rep_digits(m.exon_num->0 as int);
            crate::text::lemma_dec_val_of_rep(m.exon_num->0 as int);
            assert(num_ok(fs[9]) && dec_val(fs[9]) == m.exon_num->0);
            lemma_list_round_trip(m.exon_sizes->0);
            lemma_list_round_trip(m.exon_starts->0);
            assert(fs[10] == list_rep(m.exon_sizes->0));
            assert(fs[11] == list_rep(m.exon_starts->0));
            assert(spec_parse_fields(fs, format) =~~= Some(m));
        }
    }
}

/// A rendered strand field reads back as the same strand.
proof fn lemma_strand_field(strand: bool)
    ensures
        ((if strand {
            seq!['+']
        } else {
            seq!['-']
        }) == seq!['+']) == strand,
{
    if !strand {
        assert(seq!['-'][0] != seq!['+'][0]);
        assert(seq!['-'] != seq!['+']);
    }
}

/// A non-empty rendered list ends with the conventional trailing comma.
proof fn lemma_list_rep_last(vals: Seq<u64>)
    requires
        vals.len() > 0,
    ensures
        list_rep(vals).len() > 0,
        list_rep(vals).last() == ',',
    decreases vals.len(),
{
    if vals.len() == 1 {
        assert(list_rep(vals.drop_first()) =~= Seq::<char>::empty());
        assert(list_rep(vals).last() == ',');
    } else {
        lemma_list_rep_last(vals.drop_first());
        let whole = list_rep(vals);
        let rest = list_rep(vals.drop_first());
        assert(whole.last() == rest.last());
    }
}

} // verus!
