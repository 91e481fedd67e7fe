//! Storage structures for annotation manipulation: generic intervals,
//! progressive-schema BED records and derived UTR block views, together
//! with the capability traits (`Coordinates`, `Named`, `Stranded`) the
//! algebra and extraction engines work through.

use crate::extract::CubiculumError;
use vstd::prelude::*;

verus! {

/// A partially specified genomic interval: a half-open span
/// `[start, end)` on a named reference sequence. Fields are independently
/// optional so that intermediate algebra results can be built up
/// piecewise.
#[derive(Clone, Debug)]
pub struct Interval {
    pub chrom: Option<String>,
    pub start: Option<u64>,
    pub end: Option<u64>,
    pub name: Option<String>,
}

impl Interval {
    pub fn new() -> (r: Interval)
        ensures
            r.chrom is None,
            r.start is None,
            r.end is None,
            r.name is None,
    {
        Interval { chrom: None, start: None, end: None, name: None }
    }

    pub fn from(chrom: Option<String>, start: Option<u64>, end: Option<u64>, name: Option<
        String,
    >) -> (r: Interval)
        ensures
            r.chrom == chrom,
            r.start == start,
            r.end == end,
            r.name == name,
    {
        Interval { chrom, start, end, name }
    }

    pub fn update_name(&mut self, name: String)
        ensures
            final(self).name == Some(name),
            final(self).chrom == old(self).chrom,
            final(self).start == old(self).start,
            final(self).end == old(self).end,
    {
        self.name = Some(name);
    }

    pub fn update_chrom(&mut self, chrom: String)
        ensures
            final(self).chrom == Some(chrom),
            final(self).start == old(self).start,
            final(self).end == old(self).end,
            final(self).name == old(self).name,
    {
        self.chrom = Some(chrom);
    }

    pub fn update_start(&mut self, start: u64)
        ensures
            final(self).start == Some(start),
            final(self).chrom == old(self).chrom,
            final(self).end == old(self).end,
            final(self).name == old(self).name,
    {
        self.start = Some(start);
    }

    pub fn update_end(&mut self, end: u64)
        ensures
            final(self).end == Some(end),
            final(self).chrom == old(self).chrom,
            final(self).start == old(self).start,
            final(self).name == old(self).name,
    {
        self.end = Some(end);
    }
}

/// The length of a half-open span with optional bounds: defined only when
/// both bounds are set and the start does not exceed the end.
pub open spec fn spec_span_length(start: Option<u64>, end: Option<u64>) -> Option<u64> {
    match (start, end) {
        (Some(a), Some(b)) => if a <= b {
            Some((b - a) as u64)
        } else {
            None
        },
        _ => None,
    }
}

/// Capability of carrying genomic coordinates: a chromosome plus a
/// half-open `[start, end)` span, each part possibly unset.
pub trait Coordinates {
    spec fn spec_chrom(&self) -> Option<Seq<char>>;

    spec fn spec_start(&self) -> Option<u64>;

    spec fn spec_end(&self) -> Option<u64>;

    fn chrom(&self) -> (r: Option<&String>)
        ensures
            r is Some <==> self.spec_chrom() is Some,
            r matches Some(c) ==> c@ == self.spec_chrom()->0,
    ;

    fn start(&self) -> (r: Option<&u64>)
        ensures
            r is Some <==> self.spec_start() is Some,
            r matches Some(v) ==> *v == self.spec_start()->0,
    ;

    fn end(&self) -> (r: Option<&u64>)
        ensures
            r is Some <==> self.spec_end() is Some,
            r matches Some(v) ==> *v == self.spec_end()->0,
    ;

    fn reset_start(&mut self);

    fn reset_end(&mut self);

    fn length(&self) -> (r: Option<u64>)
        ensures
            r == spec_span_length(self.spec_start(), self.spec_end()),
    ;
}

impl Coordinates for Interval {
    open spec fn spec_chrom(&self) -> Option<Seq<char>> {
        match self.chrom {
            Some(c) => Some(c@),
            None => None,
        }
    }

    open spec fn spec_start(&self) -> Option<u64> {
        self.start
    }

    open spec fn spec_end(&self) -> Option<u64> {
        self.end
    }

    fn chrom(&self) -> (r: Option<&String>) {
        self.chrom.as_ref()
    }

    fn start(&self) -> (r: Option<&u64>) {
        self.start.as_ref()
    }

    fn end(&self) -> (r: Option<&u64>) {
        self.end.as_ref()
    }

    fn reset_start(&mut self) {
        self.start = None;
    }

    fn reset_end(&mut self) {
        self.end = None;
    }

    fn length(&self) -> (r: Option<u64>) {
        match (self.start, self.end) {
            (Some(a), Some(b)) => b.checked_sub(a),
            _ => None,
        }
    }
}

/// Capability of carrying a feature name.
pub trait Named {
    spec fn spec_name(&self) -> Option<Seq<char>>;

    fn name(&self) -> (r: Option<&str>)
        ensures
            r is Some <==> self.spec_name() is Some,
            r matches Some(n) ==> n@ == self.spec_name()->0,
    ;

    fn update_name(&mut self, new_name: &str)
        ensures
            final(self).spec_name() == Some(new_name@),
    ;
}

impl Named for Interval {
    open spec fn spec_name(&self) -> Option<Seq<char>> {
        match self.name {
            Some(n) => Some(n@),
            None => None,
        }
    }

    fn name(&self) -> (r: Option<&str>) {
        match self.name.as_ref() {
            Some(x) => Some(x.as_str()),
            None => None,
        }
    }

    fn update_name(&mut self, new_name: &str) {
        self.name = Some(new_name.to_owned());
    }
}

/// A progressive-schema BED annotation record. The `format` tag (3, 4, 5,
/// 6, 8, 9 or 12) says which of the later fields are populated; all
/// coordinates are zero-based half-open.
#[derive(Clone, Debug)]
pub struct BedEntry {
    pub format: Option<u8>,
    pub chrom: Option<String>,
    pub thin_start: Option<u64>,
    pub thin_end: Option<u64>,
    pub name: Option<String>,
    pub score: Option<String>,
    pub strand: Option<bool>,
    pub thick_start: Option<u64>,
    pub thick_end: Option<u64>,
    pub rgb: Option<String>,
    pub exon_num: Option<u16>,
    pub exon_sizes: Option<Vec<u64>>,
    pub exon_starts: Option<Vec<u64>>,
}

/// Structural well-formedness of a block list over the span
/// `[ts, te)`: at least one block, offsets relative to `ts` starting at
/// zero, non-empty, non-overlapping and in ascending order, with the last
/// block ending exactly at `te`.
pub open spec fn blocks_wf(ts: u64, te: u64, sizes: Seq<u64>, starts: Seq<u64>) -> bool {
    &&& sizes.len() == starts.len()
    &&& sizes.len() >= 1
    &&& starts[0] == 0
    &&& (forall|i: int| 0 <= i < sizes.len() ==> #[trigger] sizes[i] >= 1)
    &&& (forall|i: int|
        0 <= i < sizes.len() - 1 ==> #[trigger] starts[i] + sizes[i] <= starts[i + 1])
    &&& ts + starts[sizes.len() - 1] + sizes[sizes.len() - 1] == te
}

/// All fields a twelve-column record needs are populated.
pub open spec fn bed12_fielded(e: &BedEntry) -> bool {
    &&& e.format == Some(12u8)
    &&& e.chrom is Some
    &&& e.thin_start is Some
    &&& e.thin_end is Some
    &&& e.name is Some
    &&& e.score is Some
    &&& e.strand is Some
    &&& e.thick_start is Some
    &&& e.thick_end is Some
    &&& e.rgb is Some
    &&& e.exon_num is Some
    &&& e.exon_sizes is Some
    &&& e.exon_starts is Some
}

/// Full well-formedness of a twelve-column record: fields populated,
/// thick range nested in the thin range, and a well-formed block list
/// whose count matches the stored block number.
pub open spec fn bed12_wf(e: &BedEntry) -> bool {
    &&& bed12_fielded(e)
    &&& e.thin_start->0 <= e.thick_start->0
    &&& e.thick_start->0 <= e.thick_end->0
    &&& e.thick_end->0 <= e.thin_end->0
    &&& e.exon_num->0 as int == e.exon_sizes->0@.len()
    &&& blocks_wf(e.thin_start->0, e.thin_end->0, e.exon_sizes->0@, e.exon_starts->0@)
}

/// The absolute start of block `i`.
pub open spec fn blk_start(ts: u64, starts: Seq<u64>, i: int) -> int {
    ts + starts[i]
}

/// The absolute end of block `i`.
pub open spec fn blk_end(ts: u64, sizes: Seq<u64>, starts: Seq<u64>, i: int) -> int {
    ts + starts[i] + sizes[i]
}

/// In a well-formed block list every block ends within the span, so all
/// absolute block coordinates fit in `u64`.
pub proof fn lemma_blocks_bounded(ts: u64, te: u64, sizes: Seq<u64>, starts: Seq<u64>, i: int)
    requires
        blocks_wf(ts, te, sizes, starts),
        0 <= i < sizes.len(),
    ensures
        ts + starts[i] + sizes[i] <= te,
        starts[i] + sizes[i] <= starts[i] + sizes[i],
    decreases sizes.len() - i,
{
    if i < sizes.len() - 1 {
        lemma_blocks_bounded(ts, te, sizes, starts, i + 1);
        assert(starts[i] + sizes[i] <= starts[i + 1]);
        assert(sizes[i + 1] >= 1);
    }
}



/// The default score a block decomposition uses when none is stored.
fn zero_score() -> (r: String)
    ensures
        r@ == seq!['0'],
{
    let mut z = String::new();
    crate::text::push_char(&mut z, '0');
    proof {
        assert(Seq::<char>::empty().push('0') =~= seq!['0']);
    }
    z
}

impl BedEntry {
    /// Decides at run time whether every twelve-column field is populated.
    pub fn check_bed12_fielded(&self) -> (r: bool)
        ensures
            r == bed12_fielded(self),
    {
        let format_ok = match self.format {
            Some(f) => f == 12,
            None => false,
        };
        format_ok && self.chrom.is_some() && self.thin_start.is_some() && self.thin_end.is_some()
            && self.name.is_some() && self.score.is_some() && self.strand.is_some()
            && self.thick_start.is_some() && self.thick_end.is_some() && self.rgb.is_some()
            && self.exon_num.is_some() && self.exon_sizes.is_some() && self.exon_starts.is_some()
    }

    /// Decides full twelve-column well-formedness at run time.
    pub fn check_bed12_wf(&self) -> (r: bool)
        ensures
            r == bed12_wf(self),
    {
        let format_ok = match self.format {
            Some(f) => f == 12,
            None => false,
        };
        if !format_ok || self.chrom.is_none() || self.name.is_none() || self.score.is_none()
            || self.strand.is_none() || self.rgb.is_none() {
            return false;
        }
        let ts = match self.thin_start {
            Some(x) => x,
            None => {
                return false;
            },
        };
        let te = match self.thin_end {
            Some(x) => x,
            None => {
                return false;
            },
        };
        let ks = match self.thick_start {
            Some(x) => x,
            None => {
                return false;
            },
        };
        let ke = match self.thick_end {
            Some(x) => x,
            None => {
                return false;
            },
        };
        let num = match self.exon_num {
            Some(x) => x,
            None => {
                return false;
            },
        };
        let sizes = match self.exon_sizes.as_ref() {
            Some(x) => x,
            None => {
                return false;
            },
        };
        let starts = match self.exon_starts.as_ref() {
            Some(x) => x,
            None => {
                return false;
            },
        };
        if !(ts <= ks && ks <= ke && ke <= te) {
            return false;
        }
        let n = sizes.len();
        if starts.len() != n || (num as usize) != n || n == 0 {
            return false;
        }
        if starts[0] != 0 {
            return false;
        }
        let mut i: usize = 0;
        while i < n
            invariant
                0 <= i <= n,
                n == sizes@.len(),
                n == starts@.len(),
                self.exon_sizes matches Some(sv) && sv@ == sizes@,
                self.exon_starts matches Some(tv) && tv@ == starts@,
                forall|k: int| 0 <= k < i ==> #[trigger] sizes@[k] >= 1,
                forall|k: int|
                    0 <= k < i && k < n - 1 ==> #[trigger] starts@[k] + sizes@[k] <= starts@[k + 1],
            decreases n - i,
        {
            if sizes[i] == 0 {
                return false;
            }
            if i < n - 1 {
                let reach = match starts[i].checked_add(sizes[i]) {
                    Some(x) => x,
                    None => {
                        return false;
                    },
                };
                if reach > starts[i + 1] {
                    return false;
                }
            }
            i += 1;
        }
        let last_rel = match starts[n - 1].checked_add(sizes[n - 1]) {
            Some(x) => x,
            None => {
                return false;
            },
        };
        let last_end = match ts.checked_add(last_rel) {
            Some(x) => x,
            None => {
                return false;
            },
        };
        if last_end != te {
            return false;
        }
        true
    }

    pub fn empty() -> (r: BedEntry)
        ensures
            r.format is None,
            r.chrom is None,
            r.thin_start is None,
            r.thin_end is None,
            r.name is None,
            r.score is None,
            r.strand is None,
            r.thick_start is None,
            r.thick_end is None,
            r.rgb is None,
            r.exon_num is None,
            r.exon_sizes is None,
            r.exon_starts is None,
    {
        BedEntry {
            format: None,
            chrom: None,
            thin_start: None,
            thin_end: None,
            name: None,
            score: None,
            strand: None,
            thick_start: None,
            thick_end: None,
            rgb: None,
            exon_num: None,
            exon_sizes: None,
            exon_starts: None,
        }
    }

    /// Projects any `Coordinates` value with a defined chromosome and span
    /// into a three-column record.
    pub fn from_interval<T: Coordinates>(inter: T) -> (r: Option<BedEntry>)
        ensures
            r is Some <==> (inter.spec_chrom() is Some && inter.spec_start() is Some
                && inter.spec_end() is Some),
            r matches Some(e) ==> {
                &&& e.format == Some(3u8)
                &&& e.chrom matches Some(c) && c@ == inter.spec_chrom()->0
                &&& e.thin_start == Some(inter.spec_start()->0)
                &&& e.thin_end == Some(inter.spec_end()->0)
                &&& e.name is None
                &&& e.score is None
                &&& e.strand is None
                &&& e.thick_start is None
                &&& e.thick_end is None
                &&& e.rgb is None
                &&& e.exon_num is None
                &&& e.exon_sizes is None
                &&& e.exon_starts is None
            },
    {
        let chrom = match inter.chrom() {
            Some(x) => x.clone(),
            None => {
                return None;
            },
        };
        let thin_start = match inter.start() {
            Some(x) => *x,
            None => {
                return None;
            },
        };
        let thin_end = match inter.end() {
            Some(x) => *x,
            None => {
                return None;
            },
        };
        Some(BedEntry::bed3(chrom, thin_start, thin_end))
    }

    pub fn bed3(chrom: String, start: u64, end: u64) -> (r: BedEntry)
        ensures
            r.format == Some(3u8),
            r.chrom == Some(chrom),
            r.thin_start == Some(start),
            r.thin_end == Some(end),
            r.name is None,
            r.score is None,
            r.strand is None,
            r.thick_start is None,
            r.thick_end is None,
            r.rgb is None,
            r.exon_num is None,
            r.exon_sizes is None,
            r.exon_starts is None,
    {
        BedEntry {
            format: Some(3),
            chrom: Some(chrom),
            thin_start: Some(start),
            thin_end: Some(end),
            name: None,
            score: None,
            strand: None,
            thick_start: None,
            thick_end: None,
            rgb: None,
            exon_num: None,
            exon_sizes: None,
            exon_starts: None,
        }
    }

    pub fn bed4(chrom: String, start: u64, end: u64, name: String) -> (r: BedEntry)
        ensures
            r.format == Some(4u8),
            r.chrom == Some(chrom),
            r.thin_start == Some(start),
            r.thin_end == Some(end),
            r.name == Some(name),
            r.score is None,
            r.strand is None,
            r.thick_start is None,
            r.thick_end is None,
            r.rgb is None,
            r.exon_num is None,
            r.exon_sizes is None,
            r.exon_starts is None,
    {
        BedEntry {
            format: Some(4),
            chrom: Some(chrom),
            thin_start: Some(start),
            thin_end: Some(end),
            name: Some(name),
            score: None,
            strand: None,
            thick_start: None,
            thick_end: None,
            rgb: None,
            exon_num: None,
            exon_sizes: None,
            exon_starts: None,
        }
    }

    pub fn bed5(chrom: String, start: u64, end: u64, name: String, score: String) -> (r: BedEntry)
        ensures
            r.format == Some(5u8),
            r.chrom == Some(chrom),
            r.thin_start == Some(start),
            r.thin_end == Some(end),
            r.name == Some(name),
            r.score == Some(score),
            r.strand is None,
            r.thick_start is None,
            r.thick_end is None,
            r.rgb is None,
            r.exon_num is None,
            r.exon_sizes is None,
            r.exon_starts is None,
    {
        BedEntry {
            format: Some(5),
            chrom: Some(chrom),
            thin_start: Some(start),
            thin_end: Some(end),
            name: Some(name),
            score: Some(score),
            strand: None,
            thick_start: None,
            thick_end: None,
            rgb: None,
            exon_num: None,
            exon_sizes: None,
            exon_starts: None,
        }
    }

    pub fn bed6(chrom: String, start: u64, end: u64, name: String, score: String, strand: bool) -> (r:
        BedEntry)
        ensures
            r.format == Some(6u8),
            r.chrom == Some(chrom),
            r.thin_start == Some(start),
            r.thin_end == Some(end),
            r.name == Some(name),
            r.score == Some(score),
            r.strand == Some(strand),
            r.thick_start is None,
            r.thick_end is None,
            r.rgb is None,
            r.exon_num is None,
            r.exon_sizes is None,
            r.exon_starts is None,
    {
        BedEntry {
            format: Some(6),
            chrom: Some(chrom),
            thin_start: Some(start),
            thin_end: Some(end),
            name: Some(name),
            score: Some(score),
            strand: Some(strand),
            thick_start: None,
            thick_end: None,
            rgb: None,
            exon_num: None,
            exon_sizes: None,
            exon_starts: None,
        }
    }

    pub fn bed8(
        chrom: String,
        start: u64,
        end: u64,
        name: String,
        score: String,
        strand: bool,
        thick_start: u64,
        thick_end: u64,
    ) -> (r: BedEntry)
        ensures
            r.format == Some(8u8),
            r.chrom == Some(chrom),
            r.thin_start == Some(start),
            r.thin_end == Some(end),
            r.name == Some(name),
            r.score == Some(score),
            r.strand == Some(strand),
            r.thick_start == Some(thick_start),
            r.thick_end == Some(thick_end),
            r.rgb is None,
            r.exon_num is None,
            r.exon_sizes is None,
            r.exon_starts is None,
    {
        BedEntry {
            format: Some(8),
            chrom: Some(chrom),
            thin_start: Some(start),
            thin_end: Some(end),
            name: Some(name),
            score: Some(score),
            strand: Some(strand),
            thick_start: Some(thick_start),
            thick_end: Some(thick_end),
            rgb: None,
            exon_num: None,
            exon_sizes: None,
            exon_starts: None,
        }
    }

    pub fn bed9(
        chrom: String,
        start: u64,
        end: u64,
        name: String,
        score: String,
        strand: bool,
        thick_start: u64,
        thick_end: u64,
        rgb: String,
    ) -> (r: BedEntry)
        ensures
            r.format == Some(9u8),
            r.chrom == Some(chrom),
            r.thin_start == Some(start),
            r.thin_end == Some(end),
            r.name == Some(name),
            r.score == Some(score),
            r.strand == Some(strand),
            r.thick_start == Some(thick_start),
            r.thick_end == Some(thick_end),
            r.rgb == Some(rgb),
            r.exon_num is None,
            r.exon_sizes is None,
            r.exon_starts is None,
    {
        BedEntry {
            format: Some(9),
            chrom: Some(chrom),
            thin_start: Some(start),
            thin_end: Some(end),
            name: Some(name),
            score: Some(score),
            strand: Some(strand),
            thick_start: Some(thick_start),
            thick_end: Some(thick_end),
            rgb: Some(rgb),
            exon_num: None,
            exon_sizes: None,
            exon_starts: None,
        }
    }

    pub fn bed12(
        chrom: String,
        start: u64,
        end: u64,
        name: String,
        score: String,
        strand: bool,
        thick_start: u64,
        thick_end: u64,
        rgb: String,
        exon_num: u16,
        exon_sizes: Vec<u64>,
        exon_starts: Vec<u64>,
    ) -> (r: BedEntry)
        ensures
            r.format == Some(12u8),
            r.chrom == Some(chrom),
            r.thin_start == Some(start),
            r.thin_end == Some(end),
            r.name == Some(name),
            r.score == Some(score),
            r.strand == Some(strand),
            r.thick_start == Some(thick_start),
            r.thick_end == Some(thick_end),
            r.rgb == Some(rgb),
            r.exon_num == Some(exon_num),
            r.exon_sizes == Some(exon_sizes),
            r.exon_starts == Some(exon_starts),
    {
        BedEntry {
            format: Some(12),
            chrom: Some(chrom),
            thin_start: Some(start),
            thin_end: Some(end),
            name: Some(name),
            score: Some(score),
            strand: Some(strand),
            thick_start: Some(thick_start),
            thick_end: Some(thick_end),
            rgb: Some(rgb),
            exon_num: Some(exon_num),
            exon_sizes: Some(exon_sizes),
            exon_starts: Some(exon_starts),
        }
    }

    /// The stored format tag, with zero standing for an undefined format.
    pub fn format(&self) -> (r: u8)
        ensures
            r == spec_format(self),
    {
        match self.format {
            None => 0,
            Some(x) => x,
        }
    }

    pub fn thin_start(&self) -> (r: Option<u64>)
        ensures
            r == self.thin_start,
    {
        self.thin_start
    }

    pub fn thin_end(&self) -> (r: Option<u64>)
        ensures
            r == self.thin_end,
    {
        self.thin_end
    }

    pub fn name(&self) -> (r: Option<&String>)
        ensures
            r is Some <==> self.name is Some,
            r matches Some(n) ==> *n == self.name->0,
    {
        self.name.as_ref()
    }

    pub fn score(&self) -> (r: Option<&String>)
        ensures
            r is Some <==> self.score is Some,
            r matches Some(s) ==> *s == self.score->0,
    {
        self.score.as_ref()
    }

    pub fn strand(&self) -> (r: Option<bool>)
        ensures
            r == self.strand,
    {
        self.strand
    }

    pub fn thick_start(&self) -> (r: Option<u64>)
        ensures
            r == self.thick_start,
    {
        self.thick_start
    }

    pub fn thick_end(&self) -> (r: Option<u64>)
        ensures
            r == self.thick_end,
    {
        self.thick_end
    }

    pub fn rgb(&self) -> (r: Option<&String>)
        ensures
            r is Some <==> self.rgb is Some,
            r matches Some(s) ==> *s == self.rgb->0,
    {
        self.rgb.as_ref()
    }

    pub fn exon_num(&self) -> (r: Option<u16>)
        ensures
            r == self.exon_num,
    {
        self.exon_num
    }

    pub fn exon_sizes(&self) -> (r: Option<&Vec<u64>>)
        ensures
            r is Some <==> self.exon_sizes is Some,
            r matches Some(s) ==> *s == self.exon_sizes->0,
    {
        self.exon_sizes.as_ref()
    }

    pub fn exon_starts(&self) -> (r: Option<&Vec<u64>>)
        ensures
            r is Some <==> self.exon_starts is Some,
            r matches Some(s) ==> *s == self.exon_starts->0,
    {
        self.exon_starts.as_ref()
    }


    /// The length sum over all blocks (the thin span itself below format
    /// twelve).
    pub fn block_length(&self) -> (r: u64)
        requires
            spec_format(self) < 12 ==> (self.thin_start matches Some(a) && self.thin_end
                matches Some(b) ==> a <= b),
            spec_format(self) >= 12 ==> self.exon_sizes is Some && seq_sum(self.exon_sizes->0@)
                <= u64::MAX,
        ensures
            r == spec_block_length(self),
    {
        if self.format() < 12 {
            return match (self.thin_start, self.thin_end) {
                (Some(x), Some(y)) => y - x,
                _ => 0,
            };
        }
        let sizes = self.exon_sizes.as_ref().unwrap();
        let ghost sv = self.exon_sizes->0@;
        let mut length_sum: u64 = 0;
        let mut i: usize = 0;
        proof {
            assert(sv.take(0) =~= Seq::<u64>::empty());
        }
        while i < sizes.len()
            invariant
                0 <= i <= sizes@.len(),
                sv == sizes@,
                self.exon_sizes matches Some(v) && v@ == sv,
                seq_sum(sv) <= u64::MAX,
                length_sum == seq_sum(sv.take(i as int)),
            decreases sizes@.len() - i,
        {
            proof {
                lemma_seq_sum_prefix(sv, i + 1);
                assert(sv.take(i + 1).drop_last() =~= sv.take(i as int));
                assert(sv.take(i + 1).last() == sv[i as int]);
            }
            length_sum = length_sum + sizes[i];
            i += 1;
        }
        proof {
            assert(sv.take(sizes@.len() as int) =~= sv);
        }
        length_sum
    }

    /// Decomposes a twelve-column record into one six-column record per
    /// block, propagating chromosome, name, strand and score; an absent
    /// score defaults to `0` here.
    pub fn to_blocks(&self) -> (r: Option<Vec<BedEntry>>)
        requires
            (self.format == Some(12u8) && self.exon_num is Some && self.exon_sizes is Some
                && self.exon_starts is Some && self.thin_start is Some) ==> (self.exon_num->0 as int
                <= self.exon_sizes->0@.len() && self.exon_num->0 as int
                <= self.exon_starts->0@.len() && (forall|i: int|
                0 <= i < self.exon_num->0 ==> self.thin_start->0 + self.exon_starts->0@[i]
                    + self.exon_sizes->0@[i] <= u64::MAX)),
        ensures
            (r is Some) <==> (self.format == Some(12u8) && self.chrom is Some
                && self.thin_start is Some && self.name is Some && self.exon_num is Some
                && self.strand is Some && self.exon_sizes is Some && self.exon_starts is Some),
            r matches Some(v) ==> {
                &&& v@.len() == self.exon_num->0 as int
                &&& (forall|k: int|
                    0 <= k < v@.len() ==> {
                        let b = #[trigger] v@[k];
                        &&& b.format == Some(6u8)
                        &&& b.chrom == self.chrom
                        &&& b.thin_start == Some(
                            (self.thin_start->0 + self.exon_starts->0@[k]) as u64,
                        )
                        &&& b.thin_end == Some(
                            (self.thin_start->0 + self.exon_starts->0@[k]
                                + self.exon_sizes->0@[k]) as u64,
                        )
                        &&& b.name == self.name
                        &&& (b.score matches Some(sc) && sc@ == (if self.score is Some {
                            self.score->0@
                        } else {
                            seq!['0']
                        }))
                        &&& b.strand == self.strand
                    })
            },
    {
        let format_ok = match self.format {
            Some(f) => f == 12,
            None => false,
        };
        if !format_ok || self.chrom.is_none() || self.thin_start.is_none() || self.name.is_none()
            || self.exon_num.is_none() || self.strand.is_none() || self.exon_sizes.is_none()
            || self.exon_starts.is_none() {
            return None;
        }
        let chrom = self.chrom.as_ref().unwrap();
        let thin_start = self.thin_start.unwrap();
        let name = self.name.as_ref().unwrap();
        let ex_num = self.exon_num.unwrap() as usize;
        let strand = self.strand.unwrap();
        let sizes = self.exon_sizes.as_ref().unwrap();
        let starts = self.exon_starts.as_ref().unwrap();
        let mut blocks: Vec<BedEntry> = Vec::new();
        let mut i: usize = 0;
        while i < ex_num
            invariant
                0 <= i <= ex_num,
                ex_num == self.exon_num->0 as int,
                self.chrom == Some(*chrom),
                self.thin_start == Some(thin_start),
                self.name == Some(*name),
                self.strand == Some(strand),
                self.exon_sizes matches Some(sv) && sv@ == sizes@,
                self.exon_starts matches Some(tv) && tv@ == starts@,
                ex_num <= sizes@.len(),
                ex_num <= starts@.len(),
                forall|k: int|
                    0 <= k < ex_num ==> thin_start + starts@[k] + #[trigger] sizes@[k]
                        <= u64::MAX,
                blocks@.len() == i,
                forall|k: int|
                    0 <= k < i ==> {
                        let b = #[trigger] blocks@[k];
                        &&& b.format == Some(6u8)
                        &&& b.chrom == self.chrom
                        &&& b.thin_start == Some((thin_start + starts@[k]) as u64)
                        &&& b.thin_end == Some((thin_start + starts@[k] + sizes@[k]) as u64)
                        &&& b.name == self.name
                        &&& (b.score matches Some(sc) && sc@ == (if self.score is Some {
                            self.score->0@
                        } else {
                            seq!['0']
                        }))
                        &&& b.strand == self.strand
                    },
            decreases ex_num - i,
        {
            proof {
                assert(thin_start + starts@[i as int] + sizes@[i as int] <= u64::MAX);
            }
            let start: u64 = thin_start + starts[i];
            let end: u64 = start + sizes[i];
            let score: String = match self.score.as_ref() {
                Some(x) => x.clone(),
                None => {
                    let z = zero_score();
                    z
                },
            };
            blocks.push(
                BedEntry::bed6(chrom.clone(), start, end, name.clone(), score, strand),
            );
            proof {
                let b = blocks@[i as int];
                assert(b.format == Some(6u8));
                assert(b.chrom == self.chrom);
                assert(b.thin_start == Some((thin_start + starts@[i as int]) as u64));
                assert(b.thin_end == Some(
                    (thin_start + starts@[i as int] + sizes@[i as int]) as u64,
                ));
                assert(b.name == self.name);
                assert(b.score matches Some(sc) && sc@ == (if self.score is Some {
                    self.score->0@
                } else {
                    seq!['0']
                }));
                assert(b.strand == self.strand);
            }
            i += 1;
        }
        Some(blocks)
    }


    /// Intersects the record's span — and, at format twelve, every block —
    /// with the given bounds: blocks falling outside are dropped, boundary
    /// blocks trimmed, and the thick range re-intersected with the new
    /// thin range. With `inplace` set the record itself is rewritten and
    /// nothing is returned; otherwise the record stays untouched and the
    /// clipped copy is returned. A clip window disjoint from the span is
    /// a parse error.
    #[verifier::rlimit(100)]
    #[verifier::spinoff_prover]
    pub fn clip_by(&mut self, start: Option<u64>, end: Option<u64>, inplace: bool) -> (r: Result<
        Option<BedEntry>,
        CubiculumError,
    >)
        requires
            old(self).format == Some(12u8) ==> bed12_wf(old(self)),
        ensures
            ({
                let fielded = old(self).chrom is Some && old(self).thin_start is Some && old(
                    self,
                ).thin_end is Some && old(self).name is Some;
                let lo: u64 = match start {
                    Some(x) => if x > old(self).thin_start->0 {
                        x
                    } else {
                        old(self).thin_start->0
                    },
                    None => old(self).thin_start->0,
                };
                let hi: u64 = match end {
                    Some(x) => if x < old(self).thin_end->0 {
                        x
                    } else {
                        old(self).thin_end->0
                    },
                    None => old(self).thin_end->0,
                };
                &&& ((r matches Err(e) && e is MissingTraitError) <==> !fielded)
                &&& ((r matches Err(e) && e is ParseError) <==> (fielded && lo > hi))
                &&& (r is Err ==> *final(self) == *old(self))
                &&& ((fielded && lo <= hi) ==> {
                    &&& (inplace ==> (r is Ok && r->Ok_0 is None && clipped_ok(
                        old(self),
                        lo,
                        hi,
                        final(self),
                    )))
                    &&& (!inplace ==> (r is Ok && r->Ok_0 is Some && *final(self) == *old(self)
                        && clipped_ok(old(self), lo, hi, &r->Ok_0->0)))
                })
            }),
    {
        if self.chrom.is_none() || self.thin_start.is_none() || self.thin_end.is_none()
            || self.name.is_none() {
            return Err(
                CubiculumError::MissingTraitError(
                    "Clipping needs a chromosome, a span and a name".to_owned(),
                ),
            );
        }
        let ts = self.thin_start.unwrap();
        let te = self.thin_end.unwrap();
        let lo: u64 = match start {
            Some(x) => if x > ts {
                x
            } else {
                ts
            },
            None => ts,
        };
        let hi: u64 = match end {
            Some(x) => if x < te {
                x
            } else {
                te
            },
            None => te,
        };
        if lo > hi {
            return Err(
                CubiculumError::ParseError(
                    "The clip window lies outside the record's span".to_owned(),
                ),
            );
        }
        let is12 = match self.format {
            Some(f) => f == 12,
            None => false,
        };
        let mut new_ts: u64 = lo;
        let mut new_te: u64 = hi;
        let mut new_num: Option<u16> = self.exon_num;
        let mut new_sizes: Option<Vec<u64>> = None;
        let mut new_starts: Option<Vec<u64>> = None;
        let ghost fr = clipped_blocks(self, lo, hi);
        if is12 {
            let sizes = self.exon_sizes.as_ref().unwrap();
            let starts = self.exon_starts.as_ref().unwrap();
            let frags = crate::extract::collect_frags(
                crate::extract::BedFractionMode::Cds,
                false,
                ts,
                te,
                lo,
                hi,
                sizes,
                starts,
                false,
            );
            proof {
                crate::extract::lemma_cds_frags_at_most_one(
                    clip_shape(self, lo, hi),
                    false,
                    false,
                    sizes@.len() as int,
                );
                crate::extract::lemma_frags_wf(
                    clip_shape(self, lo, hi),
                    crate::extract::BedFractionMode::Cds,
                    false,
                    false,
                    false,
                    sizes@.len() as int,
                );
                assert(fr.len() == frags@.len());
            }
            let mut cs: Vec<u64> = Vec::new();
            let mut cst: Vec<u64> = Vec::new();
            if frags.len() > 0 {
                new_ts = frags[0].0;
                new_te = frags[frags.len() - 1].1;
            }
            let mut k: usize = 0;
            proof {
                assert(cs@ =~= crate::extract::frag_sizes(fr).take(0));
                assert(cst@ =~= crate::extract::frag_rel_starts(fr).take(0));
            }
            while k < frags.len()
                invariant
                    0 <= k <= frags@.len(),
                    crate::extract::frag_views(frags@) == fr,
                    fr.len() == frags@.len(),
                    fr.len() > 0 ==> new_ts == frags@[0].0,
                    forall|a: int|
                        0 <= a < fr.len() ==> ((#[trigger] fr[a]).0 <= fr[a].1 && fr[a].0
                            >= clip_shape(self, lo, hi).ts),
                    forall|a: int, b: int| 0 <= a < b < fr.len() ==> fr[a].1 <= fr[b].0,
                    cs@ == crate::extract::frag_sizes(fr).take(k as int),
                    cst@ == crate::extract::frag_rel_starts(fr).take(k as int),
                decreases frags@.len() - k,
            {
                proof {
                    if k > 0 {
                        assert(fr[0].1 <= fr[k as int].0);
                    }
                }
                let f = frags[k];
                cs.push(f.1 - f.0);
                cst.push(f.0 - new_ts);
                proof {
                    assert(cs@ =~= crate::extract::frag_sizes(fr).take(k + 1));
                    assert(cst@ =~= crate::extract::frag_rel_starts(fr).take(k + 1));
                }
                k += 1;
            }
            proof {
                assert(crate::extract::frag_sizes(fr).take(fr.len() as int)
                    =~= crate::extract::frag_sizes(fr));
                assert(crate::extract::frag_rel_starts(fr).take(fr.len() as int)
                    =~= crate::extract::frag_rel_starts(fr));
            }
            new_num = Some(frags.len() as u16);
            new_sizes = Some(cs);
            new_starts = Some(cst);
        }
        let new_ks: Option<u64>;
        let new_ke: Option<u64>;
        match (self.thick_start, self.thick_end) {
            (Some(ks), Some(ke)) => {
                let a = if ks > new_ts {
                    ks
                } else {
                    new_ts
                };
                let b = if ke < new_te {
                    ke
                } else {
                    new_te
                };
                if a <= b {
                    new_ks = Some(a);
                    new_ke = Some(b);
                } else {
                    new_ks = Some(new_te);
                    new_ke = Some(new_te);
                }
            },
            _ => {
                new_ks = self.thick_start;
                new_ke = self.thick_end;
            },
        }
        if inplace {
            self.thin_start = Some(new_ts);
            self.thin_end = Some(new_te);
            self.thick_start = new_ks;
            self.thick_end = new_ke;
            if is12 {
                self.exon_num = new_num;
                self.exon_sizes = new_sizes;
                self.exon_starts = new_starts;
            }
            return Ok(None);
        }
        let clipped = BedEntry {
            format: self.format,
            chrom: self.chrom.clone(),
            thin_start: Some(new_ts),
            thin_end: Some(new_te),
            name: self.name.clone(),
            score: self.score.clone(),
            strand: self.strand,
            thick_start: new_ks,
            thick_end: new_ke,
            rgb: self.rgb.clone(),
            exon_num: if is12 {
                new_num
            } else {
                self.exon_num
            },
            exon_sizes: if is12 {
                new_sizes
            } else {
                self.exon_sizes.clone()
            },
            exon_starts: if is12 {
                new_starts
            } else {
                self.exon_starts.clone()
            },
        };
        proof {
            assert(clipped.chrom == self.chrom);
            assert(clipped.name == self.name);
            assert(clipped.score == self.score);
            assert(clipped.rgb == self.rgb);
            if !is12 && self.exon_sizes is Some {
                assert(clipped.exon_sizes->0@ =~= self.exon_sizes->0@);
            }
            if !is12 && self.exon_starts is Some {
                assert(clipped.exon_starts->0@ =~= self.exon_starts->0@);
            }
        }
        Ok(Some(clipped))
    }

    /// Clips the record to its own coding range; undefined below format
    /// eight.
    pub fn to_cds(&mut self, inplace: bool) -> (r: Result<Option<BedEntry>, CubiculumError>)
        requires
            old(self).format == Some(12u8) ==> bed12_wf(old(self)),
        ensures
            ((r matches Err(e) && e is MissingTraitError) && *final(self) == *old(self)) <==> (
            spec_format(old(self)) < 8 || !(old(self).chrom is Some && old(
                self,
            ).thin_start is Some && old(self).thin_end is Some && old(self).name is Some)),
            spec_format(old(self)) >= 8 ==> {
                let lo: u64 = match old(self).thick_start {
                    Some(x) => if x > old(self).thin_start->0 {
                        x
                    } else {
                        old(self).thin_start->0
                    },
                    None => old(self).thin_start->0,
                };
                let hi: u64 = match old(self).thick_end {
                    Some(x) => if x < old(self).thin_end->0 {
                        x
                    } else {
                        old(self).thin_end->0
                    },
                    None => old(self).thin_end->0,
                };
                let fielded = old(self).chrom is Some && old(self).thin_start is Some && old(
                    self,
                ).thin_end is Some && old(self).name is Some;
                &&& ((r matches Err(e) && e is ParseError) <==> (fielded && lo > hi))
                &&& ((fielded && lo <= hi) ==> {
                    &&& (inplace ==> (r is Ok && r->Ok_0 is None && clipped_ok(
                        old(self),
                        lo,
                        hi,
                        final(self),
                    )))
                    &&& (!inplace ==> (r is Ok && r->Ok_0 is Some && *final(self) == *old(self)
                        && clipped_ok(old(self), lo, hi, &r->Ok_0->0)))
                })
            },
    {
        if self.format() < 8 {
            return Err(
                CubiculumError::MissingTraitError(
                    "A coding range is only defined from format eight on".to_owned(),
                ),
            );
        }
        let ks = self.thick_start;
        let ke = self.thick_end;
        self.clip_by(ks, ke, inplace)
    }


    /// Installs the spliced bounds and block list: in place on the record
    /// itself, or into a fresh copy carrying the record's other fields.
    fn graft_finish(
        &mut self,
        inplace: bool,
        nts: u64,
        nte: u64,
        nks: u64,
        nke: u64,
        num: u16,
        new_sizes: Vec<u64>,
        new_starts: Vec<u64>,
    ) -> (r: Result<Option<BedEntry>, CubiculumError>)
        ensures
            inplace ==> (r is Ok && r->Ok_0 is None && *final(self) == (BedEntry {
                format: Some(12u8),
                thin_start: Some(nts),
                thin_end: Some(nte),
                thick_start: Some(nks),
                thick_end: Some(nke),
                exon_num: Some(num),
                exon_sizes: Some(new_sizes),
                exon_starts: Some(new_starts),
                ..*old(self)
            })),
            !inplace ==> (r is Ok && r->Ok_0 is Some && *final(self) == *old(self) && {
                let g = r->Ok_0->0;
                &&& g.format == Some(12u8)
                &&& g.chrom == old(self).chrom
                &&& g.name == old(self).name
                &&& g.score == old(self).score
                &&& g.strand == old(self).strand
                &&& g.rgb == old(self).rgb
                &&& g.thin_start == Some(nts)
                &&& g.thin_end == Some(nte)
                &&& g.thick_start == Some(nks)
                &&& g.thick_end == Some(nke)
                &&& g.exon_num == Some(num)
                &&& g.exon_sizes == Some(new_sizes)
                &&& g.exon_starts == Some(new_starts)
            }),
    {
        if inplace {
            self.format = Some(12);
            self.thin_start = Some(nts);
            self.thin_end = Some(nte);
            self.thick_start = Some(nks);
            self.thick_end = Some(nke);
            self.exon_num = Some(num);
            self.exon_sizes = Some(new_sizes);
            self.exon_starts = Some(new_starts);
            return Ok(None);
        }
        let grafted = BedEntry {
            format: Some(12),
            chrom: self.chrom.clone(),
            thin_start: Some(nts),
            thin_end: Some(nte),
            name: self.name.clone(),
            score: self.score.clone(),
            strand: self.strand,
            thick_start: Some(nks),
            thick_end: Some(nke),
            rgb: self.rgb.clone(),
            exon_num: Some(num),
            exon_sizes: Some(new_sizes),
            exon_starts: Some(new_starts),
        };
        proof {
            assert(grafted.chrom == self.chrom);
            assert(grafted.name == self.name);
            assert(grafted.score == self.score);
            assert(grafted.rgb == self.rgb);
        }
        Ok(Some(grafted))
    }

    /// Splices additional exonic material into a twelve-column record.
    /// With `append_upstream` the addition extends the first block past
    /// the thick start (requiring, when `coding`, that the record has no
    /// five-prime untranslated fraction); `append_downstream` works
    /// symmetrically at the high end; with neither flag the addition is
    /// merged into the block list. An addition overlapping an existing
    /// block yields no data unless `allow_overlaps` is set, in which case
    /// the overlapping blocks are merged. In place the record itself is
    /// rewritten and nothing is returned; otherwise the spliced copy is
    /// returned.
    #[verifier::rlimit(100)]
    #[verifier::spinoff_prover]
    pub fn graft<T: Coordinates + Clone>(
        &mut self,
        graft: T,
        inplace: bool,
        chrom_compatible: bool,
        allow_overlaps: bool,
        coding: bool,
        append_upstream: bool,
        append_downstream: bool,
    ) -> (r: Result<Option<BedEntry>, CubiculumError>)
        requires
            old(self).format == Some(12u8) ==> bed12_wf(old(self)),
        ensures
            ({
                let e = old(self);
                let pre = graft_precheck(
                    e,
                    graft.spec_chrom(),
                    graft.spec_start(),
                    graft.spec_end(),
                    chrom_compatible,
                    coding,
                    append_upstream,
                    append_downstream,
                );
                &&& (pre matches Some(p) ==> (r is Err && *final(self) == *old(self) && (p <==> (r->Err_0 is ParseError)) && (!p <==> (r->Err_0 is MissingTraitError))))
                &&& (pre is None ==> {
                    let gs = graft.spec_start()->0;
                    let ge = graft.spec_end()->0;
                    let ts = e.thin_start->0;
                    let te = e.thin_end->0;
                    let ks = e.thick_start->0;
                    let ke = e.thick_end->0;
                    &&& (append_upstream ==> {
                        &&& ((!coding && gs > ks) ==> (r is Ok && r->Ok_0 is None && *final(self)
                            == *old(self)))
                        &&& (!(!coding && gs > ks) ==> {
                            let ovl = graft_overlaps(e, gs);
                            &&& ((ovl && !allow_overlaps) ==> (r is Ok && r->Ok_0 is None
                                && *final(self) == *old(self)))
                            &&& ((ovl && allow_overlaps) ==> merge_outcome(
                                e,
                                gs,
                                ge,
                                coding,
                                inplace,
                                allow_overlaps,
                                r,
                                final(self),
                            ))
                            &&& (!ovl ==> {
                                let t = up_target(ts, e.exon_sizes->0@, e.exon_starts->0@, ks, 0);
                                let obl = blocks_abs(e);
                                let nbs = vstd::math::min(obl[t].0, gs as int);
                                let bl = obl.update(t, (nbs, obl[t].1));
                                let nts: u64 = if gs < ts {
                                    gs
                                } else {
                                    ts
                                };
                                let nks: u64 = if coding {
                                    gs
                                } else {
                                    ks
                                };
                                graft_outcome(e, nts, te, nks, ke, bl, inplace, r, final(self))
                            })
                        })
                    })
                    &&& ((append_downstream && !append_upstream) ==> {
                        &&& ((!coding && ge < ke) ==> (r is Ok && r->Ok_0 is None && *final(self)
                            == *old(self)))
                        &&& (!(!coding && ge < ke) ==> {
                            let ovl = graft_overlaps(e, ge);
                            &&& ((ovl && !allow_overlaps) ==> (r is Ok && r->Ok_0 is None
                                && *final(self) == *old(self)))
                            &&& ((ovl && allow_overlaps) ==> merge_outcome(
                                e,
                                gs,
                                ge,
                                coding,
                                inplace,
                                allow_overlaps,
                                r,
                                final(self),
                            ))
                            &&& (!ovl ==> {
                                let t = down_target(
                                    ts,
                                    e.exon_starts->0@,
                                    ke,
                                    e.exon_starts->0@.len() - 1,
                                );
                                let obl = blocks_abs(e);
                                let nbe = vstd::math::max(obl[t].1, ge as int);
                                let bl = obl.update(t, (obl[t].0, nbe));
                                let nte: u64 = if ge > te {
                                    ge
                                } else {
                                    te
                                };
                                let nke: u64 = if coding {
                                    ge
                                } else {
                                    ke
                                };
                                graft_outcome(e, ts, nte, ks, nke, bl, inplace, r, final(self))
                            })
                        })
                    })
                    &&& ((!append_upstream && !append_downstream) ==> merge_outcome(
                        e,
                        gs,
                        ge,
                        coding,
                        inplace,
                        allow_overlaps,
                        r,
                        final(self),
                    ))
                })
            }),
    {
        if append_upstream && append_downstream {
            return Err(
                CubiculumError::ParseError(
                    "Cannot append from both the upstream and the downstream side".to_owned(),
                ),
            );
        }
        let format_ok = match self.format {
            Some(f) => f == 12,
            None => false,
        };
        if !format_ok {
            return Err(
                CubiculumError::MissingTraitError(
                    "Cannot graft into anything but a twelve-column record".to_owned(),
                ),
            );
        }
        if chrom_compatible {
            let own_some = self.chrom.is_some();
            let other = graft.chrom();
            if !own_some || other.is_none() {
                return Err(
                    CubiculumError::MissingTraitError(
                        "An undefined chromosome cannot be checked for compatibility".to_owned(),
                    ),
                );
            }
            if !crate::extract::str_eq(
                self.chrom.as_ref().unwrap().as_str(),
                other.unwrap().as_str(),
            ) {
                return Err(
                    CubiculumError::ParseError(
                        "The record and the graft lie on different chromosomes".to_owned(),
                    ),
                );
            }
        }
        let gs: u64 = match graft.start() {
            Some(x) => *x,
            None => {
                return Err(
                    CubiculumError::MissingTraitError(
                        "Undefined start coordinate for a grafted interval".to_owned(),
                    ),
                );
            },
        };
        let ge: u64 = match graft.end() {
            Some(x) => *x,
            None => {
                return Err(
                    CubiculumError::MissingTraitError(
                        "Undefined end coordinate for a grafted interval".to_owned(),
                    ),
                );
            },
        };
        if gs > ge {
            return Err(
                CubiculumError::ParseError(
                    "A grafted interval cannot end before it starts".to_owned(),
                ),
            );
        }
        let ts = self.thin_start.unwrap();
        let te = self.thin_end.unwrap();
        let ks = self.thick_start.unwrap();
        let ke = self.thick_end.unwrap();
        if append_upstream && coding && ts != ks {
            return Err(
                CubiculumError::ParseError(
                    "Cannot graft a coding block below a non-coding upstream fraction".to_owned(),
                ),
            );
        }
        if append_downstream && coding && te != ke {
            return Err(
                CubiculumError::ParseError(
                    "Cannot graft a coding block above a non-coding downstream fraction".to_owned(),
                ),
            );
        }
        let ghost e = *old(self);
        if append_upstream {
            if !coding && gs > ks {
                return Ok(None);
            }
            let sizes = self.exon_sizes.as_ref().unwrap();
            let starts = self.exon_starts.as_ref().unwrap();
            let touched = block_touch(ts, te, sizes, starts, gs);
            proof {
                lemma_touch_is_overlap(&e, ts, te, sizes@, starts@, gs);
            }
            if touched {
                if !allow_overlaps {
                    return Ok(None);
                }
            } else {
                let built = up_build(ts, te, ks, gs, sizes, starts);
                let nks: u64 = if coding {
                    gs
                } else {
                    ks
                };
                let num: u16 = self.exon_num.unwrap();
                proof {
                    assert(blocks_abs(&e) == abs_blocks(ts, sizes@, starts@));
                    let obl2 = blocks_abs(&e);
                    let t2 = up_target(ts, sizes@, starts@, ks, 0);
                    lemma_up_target_bounds(ts, sizes@, starts@, ks, 0);
                    let bl2 = obl2.update(
                        t2,
                        (vstd::math::min(obl2[t2].0, gs as int), obl2[t2].1),
                    );
                    assert(bl2.len() == obl2.len());
                    assert(num as int == obl2.len());
                    assert(num == bl2.len() as u16);
                }
                return self.graft_finish(inplace, built.2, te, nks, ke, num, built.0, built.1);
            }
        } else if append_downstream {
            if !coding && ge < ke {
                return Ok(None);
            }
            let sizes = self.exon_sizes.as_ref().unwrap();
            let starts = self.exon_starts.as_ref().unwrap();
            let touched = block_touch(ts, te, sizes, starts, ge);
            proof {
                lemma_touch_is_overlap(&e, ts, te, sizes@, starts@, ge);
            }
            if touched {
                if !allow_overlaps {
                    return Ok(None);
                }
            } else {
                let built = down_build(ts, te, ke, ge, sizes, starts);
                let nke: u64 = if coding {
                    ge
                } else {
                    ke
                };
                let num: u16 = self.exon_num.unwrap();
                proof {
                    assert(blocks_abs(&e) == abs_blocks(ts, sizes@, starts@));
                    let obl2 = blocks_abs(&e);
                    let t2 = down_target(ts, starts@, ke, starts@.len() - 1);
                    lemma_down_target_bounds(ts, starts@, ke, starts@.len() - 1);
                    let bl2 = obl2.update(
                        t2,
                        (obl2[t2].0, vstd::math::max(obl2[t2].1, ge as int)),
                    );
                    assert(bl2.len() == obl2.len());
                    assert(num as int == obl2.len());
                    assert(num == bl2.len() as u16);
                }
                return self.graft_finish(inplace, ts, built.2, ks, nke, num, built.0, built.1);
            }
        }
        let own_chrom: String = self.chrom.as_ref().unwrap().clone();
        let sizes = self.exon_sizes.as_ref().unwrap();
        let starts = self.exon_starts.as_ref().unwrap();
        proof {
            assert(blocks_pairs(&e) == abs_pairs(ts, sizes@, starts@));
            assert(own_chrom@ == e.chrom->0@);
        }
        match merge_build(ts, te, gs, ge, sizes, starts, &own_chrom, allow_overlaps) {
            None => {
                return Err(
                    CubiculumError::ParseError(
                        "The merged block list holds more blocks than a record can".to_owned(),
                    ),
                );
            },
            Some(None) => {
                return Ok(None);
            },
            Some(Some(built)) => {
                let nts: u64 = if gs < ts {
                    gs
                } else {
                    ts
                };
                let nte: u64 = if ge > te {
                    ge
                } else {
                    te
                };
                let nks: u64 = if coding && gs < ks {
                    gs
                } else {
                    ks
                };
                let nke: u64 = if coding && ge > ke {
                    ge
                } else {
                    ke
                };
                return self.graft_finish(
                    inplace,
                    nts,
                    nte,
                    nks,
                    nke,
                    built.2,
                    built.0,
                    built.1,
                );
            },
        }
    }

    pub fn update_thin_start(&mut self, thin_start: u64)
        ensures
            *final(self) == (BedEntry { thin_start: Some(thin_start), ..*old(self) }),
    {
        self.thin_start = Some(thin_start);
    }

    /// Projects the record to its bare thin span.
    pub fn to_interval(&self) -> (r: Interval)
        ensures
            r.chrom == self.chrom,
            r.start == self.thin_start,
            r.end == self.thin_end,
            r.name == self.name,
    {
        Interval::from(self.chrom.clone(), self.thin_start, self.thin_end, self.name.clone())
    }
}

/// The effective format of a record, with zero for an undefined tag.
pub open spec fn spec_format(e: &BedEntry) -> u8 {
    match e.format {
        None => 0u8,
        Some(x) => x,
    }
}


/// The sum of a sequence of block sizes.
pub open spec fn seq_sum(s: Seq<u64>) -> int
    decreases s.len(),
{
    if s.len() == 0 {
        0
    } else {
        seq_sum(s.drop_last()) + s.last()
    }
}

/// A prefix never sums to more than the whole list.
pub proof fn lemma_seq_sum_prefix(s: Seq<u64>, i: int)
    requires
        0 <= i <= s.len(),
    ensures
        0 <= seq_sum(s.take(i)) <= seq_sum(s),
        seq_sum(s.take(s.len() as int)) == seq_sum(s),
    decreases s.len() - i,
{
    assert(s.take(s.len() as int) =~= s);
    lemma_seq_sum_nonneg(s.take(i));
    if i < s.len() {
        lemma_seq_sum_prefix(s, i + 1);
        assert(s.take(i + 1).drop_last() =~= s.take(i));
        assert(s.take(i + 1).last() == s[i]);
    }
}

pub proof fn lemma_seq_sum_nonneg(s: Seq<u64>)
    ensures
        seq_sum(s) >= 0,
    decreases s.len(),
{
    if s.len() > 0 {
        lemma_seq_sum_nonneg(s.drop_last());
    }
}

/// The total length a record covers: the sum of its block sizes, or the
/// thin span itself below format twelve.
pub open spec fn spec_block_length(e: &BedEntry) -> int {
    if spec_format(e) < 12 {
        match (e.thin_start, e.thin_end) {
            (Some(a), Some(b)) => b - a,
            _ => 0,
        }
    } else {
        seq_sum(e.exon_sizes->0@)
    }
}


/// The clipped thick range: the old thick range intersected with the new
/// thin range, collapsing to the no-CDS marker at the new end when the
/// intersection is empty; absent thick bounds stay absent.
pub open spec fn clip_thick(
    ks_opt: Option<u64>,
    ke_opt: Option<u64>,
    nts: u64,
    nte: u64,
) -> (Option<u64>, Option<u64>) {
    match (ks_opt, ke_opt) {
        (Some(ks), Some(ke)) => {
            let a = if ks > nts {
                ks
            } else {
                nts
            };
            let b = if ke < nte {
                ke
            } else {
                nte
            };
            if a <= b {
                (Some(a), Some(b))
            } else {
                (Some(nte), Some(nte))
            }
        },
        _ => (ks_opt, ke_opt),
    }
}

/// The shape whose CDS-style fragments are the record's blocks clipped to
/// `[lo, hi)`.
pub open spec fn clip_shape(e: &BedEntry, lo: u64, hi: u64) -> crate::extract::FracShape {
    crate::extract::FracShape {
        ts: e.thin_start->0,
        te: e.thin_end->0,
        ks: lo,
        ke: hi,
        sizes: e.exon_sizes->0@,
        starts: e.exon_starts->0@,
    }
}

/// The clipped block list of a twelve-column record: every block
/// intersected with `[lo, hi)`, empty intersections dropped.
pub open spec fn clipped_blocks(e: &BedEntry, lo: u64, hi: u64) -> Seq<(int, int)> {
    crate::extract::record_frags(
        clip_shape(e, lo, hi),
        crate::extract::BedFractionMode::Cds,
        false,
        false,
    )
}

/// What a clipping pass produces, stated field by field against the old
/// record and the clip window `[lo, hi)`.
pub open spec fn clipped_ok(old_e: &BedEntry, lo: u64, hi: u64, c: &BedEntry) -> bool {
    &&& c.format == old_e.format
    &&& c.chrom == old_e.chrom
    &&& c.name == old_e.name
    &&& c.score == old_e.score
    &&& c.strand == old_e.strand
    &&& c.rgb == old_e.rgb
    &&& ({
        let fr = clipped_blocks(old_e, lo, hi);
        if old_e.format == Some(12u8) {
            let nts: u64 = if fr.len() > 0 {
                fr[0].0 as u64
            } else {
                lo
            };
            let nte: u64 = if fr.len() > 0 {
                fr[fr.len() - 1].1 as u64
            } else {
                hi
            };
            &&& c.thin_start == Some(nts)
            &&& c.thin_end == Some(nte)
            &&& (c.thick_start, c.thick_end) == clip_thick(
                old_e.thick_start,
                old_e.thick_end,
                nts,
                nte,
            )
            &&& c.exon_num == Some(fr.len() as u16)
            &&& (c.exon_sizes matches Some(v) && v@ == crate::extract::frag_sizes(fr))
            &&& (c.exon_starts matches Some(v) && v@ == crate::extract::frag_rel_starts(fr))
        } else {
            &&& c.thin_start == Some(lo)
            &&& c.thin_end == Some(hi)
            &&& (c.thick_start, c.thick_end) == clip_thick(
                old_e.thick_start,
                old_e.thick_end,
                lo,
                hi,
            )
            &&& c.exon_num == old_e.exon_num
            &&& (c.exon_sizes is Some <==> old_e.exon_sizes is Some)
            &&& (c.exon_sizes is Some ==> c.exon_sizes->0@ == old_e.exon_sizes->0@)
            &&& (c.exon_starts is Some <==> old_e.exon_starts is Some)
            &&& (c.exon_starts is Some ==> c.exon_starts->0@ == old_e.exon_starts->0@)
        }
    })
}


/// The absolute spans of a block list anchored at `ts`.
pub open spec fn abs_blocks(ts: u64, sizes: Seq<u64>, starts: Seq<u64>) -> Seq<(int, int)> {
    Seq::new(sizes.len(), |k: int| (ts + starts[k], ts + starts[k] + sizes[k]))
}

/// The absolute spans as machine pairs, for sorting.
pub open spec fn abs_pairs(ts: u64, sizes: Seq<u64>, starts: Seq<u64>) -> Seq<(u64, u64)> {
    Seq::new(
        sizes.len(),
        |k: int| ((ts + starts[k]) as u64, (ts + starts[k] + sizes[k]) as u64),
    )
}

/// The absolute block spans of a twelve-column record.
pub open spec fn blocks_abs(e: &BedEntry) -> Seq<(int, int)> {
    abs_blocks(e.thin_start->0, e.exon_sizes->0@, e.exon_starts->0@)
}

/// The absolute block spans as machine pairs, for sorting.
pub open spec fn blocks_pairs(e: &BedEntry) -> Seq<(u64, u64)> {
    abs_pairs(e.thin_start->0, e.exon_sizes->0@, e.exon_starts->0@)
}

/// Block offsets relative to a fresh anchor.
pub open spec fn rel_starts_from(fr: Seq<(int, int)>, base: int) -> Seq<u64> {
    fr.map_values(|f: (int, int)| (f.0 - base) as u64)
}

/// The spliced record a graft produces, stated against the new bounds and
/// the new absolute block list.
pub open spec fn grafted_ok(
    old_e: &BedEntry,
    nts: u64,
    nte: u64,
    nks: u64,
    nke: u64,
    bl: Seq<(int, int)>,
    g: &BedEntry,
) -> bool {
    &&& g.format == Some(12u8)
    &&& g.chrom == old_e.chrom
    &&& g.name == old_e.name
    &&& g.score == old_e.score
    &&& g.strand == old_e.strand
    &&& g.rgb == old_e.rgb
    &&& g.thin_start == Some(nts)
    &&& g.thin_end == Some(nte)
    &&& g.thick_start == Some(nks)
    &&& g.thick_end == Some(nke)
    &&& g.exon_num == Some(bl.len() as u16)
    &&& (g.exon_sizes matches Some(v) && v@ == crate::extract::frag_sizes(bl))
    &&& (g.exon_starts matches Some(v) && v@ == rel_starts_from(bl, nts as int))
}

/// How a graft call is rejected before any splicing: `Some(true)` is a
/// parse error, `Some(false)` a missing-trait error, `None` acceptance.
pub open spec fn graft_precheck(
    e: &BedEntry,
    gchrom: Option<Seq<char>>,
    gstart: Option<u64>,
    gend: Option<u64>,
    chrom_compatible: bool,
    coding: bool,
    up: bool,
    down: bool,
) -> Option<bool> {
    if up && down {
        Some(true)
    } else if e.format != Some(12u8) {
        Some(false)
    } else if chrom_compatible && (e.chrom is None || gchrom is None) {
        Some(false)
    } else if chrom_compatible && e.chrom->0@ != gchrom->0 {
        Some(true)
    } else if gstart is None || gend is None {
        Some(false)
    } else if gstart->0 > gend->0 {
        Some(true)
    } else if up && coding && e.thin_start != e.thick_start {
        Some(true)
    } else if down && coding && e.thin_end != e.thick_end {
        Some(true)
    } else {
        None
    }
}

/// A coordinate touches or falls inside some block (boundaries included).
pub open spec fn graft_overlaps(e: &BedEntry, x: u64) -> bool {
    exists|i: int|
        0 <= i < e.exon_sizes->0@.len() && (#[trigger] blocks_abs(e)[i]).0 <= x && x <= blocks_abs(
            e,
        )[i].1
}

/// The first block reaching past the thick start (the last block when
/// none does): the block an upstream append extends.
pub open spec fn up_target(ts: u64, sizes: Seq<u64>, starts: Seq<u64>, ks: u64, i: int) -> int
    decreases sizes.len() - i,
{
    if i >= sizes.len() - 1 {
        sizes.len() - 1
    } else if ts + starts[i] + sizes[i] > ks {
        i
    } else {
        up_target(ts, sizes, starts, ks, i + 1)
    }
}

/// The last block starting before the thick end (the first block when
/// none does): the block a downstream append extends.
pub open spec fn down_target(ts: u64, starts: Seq<u64>, ke: u64, i: int) -> int
    decreases i,
{
    if i <= 0 {
        0
    } else if ts + starts[i] < ke {
        i
    } else {
        down_target(ts, starts, ke, i - 1)
    }
}


pub proof fn lemma_up_target_bounds(ts: u64, sizes: Seq<u64>, starts: Seq<u64>, ks: u64, i: int)
    requires
        0 <= i <= sizes.len() - 1,
    ensures
        i <= up_target(ts, sizes, starts, ks, i) < sizes.len(),
    decreases sizes.len() - i,
{
    if i < sizes.len() - 1 && !(ts + starts[i] + sizes[i] > ks) {
        lemma_up_target_bounds(ts, sizes, starts, ks, i + 1);
    }
}

pub proof fn lemma_down_target_bounds(ts: u64, starts: Seq<u64>, ke: u64, i: int)
    requires
        0 <= i,
    ensures
        0 <= down_target(ts, starts, ke, i) <= i,
    decreases i,
{
    if i > 0 && !(ts + starts[i] < ke) {
        lemma_down_target_bounds(ts, starts, ke, i - 1);
    }
}

/// The merged block models of the general graft path: the record's blocks
/// plus the addition, sorted and sequentially merged.
pub open spec fn graft_merged(e: &BedEntry, gs: u64, ge: u64) -> Seq<(Seq<char>, u64, u64)> {
    crate::merge::merge_fold(
        crate::merge::with_chrom(
            e.chrom->0@,
            crate::merge::sort_pairs(blocks_pairs(e).push((gs, ge))),
        ),
    )
}

pub open spec fn models_pairs(s: Seq<(Seq<char>, u64, u64)>) -> Seq<(int, int)> {
    s.map_values(|m: (Seq<char>, u64, u64)| (m.1 as int, m.2 as int))
}

/// The outcome of a successful splice: in place it rewrites the record
/// itself and yields nothing, otherwise the record stays and the spliced
/// copy is yielded.
pub open spec fn graft_outcome(
    e: &BedEntry,
    nts: u64,
    nte: u64,
    nks: u64,
    nke: u64,
    bl: Seq<(int, int)>,
    inplace: bool,
    r: Result<Option<BedEntry>, CubiculumError>,
    fin: &BedEntry,
) -> bool {
    &&& (inplace ==> (r is Ok && r->Ok_0 is None && grafted_ok(e, nts, nte, nks, nke, bl, fin)))
    &&& (!inplace ==> (r is Ok && r->Ok_0 is Some && *fin == *e && grafted_ok(
        e,
        nts,
        nte,
        nks,
        nke,
        bl,
        &r->Ok_0->0,
    )))
}

/// The outcome of the general (merge-based) graft path.
pub open spec fn merge_outcome(
    e: &BedEntry,
    gs: u64,
    ge: u64,
    coding: bool,
    inplace: bool,
    allow_overlaps: bool,
    r: Result<Option<BedEntry>, CubiculumError>,
    fin: &BedEntry,
) -> bool {
    let merged = graft_merged(e, gs, ge);
    let unmerged = e.exon_sizes->0@.len() + 1;
    let ts = e.thin_start->0;
    let te = e.thin_end->0;
    let ks = e.thick_start->0;
    let ke = e.thick_end->0;
    let nts: u64 = if gs < ts {
        gs
    } else {
        ts
    };
    let nte: u64 = if ge > te {
        ge
    } else {
        te
    };
    let nks: u64 = if coding && gs < ks {
        gs
    } else {
        ks
    };
    let nke: u64 = if coding && ge > ke {
        ge
    } else {
        ke
    };
    &&& ((merged.len() < unmerged && !allow_overlaps) ==> (r is Ok && r->Ok_0 is None && *fin
        == *e))
    &&& (!(merged.len() < unmerged && !allow_overlaps) ==> (if merged.len() > u16::MAX {
        r is Err && r->Err_0 is ParseError && *fin == *e
    } else {
        graft_outcome(e, nts, nte, nks, nke, models_pairs(merged), inplace, r, fin)
    }))
}


/// Whether a coordinate touches or falls inside any block, boundaries
/// included.
fn block_touch(ts: u64, te: u64, sizes: &Vec<u64>, starts: &Vec<u64>, x: u64) -> (b: bool)
    requires
        blocks_wf(ts, te, sizes@, starts@),
    ensures
        b == exists|i: int|
            0 <= i < sizes@.len() && ts + (#[trigger] starts@[i]) <= x && x <= ts + starts@[i]
                + sizes@[i],
{
    let n = sizes.len();
    let mut i: usize = 0;
    while i < n
        invariant
            0 <= i <= n,
            n == sizes@.len(),
            blocks_wf(ts, te, sizes@, starts@),
            forall|j: int|
                0 <= j < i ==> !(ts + (#[trigger] starts@[j]) <= x && x <= ts + starts@[j]
                    + sizes@[j]),
        decreases n - i,
    {
        proof {
            lemma_blocks_bounded(ts, te, sizes@, starts@, i as int);
        }
        let bs = ts + starts[i];
        let be = bs + sizes[i];
        if bs <= x && x <= be {
            return true;
        }
        i += 1;
    }
    false
}

/// Finds the block an upstream append extends.
fn find_up_target(ts: u64, te: u64, sizes: &Vec<u64>, starts: &Vec<u64>, ks: u64) -> (t: usize)
    requires
        blocks_wf(ts, te, sizes@, starts@),
    ensures
        t as int == up_target(ts, sizes@, starts@, ks, 0),
        t < sizes@.len(),
{
    let n = sizes.len();
    let mut i: usize = 0;
    while i < n - 1
        invariant
            0 <= i <= n - 1,
            n == sizes@.len(),
            blocks_wf(ts, te, sizes@, starts@),
            up_target(ts, sizes@, starts@, ks, 0) == up_target(ts, sizes@, starts@, ks, i as int),
        decreases n - 1 - i,
    {
        proof {
            lemma_blocks_bounded(ts, te, sizes@, starts@, i as int);
        }
        if ts + starts[i] + sizes[i] > ks {
            return i;
        }
        i += 1;
    }
    n - 1
}

/// Finds the block a downstream append extends.
fn find_down_target(ts: u64, te: u64, sizes: &Vec<u64>, starts: &Vec<u64>, ke: u64) -> (t: usize)
    requires
        blocks_wf(ts, te, sizes@, starts@),
    ensures
        t as int == down_target(ts, starts@, ke, sizes@.len() - 1),
        t < sizes@.len(),
{
    let n = sizes.len();
    let mut i: usize = n - 1;
    while i > 0
        invariant
            0 <= i <= n - 1,
            n == sizes@.len(),
            blocks_wf(ts, te, sizes@, starts@),
            down_target(ts, starts@, ke, sizes@.len() - 1) == down_target(
                ts,
                starts@,
                ke,
                i as int,
            ),
        decreases i,
    {
        proof {
            lemma_blocks_bounded(ts, te, sizes@, starts@, i as int);
        }
        if ts + starts[i] < ke {
            return i;
        }
        i -= 1;
    }
    0
}


/// Touching a block and overlapping the record mean the same thing when
/// the scalars are the record's own.
proof fn lemma_touch_is_overlap(
    e: &BedEntry,
    ts: u64,
    te: u64,
    sizes: Seq<u64>,
    starts: Seq<u64>,
    x: u64,
)
    requires
        e.thin_start == Some(ts),
        e.exon_sizes matches Some(sv) && sv@ == sizes,
        e.exon_starts matches Some(tv) && tv@ == starts,
    ensures
        graft_overlaps(e, x) == exists|i: int|
            0 <= i < sizes.len() && ts + (#[trigger] starts[i]) <= x && x <= ts + starts[i]
                + sizes[i],
{
    if graft_overlaps(e, x) {
        let i = choose|i: int|
            0 <= i < e.exon_sizes->0@.len() && (#[trigger] blocks_abs(e)[i]).0 <= x && x
                <= blocks_abs(e)[i].1;
        assert(ts + (#[trigger] starts[i]) <= x && x <= ts + starts[i] + sizes[i]);
    }
    if exists|i: int|
        0 <= i < sizes.len() && ts + (#[trigger] starts[i]) <= x && x <= ts + starts[i]
            + sizes[i] {
        let i = choose|i: int|
            0 <= i < sizes.len() && ts + (#[trigger] starts[i]) <= x && x <= ts + starts[i]
                + sizes[i];
        assert((#[trigger] blocks_abs(e)[i]).0 <= x && x <= blocks_abs(e)[i].1);
    }
}

/// Builds the block list of an upstream append: the target block's start
/// absorbed down to the addition's start, everything re-anchored at the
/// new thin start.
#[verifier::rlimit(100)]
#[verifier::spinoff_prover]
fn up_build(ts: u64, te: u64, ks: u64, gs: u64, sizes: &Vec<u64>, starts: &Vec<u64>) -> (r: (
    Vec<u64>,
    Vec<u64>,
    u64,
))
    requires
        blocks_wf(ts, te, sizes@, starts@),
    ensures
        ({
            let obl = abs_blocks(ts, sizes@, starts@);
            let t = up_target(ts, sizes@, starts@, ks, 0);
            let nbs = vstd::math::min(obl[t].0, gs as int);
            let bl = obl.update(t, (nbs, obl[t].1));
            let nts: u64 = if gs < ts {
                gs
            } else {
                ts
            };
            &&& r.2 == nts
            &&& r.0@ == crate::extract::frag_sizes(bl)
            &&& r.1@ == rel_starts_from(bl, nts as int)
        }),
{
    let n = sizes.len();
    let t = find_up_target(ts, te, sizes, starts, ks);
    proof {
        lemma_blocks_bounded(ts, te, sizes@, starts@, t as int);
    }
    let bst: u64 = ts + starts[t];
    let nbs: u64 = if gs < bst {
        gs
    } else {
        bst
    };
    let nts: u64 = if gs < ts {
        gs
    } else {
        ts
    };
    let ghost obl = abs_blocks(ts, sizes@, starts@);
    let ghost bl = obl.update(t as int, (vstd::math::min(obl[t as int].0, gs as int), obl[t as int].1));
    let mut new_sizes: Vec<u64> = Vec::new();
    let mut new_starts: Vec<u64> = Vec::new();
    let mut k: usize = 0;
    proof {
        assert(new_sizes@ =~= crate::extract::frag_sizes(bl).take(0));
        assert(new_starts@ =~= rel_starts_from(bl, nts as int).take(0));
    }
    while k < n
        invariant
            0 <= k <= n,
            n == sizes@.len(),
            blocks_wf(ts, te, sizes@, starts@),
            t < n,
            obl == abs_blocks(ts, sizes@, starts@),
            bl == obl.update(
                t as int,
                (vstd::math::min(obl[t as int].0, gs as int), obl[t as int].1),
            ),
            nbs as int == vstd::math::min(obl[t as int].0, gs as int),
            bst as int == obl[t as int].0,
            nts <= nbs,
            nts <= ts,
            nts == (if gs < ts { gs } else { ts }),
            new_sizes@ == crate::extract::frag_sizes(bl).take(k as int),
            new_starts@ == rel_starts_from(bl, nts as int).take(k as int),
        decreases n - k,
    {
        proof {
            lemma_blocks_bounded(ts, te, sizes@, starts@, k as int);
            assert(obl[k as int] == (
                ts + starts@[k as int],
                ts + starts@[k as int] + sizes@[k as int],
            ));
        }
        let bs_k: u64 = ts + starts[k];
        let be_k: u64 = bs_k + sizes[k];
        if k == t {
            new_sizes.push(be_k - nbs);
            new_starts.push(nbs - nts);
        } else {
            new_sizes.push(sizes[k]);
            new_starts.push(bs_k - nts);
        }
        proof {
            assert(new_sizes@ =~= crate::extract::frag_sizes(bl).take(k + 1));
            assert(new_starts@ =~= rel_starts_from(bl, nts as int).take(k + 1));
        }
        k += 1;
    }
    proof {
        assert(crate::extract::frag_sizes(bl).take(bl.len() as int)
            =~= crate::extract::frag_sizes(bl));
        assert(rel_starts_from(bl, nts as int).take(bl.len() as int) =~= rel_starts_from(
            bl,
            nts as int,
        ));
    }
    (new_sizes, new_starts, nts)
}

/// Builds the block list of a downstream append: the target block's end
/// absorbed up to the addition's end; the anchor stays put.
#[verifier::rlimit(100)]
#[verifier::spinoff_prover]
fn down_build(ts: u64, te: u64, ke: u64, ge: u64, sizes: &Vec<u64>, starts: &Vec<u64>) -> (r: (
    Vec<u64>,
    Vec<u64>,
    u64,
))
    requires
        blocks_wf(ts, te, sizes@, starts@),
    ensures
        ({
            let obl = abs_blocks(ts, sizes@, starts@);
            let t = down_target(ts, starts@, ke, starts@.len() - 1);
            let nbe = vstd::math::max(obl[t].1, ge as int);
            let bl = obl.update(t, (obl[t].0, nbe));
            let nte: u64 = if ge > te {
                ge
            } else {
                te
            };
            &&& r.2 == nte
            &&& r.0@ == crate::extract::frag_sizes(bl)
            &&& r.1@ == rel_starts_from(bl, ts as int)
        }),
{
    let n = sizes.len();
    let t = find_down_target(ts, te, sizes, starts, ke);
    proof {
        lemma_blocks_bounded(ts, te, sizes@, starts@, t as int);
    }
    let bst: u64 = ts + starts[t];
    let bet: u64 = bst + sizes[t];
    let nbe: u64 = if ge > bet {
        ge
    } else {
        bet
    };
    let nte: u64 = if ge > te {
        ge
    } else {
        te
    };
    let ghost obl = abs_blocks(ts, sizes@, starts@);
    let ghost bl = obl.update(t as int, (obl[t as int].0, vstd::math::max(obl[t as int].1, ge as int)));
    let mut new_sizes: Vec<u64> = Vec::new();
    let mut new_starts: Vec<u64> = Vec::new();
    let mut k: usize = 0;
    proof {
        assert(new_sizes@ =~= crate::extract::frag_sizes(bl).take(0));
        assert(new_starts@ =~= rel_starts_from(bl, ts as int).take(0));
    }
    while k < n
        invariant
            0 <= k <= n,
            n == sizes@.len(),
            blocks_wf(ts, te, sizes@, starts@),
            t < n,
            obl == abs_blocks(ts, sizes@, starts@),
            bl == obl.update(
                t as int,
                (obl[t as int].0, vstd::math::max(obl[t as int].1, ge as int)),
            ),
            nbe as int == vstd::math::max(obl[t as int].1, ge as int),
            bst as int == obl[t as int].0,
            new_sizes@ == crate::extract::frag_sizes(bl).take(k as int),
            new_starts@ == rel_starts_from(bl, ts as int).take(k as int),
        decreases n - k,
    {
        proof {
            lemma_blocks_bounded(ts, te, sizes@, starts@, k as int);
            assert(obl[k as int] == (
                ts + starts@[k as int],
                ts + starts@[k as int] + sizes@[k as int],
            ));
        }
        if k == t {
            new_sizes.push(nbe - bst);
            new_starts.push(starts[k]);
        } else {
            new_sizes.push(sizes[k]);
            new_starts.push(starts[k]);
        }
        proof {
            assert(new_sizes@ =~= crate::extract::frag_sizes(bl).take(k + 1));
            assert(new_starts@ =~= rel_starts_from(bl, ts as int).take(k + 1));
        }
        k += 1;
    }
    proof {
        assert(crate::extract::frag_sizes(bl).take(bl.len() as int)
            =~= crate::extract::frag_sizes(bl));
        assert(rel_starts_from(bl, ts as int).take(bl.len() as int) =~= rel_starts_from(
            bl,
            ts as int,
        ));
    }
    (new_sizes, new_starts, nte)
}

/// Builds the block list of a general graft: blocks plus the addition,
/// sorted and merged. Yields nothing inside when an unauthorized merge
/// happened, and nothing at all when the merged count does not fit a
/// record.
#[verifier::rlimit(100)]
#[verifier::spinoff_prover]
fn merge_build(
    ts: u64,
    te: u64,
    gs: u64,
    ge: u64,
    sizes: &Vec<u64>,
    starts: &Vec<u64>,
    chrom: &String,
    allow_overlaps: bool,
) -> (r: Option<Option<(Vec<u64>, Vec<u64>, u16)>>)
    requires
        blocks_wf(ts, te, sizes@, starts@),
        gs <= ge,
    ensures
        ({
            let merged = crate::merge::merge_fold(
                crate::merge::with_chrom(
                    chrom@,
                    crate::merge::sort_pairs(abs_pairs(ts, sizes@, starts@).push((gs, ge))),
                ),
            );
            let unmerged = sizes@.len() + 1;
            let nts: u64 = if gs < ts {
                gs
            } else {
                ts
            };
            &&& ((r is Some && r->0 is None) <==> (merged.len() < unmerged && !allow_overlaps))
            &&& (r is None <==> (!(merged.len() < unmerged && !allow_overlaps) && merged.len()
                > u16::MAX))
            &&& ((r is Some && r->0 is Some) ==> {
                let b = r->0->0;
                &&& b.0@ == crate::extract::frag_sizes(models_pairs(merged))
                &&& b.1@ == rel_starts_from(models_pairs(merged), nts as int)
                &&& b.2 as int == merged.len()
            })
        }),
{
    let n = sizes.len();
    let ghost e_pairs = abs_pairs(ts, sizes@, starts@);
    let mut pairs: Vec<(u64, u64)> = Vec::new();
    let mut k: usize = 0;
    proof {
        assert(pairs@ =~= e_pairs.take(0));
    }
    while k < n
        invariant
            0 <= k <= n,
            n == sizes@.len(),
            blocks_wf(ts, te, sizes@, starts@),
            e_pairs == abs_pairs(ts, sizes@, starts@),
            pairs@ == e_pairs.take(k as int),
        decreases n - k,
    {
        proof {
            lemma_blocks_bounded(ts, te, sizes@, starts@, k as int);
        }
        let bs_k: u64 = ts + starts[k];
        let be_k: u64 = bs_k + sizes[k];
        pairs.push((bs_k, be_k));
        proof {
            assert(pairs@ =~= e_pairs.take(k + 1));
        }
        k += 1;
    }
    proof {
        assert(e_pairs.take(n as int) =~= e_pairs);
    }
    pairs.push((gs, ge));
    proof {
        assert(pairs@ =~= e_pairs.push((gs, ge)));
    }
    let sorted = crate::merge::sort_intervals(&pairs, chrom);
    let ghost spairs = crate::merge::sort_pairs(pairs@);
    proof {
        assert(crate::merge::coord_models(sorted@) =~= crate::merge::with_chrom(chrom@, spairs));
    }
    let merged = crate::merge::merge_multiple(&sorted);
    let ghost mseq = crate::merge::merge_fold(crate::merge::with_chrom(chrom@, spairs));
    proof {
        assert(crate::merge::interval_models(merged@) == mseq);
        assert(merged@.len() == mseq.len());
    }
    if merged.len() < pairs.len() && !allow_overlaps {
        return Some(None);
    }
    if merged.len() > 65535 {
        return None;
    }
    let nts: u64 = if gs < ts {
        gs
    } else {
        ts
    };
    let nte: u64 = if ge > te {
        ge
    } else {
        te
    };
    let ghost bl = models_pairs(mseq);
    proof {
        assert(forall|a: int|
            0 <= a < pairs@.len() ==> (nts <= (#[trigger] pairs@[a]).0 && pairs@[a].0
                <= pairs@[a].1 && pairs@[a].1 <= nte)) by {
            assert(forall|a: int| 0 <= a < n ==> (#[trigger] pairs@[a]) == e_pairs[a]);
            assert forall|a: int| 0 <= a < n implies (nts <= (#[trigger] pairs@[a]).0
                && pairs@[a].0 <= pairs@[a].1 && pairs@[a].1 <= nte) by {
                lemma_blocks_bounded(ts, te, sizes@, starts@, a);
            };
        };
        crate::merge::lemma_sort_pairs_bounds(pairs@, nts as int, nte as int);
        assert(forall|a: int|
            0 <= a < crate::merge::with_chrom(chrom@, spairs).len() ==> (nts <= (
            #[trigger] crate::merge::with_chrom(chrom@, spairs)[a]).1 && crate::merge::with_chrom(
                chrom@,
                spairs,
            )[a].1 <= crate::merge::with_chrom(chrom@, spairs)[a].2 && crate::merge::with_chrom(
                chrom@,
                spairs,
            )[a].2 <= nte));
        crate::merge::lemma_merge_fold_spans(
            crate::merge::with_chrom(chrom@, spairs),
            nts as int,
            nte as int,
        );
        assert(forall|a: int|
            0 <= a < merged@.len() ==> ((#[trigger] merged@[a]).start is Some
                && merged@[a].end is Some));
    }
    let mut new_sizes: Vec<u64> = Vec::new();
    let mut new_starts: Vec<u64> = Vec::new();
    let mut k2: usize = 0;
    proof {
        assert(new_sizes@ =~= crate::extract::frag_sizes(bl).take(0));
        assert(new_starts@ =~= rel_starts_from(bl, nts as int).take(0));
    }
    while k2 < merged.len()
        invariant
            0 <= k2 <= merged@.len(),
            crate::merge::interval_models(merged@) == mseq,
            bl == models_pairs(mseq),
            mseq.len() == merged@.len(),
            forall|a: int|
                0 <= a < merged@.len() ==> ((#[trigger] merged@[a]).start is Some
                    && merged@[a].end is Some),
            forall|a: int|
                0 <= a < mseq.len() ==> (nts <= (#[trigger] mseq[a]).1 && mseq[a].1 <= mseq[a].2
                    && mseq[a].2 <= nte),
            new_sizes@ == crate::extract::frag_sizes(bl).take(k2 as int),
            new_starts@ == rel_starts_from(bl, nts as int).take(k2 as int),
        decreases merged@.len() - k2,
    {
        proof {
            assert(crate::merge::interval_models(merged@)[k2 as int] == (
                merged@[k2 as int].chrom->0@,
                merged@[k2 as int].start->0,
                merged@[k2 as int].end->0,
            ));
        }
        let st: u64 = merged[k2].start.unwrap();
        let en: u64 = merged[k2].end.unwrap();
        new_sizes.push(en - st);
        new_starts.push(st - nts);
        proof {
            assert(new_sizes@ =~= crate::extract::frag_sizes(bl).take(k2 + 1));
            assert(new_starts@ =~= rel_starts_from(bl, nts as int).take(k2 + 1));
        }
        k2 += 1;
    }
    proof {
        assert(crate::extract::frag_sizes(bl).take(bl.len() as int)
            =~= crate::extract::frag_sizes(bl));
        assert(rel_starts_from(bl, nts as int).take(bl.len() as int) =~= rel_starts_from(
            bl,
            nts as int,
        ));
    }
    let num: u16 = merged.len() as u16;
    Some(Some((new_sizes, new_starts, num)))
}

impl Coordinates for BedEntry {
    open spec fn spec_chrom(&self) -> Option<Seq<char>> {
        match self.chrom {
            Some(c) => Some(c@),
            None => None,
        }
    }

    open spec fn spec_start(&self) -> Option<u64> {
        self.thin_start
    }

    open spec fn spec_end(&self) -> Option<u64> {
        self.thin_end
    }

    fn chrom(&self) -> (r: Option<&String>) {
        self.chrom.as_ref()
    }

    fn start(&self) -> (r: Option<&u64>) {
        self.thin_start.as_ref()
    }

    fn end(&self) -> (r: Option<&u64>) {
        self.thin_end.as_ref()
    }

    fn reset_start(&mut self) {
    }

    fn reset_end(&mut self) {
    }

    fn length(&self) -> (r: Option<u64>) {
        match (self.thin_start, self.thin_end) {
            (Some(a), Some(b)) => b.checked_sub(a),
            _ => None,
        }
    }
}

impl Named for BedEntry {
    open spec fn spec_name(&self) -> Option<Seq<char>> {
        match self.name {
            Some(n) => Some(n@),
            None => None,
        }
    }

    fn name(&self) -> (r: Option<&str>) {
        match self.name.as_ref() {
            Some(x) => Some(x.as_str()),
            None => None,
        }
    }

    fn update_name(&mut self, new_name: &str) {
        self.name = Some(new_name.to_owned());
    }
}

/// Which untranslated flank of a coding sequence a block belongs to.
#[derive(Clone, Debug, Eq, PartialEq, Structural)]
pub enum UtrSide {
    FivePrime,
    ThreePrime,
}

/// A lightweight view of a single block tagged with the UTR side it lies
/// on and whether it touches the coding-sequence boundary.
#[derive(Clone, Debug)]
pub struct UtrBlock {
    pub chrom: Option<String>,
    pub start: Option<u64>,
    pub end: Option<u64>,
    pub name: Option<String>,
    pub strand: Option<bool>,
    pub side: Option<UtrSide>,
    pub adjacent: Option<bool>,
}

impl UtrBlock {
    pub fn new() -> (r: UtrBlock)
        ensures
            r.chrom is None,
            r.start is None,
            r.end is None,
            r.name is None,
            r.strand is None,
            r.side is None,
            r.adjacent is None,
    {
        UtrBlock {
            chrom: None,
            start: None,
            end: None,
            name: None,
            strand: None,
            side: None,
            adjacent: None,
        }
    }

    /// Copies the positional fields of a record into a fresh UTR block
    /// view; side and adjacency stay unset.
    pub fn from_bed(source: &BedEntry) -> (r: UtrBlock)
        ensures
            r.chrom == source.chrom,
            r.start == source.thin_start,
            r.end == source.thin_end,
            r.name == source.name,
            r.strand == source.strand,
            r.side is None,
            r.adjacent is None,
    {
        UtrBlock {
            chrom: source.chrom.clone(),
            start: source.thin_start,
            end: source.thin_end,
            name: source.name.clone(),
            strand: source.strand,
            side: None,
            adjacent: None,
        }
    }

    pub fn set_side(&mut self, side: UtrSide)
        ensures
            *final(self) == (UtrBlock { side: Some(side), ..*old(self) }),
    {
        self.side = Some(side);
    }

    pub fn set_adjacency(&mut self, is_adjacent: bool)
        ensures
            *final(self) == (UtrBlock { adjacent: Some(is_adjacent), ..*old(self) }),
    {
        self.adjacent = Some(is_adjacent);
    }
}

impl Coordinates for UtrBlock {
    open spec fn spec_chrom(&self) -> Option<Seq<char>> {
        match self.chrom {
            Some(c) => Some(c@),
            None => None,
        }
    }

    open spec fn spec_start(&self) -> Option<u64> {
        self.start
    }

    open spec fn spec_end(&self) -> Option<u64> {
        self.end
    }

    fn chrom(&self) -> (r: Option<&String>) {
        self.chrom.as_ref()
    }

    fn start(&self) -> (r: Option<&u64>) {
        self.start.as_ref()
    }

    fn end(&self) -> (r: Option<&u64>) {
        self.end.as_ref()
    }

    fn reset_start(&mut self) {
        self.start = None;
    }

    fn reset_end(&mut self) {
        self.end = None;
    }

    fn length(&self) -> (r: Option<u64>) {
        match (self.start, self.end) {
            (Some(a), Some(b)) => b.checked_sub(a),
            _ => None,
        }
    }
}

impl Named for UtrBlock {
    open spec fn spec_name(&self) -> Option<Seq<char>> {
        match self.name {
            Some(n) => Some(n@),
            None => None,
        }
    }

    fn name(&self) -> (r: Option<&str>) {
        match self.name.as_ref() {
            Some(x) => Some(x.as_str()),
            None => None,
        }
    }

    fn update_name(&mut self, new_name: &str) {
        self.name = Some(new_name.to_owned());
    }
}

/// Capability of carrying a strand: `true` is the forward (`+`) strand.
pub trait Stranded {
    spec fn spec_strand(&self) -> Option<bool>;

    fn strand(&self) -> (r: bool)
        requires
            self.spec_strand() is Some,
        ensures
            r == self.spec_strand()->0,
    ;

    fn update_strand(&mut self, strand: bool)
        ensures
            final(self).spec_strand() == Some(strand),
    ;
}

impl Stranded for UtrBlock {
    open spec fn spec_strand(&self) -> Option<bool> {
        self.strand
    }

    fn strand(&self) -> (r: bool) {
        self.strand.unwrap()
    }

    fn update_strand(&mut self, strand: bool) {
        self.strand = Some(strand);
    }
}

} // verus!
