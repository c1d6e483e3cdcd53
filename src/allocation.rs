use vstd::prelude::*;

use crate::text::{
    chars_of, is_digit, is_u32_text, line_ranges, lines_of, split_on, split_ranges, string_from,
    u32_from_chars, u32_of_text, unsigned_digits, decimal_value, lemma_decimal_prefix,
};

verus! {

/// Why a line is not an allocation record.
#[derive(Clone, Copy, Debug, PartialEq, Eq, Structural)]
pub enum ParseError {
    /// The line does not have exactly eight `|`-separated fields.
    WrongFieldCount,
    /// The block size field is not the decimal text of a `u32`.
    InvalidBlockSize,
}

/// One block of addresses or AS numbers that a registry allocated to a country.
/// Only the block size is read as a number; the other fields are kept as text.
#[derive(Debug)]
pub struct IPAddressAllocation {
    pub registry: String,
    pub country_code: String,
    pub ip_version: String,
    pub ip_address: String,
    pub block_size: u32,
    pub date: String,
    pub status: String,
}

/// The contents of an `IPAddressAllocation`.
pub struct Allocation {
    pub registry: Seq<char>,
    pub country_code: Seq<char>,
    pub ip_version: Seq<char>,
    pub ip_address: Seq<char>,
    pub block_size: u32,
    pub date: Seq<char>,
    pub status: Seq<char>,
}

impl View for IPAddressAllocation {
    type V = Allocation;

    open spec fn view(&self) -> Allocation {
        Allocation {
            registry: self.registry@,
            country_code: self.country_code@,
            ip_version: self.ip_version@,
            ip_address: self.ip_address@,
            block_size: self.block_size,
            date: self.date@,
            status: self.status@,
        }
    }
}

/// What one line of a registry file denotes: fields 0 to 3, 5 and 6 taken as
/// they stand, field 4 read as the block size, and field 7 (the record's
/// identifier) left out.
pub open spec fn parse_line(line: Seq<char>) -> Result<Allocation, ParseError> {
    let f = split_on(line, '|');
    if f.len() != 8 {
        Err(ParseError::WrongFieldCount)
    } else {
        match u32_of_text(f[4]) {
            None => Err(ParseError::InvalidBlockSize),
            Some(n) => Ok(
                Allocation {
                    registry: f[0],
                    country_code: f[1],
                    ip_version: f[2],
                    ip_address: f[3],
                    block_size: n,
                    date: f[5],
                    status: f[6],
                },
            ),
        }
    }
}

/// The contents of a parse result, with the record read through its view.
pub open spec fn result_view(r: Result<IPAddressAllocation, ParseError>) -> Result<
    Allocation,
    ParseError,
> {
    match r {
        Ok(a) => Ok(a@),
        Err(e) => Err(e),
    }
}

/// The contents of each record of a sequence, in order.
pub open spec fn views(v: Seq<IPAddressAllocation>) -> Seq<Allocation> {
    v.map_values(|a: IPAddressAllocation| a@)
}

/// The records of the lines that parse, in the order of the lines.
pub open spec fn records_of_lines(ls: Seq<Seq<char>>) -> Seq<Allocation>
    decreases ls.len(),
{
    if ls.len() == 0 {
        Seq::<Allocation>::empty()
    } else {
        let init = records_of_lines(ls.drop_last());
        match parse_line(ls.last()) {
            Ok(a) => init.push(a),
            Err(_) => init,
        }
    }
}

/// The records of a whole registry file.
pub open spec fn records_of_document(doc: Seq<char>) -> Seq<Allocation> {
    records_of_lines(lines_of(doc))
}

impl ParseError {
    /// A short description of the error.
    pub fn message(&self) -> (r: &'static str)
        ensures
            *self == ParseError::WrongFieldCount ==> r@ == "Invalid line format"@,
            *self == ParseError::InvalidBlockSize ==> r@ == "Invalid block size"@,
    {
        match self {
            ParseError::WrongFieldCount => "Invalid line format",
            ParseError::InvalidBlockSize => "Invalid block size",
        }
    }
}

/// The record that `c[a..b]` denotes, or why it denotes none.
fn record_from_chars(c: &Vec<char>, a: usize, b: usize) -> (r: Result<
    IPAddressAllocation,
    ParseError,
>)
    requires
        a <= b <= c.len(),
    ensures
        result_view(r) == parse_line(c@.subrange(a as int, b as int)),
{
    let f = split_ranges(c, a, b, '|');
    if f.len() != 8 {
        return Err(ParseError::WrongFieldCount);
    }
    match u32_from_chars(c, f[4].0, f[4].1) {
        None => Err(ParseError::InvalidBlockSize),
        Some(n) => Ok(
            IPAddressAllocation {
                registry: string_from(c, f[0].0, f[0].1),
                country_code: string_from(c, f[1].0, f[1].1),
                ip_version: string_from(c, f[2].0, f[2].1),
                ip_address: string_from(c, f[3].0, f[3].1),
                block_size: n,
                date: string_from(c, f[5].0, f[5].1),
                status: string_from(c, f[6].0, f[6].1),
            },
        ),
    }
}

impl IPAddressAllocation {
    /// Reads one line of a registry file: exactly eight `|`-separated fields,
    /// the fifth of which is the block size.
    pub fn from_line(line: &str) -> (r: Result<IPAddressAllocation, ParseError>)
        ensures
            result_view(r) == parse_line(line@),
    {
        let c = chars_of(line);
        assert(c@.subrange(0, c@.len() as int) =~= c@);
        record_from_chars(&c, 0, c.len())
    }
}

/// The records of the lines of `document` that parse, in the order of the
/// lines; the other lines are skipped.
pub fn parse_batch(document: &str) -> (r: Vec<IPAddressAllocation>)
    ensures
        views(r@) == records_of_document(document@),
{
    let c = chars_of(document);
    let ranges = line_ranges(&c);
    let ghost ls = lines_of(c@);
    let mut r: Vec<IPAddressAllocation> = Vec::new();
    let mut k: usize = 0;
    assert(ls.take(0) =~= Seq::<Seq<char>>::empty());
    assert(views(r@) =~= Seq::<Allocation>::empty());
    while k < ranges.len()
        invariant
            c@ == document@,
            ls == lines_of(c@),
            ranges.len() == ls.len(),
            forall|j: int|
                0 <= j < ranges.len() ==> (#[trigger] ranges[j]).0 <= ranges[j].1 <= c.len()
                    && c@.subrange(ranges[j].0 as int, ranges[j].1 as int) == ls[j],
            k <= ranges.len(),
            views(r@) == records_of_lines(ls.take(k as int)),
        decreases ranges.len() - k,
    {
        let (a, b) = ranges[k];
        let ghost prefix = ls.take(k + 1);
        assert(prefix.drop_last() =~= ls.take(k as int));
        assert(prefix.last() == ls[k as int]);
        match record_from_chars(&c, a, b) {
            Ok(x) => {
                let ghost before = r@;
                r.push(x);
                assert(views(r@) =~= views(before).push(x@));
            },
            Err(_) => {},
        }
        k = k + 1;
    }
    assert(ls.take(ls.len() as int) =~= ls);
    r
}

/// The number of lines of `ls` that parse.
pub open spec fn count_well_formed(ls: Seq<Seq<char>>) -> nat
    decreases ls.len(),
{
    if ls.len() == 0 {
        0
    } else {
        count_well_formed(ls.drop_last()) + if parse_line(ls.last()) is Ok {
            1nat
        } else {
            0nat
        }
    }
}

/// A line of exactly eight fields whose fifth field is the decimal text of a
/// `u32` parses, and each field of the record is the text of its field, the
/// block size the number written there.
pub proof fn lemma_eight_fields_parse(s: Seq<char>)
    requires
        split_on(s, '|').len() == 8,
        is_u32_text(split_on(s, '|')[4]),
    ensures
        parse_line(s) is Ok,
        ({
            let f = split_on(s, '|');
            let a = parse_line(s)->Ok_0;
            &&& a.registry == f[0]
            &&& a.country_code == f[1]
            &&& a.ip_version == f[2]
            &&& a.ip_address == f[3]
            &&& a.block_size == decimal_value(unsigned_digits(f[4]))
            &&& a.date == f[5]
            &&& a.status == f[6]
        }),
{
    let d = unsigned_digits(split_on(s, '|')[4]);
    lemma_decimal_prefix(d, d.len() as int);
}

/// A line that does not have exactly eight fields fails with
/// `WrongFieldCount`.
pub proof fn lemma_wrong_field_count(s: Seq<char>)
    requires
        split_on(s, '|').len() != 8,
    ensures
        parse_line(s) == Err::<Allocation, ParseError>(ParseError::WrongFieldCount),
{
}

/// A line of eight fields whose fifth field is empty, or holds a character
/// other than a digit (a minus sign, a letter) where only a leading `+` is
/// allowed, fails with `InvalidBlockSize`.
pub proof fn lemma_invalid_block_size(s: Seq<char>)
    requires
        split_on(s, '|').len() == 8,
        ({
            let f4 = split_on(s, '|')[4];
            f4.len() == 0 || exists|j: int|
                0 <= j < f4.len() && !is_digit(#[trigger] f4[j]) && (j > 0 || f4[j] != '+')
        }),
    ensures
        parse_line(s) == Err::<Allocation, ParseError>(ParseError::InvalidBlockSize),
{
    let f4 = split_on(s, '|')[4];
    let d = unsigned_digits(f4);
    if f4.len() > 0 {
        let j = choose|j: int|
            0 <= j < f4.len() && !is_digit(#[trigger] f4[j]) && (j > 0 || f4[j] != '+');
        if f4[0] == '+' {
            assert(d[j - 1] == f4[j]);
        } else {
            assert(d[j] == f4[j]);
        }
    }
    assert(!is_u32_text(f4));
}

/// Of the lines `ls`, the records kept are those of the lines that parse: as
/// many as there are such lines, each from its own line, in the order of the
/// lines. The result gives the index of the line of each record.
pub proof fn lemma_records_of_lines(ls: Seq<Seq<char>>) -> (kept: Seq<int>)
    ensures
        kept.len() == records_of_lines(ls).len(),
        kept.len() == count_well_formed(ls),
        forall|k: int|
            0 <= k < kept.len() ==> 0 <= #[trigger] kept[k] < ls.len() && parse_line(ls[kept[k]])
                == Ok::<Allocation, ParseError>(records_of_lines(ls)[k]),
        forall|k1: int, k2: int| 0 <= k1 < k2 < kept.len() ==> kept[k1] < kept[k2],
        forall|j: int|
            0 <= j < ls.len() && parse_line(#[trigger] ls[j]) is Ok ==> exists|k: int|
                0 <= k < kept.len() && kept[k] == j,
    decreases ls.len(),
{
    if ls.len() == 0 {
        Seq::<int>::empty()
    } else {
        let init = ls.drop_last();
        let prev = lemma_records_of_lines(init);
        let last = ls.len() - 1;
        let kept = if parse_line(ls.last()) is Ok {
            prev.push(last)
        } else {
            prev
        };
        assert forall|k: int| 0 <= k < kept.len() implies 0 <= #[trigger] kept[k] < ls.len()
            && parse_line(ls[kept[k]]) == Ok::<Allocation, ParseError>(
            records_of_lines(ls)[k],
        ) by {
            if k < prev.len() {
                assert(init[prev[k]] == ls[prev[k]]);
            }
        }
        assert forall|j: int| 0 <= j < ls.len() && parse_line(#[trigger] ls[j]) is Ok implies exists|
            k: int,
        | 0 <= k < kept.len() && kept[k] == j by {
            if j == last {
                assert(kept[kept.len() - 1] == j);
            } else {
                assert(init[j] == ls[j]);
                let k = choose|k: int| 0 <= k < prev.len() && prev[k] == j;
                assert(kept[k] == j);
            }
        }
        kept
    }
}

/// A document whose lines include some that parse yields one record for each
/// of those lines, in the order of the lines, and nothing for the others.
pub proof fn lemma_batch_keeps_parsed_lines(doc: Seq<char>) -> (kept: Seq<int>)
    ensures
        records_of_document(doc).len() == count_well_formed(lines_of(doc)),
        kept.len() == records_of_document(doc).len(),
        forall|k: int|
            0 <= k < kept.len() ==> 0 <= #[trigger] kept[k] < lines_of(doc).len() && parse_line(
                lines_of(doc)[kept[k]],
            ) == Ok::<Allocation, ParseError>(records_of_document(doc)[k]),
        forall|k1: int, k2: int| 0 <= k1 < k2 < kept.len() ==> kept[k1] < kept[k2],
        forall|j: int|
            0 <= j < lines_of(doc).len() && parse_line(#[trigger] lines_of(doc)[j]) is Ok
                ==> exists|k: int| 0 <= k < kept.len() && kept[k] == j,
{
    lemma_records_of_lines(lines_of(doc))
}

/// An empty document has no records.
pub proof fn lemma_empty_document()
    ensures
        records_of_document(Seq::<char>::empty()) == Seq::<Allocation>::empty(),
{
    let parts = split_on(Seq::<char>::empty(), '\n');
    assert(parts.take(0) =~= Seq::<Seq<char>>::empty());
    assert(lines_of(Seq::<char>::empty()) =~= Seq::<Seq<char>>::empty());
}

/// Two results of `parse_batch` on the same document hold the same records:
/// the result depends on the document alone.
pub proof fn lemma_parse_batch_deterministic(
    doc: Seq<char>,
    first: Seq<IPAddressAllocation>,
    second: Seq<IPAddressAllocation>,
)
    requires
        views(first) == records_of_document(doc),
        views(second) == records_of_document(doc),
    ensures
        first.len() == second.len(),
        forall|k: int| 0 <= k < first.len() ==> (#[trigger] first[k])@ == second[k]@,
{
    assert(views(first).len() == first.len());
    assert(views(second).len() == second.len());
    assert forall|k: int| 0 <= k < first.len() implies (#[trigger] first[k])@ == second[k]@ by {
        assert(views(first)[k] == first[k]@);
        assert(views(second)[k] == second[k]@);
    }
}

} // verus!
