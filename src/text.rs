use vstd::prelude::*;

verus! {

/// The pieces of `s` between occurrences of `sep`, in order. There is always at
/// least one piece: the empty text gives one empty piece, and a separator at
/// either end gives an empty piece there.
pub open spec fn split_on(s: Seq<char>, sep: char) -> Seq<Seq<char>>
    decreases s.len(),
{
    if s.len() == 0 {
        seq![Seq::<char>::empty()]
    } else {
        let init = split_on(s.drop_last(), sep);
        if s.last() == sep {
            init.push(Seq::<char>::empty())
        } else {
            init.update(init.len() - 1, init.last().push(s.last()))
        }
    }
}

/// A line as handed out by `lines_of`: a line ending of `\r\n` loses its `\r`.
pub open spec fn strip_cr(l: Seq<char>) -> Seq<char> {
    if l.len() > 0 && l.last() == '\r' {
        l.drop_last()
    } else {
        l
    }
}

/// The lines of a document: it is cut at each `\n`, a line ended by `\r\n`
/// loses the `\r` as well, and a final line ending is optional (an empty text
/// after the last `\n` is no line).
pub open spec fn lines_of(doc: Seq<char>) -> Seq<Seq<char>> {
    let parts = split_on(doc, '\n');
    let ended = parts.take(parts.len() - 1).map_values(|p: Seq<char>| strip_cr(p));
    if parts.last().len() == 0 {
        ended
    } else {
        ended.push(parts.last())
    }
}

pub open spec fn is_digit(c: char) -> bool {
    '0' <= c <= '9'
}

pub open spec fn all_digits(d: Seq<char>) -> bool {
    forall|i: int| 0 <= i < d.len() ==> is_digit(#[trigger] d[i])
}

/// The number that a sequence of decimal digits denotes, most significant first.
pub open spec fn decimal_value(d: Seq<char>) -> int
    decreases d.len(),
{
    if d.len() == 0 {
        0
    } else {
        decimal_value(d.drop_last()) * 10 + (d.last() as int - '0' as int)
    }
}

/// The text of an unsigned number without its optional leading `+`.
pub open spec fn unsigned_digits(f: Seq<char>) -> Seq<char> {
    if f.len() > 0 && f[0] == '+' {
        f.drop_first()
    } else {
        f
    }
}

/// Whether `f` is the decimal text of a `u32`: an optional `+`, then one or
/// more digits whose value is at most `u32::MAX`.
pub open spec fn is_u32_text(f: Seq<char>) -> bool {
    let d = unsigned_digits(f);
    &&& d.len() > 0
    &&& all_digits(d)
    &&& decimal_value(d) <= u32::MAX
}

/// The `u32` that `f` denotes, if it is the decimal text of one.
pub open spec fn u32_of_text(f: Seq<char>) -> Option<u32> {
    if is_u32_text(f) {
        Some(decimal_value(unsigned_digits(f)) as u32)
    } else {
        None
    }
}

/// A text always splits into at least one piece.
pub proof fn lemma_split_on_nonempty(s: Seq<char>, sep: char)
    ensures
        split_on(s, sep).len() >= 1,
    decreases s.len(),
{
    if s.len() > 0 {
        lemma_split_on_nonempty(s.drop_last(), sep);
    }
}

/// The value of a digit sequence is never below that of one of its prefixes.
pub proof fn lemma_decimal_prefix(d: Seq<char>, n: int)
    requires
        all_digits(d),
        0 <= n <= d.len(),
    ensures
        0 <= decimal_value(d.take(n)) <= decimal_value(d),
    decreases d.len(),
{
    if n < d.len() {
        let init = d.drop_last();
        assert(init.take(n) =~= d.take(n));
        lemma_decimal_prefix(init, n);
        assert(is_digit(d[d.len() - 1]));
    } else {
        assert(d.take(n) =~= d);
        if d.len() > 0 {
            lemma_decimal_prefix(d.drop_last(), d.len() - 1);
            assert(d.drop_last().take(d.len() - 1) =~= d.drop_last());
            assert(is_digit(d[d.len() - 1]));
        }
    }
}

/// Relies on `String::push`: appends one character at the end.
#[verifier::external_body]
fn push_char(s: &mut String, c: char)
    ensures
        final(s)@ == old(s)@.push(c),
{
    s.push(c);
}

/// The characters of `s`, in order.
pub fn chars_of(s: &str) -> (r: Vec<char>)
    ensures
        r@ == s@,
{
    let mut r: Vec<char> = Vec::new();
    for c in it: s.chars()
        invariant
            it.seq() == s@,
            r@ == it.seq().take(it.index() as int),
    {
        r.push(c);
    }
    r
}

/// A new string holding the characters of `c` from `a` up to `b`.
pub fn string_from(c: &Vec<char>, a: usize, b: usize) -> (r: String)
    requires
        a <= b <= c.len(),
    ensures
        r@ == c@.subrange(a as int, b as int),
{
    let mut r = String::new();
    let mut i: usize = a;
    while i < b
        invariant
            a <= i <= b <= c.len(),
            r@ == c@.subrange(a as int, i as int),
        decreases b - i,
    {
        push_char(&mut r, c[i]);
        i = i + 1;
        assert(r@ =~= c@.subrange(a as int, i as int));
    }
    r
}

/// The bounds, within `c`, of the pieces of `c[a..b]` between occurrences of
/// `sep`.
pub fn split_ranges(c: &Vec<char>, a: usize, b: usize, sep: char) -> (r: Vec<(usize, usize)>)
    requires
        a <= b <= c.len(),
    ensures
        r.len() == split_on(c@.subrange(a as int, b as int), sep).len(),
        forall|k: int|
            0 <= k < r.len() ==> a <= (#[trigger] r[k]).0 <= r[k].1 <= b && c@.subrange(
                r[k].0 as int,
                r[k].1 as int,
            ) == split_on(c@.subrange(a as int, b as int), sep)[k],
{
    let mut r: Vec<(usize, usize)> = Vec::new();
    let mut start: usize = a;
    let mut i: usize = a;
    assert(c@.subrange(a as int, a as int) =~= Seq::<char>::empty());
    while i < b
        invariant
            a <= start <= i <= b <= c.len(),
            split_on(c@.subrange(a as int, i as int), sep).len() == r.len() + 1,
            split_on(c@.subrange(a as int, i as int), sep).last() == c@.subrange(
                start as int,
                i as int,
            ),
            forall|k: int|
                0 <= k < r.len() ==> a <= (#[trigger] r[k]).0 <= r[k].1 <= i && c@.subrange(
                    r[k].0 as int,
                    r[k].1 as int,
                ) == split_on(c@.subrange(a as int, i as int), sep)[k],
        decreases b - i,
    {
        let ghost before = c@.subrange(a as int, i as int);
        let ghost after = c@.subrange(a as int, i + 1);
        assert(after.drop_last() =~= before);
        assert(after.last() == c@[i as int]);
        if c[i] == sep {
            r.push((start, i));
            start = i + 1;
            assert(c@.subrange(start as int, i + 1) =~= Seq::<char>::empty());
        } else {
            assert(c@.subrange(start as int, i + 1) =~= c@.subrange(start as int, i as int).push(
                c@[i as int],
            ));
        }
        i = i + 1;
    }
    r.push((start, b));
    proof {
        let parts = split_on(c@.subrange(a as int, b as int), sep);
        assert forall|k: int| 0 <= k < r.len() implies a <= (#[trigger] r[k]).0 <= r[k].1 <= b
            && c@.subrange(r[k].0 as int, r[k].1 as int) == parts[k] by {
            if k == r.len() - 1 {
                assert(parts[k] == parts.last());
            }
        }
    }
    r
}

/// The `u32` written in `c[a..b]`, if that text is the decimal text of one.
pub fn u32_from_chars(c: &Vec<char>, a: usize, b: usize) -> (r: Option<u32>)
    requires
        a <= b <= c.len(),
    ensures
        r == u32_of_text(c@.subrange(a as int, b as int)),
{
    let ghost f = c@.subrange(a as int, b as int);
    let mut i: usize = a;
    if i < b && c[i] == '+' {
        i = i + 1;
    }
    assert(unsigned_digits(f) =~= c@.subrange(i as int, b as int));
    if i == b {
        return None;
    }
    let start = i;
    let ghost d = c@.subrange(start as int, b as int);
    let mut acc: u64 = 0;
    assert(c@.subrange(start as int, start as int) =~= Seq::<char>::empty());
    while i < b
        invariant
            a <= start <= i <= b <= c.len(),
            f == c@.subrange(a as int, b as int),
            d == c@.subrange(start as int, b as int),
            unsigned_digits(f) == d,
            acc == decimal_value(c@.subrange(start as int, i as int)),
            acc <= u32::MAX,
            all_digits(c@.subrange(start as int, i as int)),
        decreases b - i,
    {
        let ch = c[i];
        let ghost next_prefix = c@.subrange(start as int, i + 1);
        assert(next_prefix.drop_last() =~= c@.subrange(start as int, i as int));
        assert(d.take(i + 1 - start) =~= next_prefix);
        if !('0' <= ch && ch <= '9') {
            assert(d[i - start] == ch);
            return None;
        }
        let value = acc * 10 + ((ch as u32) - ('0' as u32)) as u64;
        assert(decimal_value(next_prefix) == value);
        assert(all_digits(next_prefix)) by {
            assert forall|j: int| 0 <= j < next_prefix.len() implies is_digit(
                #[trigger] next_prefix[j],
            ) by {
                if j < next_prefix.len() - 1 {
                    assert(next_prefix[j] == c@.subrange(start as int, i as int)[j]);
                }
            }
        }
        if value > u32::MAX as u64 {
            proof {
                if all_digits(d) {
                    lemma_decimal_prefix(d, i + 1 - start);
                }
            }
            return None;
        }
        acc = value;
        i = i + 1;
    }
    assert(c@.subrange(start as int, b as int) =~= d);
    Some(acc as u32)
}

/// The bounds, within `c`, of the lines of `c`.
pub fn line_ranges(c: &Vec<char>) -> (r: Vec<(usize, usize)>)
    ensures
        r.len() == lines_of(c@).len(),
        forall|k: int|
            0 <= k < r.len() ==> (#[trigger] r[k]).0 <= r[k].1 <= c.len() && c@.subrange(
                r[k].0 as int,
                r[k].1 as int,
            ) == lines_of(c@)[k],
{
    let parts = split_ranges(c, 0, c.len(), '\n');
    let ghost pieces = split_on(c@, '\n');
    proof {
        assert(c@.subrange(0, c@.len() as int) =~= c@);
        lemma_split_on_nonempty(c@, '\n');
    }
    let n = parts.len();
    let mut r: Vec<(usize, usize)> = Vec::new();
    let mut k: usize = 0;
    while k + 1 < n
        invariant
            n == parts.len() == pieces.len(),
            pieces == split_on(c@, '\n'),
            k < n,
            r.len() == k,
            forall|j: int|
                0 <= j < parts.len() ==> (#[trigger] parts[j]).0 <= parts[j].1 <= c.len()
                    && c@.subrange(parts[j].0 as int, parts[j].1 as int) == pieces[j],
            forall|j: int|
                0 <= j < k ==> (#[trigger] r[j]).0 <= r[j].1 <= c.len() && c@.subrange(
                    r[j].0 as int,
                    r[j].1 as int,
                ) == strip_cr(pieces[j]),
        decreases n - k,
    {
        let (a, b) = parts[k];
        let ghost piece = c@.subrange(a as int, b as int);
        if a < b && c[b - 1] == '\r' {
            assert(c@.subrange(a as int, b - 1) =~= piece.drop_last());
            r.push((a, b - 1));
        } else {
            r.push((a, b));
        }
        k = k + 1;
    }
    let (a, b) = parts[n - 1];
    let ghost ended = pieces.take(n - 1).map_values(|p: Seq<char>| strip_cr(p));
    assert(pieces.last() == c@.subrange(a as int, b as int));
    if a < b {
        r.push((a, b));
    }
    proof {
        assert forall|j: int| 0 <= j < r.len() implies (#[trigger] r[j]).0 <= r[j].1 <= c.len()
            && c@.subrange(r[j].0 as int, r[j].1 as int) == lines_of(c@)[j] by {
            if j < n - 1 {
                assert(ended[j] == strip_cr(pieces[j]));
            }
        }
    }
    r
}

/// The lines of `data`, each as a new string, in order: a line ending is `\n`
/// or `\r\n`, and the last line needs none.
pub fn parse_data(data: &str) -> (r: Vec<String>)
    ensures
        r.len() == lines_of(data@).len(),
        forall|k: int| 0 <= k < r.len() ==> (#[trigger] r[k])@ == lines_of(data@)[k],
{
    let c = chars_of(data);
    let ranges = line_ranges(&c);
    let mut r: Vec<String> = Vec::new();
    let mut k: usize = 0;
    while k < ranges.len()
        invariant
            c@ == data@,
            ranges.len() == lines_of(c@).len(),
            forall|j: int|
                0 <= j < ranges.len() ==> (#[trigger] ranges[j]).0 <= ranges[j].1 <= c.len()
                    && c@.subrange(ranges[j].0 as int, ranges[j].1 as int) == lines_of(c@)[j],
            k <= ranges.len(),
            r.len() == k,
            forall|j: int| 0 <= j < k ==> (#[trigger] r[j])@ == lines_of(c@)[j],
        decreases ranges.len() - k,
    {
        let (a, b) = ranges[k];
        r.push(string_from(&c, a, b));
        k = k + 1;
    }
    r
}

} // verus!
