//! Benchmark result listings: a text made of dataset headers
//! (`<name> dataset`) and result lines (`<result>: [v1, v2, ...]`), read
//! into one entry per result line.
use vstd::prelude::*;
use crate::cache::key_views;
use crate::text::{chars_of, is_suffix, is_white_space, matches_at, string_from, white_space};

verus! {

/// `s` without its leading white space.
pub open spec fn trim_start(s: Seq<char>) -> Seq<char>
    decreases s.len(),
{
    if s.len() > 0 && is_white_space(s[0]) {
        trim_start(s.drop_first())
    } else {
        s
    }
}

/// `s` without its trailing white space.
pub open spec fn trim_end(s: Seq<char>) -> Seq<char>
    decreases s.len(),
{
    if s.len() > 0 && is_white_space(s.last()) {
        trim_end(s.drop_last())
    } else {
        s
    }
}

/// `s` without leading and trailing white space.
pub open spec fn trim(s: Seq<char>) -> Seq<char> {
    trim_end(trim_start(s))
}

/// `s` with every trailing repetition of the non-empty `suffix` removed.
pub open spec fn strip_suffixes(s: Seq<char>, suffix: Seq<char>) -> Seq<char>
    decreases s.len(),
{
    if suffix.len() > 0 && is_suffix(suffix, s) {
        strip_suffixes(s.take(s.len() - suffix.len()), suffix)
    } else {
        s
    }
}

/// The part of `s` before its first `c` (all of it if there is none).
pub open spec fn before_first(s: Seq<char>, c: char) -> Seq<char>
    decreases s.len(),
{
    if s.len() == 0 || s[0] == c {
        Seq::empty()
    } else {
        seq![s[0]] + before_first(s.drop_first(), c)
    }
}

/// The pieces of `text` between the separators `c`, where `cur` is the piece
/// read so far; an empty text still has one (empty) piece.
pub open spec fn split_from(text: Seq<char>, c: char, cur: Seq<char>) -> Seq<Seq<char>>
    decreases text.len(),
{
    if text.len() == 0 {
        seq![cur]
    } else if text[0] == c {
        seq![cur] + split_from(text.drop_first(), c, Seq::empty())
    } else {
        split_from(text.drop_first(), c, cur.push(text[0]))
    }
}

/// Each of `pieces`, trimmed.
pub open spec fn trim_all(pieces: Seq<Seq<char>>) -> Seq<Seq<char>> {
    pieces.map_values(|p: Seq<char>| trim(p))
}

pub open spec fn dataset_word() -> Seq<char> {
    seq!['d', 'a', 't', 'a', 's', 'e', 't']
}

/// What one line of a result listing says.
#[derive(Clone, Debug)]
pub enum ResultLine {
    /// The results that follow belong to this dataset.
    Dataset { name: String },
    /// A result and its values.
    Values { result: String, values: Vec<String> },
    /// A result line whose values are not in square brackets.
    Malformed,
    /// Anything else, blank lines included.
    Ignored,
}

/// The meaning of a line: once trimmed, a line that ends in `dataset` names
/// a dataset (what precedes the trailing `dataset`s, trimmed); else a line
/// holding `:` is a result, named by what precedes the first `:`, whose
/// values (what follows it, trimmed) must stand in square brackets and are
/// separated by commas, each trimmed.
pub open spec fn line_meaning(line: Seq<char>) -> ResultLineView {
    let t = trim(line);
    if is_suffix(dataset_word(), t) {
        ResultLineView::Dataset { name: trim(strip_suffixes(t, dataset_word())) }
    } else if t.contains(':') {
        let name = before_first(t, ':');
        let v = trim(t.skip(name.len() + 1int));
        if v.len() >= 2 && v[0] == '[' && v.last() == ']' {
            ResultLineView::Values {
                result: trim(name),
                values: trim_all(split_from(v.subrange(1, v.len() - 1), ',', Seq::empty())),
            }
        } else {
            ResultLineView::Malformed
        }
    } else {
        ResultLineView::Ignored
    }
}

pub ghost enum ResultLineView {
    Dataset { name: Seq<char> },
    Values { result: Seq<char>, values: Seq<Seq<char>> },
    Malformed,
    Ignored,
}

impl ResultLine {
    pub open spec fn view(&self) -> ResultLineView {
        match self {
            ResultLine::Dataset { name } => ResultLineView::Dataset { name: name@ },
            ResultLine::Values { result, values } => ResultLineView::Values {
                result: result@,
                values: key_views(values@),
            },
            ResultLine::Malformed => ResultLineView::Malformed,
            ResultLine::Ignored => ResultLineView::Ignored,
        }
    }
}

/// The bounds of `cs[lo..hi]` once trimmed.
fn trim_bounds(cs: &Vec<char>, lo: usize, hi: usize) -> (r: (usize, usize))
    requires
        lo <= hi <= cs@.len(),
    ensures
        lo <= r.0 <= r.1 <= hi,
        cs@.subrange(r.0 as int, r.1 as int) == trim(cs@.subrange(lo as int, hi as int)),
{
    let mut a = lo;
    while a < hi && white_space(cs[a])
        invariant
            lo <= a <= hi <= cs@.len(),
            trim_start(cs@.subrange(lo as int, hi as int)) == trim_start(cs@.subrange(a as int, hi as int)),
        decreases hi - a,
    {
        assert(cs@.subrange(a as int, hi as int).drop_first() == cs@.subrange(a + 1, hi as int));
        a = a + 1;
    }
    assert(trim_start(cs@.subrange(a as int, hi as int)) == cs@.subrange(a as int, hi as int));
    let mut b = hi;
    while b > a && white_space(cs[b - 1])
        invariant
            lo <= a <= b <= hi <= cs@.len(),
            trim_end(cs@.subrange(a as int, hi as int)) == trim_end(cs@.subrange(a as int, b as int)),
        decreases b - a,
    {
        assert(cs@.subrange(a as int, b as int).drop_last() == cs@.subrange(a as int, b - 1));
        b = b - 1;
    }
    assert(trim_end(cs@.subrange(a as int, b as int)) == cs@.subrange(a as int, b as int));
    (a, b)
}

/// The comma-separated pieces of `cs[lo..hi]`, each trimmed.
fn split_trimmed(cs: &Vec<char>, lo: usize, hi: usize) -> (r: Vec<String>)
    requires
        lo <= hi <= cs@.len(),
    ensures
        key_views(r@) == trim_all(split_from(cs@.subrange(lo as int, hi as int), ',', Seq::empty())),
{
    let ghost target = trim_all(split_from(cs@.subrange(lo as int, hi as int), ',', Seq::empty()));
    let mut out: Vec<String> = Vec::new();
    let mut start = lo;
    let mut i = lo;
    assert(cs@.subrange(lo as int, lo as int) == Seq::<char>::empty());
    assert(key_views(out@) + target == target);
    while i < hi
        invariant
            lo <= start <= i <= hi <= cs@.len(),
            target == trim_all(split_from(cs@.subrange(lo as int, hi as int), ',', Seq::empty())),
            key_views(out@) + trim_all(split_from(cs@.subrange(i as int, hi as int), ',', cs@.subrange(start as int, i as int))) == target,
        decreases hi - i,
    {
        let ghost rest = cs@.subrange(i as int, hi as int);
        let ghost cur = cs@.subrange(start as int, i as int);
        assert(rest.drop_first() == cs@.subrange(i + 1, hi as int));
        assert(rest[0] == cs@[i as int]);
        if cs[i] == ',' {
            let (a, b) = trim_bounds(cs, start, i);
            let piece = string_from(cs, a, b);
            proof {
                let tail = split_from(cs@.subrange(i + 1, hi as int), ',', Seq::empty());
                assert(split_from(rest, ',', cur) == seq![cur] + tail);
                assert(trim_all(seq![cur] + tail) == seq![trim(cur)] + trim_all(tail));
                assert(key_views(out@.push(piece)) == key_views(out@).push(piece@));
                assert(key_views(out@).push(piece@) + trim_all(tail) == key_views(out@) + (seq![trim(cur)] + trim_all(tail)));
                assert(cs@.subrange(i + 1, i + 1) == Seq::<char>::empty());
            }
            out.push(piece);
            start = i + 1;
        } else {
            assert(cur.push(cs@[i as int]) == cs@.subrange(start as int, i + 1));
        }
        i = i + 1;
    }
    let (a, b) = trim_bounds(cs, start, hi);
    let piece = string_from(cs, a, b);
    proof {
        let cur = cs@.subrange(start as int, hi as int);
        assert(cs@.subrange(hi as int, hi as int) == Seq::<char>::empty());
        assert(split_from(Seq::<char>::empty(), ',', cur) == seq![cur]);
        assert(trim_all(seq![cur]) == seq![trim(cur)]);
        assert(key_views(out@.push(piece)) == key_views(out@).push(piece@));
        assert(key_views(out@).push(piece@) == key_views(out@) + seq![trim(cur)]);
    }
    out.push(piece);
    out
}

/// The position of the first `c` in `cs[lo..hi]`, or `hi`.
fn find_char(cs: &Vec<char>, lo: usize, hi: usize, c: char) -> (r: usize)
    requires
        lo <= hi <= cs@.len(),
    ensures
        lo <= r <= hi,
        before_first(cs@.subrange(lo as int, hi as int), c) == cs@.subrange(lo as int, r as int),
        r < hi ==> cs@[r as int] == c,
        r == hi ==> !cs@.subrange(lo as int, hi as int).contains(c),
{
    let mut i = lo;
    while i < hi && cs[i] != c
        invariant
            lo <= i <= hi <= cs@.len(),
            forall|j: int| lo <= j < i ==> cs@[j] != c,
        decreases hi - i,
    {
        i = i + 1;
    }
    proof {
        lemma_before_first(cs@.subrange(lo as int, hi as int), c, i - lo);
        assert(cs@.subrange(lo as int, hi as int).take(i - lo) == cs@.subrange(lo as int, i as int));
        if i == hi && cs@.subrange(lo as int, hi as int).contains(c) {
            let j = choose|j: int| 0 <= j < hi - lo && cs@.subrange(lo as int, hi as int)[j] == c;
            assert(cs@[lo + j] == c);
        }
    }
    i
}

proof fn lemma_before_first(s: Seq<char>, c: char, i: int)
    requires
        0 <= i <= s.len(),
        forall|j: int| 0 <= j < i ==> s[j] != c,
        i < s.len() ==> s[i] == c,
    ensures
        before_first(s, c) == s.take(i),
    decreases s.len(),
{
    if i > 0 {
        lemma_before_first(s.drop_first(), c, i - 1);
        assert(seq![s[0]] + s.drop_first().take(i - 1) == s.take(i));
    } else {
        assert(s.take(0) == Seq::<char>::empty());
    }
}

/// Reads one line of a result listing.
pub fn parse_result_line(line: &str) -> (r: ResultLine)
    ensures
        r.view() == line_meaning(line@),
{
    let cs = chars_of(line);
    let n = cs.len();
    let (a, b) = trim_bounds(&cs, 0, n);
    assert(cs@.subrange(0, n as int) == line@);
    let ghost t = cs@.subrange(a as int, b as int);
    let dw: Vec<char> = vec!['d', 'a', 't', 'a', 's', 'e', 't'];
    assert(dw@ == dataset_word());
    assert(dw@.subrange(0, 7) == dw@);
    if b - a >= 7 && matches_at(&cs, b - 7, &dw, 0, 7) {
        assert(t.skip(t.len() - 7) == cs@.subrange(b - 7, b as int));
        let mut hi = b;
        while hi - a >= 7 && matches_at(&cs, hi - 7, &dw, 0, 7)
            invariant
                a <= hi <= b <= cs@.len(),
                dw@ == dataset_word(),
                dw@.subrange(0, 7) == dw@,
                t == cs@.subrange(a as int, b as int),
                strip_suffixes(t, dataset_word()) == strip_suffixes(cs@.subrange(a as int, hi as int), dataset_word()),
            decreases hi,
        {
            let ghost u = cs@.subrange(a as int, hi as int);
            assert(u.skip(u.len() - 7) == cs@.subrange(hi - 7, hi as int));
            assert(u.take(u.len() - 7) == cs@.subrange(a as int, hi - 7));
            hi = hi - 7;
        }
        proof {
            let u = cs@.subrange(a as int, hi as int);
            if u.len() >= 7 {
                assert(u.skip(u.len() - 7) == cs@.subrange(hi - 7, hi as int));
            }
        }
        let (x, y) = trim_bounds(&cs, a, hi);
        return ResultLine::Dataset { name: string_from(&cs, x, y) };
    }
    proof {
        if t.len() >= 7 {
            assert(t.skip(t.len() - 7) == cs@.subrange(b - 7, b as int));
        }
    }
    let p = find_char(&cs, a, b, ':');
    if p == b {
        return ResultLine::Ignored;
    }
    assert(t[p - a] == ':');
    assert(t.contains(':'));
    assert(before_first(t, ':') == cs@.subrange(a as int, p as int));
    assert(t.skip(p - a + 1) == cs@.subrange(p + 1, b as int));
    let (va, vb) = trim_bounds(&cs, p + 1, b);
    let ghost v = cs@.subrange(va as int, vb as int);
    proof {
        if vb - va >= 2 {
            assert(v[0] == cs@[va as int]);
            assert(v.last() == cs@[vb - 1]);
        }
    }
    if vb - va >= 2 && cs[va] == '[' && cs[vb - 1] == ']' {
        let (ra, rb) = trim_bounds(&cs, a, p);
        let result = string_from(&cs, ra, rb);
        let values = split_trimmed(&cs, va + 1, vb - 1);
        assert(v.subrange(1, v.len() - 1) == cs@.subrange(va + 1, vb - 1));
        ResultLine::Values { result, values }
    } else {
        ResultLine::Malformed
    }
}

/// One result of one dataset, with the benchmark and module it was run for.
#[derive(Clone, Debug)]
pub struct DataEntry {
    pub benchmark: String,
    pub module: String,
    pub dataset: String,
    pub result: String,
    pub values: Vec<String>,
}

pub ghost struct DataEntryView {
    pub benchmark: Seq<char>,
    pub module: Seq<char>,
    pub dataset: Seq<char>,
    pub result: Seq<char>,
    pub values: Seq<Seq<char>>,
}

impl View for DataEntry {
    type V = DataEntryView;

    open spec fn view(&self) -> DataEntryView {
        DataEntryView {
            benchmark: self.benchmark@,
            module: self.module@,
            dataset: self.dataset@,
            result: self.result@,
            values: key_views(self.values@),
        }
    }
}

pub open spec fn entry_views(s: Seq<DataEntry>) -> Seq<DataEntryView> {
    s.map_values(|e: DataEntry| e@)
}

/// The entries of `lines`, where `dataset` is the dataset named last before
/// them (empty before any header).
pub open spec fn entries_from(
    lines: Seq<Seq<char>>,
    dataset: Seq<char>,
    benchmark: Seq<char>,
    module: Seq<char>,
) -> Seq<DataEntryView>
    decreases lines.len(),
{
    if lines.len() == 0 {
        Seq::empty()
    } else {
        let rest = lines.drop_first();
        match line_meaning(lines[0]) {
            ResultLineView::Dataset { name } => entries_from(rest, name, benchmark, module),
            ResultLineView::Values { result, values } => seq![
                DataEntryView { benchmark, module, dataset, result, values },
            ] + entries_from(rest, dataset, benchmark, module),
            _ => entries_from(rest, dataset, benchmark, module),
        }
    }
}

/// The positions of the malformed result lines among `lines`.
pub open spec fn malformed_positions(lines: Seq<Seq<char>>) -> Seq<int>
    decreases lines.len(),
{
    if lines.len() == 0 {
        Seq::empty()
    } else {
        malformed_positions(lines.drop_last()) + (if line_meaning(lines.last()) is Malformed {
            seq![lines.len() - 1]
        } else {
            Seq::empty()
        })
    }
}

/// Reads a result listing line by line: one entry per result line, tagged
/// with the benchmark, the module and the dataset named last before it; and
/// the positions of the result lines whose values are malformed.
pub fn parse_results(lines: &Vec<String>, benchmark: &str, module: &str) -> (r: (
    Vec<DataEntry>,
    Vec<usize>,
))
    ensures
        entry_views(r.0@) == entries_from(key_views(lines@), Seq::empty(), benchmark@, module@),
        r.1@.map_values(|i: usize| i as int) == malformed_positions(key_views(lines@)),
{
    let ghost all = key_views(lines@);
    let ghost target = entries_from(all, Seq::empty(), benchmark@, module@);
    let mut entries: Vec<DataEntry> = Vec::new();
    let mut malformed: Vec<usize> = Vec::new();
    let mut dataset = String::new();
    let mut i: usize = 0;
    assert(all.skip(0) == all);
    assert(entry_views(entries@) + target == target);
    assert(all.take(0) == Seq::<Seq<char>>::empty());
    assert(malformed@.map_values(|i: usize| i as int) == Seq::<int>::empty());
    while i < lines.len()
        invariant
            i <= lines@.len(),
            all == key_views(lines@),
            target == entries_from(all, Seq::empty(), benchmark@, module@),
            entry_views(entries@) + entries_from(all.skip(i as int), dataset@, benchmark@, module@) == target,
            malformed@.map_values(|i: usize| i as int) == malformed_positions(all.take(i as int)),
        decreases lines@.len() - i,
    {
        let ghost rest = all.skip(i as int);
        assert(rest[0] == lines@[i as int]@);
        assert(rest.drop_first() == all.skip(i + 1));
        assert(all.take(i + 1).drop_last() == all.take(i as int));
        assert(all.take(i + 1).last() == lines@[i as int]@);
        let parsed = parse_result_line(lines[i].as_str());
        match parsed {
            ResultLine::Dataset { name } => {
                dataset = name;
                assert(malformed@.map_values(|i: usize| i as int) + Seq::<int>::empty()
                    == malformed@.map_values(|i: usize| i as int));
            },
            ResultLine::Values { result, values } => {
                let e = DataEntry {
                    benchmark: String::from_str(benchmark),
                    module: String::from_str(module),
                    dataset: dataset.clone(),
                    result,
                    values,
                };
                proof {
                    assert(entry_views(entries@.push(e)) == entry_views(entries@).push(e@));
                    assert(entry_views(entries@).push(e@) + entries_from(all.skip(i + 1), dataset@, benchmark@, module@)
                        == entry_views(entries@) + (seq![e@] + entries_from(all.skip(i + 1), dataset@, benchmark@, module@)));
                    assert(malformed@.map_values(|i: usize| i as int) + Seq::<int>::empty()
                        == malformed@.map_values(|i: usize| i as int));
                }
                entries.push(e);
            },
            ResultLine::Malformed => {
                proof {
                    assert(malformed@.push(i).map_values(|j: usize| j as int) == malformed@.map_values(
                        |j: usize| j as int,
                    ).push(i as int));
                    assert(malformed@.map_values(|j: usize| j as int).push(i as int) == malformed@.map_values(
                        |j: usize| j as int,
                    ) + seq![all.take(i + 1).len() - 1]);
                }
                malformed.push(i);
            },
            ResultLine::Ignored => {
                assert(malformed@.map_values(|i: usize| i as int) + Seq::<int>::empty()
                    == malformed@.map_values(|i: usize| i as int));
            },
        }
        i = i + 1;
    }
    assert(all.take(lines@.len() as int) == all);
    assert(entry_views(entries@) + Seq::<DataEntryView>::empty() == entry_views(entries@));
    (entries, malformed)
}

} // verus!
