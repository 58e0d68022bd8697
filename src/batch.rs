use vstd::prelude::*;
use vstd::multiset::Multiset;
use crate::cli::Options;
use crate::count::{added, Count, Counts};
use crate::error::Error;
use crate::format::spells;

verus! {

broadcast use vstd::seq_lib::group_to_multiset_ensures, vstd::multiset::group_multiset_axioms;

/// The outcome of counting one input, with the label it is reported under.
pub type Entry = (Result<Counts, Error>, String);

/// Where the inputs to count come from.
#[derive(Debug)]
pub enum Inputs {
    /// A NUL-separated list of paths read from standard input.
    ListFromStdin,
    /// A NUL-separated list of paths read from the named file.
    ListFromFile(String),
    /// The paths given directly.
    Paths(Vec<String>),
    /// Standard input itself, counted as one anonymous input.
    Stdin,
}

pub open spec fn dash() -> Seq<char> {
    seq!['-']
}

pub open spec fn stdin_name() -> Seq<char> {
    seq!['S', 't', 'd', 'i', 'n']
}

/// Decides where the inputs come from. A path list together with paths
/// given directly is a configuration error; a path list named `-` is read
/// from standard input; with neither, standard input itself is counted.
pub fn select_inputs(files0_from: Option<String>, files: Vec<String>) -> (r: Result<Inputs, Error>)
    ensures
        r is Err <==> files0_from is Some && files@.len() > 0,
        r matches Err(e) ==> e matches Error::CUSTOM(_),
        files@.len() == 0 ==> match files0_from {
            Some(f) => if f@ == dash() {
                r matches Ok(Inputs::ListFromStdin)
            } else {
                (r matches Ok(Inputs::ListFromFile(g)) && g@ == f@)
            },
            None => (r matches Ok(Inputs::Stdin)),
        },
        files0_from is None && files@.len() > 0 ==> (r matches Ok(Inputs::Paths(p)) && p@ == files@),
{
    match files0_from {
        Some(from) => {
            if files.len() > 0 {
                return Err(Error::CUSTOM("file operands cannot be combined with --files0-from".to_owned()));
            }
            let stdin_marker = ['-'];
            assert(stdin_marker@ =~= dash());
            if spells(from.as_str(), &stdin_marker) {
                Ok(Inputs::ListFromStdin)
            } else {
                Ok(Inputs::ListFromFile(from))
            }
        },
        None => {
            if files.len() > 0 {
                Ok(Inputs::Paths(files))
            } else {
                Ok(Inputs::Stdin)
            }
        },
    }
}

/// The options that the report uses: when standard input itself is counted,
/// the totals row is always shown.
pub fn resolve_options(opts: Options, inputs: &Inputs) -> (r: Options)
    ensures
        r.bytes == opts.bytes && r.chars == opts.chars && r.words == opts.words && r.lines == opts.lines,
        r.show_totals == (opts.show_totals || inputs is Stdin),
{
    let forced = match inputs {
        Inputs::Stdin => true,
        _ => false,
    };
    Options {
        bytes: opts.bytes,
        chars: opts.chars,
        words: opts.words,
        lines: opts.lines,
        show_totals: opts.show_totals || forced,
    }
}

/// The label under which standard input is reported.
pub fn stdin_label() -> (r: String)
    ensures
        r@ == stdin_name(),
{
    let r = "Stdin".to_owned();
    proof {
        reveal_strlit("Stdin");
        assert(r@ =~= stdin_name());
    }
    r
}

/// Lexicographic order of labels, by Unicode scalar value.
pub open spec fn label_lt(a: Seq<char>, b: Seq<char>) -> bool
    decreases a.len(),
{
    if b.len() == 0 {
        false
    } else if a.len() == 0 {
        true
    } else if a[0] != b[0] {
        (a[0] as u32) < (b[0] as u32)
    } else {
        label_lt(a.drop_first(), b.drop_first())
    }
}

pub proof fn lemma_label_lt_asym(a: Seq<char>, b: Seq<char>)
    ensures
        label_lt(a, b) ==> !label_lt(b, a),
    decreases a.len(),
{
    if a.len() > 0 && b.len() > 0 && a[0] == b[0] {
        lemma_label_lt_asym(a.drop_first(), b.drop_first());
    }
}

pub proof fn lemma_label_lt_trans(a: Seq<char>, b: Seq<char>, c: Seq<char>)
    ensures
        label_lt(a, b) && label_lt(b, c) ==> label_lt(a, c),
    decreases a.len(),
{
    if a.len() > 0 && b.len() > 0 && c.len() > 0 {
        lemma_label_lt_trans(a.drop_first(), b.drop_first(), c.drop_first());
    }
}

pub proof fn lemma_label_lt_total(a: Seq<char>, b: Seq<char>)
    ensures
        !label_lt(a, b) && !label_lt(b, a) ==> a == b,
    decreases a.len(),
{
    if a.len() > 0 && b.len() > 0 {
        lemma_label_lt_total(a.drop_first(), b.drop_first());
        vstd::utf8::char_u32_cast(a[0], a[0] as u32);
        vstd::utf8::char_u32_cast(b[0], b[0] as u32);
        if a.drop_first() == b.drop_first() && a[0] == b[0] {
            assert(a =~= seq![a[0]] + a.drop_first());
            assert(b =~= seq![b[0]] + b.drop_first());
        }
    } else if a.len() == 0 && b.len() == 0 {
        assert(a =~= b);
    }
}

/// "Not after" is transitive.
pub proof fn lemma_label_le_trans(a: Seq<char>, b: Seq<char>, c: Seq<char>)
    ensures
        !label_lt(b, a) && !label_lt(c, b) ==> !label_lt(c, a),
{
    lemma_label_lt_total(a, b);
    lemma_label_lt_trans(c, a, b);
    lemma_label_lt_asym(a, b);
}

/// Whether label `a` comes strictly before label `b`.
pub fn label_less(a: &str, b: &str) -> (r: bool)
    ensures
        r == label_lt(a@, b@),
{
    let n = a.unicode_len();
    let m = b.unicode_len();
    let mut i: usize = 0;
    assert(a@.subrange(0, n as int) =~= a@);
    assert(b@.subrange(0, m as int) =~= b@);
    while i < n && i < m && a.get_char(i) == b.get_char(i)
        invariant
            n == a@.len(),
            m == b@.len(),
            i <= n,
            i <= m,
            label_lt(a@, b@) == label_lt(a@.subrange(i as int, n as int), b@.subrange(i as int, m as int)),
        decreases n - i,
    {
        proof {
            let sa = a@.subrange(i as int, n as int);
            let sb = b@.subrange(i as int, m as int);
            assert(sa.drop_first() =~= a@.subrange(i + 1, n as int));
            assert(sb.drop_first() =~= b@.subrange(i + 1, m as int));
        }
        i = i + 1;
    }
    if i == m {
        false
    } else if i == n {
        true
    } else {
        (a.get_char(i) as u32) < (b.get_char(i) as u32)
    }
}

/// Entries in ascending order of their labels.
pub open spec fn sorted_by_path(s: Seq<Entry>) -> bool {
    forall|i: int, j: int| 0 <= i < j < s.len() ==> !label_lt(#[trigger] s[j].1@, #[trigger] s[i].1@)
}

/// Orders the entries by label, ascending; entries with equal labels keep
/// their relative order.
pub fn sort_by_path(entries: Vec<Entry>) -> (r: Vec<Entry>)
    ensures
        sorted_by_path(r@),
        r@.to_multiset() == entries@.to_multiset(),
{
    let mut rest = entries;
    let mut out: Vec<Entry> = Vec::new();
    assert(out@.to_multiset() =~= Multiset::empty());
    assert(out@.to_multiset().add(rest@.to_multiset()) =~= entries@.to_multiset());
    while rest.len() > 0
        invariant
            sorted_by_path(out@),
            out@.to_multiset().add(rest@.to_multiset()) == entries@.to_multiset(),
        decreases rest@.len(),
    {
        let ghost before = rest@;
        let e = rest.pop().unwrap();
        proof {
            assert(before =~= rest@.push(e));
        }
        let mut pos: usize = 0;
        while pos < out.len() && label_less(out[pos].1.as_str(), e.1.as_str())
            invariant
                pos <= out@.len(),
                forall|k: int| 0 <= k < pos ==> label_lt(#[trigger] out@[k].1@, e.1@),
            decreases out@.len() - pos,
        {
            pos = pos + 1;
        }
        let ghost old_out = out@;
        out.insert(pos, e);
        proof {
            let s = out@;
            assert(s =~= old_out.insert(pos as int, e));
            assert forall|i: int, j: int| 0 <= i < j < s.len() implies !label_lt(#[trigger] s[j].1@, #[trigger] s[i].1@) by {
                if j < pos {
                    assert(s[i] == old_out[i] && s[j] == old_out[j]);
                } else if j == pos {
                    assert(s[i] == old_out[i]);
                    lemma_label_lt_asym(old_out[i].1@, e.1@);
                } else if i > pos {
                    assert(s[i] == old_out[i - 1] && s[j] == old_out[j - 1]);
                } else if i == pos {
                    assert(s[j] == old_out[j - 1]);
                    assert(!label_lt(old_out[pos as int].1@, e.1@));
                    if j - 1 > pos {
                        assert(!label_lt(old_out[j - 1].1@, old_out[pos as int].1@));
                    }
                    lemma_label_le_trans(e.1@, old_out[pos as int].1@, old_out[j - 1].1@);
                } else {
                    assert(s[i] == old_out[i] && s[j] == old_out[j - 1]);
                }
            }
            assert(s.to_multiset() == old_out.to_multiset().insert(e));
            assert(out@.to_multiset().add(rest@.to_multiset()) =~= entries@.to_multiset());
        }
    }
    assert(rest@.to_multiset() =~= Multiset::empty());
    assert(out@.to_multiset() =~= entries@.to_multiset());
    out
}

/// The metrics, for the sums of the totals row.
#[derive(Debug, Clone, Copy, PartialEq, Eq, Structural)]
pub enum Metric {
    Bytes,
    Chars,
    Words,
    Lines,
}

pub open spec fn metric_of(c: Counts, m: Metric) -> Count {
    match m {
        Metric::Bytes => c.bytes,
        Metric::Chars => c.chars,
        Metric::Words => c.words,
        Metric::Lines => c.lines,
    }
}

/// The sum of one metric over the entries that were counted; a failed entry
/// or an absent metric adds nothing.
pub open spec fn total_of(entries: Seq<Entry>, m: Metric) -> nat
    decreases entries.len(),
{
    if entries.len() == 0 {
        0
    } else {
        total_of(entries.drop_last(), m) + match entries.last().0 {
            Ok(c) => added(metric_of(c, m)),
            Err(_) => 0,
        }
    }
}

/// The selected total, or absent when the metric is not reported.
pub open spec fn total_cell(entries: Seq<Entry>, m: Metric, on: bool) -> Count {
    if on {
        Count { val: Some(total_of(entries, m) as usize) }
    } else {
        Count { val: None }
    }
}

/// The totals row: for each reported metric, its sum over the entries that
/// were counted; failed entries add nothing.
pub fn totals(entries: &[Entry], opts: &Options) -> (r: Counts)
    requires
        total_of(entries@, Metric::Bytes) <= usize::MAX,
        total_of(entries@, Metric::Chars) <= usize::MAX,
        total_of(entries@, Metric::Words) <= usize::MAX,
        total_of(entries@, Metric::Lines) <= usize::MAX,
    ensures
        r.bytes == total_cell(entries@, Metric::Bytes, opts.bytes),
        r.chars == total_cell(entries@, Metric::Chars, opts.chars),
        r.words == total_cell(entries@, Metric::Words, opts.words),
        r.lines == total_cell(entries@, Metric::Lines, opts.lines),
{
    let mut b: usize = 0;
    let mut c: usize = 0;
    let mut w: usize = 0;
    let mut l: usize = 0;
    let mut i: usize = 0;
    while i < entries.len()
        invariant
            i <= entries@.len(),
            b == total_of(entries@.subrange(0, i as int), Metric::Bytes),
            c == total_of(entries@.subrange(0, i as int), Metric::Chars),
            w == total_of(entries@.subrange(0, i as int), Metric::Words),
            l == total_of(entries@.subrange(0, i as int), Metric::Lines),
            total_of(entries@, Metric::Bytes) <= usize::MAX,
            total_of(entries@, Metric::Chars) <= usize::MAX,
            total_of(entries@, Metric::Words) <= usize::MAX,
            total_of(entries@, Metric::Lines) <= usize::MAX,
        decreases entries@.len() - i,
    {
        proof {
            assert(entries@.subrange(0, i + 1).drop_last() =~= entries@.subrange(0, i as int));
            lemma_total_prefix(entries@, i + 1, Metric::Bytes);
            lemma_total_prefix(entries@, i + 1, Metric::Chars);
            lemma_total_prefix(entries@, i + 1, Metric::Words);
            lemma_total_prefix(entries@, i + 1, Metric::Lines);
        }
        match &entries[i].0 {
            Ok(counts) => {
                b = crate::count::accumulate(b, counts.bytes);
                c = crate::count::accumulate(c, counts.chars);
                w = crate::count::accumulate(w, counts.words);
                l = crate::count::accumulate(l, counts.lines);
            },
            Err(_) => {},
        }
        i = i + 1;
    }
    assert(entries@.subrange(0, i as int) =~= entries@);
    Counts {
        bytes: Count { val: if opts.bytes { Some(b) } else { None } },
        chars: Count { val: if opts.chars { Some(c) } else { None } },
        words: Count { val: if opts.words { Some(w) } else { None } },
        lines: Count { val: if opts.lines { Some(l) } else { None } },
    }
}

/// A total over a prefix never exceeds the total over the whole.
pub proof fn lemma_total_prefix(entries: Seq<Entry>, n: int, m: Metric)
    requires
        0 <= n <= entries.len(),
    ensures
        total_of(entries.subrange(0, n), m) <= total_of(entries, m),
    decreases entries.len(),
{
    if n < entries.len() {
        lemma_total_prefix(entries.drop_last(), n, m);
        assert(entries.drop_last().subrange(0, n) =~= entries.subrange(0, n));
    } else {
        assert(entries.subrange(0, n) =~= entries);
    }
}

} // verus!
