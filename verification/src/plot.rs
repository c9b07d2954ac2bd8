//! Visual comparison of recordings using gnuplot.
//!
//! This module lays out the data files and the gnuplot script, and says what
//! becomes of them once gnuplot has run. The script draws to a file with a
//! file-based terminal (`pngcairo` or `svg`), so it works headless without a
//! display. Writing the files and running gnuplot is left to the caller.

use vstd::arithmetic::div_mod::{
    lemma_div_basics, lemma_div_by_multiple, lemma_div_is_ordered, lemma_div_plus_one,
    lemma_fundamental_div_mod,
};
use vstd::arithmetic::mul::lemma_mul_is_commutative;
use vstd::prelude::*;
use vstd::string::*;

use crate::arithmetic::{
    add_up, all_widened, counted, deterministic, quotient, total, Arithmetic,
};
use crate::error::Error;
use crate::format::Recording;
use crate::number::{lesser, Double, Single, TEN, ZERO};
use crate::order::{ascending, find_greatest, find_least, greatest_of, least_of, sort_singles};
use crate::rendering::{shown_text, stable, Rendering};
use crate::stats::{percentile, percentile_sorted, widen_all};
use crate::text::{
    decimal, digit, double_quotes, join, joined, push_decimal, quotes_doubled, texts, to_decimal,
};

verus! {

/// Configuration of a plot.
#[derive(Debug, Clone)]
pub struct PlotConfig {
    /// Plot title. Defaults to the file labels when empty.
    pub title: String,
    /// Number of time buckets for the min/mean/max envelope.
    pub buckets: usize,
    /// Use a logarithmic current axis; useful when currents span decades.
    pub log_scale: bool,
    /// Keep the generated gnuplot script and data files next to the output
    /// image instead of deleting them.
    pub keep_data: bool,
}

impl Default for PlotConfig {
    fn default() -> (r: Self)
        ensures
            r.title@ == Seq::<char>::empty(),
            r.buckets == 1500,
            !r.log_scale,
            !r.keep_data,
    {
        PlotConfig { title: String::new(), buckets: 1500, log_scale: false, keep_data: false }
    }
}

/// A path as it stands between the single quotes of a gnuplot string.
pub fn gp_escape(path: &str) -> (r: String)
    ensures
        r@ == quotes_doubled(path@),
{
    double_quotes(path)
}

/// A text as it stands between the single quotes of a gnuplot string.
pub fn gp_quote(text: &str) -> (r: String)
    ensures
        r@ == quotes_doubled(text@),
{
    double_quotes(text)
}

/// The text of a single-quoted gnuplot string whose opening quote comes just
/// before `s`, and what follows its closing quote. Two quotes in a row stand
/// for one.
pub open spec fn read_quoted(s: Seq<char>) -> (Seq<char>, Seq<char>)
    decreases s.len(),
{
    if s.len() == 0 {
        (Seq::empty(), Seq::empty())
    } else if s[0] != '\'' {
        let (text, rest) = read_quoted(s.skip(1));
        (seq![s[0]] + text, rest)
    } else if s.len() >= 2 && s[1] == '\'' {
        let (text, rest) = read_quoted(s.skip(2));
        (seq!['\''] + text, rest)
    } else {
        (Seq::empty(), s.skip(1))
    }
}

/// Doubling the quotes of a text is doubling those of its first character, then
/// those of the rest.
proof fn lemma_quotes_doubled_front(t: Seq<char>)
    requires
        t.len() > 0,
    ensures
        quotes_doubled(t) == (if t[0] == '\'' {
            seq!['\'', '\'']
        } else {
            seq![t[0]]
        }) + quotes_doubled(t.skip(1)),
    decreases t.len(),
{
    if t.len() == 1 {
        reveal_with_fuel(quotes_doubled, 2);
        assert(t.drop_last() =~= Seq::<char>::empty());
        assert(t.skip(1) =~= Seq::<char>::empty());
        assert(quotes_doubled(t) =~= (if t[0] == '\'' {
            seq!['\'', '\'']
        } else {
            seq![t[0]]
        }) + quotes_doubled(t.skip(1)));
    } else {
        let front = t.drop_last();
        lemma_quotes_doubled_front(front);
        assert(front.skip(1) =~= t.skip(1).drop_last());
        assert(t.skip(1).last() == t.last());
        assert(quotes_doubled(t) =~= (if t[0] == '\'' {
            seq!['\'', '\'']
        } else {
            seq![t[0]]
        }) + quotes_doubled(t.skip(1)));
    }
}

/// Quoting protects a text: gnuplot reads it back as it was, and ends the
/// string where the script does.
pub proof fn law_quoted_text_reads_back(text: Seq<char>, rest: Seq<char>)
    requires
        rest.len() == 0 || rest[0] != '\'',
    ensures
        read_quoted(quotes_doubled(text) + seq!['\''] + rest) == (text, rest),
    decreases text.len(),
{
    let whole = quotes_doubled(text) + seq!['\''] + rest;
    if text.len() == 0 {
        assert(whole.skip(1) =~= rest);
        assert(read_quoted(whole).0 =~= text);
    } else {
        lemma_quotes_doubled_front(text);
        law_quoted_text_reads_back(text.skip(1), rest);
        let tail = quotes_doubled(text.skip(1)) + seq!['\''] + rest;
        if text[0] == '\'' {
            assert(whole.skip(2) =~= tail);
        } else {
            assert(whole.skip(1) =~= tail);
        }
        assert(seq![text[0]] + text.skip(1) =~= text);
    }
}

/// What is drawn of the samples of one stretch of time.
#[derive(Debug, Clone, Copy)]
pub struct Bucket {
    /// The middle of the stretch, in seconds.
    pub t_mid: Double,
    /// The lowest current.
    pub min: Double,
    /// The mean current.
    pub mean: Double,
    /// The highest current.
    pub max: Double,
}

/// The number of buckets that `n` samples go into, where `buckets` are wanted:
/// so many, or one for each sample where there are fewer samples.
pub open spec fn bucket_count(n: int, buckets: int) -> int {
    lesser(n, buckets)
}

/// Where the bucket `i` of `count` starts, and the one before it ends: the
/// buckets are as even as whole samples allow.
pub open spec fn bucket_start(n: int, count: int, i: int) -> int {
    i * n / count
}

/// The sample in the middle of the bucket `i`.
pub open spec fn bucket_middle(n: int, count: int, i: int) -> int {
    let start = bucket_start(n, count, i);
    start + (bucket_start(n, count, i + 1) - start) / 2
}

/// The bucket `i` of `count` of the samples.
pub open spec fn bucket<A: Arithmetic>(
    f: &A,
    samples: Seq<Single>,
    sps: u32,
    count: int,
    i: int,
) -> Bucket {
    let n = samples.len() as int;
    let start = bucket_start(n, count, i);
    let end = bucket_start(n, count, i + 1);
    let wide = all_widened(f, samples.subrange(start, end));
    Bucket {
        t_mid: quotient(f, counted(f, bucket_middle(n, count, i)), counted(f, sps as int)),
        min: least_of(wide),
        mean: quotient(f, total(f, Double { bits: ZERO }, wide), counted(f, end - start)),
        max: greatest_of(wide),
    }
}

/// The samples in `buckets` buckets of consecutive samples.
pub open spec fn buckets_of<A: Arithmetic>(
    f: &A,
    samples: Seq<Single>,
    sps: u32,
    buckets: int,
) -> Seq<Bucket> {
    let count = bucket_count(samples.len() as int, buckets);
    Seq::new(count as nat, |i: int| bucket(f, samples, sps, count, i))
}

/// Buckets follow each other without a gap, each with a sample at least.
pub(crate) proof fn lemma_bucket_starts(n: int, count: int, i: int)
    requires
        1 <= count <= n,
        0 <= i < count,
    ensures
        0 <= bucket_start(n, count, i) < bucket_start(n, count, i + 1) <= n,
        bucket_start(n, count, 0) == 0,
        bucket_start(n, count, count) == n,
{
    let a = i * n;
    let b = (i + 1) * n;
    assert(0 <= a && a + count <= b && b <= count * n) by (nonlinear_arith)
        requires
            a == i * n,
            b == (i + 1) * n,
            1 <= count <= n,
            0 <= i < count,
    ;
    lemma_div_is_ordered(a + count, b, count);
    lemma_div_plus_one(a, count);
    lemma_div_is_ordered(0, a, count);
    lemma_div_basics(count);
    assert(0 * n == 0) by (nonlinear_arith);
    lemma_div_is_ordered(b, count * n, count);
    lemma_mul_is_commutative(count, n);
    lemma_div_by_multiple(n, count);
}

/// Buckets start in order.
proof fn lemma_bucket_starts_grow(n: int, count: int, i: int, k: int)
    requires
        1 <= count <= n,
        0 <= i <= k,
    ensures
        bucket_start(n, count, i) <= bucket_start(n, count, k),
{
    assert(i * n <= k * n) by (nonlinear_arith)
        requires
            0 <= i <= k,
            0 <= n,
    ;
    lemma_div_is_ordered(i * n, k * n, count);
}

/// The buckets cover all samples: there are as many as wanted, unless there are
/// fewer samples; each sample is in exactly one; none is empty; and their
/// middles go forward in time.
pub proof fn law_buckets_cover_all_samples(n: int, buckets: int, j: int)
    requires
        0 <= j < n,
        buckets >= 1,
    ensures
        ({
            let count = bucket_count(n, buckets);
            let i = ((j + 1) * count - 1) / n;
            &&& n >= buckets ==> count == buckets
            &&& n < buckets ==> count == n
            &&& bucket_start(n, count, 0) == 0
            &&& bucket_start(n, count, count) == n
            &&& 0 <= i < count
            &&& bucket_start(n, count, i) <= j < bucket_start(n, count, i + 1)
            &&& forall|k: int|
                0 <= k < count && #[trigger] bucket_start(n, count, k) <= j < bucket_start(
                    n,
                    count,
                    k + 1,
                ) ==> k == i
            &&& forall|k: int|
                0 <= k < count ==> #[trigger] bucket_start(n, count, k) < bucket_start(
                    n,
                    count,
                    k + 1,
                )
            &&& forall|k: int|
                0 <= k < count - 1 ==> #[trigger] bucket_middle(n, count, k) < bucket_middle(
                    n,
                    count,
                    k + 1,
                )
        }),
{
    let count = bucket_count(n, buckets);
    let m = (j + 1) * count - 1;
    let i = m / n;
    lemma_bucket_starts(n, count, 0);
    assert(0 <= m < count * n) by (nonlinear_arith)
        requires
            m == (j + 1) * count - 1,
            0 <= j < n,
            count >= 1,
    ;
    lemma_fundamental_div_mod(m, n);
    assert(0 <= i < count && i * n <= m && m < (i + 1) * n) by (nonlinear_arith)
        requires
            m == n * i + m % n,
            0 <= m % n < n,
            0 <= m < count * n,
            n >= 1,
    ;
    lemma_div_is_ordered(i * n, (j + 1) * count - 1, count);
    lemma_div_is_ordered((j + 1) * count, (i + 1) * n, count);
    lemma_div_by_multiple(j + 1, count);
    assert(((j + 1) * count - 1) / count <= j) by {
        lemma_fundamental_div_mod(m, count);
        let q = m / count;
        assert(q <= j) by (nonlinear_arith)
            requires
                (j + 1) * count - 1 == count * q + m % count,
                0 <= m % count,
                count >= 1,
        ;
    }
    assert forall|k: int|
        0 <= k < count && #[trigger] bucket_start(n, count, k) <= j < bucket_start(
            n,
            count,
            k + 1,
        ) implies k == i by {
        if k < i {
            lemma_bucket_starts_grow(n, count, k + 1, i);
        } else if k > i {
            lemma_bucket_starts_grow(n, count, i + 1, k);
        }
    }
    assert forall|k: int| 0 <= k < count implies #[trigger] bucket_start(n, count, k)
        < bucket_start(n, count, k + 1) by {
        lemma_bucket_starts(n, count, k);
    }
    assert forall|k: int| 0 <= k < count - 1 implies #[trigger] bucket_middle(n, count, k)
        < bucket_middle(n, count, k + 1) by {
        lemma_bucket_starts(n, count, k);
        lemma_bucket_starts(n, count, k + 1);
    }
}

/// The samples in `buckets` buckets of consecutive samples, or one for each
/// sample where there are fewer.
pub fn envelope<A: Arithmetic>(f: &A, samples: &[Single], sps: u32, buckets: usize) -> (r: Vec<
    Bucket,
>)
    requires
        buckets >= 1,
    ensures
        r@.len() == bucket_count(samples@.len() as int, buckets as int),
        samples@.len() >= buckets ==> r@.len() == buckets,
        deterministic(f) ==> r@ == buckets_of(f, samples@, sps, buckets as int),
{
    let n: usize = samples.len();
    let count: usize = if n <= buckets {
        n
    } else {
        buckets
    };
    let rate = f.of_count(sps as u128);
    let mut r: Vec<Bucket> = Vec::new();
    let mut at: usize = 0;
    let mut i: usize = 0;
    assert(bucket_start(n as int, count as int, 0) == 0 || count == 0) by {
        if count >= 1 {
            lemma_bucket_starts(n as int, count as int, 0);
        }
    }
    while i < count
        invariant
            n == samples@.len(),
            i <= count <= n,
            r@.len() == i,
            count >= 1 ==> at == bucket_start(n as int, count as int, i as int),
            deterministic(f) ==> rate == counted(f, sps as int),
            deterministic(f) ==> forall|k: int|
                0 <= k < i ==> #[trigger] r@[k] == bucket(f, samples@, sps, count as int, k),
        decreases count - i,
    {
        proof {
            lemma_bucket_starts(n as int, count as int, i as int);
            assert(0 <= (i + 1) * n <= u128::MAX) by (nonlinear_arith)
                requires
                    0 <= i < n,
                    n <= u64::MAX,
            ;
        }
        let end: usize = ((i as u128 + 1) * n as u128 / count as u128) as usize;
        let wide = widen_all(f, vstd::slice::slice_subrange(samples, at, end));
        let len: usize = end - at;
        r.push(
            Bucket {
                t_mid: f.over(f.of_count((at + len / 2) as u128), rate),
                min: find_least(wide.as_slice()),
                mean: f.over(
                    add_up(f, Double { bits: ZERO }, wide.as_slice()),
                    f.of_count(len as u128),
                ),
                max: find_greatest(wide.as_slice()),
            },
        );
        at = end;
        i += 1;
    }
    proof {
        if deterministic(f) {
            assert(r@ =~= buckets_of(f, samples@, sps, buckets as int));
        }
    }
    r
}

/// The line of a bucket in an envelope file.
pub open spec fn bucket_line<R: Rendering>(f: &R, b: Bucket) -> Seq<char> {
    shown_text(f, b.t_mid) + " "@ + shown_text(f, b.min) + " "@ + shown_text(f, b.mean) + " "@
        + shown_text(f, b.max) + "\n"@
}

/// The lines of `buckets`.
pub open spec fn bucket_lines<R: Rendering>(f: &R, buckets: Seq<Bucket>) -> Seq<char>
    decreases buckets.len(),
{
    if buckets.len() == 0 {
        Seq::empty()
    } else {
        bucket_lines(f, buckets.drop_last()) + bucket_line(f, buckets.last())
    }
}

/// What an envelope file holds.
pub open spec fn envelope_text<F: Arithmetic + Rendering>(
    f: &F,
    samples: Seq<Single>,
    sps: u32,
    buckets: int,
    name: Seq<char>,
) -> Seq<char> {
    "# "@ + name + ": t_mid_s min_ua mean_ua max_ua\n"@ + bucket_lines(
        f,
        buckets_of(f, samples, sps, buckets),
    )
}

/// Downsample to `buckets` time buckets of (t_mid, min, mean, max).
pub fn envelope_data<F: Arithmetic + Rendering>(
    f: &F,
    rec: &Recording,
    buckets: usize,
    name: &str,
) -> (r: String)
    requires
        buckets >= 1,
    ensures
        deterministic(f) && stable(f) ==> r@ == envelope_text(
            f,
            rec.samples_ua@,
            rec.meta.sps,
            buckets as int,
            name@,
        ),
{
    let rows = envelope(f, rec.samples_ua.as_slice(), rec.meta.sps, buckets);
    let mut out = "# ".to_owned();
    out.append(name);
    out.append(": t_mid_s min_ua mean_ua max_ua\n");
    let ghost head = out@;
    assert(rows@.take(0) =~= Seq::<Bucket>::empty());
    assert(out@ =~= head + bucket_lines(f, rows@.take(0)));
    let mut i: usize = 0;
    while i < rows.len()
        invariant
            i <= rows@.len(),
            stable(f) ==> out@ == head + bucket_lines(f, rows@.take(i as int)),
        decreases rows@.len() - i,
    {
        assert(rows@.take(i + 1).drop_last() =~= rows@.take(i as int));
        let b = rows[i];
        out.append(f.shown(b.t_mid).as_str());
        out.append(" ");
        out.append(f.shown(b.min).as_str());
        out.append(" ");
        out.append(f.shown(b.mean).as_str());
        out.append(" ");
        out.append(f.shown(b.max).as_str());
        out.append("\n");
        i += 1;
        proof {
            if stable(f) {
                assert(out@ =~= head + bucket_lines(f, rows@.take(i as int)));
            }
        }
    }
    assert(rows@.take(i as int) =~= rows@);
    out
}

/// The percentile `i` tenths of a percent.
pub open spec fn tenths<A: Arithmetic>(f: &A, i: int) -> Double {
    quotient(f, counted(f, i), Double { bits: TEN })
}

/// The first `n` lines of a percentile-curve file.
pub open spec fn percentile_lines<F: Arithmetic + Rendering>(
    f: &F,
    sorted: Seq<Single>,
    n: nat,
) -> Seq<char>
    decreases n,
{
    if n == 0 {
        Seq::empty()
    } else {
        let pct = tenths(f, n - 1);
        percentile_lines(f, sorted, (n - 1) as nat) + (shown_text(f, percentile(f, sorted, pct))
            + " "@ + shown_text(f, pct) + "\n"@)
    }
}

/// What a percentile-curve file holds.
pub open spec fn percentile_text<F: Arithmetic + Rendering>(
    f: &F,
    samples: Seq<Single>,
    name: Seq<char>,
) -> Seq<char> {
    "# "@ + name + ": current_ua percent_of_samples_below\n"@ + percentile_lines(
        f,
        ascending(samples),
        1001,
    )
}

/// Percentile curve: (current µA, cumulative percent), 0..=100 in 0.1 steps.
pub fn percentile_data<F: Arithmetic + Rendering>(f: &F, rec: &Recording, name: &str) -> (r: String)
    ensures
        deterministic(f) && stable(f) ==> r@ == percentile_text(f, rec.samples_ua@, name@),
{
    let sorted = sort_singles(rec.samples_ua.as_slice());
    let mut out = "# ".to_owned();
    out.append(name);
    out.append(": current_ua percent_of_samples_below\n");
    let ghost head = out@;
    assert(out@ =~= head + percentile_lines(f, sorted@, 0));
    let mut i: usize = 0;
    while i <= 1000
        invariant
            i <= 1001,
            deterministic(f) && stable(f) ==> out@ == head + percentile_lines(
                f,
                sorted@,
                i as nat,
            ),
        decreases 1001 - i,
    {
        let pct = f.over(f.of_count(i as u128), Double { bits: TEN });
        out.append(f.shown(percentile_sorted(f, sorted.as_slice(), pct)).as_str());
        out.append(" ");
        out.append(f.shown(pct).as_str());
        out.append("\n");
        i += 1;
        proof {
            if deterministic(f) && stable(f) {
                assert(out@ =~= head + percentile_lines(f, sorted@, i as nat));
            }
        }
    }
    out
}

/// Where a plot goes. What of a path is its extension is a question of the
/// platform, which separates components in its own way, so it is answered once.
#[derive(Debug, Clone)]
pub struct OutputPath {
    /// The path.
    pub text: String,
    /// The extension of its last component, if that has one.
    pub extension: Option<String>,
}

/// Whether `path` is the name of a file on every platform: a single component,
/// which refers to no directory.
pub open spec fn plain_name(path: Seq<char>) -> bool {
    &&& path.len() > 0
    &&& forall|i: int|
        0 <= i < path.len() ==> #[trigger] path[i] != '/' && path[i] != '\\' && path[i] != ':'
    &&& path != seq!['.']
    &&& path != seq!['.', '.']
}

/// Whether `path` holds `extension` behind a dot, with no dot in it.
pub open spec fn holds_extension(path: Seq<char>, extension: Seq<char>) -> bool {
    &&& !extension.contains('.')
    &&& exists|k: int|
        0 <= k && k + 1 + extension.len() <= path.len() && #[trigger] path[k] == '.'
            && extension == path.subrange(k + 1, k + 1 + extension.len())
}

/// Whether `extension` is that of the file name `name`: what follows its last
/// dot, where that is not its first character.
pub open spec fn is_name_extension(name: Seq<char>, extension: Option<Seq<char>>) -> bool {
    match extension {
        Some(e) => !e.contains('.') && name.len() > e.len() + 1 && name[name.len() - e.len() - 1]
            == '.' && e == name.skip(name.len() - e.len()),
        None => forall|k: int| 0 < k < name.len() ==> #[trigger] name[k] != '.',
    }
}

/// Whether what follows the slash at `k` is a name with a dot behind its first
/// character, and nothing before it depends on the platform: no backslash, no
/// colon, and not two slashes at the start.
pub open spec fn ends_in_name(path: Seq<char>, k: int) -> bool {
    &&& 0 <= k < path.len()
    &&& path[k] == '/'
    &&& plain_name(path.skip(k + 1))
    &&& exists|j: int| k + 1 < j < path.len() && #[trigger] path[j] == '.'
    &&& forall|i: int| 0 <= i < k ==> #[trigger] path[i] != '\\' && path[i] != ':'
    &&& !(path.len() >= 2 && path[0] == '/' && path[1] == '/')
}

/// Whether nothing but slashes can separate the components of `path`, and it
/// does not start with a prefix on any platform.
pub open spec fn only_slashes(path: Seq<char>) -> bool {
    &&& forall|i: int| 0 <= i < path.len() ==> #[trigger] path[i] != '\\' && path[i] != ':'
    &&& !(path.len() >= 2 && path[0] == '/' && path[1] == '/')
}

/// What follows the last slash.
pub open spec fn behind_slash(path: Seq<char>) -> Seq<char>
    decreases path.len(),
{
    if path.len() == 0 || path.last() == '/' {
        Seq::empty()
    } else {
        behind_slash(path.drop_last()).push(path.last())
    }
}

/// The file name of a path whose components are separated by slashes. Slashes at
/// its end, and lone dots behind a slash there, name nothing; the current and
/// the parent directory have no file name.
pub open spec fn slash_name(path: Seq<char>) -> Option<Seq<char>>
    decreases path.len(),
{
    let n = path.len();
    if n == 0 {
        None
    } else if path.last() == '/' || (n >= 2 && path.last() == '.' && path[n - 2] == '/') {
        slash_name(path.drop_last())
    } else {
        own_name(behind_slash(path))
    }
}

/// The file name of a single component.
pub open spec fn own_name(component: Seq<char>) -> Option<Seq<char>> {
    if component.len() == 0 || component == seq!['.'] || component == seq!['.', '.'] {
        None
    } else {
        Some(component)
    }
}

/// Whether `extension` is that of a file name, or nothing where there is none.
pub open spec fn is_extension(name: Option<Seq<char>>, extension: Option<Seq<char>>) -> bool {
    match name {
        Some(n) => is_name_extension(n, extension),
        None => extension is None,
    }
}

/// What holds of the extension of `path` on every platform.
///
/// It follows a dot and holds none. Of a path that is a file name, and of one
/// that ends in a slash and a name with a dot behind its first character, it is
/// the extension of that name: where slashes do not separate components, the
/// last dot of the path is in that name all the same. Of any path that nothing
/// but slashes can separate, it is the extension of the file name behind the
/// last slash, or, where slashes do not separate components, of the whole path.
pub open spec fn extends(path: Seq<char>, extension: Option<Seq<char>>) -> bool {
    &&& extension matches Some(e) ==> holds_extension(path, e)
    &&& plain_name(path) ==> is_name_extension(path, extension)
    &&& forall|k: int| #[trigger]
        ends_in_name(path, k) ==> is_name_extension(path.skip(k + 1), extension)
    &&& only_slashes(path) ==> is_extension(slash_name(path), extension) || is_extension(
        own_name(path),
        extension,
    )
}

/// The extension of a path: `std::path::Path::extension`.
///
/// That is the part of the file name behind its last dot, and nothing where the
/// file name has no dot but for one that starts it, or where there is no file
/// name. The file name is the last component, without what names nothing behind
/// it. Slashes separate components on Unix and on Windows, backslashes on
/// Windows, and a Windows path may start with a prefix such as `C:` or
/// `//server/share`. Claimed is what holds on every platform ([`extends`]); of a
/// path with a backslash, a colon or two slashes at its start, what its
/// components are is left to the platform.
#[verifier::external_body]
fn path_extension(path: &str) -> (r: Option<String>)
    ensures
        extends(path@, text_of(r)),
{
    std::path::Path::new(path).extension().map(|e| e.to_string_lossy().into_owned())
}

/// The text of an optional string.
pub open spec fn text_of(s: Option<String>) -> Option<Seq<char>> {
    match s {
        Some(t) => Some(t@),
        None => None,
    }
}

impl OutputPath {
    /// The path `text` with its extension.
    pub fn new(text: &str) -> (r: OutputPath)
        ensures
            r.text@ == text@,
            extends(text@, r.extension_text()),
    {
        OutputPath { text: text.to_owned(), extension: path_extension(text) }
    }

    /// The extension as text.
    pub open spec fn extension_text(self) -> Option<Seq<char>> {
        text_of(self.extension)
    }

    /// Whether the extension is `svg`, in upper or lower case.
    pub fn is_svg(&self) -> (r: bool)
        ensures
            r == names_svg(self.extension_text()),
    {
        match &self.extension {
            Some(e) => {
                let e = e.as_str();
                if e.unicode_len() != 3 {
                    return false;
                }
                let s: char = e.get_char(0);
                let v: char = e.get_char(1);
                let g: char = e.get_char(2);
                (s == 's' || s == 'S') && (v == 'v' || v == 'V') && (g == 'g' || g == 'G')
            },
            None => false,
        }
    }
}

/// Whether an extension is `svg`, in upper or lower case.
pub open spec fn names_svg(extension: Option<Seq<char>>) -> bool {
    match extension {
        Some(e) => {
            &&& e.len() == 3
            &&& e[0] == 's' || e[0] == 'S'
            &&& e[1] == 'v' || e[1] == 'V'
            &&& e[2] == 'g' || e[2] == 'G'
        },
        None => false,
    }
}

/// The color of the series `i`.
pub open spec fn color_text(i: int) -> Seq<char> {
    if i == 0 {
        "#1f77b4"@
    } else {
        "#d62728"@
    }
}

/// The color of the series `i`.
fn color(i: usize) -> (r: &'static str)
    ensures
        r@ == color_text(i as int),
{
    if i == 0 {
        "#1f77b4"
    } else {
        "#d62728"
    }
}

/// The gnuplot terminal for an output file with the given extension.
pub open spec fn terminal_text(extension: Option<Seq<char>>) -> Seq<char> {
    if names_svg(extension) {
        "svg size 1400,900 dynamic font 'sans,11'"@
    } else {
        "pngcairo size 1400,900 font ',11'"@
    }
}

/// What a plot is titled: the configured title, or the names of the series.
pub open spec fn title_text(title: Seq<char>, names: Seq<Seq<char>>) -> Seq<char> {
    if title.len() == 0 {
        joined(names, " vs "@)
    } else {
        title
    }
}

/// The band of the series `i` between its lowest and highest currents.
pub open spec fn band_text(base: Seq<char>, i: int) -> Seq<char> {
    "'"@ + base + "."@ + decimal(i as nat)
        + ".env.dat' using 1:2:4 with filledcurves fc rgb '"@ + color_text(i)
        + "' fs transparent solid 0.15 notitle"@
}

/// The line of the series `i` through its mean currents.
pub open spec fn mean_text(base: Seq<char>, i: int, name: Seq<char>) -> Seq<char> {
    "'"@ + base + "."@ + decimal(i as nat) + ".env.dat' using 1:3 with lines lc rgb '"@
        + color_text(i) + "' lw 1.5 title '"@ + quotes_doubled(name) + " (mean)'"@
}

/// The percentile curve of the series `i`.
pub open spec fn curve_text(base: Seq<char>, i: int, name: Seq<char>) -> Seq<char> {
    "'"@ + base + "."@ + decimal(i as nat) + ".cdf.dat' using 1:2 with lines lc rgb '"@
        + color_text(i) + "' lw 1.5 title '"@ + quotes_doubled(name) + "'"@
}

/// What the first panel draws: for each series its band, then its mean.
pub open spec fn envelope_plots(base: Seq<char>, names: Seq<Seq<char>>) -> Seq<Seq<char>>
    decreases names.len(),
{
    if names.len() == 0 {
        Seq::empty()
    } else {
        let i = names.len() - 1;
        envelope_plots(base, names.drop_last()).push(band_text(base, i)).push(
            mean_text(base, i, names.last()),
        )
    }
}

/// What the second panel draws: the curve of each series.
pub open spec fn curve_plots(base: Seq<char>, names: Seq<Seq<char>>) -> Seq<Seq<char>> {
    Seq::new(names.len(), |i: int| curve_text(base, i, names[i]))
}

/// `text` where `wanted`, else nothing.
pub open spec fn only_if(wanted: bool, text: Seq<char>) -> Seq<char> {
    if wanted {
        text
    } else {
        Seq::empty()
    }
}

/// The gnuplot script of a plot.
pub open spec fn script_text(
    names: Seq<Seq<char>>,
    output: Seq<char>,
    extension: Option<Seq<char>>,
    title: Seq<char>,
    log_scale: bool,
) -> Seq<char> {
    let base = quotes_doubled(output);
    "set terminal "@ + terminal_text(extension) + "\nset output '"@ + base
        + "'\nset multiplot layout 2,1 title '"@ + quotes_doubled(title_text(title, names))
        + "'\nset grid\nset key left top\nset xlabel 'time (s)'\nset ylabel 'current (µA)'\n"@
        + only_if(log_scale, "set logscale y\n"@) + "plot "@ + joined(
        envelope_plots(base, names),
        ", \\\n     "@,
    ) + "\nset xlabel 'current (µA)'\nset ylabel '% of samples below'\nset yrange [0:100]\n"@
        + only_if(log_scale, "unset logscale y\nset logscale x\n"@) + "plot "@ + joined(
        curve_plots(base, names),
        ", \\\n     "@,
    ) + "\nunset multiplot\n"@
}

/// Begins a series with the name of its data file.
fn series_start(base: &str, i: usize) -> (r: String)
    ensures
        r@ == "'"@ + base@ + "."@ + decimal(i as nat),
{
    let mut out = "'".to_owned();
    out.append(base);
    out.append(".");
    push_decimal(&mut out, i as u128);
    out
}

/// The gnuplot script that draws the named series to the file `output`.
pub fn script(names: &Vec<String>, output: &OutputPath, config: &PlotConfig) -> (r: String)
    requires
        names@.len() <= 2,
    ensures
        r@ == script_text(
            texts(names@),
            output.text@,
            output.extension_text(),
            config.title@,
            config.log_scale,
        ),
{
    let base = gp_escape(output.text.as_str());
    let mut bands: Vec<String> = Vec::new();
    let mut curves: Vec<String> = Vec::new();
    let ghost all = texts(names@);
    let mut i: usize = 0;
    assert(all.take(0) =~= Seq::<Seq<char>>::empty());
    assert(texts(bands@) =~= envelope_plots(base@, all.take(0)));
    while i < names.len()
        invariant
            i <= names@.len(),
            all == texts(names@),
            texts(bands@) == envelope_plots(base@, all.take(i as int)),
            texts(curves@) == curve_plots(base@, all.take(i as int)),
        decreases names@.len() - i,
    {
        let ghost next = all.take(i + 1);
        assert(next.drop_last() =~= all.take(i as int));
        let name = gp_quote(names[i].as_str());
        let mut band = series_start(base.as_str(), i);
        band.append(".env.dat' using 1:2:4 with filledcurves fc rgb '");
        band.append(color(i));
        band.append("' fs transparent solid 0.15 notitle");
        let mut mean = series_start(base.as_str(), i);
        mean.append(".env.dat' using 1:3 with lines lc rgb '");
        mean.append(color(i));
        mean.append("' lw 1.5 title '");
        mean.append(name.as_str());
        mean.append(" (mean)'");
        let mut curve = series_start(base.as_str(), i);
        curve.append(".cdf.dat' using 1:2 with lines lc rgb '");
        curve.append(color(i));
        curve.append("' lw 1.5 title '");
        curve.append(name.as_str());
        curve.append("'");
        let ghost old_bands = bands@;
        let ghost old_curves = curves@;
        bands.push(band);
        bands.push(mean);
        curves.push(curve);
        proof {
            assert(texts(bands@) =~= texts(old_bands).push(band@).push(mean@));
            assert(texts(curves@) =~= texts(old_curves).push(curve@));
            assert(curve_plots(base@, next) =~= curve_plots(base@, all.take(i as int)).push(
                curve_text(base@, i as int, next.last()),
            ));
        }
        i += 1;
    }
    assert(all.take(i as int) =~= all);
    let title = if config.title.as_str().unicode_len() == 0 {
        join(names, " vs ")
    } else {
        config.title.clone()
    };
    let mut s = "set terminal ".to_owned();
    if output.is_svg() {
        s.append("svg size 1400,900 dynamic font 'sans,11'");
    } else {
        s.append("pngcairo size 1400,900 font ',11'");
    }
    s.append("\nset output '");
    s.append(base.as_str());
    s.append("'\nset multiplot layout 2,1 title '");
    s.append(gp_quote(title.as_str()).as_str());
    s.append(
        "'\nset grid\nset key left top\nset xlabel 'time (s)'\nset ylabel 'current (µA)'\n",
    );
    // Panel 1: min/mean/max envelope over time.
    let ghost before = s@;
    if config.log_scale {
        s.append("set logscale y\n");
    }
    assert(s@ =~= before + only_if(config.log_scale, "set logscale y\n"@));
    s.append("plot ");
    s.append(join(&bands, ", \\\n     ").as_str());
    // Panel 2: sample distribution as a percentile curve.
    s.append("\nset xlabel 'current (µA)'\nset ylabel '% of samples below'\nset yrange [0:100]\n");
    let ghost before = s@;
    if config.log_scale {
        s.append("unset logscale y\nset logscale x\n");
    }
    assert(s@ =~= before + only_if(config.log_scale, "unset logscale y\nset logscale x\n"@));
    s.append("plot ");
    s.append(join(&curves, ", \\\n     ").as_str());
    s.append("\nunset multiplot\n");
    s
}

/// A recording to plot, under a name.
#[derive(Clone, Copy)]
pub struct Series<'a> {
    /// What the recording is called in the plot.
    pub name: &'a str,
    /// The recording.
    pub recording: &'a Recording,
}

/// A file to be written.
#[derive(Debug)]
pub struct PlotFile {
    /// Where to write it.
    pub path: String,
    /// What it holds.
    pub contents: String,
}

/// The files of a plot, to be written in order before gnuplot runs the script.
#[derive(Debug)]
pub struct PlotJob {
    /// One envelope file and one percentile-curve file for each recording.
    pub data: Vec<PlotFile>,
    /// The script.
    pub script: PlotFile,
}

/// The names of the series.
pub open spec fn series_names(series: Seq<Series>) -> Seq<Seq<char>> {
    series.map_values(|s: Series| s.name@)
}

/// The path of a data file of the series `i`.
pub open spec fn data_path(output: Seq<char>, i: int, ending: Seq<char>) -> Seq<char> {
    output + "."@ + decimal(i as nat) + ending
}

/// Whether `file` is the data file `k` of a plot: the files of a series follow
/// each other, the envelope first.
pub open spec fn is_data_file<F: Arithmetic + Rendering>(
    f: &F,
    series: Seq<Series>,
    output: Seq<char>,
    buckets: usize,
    k: int,
    file: PlotFile,
) -> bool {
    let i = k / 2;
    let rec = *series[i].recording;
    let name = series[i].name@;
    if k % 2 == 0 {
        &&& file.path@ == data_path(output, i, ".env.dat"@)
        &&& deterministic(f) && stable(f) ==> file.contents@ == envelope_text(
            f,
            rec.samples_ua@,
            rec.meta.sps,
            buckets as int,
            name,
        )
    } else {
        &&& file.path@ == data_path(output, i, ".cdf.dat"@)
        &&& deterministic(f) && stable(f) ==> file.contents@ == percentile_text(
            f,
            rec.samples_ua@,
            name,
        )
    }
}

/// Lays out the plot of one or two recordings to an image file.
///
/// The output format is chosen from the file extension: `.svg` renders with
/// gnuplot's `svg` terminal, anything else with `pngcairo`. The image shows a
/// min/mean/max envelope over time and the distribution of samples as a
/// percentile curve.
pub fn plot<F: Arithmetic + Rendering>(
    f: &F,
    recordings: &[Series],
    output: &OutputPath,
    config: &PlotConfig,
) -> (r: Result<PlotJob, Error>)
    ensures
        r is Ok <==> 1 <= recordings@.len() <= 2 && config.buckets >= 2,
        !(1 <= recordings@.len() <= 2) ==> (r matches Err(Error::InvalidConfig(m)) && m@
            == "plot takes one or two recordings"@),
        1 <= recordings@.len() <= 2 && config.buckets < 2 ==> (r matches Err(
            Error::InvalidConfig(m),
        ) && m@ == "need at least 2 buckets"@),
        r matches Ok(job) ==> {
            &&& job.data@.len() == 2 * recordings@.len()
            &&& forall|k: int|
                0 <= k < job.data@.len() ==> is_data_file(
                    f,
                    recordings@,
                    output.text@,
                    config.buckets,
                    k,
                    #[trigger] job.data@[k],
                )
            &&& job.script.path@ == output.text@ + ".gp"@
            &&& job.script.contents@ == script_text(
                series_names(recordings@),
                output.text@,
                output.extension_text(),
                config.title@,
                config.log_scale,
            )
        },
{
    let n: usize = recordings.len();
    if n == 0 || n > 2 {
        return Err(Error::InvalidConfig("plot takes one or two recordings".to_owned()));
    }
    if config.buckets < 2 {
        return Err(Error::InvalidConfig("need at least 2 buckets".to_owned()));
    }
    let mut names: Vec<String> = Vec::new();
    let mut data: Vec<PlotFile> = Vec::new();
    let mut i: usize = 0;
    while i < n
        invariant
            i <= n,
            n == recordings@.len(),
            config.buckets >= 2,
            names@.len() == i,
            data@.len() == 2 * i,
            forall|k: int| 0 <= k < i ==> (#[trigger] names@[k])@ == recordings@[k].name@,
            forall|k: int|
                0 <= k < data@.len() ==> is_data_file(
                    f,
                    recordings@,
                    output.text@,
                    config.buckets,
                    k,
                    #[trigger] data@[k],
                ),
        decreases n - i,
    {
        let series = recordings[i];
        let mut stem = output.text.clone();
        stem.append(".");
        stem.append(to_decimal(i as u128).as_str());
        let mut env_path = stem.clone();
        env_path.append(".env.dat");
        let mut cdf_path = stem;
        cdf_path.append(".cdf.dat");
        data.push(
            PlotFile {
                path: env_path,
                contents: envelope_data(f, series.recording, config.buckets, series.name),
            },
        );
        data.push(
            PlotFile {
                path: cdf_path,
                contents: percentile_data(f, series.recording, series.name),
            },
        );
        names.push(series.name.to_owned());
        i += 1;
    }
    assert(texts(names@) =~= series_names(recordings@));
    let mut path = output.text.clone();
    path.append(".gp");
    let contents = script(&names, output, config);
    Ok(PlotJob { data, script: PlotFile { path, contents } })
}

/// Doubling the quotes of two texts in a row is doubling those of each.
proof fn lemma_quotes_doubled_joins(a: Seq<char>, b: Seq<char>)
    ensures
        quotes_doubled(a + b) == quotes_doubled(a) + quotes_doubled(b),
    decreases b.len(),
{
    if b.len() == 0 {
        assert(a + b =~= a);
        assert(quotes_doubled(a) + quotes_doubled(b) =~= quotes_doubled(a));
    } else {
        lemma_quotes_doubled_joins(a, b.drop_last());
        assert((a + b).drop_last() =~= a + b.drop_last());
        assert(quotes_doubled(a + b) =~= quotes_doubled(a) + quotes_doubled(b));
    }
}

/// A text without quotes stays as it is.
proof fn lemma_nothing_to_double(t: Seq<char>)
    requires
        forall|i: int| 0 <= i < t.len() ==> #[trigger] t[i] != '\'',
    ensures
        quotes_doubled(t) == t,
    decreases t.len(),
{
    if t.len() > 0 {
        assert(t.last() == t[t.len() - 1]);
        assert forall|i: int| 0 <= i < t.drop_last().len() implies #[trigger] t.drop_last()[i]
            != '\'' by {
            assert(t[i] != '\'');
        }
        lemma_nothing_to_double(t.drop_last());
        assert(t.drop_last().push(t.last()) =~= t);
    } else {
        assert(quotes_doubled(t) =~= t);
    }
}

/// Decimal numbers hold no quotes.
proof fn lemma_decimal_has_no_quotes(n: nat)
    ensures
        forall|i: int| 0 <= i < decimal(n).len() ==> #[trigger] decimal(n)[i] != '\'',
    decreases n,
{
    let d = n % 10;
    assert(digit(d) as int == 48 + d);
    if n >= 10 {
        lemma_decimal_has_no_quotes(n / 10);
        assert(decimal(n) == decimal(n / 10).push(digit(d)));
    } else {
        assert(decimal(n) == seq![digit(d)]);
    }
}

/// The script reads the very files that the plot writes: between quotes it
/// names the path of each data file.
pub proof fn law_script_names_data_files(output: Seq<char>, i: nat)
    ensures
        quotes_doubled(data_path(output, i as int, ".env.dat"@)) == quotes_doubled(output) + "."@
            + decimal(i) + ".env.dat"@,
        quotes_doubled(data_path(output, i as int, ".cdf.dat"@)) == quotes_doubled(output) + "."@
            + decimal(i) + ".cdf.dat"@,
{
    reveal_strlit(".");
    reveal_strlit(".env.dat");
    reveal_strlit(".cdf.dat");
    lemma_decimal_has_no_quotes(i);
    lemma_nothing_to_double("."@);
    lemma_nothing_to_double(decimal(i));
    lemma_nothing_to_double(".env.dat"@);
    lemma_nothing_to_double(".cdf.dat"@);
    lemma_quotes_doubled_joins(output, "."@);
    lemma_quotes_doubled_joins(output + "."@, decimal(i));
    lemma_quotes_doubled_joins(output + "."@ + decimal(i), ".env.dat"@);
    lemma_quotes_doubled_joins(output + "."@ + decimal(i), ".cdf.dat"@);
}

/// How a run of gnuplot ended.
#[derive(Debug)]
pub enum GnuplotRun {
    /// It exited with success.
    Succeeded,
    /// It exited without success.
    Failed {
        /// The exit status.
        status: String,
        /// What it wrote to its error output, without white space around it.
        stderr: String,
    },
    /// It could not be run.
    NotRun {
        /// Why not.
        reason: String,
    },
}

/// What a plot comes to.
#[derive(Debug)]
pub struct PlotOutcome {
    /// The files to delete.
    pub remove: Vec<String>,
    /// Whether there is a plot.
    pub result: Result<(), Error>,
}

/// The paths of all files of a plot.
pub open spec fn job_paths(job: PlotJob) -> Seq<Seq<char>> {
    job.data@.map_values(|file: PlotFile| file.path@).push(job.script.path@)
}

impl PlotJob {
    /// What is left to do once gnuplot has run: the files are deleted after
    /// success, unless they are to be kept, and stay for inspection after a
    /// failure.
    pub fn finish(&self, run: GnuplotRun, keep_data: bool) -> (r: PlotOutcome)
        ensures
            match run {
                GnuplotRun::Succeeded => {
                    &&& r.result == Ok::<(), Error>(())
                    &&& texts(r.remove@) == if keep_data {
                        Seq::empty()
                    } else {
                        job_paths(*self)
                    }
                },
                GnuplotRun::Failed { status, stderr } => {
                    &&& r.remove@.len() == 0
                    &&& r.result matches Err(Error::Gnuplot(m)) && m@ == "gnuplot exited with "@
                        + status@ + ": "@ + stderr@
                },
                GnuplotRun::NotRun { reason } => {
                    &&& r.remove@.len() == 0
                    &&& r.result matches Err(Error::Gnuplot(m)) && m@ == "could not run gnuplot ("@
                        + reason@
                        + "); is gnuplot installed and on PATH? The script and data files were kept at "@
                        + self.script.path@
                },
            },
    {
        let mut remove: Vec<String> = Vec::new();
        match run {
            GnuplotRun::Succeeded => {
                if !keep_data {
                    let mut i: usize = 0;
                    while i < self.data.len()
                        invariant
                            i <= self.data@.len(),
                            remove@.len() == i,
                            forall|k: int|
                                0 <= k < i ==> (#[trigger] remove@[k])@ == self.data@[k].path@,
                        decreases self.data@.len() - i,
                    {
                        remove.push(self.data[i].path.clone());
                        i += 1;
                    }
                    remove.push(self.script.path.clone());
                    assert(texts(remove@) =~= job_paths(*self));
                } else {
                    assert(texts(remove@) =~= Seq::<Seq<char>>::empty());
                }
                PlotOutcome { remove, result: Ok(()) }
            },
            GnuplotRun::Failed { status, stderr } => {
                let mut m = "gnuplot exited with ".to_owned();
                m.append(status.as_str());
                m.append(": ");
                m.append(stderr.as_str());
                PlotOutcome { remove, result: Err(Error::Gnuplot(m)) }
            },
            GnuplotRun::NotRun { reason } => {
                let mut m = "could not run gnuplot (".to_owned();
                m.append(reason.as_str());
                m.append(
                    "); is gnuplot installed and on PATH? The script and data files were kept at ",
                );
                m.append(self.script.path.as_str());
                PlotOutcome { remove, result: Err(Error::Gnuplot(m)) }
            },
        }
    }
}

} // verus!
