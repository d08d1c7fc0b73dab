use chrono::{Datelike, TimeZone, Utc};
use regex::{Regex, RegexBuilder};
use crate::labels::{same_text, sorted_unique_ints, strictly_sorted_ints};
use std::collections::HashMap;
use vstd::prelude::*;

verus! {

broadcast use vstd::std_specs::hash::group_hash_axioms;

/// Earliest instant that `chrono::DateTime<Utc>` holds, in seconds since the Unix epoch.
pub const MIN_TIMESTAMP: i64 = -8334601315200;

/// Latest whole second that `chrono::DateTime<Utc>` holds.
pub const MAX_TIMESTAMP: i64 = 8210266876799;

pub const SECS_PER_DAY: i64 = 86400;

/// An instant that a UTC date-time can hold.
pub open spec fn is_instant(t: i64) -> bool {
    MIN_TIMESTAMP <= t <= MAX_TIMESTAMP
}

/// Whole days from `earlier` to `later`, rounded toward zero.
pub open spec fn days_between(later: i64, earlier: i64) -> int {
    if later >= earlier {
        (later - earlier) / (SECS_PER_DAY as int)
    } else {
        -((earlier - later) / (SECS_PER_DAY as int))
    }
}

/// Whole days from `earlier` to `later`, rounded toward zero.
pub fn num_days(later: i64, earlier: i64) -> (r: i64)
    requires
        is_instant(later),
        is_instant(earlier),
    ensures
        r == days_between(later, earlier),
{
    (later - earlier) / SECS_PER_DAY
}

/// A commit as the analysis sees it; `when` is in seconds since the Unix epoch, UTC.
pub struct BetterCommit {
    pub sha1: String,
    pub author: String,
    pub when: i64,
}

/// The files touched between two sampled commits, in old-path/new-path pairs.
pub struct BetterDiff {
    pub parent: BetterCommit,
    pub child: BetterCommit,
    pub old_files: Vec<String>,
    pub new_files: Vec<String>,
}

impl BetterDiff {
    pub fn new(parent: BetterCommit, child: BetterCommit) -> (d: BetterDiff)
        ensures
            d.parent == parent,
            d.child == child,
            d.old_files@.len() == 0,
            d.new_files@.len() == 0,
    {
        BetterDiff { parent, child, old_files: Vec::new(), new_files: Vec::new() }
    }
}

/// How commits are grouped into bins.
#[derive(Clone, Copy, Debug, PartialEq, Eq, Structural)]
pub enum DateGrouping {
    Unbinned,
    Daily,
    Weekly,
    Monthly,
}

/// The lower-case name of a grouping.
pub open spec fn grouping_name(g: DateGrouping) -> Seq<char> {
    match g {
        DateGrouping::Unbinned => "none"@,
        DateGrouping::Daily => "daily"@,
        DateGrouping::Weekly => "weekly"@,
        DateGrouping::Monthly => "monthly"@,
    }
}

/// Midnight (UTC) of the day holding `t`.
pub open spec fn day_start(t: i64) -> int {
    t - (t as int) % (SECS_PER_DAY as int)
}

/// Days since Monday of the day holding `t`; 1970-01-01 was a Thursday.
pub open spec fn weekday_from_monday(t: i64) -> int {
    ((t as int) / (SECS_PER_DAY as int) + 3) % 7
}

/// Midnight (UTC) of the Monday of the week holding `t`.
pub open spec fn week_start(t: i64) -> int {
    day_start(t) - weekday_from_monday(t) * (SECS_PER_DAY as int)
}

/// The first instant of the UTC calendar month holding `t`.
pub uninterp spec fn month_start_of(t: i64) -> i64;

/// Relies on chrono's `Utc.timestamp_opt`, `Datelike::{year, month}` and
/// `Utc.with_ymd_and_hms`: the first second of the calendar month that holds
/// `t`, which chrono represents for every instant in its range.
#[verifier::external_body]
fn month_start(t: i64) -> (r: i64)
    requires
        is_instant(t),
    ensures
        r == month_start_of(t),
{
    let d = Utc.timestamp_opt(t, 0).unwrap();
    Utc.with_ymd_and_hms(d.year(), d.month(), 1, 0, 0, 0).unwrap().timestamp()
}

/// The bin that `grouping` puts the instant `t` in.
pub open spec fn group_of(grouping: DateGrouping, t: i64) -> i64 {
    match grouping {
        DateGrouping::Unbinned => t,
        DateGrouping::Daily => day_start(t) as i64,
        DateGrouping::Weekly => week_start(t) as i64,
        DateGrouping::Monthly => month_start_of(t),
    }
}

impl DateGrouping {
    /// The canonical instant of the bin of `t`: `t` itself, the start of its
    /// day, of its week (Monday), or of its month.
    pub fn get_group(&self, t: i64) -> (r: i64)
        requires
            is_instant(t),
            *self == DateGrouping::Weekly ==> MIN_TIMESTAMP <= week_start(t),
        ensures
            r == group_of(*self, t),
    {
        match self {
            DateGrouping::Unbinned => t,
            DateGrouping::Daily => day_floor(t),
            DateGrouping::Weekly => {
                let day = day_floor(t);
                let days = (day - MIN_TIMESTAMP) / SECS_PER_DAY;
                let wd = (days + MIN_WEEKDAY) % 7;
                proof {
                    lemma_weekday(t, day, days, wd);
                }
                day - wd * SECS_PER_DAY
            },
            DateGrouping::Monthly => month_start(t),
        }
    }

    /// The name of the grouping, in lower case.
    pub fn name(&self) -> (s: &'static str)
        ensures
            s@ == grouping_name(*self),
    {
        match self {
            DateGrouping::Unbinned => "none",
            DateGrouping::Daily => "daily",
            DateGrouping::Weekly => "weekly",
            DateGrouping::Monthly => "monthly",
        }
    }
}

/// Days since Monday of the day of `MIN_TIMESTAMP`.
pub const MIN_WEEKDAY: i64 = 2;

impl DateGrouping {
    /// The grouping whose lower-case name is `name`, if any.
    pub fn from_name(name: &str) -> (r: Option<DateGrouping>)
        ensures
            match r {
                Some(g) => name@ == grouping_name(g),
                None => forall|g: DateGrouping| name@ != grouping_name(g),
            },
    {
        proof {
            reveal_strlit("none");
            reveal_strlit("daily");
            reveal_strlit("weekly");
            reveal_strlit("monthly");
            assert("none"@.len() == 4 && "daily"@.len() == 5);
            assert("weekly"@.len() == 6 && "monthly"@.len() == 7);
        }
        if same_text(name, "none") {
            Some(DateGrouping::Unbinned)
        } else if same_text(name, "daily") {
            Some(DateGrouping::Daily)
        } else if same_text(name, "weekly") {
            Some(DateGrouping::Weekly)
        } else if same_text(name, "monthly") {
            Some(DateGrouping::Monthly)
        } else {
            None
        }
    }
}

/// Midnight (UTC) of the day holding `t`.
fn day_floor(t: i64) -> (r: i64)
    requires
        is_instant(t),
    ensures
        r == day_start(t),
        MIN_TIMESTAMP <= r <= t,
{
    let shifted = t - MIN_TIMESTAMP;
    let r = MIN_TIMESTAMP + (shifted - shifted % SECS_PER_DAY);
    proof {
        assert((MIN_TIMESTAMP as int) == -86400 * 96465293);
        vstd::arithmetic::div_mod::lemma_mod_multiples_vanish(96465293, t as int, 86400);
        assert((t as int) - (MIN_TIMESTAMP as int) == 86400 * 96465293 + (t as int));
    }
    r
}

proof fn lemma_weekday(t: i64, day: i64, days: i64, wd: i64)
    requires
        is_instant(t),
        day == day_start(t),
        days == ((day as int) - (MIN_TIMESTAMP as int)) / 86400,
        wd == ((days as int) + 2) % 7,
    ensures
        wd == weekday_from_monday(t),
{
    let q = (t as int) / 86400;
    vstd::arithmetic::div_mod::lemma_fundamental_div_mod(t as int, 86400);
    assert(day == 86400 * q);
    assert((day as int) - (MIN_TIMESTAMP as int) == 86400 * (q + 96465293));
    vstd::arithmetic::div_mod::lemma_div_multiples_vanish(q + 96465293, 86400);
    assert(days == q + 96465293);
    assert((days as int) + 2 == 7 * 13780756 + (q + 3));
    vstd::arithmetic::div_mod::lemma_mod_multiples_vanish(13780756, q + 3, 7);
}

#[verifier::external_type_specification]
#[verifier::external_body]
pub struct ExRegex(Regex);

#[verifier::external_type_specification]
#[verifier::external_body]
pub struct ExRegexError(regex::Error);

/// Whether regex compiles the pattern, ignoring case.
pub uninterp spec fn compiles_ci(pattern: Seq<char>) -> bool;

/// Relies on regex's `RegexBuilder::new(..).case_insensitive(true).build()`:
/// the pattern compiled to ignore case, or the reason it does not compile;
/// which of the two depends on the pattern alone.
#[verifier::external_body]
fn compile_case_insensitive(pattern: &str) -> (r: Result<Regex, regex::Error>)
    ensures
        r is Ok <==> compiles_ci(pattern@),
{
    RegexBuilder::new(pattern).case_insensitive(true).build()
}

/// Relies on `Regex::is_match`: whether the pattern matches somewhere in the text.
pub assume_specification[ Regex::is_match ](re: &Regex, haystack: &str) -> bool;

/// A file filter pattern that does not compile.
pub struct FilterError {
    pub pattern: String,
}

/// The patterns separated by `|`.
pub open spec fn alternatives(ps: Seq<Seq<char>>) -> Seq<char>
    decreases ps.len(),
{
    if ps.len() <= 1 {
        if ps.len() == 1 {
            ps[0]
        } else {
            Seq::empty()
        }
    } else {
        alternatives(ps.drop_last()) + seq!['|'] + ps.last()
    }
}

/// One pattern for a list of patterns: `.*` for none, the pattern itself for
/// one, and the alternatives in parentheses for more.
pub open spec fn combined_pattern(ps: Seq<Seq<char>>) -> Seq<char> {
    if ps.len() == 0 {
        seq!['.', '*']
    } else if ps.len() == 1 {
        ps[0]
    } else {
        seq!['('] + alternatives(ps) + seq![')']
    }
}

/// The single pattern that stands for `patterns`.
pub fn pattern_of(patterns: &[&str]) -> (r: String)
    ensures
        r@ == combined_pattern(patterns@.map_values(|s: &str| s@)),
{
    let ghost v = patterns@.map_values(|s: &str| s@);
    if patterns.len() == 0 {
        proof {
            reveal_strlit(".*");
        }
        let r = ".*".to_owned();
        proof {
            assert(r@ =~= seq!['.', '*']);
        }
        return r;
    }
    if patterns.len() == 1 {
        return patterns[0].to_owned();
    }
    let mut r = "(".to_owned();
    proof {
        reveal_strlit("(");
        reveal_strlit("|");
        reveal_strlit(")");
    }
    r.append(patterns[0]);
    proof {
        assert(r@ =~= seq!['('] + alternatives(v.take(1)));
    }
    let mut i: usize = 1;
    while i < patterns.len()
        invariant
            1 <= i <= patterns@.len(),
            v == patterns@.map_values(|s: &str| s@),
            r@ == seq!['('] + alternatives(v.take(i as int)),
            "|"@ == seq!['|'],
        decreases patterns@.len() - i,
    {
        r.append("|");
        r.append(patterns[i]);
        proof {
            assert(v.take(i as int + 1).drop_last() =~= v.take(i as int));
            assert(r@ =~= seq!['('] + alternatives(v.take(i as int + 1)));
        }
        i = i + 1;
    }
    r.append(")");
    proof {
        assert(v.take(i as int) =~= v);
        assert(r@ =~= seq!['('] + alternatives(v) + seq![')']);
    }
    r
}

/// Which file paths the mining keeps: those that match no exclude pattern
/// and some include pattern, ignoring case.
pub struct FileFilteringOpt {
    pub exclude_paths: Regex,
    pub include_paths: Regex,
}

impl FileFilteringOpt {
    /// The compiled pattern of `patterns`, or the pattern that does not compile.
    pub fn vec_to_regex(patterns: &[&str]) -> (r: Result<Regex, FilterError>)
        ensures
            r is Ok <==> compiles_ci(combined_pattern(patterns@.map_values(|s: &str| s@))),
            r matches Err(e) ==> e.pattern@ == combined_pattern(patterns@.map_values(|s: &str| s@)),
    {
        let pattern = pattern_of(patterns);
        match compile_case_insensitive(pattern.as_str()) {
            Ok(re) => Ok(re),
            Err(_) => Err(FilterError { pattern }),
        }
    }

    pub fn new(exclude_patterns: &[&str], include_patterns: &[&str]) -> (r: Result<
        FileFilteringOpt,
        FilterError,
    >)
        ensures
            r is Ok <==> compiles_ci(combined_pattern(exclude_patterns@.map_values(|s: &str| s@)))
                && compiles_ci(combined_pattern(include_patterns@.map_values(|s: &str| s@))),
            r matches Err(e) ==> if compiles_ci(
                combined_pattern(exclude_patterns@.map_values(|s: &str| s@)),
            ) {
                e.pattern@ == combined_pattern(include_patterns@.map_values(|s: &str| s@))
            } else {
                e.pattern@ == combined_pattern(exclude_patterns@.map_values(|s: &str| s@))
            },
    {
        let exclude_paths = match Self::vec_to_regex(exclude_patterns) {
            Ok(re) => re,
            Err(e) => {
                return Err(e);
            },
        };
        let include_paths = match Self::vec_to_regex(include_patterns) {
            Ok(re) => re,
            Err(e) => {
                return Err(e);
            },
        };
        Ok(FileFilteringOpt { exclude_paths, include_paths })
    }

    /// Keeps every path: excludes by a pattern that matches nothing.
    pub fn accept_all() -> (r: Result<FileFilteringOpt, FilterError>)
        ensures
            r is Ok <==> compiles_ci(seq!['a', '^']) && compiles_ci(seq!['.', '*']),
    {
        let nothing = ["a^"];
        let everything = [".*"];
        proof {
            reveal_strlit("a^");
            reveal_strlit(".*");
            assert(nothing@.len() == 1);
            assert(nothing@[0] == "a^");
            assert(nothing@[0]@ =~= seq!['a', '^']);
            assert(nothing@.map_values(|s: &str| s@) =~= seq![seq!['a', '^']]);
            assert(everything@.len() == 1);
            assert(everything@[0] == ".*");
            assert(everything@[0]@ =~= seq!['.', '*']);
            assert(everything@.map_values(|s: &str| s@) =~= seq![seq!['.', '*']]);
        }
        Self::new(&nothing, &everything)
    }

    /// Keeps the paths that match one of `include_patterns`.
    pub fn include_only(include_patterns: &[&str]) -> (r: Result<FileFilteringOpt, FilterError>)
        ensures
            r is Ok <==> compiles_ci(seq!['a', '^']) && compiles_ci(
                combined_pattern(include_patterns@.map_values(|s: &str| s@)),
            ),
    {
        let nothing = ["a^"];
        proof {
            reveal_strlit("a^");
            assert(nothing@.len() == 1);
            assert(nothing@[0] == "a^");
            assert(nothing@[0]@ =~= seq!['a', '^']);
            assert(nothing@.map_values(|s: &str| s@) =~= seq![seq!['a', '^']]);
        }
        Self::new(&nothing, include_patterns)
    }

    pub fn excludes(&self, path: &str) -> bool {
        self.exclude_paths.is_match(path)
    }

    pub fn includes(&self, path: &str) -> bool {
        self.include_paths.is_match(path)
    }

    /// Whether the mining keeps `path`.
    pub fn matches(&self, path: &str) -> bool {
        !self.excludes(path) && self.includes(path)
    }
}

/// Which commits the mining samples.
pub struct CommitFilteringOpt {
    pub branch: String,
    pub until: i64,
    pub since: i64,
    pub binning: DateGrouping,
}

impl CommitFilteringOpt {
    /// Whether a commit made at `when` lies strictly inside the period.
    pub fn admits(&self, when: i64) -> (r: bool)
        ensures
            r == (self.since < when && when < self.until),
    {
        self.since < when && when < self.until
    }
}

pub struct BetterGitOpt {
    pub commit_filters: CommitFilteringOpt,
    pub file_filters: FileFilteringOpt,
}

/// `i` is the first position whose bin is `b`.
pub open spec fn first_in_bin(groups: Seq<i64>, b: i64, i: int) -> bool {
    &&& 0 <= i < groups.len()
    &&& groups[i] == b
    &&& forall|k: int| 0 <= k < i ==> groups[k] != b
}

/// The bin of each instant.
pub open spec fn bins_of(binning: DateGrouping, times: Seq<i64>) -> Seq<i64> {
    times.map_values(|t: i64| group_of(binning, t))
}

/// Some position of `r` lies in the bin of position `i`.
pub open spec fn represented(bins: Seq<i64>, r: Seq<usize>, i: int) -> bool {
    exists|k: int| 0 <= k < r.len() && bins[r[k] as int] == bins[i]
}

/// The commits that stand for their bins: for each bin, in ascending order,
/// the position of the first commit of `times` that falls in it.
pub fn sample_commits(times: &Vec<i64>, binning: &DateGrouping) -> (r: Vec<usize>)
    requires
        forall|i: int| 0 <= i < times@.len() ==> is_instant(#[trigger] times@[i]),
        *binning == DateGrouping::Weekly ==> forall|i: int|
            0 <= i < times@.len() ==> MIN_TIMESTAMP <= week_start(#[trigger] times@[i]),
    ensures
        forall|k: int|
            0 <= k < r@.len() ==> first_in_bin(
                bins_of(*binning, times@),
                bins_of(*binning, times@)[#[trigger] r@[k] as int],
                r@[k] as int,
            ),
        forall|k1: int, k2: int|
            0 <= k1 < k2 < r@.len() ==> bins_of(*binning, times@)[r@[k1] as int] < bins_of(
                *binning,
                times@,
            )[r@[k2] as int],
        forall|i: int|
            0 <= i < times@.len() ==> #[trigger] represented(bins_of(*binning, times@), r@, i),
{
    let ghost gs = bins_of(*binning, times@);
    let mut groups: Vec<i64> = Vec::new();
    let mut first: HashMap<i64, usize> = HashMap::new();
    let mut i: usize = 0;
    while i < times.len()
        invariant
            i <= times@.len(),
            gs == bins_of(*binning, times@),
            forall|k: int| 0 <= k < times@.len() ==> is_instant(#[trigger] times@[k]),
            *binning == DateGrouping::Weekly ==> forall|k: int|
                0 <= k < times@.len() ==> MIN_TIMESTAMP <= week_start(#[trigger] times@[k]),
            groups@ == gs.take(i as int),
            forall|b: i64| first@.contains_key(b) <==> groups@.contains(b),
            forall|b: i64| #[trigger] first@.contains_key(b) ==> first_in_bin(gs, b, first@[b] as int),
        decreases times@.len() - i,
    {
        let g = binning.get_group(times[i]);
        proof {
            assert(gs[i as int] == g);
            assert(gs.take(i as int + 1) =~= gs.take(i as int).push(g));
        }
        if !first.contains_key(&g) {
            proof {
                assert(!first@.contains_key(g));
                assert(!groups@.contains(g));
                assert forall|k: int| 0 <= k < i implies gs[k] != g by {
                    assert(groups@[k] == gs[k]);
                }
            }
            first.insert(g, i);
        }
        let ghost before = groups@;
        groups.push(g);
        proof {
            assert forall|b: i64| first@.contains_key(b) <==> groups@.contains(b) by {
                crate::labels::lemma_push_contains(before, g, b);
            }
        }
        i = i + 1;
    }
    proof {
        assert(gs.take(i as int) =~= gs);
    }
    let bins = sorted_unique_ints(groups);
    let mut r: Vec<usize> = Vec::new();
    let mut k: usize = 0;
    while k < bins.len()
        invariant
            k <= bins@.len(),
            gs == bins_of(*binning, times@),
            strictly_sorted_ints(bins@),
            forall|x: i64| bins@.contains(x) <==> gs.contains(x),
            forall|b: i64| first@.contains_key(b) <==> gs.contains(b),
            forall|b: i64| #[trigger] first@.contains_key(b) ==> first_in_bin(gs, b, first@[b] as int),
            r@.len() == k,
            forall|q: int| 0 <= q < k ==> first_in_bin(gs, bins@[q], #[trigger] r@[q] as int),
        decreases bins@.len() - k,
    {
        let b = bins[k];
        proof {
            assert(bins@.contains(b));
            assert(gs.contains(b));
            assert(first@.contains_key(b));
        }
        let pos = match first.get(&b) {
            Some(p) => *p,
            None => {
                proof {
                    assert(false);
                }
                0
            },
        };
        r.push(pos);
        k = k + 1;
    }
    proof {
        assert forall|i: int| 0 <= i < times@.len() implies #[trigger] represented(gs, r@, i) by {
            assert(gs.contains(gs[i]));
            assert(bins@.contains(gs[i]));
            let k = choose|k: int| 0 <= k < bins@.len() && bins@[k] == gs[i];
            assert(r@.len() == bins@.len());
            assert(first_in_bin(gs, bins@[k], r@[k] as int));
            assert(gs[r@[k] as int] == bins@[k]);
            assert(0 <= k < r@.len() && gs[r@[k] as int] == gs[i]);
        }
    }
    r
}

} // verus!
