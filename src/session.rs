//! A comparison session: pairs of two directories compared, filtered and
//! accumulated.
use crate::difference::{
    compute_pair_diff, info_of, load_failed, load_view, pair_difference, DiffView, Difference, ImageInfoResult,
    InfoView,
};
use crate::listing::{dir_file, dir_names, find_file, ImageDir};
use crate::pair::{filter_view, pair_views, pairs_from_paths, pairs_spec, scan_error, Pair, PairView};
use crate::Error;
use vstd::prelude::*;

verus! {

/// The comparison of one pair.
#[derive(Debug)]
pub struct PairResult {
    pub pair: Pair,
    pub difference: Difference,
    pub left_info: ImageInfoResult,
    pub right_info: ImageInfoResult,
}

/// What a `PairResult` is.
pub struct ResultView {
    pub pair: PairView,
    pub difference: DiffView,
    pub left_info: InfoView,
    pub right_info: InfoView,
}

impl View for PairResult {
    type V = ResultView;

    open spec fn view(&self) -> ResultView {
        ResultView {
            pair: self.pair@,
            difference: self.difference@,
            left_info: self.left_info@,
            right_info: self.right_info@,
        }
    }
}

pub open spec fn result_views(v: Seq<PairResult>) -> Seq<ResultView> {
    v.map_values(|r: PairResult| r@)
}

/// The comparison of a pair: each side is the file of the pair's name in its
/// directory, missing where the directory holds none.
pub open spec fn result_of(pair: PairView, left: &ImageDir, right: &ImageDir) -> ResultView {
    let l = load_view(dir_file(left, pair.title));
    let r = load_view(dir_file(right, pair.title));
    ResultView {
        pair,
        difference: pair_difference(l, r),
        left_info: info_of(l),
        right_info: info_of(r),
    }
}

/// The comparisons of a sequence of pairs, in its order.
pub open spec fn results_of(pairs: Seq<PairView>, left: &ImageDir, right: &ImageDir) -> Seq<
    ResultView,
> {
    pairs.map_values(|p: PairView| result_of(p, left, right))
}

/// Compares each pair, looking its name up in the two scanned directories.
pub fn compute_differences(pairs: Vec<Pair>, left: &ImageDir, right: &ImageDir) -> (r: Vec<
    PairResult,
>)
    ensures
        result_views(r@) == results_of(pair_views(pairs@), left, right),
{
    let ghost orig = pair_views(pairs@);
    let ghost n = pairs@.len();
    let mut pairs = pairs;
    let mut reversed: Vec<PairResult> = Vec::new();
    while pairs.len() > 0
        invariant
            pairs@.len() + reversed@.len() == n,
            orig.len() == n,
            pair_views(pairs@) == orig.take(pairs@.len() as int),
            forall|j: int|
                0 <= j < reversed@.len() ==> #[trigger] reversed@[j]@ == result_of(
                    orig[n - 1 - j],
                    left,
                    right,
                ),
        decreases pairs.len(),
    {
        let ghost k = pairs@.len() - 1;
        let ghost before = pairs@;
        let pair = pairs.pop().unwrap();
        assert(pair_views(before)[k] == pair@);
        assert(orig.take(before.len() as int)[k] == orig[k]);
        assert(pair_views(pairs@) =~= orig.take(pairs@.len() as int));
        let (difference, left_info, right_info) = compute_pair_diff(
            find_file(left, pair.title.as_str()),
            find_file(right, pair.title.as_str()),
        );
        reversed.push(PairResult { pair, difference, left_info, right_info });
    }
    let mut out: Vec<PairResult> = Vec::new();
    while reversed.len() > 0
        invariant
            out@.len() + reversed@.len() == n,
            orig.len() == n,
            forall|j: int|
                0 <= j < reversed@.len() ==> #[trigger] reversed@[j]@ == result_of(
                    orig[n - 1 - j],
                    left,
                    right,
                ),
            forall|j: int| 0 <= j < out@.len() ==> #[trigger] out@[j]@ == result_of(orig[j], left, right),
        decreases reversed.len(),
    {
        let item = reversed.pop().unwrap();
        out.push(item);
    }
    assert(result_views(out@) =~= results_of(orig, left, right));
    out
}


/// Which comparisons a session keeps: every flag that is set drops the
/// results it names.
pub struct CompareConfig {
    /// Drop pairs whose images match.
    pub ignore_match: bool,
    /// Drop pairs whose left file is missing.
    pub ignore_left_missing: bool,
    /// Drop pairs whose right file is missing.
    pub ignore_right_missing: bool,
    /// Compare only the names that contain this text.
    pub filter_name: Option<String>,
}

impl Default for CompareConfig {
    fn default() -> (r: Self)
        ensures
            !r.ignore_match,
            !r.ignore_left_missing,
            !r.ignore_right_missing,
            r.filter_name.is_none(),
    {
        CompareConfig {
            ignore_match: false,
            ignore_left_missing: false,
            ignore_right_missing: false,
            filter_name: None,
        }
    }
}

impl CompareConfig {
    pub fn set_ignore_match(&mut self, value: bool)
        ensures
            *final(self) == (CompareConfig { ignore_match: value, ..*old(self) }),
    {
        self.ignore_match = value;
    }

    pub fn set_ignore_left_missing(&mut self, value: bool)
        ensures
            *final(self) == (CompareConfig { ignore_left_missing: value, ..*old(self) }),
    {
        self.ignore_left_missing = value;
    }

    pub fn set_ignore_right_missing(&mut self, value: bool)
        ensures
            *final(self) == (CompareConfig { ignore_right_missing: value, ..*old(self) }),
    {
        self.ignore_right_missing = value;
    }

    pub fn set_filter_name(&mut self, value: Option<&str>)
        ensures
            final(self).ignore_match == old(self).ignore_match,
            final(self).ignore_left_missing == old(self).ignore_left_missing,
            final(self).ignore_right_missing == old(self).ignore_right_missing,
            filter_of(final(self)) == filter_view(value),
    {
        self.filter_name = match value {
            Some(f) => Some(String::from_str(f)),
            None => None,
        };
    }

    /// The filter text, if any.
    pub fn filter(&self) -> (r: Option<&str>)
        ensures
            filter_view(r) == filter_of(self),
    {
        match &self.filter_name {
            Some(f) => Some(f.as_str()),
            None => None,
        }
    }
}

/// The filter text of a configuration, if any.
pub open spec fn filter_of(config: &CompareConfig) -> Option<Seq<char>> {
    match config.filter_name {
        Some(f) => Some(f@),
        None => None,
    }
}

/// Whether a session with this configuration keeps a result.
pub open spec fn keeps(config: &CompareConfig, r: ResultView) -> bool {
    &&& !(config.ignore_match && r.difference is Identical)
    &&& !(config.ignore_left_missing && r.left_info is Missing)
    &&& !(config.ignore_right_missing && r.right_info is Missing)
}

/// The results that a configuration keeps, in their order.
pub open spec fn kept(config: &CompareConfig, s: Seq<ResultView>) -> Seq<ResultView> {
    s.filter(|r: ResultView| keeps(config, r))
}

fn keep_result(config: &CompareConfig, r: &PairResult) -> (b: bool)
    ensures
        b == keeps(config, r@),
{
    !(config.ignore_match && matches!(r.difference, Difference::Identical)) && !(
    config.ignore_left_missing && matches!(r.left_info, ImageInfoResult::Missing)) && !(
    config.ignore_right_missing && matches!(r.right_info, ImageInfoResult::Missing))
}

/// Drops the results that the configuration does not keep; the order stays.
pub fn filter_results(config: &CompareConfig, results: Vec<PairResult>) -> (r: Vec<PairResult>)
    ensures
        result_views(r@) == kept(config, result_views(results@)),
{
    let ghost orig = result_views(results@);
    let ghost n = results@.len();
    let mut results = results;
    let mut reversed: Vec<PairResult> = Vec::new();
    while results.len() > 0
        invariant
            results@.len() + reversed@.len() == n,
            orig.len() == n,
            result_views(results@) == orig.take(results@.len() as int),
            forall|j: int| 0 <= j < reversed@.len() ==> #[trigger] reversed@[j]@ == orig[n - 1 - j],
        decreases results.len(),
    {
        let ghost k = results@.len() - 1;
        let ghost before = results@;
        let item = results.pop().unwrap();
        assert(result_views(before)[k] == item@);
        assert(orig.take(before.len() as int)[k] == orig[k]);
        assert(result_views(results@) =~= orig.take(results@.len() as int));
        reversed.push(item);
    }
    let mut out: Vec<PairResult> = Vec::new();
    while reversed.len() > 0
        invariant
            reversed@.len() <= n,
            orig.len() == n,
            forall|j: int| 0 <= j < reversed@.len() ==> #[trigger] reversed@[j]@ == orig[n - 1 - j],
            result_views(out@) == kept(config, orig.take(n - reversed@.len())),
        decreases reversed.len(),
    {
        let ghost k: int = n - reversed@.len();
        let item = reversed.pop().unwrap();
        assert(item@ == orig[k]);
        assert(orig.take(k + 1) =~= orig.take(k).push(orig[k]));
        proof {
            orig.take(k).lemma_filter_push(orig[k], |r: ResultView| keeps(config, r));
        }
        let ghost before = out@;
        if keep_result(config, &item) {
            out.push(item);
            assert(result_views(out@) =~= result_views(before).push(orig[k]));
        }
    }
    assert(orig.take(n as int) =~= orig);
    out
}

/// The results of a session, accumulated over its comparisons.
pub struct ImageDiff {
    diffs: Vec<PairResult>,
}

impl View for ImageDiff {
    type V = Seq<ResultView>;

    closed spec fn view(&self) -> Seq<ResultView> {
        result_views(self.diffs@)
    }
}

impl Default for ImageDiff {
    fn default() -> (r: Self)
        ensures
            r@ == Seq::<ResultView>::empty(),
    {
        ImageDiff::new()
    }
}

impl ImageDiff {
    /// A session with no results.
    pub fn new() -> (r: Self)
        ensures
            r@ == Seq::<ResultView>::empty(),
    {
        let r = ImageDiff { diffs: Vec::new() };
        assert(r@ =~= Seq::<ResultView>::empty());
        r
    }

    /// The accumulated results, in the order they were produced.
    pub fn diffs(&self) -> (r: &Vec<PairResult>)
        ensures
            result_views(r@) == self@,
    {
        &self.diffs
    }

    /// Compares two scanned directories and appends the results that the
    /// configuration keeps. A hard error leaves the session as it was.
    pub fn compare_directories(&mut self, config: &CompareConfig, left: &ImageDir, right: &ImageDir) -> (r: Result<(), Error>)
        ensures
            scan_error(left, right).is_some() ==> r is Err && r->Err_0@ == scan_error(
                left,
                right,
            ).unwrap() && final(self)@ == old(self)@,
            scan_error(left, right).is_none() ==> r is Ok && final(self)@ == old(self)@ + kept(
                config,
                results_of(
                    pairs_spec(
                        left.path@,
                        dir_names(left),
                        right.path@,
                        dir_names(right),
                        filter_of(config),
                    ),
                    left,
                    right,
                ),
            ),
    {
        let pairs = match pairs_from_paths(left, right, config.filter()) {
            Ok(pairs) => pairs,
            Err(e) => {
                return Err(e);
            },
        };
        let diffs = compute_differences(pairs, left, right);
        let mut diffs = filter_results(config, diffs);
        let ghost before = self.diffs@;
        let ghost added = diffs@;
        self.diffs.append(&mut diffs);
        assert(result_views(self.diffs@) =~= result_views(before) + result_views(added));
        Ok(())
    }
}


/// A file that only the left directory holds, and that does not fail to load
/// there, gives a pair whose right side is missing and
/// whose difference is a missing file; a session that ignores right-missing
/// files drops it.
pub proof fn lemma_left_only_file(
    config: &CompareConfig,
    left: &ImageDir,
    right: &ImageDir,
    pair: PairView,
)
    requires
        dir_file(left, pair.title) is Some,
        dir_file(right, pair.title) is None,
        !load_failed(load_view(dir_file(left, pair.title))),
    ensures
        result_of(pair, left, right).right_info is Missing,
        result_of(pair, left, right).difference is MissingFile,
        config.ignore_right_missing ==> !keeps(config, result_of(pair, left, right)),
        config.ignore_right_missing ==> forall|s: Seq<ResultView>|
            !(#[trigger] kept(config, s)).contains(result_of(pair, left, right)),
{
    let r = result_of(pair, left, right);
    assert forall|s: Seq<ResultView>| config.ignore_right_missing implies !(#[trigger] kept(
        config,
        s,
    )).contains(r) by {
        let pred = |x: ResultView| keeps(config, x);
        if s.filter(pred).contains(r) {
            let k = choose|k: int| 0 <= k < s.filter(pred).len() && #[trigger] s.filter(pred)[k] == r;
            s.lemma_filter_pred(pred, k);
        }
    }
}

} // verus!
