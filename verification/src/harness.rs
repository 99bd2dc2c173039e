//! Data of the harness workflows over runs (scoped task memory): the plans'
//! supersede pairs, the merge strategy of a promotion and the reports.
use vstd::prelude::*;
use crate::error::SgdbError;
use crate::text::{chars_of, same_text};
use crate::side_keys::{find_char, string_of};
use crate::wire::str_views;

verus! {

/// One supersession at the end of a run: `old` is superseded by `new`.
#[derive(Clone, Copy, Debug, Default)]
pub struct CommitSupersede<'a> {
    pub old: &'a str,
    pub new: &'a str,
}

/// Report of a run commit.
#[derive(Clone, Debug, Default, PartialEq, Eq)]
pub struct CommitRunReport {
    pub written: Vec<String>,
    pub superseded: usize,
    pub archived: usize,
    pub ttl_set: usize,
    pub closed_event: bool,
    pub audit_seq: Option<u64>,
}

/// Report of a run deprecation.
#[derive(Clone, Debug, Default, PartialEq, Eq)]
pub struct DeprecateRunReport {
    pub archived: usize,
    pub ttl_set: usize,
}

/// Conflict strategy of a run promotion.
#[derive(Clone, Copy, Debug, Default, PartialEq, Eq, Structural)]
pub enum MergeStrategy {
    /// The base already holds the same key with a different text: error,
    /// nothing is written.
    #[default]
    Fail,
    /// The run wins: its text overwrites the base's payload.
    Ours,
    /// The base wins: the conflicting memory stays in the run.
    Theirs,
}

/// Report of a run promotion.
#[derive(Clone, Debug, Default, PartialEq, Eq)]
pub struct PromoteRunReport {
    /// Storage keys promoted (re-scoped to the base).
    pub promoted: Vec<String>,
    /// Memories identical in the base: deduplicated.
    pub deduped: usize,
    /// Conflicts resolved by the strategy, by key.
    pub conflicts: Vec<String>,
    /// Keys left in the run because the base won.
    pub conflicts_kept: Vec<String>,
}


/// What a promotion does with one source memory.
#[derive(Clone, Copy, Debug, PartialEq, Eq, Structural)]
pub enum PromotionStep {
    /// The base holds the same text: nothing to do.
    Deduplicated,
    /// The base does not hold the key: the memory is written there.
    Promoted,
    /// The base holds another text and the run wins: it is overwritten.
    Overwritten,
    /// The base holds another text and wins: the memory stays in the run.
    KeptInRun,
}

/// Step for a source memory with text `run` whose base key holds `base`
/// (`None`: the key is new to the base); `None` when the texts differ and
/// the strategy is to fail.
pub open spec fn step_of(base: Option<Seq<char>>, run: Seq<char>, strategy: MergeStrategy) -> Option<PromotionStep> {
    match base {
        None => Some(PromotionStep::Promoted),
        Some(b) => if b == run {
            Some(PromotionStep::Deduplicated)
        } else {
            match strategy {
                MergeStrategy::Fail => None,
                MergeStrategy::Ours => Some(PromotionStep::Overwritten),
                MergeStrategy::Theirs => Some(PromotionStep::KeptInRun),
            }
        },
    }
}

/// The decision for one source memory.
pub fn promotion_step(base: Option<&str>, run: &str, strategy: MergeStrategy) -> (r: Option<PromotionStep>)
    ensures
        r == step_of(
            match base {
                Some(b) => Some(b@),
                None => None,
            },
            run@,
            strategy,
        ),
{
    match base {
        None => Some(PromotionStep::Promoted),
        Some(b) => if same_text(b, run) {
            Some(PromotionStep::Deduplicated)
        } else {
            match strategy {
                MergeStrategy::Fail => None,
                MergeStrategy::Ours => Some(PromotionStep::Overwritten),
                MergeStrategy::Theirs => Some(PromotionStep::KeptInRun),
            }
        },
    }
}

/// What a promotion report holds.
pub struct PromoteModel {
    pub promoted: Seq<Seq<char>>,
    pub deduped: nat,
    pub conflicts: Seq<Seq<char>>,
    pub conflicts_kept: Seq<Seq<char>>,
}

impl PromoteRunReport {
    pub open spec fn model(&self) -> PromoteModel {
        PromoteModel {
            promoted: str_views(self.promoted@),
            deduped: self.deduped as nat,
            conflicts: str_views(self.conflicts@),
            conflicts_kept: str_views(self.conflicts_kept@),
        }
    }
}

/// One source of a promotion: its base storage key, the base's text under
/// that key (if any) and the run's text.
pub open spec fn source_view(x: (String, Option<String>, String)) -> (Seq<char>, Option<Seq<char>>, Seq<char>) {
    (
        x.0@,
        match x.1 {
            Some(b) => Some(b@),
            None => None,
        },
        x.2@,
    )
}

/// Report of promoting the sources in order (`None`: a conflict under the
/// `Fail` strategy stops it).
pub open spec fn plan_model(xs: Seq<(Seq<char>, Option<Seq<char>>, Seq<char>)>, strategy: MergeStrategy) -> Option<PromoteModel>
    decreases xs.len(),
{
    if xs.len() == 0 {
        Some(PromoteModel { promoted: Seq::empty(), deduped: 0, conflicts: Seq::empty(), conflicts_kept: Seq::empty() })
    } else {
        let (k, b, t) = xs.last();
        match plan_model(xs.drop_last(), strategy) {
            None => None,
            Some(r) => match step_of(b, t, strategy) {
                None => None,
                Some(PromotionStep::Deduplicated) => Some(PromoteModel { deduped: r.deduped + 1, ..r }),
                Some(PromotionStep::Promoted) => Some(PromoteModel { promoted: r.promoted.push(k), ..r }),
                Some(PromotionStep::Overwritten) => Some(
                    PromoteModel { promoted: r.promoted.push(k), conflicts: r.conflicts.push(k), ..r },
                ),
                Some(PromotionStep::KeptInRun) => Some(PromoteModel { conflicts_kept: r.conflicts_kept.push(k), ..r }),
            },
        }
    }
}

/// A promotion stopped by a conflict stays stopped, whatever follows.
proof fn lemma_plan_stopped(xs: Seq<(Seq<char>, Option<Seq<char>>, Seq<char>)>, strategy: MergeStrategy, j: int, k: int)
    requires
        0 <= j <= k <= xs.len(),
        plan_model(xs.take(j), strategy) is None,
    ensures
        plan_model(xs.take(k), strategy) is None,
    decreases k - j,
{
    if k > j {
        lemma_plan_stopped(xs, strategy, j, k - 1);
        assert(xs.take(k).drop_last() =~= xs.take(k - 1));
    }
}

/// Plans a promotion of a run's active memories (in the order given,
/// sorted by storage key) into the base: the report of what each one
/// becomes, or the conflict error of the `Fail` strategy.
pub fn plan_promotion(sources: &Vec<(String, Option<String>, String)>, strategy: MergeStrategy) -> (r: Result<
    PromoteRunReport,
    SgdbError,
>)
    ensures
        match r {
            Ok(rep) => plan_model(sources@.map_values(|x: (String, Option<String>, String)| source_view(x)), strategy)
                == Some(rep.model()),
            Err(e) => plan_model(sources@.map_values(|x: (String, Option<String>, String)| source_view(x)), strategy)
                is None && e == SgdbError::Invalid(
                "promote_run conflict: base and run texts differ (strategy=fail; resolve manually or use ours/theirs)",
            ),
        },
{
    let ghost xs = sources@.map_values(|x: (String, Option<String>, String)| source_view(x));
    let mut rep = PromoteRunReport { promoted: Vec::new(), deduped: 0, conflicts: Vec::new(), conflicts_kept: Vec::new() };
    proof {
        assert(rep.model() == plan_model(xs.take(0), strategy)->0) by {
            assert(xs.take(0) =~= Seq::<(Seq<char>, Option<Seq<char>>, Seq<char>)>::empty());
            assert(str_views(rep.promoted@) =~= Seq::<Seq<char>>::empty());
            assert(str_views(rep.conflicts@) =~= Seq::<Seq<char>>::empty());
            assert(str_views(rep.conflicts_kept@) =~= Seq::<Seq<char>>::empty());
        }
    }
    let mut i: usize = 0;
    while i < sources.len()
        invariant
            0 <= i <= sources@.len(),
            xs == sources@.map_values(|x: (String, Option<String>, String)| source_view(x)),
            plan_model(xs.take(i as int), strategy) == Some(rep.model()),
            rep.deduped <= i,
        decreases sources@.len() - i,
    {
        proof {
            assert(xs.take(i + 1).drop_last() =~= xs.take(i as int));
            assert(xs.take(i + 1).last() == source_view(sources@[i as int]));
        }
        let base: Option<&str> = match &sources[i].1 {
            Some(b) => Some(b.as_str()),
            None => None,
        };
        let step = promotion_step(base, sources[i].2.as_str(), strategy);
        let key = sources[i].0.clone();
        let ghost old_rep = rep.model();
        match step {
            None => {
                proof {
                    lemma_plan_stopped(xs, strategy, i + 1, xs.len() as int);
                    assert(xs.take(xs.len() as int) =~= xs);
                }
                return Err(
                    SgdbError::Invalid(
                        "promote_run conflict: base and run texts differ (strategy=fail; resolve manually or use ours/theirs)",
                    ),
                );
            },
            Some(PromotionStep::Deduplicated) => {
                rep.deduped = rep.deduped + 1;
            },
            Some(PromotionStep::Promoted) => {
                rep.promoted.push(key);
                proof {
                    assert(str_views(rep.promoted@) =~= old_rep.promoted.push(sources@[i as int].0@));
                }
            },
            Some(PromotionStep::Overwritten) => {
                let k2 = key.clone();
                rep.conflicts.push(key);
                rep.promoted.push(k2);
                proof {
                    assert(str_views(rep.promoted@) =~= old_rep.promoted.push(sources@[i as int].0@));
                    assert(str_views(rep.conflicts@) =~= old_rep.conflicts.push(sources@[i as int].0@));
                }
            },
            Some(PromotionStep::KeptInRun) => {
                rep.conflicts_kept.push(key);
                proof {
                    assert(str_views(rep.conflicts_kept@) =~= old_rep.conflicts_kept.push(sources@[i as int].0@));
                }
            },
        }
        i += 1;
    }
    proof {
        assert(xs.take(sources@.len() as int) =~= xs);
    }
    Ok(rep)
}


/// Storage key of a memory written in a run: `md/`, the layer, `/`, the
/// run, `/`, then the key the memory has in the base.
pub open spec fn run_key_text(layer: Seq<char>, run: Seq<char>, base: Seq<char>) -> Seq<char> {
    seq!['m', 'd', '/'] + layer + seq!['/'] + run + seq!['/'] + base
}

/// Where the parts of a run key sit.
proof fn lemma_run_key_layout(layer: Seq<char>, run: Seq<char>, base: Seq<char>)
    requires
        !layer.contains('/'),
    ensures
        ({
            let t = run_key_text(layer, run, base);
            let p: int = 3 + layer.len() as int;
            &&& t.len() == p + 2 + run.len() as int + base.len()
            &&& t[0] == 'm' && t[1] == 'd' && t[2] == '/'
            &&& forall|i: int| 3 <= i < p ==> t[i] != '/'
            &&& t[p] == '/'
            &&& t.subrange(p + 1, p + 1 + run.len() as int) == run
            &&& t[p + 1 + run.len() as int] == '/'
            &&& t.subrange(p + 2 + run.len() as int, t.len() as int) == base
        }),
{
    let t = run_key_text(layer, run, base);
    let p: int = 3 + layer.len() as int;
    assert forall|i: int| 3 <= i < p implies t[i] != '/' by {
        assert(t[i] == layer[i - 3]);
        if layer[i - 3] == '/' {
            assert(layer.contains('/'));
        }
    }
    assert(t.subrange(p + 1, p + 1 + run.len() as int) =~= run);
    assert(t.subrange(p + 2 + run.len() as int, t.len() as int) =~= base);
}

/// Whether `c[at..]` starts with `w`.
fn chars_match_at(c: &Vec<char>, at: usize, w: &Vec<char>) -> (r: bool)
    requires
        at <= c@.len(),
    ensures
        r == (at + w@.len() <= c@.len() && c@.subrange(at as int, at + w@.len()) == w@),
{
    if w.len() > c.len() - at {
        return false;
    }
    let mut i: usize = 0;
    while i < w.len()
        invariant
            0 <= i <= w@.len(),
            at + w@.len() <= c@.len(),
            c@.len() == c.len(),
            forall|j: int| 0 <= j < i ==> c@[at + j] == w@[j],
        decreases w@.len() - i,
    {
        if c[at + i] != w[i] {
            proof {
                assert(c@.subrange(at as int, at + w@.len())[i as int] != w@[i as int]);
            }
            return false;
        }
        i += 1;
    }
    assert(c@.subrange(at as int, at + w@.len()) =~= w@);
    true
}

/// The key in the base of a memory written in run `run`: `sk` read as
/// `md/<layer>/<run>/<base>` (the layer holds no `/`, the base is not
/// empty); `None` for any other key.
pub fn base_key_of(sk: &str, run: &str) -> (r: Option<String>)
    ensures
        r matches Some(b) ==> b@.len() > 0 && exists|layer: Seq<char>|
            !layer.contains('/') && sk@ == #[trigger] run_key_text(layer, run@, b@),
        forall|layer: Seq<char>, b: Seq<char>|
            !layer.contains('/') && b.len() > 0 && sk@ == #[trigger] run_key_text(layer, run@, b) ==> (r matches Some(
                x,
            ) && x@ == b),
{
    let c = chars_of(sk);
    let rc = chars_of(run);
    if c.len() < 3 || c[0] != 'm' || c[1] != 'd' || c[2] != '/' {
        proof {
            assert forall|layer: Seq<char>, b: Seq<char>|
                !layer.contains('/') && b.len() > 0 && sk@ == #[trigger] run_key_text(layer, run@, b) implies false by {
                lemma_run_key_layout(layer, run@, b);
            }
        }
        return None;
    }
    let p = find_char(&c, 3, '/');
    if p >= c.len() {
        proof {
            assert forall|layer: Seq<char>, b: Seq<char>|
                !layer.contains('/') && b.len() > 0 && sk@ == #[trigger] run_key_text(layer, run@, b) implies false by {
                lemma_run_key_layout(layer, run@, b);
                assert(c@[3 + layer.len() as int] == '/');
            }
        }
        return None;
    }
    proof {
        assert forall|layer: Seq<char>, b: Seq<char>|
            !layer.contains('/') && b.len() > 0 && sk@ == #[trigger] run_key_text(layer, run@, b) implies p == 3
            + layer.len() by {
            lemma_run_key_layout(layer, run@, b);
            if p < 3 + layer.len() {
                assert(c@[p as int] != '/');
            } else if p > 3 + layer.len() {
                assert(c@[3 + layer.len() as int] == '/');
            }
        }
    }
    if !chars_match_at(&c, p + 1, &rc) {
        proof {
            assert forall|layer: Seq<char>, b: Seq<char>|
                !layer.contains('/') && b.len() > 0 && sk@ == #[trigger] run_key_text(layer, run@, b) implies false by {
                lemma_run_key_layout(layer, run@, b);
            }
        }
        return None;
    }
    let q = p + 1 + rc.len();
    if q >= c.len() || c[q] != '/' || q + 1 >= c.len() {
        proof {
            assert forall|layer: Seq<char>, b: Seq<char>|
                !layer.contains('/') && b.len() > 0 && sk@ == #[trigger] run_key_text(layer, run@, b) implies false by {
                lemma_run_key_layout(layer, run@, b);
            }
        }
        return None;
    }
    let base = string_of(&c, q + 1, c.len());
    proof {
        let layer = c@.subrange(3, p as int);
        assert(!layer.contains('/')) by {
            if layer.contains('/') {
                let i = choose|i: int| 0 <= i < layer.len() && layer[i] == '/';
                assert(c@[3 + i] == '/');
            }
        }
        assert(c@.subrange(0, 3) =~= seq!['m', 'd', '/']);
        assert(c@ =~= c@.subrange(0, 3) + layer + seq!['/'] + c@.subrange(p + 1, q as int) + seq!['/'] + base@);
        assert(sk@ =~= run_key_text(layer, run@, base@));
        assert forall|layer2: Seq<char>, b2: Seq<char>|
            !layer2.contains('/') && b2.len() > 0 && sk@ == #[trigger] run_key_text(layer2, run@, b2) implies base@ == b2 by {
            lemma_run_key_layout(layer2, run@, b2);
        }
    }
    Some(base)
}

} // verus!
