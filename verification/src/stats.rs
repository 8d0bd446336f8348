//! What the action log says, summarised: where windows actually go. Reading
//! the log file and printing the summary is the program's business.
use vstd::prelude::*;

use crate::json::{json_parses, json_string_at, parses, string_at};
use crate::names::NameMap;
use crate::picker::opt_text;
use vstd::relations::{sorted_by, total_ordering};

use crate::text::{chars_of, copy_text, lines, lines_exec, owned, string_of, text_le, views};

verus! {

/// The log's entries: every line that reads as JSON.
pub open spec fn entries(text: Seq<char>) -> Seq<Seq<char>> {
    lines(text).filter(|l: Seq<char>| json_parses(l))
}

/// A field of an entry, or what stands in when it is not there.
pub open spec fn field_or(line: Seq<char>, pointer: Seq<char>, missing: Seq<char>) -> Seq<char> {
    match json_string_at(line, pointer) {
        Some(v) => v,
        None => missing,
    }
}

/// How many entries say `x` at `pointer` (`missing` standing in for an
/// absent field, when there is one).
pub open spec fn tally_of(es: Seq<Seq<char>>, pointer: Seq<char>, missing: Option<Seq<char>>, x: Seq<char>) -> nat
    decreases es.len(),
{
    if es.len() == 0 {
        0
    } else {
        let says = match json_string_at(es.last(), pointer) {
            Some(v) => Some(v),
            None => missing,
        };
        tally_of(es.drop_last(), pointer, missing, x) + if says == Some(x) {
            1nat
        } else {
            0nat
        }
    }
}

proof fn lemma_tally_bound(es: Seq<Seq<char>>, pointer: Seq<char>, missing: Option<Seq<char>>, x: Seq<char>)
    ensures
        tally_of(es, pointer, missing, x) <= es.len(),
    decreases es.len(),
{
    if es.len() > 0 {
        lemma_tally_bound(es.drop_last(), pointer, missing, x);
    }
}

/// What a summary of the log holds.
pub struct Tally {
    /// Every entry, in order.
    pub entries: Vec<String>,
    /// How many entries there are of each outcome; "?" for an entry that
    /// names none.
    pub outcomes: NameMap<usize>,
    /// How many entries name each destination.
    pub targets: NameMap<usize>,
}

/// Whether the counts in `m` are those of `es` at `pointer`.
pub open spec fn counts_agree(
    m: NameMap<usize>,
    es: Seq<Seq<char>>,
    pointer: Seq<char>,
    missing: Option<Seq<char>>,
) -> bool {
    &&& forall|x: Seq<char>| #[trigger] m.has(x) <==> tally_of(es, pointer, missing, x) > 0
    &&& forall|x: Seq<char>|
        #[trigger] m.has(x) ==> m.lookup(x) == Some(tally_of(es, pointer, missing, x) as usize)
}

fn count_into(m: &mut NameMap<usize>, key: String, bound: usize) -> (n: usize)
    requires
        old(m).lookup(key@) matches Some(v) ==> v < bound,
    ensures
        forall|x: Seq<char>| #[trigger] final(m).has(x) <==> old(m).has(x) || x == key@,
        forall|x: Seq<char>| x != key@ ==> #[trigger] final(m).lookup(x) == old(m).lookup(x),
        final(m).lookup(key@) == Some(
            match old(m).lookup(key@) {
                Some(v) => (v + 1) as usize,
                None => 1usize,
            },
        ),
{
    let n: usize = match m.get(key.as_str()) {
        Some(v) => *v,
        None => 0,
    };
    m.insert(key, n + 1);
    n + 1
}

/// The outcome an entry is counted under: the one it names, or "?".
pub open spec fn outcome_named(outcome: Option<Seq<char>>) -> Seq<char> {
    match outcome {
        Some(o) => o,
        None => "?"@,
    }
}

/// One more of `key` in a count, everything else as it was.
pub open spec fn counted_once(after: NameMap<usize>, before: NameMap<usize>, key: Seq<char>) -> bool {
    &&& forall|x: Seq<char>| #[trigger] after.has(x) <==> before.has(x) || x == key
    &&& forall|x: Seq<char>| x != key ==> #[trigger] after.lookup(x) == before.lookup(x)
    &&& after.lookup(key) == Some(
        match before.lookup(key) {
            Some(v) => (v + 1) as usize,
            None => 1usize,
        },
    )
}

impl Tally {
    /// No count is larger than the number of entries.
    pub open spec fn counted(&self) -> bool {
        &&& forall|x: Seq<char>|
            #[trigger] self.outcomes.lookup(x) matches Some(n) ==> n <= self.entries@.len()
        &&& forall|x: Seq<char>|
            #[trigger] self.targets.lookup(x) matches Some(n) ==> n <= self.entries@.len()
    }

    /// Nothing counted yet.
    pub fn new() -> (t: Tally)
        ensures
            t.entries@.len() == 0,
            t.counted(),
            forall|x: Seq<char>| !(#[trigger] t.outcomes.has(x)),
            forall|x: Seq<char>| !(#[trigger] t.targets.has(x)),
    {
        Tally { entries: Vec::new(), outcomes: NameMap::new(), targets: NameMap::new() }
    }

    /// Count one entry, given what it says at `/outcome` and at `/to`.
    pub fn record(&mut self, line: String, outcome: Option<String>, to: Option<String>)
        requires
            old(self).counted(),
            old(self).entries@.len() < usize::MAX,
        ensures
            final(self).counted(),
            final(self).entries@ == old(self).entries@.push(line),
            counted_once(final(self).outcomes, old(self).outcomes, outcome_named(opt_text(outcome))),
            match opt_text(to) {
                Some(t) => counted_once(final(self).targets, old(self).targets, t),
                None => final(self).targets == old(self).targets,
            },
    {
        let ghost before = *self;
        let kind = match outcome {
            Some(k) => k,
            None => owned("?"),
        };
        proof {
            reveal_strlit("?");
        }
        self.entries.push(line);
        let bound = self.entries.len();
        count_into(&mut self.outcomes, kind, bound);
        match to {
            Some(t) => {
                count_into(&mut self.targets, t, bound);
            },
            None => {},
        }
        proof {
            assert forall|x: Seq<char>|
                #[trigger] self.outcomes.lookup(x) is Some implies self.outcomes.lookup(x)->0 <= self.entries@.len() by {
                if x != outcome_named(opt_text(outcome)) {
                    assert(self.outcomes.lookup(x) == before.outcomes.lookup(x));
                }
            }
            assert forall|x: Seq<char>|
                #[trigger] self.targets.lookup(x) is Some implies self.targets.lookup(x)->0 <= self.entries@.len() by {
                if opt_text(to) != Some(x) {
                    assert(self.targets.lookup(x) == before.targets.lookup(x));
                }
            }
        }
    }
}

/// Summarise a log.
pub fn tally(text: &str) -> (t: Tally)
    ensures
        views(t.entries@) == entries(text@),
        counts_agree(t.outcomes, entries(text@), "/outcome"@, Some("?"@)),
        counts_agree(t.targets, entries(text@), "/to"@, None),
{
    let ls = lines_exec(chars_of(text).as_slice());
    let ghost lv = lines(text@);
    let ghost keep = |l: Seq<char>| json_parses(l);
    let mut t = Tally::new();
    let mut i: usize = 0;
    while i < ls.len()
        invariant
            i <= ls@.len(),
            ls@.len() == lv.len(),
            lv == lines(text@),
            keep == (|l: Seq<char>| json_parses(l)),
            forall|k: int| 0 <= k < ls@.len() ==> #[trigger] ls@[k]@ == lv[k],
            views(t.entries@) == lv.take(i as int).filter(keep),
            t.entries@.len() <= i,
            t.counted(),
            counts_agree(t.outcomes, views(t.entries@), "/outcome"@, Some("?"@)),
            counts_agree(t.targets, views(t.entries@), "/to"@, None),
        decreases ls.len() - i,
    {
        proof {
            assert(lv.take(i + 1) =~= lv.take(i as int).push(lv[i as int]));
            lv.take(i as int).lemma_filter_push(lv[i as int], keep);
        }
        let line = string_of(ls[i].as_slice());
        if parses(line.as_str()) {
            let ghost before = views(t.entries@);
            let ghost old_outcomes = t.outcomes;
            let ghost old_targets = t.targets;
            let kind = string_at(line.as_str(), "/outcome");
            let to = string_at(line.as_str(), "/to");
            let ghost kind_v = outcome_named(opt_text(kind));
            let ghost to_v = opt_text(to);
            let ghost line_v = line@;
            t.record(copy_text(&line), kind, to);
            let ghost now = views(t.entries@);
            proof {
                reveal_strlit("?");
                assert(now =~= before.push(line_v));
                assert(now.drop_last() =~= before);
                assert(now.last() == line_v);
                assert forall|x: Seq<char>|
                    #[trigger] tally_of(now, "/outcome"@, Some("?"@), x) == tally_of(
                        before,
                        "/outcome"@,
                        Some("?"@),
                        x,
                    ) + (if kind_v == x {
                        1nat
                    } else {
                        0nat
                    }) by {}
                assert forall|x: Seq<char>|
                    #[trigger] tally_of(now, "/to"@, None, x) == tally_of(before, "/to"@, None, x)
                        + (if to_v == Some(x) {
                        1nat
                    } else {
                        0nat
                    }) by {}
                assert forall|x: Seq<char>| #[trigger] t.outcomes.has(x) <==> tally_of(
                    now,
                    "/outcome"@,
                    Some("?"@),
                    x,
                ) > 0 by {
                    assert(old_outcomes.has(x) <==> tally_of(before, "/outcome"@, Some("?"@), x) > 0);
                }
                assert forall|x: Seq<char>| #[trigger] t.outcomes.has(x) implies t.outcomes.lookup(x)
                    == Some(tally_of(now, "/outcome"@, Some("?"@), x) as usize) by {
                    lemma_tally_bound(before, "/outcome"@, Some("?"@), x);
                    lemma_tally_bound(now, "/outcome"@, Some("?"@), x);
                    if old_outcomes.has(x) {
                        assert(old_outcomes.lookup(x) == Some(
                            tally_of(before, "/outcome"@, Some("?"@), x) as usize,
                        ));
                    } else {
                        assert(tally_of(before, "/outcome"@, Some("?"@), x) == 0);
                    }
                }
                assert forall|x: Seq<char>| #[trigger] t.targets.has(x) <==> tally_of(
                    now,
                    "/to"@,
                    None,
                    x,
                ) > 0 by {
                    assert(old_targets.has(x) <==> tally_of(before, "/to"@, None, x) > 0);
                }
                assert forall|x: Seq<char>| #[trigger] t.targets.has(x) implies t.targets.lookup(x)
                    == Some(tally_of(now, "/to"@, None, x) as usize) by {
                    lemma_tally_bound(before, "/to"@, None, x);
                    lemma_tally_bound(now, "/to"@, None, x);
                    if old_targets.has(x) {
                        assert(old_targets.lookup(x) == Some(tally_of(before, "/to"@, None, x) as usize));
                    } else {
                        assert(tally_of(before, "/to"@, None, x) == 0);
                    }
                }
            }
        }
        i += 1;
    }
    assert(lv.take(lv.len() as int) =~= lv);
    t
}

/// Most first; among equals, by name.
pub open spec fn rank_leq() -> spec_fn((Seq<char>, usize), (Seq<char>, usize)) -> bool {
    |a: (Seq<char>, usize), b: (Seq<char>, usize)| a.1 > b.1 || (a.1 == b.1 && text_le(a.0, b.0))
}

proof fn lemma_rank_order()
    ensures
        total_ordering(rank_leq()),
{
    let leq = rank_leq();
    assert forall|x: (Seq<char>, usize), y: (Seq<char>, usize)| #[trigger] leq(x, y) && #[trigger] leq(
        y,
        x,
    ) implies x == y by {
        crate::text::lemma_text_lt_asym(x.0, y.0);
    }
    assert forall|x: (Seq<char>, usize), y: (Seq<char>, usize), z: (Seq<char>, usize)|
        #[trigger] leq(x, y) && #[trigger] leq(y, z) implies leq(x, z) by {
        if x.1 == y.1 && y.1 == z.1 && x.0 != y.0 && y.0 != z.0 {
            crate::text::lemma_text_lt_trans(x.0, y.0, z.0);
        }
    }
    assert forall|x: (Seq<char>, usize), y: (Seq<char>, usize)| #[trigger] leq(x, y) || #[trigger] leq(
        y,
        x,
    ) by {
        crate::text::lemma_text_lt_total(x.0, y.0);
    }
}

/// A map's entries, name and count, in name order.
pub open spec fn entries_of(m: NameMap<usize>) -> Seq<(Seq<char>, usize)> {
    Seq::new(m.keys().len(), |i: int| (m.keys()[i], m.values()[i]))
}

pub open spec fn ranked_views(v: Seq<(String, usize)>) -> Seq<(Seq<char>, usize)> {
    v.map_values(|e: (String, usize)| (e.0@, e.1))
}

/// Where windows went, most often first, ties by name.
pub fn ranked(targets: &NameMap<usize>) -> (r: Vec<(String, usize)>)
    ensures
        ranked_views(r@) == entries_of(*targets).sort_by(rank_leq()),
{
    let ghost all = entries_of(*targets);
    let ghost leq = rank_leq();
    proof {
        lemma_rank_order();
        targets.lemma_shape();
    }
    let mut r: Vec<(String, usize)> = Vec::new();
    let mut i: usize = 0;
    assert(ranked_views(r@) =~= all.take(0));
    while i < targets.len()
        invariant
            i <= all.len(),
            all == entries_of(*targets),
            all.len() == targets.keys().len(),
            leq == rank_leq(),
            total_ordering(leq),
            sorted_by(ranked_views(r@), leq),
            ranked_views(r@).to_multiset() == all.take(i as int).to_multiset(),
        decreases all.len() - i,
    {
        let x = (copy_text(targets.key_at(i)), *targets.value_at(i));
        let ghost xv = (x.0@, x.1);
        assert(xv == all[i as int]);
        let ghost rv = ranked_views(r@);
        let mut j: usize = 0;
        while j < r.len() && (r[j].1 > x.1 || (r[j].1 == x.1 && !crate::text::less_text(
            x.0.as_str(),
            r[j].0.as_str(),
        )))
            invariant
                j <= r@.len(),
                rv == ranked_views(r@),
                leq == rank_leq(),
                xv == (x.0@, x.1),
                forall|k: int| 0 <= k < j ==> #[trigger] leq(rv[k], xv),
            decreases r.len() - j,
        {
            proof {
                let a = rv[j as int];
                assert(a == (r@[j as int].0@, r@[j as int].1));
                if a.1 == xv.1 {
                    crate::text::lemma_text_lt_total(xv.0, a.0);
                }
            }
            j += 1;
        }
        proof {
            if j < r@.len() {
                let a = rv[j as int];
                assert(a == (r@[j as int].0@, r@[j as int].1));
                if a.1 == xv.1 {
                    crate::text::lemma_text_lt_asym(xv.0, a.0);
                    crate::text::lemma_text_lt_irreflexive(a.0);
                }
            }
            crate::text::lemma_insert_sorted_by(rv, xv, j as int, leq);
            assert(all.take(i + 1) =~= all.take(i as int).push(xv));
            vstd::seq_lib::to_multiset_insert(rv, j as int, xv);
            vstd::seq_lib::to_multiset_build(all.take(i as int), xv);
        }
        r.insert(j, x);
        assert(ranked_views(r@) =~= rv.insert(j as int, xv));
        i += 1;
    }
    proof {
        assert(all.take(all.len() as int) =~= all);
        all.lemma_sort_by_ensures(leq);
        vstd::seq_lib::lemma_sorted_unique(ranked_views(r@), all.sort_by(leq), leq);
    }
    r
}

/// One entry as the summary lists it.
pub struct Recent {
    pub at: String,
    pub outcome: String,
    pub app: String,
    pub from: String,
    pub to: String,
}

/// What stands in for a field that is missing.
pub open spec fn or_missing(o: Option<Seq<char>>, missing: Seq<char>) -> Seq<char> {
    match o {
        Some(v) => v,
        None => missing,
    }
}

fn or_else(o: Option<String>, missing: &str) -> (r: String)
    ensures
        r@ == or_missing(opt_text(o), missing@),
{
    match o {
        Some(v) => v,
        None => owned(missing),
    }
}

/// One entry as the summary lists it, given what it says at `/at`,
/// `/outcome`, `/window/app`, `/from` and `/to`.
pub fn recent_from_fields(
    at: Option<String>,
    outcome: Option<String>,
    app: Option<String>,
    from: Option<String>,
    to: Option<String>,
) -> (r: Recent)
    ensures
        r.at@ == or_missing(opt_text(at), ""@),
        r.outcome@ == or_missing(opt_text(outcome), "?"@),
        r.app@ == or_missing(opt_text(app), "?"@),
        r.from@ == or_missing(opt_text(from), "?"@),
        r.to@ == or_missing(opt_text(to), "-"@),
{
    Recent {
        at: or_else(at, ""),
        outcome: or_else(outcome, "?"),
        app: or_else(app, "?"),
        from: or_else(from, "?"),
        to: or_else(to, "-"),
    }
}

/// One entry's fields, with what stands in for each that is missing.
pub fn recent_line(line: &str) -> (r: Recent)
    ensures
        r.at@ == field_or(line@, "/at"@, ""@),
        r.outcome@ == field_or(line@, "/outcome"@, "?"@),
        r.app@ == field_or(line@, "/window/app"@, "?"@),
        r.from@ == field_or(line@, "/from"@, "?"@),
        r.to@ == field_or(line@, "/to"@, "-"@),
{
    recent_from_fields(
        string_at(line, "/at"),
        string_at(line, "/outcome"),
        string_at(line, "/window/app"),
        string_at(line, "/from"),
        string_at(line, "/to"),
    )
}

} // verus!
