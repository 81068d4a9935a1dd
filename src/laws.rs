use vstd::prelude::*;
use crate::names::Name;
use crate::pairing::PairingModel;
use crate::roster::{
    RosterModel, AssignError, day_ok, holder, team_holder, without, after_unassign, assign_outcome,
    lemma_after_unassign_ok,
};
use crate::engine::{nonrepeat, partner_index, lemma_partner_prefers_fresh, lemma_partner_index};
use crate::continuity::{keep, carry, promote, continued, eligible, drop_name, lemma_drop_name};
use crate::shuffle::{kept, free_teams, pool_of, is_arrangement};
use crate::names::{strictly_sorted, lemma_sorted_unique};
use crate::roster::keys_of;
use crate::grand::{labels, relabel_all, by_team, day_teams};

verus! {

/// On every day of a sound roster, at most one record holds any student:
/// two records that both hold `s` are the same record.
pub proof fn law_one_record_per_student(r: RosterModel, d: int, s: Name, p: PairingModel, q: PairingModel)
    requires
        r.wf(),
        0 <= d < r.days.len(),
        r.days[d].contains(p),
        r.days[d].contains(q),
        p.holds(s),
        q.holds(s),
    ensures
        p == q,
{
    assert(day_ok(r.days[d]));
}

/// On every day of a sound roster, no pair joins a student with themself.
pub proof fn law_pair_members_differ(r: RosterModel, d: int, p: PairingModel)
    requires
        r.wf(),
        0 <= d < r.days.len(),
        r.days[d].contains(p),
        p is Pair,
    ensures
        p->Pair_primary != p->Pair_secondary,
{
    assert(day_ok(r.days[d]));
}

/// Taking a student off a day twice leaves the day as taking them off once.
pub proof fn law_unassign_idempotent(ps: Set<PairingModel>, s: Name)
    requires
        day_ok(ps),
    ensures
        after_unassign(after_unassign(ps, s), s) == after_unassign(ps, s),
{
    lemma_after_unassign_ok(ps, s);
    let once = after_unassign(ps, s);
    assert(holder(once, s) is None);
    assert(without(once, s) =~= once);
}

/// A student put on a team that already holds a full pair of two other
/// students is turned down with `TeamFull`, and the day stays as it was.
pub proof fn law_full_team_refuses(ps: Set<PairingModel>, s: Name, sec: Name, t: Name, p: PairingModel)
    requires
        day_ok(ps),
        sec.len() > 0,
        t.len() > 0,
        ps.contains(p),
        p is Pair,
        p.team_of() == Some(t),
        !p.holds(s),
    ensures
        assign_outcome(ps, s, sec, t) == Err::<Set<PairingModel>, AssignError>(AssignError::TeamFull),
{
    lemma_after_unassign_ok(ps, s);
    let rest = after_unassign(ps, s);
    assert(without(ps, s).contains(p));
    assert(rest.contains(p));
    assert(team_holder(rest, t) == Some(p));
}

/// Where the pool holds someone `s` was never with, the partner picked for
/// `s` is someone `s` was never with.
pub proof fn law_partner_prefers_fresh(days: Seq<Set<PairingModel>>, d: int, s: Name, pool: Seq<Name>, j: int)
    requires
        0 <= j < pool.len(),
        nonrepeat(days, d, s, pool[j]),
    ensures
        nonrepeat(days, d, s, pool[partner_index(days, d, s, pool)]),
{
    lemma_partner_prefers_fresh(days, d, s, pool, j);
}

/// Each step of dealing `students` onto `teams` (as `deal` and so `shuffle`
/// do) that takes a student while the rest of the pool holds someone they
/// were never with gives them such a partner.
pub open spec fn deal_prefers_fresh(days: Seq<Set<PairingModel>>, d: int, students: Seq<Name>, teams: Seq<Name>) -> bool
    decreases students.len(),
{
    if students.len() > 1 && teams.len() > 0 {
        let primary = students.last();
        let pool = students.drop_last();
        let k = partner_index(days, d, primary, pool);
        &&& (exists|j: int| 0 <= j < pool.len() && nonrepeat(days, d, primary, #[trigger] pool[j])) ==> nonrepeat(
            days,
            d,
            primary,
            pool[k],
        )
        &&& (0 <= k < pool.len() ==> deal_prefers_fresh(days, d, pool.remove(k), teams.drop_first()))
    } else {
        true
    }
}

/// Dealing a section prefers new partners at every step where one is left.
pub proof fn law_shuffle_prefers_fresh(days: Seq<Set<PairingModel>>, d: int, students: Seq<Name>, teams: Seq<Name>)
    ensures
        deal_prefers_fresh(days, d, students, teams),
    decreases students.len(),
{
    if students.len() > 1 && teams.len() > 0 {
        let primary = students.last();
        let pool = students.drop_last();
        lemma_partner_index(days, d, primary, pool);
        let k = partner_index(days, d, primary, pool);
        if exists|j: int| 0 <= j < pool.len() && nonrepeat(days, d, primary, #[trigger] pool[j]) {
            let j = choose|j: int| 0 <= j < pool.len() && nonrepeat(days, d, primary, #[trigger] pool[j]);
            lemma_partner_prefers_fresh(days, d, primary, pool, j);
        }
        law_shuffle_prefers_fresh(days, d, pool.remove(k), teams.drop_first());
    }
}


proof fn lemma_keep(q: PairingModel, sec: Name, students: Seq<Name>, both: bool)
    requires
        students.no_duplicates(),
        q.well_formed(),
    ensures
        keep(q, sec, students, both) matches Some((seed, s1)) ==> (s1.no_duplicates()
            && (forall|x: Name| #[trigger] s1.contains(x) <==> (students.contains(x) && !seed.holds(x)))
            && (forall|x: Name| seed.holds(x) ==> q.holds(x))
            && seed.team_of() == q.team_of()),
{
    match q {
        PairingModel::Pair { primary, secondary, .. } => {
            lemma_drop_name(students, primary);
            lemma_drop_name(students, secondary);
            lemma_drop_name(drop_name(students, primary), secondary);
        },
        PairingModel::Solo { student, .. } => {
            lemma_drop_name(students, student);
        },
        _ => {},
    }
}

proof fn lemma_filter_no_dup(s: Seq<Name>, pred: spec_fn(Name) -> bool)
    requires
        s.no_duplicates(),
    ensures
        s.filter(pred).no_duplicates(),
        forall|x: Name| #[trigger] s.filter(pred).contains(x) <==> (s.contains(x) && pred(x)),
    decreases s.len(),
{
    reveal(Seq::filter);
    if s.len() > 0 {
        let pre = s.drop_last();
        assert(pre.no_duplicates());
        lemma_filter_no_dup(pre, pred);
        let fp = pre.filter(pred);
        assert(!pre.contains(s.last())) by {
            if pre.contains(s.last()) {
                let i = choose|i: int| 0 <= i < pre.len() && pre[i] == s.last();
                assert(s[i] == s[s.len() - 1]);
            }
        }
        assert forall|x: Name| #[trigger] s.contains(x) <==> (pre.contains(x) || x == s.last()) by {
            if s.contains(x) && x != s.last() {
                let i = choose|i: int| 0 <= i < s.len() && s[i] == x;
                assert(pre[i] == x);
            }
            if pre.contains(x) {
                let i = choose|i: int| 0 <= i < pre.len() && pre[i] == x;
                assert(s[i] == x);
            }
            if x == s.last() {
                assert(s[s.len() - 1] == x);
            }
        }
        if pred(s.last()) {
            let f = fp.push(s.last());
            assert forall|x: Name| #[trigger] f.contains(x) <==> (fp.contains(x) || x == s.last()) by {
                if f.contains(x) && x != s.last() {
                    let i = choose|i: int| 0 <= i < f.len() && f[i] == x;
                    assert(fp[i] == x);
                }
                if fp.contains(x) {
                    let i = choose|i: int| 0 <= i < fp.len() && fp[i] == x;
                    assert(f[i] == x);
                }
                if x == s.last() {
                    assert(f[f.len() - 1] == x);
                }
            }
            assert forall|i: int, j: int| 0 <= i < f.len() && 0 <= j < f.len() && i != j implies f[i] != f[j] by {
                if i < fp.len() && j < fp.len() {
                } else if i < fp.len() {
                    assert(fp.contains(f[i]));
                } else {
                    assert(fp.contains(f[j]));
                }
            }
        }
    }
}

proof fn lemma_carry_keeps_pair(prev: Seq<PairingModel>, sec: Name, students: Seq<Name>, teams: Seq<Name>, p: PairingModel)
    requires
        students.no_duplicates(),
        teams.no_duplicates(),
        prev.contains(p),
        p is Pair,
        p.well_formed(),
        forall|q: PairingModel| #[trigger] prev.contains(q) ==> q.well_formed(),
        forall|q: PairingModel| #[trigger] prev.contains(q) && q != p ==> !q.holds(p->Pair_primary)
            && !q.holds(p->Pair_secondary) && q.team_of() != p.team_of(),
        students.contains(p->Pair_primary),
        students.contains(p->Pair_secondary),
        teams.contains(p->Pair_team),
    ensures
        carry(prev, sec, students, teams, true).0.contains(
            PairingModel::Pair { section: sec, team: p->Pair_team, primary: p->Pair_primary, secondary: p->Pair_secondary },
        ),
    decreases prev.len(),
{
    let q = prev[0];
    let rest = prev.drop_first();
    let target = PairingModel::Pair { section: sec, team: p->Pair_team, primary: p->Pair_primary, secondary: p->Pair_secondary };
    assert(prev.contains(q));
    assert forall|x: PairingModel| #[trigger] rest.contains(x) implies prev.contains(x) by {
        let i = choose|i: int| 0 <= i < rest.len() && rest[i] == x;
        assert(prev[i + 1] == x);
    }
    if q == p {
        lemma_drop_name(students, p->Pair_primary);
        let c = carry(rest, sec, drop_name(drop_name(students, p->Pair_primary), p->Pair_secondary), drop_name(teams, p->Pair_team), true);
        assert(carry(prev, sec, students, teams, true).0 == seq![target] + c.0);
        assert((seq![target] + c.0)[0] == target);
    } else {
        assert(rest.contains(p)) by {
            let i = choose|i: int| 0 <= i < prev.len() && prev[i] == p;
            assert(i != 0);
            assert(rest[i - 1] == p);
        }
        lemma_keep(q, sec, students, true);
        if q.team_of() is Some && teams.contains(q.team_of()->0) && keep(q, sec, students, true) is Some {
            let (seed, s1) = keep(q, sec, students, true)->0;
            let t1 = drop_name(teams, q.team_of()->0);
            lemma_drop_name(teams, q.team_of()->0);
            assert(!seed.holds(p->Pair_primary));
            assert(!seed.holds(p->Pair_secondary));
            lemma_carry_keeps_pair(rest, sec, s1, t1, p);
            let c = carry(rest, sec, s1, t1, true);
            assert(carry(prev, sec, students, teams, true).0 == seq![seed] + c.0);
            let k = choose|k: int| 0 <= k < c.0.len() && c.0[k] == target;
            assert((seq![seed] + c.0)[k + 1] == target);
        } else {
            lemma_carry_keeps_pair(rest, sec, students, teams, p);
        }
    }
}

proof fn lemma_promote_keeps_pair(days: Seq<Set<PairingModel>>, d: int, seeds: Seq<PairingModel>, students: Seq<Name>, p: PairingModel)
    requires
        seeds.contains(p),
        p is Pair,
    ensures
        promote(days, d, seeds, students).0.contains(p),
    decreases seeds.len(),
{
    let q = seeds[0];
    if q != p {
        assert(seeds.drop_first().contains(p)) by {
            let i = choose|i: int| 0 <= i < seeds.len() && seeds[i] == p;
            assert(seeds.drop_first()[i - 1] == p);
        }
        match q {
            PairingModel::Solo { student, .. } => {
                if students.len() > 0 {
                    let k = partner_index(days, d, student, students);
                    lemma_promote_keeps_pair(days, d, seeds.drop_first(), students.remove(k), p);
                } else {
                    lemma_promote_keeps_pair(days, d, seeds.drop_first(), students, p);
                }
            },
            _ => {
                lemma_promote_keeps_pair(days, d, seeds.drop_first(), students, p);
            },
        }
    }
}

/// `repeat` keeps yesterday's pair `p` of section `sec` whole where both
/// of its students are there and its team is still free, even though the
/// two were already partners.
pub proof fn law_repeat_keeps_pair(r: RosterModel, d: int, sec: Name, order: Seq<Name>, last: Seq<PairingModel>, p: PairingModel)
    requires
        r.wf(),
        0 < d < r.days.len(),
        is_arrangement(order, pool_of(r, d, sec)),
        forall|q: PairingModel| #[trigger] last.contains(q) <==> eligible(r, d, sec, false).contains(q),
        p is Pair,
        r.days[d - 1].contains(p),
        p.section_of() == Some(sec),
        order.contains(p->Pair_primary),
        order.contains(p->Pair_secondary),
        free_teams(r.teams, kept(r.days[d], sec)).contains(p->Pair_team),
    ensures
        continued(r, d, sec, order, last, true).contains(p),
{
    let yd = r.days[d - 1];
    assert(day_ok(yd));
    assert(last.contains(p));
    assert forall|q: PairingModel| #[trigger] last.contains(q) implies q.well_formed() by {
        assert(yd.contains(q));
    }
    assert forall|q: PairingModel| #[trigger] last.contains(q) && q != p implies !q.holds(p->Pair_primary)
        && !q.holds(p->Pair_secondary) && q.team_of() != p.team_of() by {
        assert(yd.contains(q));
        assert(p.holds(p->Pair_primary) && p.holds(p->Pair_secondary));
    }
    let kp = kept(r.days[d], sec);
    let ft = free_teams(r.teams, kp);
    assert(r.teams.no_duplicates()) by {
        assert forall|i: int, j: int| 0 <= i < r.teams.len() && 0 <= j < r.teams.len() && i != j implies r.teams[i] != r.teams[j] by {
            lemma_sorted_unique(r.teams, i, j);
        }
    }
    lemma_filter_no_dup(r.teams, |t: Name| crate::roster::team_holder(kp, t) is None);
    lemma_carry_keeps_pair(last, sec, order, ft, p);
    let c = carry(last, sec, order, ft, true);
    let target = PairingModel::Pair { section: sec, team: p->Pair_team, primary: p->Pair_primary, secondary: p->Pair_secondary };
    assert(target == p);
    lemma_promote_keeps_pair(r.days, d, c.0, c.1, p);
}


/// How many entries of `s` are `x`.
pub open spec fn count_of(s: Seq<Name>, x: Name) -> nat
    decreases s.len(),
{
    if s.len() == 0 {
        0
    } else {
        count_of(s.drop_last(), x) + if s.last() == x {
            1nat
        } else {
            0nat
        }
    }
}

proof fn lemma_count_concat(a: Seq<Name>, b: Seq<Name>, x: Name)
    ensures
        count_of(a + b, x) == count_of(a, x) + count_of(b, x),
    decreases b.len(),
{
    if b.len() > 0 {
        assert((a + b).drop_last() =~= a + b.drop_last());
        lemma_count_concat(a, b.drop_last(), x);
    } else {
        assert(a + b =~= a);
    }
}

proof fn lemma_count_run(n: nat, y: Name, x: Name)
    ensures
        count_of(Seq::new(n, |i: int| y), x) == if x == y {
            n
        } else {
            0
        },
    decreases n,
{
    if n > 0 {
        assert(Seq::new(n, |i: int| y).drop_last() =~= Seq::new((n - 1) as nat, |i: int| y));
        lemma_count_run((n - 1) as nat, y, x);
    }
}

proof fn lemma_labels_count(secs: Seq<Name>, sizes: Seq<usize>, j: int)
    requires
        secs.no_duplicates(),
        sizes.len() <= secs.len(),
        0 <= j < secs.len(),
    ensures
        count_of(labels(secs, sizes), secs[j]) == if j < sizes.len() {
            sizes[j] as nat
        } else {
            0
        },
    decreases sizes.len(),
{
    if sizes.len() > 0 {
        let pre = sizes.drop_last();
        let k = sizes.len() - 1;
        lemma_labels_count(secs, pre, j);
        lemma_count_concat(labels(secs, pre), Seq::new(sizes.last() as nat, |i: int| secs[k]), secs[j]);
        lemma_count_run(sizes.last() as nat, secs[k], secs[j]);
        if j < k {
            assert(pre[j] == sizes[j]);
        }
    }
}

/// Handing out the team records of day `d` in runs of `sizes` gives the
/// `j`-th section exactly `sizes[j]` of them, and each record handed out
/// takes the section of its run; so with runs that differ by at most one,
/// the sections' counts differ by at most one.
pub proof fn law_sections_get_their_runs(r: RosterModel, d: int, sizes: Seq<usize>, j: int)
    requires
        r.wf(),
        0 <= d < r.days.len(),
        sizes.len() == r.sections.len(),
        0 <= j < sizes.len(),
    ensures
        count_of(labels(keys_of(r.sections), sizes), keys_of(r.sections)[j]) == sizes[j],
        forall|i: int| 0 <= i < by_team(r.days[d], day_teams(r.days[d])).len() && i < labels(keys_of(r.sections), sizes).len()
            ==> (#[trigger] relabel_all(by_team(r.days[d], day_teams(r.days[d])), labels(keys_of(r.sections), sizes))[i]).section_of()
                == Some(labels(keys_of(r.sections), sizes)[i]),
{
    let secs = keys_of(r.sections);
    assert(secs.no_duplicates()) by {
        assert forall|a: int, b: int| 0 <= a < secs.len() && 0 <= b < secs.len() && a != b implies secs[a] != secs[b] by {
            lemma_sorted_unique(secs, a, b);
        }
    }
    lemma_labels_count(secs, sizes, j);
    lemma_team_records_on_teams(r.days[d], day_teams(r.days[d]));
}

proof fn lemma_team_records_on_teams(ps: Set<PairingModel>, teams: Seq<Name>)
    ensures
        forall|i: int| 0 <= i < by_team(ps, teams).len() ==> (#[trigger] by_team(ps, teams)[i]).team_of() is Some,
    decreases teams.len(),
{
    if teams.len() > 0 {
        lemma_team_records_on_teams(ps, teams.drop_last());
    }
}

} // verus!
