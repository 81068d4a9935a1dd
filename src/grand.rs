use vstd::prelude::*;
use crate::names::{Day, Name, Section, Student, Team, strictly_sorted, lemma_sorted_unique};
use crate::pairing::{Pairing, PairingModel, names_of, models_of};
use crate::roster::{DayLocked, Data, RosterModel, day_ok, set_of, keys_of, team_names, section_entries, team_holder, find_on_team, lemma_set_of_push, lemma_set_of_empty, lemma_set_of_index};
use crate::split::{total, chunk_sizes};
use crate::roster::{after_unassign, find_holder, lemma_after_unassign_ok, lemma_insert_ok, student_entries, lemma_filter_push};
use crate::shuffle::{shuffled, pool_of, is_arrangement};
use crate::continuity::{continued, eligible};

verus! {

/// Record `p` moved to section `sec`; absences and records without a team
/// stay as they are.
pub open spec fn relabel(p: PairingModel, sec: Name) -> PairingModel {
    match p {
        PairingModel::Pair { team, primary, secondary, .. } => PairingModel::Pair {
            section: sec,
            team,
            primary,
            secondary,
        },
        PairingModel::Solo { team, student, .. } => PairingModel::Solo { section: sec, team, student },
        _ => p,
    }
}

/// The records of `ps` on the teams of `teams`, in the order of `teams`.
pub open spec fn by_team(ps: Set<PairingModel>, teams: Seq<Name>) -> Seq<PairingModel>
    decreases teams.len(),
{
    if teams.len() == 0 {
        Seq::empty()
    } else {
        let rest = by_team(ps, teams.drop_last());
        match team_holder(ps, teams.last()) {
            Some(p) => rest.push(p),
            None => rest,
        }
    }
}

/// `tn` lists, in name order, the teams that records of `ps` occupy.
pub open spec fn lists_day_teams(ps: Set<PairingModel>, tn: Seq<Name>) -> bool {
    &&& strictly_sorted(tn)
    &&& forall|t: Name| #[trigger] tn.contains(t) <==> exists|p: PairingModel| #[trigger] ps.contains(p) && p.team_of() == Some(t)
}

/// The teams that records of `ps` occupy, in name order.
pub open spec fn day_teams(ps: Set<PairingModel>) -> Seq<Name> {
    choose|tn: Seq<Name>| lists_day_teams(ps, tn)
}

/// The records of `ps` on no team of `teams`.
pub open spec fn unlisted(ps: Set<PairingModel>, teams: Seq<Name>) -> Set<PairingModel> {
    ps.filter(|p: PairingModel| !(p.team_of() is Some && teams.contains(p.team_of()->0)))
}

/// Section `secs[j]` written `sizes[j]` times, for each `j` in turn.
pub open spec fn labels(secs: Seq<Name>, sizes: Seq<usize>) -> Seq<Name>
    decreases sizes.len(),
{
    if sizes.len() == 0 {
        Seq::empty()
    } else {
        labels(secs, sizes.drop_last()) + Seq::new(
            sizes.last() as nat,
            |i: int| secs[sizes.len() - 1],
        )
    }
}

/// Each record moved to the section written beside it.
pub open spec fn relabel_all(recs: Seq<PairingModel>, labs: Seq<Name>) -> Seq<PairingModel> {
    Seq::new(recs.len(), |i: int| relabel(recs[i], labs[i]))
}

/// The day after its team records are handed out to the sections in runs
/// of `sizes`, in team order; records without a team stay.
pub open spec fn regrouped(r: RosterModel, d: int, sizes: Seq<usize>) -> Set<PairingModel> {
    let ps = r.days[d];
    unlisted(ps, day_teams(ps)).union(
        relabel_all(by_team(ps, day_teams(ps)), labels(keys_of(r.sections), sizes)).to_set(),
    )
}

/// Run lengths for `n` sections and `len` records that differ by at most one.
pub open spec fn even_sizes(sizes: Seq<usize>, len: int, n: int) -> bool {
    &&& sizes.len() == n
    &&& total(sizes) == len
    &&& forall|i: int| 0 <= i < n ==> len / n <= #[trigger] sizes[i] <= len / n + 1
}

pub proof fn lemma_labels_len(secs: Seq<Name>, sizes: Seq<usize>)
    ensures
        labels(secs, sizes).len() == total(sizes),
    decreases sizes.len(),
{
    if sizes.len() > 0 {
        lemma_labels_len(secs, sizes.drop_last());
    }
}

pub proof fn lemma_by_team(ps: Set<PairingModel>, teams: Seq<Name>)
    requires
        teams.no_duplicates(),
    ensures
        forall|i: int| 0 <= i < by_team(ps, teams).len() ==> ps.contains(#[trigger] by_team(ps, teams)[i])
            && by_team(ps, teams)[i].team_of() is Some
            && teams.contains(by_team(ps, teams)[i].team_of()->0),
        forall|i: int, j: int|
            0 <= i < by_team(ps, teams).len() && 0 <= j < by_team(ps, teams).len() && i != j
                ==> (#[trigger] by_team(ps, teams)[i]).team_of() != (#[trigger] by_team(ps, teams)[j]).team_of(),
    decreases teams.len(),
{
    if teams.len() > 0 {
        let pre = teams.drop_last();
        assert(pre.no_duplicates());
        lemma_by_team(ps, pre);
        let rest = by_team(ps, pre);
        let b = by_team(ps, teams);
        assert forall|i: int| 0 <= i < rest.len() && pre.contains(rest[i].team_of()->0) implies teams.contains(rest[i].team_of()->0) by {
            let k = choose|k: int| 0 <= k < pre.len() && pre[k] == rest[i].team_of()->0;
            assert(teams[k] == pre[k]);
        }
        assert forall|i: int| 0 <= i < rest.len() implies (#[trigger] rest[i]).team_of() != Some(teams.last()) by {
            let k = choose|k: int| 0 <= k < pre.len() && pre[k] == rest[i].team_of()->0;
            assert(teams[k] == pre[k]);
        }
        if let Some(p) = team_holder(ps, teams.last()) {
            assert(b == rest.push(p));
            assert(teams.contains(teams.last()));
        }
    }
}

impl Data {
    /// The teams that records of day `d` occupy, in name order.
    pub(crate) fn day_team_list(&self, d: usize) -> (r: Vec<Team>)
        requires
            d < self@.days.len(),
        ensures
            team_names(r@) == day_teams(self@.days[d as int]),
            lists_day_teams(self@.days[d as int], team_names(r@)),
    {
        let ps = &self.days[d];
        let ghost day_set = self@.days[d as int];
        assert(day_set == set_of(ps@));
        let mut out: Vec<Team> = Vec::new();
        let mut i: usize = 0;
        proof {
            crate::admin::lemma_team_keys(out@);
        }
        while i < ps.len()
            invariant
                i <= ps.len(),
                day_set == set_of(ps@),
                strictly_sorted(team_names(out@)),
                forall|t: Name| #[trigger] team_names(out@).contains(t) <==> exists|k: int| 0 <= k < i && (#[trigger] ps@[k])@.team_of() == Some(t),
            decreases ps.len() - i,
        {
            match ps[i].team() {
                Some(t) => {
                    let ghost v0 = out@;
                    let ghost tv = t@;
                    let ghost nv = t;
                    proof {
                        crate::admin::lemma_team_keys(v0);
                    }
                    crate::admin::upsert(&mut out, t);
                    proof {
                        crate::admin::lemma_team_keys(out@);
                        let f = |x: Team| x@;
                        let kf = |v: Name| v;
                        assert forall|x: Name| #[trigger] team_names(out@).contains(x) <==> exists|k: int| 0 <= k < i + 1 && (#[trigger] ps@[k])@.team_of() == Some(x) by {
                            crate::admin::lemma_upsert_view(v0, out@, nv, f, kf, x);
                            if exists|k: int| 0 <= k < i + 1 && (#[trigger] ps@[k])@.team_of() == Some(x) {
                                let k = choose|k: int| 0 <= k < i + 1 && (#[trigger] ps@[k])@.team_of() == Some(x);
                                if k < i {
                                    assert(team_names(v0).contains(x));
                                }
                            }
                        }
                    }
                },
                None => {
                    proof {
                        assert forall|x: Name| #[trigger] team_names(out@).contains(x) <==> exists|k: int| 0 <= k < i + 1 && (#[trigger] ps@[k])@.team_of() == Some(x) by {
                            if exists|k: int| 0 <= k < i + 1 && (#[trigger] ps@[k])@.team_of() == Some(x) {
                                let k = choose|k: int| 0 <= k < i + 1 && (#[trigger] ps@[k])@.team_of() == Some(x);
                                assert(k < i);
                            }
                        }
                    }
                },
            }
            i = i + 1;
        }
        proof {
            let tn = team_names(out@);
            assert forall|t: Name| #[trigger] tn.contains(t) <==> exists|p: PairingModel| #[trigger] day_set.contains(p) && p.team_of() == Some(t) by {
                if tn.contains(t) {
                    let k = choose|k: int| 0 <= k < ps@.len() && (#[trigger] ps@[k])@.team_of() == Some(t);
                    lemma_set_of_index(ps@, k);
                }
                if exists|p: PairingModel| #[trigger] day_set.contains(p) && p.team_of() == Some(t) {
                    let p = choose|p: PairingModel| #[trigger] day_set.contains(p) && p.team_of() == Some(t);
                    let k = choose|k: int| 0 <= k < ps@.len() && crate::pairing::models_of(ps@)[k] == p;
                    assert(ps@[k]@ == p);
                }
            }
            assert(lists_day_teams(day_set, tn));
            let c = day_teams(day_set);
            assert(lists_day_teams(day_set, c));
            crate::names::lemma_sorted_same_names(tn, c);
        }
        out
    }

    /// The records of day `d` on a team, in team order; `tl` lists the
    /// day's teams.
    fn team_records(&self, d: usize, tl: &Vec<Team>) -> (r: Vec<Pairing>)
        requires
            self.wf(),
            d < self@.days.len(),
            team_names(tl@) == day_teams(self@.days[d as int]),
        ensures
            models_of(r@) == by_team(self@.days[d as int], day_teams(self@.days[d as int])),
    {
        let ps = &self.days[d];
        let ghost tn = team_names(tl@);
        let mut out: Vec<Pairing> = Vec::new();
        let mut i: usize = 0;
        assert(self@.days[d as int] == set_of(ps@));
        assert(day_ok(self@.days[d as int]));
        assert(models_of(out@) =~= by_team(self@.days[d as int], tn.take(0)));
        while i < tl.len()
            invariant
                i <= tl@.len(),
                tn == team_names(tl@),
                ps == self.days@[d as int],
                self@.days[d as int] == set_of(ps@),
                day_ok(self@.days[d as int]),
                models_of(out@) == by_team(self@.days[d as int], tn.take(i as int)),
            decreases tl@.len() - i,
        {
            let ghost pre = tn.take(i as int);
            proof {
                assert(tn.take(i + 1).drop_last() =~= pre);
                assert(tn.take(i + 1).last() == tl@[i as int]@);
            }
            match find_on_team(ps, &tl[i]) {
                Some(j) => {
                    proof {
                        lemma_set_of_index(ps@, j as int);
                        assert(team_holder(self@.days[d as int], tl@[i as int]@) == Some(ps@[j as int]@));
                    }
                    let ghost before = models_of(out@);
                    out.push(ps[j].duplicate());
                    assert(models_of(out@) =~= before.push(ps@[j as int]@));
                },
                None => {},
            }
            i = i + 1;
        }
        assert(tn.take(tl@.len() as int) =~= tn);
        assert(tn == day_teams(self@.days[d as int]));
        out
    }

    /// The records of day `d` on no team of `tl`.
    fn unlisted_records(&self, d: usize, tl: &Vec<Team>) -> (r: Vec<Pairing>)
        requires
            d < self@.days.len(),
        ensures
            set_of(r@) == unlisted(self@.days[d as int], team_names(tl@)),
    {
        let ps = &self.days[d];
        let ghost tn = team_names(tl@);
        let ghost pred = |p: PairingModel| !(p.team_of() is Some && tn.contains(p.team_of()->0));
        assert(self@.days[d as int] == set_of(ps@));
        let mut out: Vec<Pairing> = Vec::new();
        let mut i: usize = 0;
        proof {
            lemma_set_of_empty(out@);
        }
        while i < ps.len()
            invariant
                i <= ps.len(),
                tn == team_names(tl@),
                pred == (|p: PairingModel| !(p.team_of() is Some && tn.contains(p.team_of()->0))),
                forall|q: PairingModel|
                    #[trigger] set_of(out@).contains(q) <==> (set_of(ps@.take(i as int)).contains(q) && pred(q)),
            decreases ps.len() - i,
        {
            proof {
                assert(ps@.take(i + 1) =~= ps@.take(i as int).push(ps@[i as int]));
                lemma_set_of_push(ps@.take(i as int), ps@[i as int]);
            }
            let listed = match ps[i].team() {
                Some(t) => crate::continuity::has_team(tl, &t),
                None => false,
            };
            if !listed {
                proof {
                    lemma_set_of_push(out@, ps@[i as int]);
                }
                out.push(ps[i].duplicate());
            }
            i = i + 1;
        }
        assert(ps@.take(ps.len() as int) =~= ps@);
        assert(set_of(out@) =~= unlisted(self@.days[d as int], team_names(tl@)));
        out
    }

    /// Hands the team records of `day` out to the sections, in team order,
    /// in runs of `sizes`; each record keeps its team and members and takes
    /// its run's section.
    /// Nothing changes, and `DayLocked` comes back, where the day is locked.
    pub fn shuffle_sections_with(&mut self, day: Day, sizes: Vec<usize>) -> (r: Result<(), DayLocked>)
        requires
            old(self).wf(),
            day.id < old(self)@.days.len(),
            sizes@.len() == old(self)@.sections.len(),
            total(sizes@) == by_team(old(self)@.days[day.id as int], day_teams(old(self)@.days[day.id as int])).len(),
        ensures
            final(self).wf(),
            final(self).path() == old(self).path(),
            !old(self)@.unlocked.contains(day.id) ==> r == Err::<(), DayLocked>(DayLocked) && final(self)@ == old(self)@,
            old(self)@.unlocked.contains(day.id) ==> r is Ok && (final(self)@ == old(self)@.with_day(day.id as int, regrouped(old(self)@, day.id as int, sizes@))),
    {
        if !self.day_unlocked(day.duplicate()) {
            return Err(DayLocked);
        }
        self.shuffle_sections_with_open(day, sizes);
        Ok(())
    }

    pub(crate) fn shuffle_sections_with_open(&mut self, day: Day, sizes: Vec<usize>)
        requires
            old(self).wf(),
            day.id < old(self)@.days.len(),
            sizes@.len() == old(self)@.sections.len(),
            total(sizes@) == by_team(old(self)@.days[day.id as int], day_teams(old(self)@.days[day.id as int])).len(),
        ensures
            final(self).wf(),
            final(self).path() == old(self).path(),
            final(self)@ == old(self)@.with_day(day.id as int, regrouped(old(self)@, day.id as int, sizes@)),
    {
        let d = day.id;
        let ghost r0 = self@;
        let ghost ps0 = r0.days[d as int];
        let tl = self.day_team_list(d);
        let recs = self.team_records(d, &tl);
        let mut out = self.unlisted_records(d, &tl);
        let ghost base = set_of(out@);
        let ghost secs = keys_of(r0.sections);
        let ghost rm = models_of(recs@);
        let ghost target = base.union(relabel_all(rm, labels(secs, sizes@)).to_set());
        let n_recs = recs.len();
        let mut pos: usize = 0;
        let mut j: usize = 0;
        let ghost mut done: Seq<PairingModel> = Seq::empty();
        proof {
            lemma_labels_len(secs, sizes@);
            assert(sizes@.take(0) =~= Seq::<usize>::empty());
            assert(set_of(out@) =~= base.union(done.to_set()));
        }
        while j < sizes.len()
            invariant
                j <= sizes@.len(),
                sizes@.len() == self.sections@.len(),
                secs == keys_of(r0.sections),
                secs.len() == self.sections@.len(),
                n_recs == rm.len(),
                r0.sections == section_entries(self.sections@),
                rm == models_of(recs@),
                total(sizes@) == rm.len(),
                pos == total(sizes@.take(j as int)),
                pos <= rm.len(),
                done == relabel_all(rm.take(pos as int), labels(secs, sizes@.take(j as int))),
                labels(secs, sizes@.take(j as int)).len() == pos,
                set_of(out@) == base.union(done.to_set()),
            decreases sizes@.len() - j,
        {
            let size = sizes[j];
            let ghost lab0 = labels(secs, sizes@.take(j as int));
            proof {
                assert(sizes@.take(j + 1).drop_last() =~= sizes@.take(j as int));
                crate::split::lemma_total_prefix(sizes@, j as int + 1);
                assert(secs[j as int] == self.sections@[j as int].0@);
            }
            let mut k: usize = 0;
            while k < size
                invariant
                    k <= size,
                    pos + size <= rm.len(),
                    n_recs == rm.len(),
                    secs.len() == self.sections@.len(),
                    rm == models_of(recs@),
                    lab0.len() == pos,
                    j < self.sections@.len(),
                    secs[j as int] == self.sections@[j as int].0@,
                    done == relabel_all(rm.take(pos + k), lab0 + Seq::new(k as nat, |i: int| secs[j as int])),
                    set_of(out@) == base.union(done.to_set()),
                decreases size - k,
            {
                let p = &recs[pos + k];
                let sec = self.sections[j].0.duplicate();
                let n = match p {
                    Pairing::Pair { team, primary, secondary, .. } => Pairing::Pair { section: sec, team: team.duplicate(), primary: primary.duplicate(), secondary: secondary.duplicate() },
                    Pairing::Solo { team, student, .. } => Pairing::Solo { section: sec, team: team.duplicate(), student: student.duplicate() },
                    _ => p.duplicate(),
                };
                proof {
                    let lab = lab0 + Seq::new(k as nat, |i: int| secs[j as int]);
                    let lab1 = lab0 + Seq::new((k + 1) as nat, |i: int| secs[j as int]);
                    assert(lab1 =~= lab.push(secs[j as int]));
                    assert(rm[pos + k] == p@);
                    assert(n@ == relabel(p@, secs[j as int]));
                    let nd = relabel_all(rm.take(pos + k + 1), lab1);
                    assert(nd =~= done.push(n@));
                    lemma_set_of_push(out@, n);
                    assert forall|q: PairingModel| #[trigger] nd.to_set().contains(q) <==> done.to_set().insert(n@).contains(q) by {
                        vstd::seq_lib::lemma_seq_contains_after_push(done, n@, q);
                    }
                    assert(nd.to_set() =~= done.to_set().insert(n@));
                    done = nd;
                    assert(base.union(done.to_set()) =~= set_of(out@).insert(n@));
                }
                out.push(n);
                k = k + 1;
            }
            proof {
                let lab1 = labels(secs, sizes@.take(j + 1));
                assert(lab1 =~= lab0 + Seq::new(size as nat, |i: int| secs[j as int]));
            }
            pos = pos + size;
            j = j + 1;
        }
        proof {
            assert(sizes@.take(sizes@.len() as int) =~= sizes@);
            assert(rm.take(pos as int) =~= rm);
            // well-formedness of the new day
            let ps = r0.days[d as int];
            assert(day_ok(ps));
            let tn = day_teams(ps);
            assert(tn == team_names(tl@));
            assert(tn.no_duplicates()) by {
                assert forall|a: int, b: int| 0 <= a < tn.len() && 0 <= b < tn.len() && a != b implies tn[a] != tn[b] by {
                    lemma_sorted_unique(tn, a, b);
                }
            }
            lemma_by_team(ps, tn);
            let all = relabel_all(rm, labels(secs, sizes@));
            let u = unlisted(ps, tn);
            let t = target;
            assert forall|q: PairingModel| #[trigger] t.contains(q) implies (ps.contains(q) && u.contains(q)) || exists|i: int| 0 <= i < rm.len() && q == all[i] by {
                if !u.contains(q) {
                    assert(all.contains(q));
                }
            }
            assert forall|p: PairingModel, q: PairingModel, x: Name|
                #![trigger t.contains(p), t.contains(q), p.holds(x), q.holds(x)]
                t.contains(p) && t.contains(q) && p.holds(x) && q.holds(x) implies p == q by {
                if u.contains(p) && u.contains(q) {
                } else if !u.contains(p) && !u.contains(q) {
                    let i = choose|i: int| 0 <= i < rm.len() && p == all[i];
                    let k = choose|k: int| 0 <= k < rm.len() && q == all[k];
                    assert(ps.contains(rm[i]) && rm[i].holds(x));
                    assert(ps.contains(rm[k]) && rm[k].holds(x));
                    if i != k {
                        assert(rm[i].team_of() != rm[k].team_of());
                    }
                } else if !u.contains(p) {
                    let i = choose|i: int| 0 <= i < rm.len() && p == all[i];
                    assert(ps.contains(rm[i]) && rm[i].holds(x));
                    assert(rm[i] == q);
                } else {
                    let k = choose|k: int| 0 <= k < rm.len() && q == all[k];
                    assert(ps.contains(rm[k]) && rm[k].holds(x));
                    assert(rm[k] == p);
                }
            }
            assert forall|p: PairingModel| #[trigger] t.contains(p) implies p.well_formed() by {
                if !u.contains(p) {
                    let i = choose|i: int| 0 <= i < rm.len() && p == all[i];
                    assert(ps.contains(rm[i]));
                }
            }
            assert forall|p: PairingModel, q: PairingModel|
                #![trigger t.contains(p), t.contains(q)]
                t.contains(p) && t.contains(q) && p.team_of() is Some && p.team_of() == q.team_of() implies p == q by {
                if u.contains(p) && u.contains(q) {
                } else if !u.contains(p) && !u.contains(q) {
                    let i = choose|i: int| 0 <= i < rm.len() && p == all[i];
                    let k = choose|k: int| 0 <= k < rm.len() && q == all[k];
                    assert(rm[i].team_of() == p.team_of());
                    assert(rm[k].team_of() == q.team_of());
                } else if !u.contains(p) {
                    let i = choose|i: int| 0 <= i < rm.len() && p == all[i];
                    assert(rm[i].team_of() == p.team_of());
                    assert(tn.contains(rm[i].team_of()->0));
                } else {
                    let k = choose|k: int| 0 <= k < rm.len() && q == all[k];
                    assert(rm[k].team_of() == q.team_of());
                    assert(tn.contains(rm[k].team_of()->0));
                }
            }
            assert(day_ok(t));
        }
        self.replace_day(d, out);
        assert forall|e: int| 0 <= e < self@.days.len() implies day_ok(#[trigger] self@.days[e]) by {
            if e != d {
                assert(self@.days[e] == r0.days[e]);
            }
        }
    }

    /// Hands the team records of `day` out to the sections, in team order,
    /// in runs whose lengths differ by at most one; which runs are the
    /// longer ones is drawn at random.
    /// Nothing changes, and `DayLocked` comes back, where the day is locked.
    pub fn shuffle_sections(&mut self, day: Day) -> (r: Result<(), DayLocked>)
        requires
            old(self).wf(),
            day.id < old(self)@.days.len(),
            old(self)@.sections.len() > 0 || forall|p: PairingModel| #[trigger] old(self)@.days[day.id as int].contains(p) ==> p.team_of() is None,
        ensures
            final(self).wf(),
            final(self).path() == old(self).path(),
            !old(self)@.unlocked.contains(day.id) ==> r == Err::<(), DayLocked>(DayLocked) && final(self)@ == old(self)@,
            old(self)@.unlocked.contains(day.id) ==> r is Ok && (exists|sizes: Seq<usize>|
                even_sizes(
                    sizes,
                    by_team(old(self)@.days[day.id as int], day_teams(old(self)@.days[day.id as int])).len() as int,
                    old(self)@.sections.len() as int,
                ) && final(self)@ == old(self)@.with_day(
                    day.id as int,
                    #[trigger] regrouped(old(self)@, day.id as int, sizes),
                )),
    {
        if !self.day_unlocked(day.duplicate()) {
            return Err(DayLocked);
        }
        self.shuffle_sections_open(day);
        Ok(())
    }

    pub(crate) fn shuffle_sections_open(&mut self, day: Day)
        requires
            old(self).wf(),
            day.id < old(self)@.days.len(),
            old(self)@.sections.len() > 0 || forall|p: PairingModel| #[trigger] old(self)@.days[day.id as int].contains(p) ==> p.team_of() is None,
        ensures
            final(self).wf(),
            final(self).path() == old(self).path(),
            exists|sizes: Seq<usize>|
                even_sizes(
                    sizes,
                    by_team(old(self)@.days[day.id as int], day_teams(old(self)@.days[day.id as int])).len() as int,
                    old(self)@.sections.len() as int,
                ) && final(self)@ == old(self)@.with_day(
                    day.id as int,
                    #[trigger] regrouped(old(self)@, day.id as int, sizes),
                ),
    {
        let n = self.sections.len();
        let tl = self.day_team_list(day.id);
        if n == 0 {
            proof {
                let ps = old(self)@.days[day.id as int];
                let tn = day_teams(ps);
                assert(tn == team_names(tl@));
                assert(lists_day_teams(ps, tn));
                assert(old(self)@.sections.len() == 0);
                assert(tn.len() == 0) by {
                    if tn.len() > 0 {
                        assert(tn.contains(tn[0]));
                        let p = choose|p: PairingModel| #[trigger] ps.contains(p) && p.team_of() == Some(tn[0]);
                        assert(ps.contains(p));
                    }
                }
                assert(by_team(ps, tn) == Seq::<PairingModel>::empty());
                let sz = Seq::<usize>::empty();
                assert(labels(keys_of(old(self)@.sections), sz) == Seq::<Name>::empty());
                assert(relabel_all(by_team(ps, tn), labels(keys_of(old(self)@.sections), sz)).to_set() =~= Set::<PairingModel>::empty());
                assert(unlisted(ps, tn) =~= ps);
                assert(regrouped(old(self)@, day.id as int, sz) =~= ps);
                assert(old(self)@.days.update(day.id as int, ps) =~= old(self)@.days);
                assert(even_sizes(sz, 0, 0));
            }
            return;
        }
        let l = self.team_records(day.id, &tl).len();
        let sizes = chunk_sizes(l, n);
        let ghost sz = sizes@;
        self.shuffle_sections_with_open(day, sizes);
        assert(even_sizes(sz, by_team(old(self)@.days[day.id as int], day_teams(old(self)@.days[day.id as int])).len() as int, old(self)@.sections.len() as int));
    }

    /// The students of the roster, in order, who are not absent on day `d`.
    fn attending_students(&self, d: usize) -> (r: Vec<Student>)
        requires
            self.wf(),
            d < self@.days.len(),
        ensures
            names_of(r@) == attending(self@, d as int),
    {
        let ps = &self.days[d];
        let ss = &self.student_sections;
        let ghost entries = student_entries(ss@);
        let ghost day_set = self@.days[d as int];
        let ghost pred = |e: (Name, Name)| !day_set.contains(PairingModel::Absent(e.0));
        let mut out: Vec<Student> = Vec::new();
        let mut i: usize = 0;
        assert(day_set == set_of(ps@));
        assert(day_ok(day_set));
        proof {
            reveal(Seq::filter);
            assert(entries.take(0) =~= Seq::<(Name, Name)>::empty());
            assert(names_of(out@) =~= keys_of(entries.take(0).filter(pred)));
        }
        while i < ss.len()
            invariant
                i <= ss.len(),
                ps == self.days@[d as int],
                day_set == set_of(ps@),
                day_ok(day_set),
                entries == student_entries(ss@),
                pred == (|e: (Name, Name)| !day_set.contains(PairingModel::Absent(e.0))),
                names_of(out@) == keys_of(entries.take(i as int).filter(pred)),
            decreases ss.len() - i,
        {
            let st = &ss[i].0;
            let ghost e = entries[i as int];
            assert(e.0 == st@);
            let absent = match find_holder(ps, st) {
                Some(j) => {
                    proof {
                        lemma_set_of_index(ps@, j as int);
                    }
                    match &ps[j] {
                        Pairing::Absent(_) => true,
                        _ => {
                            proof {
                                if day_set.contains(PairingModel::Absent(st@)) {
                                    assert(PairingModel::Absent(st@).holds(st@));
                                }
                            }
                            false
                        },
                    }
                },
                None => {
                    proof {
                        if day_set.contains(PairingModel::Absent(st@)) {
                            assert(PairingModel::Absent(st@).holds(st@));
                        }
                    }
                    false
                },
            };
            assert(absent == !pred(e));
            proof {
                assert(entries.take(i + 1) =~= entries.take(i as int).push(e));
                lemma_filter_push(entries.take(i as int), e, pred);
            }
            if !absent {
                let ghost old_out = names_of(out@);
                out.push(st.duplicate());
                proof {
                    assert(names_of(out@) =~= old_out.push(st@));
                    assert(keys_of(entries.take(i as int).filter(pred).push(e)) =~= keys_of(
                        entries.take(i as int).filter(pred),
                    ).push(e.0));
                }
            }
            i = i + 1;
        }
        assert(entries.take(ss.len() as int) =~= entries);
        out
    }

    /// Drops the records of day `d` that are neither absences nor in
    /// `section`.
    fn clear_for_grand(&mut self, d: usize, section: &Section)
        requires
            old(self).wf(),
            d < old(self)@.days.len(),
        ensures
            final(self).wf(),
            final(self).path() == old(self).path(),
            final(self)@ == old(self)@.with_day(d as int, cleared(old(self)@.days[d as int], section@)),
    {
        let ghost r0 = self@;
        let ghost sec = section@;
        let ghost ps0 = r0.days[d as int];
        let mut out: Vec<Pairing> = Vec::new();
        {
            let ps = &self.days[d];
            assert(ps0 == set_of(ps@));
            let mut i: usize = 0;
            proof {
                lemma_set_of_empty(out@);
            }
            while i < ps.len()
                invariant
                    i <= ps.len(),
                    sec == section@,
                    forall|q: PairingModel|
                        #[trigger] set_of(out@).contains(q) <==> (set_of(ps@.take(i as int)).contains(q)
                            && (q is Absent || q.section_of() == Some(sec))),
                decreases ps.len() - i,
            {
                proof {
                    assert(ps@.take(i + 1) =~= ps@.take(i as int).push(ps@[i as int]));
                    lemma_set_of_push(ps@.take(i as int), ps@[i as int]);
                }
                let keep = match &ps[i] {
                    Pairing::Absent(_) => true,
                    p => p.in_section(section),
                };
                if keep {
                    proof {
                        lemma_set_of_push(out@, ps@[i as int]);
                    }
                    out.push(ps[i].duplicate());
                }
                i = i + 1;
            }
            assert(ps@.take(ps.len() as int) =~= ps@);
            assert(set_of(out@) =~= cleared(ps0, sec));
        }
        assert(day_ok(ps0));
        self.replace_day(d, out);
        assert forall|e: int| 0 <= e < self@.days.len() implies day_ok(#[trigger] self@.days[e]) by {
            if e != d {
                assert(self@.days[e] == r0.days[e]);
            }
        }
    }

    /// Puts each student of `names` on `day` into `section` without a team.
    fn gather_in(&mut self, day: &Day, section: &Section, names: &Vec<Student>)
        requires
            old(self).wf(),
            day.id < old(self)@.days.len(),
        ensures
            final(self).wf(),
            final(self).path() == old(self).path(),
            final(self)@ == old(self)@.with_day(
                day.id as int,
                gather(old(self)@.days[day.id as int], names_of(names@), section@),
            ),
    {
        let d = day.id;
        let ghost r0 = self@;
        let ghost all = names_of(names@);
        let mut i: usize = 0;
        assert(all.take(0) =~= Seq::<Name>::empty());
        assert(self@.days.update(d as int, r0.days[d as int]) =~= self@.days);
        while i < names.len()
            invariant
                i <= names@.len(),
                d == day.id,
                d < r0.days.len(),
                all == names_of(names@),
                self.wf(),
                self.path() == old(self).path(),
                self@ == r0.with_day(d as int, gather(r0.days[d as int], all.take(i as int), section@)),
            decreases names@.len() - i,
        {
            let s = &names[i];
            let ghost ps = self@.days[d as int];
            let mut v = self.day_without(d, s);
            let n = Pairing::Unassigned { section: section.duplicate(), student: s.duplicate() };
            proof {
                assert(day_ok(ps));
                lemma_after_unassign_ok(ps, s@);
                lemma_insert_ok(set_of(v@), n@);
                lemma_set_of_push(v@, n);
                assert(all.take(i + 1).drop_last() =~= all.take(i as int));
                assert(all.take(i + 1).last() == s@);
            }
            v.push(n);
            self.replace_day(d, v);
            proof {
                assert(self@.days =~= r0.with_day(d as int, gather(r0.days[d as int], all.take(i + 1), section@)).days);
                assert forall|e: int| 0 <= e < self@.days.len() implies day_ok(#[trigger] self@.days[e]) by {
                    if e != d {
                        assert(self@.days[e] == r0.days[e]);
                    }
                }
            }
            i = i + 1;
        }
        assert(all.take(names@.len() as int) =~= all);
    }

    /// Deals the whole roster on `day` as one section and then hands the
    /// teams out evenly to the sections. Every student who is not absent is
    /// first put, without a team, into the first section.
    /// Nothing changes, and `DayLocked` comes back, where the day is locked.
    pub fn grand_shuffle(&mut self, day: Day) -> (r: Result<(), DayLocked>)
        requires
            old(self).wf(),
            day.id < old(self)@.days.len(),
            old(self)@.sections.len() > 0,
        ensures
            final(self).wf(),
            final(self).path() == old(self).path(),
            !old(self)@.unlocked.contains(day.id) ==> r == Err::<(), DayLocked>(DayLocked) && final(self)@ == old(self)@,
            old(self)@.unlocked.contains(day.id) ==> r is Ok && (exists|order: Seq<Name>, sizes: Seq<usize>|
                #[trigger] grand_outcome(old(self)@, day.id as int, order, sizes, final(self)@)),
    {
        if !self.day_unlocked(day.duplicate()) {
            return Err(DayLocked);
        }
        self.grand_shuffle_open(day);
        Ok(())
    }

    pub(crate) fn grand_shuffle_open(&mut self, day: Day)
        requires
            old(self).wf(),
            day.id < old(self)@.days.len(),
            old(self)@.sections.len() > 0,
        ensures
            final(self).wf(),
            final(self).path() == old(self).path(),
            exists|order: Seq<Name>, sizes: Seq<usize>|
                #[trigger] grand_outcome(old(self)@, day.id as int, order, sizes, final(self)@),
    {
        let d = day.id;
        let section = self.sections[0].0.duplicate();
        let names = self.attending_students(d);
        self.gather_in(&day, &section, &names);
        let ghost mid = self@;
        self.shuffle_open(day.duplicate(), section);
        let ghost dealt = self@;
        self.shuffle_sections_open(day);
        proof {
            let sec = old(self)@.sections[0].0;
            let order = choose|order: Seq<Name>| is_arrangement(order, pool_of(mid, d as int, sec)) && mid.with_day(d as int, #[trigger] shuffled(mid, d as int, sec, order)) == dealt;
            let sizes = choose|sizes: Seq<usize>| even_sizes(sizes, by_team(dealt.days[d as int], day_teams(dealt.days[d as int])).len() as int, dealt.sections.len() as int) && dealt.with_day(d as int, #[trigger] regrouped(dealt, d as int, sizes)) == self@;
            assert(grand_outcome(old(self)@, d as int, order, sizes, self@));
        }
    }

    /// Like `grand_shuffle`, but the whole roster is dealt keeping one
    /// member of each of yesterday's teams where it can, whatever their
    /// section was.
    /// Nothing changes, and `DayLocked` comes back, where the day is locked.
    pub fn grand_shuffle_with_continuity(&mut self, day: Day) -> (r: Result<(), DayLocked>)
        requires
            old(self).wf(),
            day.id < old(self)@.days.len(),
            old(self)@.sections.len() > 0,
        ensures
            final(self).wf(),
            final(self).path() == old(self).path(),
            !old(self)@.unlocked.contains(day.id) ==> r == Err::<(), DayLocked>(DayLocked) && final(self)@ == old(self)@,
            old(self)@.unlocked.contains(day.id) ==> r is Ok && (exists|order: Seq<Name>, last: Seq<PairingModel>, sizes: Seq<usize>|
                #[trigger] grand_continuity_outcome(old(self)@, day.id as int, order, last, sizes, final(self)@)),
    {
        if !self.day_unlocked(day.duplicate()) {
            return Err(DayLocked);
        }
        self.grand_shuffle_with_continuity_open(day);
        Ok(())
    }

    pub(crate) fn grand_shuffle_with_continuity_open(&mut self, day: Day)
        requires
            old(self).wf(),
            day.id < old(self)@.days.len(),
            old(self)@.sections.len() > 0,
        ensures
            final(self).wf(),
            final(self).path() == old(self).path(),
            exists|order: Seq<Name>, last: Seq<PairingModel>, sizes: Seq<usize>|
                #[trigger] grand_continuity_outcome(old(self)@, day.id as int, order, last, sizes, final(self)@),
    {
        let d = day.id;
        let section = self.sections[0].0.duplicate();
        let names = self.attending_students(d);
        self.gather_in(&day, &section, &names);
        self.clear_for_grand(d, &section);
        assert(self@.days =~= gathered(old(self)@, d as int).days);
        assert(self@ == gathered(old(self)@, d as int));
        let ghost mid = self@;
        let order = self.random_order(&day, &section);
        let last = self.random_last(d, &section, true);
        let ghost o = names_of(order@);
        let ghost l = models_of(last@);
        proof {
            self.lemma_eligible_well_formed(d as int, section@, true);
        }
        self.continue_in_order(day.duplicate(), section, order, last, false);
        let ghost dealt = self@;
        self.shuffle_sections_open(day);
        proof {
            let sizes = choose|sizes: Seq<usize>| even_sizes(sizes, by_team(dealt.days[d as int], day_teams(dealt.days[d as int])).len() as int, dealt.sections.len() as int) && dealt.with_day(d as int, #[trigger] regrouped(dealt, d as int, sizes)) == self@;
            assert(grand_continuity_outcome(old(self)@, d as int, o, l, sizes, self@));
        }
    }

    /// Like `grand_shuffle_with_continuity`, the students taken in `order`
    /// and yesterday's records in `last`, both as they stand once everyone
    /// who is there has been put into the first section.
    /// Nothing changes, and `DayLocked` comes back, where the day is locked.
    pub fn grand_shuffle_with_continuity_in_order(&mut self, day: Day, order: Vec<Student>, last: Vec<Pairing>) -> (r: Result<(), DayLocked>)
        requires
            old(self).wf(),
            day.id < old(self)@.days.len(),
            old(self)@.sections.len() > 0,
            is_arrangement(names_of(order@), pool_of(gathered(old(self)@, day.id as int), day.id as int, old(self)@.sections[0].0)),
            forall|p: PairingModel| #[trigger] models_of(last@).contains(p) <==> eligible(gathered(old(self)@, day.id as int), day.id as int, old(self)@.sections[0].0, true).contains(p),
        ensures
            final(self).wf(),
            final(self).path() == old(self).path(),
            !old(self)@.unlocked.contains(day.id) ==> r == Err::<(), DayLocked>(DayLocked) && final(self)@ == old(self)@,
            old(self)@.unlocked.contains(day.id) ==> r is Ok && (exists|sizes: Seq<usize>|
                #[trigger] grand_continuity_outcome(old(self)@, day.id as int, names_of(order@), models_of(last@), sizes, final(self)@)),
    {
        if !self.day_unlocked(day.duplicate()) {
            return Err(DayLocked);
        }
        let d = day.id;
        let section = self.sections[0].0.duplicate();
        let names = self.attending_students(d);
        self.gather_in(&day, &section, &names);
        self.clear_for_grand(d, &section);
        assert(self@.days =~= gathered(old(self)@, d as int).days);
        assert(self@ == gathered(old(self)@, d as int));
        let ghost o = names_of(order@);
        let ghost l = models_of(last@);
        proof {
            assert(self@ == gathered(old(self)@, d as int));
            self.lemma_eligible_well_formed(d as int, section@, true);
        }
        self.continue_in_order(day.duplicate(), section, order, last, false);
        let ghost dealt = self@;
        self.shuffle_sections_open(day);
        proof {
            let sizes = choose|sizes: Seq<usize>| even_sizes(sizes, by_team(dealt.days[d as int], day_teams(dealt.days[d as int])).len() as int, dealt.sections.len() as int) && dealt.with_day(d as int, #[trigger] regrouped(dealt, d as int, sizes)) == self@;
            assert(grand_continuity_outcome(old(self)@, d as int, o, l, sizes, self@));
        }
        Ok(())
    }
}

/// The roster once every student who is there on day `d` has been put,
/// without a team, into the first section, and the day holds nothing else
/// but absences.
pub open spec fn gathered(r: RosterModel, d: int) -> RosterModel {
    r.with_day(d, cleared(gather(r.days[d], attending(r, d), r.sections[0].0), r.sections[0].0))
}

/// The records of `ps` that are absences or in section `sec`: what is left
/// of a day whose students have all been put into `sec`, once the records
/// of other sections (of students no longer on the roster) are dropped.
pub open spec fn cleared(ps: Set<PairingModel>, sec: Name) -> Set<PairingModel> {
    ps.filter(|p: PairingModel| p is Absent || p.section_of() == Some(sec))
}

/// Whether `after` is what a grand shuffle with continuity of day `d`
/// makes of `before`, the students taken in `order`, yesterday's records in
/// `last` and the runs of teams of lengths `sizes`.
pub open spec fn grand_continuity_outcome(
    before: RosterModel,
    d: int,
    order: Seq<Name>,
    last: Seq<PairingModel>,
    sizes: Seq<usize>,
    after: RosterModel,
) -> bool {
    let sec = before.sections[0].0;
    let mid = gathered(before, d);
    let dealt = mid.with_day(d, continued(mid, d, sec, order, last, false));
    &&& is_arrangement(order, pool_of(mid, d, sec))
    &&& forall|p: PairingModel| #[trigger] last.contains(p) <==> eligible(mid, d, sec, true).contains(p)
    &&& even_sizes(sizes, by_team(dealt.days[d], day_teams(dealt.days[d])).len() as int, dealt.sections.len() as int)
    &&& after == dealt.with_day(d, regrouped(dealt, d, sizes))
}

/// Whether `after` is what a grand shuffle of day `d` makes of `before`,
/// the students taken in `order` and the runs of teams of lengths `sizes`.
pub open spec fn grand_outcome(before: RosterModel, d: int, order: Seq<Name>, sizes: Seq<usize>, after: RosterModel) -> bool {
    let sec = before.sections[0].0;
    let mid = before.with_day(d, gather(before.days[d], attending(before, d), sec));
    let dealt = mid.with_day(d, shuffled(mid, d, sec, order));
    &&& is_arrangement(order, pool_of(mid, d, sec))
    &&& even_sizes(sizes, by_team(dealt.days[d], day_teams(dealt.days[d])).len() as int, dealt.sections.len() as int)
    &&& after == dealt.with_day(d, regrouped(dealt, d, sizes))
}

/// The students of the roster, in order, not marked absent on day `d`.
pub open spec fn attending(r: RosterModel, d: int) -> Seq<Name> {
    keys_of(r.students.filter(|e: (Name, Name)| !r.days[d].contains(PairingModel::Absent(e.0))))
}

/// The day after each student of `names` in turn leaves their record and
/// joins section `sec` without a team.
pub open spec fn gather(ps: Set<PairingModel>, names: Seq<Name>, sec: Name) -> Set<PairingModel>
    decreases names.len(),
{
    if names.len() == 0 {
        ps
    } else {
        after_unassign(gather(ps, names.drop_last(), sec), names.last()).insert(
            PairingModel::Unassigned { section: sec, student: names.last() },
        )
    }
}

} // verus!
