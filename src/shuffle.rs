use vstd::prelude::*;
use crate::names::{Day, Name, Section, Student, Team, strictly_sorted, text_lt, lemma_sorted_unique};
use crate::pairing::{Pairing, PairingModel, names_of};
use crate::roster::{DayLocked, Data, RosterModel, day_ok, exclusive, holder, team_holder, keys_of, set_of, student_entries, team_names, find_holder, find_on_team, lemma_set_of_push, lemma_set_of_empty, lemma_set_of_index, lemma_filter_push};
use crate::engine::{deal, lemma_deal, partner_index, lemma_partner_index};
use crate::random::shuffle_in_place;

verus! {

/// Whether the roster entry `e` (a student and their default section)
/// belongs to the students dealt in section `sec` on a day with records `ps`:
/// the student's record that day is in `sec`, or they have no record and
/// `sec` is their default section.
pub open spec fn in_pool(ps: Set<PairingModel>, sec: Name, e: (Name, Name)) -> bool {
    match holder(ps, e.0) {
        Some(h) => h.section_of() == Some(sec),
        None => e.1 == sec,
    }
}

/// The students of section `sec` on day `d` who are there, in name order.
pub open spec fn pool_of(r: RosterModel, d: int, sec: Name) -> Seq<Name> {
    keys_of(r.students.filter(|e: (Name, Name)| in_pool(r.days[d], sec, e)))
}

/// The records of the day that other sections hold, or that are absences.
pub open spec fn kept(ps: Set<PairingModel>, sec: Name) -> Set<PairingModel> {
    ps.filter(|p: PairingModel| p.section_of() != Some(sec))
}

/// The teams that no record of `ps` occupies, in order.
pub open spec fn free_teams(teams: Seq<Name>, ps: Set<PairingModel>) -> Seq<Name> {
    teams.filter(|t: Name| team_holder(ps, t) is None)
}

/// The day after section `sec` is dealt anew, its students taken in
/// `order`.
pub open spec fn shuffled(r: RosterModel, d: int, sec: Name, order: Seq<Name>) -> Set<PairingModel> {
    let k = kept(r.days[d], sec);
    k.union(deal(r.days, d, sec, order, free_teams(r.teams, k)))
}

/// `order` holds each student of `pool` once, and nobody else.
pub open spec fn is_arrangement(order: Seq<Name>, pool: Seq<Name>) -> bool {
    &&& order.no_duplicates()
    &&& forall|x: Name| #[trigger] order.contains(x) <==> pool.contains(x)
}

pub proof fn lemma_union_ok(a: Set<PairingModel>, b: Set<PairingModel>)
    requires
        day_ok(a),
        day_ok(b),
        forall|p: PairingModel, q: PairingModel, x: Name|
            #![trigger a.contains(p), b.contains(q), p.holds(x), q.holds(x)]
            a.contains(p) && b.contains(q) && p.holds(x) ==> !q.holds(x),
        forall|p: PairingModel, q: PairingModel|
            #![trigger a.contains(p), b.contains(q)]
            a.contains(p) && b.contains(q) && p.team_of() is Some ==> p.team_of() != q.team_of(),
    ensures
        day_ok(a.union(b)),
{
    let u = a.union(b);
    assert forall|p: PairingModel, q: PairingModel, x: Name|
        #![trigger u.contains(p), u.contains(q), p.holds(x), q.holds(x)]
        u.contains(p) && u.contains(q) && p.holds(x) && q.holds(x) implies p == q by {
        if a.contains(p) && b.contains(q) && !a.contains(q) {
            assert(!q.holds(x));
        }
        if b.contains(p) && a.contains(q) && !a.contains(p) {
            assert(!p.holds(x));
        }
    }
    assert forall|p: PairingModel, q: PairingModel|
        #![trigger u.contains(p), u.contains(q)]
        u.contains(p) && u.contains(q) && p.team_of() is Some && p.team_of() == q.team_of() implies p == q by {
        if a.contains(p) && b.contains(q) && !a.contains(q) {
            assert(p.team_of() != q.team_of());
        }
        if b.contains(p) && a.contains(q) && !a.contains(p) {
            assert(q.team_of() != p.team_of());
        }
    }
}

/// A student dealt in section `sec` is held by no record that stays.
pub proof fn lemma_pool_fresh(r: RosterModel, d: int, sec: Name, x: Name, p: PairingModel)
    requires
        r.wf(),
        0 <= d < r.days.len(),
        pool_of(r, d, sec).contains(x),
        kept(r.days[d], sec).contains(p),
    ensures
        !p.holds(x),
{
    if p.holds(x) {
        let pool = pool_of(r, d, sec);
        let ps0 = r.days[d];
        assert(day_ok(ps0));
        let fl = r.students.filter(|e: (Name, Name)| in_pool(r.days[d], sec, e));
        let i = choose|i: int| 0 <= i < pool.len() && pool[i] == x;
        fl.lemma_filter_pred(|e: (Name, Name)| in_pool(r.days[d], sec, e), i);
        assert(fl[i].0 == x);
        assert(ps0.contains(p));
        let h = holder(ps0, x);
        assert(h is Some);
        assert(h->0 == p);
    }
}

/// A free team is on no record that stays.
pub proof fn lemma_free_team(teams: Seq<Name>, kp: Set<PairingModel>, t: Name, p: PairingModel)
    requires
        free_teams(teams, kp).contains(t),
        kp.contains(p),
    ensures
        p.team_of() != Some(t),
{
    let tn = free_teams(teams, kp);
    let i = choose|i: int| 0 <= i < tn.len() && tn[i] == t;
    teams.lemma_filter_pred(|t: Name| team_holder(kp, t) is None, i);
    if p.team_of() == Some(t) {
        assert(team_holder(kp, t) is Some);
    }
}

/// A random order of a duplicate-free sequence of students holds each of
/// their names once.
pub proof fn lemma_arrangement(a: Seq<Student>, b: Seq<Student>)
    requires
        a.to_multiset() == b.to_multiset(),
        names_of(a).no_duplicates(),
    ensures
        is_arrangement(names_of(b), names_of(a)),
{
    broadcast use vstd::seq_lib::to_multiset_contains;

    assert(a.no_duplicates()) by {
        assert forall|i: int, j: int| 0 <= i < a.len() && 0 <= j < a.len() && i != j implies a[i] != a[j] by {
            assert(names_of(a)[i] == a[i]@);
            assert(names_of(a)[j] == a[j]@);
        }
    }
    a.lemma_multiset_has_no_duplicates();
    b.lemma_multiset_has_no_duplicates_conv();
    assert forall|x: Student| #[trigger] b.contains(x) <==> a.contains(x) by {
        assert(b.contains(x) <==> b.to_multiset().count(x) > 0);
        assert(a.contains(x) <==> a.to_multiset().count(x) > 0);
    }
    assert forall|y: Name| #[trigger] names_of(b).contains(y) <==> names_of(a).contains(y) by {
        if names_of(b).contains(y) {
            let i = choose|i: int| 0 <= i < b.len() && names_of(b)[i] == y;
            assert(b.contains(b[i]));
            let m = choose|m: int| 0 <= m < a.len() && a[m] == b[i];
            assert(names_of(a)[m] == y);
        }
        if names_of(a).contains(y) {
            let i = choose|i: int| 0 <= i < a.len() && names_of(a)[i] == y;
            assert(a.contains(a[i]));
            assert(b.contains(a[i]));
            let m = choose|m: int| 0 <= m < b.len() && b[m] == a[i];
            assert(names_of(b)[m] == y);
        }
    }
    assert forall|i: int, j: int| 0 <= i < b.len() && 0 <= j < b.len() && i != j implies names_of(b)[i]
        != names_of(b)[j] by {
        assert(b.contains(b[i]));
        assert(b.contains(b[j]));
        let m = choose|m: int| 0 <= m < a.len() && a[m] == b[i];
        let n = choose|n: int| 0 <= n < a.len() && a[n] == b[j];
        assert(names_of(a)[m] == b[i]@);
        assert(names_of(a)[n] == b[j]@);
    }
}

impl Data {
    /// The students dealt in `section` on `day`, in name order: those
    /// whose record that day is in the section, and those without a record
    /// whose default section it is.
    pub fn students_present_in_section(&self, day: Day, section: Section) -> (r: Vec<Student>)
        requires
            self.wf(),
            day.id < self@.days.len(),
        ensures
            names_of(r@) == pool_of(self@, day.id as int, section@),
            strictly_sorted(names_of(r@)),
    {
        let d = day.id;
        let ps = &self.days[d];
        let ss = &self.student_sections;
        let ghost entries = student_entries(ss@);
        let ghost pred = |e: (Name, Name)| in_pool(self@.days[d as int], section@, e);
        let mut out: Vec<Student> = Vec::new();
        let mut i: usize = 0;
        assert(self@.days[d as int] == set_of(ps@));
        assert(exclusive(self@.days[d as int]));
        proof {
            reveal(Seq::filter);
            assert(entries.take(0) =~= Seq::<(Name, Name)>::empty());
            assert(names_of(out@) =~= keys_of(entries.take(0).filter(pred)));
        }
        while i < ss.len()
            invariant
                i <= ss.len(),
                ps == self.days@[d as int],
                self@.days[d as int] == set_of(ps@),
                exclusive(self@.days[d as int]),
                entries == student_entries(ss@),
                ss == self.student_sections,
                self.wf(),
                pred == (|e: (Name, Name)| in_pool(self@.days[d as int], section@, e)),
                names_of(out@) == keys_of(entries.take(i as int).filter(pred)),
                strictly_sorted(names_of(out@)),
                forall|k: int, m: int|
                    0 <= k < out@.len() && i <= m < ss@.len() ==> text_lt(
                        #[trigger] names_of(out@)[k],
                        #[trigger] keys_of(entries)[m],
                    ),
            decreases ss.len() - i,
        {
            let (st, sec) = (&ss[i].0, &ss[i].1);
            let ghost e = entries[i as int];
            assert(e == (st@, sec@));
            let keep = match find_holder(ps, st) {
                Some(j) => {
                    proof {
                        lemma_set_of_index(ps@, j as int);
                        assert(holder(set_of(ps@), st@) == Some(ps@[j as int]@));
                    }
                    ps[j].in_section(&section)
                },
                None => *sec == section,
            };
            assert(keep == pred(e));
            proof {
                assert(entries.take(i + 1) =~= entries.take(i as int).push(e));
                lemma_filter_push(entries.take(i as int), e, pred);
            }
            if keep {
                let ghost old_out = names_of(out@);
                out.push(st.duplicate());
                proof {
                    assert(names_of(out@) =~= old_out.push(st@));
                    assert(keys_of(entries.take(i as int).filter(pred).push(e)) =~= keys_of(
                        entries.take(i as int).filter(pred),
                    ).push(e.0));
                    assert(keys_of(entries)[i as int] == st@);
                    assert forall|k: int, m: int|
                        0 <= k < out@.len() && i + 1 <= m < ss@.len() implies text_lt(
                        #[trigger] names_of(out@)[k],
                        #[trigger] keys_of(entries)[m],
                    ) by {
                        if k == out@.len() - 1 {
                            assert(text_lt(keys_of(entries)[i as int], keys_of(entries)[m]));
                        } else {
                            assert(names_of(out@)[k] == old_out[k]);
                        }
                    }
                    assert forall|k: int, m: int| 0 <= k < m < names_of(out@).len() implies text_lt(
                        #[trigger] names_of(out@)[k],
                        #[trigger] names_of(out@)[m],
                    ) by {
                        assert(names_of(out@)[k] == old_out.push(st@)[k]);
                        if m < old_out.len() {
                            assert(names_of(out@)[m] == old_out[m]);
                        }
                    }
                }
            }
            i = i + 1;
        }
        assert(entries.take(ss.len() as int) =~= entries);
        out
    }

    /// The records of day `d` that stay when `section` is dealt anew.
    pub(crate) fn kept_records(&self, d: usize, section: &Section) -> (r: Vec<Pairing>)
        requires
            d < self@.days.len(),
        ensures
            set_of(r@) == kept(self@.days[d as int], section@),
    {
        let ghost sec = section@;
        let ghost kp = kept(self@.days[d as int], sec);
        let ghost ps0 = self@.days[d as int];
        let mut out: Vec<Pairing> = Vec::new();
        {
            let ps = &self.days[d];
            assert(ps0 == set_of(ps@));
            let mut i: usize = 0;
            proof {
                lemma_set_of_empty(out@);
            }
            while i < ps.len()
                invariant
                    i <= ps.len(),
                    sec == section@,
                    forall|q: PairingModel|
                        #[trigger] set_of(out@).contains(q) <==> (set_of(ps@.take(i as int)).contains(q)
                            && q.section_of() != Some(sec)),
                decreases ps.len() - i,
            {
                proof {
                    assert(ps@.take(i + 1) =~= ps@.take(i as int).push(ps@[i as int]));
                    lemma_set_of_push(ps@.take(i as int), ps@[i as int]);
                }
                if !ps[i].in_section(&section) {
                    proof {
                        lemma_set_of_push(out@, ps@[i as int]);
                    }
                    out.push(ps[i].duplicate());
                }
                i = i + 1;
            }
            assert(ps@.take(ps.len() as int) =~= ps@);
            assert(set_of(out@) =~= kp);
        }
        out
    }

    /// The teams, in order, that no record of `out` occupies.
    pub(crate) fn free_team_list(&self, out: &Vec<Pairing>) -> (r: Vec<Team>)
        requires
            self.wf(),
        ensures
            team_names(r@) == free_teams(self@.teams, set_of(out@)),
            team_names(r@).no_duplicates(),
    {
        let ghost kp = set_of(out@);
        let mut ft: Vec<Team> = Vec::new();
        let ghost tpred = |t: Name| team_holder(kp, t) is None;
        let ghost all_t = team_names(self.teams@);
        {
            let ts = &self.teams;
            let mut i: usize = 0;
            proof {
                reveal(Seq::filter);
                assert(all_t.take(0) =~= Seq::<Name>::empty());
                assert(team_names(ft@) =~= all_t.take(0).filter(tpred));
            }
            while i < ts.len()
                invariant
                    i <= ts.len(),
                    ts == self.teams,
                    all_t == team_names(ts@),
                    strictly_sorted(all_t),
                    set_of(out@) == kp,
                    tpred == (|t: Name| team_holder(kp, t) is None),
                    team_names(ft@) == all_t.take(i as int).filter(tpred),
                    strictly_sorted(team_names(ft@)),
                    forall|k: int, m: int|
                        0 <= k < ft@.len() && i <= m < ts@.len() ==> text_lt(
                            #[trigger] team_names(ft@)[k],
                            #[trigger] all_t[m],
                        ),
                decreases ts.len() - i,
            {
                let t = &ts[i];
                assert(all_t[i as int] == t@);
                let found = find_on_team(&out, t);
                let free = found.is_none();
                proof {
                    if let Some(j) = found {
                        lemma_set_of_index(out@, j as int);
                        assert(kp.contains(out@[j as int]@));
                    }
                    assert(all_t.take(i + 1) =~= all_t.take(i as int).push(t@));
                    lemma_filter_push(all_t.take(i as int), t@, tpred);
                }
                if free {
                    let ghost old_ft = team_names(ft@);
                    ft.push(t.duplicate());
                    proof {
                        assert(team_names(ft@) =~= old_ft.push(t@));
                        assert forall|k: int, m: int|
                            0 <= k < ft@.len() && i + 1 <= m < ts@.len() implies text_lt(
                            #[trigger] team_names(ft@)[k],
                            #[trigger] all_t[m],
                        ) by {
                            if k == ft@.len() - 1 {
                                assert(text_lt(all_t[i as int], all_t[m]));
                            } else {
                                assert(team_names(ft@)[k] == old_ft[k]);
                            }
                        }
                        assert forall|k: int, m: int| 0 <= k < m < team_names(ft@).len() implies text_lt(
                            #[trigger] team_names(ft@)[k],
                            #[trigger] team_names(ft@)[m],
                        ) by {
                            assert(team_names(ft@)[k] == old_ft.push(t@)[k]);
                            if m < old_ft.len() {
                                assert(team_names(ft@)[m] == old_ft[m]);
                            }
                        }
                    }
                }
                i = i + 1;
            }
            assert(all_t.take(ts.len() as int) =~= all_t);
        }
        let ghost tn = team_names(ft@);
        assert(tn.no_duplicates()) by {
            assert forall|i: int, j: int| 0 <= i < tn.len() && 0 <= j < tn.len() && i != j implies tn[i] != tn[j] by {
                lemma_sorted_unique(tn, i, j);
            }
        }
        ft
    }

    /// Deals the students of `order`, taken from the back, onto the teams
    /// of `ft`, taken from the front, adding the records to `out`.
    pub(crate) fn deal_into(&self, day: &Day, section: &Section, out: &mut Vec<Pairing>, order: Vec<Student>, ft: &Vec<Team>)
        requires
            day.id < self@.days.len(),
            names_of(order@).no_duplicates(),
        ensures
            set_of(final(out)@) == set_of(old(out)@).union(
                deal(self@.days, day.id as int, section@, names_of(order@), team_names(ft@)),
            ),
    {
        let d = day.id;
        let ghost r0 = self@;
        let ghost sec = section@;
        let ghost tn = team_names(ft@);
        let ghost kp = set_of(out@);
        let ghost names0 = names_of(order@);
        let ghost target = set_of(out@).union(deal(r0.days, d as int, sec, names0, tn));
        let mut order = order;
        let mut j: usize = 0;
        proof {
            assert(tn.skip(0) =~= tn);
        }
        while order.len() > 1 && j < ft.len()
            invariant
                self@ == r0,
                d < r0.days.len(),
                day.id == d,
                sec == section@,
                tn == team_names(ft@),
                j <= ft.len(),
                names_of(order@).no_duplicates(),
                set_of(out@).union(deal(r0.days, d as int, sec, names_of(order@), tn.skip(j as int)))
                    == target,
            decreases order.len(),
        {
            let ghost s_before = names_of(order@);
            let ghost t_before = tn.skip(j as int);
            let primary = match order.pop() {
                Some(p) => p,
                None => {
                    return;
                },
            };
            let ghost pool = names_of(order@);
            assert(pool =~= s_before.drop_last());
            assert(primary@ == s_before.last());
            let team = ft[j].duplicate();
            assert(t_before[0] == team@);
            assert(t_before.drop_first() =~= tn.skip(j + 1));
            let ghost order_mid = order@;
            let secondary = match self.pick_partner_from(&day, &primary, &mut order) {
                Some(s) => s,
                None => {
                    return;
                },
            };
            let ghost k = partner_index(r0.days, d as int, primary@, pool);
            proof {
                lemma_partner_index(r0.days, d as int, primary@, pool);
                assert(pool.no_duplicates());
                crate::engine::lemma_drop_all_unique(pool, k);
                assert(names_of(order@) =~= pool.remove(k));
                assert(secondary@ == pool[k]);
                crate::engine::lemma_remove_no_dup(pool, k);
            }
            let n = Pairing::Pair { section: section.duplicate(), team, primary, secondary };
            proof {
                let rest = deal(r0.days, d as int, sec, names_of(order@), tn.skip(j + 1));
                assert(deal(r0.days, d as int, sec, s_before, t_before) == rest.insert(n@));
                lemma_set_of_push(out@, n);
                assert(set_of(out@).insert(n@).union(rest) =~= set_of(out@).union(rest.insert(n@)));
            }
            out.push(n);
            j = j + 1;
        }
        if order.len() == 1 && j < ft.len() {
            let n = Pairing::Solo { section: section.duplicate(), team: ft[j].duplicate(), student: order[0].duplicate() };
            proof {
                let t = tn.skip(j as int);
                assert(t[0] == ft@[j as int]@);
                assert(names_of(order@)[0] == order@[0]@);
                assert(deal(r0.days, d as int, sec, names_of(order@), t) == set![n@]);
                lemma_set_of_push(out@, n);
                assert(set_of(out@).insert(n@) =~= set_of(out@).union(set![n@]));
            }
            out.push(n);
        } else {
            proof {
                assert(deal(r0.days, d as int, sec, names_of(order@), tn.skip(j as int)) == Set::<PairingModel>::empty());
                assert(set_of(out@).union(Set::<PairingModel>::empty()) =~= set_of(out@));
            }
        }
    }

    /// Deals `section` anew on `day`, taking its students in `order`: the
    /// section's records go, and its students are dealt onto the teams that
    /// no other record of the day occupies.
    /// Nothing changes, and `DayLocked` comes back, where the day is locked.
    pub fn shuffle_in_order(&mut self, day: Day, section: Section, order: Vec<Student>) -> (r: Result<(), DayLocked>)
        requires
            old(self).wf(),
            day.id < old(self)@.days.len(),
            is_arrangement(names_of(order@), pool_of(old(self)@, day.id as int, section@)),
        ensures
            final(self).wf(),
            final(self).path() == old(self).path(),
            !old(self)@.unlocked.contains(day.id) ==> r == Err::<(), DayLocked>(DayLocked) && final(self)@ == old(self)@,
            old(self)@.unlocked.contains(day.id) ==> r is Ok && (final(self)@ == old(self)@.with_day(
                day.id as int,
                shuffled(old(self)@, day.id as int, section@, names_of(order@)),
            )),
    {
        if !self.day_unlocked(day.duplicate()) {
            return Err(DayLocked);
        }
        self.shuffle_in_order_open(day, section, order);
        Ok(())
    }

    pub(crate) fn shuffle_in_order_open(&mut self, day: Day, section: Section, order: Vec<Student>)
        requires
            old(self).wf(),
            day.id < old(self)@.days.len(),
            is_arrangement(names_of(order@), pool_of(old(self)@, day.id as int, section@)),
        ensures
            final(self).wf(),
            final(self).path() == old(self).path(),
            final(self)@ == old(self)@.with_day(
                day.id as int,
                shuffled(old(self)@, day.id as int, section@, names_of(order@)),
            ),
    {
        let d = day.id;
        let ghost r0 = self@;
        let ghost ps0 = r0.days[d as int];
        let ghost sec = section@;
        let ghost kp = kept(ps0, sec);
        let mut out = self.kept_records(d, &section);
        let ft = self.free_team_list(&out);
        let ghost tn = team_names(ft@);
        let ghost names0 = names_of(order@);
        let ghost target = kp.union(deal(r0.days, d as int, sec, names0, tn));
        self.deal_into(&day, &section, &mut out, order, &ft);
        assert(day_ok(kp)) by {
            assert(day_ok(ps0));
        }
        proof {
            let dealt = deal(r0.days, d as int, sec, names0, tn);
            lemma_deal(r0.days, d as int, sec, names0, tn);
            assert forall|p: PairingModel, q: PairingModel, x: Name|
                #![trigger kp.contains(p), dealt.contains(q), p.holds(x), q.holds(x)]
                kp.contains(p) && dealt.contains(q) && p.holds(x) implies !q.holds(x) by {
                if q.holds(x) {
                    assert(names0.contains(x));
                    lemma_pool_fresh(r0, d as int, sec, x, p);
                }
            }
            assert forall|p: PairingModel, q: PairingModel|
                #![trigger kp.contains(p), dealt.contains(q)]
                kp.contains(p) && dealt.contains(q) && p.team_of() is Some implies p.team_of() != q.team_of() by {
                let t = q.team_of()->0;
                assert(tn.contains(t));
                lemma_free_team(r0.teams, kp, t, p);
            }
            lemma_union_ok(kp, dealt);
        }
        self.replace_day(d, out);
        assert(self@.days[d as int] == target);
        assert forall|e: int| 0 <= e < self@.days.len() implies day_ok(#[trigger] self@.days[e]) by {
            if e != d {
                assert(self@.days[e] == r0.days[e]);
            }
        }
    }

    /// Deals `section` anew on `day`, its students taken in a random order.
    /// Nothing changes, and `DayLocked` comes back, where the day is locked.
    pub fn shuffle(&mut self, day: Day, section: Section) -> (r: Result<(), DayLocked>)
        requires
            old(self).wf(),
            day.id < old(self)@.days.len(),
        ensures
            final(self).wf(),
            final(self).path() == old(self).path(),
            !old(self)@.unlocked.contains(day.id) ==> r == Err::<(), DayLocked>(DayLocked) && final(self)@ == old(self)@,
            old(self)@.unlocked.contains(day.id) ==> r is Ok && (exists|order: Seq<Name>|
                is_arrangement(order, pool_of(old(self)@, day.id as int, section@))
                    && final(self)@ == old(self)@.with_day(
                    day.id as int,
                    #[trigger] shuffled(old(self)@, day.id as int, section@, order),
                )),
    {
        if !self.day_unlocked(day.duplicate()) {
            return Err(DayLocked);
        }
        self.shuffle_open(day, section);
        Ok(())
    }

    pub(crate) fn shuffle_open(&mut self, day: Day, section: Section)
        requires
            old(self).wf(),
            day.id < old(self)@.days.len(),
        ensures
            final(self).wf(),
            final(self).path() == old(self).path(),
            exists|order: Seq<Name>|
                is_arrangement(order, pool_of(old(self)@, day.id as int, section@))
                    && final(self)@ == old(self)@.with_day(
                    day.id as int,
                    #[trigger] shuffled(old(self)@, day.id as int, section@, order),
                ),
    {
        let mut order = self.students_present_in_section(day.duplicate(), section.duplicate());
        let ghost before = order@;
        assert(names_of(before).no_duplicates()) by {
            assert forall|i: int, j: int| 0 <= i < before.len() && 0 <= j < before.len() && i != j implies names_of(before)[i] != names_of(before)[j] by {
                lemma_sorted_unique(names_of(before), i, j);
            }
        }
        shuffle_in_place(&mut order);
        proof {
            lemma_arrangement(before, order@);
        }
        let ghost o = names_of(order@);
        self.shuffle_in_order_open(day, section, order);
        assert(is_arrangement(o, pool_of(old(self)@, day.id as int, section@)));
    }
}

} // verus!
