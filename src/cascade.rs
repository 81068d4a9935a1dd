use vstd::prelude::*;
use crate::names::{Name, Section, Student, Team, Zoom};
use crate::pairing::{Pairing, PairingModel};
use crate::roster::{Data, RosterModel, day_ok, set_of, keys_of, find_holder, find_on_team, lemma_set_of_push, lemma_set_of_empty, lemma_set_of_index};
use crate::admin::{upsert, remove_key, replaced, lemma_entries_keys, lemma_section_keys, lemma_team_keys, lemma_upsert_view, lemma_remove_view};

verus! {

/// A change made to the records of every day.
pub enum Edit {
    DropSection(Section),
    DropTeam(Team),
    RenameSection(Section, Section),
    RenameTeam(Team, Team),
    RenameStudent(Student, Student),
}

/// What an `Edit` does, with each name as its text.
pub enum EditModel {
    DropSection(Name),
    DropTeam(Name),
    RenameSection(Name, Name),
    RenameTeam(Name, Name),
    RenameStudent(Name, Name),
}

impl View for Edit {
    type V = EditModel;

    open spec fn view(&self) -> EditModel {
        match self {
            Edit::DropSection(s) => EditModel::DropSection(s@),
            Edit::DropTeam(t) => EditModel::DropTeam(t@),
            Edit::RenameSection(a, b) => EditModel::RenameSection(a@, b@),
            Edit::RenameTeam(a, b) => EditModel::RenameTeam(a@, b@),
            Edit::RenameStudent(a, b) => EditModel::RenameStudent(a@, b@),
        }
    }
}

/// Some record of some day occupies team `t`.
pub open spec fn team_used(r: RosterModel, t: Name) -> bool {
    exists|d: int, p: PairingModel| 0 <= d < r.days.len() && #[trigger] r.days[d].contains(p) && p.team_of() == Some(t)
}

/// Some record of some day holds student `s`.
pub open spec fn student_used(r: RosterModel, s: Name) -> bool {
    exists|d: int, p: PairingModel| 0 <= d < r.days.len() && #[trigger] r.days[d].contains(p) && p.holds(s)
}

/// A student rename that keeps the roster sound: `old` is on the roster,
/// and `new` is `old` or a name that is neither on the roster nor on any
/// record.
pub open spec fn rename_allowed(r: RosterModel, old: Name, new: Name) -> bool {
    keys_of(r.students).contains(old) && (old == new || (!keys_of(r.students).contains(new)
        && !student_used(r, new)))
}

/// What becomes of record `p` under edit `e`: dropped, or rewritten.
pub open spec fn step(p: PairingModel, e: EditModel) -> Option<PairingModel> {
    match e {
        EditModel::DropSection(s) => if p.section_of() == Some(s) {
            None
        } else {
            Some(p)
        },
        EditModel::DropTeam(t) => if p.team_of() == Some(t) {
            None
        } else {
            Some(p)
        },
        EditModel::RenameSection(a, b) => Some(p.with_section(a, b)),
        EditModel::RenameTeam(a, b) => Some(p.with_team(a, b)),
        EditModel::RenameStudent(a, b) => Some(p.with_student(a, b)),
    }
}

/// The records of a day after edit `e`.
pub open spec fn apply(ps: Set<PairingModel>, e: EditModel) -> Set<PairingModel> {
    Set::new(|q: PairingModel| exists|p: PairingModel| #[trigger] ps.contains(p) && step(p, e) == Some(q))
}

/// Every day after edit `e`.
pub open spec fn apply_all(days: Seq<Set<PairingModel>>, e: EditModel) -> Seq<Set<PairingModel>> {
    days.map_values(|ps: Set<PairingModel>| apply(ps, e))
}

/// Edit `e` keeps each day as the roster needs it: a renamed team or
/// student must be new to the day.
pub open spec fn edit_fits(ps: Set<PairingModel>, e: EditModel) -> bool {
    match e {
        EditModel::RenameTeam(a, b) => a == b || forall|p: PairingModel| #[trigger] ps.contains(p) ==> p.team_of() != Some(b),
        EditModel::RenameStudent(a, b) => a == b || forall|p: PairingModel| #[trigger] ps.contains(p) ==> !p.holds(b),
        _ => true,
    }
}

pub proof fn lemma_apply_push(v: Seq<Pairing>, p: Pairing, e: EditModel)
    ensures
        apply(set_of(v.push(p)), e) == (match step(p@, e) {
            Some(q) => apply(set_of(v), e).insert(q),
            None => apply(set_of(v), e),
        }),
{
    lemma_set_of_push(v, p);
    let a = apply(set_of(v.push(p)), e);
    let b = match step(p@, e) {
        Some(q) => apply(set_of(v), e).insert(q),
        None => apply(set_of(v), e),
    };
    assert forall|q: PairingModel| #[trigger] a.contains(q) <==> b.contains(q) by {
        if a.contains(q) {
            let w = choose|w: PairingModel| #[trigger] set_of(v.push(p)).contains(w) && step(w, e) == Some(q);
            if w != p@ {
                assert(set_of(v).contains(w));
            }
        }
        if apply(set_of(v), e).contains(q) {
            let w = choose|w: PairingModel| #[trigger] set_of(v).contains(w) && step(w, e) == Some(q);
            assert(set_of(v.push(p)).contains(w));
        }
        if step(p@, e) == Some(q) {
            assert(set_of(v.push(p)).contains(p@));
        }
    }
    assert(a =~= b);
}

pub proof fn lemma_apply_ok(ps: Set<PairingModel>, e: EditModel)
    requires
        day_ok(ps),
        edit_fits(ps, e),
    ensures
        day_ok(apply(ps, e)),
{
    let r = apply(ps, e);
    assert forall|q: PairingModel| #[trigger] r.contains(q) implies q.well_formed() by {
        let w = choose|w: PairingModel| #[trigger] ps.contains(w) && step(w, e) == Some(q);
        assert(w.well_formed());
        if let EditModel::RenameStudent(a, b) = e {
            if a != b {
                if let PairingModel::Pair { primary, secondary, .. } = w {
                    assert(w.holds(primary) && w.holds(secondary));
                }
            }
        }
    }
    assert forall|q1: PairingModel, q2: PairingModel, x: Name|
        #![trigger r.contains(q1), r.contains(q2), q1.holds(x), q2.holds(x)]
        r.contains(q1) && r.contains(q2) && q1.holds(x) && q2.holds(x) implies q1 == q2 by {
        let w1 = choose|w: PairingModel| #[trigger] ps.contains(w) && step(w, e) == Some(q1);
        let w2 = choose|w: PairingModel| #[trigger] ps.contains(w) && step(w, e) == Some(q2);
        match e {
            EditModel::RenameStudent(a, b) => {
                if a != b && x == b {
                    assert(w1.holds(a) || w1.holds(b));
                    assert(w2.holds(a) || w2.holds(b));
                    assert(w1.holds(a) && w2.holds(a));
                } else if a != b {
                    assert(w1.holds(x) && w2.holds(x));
                } else {
                    assert(w1.with_student(a, b) == w1);
                    assert(w2.with_student(a, b) == w2);
                    assert(w1.holds(x) && w2.holds(x));
                }
            },
            _ => {
                assert(w1.holds(x) && w2.holds(x));
            },
        }
    }
    assert forall|q1: PairingModel, q2: PairingModel|
        #![trigger r.contains(q1), r.contains(q2)]
        r.contains(q1) && r.contains(q2) && q1.team_of() is Some && q1.team_of() == q2.team_of() implies q1 == q2 by {
        let w1 = choose|w: PairingModel| #[trigger] ps.contains(w) && step(w, e) == Some(q1);
        let w2 = choose|w: PairingModel| #[trigger] ps.contains(w) && step(w, e) == Some(q2);
        match e {
            EditModel::RenameTeam(a, b) => {
                if a != b && q1.team_of() == Some(b) {
                    assert(w1.team_of() == Some(a) || w1.team_of() == Some(b));
                    assert(w1.team_of() == Some(a) && w2.team_of() == Some(a));
                } else if a == b {
                    assert(w1.with_team(a, b) == w1);
                    assert(w2.with_team(a, b) == w2);
                } else {
                    assert(w1.team_of() == q1.team_of() && w2.team_of() == q2.team_of());
                }
            },
            _ => {
                assert(w1.team_of() == q1.team_of() && w2.team_of() == q2.team_of());
            },
        }
    }
}

/// What becomes of `p` under `e`.
fn edit_record(p: &Pairing, e: &Edit) -> (r: Option<Pairing>)
    ensures
        match step(p@, e@) {
            Some(q) => r matches Some(x) && x@ == q,
            None => r is None,
        },
{
    match e {
        Edit::DropSection(s) => if p.in_section(s) {
            None
        } else {
            Some(p.duplicate())
        },
        Edit::DropTeam(t) => if p.on_team(t) {
            None
        } else {
            Some(p.duplicate())
        },
        Edit::RenameSection(a, b) => Some(p.with_section(a, b)),
        Edit::RenameTeam(a, b) => Some(p.with_team(a, b)),
        Edit::RenameStudent(a, b) => Some(p.with_student(a, b)),
    }
}

impl Data {
    /// Applies `e` to the records of every day.
    fn edit_days(&mut self, e: &Edit)
        requires
            old(self).wf(),
            forall|d: int| 0 <= d < old(self)@.days.len() ==> edit_fits(#[trigger] old(self)@.days[d], e@),
        ensures
            final(self).wf(),
            final(self).path() == old(self).path(),
            final(self)@ == (RosterModel { days: apply_all(old(self)@.days, e@), ..old(self)@ }),
    {
        let ghost r0 = self@;
        let mut d: usize = 0;
        while d < self.days.len()
            invariant
                d <= self.days@.len(),
                self.days@.len() == r0.days.len(),
                self.path() == old(self).path(),
                r0 == old(self)@,
                self.wf(),
                forall|k: int| 0 <= k < r0.days.len() ==> edit_fits(#[trigger] r0.days[k], e@),
                forall|k: int| 0 <= k < r0.days.len() ==> day_ok(#[trigger] r0.days[k]),
                self@ == (RosterModel { days: self@.days, ..r0 }),
                forall|k: int| 0 <= k < d ==> #[trigger] self@.days[k] == apply(r0.days[k], e@),
                forall|k: int| d <= k < r0.days.len() ==> #[trigger] self@.days[k] == r0.days[k],
            decreases self.days@.len() - d,
        {
            let ghost ps0 = r0.days[d as int];
            let mut out: Vec<Pairing> = Vec::new();
            {
                let ps = &self.days[d];
                assert(self@.days[d as int] == r0.days[d as int]);
                assert(ps0 == set_of(ps@));
                let mut i: usize = 0;
                proof {
                    lemma_set_of_empty(out@);
                    assert(ps@.take(0) =~= Seq::<Pairing>::empty());
                    assert(apply(set_of(ps@.take(0)), e@) =~= Set::<PairingModel>::empty());
                }
                while i < ps.len()
                    invariant
                        i <= ps.len(),
                        set_of(out@) == apply(set_of(ps@.take(i as int)), e@),
                    decreases ps.len() - i,
                {
                    proof {
                        assert(ps@.take(i + 1) =~= ps@.take(i as int).push(ps@[i as int]));
                        lemma_apply_push(ps@.take(i as int), ps@[i as int], e@);
                    }
                    match edit_record(&ps[i], e) {
                        Some(q) => {
                            proof {
                                lemma_set_of_push(out@, q);
                            }
                            out.push(q);
                        },
                        None => {},
                    }
                    i = i + 1;
                }
                assert(ps@.take(ps.len() as int) =~= ps@);
            }
            proof {
                lemma_apply_ok(ps0, e@);
            }
            let ghost before = self@;
            self.replace_day(d, out);
            assert forall|k: int| 0 <= k < self@.days.len() implies day_ok(#[trigger] self@.days[k]) by {
                if k != d {
                    assert(self@.days[k] == before.days[k]);
                }
            }
            d = d + 1;
        }
        assert(self@.days =~= apply_all(r0.days, e@));
    }

    /// Whether any record of any day occupies team `t`.
    fn team_in_use(&self, t: &Team) -> (r: bool)
        ensures
            r == team_used(self@, t@),
    {
        let mut d: usize = 0;
        while d < self.days.len()
            invariant
                d <= self.days@.len(),
                forall|k: int, p: PairingModel| 0 <= k < d && #[trigger] self@.days[k].contains(p) ==> p.team_of() != Some(t@),
            decreases self.days@.len() - d,
        {
            assert(self@.days[d as int] == set_of(self.days@[d as int]@));
            if let Some(j) = find_on_team(&self.days[d], t) {
                proof {
                    lemma_set_of_index(self.days@[d as int]@, j as int);
                    assert(self@.days[d as int].contains(self.days@[d as int]@[j as int]@));
                }
                return true;
            }
            d = d + 1;
        }
        false
    }

    /// Whether any record of any day holds student `s`.
    fn student_held(&self, s: &Student) -> (r: bool)
        ensures
            r == student_used(self@, s@),
    {
        let mut d: usize = 0;
        while d < self.days.len()
            invariant
                d <= self.days@.len(),
                forall|k: int, p: PairingModel| 0 <= k < d && #[trigger] self@.days[k].contains(p) ==> !p.holds(s@),
            decreases self.days@.len() - d,
        {
            assert(self@.days[d as int] == set_of(self.days@[d as int]@));
            if let Some(j) = find_holder(&self.days[d], s) {
                proof {
                    lemma_set_of_index(self.days@[d as int]@, j as int);
                    assert(self@.days[d as int].contains(self.days@[d as int]@[j as int]@));
                }
                return true;
            }
            d = d + 1;
        }
        false
    }

    /// Takes section `s` away, with every record of it on every day.
    pub fn delete_section(&mut self, s: Section)
        requires
            old(self).wf(),
        ensures
            final(self).wf(),
            final(self).path() == old(self).path(),
            final(self)@ == (RosterModel {
                sections: final(self)@.sections,
                days: apply_all(old(self)@.days, EditModel::DropSection(s@)),
                ..old(self)@
            }),
            replaced(old(self)@.sections, final(self)@.sections, s@, None),
    {
        let ghost v0 = self.sections@;
        proof {
            lemma_section_keys(v0);
        }
        remove_key(&mut self.sections, &s.name);
        proof {
            lemma_section_keys(self.sections@);
            let f = |x: (Section, Zoom)| (x.0@, x.1@);
            let kf = |v: (Name, Name)| v.0;
            assert forall|x: (Name, Name)| #[trigger] self@.sections.contains(x) <==> (None::<(Name, Name)> == Some(x) || (old(self)@.sections.contains(x) && x.0 != s@)) by {
                lemma_remove_view(v0, self.sections@, s@, f, kf, x);
            }
        }
        self.edit_days(&Edit::DropSection(s));
    }

    /// Takes team `t` away, with every record on it on every day.
    pub fn delete_team(&mut self, t: Team)
        requires
            old(self).wf(),
        ensures
            final(self).wf(),
            final(self).path() == old(self).path(),
            final(self)@ == (RosterModel {
                teams: final(self)@.teams,
                days: apply_all(old(self)@.days, EditModel::DropTeam(t@)),
                ..old(self)@
            }),
            forall|x: Name| #[trigger] final(self)@.teams.contains(x) <==> (old(self)@.teams.contains(x) && x != t@),
    {
        let ghost v0 = self.teams@;
        proof {
            lemma_team_keys(v0);
        }
        remove_key(&mut self.teams, &t.name);
        proof {
            lemma_team_keys(self.teams@);
            let f = |x: Team| x@;
            let kf = |v: Name| v;
            assert forall|x: Name| #[trigger] self@.teams.contains(x) <==> (old(self)@.teams.contains(x) && x != t@) by {
                lemma_remove_view(v0, self.teams@, t@, f, kf, x);
            }
        }
        self.edit_days(&Edit::DropTeam(t));
    }

    /// Renames section `old_s` to `new_s` with meeting token `zoom`, in the
    /// section list and in every record.
    pub fn rename_section(&mut self, old_s: Section, new_s: Section, zoom: Zoom)
        requires
            old(self).wf(),
        ensures
            final(self).wf(),
            final(self).path() == old(self).path(),
            final(self)@ == (RosterModel {
                sections: final(self)@.sections,
                days: apply_all(old(self)@.days, EditModel::RenameSection(old_s@, new_s@)),
                ..old(self)@
            }),
            forall|x: (Name, Name)| #[trigger] final(self)@.sections.contains(x) <==> (x == (new_s@, zoom@) || (
                old(self)@.sections.contains(x) && x.0 != old_s@ && x.0 != new_s@)),
    {
        let ghost v0 = self.sections@;
        let ghost e = (new_s@, zoom@);
        proof {
            lemma_section_keys(v0);
        }
        remove_key(&mut self.sections, &old_s.name);
        let ghost v1 = self.sections@;
        proof {
            lemma_section_keys(v1);
        }
        let ns = new_s.duplicate();
        let ghost nv = (ns, zoom);
        upsert(&mut self.sections, (ns, zoom));
        proof {
            lemma_section_keys(self.sections@);
            let f = |x: (Section, Zoom)| (x.0@, x.1@);
            let kf = |v: (Name, Name)| v.0;
            assert forall|x: (Name, Name)| #[trigger] self@.sections.contains(x) <==> (x == e || (old(self)@.sections.contains(x) && x.0 != old_s@ && x.0 != new_s@)) by {
                lemma_remove_view(v0, v1, old_s@, f, kf, x);
                lemma_upsert_view(v1, self.sections@, nv, f, kf, x);
            }
        }
        self.edit_days(&Edit::RenameSection(old_s, new_s));
    }

    /// Renames team `old_t` to `new_t`, in the team list and in every
    /// record. Nothing changes where `new_t` is `old_t` or on a record of
    /// some day.
    pub fn rename_team(&mut self, old_t: Team, new_t: Team)
        requires
            old(self).wf(),
        ensures
            final(self).wf(),
            final(self).path() == old(self).path(),
            old_t@ == new_t@ || team_used(old(self)@, new_t@)
                ==> final(self)@ == old(self)@,
            !(old_t@ == new_t@ || team_used(old(self)@, new_t@)) ==> (
            final(self)@ == (RosterModel {
                teams: final(self)@.teams,
                days: apply_all(old(self)@.days, EditModel::RenameTeam(old_t@, new_t@)),
                ..old(self)@
            }) && (forall|x: Name| #[trigger] final(self)@.teams.contains(x) <==> (x == new_t@ || (
                old(self)@.teams.contains(x) && x != old_t@)))),
    {
        if old_t == new_t || self.team_in_use(&new_t) {
            return;
        }
        let ghost v0 = self.teams@;
        proof {
            lemma_team_keys(v0);
        }
        remove_key(&mut self.teams, &old_t.name);
        let ghost v1 = self.teams@;
        proof {
            lemma_team_keys(v1);
        }
        let nt = new_t.duplicate();
        let ghost nv = nt;
        upsert(&mut self.teams, nt);
        proof {
            lemma_team_keys(self.teams@);
            let f = |x: Team| x@;
            let kf = |v: Name| v;
            assert forall|x: Name| #[trigger] self@.teams.contains(x) <==> (x == new_t@ || (old(self)@.teams.contains(x) && x != old_t@)) by {
                lemma_remove_view(v0, v1, old_t@, f, kf, x);
                lemma_upsert_view(v1, self.teams@, nv, f, kf, x);
            }
        }
        self.edit_days(&Edit::RenameTeam(old_t, new_t));
    }

    /// Whether `s` is on the roster.
    fn on_roster(&self, s: &Student) -> (r: bool)
        ensures
            r == keys_of(self@.students).contains(s@),
    {
        let mut i: usize = 0;
        while i < self.student_sections.len()
            invariant
                i <= self.student_sections@.len(),
                forall|k: int| 0 <= k < i ==> (#[trigger] self.student_sections@[k]).0@ != s@,
            decreases self.student_sections@.len() - i,
        {
            if self.student_sections[i].0 == *s {
                assert(keys_of(self@.students)[i as int] == s@);
                return true;
            }
            i = i + 1;
        }
        assert(!keys_of(self@.students).contains(s@)) by {
            if keys_of(self@.students).contains(s@) {
                let k = choose|k: int| 0 <= k < self.student_sections@.len() && keys_of(self@.students)[k] == s@;
                assert(self.student_sections@[k].0@ == s@);
            }
        }
        false
    }

    /// Renames student `old_s` to `new_s`, with default section `section`,
    /// on the roster and in every record. Nothing changes where `old_s` is
    /// not on the roster, or where `new_s` is another name that is on the
    /// roster or on a record of some day.
    pub fn rename_student(&mut self, old_s: Student, new_s: Student, section: Section)
        requires
            old(self).wf(),
        ensures
            final(self).wf(),
            final(self).path() == old(self).path(),
            !rename_allowed(old(self)@, old_s@, new_s@) ==> final(self)@ == old(self)@,
            rename_allowed(old(self)@, old_s@, new_s@) ==> (final(self)@ == (RosterModel {
                students: final(self)@.students,
                days: apply_all(old(self)@.days, EditModel::RenameStudent(old_s@, new_s@)),
                ..old(self)@
            }) && (forall|x: (Name, Name)| #[trigger] final(self)@.students.contains(x) <==> (x == (new_s@, section@) || (
                old(self)@.students.contains(x) && x.0 != old_s@ && x.0 != new_s@)))),
    {
        if !self.on_roster(&old_s) {
            return;
        }
        if !(old_s == new_s) && (self.on_roster(&new_s) || self.student_held(&new_s)) {
            return;
        }
        let ghost v0 = self.student_sections@;
        let ghost e = (new_s@, section@);
        proof {
            lemma_entries_keys(v0);
        }
        remove_key(&mut self.student_sections, &old_s.name);
        let ghost v1 = self.student_sections@;
        proof {
            lemma_entries_keys(v1);
        }
        let ns = new_s.duplicate();
        let ghost nv = (ns, section);
        upsert(&mut self.student_sections, (ns, section));
        proof {
            lemma_entries_keys(self.student_sections@);
            let f = |x: (Student, Section)| (x.0@, x.1@);
            let kf = |v: (Name, Name)| v.0;
            assert forall|x: (Name, Name)| #[trigger] self@.students.contains(x) <==> (x == e || (old(self)@.students.contains(x) && x.0 != old_s@ && x.0 != new_s@)) by {
                lemma_remove_view(v0, v1, old_s@, f, kf, x);
                lemma_upsert_view(v1, self.student_sections@, nv, f, kf, x);
            }
        }
        self.edit_days(&Edit::RenameStudent(old_s, new_s));
    }
}

} // verus!
