use vstd::prelude::*;
use std::collections::{HashMap, HashSet};
use crate::names::{Day, Name, Section, Student, Team, Zoom, strictly_sorted};
use crate::pairing::{Pairing, PairingModel, models_of};

verus! {

broadcast use vstd::std_specs::hash::group_hash_axioms;

/// The pairings of one day, as a set of records.
pub open spec fn set_of(v: Seq<Pairing>) -> Set<PairingModel> {
    models_of(v).to_set()
}

pub proof fn lemma_set_of_push(v: Seq<Pairing>, p: Pairing)
    ensures
        set_of(v.push(p)) == set_of(v).insert(p@),
{
    assert(models_of(v.push(p)) =~= models_of(v).push(p@));
    assert forall|q: PairingModel| #[trigger] set_of(v.push(p)).contains(q) <==> set_of(v).insert(
        p@,
    ).contains(q) by {
        vstd::seq_lib::lemma_seq_contains_after_push(models_of(v), p@, q);
    }
    assert(set_of(v.push(p)) =~= set_of(v).insert(p@));
}

pub proof fn lemma_set_of_empty(v: Seq<Pairing>)
    requires
        v.len() == 0,
    ensures
        set_of(v) == Set::<PairingModel>::empty(),
{
    assert(set_of(v) =~= Set::<PairingModel>::empty());
}

pub proof fn lemma_set_of_index(v: Seq<Pairing>, i: int)
    requires
        0 <= i < v.len(),
    ensures
        set_of(v).contains(v[i]@),
{
    assert(models_of(v)[i] == v[i]@);
}

/// No student is held by two records of the day, and no pair joins a
/// student with themself.
pub open spec fn exclusive(ps: Set<PairingModel>) -> bool {
    &&& forall|p: PairingModel| #[trigger] ps.contains(p) ==> p.well_formed()
    &&& forall|p: PairingModel, q: PairingModel, s: Name|
        #![trigger ps.contains(p), ps.contains(q), p.holds(s), q.holds(s)]
        ps.contains(p) && ps.contains(q) && p.holds(s) && q.holds(s) ==> p == q
}

/// The record of the day that holds `s`, if one does.
pub open spec fn holder(ps: Set<PairingModel>, s: Name) -> Option<PairingModel> {
    if exists|q: PairingModel| ps.contains(q) && q.holds(s) {
        Some(choose|q: PairingModel| ps.contains(q) && q.holds(s))
    } else {
        None
    }
}

/// The records of the day that do not hold `s`.
pub open spec fn without(ps: Set<PairingModel>, s: Name) -> Set<PairingModel> {
    ps.filter(|q: PairingModel| !q.holds(s))
}

/// The day after `s` leaves it: the record that held `s` goes, and where it
/// was a pair the other member stays on the team alone.
pub open spec fn after_unassign(ps: Set<PairingModel>, s: Name) -> Set<PairingModel> {
    match holder(ps, s) {
        Some(PairingModel::Pair { section, team, primary, secondary }) => without(ps, s).insert(
            PairingModel::Solo {
                section,
                team,
                student: if primary == s {
                    secondary
                } else {
                    primary
                },
            },
        ),
        _ => without(ps, s),
    }
}

/// Splits the records of a day into those that do not hold `s`, and one
/// that does, if any.
pub fn split_out(ps: &Vec<Pairing>, s: &Student) -> (r: (Vec<Pairing>, Option<Pairing>))
    ensures
        set_of(r.0@) == without(set_of(ps@), s@),
        r.1 matches Some(p) ==> set_of(ps@).contains(p@) && p@.holds(s@),
        r.1 is None ==> holder(set_of(ps@), s@) is None,
{
    let mut out: Vec<Pairing> = Vec::new();
    let mut found: Option<Pairing> = None;
    let mut i: usize = 0;
    proof {
        lemma_set_of_empty(out@);
    }
    while i < ps.len()
        invariant
            i <= ps.len(),
            forall|q: PairingModel|
                #[trigger] set_of(out@).contains(q) <==> (set_of(ps@.take(i as int)).contains(q)
                    && !q.holds(s@)),
            found matches Some(p) ==> set_of(ps@).contains(p@) && p@.holds(s@),
            found is None ==> forall|k: int| 0 <= k < i ==> !(#[trigger] ps@[k]@).holds(s@),
        decreases ps.len() - i,
    {
        let p = &ps[i];
        proof {
            assert(ps@.take(i + 1) =~= ps@.take(i as int).push(ps@[i as int]));
            lemma_set_of_push(ps@.take(i as int), ps@[i as int]);
            lemma_set_of_index(ps@, i as int);
        }
        if p.has(s) {
            found = Some(p.duplicate());
        } else {
            proof {
                lemma_set_of_push(out@, *p);
            }
            out.push(p.duplicate());
        }
        i = i + 1;
    }
    proof {
        assert(ps@.take(ps.len() as int) =~= ps@);
        assert(set_of(out@) =~= without(set_of(ps@), s@));
        if found is None {
            assert forall|q: PairingModel| !(set_of(ps@).contains(q) && q.holds(s@)) by {
                if set_of(ps@).contains(q) {
                    let k = choose|k: int| 0 <= k < ps.len() && models_of(ps@)[k] == q;
                    assert(ps@[k]@ == q);
                }
            }
        }
    }
    (out, found)
}


/// No two records of the day occupy the same team.
pub open spec fn team_exclusive(ps: Set<PairingModel>) -> bool {
    forall|p: PairingModel, q: PairingModel|
        #![trigger ps.contains(p), ps.contains(q)]
        ps.contains(p) && ps.contains(q) && p.team_of() is Some && p.team_of() == q.team_of()
            ==> p == q
}

/// What every day of a roster keeps: each student in at most one record,
/// each team in at most one record, and no pair of a student with themself.
pub open spec fn day_ok(ps: Set<PairingModel>) -> bool {
    exclusive(ps) && team_exclusive(ps)
}

pub proof fn lemma_without_ok(ps: Set<PairingModel>, s: Name)
    requires
        day_ok(ps),
    ensures
        day_ok(without(ps, s)),
        forall|q: PairingModel| #[trigger] without(ps, s).contains(q) ==> !q.holds(s),
        without(ps, s).subset_of(ps),
{
}

pub proof fn lemma_insert_ok(ps: Set<PairingModel>, n: PairingModel)
    requires
        day_ok(ps),
        n.well_formed(),
        forall|q: PairingModel, x: Name| #![trigger ps.contains(q), q.holds(x)] ps.contains(q) && n.holds(x) ==> !q.holds(x),
        n.team_of() is Some ==> forall|q: PairingModel| #[trigger] ps.contains(q) ==> q.team_of() != n.team_of(),
    ensures
        day_ok(ps.insert(n)),
{
    let r = ps.insert(n);
    assert forall|p: PairingModel, q: PairingModel, x: Name|
        r.contains(p) && r.contains(q) && p.holds(x) && q.holds(x) implies p == q by {
        if p != n && q == n {
            assert(!p.holds(x));
        }
        if p == n && q != n {
            assert(!q.holds(x));
        }
    }
}

pub proof fn lemma_after_unassign_ok(ps: Set<PairingModel>, s: Name)
    requires
        day_ok(ps),
    ensures
        day_ok(after_unassign(ps, s)),
        forall|q: PairingModel| #[trigger] after_unassign(ps, s).contains(q) ==> !q.holds(s),
{
    lemma_without_ok(ps, s);
    let w = without(ps, s);
    if let Some(PairingModel::Pair { section, team, primary, secondary }) = holder(ps, s) {
        let h = holder(ps, s)->0;
        let other = if primary == s { secondary } else { primary };
        let n = PairingModel::Solo { section, team, student: other };
        assert(ps.contains(h) && h.holds(s));
        assert forall|q: PairingModel, x: Name| #![trigger w.contains(q), q.holds(x)] w.contains(q) && n.holds(x) implies !q.holds(x) by {
            assert(h.holds(other));
            if q.holds(x) {
                assert(ps.contains(q));
            }
        }
        assert forall|q: PairingModel| #[trigger] w.contains(q) implies q.team_of() != n.team_of() by {
            assert(ps.contains(q));
        }
        lemma_insert_ok(w, n);
    }
}


/// The record of the day that occupies team `t`, if one does.
pub open spec fn team_holder(ps: Set<PairingModel>, t: Name) -> Option<PairingModel> {
    if exists|q: PairingModel| ps.contains(q) && q.team_of() == Some(t) {
        Some(choose|q: PairingModel| ps.contains(q) && q.team_of() == Some(t))
    } else {
        None
    }
}

/// A change was asked of a day that is locked.
#[derive(Debug, Clone, Copy, PartialEq, Eq, Structural)]
pub struct DayLocked;

/// Why a request to put a student on a team was turned down.
#[derive(Debug, Clone, Copy, PartialEq, Eq, Structural)]
pub enum AssignError {
    /// The day is locked.
    DayLocked,
    /// The team already holds a full pair.
    TeamFull,
    /// The team holds a student of another section.
    SectionMismatch,
}

/// The day after a request to put `s` in section `sec` on team `t`, or why
/// the request is turned down. An empty section marks `s` absent; an empty
/// team leaves `s` in the section without a team.
pub open spec fn assign_outcome(ps: Set<PairingModel>, s: Name, sec: Name, t: Name) -> Result<
    Set<PairingModel>,
    AssignError,
> {
    let rest = after_unassign(ps, s);
    if sec.len() == 0 {
        Ok(rest.insert(PairingModel::Absent(s)))
    } else if t.len() == 0 {
        Ok(rest.insert(PairingModel::Unassigned { section: sec, student: s }))
    } else {
        match team_holder(rest, t) {
            Some(PairingModel::Pair { .. }) => Err(AssignError::TeamFull),
            Some(PairingModel::Solo { section, student, .. }) => if section != sec {
                Err(AssignError::SectionMismatch)
            } else {
                Ok(
                    without(rest, student).insert(
                        PairingModel::Pair { section: sec, team: t, primary: student, secondary: s },
                    ),
                )
            },
            _ => Ok(rest.insert(PairingModel::Solo { section: sec, team: t, student: s })),
        }
    }
}

/// The day after `s` is taken off their team but kept in their section.
/// Nothing changes for an absent student or one the day does not hold.
pub open spec fn after_unpair(ps: Set<PairingModel>, s: Name) -> Set<PairingModel> {
    match holder(ps, s) {
        Some(h) => match h.section_of() {
            Some(sec) => after_unassign(ps, s).insert(
                PairingModel::Unassigned { section: sec, student: s },
            ),
            None => ps,
        },
        None => ps,
    }
}

/// The day after every member of team `t` is taken off it.
pub open spec fn after_unpair_team(ps: Set<PairingModel>, t: Name) -> Set<PairingModel> {
    match team_holder(ps, t) {
        Some(PairingModel::Pair { primary, secondary, .. }) => after_unpair(
            after_unpair(ps, primary),
            secondary,
        ),
        Some(PairingModel::Solo { student, .. }) => after_unpair(ps, student),
        _ => ps,
    }
}

/// Finds a record of the day on team `t`.
pub fn find_on_team(ps: &Vec<Pairing>, t: &Team) -> (r: Option<usize>)
    ensures
        r matches Some(i) ==> i < ps@.len() && ps@[i as int]@.team_of() == Some(t@),
        r is None ==> team_holder(set_of(ps@), t@) is None,
{
    let mut i: usize = 0;
    while i < ps.len()
        invariant
            i <= ps.len(),
            forall|k: int| 0 <= k < i ==> (#[trigger] ps@[k]@).team_of() != Some(t@),
        decreases ps.len() - i,
    {
        if ps[i].on_team(t) {
            return Some(i);
        }
        i = i + 1;
    }
    assert forall|q: PairingModel| !(set_of(ps@).contains(q) && q.team_of() == Some(t@)) by {
        if set_of(ps@).contains(q) {
            let k = choose|k: int| 0 <= k < ps.len() && models_of(ps@)[k] == q;
            assert(ps@[k]@ == q);
        }
    }
    None
}

/// Finds a record of the day that holds `s`.
pub fn find_holder(ps: &Vec<Pairing>, s: &Student) -> (r: Option<usize>)
    ensures
        r matches Some(i) ==> i < ps@.len() && ps@[i as int]@.holds(s@),
        r is None ==> holder(set_of(ps@), s@) is None,
{
    let mut i: usize = 0;
    while i < ps.len()
        invariant
            i <= ps.len(),
            forall|k: int| 0 <= k < i ==> !(#[trigger] ps@[k]@).holds(s@),
        decreases ps.len() - i,
    {
        if ps[i].has(s) {
            return Some(i);
        }
        i = i + 1;
    }
    assert forall|q: PairingModel| !(set_of(ps@).contains(q) && q.holds(s@)) by {
        if set_of(ps@).contains(q) {
            let k = choose|k: int| 0 <= k < ps.len() && models_of(ps@)[k] == q;
            assert(ps@[k]@ == q);
        }
    }
    None
}

pub proof fn lemma_filter_push<A>(s: Seq<A>, x: A, pred: spec_fn(A) -> bool)
    ensures
        s.push(x).filter(pred) == (if pred(x) {
            s.filter(pred).push(x)
        } else {
            s.filter(pred)
        }),
{
    reveal(Seq::filter);
    assert(s.push(x).drop_last() =~= s);
}

/// The model of a whole roster.
pub struct RosterModel {
    /// Each student with their default section, in name order.
    pub students: Seq<(Name, Name)>,
    /// Each section with its meeting token, in name order.
    pub sections: Seq<(Name, Name)>,
    /// The team names, in order.
    pub teams: Seq<Name>,
    /// The records of each day.
    pub days: Seq<Set<PairingModel>>,
    pub day_names: Map<usize, Name>,
    pub unlocked: Set<usize>,
}

pub open spec fn keys_of(s: Seq<(Name, Name)>) -> Seq<Name> {
    s.map_values(|e: (Name, Name)| e.0)
}

impl RosterModel {
    pub open spec fn wf(self) -> bool {
        &&& strictly_sorted(keys_of(self.students))
        &&& strictly_sorted(keys_of(self.sections))
        &&& strictly_sorted(self.teams)
        &&& forall|d: int| 0 <= d < self.days.len() ==> day_ok(#[trigger] self.days[d])
    }

    pub open spec fn with_day(self, d: int, ps: Set<PairingModel>) -> RosterModel {
        RosterModel { days: self.days.update(d, ps), ..self }
    }
}

/// The whole state of one course: its students, sections, teams and days.
pub struct Data {
    pub(crate) course_path: String,
    pub(crate) student_sections: Vec<(Student, Section)>,
    pub(crate) sections: Vec<(Section, Zoom)>,
    pub(crate) teams: Vec<Team>,
    pub(crate) days: Vec<Vec<Pairing>>,
    pub(crate) daynames: HashMap<usize, String>,
    pub(crate) days_unlocked: HashSet<usize>,
}

pub open spec fn student_entries(v: Seq<(Student, Section)>) -> Seq<(Name, Name)> {
    v.map_values(|e: (Student, Section)| (e.0@, e.1@))
}

pub open spec fn section_entries(v: Seq<(Section, Zoom)>) -> Seq<(Name, Name)> {
    v.map_values(|e: (Section, Zoom)| (e.0@, e.1@))
}

pub open spec fn team_names(v: Seq<Team>) -> Seq<Name> {
    v.map_values(|t: Team| t@)
}

pub open spec fn day_sets(v: Seq<Vec<Pairing>>) -> Seq<Set<PairingModel>> {
    v.map_values(|d: Vec<Pairing>| set_of(d@))
}

impl View for Data {
    type V = RosterModel;

    open(crate) spec fn view(&self) -> RosterModel {
        RosterModel {
            students: student_entries(self.student_sections@),
            sections: section_entries(self.sections@),
            teams: team_names(self.teams@),
            days: day_sets(self.days@),
            day_names: self.daynames@.map_values(|n: String| n@),
            unlocked: self.days_unlocked@,
        }
    }
}

impl Data {
    pub open spec fn wf(&self) -> bool {
        self@.wf()
    }

    pub open(crate) spec fn path(&self) -> Seq<char> {
        self.course_path@
    }

    /// An empty roster for the course stored under `path`.
    pub fn new(path: &str) -> (r: Data)
        ensures
            r.wf(),
            r.path() == path@,
            r@.students.len() == 0,
            r@.sections.len() == 0,
            r@.teams.len() == 0,
            r@.days.len() == 0,
            r@.day_names.is_empty(),
            r@.unlocked.is_empty(),
    {
        let r = Data {
            course_path: path.to_owned(),
            student_sections: Vec::new(),
            sections: Vec::new(),
            teams: Vec::new(),
            days: Vec::new(),
            daynames: HashMap::new(),
            days_unlocked: HashSet::new(),
        };
        assert(r@.day_names =~= Map::empty());
        r
    }

    /// Replaces the records of day `d`.
    pub(crate) fn replace_day(&mut self, d: usize, v: Vec<Pairing>)
        requires
            d < old(self).days@.len(),
        ensures
            final(self)@ == old(self)@.with_day(d as int, set_of(v@)),
            final(self).path() == old(self).path(),
    {
        self.days.set(d, v);
        assert(day_sets(self.days@) =~= day_sets(old(self).days@).update(d as int, set_of(v@)));
    }

    /// The records of day `d` once `s` has left it.
    pub(crate) fn day_without(&self, d: usize, s: &Student) -> (r: Vec<Pairing>)
        requires
            self.wf(),
            d < self@.days.len(),
        ensures
            set_of(r@) == after_unassign(self@.days[d as int], s@),
    {
        let (mut rest, found) = split_out(&self.days[d], s);
        assert(self@.days[d as int] == set_of(self.days@[d as int]@));
        assert(day_ok(self@.days[d as int]));
        match found {
            Some(Pairing::Pair { section, team, primary, secondary }) => {
                let ghost h = holder(self@.days[d as int], s@);
                assert(h == Some(found->0@));
                let other = if primary == *s {
                    secondary
                } else {
                    primary
                };
                let n = Pairing::Solo { section, team, student: other };
                proof {
                    lemma_set_of_push(rest@, n);
                }
                rest.push(n);
            },
            Some(p) => {
                assert(holder(self@.days[d as int], s@) == Some(p@));
            },
            None => {},
        }
        rest
    }

    /// Takes `student` out of whatever record holds them on `day`; where
    /// that was a pair, the partner stays on the team alone.
    /// Nothing changes, and `DayLocked` comes back, where the day is locked.
    pub fn unassign_student(&mut self, day: Day, student: Student) -> (r: Result<(), DayLocked>)
        requires
            old(self).wf(),
            day.id < old(self)@.days.len(),
        ensures
            final(self).wf(),
            final(self).path() == old(self).path(),
            !old(self)@.unlocked.contains(day.id) ==> r == Err::<(), DayLocked>(DayLocked) && final(self)@ == old(self)@,
            old(self)@.unlocked.contains(day.id) ==> r is Ok && (final(self)@ == old(self)@.with_day(
                day.id as int,
                after_unassign(old(self)@.days[day.id as int], student@),
            )),
            old(self)@.unlocked.contains(day.id) ==> forall|p: PairingModel| #[trigger] final(self)@.days[day.id as int].contains(p)
                ==> !p.holds(student@),
    {
        if !self.day_unlocked(day.duplicate()) {
            return Err(DayLocked);
        }
        let ghost ps = self@.days[day.id as int];
        let ghost s = student@;
        proof {
            lemma_after_unassign_ok(ps, s);
        }
        self.unassign_student_open(day, student);
        Ok(())
    }

    pub(crate) fn unassign_student_open(&mut self, day: Day, student: Student)
        requires
            old(self).wf(),
            day.id < old(self)@.days.len(),
        ensures
            final(self).wf(),
            final(self).path() == old(self).path(),
            final(self)@ == old(self)@.with_day(
                day.id as int,
                after_unassign(old(self)@.days[day.id as int], student@),
            ),
    {
        let d = day.id;
        let v = self.day_without(d, &student);
        proof {
            lemma_after_unassign_ok(self@.days[d as int], student@);
        }
        self.replace_day(d, v);
    }
    /// Puts `student` on `day` into `section` and `team`: absent where the
    /// section is empty, in the section without a team where the team is
    /// empty, and else alone on the team or beside the one student there.
    /// The student first leaves whatever record held them. A turned-down
    /// request leaves the roster as it was.
    pub fn assign_student(&mut self, day: Day, student: Student, section: Section, team: Team) -> (r:
        Result<(), AssignError>)
        requires
            old(self).wf(),
            day.id < old(self)@.days.len(),
        ensures
            final(self).wf(),
            final(self).path() == old(self).path(),
            !old(self)@.unlocked.contains(day.id) ==> r == Err::<(), AssignError>(AssignError::DayLocked)
                && final(self)@ == old(self)@,
            old(self)@.unlocked.contains(day.id) ==> match assign_outcome(old(self)@.days[day.id as int], student@, section@, team@) {
                Ok(ps) => r is Ok && final(self)@ == old(self)@.with_day(day.id as int, ps),
                Err(e) => r == Err::<(), AssignError>(e) && final(self)@ == old(self)@,
            },
            old(self)@.unlocked.contains(day.id) && section@.len() > 0 && team@.len() > 0 && (exists|p: PairingModel|
                #[trigger] old(self)@.days[day.id as int].contains(p) && p is Pair && p.team_of() == Some(team@)
                && !p.holds(student@)) ==> r == Err::<(), AssignError>(AssignError::TeamFull) && final(self)@ == old(self)@,
    {
        if !self.day_unlocked(day.duplicate()) {
            return Err(AssignError::DayLocked);
        }
        proof {
            let ps0 = self@.days[day.id as int];
            assert(day_ok(ps0));
            if section@.len() > 0 && team@.len() > 0 && exists|p: PairingModel|
                #[trigger] ps0.contains(p) && p is Pair && p.team_of() == Some(team@) && !p.holds(student@) {
                let p = choose|p: PairingModel| #[trigger] ps0.contains(p) && p is Pair && p.team_of() == Some(team@) && !p.holds(student@);
                crate::laws::law_full_team_refuses(ps0, student@, section@, team@, p);
            }
        }
        let d = day.id;
        let ghost ps = self@.days[d as int];
        let mut v = self.day_without(d, &student);
        proof {
            lemma_after_unassign_ok(ps, student@);
        }
        let ghost rest = set_of(v@);
        if section.is_blank() {
            let n = Pairing::Absent(student);
            proof {
                lemma_insert_ok(rest, n@);
                lemma_set_of_push(v@, n);
            }
            v.push(n);
            self.replace_day(d, v);
            return Ok(());
        }
        if team.is_blank() {
            let n = Pairing::Unassigned { section, student };
            proof {
                lemma_insert_ok(rest, n@);
                lemma_set_of_push(v@, n);
            }
            v.push(n);
            self.replace_day(d, v);
            return Ok(());
        }
        match find_on_team(&v, &team) {
            Some(i) => {
                proof {
                    lemma_set_of_index(v@, i as int);
                    assert(team_holder(rest, team@) == Some(v@[i as int]@));
                }
                match &v[i] {
                    Pairing::Pair { .. } => Err(AssignError::TeamFull),
                    Pairing::Solo { section: held, student: mate, .. } => {
                        if *held != section {
                            Err(AssignError::SectionMismatch)
                        } else {
                            let mate = mate.duplicate();
                            let (mut w, _) = split_out(&v, &mate);
                            let ghost solo = v@[i as int]@;
                            let n = Pairing::Pair { section, team, primary: mate, secondary: student };
                            proof {
                                lemma_without_ok(rest, mate@);
                                assert(!solo.holds(n->Pair_secondary@));
                                assert forall|q: PairingModel| #[trigger] set_of(w@).contains(q) implies q.team_of() != n@.team_of() by {
                                    if q.team_of() == n@.team_of() {
                                        assert(rest.contains(q));
                                        assert(q == solo);
                                    }
                                }
                                lemma_insert_ok(set_of(w@), n@);
                                lemma_set_of_push(w@, n);
                            }
                            w.push(n);
                            self.replace_day(d, w);
                            Ok(())
                        }
                    },
                    _ => Ok(()),
                }
            },
            None => {
                let n = Pairing::Solo { section, team, student };
                proof {
                    lemma_insert_ok(rest, n@);
                    lemma_set_of_push(v@, n);
                }
                v.push(n);
                self.replace_day(d, v);
                Ok(())
            },
        }
    }

    /// Takes `student` off their team on `day` and keeps them, without a
    /// team, in the section they were in. Does nothing for an absent
    /// student or one the day does not hold.
    /// Nothing changes, and `DayLocked` comes back, where the day is locked.
    pub fn unpair_student(&mut self, day: Day, student: Student) -> (r: Result<(), DayLocked>)
        requires
            old(self).wf(),
            day.id < old(self)@.days.len(),
        ensures
            final(self).wf(),
            final(self).path() == old(self).path(),
            !old(self)@.unlocked.contains(day.id) ==> r == Err::<(), DayLocked>(DayLocked) && final(self)@ == old(self)@,
            old(self)@.unlocked.contains(day.id) ==> r is Ok && (final(self)@ == old(self)@.with_day(
                day.id as int,
                after_unpair(old(self)@.days[day.id as int], student@),
            )),
    {
        if !self.day_unlocked(day.duplicate()) {
            return Err(DayLocked);
        }
        self.unpair_student_open(day, student);
        Ok(())
    }

    pub(crate) fn unpair_student_open(&mut self, day: Day, student: Student)
        requires
            old(self).wf(),
            day.id < old(self)@.days.len(),
        ensures
            final(self).wf(),
            final(self).path() == old(self).path(),
            final(self)@ == old(self)@.with_day(
                day.id as int,
                after_unpair(old(self)@.days[day.id as int], student@),
            ),
    {
        let d = day.id;
        let ghost ps = self@.days[d as int];
        let (_, found) = split_out(&self.days[d], &student);
        proof {
            assert(ps == set_of(self.days@[d as int]@));
            if found is Some {
                assert(holder(ps, student@) == Some(found->0@));
            }
        }
        let section = match found {
            Some(p) => match p.section() {
                Some(sec) => sec,
                None => {
                    assert(self@.days.update(d as int, ps) =~= self@.days);
                    return;
                },
            },
            None => {
                assert(self@.days.update(d as int, ps) =~= self@.days);
                return;
            },
        };
        let mut v = self.day_without(d, &student);
        proof {
            lemma_after_unassign_ok(ps, student@);
        }
        let n = Pairing::Unassigned { section, student };
        proof {
            lemma_insert_ok(set_of(v@), n@);
            lemma_set_of_push(v@, n);
        }
        v.push(n);
        self.replace_day(d, v);
    }

    /// Takes every member of `team` off it on `day`, keeping each in their
    /// section.
    /// Nothing changes, and `DayLocked` comes back, where the day is locked.
    pub fn unpair_team(&mut self, day: Day, team: Team) -> (r: Result<(), DayLocked>)
        requires
            old(self).wf(),
            day.id < old(self)@.days.len(),
        ensures
            final(self).wf(),
            final(self).path() == old(self).path(),
            !old(self)@.unlocked.contains(day.id) ==> r == Err::<(), DayLocked>(DayLocked) && final(self)@ == old(self)@,
            old(self)@.unlocked.contains(day.id) ==> r is Ok && (final(self)@ == old(self)@.with_day(
                day.id as int,
                after_unpair_team(old(self)@.days[day.id as int], team@),
            )),
    {
        if !self.day_unlocked(day.duplicate()) {
            return Err(DayLocked);
        }
        self.unpair_team_open(day, team);
        Ok(())
    }

    pub(crate) fn unpair_team_open(&mut self, day: Day, team: Team)
        requires
            old(self).wf(),
            day.id < old(self)@.days.len(),
        ensures
            final(self).wf(),
            final(self).path() == old(self).path(),
            final(self)@ == old(self)@.with_day(
                day.id as int,
                after_unpair_team(old(self)@.days[day.id as int], team@),
            ),
    {
        let d = day.id;
        let ghost ps = self@.days[d as int];
        let found = find_on_team(&self.days[d], &team);
        match found {
            Some(i) => {
                proof {
                    assert(ps == set_of(self.days@[d as int]@));
                    lemma_set_of_index(self.days@[d as int]@, i as int);
                    assert(team_holder(ps, team@) == Some(self.days@[d as int]@[i as int]@));
                }
                match &self.days[d][i] {
                    Pairing::Pair { primary, secondary, .. } => {
                        let a = primary.duplicate();
                        let b = secondary.duplicate();
                        self.unpair_student_open(day.duplicate(), a);
                        self.unpair_student_open(day, b);
                        assert(self@.days =~= old(self)@.with_day(d as int, after_unpair_team(ps, team@)).days);
                    },
                    Pairing::Solo { student, .. } => {
                        let a = student.duplicate();
                        self.unpair_student_open(day, a);
                    },
                    _ => {
                        assert(self@.days.update(d as int, ps) =~= self@.days);
                    },
                }
            },
            None => {
                assert(self@.days.update(d as int, ps) =~= self@.days);
            },
        }
    }
}

} // verus!
