use vstd::prelude::*;
use crate::names::{Name, Section, Student, Team, Zoom, strictly_sorted, text_lt, text_less, lemma_text_lt_irreflexive, lemma_text_lt_total, lemma_text_lt_transitive};
use crate::names::Day;
use crate::pairing::{Pairing, PairingModel, names_of};
use crate::roster::{find_holder, find_on_team, lemma_insert_ok, lemma_set_of_index, Data, RosterModel, keys_of, student_entries, section_entries, team_names, day_sets, set_of, day_ok, lemma_set_of_push, lemma_set_of_empty};

verus! {

/// An entry of a list kept in strict name order.
pub trait Keyed: Sized {
    spec fn key(&self) -> Name;

    fn key_text(&self) -> (r: &String)
        ensures
            r@ == self.key(),
    ;
}

impl Keyed for (Student, Section) {
    open spec fn key(&self) -> Name {
        self.0@
    }

    fn key_text(&self) -> (r: &String) {
        &self.0.name
    }
}

impl Keyed for (Section, Zoom) {
    open spec fn key(&self) -> Name {
        self.0@
    }

    fn key_text(&self) -> (r: &String) {
        &self.0.name
    }
}

impl Keyed for Team {
    open spec fn key(&self) -> Name {
        self@
    }

    fn key_text(&self) -> (r: &String) {
        &self.name
    }
}

pub open spec fn keys<E: Keyed>(v: Seq<E>) -> Seq<Name> {
    v.map_values(|e: E| e.key())
}

/// Where an entry of key `k` belongs in `v`: the first entry whose key does
/// not come before `k`.
fn position<E: Keyed>(v: &Vec<E>, k: &String) -> (r: usize)
    requires
        strictly_sorted(keys(v@)),
    ensures
        r <= v@.len(),
        forall|i: int| 0 <= i < r ==> text_lt((#[trigger] v@[i]).key(), k@),
        r < v@.len() ==> !text_lt(v@[r as int].key(), k@),
{
    let mut i: usize = 0;
    while i < v.len()
        invariant
            i <= v@.len(),
            forall|j: int| 0 <= j < i ==> text_lt((#[trigger] v@[j]).key(), k@),
        decreases v@.len() - i,
    {
        if !text_less(v[i].key_text(), k) {
            return i;
        }
        i = i + 1;
    }
    i
}

/// Puts `e` into `v`, in place of the entry with its key if there is one.
pub(crate) fn upsert<E: Keyed>(v: &mut Vec<E>, e: E)
    requires
        strictly_sorted(keys(old(v)@)),
    ensures
        strictly_sorted(keys(final(v)@)),
        forall|x: E| #[trigger]
            final(v)@.contains(x) <==> (x == e || (old(v)@.contains(x) && x.key() != e.key())),
{
    let ghost ks = keys(v@);
    let pos = position(v, e.key_text());
    assert forall|i: int| 0 <= i < v@.len() implies #[trigger] ks[i] == v@[i].key() by {}
    if pos < v.len() && *v[pos].key_text() == *e.key_text() {
        let ghost old_v = v@;
        v.set(pos, e);
        proof {
            assert(keys(v@) =~= ks.update(pos as int, e.key()));
            assert(ks.update(pos as int, e.key()) =~= ks);
            assert forall|x: E| #[trigger] v@.contains(x) <==> (x == e || (old_v.contains(x) && x.key() != e.key())) by {
                if old_v.contains(x) && x.key() != e.key() {
                    let i = choose|i: int| 0 <= i < old_v.len() && old_v[i] == x;
                    assert(v@[i] == x);
                }
                if v@.contains(x) && x != e {
                    let i = choose|i: int| 0 <= i < v@.len() && v@[i] == x;
                    assert(i != pos);
                    assert(old_v[i] == x);
                    lemma_text_lt_irreflexive(ks[i]);
                    if i < pos {
                        assert(text_lt(ks[i], ks[pos as int]));
                    } else {
                        assert(text_lt(ks[pos as int], ks[i]));
                    }
                }
                if x == e {
                    assert(v@[pos as int] == e);
                }
            }
        }
    } else {
        let ghost old_v = v@;
        proof {
            if pos < v.len() {
                lemma_text_lt_total(ks[pos as int], e.key());
            }
            assert forall|i: int| 0 <= i < old_v.len() implies #[trigger] old_v[i].key() != e.key() by {
                if i < pos {
                    lemma_text_lt_irreflexive(e.key());
                } else if i > pos {
                    lemma_text_lt_transitive(e.key(), ks[pos as int], ks[i]);
                    lemma_text_lt_irreflexive(e.key());
                }
            }
        }
        v.insert(pos, e);
        proof {
            let nk = keys(v@);
            assert(nk =~= ks.insert(pos as int, e.key()));
            assert forall|i: int, j: int| 0 <= i < j < nk.len() implies text_lt(#[trigger] nk[i], #[trigger] nk[j]) by {
                if i < pos && j == pos {
                } else if i == pos && j > pos {
                    if pos < old_v.len() {
                        if j - 1 > pos {
                            lemma_text_lt_transitive(e.key(), ks[pos as int], ks[j - 1]);
                        }
                    }
                } else if i < pos && j > pos {
                } else if i > pos {
                    assert(nk[i] == ks[i - 1]);
                    assert(nk[j] == ks[j - 1]);
                }
            }
            assert forall|x: E| #[trigger] v@.contains(x) <==> (x == e || (old_v.contains(x) && x.key() != e.key())) by {
                if old_v.contains(x) {
                    let i = choose|i: int| 0 <= i < old_v.len() && old_v[i] == x;
                    if i < pos {
                        assert(v@[i] == x);
                    } else {
                        assert(v@[i + 1] == x);
                    }
                }
                if v@.contains(x) && x != e {
                    let i = choose|i: int| 0 <= i < v@.len() && v@[i] == x;
                    if i < pos {
                        assert(old_v[i] == x);
                    } else {
                        assert(old_v[i - 1] == x);
                    }
                }
                if x == e {
                    assert(v@[pos as int] == e);
                }
            }
        }
    }
}

/// Takes the entry of key `k` out of `v`, if there is one.
pub(crate) fn remove_key<E: Keyed>(v: &mut Vec<E>, k: &String)
    requires
        strictly_sorted(keys(old(v)@)),
    ensures
        strictly_sorted(keys(final(v)@)),
        forall|x: E| #[trigger] final(v)@.contains(x) <==> (old(v)@.contains(x) && x.key() != k@),
{
    let ghost ks = keys(v@);
    let ghost old_v = v@;
    let pos = position(v, k);
    assert forall|i: int| 0 <= i < v@.len() implies #[trigger] ks[i] == v@[i].key() by {}
    if pos < v.len() && *v[pos].key_text() == *k {
        v.remove(pos);
        proof {
            let nk = keys(v@);
            assert(nk =~= ks.remove(pos as int));
            assert forall|i: int, j: int| 0 <= i < j < nk.len() implies text_lt(#[trigger] nk[i], #[trigger] nk[j]) by {
                if i >= pos {
                    assert(nk[i] == ks[i + 1]);
                }
                if j >= pos {
                    assert(nk[j] == ks[j + 1]);
                }
            }
            assert forall|x: E| #[trigger] v@.contains(x) <==> (old_v.contains(x) && x.key() != k@) by {
                if old_v.contains(x) && x.key() != k@ {
                    let i = choose|i: int| 0 <= i < old_v.len() && old_v[i] == x;
                    if i < pos {
                        assert(v@[i] == x);
                    } else {
                        assert(v@[i - 1] == x);
                    }
                }
                if v@.contains(x) {
                    let i = choose|i: int| 0 <= i < v@.len() && v@[i] == x;
                    lemma_text_lt_irreflexive(k@);
                    if i < pos {
                        assert(old_v[i] == x);
                        assert(text_lt(old_v[i].key(), k@));
                    } else {
                        assert(old_v[i + 1] == x);
                        assert(text_lt(ks[pos as int], ks[i + 1]));
                    }
                }
            }
        }
    } else {
        proof {
            if pos < v.len() {
                lemma_text_lt_total(ks[pos as int], k@);
            }
            assert forall|x: E| #[trigger] v@.contains(x) implies x.key() != k@ by {
                let i = choose|i: int| 0 <= i < v@.len() && v@[i] == x;
                if i < pos {
                    lemma_text_lt_irreflexive(k@);
                } else if i > pos {
                    lemma_text_lt_transitive(k@, ks[pos as int], ks[i]);
                    lemma_text_lt_irreflexive(k@);
                }
            }
        }
    }
}


pub proof fn lemma_entries_keys(v: Seq<(Student, Section)>)
    ensures
        keys_of(student_entries(v)) == keys(v),
{
    assert(keys_of(student_entries(v)) =~= keys(v));
}

pub proof fn lemma_section_keys(v: Seq<(Section, Zoom)>)
    ensures
        keys_of(section_entries(v)) == keys(v),
{
    assert(keys_of(section_entries(v)) =~= keys(v));
}

pub proof fn lemma_team_keys(v: Seq<Team>)
    ensures
        team_names(v) == keys(v),
{
    assert(team_names(v) =~= keys(v));
}

/// `after` holds what `before` holds, but for any entry of key `k`, and
/// then `e` where `put`.
pub open spec fn replaced(before: Seq<(Name, Name)>, after: Seq<(Name, Name)>, k: Name, e: Option<(Name, Name)>) -> bool {
    forall|x: (Name, Name)| #[trigger] after.contains(x) <==> (e == Some(x) || (before.contains(x) && x.0 != k))
}

proof fn lemma_entries_contains<E, V>(v: Seq<E>, f: spec_fn(E) -> V, x: V)
    ensures
        v.map_values(f).contains(x) <==> exists|e: E| #[trigger] v.contains(e) && f(e) == x,
{
    if v.map_values(f).contains(x) {
        let i = choose|i: int| 0 <= i < v.len() && v.map_values(f)[i] == x;
        assert(v.contains(v[i]));
    }
    if exists|e: E| #[trigger] v.contains(e) && f(e) == x {
        let e = choose|e: E| #[trigger] v.contains(e) && f(e) == x;
        let i = choose|i: int| 0 <= i < v.len() && v[i] == e;
        assert(v.map_values(f)[i] == x);
    }
}

/// Day `i` as the roster lists it: named where the roster names it, with
/// its lock state.
pub open spec fn day_listed(r: RosterModel, dy: Day, i: int) -> bool {
    &&& dy.id == i
    &&& dy.unlocked == r.unlocked.contains(i as usize)
    &&& r.day_names.contains_key(i as usize) ==> (dy.name matches Some(n) && n@ == r.day_names[i as usize])
    &&& !r.day_names.contains_key(i as usize) ==> dy.name is None
}

pub proof fn lemma_upsert_view<E: Keyed, V>(
    before: Seq<E>,
    after: Seq<E>,
    e: E,
    f: spec_fn(E) -> V,
    kf: spec_fn(V) -> Name,
    x: V,
)
    requires
        forall|y: E| #[trigger] after.contains(y) <==> (y == e || (before.contains(y) && y.key() != e.key())),
        forall|y: E| #[trigger] kf(f(y)) == y.key(),
    ensures
        after.map_values(f).contains(x) <==> (x == f(e) || (before.map_values(f).contains(x) && kf(x)
            != e.key())),
{
    lemma_entries_contains(after, f, x);
    lemma_entries_contains(before, f, x);
    if after.map_values(f).contains(x) {
        let w = choose|w: E| #[trigger] after.contains(w) && f(w) == x;
        assert(kf(f(w)) == w.key());
    }
    if x == f(e) {
        assert(after.contains(e));
    }
    if before.map_values(f).contains(x) && kf(x) != e.key() {
        let w = choose|w: E| #[trigger] before.contains(w) && f(w) == x;
        assert(kf(f(w)) == w.key());
        assert(after.contains(w));
    }
}

pub proof fn lemma_remove_view<E: Keyed, V>(before: Seq<E>, after: Seq<E>, k: Name, f: spec_fn(E) -> V, kf: spec_fn(V) -> Name, x: V)
    requires
        forall|y: E| #[trigger] after.contains(y) <==> (before.contains(y) && y.key() != k),
        forall|y: E| #[trigger] kf(f(y)) == y.key(),
    ensures
        after.map_values(f).contains(x) <==> (before.map_values(f).contains(x) && kf(x) != k),
{
    lemma_entries_contains(after, f, x);
    lemma_entries_contains(before, f, x);
    if after.map_values(f).contains(x) {
        let w = choose|w: E| #[trigger] after.contains(w) && f(w) == x;
        assert(kf(f(w)) == w.key());
    }
    if before.map_values(f).contains(x) && kf(x) != k {
        let w = choose|w: E| #[trigger] before.contains(w) && f(w) == x;
        assert(kf(f(w)) == w.key());
        assert(after.contains(w));
    }
}

/// Record `n` may join a day with records `ps` and keep it sound.
pub open spec fn record_fits(ps: Set<PairingModel>, n: PairingModel) -> bool {
    &&& n.well_formed()
    &&& forall|q: PairingModel, x: Name| #![trigger ps.contains(q), q.holds(x)] ps.contains(q) && n.holds(x) ==> !q.holds(x)
    &&& n.team_of() is Some ==> forall|q: PairingModel| #[trigger] ps.contains(q) ==> q.team_of() != n.team_of()
}

impl Data {
    /// Adds an empty day after the last one.
    pub fn add_day(&mut self)
        requires
            old(self).wf(),
        ensures
            final(self).wf(),
            final(self).path() == old(self).path(),
            final(self)@ == (RosterModel { days: old(self)@.days.push(Set::empty()), ..old(self)@ }),
    {
        let v: Vec<Pairing> = Vec::new();
        proof {
            lemma_set_of_empty(v@);
        }
        self.days.push(v);
        assert(day_sets(self.days@) =~= old(self)@.days.push(Set::empty()));
    }

    /// The records of `day`, adding empty days up to it where needed.
    pub fn day(&mut self, day: Day) -> (r: Vec<Pairing>)
        requires
            old(self).wf(),
        ensures
            final(self).wf(),
            final(self).path() == old(self).path(),
            day.id < old(self)@.days.len() ==> final(self)@ == old(self)@,
            day.id >= old(self)@.days.len() ==> final(self)@ == (RosterModel {
                days: old(self)@.days + Seq::new((day.id + 1 - old(self)@.days.len()) as nat, |i: int| Set::<PairingModel>::empty()),
                ..old(self)@
            }),
            day.id < final(self)@.days.len(),
            set_of(r@) == final(self)@.days[day.id as int],
    {
        let ghost n0 = self@.days.len();
        while day.id >= self.days.len()
            invariant
                self.wf(),
                self.path() == old(self).path(),
                n0 == old(self)@.days.len(),
                n0 <= self@.days.len(),
                n0 <= day.id ==> self@.days.len() <= day.id + 1,
                n0 > day.id ==> self@ == old(self)@,
                self@ == (RosterModel {
                    days: old(self)@.days + Seq::new((self@.days.len() - n0) as nat, |i: int| Set::<PairingModel>::empty()),
                    ..old(self)@
                }),
            decreases day.id + 1 - self.days@.len(),
        {
            let ghost before = self@;
            self.add_day();
            assert(self@.days =~= old(self)@.days + Seq::new((self@.days.len() - n0) as nat, |i: int| Set::<PairingModel>::empty()));
        }
        proof {
            if n0 > day.id {
                assert(old(self)@.days + Seq::new(0, |i: int| Set::<PairingModel>::empty()) =~= old(self)@.days);
            }
        }
        let mut r: Vec<Pairing> = Vec::new();
        let ps = &self.days[day.id];
        let mut i: usize = 0;
        while i < ps.len()
            invariant
                i <= ps.len(),
                r@ == ps@.take(i as int),
            decreases ps.len() - i,
        {
            r.push(ps[i].duplicate());
            assert(r@ =~= ps@.take(i + 1));
            i = i + 1;
        }
        assert(r@ =~= ps@);
        r
    }

    /// Whether `day` may be changed.
    pub fn day_unlocked(&self, day: Day) -> (r: bool)
        ensures
            r == self@.unlocked.contains(day.id),
    {
        self.days_unlocked.contains(&day.id)
    }

    /// Locks an unlocked day, and unlocks a locked one.
    pub fn toggle_lock_day(&mut self, day: Day)
        requires
            old(self).wf(),
        ensures
            final(self).wf(),
            final(self).path() == old(self).path(),
            final(self)@ == (RosterModel {
                unlocked: if old(self)@.unlocked.contains(day.id) {
                    old(self)@.unlocked.remove(day.id)
                } else {
                    old(self)@.unlocked.insert(day.id)
                },
                ..old(self)@
            }),
    {
        if self.day_unlocked(day.duplicate()) {
            self.days_unlocked.remove(&day.id);
        } else {
            self.days_unlocked.insert(day.id);
        }
    }

    /// Gives day `id` a name.
    pub fn name_day(&mut self, id: usize, name: String)
        requires
            old(self).wf(),
        ensures
            final(self).wf(),
            final(self).path() == old(self).path(),
            final(self)@ == (RosterModel { day_names: old(self)@.day_names.insert(id, name@), ..old(self)@ }),
    {
        let ghost nm = name@;
        self.daynames.insert(id, name);
        assert(self@.day_names =~= old(self)@.day_names.insert(id, nm));
    }

    /// `day` with the name the roster gives it, where it has one, and its
    /// lock state.
    pub fn improve_day(&self, day: Day) -> (r: Day)
        ensures
            r.id == day.id,
            r.unlocked == self@.unlocked.contains(day.id),
            self@.day_names.contains_key(day.id) ==> (r.name matches Some(n) && n@ == self@.day_names[day.id]),
            !self@.day_names.contains_key(day.id) ==> r.name == day.name,
    {
        let unlocked = self.day_unlocked(day.duplicate());
        match self.daynames.get(&day.id) {
            Some(n) => Day { id: day.id, name: Some(n.clone()), unlocked },
            None => Day { id: day.id, name: day.name, unlocked },
        }
    }

    /// Every day of the roster, in order, as `improve_day` shows it.
    pub fn list_days(&self) -> (r: Vec<Day>)
        ensures
            r@.len() == self@.days.len(),
            forall|i: int| 0 <= i < r@.len() ==> day_listed(self@, #[trigger] r@[i], i),
    {
        let mut r: Vec<Day> = Vec::new();
        let mut i: usize = 0;
        while i < self.days.len()
            invariant
                i <= self.days@.len(),
                r@.len() == i,
                forall|k: int| 0 <= k < i ==> day_listed(self@, #[trigger] r@[k], k),
            decreases self.days@.len() - i,
        {
            r.push(self.improve_day(Day::from(i)));
            i = i + 1;
        }
        r
    }

    /// The students, in name order.
    pub fn list_students(&self) -> (r: Vec<Student>)
        ensures
            names_of(r@) == keys_of(self@.students),
    {
        let mut r: Vec<Student> = Vec::new();
        let mut i: usize = 0;
        while i < self.student_sections.len()
            invariant
                i <= self.student_sections@.len(),
                names_of(r@) == keys_of(self@.students).take(i as int),
            decreases self.student_sections@.len() - i,
        {
            let ghost before = names_of(r@);
            let x = self.student_sections[i].0.duplicate();
            assert(keys_of(self@.students)[i as int] == x@);
            r.push(x);
            assert(names_of(r@) =~= before.push(x@));
            assert(names_of(r@) =~= keys_of(self@.students).take(i + 1));
            i = i + 1;
        }
        assert(keys_of(self@.students).take(i as int) =~= keys_of(self@.students));
        r
    }

    /// The sections, in name order.
    pub fn list_sections(&self) -> (r: Vec<Section>)
        ensures
            r@.map_values(|s: Section| s@) == keys_of(self@.sections),
    {
        let mut r: Vec<Section> = Vec::new();
        let mut i: usize = 0;
        while i < self.sections.len()
            invariant
                i <= self.sections@.len(),
                r@.map_values(|s: Section| s@) == keys_of(self@.sections).take(i as int),
            decreases self.sections@.len() - i,
        {
            let ghost before = r@.map_values(|s: Section| s@);
            let x = self.sections[i].0.duplicate();
            assert(keys_of(self@.sections)[i as int] == x@);
            r.push(x);
            assert(r@.map_values(|s: Section| s@) =~= before.push(x@));
            assert(r@.map_values(|s: Section| s@) =~= keys_of(self@.sections).take(i + 1));
            i = i + 1;
        }
        assert(keys_of(self@.sections).take(i as int) =~= keys_of(self@.sections));
        r
    }

    /// The sections with their meeting tokens, in name order.
    pub fn zoom_sections(&self) -> (r: Vec<(Section, Zoom)>)
        ensures
            section_entries(r@) == self@.sections,
    {
        let mut r: Vec<(Section, Zoom)> = Vec::new();
        let mut i: usize = 0;
        while i < self.sections.len()
            invariant
                i <= self.sections@.len(),
                section_entries(r@) == self@.sections.take(i as int),
            decreases self.sections@.len() - i,
        {
            let ghost before = section_entries(r@);
            let x = (self.sections[i].0.duplicate(), self.sections[i].1.duplicate());
            assert(self@.sections[i as int] == (x.0@, x.1@));
            r.push(x);
            assert(section_entries(r@) =~= before.push((x.0@, x.1@)));
            assert(section_entries(r@) =~= self@.sections.take(i + 1));
            i = i + 1;
        }
        assert(self@.sections.take(i as int) =~= self@.sections);
        r
    }

    /// The sections with their meeting tokens.
    pub fn get_zooms(&self) -> (r: Vec<(Section, Zoom)>)
        ensures
            section_entries(r@) == self@.sections,
    {
        self.zoom_sections()
    }

    /// The teams, in name order.
    pub fn list_teams(&self) -> (r: Vec<Team>)
        ensures
            team_names(r@) == self@.teams,
    {
        let mut r: Vec<Team> = Vec::new();
        let mut i: usize = 0;
        while i < self.teams.len()
            invariant
                i <= self.teams@.len(),
                team_names(r@) == self@.teams.take(i as int),
            decreases self.teams@.len() - i,
        {
            let ghost before = team_names(r@);
            let x = self.teams[i].duplicate();
            assert(self@.teams[i as int] == x@);
            r.push(x);
            assert(team_names(r@) =~= before.push(x@));
            assert(team_names(r@) =~= self@.teams.take(i + 1));
            i = i + 1;
        }
        assert(self@.teams.take(i as int) =~= self@.teams);
        r
    }

    /// Each section, in name order, with the students whose default
    /// section it is, in name order.
    pub fn list_students_by_section(&self) -> (r: Vec<(Section, Vec<Student>)>)
        ensures
            r@.len() == self@.sections.len(),
            forall|i: int| 0 <= i < r@.len() ==> (#[trigger] r@[i]).0@ == self@.sections[i].0
                && names_of(r@[i].1@) == keys_of(self@.students.filter(|e: (Name, Name)| e.1 == self@.sections[i].0)),
    {
        let mut r: Vec<(Section, Vec<Student>)> = Vec::new();
        let mut i: usize = 0;
        while i < self.sections.len()
            invariant
                i <= self.sections@.len(),
                r@.len() == i,
                forall|k: int| 0 <= k < i ==> (#[trigger] r@[k]).0@ == self@.sections[k].0
                    && names_of(r@[k].1@) == keys_of(self@.students.filter(|e: (Name, Name)| e.1 == self@.sections[k].0)),
            decreases self.sections@.len() - i,
        {
            let sec = &self.sections[i].0;
            let ghost pred = |e: (Name, Name)| e.1 == sec@;
            let ghost entries = self@.students;
            let mut list: Vec<Student> = Vec::new();
            let mut j: usize = 0;
            proof {
                reveal(Seq::filter);
                assert(entries.take(0) =~= Seq::<(Name, Name)>::empty());
                assert(names_of(list@) =~= keys_of(entries.take(0).filter(pred)));
            }
            while j < self.student_sections.len()
                invariant
                    j <= self.student_sections@.len(),
                    entries == self@.students,
                    pred == (|e: (Name, Name)| e.1 == sec@),
                    names_of(list@) == keys_of(entries.take(j as int).filter(pred)),
                decreases self.student_sections@.len() - j,
            {
                let ghost e = entries[j as int];
                proof {
                    assert(entries.take(j + 1) =~= entries.take(j as int).push(e));
                    crate::roster::lemma_filter_push(entries.take(j as int), e, pred);
                }
                if self.student_sections[j].1 == *sec {
                    let ghost before = names_of(list@);
                    list.push(self.student_sections[j].0.duplicate());
                    assert(names_of(list@) =~= before.push(e.0));
                    assert(keys_of(entries.take(j as int).filter(pred).push(e)) =~= keys_of(entries.take(j as int).filter(pred)).push(e.0));
                }
                j = j + 1;
            }
            assert(entries.take(j as int) =~= entries);
            r.push((sec.duplicate(), list));
            i = i + 1;
        }
        r
    }

    /// Adds `s` to the roster with default section `section`, or gives an
    /// existing `s` that default section.
    pub fn new_student(&mut self, s: Student, section: Section)
        requires
            old(self).wf(),
        ensures
            final(self).wf(),
            final(self).path() == old(self).path(),
            final(self)@ == (RosterModel { students: final(self)@.students, ..old(self)@ }),
            replaced(old(self)@.students, final(self)@.students, s@, Some((s@, section@))),
    {
        let ghost e = (s@, section@);
        let ghost v0 = self.student_sections@;
        proof {
            lemma_entries_keys(v0);
        }
        let ghost nv = (s, section);
        upsert(&mut self.student_sections, (s, section));
        proof {
            lemma_entries_keys(self.student_sections@);
            let f = |x: (Student, Section)| (x.0@, x.1@);
            let kf = |v: (Name, Name)| v.0;
            assert forall|x: (Name, Name)| #[trigger] self@.students.contains(x) <==> (Some(e) == Some(x) || (old(self)@.students.contains(x) && x.0 != e.0)) by {
                lemma_upsert_view(v0, self.student_sections@, nv, f, kf, x);
            }
        }
    }

    /// Takes `s` off the roster; the records that name `s` stay.
    pub fn delete_student(&mut self, s: Student)
        requires
            old(self).wf(),
        ensures
            final(self).wf(),
            final(self).path() == old(self).path(),
            final(self)@ == (RosterModel { students: final(self)@.students, ..old(self)@ }),
            replaced(old(self)@.students, final(self)@.students, s@, None),
    {
        let ghost v0 = self.student_sections@;
        proof {
            lemma_entries_keys(v0);
        }
        remove_key(&mut self.student_sections, &s.name);
        proof {
            lemma_entries_keys(self.student_sections@);
            let f = |x: (Student, Section)| (x.0@, x.1@);
            let kf = |v: (Name, Name)| v.0;
            assert forall|x: (Name, Name)| #[trigger] self@.students.contains(x) <==> (None::<(Name, Name)> == Some(x) || (old(self)@.students.contains(x) && x.0 != s@)) by {
                lemma_remove_view(v0, self.student_sections@, s@, f, kf, x);
            }
        }
    }

    /// Adds section `s` with meeting token `zoom`, or gives an existing `s`
    /// that token.
    pub fn new_section(&mut self, s: Section, zoom: Zoom)
        requires
            old(self).wf(),
        ensures
            final(self).wf(),
            final(self).path() == old(self).path(),
            final(self)@ == (RosterModel { sections: final(self)@.sections, ..old(self)@ }),
            replaced(old(self)@.sections, final(self)@.sections, s@, Some((s@, zoom@))),
    {
        let ghost e = (s@, zoom@);
        let ghost v0 = self.sections@;
        proof {
            lemma_section_keys(v0);
        }
        let ghost nv = (s, zoom);
        upsert(&mut self.sections, (s, zoom));
        proof {
            lemma_section_keys(self.sections@);
            let f = |x: (Section, Zoom)| (x.0@, x.1@);
            let kf = |v: (Name, Name)| v.0;
            assert forall|x: (Name, Name)| #[trigger] self@.sections.contains(x) <==> (Some(e) == Some(x) || (old(self)@.sections.contains(x) && x.0 != e.0)) by {
                lemma_upsert_view(v0, self.sections@, nv, f, kf, x);
            }
        }
    }

    /// Adds team `t`.
    pub fn new_team(&mut self, t: Team)
        requires
            old(self).wf(),
        ensures
            final(self).wf(),
            final(self).path() == old(self).path(),
            final(self)@ == (RosterModel { teams: final(self)@.teams, ..old(self)@ }),
            forall|x: Name| #[trigger] final(self)@.teams.contains(x) <==> (x == t@ || old(self)@.teams.contains(x)),
    {
        let ghost tv = t@;
        let ghost v0 = self.teams@;
        proof {
            lemma_team_keys(v0);
        }
        let ghost nv = t;
        upsert(&mut self.teams, t);
        proof {
            lemma_team_keys(self.teams@);
            let f = |x: Team| x@;
            let kf = |v: Name| v;
            assert forall|x: Name| #[trigger] self@.teams.contains(x) <==> (x == tv || old(self)@.teams.contains(x)) by {
                lemma_upsert_view(v0, self.teams@, nv, f, kf, x);
            }
        }
    }

    /// The name under which the roster is stored.
    pub fn course_path(&self) -> (r: String)
        ensures
            r@ == self.path(),
    {
        self.course_path.clone()
    }

    /// Each student with their default section, in name order.
    pub fn student_sections(&self) -> (r: Vec<(Student, Section)>)
        ensures
            student_entries(r@) == self@.students,
    {
        let mut r: Vec<(Student, Section)> = Vec::new();
        let mut i: usize = 0;
        while i < self.student_sections.len()
            invariant
                i <= self.student_sections@.len(),
                student_entries(r@) == self@.students.take(i as int),
            decreases self.student_sections@.len() - i,
        {
            let ghost before = student_entries(r@);
            let x = (self.student_sections[i].0.duplicate(), self.student_sections[i].1.duplicate());
            assert(self@.students[i as int] == (x.0@, x.1@));
            r.push(x);
            assert(student_entries(r@) =~= before.push((x.0@, x.1@)));
            assert(student_entries(r@) =~= self@.students.take(i + 1));
            i = i + 1;
        }
        assert(self@.students.take(i as int) =~= self@.students);
        r
    }

    /// The records of `day`.
    pub fn records(&self, day: Day) -> (r: Vec<Pairing>)
        requires
            day.id < self@.days.len(),
        ensures
            set_of(r@) == self@.days[day.id as int],
    {
        let ps = &self.days[day.id];
        let mut r: Vec<Pairing> = Vec::new();
        let mut i: usize = 0;
        while i < ps.len()
            invariant
                i <= ps.len(),
                r@ == ps@.take(i as int),
            decreases ps.len() - i,
        {
            r.push(ps[i].duplicate());
            assert(r@ =~= ps@.take(i + 1));
            i = i + 1;
        }
        assert(r@ =~= ps@);
        r
    }

    /// Adds record `p` to `day` where it keeps the day sound: `p` pairs no
    /// student with themself, and its students and its team are on no other
    /// record of the day. Says whether it did.
    pub fn insert_record(&mut self, day: Day, p: Pairing) -> (r: bool)
        requires
            old(self).wf(),
            day.id < old(self)@.days.len(),
        ensures
            final(self).wf(),
            final(self).path() == old(self).path(),
            r == record_fits(old(self)@.days[day.id as int], p@),
            r ==> final(self)@ == old(self)@.with_day(day.id as int, old(self)@.days[day.id as int].insert(p@)),
            !r ==> final(self)@ == old(self)@,
    {
        let d = day.id;
        let ghost ps = self@.days[d as int];
        let v = &self.days[d];
        assert(ps == set_of(v@));
        assert(day_ok(ps));
        let students = p.allocated_students();
        let mut i: usize = 0;
        while i < students.len()
            invariant
                i <= students@.len(),
                ps == set_of(v@),
                self.wf(),
                d < self@.days.len(),
                ps == self@.days[d as int],
                self@ == old(self)@,
                self.path() == old(self).path(),
                d == day.id,
                names_of(students@) == p@.allocated(),
                forall|k: int| 0 <= k < i ==> forall|q: PairingModel| #[trigger] ps.contains(q) ==> !q.holds((#[trigger] students@[k])@),
            decreases students@.len() - i,
        {
            match find_holder(v, &students[i]) {
                Some(j) => {
                    proof {
                        lemma_set_of_index(v@, j as int);
                        assert(names_of(students@)[i as int] == students@[i as int]@);
                        crate::pairing::lemma_holds_allocated(p@, students@[i as int]@);
                        assert(p@.holds(students@[i as int]@));
                        assert(ps.contains(v@[j as int]@) && v@[j as int]@.holds(students@[i as int]@));
                        assert(!record_fits(ps, p@));
                    }
                    return false;
                },
                None => {},
            }
            i = i + 1;
        }
        let free = match p.team() {
            Some(t) => find_on_team(v, &t).is_none(),
            None => true,
        };
        if !free {
            proof {
                let t = p@.team_of()->0;
                let j = choose|j: int| 0 <= j < v@.len() && v@[j]@.team_of() == Some(t);
                lemma_set_of_index(v@, j);
            }
            return false;
        }
        let formed = match &p {
            Pairing::Pair { primary, secondary, .. } => !(*primary == *secondary),
            _ => true,
        };
        if !formed {
            return false;
        }
        proof {
            assert forall|q: PairingModel, x: Name| #![trigger ps.contains(q), q.holds(x)] ps.contains(q) && p@.holds(x) implies !q.holds(x) by {
                crate::pairing::lemma_holds_allocated(p@, x);
                assert(p@.allocated().contains(x));
                let k = choose|k: int| 0 <= k < p@.allocated().len() && p@.allocated()[k] == x;
                assert(names_of(students@)[k] == students@[k]@);
            }
            lemma_insert_ok(ps, p@);
        }
        let mut nv: Vec<Pairing> = Vec::new();
        let mut k: usize = 0;
        while k < v.len()
            invariant
                k <= v.len(),
                nv@ == v@.take(k as int),
            decreases v.len() - k,
        {
            nv.push(v[k].duplicate());
            assert(nv@ =~= v@.take(k + 1));
            k = k + 1;
        }
        assert(nv@ =~= v@);
        proof {
            lemma_set_of_push(nv@, p);
        }
        nv.push(p);
        let ghost r0 = self@;
        self.replace_day(d, nv);
        assert forall|e: int| 0 <= e < self@.days.len() implies day_ok(#[trigger] self@.days[e]) by {
            if e != d {
                assert(self@.days[e] == r0.days[e]);
            }
        }
        true
    }
}

} // verus!
