use vstd::prelude::*;
use crate::names::{Day, Name, Section, Student, Team, strictly_sorted, text_lt, lemma_sorted_unique};
use crate::pairing::{Pairing, PairingModel, names_of};
use crate::roster::{Data, RosterModel, day_ok, set_of, keys_of, team_holder, team_names, find_on_team, lemma_set_of_index};
use crate::engine::nonrepeat;
use crate::shuffle::pool_of;
use crate::queries::unplaced_on;
use crate::admin::{Keyed, keys, upsert};
use crate::options::{Choices, Named, StudentOptions, TeamOptions, texts, first_match};
use crate::roster::{holder, find_holder, lemma_filter_push};
use crate::names::{lemma_text_lt_total, lemma_text_lt_transitive};

verus! {

impl Keyed for Student {
    open spec fn key(&self) -> Name {
        self@
    }

    fn key_text(&self) -> (r: &String) {
        &self.name
    }
}

/// The students present in yesterday's record on team `t`, if there was one.
pub open spec fn prev_on_team(r: RosterModel, d: int, t: Name) -> Seq<Name> {
    if d > 0 {
        match team_holder(r.days[d - 1], t) {
            Some(h) => h.present(),
            None => Seq::empty(),
        }
    } else {
        Seq::empty()
    }
}

/// The tags of candidate `s` for a slot: "repeat" where `s` was already
/// with `other`, the student in the other slot; "reuser" where `s` was on
/// the team yesterday (`prev`).
pub open spec fn cand_tags(days: Seq<Set<PairingModel>>, d: int, other: Option<Name>, prev: Seq<Name>, s: Name) -> Seq<Seq<char>> {
    (if other matches Some(o) && !nonrepeat(days, d, o, s) {
        seq!["repeat"@]
    } else {
        Seq::<Seq<char>>::empty()
    }) + (if prev.contains(s) {
        seq!["reuser"@]
    } else {
        Seq::<Seq<char>>::empty()
    })
}

/// The students that may be put in a slot of section `sec` on day `d`:
/// those of the section without a place on a team.
pub open spec fn cands_of(r: RosterModel, d: int, sec: Name) -> Set<Name> {
    Set::new(|s: Name| unplaced_on(r, d).contains(s) && pool_of(r, d, sec).contains(s))
}

/// The records of day `d`, or none where the roster has no such day yet.
pub open spec fn records_on(r: RosterModel, d: int) -> Set<PairingModel> {
    if 0 <= d < r.days.len() {
        r.days[d]
    } else {
        Set::empty()
    }
}

/// The team of the pair that held `s` the day before day `d`.
pub open spec fn prev_team_of(r: RosterModel, d: int, s: Name) -> Option<Name> {
    if d > 0 {
        match holder(r.days[d - 1], s) {
            Some(PairingModel::Pair { team, .. }) => Some(team),
            _ => None,
        }
    } else {
        None
    }
}

/// A student in section `cur` (none where absent) may join team `t` on a
/// day with records `ps`: no other record on `t` is a full pair or belongs
/// to another section.
pub open spec fn can_join(ps: Set<PairingModel>, s: Name, cur: Option<Name>, t: Name) -> bool {
    !exists|p: PairingModel| #[trigger] ps.contains(p) && p.team_of() == Some(t) && !p.holds(s) && (p is Pair || (
        p.section_of() is Some && cur is Some && p.section_of() != cur))
}

/// What the options of one student on day `d` say.
pub open spec fn student_option_ok(r: RosterModel, dy: Day, default: Name, o: StudentOptions) -> bool {
    let d = dy.id as int;
    let s = o.student@;
    let ps = records_on(r, d);
    &&& o.day == dy
    &&& o.default_section@ == default
    &&& (match o.current_pairing {
        Some(p) => ps.contains(p@) && p@.holds(s),
        None => holder(ps, s) is None,
    })
    &&& (match o.previous_team {
        Some(t) => prev_team_of(r, d, s) == Some(t@),
        None => prev_team_of(r, d, s) is None,
    })
    &&& o.possible_sections@.map_values(|x: Section| x@) == keys_of(r.sections)
    &&& team_names(o.possible_teams@) == r.teams.filter(|t: Name| can_join(ps, s, o.current_section_of(), t))
}

/// The order of students' options: by current section, absent ones first.
pub open spec fn section_key_le(a: Option<Name>, b: Option<Name>) -> bool {
    a is None || (b is Some && !text_lt(b->0, a->0))
}

/// The order of students' options: by current section, absent ones first,
/// and by name within one section.
pub open spec fn option_order(a: StudentOptions, b: StudentOptions) -> bool {
    &&& section_key_le(a.current_section_of(), b.current_section_of())
    &&& a.current_section_of() == b.current_section_of() ==> text_lt(a.student@, b.student@)
}

pub open spec fn opt_name(s: Option<Section>) -> Option<Name> {
    match s {
        Some(x) => Some(x@),
        None => None,
    }
}

pub proof fn lemma_key_le_total(a: Option<Name>, b: Option<Name>)
    ensures
        section_key_le(a, b) || section_key_le(b, a),
{
    if a is Some && b is Some {
        lemma_text_lt_total(a->0, b->0);
    }
}

pub proof fn lemma_key_le_transitive(a: Option<Name>, b: Option<Name>, c: Option<Name>)
    requires
        section_key_le(a, b),
        section_key_le(b, c),
    ensures
        section_key_le(a, c),
{
    if a is Some && text_lt(c->0, a->0) {
        lemma_text_lt_total(a->0, b->0);
        if a->0 != b->0 {
            lemma_text_lt_transitive(c->0, a->0, b->0);
        }
    }
}

fn key_le(a: &Option<Section>, b: &Option<Section>) -> (r: bool)
    ensures
        r == section_key_le(opt_name(*a), opt_name(*b)),
{
    match (a, b) {
        (None, _) => true,
        (Some(_), None) => false,
        (Some(x), Some(y)) => !y.precedes(x),
    }
}

/// Some entry of `ts` is for record `p`.
pub open spec fn listed_in(ts: Seq<TeamOptions>, p: PairingModel) -> bool {
    exists|k: int| 0 <= k < ts.len() && (#[trigger] ts[k]).current_pairing@ == p
}

pub open spec fn choice_names(c: Choices<Student>) -> Seq<Name> {
    c.possibilities@.map_values(|e: (Student, Vec<String>)| e.0@)
}

/// The choices of a slot offer each student of `cands` once, in name
/// order, each with its tags, and carry the tags of the current choice.
pub open spec fn slot_ok(c: Choices<Student>, cands: Set<Name>, days: Seq<Set<PairingModel>>, d: int, other: Option<Name>, prev: Seq<Name>) -> bool {
    &&& strictly_sorted(choice_names(c))
    &&& forall|k: int| 0 <= k < c.possibilities@.len() ==> cands.contains(#[trigger] choice_names(c)[k])
        && texts(c.possibilities@[k].1@) == cand_tags(days, d, other, prev, choice_names(c)[k])
    &&& forall|x: Name| #[trigger] cands.contains(x) ==> choice_names(c).contains(x)
    &&& texts(c.tags@) == (match c.current {
        Some(x) => cand_tags(days, d, other, prev, x@),
        None => Seq::empty(),
    })
}

/// What the choices for the record `t.current_pairing` of section `sec`
/// on day `d` offer.
pub open spec fn team_option_ok(r: RosterModel, dy: Day, sec: Name, t: TeamOptions) -> bool {
    let d = dy.id as int;
    let p = t.current_pairing@;
    let prev = prev_on_team(r, d, t.team@);
    let cands = cands_of(r, d, sec);
    &&& t.day == dy
    &&& t.section@ == sec
    &&& r.days[d].contains(p)
    &&& p.section_of() == Some(sec)
    &&& p.team_of() == Some(t.team@)
    &&& t.primary.choice_name@ == "primary"@
    &&& t.secondary.choice_name@ == "secondary"@
    &&& match p {
        PairingModel::Pair { primary, secondary, .. } => (t.primary.current matches Some(x) && x@ == primary)
            && (t.secondary.current matches Some(y) && y@ == secondary)
            && slot_ok(t.primary, cands.insert(primary), r.days, d, Some(secondary), prev)
            && slot_ok(t.secondary, cands.insert(secondary), r.days, d, Some(primary), prev),
        PairingModel::Solo { student, .. } => (t.primary.current matches Some(x) && x@ == student)
            && t.secondary.current is None
            && slot_ok(t.primary, cands.insert(student), r.days, d, None, prev)
            && slot_ok(t.secondary, cands, r.days, d, Some(student), prev),
        _ => false,
    }
}

fn contains_student(v: &Vec<Student>, s: &Student) -> (r: bool)
    ensures
        r == names_of(v@).contains(s@),
{
    let mut i: usize = 0;
    while i < v.len()
        invariant
            i <= v@.len(),
            forall|k: int| 0 <= k < i ==> (#[trigger] v@[k])@ != s@,
        decreases v@.len() - i,
    {
        if v[i] == *s {
            assert(names_of(v@)[i as int] == s@);
            return true;
        }
        i = i + 1;
    }
    assert(!names_of(v@).contains(s@)) by {
        if names_of(v@).contains(s@) {
            let k = choose|k: int| 0 <= k < v@.len() && names_of(v@)[k] == s@;
            assert(v@[k]@ == s@);
        }
    }
    false
}

impl Data {
    /// The students present in yesterday's record on team `t`.
    fn yesterday_on_team(&self, d: usize, t: &Team) -> (r: Vec<Student>)
        requires
            self.wf(),
            d < self@.days.len(),
        ensures
            names_of(r@) == prev_on_team(self@, d as int, t@),
    {
        if d == 0 {
            let r: Vec<Student> = Vec::new();
            assert(names_of(r@) =~= Seq::<Name>::empty());
            return r;
        }
        let ps = &self.days[d - 1];
        assert(self@.days[d - 1] == set_of(ps@));
        assert(day_ok(self@.days[d - 1]));
        match find_on_team(ps, t) {
            Some(j) => {
                proof {
                    lemma_set_of_index(ps@, j as int);
                    assert(team_holder(self@.days[d - 1], t@) == Some(ps@[j as int]@));
                }
                ps[j].present_students()
            },
            None => {
                let r: Vec<Student> = Vec::new();
                assert(names_of(r@) =~= Seq::<Name>::empty());
                r
            },
        }
    }

    /// The tags of candidate `s`; see `cand_tags`.
    fn tags_for(&self, day: &Day, other: Option<&Student>, prev: &Vec<Student>, s: &Student) -> (r: Vec<String>)
        requires
            day.id <= self@.days.len(),
        ensures
            texts(r@) == cand_tags(self@.days, day.id as int, match other {
                Some(o) => Some(o@),
                None => None,
            }, names_of(prev@), s@),
    {
        let mut tags: Vec<String> = Vec::new();
        let repeat = match other {
            Some(o) => !self.nonrepeat_partners_for_day(day, o, s),
            None => false,
        };
        if repeat {
            tags.push("repeat".to_owned());
        }
        if contains_student(prev, s) {
            tags.push("reuser".to_owned());
        }
        assert(texts(tags@) =~= cand_tags(self@.days, day.id as int, match other {
            Some(o) => Some(o@),
            None => None,
        }, names_of(prev@), s@));
        tags
    }

    /// The choices for a slot: `list`, in order, each with its tags, and
    /// `current` as the current choice.
    fn slot_choices(&self, day: &Day, list: &Vec<Student>, current: Option<Student>, other: Option<&Student>, prev: &Vec<Student>, name: &str) -> (r: Choices<Student>)
        requires
            day.id <= self@.days.len(),
            strictly_sorted(names_of(list@)),
            current matches Some(x) ==> names_of(list@).contains(x@),
        ensures
            slot_ok(r, names_of(list@).to_set(), self@.days, day.id as int, match other {
                Some(o) => Some(o@),
                None => None,
            }, names_of(prev@)),
            r.current == current,
            r.choice_name@ == name@,
    {
        let ghost oth = match other {
            Some(o) => Some(o@),
            None => None,
        };
        let mut poss: Vec<(Student, Vec<String>)> = Vec::new();
        let mut i: usize = 0;
        while i < list.len()
            invariant
                i <= list@.len(),
                day.id <= self@.days.len(),
                oth == (match other {
                    Some(o) => Some(o@),
                    None => None,
                }),
                poss@.len() == i,
                forall|k: int| 0 <= k < i ==> (#[trigger] poss@[k]).0@ == list@[k]@
                    && texts(poss@[k].1@) == cand_tags(self@.days, day.id as int, oth, names_of(prev@), list@[k]@),
            decreases list@.len() - i,
        {
            let tags = self.tags_for(day, other, prev, &list[i]);
            poss.push((list[i].duplicate(), tags));
            i = i + 1;
        }
        let c = Choices { current, possibilities: poss, choice_name: name.to_owned(), tags: Vec::new() };
        let ghost c0 = c;
        let ghost names = choice_names(c0);
        assert(names =~= names_of(list@));
        proof {
            match c0.current {
                Some(x) => {
                    let k = choose|k: int| 0 <= k < names.len() && names[k] == x@;
                    assert forall|j: int| 0 <= j < k implies (#[trigger] c0.possibilities@[j]).0.label() != c0.current->0.label() by {
                        assert(names[j] == c0.possibilities@[j].0@);
                        lemma_sorted_unique(names, j, k);
                    }
                    assert(first_match(&c0, k));
                },
                None => {},
            }
        }
        let r = c.normalize();
        proof {
            assert forall|x: Name| #[trigger] names_of(list@).to_set().contains(x) implies choice_names(r).contains(x) by {
                assert(choice_names(r) == names);
            }
            match c0.current {
                Some(x) => {
                    let k = choose|k: int| first_match(&c0, k);
                    assert(texts(r.tags@) =~= texts(c0.possibilities@[k].1@));
                },
                None => {
                    assert(texts(r.tags@) =~= Seq::<Seq<char>>::empty());
                },
            }
        }
        r
    }

    /// The students of `section` without a place on a team on `day`, in
    /// name order.
    fn section_candidates(&self, day: &Day, section: &Section) -> (r: Vec<Student>)
        requires
            self.wf(),
            day.id < self@.days.len(),
        ensures
            strictly_sorted(names_of(r@)),
            names_of(r@).to_set() == cands_of(self@, day.id as int, section@),
    {
        let present = self.students_present_in_section(day.duplicate(), section.duplicate());
        let unassigned = self.unassigned_students(day.duplicate());
        let ghost un = names_of(unassigned@);
        let mut out: Vec<Student> = Vec::new();
        let mut i: usize = 0;
        proof {
            crate::queries::lemma_unplaced_sorted(self@, day.id as int);
        }
        while i < unassigned.len()
            invariant
                i <= unassigned@.len(),
                un == names_of(unassigned@),
                strictly_sorted(un),
                strictly_sorted(names_of(out@)),
                forall|k: int, m: int| 0 <= k < out@.len() && i <= m < un.len() ==> text_lt(#[trigger] names_of(out@)[k], #[trigger] un[m]),
                forall|x: Name| #[trigger] names_of(out@).contains(x) <==> (names_of(present@).contains(x) && exists|k: int| 0 <= k < i && un[k] == x),
            decreases unassigned@.len() - i,
        {
            let s = &unassigned[i];
            assert(un[i as int] == s@);
            if contains_student(&present, s) {
                let ghost before = names_of(out@);
                out.push(s.duplicate());
                proof {
                    assert(names_of(out@) =~= before.push(s@));
                    assert forall|k: int, m: int| 0 <= k < out@.len() && i + 1 <= m < un.len() implies text_lt(#[trigger] names_of(out@)[k], #[trigger] un[m]) by {
                        if k < before.len() {
                            assert(names_of(out@)[k] == before[k]);
                        }
                    }
                    assert forall|k: int, m: int| 0 <= k < m < names_of(out@).len() implies text_lt(#[trigger] names_of(out@)[k], #[trigger] names_of(out@)[m]) by {
                        assert(names_of(out@)[k] == before.push(s@)[k]);
                        if m < before.len() {
                            assert(names_of(out@)[m] == before[m]);
                        }
                    }
                    assert forall|x: Name| #[trigger] names_of(out@).contains(x) <==> (names_of(present@).contains(x) && exists|k: int| 0 <= k < i + 1 && un[k] == x) by {
                        if names_of(out@).contains(x) && x != s@ {
                            let k = choose|k: int| 0 <= k < names_of(out@).len() && names_of(out@)[k] == x;
                            assert(before[k] == x);
                            assert(before.contains(x));
                        }
                        if x == s@ {
                            assert(names_of(out@)[before.len() as int] == x);
                        } else if names_of(present@).contains(x) && exists|k: int| 0 <= k < i + 1 && un[k] == x {
                            assert(before.contains(x));
                            let k = choose|k: int| 0 <= k < before.len() && before[k] == x;
                            assert(names_of(out@)[k] == x);
                        }
                    }
                }
            } else {
                proof {
                    assert forall|x: Name| #[trigger] names_of(out@).contains(x) <==> (names_of(present@).contains(x) && exists|k: int| 0 <= k < i + 1 && un[k] == x) by {
                        if names_of(present@).contains(x) && exists|k: int| 0 <= k < i + 1 && un[k] == x {
                            if x == s@ {
                            } else {
                                let k = choose|k: int| 0 <= k < i + 1 && un[k] == x;
                                assert(k < i);
                            }
                        }
                    }
                }
            }
            i = i + 1;
        }
        proof {
            assert forall|x: Name| #[trigger] names_of(out@).to_set().contains(x) <==> cands_of(self@, day.id as int, section@).contains(x) by {
                if un.contains(x) {
                    let k = choose|k: int| 0 <= k < un.len() && un[k] == x;
                }
            }
            assert(names_of(out@).to_set() =~= cands_of(self@, day.id as int, section@));
        }
        out
    }

    /// The choices for the record `p` of `section`, on team `team`.
    fn team_choices(&self, day: &Day, section: &Section, team: &Team, p: &Pairing, cands: &Vec<Student>) -> (r: Option<TeamOptions>)
        requires
            self.wf(),
            day.id < self@.days.len(),
            self@.days[day.id as int].contains(p@),
            p@.section_of() == Some(section@),
            p@.team_of() == Some(team@),
            strictly_sorted(names_of(cands@)),
            names_of(cands@).to_set() == cands_of(self@, day.id as int, section@),
        ensures
            r matches Some(t) ==> team_option_ok(self@, *day, section@, t) && t.team@ == team@
                && t.current_pairing@ == p@,
            (p@ is Pair || p@ is Solo) ==> r is Some,
    {
        let prev = self.yesterday_on_team(day.id, team);
        let ghost cs = cands_of(self@, day.id as int, section@);
        let ghost d = day.id as int;
        assert(day_ok(self@.days[d]));
        match p {
            Pairing::Pair { primary, secondary, .. } => {
                proof {
                    self.lemma_placed_not_candidate(d, section@, p@);
                    assert(p@.holds(primary@) && p@.holds(secondary@));
                }
                let mut list1: Vec<Student> = Vec::new();
                let mut list2: Vec<Student> = Vec::new();
                copy_students(cands, &mut list1);
                copy_students(cands, &mut list2);
                proof {
                    assert(keys(list1@) =~= names_of(list1@));
                    assert(keys(list2@) =~= names_of(list2@));
                }
                upsert(&mut list1, primary.duplicate());
                upsert(&mut list2, secondary.duplicate());
                proof {
                    assert(keys(list1@) =~= names_of(list1@));
                    assert(keys(list2@) =~= names_of(list2@));
                    self.lemma_inserted_names(cands@, list1@, *primary);
                    self.lemma_inserted_names(cands@, list2@, *secondary);
                    assert(names_of(list1@).to_set() =~= cs.insert(primary@));
                    assert(names_of(list2@).to_set() =~= cs.insert(secondary@));
                }
                let c1 = self.slot_choices(day, &list1, Some(primary.duplicate()), Some(secondary), &prev, "primary");
                let c2 = self.slot_choices(day, &list2, Some(secondary.duplicate()), Some(primary), &prev, "secondary");
                Some(TeamOptions {
                    day: day.duplicate(),
                    team: team.duplicate(),
                    section: section.duplicate(),
                    primary: c1,
                    secondary: c2,
                    current_pairing: p.duplicate(),
                })
            },
            Pairing::Solo { student, .. } => {
                proof {
                    self.lemma_placed_not_candidate(d, section@, p@);
                    assert(p@.holds(student@));
                }
                let mut list1: Vec<Student> = Vec::new();
                copy_students(cands, &mut list1);
                proof {
                    assert(keys(list1@) =~= names_of(list1@));
                }
                upsert(&mut list1, student.duplicate());
                proof {
                    assert(keys(list1@) =~= names_of(list1@));
                    self.lemma_inserted_names(cands@, list1@, *student);
                    assert(names_of(list1@).to_set() =~= cs.insert(student@));
                }
                let c1 = self.slot_choices(day, &list1, Some(student.duplicate()), None, &prev, "primary");
                let c2 = self.slot_choices(day, cands, None, Some(student), &prev, "secondary");
                Some(TeamOptions {
                    day: day.duplicate(),
                    team: team.duplicate(),
                    section: section.duplicate(),
                    primary: c1,
                    secondary: c2,
                    current_pairing: p.duplicate(),
                })
            },
            _ => None,
        }
    }

    /// For each section, in name order, the choices for each of its teams
    /// on `day`, in team order: for each slot of a team, the students who
    /// could take it, tagged "repeat" where they were already with the
    /// student in the other slot, and "reuser" where they were on the team
    /// the day before.
    pub fn team_options(&self, day: Day) -> (r: Vec<(Section, Vec<TeamOptions>)>)
        requires
            self.wf(),
            day.id < self@.days.len(),
        ensures
            r@.len() == self@.sections.len(),
            forall|i: int| 0 <= i < r@.len() ==> (#[trigger] r@[i]).0@ == self@.sections[i].0,
            forall|i: int, k: int| 0 <= i < r@.len() && 0 <= k < r@[i].1@.len() ==> team_option_ok(
                self@,
                day,
                self@.sections[i].0,
                #[trigger] r@[i].1@[k],
            ),
            forall|i: int, k: int, l: int| 0 <= i < r@.len() && 0 <= k < l < r@[i].1@.len() ==> text_lt(
                (#[trigger] r@[i].1@[k]).team@,
                (#[trigger] r@[i].1@[l]).team@,
            ),
            forall|i: int, p: PairingModel| #![trigger self@.days[day.id as int].contains(p), r@[i]]
                0 <= i < r@.len() && self@.days[day.id as int].contains(p)
                && (p is Pair || p is Solo) && p.section_of() == Some(self@.sections[i].0) ==> listed_in(r@[i].1@, p),
    {
        let d = day.id;
        let ps = &self.days[d];
        let ghost r0 = self@;
        let ghost day_set = r0.days[d as int];
        assert(day_set == set_of(ps@));
        assert(day_ok(day_set));
        let tl = self.day_team_list(d);
        let ghost tls = team_names(tl@);
        let mut out: Vec<(Section, Vec<TeamOptions>)> = Vec::new();
        let mut i: usize = 0;
        while i < self.sections.len()
            invariant
                i <= self.sections@.len(),
                r0 == self@,
                self.wf(),
                d == day.id,
                d < r0.days.len(),
                ps == self.days@[d as int],
                day_set == r0.days[d as int],
                day_set == set_of(ps@),
                day_ok(day_set),
                tls == team_names(tl@),
                crate::grand::lists_day_teams(day_set, tls),
                out@.len() == i,
                forall|a: int| 0 <= a < i ==> (#[trigger] out@[a]).0@ == r0.sections[a].0,
                forall|a: int, k: int| 0 <= a < i && 0 <= k < out@[a].1@.len() ==> team_option_ok(
                    r0, day, r0.sections[a].0, #[trigger] out@[a].1@[k]),
                forall|a: int, k: int, l: int| 0 <= a < i && 0 <= k < l < out@[a].1@.len() ==> text_lt(
                    (#[trigger] out@[a].1@[k]).team@,
                    (#[trigger] out@[a].1@[l]).team@,
                ),
                forall|a: int, p: PairingModel| #![trigger day_set.contains(p), out@[a]]
                    0 <= a < i && day_set.contains(p)
                    && (p is Pair || p is Solo) && p.section_of() == Some(r0.sections[a].0) ==> listed_in(out@[a].1@, p),
            decreases self.sections@.len() - i,
        {
            let section = &self.sections[i].0;
            let ghost sec = section@;
            assert(sec == r0.sections[i as int].0);
            let cands = self.section_candidates(&day, section);
            let mut teams: Vec<TeamOptions> = Vec::new();
            let mut j: usize = 0;
            while j < tl.len()
                invariant
                    j <= tl@.len(),
                    r0 == self@,
                    self.wf(),
                    d == day.id,
                    d < r0.days.len(),
                    ps == self.days@[d as int],
                    day_set == r0.days[d as int],
                    day_set == set_of(ps@),
                    day_ok(day_set),
                    tls == team_names(tl@),
                    crate::grand::lists_day_teams(day_set, tls),
                    sec == section@,
                    strictly_sorted(names_of(cands@)),
                    names_of(cands@).to_set() == cands_of(r0, d as int, sec),
                    forall|k: int| 0 <= k < teams@.len() ==> team_option_ok(r0, day, sec, #[trigger] teams@[k]),
                    forall|k: int, l: int| 0 <= k < l < teams@.len() ==> text_lt(
                        (#[trigger] teams@[k]).team@,
                        (#[trigger] teams@[l]).team@,
                    ),
                    forall|k: int, m: int| 0 <= k < teams@.len() && j <= m < tls.len() ==> text_lt(
                        (#[trigger] teams@[k]).team@,
                        #[trigger] tls[m],
                    ),
                    forall|p: PairingModel| #[trigger] day_set.contains(p) && (p is Pair || p is Solo)
                        && p.section_of() == Some(sec) && (exists|m: int| 0 <= m < j && tls[m] == p.team_of()->0)
                        ==> listed_in(teams@, p),
                decreases tl@.len() - j,
            {
                let team = &tl[j];
                assert(tls[j as int] == team@);
                let found = find_on_team(ps, team);
                let ghost before_all = teams@;
                match found {
                    Some(x) => {
                        proof {
                            lemma_set_of_index(ps@, x as int);
                        }
                        let p = &ps[x];
                        if p.in_section(section) {
                            match self.team_choices(&day, section, team, p, &cands) {
                                Some(t) => {
                                    let ghost before = teams@;
                                    teams.push(t);
                                    proof {
                                        assert forall|k: int, l: int| 0 <= k < l < teams@.len() implies text_lt(
                                            (#[trigger] teams@[k]).team@,
                                            (#[trigger] teams@[l]).team@,
                                        ) by {
                                            if l == teams@.len() - 1 {
                                                assert(before[k] == teams@[k]);
                                            } else {
                                                assert(before[k] == teams@[k]);
                                                assert(before[l] == teams@[l]);
                                            }
                                        }
                                        assert forall|k: int, m: int| 0 <= k < teams@.len() && j + 1 <= m < tls.len() implies text_lt(
                                            (#[trigger] teams@[k]).team@,
                                            #[trigger] tls[m],
                                        ) by {
                                            if k < before.len() {
                                                assert(before[k] == teams@[k]);
                                            } else {
                                                assert(text_lt(tls[j as int], tls[m]));
                                            }
                                        }
                                    }
                                },
                                None => {},
                            }
                        }
                    },
                    None => {},
                }
                proof {
                    assert forall|p: PairingModel| #[trigger] day_set.contains(p) && (p is Pair || p is Solo)
                        && p.section_of() == Some(sec) && (exists|m: int| 0 <= m < j + 1 && tls[m] == p.team_of()->0)
                        implies listed_in(teams@, p) by {
                        let m = choose|m: int| 0 <= m < j + 1 && tls[m] == p.team_of()->0;
                        if m == j {
                            assert(team_holder(day_set, team@) is Some);
                            let x = found->0;
                            lemma_set_of_index(ps@, x as int);
                            assert(ps@[x as int]@ == p);
                            assert(teams@.len() == before_all.len() + 1);
                            assert(teams@[before_all.len() as int].current_pairing@ == p);
                        } else {
                            assert(exists|m2: int| 0 <= m2 < j && tls[m2] == p.team_of()->0);
                            assert(listed_in(before_all, p));
                            let k = choose|k: int| 0 <= k < before_all.len() && (#[trigger] before_all[k]).current_pairing@ == p;
                            assert(teams@[k] == before_all[k]);
                        }
                    }
                }
                j = j + 1;
            }
            let ghost tv = teams@;
            let ghost before_out = out@;
            out.push((section.duplicate(), teams));
            proof {
                assert(out@[i as int].1@ == tv);
                assert forall|a: int, p: PairingModel| #![trigger day_set.contains(p), out@[a]]
                    0 <= a < i + 1 && day_set.contains(p)
                    && (p is Pair || p is Solo) && p.section_of() == Some(r0.sections[a].0) implies listed_in(out@[a].1@, p) by {
                    if a == i {
                        assert(p.team_of() is Some);
                        assert(tls.contains(p.team_of()->0));
                        let m = choose|m: int| 0 <= m < tls.len() && tls[m] == p.team_of()->0;
                        assert(exists|m: int| 0 <= m < tl@.len() && tls[m] == p.team_of()->0);
                        assert(listed_in(tv, p));
                    } else {
                        assert(out@[a] == before_out[a]);
                    }
                }
                assert forall|a: int, k: int| 0 <= a < i + 1 && 0 <= k < out@[a].1@.len() implies team_option_ok(
                    r0, day, r0.sections[a].0, #[trigger] out@[a].1@[k]) by {
                    if a < i {
                        assert(out@[a] == before_out[a]);
                    }
                }
                assert forall|a: int, k: int, l: int| 0 <= a < i + 1 && 0 <= k < l < out@[a].1@.len() implies text_lt(
                    (#[trigger] out@[a].1@[k]).team@,
                    (#[trigger] out@[a].1@[l]).team@,
                ) by {
                    if a < i {
                        assert(out@[a] == before_out[a]);
                    }
                }
            }
            i = i + 1;
        }
        out
    }

    /// The options of student `st`, whose default section is `default`, on
    /// `day`.
    fn options_for(&self, day: &Day, st: &Student, default: &Section) -> (r: StudentOptions)
        requires
            self.wf(),
            day.id <= self@.days.len(),
        ensures
            student_option_ok(self@, *day, default@, r),
            r.student == *st,
    {
        let d = day.id;
        let ghost ps = records_on(self@, d as int);
        let current_pairing = if d < self.days.len() {
            assert(self@.days[d as int] == set_of(self.days@[d as int]@));
            assert(day_ok(self@.days[d as int]));
            match find_holder(&self.days[d], st) {
                Some(j) => {
                    proof {
                        lemma_set_of_index(self.days@[d as int]@, j as int);
                    }
                    Some(self.days[d][j].duplicate())
                },
                None => None,
            }
        } else {
            None
        };
        let previous_team = if d > 0 {
            let yd = &self.days[d - 1];
            assert(self@.days[d - 1] == set_of(yd@));
            assert(day_ok(self@.days[d - 1]));
            match find_holder(yd, st) {
                Some(j) => {
                    proof {
                        lemma_set_of_index(yd@, j as int);
                        assert(holder(self@.days[d - 1], st@) == Some(yd@[j as int]@));
                    }
                    match &yd[j] {
                        Pairing::Pair { team, .. } => Some(team.duplicate()),
                        _ => None,
                    }
                },
                None => None,
            }
        } else {
            None
        };
        let mut opt = StudentOptions {
            day: day.duplicate(),
            student: st.duplicate(),
            current_pairing,
            possible_teams: Vec::new(),
            default_section: default.duplicate(),
            previous_team,
            possible_sections: self.list_sections(),
        };
        let cur = opt.current_section();
        let ghost curv = opt.current_section_of();
        let ghost pred = |t: Name| can_join(ps, st@, curv, t);
        let mut j: usize = 0;
        proof {
            reveal(Seq::filter);
            assert(self@.teams.take(0) =~= Seq::<Name>::empty());
            assert(team_names(opt.possible_teams@) =~= self@.teams.take(0).filter(pred));
        }
        while j < self.teams.len()
            invariant
                j <= self.teams@.len(),
                d == day.id,
                d <= self@.days.len(),
                self.wf(),
                ps == records_on(self@, d as int),
                curv == opt.current_section_of(),
                cur matches Some(c) ==> curv == Some(c@),
                cur is None <==> curv is None,
                pred == (|t: Name| can_join(ps, st@, curv, t)),
                team_names(opt.possible_teams@) == self@.teams.take(j as int).filter(pred),
                opt.student == *st,
                opt.day == *day,
                opt.default_section@ == default@,
                (match opt.current_pairing {
                    Some(p) => ps.contains(p@) && p@.holds(st@),
                    None => holder(ps, st@) is None,
                }),
                (match opt.previous_team {
                    Some(t) => prev_team_of(self@, d as int, st@) == Some(t@),
                    None => prev_team_of(self@, d as int, st@) is None,
                }),
                opt.possible_sections@.map_values(|x: Section| x@) == keys_of(self@.sections),
            decreases self.teams@.len() - j,
        {
            let t = &self.teams[j];
            assert(self@.teams[j as int] == t@);
            let ok = if d < self.days.len() {
                self.joinable(d, st, &cur, t)
            } else {
                assert(!exists|p: PairingModel| #[trigger] ps.contains(p) && p.team_of() == Some(t@));
                true
            };
            assert(ok == pred(t@));
            proof {
                assert(self@.teams.take(j + 1) =~= self@.teams.take(j as int).push(t@));
                lemma_filter_push(self@.teams.take(j as int), t@, pred);
            }
            if ok {
                let ghost before = team_names(opt.possible_teams@);
                opt.possible_teams.push(t.duplicate());
                assert(team_names(opt.possible_teams@) =~= before.push(t@));
            }
            j = j + 1;
        }
        assert(self@.teams.take(j as int) =~= self@.teams);
        opt
    }

    /// Whether the student `st` in section `cur` may join team `t` on day `d`.
    fn joinable(&self, d: usize, st: &Student, cur: &Option<Section>, t: &Team) -> (r: bool)
        requires
            d < self@.days.len(),
        ensures
            r == can_join(self@.days[d as int], st@, match cur {
                Some(c) => Some(c@),
                None => None,
            }, t@),
    {
        let ps = &self.days[d];
        let ghost cv = match cur {
            Some(c) => Some(c@),
            None => None,
        };
        assert(self@.days[d as int] == set_of(ps@));
        let mut i: usize = 0;
        while i < ps.len()
            invariant
                i <= ps.len(),
                d < self@.days.len(),
                ps == self.days@[d as int],
                self@.days[d as int] == set_of(ps@),
                cv == (match cur {
                    Some(c) => Some(c@),
                    None => None,
                }),
                forall|k: int| 0 <= k < i ==> !((#[trigger] ps@[k])@.team_of() == Some(t@) && !ps@[k]@.holds(st@) && (ps@[k]@ is Pair || (
                    ps@[k]@.section_of() is Some && cv is Some && ps@[k]@.section_of() != cv))),
            decreases ps.len() - i,
        {
            let p = &ps[i];
            let other_section = match (p.section(), cur) {
                (Some(a), Some(b)) => !(a == *b),
                _ => false,
            };
            assert(other_section == (p@.section_of() is Some && cv is Some && p@.section_of() != cv));
            if p.on_team(t) && !p.has(st) && (p.full_pair() || other_section) {
                proof {
                    lemma_set_of_index(ps@, i as int);
                    assert(self@.days[d as int].contains(ps@[i as int]@));
                }
                return false;
            }
            i = i + 1;
        }
        assert forall|p: PairingModel| #[trigger] self@.days[d as int].contains(p) implies !(p.team_of() == Some(t@) && !p.holds(st@) && (p is Pair || (
            p.section_of() is Some && cv is Some && p.section_of() != cv))) by {
            let k = choose|k: int| 0 <= k < ps@.len() && crate::pairing::models_of(ps@)[k] == p;
            assert(ps@[k]@ == p);
        }
        true
    }

    /// For each section, in name order, the options of each student whose
    /// default section it is: the record holding them, yesterday's pair
    /// team, and the teams they could join; ordered by the section they are
    /// in that day, absent ones first, and by name within one section.
    pub fn student_options(&self, day: Day) -> (r: Vec<(Section, Vec<StudentOptions>)>)
        requires
            self.wf(),
            day.id <= self@.days.len(),
        ensures
            r@.len() == self@.sections.len(),
            forall|i: int| 0 <= i < r@.len() ==> {
                let g = (#[trigger] r@[i]).1@;
                let names = keys_of(self@.students.filter(|e: (Name, Name)| e.1 == self@.sections[i].0));
                &&& r@[i].0@ == self@.sections[i].0
                &&& g.len() == names.len()
                &&& forall|k: int| 0 <= k < g.len() ==> student_option_ok(self@, day, self@.sections[i].0, #[trigger] g[k])
                &&& forall|x: Name| #[trigger] names.contains(x) <==> exists|k: int| 0 <= k < g.len() && (#[trigger] g[k]).student@ == x
                &&& forall|k: int, l: int| 0 <= k < l < g.len() ==> option_order(#[trigger] g[k], #[trigger] g[l])
            },
    {
        let groups = self.list_students_by_section();
        let mut out: Vec<(Section, Vec<StudentOptions>)> = Vec::new();
        let mut i: usize = 0;
        while i < groups.len()
            invariant
                i <= groups@.len(),
                groups@.len() == self@.sections.len(),
                forall|a: int| 0 <= a < groups@.len() ==> (#[trigger] groups@[a]).0@ == self@.sections[a].0
                    && names_of(groups@[a].1@) == keys_of(self@.students.filter(|e: (Name, Name)| e.1 == self@.sections[a].0)),
                self.wf(),
                day.id <= self@.days.len(),
                out@.len() == i,
                forall|a: int| 0 <= a < i ==> {
                    let g = (#[trigger] out@[a]).1@;
                    let names = keys_of(self@.students.filter(|e: (Name, Name)| e.1 == self@.sections[a].0));
                    &&& out@[a].0@ == self@.sections[a].0
                    &&& g.len() == names.len()
                    &&& forall|k: int| 0 <= k < g.len() ==> student_option_ok(self@, day, self@.sections[a].0, #[trigger] g[k])
                    &&& forall|x: Name| #[trigger] names.contains(x) <==> exists|k: int| 0 <= k < g.len() && (#[trigger] g[k]).student@ == x
                    &&& forall|k: int, l: int| 0 <= k < l < g.len() ==> option_order(#[trigger] g[k], #[trigger] g[l])
                },
            decreases groups@.len() - i,
        {
            let section = &groups[i].0;
            let students = &groups[i].1;
            let ghost names = names_of(students@);
            let mut opts: Vec<StudentOptions> = Vec::new();
            let mut j: usize = 0;
            while j < students.len()
                invariant
                    j <= students@.len(),
                    self.wf(),
                    day.id <= self@.days.len(),
                    opts@.len() == j,
                    forall|k: int| 0 <= k < j ==> student_option_ok(self@, day, section@, #[trigger] opts@[k])
                        && opts@[k].student == students@[k],
                decreases students@.len() - j,
            {
                opts.push(self.options_for(&day, &students[j], section));
                j = j + 1;
            }
            let ghost unsorted = opts@;
            proof {
                crate::queries::lemma_filter_sorted(self@.students, |e: (Name, Name)| e.1 == self@.sections[i as int].0);
                assert forall|k: int, l: int| 0 <= k < l < unsorted.len() implies text_lt((#[trigger] unsorted[k]).student@, (#[trigger] unsorted[l]).student@) by {
                    assert(names[k] == unsorted[k].student@);
                    assert(names[l] == unsorted[l].student@);
                }
            }
            let n = opts.len();
            // a stable insertion sort by current section
            let mut sorted: Vec<StudentOptions> = Vec::new();
            let mut taken: usize = 0;
            while taken < n
                invariant
                    n == unsorted.len(),
                    taken <= n,
                    taken + opts@.len() == unsorted.len(),
                    opts@ == unsorted.skip(taken as int),
                    sorted@.len() == taken,
                    forall|x: StudentOptions| #[trigger] sorted@.contains(x) <==> unsorted.take(taken as int).contains(x),
                    forall|k: int, l: int| 0 <= k < l < sorted@.len() ==> option_order(#[trigger] sorted@[k], #[trigger] sorted@[l]),
                    forall|k: int, l: int| 0 <= k < l < unsorted.len() ==> text_lt((#[trigger] unsorted[k]).student@, (#[trigger] unsorted[l]).student@),
                decreases opts@.len(),
            {
                let x = opts.remove(0);
                assert(x == unsorted[taken as int]);
                assert(opts@ =~= unsorted.skip(taken + 1));
                let key = x.current_section();
                let mut pos: usize = 0;
                while pos < sorted.len() && key_le(&sorted[pos].current_section(), &key)
                    invariant
                        pos <= sorted@.len(),
                        forall|k: int| 0 <= k < pos ==> section_key_le((#[trigger] sorted@[k]).current_section_of(), x.current_section_of()),
                        opt_name(key) == x.current_section_of(),
                    decreases sorted@.len() - pos,
                {
                    pos = pos + 1;
                }
                let ghost before = sorted@;
                proof {
                    if pos < before.len() {
                        lemma_key_le_total(before[pos as int].current_section_of(), x.current_section_of());
                    }
                }
                sorted.insert(pos, x);
                proof {
                    assert(unsorted.take(taken + 1) =~= unsorted.take(taken as int).push(x));
                    assert forall|y: StudentOptions| #[trigger] sorted@.contains(y) <==> unsorted.take(taken + 1).contains(y) by {
                        if sorted@.contains(y) {
                            let k = choose|k: int| 0 <= k < sorted@.len() && sorted@[k] == y;
                            if k == pos {
                                assert(unsorted.take(taken + 1)[taken as int] == y);
                            } else {
                                if k < pos {
                                    assert(before[k] == y);
                                } else {
                                    assert(before[k - 1] == y);
                                }
                                assert(before.contains(y));
                                assert(unsorted.take(taken as int).contains(y));
                                let tk = unsorted.take(taken as int);
                                let m = choose|m: int| 0 <= m < tk.len() && tk[m] == y;
                                assert(unsorted.take(taken + 1)[m] == y);
                            }
                        }
                        if unsorted.take(taken + 1).contains(y) {
                            if y == x {
                                assert(sorted@[pos as int] == y);
                            } else {
                                let tk = unsorted.take(taken + 1);
                                let m = choose|m: int| 0 <= m < tk.len() && tk[m] == y;
                                assert(m < taken);
                                assert(unsorted.take(taken as int)[m] == y);
                                assert(unsorted.take(taken as int).contains(y));
                                assert(before.contains(y));
                                let k = choose|k: int| 0 <= k < before.len() && before[k] == y;
                                if k < pos {
                                    assert(sorted@[k] == y);
                                } else {
                                    assert(sorted@[k + 1] == y);
                                }
                            }
                        }
                    }
                    assert forall|k: int, l: int| 0 <= k < l < sorted@.len() implies option_order(#[trigger] sorted@[k], #[trigger] sorted@[l]) by {
                        if l == pos {
                            assert(sorted@[k] == before[k]);
                            assert(before.contains(before[k]));
                            let tk = unsorted.take(taken as int);
                            assert(tk.contains(before[k]));
                            let m = choose|m: int| 0 <= m < tk.len() && tk[m] == before[k];
                            assert(unsorted[m] == before[k]);
                            assert(text_lt(unsorted[m].student@, unsorted[taken as int].student@));
                        } else if k == pos {
                            assert(sorted@[l] == before[l - 1]);
                            if l - 1 > pos {
                                lemma_key_le_transitive(x.current_section_of(), before[pos as int].current_section_of(), before[l - 1].current_section_of());
                                assert(section_key_le(before[pos as int].current_section_of(), before[l - 1].current_section_of()));
                            }
                        } else if k < pos && l > pos {
                            assert(sorted@[k] == before[k]);
                            assert(sorted@[l] == before[l - 1]);
                        } else if k > pos {
                            assert(sorted@[k] == before[k - 1]);
                            assert(sorted@[l] == before[l - 1]);
                        } else {
                            assert(sorted@[k] == before[k]);
                            assert(sorted@[l] == before[l]);
                        }
                    }
                }
                taken = taken + 1;
            }
            proof {
                assert(unsorted.take(taken as int) =~= unsorted);
                let g = sorted@;
                let nm = keys_of(self@.students.filter(|e: (Name, Name)| e.1 == self@.sections[i as int].0));
                assert(nm == names);
                assert forall|k: int| 0 <= k < g.len() implies student_option_ok(self@, day, self@.sections[i as int].0, #[trigger] g[k]) by {
                    assert(g.contains(g[k]));
                    assert(unsorted.contains(g[k]));
                }
                assert forall|x: Name| #[trigger] nm.contains(x) <==> exists|k: int| 0 <= k < g.len() && (#[trigger] g[k]).student@ == x by {
                    if nm.contains(x) {
                        let m = choose|m: int| 0 <= m < nm.len() && nm[m] == x;
                        assert(unsorted[m].student@ == x);
                        assert(unsorted.contains(unsorted[m]));
                        assert(g.contains(unsorted[m]));
                        let k = choose|k: int| 0 <= k < g.len() && g[k] == unsorted[m];
                        assert(g[k].student@ == x);
                    }
                    if exists|k: int| 0 <= k < g.len() && (#[trigger] g[k]).student@ == x {
                        let k = choose|k: int| 0 <= k < g.len() && (#[trigger] g[k]).student@ == x;
                        assert(g.contains(g[k]));
                        let m = choose|m: int| 0 <= m < unsorted.len() && unsorted[m] == g[k];
                        assert(nm[m] == x);
                    }
                }
            }
            out.push((section.duplicate(), sorted));
            proof {
                assert forall|a: int| 0 <= a < i + 1 implies ({
                    let g = (#[trigger] out@[a]).1@;
                    let names = keys_of(self@.students.filter(|e: (Name, Name)| e.1 == self@.sections[a].0));
                    &&& out@[a].0@ == self@.sections[a].0
                    &&& g.len() == names.len()
                    &&& forall|k: int| 0 <= k < g.len() ==> student_option_ok(self@, day, self@.sections[a].0, #[trigger] g[k])
                    &&& forall|x: Name| #[trigger] names.contains(x) <==> exists|k: int| 0 <= k < g.len() && (#[trigger] g[k]).student@ == x
                    &&& forall|k: int, l: int| 0 <= k < l < g.len() ==> option_order(#[trigger] g[k], #[trigger] g[l])
                }) by {}
            }
            i = i + 1;
        }
        out
    }

    pub proof fn lemma_placed_not_candidate(&self, d: int, sec: Name, p: PairingModel)
        requires
            self.wf(),
            0 <= d < self@.days.len(),
            self@.days[d].contains(p),
            p is Pair || p is Solo,
        ensures
            forall|x: Name| p.holds(x) ==> !#[trigger] cands_of(self@, d, sec).contains(x),
    {
        assert forall|x: Name| p.holds(x) implies !#[trigger] cands_of(self@, d, sec).contains(x) by {
            if cands_of(self@, d, sec).contains(x) {
                crate::queries::lemma_unplaced_member(self@, d, x);
                assert(crate::queries::places(p, x));
            }
        }
    }

    pub proof fn lemma_inserted_names(&self, before: Seq<Student>, after: Seq<Student>, s: Student)
        requires
            forall|y: Student| #[trigger] after.contains(y) <==> (y == s || (before.contains(y) && y.key() != s.key())),
        ensures
            forall|x: Name| #[trigger] names_of(after).contains(x) <==> (x == s@ || names_of(before).contains(x)),
    {
        assert forall|x: Name| #[trigger] names_of(after).contains(x) <==> (x == s@ || names_of(before).contains(x)) by {
            if names_of(after).contains(x) {
                let k = choose|k: int| 0 <= k < after.len() && names_of(after)[k] == x;
                assert(after.contains(after[k]));
                if after[k] != s {
                    let j = choose|j: int| 0 <= j < before.len() && before[j] == after[k];
                    assert(names_of(before)[j] == x);
                }
            }
            if x == s@ {
                assert(after.contains(s));
                let k = choose|k: int| 0 <= k < after.len() && after[k] == s;
                assert(names_of(after)[k] == x);
            } else if names_of(before).contains(x) {
                let j = choose|j: int| 0 <= j < before.len() && names_of(before)[j] == x;
                assert(before.contains(before[j]));
                assert(after.contains(before[j]));
                let k = choose|k: int| 0 <= k < after.len() && after[k] == before[j];
                assert(names_of(after)[k] == x);
            }
        }
    }
}

fn copy_students(v: &Vec<Student>, out: &mut Vec<Student>)
    requires
        old(out)@.len() == 0,
    ensures
        final(out)@ == v@,
{
    let mut i: usize = 0;
    while i < v.len()
        invariant
            i <= v@.len(),
            out@ == v@.take(i as int),
        decreases v@.len() - i,
    {
        out.push(v[i].duplicate());
        assert(out@ =~= v@.take(i + 1));
        i = i + 1;
    }
    assert(v@.take(i as int) =~= v@);
}

} // verus!
