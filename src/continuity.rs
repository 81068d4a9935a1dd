use vstd::prelude::*;
use crate::names::{Day, Name, Section, Student, Team};
use crate::pairing::{Pairing, PairingModel, names_of, models_of};
use crate::roster::{DayLocked, Data, RosterModel, day_ok, lemma_insert_ok, set_of, team_names, lemma_set_of_push};
use crate::engine::{deal, lemma_deal, partner_index, lemma_partner_index, lemma_remove_no_dup};
use crate::shuffle::{kept, free_teams, pool_of, is_arrangement, lemma_union_ok, lemma_pool_fresh, lemma_free_team, lemma_arrangement};
use crate::names::lemma_sorted_unique;
use crate::random::shuffle_in_place;

verus! {

/// `s` without `x`.
pub open spec fn drop_name(s: Seq<Name>, x: Name) -> Seq<Name> {
    if s.contains(x) {
        s.remove(s.index_of(x))
    } else {
        s
    }
}

pub proof fn lemma_drop_name(s: Seq<Name>, x: Name)
    requires
        s.no_duplicates(),
    ensures
        drop_name(s, x).no_duplicates(),
        forall|y: Name| #[trigger] drop_name(s, x).contains(y) <==> (s.contains(y) && y != x),
{
    if s.contains(x) {
        lemma_remove_no_dup(s, s.index_of(x));
    }
}

/// What stays of yesterday's record `p` in section `sec` while `students`
/// are still to be placed: with `both`, each member still there (a pair if
/// both are); without, the first present member only. The record kept
/// comes with the students still to be placed after it.
pub open spec fn keep(p: PairingModel, sec: Name, students: Seq<Name>, both: bool) -> Option<
    (PairingModel, Seq<Name>),
> {
    match p {
        PairingModel::Pair { team, primary, secondary, .. } => if both {
            if students.contains(primary) {
                let s1 = drop_name(students, primary);
                if s1.contains(secondary) {
                    Some(
                        (
                            PairingModel::Pair { section: sec, team, primary, secondary },
                            drop_name(s1, secondary),
                        ),
                    )
                } else {
                    Some((PairingModel::Solo { section: sec, team, student: primary }, s1))
                }
            } else if students.contains(secondary) {
                Some(
                    (
                        PairingModel::Solo { section: sec, team, student: secondary },
                        drop_name(students, secondary),
                    ),
                )
            } else {
                None
            }
        } else {
            if students.contains(secondary) {
                Some(
                    (
                        PairingModel::Solo { section: sec, team, student: secondary },
                        drop_name(students, secondary),
                    ),
                )
            } else if students.contains(primary) {
                Some(
                    (
                        PairingModel::Solo { section: sec, team, student: primary },
                        drop_name(students, primary),
                    ),
                )
            } else {
                None
            }
        },
        PairingModel::Solo { team, student, .. } => if students.contains(student) {
            Some(
                (
                    PairingModel::Solo { section: sec, team, student },
                    drop_name(students, student),
                ),
            )
        } else {
            None
        },
        _ => None,
    }
}

/// Goes through yesterday's records `prev` in order, keeping on each team
/// still in `teams` what `keep` keeps of it: the records kept, the
/// students still to be placed and the teams still free.
pub open spec fn carry(
    prev: Seq<PairingModel>,
    sec: Name,
    students: Seq<Name>,
    teams: Seq<Name>,
    both: bool,
) -> (Seq<PairingModel>, Seq<Name>, Seq<Name>)
    decreases prev.len(),
{
    if prev.len() == 0 {
        (Seq::empty(), students, teams)
    } else {
        let p = prev[0];
        let rest = prev.drop_first();
        if p.team_of() is Some && teams.contains(p.team_of()->0) {
            match keep(p, sec, students, both) {
                Some((seed, s1)) => {
                    let c = carry(rest, sec, s1, drop_name(teams, p.team_of()->0), both);
                    (seq![seed] + c.0, c.1, c.2)
                },
                None => carry(rest, sec, students, teams, both),
            }
        } else {
            carry(rest, sec, students, teams, both)
        }
    }
}

/// Gives each kept student who is alone a partner from `students`, in the
/// order of `seeds`: the records that result, and the students left.
pub open spec fn promote(
    days: Seq<Set<PairingModel>>,
    d: int,
    seeds: Seq<PairingModel>,
    students: Seq<Name>,
) -> (Set<PairingModel>, Seq<Name>)
    decreases seeds.len(),
{
    if seeds.len() == 0 {
        (Set::empty(), students)
    } else {
        let p = seeds[0];
        match p {
            PairingModel::Solo { section, team, student } => if students.len() > 0 {
                let k = partner_index(days, d, student, students);
                let r = promote(days, d, seeds.drop_first(), students.remove(k));
                (
                    r.0.insert(
                        PairingModel::Pair { section, team, primary: student, secondary: students[k] },
                    ),
                    r.1,
                )
            } else {
                let r = promote(days, d, seeds.drop_first(), students);
                (r.0.insert(p), r.1)
            },
            _ => {
                let r = promote(days, d, seeds.drop_first(), students);
                (r.0.insert(p), r.1)
            },
        }
    }
}

/// Yesterday's records that may carry over into section `sec` on day `d`:
/// those on a team, and, unless `any_section`, in `sec`.
pub open spec fn eligible(r: RosterModel, d: int, sec: Name, any_section: bool) -> Set<PairingModel> {
    if d == 0 {
        Set::empty()
    } else {
        r.days[d - 1].filter(
            |p: PairingModel| p.team_of() is Some && (any_section || p.section_of() == Some(sec)),
        )
    }
}

/// The day after section `sec` is dealt anew keeping what it can of
/// yesterday: the students taken in `order`, yesterday's records in `prev`.
pub open spec fn continued(
    r: RosterModel,
    d: int,
    sec: Name,
    order: Seq<Name>,
    prev: Seq<PairingModel>,
    both: bool,
) -> Set<PairingModel> {
    let k = kept(r.days[d], sec);
    let c = carry(prev, sec, order, free_teams(r.teams, k), both);
    let pr = promote(r.days, d, c.0, c.1);
    k.union(pr.0).union(deal(r.days, d, sec, pr.1, c.2))
}

pub proof fn lemma_carry(prev: Seq<PairingModel>, sec: Name, students: Seq<Name>, teams: Seq<Name>, both: bool)
    requires
        students.no_duplicates(),
        teams.no_duplicates(),
        forall|p: PairingModel| #[trigger] prev.contains(p) ==> p.well_formed(),
    ensures
        ({
            let c = carry(prev, sec, students, teams, both);
            &&& c.0.no_duplicates()
            &&& c.1.no_duplicates()
            &&& c.2.no_duplicates()
            &&& forall|x: Name| #[trigger] c.1.contains(x) ==> students.contains(x)
            &&& forall|t: Name| #[trigger] c.2.contains(t) ==> teams.contains(t)
            &&& day_ok(c.0.to_set())
            &&& forall|p: PairingModel| #[trigger] c.0.contains(p) ==> (p is Pair || p is Solo)
                && p.section_of() == Some(sec) && teams.contains(p.team_of()->0) && !c.2.contains(
                p.team_of()->0,
            )
            &&& forall|p: PairingModel, x: Name| #![trigger c.0.contains(p), p.holds(x)]
                c.0.contains(p) && p.holds(x) ==> students.contains(x) && !c.1.contains(x)
        }),
    decreases prev.len(),
{
    let c = carry(prev, sec, students, teams, both);
    if prev.len() == 0 {
        assert(c.0.to_set() =~= Set::<PairingModel>::empty());
    } else {
        let p = prev[0];
        let rest = prev.drop_first();
        assert forall|q: PairingModel| #[trigger] rest.contains(q) implies q.well_formed() by {
            let i = choose|i: int| 0 <= i < rest.len() && rest[i] == q;
            assert(prev[i + 1] == q);
            assert(prev.contains(q));
        }
        assert(prev.contains(p));
        if p.team_of() is Some && teams.contains(p.team_of()->0) && keep(p, sec, students, both) is Some {
            let t = p.team_of()->0;
            let (seed, s1) = keep(p, sec, students, both)->0;
            // what keep takes out
            let ghost taken = |x: Name| seed.holds(x);
            assert(s1.no_duplicates() && forall|x: Name| #[trigger] s1.contains(x) <==> (students.contains(x) && !seed.holds(x))
                && seed.well_formed() && (forall|x: Name| seed.holds(x) ==> students.contains(x))) by {
                match p {
                    PairingModel::Pair { team, primary, secondary, .. } => {
                        lemma_drop_name(students, primary);
                        lemma_drop_name(students, secondary);
                        lemma_drop_name(drop_name(students, primary), secondary);
                    },
                    PairingModel::Solo { team, student, .. } => {
                        lemma_drop_name(students, student);
                    },
                    _ => {},
                }
            }
            let t1 = drop_name(teams, t);
            lemma_drop_name(teams, t);
            lemma_carry(rest, sec, s1, t1, both);
            let c1 = carry(rest, sec, s1, t1, both);
            assert(c.0 == seq![seed] + c1.0);
            assert(seed.team_of() == Some(t));
            assert forall|q: PairingModel| #[trigger] c.0.contains(q) <==> (q == seed || c1.0.contains(q)) by {
                if c1.0.contains(q) {
                    let i = choose|i: int| 0 <= i < c1.0.len() && c1.0[i] == q;
                    assert(c.0[i + 1] == q);
                }
                if c.0.contains(q) && q != seed {
                    let i = choose|i: int| 0 <= i < c.0.len() && c.0[i] == q;
                    assert(c1.0[i - 1] == q);
                }
                if q == seed {
                    assert(c.0[0] == q);
                }
            }
            assert(c.0.to_set() =~= c1.0.to_set().insert(seed));
            assert forall|q: PairingModel, x: Name| #![trigger c1.0.to_set().contains(q), q.holds(x)]
                c1.0.to_set().contains(q) && seed.holds(x) implies !q.holds(x) by {
                assert(c1.0.contains(q));
            }
            assert forall|q: PairingModel| #[trigger] c1.0.to_set().contains(q) implies q.team_of() != seed.team_of() by {
                assert(c1.0.contains(q));
            }
            lemma_insert_ok(c1.0.to_set(), seed);
            assert forall|q: PairingModel| #[trigger] c.0.contains(q) implies (q is Pair || q is Solo)
                && q.section_of() == Some(sec) && teams.contains(q.team_of()->0) && !c.2.contains(q.team_of()->0) by {
                if q != seed {
                    let i = choose|i: int| 0 <= i < c.0.len() && c.0[i] == q;
                    assert(c1.0[i - 1] == q);
                }
            }
            assert forall|q: PairingModel, x: Name| #![trigger c.0.contains(q), q.holds(x)]
                c.0.contains(q) && q.holds(x) implies students.contains(x) && !c.1.contains(x) by {
                if q != seed {
                    let i = choose|i: int| 0 <= i < c.0.len() && c.0[i] == q;
                    assert(c1.0[i - 1] == q);
                }
            }
            assert(c.0.no_duplicates()) by {
                assert forall|i: int, j: int| 0 <= i < c.0.len() && 0 <= j < c.0.len() && i != j implies c.0[i] != c.0[j] by {
                    if i == 0 && j > 0 {
                        assert(c1.0.contains(c.0[j]));
                    }
                    if j == 0 && i > 0 {
                        assert(c1.0.contains(c.0[i]));
                    }
                    if i > 0 && j > 0 {
                        assert(c.0[i] == c1.0[i - 1]);
                        assert(c.0[j] == c1.0[j - 1]);
                    }
                }
            }
        } else {
            lemma_carry(rest, sec, students, teams, both);
        }
    }
}

pub proof fn lemma_promote(days: Seq<Set<PairingModel>>, d: int, seeds: Seq<PairingModel>, students: Seq<Name>)
    requires
        students.no_duplicates(),
        seeds.no_duplicates(),
        day_ok(seeds.to_set()),
        forall|p: PairingModel| #[trigger] seeds.contains(p) ==> (p is Pair || p is Solo),
        forall|p: PairingModel, x: Name| #![trigger seeds.contains(p), p.holds(x)]
            seeds.contains(p) && p.holds(x) ==> !students.contains(x),
    ensures
        ({
            let r = promote(days, d, seeds, students);
            &&& r.1.no_duplicates()
            &&& forall|x: Name| #[trigger] r.1.contains(x) ==> students.contains(x)
            &&& day_ok(r.0)
            &&& r.0.finite()
            &&& forall|q: PairingModel, x: Name| #![trigger r.0.contains(q), q.holds(x)]
                r.0.contains(q) && q.holds(x) ==> (students.contains(x) || exists|p: PairingModel|
                    #[trigger] seeds.contains(p) && p.holds(x)) && !r.1.contains(x)
            &&& forall|q: PairingModel| #[trigger] r.0.contains(q) ==> (q is Pair || q is Solo)
                && exists|p: PairingModel| #[trigger] seeds.contains(p) && p.team_of() == q.team_of()
                && p.section_of() == q.section_of()
        }),
    decreases seeds.len(),
{
    let r = promote(days, d, seeds, students);
    if seeds.len() > 0 {
        let p = seeds[0];
        let rest = seeds.drop_first();
        assert(seeds.contains(p));
        assert(rest.to_set().subset_of(seeds.to_set())) by {
            assert forall|q: PairingModel| rest.to_set().contains(q) implies seeds.to_set().contains(q) by {
                let i = choose|i: int| 0 <= i < rest.len() && rest[i] == q;
                assert(seeds[i + 1] == q);
            }
        }
        assert forall|q: PairingModel| #[trigger] rest.contains(q) implies seeds.contains(q) && q != p by {
            let i = choose|i: int| 0 <= i < rest.len() && rest[i] == q;
            assert(seeds[i + 1] == q);
        }
        assert(rest.no_duplicates()) by {
            assert forall|i: int, j: int| 0 <= i < rest.len() && 0 <= j < rest.len() && i != j implies rest[i] != rest[j] by {
                assert(rest[i] == seeds[i + 1]);
                assert(rest[j] == seeds[j + 1]);
            }
        }
        // the students `p` holds are held by no other seed
        assert forall|q: PairingModel, x: Name| #![trigger rest.contains(q), q.holds(x)] rest.contains(q) && p.holds(x) implies !q.holds(x) by {
            assert(seeds.to_set().contains(q));
            assert(seeds.to_set().contains(p));
        }
        assert forall|q: PairingModel| #[trigger] rest.contains(q) implies q.team_of() != p.team_of() by {
            assert(seeds.to_set().contains(q));
            assert(seeds.to_set().contains(p));
        }
        let promoted = match p {
            PairingModel::Solo { section, team, student } => students.len() > 0,
            _ => false,
        };
        if promoted {
            let k = partner_index(days, d, p->Solo_student, students);
            lemma_partner_index(days, d, p->Solo_student, students);
            let s1 = students.remove(k);
            lemma_remove_no_dup(students, k);
            lemma_promote(days, d, rest, s1);
            let r1 = promote(days, d, rest, s1);
            let n = PairingModel::Pair {
                section: p->Solo_section,
                team: p->Solo_team,
                primary: p->Solo_student,
                secondary: students[k],
            };
            assert(r.0 == r1.0.insert(n));
            assert(students.contains(students[k]));
            assert(p.holds(p->Solo_student));
            assert(n.well_formed());
            assert forall|q: PairingModel, x: Name| #![trigger r1.0.contains(q), q.holds(x)]
                r1.0.contains(q) && n.holds(x) implies !q.holds(x) by {
                if q.holds(x) {
                    if x == students[k] {
                        assert(!s1.contains(x));
                        if !s1.contains(x) {
                            let pp = choose|pp: PairingModel| #[trigger] rest.contains(pp) && pp.holds(x);
                            assert(seeds.contains(pp));
                        }
                    } else {
                        assert(p.holds(x));
                        if !s1.contains(x) {
                            let pp = choose|pp: PairingModel| #[trigger] rest.contains(pp) && pp.holds(x);
                        }
                    }
                }
            }
            assert forall|q: PairingModel| #[trigger] r1.0.contains(q) implies q.team_of() != n.team_of() by {
                let pp = choose|pp: PairingModel| #[trigger] rest.contains(pp) && pp.team_of() == q.team_of()
                    && pp.section_of() == q.section_of();
            }
            lemma_insert_ok(r1.0, n);
            assert forall|q: PairingModel, x: Name| #![trigger r.0.contains(q), q.holds(x)]
                r.0.contains(q) && q.holds(x) implies (students.contains(x) || exists|pp: PairingModel|
                    #[trigger] seeds.contains(pp) && pp.holds(x)) && !r.1.contains(x) by {
                if q == n {
                    if x == students[k] {
                        assert(!s1.contains(x));
                    } else {
                        assert(p.holds(x));
                        assert(!students.contains(x));
                    }
                } else if !s1.contains(x) {
                    let pp = choose|pp: PairingModel| #[trigger] rest.contains(pp) && pp.holds(x);
                    assert(seeds.contains(pp));
                }
            }
            assert forall|q: PairingModel| #[trigger] r.0.contains(q) implies (q is Pair || q is Solo)
                && exists|pp: PairingModel| #[trigger] seeds.contains(pp) && pp.team_of() == q.team_of()
                && pp.section_of() == q.section_of() by {
                if q != n {
                    let pp = choose|pp: PairingModel| #[trigger] rest.contains(pp) && pp.team_of() == q.team_of()
                        && pp.section_of() == q.section_of();
                    assert(seeds.contains(pp));
                }
            }
        } else {
            lemma_promote(days, d, rest, students);
            let r1 = promote(days, d, rest, students);
            assert(r.0 == r1.0.insert(p));
            assert(seeds.to_set().contains(p));
            assert(p.well_formed());
            assert forall|q: PairingModel, x: Name| #![trigger r1.0.contains(q), q.holds(x)]
                r1.0.contains(q) && p.holds(x) implies !q.holds(x) by {
                if q.holds(x) {
                    let pp = choose|pp: PairingModel| #[trigger] rest.contains(pp) && pp.holds(x);
                }
            }
            assert forall|q: PairingModel| #[trigger] r1.0.contains(q) implies q.team_of() != p.team_of() by {
                let pp = choose|pp: PairingModel| #[trigger] rest.contains(pp) && pp.team_of() == q.team_of()
                    && pp.section_of() == q.section_of();
            }
            lemma_insert_ok(r1.0, p);
            assert forall|q: PairingModel, x: Name| #![trigger r.0.contains(q), q.holds(x)]
                r.0.contains(q) && q.holds(x) implies (students.contains(x) || exists|pp: PairingModel|
                    #[trigger] seeds.contains(pp) && pp.holds(x)) && !r.1.contains(x) by {
                if q == p {
                    assert(!students.contains(x));
                } else if !students.contains(x) {
                    let pp = choose|pp: PairingModel| #[trigger] rest.contains(pp) && pp.holds(x);
                    assert(seeds.contains(pp));
                }
            }
            assert forall|q: PairingModel| #[trigger] r.0.contains(q) implies (q is Pair || q is Solo)
                && exists|pp: PairingModel| #[trigger] seeds.contains(pp) && pp.team_of() == q.team_of()
                && pp.section_of() == q.section_of() by {
                if q != p {
                    let pp = choose|pp: PairingModel| #[trigger] rest.contains(pp) && pp.team_of() == q.team_of()
                        && pp.section_of() == q.section_of();
                    assert(seeds.contains(pp));
                }
            }
        }
    }
}


/// Takes `s` out of `options`; gives it back where it was there.
pub fn remove_student_from_vec(s: &Student, options: &mut Vec<Student>) -> (r: Option<Student>)
    requires
        names_of(old(options)@).no_duplicates(),
    ensures
        names_of(final(options)@) == drop_name(names_of(old(options)@), s@),
        r is Some <==> names_of(old(options)@).contains(s@),
        r matches Some(x) ==> x@ == s@,
        r is None ==> final(options)@ == old(options)@,
{
    let ghost names = names_of(options@);
    let mut i: usize = 0;
    while i < options.len()
        invariant
            i <= options@.len(),
            names == names_of(options@),
            names.no_duplicates(),
            options@ == old(options)@,
            forall|j: int| 0 <= j < i ==> (#[trigger] options@[j])@ != s@,
        decreases options@.len() - i,
    {
        if options[i] == *s {
            let x = options.remove(i);
            proof {
                assert(names[i as int] == s@);
                assert(names.contains(s@));
                let k = names.index_of(s@);
                assert(names[k] == s@);
                assert(k == i);
                assert(names_of(options@) =~= names.remove(i as int));
            }
            return Some(x);
        }
        i = i + 1;
    }
    assert(!names.contains(s@)) by {
        if names.contains(s@) {
            let j = choose|j: int| 0 <= j < names.len() && names[j] == s@;
            assert(options@[j]@ == s@);
        }
    }
    None
}

/// Takes team `t` out of `teams`.
fn drop_team(t: &Team, teams: &mut Vec<Team>)
    requires
        team_names(old(teams)@).no_duplicates(),
    ensures
        team_names(final(teams)@) == drop_name(team_names(old(teams)@), t@),
{
    let ghost names = team_names(teams@);
    let mut i: usize = 0;
    while i < teams.len()
        invariant
            i <= teams@.len(),
            names == team_names(teams@),
            names.no_duplicates(),
            teams@ == old(teams)@,
            forall|j: int| 0 <= j < i ==> (#[trigger] teams@[j])@ != t@,
        decreases teams@.len() - i,
    {
        if teams[i] == *t {
            teams.remove(i);
            proof {
                assert(names[i as int] == t@);
                assert(names.contains(t@));
                let k = names.index_of(t@);
                assert(names[k] == t@);
                assert(k == i);
                assert(team_names(teams@) =~= names.remove(i as int));
            }
            return;
        }
        i = i + 1;
    }
    assert(!names.contains(t@)) by {
        if names.contains(t@) {
            let j = choose|j: int| 0 <= j < names.len() && names[j] == t@;
            assert(teams@[j]@ == t@);
        }
    }
}

pub(crate) fn has_team(teams: &Vec<Team>, t: &Team) -> (r: bool)
    ensures
        r == team_names(teams@).contains(t@),
{
    let mut i: usize = 0;
    while i < teams.len()
        invariant
            i <= teams@.len(),
            forall|j: int| 0 <= j < i ==> (#[trigger] teams@[j])@ != t@,
        decreases teams@.len() - i,
    {
        if teams[i] == *t {
            assert(team_names(teams@)[i as int] == t@);
            return true;
        }
        i = i + 1;
    }
    assert(!team_names(teams@).contains(t@)) by {
        if team_names(teams@).contains(t@) {
            let j = choose|j: int| 0 <= j < teams@.len() && team_names(teams@)[j] == t@;
            assert(teams@[j]@ == t@);
        }
    }
    false
}

/// What stays of yesterday's record `p` while `students` are still to be
/// placed; see `keep`.
fn keep_record(p: &Pairing, section: &Section, students: &mut Vec<Student>, both: bool) -> (r: Option<Pairing>)
    requires
        names_of(old(students)@).no_duplicates(),
    ensures
        match keep(p@, section@, names_of(old(students)@), both) {
            Some((seed, s1)) => r matches Some(x) && x@ == seed && names_of(final(students)@) == s1,
            None => r is None && final(students)@ == old(students)@,
        },
{
    match p {
        Pairing::Pair { team, primary, secondary, .. } => {
            if both {
                if remove_student_from_vec(primary, students).is_some() {
                    proof {
                        lemma_drop_name(names_of(old(students)@), primary@);
                    }
                    if remove_student_from_vec(secondary, students).is_some() {
                        Some(Pairing::Pair { section: section.duplicate(), team: team.duplicate(), primary: primary.duplicate(), secondary: secondary.duplicate() })
                    } else {
                        Some(Pairing::Solo { section: section.duplicate(), team: team.duplicate(), student: primary.duplicate() })
                    }
                } else if remove_student_from_vec(secondary, students).is_some() {
                    Some(Pairing::Solo { section: section.duplicate(), team: team.duplicate(), student: secondary.duplicate() })
                } else {
                    None
                }
            } else {
                if remove_student_from_vec(secondary, students).is_some() {
                    Some(Pairing::Solo { section: section.duplicate(), team: team.duplicate(), student: secondary.duplicate() })
                } else if remove_student_from_vec(primary, students).is_some() {
                    Some(Pairing::Solo { section: section.duplicate(), team: team.duplicate(), student: primary.duplicate() })
                } else {
                    None
                }
            }
        },
        Pairing::Solo { team, student, .. } => {
            if remove_student_from_vec(student, students).is_some() {
                Some(Pairing::Solo { section: section.duplicate(), team: team.duplicate(), student: student.duplicate() })
            } else {
                None
            }
        },
        _ => None,
    }
}

/// Goes through yesterday's records in order; see `carry`.
fn carry_over(prev: &Vec<Pairing>, section: &Section, students: &mut Vec<Student>, teams: &mut Vec<Team>, both: bool) -> (seeds: Vec<Pairing>)
    requires
        names_of(old(students)@).no_duplicates(),
        team_names(old(teams)@).no_duplicates(),
    ensures
        carry(models_of(prev@), section@, names_of(old(students)@), team_names(old(teams)@), both)
            == (models_of(seeds@), names_of(final(students)@), team_names(final(teams)@)),
{
    let ghost m = models_of(prev@);
    let ghost goal = carry(m, section@, names_of(students@), team_names(teams@), both);
    let mut seeds: Vec<Pairing> = Vec::new();
    let mut i: usize = 0;
    proof {
        assert(m.skip(0) =~= m);
        assert(models_of(seeds@) + goal.0 =~= goal.0);
    }
    while i < prev.len()
        invariant
            i <= prev@.len(),
            m == models_of(prev@),
            names_of(students@).no_duplicates(),
            team_names(teams@).no_duplicates(),
            ({
                let c = carry(m.skip(i as int), section@, names_of(students@), team_names(teams@), both);
                goal == (models_of(seeds@) + c.0, c.1, c.2)
            }),
        decreases prev@.len() - i,
    {
        let p = &prev[i];
        let ghost rest = m.skip(i + 1);
        proof {
            assert(m.skip(i as int)[0] == p@);
            assert(m.skip(i as int).drop_first() =~= rest);
        }
        let ghost s_before = names_of(students@);
        let ghost t_before = team_names(teams@);
        match p.team() {
            Some(t) => {
                if has_team(teams, &t) {
                    match keep_record(p, section, students, both) {
                        Some(seed) => {
                            proof {
                                lemma_drop_name(t_before, t@);
                                let (sd, s1) = keep(p@, section@, s_before, both)->0;
                                match p@ {
                                    PairingModel::Pair { team, primary, secondary, .. } => {
                                        lemma_drop_name(s_before, primary);
                                        lemma_drop_name(s_before, secondary);
                                        lemma_drop_name(drop_name(s_before, primary), secondary);
                                    },
                                    PairingModel::Solo { team, student, .. } => {
                                        lemma_drop_name(s_before, student);
                                    },
                                    _ => {},
                                }
                            }
                            drop_team(&t, teams);
                            let ghost old_seeds = models_of(seeds@);
                            seeds.push(seed);
                            proof {
                                let c = carry(rest, section@, names_of(students@), team_names(teams@), both);
                                assert(models_of(seeds@) =~= old_seeds.push(seeds@.last()@));
                                assert(old_seeds + (seq![seeds@.last()@] + c.0) =~= models_of(seeds@) + c.0);
                            }
                        },
                        None => {},
                    }
                }
            },
            None => {},
        }
        i = i + 1;
    }
    proof {
        assert(m.skip(prev@.len() as int) =~= Seq::<PairingModel>::empty());
        assert(models_of(seeds@) + Seq::<PairingModel>::empty() =~= models_of(seeds@));
    }
    seeds
}


/// Two orders of the same records hold the same records.
pub proof fn lemma_same_records(a: Seq<Pairing>, b: Seq<Pairing>)
    requires
        a.to_multiset() == b.to_multiset(),
    ensures
        forall|q: PairingModel| #[trigger] models_of(a).contains(q) <==> models_of(b).contains(q),
{
    broadcast use vstd::seq_lib::to_multiset_contains;

    assert forall|x: Pairing| #[trigger] b.contains(x) <==> a.contains(x) by {
        assert(b.contains(x) <==> b.to_multiset().count(x) > 0);
        assert(a.contains(x) <==> a.to_multiset().count(x) > 0);
    }
    assert forall|q: PairingModel| #[trigger] models_of(a).contains(q) <==> models_of(b).contains(q) by {
        if models_of(a).contains(q) {
            let i = choose|i: int| 0 <= i < a.len() && models_of(a)[i] == q;
            assert(a.contains(a[i]));
            assert(b.contains(a[i]));
            let m = choose|m: int| 0 <= m < b.len() && b[m] == a[i];
            assert(models_of(b)[m] == q);
        }
        if models_of(b).contains(q) {
            let i = choose|i: int| 0 <= i < b.len() && models_of(b)[i] == q;
            assert(b.contains(b[i]));
            assert(a.contains(b[i]));
            let m = choose|m: int| 0 <= m < a.len() && a[m] == b[i];
            assert(models_of(a)[m] == q);
        }
    }
}

impl Data {
    /// Gives each kept student who is alone a partner; see `promote`.
    fn promote_seeds(&self, day: &Day, seeds: Vec<Pairing>, students: &mut Vec<Student>, out: &mut Vec<Pairing>)
        requires
            day.id <= self@.days.len(),
            names_of(old(students)@).no_duplicates(),
        ensures
            ({
                let pr = promote(self@.days, day.id as int, models_of(seeds@), names_of(old(students)@));
                &&& set_of(final(out)@) == set_of(old(out)@).union(pr.0)
                &&& names_of(final(students)@) == pr.1
            }),
    {
        let ghost m = models_of(seeds@);
        let ghost d = day.id as int;
        let ghost goal = promote(self@.days, d, m, names_of(students@));
        let ghost target = set_of(out@).union(goal.0);
        let mut i: usize = 0;
        proof {
            assert(m.skip(0) =~= m);
        }
        while i < seeds.len()
            invariant
                i <= seeds@.len(),
                m == models_of(seeds@),
                d == day.id,
                day.id <= self@.days.len(),
                names_of(students@).no_duplicates(),
                ({
                    let pr = promote(self@.days, d, m.skip(i as int), names_of(students@));
                    &&& set_of(out@).union(pr.0) == target
                    &&& pr.1 == goal.1
                }),
            decreases seeds@.len() - i,
        {
            let p = &seeds[i];
            let ghost rest = m.skip(i + 1);
            proof {
                assert(m.skip(i as int)[0] == p@);
                assert(m.skip(i as int).drop_first() =~= rest);
            }
            let ghost s_before = names_of(students@);
            let n = match p {
                Pairing::Solo { section, team, student } => {
                    if students.len() > 0 {
                        match self.pick_partner_from(day, student, students) {
                            Some(secondary) => {
                                proof {
                                    let k = partner_index(self@.days, d, student@, s_before);
                                    lemma_partner_index(self@.days, d, student@, s_before);
                                    crate::engine::lemma_drop_all_unique(s_before, k);
                                    lemma_remove_no_dup(s_before, k);
                                    assert(names_of(students@) =~= s_before.remove(k));
                                }
                                Pairing::Pair { section: section.duplicate(), team: team.duplicate(), primary: student.duplicate(), secondary }
                            },
                            None => p.duplicate(),
                        }
                    } else {
                        p.duplicate()
                    }
                },
                _ => p.duplicate(),
            };
            proof {
                let pr = promote(self@.days, d, rest, names_of(students@));
                assert(promote(self@.days, d, m.skip(i as int), s_before).0 == pr.0.insert(n@));
                lemma_set_of_push(out@, n);
                assert(set_of(out@).insert(n@).union(pr.0) =~= set_of(out@).union(pr.0.insert(n@)));
            }
            out.push(n);
            i = i + 1;
        }
        proof {
            assert(m.skip(seeds@.len() as int) =~= Seq::<PairingModel>::empty());
            assert(set_of(out@).union(Set::<PairingModel>::empty()) =~= set_of(out@));
        }
    }

    /// Yesterday's records that may carry over; see `eligible`.
    fn eligible_records(&self, d: usize, section: &Section, any_section: bool) -> (r: Vec<Pairing>)
        requires
            d < self@.days.len(),
        ensures
            forall|q: PairingModel| #[trigger] models_of(r@).contains(q) <==> eligible(self@, d as int, section@, any_section).contains(q),
    {
        let mut out: Vec<Pairing> = Vec::new();
        if d == 0 {
            return out;
        }
        let ps = &self.days[d - 1];
        let ghost sec = section@;
        let ghost pred = |p: PairingModel| p.team_of() is Some && (any_section || p.section_of() == Some(sec));
        assert(self@.days[d - 1] == set_of(ps@));
        let mut i: usize = 0;
        proof {
            crate::roster::lemma_set_of_empty(out@);
        }
        while i < ps.len()
            invariant
                i <= ps.len(),
                sec == section@,
                pred == (|p: PairingModel| p.team_of() is Some && (any_section || p.section_of() == Some(sec))),
                forall|q: PairingModel|
                    #[trigger] set_of(out@).contains(q) <==> (set_of(ps@.take(i as int)).contains(q) && pred(q)),
            decreases ps.len() - i,
        {
            proof {
                assert(ps@.take(i + 1) =~= ps@.take(i as int).push(ps@[i as int]));
                lemma_set_of_push(ps@.take(i as int), ps@[i as int]);
            }
            let keep = ps[i].team().is_some() && (any_section || ps[i].in_section(section));
            if keep {
                proof {
                    lemma_set_of_push(out@, ps@[i as int]);
                }
                out.push(ps[i].duplicate());
            }
            i = i + 1;
        }
        assert(ps@.take(ps.len() as int) =~= ps@);
        assert forall|q: PairingModel| #[trigger] models_of(out@).contains(q) <==> eligible(self@, d as int, sec, any_section).contains(q) by {
            assert(set_of(out@).contains(q) <==> models_of(out@).contains(q));
        }
        out
    }

    /// Deals `section` anew on `day` keeping what it can of yesterday; see
    /// `continued`.
    pub(crate) fn continue_in_order(&mut self, day: Day, section: Section, order: Vec<Student>, last: Vec<Pairing>, both: bool)
        requires
            old(self).wf(),
            day.id < old(self)@.days.len(),
            is_arrangement(names_of(order@), pool_of(old(self)@, day.id as int, section@)),
            forall|p: PairingModel| #[trigger] models_of(last@).contains(p) ==> p.well_formed(),
        ensures
            final(self).wf(),
            final(self).path() == old(self).path(),
            final(self)@ == old(self)@.with_day(
                day.id as int,
                continued(old(self)@, day.id as int, section@, names_of(order@), models_of(last@), both),
            ),
    {
        let d = day.id;
        let ghost r0 = self@;
        let ghost ps0 = r0.days[d as int];
        let ghost sec = section@;
        let ghost kp = kept(ps0, sec);
        let ghost names0 = names_of(order@);
        let mut out = self.kept_records(d, &section);
        let mut ft = self.free_team_list(&out);
        let ghost ft0 = team_names(ft@);
        let mut order = order;
        let seeds = carry_over(&last, &section, &mut order, &mut ft, both);
        let ghost c = carry(models_of(last@), sec, names0, ft0, both);
        let ghost c0 = models_of(seeds@);
        proof {
            lemma_carry(models_of(last@), sec, names0, ft0, both);
        }
        self.promote_seeds(&day, seeds, &mut order, &mut out);
        let ghost pr = promote(r0.days, d as int, c0, c.1);
        proof {
            lemma_promote(r0.days, d as int, c0, c.1);
        }
        self.deal_into(&day, &section, &mut out, order, &ft);
        proof {
            let dealt = deal(r0.days, d as int, sec, pr.1, c.2);
            lemma_deal(r0.days, d as int, sec, pr.1, c.2);
            assert(day_ok(kp)) by {
                assert(day_ok(ps0));
            }
            assert forall|p: PairingModel, q: PairingModel, x: Name|
                #![trigger kp.contains(p), pr.0.contains(q), p.holds(x), q.holds(x)]
                kp.contains(p) && pr.0.contains(q) && p.holds(x) implies !q.holds(x) by {
                if q.holds(x) {
                    if !c.1.contains(x) {
                        let sd = choose|sd: PairingModel| #[trigger] c0.contains(sd) && sd.holds(x);
                    }
                    assert(names0.contains(x));
                    lemma_pool_fresh(r0, d as int, sec, x, p);
                }
            }
            assert forall|p: PairingModel, q: PairingModel|
                #![trigger kp.contains(p), pr.0.contains(q)]
                kp.contains(p) && pr.0.contains(q) && p.team_of() is Some implies p.team_of() != q.team_of() by {
                let sd = choose|sd: PairingModel| #[trigger] c0.contains(sd) && sd.team_of() == q.team_of()
                    && sd.section_of() == q.section_of();
                lemma_free_team(r0.teams, kp, sd.team_of()->0, p);
            }
            lemma_union_ok(kp, pr.0);
            let a = kp.union(pr.0);
            assert forall|p: PairingModel, q: PairingModel, x: Name|
                #![trigger a.contains(p), dealt.contains(q), p.holds(x), q.holds(x)]
                a.contains(p) && dealt.contains(q) && p.holds(x) implies !q.holds(x) by {
                if q.holds(x) {
                    assert(pr.1.contains(x));
                    assert(c.1.contains(x));
                    if kp.contains(p) {
                        lemma_pool_fresh(r0, d as int, sec, x, p);
                    }
                }
            }
            assert forall|p: PairingModel, q: PairingModel|
                #![trigger a.contains(p), dealt.contains(q)]
                a.contains(p) && dealt.contains(q) && p.team_of() is Some implies p.team_of() != q.team_of() by {
                let t = q.team_of()->0;
                assert(c.2.contains(t));
                if kp.contains(p) {
                    lemma_free_team(r0.teams, kp, t, p);
                } else {
                    let sd = choose|sd: PairingModel| #[trigger] c0.contains(sd) && sd.team_of() == p.team_of()
                        && sd.section_of() == p.section_of();
                }
            }
            lemma_union_ok(a, dealt);
        }
        self.replace_day(d, out);
        assert forall|e: int| 0 <= e < self@.days.len() implies day_ok(#[trigger] self@.days[e]) by {
            if e != d {
                assert(self@.days[e] == r0.days[e]);
            }
        }
    }

    /// Deals `section` anew on `day`, taking its students in `order` and
    /// yesterday's records of the section in `last`: on each of yesterday's
    /// teams still free, the first of its members who is there stays; each
    /// such student then gets a partner, and the rest are dealt as by
    /// `shuffle`.
    /// Nothing changes, and `DayLocked` comes back, where the day is locked.
    pub fn shuffle_with_continuity_in_order(&mut self, day: Day, section: Section, order: Vec<Student>, last: Vec<Pairing>) -> (r: Result<(), DayLocked>)
        requires
            old(self).wf(),
            day.id < old(self)@.days.len(),
            is_arrangement(names_of(order@), pool_of(old(self)@, day.id as int, section@)),
            forall|p: PairingModel| #[trigger] models_of(last@).contains(p) <==> eligible(old(self)@, day.id as int, section@, false).contains(p),
        ensures
            final(self).wf(),
            final(self).path() == old(self).path(),
            !old(self)@.unlocked.contains(day.id) ==> r == Err::<(), DayLocked>(DayLocked) && final(self)@ == old(self)@,
            old(self)@.unlocked.contains(day.id) ==> r is Ok && (final(self)@ == old(self)@.with_day(
                day.id as int,
                continued(old(self)@, day.id as int, section@, names_of(order@), models_of(last@), false),
            )),
    {
        if !self.day_unlocked(day.duplicate()) {
            return Err(DayLocked);
        }
        self.shuffle_with_continuity_in_order_open(day, section, order, last);
        Ok(())
    }

    pub(crate) fn shuffle_with_continuity_in_order_open(&mut self, day: Day, section: Section, order: Vec<Student>, last: Vec<Pairing>)
        requires
            old(self).wf(),
            day.id < old(self)@.days.len(),
            is_arrangement(names_of(order@), pool_of(old(self)@, day.id as int, section@)),
            forall|p: PairingModel| #[trigger] models_of(last@).contains(p) <==> eligible(old(self)@, day.id as int, section@, false).contains(p),
        ensures
            final(self).wf(),
            final(self).path() == old(self).path(),
            final(self)@ == old(self)@.with_day(
                day.id as int,
                continued(old(self)@, day.id as int, section@, names_of(order@), models_of(last@), false),
            ),
    {
        proof {
            self.lemma_eligible_well_formed(day.id as int, section@, false);
        }
        self.continue_in_order(day, section, order, last, false);
    }

    /// Deals `section` anew on `day` like `shuffle_with_continuity_in_order`,
    /// but keeping both members of yesterday's pairs where both are there,
    /// and yesterday's lone students too.
    /// Nothing changes, and `DayLocked` comes back, where the day is locked.
    pub fn repeat_in_order(&mut self, day: Day, section: Section, order: Vec<Student>, last: Vec<Pairing>) -> (r: Result<(), DayLocked>)
        requires
            old(self).wf(),
            day.id < old(self)@.days.len(),
            is_arrangement(names_of(order@), pool_of(old(self)@, day.id as int, section@)),
            forall|p: PairingModel| #[trigger] models_of(last@).contains(p) <==> eligible(old(self)@, day.id as int, section@, false).contains(p),
        ensures
            final(self).wf(),
            final(self).path() == old(self).path(),
            !old(self)@.unlocked.contains(day.id) ==> r == Err::<(), DayLocked>(DayLocked) && final(self)@ == old(self)@,
            old(self)@.unlocked.contains(day.id) ==> r is Ok && (final(self)@ == old(self)@.with_day(
                day.id as int,
                continued(old(self)@, day.id as int, section@, names_of(order@), models_of(last@), true),
            )),
    {
        if !self.day_unlocked(day.duplicate()) {
            return Err(DayLocked);
        }
        self.repeat_in_order_open(day, section, order, last);
        Ok(())
    }

    pub(crate) fn repeat_in_order_open(&mut self, day: Day, section: Section, order: Vec<Student>, last: Vec<Pairing>)
        requires
            old(self).wf(),
            day.id < old(self)@.days.len(),
            is_arrangement(names_of(order@), pool_of(old(self)@, day.id as int, section@)),
            forall|p: PairingModel| #[trigger] models_of(last@).contains(p) <==> eligible(old(self)@, day.id as int, section@, false).contains(p),
        ensures
            final(self).wf(),
            final(self).path() == old(self).path(),
            final(self)@ == old(self)@.with_day(
                day.id as int,
                continued(old(self)@, day.id as int, section@, names_of(order@), models_of(last@), true),
            ),
    {
        proof {
            self.lemma_eligible_well_formed(day.id as int, section@, false);
        }
        self.continue_in_order(day, section, order, last, true);
    }

    pub proof fn lemma_eligible_well_formed(&self, d: int, sec: Name, any_section: bool)
        requires
            self.wf(),
            0 <= d < self@.days.len(),
        ensures
            forall|p: PairingModel| #[trigger] eligible(self@, d, sec, any_section).contains(p) ==> p.well_formed(),
    {
        if d > 0 {
            assert(day_ok(self@.days[d - 1]));
        }
    }

    /// The students of `section` on `day` in a random order.
    pub(crate) fn random_order(&self, day: &Day, section: &Section) -> (r: Vec<Student>)
        requires
            self.wf(),
            day.id < self@.days.len(),
        ensures
            is_arrangement(names_of(r@), pool_of(self@, day.id as int, section@)),
    {
        let mut order = self.students_present_in_section(day.duplicate(), section.duplicate());
        let ghost before = order@;
        assert(names_of(before).no_duplicates()) by {
            assert forall|i: int, j: int| 0 <= i < before.len() && 0 <= j < before.len() && i != j implies names_of(before)[i] != names_of(before)[j] by {
                lemma_sorted_unique(names_of(before), i, j);
            }
        }
        shuffle_in_place(&mut order);
        proof {
            lemma_arrangement(before, order@);
        }
        order
    }

    /// Yesterday's records that may carry over, in a random order.
    pub(crate) fn random_last(&self, d: usize, section: &Section, any_section: bool) -> (r: Vec<Pairing>)
        requires
            d < self@.days.len(),
        ensures
            forall|q: PairingModel| #[trigger] models_of(r@).contains(q) <==> eligible(self@, d as int, section@, any_section).contains(q),
    {
        let mut last = self.eligible_records(d, section, any_section);
        let ghost before = last@;
        shuffle_in_place(&mut last);
        proof {
            lemma_same_records(before, last@);
            assert forall|q: PairingModel| #[trigger] models_of(last@).contains(q) <==> eligible(self@, d as int, section@, any_section).contains(q) by {
                assert(models_of(before).contains(q) <==> models_of(last@).contains(q));
            }
        }
        last
    }

    /// Deals `section` anew on `day` keeping one member of each of
    /// yesterday's teams where it can, the students and yesterday's records
    /// taken in a random order.
    /// Nothing changes, and `DayLocked` comes back, where the day is locked.
    pub fn shuffle_with_continuity(&mut self, day: Day, section: Section) -> (r: Result<(), DayLocked>)
        requires
            old(self).wf(),
            day.id < old(self)@.days.len(),
        ensures
            final(self).wf(),
            final(self).path() == old(self).path(),
            !old(self)@.unlocked.contains(day.id) ==> r == Err::<(), DayLocked>(DayLocked) && final(self)@ == old(self)@,
            old(self)@.unlocked.contains(day.id) ==> r is Ok && (exists|order: Seq<Name>, last: Seq<PairingModel>|
                is_arrangement(order, pool_of(old(self)@, day.id as int, section@))
                    && (forall|p: PairingModel| #[trigger] last.contains(p) <==> eligible(old(self)@, day.id as int, section@, false).contains(p))
                    && final(self)@ == old(self)@.with_day(
                    day.id as int,
                    #[trigger] continued(old(self)@, day.id as int, section@, order, last, false),
                )),
    {
        if !self.day_unlocked(day.duplicate()) {
            return Err(DayLocked);
        }
        self.shuffle_with_continuity_open(day, section);
        Ok(())
    }

    pub(crate) fn shuffle_with_continuity_open(&mut self, day: Day, section: Section)
        requires
            old(self).wf(),
            day.id < old(self)@.days.len(),
        ensures
            final(self).wf(),
            final(self).path() == old(self).path(),
            exists|order: Seq<Name>, last: Seq<PairingModel>|
                is_arrangement(order, pool_of(old(self)@, day.id as int, section@))
                    && (forall|p: PairingModel| #[trigger] last.contains(p) <==> eligible(old(self)@, day.id as int, section@, false).contains(p))
                    && final(self)@ == old(self)@.with_day(
                    day.id as int,
                    #[trigger] continued(old(self)@, day.id as int, section@, order, last, false),
                ),
    {
        let order = self.random_order(&day, &section);
        let last = self.random_last(day.id, &section, false);
        let ghost o = names_of(order@);
        let ghost l = models_of(last@);
        self.shuffle_with_continuity_in_order_open(day, section, order, last);
        assert(is_arrangement(o, pool_of(old(self)@, day.id as int, section@)));
    }

    /// Deals `section` anew on `day` keeping yesterday's teams where it can,
    /// the students and yesterday's records taken in a random order.
    /// Nothing changes, and `DayLocked` comes back, where the day is locked.
    pub fn repeat(&mut self, day: Day, section: Section) -> (r: Result<(), DayLocked>)
        requires
            old(self).wf(),
            day.id < old(self)@.days.len(),
        ensures
            final(self).wf(),
            final(self).path() == old(self).path(),
            !old(self)@.unlocked.contains(day.id) ==> r == Err::<(), DayLocked>(DayLocked) && final(self)@ == old(self)@,
            old(self)@.unlocked.contains(day.id) ==> r is Ok && (exists|order: Seq<Name>, last: Seq<PairingModel>|
                is_arrangement(order, pool_of(old(self)@, day.id as int, section@))
                    && (forall|p: PairingModel| #[trigger] last.contains(p) <==> eligible(old(self)@, day.id as int, section@, false).contains(p))
                    && final(self)@ == old(self)@.with_day(
                    day.id as int,
                    #[trigger] continued(old(self)@, day.id as int, section@, order, last, true),
                )),
    {
        if !self.day_unlocked(day.duplicate()) {
            return Err(DayLocked);
        }
        self.repeat_open(day, section);
        Ok(())
    }

    pub(crate) fn repeat_open(&mut self, day: Day, section: Section)
        requires
            old(self).wf(),
            day.id < old(self)@.days.len(),
        ensures
            final(self).wf(),
            final(self).path() == old(self).path(),
            exists|order: Seq<Name>, last: Seq<PairingModel>|
                is_arrangement(order, pool_of(old(self)@, day.id as int, section@))
                    && (forall|p: PairingModel| #[trigger] last.contains(p) <==> eligible(old(self)@, day.id as int, section@, false).contains(p))
                    && final(self)@ == old(self)@.with_day(
                    day.id as int,
                    #[trigger] continued(old(self)@, day.id as int, section@, order, last, true),
                ),
    {
        let order = self.random_order(&day, &section);
        let last = self.random_last(day.id, &section, false);
        let ghost o = names_of(order@);
        let ghost l = models_of(last@);
        self.repeat_in_order_open(day, section, order, last);
        assert(is_arrangement(o, pool_of(old(self)@, day.id as int, section@)));
    }
}

} // verus!
