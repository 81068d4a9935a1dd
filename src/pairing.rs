use vstd::prelude::*;
use crate::names::{Name, Section, Student, Team};

verus! {

/// One assignment record of a day.
#[derive(Debug, Clone)]
pub enum Pairing {
    Pair { section: Section, team: Team, primary: Student, secondary: Student },
    Solo { section: Section, team: Team, student: Student },
    Unassigned { section: Section, student: Student },
    Absent(Student),
}

/// What a `Pairing` says, with each name as its text.
pub enum PairingModel {
    Pair { section: Name, team: Name, primary: Name, secondary: Name },
    Solo { section: Name, team: Name, student: Name },
    Unassigned { section: Name, student: Name },
    Absent(Name),
}

impl View for Pairing {
    type V = PairingModel;

    open spec fn view(&self) -> PairingModel {
        match self {
            Pairing::Pair { section, team, primary, secondary } => PairingModel::Pair {
                section: section@,
                team: team@,
                primary: primary@,
                secondary: secondary@,
            },
            Pairing::Solo { section, team, student } => PairingModel::Solo {
                section: section@,
                team: team@,
                student: student@,
            },
            Pairing::Unassigned { section, student } => PairingModel::Unassigned {
                section: section@,
                student: student@,
            },
            Pairing::Absent(s) => PairingModel::Absent(s@),
        }
    }
}

/// The texts of a sequence of students.
pub open spec fn names_of(v: Seq<Student>) -> Seq<Name> {
    v.map_values(|s: Student| s@)
}

/// The models of a sequence of pairings.
pub open spec fn models_of(v: Seq<Pairing>) -> Seq<PairingModel> {
    v.map_values(|p: Pairing| p@)
}

impl PairingModel {
    /// Students who are there that day, absent ones excluded.
    pub open spec fn present(self) -> Seq<Name> {
        match self {
            PairingModel::Pair { primary, secondary, .. } => seq![secondary, primary],
            PairingModel::Solo { student, .. } => seq![student],
            PairingModel::Unassigned { student, .. } => seq![student],
            PairingModel::Absent(_) => Seq::empty(),
        }
    }

    /// Students who hold a place on a team.
    pub open spec fn assigned(self) -> Seq<Name> {
        match self {
            PairingModel::Pair { primary, secondary, .. } => seq![secondary, primary],
            PairingModel::Solo { student, .. } => seq![student],
            _ => Seq::empty(),
        }
    }

    /// Every student the record speaks of, absent ones included.
    pub open spec fn allocated(self) -> Seq<Name> {
        match self {
            PairingModel::Pair { primary, secondary, .. } => seq![primary, secondary],
            PairingModel::Solo { student, .. } => seq![student],
            PairingModel::Unassigned { student, .. } => seq![student],
            PairingModel::Absent(student) => seq![student],
        }
    }

    pub open spec fn holds(self, s: Name) -> bool {
        match self {
            PairingModel::Pair { primary, secondary, .. } => primary == s || secondary == s,
            PairingModel::Solo { student, .. } => student == s,
            PairingModel::Unassigned { student, .. } => student == s,
            PairingModel::Absent(student) => student == s,
        }
    }

    pub open spec fn present_holds(self, s: Name) -> bool {
        self.holds(s) && !(self is Absent)
    }

    pub open spec fn section_of(self) -> Option<Name> {
        match self {
            PairingModel::Pair { section, .. } => Some(section),
            PairingModel::Solo { section, .. } => Some(section),
            PairingModel::Unassigned { section, .. } => Some(section),
            PairingModel::Absent(_) => None,
        }
    }

    pub open spec fn team_of(self) -> Option<Name> {
        match self {
            PairingModel::Pair { team, .. } => Some(team),
            PairingModel::Solo { team, .. } => Some(team),
            _ => None,
        }
    }

    /// A pair never joins a student with themself.
    pub open spec fn well_formed(self) -> bool {
        match self {
            PairingModel::Pair { primary, secondary, .. } => primary != secondary,
            _ => true,
        }
    }
}

/// `n` where the name is `from`, and the name itself otherwise.
pub open spec fn swap_name(x: Name, from: Name, to: Name) -> Name {
    if x == from {
        to
    } else {
        x
    }
}

impl PairingModel {
    /// The record with section `from` renamed `to`.
    pub open spec fn with_section(self, from: Name, to: Name) -> PairingModel {
        match self {
            PairingModel::Pair { section, team, primary, secondary } => PairingModel::Pair {
                section: swap_name(section, from, to),
                team,
                primary,
                secondary,
            },
            PairingModel::Solo { section, team, student } => PairingModel::Solo {
                section: swap_name(section, from, to),
                team,
                student,
            },
            PairingModel::Unassigned { section, student } => PairingModel::Unassigned {
                section: swap_name(section, from, to),
                student,
            },
            PairingModel::Absent(s) => PairingModel::Absent(s),
        }
    }

    /// The record with team `from` renamed `to`.
    pub open spec fn with_team(self, from: Name, to: Name) -> PairingModel {
        match self {
            PairingModel::Pair { section, team, primary, secondary } => PairingModel::Pair {
                section,
                team: swap_name(team, from, to),
                primary,
                secondary,
            },
            PairingModel::Solo { section, team, student } => PairingModel::Solo {
                section,
                team: swap_name(team, from, to),
                student,
            },
            _ => self,
        }
    }

    /// The record with student `from` renamed `to`.
    pub open spec fn with_student(self, from: Name, to: Name) -> PairingModel {
        match self {
            PairingModel::Pair { section, team, primary, secondary } => PairingModel::Pair {
                section,
                team,
                primary: swap_name(primary, from, to),
                secondary: swap_name(secondary, from, to),
            },
            PairingModel::Solo { section, team, student } => PairingModel::Solo {
                section,
                team,
                student: swap_name(student, from, to),
            },
            PairingModel::Unassigned { section, student } => PairingModel::Unassigned {
                section,
                student: swap_name(student, from, to),
            },
            PairingModel::Absent(s) => PairingModel::Absent(swap_name(s, from, to)),
        }
    }
}

fn swap_section(x: &Section, from: &Section, to: &Section) -> (r: Section)
    ensures
        r@ == swap_name(x@, from@, to@),
{
    if *x == *from {
        to.duplicate()
    } else {
        x.duplicate()
    }
}

fn swap_team(x: &Team, from: &Team, to: &Team) -> (r: Team)
    ensures
        r@ == swap_name(x@, from@, to@),
{
    if *x == *from {
        to.duplicate()
    } else {
        x.duplicate()
    }
}

fn swap_student(x: &Student, from: &Student, to: &Student) -> (r: Student)
    ensures
        r@ == swap_name(x@, from@, to@),
{
    if *x == *from {
        to.duplicate()
    } else {
        x.duplicate()
    }
}

pub proof fn lemma_holds_allocated(p: PairingModel, x: Name)
    ensures
        p.holds(x) <==> p.allocated().contains(x),
{
    match p {
        PairingModel::Pair { primary, secondary, .. } => {
            if x == primary {
                assert(p.allocated()[0] == x);
            } else if x == secondary {
                assert(p.allocated()[1] == x);
            }
        },
        _ => {
            if p.holds(x) {
                assert(p.allocated()[0] == x);
            }
        },
    }
}

impl Pairing {
    pub fn with_section(&self, from: &Section, to: &Section) -> (r: Pairing)
        ensures
            r@ == self@.with_section(from@, to@),
    {
        match self {
            Pairing::Pair { section, team, primary, secondary } => Pairing::Pair {
                section: swap_section(section, from, to),
                team: team.duplicate(),
                primary: primary.duplicate(),
                secondary: secondary.duplicate(),
            },
            Pairing::Solo { section, team, student } => Pairing::Solo {
                section: swap_section(section, from, to),
                team: team.duplicate(),
                student: student.duplicate(),
            },
            Pairing::Unassigned { section, student } => Pairing::Unassigned {
                section: swap_section(section, from, to),
                student: student.duplicate(),
            },
            Pairing::Absent(s) => Pairing::Absent(s.duplicate()),
        }
    }

    pub fn with_team(&self, from: &Team, to: &Team) -> (r: Pairing)
        ensures
            r@ == self@.with_team(from@, to@),
    {
        match self {
            Pairing::Pair { section, team, primary, secondary } => Pairing::Pair {
                section: section.duplicate(),
                team: swap_team(team, from, to),
                primary: primary.duplicate(),
                secondary: secondary.duplicate(),
            },
            Pairing::Solo { section, team, student } => Pairing::Solo {
                section: section.duplicate(),
                team: swap_team(team, from, to),
                student: student.duplicate(),
            },
            _ => self.duplicate(),
        }
    }

    pub fn with_student(&self, from: &Student, to: &Student) -> (r: Pairing)
        ensures
            r@ == self@.with_student(from@, to@),
    {
        match self {
            Pairing::Pair { section, team, primary, secondary } => Pairing::Pair {
                section: section.duplicate(),
                team: team.duplicate(),
                primary: swap_student(primary, from, to),
                secondary: swap_student(secondary, from, to),
            },
            Pairing::Solo { section, team, student } => Pairing::Solo {
                section: section.duplicate(),
                team: team.duplicate(),
                student: swap_student(student, from, to),
            },
            Pairing::Unassigned { section, student } => Pairing::Unassigned {
                section: section.duplicate(),
                student: swap_student(student, from, to),
            },
            Pairing::Absent(s) => Pairing::Absent(swap_student(s, from, to)),
        }
    }

    pub fn duplicate(&self) -> (r: Pairing)
        ensures
            r == *self,
    {
        match self {
            Pairing::Pair { section, team, primary, secondary } => Pairing::Pair {
                section: section.duplicate(),
                team: team.duplicate(),
                primary: primary.duplicate(),
                secondary: secondary.duplicate(),
            },
            Pairing::Solo { section, team, student } => Pairing::Solo {
                section: section.duplicate(),
                team: team.duplicate(),
                student: student.duplicate(),
            },
            Pairing::Unassigned { section, student } => Pairing::Unassigned {
                section: section.duplicate(),
                student: student.duplicate(),
            },
            Pairing::Absent(s) => Pairing::Absent(s.duplicate()),
        }
    }

    pub fn full_pair(&self) -> (r: bool)
        ensures
            r == (self@ is Pair),
    {
        match self {
            Pairing::Pair { .. } => true,
            _ => false,
        }
    }

    pub fn assigned_students(&self) -> (r: Vec<Student>)
        ensures
            names_of(r@) == self@.assigned(),
    {
        let r = match self {
            Pairing::Solo { student, .. } => vec![student.duplicate()],
            Pairing::Pair { primary, secondary, .. } => vec![secondary.duplicate(), primary.duplicate()],
            _ => Vec::new(),
        };
        assert(names_of(r@) =~= self@.assigned());
        r
    }

    pub fn present_students(&self) -> (r: Vec<Student>)
        ensures
            names_of(r@) == self@.present(),
    {
        let r = match self {
            Pairing::Solo { student, .. } => vec![student.duplicate()],
            Pairing::Unassigned { student, .. } => vec![student.duplicate()],
            Pairing::Pair { primary, secondary, .. } => vec![secondary.duplicate(), primary.duplicate()],
            Pairing::Absent(_) => Vec::new(),
        };
        assert(names_of(r@) =~= self@.present());
        r
    }

    pub fn allocated_students(&self) -> (r: Vec<Student>)
        ensures
            names_of(r@) == self@.allocated(),
    {
        let r = match self {
            Pairing::Solo { student, .. } => vec![student.duplicate()],
            Pairing::Unassigned { student, .. } => vec![student.duplicate()],
            Pairing::Pair { primary, secondary, .. } => vec![primary.duplicate(), secondary.duplicate()],
            Pairing::Absent(student) => vec![student.duplicate()],
        };
        assert(names_of(r@) =~= self@.allocated());
        r
    }

    /// Whether the record speaks of `s`.
    pub fn has(&self, s: &Student) -> (r: bool)
        ensures
            r == self@.holds(s@),
    {
        match self {
            Pairing::Pair { primary, secondary, .. } => *primary == *s || *secondary == *s,
            Pairing::Solo { student, .. } => *student == *s,
            Pairing::Unassigned { student, .. } => *student == *s,
            Pairing::Absent(student) => *student == *s,
        }
    }

    pub fn section(&self) -> (r: Option<Section>)
        ensures
            r matches Some(x) ==> self@.section_of() == Some(x@),
            r is None <==> self@.section_of() is None,
    {
        match self {
            Pairing::Pair { section, .. } => Some(section.duplicate()),
            Pairing::Solo { section, .. } => Some(section.duplicate()),
            Pairing::Unassigned { section, .. } => Some(section.duplicate()),
            Pairing::Absent(_) => None,
        }
    }

    pub fn team(&self) -> (r: Option<Team>)
        ensures
            r matches Some(x) ==> self@.team_of() == Some(x@),
            r is None <==> self@.team_of() is None,
    {
        match self {
            Pairing::Pair { team, .. } => Some(team.duplicate()),
            Pairing::Solo { team, .. } => Some(team.duplicate()),
            _ => None,
        }
    }

    /// Whether `s` is among the record's present students.
    pub fn present_has(&self, s: &Student) -> (r: bool)
        ensures
            r == self@.present_holds(s@),
    {
        match self {
            Pairing::Absent(_) => false,
            _ => self.has(s),
        }
    }

    /// Whether the record belongs to section `sec`.
    pub fn in_section(&self, sec: &Section) -> (r: bool)
        ensures
            r == (self@.section_of() == Some(sec@)),
    {
        match self {
            Pairing::Pair { section, .. } => *section == *sec,
            Pairing::Solo { section, .. } => *section == *sec,
            Pairing::Unassigned { section, .. } => *section == *sec,
            Pairing::Absent(_) => false,
        }
    }

    /// Whether the record occupies team `t`.
    pub fn on_team(&self, t: &Team) -> (r: bool)
        ensures
            r == (self@.team_of() == Some(t@)),
    {
        match self {
            Pairing::Pair { team, .. } => *team == *t,
            Pairing::Solo { team, .. } => *team == *t,
            _ => false,
        }
    }
}

} // verus!
