use vstd::prelude::*;
use crate::names::{Day, Name, Section, Student, Team};
use crate::pairing::{Pairing};

verus! {

/// A value told apart from others of its type by its name.
pub trait Named: Sized {
    spec fn label(&self) -> Name;

    fn text(&self) -> (r: &String)
        ensures
            r@ == self.label(),
    ;
}

impl Named for Student {
    open spec fn label(&self) -> Name {
        self@
    }

    fn text(&self) -> (r: &String) {
        &self.name
    }
}

impl Named for Section {
    open spec fn label(&self) -> Name {
        self@
    }

    fn text(&self) -> (r: &String) {
        &self.name
    }
}

impl Named for Team {
    open spec fn label(&self) -> Name {
        self@
    }

    fn text(&self) -> (r: &String) {
        &self.name
    }
}

/// The texts of a list of strings.
pub open spec fn texts(v: Seq<String>) -> Seq<Seq<char>> {
    v.map_values(|s: String| s@)
}

/// The choices offered for one slot: what is there now, and each
/// possibility with its tags.
pub struct Choices<T> {
    pub current: Option<T>,
    /// A list of possible choices as well as their tags.
    pub possibilities: Vec<(T, Vec<String>)>,
    pub choice_name: String,
    /// Tags to apply to the entire select (i.e. regarding the current).
    pub tags: Vec<String>,
}

/// Index `k` holds the first possibility named like the current choice.
pub open spec fn first_match<T: Named>(c: &Choices<T>, k: int) -> bool {
    &&& c.current is Some
    &&& 0 <= k < c.possibilities@.len()
    &&& c.possibilities@[k].0.label() == c.current->0.label()
    &&& forall|j: int| 0 <= j < k ==> (#[trigger] c.possibilities@[j]).0.label() != c.current->0.label()
}

/// No possibility is named like the current choice, or there is none.
pub open spec fn no_match<T: Named>(c: &Choices<T>) -> bool {
    c.current is None || forall|j: int| 0 <= j < c.possibilities@.len() ==> (#[trigger] c.possibilities@[j]).0.label() != c.current->0.label()
}

fn copy_strings(v: &Vec<String>, out: &mut Vec<String>)
    ensures
        final(out)@ == old(out)@ + v@,
{
    let mut i: usize = 0;
    while i < v.len()
        invariant
            i <= v@.len(),
            out@ == old(out)@ + v@.take(i as int),
        decreases v@.len() - i,
    {
        out.push(v[i].clone());
        assert(out@ =~= old(out)@ + v@.take(i + 1));
        i = i + 1;
    }
    assert(v@.take(i as int) =~= v@);
}

impl<T: Named> Choices<T> {
    /// Adds to the choices' own tags those of the possibility that is the
    /// current choice.
    pub fn normalize(self) -> (r: Self)
        ensures
            r.current == self.current,
            r.possibilities == self.possibilities,
            r.choice_name == self.choice_name,
            forall|k: int| first_match(&self, k) ==> r.tags@ == self.tags@ + self.possibilities@[k].1@,
            no_match(&self) ==> r.tags@ == self.tags@,
    {
        let mut c = self;
        let mut found: Option<usize> = None;
        match &c.current {
            Some(cur) => {
                let mut i: usize = 0;
                while i < c.possibilities.len()
                    invariant_except_break
                        found is None,
                    invariant
                        i <= c.possibilities@.len(),
                        c == self,
                        c.current == Some(*cur),
                        forall|j: int| 0 <= j < i ==> (#[trigger] c.possibilities@[j]).0.label() != cur.label(),
                    ensures
                        found matches Some(k) ==> first_match(&c, k as int),
                        found is None ==> no_match(&c),
                    decreases c.possibilities@.len() - i,
                {
                    if *c.possibilities[i].0.text() == *cur.text() {
                        found = Some(i);
                        break;
                    }
                    i = i + 1;
                }
            },
            None => {},
        }
        match found {
            Some(k) => {
                let mut extra: Vec<String> = Vec::new();
                copy_strings(&c.possibilities[k].1, &mut extra);
                assert(extra@ =~= self.possibilities@[k as int].1@);
                let ghost before = c.tags@;
                let mut i: usize = 0;
                while i < extra.len()
                    invariant
                        i <= extra@.len(),
                        c.tags@ == before + extra@.take(i as int),
                        before == self.tags@,
                        c.current == self.current,
                        c.possibilities == self.possibilities,
                        c.choice_name == self.choice_name,
                    decreases extra@.len() - i,
                {
                    c.tags.push(extra[i].clone());
                    assert(c.tags@ =~= before + extra@.take(i + 1));
                    i = i + 1;
                }
                assert(extra@.take(i as int) =~= extra@);
            },
            None => {},
        }
        c
    }

    /// Whether `x` is the current choice.
    pub fn is_current(&self, x: T) -> (r: bool)
        ensures
            r == (self.current matches Some(c) && c.label() == x.label()),
    {
        match &self.current {
            Some(c) => *c.text() == *x.text(),
            None => false,
        }
    }

    /// The name of the current choice, or "-" where there is none.
    pub fn current_string(&self) -> (r: String)
        ensures
            self.current matches Some(c) ==> r@ == c.label(),
            self.current is None ==> r@ == "-"@,
    {
        match &self.current {
            Some(c) => c.text().clone(),
            None => "-".to_owned(),
        }
    }
}

/// What may become of one student on a day.
pub struct StudentOptions {
    pub day: Day,
    pub student: Student,
    pub current_pairing: Option<Pairing>,
    pub possible_teams: Vec<Team>,
    pub default_section: Section,
    pub previous_team: Option<Team>,
    pub possible_sections: Vec<Section>,
}

impl StudentOptions {
    /// The section the student is in that day: that of their record, none
    /// where absent, and their default section where they have no record.
    pub open spec fn current_section_of(&self) -> Option<Name> {
        match self.current_pairing {
            None => Some(self.default_section@),
            Some(p) => p@.section_of(),
        }
    }

    pub open spec fn current_team_of(&self) -> Option<Name> {
        match self.current_pairing {
            None => None,
            Some(p) => p@.team_of(),
        }
    }

    pub fn is_current_team(&self, t: &Team) -> (r: bool)
        ensures
            r == (self.current_team_of() == Some(t@)),
    {
        match &self.current_pairing {
            None => false,
            Some(p) => p.on_team(t),
        }
    }

    pub fn is_current_section(&self, s: &Section) -> (r: bool)
        ensures
            r == (self.current_section_of() == Some(s@)),
    {
        match self.current_section() {
            Some(c) => c == *s,
            None => false,
        }
    }

    pub fn is_previous_team(&self, t: &Team) -> (r: bool)
        ensures
            r == (self.previous_team matches Some(p) && p@ == t@),
    {
        match &self.previous_team {
            Some(p) => *p == *t,
            None => false,
        }
    }

    /// Whether the student is on yesterday's team again.
    pub fn is_repeating_team(&self) -> (r: bool)
        ensures
            r == (self.previous_team matches Some(p) && self.current_team_of() == Some(p@)),
    {
        match &self.previous_team {
            Some(t) => self.is_current_team(t),
            None => false,
        }
    }

    pub fn current_section(&self) -> (r: Option<Section>)
        ensures
            r matches Some(s) ==> self.current_section_of() == Some(s@),
            r is None <==> self.current_section_of() is None,
    {
        match &self.current_pairing {
            None => Some(self.default_section.duplicate()),
            Some(p) => p.section(),
        }
    }

    /// "reuser" where the student is on yesterday's team again.
    pub fn tags(&self) -> (r: Vec<String>)
        ensures
            texts(r@) == (if self.previous_team matches Some(p) && self.current_team_of() == Some(p@) {
                seq!["reuser"@]
            } else {
                Seq::empty()
            }),
    {
        let mut tags: Vec<String> = Vec::new();
        if self.is_repeating_team() {
            tags.push("reuser".to_owned());
        }
        assert(texts(tags@) =~= (if self.previous_team matches Some(p) && self.current_team_of() == Some(p@) {
            seq!["reuser"@]
        } else {
            Seq::empty()
        }));
        tags
    }
}

/// The choices offered for one team on a day.
pub struct TeamOptions {
    pub day: Day,
    pub team: Team,
    pub section: Section,
    pub primary: Choices<Student>,
    pub secondary: Choices<Student>,
    pub current_pairing: Pairing,
}

} // verus!
