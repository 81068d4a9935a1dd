use vstd::prelude::*;
use crate::names::{Day, Name, Student, strictly_sorted, text_lt};
use crate::pairing::{Pairing, PairingModel, names_of};
use crate::roster::{Data, RosterModel, day_ok, set_of, keys_of, find_holder, lemma_set_of_index, lemma_filter_push};

verus! {

/// Whether record `p` gives `s` a place on a team.
pub open spec fn places(p: PairingModel, s: Name) -> bool {
    (p is Pair || p is Solo) && p.holds(s)
}

/// The roster students, in order, marked absent on day `d`.
pub open spec fn absent_on(r: RosterModel, d: int) -> Seq<Name> {
    keys_of(r.students.filter(|e: (Name, Name)| r.days[d].contains(PairingModel::Absent(e.0))))
}

/// The roster students, in order, who have no place on a team on day `d`.
pub open spec fn unplaced_on(r: RosterModel, d: int) -> Seq<Name> {
    keys_of(
        r.students.filter(
            |e: (Name, Name)| !exists|p: PairingModel| #[trigger] r.days[d].contains(p) && places(p, e.0),
        ),
    )
}

pub proof fn lemma_filter_sorted(s: Seq<(Name, Name)>, pred: spec_fn((Name, Name)) -> bool)
    requires
        strictly_sorted(keys_of(s)),
    ensures
        strictly_sorted(keys_of(s.filter(pred))),
        forall|x: (Name, Name)| #[trigger] s.filter(pred).contains(x) ==> s.contains(x),
    decreases s.len(),
{
    reveal(Seq::filter);
    if s.len() > 0 {
        let pre = s.drop_last();
        assert(keys_of(pre) =~= keys_of(s).drop_last());
        lemma_filter_sorted(pre, pred);
        let fp = pre.filter(pred);
        assert forall|x: (Name, Name)| #[trigger] fp.contains(x) implies text_lt(x.0, s.last().0) by {
            let m = choose|m: int| 0 <= m < pre.len() && pre[m] == x;
            assert(keys_of(s)[m] == x.0);
            assert(keys_of(s)[s.len() - 1] == s.last().0);
        }
        if pred(s.last()) {
            let f = fp.push(s.last());
            assert forall|i: int, j: int| 0 <= i < j < keys_of(f).len() implies text_lt(#[trigger] keys_of(f)[i], #[trigger] keys_of(f)[j]) by {
                if j == f.len() - 1 {
                    assert(fp.contains(f[i]));
                } else {
                    assert(keys_of(fp)[i] == keys_of(f)[i]);
                    assert(keys_of(fp)[j] == keys_of(f)[j]);
                }
            }
            assert forall|x: (Name, Name)| #[trigger] f.contains(x) implies s.contains(x) by {
                if x != s.last() {
                    assert(fp.contains(x));
                    assert(pre.contains(x));
                    let m = choose|m: int| 0 <= m < pre.len() && pre[m] == x;
                    assert(s[m] == x);
                } else {
                    assert(s[s.len() - 1] == x);
                }
            }
        } else {
            assert forall|x: (Name, Name)| #[trigger] fp.contains(x) implies s.contains(x) by {
                assert(pre.contains(x));
                let m = choose|m: int| 0 <= m < pre.len() && pre[m] == x;
                assert(s[m] == x);
            }
        }
    }
}

pub proof fn lemma_unplaced_sorted(r: RosterModel, d: int)
    requires
        r.wf(),
    ensures
        strictly_sorted(unplaced_on(r, d)),
{
    lemma_filter_sorted(
        r.students,
        |e: (Name, Name)| !exists|p: PairingModel| #[trigger] r.days[d].contains(p) && places(p, e.0),
    );
}

pub proof fn lemma_unplaced_member(r: RosterModel, d: int, x: Name)
    requires
        0 <= d < r.days.len(),
        unplaced_on(r, d).contains(x),
    ensures
        forall|p: PairingModel| #[trigger] r.days[d].contains(p) ==> !places(p, x),
{
    let pred = |e: (Name, Name)| !exists|p: PairingModel| #[trigger] r.days[d].contains(p) && places(p, e.0);
    let f = r.students.filter(pred);
    let i = choose|i: int| 0 <= i < keys_of(f).len() && keys_of(f)[i] == x;
    r.students.lemma_filter_pred(pred, i);
    assert(f[i].0 == x);
}

impl Data {
    /// Whether `s` is marked absent on day `d`, and whether some record of
    /// the day gives them a place on a team.
    fn standing(&self, d: usize, s: &Student) -> (r: (bool, bool))
        requires
            self.wf(),
            d < self@.days.len(),
        ensures
            r.0 == self@.days[d as int].contains(PairingModel::Absent(s@)),
            r.1 == exists|p: PairingModel| #[trigger] self@.days[d as int].contains(p) && places(p, s@),
    {
        let ps = &self.days[d];
        let ghost day_set = self@.days[d as int];
        assert(day_set == set_of(ps@));
        assert(day_ok(day_set));
        match find_holder(ps, s) {
            Some(j) => {
                proof {
                    lemma_set_of_index(ps@, j as int);
                    if day_set.contains(PairingModel::Absent(s@)) {
                        assert(PairingModel::Absent(s@).holds(s@));
                    }
                }
                let absent = match &ps[j] {
                    Pairing::Absent(_) => true,
                    _ => false,
                };
                let placed = match &ps[j] {
                    Pairing::Pair { .. } => true,
                    Pairing::Solo { .. } => true,
                    _ => false,
                };
                proof {
                    if !placed {
                        assert forall|p: PairingModel| #[trigger] day_set.contains(p) implies !places(p, s@) by {
                            if places(p, s@) {
                                assert(p == ps@[j as int]@);
                            }
                        }
                    }
                }
                (absent, placed)
            },
            None => {
                proof {
                    assert(!PairingModel::Absent(s@).holds(s@) || !day_set.contains(PairingModel::Absent(s@)));
                }
                (false, false)
            },
        }
    }

    /// The roster students, in order, marked absent on `day`; none for a
    /// day the roster does not have yet.
    pub fn absent_students(&self, day: Day) -> (r: Vec<Student>)
        requires
            self.wf(),
        ensures
            day.id >= self@.days.len() ==> r@.len() == 0,
            day.id < self@.days.len() ==> names_of(r@) == absent_on(self@, day.id as int),
    {
        self.students_by_standing(day, true)
    }

    /// The roster students, in order, who have no place on a team on `day`
    /// (the absent ones among them); none for a day the roster does not
    /// have yet.
    pub fn unassigned_students(&self, day: Day) -> (r: Vec<Student>)
        requires
            self.wf(),
        ensures
            day.id >= self@.days.len() ==> r@.len() == 0,
            day.id < self@.days.len() ==> names_of(r@) == unplaced_on(self@, day.id as int),
    {
        self.students_by_standing(day, false)
    }

    fn students_by_standing(&self, day: Day, absent: bool) -> (r: Vec<Student>)
        requires
            self.wf(),
        ensures
            day.id >= self@.days.len() ==> r@.len() == 0,
            day.id < self@.days.len() && absent ==> names_of(r@) == absent_on(self@, day.id as int),
            day.id < self@.days.len() && !absent ==> names_of(r@) == unplaced_on(self@, day.id as int),
    {
        let mut out: Vec<Student> = Vec::new();
        if day.id >= self.days.len() {
            return out;
        }
        let d = day.id;
        let ghost r0 = self@;
        let ghost entries = r0.students;
        let ghost pred = if absent {
            |e: (Name, Name)| r0.days[d as int].contains(PairingModel::Absent(e.0))
        } else {
            |e: (Name, Name)| !exists|p: PairingModel| #[trigger] r0.days[d as int].contains(p) && places(p, e.0)
        };
        let mut i: usize = 0;
        proof {
            reveal(Seq::filter);
            assert(entries.take(0) =~= Seq::<(Name, Name)>::empty());
            assert(names_of(out@) =~= keys_of(entries.take(0).filter(pred)));
        }
        while i < self.student_sections.len()
            invariant
                i <= self.student_sections@.len(),
                d < self@.days.len(),
                r0 == self@,
                self.wf(),
                entries == r0.students,
                pred == (if absent {
                    |e: (Name, Name)| r0.days[d as int].contains(PairingModel::Absent(e.0))
                } else {
                    |e: (Name, Name)| !exists|p: PairingModel| #[trigger] r0.days[d as int].contains(p) && places(p, e.0)
                }),
                names_of(out@) == keys_of(entries.take(i as int).filter(pred)),
            decreases self.student_sections@.len() - i,
        {
            let st = &self.student_sections[i].0;
            let ghost e = entries[i as int];
            assert(e.0 == st@);
            let (is_absent, placed) = self.standing(d, st);
            let keep = if absent {
                is_absent
            } else {
                !placed
            };
            assert(keep == pred(e));
            proof {
                assert(entries.take(i + 1) =~= entries.take(i as int).push(e));
                lemma_filter_push(entries.take(i as int), e, pred);
            }
            if keep {
                let ghost old_out = names_of(out@);
                out.push(st.duplicate());
                proof {
                    assert(names_of(out@) =~= old_out.push(st@));
                    assert(keys_of(entries.take(i as int).filter(pred).push(e)) =~= keys_of(
                        entries.take(i as int).filter(pred),
                    ).push(e.0));
                }
            }
            i = i + 1;
        }
        assert(entries.take(self.student_sections@.len() as int) =~= entries);
        out
    }
}

} // verus!
