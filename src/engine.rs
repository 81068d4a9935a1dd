use vstd::prelude::*;
use crate::names::{Day, Name, Student};
use crate::pairing::{PairingModel, names_of};
use crate::roster::{Data, day_ok, lemma_insert_ok};

verus! {

/// `a` and `b` were never present in one record on a day before day `d`.
pub open spec fn nonrepeat(days: Seq<Set<PairingModel>>, d: int, a: Name, b: Name) -> bool {
    forall|k: int, p: PairingModel|
        #![trigger days[k].contains(p), p.present_holds(a), p.present_holds(b)]
        0 <= k < d && days[k].contains(p) ==> !(p.present_holds(a) && p.present_holds(b))
}

/// Where the partner of `s` is taken from among `opts`: the first one who
/// was never with `s` before day `d`, or else the last one.
pub open spec fn partner_index(days: Seq<Set<PairingModel>>, d: int, s: Name, opts: Seq<Name>) -> int
    decreases opts.len(),
{
    if opts.len() <= 1 {
        0
    } else if nonrepeat(days, d, s, opts[0]) {
        0
    } else {
        1 + partner_index(days, d, s, opts.drop_first())
    }
}

pub proof fn lemma_partner_index(days: Seq<Set<PairingModel>>, d: int, s: Name, opts: Seq<Name>)
    requires
        opts.len() > 0,
    ensures
        0 <= partner_index(days, d, s, opts) < opts.len(),
        ({
            let k = partner_index(days, d, s, opts);
            ||| nonrepeat(days, d, s, opts[k]) && forall|j: int|
                0 <= j < k ==> !nonrepeat(days, d, s, #[trigger] opts[j])
            ||| k == opts.len() - 1 && forall|j: int|
                0 <= j < opts.len() ==> !nonrepeat(days, d, s, #[trigger] opts[j])
        }),
    decreases opts.len(),
{
    if opts.len() > 1 && !nonrepeat(days, d, s, opts[0]) {
        let rest = opts.drop_first();
        lemma_partner_index(days, d, s, rest);
        assert forall|j: int| 1 <= j < opts.len() implies opts[j] == rest[j - 1] by {}
        let k = partner_index(days, d, s, opts);
        if nonrepeat(days, d, s, opts[k]) {
            assert forall|j: int| 0 <= j < k implies !nonrepeat(days, d, s, #[trigger] opts[j]) by {
                if j > 0 {
                    assert(opts[j] == rest[j - 1]);
                }
            }
        } else {
            assert forall|j: int| 0 <= j < opts.len() implies !nonrepeat(days, d, s, #[trigger] opts[j]) by {
                if j > 0 {
                    assert(opts[j] == rest[j - 1]);
                }
            }
        }
    }
}

/// The partner taken for `s` from a pool that holds someone `s` was never
/// with is someone `s` was never with.
pub proof fn lemma_partner_prefers_fresh(
    days: Seq<Set<PairingModel>>,
    d: int,
    s: Name,
    opts: Seq<Name>,
    j: int,
)
    requires
        0 <= j < opts.len(),
        nonrepeat(days, d, s, opts[j]),
    ensures
        nonrepeat(days, d, s, opts[partner_index(days, d, s, opts)]),
{
    lemma_partner_index(days, d, s, opts);
}

/// `s` without any entry `x`.
pub open spec fn drop_all(s: Seq<Name>, x: Name) -> Seq<Name> {
    s.filter(|y: Name| y != x)
}

proof fn lemma_filter_keeps_all(s: Seq<Name>, x: Name)
    requires
        !s.contains(x),
    ensures
        drop_all(s, x) == s,
    decreases s.len(),
{
    reveal(Seq::filter);
    if s.len() > 0 {
        assert(!s.drop_last().contains(x)) by {
            if s.drop_last().contains(x) {
                let i = choose|i: int| 0 <= i < s.len() - 1 && s.drop_last()[i] == x;
                assert(s[i] == x);
            }
        }
        lemma_filter_keeps_all(s.drop_last(), x);
        assert(s.drop_last().push(s.last()) =~= s);
    }
}

/// In a pool without repeats, taking out every entry equal to the one at
/// `k` takes out that one alone.
pub proof fn lemma_drop_all_unique(s: Seq<Name>, k: int)
    requires
        s.no_duplicates(),
        0 <= k < s.len(),
    ensures
        drop_all(s, s[k]) == s.remove(k),
    decreases s.len(),
{
    reveal(Seq::filter);
    let pre = s.drop_last();
    if k == s.len() - 1 {
        assert(!pre.contains(s[k])) by {
            if pre.contains(s[k]) {
                let i = choose|i: int| 0 <= i < pre.len() && pre[i] == s[k];
                assert(s[i] == s[k]);
            }
        }
        lemma_filter_keeps_all(pre, s[k]);
        assert(s.remove(k) =~= pre);
    } else {
        assert(pre.no_duplicates());
        assert(pre[k] == s[k]);
        lemma_drop_all_unique(pre, k);
        assert(s.last() != s[k]);
        assert(pre.remove(k).push(s.last()) =~= s.remove(k));
    }
}

/// The records made by dealing `students`, taken from the back, onto
/// `teams`, taken from the front, in section `sec` on day `d`: each student
/// taken gets a partner from the rest, and one left over with a team to
/// spare is alone on it.
pub open spec fn deal(
    days: Seq<Set<PairingModel>>,
    d: int,
    sec: Name,
    students: Seq<Name>,
    teams: Seq<Name>,
) -> Set<PairingModel>
    decreases students.len(),
{
    if students.len() > 1 && teams.len() > 0 {
        let primary = students.last();
        let pool = students.drop_last();
        let k = partner_index(days, d, primary, pool);
        if 0 <= k < pool.len() {
            deal(days, d, sec, pool.remove(k), teams.drop_first()).insert(
                PairingModel::Pair { section: sec, team: teams[0], primary, secondary: pool[k] },
            )
        } else {
            Set::empty()
        }
    } else if students.len() == 1 && teams.len() > 0 {
        set![PairingModel::Solo { section: sec, team: teams[0], student: students[0] }]
    } else {
        Set::empty()
    }
}

pub proof fn lemma_remove_no_dup(s: Seq<Name>, k: int)
    requires
        s.no_duplicates(),
        0 <= k < s.len(),
    ensures
        s.remove(k).no_duplicates(),
        forall|x: Name| #[trigger] s.remove(k).contains(x) <==> (s.contains(x) && x != s[k]),
{
    let r = s.remove(k);
    assert forall|i: int| 0 <= i < r.len() implies r[i] == (if i < k { s[i] } else { s[i + 1] }) by {}
    assert forall|x: Name| #[trigger] r.contains(x) <==> (s.contains(x) && x != s[k]) by {
        if s.contains(x) && x != s[k] {
            let i = choose|i: int| 0 <= i < s.len() && s[i] == x;
            if i < k {
                assert(r[i] == x);
            } else {
                assert(r[i - 1] == x);
            }
        }
    }
}

pub proof fn lemma_deal(
    days: Seq<Set<PairingModel>>,
    d: int,
    sec: Name,
    students: Seq<Name>,
    teams: Seq<Name>,
)
    requires
        students.no_duplicates(),
        teams.no_duplicates(),
    ensures
        day_ok(deal(days, d, sec, students, teams)),
        deal(days, d, sec, students, teams).finite(),
        forall|p: PairingModel, x: Name|
            #![trigger deal(days, d, sec, students, teams).contains(p), p.holds(x)]
            deal(days, d, sec, students, teams).contains(p) && p.holds(x) ==> students.contains(x),
        forall|p: PairingModel| #[trigger]
            deal(days, d, sec, students, teams).contains(p) ==> (p is Pair || p is Solo)
                && p.section_of() == Some(sec) && teams.contains(p.team_of()->0),
    decreases students.len(),
{
    if students.len() > 1 && teams.len() > 0 {
        let primary = students.last();
        let pool = students.drop_last();
        lemma_partner_index(days, d, primary, pool);
        let k = partner_index(days, d, primary, pool);
        let rest_s = pool.remove(k);
        let rest_t = teams.drop_first();
        assert(pool.no_duplicates());
        lemma_remove_no_dup(pool, k);
        assert(rest_t.no_duplicates());
        lemma_deal(days, d, sec, rest_s, rest_t);
        let rest = deal(days, d, sec, rest_s, rest_t);
        let n = PairingModel::Pair { section: sec, team: teams[0], primary, secondary: pool[k] };
        assert(pool[k] == students[k]);
        assert(!pool.contains(primary)) by {
            if pool.contains(primary) {
                let i = choose|i: int| 0 <= i < pool.len() && pool[i] == primary;
                assert(students[i] == students[students.len() - 1]);
            }
        }
        assert forall|q: PairingModel, x: Name| #![trigger rest.contains(q), q.holds(x)]
            rest.contains(q) && n.holds(x) implies !q.holds(x) by {
            if q.holds(x) {
                assert(rest_s.contains(x));
            }
        }
        assert forall|q: PairingModel| #[trigger] rest.contains(q) implies q.team_of() != n.team_of() by {
            if q.team_of() == n.team_of() {
                assert(rest_t.contains(teams[0]));
                let i = choose|i: int| 0 <= i < rest_t.len() && rest_t[i] == teams[0];
                assert(teams[i + 1] == teams[0]);
            }
        }
        lemma_insert_ok(rest, n);
        assert forall|p: PairingModel, x: Name|
            #![trigger deal(days, d, sec, students, teams).contains(p), p.holds(x)]
            deal(days, d, sec, students, teams).contains(p) && p.holds(x) implies students.contains(x) by {
            if p == n {
                if x == primary {
                    assert(students[students.len() - 1] == x);
                } else {
                    assert(students[k] == x);
                }
            } else {
                assert(rest_s.contains(x));
                let i = choose|i: int| 0 <= i < pool.len() && pool[i] == x;
                assert(students[i] == x);
            }
        }
        assert forall|p: PairingModel| #[trigger] deal(days, d, sec, students, teams).contains(p) implies (p is Pair || p is Solo)
            && p.section_of() == Some(sec) && teams.contains(p.team_of()->0) by {
            if p == n {
                assert(teams[0] == p.team_of()->0);
            } else {
                let t = p.team_of()->0;
                let i = choose|i: int| 0 <= i < rest_t.len() && rest_t[i] == t;
                assert(teams[i + 1] == t);
            }
        }
    } else if students.len() == 1 && teams.len() > 0 {
        let n = PairingModel::Solo { section: sec, team: teams[0], student: students[0] };
        lemma_insert_ok(Set::empty(), n);
        assert(set![n] == Set::<PairingModel>::empty().insert(n));
        assert forall|p: PairingModel| #[trigger] deal(days, d, sec, students, teams).contains(p) implies (p is Pair || p is Solo)
            && p.section_of() == Some(sec) && teams.contains(p.team_of()->0) by {
            assert(teams[0] == p.team_of()->0);
        }
        assert forall|p: PairingModel, x: Name|
            #![trigger deal(days, d, sec, students, teams).contains(p), p.holds(x)]
            deal(days, d, sec, students, teams).contains(p) && p.holds(x) implies students.contains(x) by {
            assert(students[0] == x);
        }
    }
}

impl Data {
    /// Whether `s1` and `s2` were never present in one record on a day
    /// before `day`.
    pub fn nonrepeat_partners_for_day(&self, day: &Day, s1: &Student, s2: &Student) -> (r: bool)
        requires
            day.id <= self@.days.len(),
        ensures
            r == nonrepeat(self@.days, day.id as int, s1@, s2@),
    {
        let mut d: usize = 0;
        while d < day.id
            invariant
                d <= day.id <= self@.days.len(),
                nonrepeat(self@.days, d as int, s1@, s2@),
            decreases day.id - d,
        {
            let ps = &self.days[d];
            let mut i: usize = 0;
            assert(self@.days[d as int] == crate::roster::set_of(ps@));
            while i < ps.len()
                invariant
                    d < day.id <= self@.days.len(),
                    ps == self.days@[d as int],
                    self@.days[d as int] == crate::roster::set_of(ps@),
                    i <= ps.len(),
                    nonrepeat(self@.days, d as int, s1@, s2@),
                    forall|k: int| 0 <= k < i ==> !((#[trigger] ps@[k]@).present_holds(s1@) && ps@[k]@.present_holds(s2@)),
                decreases ps.len() - i,
            {
                if ps[i].present_has(s1) && ps[i].present_has(s2) {
                    proof {
                        crate::roster::lemma_set_of_index(ps@, i as int);
                    }
                    return false;
                }
                i = i + 1;
            }
            assert forall|k: int, p: PairingModel|
                #![trigger self@.days[k].contains(p), p.present_holds(s1@), p.present_holds(s2@)]
                0 <= k < d + 1 && self@.days[k].contains(p) implies !(p.present_holds(s1@) && p.present_holds(s2@)) by {
                if k == d {
                    let j = choose|j: int| 0 <= j < ps.len() && crate::pairing::models_of(ps@)[j] == p;
                    assert(ps@[j]@ == p);
                }
            }
            d = d + 1;
        }
        true
    }

    /// Takes the partner of `s1` out of `options`: the first one who was
    /// never with `s1` before `day`, with every other entry of that student;
    /// or else the last entry alone.
    pub fn pick_partner_from(&self, day: &Day, s1: &Student, options: &mut Vec<Student>) -> (r:
        Option<Student>)
        requires
            day.id <= self@.days.len(),
            old(options)@.len() > 0,
        ensures
            ({
                let k = partner_index(self@.days, day.id as int, s1@, names_of(old(options)@));
                &&& 0 <= k < old(options)@.len()
                &&& r == Some(old(options)@[k])
                &&& nonrepeat(self@.days, day.id as int, s1@, old(options)@[k]@) ==> names_of(final(options)@)
                    == drop_all(names_of(old(options)@), old(options)@[k]@)
                &&& !nonrepeat(self@.days, day.id as int, s1@, old(options)@[k]@) ==> k == old(options)@.len() - 1
                    && final(options)@ == old(options)@.drop_last()
            }),
            forall|j: int|
                0 <= j < old(options)@.len() && nonrepeat(
                    self@.days,
                    day.id as int,
                    s1@,
                    #[trigger] old(options)@[j]@,
                ) ==> (r matches Some(x) && nonrepeat(self@.days, day.id as int, s1@, x@)),
    {
        let n = options.len();
        let ghost names = names_of(options@);
        proof {
            lemma_partner_index(self@.days, day.id as int, s1@, names);
        }
        let mut i: usize = 0;
        let mut k: usize = n - 1;
        while i < n
            invariant
                n == options@.len(),
                names == names_of(options@),
                day.id <= self@.days.len(),
                i <= n,
                k == n - 1,
                forall|j: int| 0 <= j < i ==> !nonrepeat(self@.days, day.id as int, s1@, #[trigger] names[j]),
            ensures
                i <= n,
                i < n ==> nonrepeat(self@.days, day.id as int, s1@, names[i as int]),
                forall|j: int| 0 <= j < i ==> !nonrepeat(self@.days, day.id as int, s1@, #[trigger] names[j]),
            decreases n - i,
        {
            if self.nonrepeat_partners_for_day(day, s1, &options[i]) {
                break;
            }
            i = i + 1;
        }
        if i < n {
            k = i;
        }
        proof {
            let pk = partner_index(self@.days, day.id as int, s1@, names);
            if i < n {
                assert(nonrepeat(self@.days, day.id as int, s1@, names[i as int]));
                if pk < i {
                    assert(!nonrepeat(self@.days, day.id as int, s1@, names[pk]));
                }
                if pk > i {
                    assert(!nonrepeat(self@.days, day.id as int, s1@, names[i as int]));
                }
            }
            assert(pk == k);
            assert forall|j: int| 0 <= j < n implies names[j] == (#[trigger] options@[j])@ by {}
        }
        if i == n {
            // no one is new to `s1`: the last one is taken, and only that one
            assert(!nonrepeat(self@.days, day.id as int, s1@, names[k as int]));
            return options.pop();
        }
        let chosen = options[k].duplicate();
        let ghost pred = |y: Name| y != chosen@;
        let mut rest: Vec<Student> = Vec::new();
        let mut j: usize = 0;
        proof {
            reveal(Seq::filter);
            assert(names.take(0) =~= Seq::<Name>::empty());
            assert(names_of(rest@) =~= names.take(0).filter(pred));
        }
        while j < n
            invariant
                n == options@.len(),
                names == names_of(options@),
                j <= n,
                pred == (|y: Name| y != chosen@),
                names_of(rest@) == names.take(j as int).filter(pred),
            decreases n - j,
        {
            proof {
                assert(names.take(j + 1) =~= names.take(j as int).push(names[j as int]));
                crate::roster::lemma_filter_push(names.take(j as int), names[j as int], pred);
            }
            if !(options[j] == chosen) {
                let ghost before = names_of(rest@);
                rest.push(options[j].duplicate());
                assert(names_of(rest@) =~= before.push(names[j as int]));
            }
            j = j + 1;
        }
        assert(names.take(n as int) =~= names);
        *options = rest;
        Some(chosen)
    }
}

} // verus!
