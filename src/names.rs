use vstd::prelude::*;
use vstd::string::*;

verus! {

/// The text of a name, as the model sees it.
pub type Name = Seq<char>;

/// Lexicographic order on names, by code point.
pub open spec fn text_lt(a: Name, b: Name) -> bool
    decreases a.len(),
{
    if b.len() == 0 {
        false
    } else if a.len() == 0 {
        true
    } else if a[0] != b[0] {
        a[0] < b[0]
    } else {
        text_lt(a.drop_first(), b.drop_first())
    }
}

pub proof fn lemma_text_lt_irreflexive(a: Name)
    ensures
        !text_lt(a, a),
    decreases a.len(),
{
    if a.len() > 0 {
        lemma_text_lt_irreflexive(a.drop_first());
    }
}

pub proof fn lemma_text_lt_total(a: Name, b: Name)
    ensures
        a != b ==> (text_lt(a, b) || text_lt(b, a)),
        !(text_lt(a, b) && text_lt(b, a)),
    decreases a.len(),
{
    if a.len() > 0 && b.len() > 0 {
        lemma_text_lt_total(a.drop_first(), b.drop_first());
        if a[0] == b[0] && a != b {
            assert(a.drop_first() != b.drop_first()) by {
                if a.drop_first() == b.drop_first() {
                    assert(a =~= seq![a[0]] + a.drop_first());
                    assert(b =~= seq![b[0]] + b.drop_first());
                }
            }
        }
    } else if a.len() == 0 && b.len() == 0 {
        assert(a =~= b);
    }
}

pub proof fn lemma_text_lt_transitive(a: Name, b: Name, c: Name)
    requires
        text_lt(a, b),
        text_lt(b, c),
    ensures
        text_lt(a, c),
    decreases a.len(),
{
    if a.len() > 0 && a[0] == b[0] && b[0] == c[0] {
        lemma_text_lt_transitive(a.drop_first(), b.drop_first(), c.drop_first());
    }
}

/// Every name of the sequence comes strictly before every later one.
pub open spec fn strictly_sorted(s: Seq<Name>) -> bool {
    forall|i: int, j: int| 0 <= i < j < s.len() ==> text_lt(#[trigger] s[i], #[trigger] s[j])
}

pub proof fn lemma_sorted_unique(s: Seq<Name>, i: int, j: int)
    requires
        strictly_sorted(s),
        0 <= i < s.len(),
        0 <= j < s.len(),
        i != j,
    ensures
        s[i] != s[j],
{
    lemma_text_lt_irreflexive(s[i]);
}

/// Two sequences in strict name order that hold the same names are equal.
pub proof fn lemma_sorted_same_names(a: Seq<Name>, b: Seq<Name>)
    requires
        strictly_sorted(a),
        strictly_sorted(b),
        forall|x: Name| #[trigger] a.contains(x) <==> b.contains(x),
    ensures
        a == b,
    decreases a.len(),
{
    if a.len() == 0 {
        if b.len() > 0 {
            assert(b.contains(b[0]));
            assert(a.contains(b[0]));
        }
        assert(a =~= b);
    } else {
        assert(a.contains(a[0]));
        assert(b.contains(a[0]));
        assert(b.contains(b[0]));
        assert(a.contains(b[0]));
        let j = choose|j: int| 0 <= j < b.len() && b[j] == a[0];
        let i = choose|i: int| 0 <= i < a.len() && a[i] == b[0];
        lemma_text_lt_total(a[0], b[0]);
        if j > 0 && i > 0 {
            assert(text_lt(b[0], b[j]));
            assert(text_lt(a[0], a[i]));
        }
        if j > 0 && i == 0 {
            assert(text_lt(b[0], b[j]));
            lemma_text_lt_irreflexive(a[0]);
        }
        assert(a[0] == b[0]);
        let a1 = a.drop_first();
        let b1 = b.drop_first();
        assert forall|x: Name| #[trigger] a1.contains(x) <==> b1.contains(x) by {
            if a1.contains(x) {
                let k = choose|k: int| 0 <= k < a1.len() && a1[k] == x;
                assert(a[k + 1] == x);
                assert(text_lt(a[0], a[k + 1]));
                lemma_text_lt_irreflexive(x);
                assert(a.contains(x));
                assert(b.contains(x));
                let m = choose|m: int| 0 <= m < b.len() && b[m] == x;
                assert(m != 0);
                assert(b1[m - 1] == x);
            }
            if b1.contains(x) {
                let k = choose|k: int| 0 <= k < b1.len() && b1[k] == x;
                assert(b[k + 1] == x);
                assert(text_lt(b[0], b[k + 1]));
                lemma_text_lt_irreflexive(x);
                assert(b.contains(x));
                assert(a.contains(x));
                let m = choose|m: int| 0 <= m < a.len() && a[m] == x;
                assert(m != 0);
                assert(a1[m - 1] == x);
            }
        }
        lemma_sorted_same_names(a1, b1);
        assert(a.len() == b.len());
        assert forall|k: int| 0 <= k < a.len() implies a[k] == b[k] by {
            if k > 0 {
                assert(a[k] == a1[k - 1]);
                assert(b[k] == b1[k - 1]);
            }
        }
        assert(a =~= b);
    }
}

/// Compares two strings in the order of `text_lt`.
pub fn text_less(a: &String, b: &String) -> (r: bool)
    ensures
        r == text_lt(a@, b@),
{
    let la = a.as_str().unicode_len();
    let lb = b.as_str().unicode_len();
    let mut i: usize = 0;
    assert(a@.skip(0) =~= a@);
    assert(b@.skip(0) =~= b@);
    while i < la && i < lb
        invariant
            la == a@.len(),
            lb == b@.len(),
            i <= la,
            i <= lb,
            text_lt(a@, b@) == text_lt(a@.skip(i as int), b@.skip(i as int)),
        decreases la - i,
    {
        let ca = a.as_str().get_char(i);
        let cb = b.as_str().get_char(i);
        let ghost sa = a@.skip(i as int);
        let ghost sb = b@.skip(i as int);
        assert(sa[0] == ca);
        assert(sb[0] == cb);
        if ca != cb {
            return ca < cb;
        }
        assert(sa.drop_first() =~= a@.skip(i + 1));
        assert(sb.drop_first() =~= b@.skip(i + 1));
        i = i + 1;
    }
    i < lb
}

/// A student, known by name.
#[derive(Debug, Clone)]
pub struct Student {
    pub name: String,
}

/// A section: a group of students that meet together.
#[derive(Debug, Clone)]
pub struct Section {
    pub name: String,
}

/// A team slot, reused from day to day.
#[derive(Debug, Clone)]
pub struct Team {
    pub name: String,
}

/// The meeting-place token of a section.
#[derive(Debug, Clone)]
pub struct Zoom {
    pub id: String,
}

impl View for Student {
    type V = Name;

    open spec fn view(&self) -> Name {
        self.name@
    }
}

impl View for Section {
    type V = Name;

    open spec fn view(&self) -> Name {
        self.name@
    }
}

impl View for Team {
    type V = Name;

    open spec fn view(&self) -> Name {
        self.name@
    }
}

impl View for Zoom {
    type V = Name;

    open spec fn view(&self) -> Name {
        self.id@
    }
}

impl Student {
    pub fn duplicate(&self) -> (r: Student)
        ensures
            r == *self,
    {
        Student { name: self.name.clone() }
    }

    pub fn precedes(&self, o: &Student) -> (r: bool)
        ensures
            r == text_lt(self@, o@),
    {
        text_less(&self.name, &o.name)
    }
}

impl Section {
    pub fn duplicate(&self) -> (r: Section)
        ensures
            r == *self,
    {
        Section { name: self.name.clone() }
    }

    pub fn precedes(&self, o: &Section) -> (r: bool)
        ensures
            r == text_lt(self@, o@),
    {
        text_less(&self.name, &o.name)
    }

    /// The empty name: where a section is asked for, it stands for "absent".
    pub fn is_blank(&self) -> (r: bool)
        ensures
            r == (self@.len() == 0),
    {
        self.name.as_str().unicode_len() == 0
    }
}

impl Team {
    pub fn duplicate(&self) -> (r: Team)
        ensures
            r == *self,
    {
        Team { name: self.name.clone() }
    }

    pub fn precedes(&self, o: &Team) -> (r: bool)
        ensures
            r == text_lt(self@, o@),
    {
        text_less(&self.name, &o.name)
    }

    /// The empty name: where a team is asked for, it stands for "no team".
    pub fn is_blank(&self) -> (r: bool)
        ensures
            r == (self@.len() == 0),
    {
        self.name.as_str().unicode_len() == 0
    }
}

/// The text without its spaces and dashes.
pub open spec fn without_separators(s: Seq<char>) -> Seq<char> {
    s.filter(|c: char| c != ' ' && c != '-')
}

/// Relies on `str::replace` with a pattern of the characters `' '` and
/// `'-'` and an empty replacement: every such character is taken out.
#[verifier::external_body]
fn strip_separators(s: &str) -> (r: String)
    ensures
        r@ == without_separators(s@),
{
    s.replace(&[' ', '-'][..], "")
}

impl Zoom {
    /// The token as it goes into a link: without spaces or dashes.
    pub fn url(&self) -> (r: String)
        ensures
            r@ == without_separators(self@),
    {
        strip_separators(self.id.as_str())
    }

    pub fn duplicate(&self) -> (r: Zoom)
        ensures
            r == *self,
    {
        Zoom { id: self.id.clone() }
    }
}

impl PartialEq for Student {
    fn eq(&self, o: &Student) -> (r: bool) {
        self.name == o.name
    }
}

impl vstd::std_specs::cmp::PartialEqSpecImpl for Student {
    open spec fn obeys_eq_spec() -> bool {
        true
    }

    open spec fn eq_spec(&self, o: &Student) -> bool {
        self@ == o@
    }
}

impl PartialEq for Section {
    fn eq(&self, o: &Section) -> (r: bool) {
        self.name == o.name
    }
}

impl vstd::std_specs::cmp::PartialEqSpecImpl for Section {
    open spec fn obeys_eq_spec() -> bool {
        true
    }

    open spec fn eq_spec(&self, o: &Section) -> bool {
        self@ == o@
    }
}

impl PartialEq for Team {
    fn eq(&self, o: &Team) -> (r: bool) {
        self.name == o.name
    }
}

impl vstd::std_specs::cmp::PartialEqSpecImpl for Team {
    open spec fn obeys_eq_spec() -> bool {
        true
    }

    open spec fn eq_spec(&self, o: &Team) -> bool {
        self@ == o@
    }
}

impl PartialEq for Zoom {
    fn eq(&self, o: &Zoom) -> (r: bool) {
        self.id == o.id
    }
}

impl vstd::std_specs::cmp::PartialEqSpecImpl for Zoom {
    open spec fn obeys_eq_spec() -> bool {
        true
    }

    open spec fn eq_spec(&self, o: &Zoom) -> bool {
        self@ == o@
    }
}

impl From<String> for Student {
    fn from(s: String) -> (r: Student) {
        Student { name: s }
    }
}

impl vstd::std_specs::convert::FromSpecImpl<String> for Student {
    open spec fn obeys_from_spec() -> bool {
        true
    }

    open spec fn from_spec(s: String) -> Student {
        Student { name: s }
    }
}

impl From<String> for Section {
    fn from(s: String) -> (r: Section) {
        Section { name: s }
    }
}

impl vstd::std_specs::convert::FromSpecImpl<String> for Section {
    open spec fn obeys_from_spec() -> bool {
        true
    }

    open spec fn from_spec(s: String) -> Section {
        Section { name: s }
    }
}

impl From<String> for Team {
    fn from(s: String) -> (r: Team) {
        Team { name: s }
    }
}

impl vstd::std_specs::convert::FromSpecImpl<String> for Team {
    open spec fn obeys_from_spec() -> bool {
        true
    }

    open spec fn from_spec(s: String) -> Team {
        Team { name: s }
    }
}

impl From<String> for Zoom {
    fn from(s: String) -> (r: Zoom) {
        Zoom { id: s }
    }
}

impl vstd::std_specs::convert::FromSpecImpl<String> for Zoom {
    open spec fn obeys_from_spec() -> bool {
        true
    }

    open spec fn from_spec(s: String) -> Zoom {
        Zoom { id: s }
    }
}


/// One scheduling cycle, numbered densely from zero.
#[derive(Debug, Clone)]
pub struct Day {
    pub id: usize,
    pub name: Option<String>,
    pub unlocked: bool,
}

/// The decimal digits of `n`.
pub open spec fn decimal(n: nat) -> Seq<char>
    decreases n,
{
    let d = n % 10;
    let c = if d == 0 { '0' } else if d == 1 { '1' } else if d == 2 { '2' } else if d == 3 {
        '3'
    } else if d == 4 { '4' } else if d == 5 { '5' } else if d == 6 { '6' } else if d == 7 {
        '7'
    } else if d == 8 { '8' } else { '9' };
    if n < 10 {
        seq![c]
    } else {
        decimal(n / 10).push(c)
    }
}

/// The default label of day `id`.
pub open spec fn day_label(id: nat) -> Seq<char> {
    seq!['D', 'a', 'y', ' '] + decimal(id)
}

/// Relies on `format!` with `{}` on a `usize`: the decimal digits of the
/// number, after the literal text.
#[verifier::external_body]
fn numbered_day(id: usize) -> (r: String)
    ensures
        r@ == day_label(id as nat),
{
    format!("Day {}", id)
}

impl Day {
    pub fn duplicate(&self) -> (r: Day)
        ensures
            r == *self,
    {
        let name = match &self.name {
            Some(n) => Some(n.clone()),
            None => None,
        };
        Day { id: self.id, name, unlocked: self.unlocked }
    }

    pub fn next(&self) -> (r: Day)
        requires
            self.id < usize::MAX,
        ensures
            r.id == self.id + 1,
            r.name is None,
            !r.unlocked,
    {
        Day::from(self.id + 1)
    }

    pub fn previous(&self) -> (r: Day)
        ensures
            self.id == 0 ==> r == *self,
            self.id > 0 ==> r.id == self.id - 1 && r.name is None && !r.unlocked,
    {
        if self.id == 0 {
            self.duplicate()
        } else {
            Day::from(self.id - 1)
        }
    }

    /// The day's name, or its number where it has none.
    pub fn pretty(&self) -> (r: String)
        ensures
            self.name matches Some(n) ==> r@ == n@,
            self.name is None ==> r@ == day_label(self.id as nat),
    {
        match &self.name {
            Some(n) => n.clone(),
            None => numbered_day(self.id),
        }
    }
}

impl From<usize> for Day {
    fn from(x: usize) -> (r: Day) {
        Day { id: x, name: None, unlocked: false }
    }
}

impl vstd::std_specs::convert::FromSpecImpl<usize> for Day {
    open spec fn obeys_from_spec() -> bool {
        true
    }

    open spec fn from_spec(x: usize) -> Day {
        Day { id: x, name: None, unlocked: false }
    }
}

} // verus!
