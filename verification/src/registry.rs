//! The registry: a roster of employees and two mirrored membership indices.
//!
//! The concrete state keeps each index as a vector of entries with pairwise
//! distinct keys; every name sequence in it is strictly sorted.  The
//! contracts are stated over the abstract map that such an entry vector
//! denotes, through `m_has` (is a key present) and `m_at` (the values under
//! a key), and over the exact transition predicates `add_post` and
//! `remove_post`.

use vstd::prelude::*;

use crate::order::insert_seq;
use crate::order::insert_sorted;
use crate::order::lemma_insert_seq_present;
use crate::order::lemma_insert_seq_props;
use crate::order::lemma_remove_seq_props;
use crate::order::remove_seq;
use crate::order::remove_sorted;
use crate::order::sorted;

verus! {

/// A person, as a parsed command names one: a name and a department.
#[derive(Debug, Clone, PartialEq, Eq)]
pub struct Person {
    pub name: String,
    pub department: String,
}

/// One key of an index together with the names filed under it.
#[derive(Debug, Clone, PartialEq, Eq)]
pub struct MapEntry {
    pub key: String,
    pub vals: Vec<String>,
}

/// The registry itself: the roster and the two mirrored indices.
#[derive(Debug, Clone, PartialEq, Eq)]
pub struct Company {
    /// Names belonging to at least one department, strictly sorted.
    pub employees: Vec<String>,
    /// Department name to the sorted names of its members.
    pub department_employees: Vec<MapEntry>,
    /// Employee name to the sorted names of their departments.
    pub employee_departments: Vec<MapEntry>,
}

/// What `list` answers: the whole roster, one department's members, or
/// nothing under that department name.
#[derive(Debug, PartialEq, Eq)]
pub enum Listing {
    All(Vec<String>),
    Department(Vec<String>),
    NotFound,
}

/// Pairwise distinct keys.
pub open spec fn keys_unique(s: Seq<MapEntry>) -> bool {
    forall|i: int, j: int|
        0 <= i < j < s.len() ==> (#[trigger] s[i]).key@ != (#[trigger] s[j]).key@
}

/// Every entry's value sequence is strictly sorted.
pub open spec fn entry_vals_sorted(s: Seq<MapEntry>) -> bool {
    forall|i: int| 0 <= i < s.len() ==> sorted((#[trigger] s[i]).vals.deep_view())
}

/// Whether some entry carries the key `k`.
pub open spec fn m_has(s: Seq<MapEntry>, k: Seq<char>) -> bool {
    exists|i: int| 0 <= i < s.len() && (#[trigger] s[i]).key@ == k
}

/// The position of the entry carrying `k`; meaningful only under `m_has`.
pub open spec fn m_idx(s: Seq<MapEntry>, k: Seq<char>) -> int {
    choose|i: int| 0 <= i < s.len() && (#[trigger] s[i]).key@ == k
}

/// The values under key `k`; meaningful only under `m_has`.
pub open spec fn m_at(s: Seq<MapEntry>, k: Seq<char>) -> Seq<Seq<char>> {
    s[m_idx(s, k)].vals.deep_view()
}

/// The values under `k`, or the empty sequence when `k` is absent.
pub open spec fn vals_or_empty(s: Seq<MapEntry>, k: Seq<char>) -> Seq<Seq<char>> {
    if m_has(s, k) {
        m_at(s, k)
    } else {
        Seq::empty()
    }
}

/// The entry at a position carries its own key: `m_idx` finds it and `m_at`
/// yields its values.
pub proof fn lemma_entry_key(s: Seq<MapEntry>, i: int)
    requires
        keys_unique(s),
        0 <= i < s.len(),
    ensures
        m_has(s, s[i].key@),
        m_idx(s, s[i].key@) == i,
        m_at(s, s[i].key@) == s[i].vals.deep_view(),
{
    assert(m_has(s, s[i].key@));
    let j = m_idx(s, s[i].key@);
    assert(0 <= j < s.len() && s[j].key@ == s[i].key@);
}

pub proof fn lemma_vals_or_empty_sorted(s: Seq<MapEntry>, k: Seq<char>)
    requires
        keys_unique(s),
        entry_vals_sorted(s),
    ensures
        sorted(vals_or_empty(s, k)),
{
    if m_has(s, k) {
        let i = m_idx(s, k);
        assert(0 <= i < s.len() && s[i].key@ == k);
        assert(sorted(s[i].vals.deep_view()));
    }
}

/// The abstract effect of filing `val` under `key`: the key is now present,
/// its values gain exactly `val` (at its sorted place), and every other key
/// is untouched.
pub open spec fn map_upsert(
    pre: Seq<MapEntry>,
    post: Seq<MapEntry>,
    key: Seq<char>,
    val: Seq<char>,
) -> bool {
    &&& forall|k: Seq<char>| #![trigger m_has(post, k)] #![trigger m_has(pre, k)]
        m_has(post, k) <==> m_has(pre, k) || k == key
    &&& forall|k: Seq<char>| #![trigger m_at(post, k)] #![trigger m_at(pre, k)]
        k != key && m_has(pre, k) ==> m_at(post, k) == m_at(pre, k)
    &&& m_at(post, key) == insert_seq(vals_or_empty(pre, key), val)
}

/// The abstract effect of taking `val` out from under `key`.  When the key
/// is absent nothing changes; otherwise its values lose `val`, and with
/// `delete_empty` the key itself disappears once its values run out.  Every
/// other key is untouched.
pub open spec fn map_shed(
    pre: Seq<MapEntry>,
    post: Seq<MapEntry>,
    key: Seq<char>,
    val: Seq<char>,
    delete_empty: bool,
) -> bool {
    if !m_has(pre, key) {
        post == pre
    } else {
        let remaining = remove_seq(m_at(pre, key), val);
        &&& forall|k: Seq<char>| #![trigger m_has(post, k)] #![trigger m_has(pre, k)]
            m_has(post, k) <==> (m_has(pre, k) && !(delete_empty && remaining.len() == 0 && k
                == key))
        &&& forall|k: Seq<char>| #![trigger m_at(post, k)] #![trigger m_at(pre, k)]
            k != key && m_has(pre, k) ==> m_at(post, k) == m_at(pre, k)
        &&& m_has(post, key) ==> m_at(post, key) == remaining
    }
}

/// The exact effect of `Company::add`.
pub open spec fn add_post(pre: Company, post: Company, name: Seq<char>, dept: Seq<char>) -> bool {
    &&& post.emp_view() == insert_seq(pre.emp_view(), name)
    &&& map_upsert(pre.department_employees@, post.department_employees@, dept, name)
    &&& map_upsert(pre.employee_departments@, post.employee_departments@, name, dept)
}

/// The exact effect of `Company::remove`: both indices are cleaned
/// independently, and the name leaves the roster exactly when its department
/// list exists and runs out.
pub open spec fn remove_post(pre: Company, post: Company, name: Seq<char>, dept: Seq<char>) -> bool {
    &&& map_shed(pre.department_employees@, post.department_employees@, dept, name, true)
    &&& map_shed(pre.employee_departments@, post.employee_departments@, name, dept, false)
    &&& post.emp_view() == if m_has(pre.employee_departments@, name) && remove_seq(
        vals_or_empty(pre.employee_departments@, name),
        dept,
    ).len() == 0 {
        remove_seq(pre.emp_view(), name)
    } else {
        pre.emp_view()
    }
}

/// Two registries with the same roster and the same abstract indices.
pub open spec fn same_state(a: Company, b: Company) -> bool {
    &&& a.emp_view() == b.emp_view()
    &&& forall|k: Seq<char>|
        #![trigger m_has(a.department_employees@, k)]
        #![trigger m_has(b.department_employees@, k)]
        m_has(a.department_employees@, k) <==> m_has(b.department_employees@, k)
    &&& forall|k: Seq<char>|
        #![trigger vals_or_empty(a.department_employees@, k)]
        #![trigger vals_or_empty(b.department_employees@, k)]
        vals_or_empty(a.department_employees@, k) == vals_or_empty(b.department_employees@, k)
    &&& forall|k: Seq<char>|
        #![trigger m_has(a.employee_departments@, k)]
        #![trigger m_has(b.employee_departments@, k)]
        m_has(a.employee_departments@, k) <==> m_has(b.employee_departments@, k)
    &&& forall|k: Seq<char>|
        #![trigger vals_or_empty(a.employee_departments@, k)]
        #![trigger vals_or_empty(b.employee_departments@, k)]
        vals_or_empty(a.employee_departments@, k) == vals_or_empty(b.employee_departments@, k)
}

impl Company {
    /// The roster as a sequence of names.
    pub open spec fn emp_view(self) -> Seq<Seq<char>> {
        self.employees.deep_view()
    }

    /// Sortedness and key uniqueness of the concrete state, with no claim
    /// about agreement between the two indices.
    pub open spec fn raw_wf(self) -> bool {
        &&& sorted(self.emp_view())
        &&& keys_unique(self.department_employees@)
        &&& keys_unique(self.employee_departments@)
        &&& entry_vals_sorted(self.department_employees@)
        &&& entry_vals_sorted(self.employee_departments@)
    }

    /// `name` is filed as a member of `dept` in the department index.
    pub open spec fn member_of_dept(self, dept: Seq<char>, name: Seq<char>) -> bool {
        m_has(self.department_employees@, dept) && m_at(self.department_employees@, dept).contains(
            name,
        )
    }

    /// `dept` is filed under `name` in the employee index.
    pub open spec fn dept_of_employee(self, name: Seq<char>, dept: Seq<char>) -> bool {
        m_has(self.employee_departments@, name) && m_at(self.employee_departments@, name).contains(
            dept,
        )
    }

    /// A name stands on the roster exactly when its department list exists
    /// and is non-empty.
    pub open spec fn roster_matches(self) -> bool {
        forall|n: Seq<char>|
            #![trigger self.emp_view().contains(n)]
            #![trigger m_has(self.employee_departments@, n)]
            self.emp_view().contains(n) <==> (m_has(self.employee_departments@, n) && m_at(
                self.employee_departments@,
                n,
            ).len() > 0)
    }

    /// No department entry with an empty member list survives.
    pub open spec fn depts_nonempty(self) -> bool {
        forall|i: int|
            0 <= i < self.department_employees@.len() ==> (#[trigger] self.department_employees@[i]).vals@.len()
                > 0
    }

    /// The two indices are exact mirrors of one membership relation.
    pub open spec fn mirrored(self) -> bool {
        forall|d: Seq<char>, n: Seq<char>|
            #![trigger self.member_of_dept(d, n)]
            #![trigger self.dept_of_employee(n, d)]
            self.member_of_dept(d, n) <==> self.dept_of_employee(n, d)
    }

    /// The full invariant of the registry.
    pub open spec fn wf(self) -> bool {
        self.raw_wf() && self.roster_matches() && self.depts_nonempty() && self.mirrored()
    }

    /// The empty registry.
    pub fn new() -> (c: Company)
        ensures
            c.wf(),
            c.emp_view() == Seq::<Seq<char>>::empty(),
            c.department_employees@ == Seq::<MapEntry>::empty(),
            c.employee_departments@ == Seq::<MapEntry>::empty(),
    {
        let c = Company {
            employees: Vec::new(),
            department_employees: Vec::new(),
            employee_departments: Vec::new(),
        };
        proof {
            assert(c.emp_view() =~= Seq::<Seq<char>>::empty());
        }
        c
    }

    /// Files the person's name under their department in both indices and
    /// on the roster, idempotently; each sequence keeps its sorted order.
    pub fn add(&mut self, person: Person)
        requires
            old(self).raw_wf(),
        ensures
            final(self).raw_wf(),
            add_post(*old(self), *final(self), person.name@, person.department@),
            old(self).wf() ==> final(self).wf(),
    {
        let Person { name, department } = person;
        insert_sorted(&mut self.employees, &name);
        proof {
            lemma_insert_seq_props(old(self).emp_view(), name@);
        }
        upsert_entry(&mut self.department_employees, &department, &name);
        upsert_entry(&mut self.employee_departments, &name, &department);
        proof {
            if old(self).wf() {
                lemma_add_preserves_wf(*old(self), *self, name@, department@);
            }
        }
    }

    /// Takes the membership out of whichever index holds it — the two sides
    /// are treated as independently possibly inconsistent — dropping a
    /// department that runs out of members and a roster name that runs out
    /// of departments.  Removing an absent membership is a no-op.
    pub fn remove(&mut self, person: Person)
        requires
            old(self).raw_wf(),
        ensures
            final(self).raw_wf(),
            remove_post(*old(self), *final(self), person.name@, person.department@),
            old(self).wf() ==> final(self).wf(),
    {
        let Person { name, department } = person;
        let _dept_emptied = shed_entry_val(&mut self.department_employees, &department, &name, true);
        let emp_emptied = shed_entry_val(&mut self.employee_departments, &name, &department, false);
        if emp_emptied {
            remove_sorted(&mut self.employees, &name);
            proof {
                lemma_remove_seq_props(old(self).emp_view(), name@);
            }
        }
        proof {
            if old(self).wf() {
                lemma_remove_preserves_wf(*old(self), *self, name@, department@);
            }
        }
    }

    /// Answers a selector: the literal "all" yields the whole roster, any
    /// other selector yields that department's members or `NotFound`.
    pub fn list(&self, which: &String) -> (r: Listing)
        requires
            keys_unique(self.department_employees@),
        ensures
            which@ == "all"@ ==> (r matches Listing::All(v) && v.deep_view() == self.emp_view()),
            which@ != "all"@ && m_has(self.department_employees@, which@) ==> (r matches
                Listing::Department(v) && v.deep_view() == m_at(
                self.department_employees@,
                which@,
            )),
            which@ != "all"@ && !m_has(self.department_employees@, which@) ==> r
                == Listing::NotFound,
    {
        let all_kw = String::from_str("all");
        if *which == all_kw {
            Listing::All(clone_names(&self.employees))
        } else {
            match find_entry(&self.department_employees, which) {
                Some(i) => {
                    proof {
                        lemma_entry_key(self.department_employees@, i as int);
                    }
                    Listing::Department(clone_names(&self.department_employees[i].vals))
                },
                None => {
                    proof {
                        if m_has(self.department_employees@, which@) {
                            let w = m_idx(self.department_employees@, which@);
                            assert(0 <= w < self.department_employees@.len()
                                && self.department_employees@[w].key@ == which@);
                        }
                    }
                    Listing::NotFound
                },
            }
        }
    }
}

/// An element-wise copy of a vector of names.
pub fn clone_names(v: &Vec<String>) -> (r: Vec<String>)
    ensures
        r@ == v@,
        r.deep_view() == v.deep_view(),
{
    let mut r: Vec<String> = Vec::new();
    let mut i: usize = 0;
    loop
        invariant
            i <= v.len(),
            r@ == v@.take(i as int),
        decreases v.len() - i,
    {
        if i == v.len() {
            proof {
                assert(v@.take(v@.len() as int) =~= v@);
                assert(r.deep_view() =~= v.deep_view());
            }
            return r;
        }
        r.push(v[i].clone());
        proof {
            assert(v@.take(i as int).push(v@[i as int]) =~= v@.take(i as int + 1));
        }
        i = i + 1;
    }
}

/// The position of the entry keyed `key`, where one exists.
fn find_entry(entries: &Vec<MapEntry>, key: &String) -> (r: Option<usize>)
    ensures
        match r {
            Some(i) => i < entries.len() && entries@[i as int].key@ == key@,
            None => forall|j: int|
                0 <= j < entries@.len() ==> (#[trigger] entries@[j]).key@ != key@,
        },
{
    let mut j: usize = 0;
    loop
        invariant
            j <= entries.len(),
            forall|t: int| 0 <= t < j ==> (#[trigger] entries@[t]).key@ != key@,
        decreases entries.len() - j,
    {
        if j == entries.len() {
            return None;
        }
        if entries[j].key == *key {
            return Some(j);
        }
        j = j + 1;
    }
}

/// Files `val` under `key`, creating the entry when absent; the concrete
/// effect is exactly `map_upsert`.
fn upsert_entry(entries: &mut Vec<MapEntry>, key: &String, val: &String)
    requires
        keys_unique(old(entries)@),
        entry_vals_sorted(old(entries)@),
    ensures
        keys_unique(final(entries)@),
        entry_vals_sorted(final(entries)@),
        map_upsert(old(entries)@, final(entries)@, key@, val@),
{
    let ghost s0 = old(entries)@;
    let found = find_entry(entries, key);
    match found {
        Some(i) => {
            let mut e = entries.remove(i);
            proof {
                assert(sorted(e.vals.deep_view()));
            }
            insert_sorted(&mut e.vals, val);
            entries.insert(i, e);
            proof {
                let s2 = entries@;
                s0.remove_ensures(i as int);
                s0.remove(i as int).insert_ensures(i as int, s2[i as int]);
                assert(s2.len() == s0.len());
                assert forall|t: int| 0 <= t < s2.len() && t != i implies s2[t] == s0[t] by {}
                assert(s2[i as int].key == s0[i as int].key);
                assert(s2[i as int].vals.deep_view() == insert_seq(
                    s0[i as int].vals.deep_view(),
                    val@,
                ));
                assert forall|t: int| 0 <= t < s2.len() implies (#[trigger] s2[t]).key@ == s0[t].key@ by {}
                assert(keys_unique(s2));
                assert forall|t: int| 0 <= t < s2.len() implies sorted(
                    (#[trigger] s2[t]).vals.deep_view(),
                ) by {
                    if t == i {
                        lemma_insert_seq_props(s0[i as int].vals.deep_view(), val@);
                    }
                }
                lemma_entry_key(s0, i as int);
                lemma_entry_key(s2, i as int);
                assert forall|k: Seq<char>| m_has(s2, k) <==> m_has(s0, k) || k == key@ by {
                    if m_has(s2, k) {
                        let w = m_idx(s2, k);
                        assert(0 <= w < s2.len() && s2[w].key@ == k);
                        assert(s0[w].key@ == k);
                        assert(m_has(s0, k));
                    }
                    if m_has(s0, k) {
                        let w = m_idx(s0, k);
                        assert(0 <= w < s0.len() && s0[w].key@ == k);
                        assert(s2[w].key@ == k);
                        assert(m_has(s2, k));
                    }
                }
                assert forall|k: Seq<char>| k != key@ && m_has(s0, k) implies m_at(s2, k) == m_at(
                    s0,
                    k,
                ) by {
                    let w = m_idx(s0, k);
                    assert(0 <= w < s0.len() && s0[w].key@ == k);
                    assert(w != i);
                    lemma_entry_key(s0, w);
                    lemma_entry_key(s2, w);
                }
                assert(m_at(s2, key@) == insert_seq(vals_or_empty(s0, key@), val@));
            }
        },
        None => {
            proof {
                if m_has(s0, key@) {
                    let w = m_idx(s0, key@);
                    assert(0 <= w < s0.len() && s0[w].key@ == key@);
                }
                assert(!m_has(s0, key@));
            }
            let mut vals: Vec<String> = Vec::new();
            vals.push(val.clone());
            let e = MapEntry { key: key.clone(), vals };
            entries.push(e);
            proof {
                let s2 = entries@;
                let ni = s0.len() as int;
                assert(s2.len() == s0.len() + 1);
                assert forall|t: int| 0 <= t < s0.len() implies s2[t] == s0[t] by {}
                assert(s2[ni].key@ == key@);
                assert(s2[ni].vals.deep_view() =~= seq![val@]);
                assert(keys_unique(s2));
                assert forall|t: int| 0 <= t < s2.len() implies sorted(
                    (#[trigger] s2[t]).vals.deep_view(),
                ) by {
                    if t == ni {
                        assert(sorted(seq![val@]));
                    }
                }
                lemma_entry_key(s2, ni);
                assert(insert_seq(vals_or_empty(s0, key@), val@) =~= seq![val@]);
                assert forall|k: Seq<char>| m_has(s2, k) <==> m_has(s0, k) || k == key@ by {
                    if m_has(s2, k) {
                        let w = m_idx(s2, k);
                        assert(0 <= w < s2.len() && s2[w].key@ == k);
                        if w < ni {
                            assert(s0[w].key@ == k);
                            assert(m_has(s0, k));
                        }
                    }
                    if m_has(s0, k) {
                        let w = m_idx(s0, k);
                        assert(0 <= w < s0.len() && s0[w].key@ == k);
                        assert(s2[w].key@ == k);
                        assert(m_has(s2, k));
                    }
                }
                assert forall|k: Seq<char>| k != key@ && m_has(s0, k) implies m_at(s2, k) == m_at(
                    s0,
                    k,
                ) by {
                    let w = m_idx(s0, k);
                    assert(0 <= w < s0.len() && s0[w].key@ == k);
                    lemma_entry_key(s0, w);
                    lemma_entry_key(s2, w);
                }
            }
        },
    }
}

/// Takes `val` out from under `key` where present; with `delete_if_empty`
/// the entry itself is dropped once its values run out.  Returns whether the
/// entry existed and its values ran out.  The concrete effect is exactly
/// `map_shed`.
fn shed_entry_val(entries: &mut Vec<MapEntry>, key: &String, val: &String, delete_if_empty: bool) -> (emptied: bool)
    requires
        keys_unique(old(entries)@),
        entry_vals_sorted(old(entries)@),
    ensures
        keys_unique(final(entries)@),
        entry_vals_sorted(final(entries)@),
        map_shed(old(entries)@, final(entries)@, key@, val@, delete_if_empty),
        emptied == (m_has(old(entries)@, key@) && remove_seq(
            vals_or_empty(old(entries)@, key@),
            val@,
        ).len() == 0),
{
    let ghost s0 = old(entries)@;
    let found = find_entry(entries, key);
    match found {
        None => {
            proof {
                if m_has(s0, key@) {
                    let w = m_idx(s0, key@);
                    assert(0 <= w < s0.len() && s0[w].key@ == key@);
                }
                assert(!m_has(s0, key@));
            }
            false
        },
        Some(i) => {
            let mut e = entries.remove(i);
            proof {
                assert(sorted(e.vals.deep_view()));
                lemma_entry_key(s0, i as int);
            }
            remove_sorted(&mut e.vals, val);
            let ghost remaining = remove_seq(s0[i as int].vals.deep_view(), val@);
            proof {
                assert(e.vals.deep_view() == remaining);
                assert(m_at(s0, key@) == s0[i as int].vals.deep_view());
                lemma_remove_seq_props(s0[i as int].vals.deep_view(), val@);
            }
            let is_empty = e.vals.len() == 0;
            proof {
                assert(e.vals.deep_view().len() == e.vals@.len());
                assert(is_empty == (remaining.len() == 0));
            }
            if is_empty && delete_if_empty {
                proof {
                    let s2 = entries@;
                    s0.remove_ensures(i as int);
                    assert(s2 == s0.remove(i as int));
                    assert forall|t: int| 0 <= t < s2.len() implies (#[trigger] s2[t]) == if t < i {
                        s0[t]
                    } else {
                        s0[t + 1]
                    } by {}
                    assert(keys_unique(s2)) by {
                        assert forall|a: int, b: int| 0 <= a < b < s2.len() implies (
                        #[trigger] s2[a]).key@ != (#[trigger] s2[b]).key@ by {
                            let a0 = if a < i { a } else { a + 1 };
                            let b0 = if b < i { b } else { b + 1 };
                            assert(s2[a] == s0[a0]);
                            assert(s2[b] == s0[b0]);
                        }
                    }
                    assert forall|t: int| 0 <= t < s2.len() implies sorted(
                        (#[trigger] s2[t]).vals.deep_view(),
                    ) by {
                        let t0 = if t < i { t } else { t + 1 };
                        assert(s2[t] == s0[t0]);
                    }
                    assert forall|k: Seq<char>| m_has(s2, k) <==> (m_has(s0, k) && !(true
                        && remaining.len() == 0 && k == key@)) by {
                        if m_has(s2, k) {
                            let w = m_idx(s2, k);
                            assert(0 <= w < s2.len() && s2[w].key@ == k);
                            let w0 = if w < i { w } else { w + 1 };
                            assert(s0[w0].key@ == k);
                            assert(m_has(s0, k));
                            assert(w0 != i);
                            assert(k != key@);
                        }
                        if m_has(s0, k) && k != key@ {
                            let w = m_idx(s0, k);
                            assert(0 <= w < s0.len() && s0[w].key@ == k);
                            assert(w != i);
                            if w < i {
                                assert(s2[w].key@ == k);
                            } else {
                                assert(s2[w - 1].key@ == k);
                            }
                            assert(m_has(s2, k));
                        }
                    }
                    assert forall|k: Seq<char>| k != key@ && m_has(s0, k) implies m_at(s2, k)
                        == m_at(s0, k) by {
                        let w = m_idx(s0, k);
                        assert(0 <= w < s0.len() && s0[w].key@ == k);
                        assert(w != i);
                        let w2 = if w < i { w } else { w - 1 };
                        assert(s2[w2] == s0[w]);
                        lemma_entry_key(s0, w);
                        lemma_entry_key(s2, w2);
                    }
                }
            } else {
                entries.insert(i, e);
                proof {
                    let s2 = entries@;
                    s0.remove_ensures(i as int);
                    s0.remove(i as int).insert_ensures(i as int, s2[i as int]);
                    assert(s2.len() == s0.len());
                    assert forall|t: int| 0 <= t < s2.len() && t != i implies s2[t] == s0[t] by {}
                    assert(s2[i as int].key == s0[i as int].key);
                    assert(s2[i as int].vals.deep_view() == remaining);
                    assert forall|t: int| 0 <= t < s2.len() implies (#[trigger] s2[t]).key@ == s0[t].key@ by {}
                    assert(keys_unique(s2));
                    assert forall|t: int| 0 <= t < s2.len() implies sorted(
                        (#[trigger] s2[t]).vals.deep_view(),
                    ) by {}
                    lemma_entry_key(s2, i as int);
                    assert forall|k: Seq<char>| m_has(s2, k) <==> (m_has(s0, k) && !(delete_if_empty
                        && remaining.len() == 0 && k == key@)) by {
                        if m_has(s2, k) {
                            let w = m_idx(s2, k);
                            assert(0 <= w < s2.len() && s2[w].key@ == k);
                            assert(s0[w].key@ == k);
                            assert(m_has(s0, k));
                        }
                        if m_has(s0, k) {
                            let w = m_idx(s0, k);
                            assert(0 <= w < s0.len() && s0[w].key@ == k);
                            assert(s2[w].key@ == k);
                            assert(m_has(s2, k));
                        }
                    }
                    assert forall|k: Seq<char>| k != key@ && m_has(s0, k) implies m_at(s2, k)
                        == m_at(s0, k) by {
                        let w = m_idx(s0, k);
                        assert(0 <= w < s0.len() && s0[w].key@ == k);
                        assert(w != i);
                        lemma_entry_key(s0, w);
                        lemma_entry_key(s2, w);
                    }
                    assert(m_at(s2, key@) == remaining);
                }
            }
            is_empty
        },
    }
}

/// After `add`, a membership holds exactly where it held before or is the
/// added pair, on both indices alike, and the roster gains exactly the added
/// name.
pub proof fn lemma_add_membership(pre: Company, post: Company, name: Seq<char>, dept: Seq<char>)
    requires
        pre.raw_wf(),
        add_post(pre, post, name, dept),
    ensures
        forall|d: Seq<char>, n: Seq<char>| #![trigger post.member_of_dept(d, n)]
            post.member_of_dept(d, n) <==> pre.member_of_dept(d, n) || (d == dept && n == name),
        forall|d: Seq<char>, n: Seq<char>| #![trigger post.dept_of_employee(n, d)]
            post.dept_of_employee(n, d) <==> pre.dept_of_employee(n, d) || (d == dept && n == name),
        forall|n: Seq<char>| #![trigger post.emp_view().contains(n)]
            post.emp_view().contains(n) <==> pre.emp_view().contains(n) || n == name,
{
    lemma_insert_seq_props(pre.emp_view(), name);
    lemma_vals_or_empty_sorted(pre.department_employees@, dept);
    lemma_insert_seq_props(vals_or_empty(pre.department_employees@, dept), name);
    lemma_vals_or_empty_sorted(pre.employee_departments@, name);
    lemma_insert_seq_props(vals_or_empty(pre.employee_departments@, name), dept);
    assert forall|n: Seq<char>|
        post.emp_view().contains(n) <==> pre.emp_view().contains(n) || n == name by {
        assert(insert_seq(pre.emp_view(), name).contains(n) <==> pre.emp_view().contains(n) || n
            == name);
    }
    assert forall|d: Seq<char>, n: Seq<char>| #![trigger post.member_of_dept(d, n)]
        post.member_of_dept(d, n) <==> pre.member_of_dept(d, n) || (d == dept && n
            == name) by {
        let p0 = pre.department_employees@;
        let p2 = post.department_employees@;
        if d == dept {
            assert(m_has(p2, dept));
            assert(m_at(p2, dept) == insert_seq(vals_or_empty(p0, dept), name));
            assert(insert_seq(vals_or_empty(p0, dept), name).contains(n) <==> vals_or_empty(
                p0,
                dept,
            ).contains(n) || n == name);
            if m_has(p0, dept) {
                assert(vals_or_empty(p0, dept) == m_at(p0, dept));
            } else {
                assert(!pre.member_of_dept(dept, n));
                assert(!vals_or_empty(p0, dept).contains(n));
            }
        } else {
            assert(m_has(p2, d) <==> m_has(p0, d));
            if m_has(p0, d) {
                assert(m_at(p2, d) == m_at(p0, d));
            }
        }
    }
    assert forall|d: Seq<char>, n: Seq<char>| #![trigger post.dept_of_employee(n, d)]
        post.dept_of_employee(n, d) <==> pre.dept_of_employee(n, d) || (d == dept && n
            == name) by {
        let p0 = pre.employee_departments@;
        let p2 = post.employee_departments@;
        if n == name {
            assert(m_has(p2, name));
            assert(m_at(p2, name) == insert_seq(vals_or_empty(p0, name), dept));
            assert(insert_seq(vals_or_empty(p0, name), dept).contains(d) <==> vals_or_empty(
                p0,
                name,
            ).contains(d) || d == dept);
            if m_has(p0, name) {
                assert(vals_or_empty(p0, name) == m_at(p0, name));
            } else {
                assert(!pre.dept_of_employee(name, d));
                assert(!vals_or_empty(p0, name).contains(d));
            }
        } else {
            assert(m_has(p2, n) <==> m_has(p0, n));
            if m_has(p0, n) {
                assert(m_at(p2, n) == m_at(p0, n));
            }
        }
    }
}

proof fn lemma_add_preserves_wf(pre: Company, post: Company, name: Seq<char>, dept: Seq<char>)
    requires
        pre.wf(),
        post.raw_wf(),
        add_post(pre, post, name, dept),
    ensures
        post.wf(),
{
    lemma_add_membership(pre, post, name, dept);
    lemma_vals_or_empty_sorted(pre.employee_departments@, name);
    lemma_insert_seq_props(vals_or_empty(pre.employee_departments@, name), dept);
    // the roster matches the employee index
    assert forall|n: Seq<char>|
        post.emp_view().contains(n) <==> (m_has(post.employee_departments@, n) && m_at(
            post.employee_departments@,
            n,
        ).len() > 0) by {
        assert(post.emp_view().contains(n) <==> pre.emp_view().contains(n) || n == name);
        if n == name {
            assert(m_has(post.employee_departments@, name));
            assert(m_at(post.employee_departments@, name).len() > 0);
        } else {
            assert(m_has(post.employee_departments@, n) <==> m_has(pre.employee_departments@, n));
            if m_has(pre.employee_departments@, n) {
                assert(m_at(post.employee_departments@, n) == m_at(pre.employee_departments@, n));
            }
            assert(pre.emp_view().contains(n) <==> (m_has(pre.employee_departments@, n) && m_at(
                pre.employee_departments@,
                n,
            ).len() > 0));
        }
    }
    // no department entry is empty
    assert forall|i: int| 0 <= i < post.department_employees@.len() implies (
    #[trigger] post.department_employees@[i]).vals@.len() > 0 by {
        let s2 = post.department_employees@;
        lemma_entry_key(s2, i);
        let k = s2[i].key@;
        assert(m_at(s2, k) == s2[i].vals.deep_view());
        if k == dept {
            lemma_vals_or_empty_sorted(pre.department_employees@, dept);
            lemma_insert_seq_props(vals_or_empty(pre.department_employees@, dept), name);
            assert(m_at(s2, dept).len() > 0);
        } else {
            assert(m_has(s2, k));
            assert(m_has(pre.department_employees@, k));
            let w = m_idx(pre.department_employees@, k);
            assert(0 <= w < pre.department_employees@.len() && pre.department_employees@[w].key@
                == k);
            lemma_entry_key(pre.department_employees@, w);
            assert(m_at(s2, k) == m_at(pre.department_employees@, k));
            assert(pre.department_employees@[w].vals@.len() > 0);
            assert(m_at(pre.department_employees@, k).len()
                == pre.department_employees@[w].vals.deep_view().len());
        }
        assert(s2[i].vals.deep_view().len() == s2[i].vals@.len());
    }
    // the two indices stay mirrored
    assert forall|d: Seq<char>, n: Seq<char>|
        post.member_of_dept(d, n) <==> post.dept_of_employee(n, d) by {
        assert(post.member_of_dept(d, n) <==> pre.member_of_dept(d, n) || (d == dept && n == name));
        assert(post.dept_of_employee(n, d) <==> pre.dept_of_employee(n, d) || (d == dept && n
            == name));
        assert(pre.member_of_dept(d, n) <==> pre.dept_of_employee(n, d));
    }
}

/// After `remove`, the removed pair is gone from both indices — whichever of
/// them held it, consistently with the other or not — and every other
/// membership stands as it stood.
pub proof fn lemma_remove_membership(pre: Company, post: Company, name: Seq<char>, dept: Seq<char>)
    requires
        pre.raw_wf(),
        remove_post(pre, post, name, dept),
    ensures
        !post.member_of_dept(dept, name),
        !post.dept_of_employee(name, dept),
        forall|d: Seq<char>, n: Seq<char>| #![trigger post.member_of_dept(d, n)]
            post.member_of_dept(d, n) <==> pre.member_of_dept(d, n) && !(d == dept && n == name),
        forall|d: Seq<char>, n: Seq<char>| #![trigger post.dept_of_employee(n, d)]
            post.dept_of_employee(n, d) <==> pre.dept_of_employee(n, d) && !(d == dept && n
                == name),
{
    lemma_vals_or_empty_sorted(pre.department_employees@, dept);
    lemma_remove_seq_props(vals_or_empty(pre.department_employees@, dept), name);
    lemma_vals_or_empty_sorted(pre.employee_departments@, name);
    lemma_remove_seq_props(vals_or_empty(pre.employee_departments@, name), dept);
    assert forall|d: Seq<char>, n: Seq<char>| #![trigger post.member_of_dept(d, n)]
        post.member_of_dept(d, n) <==> pre.member_of_dept(d, n) && !(d == dept && n
            == name) by {
        let p0 = pre.department_employees@;
        let p2 = post.department_employees@;
        if !m_has(p0, dept) {
            assert(p2 == p0);
            if d == dept {
                assert(!m_has(p0, d));
            }
        } else {
            let remaining = remove_seq(m_at(p0, dept), name);
            if d == dept {
                if remaining.len() == 0 {
                    assert(!m_has(p2, dept));
                    assert(!(m_at(p0, dept).contains(n) && n != name));
                } else {
                    assert(m_has(p2, dept));
                    assert(m_at(p2, dept) == remaining);
                }
            } else {
                assert(m_has(p2, d) <==> m_has(p0, d));
                if m_has(p0, d) {
                    assert(m_at(p2, d) == m_at(p0, d));
                }
            }
        }
    }
    assert forall|d: Seq<char>, n: Seq<char>| #![trigger post.dept_of_employee(n, d)]
        post.dept_of_employee(n, d) <==> pre.dept_of_employee(n, d) && !(d == dept && n
            == name) by {
        let p0 = pre.employee_departments@;
        let p2 = post.employee_departments@;
        if !m_has(p0, name) {
            assert(p2 == p0);
            if n == name {
                assert(!m_has(p0, n));
            }
        } else {
            let remaining = remove_seq(m_at(p0, name), dept);
            if n == name {
                assert(m_has(p2, name) <==> m_has(p0, name));
                assert(m_at(p2, name) == remaining);
            } else {
                assert(m_has(p2, n) <==> m_has(p0, n));
                if m_has(p0, n) {
                    assert(m_at(p2, n) == m_at(p0, n));
                }
            }
        }
    }
}

proof fn lemma_remove_preserves_wf(pre: Company, post: Company, name: Seq<char>, dept: Seq<char>)
    requires
        pre.wf(),
        post.raw_wf(),
        remove_post(pre, post, name, dept),
    ensures
        post.wf(),
{
    lemma_remove_membership(pre, post, name, dept);
    lemma_remove_seq_props(pre.emp_view(), name);
    lemma_vals_or_empty_sorted(pre.employee_departments@, name);
    lemma_remove_seq_props(vals_or_empty(pre.employee_departments@, name), dept);
    let e0 = pre.employee_departments@;
    let e2 = post.employee_departments@;
    // the roster matches the employee index
    assert forall|n: Seq<char>|
        post.emp_view().contains(n) <==> (m_has(e2, n) && m_at(e2, n).len() > 0) by {
        let emptied = m_has(e0, name) && remove_seq(vals_or_empty(e0, name), dept).len() == 0;
        if !m_has(e0, name) {
            assert(e2 == e0);
            assert(post.emp_view() == pre.emp_view());
            assert(pre.emp_view().contains(n) <==> (m_has(e0, n) && m_at(e0, n).len() > 0));
        } else {
            let remaining = remove_seq(m_at(e0, name), dept);
            assert(m_has(e2, n) <==> m_has(e0, n));
            if n == name {
                assert(m_at(e2, name) == remaining);
                if remaining.len() == 0 {
                    assert(emptied);
                    assert(post.emp_view() == remove_seq(pre.emp_view(), name));
                    assert(!remove_seq(pre.emp_view(), name).contains(name));
                    assert(!post.emp_view().contains(name));
                } else {
                    assert(!emptied);
                    assert(post.emp_view() == pre.emp_view());
                    assert(m_at(e0, name).len() > 0);
                    assert(pre.emp_view().contains(name));
                }
            } else {
                if m_has(e0, n) {
                    assert(m_at(e2, n) == m_at(e0, n));
                }
                if emptied {
                    assert(post.emp_view() == remove_seq(pre.emp_view(), name));
                    assert(remove_seq(pre.emp_view(), name).contains(n) <==> pre.emp_view(
                    ).contains(n) && n != name);
                    assert(post.emp_view().contains(n) <==> pre.emp_view().contains(n));
                } else {
                    assert(post.emp_view() == pre.emp_view());
                }
                assert(pre.emp_view().contains(n) <==> (m_has(e0, n) && m_at(e0, n).len() > 0));
            }
        }
    }
    assert(post.roster_matches());
    // no department entry is empty
    assert forall|i: int| 0 <= i < post.department_employees@.len() implies (
    #[trigger] post.department_employees@[i]).vals@.len() > 0 by {
        let p0 = pre.department_employees@;
        let p2 = post.department_employees@;
        lemma_entry_key(p2, i);
        let k = p2[i].key@;
        assert(m_at(p2, k) == p2[i].vals.deep_view());
        assert(m_has(p2, k));
        if !m_has(p0, dept) {
            assert(p2 == p0);
            let w = m_idx(p0, k);
            assert(0 <= w < p0.len() && p0[w].key@ == k);
            lemma_entry_key(p0, w);
            assert(pre.department_employees@[w].vals@.len() > 0);
        } else {
            let remaining = remove_seq(m_at(p0, dept), name);
            assert(m_has(p0, k));
            if k == dept {
                assert(!(remaining.len() == 0));
                assert(m_at(p2, dept) == remaining);
            } else {
                assert(m_at(p2, k) == m_at(p0, k));
                let w = m_idx(p0, k);
                assert(0 <= w < p0.len() && p0[w].key@ == k);
                lemma_entry_key(p0, w);
                assert(pre.department_employees@[w].vals@.len() > 0);
            }
        }
        assert(p2[i].vals.deep_view().len() == p2[i].vals@.len());
    }
    assert(post.depts_nonempty());
    // the two indices stay mirrored
    assert forall|d: Seq<char>, n: Seq<char>|
        post.member_of_dept(d, n) <==> post.dept_of_employee(n, d) by {
        assert(post.member_of_dept(d, n) <==> pre.member_of_dept(d, n) && !(d == dept && n
            == name));
        assert(post.dept_of_employee(n, d) <==> pre.dept_of_employee(n, d) && !(d == dept && n
            == name));
        assert(pre.member_of_dept(d, n) <==> pre.dept_of_employee(n, d));
    }
    assert(post.mirrored());
}

/// Adding the same person twice leaves the registry exactly as one addition
/// leaves it.
pub proof fn lemma_add_idempotent(
    s0: Company,
    s1: Company,
    s2: Company,
    name: Seq<char>,
    dept: Seq<char>,
)
    requires
        s0.raw_wf(),
        add_post(s0, s1, name, dept),
        add_post(s1, s2, name, dept),
    ensures
        same_state(s1, s2),
{
    // the roster: inserting a present name changes nothing
    lemma_insert_seq_props(s0.emp_view(), name);
    let e1 = s1.emp_view();
    assert(insert_seq(s0.emp_view(), name).contains(name));
    assert(e1.contains(name));
    let w = choose|w: int| 0 <= w < e1.len() && e1[w] == name;
    lemma_insert_seq_present(e1, name, w);
    // the department index
    lemma_vals_or_empty_sorted(s0.department_employees@, dept);
    lemma_insert_seq_props(vals_or_empty(s0.department_employees@, dept), name);
    assert(m_has(s1.department_employees@, dept));
    assert(vals_or_empty(s1.department_employees@, dept) == insert_seq(
        vals_or_empty(s0.department_employees@, dept),
        name,
    ));
    let dv1 = vals_or_empty(s1.department_employees@, dept);
    assert(insert_seq(vals_or_empty(s0.department_employees@, dept), name).contains(name));
    assert(dv1.contains(name));
    let wd = choose|wd: int| 0 <= wd < dv1.len() && dv1[wd] == name;
    lemma_insert_seq_present(dv1, name, wd);
    assert forall|k: Seq<char>|
        m_has(s1.department_employees@, k) <==> m_has(s2.department_employees@, k) by {
        if k == dept {
            assert(m_has(s1.department_employees@, k));
            assert(m_has(s2.department_employees@, k));
        }
    }
    assert forall|k: Seq<char>|
        vals_or_empty(s1.department_employees@, k) == vals_or_empty(
            s2.department_employees@,
            k,
        ) by {
        if k == dept {
            assert(m_at(s2.department_employees@, dept) == insert_seq(dv1, name));
        } else {
            if m_has(s1.department_employees@, k) {
                assert(m_at(s2.department_employees@, k) == m_at(s1.department_employees@, k));
            } else {
                assert(!m_has(s2.department_employees@, k));
            }
        }
    }
    // the employee index
    lemma_vals_or_empty_sorted(s0.employee_departments@, name);
    lemma_insert_seq_props(vals_or_empty(s0.employee_departments@, name), dept);
    assert(m_has(s1.employee_departments@, name));
    assert(vals_or_empty(s1.employee_departments@, name) == insert_seq(
        vals_or_empty(s0.employee_departments@, name),
        dept,
    ));
    let ev1 = vals_or_empty(s1.employee_departments@, name);
    assert(insert_seq(vals_or_empty(s0.employee_departments@, name), dept).contains(dept));
    assert(ev1.contains(dept));
    let we = choose|we: int| 0 <= we < ev1.len() && ev1[we] == dept;
    lemma_insert_seq_present(ev1, dept, we);
    assert forall|k: Seq<char>|
        m_has(s1.employee_departments@, k) <==> m_has(s2.employee_departments@, k) by {
        if k == name {
            assert(m_has(s1.employee_departments@, k));
            assert(m_has(s2.employee_departments@, k));
        }
    }
    assert forall|k: Seq<char>|
        vals_or_empty(s1.employee_departments@, k) == vals_or_empty(
            s2.employee_departments@,
            k,
        ) by {
        if k == name {
            assert(m_at(s2.employee_departments@, name) == insert_seq(ev1, dept));
        } else {
            if m_has(s1.employee_departments@, k) {
                assert(m_at(s2.employee_departments@, k) == m_at(s1.employee_departments@, k));
            } else {
                assert(!m_has(s2.employee_departments@, k));
            }
        }
    }
}

} // verus!
