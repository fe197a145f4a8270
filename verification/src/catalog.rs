//! The rule catalog: the keyed table of rule definitions that the engine
//! reads and that the management and import paths mutate. Rows are kept
//! sorted by rule code, ids and codes stay unique, and every mutation states
//! its effect on the catalog's id-keyed map model.

use vstd::prelude::*;
use vstd::map::*;
use crate::chars::{
    chars_to_string, spec_str_lt, str_eq_str, str_lt_chars, str_to_chars,
    lemma_str_lt_trichotomy, lemma_str_lt_trans, append_str,
};
use crate::rules::{Rule, RuleModel};

verus! {

/// The outcome of writing one rule into the catalog by id.
#[derive(Clone, Copy, PartialEq, Eq, Structural, Debug)]
pub enum UpsertOutcome {
    /// No row with this id existed; the rule was inserted.
    Added,
    /// A row with this id existed; every field was overwritten.
    Updated,
    /// Another row already owns this rule's code; nothing changed.
    RejectedDuplicateCode,
    /// A threshold does not fit the catalog's integer columns; nothing
    /// changed.
    RejectedLevels,
}

/// The catalog of rule definitions, one row per rule.
pub struct RuleCatalog {
    pub rules: Vec<Rule>,
}

/// The id-keyed map a rule sequence denotes.
pub open spec fn spec_map_of(s: Seq<RuleModel>) -> Map<int, RuleModel> {
    Map::new(
        |k: int| exists|i: int| 0 <= i < s.len() && s[i].id == k,
        |k: int| s[choose|i: int| 0 <= i < s.len() && s[i].id == k],
    )
}

/// Some row carries this code.
pub open spec fn spec_has_code(s: Seq<RuleModel>, code: Seq<char>) -> bool {
    exists|i: int| 0 <= i < s.len() && s[i].code == code
}

/// Some row carries this code and is enabled.
pub open spec fn spec_enabled(s: Seq<RuleModel>, code: Seq<char>) -> bool {
    exists|i: int| 0 <= i < s.len() && s[i].code == code && s[i].enable
}

impl View for RuleCatalog {
    type V = Seq<RuleModel>;

    open spec fn view(&self) -> Seq<RuleModel> {
        self.rules.deep_view()
    }
}

impl RuleCatalog {
    /// Rows are sorted by code (strictly, so codes are unique), ids are
    /// unique, and every row's thresholds fit the integer columns.
    pub open spec fn wf(&self) -> bool {
        spec_catalog_wf(self@)
    }

    /// The id-keyed map this catalog denotes.
    pub open spec fn map_of(&self) -> Map<int, RuleModel> {
        spec_map_of(self@)
    }

    /// An empty catalog.
    pub fn new() -> (r: RuleCatalog)
        ensures
            r@ =~= Seq::<RuleModel>::empty(),
            r.wf(),
    {
        RuleCatalog { rules: Vec::new() }
    }

    /// How many rules the catalog holds.
    pub fn len(&self) -> (r: usize)
        ensures
            r == self@.len(),
    {
        self.rules.len()
    }

    /// The index of the row with this code, if any.
    pub fn find_by_code(&self, code: &str) -> (r: Option<usize>)
        ensures
            match r {
                Some(i) => i < self@.len() && self@[i as int].code == code@,
                None => !spec_has_code(self@, code@),
            },
    {
        let n: usize = self.rules.len();
        let mut i: usize = 0;
        while i < n
            invariant
                i <= n,
                n == self@.len(),
                forall|k: int| 0 <= k < i ==> self@[k].code != code@,
            decreases n - i,
        {
            if str_eq_str(self.rules[i].code.as_str(), code) {
                return Some(i);
            }
            i = i + 1;
        }
        None
    }

    /// The index of the row with this id, if any.
    pub fn find_by_id(&self, id: i64) -> (r: Option<usize>)
        ensures
            match r {
                Some(i) => i < self@.len() && self@[i as int].id == id as int,
                None => forall|i: int| 0 <= i < self@.len() ==> self@[i].id != id as int,
            },
    {
        let n: usize = self.rules.len();
        let mut i: usize = 0;
        while i < n
            invariant
                i <= n,
                n == self@.len(),
                forall|k: int| 0 <= k < i ==> self@[k].id != id as int,
            decreases n - i,
        {
            if self.rules[i].id == id {
                return Some(i);
            }
            i = i + 1;
        }
        None
    }
}

/// Copy a rule field by field.
pub fn clone_rule(r: &Rule) -> (c: Rule)
    ensures
        c@ == r@,
{
    let c = Rule {
        id: r.id,
        code: clone_string(&r.code),
        name: clone_string(&r.name),
        description: clone_string(&r.description),
        scope: clone_string(&r.scope),
        enable: r.enable,
        warning_level: r.warning_level,
        error_level: r.error_level,
        message: clone_string(&r.message),
        fixes: clone_string_vec(&r.fixes),
        q1: clone_opt_string(&r.q1),
        q2: clone_opt_string(&r.q2),
        q3: clone_opt_string(&r.q3),
        q4: clone_opt_string(&r.q4),
    };
    c
}

/// Copy a string.
pub fn clone_string(s: &String) -> (c: String)
    ensures
        c@ == s@,
{
    let v = str_to_chars(s.as_str());
    chars_to_string(&v)
}

/// Copy an optional string.
pub fn clone_opt_string(s: &Option<String>) -> (c: Option<String>)
    ensures
        crate::rules::spec_opt_string(c) == crate::rules::spec_opt_string(*s),
{
    match s {
        Some(x) => Some(clone_string(x)),
        None => None,
    }
}

/// Copy a list of strings.
pub fn clone_string_vec(v: &Vec<String>) -> (c: Vec<String>)
    ensures
        c.deep_view() == v.deep_view(),
{
    let n: usize = v.len();
    let mut c: Vec<String> = Vec::new();
    let mut i: usize = 0;
    while i < n
        invariant
            i <= n,
            n == v@.len(),
            c@.len() == i,
            forall|k: int| 0 <= k < i ==> c.deep_view()[k] == v.deep_view()[k],
        decreases n - i,
    {
        c.push(clone_string(&v[i]));
        i = i + 1;
    }
    assert(c.deep_view() =~= v.deep_view());
    c
}


/// All ids in the sequence are distinct.
pub open spec fn spec_ids_unique(s: Seq<RuleModel>) -> bool {
    forall|i: int, j: int| 0 <= i < s.len() && 0 <= j < s.len() && i != j ==> s[i].id != s[j].id
}

/// The sequence is strictly sorted by code.
pub open spec fn spec_sorted_by_code(s: Seq<RuleModel>) -> bool {
    forall|i: int, j: int| 0 <= i < j < s.len() ==> spec_str_lt(s[i].code, s[j].code)
}

/// With unique ids, the map sends each row's id to that row.
pub proof fn lemma_map_of_index(s: Seq<RuleModel>, j: int)
    requires
        spec_ids_unique(s),
        0 <= j < s.len(),
    ensures
        spec_map_of(s).dom().contains(s[j].id),
        spec_map_of(s)[s[j].id] == s[j],
{
    let k = s[j].id;
    assert(exists|i: int| 0 <= i < s.len() && s[i].id == k);
    let i0 = choose|i: int| 0 <= i < s.len() && s[i].id == k;
    assert(0 <= i0 < s.len() && s[i0].id == k);
    assert(i0 == j);
}

/// Inserting a row with a fresh id inserts its entry into the map.
pub proof fn lemma_map_of_insert(s: Seq<RuleModel>, p: int, r: RuleModel)
    requires
        0 <= p <= s.len(),
        spec_ids_unique(s),
        forall|i: int| 0 <= i < s.len() ==> s[i].id != r.id,
    ensures
        spec_map_of(s.insert(p, r)) == spec_map_of(s).insert(r.id, r),
{
    let t = s.insert(p, r);
    s.insert_ensures(p, r);
    assert(t[p] == r);
    assert forall|i: int| 0 <= i < t.len() implies (if i < p {
        t[i] == s[i]
    } else if i == p {
        t[i] == r
    } else {
        t[i] == s[i - 1]
    }) by {
        if i > p {
            assert(t[(i - 1) + 1] == s[i - 1]);
        }
    }
    assert(spec_ids_unique(t));
    let m1 = spec_map_of(t);
    let m2 = spec_map_of(s).insert(r.id, r);
    assert forall|k: int| m1.dom().contains(k) <==> m2.dom().contains(k) by {
        if k == r.id {
            assert(t[p].id == k);
        } else {
            if exists|i: int| 0 <= i < t.len() && t[i].id == k {
                let i0 = choose|i: int| 0 <= i < t.len() && t[i].id == k;
                if i0 < p {
                    assert(s[i0].id == k);
                } else {
                    assert(i0 > p);
                    assert(s[i0 - 1].id == k);
                }
            }
            if exists|i: int| 0 <= i < s.len() && s[i].id == k {
                let i0 = choose|i: int| 0 <= i < s.len() && s[i].id == k;
                if i0 < p {
                    assert(t[i0].id == k);
                } else {
                    assert(t[i0 + 1].id == k);
                }
            }
        }
    }
    assert forall|k: int| m1.dom().contains(k) implies m1[k] == m2[k] by {
        let i0 = choose|i: int| 0 <= i < t.len() && t[i].id == k;
        assert(0 <= i0 < t.len() && t[i0].id == k);
        assert(m1[k] == t[i0]);
        if k == r.id {
            assert(i0 == p);
        } else {
            assert(i0 != p);
            let j = if i0 < p { i0 } else { i0 - 1 };
            assert(s[j] == t[i0]);
            lemma_map_of_index(s, j);
        }
    }
    assert(m1 =~= m2);
}

/// Removing a row removes its entry from the map.
pub proof fn lemma_map_of_remove(s: Seq<RuleModel>, q: int)
    requires
        0 <= q < s.len(),
        spec_ids_unique(s),
    ensures
        spec_map_of(s.remove(q)) == spec_map_of(s).remove(s[q].id),
{
    let t = s.remove(q);
    s.remove_ensures(q);
    assert forall|i: int| 0 <= i < t.len() implies (if i < q {
        t[i] == s[i]
    } else {
        t[i] == s[i + 1]
    }) by {}
    let m1 = spec_map_of(t);
    let m2 = spec_map_of(s).remove(s[q].id);
    assert forall|k: int| m1.dom().contains(k) <==> m2.dom().contains(k) by {
        if exists|i: int| 0 <= i < t.len() && t[i].id == k {
            let i0 = choose|i: int| 0 <= i < t.len() && t[i].id == k;
            let j = if i0 < q { i0 } else { i0 + 1 };
            assert(s[j].id == k);
            assert(j != q);
            assert(k != s[q].id);
        }
        if k != s[q].id && (exists|i: int| 0 <= i < s.len() && s[i].id == k) {
            let i0 = choose|i: int| 0 <= i < s.len() && s[i].id == k;
            assert(i0 != q);
            if i0 < q {
                assert(t[i0].id == k);
            } else {
                assert(t[i0 - 1].id == k);
            }
        }
    }
    assert forall|k: int| m1.dom().contains(k) implies m1[k] == m2[k] by {
        let i0 = choose|i: int| 0 <= i < t.len() && t[i].id == k;
        assert(0 <= i0 < t.len() && t[i0].id == k);
        let j = if i0 < q { i0 } else { i0 + 1 };
        assert(s[j] == t[i0]);
        lemma_map_of_index(s, j);
    }
    assert(m1 =~= m2);
}

/// The first position whose rule code orders after `code`; the length when
/// none does.
fn find_insert_pos(rules: &Vec<Rule>, code: &Vec<char>) -> (p: usize)
    ensures
        p <= rules.deep_view().len(),
        forall|k: int| 0 <= k < p ==> !spec_str_lt(code@, rules.deep_view()[k].code),
        p < rules.deep_view().len() ==> spec_str_lt(code@, rules.deep_view()[p as int].code),
{
    let m: usize = rules.len();
    let mut p: usize = 0;
    while p < m
        invariant
            p <= m,
            m == rules.deep_view().len(),
            forall|k: int| 0 <= k < p ==> !spec_str_lt(code@, rules.deep_view()[k].code),
        decreases m - p,
    {
        let rc = str_to_chars(rules[p].code.as_str());
        assert(rc@ == rules.deep_view()[p as int].code);
        if str_lt_chars(code, &rc) {
            return p;
        }
        p = p + 1;
    }
    p
}

impl RuleCatalog {
    /// Write one rule into the catalog, keyed by id: insert it when no row
    /// with that id exists, otherwise overwrite every field of that row.
    /// A rule whose thresholds do not fit the integer columns, or whose
    /// code another row already owns, is rejected and nothing changes.
    #[verifier::rlimit(100)]
    pub fn upsert_rule(&mut self, r: Rule) -> (o: UpsertOutcome)
        requires
            old(self).wf(),
        ensures
            final(self).wf(),
            match o {
                UpsertOutcome::RejectedLevels => !r@.wf() && final(self)@ == old(self)@,
                UpsertOutcome::RejectedDuplicateCode => r@.wf() && (exists|j: int|
                    0 <= j < old(self)@.len() && old(self)@[j].id != r@.id && old(self)@[j].code
                        == r@.code) && final(self)@ == old(self)@,
                UpsertOutcome::Updated => r@.wf() && spec_map_of(final(self)@) == spec_map_of(
                    old(self)@,
                ).insert(r@.id, r@) && final(self)@.len() == old(self)@.len() && spec_map_of(
                    old(self)@,
                ).dom().contains(r@.id) && (forall|j: int|
                    0 <= j < old(self)@.len() ==> (old(self)@[j].code == r@.code ==> old(
                        self,
                    )@[j].id == r@.id)),
                UpsertOutcome::Added => r@.wf() && spec_map_of(final(self)@) == spec_map_of(
                    old(self)@,
                ).insert(r@.id, r@) && final(self)@.len() == old(self)@.len() + 1 && !spec_map_of(
                    old(self)@,
                ).dom().contains(r@.id) && (forall|j: int|
                    0 <= j < old(self)@.len() ==> old(self)@[j].code != r@.code),
            },
    {
        let min_level: i64 = i32::MIN as i64;
        let max_level: i64 = i32::MAX as i64;
        if r.warning_level < min_level || r.warning_level > max_level || r.error_level < min_level
            || r.error_level > max_level {
            return UpsertOutcome::RejectedLevels;
        }
        let n: usize = self.rules.len();
        let mut j: usize = 0;
        while j < n
            invariant
                j <= n,
                n == self@.len(),
                self@ == old(self)@,
                old(self).wf(),
                r@.wf(),
                forall|k: int| 0 <= k < j ==> (self@[k].code == r@.code ==> self@[k].id == r@.id),
            decreases n - j,
        {
            if self.rules[j].id != r.id && str_eq_str(
                self.rules[j].code.as_str(),
                r.code.as_str(),
            ) {
                assert(self@[j as int].id != r@.id && self@[j as int].code == r@.code);
                return UpsertOutcome::RejectedDuplicateCode;
            }
            j = j + 1;
        }
        let ghost s0 = self@;
        let existing = self.find_by_id(r.id);
        let ghost had_id = existing is Some;
        match existing {
            Some(qi) => {
                proof {
                    lemma_map_of_index(s0, qi as int);
                }
                self.rules.remove(qi);
                proof {
                    assert(self@ =~= s0.remove(qi as int));
                    s0.remove_ensures(qi as int);
                    let t = self@;
                    assert forall|i: int| 0 <= i < t.len() implies t[i].id != r@.id by {
                        if i < qi {
                            assert(t[i] == s0[i]);
                        } else {
                            assert(t[i] == s0[i + 1]);
                        }
                    }
                    assert(spec_sorted_by_code(t)) by {
                        assert forall|a: int, b: int| 0 <= a < b < t.len() implies spec_str_lt(
                            t[a].code,
                            t[b].code,
                        ) by {
                            let a2 = if a < qi {
                                a
                            } else {
                                a + 1
                            };
                            let b2 = if b < qi {
                                b
                            } else {
                                b + 1
                            };
                            assert(t[a] == s0[a2] && t[b] == s0[b2]);
                            assert(a2 < b2);
                        }
                    }
                    assert forall|i: int|
                        0 <= i < t.len() implies (t[i].code == r@.code ==> t[i].id == r@.id) by {
                        if i < qi {
                            assert(t[i] == s0[i]);
                        } else {
                            assert(t[i] == s0[i + 1]);
                        }
                    }
                    assert(spec_ids_unique(t)) by {
                        assert forall|a: int, b: int|
                            0 <= a < t.len() && 0 <= b < t.len() && a != b implies t[a].id
                            != t[b].id by {
                            let a2 = if a < qi {
                                a
                            } else {
                                a + 1
                            };
                            let b2 = if b < qi {
                                b
                            } else {
                                b + 1
                            };
                            assert(t[a] == s0[a2] && t[b] == s0[b2]);
                        }
                    }
                    assert forall|i: int| 0 <= i < t.len() implies (#[trigger] t[i]).wf() by {
                        if i < qi {
                            assert(t[i] == s0[i]);
                        } else {
                            assert(t[i] == s0[i + 1]);
                        }
                    }
                    lemma_map_of_remove(s0, qi as int);
                }
            },
            None => {},
        }
        let ghost t = self@;
        proof {
            if !had_id {
                assert forall|i: int| 0 <= i < t.len() implies t[i].id != r@.id by {}
            }
        }
        let code_chars = str_to_chars(r.code.as_str());
        let p = find_insert_pos(&self.rules, &code_chars);
        let ghost pp = p as int;
        self.rules.insert(p, r);
        proof {
            assert(self@ =~= t.insert(pp, r@));
            t.insert_ensures(pp, r@);
            let u = self@;
            assert forall|i: int| 0 <= i < u.len() implies (if i < pp {
                u[i] == t[i]
            } else if i == pp {
                u[i] == r@
            } else {
                u[i] == t[i - 1]
            }) by {
                if i > pp {
                    assert(u[(i - 1) + 1] == t[i - 1]);
                }
            }
            assert(spec_sorted_by_code(u)) by {
                assert forall|a: int, b: int| 0 <= a < b < u.len() implies spec_str_lt(
                    u[a].code,
                    u[b].code,
                ) by {
                    if a == pp {
                        assert(u[a] == r@);
                        assert(u[b] == t[b - 1]);
                        assert(pp < t.len());
                        if b - 1 == pp {
                            assert(spec_str_lt(r@.code, t[pp].code));
                        } else {
                            assert(spec_str_lt(t[pp].code, t[b - 1].code));
                            lemma_str_lt_trans(r@.code, t[pp].code, t[b - 1].code);
                        }
                    } else if b == pp {
                        assert(u[a] == t[a]);
                        assert(!spec_str_lt(r@.code, t[a].code));
                        assert(t[a].code != r@.code);
                        lemma_str_lt_trichotomy(r@.code, t[a].code);
                    } else if a < pp && pp < b {
                        assert(u[a] == t[a] && u[b] == t[b - 1]);
                        if a == b - 1 {
                            assert(false) by {
                                assert(a < pp && pp < b);
                            }
                        } else {
                            assert(spec_str_lt(t[a].code, t[b - 1].code));
                        }
                    } else if a < pp && b < pp {
                        assert(u[a] == t[a] && u[b] == t[b]);
                    } else {
                        assert(pp < a);
                        assert(u[a] == t[a - 1] && u[b] == t[b - 1]);
                    }
                }
            }
            assert(spec_ids_unique(u)) by {
                assert forall|a: int, b: int|
                    0 <= a < u.len() && 0 <= b < u.len() && a != b implies u[a].id != u[b].id by {
                    if a != pp && b != pp {
                        let a2 = if a < pp {
                            a
                        } else {
                            a - 1
                        };
                        let b2 = if b < pp {
                            b
                        } else {
                            b - 1
                        };
                        assert(u[a] == t[a2] && u[b] == t[b2]);
                        assert(a2 != b2);
                    }
                }
            }
            assert forall|i: int| 0 <= i < u.len() implies (#[trigger] u[i]).wf() by {
                if i != pp {
                    let i2 = if i < pp {
                        i
                    } else {
                        i - 1
                    };
                    assert(u[i] == t[i2]);
                }
            }
            lemma_map_of_insert(t, pp, r@);
            if had_id {
                assert(spec_map_of(u) =~= spec_map_of(s0).insert(r@.id, r@));
            } else {
                assert(spec_map_of(u) == spec_map_of(s0).insert(r@.id, r@));
                assert(!spec_map_of(s0).dom().contains(r@.id)) by {
                    if spec_map_of(s0).dom().contains(r@.id) {
                        let i0 = choose|i: int| 0 <= i < s0.len() && s0[i].id == r@.id;
                        assert(0 <= i0 < s0.len() && s0[i0].id == r@.id);
                    }
                }
            }
        }
        if existing.is_some() {
            UpsertOutcome::Updated
        } else {
            UpsertOutcome::Added
        }
    }
}


/// Rows sorted by code, unique ids, and well-formed thresholds throughout.
pub open spec fn spec_catalog_wf(s: Seq<RuleModel>) -> bool {
    &&& spec_sorted_by_code(s)
    &&& spec_ids_unique(s)
    &&& forall|i: int| 0 <= i < s.len() ==> (#[trigger] s[i]).wf()
}

/// Overwriting one row with a row of the same code and id keeps the catalog
/// well formed.
pub proof fn lemma_catalog_update_wf(s0: Seq<RuleModel>, u: Seq<RuleModel>, idx: int, rm: RuleModel)
    requires
        spec_catalog_wf(s0),
        0 <= idx < s0.len(),
        u == s0.update(idx, rm),
        rm.code == s0[idx].code,
        rm.id == s0[idx].id,
        rm.wf(),
    ensures
        spec_catalog_wf(u),
{
    assert(u.len() == s0.len());
    assert forall|a: int, b: int| 0 <= a < b < u.len() implies spec_str_lt(
        u[a].code,
        u[b].code,
    ) by {
        assert(u[a].code == s0[a].code && u[b].code == s0[b].code);
    }
    assert forall|a: int, b: int|
        0 <= a < u.len() && 0 <= b < u.len() && a != b implies u[a].id != u[b].id by {
        assert(u[a].id == s0[a].id && u[b].id == s0[b].id);
    }
    assert forall|i: int| 0 <= i < u.len() implies (#[trigger] u[i]).wf() by {
        if i != idx {
            assert(u[i] == s0[i]);
        }
    }
}

impl RuleCatalog {
    /// Replace the row at `idx` by a row with the same code and id.
    fn replace_row(&mut self, idx: usize, row: Rule)
        requires
            old(self).wf(),
            idx < old(self)@.len(),
            row@.code == old(self)@[idx as int].code,
            row@.id == old(self)@[idx as int].id,
            row@.wf(),
        ensures
            final(self).wf(),
            final(self)@ == old(self)@.update(idx as int, row@),
    {
        let ghost s0 = self@;
        let ghost rm = row@;
        self.rules.remove(idx);
        self.rules.insert(idx, row);
        proof {
            let u = self@;
            assert(self.rules@ == old(self).rules@.remove(idx as int).insert(idx as int, row));
            old(self).rules@.remove_ensures(idx as int);
            old(self).rules@.remove(idx as int).insert_ensures(idx as int, row);
            assert forall|k: int| 0 <= k < u.len() implies u[k] == (if k == idx as int {
                rm
            } else {
                s0[k]
            }) by {
                let mid = old(self).rules@.remove(idx as int);
                if k < idx as int {
                    assert(self.rules@[k] == mid[k]);
                    assert(mid[k] == old(self).rules@[k]);
                } else if k > idx as int {
                    assert(self.rules@[(k - 1) + 1] == mid[k - 1]);
                    assert(mid[k - 1] == old(self).rules@[(k - 1) + 1]);
                } else {
                    assert(self.rules@[k] == row);
                }
            }
            assert(u =~= s0.update(idx as int, rm));
            lemma_catalog_update_wf(s0, u, idx as int, rm);
        }
    }

    /// Set the enable flag of the rule with this code. Returns whether the
    /// rule was found; everything else about the catalog stays as it was.
    pub fn set_rule_enabled(&mut self, code: &str, enable: bool) -> (found: bool)
        requires
            old(self).wf(),
        ensures
            final(self).wf(),
            found == spec_has_code(old(self)@, code@),
            found ==> exists|i: int|
                0 <= i < old(self)@.len() && old(self)@[i].code == code@ && final(self)@ == old(
                    self,
                )@.update(i, (RuleModel { enable: enable, ..old(self)@[i] })),
            !found ==> final(self)@ == old(self)@,
    {
        let idx = match self.find_by_code(code) {
            Some(i) => i,
            None => {
                return false;
            },
        };
        let mut row = self.rules.remove(idx);
        let ghost s0 = old(self)@;
        proof {
            assert(row@ == s0[idx as int]);
        }
        row.enable = enable;
        self.rules.insert(idx, row);
        proof {
            let u = self@;
            old(self).rules@.remove_ensures(idx as int);
            old(self).rules@.remove(idx as int).insert_ensures(idx as int, row);
            assert forall|k: int| 0 <= k < u.len() implies u[k] == (if k == idx as int {
                (RuleModel { enable: enable, ..s0[idx as int] })
            } else {
                s0[k]
            }) by {
                let mid = old(self).rules@.remove(idx as int);
                if k < idx as int {
                    assert(self.rules@[k] == mid[k]);
                    assert(mid[k] == old(self).rules@[k]);
                } else if k > idx as int {
                    assert(self.rules@[(k - 1) + 1] == mid[k - 1]);
                    assert(mid[k - 1] == old(self).rules@[(k - 1) + 1]);
                } else {
                    assert(self.rules@[k] == row);
                }
            }
            assert(u =~= s0.update(idx as int, (RuleModel { enable: enable, ..s0[idx as int] })));
            lemma_catalog_update_wf(
                s0,
                u,
                idx as int,
                (RuleModel { enable: enable, ..s0[idx as int] }),
            );
        }
        true
    }

    /// Enable the rule with this code. Returns whether it was found.
    pub fn enable_rule(&mut self, code: &str) -> (found: bool)
        requires
            old(self).wf(),
        ensures
            final(self).wf(),
            found == spec_has_code(old(self)@, code@),
            found ==> exists|i: int|
                0 <= i < old(self)@.len() && old(self)@[i].code == code@ && final(self)@ == old(
                    self,
                )@.update(i, (RuleModel { enable: true, ..old(self)@[i] })),
            !found ==> final(self)@ == old(self)@,
    {
        self.set_rule_enabled(code, true)
    }

    /// Disable the rule with this code. Returns whether it was found.
    pub fn disable_rule(&mut self, code: &str) -> (found: bool)
        requires
            old(self).wf(),
        ensures
            final(self).wf(),
            found == spec_has_code(old(self)@, code@),
            found ==> exists|i: int|
                0 <= i < old(self)@.len() && old(self)@[i].code == code@ && final(self)@ == old(
                    self,
                )@.update(i, (RuleModel { enable: false, ..old(self)@[i] })),
            !found ==> final(self)@ == old(self)@,
    {
        self.set_rule_enabled(code, false)
    }

    /// Whether the rule with this code is enabled. A missing rule counts as
    /// disabled.
    pub fn is_rule_enabled(&self, code: &str) -> (r: bool)
        requires
            self.wf(),
        ensures
            r == spec_enabled(self@, code@),
    {
        match self.find_by_code(code) {
            Some(i) => {
                let e = self.rules[i].enable;
                proof {
                    if !e {
                        assert forall|j: int|
                            0 <= j < self@.len() && self@[j].code == code@ implies !self@[j].enable by {
                            if j != i as int {
                                lemma_str_lt_trichotomy(self@[j].code, self@[i as int].code);
                                assert(false);
                            }
                        }
                    }
                }
                e
            },
            None => false,
        }
    }

    /// The warning and error thresholds of the rule with this code, or the
    /// default pair (50, 90) when no such rule exists.
    pub fn get_rule_levels(&self, code: &str) -> (r: (i32, i32))
        requires
            self.wf(),
        ensures
            spec_has_code(self@, code@) ==> exists|i: int|
                0 <= i < self@.len() && self@[i].code == code@ && r.0 as int
                    == self@[i].warning_level && r.1 as int == self@[i].error_level,
            !spec_has_code(self@, code@) ==> r == (50i32, 90i32),
    {
        match self.find_by_code(code) {
            Some(i) => {
                let w = self.rules[i].warning_level;
                let e = self.rules[i].error_level;
                assert(self@[i as int].wf());
                ((w as i32), (e as i32))
            },
            None => (50, 90),
        }
    }

    /// Overwrite the thresholds of the rule with this code; a `None` keeps
    /// the present value. Returns whether the rule was found.
    pub fn update_rule_levels(
        &mut self,
        code: &str,
        warning_level: Option<i32>,
        error_level: Option<i32>,
    ) -> (found: bool)
        requires
            old(self).wf(),
        ensures
            final(self).wf(),
            found == spec_has_code(old(self)@, code@),
            found ==> exists|i: int|
                0 <= i < old(self)@.len() && old(self)@[i].code == code@ && final(self)@ == old(
                    self,
                )@.update(
                    i,
                    (RuleModel {
                        warning_level: match warning_level {
                            Some(w) => w as int,
                            None => old(self)@[i].warning_level,
                        },
                        error_level: match error_level {
                            Some(e) => e as int,
                            None => old(self)@[i].error_level,
                        },
                        ..old(self)@[i]
                    }),
                ),
            !found ==> final(self)@ == old(self)@,
    {
        let idx = match self.find_by_code(code) {
            Some(i) => i,
            None => {
                return false;
            },
        };
        let ghost s0 = old(self)@;
        assert(s0[idx as int].wf());
        let current_w = self.rules[idx].warning_level;
        let current_e = self.rules[idx].error_level;
        let new_w: i64 = match warning_level {
            Some(w) => w as i64,
            None => current_w,
        };
        let new_e: i64 = match error_level {
            Some(e) => e as i64,
            None => current_e,
        };
        let mut row = self.rules.remove(idx);
        proof {
            assert(row@ == s0[idx as int]);
        }
        row.warning_level = new_w;
        row.error_level = new_e;
        let ghost rm = row@;
        self.rules.insert(idx, row);
        proof {
            let u = self@;
            old(self).rules@.remove_ensures(idx as int);
            old(self).rules@.remove(idx as int).insert_ensures(idx as int, row);
            assert forall|k: int| 0 <= k < u.len() implies u[k] == (if k == idx as int {
                rm
            } else {
                s0[k]
            }) by {
                let mid = old(self).rules@.remove(idx as int);
                if k < idx as int {
                    assert(self.rules@[k] == mid[k]);
                    assert(mid[k] == old(self).rules@[k]);
                } else if k > idx as int {
                    assert(self.rules@[(k - 1) + 1] == mid[k - 1]);
                    assert(mid[k - 1] == old(self).rules@[(k - 1) + 1]);
                } else {
                    assert(self.rules@[k] == row);
                }
            }
            assert(u =~= s0.update(idx as int, rm));
            lemma_catalog_update_wf(s0, u, idx as int, rm);
        }
        true
    }

    /// The thresholds and message template of the rule with this code, or an
    /// error naming the missing rule. A missing rule is a hard error here,
    /// distinct from a disabled one.
    pub fn get_rule_config(&self, code: &str) -> (r: Result<(i64, i64, String), String>)
        ensures
            match r {
                Ok(c) => exists|i: int|
                    0 <= i < self@.len() && self@[i].code == code@ && c.0 as int
                        == self@[i].warning_level && c.1 as int == self@[i].error_level && c.2@
                        == self@[i].message,
                Err(e) => !spec_has_code(self@, code@) && e@ == "Rule '"@ + code@
                    + "' not found in the rule catalog"@,
            },
    {
        match self.find_by_code(code) {
            Some(i) => {
                let w = self.rules[i].warning_level;
                let e = self.rules[i].error_level;
                let msg = clone_string(&self.rules[i].message);
                Ok((w, e, msg))
            },
            None => {
                let mut t: Vec<char> = Vec::new();
                append_str(&mut t, "Rule '");
                append_str(&mut t, code);
                append_str(&mut t, "' not found in the rule catalog");
                assert(t@ =~= "Rule '"@ + code@ + "' not found in the rule catalog"@);
                Err(chars_to_string(&t))
            },
        }
    }

    /// One (code, name, enabled) triple per rule, in catalog order (sorted
    /// by code).
    pub fn list_rules(&self) -> (r: Vec<(String, String, bool)>)
        ensures
            r@.len() == self@.len(),
            forall|i: int|
                0 <= i < r@.len() ==> (#[trigger] r@[i]).0@ == self@[i].code && r@[i].1@
                    == self@[i].name && r@[i].2 == self@[i].enable,
    {
        let n: usize = self.rules.len();
        let mut r: Vec<(String, String, bool)> = Vec::new();
        let mut i: usize = 0;
        while i < n
            invariant
                i <= n,
                n == self@.len(),
                r@.len() == i,
                forall|k: int|
                    0 <= k < i ==> (#[trigger] r@[k]).0@ == self@[k].code && r@[k].1@
                        == self@[k].name && r@[k].2 == self@[k].enable,
            decreases n - i,
        {
            let code = clone_string(&self.rules[i].code);
            let name = clone_string(&self.rules[i].name);
            let enable = self.rules[i].enable;
            r.push((code, name, enable));
            i = i + 1;
        }
        r
    }
}

/// How many rules in the sequence are disabled.
pub open spec fn spec_count_disabled(s: Seq<RuleModel>) -> int
    decreases s.len(),
{
    if s.len() == 0 {
        0
    } else {
        spec_count_disabled(s.drop_last()) + if s.last().enable {
            0int
        } else {
            1int
        }
    }
}

/// How many rules in the sequence are enabled.
pub open spec fn spec_count_enabled(s: Seq<RuleModel>) -> int
    decreases s.len(),
{
    if s.len() == 0 {
        0
    } else {
        spec_count_enabled(s.drop_last()) + if s.last().enable {
            1int
        } else {
            0int
        }
    }
}

impl RuleCatalog {
    /// Enable every rule. Returns how many rules were disabled before.
    pub fn enable_all_rules(&mut self) -> (count: usize)
        requires
            old(self).wf(),
        ensures
            final(self).wf(),
            final(self)@.len() == old(self)@.len(),
            forall|i: int|
                0 <= i < old(self)@.len() ==> final(self)@[i] == (RuleModel {
                    enable: true,
                    ..old(self)@[i]
                }),
            count == spec_count_disabled(old(self)@),
    {
        self.set_all_enabled(true)
    }

    /// Disable every rule. Returns how many rules were enabled before.
    pub fn disable_all_rules(&mut self) -> (count: usize)
        requires
            old(self).wf(),
        ensures
            final(self).wf(),
            final(self)@.len() == old(self)@.len(),
            forall|i: int|
                0 <= i < old(self)@.len() ==> final(self)@[i] == (RuleModel {
                    enable: false,
                    ..old(self)@[i]
                }),
            count == spec_count_enabled(old(self)@),
    {
        self.set_all_enabled(false)
    }

    /// Set every rule's enable flag. Returns how many rows changed.
    fn set_all_enabled(&mut self, enable: bool) -> (count: usize)
        requires
            old(self).wf(),
        ensures
            final(self).wf(),
            final(self)@.len() == old(self)@.len(),
            forall|i: int|
                0 <= i < old(self)@.len() ==> final(self)@[i] == (RuleModel {
                    enable: enable,
                    ..old(self)@[i]
                }),
            enable ==> count == spec_count_disabled(old(self)@),
            !enable ==> count == spec_count_enabled(old(self)@),
    {
        let ghost s0 = old(self)@;
        let n: usize = self.rules.len();
        let mut count: usize = 0;
        let mut i: usize = 0;
        proof {
            assert(s0.take(0) =~= Seq::<RuleModel>::empty());
        }
        while i < n
            invariant
                i <= n,
                n == s0.len(),
                self@.len() == n,
                self.wf(),
                forall|k: int|
                    0 <= k < i ==> self@[k] == (RuleModel { enable: enable, ..s0[k] }),
                forall|k: int| i <= k < n ==> self@[k] == s0[k],
                count <= i,
                enable ==> count == spec_count_disabled(s0.take(i as int)),
                !enable ==> count == spec_count_enabled(s0.take(i as int)),
            decreases n - i,
        {
            let ghost before = self@;
            proof {
                assert(s0.take(i + 1).drop_last() =~= s0.take(i as int));
                assert(s0.take(i + 1).last() == s0[i as int]);
            }
            let changed = self.rules[i].enable != enable;
            if changed {
                count = count + 1;
            }
            let ghost rules_before = self.rules@;
            let mut row = self.rules.remove(i);
            proof {
                assert(row@ == before[i as int]);
            }
            row.enable = enable;
            let ghost rm = row@;
            self.rules.insert(i, row);
            proof {
                let u = self@;
                rules_before.remove_ensures(i as int);
                rules_before.remove(i as int).insert_ensures(i as int, row);
                assert forall|k: int| 0 <= k < u.len() implies u[k] == (if k == i as int {
                    rm
                } else {
                    before[k]
                }) by {
                    let mid = rules_before.remove(i as int);
                    if k < i as int {
                        assert(self.rules@[k] == mid[k]);
                        assert(mid[k] == rules_before[k]);
                    } else if k > i as int {
                        assert(self.rules@[(k - 1) + 1] == mid[k - 1]);
                        assert(mid[k - 1] == rules_before[(k - 1) + 1]);
                    } else {
                        assert(self.rules@[k] == row);
                    }
                }
                assert(u =~= before.update(i as int, rm));
                lemma_catalog_update_wf(before, u, i as int, rm);
            }
            i = i + 1;
        }
        proof {
            assert(s0.take(n as int) =~= s0);
        }
        count
    }
}

/// The separator line of rendered rule texts.
pub open spec fn spec_separator() -> Seq<char> {
    "============================================================"@
}

/// One numbered fix line.
pub open spec fn spec_fix_item(k: int, f: Seq<char>) -> Seq<char> {
    "   "@ + crate::num::spec_i64_dec(k) + ". "@ + f
}

/// The numbered fix lines, joined with newlines, numbering from `k`.
pub open spec fn spec_fix_list(fixes: Seq<Seq<char>>, k: int) -> Seq<char>
    decreases fixes.len(),
{
    if fixes.len() == 0 {
        Seq::empty()
    } else if fixes.len() == 1 {
        spec_fix_item(k, fixes[0])
    } else {
        spec_fix_item(k, fixes[0]) + "\n"@ + spec_fix_list(fixes.skip(1), k + 1)
    }
}

/// The fix section of a rule explanation.
pub open spec fn spec_fixes_section(fixes: Seq<Seq<char>>) -> Seq<char> {
    if fixes.len() == 0 {
        "No specific fixes available."@
    } else {
        spec_fix_list(fixes, 1)
    }
}

/// The full explanation text of one rule.
pub open spec fn spec_explain_text(m: RuleModel) -> Seq<char> {
    "Rule Explanation for "@ + m.code + "\n"@ + spec_separator() + "\n\nRule Name: "@ + m.name
        + "\nScope: "@ + m.scope + "\n\nDescription:\n"@ + m.description
        + "\n\nMessage Template:\n"@ + m.message + "\n\nHow to Fix:\n"@ + spec_fixes_section(
        m.fixes,
    ) + "\n"@ + spec_separator()
}

/// One line of the rule status listing.
pub open spec fn spec_status_line(m: RuleModel) -> Seq<char> {
    m.code + " "@ + (if m.enable {
        "ON "@
    } else {
        "OFF"@
    }) + " "@ + m.name + "\n"@
}

/// The per-rule status lines, concatenated.
pub open spec fn spec_status_lines(s: Seq<RuleModel>) -> Seq<char>
    decreases s.len(),
{
    if s.len() == 0 {
        Seq::empty()
    } else {
        spec_status_line(s[0]) + spec_status_lines(s.skip(1))
    }
}

/// The whole rule status text: one line per rule and the enabled/disabled
/// counts.
pub open spec fn spec_status_text(s: Seq<RuleModel>) -> Seq<char> {
    "Rule Status:\n"@ + spec_separator() + "\n"@ + spec_status_lines(s) + spec_separator() + "\n"@
        + "Summary: "@ + crate::num::spec_i64_dec(spec_count_enabled(s)) + " enabled, "@
        + crate::num::spec_i64_dec(spec_count_disabled(s)) + " disabled\n"@
}

/// A query field rendered for display: the text, or a placeholder.
pub open spec fn spec_query_or_none(q: Option<Seq<char>>) -> Seq<char> {
    match q {
        Some(s) => s,
        None => "(none)"@,
    }
}

/// The displayed queries of one rule.
pub open spec fn spec_queries_text(m: RuleModel) -> Seq<char> {
    "Rule "@ + m.code + " queries:\nq1: "@ + spec_query_or_none(m.q1) + "\nq2: "@
        + spec_query_or_none(m.q2) + "\n"@
}

impl RuleCatalog {
    /// The explanation text of the rule with this code, or an error naming
    /// the missing rule.
    pub fn explain_rule(&self, code: &str) -> (r: Result<String, String>)
        ensures
            match r {
                Ok(s) => exists|i: int|
                    0 <= i < self@.len() && self@[i].code == code@ && s@ == spec_explain_text(
                        #[trigger] self@[i],
                    ),
                Err(e) => !spec_has_code(self@, code@) && e@ == "Rule '"@ + code@ + "' not found"@,
            },
    {
        let idx = match self.find_by_code(code) {
            Some(i) => i,
            None => {
                let mut t: Vec<char> = Vec::new();
                append_str(&mut t, "Rule '");
                append_str(&mut t, code);
                append_str(&mut t, "' not found");
                assert(t@ =~= "Rule '"@ + code@ + "' not found"@);
                return Err(chars_to_string(&t));
            },
        };
        let ghost m = self@[idx as int];
        let row = &self.rules[idx];
        let mut t: Vec<char> = Vec::new();
        append_str(&mut t, "Rule Explanation for ");
        append_str(&mut t, row.code.as_str());
        append_str(&mut t, "\n");
        append_str(&mut t, "============================================================");
        append_str(&mut t, "\n\nRule Name: ");
        append_str(&mut t, row.name.as_str());
        append_str(&mut t, "\nScope: ");
        append_str(&mut t, row.scope.as_str());
        append_str(&mut t, "\n\nDescription:\n");
        append_str(&mut t, row.description.as_str());
        append_str(&mut t, "\n\nMessage Template:\n");
        append_str(&mut t, row.message.as_str());
        append_str(&mut t, "\n\nHow to Fix:\n");
        let ghost head = "Rule Explanation for "@ + m.code + "\n"@ + spec_separator()
            + "\n\nRule Name: "@ + m.name + "\nScope: "@ + m.scope + "\n\nDescription:\n"@
            + m.description + "\n\nMessage Template:\n"@ + m.message + "\n\nHow to Fix:\n"@;
        assert(t@ =~= head);
        let nf: usize = row.fixes.len();
        if nf == 0 {
            append_str(&mut t, "No specific fixes available.");
            assert(t@ =~= head + spec_fixes_section(m.fixes));
        } else {
            let ghost fixes = m.fixes;
            let mut j: usize = 0;
            proof {
                assert(fixes.skip(0) =~= fixes);
            }
            while j < nf
                invariant
                    j <= nf,
                    nf == fixes.len(),
                    fixes == m.fixes,
                    m == self@[idx as int],
                    idx < self@.len(),
                    j == 0 ==> t@ == head,
                    0 < j < nf ==> head + spec_fix_list(fixes, 1) == t@ + "\n"@ + spec_fix_list(
                        fixes.skip(j as int),
                        j + 1,
                    ),
                    j == nf && j > 0 ==> head + spec_fix_list(fixes, 1) == t@,
                decreases nf - j,
            {
                if j > 0 {
                    append_str(&mut t, "\n");
                }
                proof {
                    if j == 0 && nf > 1 {
                        assert(spec_fix_list(fixes, 1) == spec_fix_item(1, fixes[0]) + "\n"@
                            + spec_fix_list(fixes.skip(1), 2));
                    }
                }
                let ghost before = t@;
                append_str(&mut t, "   ");
                let num: u64 = (j as u64) + 1;
                crate::num::push_u64_dec(&mut t, num);
                append_str(&mut t, ". ");
                append_str(&mut t, self.rules[idx].fixes[j].as_str());
                proof {
                    assert(self.rules@[idx as int].fixes@[j as int]@ == fixes[j as int]);
                    assert(t@ =~= before + spec_fix_item(j + 1, fixes[j as int]));
                }
                j = j + 1;
                proof {
                    let rest = fixes.skip(j - 1);
                    assert(rest[0] == fixes[j - 1]);
                    assert(rest.skip(1) =~= fixes.skip(j as int));
                    if j < nf {
                        assert(rest.len() > 1);
                        assert(spec_fix_list(rest, j as int) == spec_fix_item(
                            j as int,
                            fixes[j - 1],
                        ) + "\n"@ + spec_fix_list(fixes.skip(j as int), j + 1));
                    } else {
                        assert(rest.len() == 1);
                        assert(spec_fix_list(rest, j as int) == spec_fix_item(
                            j as int,
                            fixes[j - 1],
                        ));
                    }
                }
            }
            assert(t@ =~= head + spec_fixes_section(m.fixes));
        }
        append_str(&mut t, "\n");
        append_str(&mut t, "============================================================");
        assert(t@ =~= spec_explain_text(m));
        Ok(chars_to_string(&t))
    }

    /// The rule status listing: every rule with its enabled flag, and the
    /// enabled/disabled counts.
    pub fn show_rule_status(&self) -> (r: String)
        ensures
            r@ == spec_status_text(self@),
    {
        let ghost s = self@;
        let mut t: Vec<char> = Vec::new();
        append_str(&mut t, "Rule Status:\n");
        append_str(&mut t, "============================================================");
        append_str(&mut t, "\n");
        let ghost head = "Rule Status:\n"@ + spec_separator() + "\n"@;
        assert(t@ =~= head);
        let n: usize = self.rules.len();
        let mut i: usize = 0;
        proof {
            assert(s.skip(0) =~= s);
            assert(head + spec_status_lines(s) =~= t@ + spec_status_lines(s.skip(0)));
        }
        while i < n
            invariant
                i <= n,
                n == s.len(),
                s == self@,
                head + spec_status_lines(s) == t@ + spec_status_lines(s.skip(i as int)),
            decreases n - i,
        {
            let ghost rest = s.skip(i as int);
            proof {
                assert(rest[0] == s[i as int]);
                assert(rest.skip(1) =~= s.skip(i + 1));
            }
            let ghost before = t@;
            append_str(&mut t, self.rules[i].code.as_str());
            append_str(&mut t, " ");
            if self.rules[i].enable {
                append_str(&mut t, "ON ");
            } else {
                append_str(&mut t, "OFF");
            }
            append_str(&mut t, " ");
            append_str(&mut t, self.rules[i].name.as_str());
            append_str(&mut t, "\n");
            proof {
                assert(t@ =~= before + spec_status_line(s[i as int]));
            }
            i = i + 1;
        }
        proof {
            assert(s.skip(n as int) =~= Seq::<RuleModel>::empty());
            assert(t@ =~= head + spec_status_lines(s));
        }
        let enabled = self.count_enabled();
        let disabled = self.count_disabled();
        append_str(&mut t, "============================================================");
        append_str(&mut t, "\n");
        append_str(&mut t, "Summary: ");
        crate::num::push_u64_dec(&mut t, enabled as u64);
        append_str(&mut t, " enabled, ");
        crate::num::push_u64_dec(&mut t, disabled as u64);
        append_str(&mut t, " disabled\n");
        assert(t@ =~= spec_status_text(s));
        chars_to_string(&t)
    }

    /// How many rules are enabled.
    pub fn count_enabled(&self) -> (r: usize)
        ensures
            r == spec_count_enabled(self@),
    {
        let ghost s = self@;
        let n: usize = self.rules.len();
        let mut count: usize = 0;
        let mut i: usize = 0;
        proof {
            assert(s.take(0) =~= Seq::<RuleModel>::empty());
        }
        while i < n
            invariant
                i <= n,
                n == s.len(),
                s == self@,
                count <= i,
                count == spec_count_enabled(s.take(i as int)),
            decreases n - i,
        {
            proof {
                assert(s.take(i + 1).drop_last() =~= s.take(i as int));
                assert(s.take(i + 1).last() == s[i as int]);
            }
            if self.rules[i].enable {
                count = count + 1;
            }
            i = i + 1;
        }
        proof {
            assert(s.take(n as int) =~= s);
        }
        count
    }

    /// How many rules are disabled.
    pub fn count_disabled(&self) -> (r: usize)
        ensures
            r == spec_count_disabled(self@),
    {
        let ghost s = self@;
        let n: usize = self.rules.len();
        let mut count: usize = 0;
        let mut i: usize = 0;
        proof {
            assert(s.take(0) =~= Seq::<RuleModel>::empty());
        }
        while i < n
            invariant
                i <= n,
                n == s.len(),
                s == self@,
                count <= i,
                count == spec_count_disabled(s.take(i as int)),
            decreases n - i,
        {
            proof {
                assert(s.take(i + 1).drop_last() =~= s.take(i as int));
                assert(s.take(i + 1).last() == s[i as int]);
            }
            if !self.rules[i].enable {
                count = count + 1;
            }
            i = i + 1;
        }
        proof {
            assert(s.take(n as int) =~= s);
        }
        count
    }

    /// The displayed queries of the rule with this code, or nothing when no
    /// such rule exists.
    pub fn show_rule_queries(&self, code: &str) -> (r: Option<String>)
        ensures
            match r {
                Some(s) => exists|i: int|
                    0 <= i < self@.len() && self@[i].code == code@ && s@ == spec_queries_text(
                        #[trigger] self@[i],
                    ),
                None => !spec_has_code(self@, code@),
            },
    {
        let idx = match self.find_by_code(code) {
            Some(i) => i,
            None => {
                return None;
            },
        };
        let ghost m = self@[idx as int];
        let row = &self.rules[idx];
        let mut t: Vec<char> = Vec::new();
        append_str(&mut t, "Rule ");
        append_str(&mut t, row.code.as_str());
        append_str(&mut t, " queries:\nq1: ");
        match &row.q1 {
            Some(q) => {
                append_str(&mut t, q.as_str());
            },
            None => {
                append_str(&mut t, "(none)");
            },
        }
        append_str(&mut t, "\nq2: ");
        match &row.q2 {
            Some(q) => {
                append_str(&mut t, q.as_str());
            },
            None => {
                append_str(&mut t, "(none)");
            },
        }
        append_str(&mut t, "\n");
        assert(t@ =~= spec_queries_text(m));
        Some(chars_to_string(&t))
    }
}

} // verus!
