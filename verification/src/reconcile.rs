//! The reconciler. It merges the definition records and the saved entries
//! into one map from parameter name to typed value: every definition whose
//! declared type is recognized contributes a default-valued entry (a later
//! definition of the same name overwrites an earlier one), and every saved
//! entry whose name is present converts its raw value into the entry's
//! existing variant. A saved entry with no matching definition changes
//! nothing, and a definition with an unrecognized type never appears.

use vstd::prelude::*;
use vstd::string::StringExecFns;
use crate::defs::{defs_view, OscConfigParameter};
use crate::saved::{saved_view, SavedParameter};
use crate::text::chars_vec;
use crate::value::{parameter_type_from_chars, parameter_type_of, ParameterType, RawValue};

verus! {

/// The typed runtime value of one parameter.
#[derive(Clone, Copy, Debug, PartialEq, Eq, Structural)]
pub enum ParameterValue {
    Float(RawValue),
    Int(u8),
    Bool(bool),
}

/// The default value a freshly declared parameter takes: zero, or `false`.
pub open spec fn default_value(t: ParameterType) -> ParameterValue {
    match t {
        ParameterType::Float => ParameterValue::Float(
            RawValue { negative: false, ten_thousandths: 0 },
        ),
        ParameterType::Int => ParameterValue::Int(0),
        ParameterType::Bool => ParameterValue::Bool(false),
    }
}

/// A raw saved value applied to an existing typed value: the variant is kept
/// and only its payload is replaced — verbatim for a float, truncated and
/// saturated for an integer, compared against one half for a boolean.
pub open spec fn applied(v: ParameterValue, raw: RawValue) -> ParameterValue {
    match v {
        ParameterValue::Float(_) => ParameterValue::Float(raw),
        ParameterValue::Int(_) => ParameterValue::Int(raw.spec_as_int()),
        ParameterValue::Bool(_) => ParameterValue::Bool(raw.spec_as_bool()),
    }
}

/// The map of default-valued entries the definition records declare, in
/// order; unrecognized types are skipped and a later record overwrites an
/// earlier one of the same name.
pub open spec fn defaults_map(defs: Seq<(Seq<char>, Seq<char>)>) -> Map<Seq<char>, ParameterValue>
    decreases defs.len(),
{
    if defs.len() == 0 {
        Map::empty()
    } else {
        let m = defaults_map(defs.drop_last());
        match parameter_type_of(defs.last().1) {
            Some(t) => m.insert(defs.last().0, default_value(t)),
            None => m,
        }
    }
}

/// The map after the saved entries are applied in order: an entry whose name
/// is present replaces that value through `applied`; any other entry is
/// ignored.
pub open spec fn apply_saved(
    m: Map<Seq<char>, ParameterValue>,
    saved: Seq<(Seq<char>, RawValue)>,
) -> Map<Seq<char>, ParameterValue>
    decreases saved.len(),
{
    if saved.len() == 0 {
        m
    } else {
        let m1 = apply_saved(m, saved.drop_last());
        let e = saved.last();
        if m1.dom().contains(e.0) {
            m1.insert(e.0, applied(m1[e.0], e.1))
        } else {
            m1
        }
    }
}

/// The reconciled parameter map of the given definitions and saved entries.
pub open spec fn reconciled(
    defs: Seq<(Seq<char>, Seq<char>)>,
    saved: Seq<(Seq<char>, RawValue)>,
) -> Map<Seq<char>, ParameterValue> {
    apply_saved(defaults_map(defs), saved)
}

/// The views of a sequence of owned entries.
pub open spec fn entry_views(es: Seq<(String, ParameterValue)>) -> Seq<(Seq<char>, ParameterValue)> {
    es.map_values(|e: (String, ParameterValue)| (e.0@, e.1))
}

/// No two entries share a key.
pub open spec fn unique_keys(es: Seq<(Seq<char>, ParameterValue)>) -> bool {
    forall|a: int, b: int| 0 <= a < b < es.len() ==> es[a].0 != es[b].0
}

/// The map an entry sequence denotes.
pub open spec fn entries_map(es: Seq<(Seq<char>, ParameterValue)>) -> Map<
    Seq<char>,
    ParameterValue,
>
    decreases es.len(),
{
    if es.len() == 0 {
        Map::empty()
    } else {
        entries_map(es.drop_last()).insert(es.last().0, es.last().1)
    }
}

pub proof fn lemma_entries_map_contains(es: Seq<(Seq<char>, ParameterValue)>, name: Seq<char>)
    ensures
        entries_map(es).dom().contains(name) <==> exists|k: int| 0 <= k < es.len() && es[k].0
            == name,
    decreases es.len(),
{
    if es.len() > 0 {
        lemma_entries_map_contains(es.drop_last(), name);
        if es.last().0 == name {
            assert(es[es.len() - 1].0 == name);
        } else if entries_map(es).dom().contains(name) {
            let k = choose|k: int| 0 <= k < es.drop_last().len() && es.drop_last()[k].0 == name;
            assert(es[k].0 == name);
        } else {
            assert forall|k: int| 0 <= k < es.len() implies es[k].0 != name by {
                if k < es.len() - 1 {
                    assert(es.drop_last()[k].0 == es[k].0);
                }
            }
        }
    }
}

pub proof fn lemma_entries_map_at(es: Seq<(Seq<char>, ParameterValue)>, idx: int)
    requires
        unique_keys(es),
        0 <= idx < es.len(),
    ensures
        entries_map(es).dom().contains(es[idx].0),
        entries_map(es)[es[idx].0] == es[idx].1,
    decreases es.len(),
{
    if idx == es.len() - 1 {
    } else {
        assert(unique_keys(es.drop_last())) by {
            assert forall|a: int, b: int|
                0 <= a < b < es.drop_last().len() implies es.drop_last()[a].0
                != es.drop_last()[b].0 by {
                assert(es.drop_last()[a].0 == es[a].0);
                assert(es.drop_last()[b].0 == es[b].0);
            }
        }
        assert(es.drop_last()[idx] == es[idx]);
        lemma_entries_map_at(es.drop_last(), idx);
        assert(es[idx].0 != es.last().0);
    }
}

pub proof fn lemma_entries_map_update(
    es: Seq<(Seq<char>, ParameterValue)>,
    idx: int,
    v: ParameterValue,
)
    requires
        unique_keys(es),
        0 <= idx < es.len(),
    ensures
        entries_map(es.update(idx, (es[idx].0, v))) == entries_map(es).insert(es[idx].0, v),
        unique_keys(es.update(idx, (es[idx].0, v))),
    decreases es.len(),
{
    let k = es[idx].0;
    let es2 = es.update(idx, (k, v));
    assert(unique_keys(es2)) by {
        assert forall|a: int, b: int| 0 <= a < b < es2.len() implies es2[a].0 != es2[b].0 by {
            assert(es2[a].0 == es[a].0);
            assert(es2[b].0 == es[b].0);
        }
    }
    if idx == es.len() - 1 {
        assert(es2.drop_last() =~= es.drop_last());
        assert(entries_map(es2) == entries_map(es.drop_last()).insert(k, v));
        assert(entries_map(es.drop_last()).insert(k, es[idx].1).insert(k, v) =~= entries_map(
            es.drop_last(),
        ).insert(k, v));
    } else {
        assert(unique_keys(es.drop_last())) by {
            assert forall|a: int, b: int|
                0 <= a < b < es.drop_last().len() implies es.drop_last()[a].0
                != es.drop_last()[b].0 by {
                assert(es.drop_last()[a].0 == es[a].0);
                assert(es.drop_last()[b].0 == es[b].0);
            }
        }
        assert(es.drop_last()[idx] == es[idx]);
        lemma_entries_map_update(es.drop_last(), idx, v);
        assert(es2.drop_last() =~= es.drop_last().update(idx, (k, v)));
        assert(es2.last() == es.last());
        assert(es.last().0 != k);
        assert(entries_map(es.drop_last()).insert(k, v).insert(es.last().0, es.last().1)
            =~= entries_map(es.drop_last()).insert(es.last().0, es.last().1).insert(k, v));
    }
}

pub proof fn lemma_entries_map_dom_len(es: Seq<(Seq<char>, ParameterValue)>)
    requires
        unique_keys(es),
    ensures
        entries_map(es).dom().finite(),
        entries_map(es).dom().len() == es.len(),
    decreases es.len(),
{
    if es.len() > 0 {
        assert(unique_keys(es.drop_last())) by {
            assert forall|a: int, b: int|
                0 <= a < b < es.drop_last().len() implies es.drop_last()[a].0
                != es.drop_last()[b].0 by {
                assert(es.drop_last()[a].0 == es[a].0);
                assert(es.drop_last()[b].0 == es[b].0);
            }
        }
        lemma_entries_map_dom_len(es.drop_last());
        lemma_entries_map_contains(es.drop_last(), es.last().0);
        assert(!entries_map(es.drop_last()).dom().contains(es.last().0)) by {
            if exists|k: int|
                0 <= k < es.drop_last().len() && es.drop_last()[k].0 == es.last().0 {
                let k = choose|k: int|
                    0 <= k < es.drop_last().len() && es.drop_last()[k].0 == es.last().0;
                assert(es[k].0 == es[es.len() - 1].0);
                assert(false);
            }
        }
    }
}

/// The reconciled parameter map: a name-keyed collection of typed values.
/// Rebuilt in full on every load and never patched in place.
pub struct ParameterMap {
    entries: Vec<(String, ParameterValue)>,
}

impl View for ParameterMap {
    type V = Map<Seq<char>, ParameterValue>;

    closed spec fn view(&self) -> Map<Seq<char>, ParameterValue> {
        entries_map(entry_views(self.entries@))
    }
}

impl ParameterMap {
    /// Every parameter name keys at most one entry.
    #[verifier::type_invariant]
    closed spec fn wf(self) -> bool {
        unique_keys(entry_views(self.entries@))
    }

    /// The number of parameters in the map.
    pub fn len(&self) -> (n: usize)
        ensures
            n == self@.dom().len(),
    {
        proof {
            use_type_invariant(self);
            lemma_entries_map_dom_len(entry_views(self.entries@));
        }
        self.entries.len()
    }

    /// Looks a parameter up by name.
    pub fn get(&self, name: &String) -> (r: Option<&ParameterValue>)
        ensures
            match r {
                Some(v) => self@.dom().contains(name@) && *v == self@[name@],
                None => !self@.dom().contains(name@),
            },
    {
        proof {
            use_type_invariant(self);
        }
        let ghost es = entry_views(self.entries@);
        let mut i: usize = 0;
        while i < self.entries.len()
            invariant
                i <= self.entries@.len(),
                es == entry_views(self.entries@),
                unique_keys(es),
                self@ == entries_map(es),
                forall|k: int| 0 <= k < i ==> es[k].0 != name@,
            decreases self.entries@.len() - i,
        {
            if self.entries[i].0 == *name {
                proof {
                    lemma_entries_map_at(es, i as int);
                }
                return Some(&self.entries[i].1);
            }
            i = i + 1;
        }
        proof {
            lemma_entries_map_contains(es, name@);
        }
        None
    }

    /// The entries of the map, each name paired with its typed value; every
    /// pair agrees with the map and every parameter appears exactly once.
    pub fn entries(&self) -> (r: &Vec<(String, ParameterValue)>)
        ensures
            r@.len() == self@.dom().len(),
            forall|k: int|
                0 <= k < r@.len() ==> self@.dom().contains(r@[k].0@) && self@[r@[k].0@]
                    == r@[k].1,
    {
        proof {
            use_type_invariant(self);
            lemma_entries_map_dom_len(entry_views(self.entries@));
            assert forall|k: int| 0 <= k < self.entries@.len() implies self@.dom().contains(
                self.entries@[k].0@,
            ) && self@[self.entries@[k].0@] == self.entries@[k].1 by {
                lemma_entries_map_at(entry_views(self.entries@), k);
            }
        }
        &self.entries
    }
}

/// A copy of a parameter name.
fn clone_string(s: &String) -> (r: String)
    ensures
        r@ == s@,
{
    String::from_str(s.as_str())
}

/// The default value of a recognized type.
fn default_of(t: ParameterType) -> (r: ParameterValue)
    ensures
        r == default_value(t),
{
    match t {
        ParameterType::Float => ParameterValue::Float(
            RawValue { negative: false, ten_thousandths: 0 },
        ),
        ParameterType::Int => ParameterValue::Int(0),
        ParameterType::Bool => ParameterValue::Bool(false),
    }
}

/// Applies a raw saved value to an existing typed value, keeping the variant.
fn apply_to(v: ParameterValue, raw: RawValue) -> (r: ParameterValue)
    ensures
        r == applied(v, raw),
{
    match v {
        ParameterValue::Float(_) => ParameterValue::Float(raw),
        ParameterValue::Int(_) => ParameterValue::Int(raw.as_int()),
        ParameterValue::Bool(_) => ParameterValue::Bool(raw.as_bool()),
    }
}

/// Finds the entry keyed by `name`.
fn find_entry(es: &Vec<(String, ParameterValue)>, name: &String) -> (r: Option<usize>)
    ensures
        match r {
            Some(idx) => idx < es@.len() && es@[idx as int].0@ == name@,
            None => forall|k: int| 0 <= k < es@.len() ==> es@[k].0@ != name@,
        },
{
    let mut i: usize = 0;
    while i < es.len()
        invariant
            i <= es@.len(),
            forall|k: int| 0 <= k < i ==> es@[k].0@ != name@,
        decreases es@.len() - i,
    {
        if es[i].0 == *name {
            return Some(i);
        }
        i = i + 1;
    }
    None
}

/// Merges definition records and saved entries into the parameter map:
/// defaults first, saved values applied by name afterwards. Pure and total —
/// no input makes it fail.
pub fn reconcile(defs: &Vec<OscConfigParameter>, saved: &Vec<SavedParameter>) -> (r: ParameterMap)
    ensures
        r@ == reconciled(defs_view(defs@), saved_view(saved@)),
{
    let ghost dv = defs_view(defs@);
    let ghost sv = saved_view(saved@);
    let mut es: Vec<(String, ParameterValue)> = Vec::new();
    let mut i: usize = 0;
    assert(entry_views(es@) =~= Seq::<(Seq<char>, ParameterValue)>::empty());
    assert(dv.take(0) =~= Seq::<(Seq<char>, Seq<char>)>::empty());
    while i < defs.len()
        invariant
            i <= defs@.len(),
            dv == defs_view(defs@),
            unique_keys(entry_views(es@)),
            entries_map(entry_views(es@)) == defaults_map(dv.take(i as int)),
        decreases defs@.len() - i,
    {
        let ghost es0 = entry_views(es@);
        let p = &defs[i];
        assert(dv[i as int] == (p.name@, p.ptype@));
        assert(dv.take(i + 1 as int).drop_last() =~= dv.take(i as int));
        assert(dv.take(i + 1 as int).last() == dv[i as int]);
        let tcs = chars_vec(p.ptype.as_str());
        match parameter_type_from_chars(&tcs) {
            Some(t) => {
                let name = clone_string(&p.name);
                let dvv = default_of(t);
                match find_entry(&es, &name) {
                    Some(idx) => {
                        proof {
                            lemma_entries_map_update(es0, idx as int, dvv);
                        }
                        es[idx] = (name, dvv);
                        assert(entry_views(es@) =~= es0.update(idx as int, (p.name@, dvv)));
                        assert(es0.update(idx as int, (p.name@, dvv)) =~= es0.update(
                            idx as int,
                            (es0[idx as int].0, dvv),
                        ));
                    },
                    None => {
                        es.push((name, dvv));
                        assert(entry_views(es@) =~= es0.push((p.name@, dvv)));
                        assert(entry_views(es@).drop_last() =~= es0);
                        assert(unique_keys(entry_views(es@))) by {
                            assert forall|a: int, b: int|
                                0 <= a < b < entry_views(es@).len() implies entry_views(
                                es@,
                            )[a].0 != entry_views(es@)[b].0 by {
                                if b < es0.len() {
                                    assert(entry_views(es@)[a] == es0[a]);
                                    assert(entry_views(es@)[b] == es0[b]);
                                } else {
                                    assert(entry_views(es@)[a] == es0[a]);
                                }
                            }
                        }
                    },
                }
            },
            None => {},
        }
        i = i + 1;
    }
    assert(dv.take(defs@.len() as int) =~= dv);

    let mut j: usize = 0;
    assert(sv.take(0) =~= Seq::<(Seq<char>, RawValue)>::empty());
    while j < saved.len()
        invariant
            j <= saved@.len(),
            dv == defs_view(defs@),
            sv == saved_view(saved@),
            unique_keys(entry_views(es@)),
            entries_map(entry_views(es@)) == apply_saved(defaults_map(dv), sv.take(j as int)),
        decreases saved@.len() - j,
    {
        let ghost es0 = entry_views(es@);
        let e = &saved[j];
        assert(sv[j as int] == (e.name@, e.raw_value));
        assert(sv.take(j + 1 as int).drop_last() =~= sv.take(j as int));
        assert(sv.take(j + 1 as int).last() == sv[j as int]);
        match find_entry(&es, &e.name) {
            Some(idx) => {
                proof {
                    lemma_entries_map_at(es0, idx as int);
                }
                let old_v = es[idx].1;
                let new_v = apply_to(old_v, e.raw_value);
                proof {
                    lemma_entries_map_update(es0, idx as int, new_v);
                }
                let name = clone_string(&e.name);
                es[idx] = (name, new_v);
                assert(entry_views(es@) =~= es0.update(idx as int, (e.name@, new_v)));
                assert(es0.update(idx as int, (e.name@, new_v)) =~= es0.update(
                    idx as int,
                    (es0[idx as int].0, new_v),
                ));
            },
            None => {
                proof {
                    lemma_entries_map_contains(es0, e.name@);
                    if exists|k: int| 0 <= k < es0.len() && es0[k].0 == e.name@ {
                        let k = choose|k: int| 0 <= k < es0.len() && es0[k].0 == e.name@;
                        assert(es@[k].0@ == e.name@);
                        assert(false);
                    }
                }
            },
        }
        j = j + 1;
    }
    assert(sv.take(saved@.len() as int) =~= sv);
    ParameterMap { entries: es }
}

/// Applying saved entries never adds or removes a parameter: the reconciled
/// map's keys are exactly the keys of the defaults.
pub proof fn lemma_apply_saved_preserves_dom(
    m: Map<Seq<char>, ParameterValue>,
    saved: Seq<(Seq<char>, RawValue)>,
)
    ensures
        apply_saved(m, saved).dom() == m.dom(),
    decreases saved.len(),
{
    if saved.len() > 0 {
        lemma_apply_saved_preserves_dom(m, saved.drop_last());
        let m1 = apply_saved(m, saved.drop_last());
        let e = saved.last();
        if m1.dom().contains(e.0) {
            assert(m1.insert(e.0, applied(m1[e.0], e.1)).dom() =~= m1.dom());
        }
    }
}

/// A saved entry whose name matches no definition is dropped: appending it to
/// the saved sequence leaves the reconciled map — entries and size alike —
/// unchanged.
pub proof fn lemma_orphan_saved_ignored(
    defs: Seq<(Seq<char>, Seq<char>)>,
    saved: Seq<(Seq<char>, RawValue)>,
    e: (Seq<char>, RawValue),
)
    requires
        !defaults_map(defs).dom().contains(e.0),
    ensures
        reconciled(defs, saved.push(e)) == reconciled(defs, saved),
{
    lemma_apply_saved_preserves_dom(defaults_map(defs), saved);
    assert(saved.push(e).drop_last() =~= saved);
    assert(saved.push(e).last() == e);
}

proof fn lemma_defaults_absent(defs: Seq<(Seq<char>, Seq<char>)>, name: Seq<char>)
    requires
        forall|i: int|
            0 <= i < defs.len() && (#[trigger] defs[i]).0 == name ==> parameter_type_of(
                defs[i].1,
            ) is None,
    ensures
        !defaults_map(defs).dom().contains(name),
    decreases defs.len(),
{
    if defs.len() > 0 {
        assert forall|i: int|
            0 <= i < defs.drop_last().len() && (#[trigger] defs.drop_last()[i]).0
                == name implies parameter_type_of(defs.drop_last()[i].1) is None by {
            assert(defs.drop_last()[i] == defs[i]);
        }
        lemma_defaults_absent(defs.drop_last(), name);
        if parameter_type_of(defs.last().1) is Some {
            assert(defs[defs.len() - 1] == defs.last());
            assert(defs.last().0 != name);
        }
    }
}

/// A name whose every definition carries an unrecognized declared type never
/// appears in the reconciled map, saved entries or none.
pub proof fn lemma_unrecognized_type_absent(
    defs: Seq<(Seq<char>, Seq<char>)>,
    saved: Seq<(Seq<char>, RawValue)>,
    name: Seq<char>,
)
    requires
        forall|i: int|
            0 <= i < defs.len() && (#[trigger] defs[i]).0 == name ==> parameter_type_of(
                defs[i].1,
            ) is None,
    ensures
        !reconciled(defs, saved).dom().contains(name),
{
    lemma_defaults_absent(defs, name);
    lemma_apply_saved_preserves_dom(defaults_map(defs), saved);
}

/// Reconciling an empty saved sequence yields exactly the defaults.
pub proof fn lemma_reconcile_empty_saved(defs: Seq<(Seq<char>, Seq<char>)>)
    ensures
        reconciled(defs, Seq::empty()) == defaults_map(defs),
{
}

/// Reconciling an empty saved sequence against definitions with distinct
/// names and recognized types yields exactly one default-valued entry per
/// definition.
pub proof fn lemma_defaults_exact(defs: Seq<(Seq<char>, Seq<char>)>)
    requires
        forall|a: int, b: int| 0 <= a < b < defs.len() ==> defs[a].0 != defs[b].0,
        forall|i: int| 0 <= i < defs.len() ==> parameter_type_of((#[trigger] defs[i]).1) is Some,
    ensures
        defaults_map(defs).dom().finite(),
        defaults_map(defs).dom().len() == defs.len(),
        forall|i: int|
            0 <= i < defs.len() ==> defaults_map(defs).dom().contains((#[trigger] defs[i]).0)
                && defaults_map(defs)[defs[i].0] == default_value(
                parameter_type_of(defs[i].1).unwrap(),
            ),
    decreases defs.len(),
{
    if defs.len() > 0 {
        assert forall|i: int|
            0 <= i < defs.drop_last().len() implies parameter_type_of(
            (#[trigger] defs.drop_last()[i]).1,
        ) is Some by {
            assert(defs.drop_last()[i] == defs[i]);
        }
        lemma_defaults_exact(defs.drop_last());
        let m = defaults_map(defs.drop_last());
        let e = defs.last();
        assert(defs[defs.len() - 1] == e);
        assert(!m.dom().contains(e.0)) by {
            lemma_defaults_absent_of_distinct(defs, e.0);
        }
        assert forall|i: int|
            0 <= i < defs.len() implies defaults_map(defs).dom().contains((#[trigger] defs[i]).0)
            && defaults_map(defs)[defs[i].0] == default_value(
            parameter_type_of(defs[i].1).unwrap(),
        ) by {
            if i < defs.len() - 1 {
                assert(defs.drop_last()[i] == defs[i]);
                assert(defs[i].0 != e.0);
            }
        }
    }
}

proof fn lemma_defaults_absent_of_distinct(defs: Seq<(Seq<char>, Seq<char>)>, name: Seq<char>)
    requires
        defs.len() > 0,
        forall|a: int, b: int| 0 <= a < b < defs.len() ==> defs[a].0 != defs[b].0,
        defs.last().0 == name,
    ensures
        !defaults_map(defs.drop_last()).dom().contains(name),
{
    assert forall|i: int|
        0 <= i < defs.drop_last().len() && (#[trigger] defs.drop_last()[i]).0
            == name implies parameter_type_of(defs.drop_last()[i].1) is None by {
        assert(defs.drop_last()[i] == defs[i]);
        assert(defs[i].0 != defs[defs.len() - 1].0);
        assert(false);
    }
    lemma_defaults_absent(defs.drop_last(), name);
}

} // verus!
