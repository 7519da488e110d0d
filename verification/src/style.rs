//! Selector matching, specificity resolution and the cascade: which rules
//! of a stylesheet apply to an element, and which declaration wins for
//! each property.
//!
//! The cascade order on the declarations that set one property is the
//! lexicographic order on (rule specificity, rule position in the
//! stylesheet, declaration position in the rule); the greatest slot in
//! that order supplies the property's resolved value.

use vstd::prelude::*;
use crate::chars::str_eq;
use crate::css::{
    spec_lt, spec_specificity, Rule, Selector, SimpleSelector, Specificity, Stylesheet, Value,
    ValueV, specificity_lt,
};
use crate::dom::{elem_class_seq, ElementData, Node, NodeType};

verus! {

/// A property mapping from name to resolved value. A later write to the
/// same name replaces the earlier one.
#[derive(Debug)]
pub struct PropertyMap {
    entries: Vec<(String, Value)>,
}

/// The mapping held by a sequence of name/value pairs, later pairs
/// overriding earlier ones.
pub open spec fn value_map_of(entries: Seq<(String, Value)>) -> Map<Seq<char>, ValueV>
    decreases entries.len(),
{
    if entries.len() == 0 {
        Map::empty()
    } else {
        value_map_of(entries.drop_last()).insert(entries.last().0@, entries.last().1@)
    }
}

impl View for PropertyMap {
    type V = Map<Seq<char>, ValueV>;

    closed spec fn view(&self) -> Map<Seq<char>, ValueV> {
        value_map_of(self.entries@)
    }
}

impl PropertyMap {
    /// An empty property map.
    pub fn new() -> (r: Self)
        ensures
            r@ == Map::<Seq<char>, ValueV>::empty(),
    {
        PropertyMap { entries: Vec::new() }
    }

    /// Binds `name` to `value`, replacing any earlier binding of `name`.
    pub fn insert(&mut self, name: String, value: Value)
        ensures
            final(self)@ == old(self)@.insert(name@, value@),
    {
        proof {
            assert(old(self).entries@.push((name, value)).drop_last() =~= old(self).entries@);
        }
        self.entries.push((name, value));
    }

    /// The value bound to `name`, if any.
    pub fn get(&self, name: &str) -> (r: Option<&Value>)
        ensures
            match r {
                Some(v) => self@.contains_key(name@) && v@ == self@[name@],
                None => !self@.contains_key(name@),
            },
    {
        let mut i: usize = self.entries.len();
        proof {
            assert(self.entries@.subrange(0, self.entries@.len() as int) =~= self.entries@);
        }
        while i > 0
            invariant
                i <= self.entries@.len(),
                self@.contains_key(name@) == value_map_of(
                    self.entries@.subrange(0, i as int),
                ).contains_key(name@),
                self@.contains_key(name@) ==> self@[name@] == value_map_of(
                    self.entries@.subrange(0, i as int),
                )[name@],
            decreases i,
        {
            proof {
                let pre = self.entries@.subrange(0, i as int);
                assert(pre.drop_last() =~= self.entries@.subrange(0, i - 1));
                assert(pre.last() == self.entries@[i - 1]);
            }
            let e = &self.entries[i - 1];
            if str_eq(e.0.as_str(), name) {
                return Some(&e.1);
            }
            i -= 1;
        }
        proof {
            assert(self.entries@.subrange(0, 0) =~= Seq::<(String, Value)>::empty());
        }
        None
    }
}

/// Whether the element carries class name `c`.
pub open spec fn has_class(ed: ElementData, c: Seq<char>) -> bool {
    exists|i: int| 0 <= i < elem_class_seq(ed).len() && elem_class_seq(ed)[i] == c
}

/// Whether the element satisfies every constraint the simple selector
/// carries: the tag name if one is given, the id if one is given, and
/// each required class; absent constraints impose nothing.
pub open spec fn spec_matches_simple(ed: ElementData, ss: SimpleSelector) -> bool {
    &&& (ss.tag_name matches Some(t) ==> ed.tag_name@ == t@)
    &&& (ss.id matches Some(i) ==> ed.attributes@.contains_key("id"@) && ed.attributes@["id"@]
        == i@)
    &&& (forall|k: int| 0 <= k < ss.class@.len() ==> has_class(ed, ss.class@[k]@))
}

/// Whether the element satisfies the selector.
pub open spec fn spec_matches(ed: ElementData, s: Selector) -> bool {
    match s {
        Selector::Simple(ss) => spec_matches_simple(ed, ss),
    }
}

/// Whether some string of `v` holds the characters `s`.
fn contains_str(v: &Vec<String>, s: &str) -> (r: bool)
    ensures
        r == exists|i: int| 0 <= i < v@.len() && v@[i]@ == s@,
{
    let n = v.len();
    let mut i: usize = 0;
    while i < n
        invariant
            i <= n,
            n == v@.len(),
            forall|j: int| 0 <= j < i ==> v@[j]@ != s@,
        decreases n - i,
    {
        if str_eq(v[i].as_str(), s) {
            return true;
        }
        i += 1;
    }
    false
}

/// Whether the element satisfies every constraint of the simple selector.
pub fn matches_simple_selector(elem: &ElementData, selector: &SimpleSelector) -> (r: bool)
    ensures
        r == spec_matches_simple(*elem, *selector),
{
    match &selector.tag_name {
        Some(name) => {
            if !str_eq(name.as_str(), elem.tag_name.as_str()) {
                return false;
            }
        },
        None => {},
    }
    match &selector.id {
        Some(id) => {
            match elem.id() {
                Some(v) => {
                    if !str_eq(v.as_str(), id.as_str()) {
                        return false;
                    }
                },
                None => {
                    return false;
                },
            }
        },
        None => {},
    }
    let elem_classes = elem.classes();
    let nc = selector.class.len();
    let mut k: usize = 0;
    while k < nc
        invariant
            k <= nc,
            nc == selector.class@.len(),
            elem_classes@.len() == elem_class_seq(*elem).len(),
            forall|j: int| 0 <= j < elem_classes@.len() ==> elem_classes@[j]@ == elem_class_seq(
                *elem,
            )[j],
            forall|j: int| 0 <= j < k ==> has_class(*elem, selector.class@[j]@),
        decreases nc - k,
    {
        if !contains_str(&elem_classes, selector.class[k].as_str()) {
            proof {
                assert(!has_class(*elem, selector.class@[k as int]@));
            }
            return false;
        }
        proof {
            let c = selector.class@[k as int]@;
            let w = choose|i: int| 0 <= i < elem_classes@.len() && elem_classes@[i]@ == c;
            assert(elem_class_seq(*elem)[w] == c);
            assert(has_class(*elem, c));
        }
        k += 1;
    }
    true
}

/// Whether the element satisfies the selector.
pub fn matches(elem: &ElementData, selector: &Selector) -> (r: bool)
    ensures
        r == spec_matches(*elem, *selector),
{
    match selector {
        Selector::Simple(simple_select) => matches_simple_selector(elem, simple_select),
    }
}

/// Whether any selector of the rule matches the element.
pub open spec fn spec_rule_matches(ed: ElementData, rule: Rule) -> bool {
    exists|k: int| 0 <= k < rule.selectors@.len() && spec_matches(ed, rule.selectors@[k])
}

/// The position of the first selector at or after `from` that matches,
/// or the length of the list when none does.
pub open spec fn first_match_from(ed: ElementData, sels: Seq<Selector>, from: int) -> int
    decreases sels.len() - from,
{
    if from < 0 || from >= sels.len() {
        sels.len() as int
    } else if spec_matches(ed, sels[from]) {
        from
    } else {
        first_match_from(ed, sels, from + 1)
    }
}

/// The specificity the cascade uses for a matching rule: that of the
/// first selector in the rule's list that matches the element.
pub open spec fn spec_rule_specificity(ed: ElementData, rule: Rule) -> Specificity {
    spec_specificity(rule.selectors@[first_match_from(ed, rule.selectors@, 0)])
}

/// If any selector of the rule matches the element, the specificity of
/// the first matching selector; `None` otherwise.
pub fn match_rule(elem: &ElementData, rule: &Rule) -> (r: Option<Specificity>)
    ensures
        r is Some <==> spec_rule_matches(*elem, *rule),
        r matches Some(s) ==> s == spec_rule_specificity(*elem, *rule),
{
    let n = rule.selectors.len();
    let mut k: usize = 0;
    while k < n
        invariant
            k <= n,
            n == rule.selectors@.len(),
            forall|j: int| 0 <= j < k ==> !spec_matches(*elem, rule.selectors@[j]),
            first_match_from(*elem, rule.selectors@, 0) == first_match_from(
                *elem,
                rule.selectors@,
                k as int,
            ),
        decreases n - k,
    {
        if matches(elem, &rule.selectors[k]) {
            return Some(rule.selectors[k].specificity());
        }
        k += 1;
    }
    None
}

/// A matched rule: the specificity it matched with, and its position in
/// the stylesheet.
pub type MatchedRule = (Specificity, usize);

/// The rules of the stylesheet that match the element, in stylesheet
/// order, each with the specificity of its first matching selector.
pub fn matching_rules(elem: &ElementData, stylesheet: &Stylesheet) -> (r: Vec<MatchedRule>)
    ensures
        forall|k: int|
            0 <= k < r@.len() ==> (#[trigger] r@[k]).1 < stylesheet.rules@.len()
                && spec_rule_matches(*elem, stylesheet.rules@[r@[k].1 as int]) && r@[k].0
                == spec_rule_specificity(*elem, stylesheet.rules@[r@[k].1 as int]),
        forall|k1: int, k2: int| 0 <= k1 < k2 < r@.len() ==> r@[k1].1 < r@[k2].1,
        forall|i: int|
            0 <= i < stylesheet.rules@.len() && spec_rule_matches(*elem, stylesheet.rules@[i])
                ==> exists|k: int| 0 <= k < r@.len() && (#[trigger] r@[k]).1 == i,
{
    let n = stylesheet.rules.len();
    let mut r: Vec<MatchedRule> = Vec::new();
    let mut i: usize = 0;
    while i < n
        invariant
            i <= n,
            n == stylesheet.rules@.len(),
            forall|k: int|
                0 <= k < r@.len() ==> (#[trigger] r@[k]).1 < i && spec_rule_matches(
                    *elem,
                    stylesheet.rules@[r@[k].1 as int],
                ) && r@[k].0 == spec_rule_specificity(*elem, stylesheet.rules@[r@[k].1 as int]),
            forall|k1: int, k2: int| 0 <= k1 < k2 < r@.len() ==> r@[k1].1 < r@[k2].1,
            forall|i2: int|
                0 <= i2 < i && spec_rule_matches(*elem, stylesheet.rules@[i2]) ==> exists|k: int|
                    0 <= k < r@.len() && (#[trigger] r@[k]).1 == i2,
        decreases n - i,
    {
        let ghost r_before = r@;
        match match_rule(elem, &stylesheet.rules[i]) {
            Some(s) => {
                r.push((s, i));
            },
            None => {},
        }
        proof {
            assert forall|i2: int|
                0 <= i2 < i + 1 && spec_rule_matches(*elem, stylesheet.rules@[i2]) implies exists|
                k: int,
            | 0 <= k < r@.len() && (#[trigger] r@[k]).1 == i2 by {
                if i2 == i as int {
                    assert(r@[r@.len() - 1].1 == i2);
                } else {
                    let k0 = choose|k: int| 0 <= k < r_before.len() && (#[trigger] r_before[k]).1
                        == i2;
                    assert(r@[k0].1 == i2);
                }
            }
        }
        i += 1;
    }
    r
}

/// Non-strict cascade order on matched-rule entries: by specificity,
/// then by stylesheet position.
pub open spec fn entry_le(a: MatchedRule, b: MatchedRule) -> bool {
    spec_lt(a.0, b.0) || (a.0 == b.0 && a.1 <= b.1)
}

/// Decides `entry_le`.
fn entry_le_exec(a: &MatchedRule, b: &MatchedRule) -> (r: bool)
    ensures
        r == entry_le(*a, *b),
{
    specificity_lt(&a.0, &b.0) || (a.0.0 == b.0.0 && a.0.1 == b.0.1 && a.0.2 == b.0.2 && a.1
        <= b.1)
}

/// Inserting `x` at the boundary found by the scan keeps the list
/// sorted in the cascade order.
proof fn lemma_insert_keeps_sorted(
    out: Seq<MatchedRule>,
    o: Seq<MatchedRule>,
    pos: int,
    x: MatchedRule,
)
    requires
        0 <= pos <= out.len(),
        o == out.insert(pos, x),
        forall|a: int, b: int| 0 <= a <= b < out.len() ==> entry_le(out[a], out[b]),
        forall|a: int| 0 <= a < pos ==> entry_le(out[a], x),
        pos < out.len() ==> !entry_le(out[pos], x),
    ensures
        forall|a: int, b: int| 0 <= a <= b < o.len() ==> entry_le(o[a], o[b]),
{
    out.insert_ensures(pos, x);
    assert(pos < out.len() ==> entry_le(x, out[pos]));
    assert forall|a: int, b: int| 0 <= a <= b < o.len() implies entry_le(o[a], o[b]) by {
        if b < pos {
            assert(entry_le(out[a], out[b]));
        } else if a < pos && b == pos {
            assert(entry_le(out[a], x));
        } else if a < pos && b > pos {
            assert(entry_le(out[a], out[b - 1]));
        } else if a == pos && b > pos {
            assert(entry_le(x, out[pos]));
            assert(entry_le(out[pos], out[b - 1]));
        } else if a > pos {
            assert(entry_le(out[a - 1], out[b - 1]));
        }
    }
}

/// Whether `xs` and `ys` hold the same entries: every entry of each
/// occurs in the other. Duplicates need not balance; entry order is
/// free.
#[verifier::opaque]
pub open spec fn same_entries<A>(xs: Seq<A>, ys: Seq<A>) -> bool {
    &&& forall|k: int| 0 <= k < ys.len() ==> xs.contains(#[trigger] ys[k])
    &&& forall|k0: int| 0 <= k0 < xs.len() ==> ys.contains(#[trigger] xs[k0])
}

/// The two containment directions make up `same_entries`.
pub proof fn lemma_same_entries_intro<A>(xs: Seq<A>, ys: Seq<A>)
    requires
        forall|k: int| 0 <= k < ys.len() ==> xs.contains(#[trigger] ys[k]),
        forall|k0: int| 0 <= k0 < xs.len() ==> ys.contains(#[trigger] xs[k0]),
    ensures
        same_entries(xs, ys),
{
    reveal(same_entries);
}

/// After the insertion, the list holds the same entries as one more
/// entry of the input.
pub proof fn lemma_insert_same_entries<A>(
    input: Seq<A>,
    out: Seq<A>,
    o: Seq<A>,
    i: int,
    pos: int,
    x: A,
)
    requires
        0 <= i < input.len(),
        x == input[i],
        0 <= pos <= out.len(),
        o == out.insert(pos, x),
        same_entries(input.subrange(0, i), out),
    ensures
        same_entries(input.subrange(0, i + 1), o),
{
    reveal(same_entries);
    out.insert_ensures(pos, x);
    let pre = input.subrange(0, i);
    let pre2 = input.subrange(0, i + 1);
    assert forall|k: int| 0 <= k < o.len() implies pre2.contains(#[trigger] o[k]) by {
        if k < pos {
            let k0 = choose|k0: int| #![trigger pre[k0]] 0 <= k0 < pre.len() && pre[k0] == out[k];
            assert(pre2[k0] == o[k]);
        } else if k == pos {
            assert(pre2[i] == o[k]);
        } else {
            let k0 = choose|k0: int|
                #![trigger pre[k0]]
                0 <= k0 < pre.len() && pre[k0] == out[k - 1];
            assert(pre2[k0] == o[k]);
        }
    }
    assert forall|k0: int| 0 <= k0 < pre2.len() implies o.contains(#[trigger] pre2[k0]) by {
        if k0 == i {
            assert(o[pos] == pre2[k0]);
        } else {
            assert(pre[k0] == pre2[k0]);
            let k = choose|k: int| #![trigger out[k]] 0 <= k < out.len() && out[k] == pre[k0];
            if k < pos {
                assert(o[k] == pre2[k0]);
            } else {
                assert(o[k + 1] == pre2[k0]);
            }
        }
    }
}

/// After the insertion, the rule positions of the entries are still
/// pairwise distinct, because the entries come from distinct entries of
/// the input.
proof fn lemma_insert_distinct(
    input: Seq<MatchedRule>,
    out: Seq<MatchedRule>,
    o: Seq<MatchedRule>,
    i: int,
    pos: int,
    x: MatchedRule,
)
    requires
        0 <= i < input.len(),
        x == input[i],
        0 <= pos <= out.len(),
        o == out.insert(pos, x),
        forall|k1: int, k2: int| 0 <= k1 < k2 < input.len() ==> input[k1].1 != input[k2].1,
        same_entries(input.subrange(0, i), out),
        forall|k1: int, k2: int| 0 <= k1 < k2 < out.len() ==> out[k1].1 != out[k2].1,
    ensures
        forall|k1: int, k2: int| 0 <= k1 < k2 < o.len() ==> o[k1].1 != o[k2].1,
{
    reveal(same_entries);
    out.insert_ensures(pos, x);
    let pre = input.subrange(0, i);
    assert forall|k1: int, k2: int| 0 <= k1 < k2 < o.len() implies o[k1].1 != o[k2].1 by {
        if k1 == pos || k2 == pos {
            let other: int = if k1 == pos {
                if k2 < pos {
                    k2
                } else {
                    k2 - 1
                }
            } else {
                if k1 < pos {
                    k1
                } else {
                    k1 - 1
                }
            };
            assert(0 <= other < out.len());
            let k0 = choose|k0: int|
                #![trigger pre[k0]]
                0 <= k0 < pre.len() && pre[k0] == out[other];
            assert(input[k0].1 != input[i].1);
        } else if k1 > pos && k2 > pos {
            assert(out[k1 - 1].1 != out[k2 - 1].1);
        } else if k1 < pos && k2 > pos {
            assert(out[k1].1 != out[k2 - 1].1);
        } else {
            assert(out[k1].1 != out[k2].1);
        }
    }
}

/// Sorts the matched rules ascending in the cascade order, so that a
/// later entry overrides an earlier one when their declarations collide.
fn sort_matched_rules(v: &Vec<MatchedRule>) -> (out: Vec<MatchedRule>)
    requires
        forall|k1: int, k2: int| 0 <= k1 < k2 < v@.len() ==> v@[k1].1 != v@[k2].1,
    ensures
        forall|a: int, b: int| 0 <= a <= b < out@.len() ==> entry_le(out@[a], out@[b]),
        same_entries(v@, out@),
        forall|k1: int, k2: int| 0 <= k1 < k2 < out@.len() ==> out@[k1].1 != out@[k2].1,
{
    let n = v.len();
    let mut out: Vec<MatchedRule> = Vec::new();
    proof {
        reveal(same_entries);
        assert(same_entries(v@.subrange(0, 0), out@));
    }
    let mut i: usize = 0;
    while i < n
        invariant
            i <= n,
            n == v@.len(),
            forall|k1: int, k2: int| 0 <= k1 < k2 < v@.len() ==> v@[k1].1 != v@[k2].1,
            forall|a: int, b: int| 0 <= a <= b < out@.len() ==> entry_le(out@[a], out@[b]),
            same_entries(v@.subrange(0, i as int), out@),
            forall|k1: int, k2: int| 0 <= k1 < k2 < out@.len() ==> out@[k1].1 != out@[k2].1,
        decreases n - i,
    {
        let x = v[i];
        let m = out.len();
        let mut pos: usize = 0;
        while pos < m && entry_le_exec(&out[pos], &x)
            invariant
                pos <= m,
                m == out@.len(),
                forall|a: int| 0 <= a < pos ==> entry_le(out@[a], x),
            decreases m - pos,
        {
            pos += 1;
        }
        let ghost out_before = out@;
        out.insert(pos, x);
        proof {
            lemma_insert_keeps_sorted(out_before, out@, pos as int, x);
            lemma_insert_same_entries(v@, out_before, out@, i as int, pos as int, x);
            lemma_insert_distinct(v@, out_before, out@, i as int, pos as int, x);
        }
        i += 1;
    }
    proof {
        assert(v@.subrange(0, n as int) =~= v@);
    }
    out
}

/// Whether declaration `j` of rule `i` is a declaration of property `p`
/// in a rule that matches the element.
pub open spec fn spec_sets(
    ed: ElementData,
    sheet: Stylesheet,
    i: int,
    j: int,
    p: Seq<char>,
) -> bool {
    &&& 0 <= i < sheet.rules@.len()
    &&& spec_rule_matches(ed, sheet.rules@[i])
    &&& 0 <= j < sheet.rules@[i].declarations@.len()
    &&& sheet.rules@[i].declarations@[j].name@ == p
}

/// The cascade order on declaration slots: rule specificity first, then
/// rule position in the stylesheet, then declaration position in the
/// rule.
pub open spec fn spec_weight_le(
    ed: ElementData,
    sheet: Stylesheet,
    i1: int,
    j1: int,
    i2: int,
    j2: int,
) -> bool {
    ||| spec_lt(
        spec_rule_specificity(ed, sheet.rules@[i1]),
        spec_rule_specificity(ed, sheet.rules@[i2]),
    )
    ||| (spec_rule_specificity(ed, sheet.rules@[i1]) == spec_rule_specificity(
        ed,
        sheet.rules@[i2],
    ) && (i1 < i2 || (i1 == i2 && j1 <= j2)))
}

/// Whether declaration `j` of rule `i` is the greatest slot in the
/// cascade order among all declarations of property `p` that apply to
/// the element: the slot whose value the cascade keeps.
pub open spec fn spec_wins(
    ed: ElementData,
    sheet: Stylesheet,
    i: int,
    j: int,
    p: Seq<char>,
) -> bool {
    &&& spec_sets(ed, sheet, i, j, p)
    &&& forall|i2: int, j2: int|
        spec_sets(ed, sheet, i2, j2, p) ==> spec_weight_le(ed, sheet, i2, j2, i, j)
}

/// Whether the property map `m` is exactly the cascade of the slots
/// satisfying `done`: it holds `p` iff some applied slot sets `p`, and
/// then binds `p` to the value of the greatest applied slot setting `p`.
pub open spec fn folded(
    ed: ElementData,
    sheet: Stylesheet,
    done: spec_fn(int, int) -> bool,
    m: Map<Seq<char>, ValueV>,
) -> bool {
    &&& forall|p: Seq<char>|
        #[trigger] m.contains_key(p) <==> exists|i: int, j: int|
            spec_sets(ed, sheet, i, j, p) && done(i, j)
    &&& forall|i: int, j: int, p: Seq<char>|
        spec_sets(ed, sheet, i, j, p) && done(i, j) && (forall|i2: int, j2: int|
            spec_sets(ed, sheet, i2, j2, p) && done(i2, j2) ==> spec_weight_le(
                ed,
                sheet,
                i2,
                j2,
                i,
                j,
            )) ==> m.contains_key(p) && m[p] == sheet.rules@[i].declarations@[j].value@
}

/// Applied slot sets that agree on every slot that sets some property
/// describe the same folds.
proof fn lemma_folded_equiv(
    ed: ElementData,
    sheet: Stylesheet,
    d1: spec_fn(int, int) -> bool,
    d2: spec_fn(int, int) -> bool,
    m: Map<Seq<char>, ValueV>,
)
    requires
        folded(ed, sheet, d1, m),
        forall|i: int, j: int, p: Seq<char>|
            #[trigger] spec_sets(ed, sheet, i, j, p) ==> (d1(i, j) <==> d2(i, j)),
    ensures
        folded(ed, sheet, d2, m),
{
    assert forall|p: Seq<char>| #[trigger] m.contains_key(p) <==> exists|i: int, j: int|
        spec_sets(ed, sheet, i, j, p) && d2(i, j) by {
        if m.contains_key(p) {
            let (i, j) = choose|i: int, j: int| spec_sets(ed, sheet, i, j, p) && d1(i, j);
            assert(spec_sets(ed, sheet, i, j, p) && d2(i, j));
        }
        if exists|i: int, j: int| spec_sets(ed, sheet, i, j, p) && d2(i, j) {
            let (i, j) = choose|i: int, j: int| spec_sets(ed, sheet, i, j, p) && d2(i, j);
            assert(spec_sets(ed, sheet, i, j, p) && d1(i, j));
        }
    }
    assert forall|i: int, j: int, p: Seq<char>|
        spec_sets(ed, sheet, i, j, p) && d2(i, j) && (forall|i2: int, j2: int|
            spec_sets(ed, sheet, i2, j2, p) && d2(i2, j2) ==> spec_weight_le(
                ed,
                sheet,
                i2,
                j2,
                i,
                j,
            )) implies m.contains_key(p) && m[p] == sheet.rules@[i].declarations@[j].value@ by {
        assert(d1(i, j));
        assert forall|i2: int, j2: int|
            spec_sets(ed, sheet, i2, j2, p) && d1(i2, j2) implies spec_weight_le(
            ed,
            sheet,
            i2,
            j2,
            i,
            j,
        ) by {
            assert(d2(i2, j2));
        }
    }
}

/// Applying one more slot, greater in the cascade order than every slot
/// applied before it, re-binds its property to its value and preserves
/// the fold shape.
proof fn lemma_folded_insert(
    ed: ElementData,
    sheet: Stylesheet,
    d1: spec_fn(int, int) -> bool,
    d2: spec_fn(int, int) -> bool,
    m: Map<Seq<char>, ValueV>,
    i0: int,
    j0: int,
)
    requires
        folded(ed, sheet, d1, m),
        spec_sets(ed, sheet, i0, j0, sheet.rules@[i0].declarations@[j0].name@),
        forall|i: int, j: int| #[trigger] d2(i, j) <==> d1(i, j) || (i == i0 && j == j0),
        forall|i2: int, j2: int, p: Seq<char>|
            #[trigger] spec_sets(ed, sheet, i2, j2, p) && d1(i2, j2) ==> spec_weight_le(
                ed,
                sheet,
                i2,
                j2,
                i0,
                j0,
            ),
    ensures
        folded(
            ed,
            sheet,
            d2,
            m.insert(
                sheet.rules@[i0].declarations@[j0].name@,
                sheet.rules@[i0].declarations@[j0].value@,
            ),
        ),
{
    let p0 = sheet.rules@[i0].declarations@[j0].name@;
    let v0 = sheet.rules@[i0].declarations@[j0].value@;
    let m2 = m.insert(p0, v0);
    assert forall|p: Seq<char>| #[trigger] m2.contains_key(p) <==> exists|i: int, j: int|
        spec_sets(ed, sheet, i, j, p) && d2(i, j) by {
        if p == p0 {
            assert(spec_sets(ed, sheet, i0, j0, p) && d2(i0, j0));
        } else {
            if m2.contains_key(p) {
                let (i, j) = choose|i: int, j: int| spec_sets(ed, sheet, i, j, p) && d1(i, j);
                assert(spec_sets(ed, sheet, i, j, p) && d2(i, j));
            }
            if exists|i: int, j: int| spec_sets(ed, sheet, i, j, p) && d2(i, j) {
                let (i, j) = choose|i: int, j: int| spec_sets(ed, sheet, i, j, p) && d2(i, j);
                assert(!(i == i0 && j == j0));
                assert(spec_sets(ed, sheet, i, j, p) && d1(i, j));
            }
        }
    }
    assert forall|i: int, j: int, p: Seq<char>|
        spec_sets(ed, sheet, i, j, p) && d2(i, j) && (forall|i2: int, j2: int|
            spec_sets(ed, sheet, i2, j2, p) && d2(i2, j2) ==> spec_weight_le(
                ed,
                sheet,
                i2,
                j2,
                i,
                j,
            )) implies m2.contains_key(p) && m2[p] == sheet.rules@[i].declarations@[j].value@ by {
        if p == p0 {
            // the new slot is itself an applied slot setting p0, so the
            // greatest one is at least it; antisymmetry pins it exactly
            assert(spec_sets(ed, sheet, i0, j0, p) && d2(i0, j0));
            assert(spec_weight_le(ed, sheet, i0, j0, i, j));
            assert(spec_weight_le(ed, sheet, i, j, i0, j0)) by {
                if i == i0 && j == j0 {
                } else {
                    assert(d1(i, j));
                }
            }
            assert(i == i0 && j == j0);
        } else {
            assert(!(i == i0 && j == j0));
            assert(d1(i, j));
            assert forall|i2: int, j2: int|
                spec_sets(ed, sheet, i2, j2, p) && d1(i2, j2) implies spec_weight_le(
                ed,
                sheet,
                i2,
                j2,
                i,
                j,
            ) by {
                assert(d2(i2, j2));
            }
            assert(m[p] == sheet.rules@[i].declarations@[j].value@);
        }
    }
}

/// Whether the slot (rule `i`, declaration `j`) lies in the part of the
/// sorted matched-rule list `s` that the cascade fold has applied: the
/// first `k` entries wholly, and the first `jj` declarations of entry
/// `k`.
pub open spec fn slot_done(s: Seq<MatchedRule>, k: int, jj: int, i: int, j: int) -> bool {
    (exists|t: int| 0 <= t < k && (#[trigger] s[t]).1 == i) || (0 <= k < s.len() && s[k].1 == i
        && j < jj)
}

/// Whether the map `m` resolves the element's properties exactly as the
/// cascade over the whole stylesheet demands: it holds a property iff
/// some matching rule declares it, bound to the value of the greatest
/// declaration slot in the cascade order.
pub open spec fn cascade_ok(ed: ElementData, sheet: Stylesheet, m: Map<Seq<char>, ValueV>) -> bool {
    &&& forall|p: Seq<char>|
        #[trigger] m.contains_key(p) <==> exists|i: int, j: int| spec_sets(ed, sheet, i, j, p)
    &&& forall|i: int, j: int, p: Seq<char>|
        spec_wins(ed, sheet, i, j, p) ==> m.contains_key(p) && m[p]
            == sheet.rules@[i].declarations@[j].value@
}

/// The resolved property mapping of one element under the stylesheet:
/// the declarations of every matching rule, folded in ascending cascade
/// order so that higher specificity wins, stylesheet order breaking
/// ties, declaration order breaking ties within one rule.
#[verifier::rlimit(100)]
#[verifier::loop_isolation(false)]
pub fn specified_values(elem: &ElementData, stylesheet: &Stylesheet) -> (r: PropertyMap)
    ensures
        cascade_ok(*elem, *stylesheet, r@),
{
    let matched = matching_rules(elem, stylesheet);
    let sorted = sort_matched_rules(&matched);
    let ghost s = sorted@;
    proof {
        reveal(same_entries);
        assert forall|t: int| 0 <= t < s.len() implies (#[trigger] s[t]).1
            < stylesheet.rules@.len() && spec_rule_matches(
            *elem,
            stylesheet.rules@[s[t].1 as int],
        ) && s[t].0 == spec_rule_specificity(*elem, stylesheet.rules@[s[t].1 as int]) by {
            let k0 = choose|k0: int|
                #![trigger matched@[k0]]
                0 <= k0 < matched@.len() && matched@[k0] == s[t];
        }
    }
    let mut values = PropertyMap::new();
    let nm = sorted.len();
    let mut k: usize = 0;
    proof {
        assert forall|p: Seq<char>| #[trigger] values@.contains_key(p) <==> exists|i: int, j: int|
            spec_sets(*elem, *stylesheet, i, j, p) && slot_done(s, 0, 0, i, j) by {
            if exists|i: int, j: int| spec_sets(*elem, *stylesheet, i, j, p) && slot_done(
                s,
                0,
                0,
                i,
                j,
            ) {
                let (i, j) = choose|i: int, j: int|
                    spec_sets(*elem, *stylesheet, i, j, p) && slot_done(s, 0, 0, i, j);
                assert(false);
            }
        }
        assert(folded(*elem, *stylesheet, |i: int, j: int| slot_done(s, 0, 0, i, j), values@));
    }
    while k < nm
        invariant
            k <= nm,
            nm == s.len(),
            sorted@ == s,
            folded(
                *elem,
                *stylesheet,
                |i: int, j: int| slot_done(s, k as int, 0, i, j),
                values@,
            ),
        decreases nm - k,
    {
        let ri = sorted[k].1;
        let dn = stylesheet.rules[ri].declarations.len();
        let mut jj: usize = 0;
        proof {
            lemma_folded_equiv(
                *elem,
                *stylesheet,
                |i: int, j: int| slot_done(s, k as int, 0, i, j),
                |i: int, j: int| slot_done(s, k as int, jj as int, i, j),
                values@,
            );
        }
        while jj < dn
            invariant
                jj <= dn,
                k < nm,
                nm == s.len(),
                sorted@ == s,
                ri == s[k as int].1,
                ri < stylesheet.rules@.len(),
                dn == stylesheet.rules@[ri as int].declarations@.len(),
                folded(
                    *elem,
                    *stylesheet,
                    |i: int, j: int| slot_done(s, k as int, jj as int, i, j),
                    values@,
                ),
            decreases dn - jj,
        {
            let decl = &stylesheet.rules[ri].declarations[jj];
            let name = decl.name.clone();
            let value = decl.value.clone();
            let ghost values_before = values@;
            proof {
                // every already applied slot is below the one now applied
                assert forall|i2: int, j2: int, p: Seq<char>|
                    #[trigger] spec_sets(*elem, *stylesheet, i2, j2, p) && slot_done(
                        s,
                        k as int,
                        jj as int,
                        i2,
                        j2,
                    ) implies spec_weight_le(
                    *elem,
                    *stylesheet,
                    i2,
                    j2,
                    ri as int,
                    jj as int,
                ) by {
                    if exists|t: int| 0 <= t < k && (#[trigger] s[t]).1 == i2 {
                        let t = choose|t: int| 0 <= t < k && (#[trigger] s[t]).1 == i2;
                        assert(entry_le(s[t], s[k as int]));
                        assert(s[t].1 != s[k as int].1);
                    }
                }
            }
            values.insert(name, value);
            proof {
                lemma_folded_insert(
                    *elem,
                    *stylesheet,
                    |i: int, j: int| slot_done(s, k as int, jj as int, i, j),
                    |i: int, j: int| slot_done(s, k as int, jj + 1 as int, i, j),
                    values_before,
                    ri as int,
                    jj as int,
                );
            }
            jj += 1;
        }
        proof {
            lemma_folded_equiv(
                *elem,
                *stylesheet,
                |i: int, j: int| slot_done(s, k as int, dn as int, i, j),
                |i: int, j: int| slot_done(s, k + 1 as int, 0, i, j),
                values@,
            );
        }
        k += 1;
    }
    proof {
        reveal(same_entries);
        // every matching rule was applied, so the applied slots are
        // exactly the setting slots
        assert forall|i: int, j: int, p: Seq<char>|
            #[trigger] spec_sets(*elem, *stylesheet, i, j, p) implies slot_done(
            s,
            nm as int,
            0,
            i,
            j,
        ) by {
            let t0 = choose|t0: int|
                #![trigger matched@[t0]]
                0 <= t0 < matched@.len() && (matched@[t0]).1 == i;
            let t = choose|t: int| #![trigger s[t]] 0 <= t < s.len() && s[t] == matched@[t0];
            assert(0 <= t < nm && s[t].1 == i);
        }
        lemma_folded_equiv(
            *elem,
            *stylesheet,
            |i: int, j: int| slot_done(s, nm as int, 0, i, j),
            |i: int, j: int| true,
            values@,
        );
    }
    values
}

/// A node of the styled tree: the resolved property mapping of the
/// corresponding document node, and one styled child per document
/// child, in document order.
#[derive(Debug)]
pub struct StyledNode {
    pub specified_values: PropertyMap,
    pub children: Vec<StyledNode>,
}

/// Whether `sn` styles the document node `n` under `sheet`: an element
/// carries its cascade result, a text node carries the empty mapping,
/// and the children correspond one to one.
pub open spec fn styled_ok(sn: StyledNode, n: Node, sheet: Stylesheet) -> bool
    decreases n,
{
    &&& match n.node_type {
        NodeType::Element(ed) => cascade_ok(ed, sheet, sn.specified_values@),
        NodeType::Text(_) => sn.specified_values@ == Map::<Seq<char>, ValueV>::empty(),
    }
    &&& sn.children@.len() == n.children@.len()
    &&& forall|i: int|
        0 <= i < n.children@.len() ==> styled_ok(
            #[trigger] sn.children@[i],
            n.children@[i],
            sheet,
        )
}

/// Builds the styled tree of the document tree rooted at `root`: each
/// element node annotated with its resolved property mapping, each text
/// node with the empty mapping, children in document order.
pub fn style_tree(root: &Node, stylesheet: &Stylesheet) -> (r: StyledNode)
    ensures
        styled_ok(r, *root, *stylesheet),
    decreases *root,
{
    let specified = match &root.node_type {
        NodeType::Element(ed) => specified_values(ed, stylesheet),
        NodeType::Text(_) => PropertyMap::new(),
    };
    let n = root.children.len();
    let mut children: Vec<StyledNode> = Vec::new();
    let mut i: usize = 0;
    while i < n
        invariant
            i <= n,
            n == root.children@.len(),
            children@.len() == i,
            forall|j: int|
                0 <= j < i ==> styled_ok(
                    #[trigger] children@[j],
                    root.children@[j],
                    *stylesheet,
                ),
        decreases n - i,
    {
        let c = style_tree(&root.children[i], stylesheet);
        children.push(c);
        i += 1;
    }
    StyledNode { specified_values: specified, children }
}


} // verus!
