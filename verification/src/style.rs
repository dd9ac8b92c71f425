//! Selector matching, the cascade, and the style tree: which rules apply to
//! an element, which declaration wins each property, and the document tree
//! annotated node-for-node with its resolved property map.

use vstd::prelude::*;

use crate::css::{
    DeclarationV, Rule, RuleV, Selector, SelectorV, SimpleSelector, Specificity, StyleSheet, Value,
    ValueV, spec_lt, specificity_lt, specificity_of,
};
use crate::dom::{
    ElementData, ElementDataV, Node, NodeType, NodeTypeV, NodeV, attr_lookup, element_classes,
    lemma_nodes_view, node_view, nodes_view,
};
use crate::strings::{chars_eq, chars_of};

verus! {

broadcast use vstd::std_specs::vec::group_vec_axioms, vstd::seq_lib::group_to_multiset_ensures;

// ---------------------------------------------------------------------------
// Selector matching
// ---------------------------------------------------------------------------

/// Whether a selector matches an element: every present constraint must
/// hold; an absent constraint always does.
pub open spec fn selector_matches(e: ElementDataV, s: SelectorV) -> bool {
    match s {
        SelectorV::Simple(ss) => {
            &&& (ss.tag_name is Some ==> e.tag_name == ss.tag_name->0)
            &&& (ss.id is Some ==> attr_lookup(e.attributes, "id"@) == Option::Some(ss.id->0))
            &&& (forall|i: int|
                0 <= i < ss.class.len() ==> element_classes(e).contains(#[trigger] ss.class[i]))
        },
    }
}

/// Whether `needle`'s characters equal some element of `hay`.
fn contains_string(hay: &Vec<String>, needle: &String) -> (r: bool)
    ensures
        r == hay@.map_values(|s: String| s@).contains(needle@),
{
    let nc = chars_of(needle.as_str());
    let mut i: usize = 0;
    while i < hay.len()
        invariant
            i <= hay@.len(),
            nc@ == needle@,
            forall|j: int| 0 <= j < i ==> hay@[j]@ != needle@,
        decreases hay@.len() - i,
    {
        let hc = chars_of(hay[i].as_str());
        if chars_eq(&hc, &nc) {
            proof {
                assert(hay@.map_values(|s: String| s@)[i as int] == needle@);
            }
            return true;
        }
        i = i + 1;
    }
    proof {
        let hs = hay@.map_values(|s: String| s@);
        assert forall|k: int| 0 <= k < hs.len() implies #[trigger] hs[k] != needle@ by {
            assert(hay@[k]@ != needle@);
        }
    }
    false
}

/// Whether a simple selector matches an element.
pub fn matches_simple_selector(elem: &ElementData, selector: &SimpleSelector) -> (r: bool)
    ensures
        r == selector_matches(elem@, SelectorV::Simple(selector@)),
{
    match &selector.tag_name {
        Option::Some(name) => {
            let tc = chars_of(elem.tag_name.as_str());
            let nc = chars_of(name.as_str());
            if !chars_eq(&tc, &nc) {
                return false;
            }
        },
        Option::None => {},
    }
    match &selector.id {
        Option::Some(id) => {
            match elem.id() {
                Option::Some(v) => {
                    let vc = chars_of(v.as_str());
                    let ic = chars_of(id.as_str());
                    if !chars_eq(&vc, &ic) {
                        return false;
                    }
                },
                Option::None => {
                    return false;
                },
            }
        },
        Option::None => {},
    }
    let elem_classes = elem.classes();
    let mut i: usize = 0;
    while i < selector.class.len()
        invariant
            i <= selector.class@.len(),
            elem_classes@.map_values(|s: String| s@) == element_classes(elem@),
            forall|j: int|
                0 <= j < i ==> element_classes(elem@).contains(
                    #[trigger] selector@.class[j],
                ),
        decreases selector.class@.len() - i,
    {
        if !contains_string(&elem_classes, &selector.class[i]) {
            proof {
                assert(selector@.class[i as int] == selector.class@[i as int]@);
            }
            return false;
        }
        proof {
            assert(selector@.class[i as int] == selector.class@[i as int]@);
        }
        i = i + 1;
    }
    true
}

/// Whether a selector matches an element.
pub fn matches(elem: &ElementData, selector: &Selector) -> (r: bool)
    ensures
        r == selector_matches(elem@, selector@),
{
    match selector {
        Selector::Simple(s) => matches_simple_selector(elem, s),
    }
}

// ---------------------------------------------------------------------------
// Matching rules and their specificities
// ---------------------------------------------------------------------------

/// The specificity a rule has for an element: that of the first of its
/// selectors that matches, or nothing when none matches.
pub open spec fn first_match(e: ElementDataV, sels: Seq<SelectorV>) -> Option<Specificity>
    decreases sels.len(),
{
    if sels.len() == 0 {
        Option::None
    } else if selector_matches(e, sels[0]) {
        Option::Some(specificity_of(sels[0]))
    } else {
        first_match(e, sels.drop_first())
    }
}

/// The specificity a rule has for an element.
pub open spec fn rule_specificity(e: ElementDataV, r: RuleV) -> Option<Specificity> {
    first_match(e, r.selectors)
}

/// A matched rule: the specificity of its first matching selector, and its
/// position in the stylesheet.
pub type MatchedRule = (Specificity, usize);

/// If `rule` matches `elem`, its specificity for it.
pub fn match_rule(elem: &ElementData, rule: &Rule) -> (r: Option<Specificity>)
    ensures
        r == rule_specificity(elem@, rule@),
{
    let ghost sels = rule@.selectors;
    let mut i: usize = 0;
    proof {
        assert(sels.skip(0) =~= sels);
    }
    while i < rule.selectors.len()
        invariant
            i <= rule.selectors@.len(),
            sels == rule@.selectors,
            sels.len() == rule.selectors@.len(),
            first_match(elem@, sels) == first_match(elem@, sels.skip(i as int)),
        decreases rule.selectors@.len() - i,
    {
        proof {
            assert(sels[i as int] == rule.selectors@[i as int]@);
            assert(sels.skip(i as int)[0] == sels[i as int]);
        }
        if matches(elem, &rule.selectors[i]) {
            return Option::Some(rule.selectors[i].specificity());
        }
        proof {
            assert(sels.skip(i as int).drop_first() =~= sels.skip(i + 1));
        }
        i = i + 1;
    }
    Option::None
}

/// The matched rules among the first `n`, in stylesheet order.
pub open spec fn matching_pairs(e: ElementDataV, rules: Seq<RuleV>, n: int) -> Seq<MatchedRule>
    decreases n,
{
    if n <= 0 {
        Seq::empty()
    } else {
        let prev = matching_pairs(e, rules, n - 1);
        match rule_specificity(e, rules[n - 1]) {
            Option::Some(sp) => prev.push((sp, (n - 1) as usize)),
            Option::None => prev,
        }
    }
}

/// All rules of the stylesheet that match the element, each with its
/// specificity and its position.
pub fn matching_rules(elem: &ElementData, stylesheet: &StyleSheet) -> (r: Vec<MatchedRule>)
    ensures
        r@ == matching_pairs(elem@, stylesheet@, stylesheet@.len() as int),
{
    let mut out: Vec<MatchedRule> = Vec::new();
    let mut i: usize = 0;
    proof {
        assert(out@ =~= matching_pairs(elem@, stylesheet@, 0));
    }
    while i < stylesheet.rules.len()
        invariant
            i <= stylesheet.rules@.len(),
            stylesheet@.len() == stylesheet.rules@.len(),
            out@ == matching_pairs(elem@, stylesheet@, i as int),
        decreases stylesheet.rules@.len() - i,
    {
        proof {
            assert(stylesheet@[i as int] == stylesheet.rules@[i as int]@);
        }
        match match_rule(elem, &stylesheet.rules[i]) {
            Option::Some(sp) => {
                out.push((sp, i));
            },
            Option::None => {},
        }
        i = i + 1;
    }
    out
}

/// Properties of the matched-rule list: every entry points at a matching
/// rule and carries its specificity, positions ascend strictly, and every
/// matching rule is listed.
pub proof fn lemma_matching_pairs(e: ElementDataV, rules: Seq<RuleV>, n: int)
    requires
        0 <= n <= rules.len(),
        n <= usize::MAX,
    ensures
        forall|k: int|
            0 <= k < matching_pairs(e, rules, n).len() ==> {
                let p = #[trigger] matching_pairs(e, rules, n)[k];
                0 <= p.1 < n && rule_specificity(e, rules[p.1 as int]) == Option::Some(p.0)
            },
        forall|k1: int, k2: int|
            0 <= k1 < k2 < matching_pairs(e, rules, n).len() ==> matching_pairs(e, rules, n)[k1].1
                < matching_pairs(e, rules, n)[k2].1,
        forall|i: int|
            0 <= i < n && rule_specificity(e, rules[i]) is Some ==> exists|k: int|
                0 <= k < matching_pairs(e, rules, n).len() && #[trigger] matching_pairs(
                    e,
                    rules,
                    n,
                )[k].1 == i,
    decreases n,
{
    if n > 0 {
        lemma_matching_pairs(e, rules, n - 1);
        let prev = matching_pairs(e, rules, n - 1);
        let q = matching_pairs(e, rules, n);
        assert(q == match rule_specificity(e, rules[n - 1]) {
            Option::Some(sp) => prev.push((sp, (n - 1) as usize)),
            Option::None => prev,
        });
        assert forall|i: int|
            0 <= i < n && rule_specificity(e, rules[i]) is Some implies exists|k: int|
            0 <= k < q.len() && #[trigger] q[k].1 == i by {
            if i < n - 1 {
                let k = choose|k: int| 0 <= k < prev.len() && #[trigger] prev[k].1 == i;
                assert(q[k].1 == i);
            } else {
                let sp = rule_specificity(e, rules[n - 1])->0;
                assert(rule_specificity(e, rules[n - 1]) == Option::Some(sp));
                assert(q == prev.push((sp, (n - 1) as usize)));
                assert(q[q.len() - 1].1 == i);
            }
        }
    }
}

// ---------------------------------------------------------------------------
// Cascade order: sorting matched rules
// ---------------------------------------------------------------------------

/// Strict cascade order on matched rules: lower specificity first, and among
/// equal specificities the earlier-declared rule first.
pub open spec fn key_lt(a: MatchedRule, b: MatchedRule) -> bool {
    spec_lt(a.0, b.0) || (a.0 == b.0 && a.1 < b.1)
}

/// The reflexive cascade order.
pub open spec fn key_le(a: MatchedRule, b: MatchedRule) -> bool {
    !key_lt(b, a)
}

/// A sequence ascending in cascade order.
pub open spec fn sorted_pairs(s: Seq<MatchedRule>) -> bool {
    forall|i: int, j: int| 0 <= i < j < s.len() ==> key_le(#[trigger] s[i], #[trigger] s[j])
}

/// Compares two matched rules in cascade order.
fn pair_lt(a: &MatchedRule, b: &MatchedRule) -> (r: bool)
    ensures
        r == key_lt(*a, *b),
{
    specificity_lt(&a.0, &b.0) || (a.0.0 == b.0.0 && a.0.1 == b.0.1 && a.0.2 == b.0.2 && a.1 < b.1)
}

/// Sorts matched rules ascending in cascade order, keeping the same
/// collection of entries.
pub fn sort_pairs(v: Vec<MatchedRule>) -> (r: Vec<MatchedRule>)
    ensures
        sorted_pairs(r@),
        r@.to_multiset() == v@.to_multiset(),
{
    let mut out: Vec<MatchedRule> = Vec::new();
    let mut i: usize = 0;
    proof {
        assert(v@.take(0) =~= Seq::<MatchedRule>::empty());
        assert(out@.to_multiset() =~= v@.take(0).to_multiset());
    }
    while i < v.len()
        invariant
            i <= v@.len(),
            sorted_pairs(out@),
            out@.to_multiset() == v@.take(i as int).to_multiset(),
        decreases v@.len() - i,
    {
        let p = v[i];
        let mut j: usize = 0;
        let mut stop = false;
        while j < out.len() && !stop
            invariant
                j <= out@.len(),
                forall|k: int| 0 <= k < j ==> !key_lt(p, #[trigger] out@[k]),
                stop ==> j < out@.len() && key_lt(p, out@[j as int]),
            decreases out@.len() - j + (if stop { 0int } else { 1int }),
        {
            if pair_lt(&p, &out[j]) {
                stop = true;
            } else {
                j = j + 1;
            }
        }
        let ghost before = out@;
        out.insert(j, p);
        proof {
            assert(sorted_pairs(out@)) by {
                assert forall|x: int, y: int|
                    0 <= x < y < out@.len() implies key_le(out@[x], out@[y]) by {
                    if y < j {
                        assert(out@[x] == before[x] && out@[y] == before[y]);
                    } else if x > j {
                        assert(out@[x] == before[x - 1] && out@[y] == before[y - 1]);
                    } else if y == j {
                        assert(out@[y] == p && out@[x] == before[x]);
                        assert(!key_lt(p, before[x]));
                    } else if x == j {
                        assert(out@[x] == p && out@[y] == before[y - 1]);
                        if stop {
                            assert(key_lt(p, before[j as int]));
                            if y - 1 > j {
                                assert(key_le(before[j as int], before[y - 1]));
                            }
                        }
                    } else {
                        assert(x < j && y > j);
                        assert(out@[x] == before[x] && out@[y] == before[y - 1]);
                    }
                }
            }
            assert(v@.take(i + 1).drop_last() =~= v@.take(i as int));
            assert(v@.take(i + 1).last() == v@[i as int]);
            assert(v@.take(i + 1) =~= v@.take(i as int).push(v@[i as int]));
            assert(out@.to_multiset() =~= v@.take(i + 1).to_multiset());
        }
        i = i + 1;
    }
    proof {
        assert(v@.take(v@.len() as int) =~= v@);
    }
    out
}

// ---------------------------------------------------------------------------
// The cascade's result, declaratively
// ---------------------------------------------------------------------------

/// Declaration `j` of rule `i` sets property `n` on an element the rule
/// matches.
pub open spec fn applies(e: ElementDataV, rules: Seq<RuleV>, i: int, j: int, n: Seq<char>) -> bool {
    &&& 0 <= i < rules.len()
    &&& rule_specificity(e, rules[i]) is Some
    &&& 0 <= j < rules[i].declarations.len()
    &&& rules[i].declarations[j].name == n
}

/// The specificity a matching rule has for the element.
pub open spec fn cascade_key(e: ElementDataV, rules: Seq<RuleV>, i: int) -> Specificity {
    rule_specificity(e, rules[i])->0
}

/// Declaration `(i1, j1)` is applied after `(i2, j2)`: its rule is more
/// specific, or as specific and later in the stylesheet, or it is a later
/// declaration of the same rule.
pub open spec fn decl_beats(
    e: ElementDataV,
    rules: Seq<RuleV>,
    i1: int,
    j1: int,
    i2: int,
    j2: int,
) -> bool {
    ||| spec_lt(cascade_key(e, rules, i2), cascade_key(e, rules, i1))
    ||| (cascade_key(e, rules, i2) == cascade_key(e, rules, i1) && (i2 < i1 || (i2 == i1 && j2
        < j1)))
}

/// Declaration `(i, j)` wins property `n`: it applies, and it beats every
/// other declaration of `n` that applies.
pub open spec fn wins(e: ElementDataV, rules: Seq<RuleV>, i: int, j: int, n: Seq<char>) -> bool {
    &&& applies(e, rules, i, j, n)
    &&& forall|i2: int, j2: int|
        #![trigger applies(e, rules, i2, j2, n)]
        applies(e, rules, i2, j2, n) && !(i2 == i && j2 == j) ==> decl_beats(e, rules, i, j, i2, j2)
}

/// The value of the declaration that wins property `n`.
pub open spec fn winning_value(e: ElementDataV, rules: Seq<RuleV>, n: Seq<char>) -> ValueV {
    let (i, j) = choose|i: int, j: int| wins(e, rules, i, j, n);
    rules[i].declarations[j].value
}

/// The element's resolved property map: a property is present exactly when
/// some matching rule declares it, and it carries the winning declaration's
/// value.
pub open spec fn specified_values_spec(e: ElementDataV, rules: Seq<RuleV>) -> Map<Seq<char>, ValueV> {
    Map::new(
        |n: Seq<char>| exists|i: int, j: int| applies(e, rules, i, j, n),
        |n: Seq<char>| winning_value(e, rules, n),
    )
}

/// Rule index `i` stands in the matched-rule list `q`.
pub open spec fn in_pairs(q: Seq<MatchedRule>, i: int) -> bool {
    exists|k: int| 0 <= k < q.len() && (#[trigger] q[k]).1 == i
}

/// `applies`, restricted to rules listed in `q`.
pub open spec fn applies_in(
    e: ElementDataV,
    rules: Seq<RuleV>,
    q: Seq<MatchedRule>,
    i: int,
    j: int,
    n: Seq<char>,
) -> bool {
    applies(e, rules, i, j, n) && in_pairs(q, i)
}

/// `wins`, restricted to rules listed in `q`.
pub open spec fn wins_in(
    e: ElementDataV,
    rules: Seq<RuleV>,
    q: Seq<MatchedRule>,
    i: int,
    j: int,
    n: Seq<char>,
) -> bool {
    &&& applies_in(e, rules, q, i, j, n)
    &&& forall|i2: int, j2: int|
        #![trigger applies_in(e, rules, q, i2, j2, n)]
        applies_in(e, rules, q, i2, j2, n) && !(i2 == i && j2 == j) ==> decl_beats(
            e,
            rules,
            i,
            j,
            i2,
            j2,
        )
}

/// Each pair of `q` names a matching rule and carries its specificity.
pub open spec fn pairs_valid(e: ElementDataV, rules: Seq<RuleV>, q: Seq<MatchedRule>) -> bool {
    forall|k: int|
        0 <= k < q.len() ==> (#[trigger] q[k]).1 < rules.len() && rule_specificity(
            e,
            rules[q[k].1 as int],
        ) == Option::Some(q[k].0)
}

/// `q` ascends strictly in cascade order.
pub open spec fn pairs_strict(q: Seq<MatchedRule>) -> bool {
    forall|k1: int, k2: int| 0 <= k1 < k2 < q.len() ==> key_lt(#[trigger] q[k1], #[trigger] q[k2])
}

/// Declarations folded into a map in order, each overwriting any earlier
/// binding of its property.
pub open spec fn apply_decls(
    m: Map<Seq<char>, ValueV>,
    decls: Seq<DeclarationV>,
) -> Map<Seq<char>, ValueV>
    decreases decls.len(),
{
    if decls.len() == 0 {
        m
    } else {
        apply_decls(m, decls.drop_last()).insert(decls.last().name, decls.last().value)
    }
}

/// The declarations of the listed rules folded left to right into an empty
/// map.
pub open spec fn fold_pairs(rules: Seq<RuleV>, q: Seq<MatchedRule>) -> Map<Seq<char>, ValueV>
    decreases q.len(),
{
    if q.len() == 0 {
        Map::empty()
    } else {
        apply_decls(fold_pairs(rules, q.drop_last()), rules[q.last().1 as int].declarations)
    }
}

/// The position of the last declaration of `n`, or -1 where there is none.
pub open spec fn last_decl_index(decls: Seq<DeclarationV>, n: Seq<char>) -> int
    decreases decls.len(),
{
    if decls.len() == 0 {
        -1
    } else if decls.last().name == n {
        decls.len() - 1
    } else {
        last_decl_index(decls.drop_last(), n)
    }
}

/// What `last_decl_index` finds: the last declaration of `n`, with nothing
/// named `n` after it; or that nothing is named `n` at all.
pub proof fn lemma_last_decl_index(decls: Seq<DeclarationV>, n: Seq<char>)
    ensures
        last_decl_index(decls, n) >= -1,
        last_decl_index(decls, n) == -1 ==> forall|j: int|
            0 <= j < decls.len() ==> (#[trigger] decls[j]).name != n,
        last_decl_index(decls, n) >= 0 ==> {
            let li = last_decl_index(decls, n);
            &&& 0 <= li < decls.len()
            &&& decls[li].name == n
            &&& forall|j: int| li < j < decls.len() ==> (#[trigger] decls[j]).name != n
        },
    decreases decls.len(),
{
    if decls.len() > 0 {
        let t = decls.drop_last();
        lemma_last_decl_index(t, n);
        if decls.last().name == n {
        } else {
            let li = last_decl_index(t, n);
            if li == -1 {
                assert forall|j: int| 0 <= j < decls.len() implies (#[trigger] decls[j]).name
                    != n by {
                    if j < decls.len() - 1 {
                        assert(decls[j] == t[j]);
                    }
                }
            } else {
                assert(0 <= li < t.len());
                assert(t =~= decls.subrange(0, decls.len() - 1));
                assert(t[li] == decls[li]);
                assert forall|j: int| li < j < decls.len() implies (#[trigger] decls[j]).name
                    != n by {
                    if j < decls.len() - 1 {
                        assert(t[j] == decls[j]);
                    }
                }
            }
        }
    }
}

/// What folding declarations does to the map: a property declared in
/// `decls` carries its last declared value; any other keeps its binding
/// from `m`.
pub proof fn lemma_apply_decls(m: Map<Seq<char>, ValueV>, decls: Seq<DeclarationV>, n: Seq<char>)
    ensures
        apply_decls(m, decls).contains_key(n) <==> m.contains_key(n) || last_decl_index(decls, n)
            >= 0,
        last_decl_index(decls, n) >= 0 ==> apply_decls(m, decls)[n] == decls[last_decl_index(
            decls,
            n,
        )].value,
        last_decl_index(decls, n) == -1 && m.contains_key(n) ==> apply_decls(m, decls)[n] == m[n],
    decreases decls.len(),
{
    lemma_last_decl_index(decls, n);
    if decls.len() > 0 {
        let t = decls.drop_last();
        lemma_apply_decls(m, t, n);
        lemma_last_decl_index(t, n);
        if decls.last().name == n {
            assert(last_decl_index(decls, n) == decls.len() - 1);
        } else {
            assert(last_decl_index(decls, n) == last_decl_index(t, n));
            let li = last_decl_index(decls, n);
            if li >= 0 {
                assert(decls[li] == t[li]);
            }
        }
    }
}

/// Folding a strictly cascade-ordered matched-rule list yields, for every
/// property, the value of the declaration that wins among the listed rules.
pub proof fn lemma_fold_in(e: ElementDataV, rules: Seq<RuleV>, q: Seq<MatchedRule>, n: Seq<char>)
    requires
        pairs_valid(e, rules, q),
        pairs_strict(q),
    ensures
        fold_pairs(rules, q).contains_key(n) <==> exists|i: int, j: int|
            applies_in(e, rules, q, i, j, n),
        fold_pairs(rules, q).contains_key(n) ==> exists|i: int, j: int|
            wins_in(e, rules, q, i, j, n) && fold_pairs(rules, q)[n] == rules[i].declarations[j].value,
    decreases q.len(),
{
    if q.len() == 0 {
        assert(!fold_pairs(rules, q).contains_key(n));
        assert forall|i: int, j: int| !applies_in(e, rules, q, i, j, n) by {
            assert(!in_pairs(q, i));
        }
    } else {
        let q0 = q.drop_last();
        let p = q.last();
        let ri = p.1 as int;
        assert(q[q.len() - 1] == p);
        assert(pairs_valid(e, rules, q0)) by {
            assert(forall|k: int| 0 <= k < q0.len() ==> q0[k] == #[trigger] q[k]);
        }
        assert(pairs_strict(q0)) by {
            assert(forall|k: int| 0 <= k < q0.len() ==> q0[k] == #[trigger] q[k]);
        }
        lemma_fold_in(e, rules, q0, n);
        let m0 = fold_pairs(rules, q0);
        let decls = rules[ri].declarations;
        assert(fold_pairs(rules, q) == apply_decls(m0, decls));
        lemma_apply_decls(m0, decls, n);
        lemma_last_decl_index(decls, n);
        // all earlier pairs lie strictly below p in cascade order
        assert(forall|k: int| 0 <= k < q.len() - 1 ==> key_lt(#[trigger] q[k], p));
        // the last rule is not listed before
        assert(!in_pairs(q0, ri)) by {
            if in_pairs(q0, ri) {
                let k = choose|k: int| 0 <= k < q0.len() && (#[trigger] q0[k]).1 == ri;
                assert(q[k] == q0[k]);
                assert(key_lt(q[k], p));
                assert(q[k].0 == p.0);
                assert(false);
            }
        }
        // membership in q is membership in q0 or being the last rule
        assert forall|i: int| #[trigger] in_pairs(q, i) implies in_pairs(q0, i) || i == ri by {
            let k = choose|k: int| 0 <= k < q.len() && (#[trigger] q[k]).1 == i;
            if k < q.len() - 1 {
                assert(q0[k] == q[k]);
                assert(in_pairs(q0, i));
            }
        }
        assert forall|i: int| in_pairs(q0, i) implies #[trigger] in_pairs(q, i) by {
            let k = choose|k: int| 0 <= k < q0.len() && (#[trigger] q0[k]).1 == i;
            assert(q[k] == q0[k]);
        }
        assert(in_pairs(q, ri)) by {
            assert(q[q.len() - 1].1 == ri);
        }
        let li = last_decl_index(decls, n);
        if li >= 0 {
            // the last rule declares n: its last such declaration wins
            assert(applies(e, rules, ri, li, n));
            assert(applies_in(e, rules, q, ri, li, n));
            assert forall|i2: int, j2: int|
                applies_in(e, rules, q, i2, j2, n) && !(i2 == ri && j2 == li) implies decl_beats(
                e,
                rules,
                ri,
                li,
                i2,
                j2,
            ) by {
                if i2 == ri {
                    assert(decls[j2].name == n);
                    assert(j2 < li);
                } else {
                    assert(in_pairs(q0, i2));
                    let k = choose|k: int| 0 <= k < q0.len() && (#[trigger] q0[k]).1 == i2;
                    assert(q[k] == q0[k]);
                    assert(key_lt(q0[k], p));
                    assert(q0[k].0 == cascade_key(e, rules, i2));
                    assert(p.0 == cascade_key(e, rules, ri));
                }
            }
            assert(wins_in(e, rules, q, ri, li, n));
            assert(fold_pairs(rules, q)[n] == rules[ri].declarations[li].value);
        } else {
            // the last rule does not declare n: nothing changes for n
            assert forall|i2: int, j2: int| #[trigger]
                applies_in(e, rules, q, i2, j2, n) implies applies_in(e, rules, q0, i2, j2, n) by {
                if i2 == ri {
                    assert(0 <= j2 < decls.len());
                    assert(decls[j2].name == n);
                    assert(decls[j2].name != n);
                    assert(false);
                }
            }
            assert forall|i2: int, j2: int| #[trigger]
                applies_in(e, rules, q0, i2, j2, n) implies applies_in(e, rules, q, i2, j2, n) by {}
            if fold_pairs(rules, q).contains_key(n) {
                assert(m0.contains_key(n));
                let (iw, jw) = choose|iw: int, jw: int|
                    wins_in(e, rules, q0, iw, jw, n) && fold_pairs(rules, q0)[n]
                        == rules[iw].declarations[jw].value;
                assert(applies_in(e, rules, q, iw, jw, n));
                assert(wins_in(e, rules, q, iw, jw, n)) by {
                    assert forall|i2: int, j2: int|
                        applies_in(e, rules, q, i2, j2, n) && !(i2 == iw && j2
                            == jw) implies decl_beats(e, rules, iw, jw, i2, j2) by {
                        assert(applies_in(e, rules, q0, i2, j2, n));
                    }
                }
                assert(fold_pairs(rules, q)[n] == rules[iw].declarations[jw].value);
            }
        }
    }
}

/// Folding the complete, cascade-ordered matched-rule list is exactly the
/// declarative cascade.
pub proof fn lemma_cascade(e: ElementDataV, rules: Seq<RuleV>, q: Seq<MatchedRule>)
    requires
        pairs_valid(e, rules, q),
        pairs_strict(q),
        forall|i: int|
            0 <= i < rules.len() && rule_specificity(e, #[trigger] rules[i]) is Some ==> in_pairs(
                q,
                i,
            ),
    ensures
        fold_pairs(rules, q) == specified_values_spec(e, rules),
{
    let f = fold_pairs(rules, q);
    let sv = specified_values_spec(e, rules);
    assert forall|n: Seq<char>, i: int, j: int| #[trigger]
        applies(e, rules, i, j, n) implies applies_in(e, rules, q, i, j, n) by {}
    assert forall|n: Seq<char>| #[trigger] f.contains_key(n) == sv.contains_key(n) by {
        lemma_fold_in(e, rules, q, n);
        if f.contains_key(n) {
            let (i, j) = choose|i: int, j: int| applies_in(e, rules, q, i, j, n);
            assert(applies(e, rules, i, j, n));
            assert(sv.contains_key(n));
        }
        if sv.contains_key(n) {
            let (i, j) = choose|i: int, j: int| applies(e, rules, i, j, n);
            assert(applies_in(e, rules, q, i, j, n));
            assert(f.contains_key(n));
        }
    }
    assert forall|n: Seq<char>| #[trigger] f.contains_key(n) implies f[n] == sv[n] by {
        lemma_fold_in(e, rules, q, n);
        let (iw, jw) = choose|iw: int, jw: int|
            wins_in(e, rules, q, iw, jw, n) && f[n] == rules[iw].declarations[jw].value;
        assert(wins(e, rules, iw, jw, n)) by {
            assert forall|i2: int, j2: int|
                applies(e, rules, i2, j2, n) && !(i2 == iw && j2 == jw) implies decl_beats(
                e,
                rules,
                iw,
                jw,
                i2,
                j2,
            ) by {
                assert(applies_in(e, rules, q, i2, j2, n));
            }
        }
        let (ic, jc) = choose|ic: int, jc: int| wins(e, rules, ic, jc, n);
        lemma_winner_unique(e, rules, n, iw, jw, ic, jc);
        assert(sv[n] == rules[iw].declarations[jw].value);
    }
    assert(f =~= sv);
}

// ---------------------------------------------------------------------------
// Property maps
// ---------------------------------------------------------------------------

/// A property map: property names to values, keyed by name.
#[derive(Debug)]
pub struct PropertyMap {
    entries: Vec<(String, Value)>,
}

/// The map an entry sequence denotes; later entries overwrite earlier ones.
pub open spec fn pm_map(s: Seq<(Seq<char>, ValueV)>) -> Map<Seq<char>, ValueV>
    decreases s.len(),
{
    if s.len() == 0 {
        Map::empty()
    } else {
        pm_map(s.drop_last()).insert(s.last().0, s.last().1)
    }
}

impl View for PropertyMap {
    type V = Map<Seq<char>, ValueV>;

    closed spec fn view(&self) -> Map<Seq<char>, ValueV> {
        pm_map(self.entries@.map_values(|e: (String, Value)| (e.0@, e.1@)))
    }
}

impl PropertyMap {
    /// An empty property map.
    pub fn new() -> (r: PropertyMap)
        ensures
            r@ == Map::<Seq<char>, ValueV>::empty(),
    {
        let r = PropertyMap { entries: Vec::new() };
        proof {
            assert(r.entries@.map_values(|e: (String, Value)| (e.0@, e.1@)) =~= Seq::<(
                Seq<char>,
                ValueV,
            )>::empty());
        }
        r
    }

    /// Binds `value` under `name`, replacing any earlier binding.
    pub fn insert(&mut self, name: String, value: Value)
        ensures
            final(self)@ == old(self)@.insert(name@, value@),
    {
        let ghost before = self.entries@.map_values(|e: (String, Value)| (e.0@, e.1@));
        self.entries.push((name, value));
        proof {
            let after = self.entries@.map_values(|e: (String, Value)| (e.0@, e.1@));
            assert(after.drop_last() =~= before);
            assert(after.last() == (name@, value@));
        }
    }

    /// The value bound under `name`, if the map has one.
    pub fn get(&self, name: &str) -> (r: Option<&Value>)
        ensures
            match r {
                Option::Some(v) => self@.contains_key(name@) && v@ == self@[name@],
                Option::None => !self@.contains_key(name@),
            },
    {
        let kc = chars_of(name);
        let ghost s = self.entries@.map_values(|e: (String, Value)| (e.0@, e.1@));
        let mut i: usize = self.entries.len();
        proof {
            assert(s.take(s.len() as int) =~= s);
        }
        while i > 0
            invariant
                i <= self.entries@.len(),
                kc@ == name@,
                s == self.entries@.map_values(|e: (String, Value)| (e.0@, e.1@)),
                s.len() == self.entries@.len(),
                self@ == pm_map(s),
                self@.contains_key(name@) == pm_map(s.take(i as int)).contains_key(name@),
                self@.contains_key(name@) ==> self@[name@] == pm_map(s.take(i as int))[name@],
            decreases i,
        {
            proof {
                assert(s.take(i as int).drop_last() =~= s.take(i - 1));
                assert(s.take(i as int).last() == s[i - 1]);
                assert(s[i - 1] == (self.entries@[i - 1].0@, self.entries@[i - 1].1@));
            }
            let ec = chars_of(self.entries[i - 1].0.as_str());
            if chars_eq(&ec, &kc) {
                return Option::Some(&self.entries[i - 1].1);
            }
            i = i - 1;
        }
        proof {
            assert(s.take(0) =~= Seq::<(Seq<char>, ValueV)>::empty());
        }
        Option::None
    }

    /// An equal copy of the map.
    pub fn duplicate(&self) -> (r: PropertyMap)
        ensures
            r@ == self@,
    {
        let mut out: Vec<(String, Value)> = Vec::new();
        let mut i: usize = 0;
        while i < self.entries.len()
            invariant
                i <= self.entries@.len(),
                out@.len() == i,
                forall|j: int|
                    0 <= j < i ==> (#[trigger] out@[j]).0@ == self.entries@[j].0@ && out@[j].1@
                        == self.entries@[j].1@,
            decreases self.entries@.len() - i,
        {
            let e = &self.entries[i];
            out.push((e.0.clone(), e.1.duplicate()));
            i = i + 1;
        }
        let r = PropertyMap { entries: out };
        proof {
            assert(r.entries@.map_values(|e: (String, Value)| (e.0@, e.1@)) =~= self.entries@
                .map_values(|e: (String, Value)| (e.0@, e.1@)));
        }
        r
    }
}

// ---------------------------------------------------------------------------
// Resolving one element
// ---------------------------------------------------------------------------

/// The element's resolved property map: every matching rule found, ordered
/// by specificity then stylesheet position, and its declarations folded in,
/// later and more specific ones overwriting earlier ones.
pub fn specified_values(elem: &ElementData, stylesheet: &StyleSheet) -> (r: PropertyMap)
    ensures
        r@ == specified_values_spec(elem@, stylesheet@),
{
    let matched = matching_rules(elem, stylesheet);
    let n_rules = stylesheet.rules.len();
    proof {
        lemma_matching_pairs(elem@, stylesheet@, n_rules as int);
    }
    let sorted = sort_pairs(matched);
    let ghost mv = matched@;
    let ghost q = sorted@;
    let ghost rules = stylesheet@;
    proof {
        // membership carries over the sort
        assert forall|x: MatchedRule| #[trigger] q.contains(x) == mv.contains(x) by {
            assert(q.contains(x) == (q.to_multiset().count(x) > 0));
            assert(mv.contains(x) == (mv.to_multiset().count(x) > 0));
        }
        assert(pairs_valid(elem@, rules, q)) by {
            assert forall|k: int|
                0 <= k < q.len() implies (#[trigger] q[k]).1 < rules.len() && rule_specificity(
                elem@,
                rules[q[k].1 as int],
            ) == Option::Some(q[k].0) by {
                assert(q.contains(q[k]));
                let k0 = choose|k0: int| 0 <= k0 < mv.len() && mv[k0] == q[k];
            }
        }
        // distinctness carries over the sort
        assert(mv.no_duplicates()) by {
            assert forall|k1: int, k2: int|
                0 <= k1 < mv.len() && 0 <= k2 < mv.len() && k1 != k2 implies mv[k1] != mv[k2] by {
                if k1 < k2 {
                    assert(mv[k1].1 < mv[k2].1);
                } else {
                    assert(mv[k2].1 < mv[k1].1);
                }
            }
        }
        mv.lemma_multiset_has_no_duplicates();
        q.lemma_multiset_has_no_duplicates_conv();
        assert(q.no_duplicates());
        // sortedness plus distinctness: strictly ascending
        assert(pairs_strict(q)) by {
            assert forall|k1: int, k2: int|
                0 <= k1 < k2 < q.len() implies key_lt(#[trigger] q[k1], #[trigger] q[k2]) by {
                assert(key_le(q[k1], q[k2]));
                if !key_lt(q[k1], q[k2]) {
                    let a = q[k1];
                    let b = q[k2];
                    assert(!spec_lt(a.0, b.0) && !spec_lt(b.0, a.0));
                    assert(a.0.0 == b.0.0 && a.0.1 == b.0.1 && a.0.2 == b.0.2);
                    assert(a.0 =~= b.0);
                    assert(a.1 == b.1);
                    assert(a =~= b);
                    assert(false);
                }
            }
        }
        // completeness carries over the sort
        assert forall|i: int|
            0 <= i < rules.len() && rule_specificity(elem@, #[trigger] rules[i]) is Some implies in_pairs(
            q,
            i,
        ) by {
            let k0 = choose|k0: int| 0 <= k0 < mv.len() && #[trigger] mv[k0].1 == i;
            assert(mv.contains(mv[k0]));
            assert(q.contains(mv[k0]));
            let k = choose|k: int| 0 <= k < q.len() && q[k] == mv[k0];
            assert(q[k].1 == i);
        }
    }
    let mut values = PropertyMap::new();
    let mut k: usize = 0;
    proof {
        assert(q.take(0) =~= Seq::<MatchedRule>::empty());
    }
    while k < sorted.len()
        invariant
            k <= sorted@.len(),
            q == sorted@,
            rules == stylesheet@,
            rules.len() == stylesheet.rules@.len(),
            pairs_valid(elem@, rules, q),
            values@ == fold_pairs(rules, q.take(k as int)),
        decreases sorted@.len() - k,
    {
        let ri = sorted[k].1;
        proof {
            assert(q[k as int].1 == ri);
            assert(ri < rules.len());
            assert(rules[ri as int] == stylesheet.rules@[ri as int]@);
        }
        let rule = &stylesheet.rules[ri];
        let ghost decls = rules[ri as int].declarations;
        let ghost m0 = values@;
        let mut j: usize = 0;
        proof {
            assert(decls.take(0) =~= Seq::<DeclarationV>::empty());
        }
        while j < rule.declarations.len()
            invariant
                j <= rule.declarations@.len(),
                decls == rule@.declarations,
                decls.len() == rule.declarations@.len(),
                values@ == apply_decls(m0, decls.take(j as int)),
            decreases rule.declarations@.len() - j,
        {
            proof {
                assert(decls[j as int] == rule.declarations@[j as int]@);
            }
            let d = &rule.declarations[j];
            values.insert(d.name.clone(), d.value.duplicate());
            proof {
                assert(decls.take(j + 1).drop_last() =~= decls.take(j as int));
                assert(decls.take(j + 1).last() == decls[j as int]);
            }
            j = j + 1;
        }
        proof {
            assert(decls.take(decls.len() as int) =~= decls);
            assert(q.take(k + 1).drop_last() =~= q.take(k as int));
            assert(q.take(k + 1).last() == q[k as int]);
            assert(values@ == fold_pairs(rules, q.take(k + 1)));
        }
        k = k + 1;
    }
    proof {
        assert(q.take(q.len() as int) =~= q);
        lemma_cascade(elem@, rules, q);
    }
    values
}

/// Two declarations that both win a property are the same declaration.
pub proof fn lemma_winner_unique(
    e: ElementDataV,
    rules: Seq<RuleV>,
    n: Seq<char>,
    i1: int,
    j1: int,
    i2: int,
    j2: int,
)
    requires
        wins(e, rules, i1, j1, n),
        wins(e, rules, i2, j2, n),
    ensures
        i1 == i2 && j1 == j2,
{
    if !(i1 == i2 && j1 == j2) {
        assert(decl_beats(e, rules, i1, j1, i2, j2));
        assert(decl_beats(e, rules, i2, j2, i1, j1));
        assert(false);
    }
}


// ---------------------------------------------------------------------------
// The style tree
// ---------------------------------------------------------------------------

/// A document node annotated with its resolved property map, its children
/// annotated likewise.
#[derive(Debug)]
pub struct StyledNode {
    pub node: NodeType,
    pub specified_values: PropertyMap,
    pub children: Vec<StyledNode>,
}

/// The mathematical form of a `StyledNode`.
#[verifier::ext_equal]
pub ghost struct StyledNodeV {
    pub node: NodeTypeV,
    pub specified_values: Map<Seq<char>, ValueV>,
    pub children: Seq<StyledNodeV>,
}

/// The views of a sequence of styled nodes.
pub open spec fn styled_nodes_view(s: Seq<StyledNode>) -> Seq<StyledNodeV>
    decreases s,
{
    if s.len() == 0 {
        Seq::empty()
    } else {
        styled_nodes_view(s.drop_last()).push(styled_view(s.last()))
    }
}

/// The view of one styled node.
pub open spec fn styled_view(sn: StyledNode) -> StyledNodeV
    decreases sn,
{
    StyledNodeV {
        node: sn.node@,
        specified_values: sn.specified_values@,
        children: styled_nodes_view(sn.children@),
    }
}

impl View for StyledNode {
    type V = StyledNodeV;

    open spec fn view(&self) -> StyledNodeV {
        styled_view(*self)
    }
}

/// `styled_nodes_view` is the view, node by node.
pub proof fn lemma_styled_nodes_view(s: Seq<StyledNode>)
    ensures
        styled_nodes_view(s).len() == s.len(),
        forall|i: int| 0 <= i < s.len() ==> styled_nodes_view(s)[i] == styled_view(#[trigger] s[i]),
    decreases s,
{
    if s.len() > 0 {
        lemma_styled_nodes_view(s.drop_last());
        assert(forall|i: int| 0 <= i < s.len() - 1 ==> s.drop_last()[i] == #[trigger] s[i]);
    }
}

/// The styled tree of a node: the node's own resolved map — empty for a
/// text node — and its children styled in order, mirroring the tree's shape.
pub open spec fn style_tree_spec(n: NodeV, rules: Seq<RuleV>) -> StyledNodeV
    decreases n,
{
    StyledNodeV {
        node: n.node_type,
        specified_values: match n.node_type {
            NodeTypeV::Element(e) => specified_values_spec(e, rules),
            NodeTypeV::Text(_) => Map::empty(),
        },
        children: style_children_spec(n.children, rules),
    }
}

/// The styled trees of a node sequence.
pub open spec fn style_children_spec(cs: Seq<NodeV>, rules: Seq<RuleV>) -> Seq<StyledNodeV>
    decreases cs,
{
    if cs.len() == 0 {
        Seq::empty()
    } else {
        style_children_spec(cs.drop_last(), rules).push(style_tree_spec(cs.last(), rules))
    }
}

/// `style_children_spec` is `style_tree_spec`, node by node.
pub proof fn lemma_style_children_spec(cs: Seq<NodeV>, rules: Seq<RuleV>)
    ensures
        style_children_spec(cs, rules).len() == cs.len(),
        forall|i: int|
            0 <= i < cs.len() ==> style_children_spec(cs, rules)[i] == style_tree_spec(
                #[trigger] cs[i],
                rules,
            ),
    decreases cs,
{
    if cs.len() > 0 {
        lemma_style_children_spec(cs.drop_last(), rules);
        assert(forall|i: int| 0 <= i < cs.len() - 1 ==> cs.drop_last()[i] == #[trigger] cs[i]);
    }
}

/// Applies the stylesheet to a whole document tree, producing a styled tree
/// of the same shape; text nodes get an empty map.
pub fn style_tree(root: &Node, stylesheet: &StyleSheet) -> (r: StyledNode)
    ensures
        r@ == style_tree_spec(root@, stylesheet@),
    decreases *root,
{
    let specified = match &root.node_type {
        NodeType::Element(e) => specified_values(e, stylesheet),
        NodeType::Text(_) => PropertyMap::new(),
    };
    let mut children: Vec<StyledNode> = Vec::new();
    let mut i: usize = 0;
    proof {
        lemma_nodes_view(root.children@);
        assert(root@.children.take(0) =~= Seq::<NodeV>::empty());
        assert(styled_nodes_view(children@) =~= style_children_spec(root@.children.take(0), stylesheet@));
    }
    while i < root.children.len()
        invariant
            i <= root.children@.len(),
            root@.children.len() == root.children@.len(),
            forall|k: int|
                0 <= k < root.children@.len() ==> root@.children[k] == node_view(
                    #[trigger] root.children@[k],
                ),
            children@.len() == i,
            styled_nodes_view(children@) == style_children_spec(
                root@.children.take(i as int),
                stylesheet@,
            ),
        decreases root.children@.len() - i,
    {
        let styled = style_tree(&root.children[i], stylesheet);
        let ghost before = children@;
        children.push(styled);
        proof {
            lemma_styled_nodes_view(children@);
            lemma_styled_nodes_view(before);
            assert(children@.drop_last() =~= before);
            assert(styled_nodes_view(children@) =~= styled_nodes_view(before).push(styled@));
            let cs = root@.children;
            assert(cs.take(i + 1).drop_last() =~= cs.take(i as int));
            assert(cs.take(i + 1).last() == cs[i as int]);
            assert(styled_nodes_view(children@) =~= style_children_spec(
                cs.take(i + 1),
                stylesheet@,
            ));
        }
        i = i + 1;
    }
    proof {
        assert(root@.children.take(root.children@.len() as int) =~= root@.children);
    }
    let r = StyledNode { node: root.node_type.duplicate(), specified_values: specified, children };
    proof {
        assert(r@ =~= style_tree_spec(root@, stylesheet@));
    }
    r
}

// ---------------------------------------------------------------------------
// Display values
// ---------------------------------------------------------------------------

/// How a node is laid out: in line with text, as a block, or not at all.
#[derive(Clone, Copy, PartialEq, Eq, Structural, Debug)]
pub enum Display {
    Inline,
    Block,
    Nothing,
}

/// The display a property map resolves to: the keyword values `block` and
/// `none` mean themselves; every other value, and an absent or non-keyword
/// `display` property, means inline.
pub open spec fn display_of(m: Map<Seq<char>, ValueV>) -> Display {
    if m.contains_key("display"@) {
        match m["display"@] {
            ValueV::Keyword(k) => {
                if k == "block"@ {
                    Display::Block
                } else if k == "none"@ {
                    Display::Nothing
                } else {
                    Display::Inline
                }
            },
            _ => Display::Inline,
        }
    } else {
        Display::Inline
    }
}

impl StyledNode {
    /// The resolved value of a property, if the map has one.
    pub fn value(&self, name: &str) -> (r: Option<Value>)
        ensures
            match r {
                Option::Some(v) => self@.specified_values.contains_key(name@) && v@
                    == self@.specified_values[name@],
                Option::None => !self@.specified_values.contains_key(name@),
            },
    {
        match self.specified_values.get(name) {
            Option::Some(v) => Option::Some(v.duplicate()),
            Option::None => Option::None,
        }
    }

    /// The node's display value.
    pub fn display(&self) -> (r: Display)
        ensures
            r == display_of(self@.specified_values),
    {
        match self.value("display") {
            Option::Some(Value::Keyword(s)) => {
                let sc = chars_of(s.as_str());
                let bc = chars_of("block");
                if chars_eq(&sc, &bc) {
                    return Display::Block;
                }
                let nc = chars_of("none");
                if chars_eq(&sc, &nc) {
                    return Display::Nothing;
                }
                Display::Inline
            },
            _ => Display::Inline,
        }
    }

    /// The value of `name`, or of `fallback_name` where `name` is unset, or
    /// `default` where both are.
    pub fn lookup(&self, name: &str, fallback_name: &str, default: &Value) -> (r: Value)
        ensures
            r@ == (if self@.specified_values.contains_key(name@) {
                self@.specified_values[name@]
            } else if self@.specified_values.contains_key(fallback_name@) {
                self@.specified_values[fallback_name@]
            } else {
                default@
            }),
    {
        match self.value(name) {
            Option::Some(v) => v,
            Option::None => match self.value(fallback_name) {
                Option::Some(v) => v,
                Option::None => default.duplicate(),
            },
        }
    }
}

// ---------------------------------------------------------------------------
// Laws of the cascade
// ---------------------------------------------------------------------------

/// The resolved property map is a function of the element and the declared
/// rule order alone: equal views give equal maps, whatever storage produced
/// them.
pub proof fn lemma_specified_values_deterministic(
    e1: ElementDataV,
    rules1: Seq<RuleV>,
    e2: ElementDataV,
    rules2: Seq<RuleV>,
)
    requires
        e1 == e2,
        rules1 == rules2,
    ensures
        specified_values_spec(e1, rules1) == specified_values_spec(e2, rules2),
{
}

/// The declaration that wins a property is the one the resolved map
/// carries.
pub proof fn lemma_winner_sets_value(
    e: ElementDataV,
    rules: Seq<RuleV>,
    i: int,
    j: int,
    n: Seq<char>,
)
    requires
        wins(e, rules, i, j, n),
    ensures
        specified_values_spec(e, rules).contains_key(n),
        specified_values_spec(e, rules)[n] == rules[i].declarations[j].value,
{
    assert(applies(e, rules, i, j, n));
    assert(specified_values_spec(e, rules).contains_key(n));
    let (ci, cj) = choose|ci: int, cj: int| wins(e, rules, ci, cj, n);
    lemma_winner_unique(e, rules, n, i, j, ci, cj);
}

/// Of two matching rules with equal specificity that both declare a
/// property, the earlier-declared rule's declaration never wins.
pub proof fn lemma_later_rule_wins(
    e: ElementDataV,
    rules: Seq<RuleV>,
    i: int,
    j: int,
    i2: int,
    j2: int,
    n: Seq<char>,
)
    requires
        applies(e, rules, i, j, n),
        applies(e, rules, i2, j2, n),
        cascade_key(e, rules, i) == cascade_key(e, rules, i2),
        i < i2,
    ensures
        !wins(e, rules, i, j, n),
{
    assert(!decl_beats(e, rules, i, j, i2, j2));
}

/// A declaration of a strictly less specific matching rule never wins a
/// property that a more specific matching rule also declares.
pub proof fn lemma_higher_specificity_wins(
    e: ElementDataV,
    rules: Seq<RuleV>,
    i: int,
    j: int,
    i2: int,
    j2: int,
    n: Seq<char>,
)
    requires
        applies(e, rules, i, j, n),
        applies(e, rules, i2, j2, n),
        spec_lt(cascade_key(e, rules, i2), cascade_key(e, rules, i)),
    ensures
        !wins(e, rules, i2, j2, n),
{
    assert(!decl_beats(e, rules, i2, j2, i, j));
}

/// An id-selected rule's declaration beats a tag-only rule's declaration of
/// the same property, whichever was declared first.
pub proof fn lemma_id_overrides_tag(
    e: ElementDataV,
    rules: Seq<RuleV>,
    i: int,
    j: int,
    i2: int,
    j2: int,
    n: Seq<char>,
)
    requires
        applies(e, rules, i, j, n),
        applies(e, rules, i2, j2, n),
        cascade_key(e, rules, i).0 >= 1,
        cascade_key(e, rules, i2).0 == 0,
    ensures
        !wins(e, rules, i2, j2, n),
{
    lemma_higher_specificity_wins(e, rules, i, j, i2, j2, n);
}

} // verus!
