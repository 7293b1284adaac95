//! The style cascade: which rule's value a target sees.

use vstd::prelude::*;

use crate::model::{Network, Rule, Selector, Styled, TensorId, group_pos, level_attrs, rule_level, style_of};
use crate::name::{NamePattern, pattern_matches};
use crate::value::attrs_view;
use crate::value::{ValueView, key_pos, last_value, lemma_key_pos, lemma_merge_last_wins, merge_seq};

verus! {

/// The value a key has in a target's style, if any.
pub open spec fn style_value(n: &Network, target: Styled, key: Seq<char>) -> Option<ValueView> {
    let s = style_of(n, target);
    if key_pos(s, key) >= 0 {
        Some(s[key_pos(s, key)].1)
    } else {
        None
    }
}

/// The value of the last attribute with the key in `a + b`: from `b` when
/// `b` sets the key, else from `a`.
proof fn lemma_last_value_concat(a: Seq<(Seq<char>, ValueView)>, b: Seq<(Seq<char>, ValueView)>, key: Seq<char>)
    ensures
        last_value(a + b, key) == match last_value(b, key) {
            Some(v) => Some(v),
            None => last_value(a, key),
        },
    decreases b.len(),
{
    if b.len() == 0 {
        assert(a + b =~= a);
    } else {
        assert((a + b).drop_last() =~= a + b.drop_last());
        lemma_last_value_concat(a, b.drop_last(), key);
    }
}

/// The cascade: a key's value in a style comes from the most specific level
/// that sets it (names, then tags and groups, then types), whatever the
/// order of the rules, and within that level from the last rule that sets
/// it.
pub proof fn lemma_cascade(n: &Network, target: Styled, key: Seq<char>)
    ensures
        style_value(n, target, key) == match last_value(level_attrs(n, target, n.rules_view(), 2), key) {
            Some(v) => Some(v),
            None => match last_value(level_attrs(n, target, n.rules_view(), 1), key) {
                Some(v) => Some(v),
                None => last_value(level_attrs(n, target, n.rules_view(), 0), key),
            },
        },
{
    let l0 = level_attrs(n, target, n.rules_view(), 0);
    let l1 = level_attrs(n, target, n.rules_view(), 1);
    let l2 = level_attrs(n, target, n.rules_view(), 2);
    let all = l0 + l1 + l2;
    let m = merge_seq(all);
    lemma_merge_last_wins(all);
    lemma_key_pos(m, key);
    lemma_last_value_concat(l0 + l1, l2, key);
    lemma_last_value_concat(l0, l1, key);
    lemma_last_value_present(all, key);
    if key_pos(m, key) >= 0 {
        let p = key_pos(m, key);
        assert(last_value(all, m[p].0) == Some(m[p].1));
    } else {
        assert(!(exists|j: int| 0 <= j < all.len() && all[j].0 == key));
    }
}

/// A key has a last value exactly when it occurs.
proof fn lemma_last_value_present(s: Seq<(Seq<char>, ValueView)>, key: Seq<char>)
    ensures
        last_value(s, key) is Some <==> exists|j: int| 0 <= j < s.len() && s[j].0 == key,
    decreases s.len(),
{
    if s.len() > 0 {
        lemma_last_value_present(s.drop_last(), key);
        if exists|j: int| 0 <= j < s.len() && s[j].0 == key {
            let j = choose|j: int| 0 <= j < s.len() && s[j].0 == key;
            if j < s.len() - 1 {
                assert(s.drop_last()[j].0 == key);
            }
        }
        if exists|j: int| 0 <= j < s.drop_last().len() && s.drop_last()[j].0 == key {
            let j = choose|j: int| 0 <= j < s.drop_last().len() && s.drop_last()[j].0 == key;
            assert(s[j].0 == key);
        }
    }
}

/// A name pattern that names a group of the network: a bare name that some
/// group has.
pub open spec fn names_group(n: &Network, p: NamePattern) -> bool {
    p.subscripts@.len() == 0 && p.prime == 0 && group_pos(n.groups_view(), p.base@) >= 0
}

/// The selector picks tensor `t` out by its name: the tensor itself, or a
/// pattern that matches its name and names no group.
pub open spec fn selects_by_name(n: &Network, t: TensorId, sel: Selector) -> bool {
    match sel {
        Selector::Tensor(id) => id == t,
        Selector::Name(p) => !names_group(n, p) && pattern_matches(p, n.tensors_view()[t.0 as int].name, 0),
        _ => false,
    }
}

/// The selector names a group that holds tensor `t`.
pub open spec fn selects_by_group(n: &Network, t: TensorId, sel: Selector) -> bool {
    sel matches Selector::Name(p) && names_group(n, p) && n.groups_view()[group_pos(
        n.groups_view(),
        p.base@,
    )].members@.contains(t)
}

/// The rule gives the key a value.
pub open spec fn rule_sets(r: Rule, key: Seq<char>) -> bool {
    last_value(attrs_view(r.attrs@), key) is Some
}

/// The last rule of `rules` at level `l` that sets the key is rule `i`.
proof fn lemma_top_level_last(
    n: &Network,
    t: TensorId,
    rules: Seq<Rule>,
    i: int,
    key: Seq<char>,
    v: ValueView,
    l: u8,
)
    requires
        0 <= i < rules.len(),
        rule_level(n, Styled::Tensor(t), rules[i].selector) == Some(l),
        last_value(attrs_view(rules[i].attrs@), key) == Some(v),
        forall|k: int|
            i < k < rules.len() && rule_sets(#[trigger] rules[k], key) ==> rule_level(
                n,
                Styled::Tensor(t),
                rules[k].selector,
            ) != Some(l),
    ensures
        last_value(level_attrs(n, Styled::Tensor(t), rules, l), key) == Some(v),
    decreases rules.len(),
{
    let last = rules.len() - 1;
    let p = level_attrs(n, Styled::Tensor(t), rules.drop_last(), l);
    let a = attrs_view(rules.last().attrs@);
    lemma_last_value_concat(p, a, key);
    if i < last {
        assert forall|k: int|
            i < k < rules.drop_last().len() && rule_sets(#[trigger] rules.drop_last()[k], key) implies rule_level(
            n,
            Styled::Tensor(t),
            rules.drop_last()[k].selector,
        ) != Some(l) by {
            assert(rules.drop_last()[k] == rules[k]);
        }
        assert(rules.drop_last()[i] == rules[i]);
        lemma_top_level_last(n, t, rules.drop_last(), i, key, v, l);
        assert(rule_sets(rules[last], key) ==> rule_level(n, Styled::Tensor(t), rules[last].selector) != Some(l));
    }
}

/// A rule that names a tensor beats a rule that names one of its groups,
/// whatever their order: when no rule after the name rule sets the key
/// but rules on the tensor's groups, the tensor takes the name rule's value.
pub proof fn lemma_name_beats_group(n: &Network, t: TensorId, i: int, key: Seq<char>, v: ValueView)
    requires
        t.0 < n.tensors_view().len(),
        0 <= i < n.rules_view().len(),
        selects_by_name(n, t, n.rules_view()[i].selector),
        last_value(attrs_view(n.rules_view()[i].attrs@), key) == Some(v),
        forall|k: int|
            i < k < n.rules_view().len() && rule_sets(#[trigger] n.rules_view()[k], key) ==> selects_by_group(
                n,
                t,
                n.rules_view()[k].selector,
            ),
    ensures
        style_value(n, Styled::Tensor(t), key) == Some(v),
{
    let rules = n.rules_view();
    assert forall|k: int| i < k < rules.len() && rule_sets(#[trigger] rules[k], key) implies rule_level(
        n,
        Styled::Tensor(t),
        rules[k].selector,
    ) != Some(2u8) by {
        assert(selects_by_group(n, t, rules[k].selector));
    }
    lemma_top_level_last(n, t, rules, i, key, v, 2u8);
    lemma_cascade(n, Styled::Tensor(t), key);
}

/// No rule of `rules` at level `l` sets the key.
proof fn lemma_level_unset(n: &Network, t: TensorId, rules: Seq<Rule>, key: Seq<char>, l: u8)
    requires
        forall|k: int|
            0 <= k < rules.len() && rule_sets(#[trigger] rules[k], key) ==> rule_level(
                n,
                Styled::Tensor(t),
                rules[k].selector,
            ) != Some(l),
    ensures
        last_value(level_attrs(n, Styled::Tensor(t), rules, l), key) is None,
    decreases rules.len(),
{
    if rules.len() > 0 {
        let last = rules.len() - 1;
        assert forall|k: int|
            0 <= k < rules.drop_last().len() && rule_sets(#[trigger] rules.drop_last()[k], key) implies rule_level(
            n,
            Styled::Tensor(t),
            rules.drop_last()[k].selector,
        ) != Some(l) by {
            assert(rules.drop_last()[k] == rules[k]);
        }
        lemma_level_unset(n, t, rules.drop_last(), key, l);
        lemma_last_value_concat(
            level_attrs(n, Styled::Tensor(t), rules.drop_last(), l),
            attrs_view(rules.last().attrs@),
            key,
        );
        assert(rule_sets(rules[last], key) ==> rule_level(n, Styled::Tensor(t), rules[last].selector) != Some(l));
    }
}

/// A rule on a group beats a rule on every tensor, whatever their order:
/// when no rule names the tensor with the key, and no rule after the group
/// rule sets the key but rules on every tensor, the tensor takes the group
/// rule's value.
pub proof fn lemma_group_beats_all(n: &Network, t: TensorId, i: int, key: Seq<char>, v: ValueView)
    requires
        t.0 < n.tensors_view().len(),
        0 <= i < n.rules_view().len(),
        selects_by_group(n, t, n.rules_view()[i].selector),
        last_value(attrs_view(n.rules_view()[i].attrs@), key) == Some(v),
        forall|k: int|
            0 <= k < n.rules_view().len() && rule_sets(#[trigger] n.rules_view()[k], key) ==> !selects_by_name(
                n,
                t,
                n.rules_view()[k].selector,
            ),
        forall|k: int|
            i < k < n.rules_view().len() && rule_sets(#[trigger] n.rules_view()[k], key) ==> n.rules_view()[k].selector
                == Selector::Tensors,
    ensures
        style_value(n, Styled::Tensor(t), key) == Some(v),
{
    let rules = n.rules_view();
    assert forall|k: int| 0 <= k < rules.len() && rule_sets(#[trigger] rules[k], key) implies rule_level(
        n,
        Styled::Tensor(t),
        rules[k].selector,
    ) != Some(2u8) by {
        assert(!selects_by_name(n, t, rules[k].selector));
    }
    lemma_level_unset(n, t, rules, key, 2u8);
    assert forall|k: int| i < k < rules.len() && rule_sets(#[trigger] rules[k], key) implies rule_level(
        n,
        Styled::Tensor(t),
        rules[k].selector,
    ) != Some(1u8) by {
        assert(rules[k].selector == Selector::Tensors);
    }
    lemma_top_level_last(n, t, rules, i, key, v, 1u8);
    lemma_cascade(n, Styled::Tensor(t), key);
}

} // verus!
