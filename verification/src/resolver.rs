//! The signal resolver: walks the declaration hierarchy, resolves dotted
//! selection paths, and builds the mapping from signal identifier to output
//! name.

use vstd::prelude::*;

use crate::model::{ScopeItem, ScopeNode, VarKind, Variable};
use crate::selection::{parse_selection, parse_selection_spec};
use crate::signal_map::{apply_upserts, upsert_entries, SignalMap};
use crate::text::{push_char, split_dot, split_path, str_eq};

verus! {

/// Only a single-bit wire is eligible for stimulus generation.
pub open spec fn eligible(v: Variable) -> bool {
    v.kind == VarKind::Wire && v.width == 1
}

/// `name` under a dotted prefix: the two joined by `.`, or `name` alone
/// under the empty prefix.
pub open spec fn dotted(prefix: Seq<char>, name: Seq<char>) -> Seq<char> {
    if prefix.len() == 0 {
        name
    } else {
        prefix + seq!['.'] + name
    }
}

/// The first scope among `items` carrying `name`.
pub open spec fn scope_in_items(items: Seq<ScopeItem>, name: Seq<char>) -> Option<ScopeNode>
    decreases items.len(),
{
    if items.len() == 0 {
        None
    } else {
        match items[0] {
            ScopeItem::Scope(sc) => if sc.name@ == name {
                Some(sc)
            } else {
                scope_in_items(items.drop_first(), name)
            },
            ScopeItem::Var(_) => scope_in_items(items.drop_first(), name),
        }
    }
}

/// The scope reached from `sc` by following the scope names of `path`,
/// level by level.
pub open spec fn descend(sc: ScopeNode, path: Seq<Seq<char>>) -> Option<ScopeNode>
    decreases path.len(),
{
    if path.len() == 0 {
        Some(sc)
    } else {
        match scope_in_items(sc.children@, path[0]) {
            None => None,
            Some(child) => descend(child, path.drop_first()),
        }
    }
}

/// The first variable among `items` carrying the local name `name`.
pub open spec fn var_in_items(items: Seq<ScopeItem>, name: Seq<char>) -> Option<Variable>
    decreases items.len(),
{
    if items.len() == 0 {
        None
    } else {
        match items[0] {
            ScopeItem::Var(v) => if v.name@ == name {
                Some(v)
            } else {
                var_in_items(items.drop_first(), name)
            },
            ScopeItem::Scope(_) => var_in_items(items.drop_first(), name),
        }
    }
}

/// The variable a segmented path resolves to: the leading segments name
/// scopes level by level from the top of the hierarchy, the last segment a
/// variable declared directly in the innermost scope. A path of fewer than
/// two segments resolves to nothing.
pub open spec fn resolve_path(items: Seq<ScopeItem>, path: Seq<Seq<char>>) -> Option<Variable> {
    if path.len() < 2 {
        None
    } else {
        match scope_in_items(items, path[0]) {
            None => None,
            Some(top) => match descend(top, path.subrange(1, path.len() - 1)) {
                None => None,
                Some(inner) => var_in_items(inner.children@, path.last()),
            },
        }
    }
}

/// The (identifier, dotted name) pairs of every eligible variable under
/// `item`, depth first, in declaration order.
pub open spec fn collect_item(item: ScopeItem, prefix: Seq<char>) -> Seq<(u64, Seq<char>)>
    decreases item,
{
    match item {
        ScopeItem::Var(v) => if eligible(v) {
            seq![(v.code, dotted(prefix, v.name@))]
        } else {
            Seq::empty()
        },
        ScopeItem::Scope(sc) => collect_items(sc.children@, dotted(prefix, sc.name@)),
    }
}

/// The pairs of `collect_item` over a sequence of items, in order.
pub open spec fn collect_items(items: Seq<ScopeItem>, prefix: Seq<char>) -> Seq<(u64, Seq<char>)>
    decreases items,
{
    if items.len() == 0 {
        Seq::empty()
    } else {
        collect_item(items[0], prefix) + collect_items(items.drop_first(), prefix)
    }
}

/// One selection applied to the accumulated entries: parse it, resolve its
/// path, check eligibility, and insert the identifier under the alias (or,
/// without one, under the variable's own local name); or the error message
/// of the first failing step.
pub open spec fn resolver_step(
    items: Seq<ScopeItem>,
    acc: Seq<(u64, Seq<char>)>,
    sel: Seq<char>,
) -> Result<Seq<(u64, Seq<char>)>, Seq<char>> {
    match parse_selection_spec(sel) {
        Err(m) => Err(m),
        Ok(parts) => match resolve_path(items, split_dot(parts.1)) {
            None => Err("invalid VCD path: "@ + parts.1),
            Some(v) => if !eligible(v) {
                Err("signal must be 1-bit wide wire: "@ + parts.1)
            } else {
                Ok(
                    upsert_entries(
                        acc,
                        v.code,
                        match parts.0 {
                            Some(alias) => alias,
                            None => v.name@,
                        },
                    ),
                )
            },
        },
    }
}

/// The selections applied to `acc` in order; the first failure wins.
pub open spec fn resolve_selections(
    items: Seq<ScopeItem>,
    sels: Seq<Seq<char>>,
    acc: Seq<(u64, Seq<char>)>,
) -> Result<Seq<(u64, Seq<char>)>, Seq<char>>
    decreases sels.len(),
{
    if sels.len() == 0 {
        Ok(acc)
    } else {
        match resolver_step(items, acc, sels[0]) {
            Err(m) => Err(m),
            Ok(acc2) => resolve_selections(items, sels.drop_first(), acc2),
        }
    }
}

/// The signal map the resolver owes: with no selection every eligible
/// variable under its full dotted path, else the selections applied in
/// order to an empty map.
pub open spec fn signal_map_spec(items: Seq<ScopeItem>, sels: Seq<Seq<char>>) -> Result<
    Seq<(u64, Seq<char>)>,
    Seq<char>,
> {
    if sels.len() == 0 {
        Ok(apply_upserts(Seq::empty(), collect_items(items, Seq::empty())))
    } else {
        resolve_selections(items, sels, Seq::empty())
    }
}

/// Joins `name` onto a dotted prefix.
fn dotted_name(prefix: &str, name: &str) -> (r: String)
    ensures
        r@ == dotted(prefix@, name@),
{
    if prefix.unicode_len() == 0 {
        String::from_str(name)
    } else {
        let mut s = String::from_str(prefix);
        push_char(&mut s, '.');
        s.append(name);
        proof {
            assert(s@ =~= prefix@ + seq!['.'] + name@);
        }
        s
    }
}

/// Finds the first scope among `items` carrying `name`.
fn find_scope_in<'a>(items: &'a Vec<ScopeItem>, name: &str) -> (r: Option<&'a ScopeNode>)
    ensures
        match r {
            Some(sc) => scope_in_items(items@, name@) == Some(*sc),
            None => scope_in_items(items@, name@) == None::<ScopeNode>,
        },
{
    let n = items.len();
    let mut i: usize = 0;
    proof {
        assert(items@.skip(0) =~= items@);
    }
    while i < n
        invariant
            i <= n,
            n == items@.len(),
            scope_in_items(items@, name@) == scope_in_items(items@.skip(i as int), name@),
        decreases n - i,
    {
        proof {
            assert(items@.skip(i as int)[0] == items@[i as int]);
            assert(items@.skip(i as int).drop_first() =~= items@.skip(i + 1));
        }
        match &items[i] {
            ScopeItem::Scope(sc) => {
                if str_eq(sc.name.as_str(), name) {
                    return Some(sc);
                }
            }
            ScopeItem::Var(_) => {}
        }
        i = i + 1;
    }
    None
}

/// Finds the first variable among `items` carrying the local name `name`.
fn find_var_in<'a>(items: &'a Vec<ScopeItem>, name: &str) -> (r: Option<&'a Variable>)
    ensures
        match r {
            Some(v) => var_in_items(items@, name@) == Some(*v),
            None => var_in_items(items@, name@) == None::<Variable>,
        },
{
    let n = items.len();
    let mut i: usize = 0;
    proof {
        assert(items@.skip(0) =~= items@);
    }
    while i < n
        invariant
            i <= n,
            n == items@.len(),
            var_in_items(items@, name@) == var_in_items(items@.skip(i as int), name@),
        decreases n - i,
    {
        proof {
            assert(items@.skip(i as int)[0] == items@[i as int]);
            assert(items@.skip(i as int).drop_first() =~= items@.skip(i + 1));
        }
        match &items[i] {
            ScopeItem::Var(v) => {
                if str_eq(v.name.as_str(), name) {
                    return Some(v);
                }
            }
            ScopeItem::Scope(_) => {}
        }
        i = i + 1;
    }
    None
}

/// Resolves a dotted path against the declaration hierarchy.
pub fn find_vcd_var<'a>(items: &'a Vec<ScopeItem>, path: &str) -> (r: Option<&'a Variable>)
    ensures
        match r {
            Some(v) => resolve_path(items@, split_dot(path@)) == Some(*v),
            None => resolve_path(items@, split_dot(path@)) == None::<Variable>,
        },
{
    let segs = split_path(path);
    let ghost sv = split_dot(path@);
    proof {
        assert(segs@.map_values(|t: &str| t@) =~= sv);
        assert(forall|k: int| 0 <= k < segs@.len() ==> segs@[k]@ == sv[k]);
    }
    let n = segs.len();
    if n < 2 {
        return None;
    }
    let top = match find_scope_in(items, segs[0]) {
        Some(sc) => sc,
        None => {
            return None;
        }
    };
    let ghost mid = sv.subrange(1, sv.len() - 1);
    let mut cur = top;
    let mut j: usize = 1;
    proof {
        assert(segs@[0]@ == sv[0]);
        assert(scope_in_items(items@, sv[0]) == Some(*top));
        assert(mid.skip(j - 1) =~= mid);
    }
    while j < n - 1
        invariant
            1 <= j <= n - 1,
            n == sv.len(),
            n == segs@.len(),
            2 <= n,
            sv == split_dot(path@),
            scope_in_items(items@, sv[0]) == Some(*top),
            forall|k: int| 0 <= k < segs@.len() ==> segs@[k]@ == sv[k],
            mid == sv.subrange(1, sv.len() - 1),
            descend(*top, mid) == descend(*cur, mid.skip(j - 1)),
        decreases n - 1 - j,
    {
        proof {
            assert(segs@[j as int]@ == sv[j as int]);
            assert(mid.skip(j - 1)[0] == sv[j as int]);
            assert(mid.skip(j - 1).drop_first() =~= mid.skip(j as int));
        }
        match find_scope_in(&cur.children, segs[j]) {
            Some(next) => {
                cur = next;
            }
            None => {
                proof {
                    assert(descend(*cur, mid.skip(j - 1)) == None::<ScopeNode>);
                    assert(descend(*top, mid) == None::<ScopeNode>);
                    assert(resolve_path(items@, sv) == None::<Variable>);
                }
                return None;
            }
        }
        j = j + 1;
    }
    proof {
        assert(mid.skip(j - 1) =~= Seq::<Seq<char>>::empty());
        assert(descend(*top, mid) == Some(*cur));
        assert(segs@[n - 1]@ == sv.last());
    }
    find_var_in(&cur.children, segs[n - 1])
}

/// `collect_items` over a sequence extended by one item.
proof fn lemma_collect_items_snoc(items: Seq<ScopeItem>, x: ScopeItem, prefix: Seq<char>)
    ensures
        collect_items(items.push(x), prefix) == collect_items(items, prefix) + collect_item(
            x,
            prefix,
        ),
    decreases items.len(),
{
    if items.len() == 0 {
        assert(items.push(x)[0] == x);
        assert(items.push(x).drop_first() =~= Seq::<ScopeItem>::empty());
        assert(collect_items(Seq::<ScopeItem>::empty(), prefix) == Seq::<(u64, Seq<char>)>::empty());
        assert(collect_items(items.push(x), prefix) =~= collect_item(x, prefix));
        assert(collect_items(items, prefix) + collect_item(x, prefix) =~= collect_item(x, prefix));
    } else {
        lemma_collect_items_snoc(items.drop_first(), x, prefix);
        assert(items.push(x)[0] == items[0]);
        assert(items.push(x).drop_first() =~= items.drop_first().push(x));
        assert(collect_item(items[0], prefix) + (collect_items(items.drop_first(), prefix)
            + collect_item(x, prefix)) =~= (collect_item(items[0], prefix) + collect_items(
            items.drop_first(),
            prefix,
        )) + collect_item(x, prefix));
    }
}

/// Applying concatenated pair sequences applies them one after the other.
proof fn lemma_apply_upserts_concat(
    s: Seq<(u64, Seq<char>)>,
    a: Seq<(u64, Seq<char>)>,
    b: Seq<(u64, Seq<char>)>,
)
    ensures
        apply_upserts(s, a + b) == apply_upserts(apply_upserts(s, a), b),
    decreases a.len(),
{
    if a.len() == 0 {
        assert(a + b =~= b);
    } else {
        assert((a + b)[0] == a[0]);
        assert((a + b).drop_first() =~= a.drop_first() + b);
        lemma_apply_upserts_concat(upsert_entries(s, a[0].0, a[0].1), a.drop_first(), b);
    }
}

/// Walks one declaration item depth first, inserting every eligible
/// variable under its dotted name.
fn collect_into(item: &ScopeItem, prefix: &str, out: &mut SignalMap)
    requires
        old(out).wf(),
    ensures
        final(out).wf(),
        final(out)@ == apply_upserts(old(out)@, collect_item(*item, prefix@)),
    decreases *item,
{
    match item {
        ScopeItem::Var(v) => {
            if v.kind == VarKind::Wire && v.width == 1 {
                let name = dotted_name(prefix, v.name.as_str());
                out.upsert(v.code, name);
                proof {
                    let p = (v.code, dotted(prefix@, v.name@));
                    assert(collect_item(*item, prefix@) =~= seq![p]);
                    assert(seq![p].drop_first() =~= Seq::<(u64, Seq<char>)>::empty());
                    assert(seq![p][0] == p);
                    assert(apply_upserts(
                        upsert_entries(old(out)@, p.0, p.1),
                        Seq::<(u64, Seq<char>)>::empty(),
                    ) == upsert_entries(old(out)@, p.0, p.1));
                    assert(apply_upserts(old(out)@, seq![p]) == upsert_entries(
                        old(out)@,
                        p.0,
                        p.1,
                    ));
                }
            } else {
                proof {
                    assert(collect_item(*item, prefix@) =~= Seq::<(u64, Seq<char>)>::empty());
                }
            }
        }
        ScopeItem::Scope(sc) => {
            let np = dotted_name(prefix, sc.name.as_str());
            proof {
                assert(decreases_to!(*item => sc.children@));
            }
            collect_seq_into(&sc.children, np.as_str(), out);
        }
    }
}

/// Walks a sequence of declaration items in order.
fn collect_seq_into(items: &Vec<ScopeItem>, prefix: &str, out: &mut SignalMap)
    requires
        old(out).wf(),
    ensures
        final(out).wf(),
        final(out)@ == apply_upserts(old(out)@, collect_items(items@, prefix@)),
    decreases items@,
{
    let n = items.len();
    let mut i: usize = 0;
    proof {
        assert(items@.take(0) =~= Seq::<ScopeItem>::empty());
    }
    while i < n
        invariant
            i <= n,
            n == items@.len(),
            out.wf(),
            out@ == apply_upserts(old(out)@, collect_items(items@.take(i as int), prefix@)),
        decreases n - i,
    {
        let ghost done = collect_items(items@.take(i as int), prefix@);
        proof {
            assert(decreases_to!(items@ => items@[i as int]));
        }
        collect_into(&items[i], prefix, out);
        proof {
            lemma_collect_items_snoc(items@.take(i as int), items@[i as int], prefix@);
            assert(items@.take(i + 1) =~= items@.take(i as int).push(items@[i as int]));
            lemma_apply_upserts_concat(
                old(out)@,
                done,
                collect_item(items@[i as int], prefix@),
            );
        }
        i = i + 1;
    }
    proof {
        assert(items@.take(n as int) =~= items@);
    }
}

/// Collects every eligible variable of the hierarchy, depth first, each
/// under its full dotted path from the root.
pub fn collect_all_signals(items: &Vec<ScopeItem>, out: &mut SignalMap)
    requires
        old(out).wf(),
    ensures
        final(out).wf(),
        final(out)@ == apply_upserts(old(out)@, collect_items(items@, Seq::empty())),
{
    proof {
        reveal_strlit("");
        assert(""@ =~= Seq::<char>::empty());
    }
    collect_seq_into(items, "", out);
}

/// Builds the signal map: with no selection every eligible variable under
/// its full dotted path, else each selection resolved in order, a later
/// selection of the same signal overriding an earlier one. Fails with the
/// message of the first malformed selection, unresolvable path, or signal
/// that is not a single-bit wire.
pub fn get_signal_map(items: &Vec<ScopeItem>, selections: &Vec<String>) -> (r: Result<
    SignalMap,
    String,
>)
    ensures
        match r {
            Ok(m) => m.wf() && signal_map_spec(items@, selections.deep_view()) == Ok::<
                Seq<(u64, Seq<char>)>,
                Seq<char>,
            >(m@),
            Err(e) => signal_map_spec(items@, selections.deep_view()) == Err::<
                Seq<(u64, Seq<char>)>,
                Seq<char>,
            >(e@),
        },
{
    let mut signals = SignalMap::new();
    let n = selections.len();
    if n == 0 {
        collect_all_signals(items, &mut signals);
        return Ok(signals);
    }
    let ghost sels = selections.deep_view();
    proof {
        assert(sels.len() == n);
        assert(sels.skip(0) =~= sels);
    }
    let mut i: usize = 0;
    while i < n
        invariant
            i <= n,
            0 < n,
            n == selections@.len(),
            sels == selections.deep_view(),
            sels.len() == n,
            signals.wf(),
            resolve_selections(items@, sels, Seq::empty()) == resolve_selections(
                items@,
                sels.skip(i as int),
                signals@,
            ),
        decreases n - i,
    {
        proof {
            assert(sels.skip(i as int)[0] == sels[i as int]);
            assert(sels.skip(i as int).drop_first() =~= sels.skip(i + 1));
            assert(sels[i as int] == selections@[i as int]@);
        }
        let sel = &selections[i];
        match parse_selection(sel.as_str()) {
            Err(m) => {
                return Err(m);
            }
            Ok((alias, path)) => {
                match find_vcd_var(items, path) {
                    None => {
                        let mut m = String::from_str("invalid VCD path: ");
                        m.append(path);
                        return Err(m);
                    }
                    Some(v) => {
                        if !(v.kind == VarKind::Wire && v.width == 1) {
                            let mut m = String::from_str("signal must be 1-bit wide wire: ");
                            m.append(path);
                            return Err(m);
                        }
                        let ghost before = signals@;
                        let name = match alias {
                            Some(a) => String::from_str(a),
                            None => v.name.clone(),
                        };
                        signals.upsert(v.code, name);
                        proof {
                            assert(resolver_step(items@, before, sels[i as int]) == Ok::<
                                Seq<(u64, Seq<char>)>,
                                Seq<char>,
                            >(signals@));
                        }
                    }
                }
            }
        }
        i = i + 1;
    }
    proof {
        assert(sels.skip(n as int) =~= Seq::<Seq<char>>::empty());
    }
    Ok(signals)
}

/// Applying the selections keeps the map's keys unique.
proof fn lemma_resolve_selections_wf(
    items: Seq<ScopeItem>,
    sels: Seq<Seq<char>>,
    acc: Seq<(u64, Seq<char>)>,
)
    requires
        crate::signal_map::unique_keys(acc),
    ensures
        match resolve_selections(items, sels, acc) {
            Ok(m) => crate::signal_map::unique_keys(m),
            Err(_) => true,
        },
    decreases sels.len(),
{
    if sels.len() > 0 {
        match resolver_step(items, acc, sels[0]) {
            Err(_) => {}
            Ok(acc2) => {
                match parse_selection_spec(sels[0]) {
                    Err(_) => {}
                    Ok(parts) => {
                        match resolve_path(items, split_dot(parts.1)) {
                            None => {}
                            Some(v) => {
                                crate::signal_map::lemma_upsert_entries(
                                    acc,
                                    v.code,
                                    match parts.0 {
                                        Some(alias) => alias,
                                        None => v.name@,
                                    },
                                );
                            }
                        }
                    }
                }
                lemma_resolve_selections_wf(items, sels.drop_first(), acc2);
            }
        }
    }
}

/// Applying one selection after a list applies the list first, then that
/// selection.
proof fn lemma_resolve_selections_snoc(
    items: Seq<ScopeItem>,
    sels: Seq<Seq<char>>,
    sel: Seq<char>,
    acc: Seq<(u64, Seq<char>)>,
)
    ensures
        resolve_selections(items, sels.push(sel), acc) == match resolve_selections(
            items,
            sels,
            acc,
        ) {
            Ok(a) => resolver_step(items, a, sel),
            Err(m) => Err(m),
        },
    decreases sels.len(),
{
    if sels.len() == 0 {
        assert(sels.push(sel)[0] == sel);
        assert(sels.push(sel).drop_first() =~= Seq::<Seq<char>>::empty());
        match resolver_step(items, acc, sel) {
            Ok(a2) => {
                assert(resolve_selections(items, Seq::<Seq<char>>::empty(), a2) == Ok::<
                    Seq<(u64, Seq<char>)>,
                    Seq<char>,
                >(a2));
            }
            Err(_) => {}
        }
    } else {
        assert(sels.push(sel)[0] == sels[0]);
        assert(sels.push(sel).drop_first() =~= sels.drop_first().push(sel));
        match resolver_step(items, acc, sels[0]) {
            Err(_) => {}
            Ok(acc2) => {
                lemma_resolve_selections_snoc(items, sels.drop_first(), sel, acc2);
            }
        }
    }
}

/// Resolving the same selection list against the same declaration hierarchy
/// twice yields identical signal maps: the outcome is a function of the
/// hierarchy and the selections alone.
pub proof fn lemma_resolution_idempotent(
    items: Seq<ScopeItem>,
    sels: Seq<Seq<char>>,
    m1: Seq<(u64, Seq<char>)>,
    m2: Seq<(u64, Seq<char>)>,
)
    requires
        signal_map_spec(items, sels) == Ok::<Seq<(u64, Seq<char>)>, Seq<char>>(m1),
        signal_map_spec(items, sels) == Ok::<Seq<(u64, Seq<char>)>, Seq<char>>(m2),
    ensures
        m1 == m2,
{
}

/// With no selections the resolver's map holds exactly the identifiers of
/// the eligible (single-bit wire) variables of the hierarchy, each mapped to
/// a full dotted path the depth-first collection pairs with it.
pub proof fn lemma_empty_selection_map(items: Seq<ScopeItem>, m: Seq<(u64, Seq<char>)>)
    requires
        signal_map_spec(items, Seq::empty()) == Ok::<Seq<(u64, Seq<char>)>, Seq<char>>(m),
    ensures
        forall|k: u64|
            crate::signal_map::entries_map(m).contains_key(k) <==> crate::signal_map::has_key(
                collect_items(items, Seq::empty()),
                k,
            ),
        forall|k: u64|
            crate::signal_map::entries_map(m).contains_key(k) ==> exists|j: int|
                0 <= j < collect_items(items, Seq::empty()).len() && collect_items(
                    items,
                    Seq::empty(),
                )[j] == (k, crate::signal_map::entries_map(m)[k]),
{
    let c = collect_items(items, Seq::empty());
    let empty_entries = Seq::<(u64, Seq<char>)>::empty();
    assert(crate::signal_map::unique_keys(empty_entries));
    crate::signal_map::lemma_apply_upserts(empty_entries, c);
    assert(crate::signal_map::entries_map(empty_entries) == Map::<u64, Seq<char>>::empty());
    assert(crate::signal_map::entries_map(m) =~= crate::signal_map::entries_map(c));
    crate::signal_map::lemma_entries_map_domain_all(c);
    assert forall|k: u64| crate::signal_map::entries_map(m).contains_key(k) implies exists|j: int|
        0 <= j < c.len() && c[j] == (k, crate::signal_map::entries_map(m)[k]) by {
        crate::signal_map::lemma_entries_map_value(c, k);
        let j = choose|j: int|
            0 <= j < c.len() && c[j].0 == k && c[j].1 == crate::signal_map::entries_map(c)[k];
        assert(c[j] == (k, crate::signal_map::entries_map(m)[k]));
    }
}

/// A selection `alias=path` whose path resolves to an eligible signal maps
/// that signal's identifier to the alias, overriding its natural name: the
/// last selection of the list decides.
pub proof fn lemma_alias_wins(
    items: Seq<ScopeItem>,
    sels: Seq<Seq<char>>,
    sel: Seq<char>,
    alias: Seq<char>,
    path: Seq<char>,
    v: Variable,
    m: Seq<(u64, Seq<char>)>,
)
    requires
        parse_selection_spec(sel) == Ok::<(Option<Seq<char>>, Seq<char>), Seq<char>>(
            (Some(alias), path),
        ),
        resolve_path(items, split_dot(path)) == Some(v),
        eligible(v),
        signal_map_spec(items, sels.push(sel)) == Ok::<Seq<(u64, Seq<char>)>, Seq<char>>(m),
    ensures
        crate::signal_map::entries_map(m).contains_key(v.code),
        crate::signal_map::entries_map(m)[v.code] == alias,
{
    let empty_entries = Seq::<(u64, Seq<char>)>::empty();
    lemma_resolve_selections_snoc(items, sels, sel, empty_entries);
    assert(crate::signal_map::unique_keys(empty_entries));
    lemma_resolve_selections_wf(items, sels, empty_entries);
    match resolve_selections(items, sels, empty_entries) {
        Err(_) => {}
        Ok(a) => {
            assert(resolver_step(items, a, sel) == Ok::<Seq<(u64, Seq<char>)>, Seq<char>>(m));
            assert(m == upsert_entries(a, v.code, alias));
            crate::signal_map::lemma_upsert_entries(a, v.code, alias);
        }
    }
}

} // verus!
