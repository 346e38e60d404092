//! Network-wide configuration.
//!
//! - [`Config`]: an unordered collection of [`ConfigExpr`], at most one per [`ConfigExprKey`].
//! - [`ConfigExpr`]: a single configuration expression (a line of a router configuration).
//! - [`ConfigPatch`]: an ordered series of [`ConfigModifier`] that turns one configuration into
//!   another.
//! - [`ConfigModifier`]: the insertion, removal or update of a single expression.
//!
//! A configuration is modelled as a map from keys to expressions. A modifier is a partial
//! function on such maps (`apply_one`), and a patch applies its modifiers in order
//! (`apply_mods`).

use vstd::prelude::*;
use vstd::std_specs::cmp::PartialEqSpecImpl;

use crate::route_map::{RouteMap, RouteMapDirection, RouteMapView};
use crate::types::{BgpSessionType, LinkWeight, Prefix, RouterId};

verus! {

/// A single configuration expression.
#[derive(Debug)]
pub enum ConfigExpr {
    /// Sets the link weight of a single (directed) link.
    IgpLinkWeight {
        /// Source router of the link.
        source: RouterId,
        /// Target router of the link.
        target: RouterId,
        /// Link weight for the IGP.
        weight: LinkWeight,
    },
    /// Creates a BGP session.
    BgpSession {
        /// Source router of the session.
        source: RouterId,
        /// Target router of the session.
        target: RouterId,
        /// Session type, as seen from the source.
        session_type: BgpSessionType,
    },
    /// Sets a BGP route-map item.
    BgpRouteMap {
        /// Router on which the route-map is configured.
        router: RouterId,
        /// Direction (incoming or outgoing).
        direction: RouteMapDirection,
        /// The route-map item.
        map: RouteMap,
    },
    /// Sets a static route.
    StaticRoute {
        /// Router on which the static route is configured.
        router: RouterId,
        /// Prefix of the static route.
        prefix: Prefix,
        /// Neighbor to which packets are forwarded.
        target: RouterId,
    },
}

/// The abstract value of a configuration expression.
pub enum ConfigExprView {
    /// Link weight of a directed link.
    IgpLinkWeight { source: RouterId, target: RouterId, weight: LinkWeight },
    /// BGP session.
    BgpSession { source: RouterId, target: RouterId, session_type: BgpSessionType },
    /// Route-map item.
    BgpRouteMap { router: RouterId, direction: RouteMapDirection, map: RouteMapView },
    /// Static route.
    StaticRoute { router: RouterId, prefix: Prefix, target: RouterId },
}

impl View for ConfigExpr {
    type V = ConfigExprView;

    open spec fn view(&self) -> ConfigExprView {
        match self {
            ConfigExpr::IgpLinkWeight { source, target, weight } =>
                ConfigExprView::IgpLinkWeight { source: *source, target: *target, weight: *weight },
            ConfigExpr::BgpSession { source, target, session_type } =>
                ConfigExprView::BgpSession { source: *source, target: *target, session_type: *session_type },
            ConfigExpr::BgpRouteMap { router, direction, map } =>
                ConfigExprView::BgpRouteMap { router: *router, direction: *direction, map: map@ },
            ConfigExpr::StaticRoute { router, prefix, target } =>
                ConfigExprView::StaticRoute { router: *router, prefix: *prefix, target: *target },
        }
    }
}

/// Key of a configuration expression: the expression without its value. A configuration holds
/// at most one expression per key.
#[derive(Clone, Copy, PartialEq, Eq, Structural, Debug, Hash)]
pub enum ConfigExprKey {
    /// Link weight of a directed link.
    IgpLinkWeight {
        /// Source router of the link.
        source: RouterId,
        /// Target router of the link.
        target: RouterId,
    },
    /// BGP session between two speakers, with `speaker_a <= speaker_b` once normalized.
    BgpSession {
        /// First speaker.
        speaker_a: RouterId,
        /// Second speaker.
        speaker_b: RouterId,
    },
    /// Route-map item of a router in one direction with a given order.
    BgpRouteMap {
        /// Router of the route-map.
        router: RouterId,
        /// Direction of the route-map.
        direction: RouteMapDirection,
        /// Order of the route-map item.
        order: i16,
    },
    /// Static route of a router for a prefix.
    StaticRoute {
        /// Router of the static route.
        router: RouterId,
        /// Prefix of the static route.
        prefix: Prefix,
    },
}

/// The key of a BGP session between `a` and `b`: the speaker with the smaller id comes first.
pub open spec fn session_key(a: RouterId, b: RouterId) -> ConfigExprKey {
    if a.0 < b.0 {
        ConfigExprKey::BgpSession { speaker_a: a, speaker_b: b }
    } else {
        ConfigExprKey::BgpSession { speaker_a: b, speaker_b: a }
    }
}

/// The key of an expression.
pub open spec fn key_of(e: ConfigExprView) -> ConfigExprKey {
    match e {
        ConfigExprView::IgpLinkWeight { source, target, .. } =>
            ConfigExprKey::IgpLinkWeight { source, target },
        ConfigExprView::BgpSession { source, target, .. } => session_key(source, target),
        ConfigExprView::BgpRouteMap { router, direction, map } =>
            ConfigExprKey::BgpRouteMap { router, direction, order: map.order },
        ConfigExprView::StaticRoute { router, prefix, .. } =>
            ConfigExprKey::StaticRoute { router, prefix },
    }
}

/// The routers whose configuration an expression changes.
pub open spec fn routers_of(e: ConfigExprView) -> Seq<RouterId> {
    match e {
        ConfigExprView::IgpLinkWeight { source, target, .. } => seq![source, target],
        ConfigExprView::BgpSession { source, target, .. } => seq![source, target],
        ConfigExprView::BgpRouteMap { router, .. } => seq![router],
        ConfigExprView::StaticRoute { router, .. } => seq![router],
    }
}

/// A key in normal form: the speakers of a BGP session are ordered.
pub open spec fn normalized(k: ConfigExprKey) -> ConfigExprKey {
    match k {
        ConfigExprKey::BgpSession { speaker_a, speaker_b } =>
            if speaker_a.0 > speaker_b.0 {
                ConfigExprKey::BgpSession { speaker_a: speaker_b, speaker_b: speaker_a }
            } else {
                k
            },
        _ => k,
    }
}

impl ConfigExprKey {
    /// Normalize the key: order the speakers of a BGP session.
    pub fn normalize(&mut self)
        ensures
            *final(self) == normalized(*old(self)),
    {
        if let ConfigExprKey::BgpSession { speaker_a, speaker_b } = *self {
            if speaker_a.0 > speaker_b.0 {
                *self = ConfigExprKey::BgpSession { speaker_a: speaker_b, speaker_b: speaker_a };
            }
        }
    }
}

impl ConfigExpr {
    /// The key of the expression.
    pub fn key(&self) -> (k: ConfigExprKey)
        ensures
            k == key_of(self@),
    {
        match self {
            ConfigExpr::IgpLinkWeight { source, target, .. } =>
                ConfigExprKey::IgpLinkWeight { source: *source, target: *target },
            ConfigExpr::BgpSession { source, target, .. } => {
                if source.0 < target.0 {
                    ConfigExprKey::BgpSession { speaker_a: *source, speaker_b: *target }
                } else {
                    ConfigExprKey::BgpSession { speaker_a: *target, speaker_b: *source }
                }
            },
            ConfigExpr::BgpRouteMap { router, direction, map } =>
                ConfigExprKey::BgpRouteMap { router: *router, direction: *direction, order: map.order },
            ConfigExpr::StaticRoute { router, prefix, .. } =>
                ConfigExprKey::StaticRoute { router: *router, prefix: *prefix },
        }
    }

    /// The routers on which the expression is configured.
    pub fn routers(&self) -> (r: Vec<RouterId>)
        ensures
            r@ == routers_of(self@),
    {
        let r = match self {
            ConfigExpr::IgpLinkWeight { source, target, .. } => vec![*source, *target],
            ConfigExpr::BgpSession { source, target, .. } => vec![*source, *target],
            ConfigExpr::BgpRouteMap { router, .. } => vec![*router],
            ConfigExpr::StaticRoute { router, .. } => vec![*router],
        };
        assert(r@ =~= routers_of(self@));
        r
    }

    /// Whether the expression has the same abstract value as `other`.
    pub fn same_as(&self, other: &ConfigExpr) -> (b: bool)
        ensures
            b == (self@ == other@),
    {
        match (self, other) {
            (
                ConfigExpr::IgpLinkWeight { source: s1, target: t1, weight: w1 },
                ConfigExpr::IgpLinkWeight { source: s2, target: t2, weight: w2 },
            ) => s1.0 == s2.0 && t1.0 == t2.0 && *w1 == *w2,
            (
                ConfigExpr::BgpSession { source: s1, target: t1, session_type: x1 },
                ConfigExpr::BgpSession { source: s2, target: t2, session_type: x2 },
            ) => s1.0 == s2.0 && t1.0 == t2.0 && *x1 == *x2,
            (
                ConfigExpr::BgpRouteMap { router: r1, direction: d1, map: m1 },
                ConfigExpr::BgpRouteMap { router: r2, direction: d2, map: m2 },
            ) => r1.0 == r2.0 && *d1 == *d2 && m1.same_as(m2),
            (
                ConfigExpr::StaticRoute { router: r1, prefix: p1, target: t1 },
                ConfigExpr::StaticRoute { router: r2, prefix: p2, target: t2 },
            ) => r1.0 == r2.0 && p1.0 == p2.0 && t1.0 == t2.0,
            _ => false,
        }
    }
}

impl Clone for ConfigExpr {
    fn clone(&self) -> (r: Self)
        ensures
            r@ == self@,
    {
        match self {
            ConfigExpr::IgpLinkWeight { source, target, weight } =>
                ConfigExpr::IgpLinkWeight { source: *source, target: *target, weight: *weight },
            ConfigExpr::BgpSession { source, target, session_type } =>
                ConfigExpr::BgpSession { source: *source, target: *target, session_type: *session_type },
            ConfigExpr::BgpRouteMap { router, direction, map } =>
                ConfigExpr::BgpRouteMap { router: *router, direction: *direction, map: map.clone() },
            ConfigExpr::StaticRoute { router, prefix, target } =>
                ConfigExpr::StaticRoute { router: *router, prefix: *prefix, target: *target },
        }
    }
}

impl PartialEq for ConfigExpr {
    fn eq(&self, other: &Self) -> (b: bool) {
        self.same_as(other)
    }
}

impl PartialEqSpecImpl for ConfigExpr {
    open spec fn obeys_eq_spec() -> bool {
        true
    }

    open spec fn eq_spec(&self, other: &Self) -> bool {
        self@ == other@
    }
}

/// A modification of a single expression.
#[derive(Debug)]
pub enum ConfigModifier {
    /// Insert a new expression.
    Insert(ConfigExpr),
    /// Remove an existing expression.
    Remove(ConfigExpr),
    /// Replace an existing expression by another one with the same key.
    Update {
        /// The expression that is replaced.
        from: ConfigExpr,
        /// The expression that replaces it.
        to: ConfigExpr,
    },
}

/// The abstract value of a modifier.
pub enum ConfigModifierView {
    /// Insert a new expression.
    Insert(ConfigExprView),
    /// Remove an existing expression.
    Remove(ConfigExprView),
    /// Replace `from` by `to`.
    Update { from: ConfigExprView, to: ConfigExprView },
}

impl View for ConfigModifier {
    type V = ConfigModifierView;

    open spec fn view(&self) -> ConfigModifierView {
        match self {
            ConfigModifier::Insert(e) => ConfigModifierView::Insert(e@),
            ConfigModifier::Remove(e) => ConfigModifierView::Remove(e@),
            ConfigModifier::Update { from, to } => ConfigModifierView::Update { from: from@, to: to@ },
        }
    }
}

/// The key that a modifier changes.
pub open spec fn mod_key(x: ConfigModifierView) -> ConfigExprKey {
    match x {
        ConfigModifierView::Insert(e) => key_of(e),
        ConfigModifierView::Remove(e) => key_of(e),
        ConfigModifierView::Update { to, .. } => key_of(to),
    }
}

/// The routers whose configuration a modifier changes.
pub open spec fn mod_routers(x: ConfigModifierView) -> Seq<RouterId> {
    match x {
        ConfigModifierView::Insert(e) => routers_of(e),
        ConfigModifierView::Remove(e) => routers_of(e),
        ConfigModifierView::Update { to, .. } => routers_of(to),
    }
}

/// The modifier that undoes `x`.
pub open spec fn reversed(x: ConfigModifierView) -> ConfigModifierView {
    match x {
        ConfigModifierView::Insert(e) => ConfigModifierView::Remove(e),
        ConfigModifierView::Remove(e) => ConfigModifierView::Insert(e),
        ConfigModifierView::Update { from, to } => ConfigModifierView::Update { from: to, to: from },
    }
}

/// The abstract value of a configuration: at most one expression per key, stored under its key.
pub type ConfigMap = Map<ConfigExprKey, ConfigExprView>;

/// The result of applying a single modifier, or `None` if it cannot be applied: an insertion
/// needs a free key, a removal needs the very same expression, and an update needs both
/// expressions to have the same key and the configuration to hold an expression with that key
/// (`from` itself need not match the stored expression).
pub open spec fn apply_one(m: ConfigMap, x: ConfigModifierView) -> Option<ConfigMap> {
    match x {
        ConfigModifierView::Insert(e) =>
            if m.contains_key(key_of(e)) {
                None
            } else {
                Some(m.insert(key_of(e), e))
            },
        ConfigModifierView::Remove(e) =>
            if m.contains_key(key_of(e)) && m[key_of(e)] == e {
                Some(m.remove(key_of(e)))
            } else {
                None
            },
        ConfigModifierView::Update { from, to } =>
            if key_of(from) == key_of(to) && m.contains_key(key_of(to)) {
                Some(m.insert(key_of(to), to))
            } else {
                None
            },
    }
}

/// The result of applying the modifiers in order, or `None` if one of them cannot be applied.
pub open spec fn apply_mods(m: ConfigMap, s: Seq<ConfigModifierView>) -> Option<ConfigMap>
    decreases s.len(),
{
    if s.len() == 0 {
        Some(m)
    } else {
        match apply_mods(m, s.drop_last()) {
            Some(m2) => apply_one(m2, s.last()),
            None => None,
        }
    }
}

/// The abstract configuration of a sequence of expressions: each key maps to the expression
/// that has it.
pub open spec fn map_of(s: Seq<ConfigExprView>) -> ConfigMap {
    Map::new(
        |k: ConfigExprKey| exists|i: int| 0 <= i < s.len() && key_of(s[i]) == k,
        |k: ConfigExprKey| s[choose|i: int| 0 <= i < s.len() && key_of(s[i]) == k],
    )
}

/// No two expressions of the sequence have the same key.
pub open spec fn distinct_keys(s: Seq<ConfigExprView>) -> bool {
    forall|i: int, j: int| 0 <= i < s.len() && 0 <= j < s.len() && i != j
        ==> key_of(s[i]) != key_of(s[j])
}

/// The abstract values of a sequence of expressions.
pub open spec fn views(s: Seq<ConfigExpr>) -> Seq<ConfigExprView> {
    s.map_values(|e: ConfigExpr| e@)
}

/// An expression of the sequence is stored under its key.
pub proof fn lemma_map_of_index(s: Seq<ConfigExprView>, i: int)
    requires
        distinct_keys(s),
        0 <= i < s.len(),
    ensures
        map_of(s).contains_key(key_of(s[i])),
        map_of(s)[key_of(s[i])] == s[i],
{
    let k = key_of(s[i]);
    assert(map_of(s).contains_key(k));
    let j = choose|j: int| 0 <= j < s.len() && key_of(s[j]) == k;
    assert(j == i);
}

/// Appending an expression with a new key inserts it.
pub proof fn lemma_map_of_push(s: Seq<ConfigExprView>, x: ConfigExprView)
    requires
        distinct_keys(s),
        !map_of(s).contains_key(key_of(x)),
    ensures
        distinct_keys(s.push(x)),
        map_of(s.push(x)) == map_of(s).insert(key_of(x), x),
{
    let t = s.push(x);
    assert forall|i: int, j: int| 0 <= i < t.len() && 0 <= j < t.len() && i != j
        implies key_of(t[i]) != key_of(t[j]) by {
        if i == s.len() {
            assert(key_of(s[j]) == key_of(t[j]));
        } else if j == s.len() {
            assert(key_of(s[i]) == key_of(t[i]));
        }
    }
    assert forall|k: ConfigExprKey| #[trigger] map_of(t).contains_key(k)
        == map_of(s).insert(key_of(x), x).contains_key(k) by {
        if map_of(s).contains_key(k) {
            let i = choose|i: int| 0 <= i < s.len() && key_of(s[i]) == k;
            assert(t[i] == s[i]);
        }
        if map_of(t).contains_key(k) {
            let i = choose|i: int| 0 <= i < t.len() && key_of(t[i]) == k;
            if i < s.len() {
                assert(t[i] == s[i]);
            }
        }
        if k == key_of(x) {
            assert(key_of(t[s.len() as int]) == k);
        }
    }
    assert forall|k: ConfigExprKey| #[trigger] map_of(t).contains_key(k)
        implies map_of(t)[k] == map_of(s).insert(key_of(x), x)[k] by {
        let i = choose|i: int| 0 <= i < t.len() && key_of(t[i]) == k;
        lemma_map_of_index(t, i);
        if i < s.len() {
            assert(t[i] == s[i]);
            lemma_map_of_index(s, i);
        }
    }
    assert(map_of(t) =~= map_of(s).insert(key_of(x), x));
}

/// Removing the expression at an index removes its key.
pub proof fn lemma_map_of_remove(s: Seq<ConfigExprView>, i: int)
    requires
        distinct_keys(s),
        0 <= i < s.len(),
    ensures
        distinct_keys(s.remove(i)),
        map_of(s.remove(i)) == map_of(s).remove(key_of(s[i])),
{
    let t = s.remove(i);
    assert forall|a: int| 0 <= a < t.len() implies #[trigger] t[a] == s[if a < i { a } else { a + 1 }] by {}
    assert forall|a: int, b: int| 0 <= a < t.len() && 0 <= b < t.len() && a != b
        implies key_of(t[a]) != key_of(t[b]) by {
        assert(t[a] == s[if a < i { a } else { a + 1 }]);
        assert(t[b] == s[if b < i { b } else { b + 1 }]);
    }
    let r = map_of(s).remove(key_of(s[i]));
    assert forall|k: ConfigExprKey| #[trigger] map_of(t).contains_key(k) == r.contains_key(k) by {
        if map_of(t).contains_key(k) {
            let a = choose|a: int| 0 <= a < t.len() && key_of(t[a]) == k;
            let sa = if a < i { a } else { a + 1 };
            assert(t[a] == s[sa]);
            assert(key_of(s[sa]) == k);
        }
        if r.contains_key(k) {
            let b = choose|b: int| 0 <= b < s.len() && key_of(s[b]) == k;
            assert(b != i);
            let tb = if b < i { b } else { b - 1 };
            assert(t[tb] == s[b]);
        }
    }
    assert forall|k: ConfigExprKey| #[trigger] map_of(t).contains_key(k)
        implies map_of(t)[k] == r[k] by {
        let a = choose|a: int| 0 <= a < t.len() && key_of(t[a]) == k;
        let sa = if a < i { a } else { a + 1 };
        assert(t[a] == s[sa]);
        lemma_map_of_index(t, a);
        lemma_map_of_index(s, sa);
    }
    assert(map_of(t) =~= r);
}

/// Replacing the expression at an index by one with the same key updates the value.
pub proof fn lemma_map_of_update(s: Seq<ConfigExprView>, i: int, x: ConfigExprView)
    requires
        distinct_keys(s),
        0 <= i < s.len(),
        key_of(x) == key_of(s[i]),
    ensures
        distinct_keys(s.update(i, x)),
        map_of(s.update(i, x)) == map_of(s).insert(key_of(x), x),
{
    let t = s.update(i, x);
    assert forall|a: int, b: int| 0 <= a < t.len() && 0 <= b < t.len() && a != b
        implies key_of(t[a]) != key_of(t[b]) by {
        assert(key_of(t[a]) == key_of(s[a]));
        assert(key_of(t[b]) == key_of(s[b]));
    }
    let r = map_of(s).insert(key_of(x), x);
    assert forall|k: ConfigExprKey| #[trigger] map_of(t).contains_key(k) == r.contains_key(k) by {
        if map_of(t).contains_key(k) {
            let a = choose|a: int| 0 <= a < t.len() && key_of(t[a]) == k;
            assert(key_of(s[a]) == k);
        }
        if map_of(s).contains_key(k) {
            let b = choose|b: int| 0 <= b < s.len() && key_of(s[b]) == k;
            assert(key_of(t[b]) == k);
        }
        assert(key_of(t[i]) == key_of(x));
    }
    assert forall|k: ConfigExprKey| #[trigger] map_of(t).contains_key(k)
        implies map_of(t)[k] == r[k] by {
        let a = choose|a: int| 0 <= a < t.len() && key_of(t[a]) == k;
        lemma_map_of_index(t, a);
        if a != i {
            lemma_map_of_index(s, a);
        }
    }
    assert(map_of(t) =~= r);
}

/// Applying a modifier and then its reverse gives back the configuration, where an update names
/// as `from` the expression that the configuration holds.
pub proof fn law_reverse_undoes(m: ConfigMap, x: ConfigModifierView)
    requires
        apply_one(m, x) is Some,
        x matches ConfigModifierView::Update { from, .. } ==> m[key_of(from)] == from,
    ensures
        apply_one(apply_one(m, x)->0, reversed(x)) == Some(m),
{
    let m2 = apply_one(m, x)->0;
    match x {
        ConfigModifierView::Insert(e) => {
            assert(m2.remove(key_of(e)) =~= m);
        },
        ConfigModifierView::Remove(e) => {
            assert(m2.insert(key_of(e), e) =~= m);
        },
        ConfigModifierView::Update { from, to } => {
            assert(m2.insert(key_of(from), from) =~= m);
        },
    }
}

/// Order of the three kinds of modifiers in a difference: removals, insertions, updates.
pub open spec fn mod_rank(x: ConfigModifierView) -> int {
    match x {
        ConfigModifierView::Remove(_) => 0,
        ConfigModifierView::Insert(_) => 1,
        ConfigModifierView::Update { .. } => 2,
    }
}

/// The two configurations differ at key `k`.
pub open spec fn differs_at(a: ConfigMap, b: ConfigMap, k: ConfigExprKey) -> bool {
    a.contains_key(k) != b.contains_key(k) || (a.contains_key(k) && b.contains_key(k) && a[k] != b[k])
}

/// A single modifier of the difference from `a` to `b`: it removes an expression of `a` whose key
/// `b` lacks, inserts an expression of `b` whose key `a` lacks, or replaces the expression of `a`
/// by the different one of `b` with the same key.
pub open spec fn diff_step(a: ConfigMap, b: ConfigMap, x: ConfigModifierView) -> bool {
    match x {
        ConfigModifierView::Remove(e) =>
            a.contains_key(key_of(e)) && !b.contains_key(key_of(e)) && a[key_of(e)] == e,
        ConfigModifierView::Insert(e) =>
            !a.contains_key(key_of(e)) && b.contains_key(key_of(e)) && b[key_of(e)] == e,
        ConfigModifierView::Update { from, to } =>
            key_of(from) == key_of(to) && a.contains_key(key_of(to)) && b.contains_key(key_of(to))
                && a[key_of(to)] == from && b[key_of(to)] == to && from != to,
    }
}

/// `p` is the difference from `a` to `b`: one modifier for each key at which they differ, and
/// none other; removals come first, then insertions, then updates.
pub open spec fn is_diff(a: ConfigMap, b: ConfigMap, p: Seq<ConfigModifierView>) -> bool {
    &&& forall|j: int| 0 <= j < p.len() ==> #[trigger] diff_step(a, b, p[j])
    &&& forall|i: int, j: int| 0 <= i < p.len() && 0 <= j < p.len() && i != j
        ==> mod_key(p[i]) != mod_key(p[j])
    &&& forall|i: int, j: int| 0 <= i <= j < p.len() ==> mod_rank(p[i]) <= mod_rank(p[j])
    &&& forall|k: ConfigExprKey| #[trigger] differs_at(a, b, k)
        ==> exists|j: int| 0 <= j < p.len() && mod_key(p[j]) == k
}

/// One of the first `n` modifiers of `p` changes key `k`.
pub open spec fn touched(p: Seq<ConfigModifierView>, n: int, k: ConfigExprKey) -> bool {
    exists|j: int| 0 <= j < n && mod_key(p[j]) == k
}

/// The configuration after the first `n` modifiers of a difference: the keys they touch hold
/// what `b` holds, the others what `a` holds.
proof fn lemma_diff_prefix(a: ConfigMap, b: ConfigMap, p: Seq<ConfigModifierView>, n: int)
    -> (m: ConfigMap)
    requires
        is_diff(a, b, p),
        0 <= n <= p.len(),
    ensures
        apply_mods(a, p.take(n)) == Some(m),
        forall|k: ConfigExprKey| #[trigger] touched(p, n, k)
            ==> (m.contains_key(k) == b.contains_key(k) && (b.contains_key(k) ==> m[k] == b[k])),
        forall|k: ConfigExprKey| !#[trigger] touched(p, n, k)
            ==> (m.contains_key(k) == a.contains_key(k) && (a.contains_key(k) ==> m[k] == a[k])),
    decreases n,
{
    if n == 0 {
        assert(p.take(0) =~= Seq::<ConfigModifierView>::empty());
        a
    } else {
        let m0 = lemma_diff_prefix(a, b, p, n - 1);
        assert(p.take(n).drop_last() =~= p.take(n - 1));
        let x = p[n - 1];
        let k = mod_key(x);
        assert(diff_step(a, b, x));
        assert(!touched(p, n - 1, k));
        assert(m0.contains_key(k) == a.contains_key(k));
        if a.contains_key(k) {
            assert(m0[k] == a[k]);
        }
        let m1 = apply_one(m0, x)->0;
        assert(apply_one(m0, x) is Some);
        assert(touched(p, n, k));
        assert forall|k2: ConfigExprKey| #[trigger] touched(p, n, k2)
            implies (m1.contains_key(k2) == b.contains_key(k2) && (b.contains_key(k2) ==> m1[k2] == b[k2])) by {
            if k2 != k {
                let j = choose|j: int| 0 <= j < n && mod_key(p[j]) == k2;
                assert(j < n - 1);
                assert(touched(p, n - 1, k2));
            }
        }
        assert forall|k2: ConfigExprKey| !#[trigger] touched(p, n, k2)
            implies (m1.contains_key(k2) == a.contains_key(k2) && (a.contains_key(k2) ==> m1[k2] == a[k2])) by {
            assert(k2 != k);
            if touched(p, n - 1, k2) {
                let j = choose|j: int| 0 <= j < n - 1 && mod_key(p[j]) == k2;
                assert(touched(p, n, k2));
            }
        }
        m1
    }
}

/// Applying the difference from `a` to `b` to `a` succeeds and gives `b`.
pub proof fn law_diff_applies(a: ConfigMap, b: ConfigMap, p: Seq<ConfigModifierView>)
    requires
        is_diff(a, b, p),
    ensures
        apply_mods(a, p) == Some(b),
{
    let m = lemma_diff_prefix(a, b, p, p.len() as int);
    assert(p.take(p.len() as int) =~= p);
    assert forall|k: ConfigExprKey| #[trigger] m.contains_key(k) == b.contains_key(k) by {
        if !touched(p, p.len() as int, k) {
            assert(!differs_at(a, b, k));
        }
    }
    assert forall|k: ConfigExprKey| #[trigger] m.contains_key(k) implies m[k] == b[k] by {
        if !touched(p, p.len() as int, k) {
            assert(!differs_at(a, b, k));
        }
    }
    assert(m =~= b);
}

impl ConfigModifier {
    /// The key of the expression that the modifier changes.
    pub fn key(&self) -> (k: ConfigExprKey)
        ensures
            k == mod_key(self@),
    {
        match self {
            ConfigModifier::Insert(e) => e.key(),
            ConfigModifier::Remove(e) => e.key(),
            ConfigModifier::Update { to, .. } => to.key(),
        }
    }

    /// The routers whose configuration the modifier changes.
    pub fn routers(&self) -> (r: Vec<RouterId>)
        ensures
            r@ == mod_routers(self@),
    {
        match self {
            ConfigModifier::Insert(e) => e.routers(),
            ConfigModifier::Remove(e) => e.routers(),
            ConfigModifier::Update { to, .. } => to.routers(),
        }
    }

    /// The modifier that undoes this one: an insertion becomes a removal and vice versa, and an
    /// update goes back from the new expression to the old one.
    pub fn reverse(self) -> (r: ConfigModifier)
        ensures
            r@ == reversed(self@),
    {
        match self {
            ConfigModifier::Insert(e) => ConfigModifier::Remove(e),
            ConfigModifier::Remove(e) => ConfigModifier::Insert(e),
            ConfigModifier::Update { from, to } => ConfigModifier::Update { from: to, to: from },
        }
    }

    /// Whether the modifier has the same abstract value as `other`.
    pub fn same_as(&self, other: &ConfigModifier) -> (b: bool)
        ensures
            b == (self@ == other@),
    {
        match (self, other) {
            (ConfigModifier::Insert(a), ConfigModifier::Insert(b)) => a.same_as(b),
            (ConfigModifier::Remove(a), ConfigModifier::Remove(b)) => a.same_as(b),
            (ConfigModifier::Update { from: f1, to: t1 }, ConfigModifier::Update { from: f2, to: t2 }) =>
                f1.same_as(f2) && t1.same_as(t2),
            _ => false,
        }
    }
}

impl Clone for ConfigModifier {
    fn clone(&self) -> (r: Self)
        ensures
            r@ == self@,
    {
        match self {
            ConfigModifier::Insert(e) => ConfigModifier::Insert(e.clone()),
            ConfigModifier::Remove(e) => ConfigModifier::Remove(e.clone()),
            ConfigModifier::Update { from, to } => ConfigModifier::Update { from: from.clone(), to: to.clone() },
        }
    }
}

impl PartialEq for ConfigModifier {
    fn eq(&self, other: &Self) -> (b: bool) {
        self.same_as(other)
    }
}

impl PartialEqSpecImpl for ConfigModifier {
    open spec fn obeys_eq_spec() -> bool {
        true
    }

    open spec fn eq_spec(&self, other: &Self) -> bool {
        self@ == other@
    }
}

/// An ordered series of modifiers, applied in the order in which they were added.
#[derive(Debug)]
pub struct ConfigPatch {
    /// The modifiers, in the order in which they are applied.
    pub modifiers: Vec<ConfigModifier>,
}

impl View for ConfigPatch {
    type V = Seq<ConfigModifierView>;

    open spec fn view(&self) -> Seq<ConfigModifierView> {
        self.modifiers@.map_values(|x: ConfigModifier| x@)
    }
}

impl ConfigPatch {
    /// An empty patch.
    pub fn new() -> (p: ConfigPatch)
        ensures
            p@ == Seq::<ConfigModifierView>::empty(),
    {
        let p = ConfigPatch { modifiers: Vec::new() };
        assert(p@ =~= Seq::<ConfigModifierView>::empty());
        p
    }

    /// Append a modifier.
    pub fn add(&mut self, modifier: ConfigModifier)
        ensures
            final(self)@ == old(self)@.push(modifier@),
    {
        self.modifiers.push(modifier);
        assert(self@ =~= old(self)@.push(modifier@));
    }
}

impl Default for ConfigPatch {
    fn default() -> (p: Self)
        ensures
            p@ == Seq::<ConfigModifierView>::empty(),
    {
        ConfigPatch::new()
    }
}

/// Errors of configuration changes.
#[derive(Debug, PartialEq)]
pub enum ConfigError {
    /// An expression with the same key already exists.
    ConfigExprOverload,
    /// The modifier cannot be applied to the configuration.
    ConfigModifierError(ConfigModifier),
}

/// The number of keys of a configuration built from distinct keys is the number of expressions.
pub proof fn lemma_map_of_len(s: Seq<ConfigExprView>)
    requires
        distinct_keys(s),
    ensures
        map_of(s).dom().len() == s.len(),
        map_of(s).dom().finite(),
{
    let ks = s.map_values(|e: ConfigExprView| key_of(e));
    assert(ks.no_duplicates()) by {
        assert forall|i: int, j: int| 0 <= i < ks.len() && 0 <= j < ks.len() && i != j
            implies ks[i] != ks[j] by {
            assert(ks[i] == key_of(s[i]));
            assert(ks[j] == key_of(s[j]));
        }
    }
    assert forall|k: ConfigExprKey| #[trigger] map_of(s).dom().contains(k) == ks.to_set().contains(k) by {
        if map_of(s).dom().contains(k) {
            let i = choose|i: int| 0 <= i < s.len() && key_of(s[i]) == k;
            assert(ks[i] == k);
        }
        if ks.to_set().contains(k) {
            let i = choose|i: int| 0 <= i < ks.len() && ks[i] == k;
            assert(key_of(s[i]) == k);
        }
    }
    assert(map_of(s).dom() =~= ks.to_set());
    ks.unique_seq_to_set();
}

/// Network-wide configuration: an unordered collection of expressions, at most one per key.
#[derive(Debug)]
pub struct Config {
    exprs: Vec<ConfigExpr>,
}

impl Config {
    /// No two expressions share a key.
    #[verifier::type_invariant]
    spec fn keys_unique(self) -> bool {
        distinct_keys(views(self.exprs@))
    }
}

impl View for Config {
    type V = ConfigMap;

    closed spec fn view(&self) -> ConfigMap {
        map_of(views(self.exprs@))
    }
}

impl Config {
    /// An empty configuration.
    pub fn new() -> (c: Config)
        ensures
            c@ == ConfigMap::empty(),
    {
        let c = Config { exprs: Vec::new() };
        assert(c@ =~= ConfigMap::empty());
        c
    }

    /// Index of the expression with key `k`, if there is one.
    fn find(&self, k: ConfigExprKey) -> (r: Option<usize>)
        ensures
            match r {
                Some(i) => i < self.exprs@.len() && key_of(self.exprs@[i as int]@) == k
                    && self@.contains_key(k) && self@[k] == self.exprs@[i as int]@,
                None => !self@.contains_key(k),
            },
    {
        proof {
            use_type_invariant(self);
        }
        let mut i: usize = 0;
        while i < self.exprs.len()
            invariant
                i <= self.exprs@.len(),
                distinct_keys(views(self.exprs@)),
                forall|j: int| 0 <= j < i ==> key_of(#[trigger] self.exprs@[j]@) != k,
            decreases self.exprs@.len() - i,
        {
            if self.exprs[i].key() == k {
                proof {
                    assert(views(self.exprs@)[i as int] == self.exprs@[i as int]@);
                    lemma_map_of_index(views(self.exprs@), i as int);
                }
                return Some(i);
            }
            i = i + 1;
        }
        proof {
            if self@.contains_key(k) {
                let j = choose|j: int| 0 <= j < views(self.exprs@).len() && key_of(views(self.exprs@)[j]) == k;
                assert(views(self.exprs@)[j] == self.exprs@[j]@);
            }
        }
        None
    }

    /// Add an expression. Fails with `ConfigExprOverload`, leaving the configuration unchanged,
    /// if an expression with the same key exists.
    pub fn add(&mut self, expr: ConfigExpr) -> (r: Result<(), ConfigError>)
        ensures
            old(self)@.contains_key(key_of(expr@)) ==> r == Err::<(), ConfigError>(ConfigError::ConfigExprOverload)
                && final(self)@ == old(self)@,
            !old(self)@.contains_key(key_of(expr@)) ==> r is Ok
                && final(self)@ == old(self)@.insert(key_of(expr@), expr@),
            final(self)@.dom().finite(),
    {
        proof {
            use_type_invariant(&*self);
            lemma_map_of_len(views(self.exprs@));
        }
        let k = expr.key();
        match self.find(k) {
            Some(_) => Err(ConfigError::ConfigExprOverload),
            None => {
                self.push_new(expr);
                Ok(())
            },
        }
    }

    /// Append an expression whose key is new.
    fn push_new(&mut self, expr: ConfigExpr)
        requires
            !old(self)@.contains_key(key_of(expr@)),
        ensures
            final(self)@ == old(self)@.insert(key_of(expr@), expr@),
    {
        proof {
            use_type_invariant(&*self);
            lemma_map_of_push(views(self.exprs@), expr@);
            assert(views(self.exprs@.push(expr)) =~= views(self.exprs@).push(expr@));
        }
        let mut v: Vec<ConfigExpr> = Vec::new();
        std::mem::swap(&mut v, &mut self.exprs);
        v.push(expr);
        self.exprs = v;
    }

    /// Remove the expression at index `i`.
    fn remove_at(&mut self, i: usize)
        requires
            i < old(self).exprs@.len(),
        ensures
            final(self)@ == old(self)@.remove(key_of(old(self).exprs@[i as int]@)),
    {
        proof {
            use_type_invariant(&*self);
            lemma_map_of_remove(views(self.exprs@), i as int);
            assert(views(self.exprs@.remove(i as int)) =~= views(self.exprs@).remove(i as int));
        }
        let mut v: Vec<ConfigExpr> = Vec::new();
        std::mem::swap(&mut v, &mut self.exprs);
        v.remove(i);
        self.exprs = v;
    }

    /// Replace the expression at index `i` by one with the same key.
    fn replace_at(&mut self, i: usize, expr: ConfigExpr)
        requires
            i < old(self).exprs@.len(),
            key_of(expr@) == key_of(old(self).exprs@[i as int]@),
        ensures
            final(self)@ == old(self)@.insert(key_of(expr@), expr@),
    {
        proof {
            use_type_invariant(&*self);
            lemma_map_of_update(views(self.exprs@), i as int, expr@);
            assert(views(self.exprs@.update(i as int, expr)) =~= views(self.exprs@).update(i as int, expr@));
        }
        let mut v: Vec<ConfigExpr> = Vec::new();
        std::mem::swap(&mut v, &mut self.exprs);
        v.set(i, expr);
        self.exprs = v;
    }

    /// Apply a single modifier. If it cannot be applied (an insertion of an existing key, a
    /// removal of an expression that is not there, an update of a key that is not there, or an
    /// update that changes the key),
    /// the configuration is left unchanged and the modifier is returned in the error.
    pub fn apply_modifier(&mut self, modifier: &ConfigModifier) -> (r: Result<(), ConfigError>)
        ensures
            match apply_one(old(self)@, modifier@) {
                Some(m) => r is Ok && final(self)@ == m,
                None => final(self)@ == old(self)@ && (r matches Err(ConfigError::ConfigModifierError(x))
                    && x@ == modifier@),
            },
    {
        match modifier {
            ConfigModifier::Insert(expr) => {
                match self.find(expr.key()) {
                    Some(_) => Err(ConfigError::ConfigModifierError(modifier.clone())),
                    None => {
                        self.push_new(expr.clone());
                        Ok(())
                    },
                }
            },
            ConfigModifier::Remove(expr) => {
                match self.find(expr.key()) {
                    Some(i) => {
                        if self.exprs[i].same_as(expr) {
                            self.remove_at(i);
                            Ok(())
                        } else {
                            Err(ConfigError::ConfigModifierError(modifier.clone()))
                        }
                    },
                    None => Err(ConfigError::ConfigModifierError(modifier.clone())),
                }
            },
            ConfigModifier::Update { from, to } => {
                let key = from.key();
                if key != to.key() {
                    return Err(ConfigError::ConfigModifierError(modifier.clone()));
                }
                match self.find(key) {
                    Some(i) => {
                        self.replace_at(i, to.clone());
                        Ok(())
                    },
                    None => Err(ConfigError::ConfigModifierError(modifier.clone())),
                }
            },
        }
    }

    /// Number of expressions.
    pub fn len(&self) -> (n: usize)
        ensures
            n == self@.dom().len(),
    {
        proof {
            use_type_invariant(self);
            lemma_map_of_len(views(self.exprs@));
        }
        self.exprs.len()
    }

    /// Whether the configuration holds no expression.
    pub fn is_empty(&self) -> (b: bool)
        ensures
            b == (self@.dom().len() == 0),
    {
        self.len() == 0
    }

    /// All expressions, each once, in no particular order.
    pub fn iter(&self) -> (r: &[ConfigExpr])
        ensures
            distinct_keys(views(r@)),
            map_of(views(r@)) == self@,
    {
        proof {
            use_type_invariant(self);
        }
        self.exprs.as_slice()
    }

    /// The expression stored under the (normalized) key.
    pub fn get(&self, index: ConfigExprKey) -> (r: Option<&ConfigExpr>)
        ensures
            match r {
                Some(e) => self@.contains_key(normalized(index)) && e@ == self@[normalized(index)],
                None => !self@.contains_key(normalized(index)),
            },
    {
        let mut k = index;
        k.normalize();
        match self.find(k) {
            Some(i) => Some(&self.exprs[i]),
            None => None,
        }
    }
}

impl Clone for Config {
    fn clone(&self) -> (r: Self)
        ensures
            r@ == self@,
    {
        proof {
            use_type_invariant(self);
        }
        let mut exprs: Vec<ConfigExpr> = Vec::new();
        let mut i: usize = 0;
        while i < self.exprs.len()
            invariant
                i <= self.exprs@.len(),
                exprs@.len() == i,
                forall|j: int| 0 <= j < i ==> #[trigger] exprs@[j]@ == self.exprs@[j]@,
            decreases self.exprs@.len() - i,
        {
            exprs.push(self.exprs[i].clone());
            i = i + 1;
        }
        assert(views(exprs@) =~= views(self.exprs@));
        Config { exprs }
    }
}

impl Default for Config {
    fn default() -> (c: Self)
        ensures
            c@ == ConfigMap::empty(),
    {
        Config::new()
    }
}

/// Some expression among the first `i` of `s` has key `k`.
pub open spec fn key_in_prefix(s: Seq<ConfigExprView>, i: int, k: ConfigExprKey) -> bool {
    exists|idx: int| 0 <= idx < i && key_of(s[idx]) == k
}

/// The modifiers of `p` in `[lo, hi)` are modifiers of the difference from `a` to `b` of the
/// given kind, and each changes a key among the first `i` expressions of `s`.
pub open spec fn diff_segment(
    a: ConfigMap,
    b: ConfigMap,
    p: Seq<ConfigModifierView>,
    lo: int,
    hi: int,
    rank: int,
    s: Seq<ConfigExprView>,
    i: int,
) -> bool {
    forall|j: int| lo <= j < hi ==> mod_rank(#[trigger] p[j]) == rank && diff_step(a, b, p[j])
        && key_in_prefix(s, i, mod_key(p[j]))
}

/// No two modifiers change the same key.
pub open spec fn mod_keys_distinct(p: Seq<ConfigModifierView>) -> bool {
    forall|x: int, y: int| 0 <= x < p.len() && 0 <= y < p.len() && x != y
        ==> mod_key(p[x]) != mod_key(p[y])
}

/// Appending a modifier whose key no modifier changes keeps the keys distinct.
proof fn lemma_push_distinct(p: Seq<ConfigModifierView>, x: ConfigModifierView)
    requires
        mod_keys_distinct(p),
        forall|j: int| 0 <= j < p.len() ==> mod_key(#[trigger] p[j]) != mod_key(x),
    ensures
        mod_keys_distinct(p.push(x)),
        forall|k: ConfigExprKey| touched(p, p.len() as int, k) ==> #[trigger] touched(p.push(x), (p.len() + 1) as int, k),
        touched(p.push(x), (p.len() + 1) as int, mod_key(x)),
{
    let q = p.push(x);
    assert forall|a: int, b: int| 0 <= a < q.len() && 0 <= b < q.len() && a != b
        implies mod_key(q[a]) != mod_key(q[b]) by {
        if a < p.len() {
            assert(q[a] == p[a]);
        }
        if b < p.len() {
            assert(q[b] == p[b]);
        }
    }
    assert forall|k: ConfigExprKey| touched(p, p.len() as int, k) implies #[trigger] touched(q, (p.len() + 1) as int, k) by {
        let j = choose|j: int| 0 <= j < p.len() && mod_key(p[j]) == k;
        assert(q[j] == p[j]);
    }
    assert(q[p.len() as int] == x);
}

/// A segment of a difference stays one when later modifiers are appended.
proof fn lemma_segment_prefix(
    a: ConfigMap,
    b: ConfigMap,
    p: Seq<ConfigModifierView>,
    q: Seq<ConfigModifierView>,
    lo: int,
    hi: int,
    rank: int,
    s: Seq<ConfigExprView>,
    i: int,
)
    requires
        diff_segment(a, b, p, lo, hi, rank, s, i),
        0 <= lo,
        hi <= p.len() <= q.len(),
        forall|j: int| 0 <= j < p.len() ==> q[j] == p[j],
    ensures
        diff_segment(a, b, q, lo, hi, rank, s, i),
{
    assert forall|j: int| lo <= j < hi implies mod_rank(#[trigger] q[j]) == rank && diff_step(a, b, q[j])
        && key_in_prefix(s, i, mod_key(q[j])) by {
        assert(q[j] == p[j]);
    }
}

/// A segment whose keys come from the first `i` expressions has keys among the first `i + 1`.
proof fn lemma_segment_grow(
    a: ConfigMap,
    b: ConfigMap,
    p: Seq<ConfigModifierView>,
    lo: int,
    hi: int,
    rank: int,
    s: Seq<ConfigExprView>,
    i: int,
)
    requires
        diff_segment(a, b, p, lo, hi, rank, s, i),
        0 <= i,
    ensures
        diff_segment(a, b, p, lo, hi, rank, s, i + 1),
{
    assert forall|j: int| lo <= j < hi implies mod_rank(#[trigger] p[j]) == rank && diff_step(a, b, p[j])
        && key_in_prefix(s, i + 1, mod_key(p[j])) by {
        assert(key_in_prefix(s, i, mod_key(p[j])));
        let idx = choose|idx: int| 0 <= idx < i && key_of(s[idx]) == mod_key(p[j]);
        assert(0 <= idx < i + 1 && key_of(s[idx]) == mod_key(p[j]));
    }
}

/// Appending the modifier for the expression at index `i` extends the segment.
proof fn lemma_segment_push(
    a: ConfigMap,
    b: ConfigMap,
    p: Seq<ConfigModifierView>,
    x: ConfigModifierView,
    lo: int,
    rank: int,
    s: Seq<ConfigExprView>,
    i: int,
)
    requires
        diff_segment(a, b, p, lo, p.len() as int, rank, s, i + 1),
        0 <= lo <= p.len(),
        0 <= i < s.len(),
        mod_rank(x) == rank,
        diff_step(a, b, x),
        mod_key(x) == key_of(s[i]),
    ensures
        diff_segment(a, b, p.push(x), lo, (p.len() + 1) as int, rank, s, i + 1),
{
    let q = p.push(x);
    assert forall|j: int| lo <= j < p.len() + 1 implies mod_rank(#[trigger] q[j]) == rank && diff_step(a, b, q[j])
        && key_in_prefix(s, i + 1, mod_key(q[j])) by {
        if j < p.len() {
            assert(q[j] == p[j]);
        } else {
            assert(q[j] == x);
            assert(0 <= i < i + 1 && key_of(s[i]) == mod_key(x));
        }
    }
}

/// The key of a new modifier for the expression at index `i` differs from the keys of a segment
/// whose keys come from the first `i` expressions.
proof fn lemma_segment_key_fresh(
    a: ConfigMap,
    b: ConfigMap,
    p: Seq<ConfigModifierView>,
    lo: int,
    hi: int,
    rank: int,
    s: Seq<ConfigExprView>,
    i: int,
)
    requires
        diff_segment(a, b, p, lo, hi, rank, s, i),
        distinct_keys(s),
        0 <= i < s.len(),
    ensures
        forall|j: int| lo <= j < hi ==> mod_key(#[trigger] p[j]) != key_of(s[i]),
{
    assert forall|j: int| lo <= j < hi implies mod_key(#[trigger] p[j]) != key_of(s[i]) by {
        assert(key_in_prefix(s, i, mod_key(p[j])));
        let idx = choose|idx: int| 0 <= idx < i && key_of(s[idx]) == mod_key(p[j]);
        assert(key_of(s[idx]) != key_of(s[i]));
    }
}

impl Config {
    /// The patch that turns this configuration into `other`: first the removals of expressions
    /// that `other` lacks, then the insertions of expressions that this configuration lacks, then
    /// the updates of expressions that differ. Applying it to this configuration gives `other`
    /// (see `law_diff_applies`).
    pub fn get_diff(&self, other: &Config) -> (patch: ConfigPatch)
        ensures
            is_diff(self@, other@, patch@),
    {
        proof {
            use_type_invariant(self);
            use_type_invariant(other);
        }
        let ghost a = self@;
        let ghost b = other@;
        let ghost se = views(self.exprs@);
        let ghost oe = views(other.exprs@);
        let mut patch = ConfigPatch::new();

        // expressions missing in `other`
        let mut i: usize = 0;
        while i < self.exprs.len()
            invariant
                i <= se.len(),
                se == views(self.exprs@),
                oe == views(other.exprs@),
                a == self@, b == other@,
                a == map_of(se), b == map_of(oe),
                distinct_keys(se),
                diff_segment(a, b, patch@, 0, patch@.len() as int, 0, se, i as int),
                mod_keys_distinct(patch@),
                forall|idx: int| 0 <= idx < i && !b.contains_key(key_of(se[idx]))
                    ==> #[trigger] touched(patch@, patch@.len() as int, key_of(se[idx])),
            decreases se.len() - i,
        {
            let k = self.exprs[i].key();
            proof {
                assert(se[i as int] == self.exprs@[i as int]@);
                lemma_segment_grow(a, b, patch@, 0, patch@.len() as int, 0, se, i as int);
            }
            if other.find(k).is_none() {
                let x = ConfigModifier::Remove(self.exprs[i].clone());
                proof {
                    lemma_map_of_index(se, i as int);
                    lemma_segment_key_fresh(a, b, patch@, 0, patch@.len() as int, 0, se, i as int);
                    lemma_push_distinct(patch@, x@);
                    lemma_segment_push(a, b, patch@, x@, 0, 0, se, i as int);
                }
                patch.add(x);
            }
            i = i + 1;
        }
        let ghost n1 = patch@.len() as int;

        // expressions missing in `self`
        let mut i: usize = 0;
        while i < other.exprs.len()
            invariant
                i <= oe.len(),
                se == views(self.exprs@),
                oe == views(other.exprs@),
                a == self@, b == other@,
                a == map_of(se), b == map_of(oe),
                distinct_keys(se),
                distinct_keys(oe),
                0 <= n1 <= patch@.len(),
                diff_segment(a, b, patch@, 0, n1, 0, se, se.len() as int),
                diff_segment(a, b, patch@, n1, patch@.len() as int, 1, oe, i as int),
                mod_keys_distinct(patch@),
                forall|idx: int| 0 <= idx < se.len() && !b.contains_key(key_of(se[idx]))
                    ==> #[trigger] touched(patch@, patch@.len() as int, key_of(se[idx])),
                forall|idx: int| 0 <= idx < i && !a.contains_key(key_of(oe[idx]))
                    ==> #[trigger] touched(patch@, patch@.len() as int, key_of(oe[idx])),
            decreases oe.len() - i,
        {
            let k = other.exprs[i].key();
            proof {
                assert(oe[i as int] == other.exprs@[i as int]@);
                lemma_segment_grow(a, b, patch@, n1, patch@.len() as int, 1, oe, i as int);
            }
            if self.find(k).is_none() {
                let x = ConfigModifier::Insert(other.exprs[i].clone());
                proof {
                    lemma_map_of_index(oe, i as int);
                    lemma_segment_key_fresh(a, b, patch@, n1, patch@.len() as int, 1, oe, i as int);
                    assert forall|j: int| 0 <= j < patch@.len() implies mod_key(#[trigger] patch@[j]) != mod_key(x@) by {
                        if j < n1 {
                            assert(diff_step(a, b, patch@[j]));
                        }
                    }
                    lemma_push_distinct(patch@, x@);
                    lemma_segment_push(a, b, patch@, x@, n1, 1, oe, i as int);
                    lemma_segment_prefix(a, b, patch@, patch@.push(x@), 0, n1, 0, se, se.len() as int);
                }
                patch.add(x);
            }
            i = i + 1;
        }
        let ghost n2 = patch@.len() as int;

        // expressions that differ
        let mut i: usize = 0;
        while i < self.exprs.len()
            invariant
                i <= se.len(),
                se == views(self.exprs@),
                oe == views(other.exprs@),
                a == self@, b == other@,
                a == map_of(se), b == map_of(oe),
                distinct_keys(se),
                distinct_keys(oe),
                0 <= n1 <= n2 <= patch@.len(),
                diff_segment(a, b, patch@, 0, n1, 0, se, se.len() as int),
                diff_segment(a, b, patch@, n1, n2, 1, oe, oe.len() as int),
                diff_segment(a, b, patch@, n2, patch@.len() as int, 2, se, i as int),
                mod_keys_distinct(patch@),
                forall|idx: int| 0 <= idx < se.len() && !b.contains_key(key_of(se[idx]))
                    ==> #[trigger] touched(patch@, patch@.len() as int, key_of(se[idx])),
                forall|idx: int| 0 <= idx < oe.len() && !a.contains_key(key_of(oe[idx]))
                    ==> #[trigger] touched(patch@, patch@.len() as int, key_of(oe[idx])),
                forall|idx: int| 0 <= idx < i && differs_at(a, b, key_of(se[idx]))
                    ==> #[trigger] touched(patch@, patch@.len() as int, key_of(se[idx])),
            decreases se.len() - i,
        {
            let k = self.exprs[i].key();
            proof {
                assert(se[i as int] == self.exprs@[i as int]@);
                lemma_map_of_index(se, i as int);
                lemma_segment_grow(a, b, patch@, n2, patch@.len() as int, 2, se, i as int);
            }
            match other.find(k) {
                Some(j) => {
                    if !self.exprs[i].same_as(&other.exprs[j]) {
                        let x = ConfigModifier::Update { from: self.exprs[i].clone(), to: other.exprs[j].clone() };
                        proof {
                            assert(oe[j as int] == other.exprs@[j as int]@);
                            lemma_segment_key_fresh(a, b, patch@, n2, patch@.len() as int, 2, se, i as int);
                            assert forall|jj: int| 0 <= jj < patch@.len() implies mod_key(#[trigger] patch@[jj]) != mod_key(x@) by {
                                if jj < n2 {
                                    assert(diff_step(a, b, patch@[jj]));
                                }
                            }
                            lemma_push_distinct(patch@, x@);
                            lemma_segment_push(a, b, patch@, x@, n2, 2, se, i as int);
                            lemma_segment_prefix(a, b, patch@, patch@.push(x@), 0, n1, 0, se, se.len() as int);
                            lemma_segment_prefix(a, b, patch@, patch@.push(x@), n1, n2, 1, oe, oe.len() as int);
                        }
                        patch.add(x);
                    }
                },
                None => {},
            }
            i = i + 1;
        }
        proof {
            let p = patch@;
            assert forall|j: int| 0 <= j < p.len() implies #[trigger] diff_step(a, b, p[j]) by {
                if j < n1 {
                } else if j < n2 {
                } else {
                }
            }
            assert forall|x: int, y: int| 0 <= x <= y < p.len() implies mod_rank(p[x]) <= mod_rank(p[y]) by {
                if x < n1 {
                } else if x < n2 {
                    assert(y >= n1);
                } else {
                    assert(y >= n2);
                }
            }
            assert forall|k: ConfigExprKey| #[trigger] differs_at(a, b, k) implies
                exists|j: int| 0 <= j < p.len() && mod_key(p[j]) == k by {
                if a.contains_key(k) {
                    let idx = choose|idx: int| 0 <= idx < se.len() && key_of(se[idx]) == k;
                    assert(touched(p, p.len() as int, key_of(se[idx])));
                } else {
                    let idx = choose|idx: int| 0 <= idx < oe.len() && key_of(oe[idx]) == k;
                    assert(touched(p, p.len() as int, key_of(oe[idx])));
                }
            }
        }
        patch
    }
}

/// Once a prefix of a patch fails, the whole patch fails.
proof fn lemma_apply_fails_later(m: ConfigMap, p: Seq<ConfigModifierView>, j: int)
    requires
        0 <= j <= p.len(),
        apply_mods(m, p.take(j)) is None,
    ensures
        apply_mods(m, p) is None,
    decreases p.len() - j,
{
    if j == p.len() {
        assert(p.take(j) =~= p);
    } else {
        assert(p.take(j + 1).drop_last() =~= p.take(j));
        lemma_apply_fails_later(m, p, j + 1);
    }
}

/// `x` is the first modifier of `p` that cannot be applied, starting from `m`.
pub open spec fn first_failure(m: ConfigMap, p: Seq<ConfigModifierView>, x: ConfigModifierView) -> bool {
    exists|j: int| 0 <= j < p.len() && #[trigger] apply_mods(m, p.take(j)) is Some
        && apply_one(apply_mods(m, p.take(j))->0, p[j]) is None && x == p[j]
}

/// Two expressions are equal as configuration values: identical, or iBGP peer sessions between
/// the same two routers, written in either direction.
pub open spec fn same_value(x: ConfigExprView, y: ConfigExprView) -> bool {
    x == y || (x matches ConfigExprView::BgpSession { source: s1, target: t1, session_type: BgpSessionType::IBgpPeer }
        && y matches ConfigExprView::BgpSession { source: s2, target: t2, session_type: BgpSessionType::IBgpPeer }
        && s1 == t2 && t1 == s2)
}

/// Two configurations are equal: the same keys, and equal values under each key.
pub open spec fn config_eq(a: ConfigMap, b: ConfigMap) -> bool {
    a.dom() == b.dom() && forall|k: ConfigExprKey| #[trigger] a.contains_key(k) ==> same_value(a[k], b[k])
}

impl Config {
    /// Apply the modifiers of a patch in order. If one of them cannot be applied, the
    /// configuration is left as it was before the patch and the first failing modifier is
    /// returned in the error.
    pub fn apply_patch(&mut self, patch: &ConfigPatch) -> (r: Result<(), ConfigError>)
        ensures
            match apply_mods(old(self)@, patch@) {
                Some(m) => r is Ok && final(self)@ == m,
                None => final(self)@ == old(self)@ && (r matches Err(ConfigError::ConfigModifierError(x))
                    && first_failure(old(self)@, patch@, x@)),
            },
    {
        let backup = self.clone();
        let ghost start = self@;
        let mut i: usize = 0;
        assert(patch@.take(0) =~= Seq::<ConfigModifierView>::empty());
        while i < patch.modifiers.len()
            invariant
                i <= patch@.len(),
                patch@.len() == patch.modifiers@.len(),
                backup@ == start,
                start == old(self)@,
                apply_mods(start, patch@.take(i as int)) == Some(self@),
            decreases patch@.len() - i,
        {
            proof {
                assert(patch@.take(i + 1).drop_last() =~= patch@.take(i as int));
                assert(patch@[i as int] == patch.modifiers@[i as int]@);
            }
            let ghost before = self@;
            match self.apply_modifier(&patch.modifiers[i]) {
                Ok(()) => {},
                Err(e) => {
                    proof {
                        lemma_apply_fails_later(start, patch@, i + 1);
                        assert(apply_mods(start, patch@.take(i as int)) == Some(before));
                        assert(apply_one(before, patch@[i as int]) is None);
                        let x = e->ConfigModifierError_0;
                        assert(x@ == patch@[i as int]);
                        assert(first_failure(start, patch@, x@));
                    }
                    *self = backup;
                    return Err(e);
                },
            }
            i = i + 1;
        }
        assert(patch@.take(patch@.len() as int) =~= patch@);
        Ok(())
    }
}

impl PartialEq for Config {
    fn eq(&self, other: &Self) -> (b: bool) {
        proof {
            use_type_invariant(self);
            use_type_invariant(other);
        }
        let ghost a = self@;
        let ghost bb = other@;
        let ghost se = views(self.exprs@);
        let ghost oe = views(other.exprs@);
        let mut i: usize = 0;
        while i < self.exprs.len()
            invariant
                i <= se.len(),
                se == views(self.exprs@),
                a == self@, bb == other@,
                a == map_of(se),
                distinct_keys(se),
                forall|idx: int| 0 <= idx < i ==> bb.contains_key(key_of(#[trigger] se[idx]))
                    && same_value(a[key_of(se[idx])], bb[key_of(se[idx])]),
            decreases se.len() - i,
        {
            proof {
                assert(se[i as int] == self.exprs@[i as int]@);
                lemma_map_of_index(se, i as int);
            }
            match other.find(self.exprs[i].key()) {
                None => return false,
                Some(j) => {
                    let x = &self.exprs[i];
                    let y = &other.exprs[j];
                    if !x.same_as(y) {
                        let peers = match (x, y) {
                            (
                                ConfigExpr::BgpSession { source: s1, target: t1, session_type: BgpSessionType::IBgpPeer },
                                ConfigExpr::BgpSession { source: s2, target: t2, session_type: BgpSessionType::IBgpPeer },
                            ) => s1.0 == t2.0 && t1.0 == s2.0,
                            _ => false,
                        };
                        if !peers {
                            return false;
                        }
                    }
                },
            }
            i = i + 1;
        }
        let mut j: usize = 0;
        while j < other.exprs.len()
            invariant
                j <= oe.len(),
                oe == views(other.exprs@),
                a == self@, bb == other@,
                bb == map_of(oe),
                forall|idx: int| 0 <= idx < j ==> a.contains_key(key_of(#[trigger] oe[idx])),
            decreases oe.len() - j,
        {
            proof {
                assert(oe[j as int] == other.exprs@[j as int]@);
            }
            if self.find(other.exprs[j].key()).is_none() {
                return false;
            }
            j = j + 1;
        }
        proof {
            assert forall|k: ConfigExprKey| #[trigger] a.dom().contains(k) == bb.dom().contains(k) by {
                if a.contains_key(k) {
                    let idx = choose|idx: int| 0 <= idx < se.len() && key_of(se[idx]) == k;
                    assert(bb.contains_key(key_of(se[idx])));
                }
                if bb.contains_key(k) {
                    let idx = choose|idx: int| 0 <= idx < oe.len() && key_of(oe[idx]) == k;
                    assert(a.contains_key(key_of(oe[idx])));
                }
            }
            assert(a.dom() =~= bb.dom());
            assert forall|k: ConfigExprKey| #[trigger] a.contains_key(k) implies same_value(a[k], bb[k]) by {
                let idx = choose|idx: int| 0 <= idx < se.len() && key_of(se[idx]) == k;
                assert(bb.contains_key(key_of(se[idx])));
            }
        }
        true
    }
}

impl PartialEqSpecImpl for Config {
    open spec fn obeys_eq_spec() -> bool {
        true
    }

    open spec fn eq_spec(&self, other: &Self) -> bool {
        config_eq(self@, other@)
    }
}

} // verus!
