use vstd::prelude::*;

use crate::changes::OpChanges;
use crate::collection::{
    has_config_id,
    pushed_journal, Collection, Deck, DeckConfig, Limits, UndoEntry, UndoableOp,
};
use crate::error::{AnkiError, Constraint, Entity, InvalidReason};
use crate::ids::{DeckConfigId, DeckId, DEFAULT_DECK_CONFIG_ID};

verus! {

/// A request to edit the configurations seen from one deck.
#[derive(Debug)]
pub struct UpdateDeckConfigsRequest {
    pub target_deck_id: DeckId,
    /// Configurations to insert or update; the last one is assigned to the target.
    pub configs: Vec<DeckConfig>,
    pub removed_config_ids: Vec<DeckConfigId>,
    pub apply_to_children: bool,
    pub card_state_customizer: String,
    pub limits: Limits,
    pub new_cards_ignore_review_limit: bool,
}

/// Some deck uses configuration `id`.
pub open spec fn config_in_use(decks: Seq<Deck>, id: DeckConfigId) -> bool {
    exists|i: int| 0 <= i < decks.len() && (#[trigger] decks[i]).config_id == id
}

/// Deck `d` is `target` or, when `children` holds, lies anywhere below it.
pub open spec fn in_subtree(d: Deck, target: DeckId, children: bool) -> bool {
    d.id == target || (children && d.ancestors@.contains(target))
}

/// A deck outside the subtree being reassigned still uses configuration `id`.
pub open spec fn used_outside(decks: Seq<Deck>, id: DeckConfigId, target: DeckId, children: bool) -> bool {
    exists|i: int| 0 <= i < decks.len() && (#[trigger] decks[i]).config_id == id
        && !in_subtree(decks[i], target, children)
}

/// Index of the configuration with id `id` in `cs`.
pub open spec fn config_index(cs: Seq<DeckConfig>, id: DeckConfigId) -> int {
    choose|i: int| 0 <= i < cs.len() && cs[i].id == id
}


/// `cs` after one insert-or-update of `c`, with the id allocator and the id
/// that `c` ends up with.
pub open spec fn upsert_one(cs: Seq<DeckConfig>, c: DeckConfig, next: int, now: i64, usn: i32) -> (
    Seq<DeckConfig>,
    int,
    DeckConfigId,
) {
    if has_config_id(cs, c.id) {
        (
            cs.update(
                config_index(cs, c.id),
                DeckConfig { id: c.id, name: c.name, mtime: now, usn, inner: c.inner },
            ),
            next,
            c.id,
        )
    } else {
        (
            cs.push(
                DeckConfig { id: DeckConfigId(next as i64), name: c.name, mtime: now, usn, inner: c.inner },
            ),
            next + 1,
            DeckConfigId(next as i64),
        )
    }
}

/// `cs` after inserting or updating every configuration of `reqs` in turn.
pub open spec fn upsert_all(cs: Seq<DeckConfig>, reqs: Seq<DeckConfig>, next: int, now: i64, usn: i32) -> (
    Seq<DeckConfig>,
    int,
    DeckConfigId,
)
    decreases reqs.len(),
{
    if reqs.len() == 0 {
        (cs, next, DeckConfigId(DEFAULT_DECK_CONFIG_ID))
    } else {
        let before = upsert_all(cs, reqs.drop_last(), next, now, usn);
        upsert_one(before.0, reqs.last(), before.1, now, usn)
    }
}

/// A configuration survives removal of `ids`.
pub open spec fn config_kept(ids: Seq<DeckConfigId>) -> spec_fn(DeckConfig) -> bool {
    |c: DeckConfig| !ids.contains(c.id)
}

/// The ids of `cs` are unique and below `next`.
pub open spec fn configs_wf(cs: Seq<DeckConfig>, next: int) -> bool {
    &&& forall|i: int| 0 <= i < cs.len() ==> (#[trigger] cs[i]).id.0 < next
    &&& forall|i: int, j: int| 0 <= i < j < cs.len() ==> (#[trigger] cs[i]).id != (#[trigger] cs[j]).id
}

/// Upserting keeps ids unique and below the allocator, and uses at most one
/// id per request.
pub proof fn lemma_upsert_all_wf(cs: Seq<DeckConfig>, reqs: Seq<DeckConfig>, next: int, now: i64, usn: i32)
    requires
        configs_wf(cs, next),
        0 <= next,
        next + reqs.len() < i64::MAX,
    ensures
        configs_wf(upsert_all(cs, reqs, next, now, usn).0, upsert_all(cs, reqs, next, now, usn).1),
        next <= upsert_all(cs, reqs, next, now, usn).1 <= next + reqs.len(),
    decreases reqs.len(),
{
    if reqs.len() > 0 {
        lemma_upsert_all_wf(cs, reqs.drop_last(), next, now, usn);
        let b = upsert_all(cs, reqs.drop_last(), next, now, usn);
        let c = reqs.last();
        let r = upsert_one(b.0, c, b.1, now, usn);
        if has_config_id(b.0, c.id) {
            let k = config_index(b.0, c.id);
            assert(0 <= k < b.0.len() && b.0[k].id == c.id);
            assert forall|i: int| 0 <= i < r.0.len() implies (#[trigger] r.0[i]).id == b.0[i].id by {}
        } else {
            assert forall|i: int| 0 <= i < b.0.len() implies (#[trigger] r.0[i]).id == b.0[i].id by {}
            assert(r.0[b.0.len() as int].id.0 == b.1);
        }
        assert(configs_wf(r.0, r.1));
    }
}

/// Upserting never drops an id, and the id the last request ends up with
/// is present afterwards.
pub proof fn lemma_upsert_all_keeps(cs: Seq<DeckConfig>, reqs: Seq<DeckConfig>, next: int, now: i64, usn: i32, x: DeckConfigId)
    ensures
        has_config_id(cs, x) ==> has_config_id(upsert_all(cs, reqs, next, now, usn).0, x),
        reqs.len() > 0 ==> has_config_id(upsert_all(cs, reqs, next, now, usn).0, upsert_all(cs, reqs, next, now, usn).2),
    decreases reqs.len(),
{
    if reqs.len() > 0 {
        lemma_upsert_all_keeps(cs, reqs.drop_last(), next, now, usn, x);
        let b = upsert_all(cs, reqs.drop_last(), next, now, usn);
        let c = reqs.last();
        let r = upsert_one(b.0, c, b.1, now, usn);
        if has_config_id(b.0, c.id) {
            let k = config_index(b.0, c.id);
            assert(0 <= k < b.0.len() && b.0[k].id == c.id);
            assert(r.0[k].id == c.id);
            if has_config_id(b.0, x) {
                let w = choose|w: int| 0 <= w < b.0.len() && b.0[w].id == x;
                assert(r.0[w].id == x);
            }
        } else {
            assert(r.0[b.0.len() as int].id == r.2);
            if has_config_id(b.0, x) {
                let w = choose|w: int| 0 <= w < b.0.len() && b.0[w].id == x;
                assert(r.0[w].id == x);
            }
        }
    }
}

/// An id that is present and not removed survives the removal.
pub proof fn lemma_kept_after_removal(cs: Seq<DeckConfig>, removed: Seq<DeckConfigId>, x: DeckConfigId)
    requires
        has_config_id(cs, x),
        !removed.contains(x),
    ensures
        has_config_id(cs.filter(config_kept(removed)), x),
{
    let w = choose|w: int| 0 <= w < cs.len() && cs[w].id == x;
    cs.filter_lemma(config_kept(removed));
    assert(config_kept(removed)(cs[w]));
    assert(cs.filter(config_kept(removed)).contains(cs[w]));
    let f = cs.filter(config_kept(removed));
    let v = choose|v: int| 0 <= v < f.len() && f[v] == cs[w];
    assert(f[v].id == x);
}

impl DeckConfig {
    /// A copy of this configuration.
    pub fn copy(&self) -> (r: DeckConfig)
        ensures
            r == *self,
    {
        DeckConfig {
            id: self.id,
            name: self.name.clone(),
            mtime: self.mtime,
            usn: self.usn,
            inner: self.inner,
        }
    }
}

/// Inserts or updates `c` in `cs`, as `upsert_one` says.
fn upsert_config(cs: &mut Vec<DeckConfig>, c: DeckConfig, next: &mut i64, now: i64, usn: i32) -> (id: DeckConfigId)
    requires
        configs_wf(old(cs)@, *old(next) as int),
        *old(next) < i64::MAX,
    ensures
        (final(cs)@, *final(next) as int, id) == upsert_one(old(cs)@, c, *old(next) as int, now, usn),
{
    let mut i: usize = 0;
    while i < cs.len()
        invariant
            i <= cs@.len(),
            cs@ == old(cs)@,
            configs_wf(cs@, *next as int),
            *next == *old(next),
            forall|j: int| 0 <= j < i ==> cs@[j].id != c.id,
        decreases cs@.len() - i,
    {
        if cs[i].id == c.id {
            proof {
                let k = config_index(cs@, c.id);
                assert(0 <= k < cs@.len() && cs@[k].id == c.id);
                if k != i {
                    if k < i {
                        assert(cs@[k].id != cs@[i as int].id);
                    } else {
                        assert(cs@[i as int].id != cs@[k].id);
                    }
                }
            }
            let id = c.id;
            cs.set(i, DeckConfig { id: c.id, name: c.name, mtime: now, usn, inner: c.inner });
            return id;
        }
        i = i + 1;
    }
    let id = DeckConfigId(*next);
    cs.push(DeckConfig { id, name: c.name, mtime: now, usn, inner: c.inner });
    *next = *next + 1;
    id
}

/// Whether `ids` holds `id`.
fn contains_config_id(ids: &Vec<DeckConfigId>, id: DeckConfigId) -> (r: bool)
    ensures
        r == ids@.contains(id),
{
    let mut i: usize = 0;
    while i < ids.len()
        invariant
            i <= ids@.len(),
            forall|j: int| 0 <= j < i ==> ids@[j] != id,
        decreases ids@.len() - i,
    {
        if ids[i] == id {
            return true;
        }
        i = i + 1;
    }
    false
}

/// Whether deck `d` lies in the subtree of `target`.
fn deck_in_subtree(d: &Deck, target: DeckId, children: bool) -> (r: bool)
    ensures
        r == in_subtree(*d, target, children),
{
    if d.id == target {
        return true;
    }
    if !children {
        return false;
    }
    let mut i: usize = 0;
    while i < d.ancestors.len()
        invariant
            i <= d.ancestors@.len(),
            children,
            forall|j: int| 0 <= j < i ==> d.ancestors@[j] != target,
        decreases d.ancestors@.len() - i,
    {
        if d.ancestors[i] == target {
            assert(d.ancestors@[i as int] == target);
            assert(d.ancestors@.contains(target));
            return true;
        }
        i = i + 1;
    }
    false
}

/// Whether some deck of `decks` uses configuration `id`.
fn config_used(decks: &Vec<Deck>, id: DeckConfigId) -> (r: bool)
    ensures
        r == config_in_use(decks@, id),
{
    let mut i: usize = 0;
    while i < decks.len()
        invariant
            i <= decks@.len(),
            forall|j: int| 0 <= j < i ==> decks@[j].config_id != id,
        decreases decks@.len() - i,
    {
        if decks[i].config_id == id {
            assert(decks@[i as int].config_id == id);
            return true;
        }
        i = i + 1;
    }
    false
}

impl Collection {
    /// A copy of the configuration `id`, or of the default configuration
    /// when there is none with that id.
    pub fn get_deck_config(&self, id: DeckConfigId) -> (r: Result<DeckConfig, AnkiError>)
        requires
            self.wf(),
        ensures
            r is Ok,
            self.has_config(id) ==> exists|i: int| 0 <= i < self.deck_configs@.len() && self.deck_configs@[i]
                == r->Ok_0 && r->Ok_0.id == id,
            !self.has_config(id) ==> exists|i: int| 0 <= i < self.deck_configs@.len() && self.deck_configs@[i]
                == r->Ok_0 && r->Ok_0.id == DeckConfigId(DEFAULT_DECK_CONFIG_ID),
    {
        match self.find_config(id) {
            Some(i) => Ok(self.deck_configs[i].copy()),
            None => match self.find_config(DeckConfigId(DEFAULT_DECK_CONFIG_ID)) {
                Some(i) => Ok(self.deck_configs[i].copy()),
                None => Err(AnkiError::NotFound { entity: Entity::DeckConfig, id: DEFAULT_DECK_CONFIG_ID }),
            },
        }
    }

    /// Every configuration, and the one that deck `did` uses.
    pub fn get_deck_configs_for_update(&self, did: DeckId) -> (r: Result<(Vec<DeckConfig>, DeckConfigId), AnkiError>)
        ensures
            match r {
                Ok((cs, cur)) => cs@ == self.deck_configs@ && exists|i: int| 0 <= i < self.decks@.len()
                    && self.decks@[i].id == did && self.decks@[i].config_id == cur,
                Err(e) => !self.has_deck(did) && e == AnkiError::NotFound { entity: Entity::Deck, id: did.0 },
            },
    {
        let di = match self.find_deck(did) {
            Some(i) => i,
            None => {
                return Err(AnkiError::NotFound { entity: Entity::Deck, id: did.0 });
            },
        };
        let mut cs: Vec<DeckConfig> = Vec::new();
        let mut i: usize = 0;
        while i < self.deck_configs.len()
            invariant
                i <= self.deck_configs@.len(),
                cs@ == self.deck_configs@.take(i as int),
            decreases self.deck_configs@.len() - i,
        {
            cs.push(self.deck_configs[i].copy());
            i = i + 1;
            assert(cs@ =~= self.deck_configs@.take(i as int));
        }
        assert(self.deck_configs@.take(i as int) =~= self.deck_configs@);
        Ok((cs, self.decks[di].config_id))
    }

    /// Removes configuration `id`. The default configuration and one that a
    /// deck still uses cannot be removed.
    pub fn remove_deck_config(&mut self, id: DeckConfigId) -> (r: Result<OpChanges, AnkiError>)
        requires
            old(self).wf(),
        ensures
            final(self).wf(),
            id.0 == DEFAULT_DECK_CONFIG_ID ==> r == Err::<OpChanges, AnkiError>(
                AnkiError::ConstraintViolation(Constraint::DefaultConfig),
            ),
            id.0 != DEFAULT_DECK_CONFIG_ID && !old(self).has_config(id) ==> r == Err::<OpChanges, AnkiError>(
                AnkiError::NotFound { entity: Entity::DeckConfig, id: id.0 },
            ),
            id.0 != DEFAULT_DECK_CONFIG_ID && old(self).has_config(id) && config_in_use(old(self).decks@, id)
                ==> r == Err::<OpChanges, AnkiError>(AnkiError::ConstraintViolation(Constraint::ConfigInUse)),
            id.0 != DEFAULT_DECK_CONFIG_ID && old(self).has_config(id) && !config_in_use(old(self).decks@, id)
                ==> r is Ok && r->Ok_0.deck_config && final(self).deck_configs@ == old(self).deck_configs@.remove(
                config_index(old(self).deck_configs@, id),
            ),
            r is Err ==> *final(self) == *old(self),
            final(self).decks == old(self).decks,
            final(self).notes == old(self).notes,
            final(self).cards == old(self).cards,
            final(self).undo == old(self).undo,
            final(self).next_id == old(self).next_id,
    {
        if id.0 == DEFAULT_DECK_CONFIG_ID {
            return Err(AnkiError::ConstraintViolation(Constraint::DefaultConfig));
        }
        let k = match self.find_config(id) {
            None => {
                return Err(AnkiError::NotFound { entity: Entity::DeckConfig, id: id.0 });
            },
            Some(k) => k,
        };
        if config_used(&self.decks, id) {
            return Err(AnkiError::ConstraintViolation(Constraint::ConfigInUse));
        }
        proof {
            let c = config_index(old(self).deck_configs@, id);
            assert(old(self).has_config(id));
            if c != k {
                if c < k {
                    assert(self.deck_configs@[c].id != self.deck_configs@[k as int].id);
                } else {
                    assert(self.deck_configs@[k as int].id != self.deck_configs@[c].id);
                }
            }
        }
        self.deck_configs.remove(k);
        proof {
            assert forall|x: DeckConfigId| x != id && has_config_id(old(self).deck_configs@, x) implies has_config_id(
                self.deck_configs@,
                x,
            ) by {
                let w = choose|w: int| 0 <= w < old(self).deck_configs@.len() && old(self).deck_configs@[w].id == x;
                if w < k {
                    assert(self.deck_configs@[w].id == x);
                } else {
                    assert(w != k);
                    assert(self.deck_configs@[w - 1].id == x);
                }
            }
            assert forall|i: int| 0 <= i < self.decks@.len() implies has_config_id(self.deck_configs@, #[trigger] self.decks@[i].config_id) by {
                assert(self.decks@[i].config_id != id) by {
                    if self.decks@[i].config_id == id {
                        assert(config_in_use(old(self).decks@, id));
                    }
                }
                assert(has_config_id(old(self).deck_configs@, self.decks@[i].config_id));
            }
            assert(has_config_id(old(self).deck_configs@, DeckConfigId(DEFAULT_DECK_CONFIG_ID)));
            assert forall|a: int, b: int| 0 <= a < b < self.deck_configs@.len() implies (#[trigger] self.deck_configs@[a]).id
                != (#[trigger] self.deck_configs@[b]).id by {
                let oa = if a < k { a } else { a + 1 };
                let ob = if b < k { b } else { b + 1 };
                assert(self.deck_configs@[a] == old(self).deck_configs@[oa]);
                assert(self.deck_configs@[b] == old(self).deck_configs@[ob]);
            }
            assert forall|a: int| 0 <= a < self.deck_configs@.len() implies (#[trigger] self.deck_configs@[a]).id.0
                < self.next_id by {
                let oa = if a < k { a } else { a + 1 };
                assert(self.deck_configs@[a] == old(self).deck_configs@[oa]);
            }
        }
        let mut changes = OpChanges::none();
        changes.deck_config = true;
        Ok(changes)
    }
}

/// Deck `d` after the subtree of `target` was pointed at configuration `sel`.
pub open spec fn reassigned(target: DeckId, children: bool, sel: DeckConfigId) -> spec_fn(Deck) -> Deck {
    |d: Deck|
        if in_subtree(d, target, children) {
            Deck { id: d.id, name: d.name, ancestors: d.ancestors, config_id: sel }
        } else {
            d
        }
}

/// A removal of `removed` that leaves `sel` assigned is blocked by a deck
/// outside the reassigned subtree, or by `sel` itself.
pub open spec fn removal_in_use(
    decks: Seq<Deck>,
    removed: Seq<DeckConfigId>,
    target: DeckId,
    children: bool,
    sel: DeckConfigId,
) -> bool {
    exists|k: int| 0 <= k < removed.len()
        && (used_outside(decks, #[trigger] removed[k], target, children) || removed[k] == sel)
}

/// Filtering keeps configuration ids unique and below the allocator.
pub proof fn lemma_filter_configs_wf(cs: Seq<DeckConfig>, p: spec_fn(DeckConfig) -> bool, next: int)
    requires
        configs_wf(cs, next),
    ensures
        configs_wf(cs.filter(p), next),
    decreases cs.len(),
{
    reveal(Seq::filter);
    if cs.len() > 0 {
        let d = cs.drop_last();
        assert(configs_wf(d, next));
        lemma_filter_configs_wf(d, p, next);
        d.filter_lemma(p);
        if p(cs.last()) {
            let f = d.filter(p);
            assert forall|i: int| 0 <= i < f.len() implies (#[trigger] f[i]).id != cs.last().id by {
                assert(f.contains(f[i]));
                d.lemma_filter_contains_rev(p, f[i]);
                let j = choose|j: int| 0 <= j < d.len() && d[j] == f[i];
                assert(cs[j] == d[j]);
                assert(cs[j].id != cs[cs.len() - 1].id);
            }
        }
    }
}

/// The configurations of `v` whose id is not in `ids`, in order.
fn retain_configs(v: Vec<DeckConfig>, ids: &Vec<DeckConfigId>) -> (r: Vec<DeckConfig>)
    ensures
        r@ == v@.filter(config_kept(ids@)),
{
    let ghost orig = v@;
    let mut v = v;
    let mut i: usize = 0;
    let ghost mut j: int = 0;
    while i < v.len()
        invariant
            0 <= j <= orig.len(),
            i == orig.take(j).filter(config_kept(ids@)).len(),
            v@ == orig.take(j).filter(config_kept(ids@)) + orig.skip(j),
        decreases v@.len() - i,
    {
        proof {
            crate::notes::lemma_filter_take_step(orig, config_kept(ids@), j);
            assert(v@[i as int] == orig[j]);
            assert(config_kept(ids@)(orig[j]) == !ids@.contains(orig[j].id));
            assert(orig.skip(j) =~= seq![orig[j]] + orig.skip(j + 1));
        }
        let ghost prefix = orig.take(j).filter(config_kept(ids@));
        if contains_config_id(ids, v[i].id) {
            v.remove(i);
            assert(v@ =~= prefix + orig.skip(j + 1));
        } else {
            i = i + 1;
            assert(v@ =~= prefix.push(orig[j]) + orig.skip(j + 1));
        }
        proof {
            j = j + 1;
        }
    }
    assert(orig.take(orig.len() as int) =~= orig);
    assert(v@ =~= orig.take(j).filter(config_kept(ids@)));
    v
}

/// Points every deck of the subtree of `target` at `sel`.
fn reassign_decks(v: Vec<Deck>, target: DeckId, children: bool, sel: DeckConfigId) -> (r: Vec<Deck>)
    ensures
        r@ == v@.map_values(reassigned(target, children, sel)),
{
    let ghost orig = v@;
    let mut v = v;
    let mut out: Vec<Deck> = Vec::new();
    while v.len() > 0
        invariant
            out@.len() + v@.len() == orig.len(),
            v@ == orig.skip(out@.len() as int),
            out@ == orig.take(out@.len() as int).map_values(reassigned(target, children, sel)),
        decreases v@.len(),
    {
        let ghost k = out@.len() as int;
        let d = v.remove(0);
        assert(d == orig[k]);
        let inside = deck_in_subtree(&d, target, children);
        if inside {
            out.push(Deck { id: d.id, name: d.name, ancestors: d.ancestors, config_id: sel });
        } else {
            out.push(d);
        }
        assert(v@ =~= orig.skip(k + 1));
        assert(out@ =~= orig.take(k + 1).map_values(reassigned(target, children, sel)));
    }
    assert(orig.take(orig.len() as int) =~= orig);
    out
}

/// Whether some id of `removed` is blocked as `removal_in_use` says.
fn find_removal_in_use(
    decks: &Vec<Deck>,
    removed: &Vec<DeckConfigId>,
    target: DeckId,
    children: bool,
    sel: DeckConfigId,
) -> (r: bool)
    ensures
        r == removal_in_use(decks@, removed@, target, children, sel),
{
    let mut k: usize = 0;
    while k < removed.len()
        invariant
            k <= removed@.len(),
            forall|q: int| 0 <= q < k ==> !used_outside(decks@, #[trigger] removed@[q], target, children)
                && removed@[q] != sel,
        decreases removed@.len() - k,
    {
        let rid = removed[k];
        if rid == sel {
            return true;
        }
        let mut i: usize = 0;
        while i < decks.len()
            invariant
                i <= decks@.len(),
                k < removed@.len(),
                rid == removed@[k as int],
                forall|j: int| 0 <= j < i ==> !((#[trigger] decks@[j]).config_id == rid && !in_subtree(decks@[j], target, children)),
            decreases decks@.len() - i,
        {
            if decks[i].config_id == rid && !deck_in_subtree(&decks[i], target, children) {
                assert(used_outside(decks@, rid, target, children)) by {
                    assert(decks@[i as int].config_id == rid);
                }
                return true;
            }
            i = i + 1;
        }
        k = k + 1;
    }
    false
}

/// Whether `ids` holds the default configuration's id.
fn removes_default(ids: &Vec<DeckConfigId>) -> (r: bool)
    ensures
        r == ids@.contains(DeckConfigId(DEFAULT_DECK_CONFIG_ID)),
{
    contains_config_id(ids, DeckConfigId(DEFAULT_DECK_CONFIG_ID))
}

/// What an update of deck configurations reports as changed.
pub open spec fn config_update_changes() -> OpChanges {
    OpChanges {
        card: false,
        note: false,
        deck: true,
        deck_config: true,
        tag: false,
        notetype: false,
        config: false,
        browser_table: false,
        note_text: false,
        study_queues: true,
    }
}

impl Collection {
    /// Whether an update request passes every check of
    /// `update_deck_configs`, given the id the target ends up with.
    pub open spec fn update_allowed(&self, req: &UpdateDeckConfigsRequest, sel: DeckConfigId) -> bool {
        &&& req.configs@.len() > 0
        &&& self.has_deck(req.target_deck_id)
        &&& self.next_id + req.configs@.len() < i64::MAX
        &&& !req.removed_config_ids@.contains(DeckConfigId(DEFAULT_DECK_CONFIG_ID))
        &&& !removal_in_use(self.decks@, req.removed_config_ids@, req.target_deck_id, req.apply_to_children, sel)
    }

    /// Inserts or updates the request's configurations, removes the listed
    /// ones, points the target deck (and with `apply_to_children` every deck
    /// below it) at the last configuration of the request, and stores the
    /// collection-wide limits. Either all of it happens or none.
    pub fn update_deck_configs(&mut self, req: UpdateDeckConfigsRequest) -> (r: Result<OpChanges, AnkiError>)
        requires
            old(self).wf(),
        ensures
            final(self).wf(),
            ({
                let up = upsert_all(
                    old(self).deck_configs@,
                    req.configs@,
                    old(self).next_id as int,
                    old(self).now,
                    old(self).usn,
                );
                let target = req.target_deck_id;
                &&& req.configs@.len() == 0 ==> r == Err::<OpChanges, AnkiError>(
                    AnkiError::InvalidInput(InvalidReason::NoConfigs),
                )
                &&& req.configs@.len() > 0 && !old(self).has_deck(target) ==> r == Err::<OpChanges, AnkiError>(
                    AnkiError::NotFound { entity: Entity::Deck, id: target.0 },
                )
                &&& req.configs@.len() > 0 && old(self).has_deck(target) && old(self).next_id
                    + req.configs@.len() >= i64::MAX ==> r == Err::<OpChanges, AnkiError>(AnkiError::StorageFailure)
                &&& req.configs@.len() > 0 && old(self).has_deck(target) && old(self).next_id
                    + req.configs@.len() < i64::MAX && req.removed_config_ids@.contains(
                    DeckConfigId(DEFAULT_DECK_CONFIG_ID),
                ) ==> r == Err::<OpChanges, AnkiError>(AnkiError::ConstraintViolation(Constraint::DefaultConfig))
                &&& req.configs@.len() > 0 && old(self).has_deck(target) && old(self).next_id
                    + req.configs@.len() < i64::MAX && !req.removed_config_ids@.contains(
                    DeckConfigId(DEFAULT_DECK_CONFIG_ID),
                ) && removal_in_use(old(self).decks@, req.removed_config_ids@, target, req.apply_to_children, up.2)
                    ==> r == Err::<OpChanges, AnkiError>(AnkiError::ConstraintViolation(Constraint::ConfigInUse))
                &&& old(self).update_allowed(&req, up.2) ==> {
                    &&& r == Ok::<OpChanges, AnkiError>(config_update_changes())
                    &&& final(self).deck_configs@ == up.0.filter(config_kept(req.removed_config_ids@))
                    &&& final(self).next_id == up.1
                    &&& final(self).decks@ == old(self).decks@.map_values(
                        reassigned(target, req.apply_to_children, up.2),
                    )
                    &&& final(self).settings.limits == req.limits
                    &&& final(self).settings.new_cards_ignore_review_limit == req.new_cards_ignore_review_limit
                    &&& final(self).settings.card_state_customizer == req.card_state_customizer
                    &&& final(self).undo@ == pushed_journal(
                        old(self).undo@,
                        UndoEntry {
                            op: UndoableOp::UpdateDeckConfig,
                            changes: config_update_changes(),
                            usn: old(self).usn,
                        },
                    )
                }
                &&& !old(self).update_allowed(&req, up.2) ==> r is Err
                &&& r is Err ==> *final(self) == *old(self)
            }),
            final(self).notes == old(self).notes,
            final(self).cards == old(self).cards,
            final(self).notetypes == old(self).notetypes,
            final(self).media == old(self).media,
    {
        let ghost up = upsert_all(
            old(self).deck_configs@,
            req.configs@,
            old(self).next_id as int,
            old(self).now,
            old(self).usn,
        );
        let n = req.configs.len();
        if n == 0 {
            return Err(AnkiError::InvalidInput(InvalidReason::NoConfigs));
        }
        let target = req.target_deck_id;
        if self.find_deck(target).is_none() {
            return Err(AnkiError::NotFound { entity: Entity::Deck, id: target.0 });
        }
        if n as u64 >= (i64::MAX - self.next_id) as u64 {
            return Err(AnkiError::StorageFailure);
        }
        if removes_default(&req.removed_config_ids) {
            return Err(AnkiError::ConstraintViolation(Constraint::DefaultConfig));
        }
        let mut work: Vec<DeckConfig> = Vec::new();
        let mut i: usize = 0;
        while i < self.deck_configs.len()
            invariant
                i <= self.deck_configs@.len(),
                work@ == self.deck_configs@.take(i as int),
            decreases self.deck_configs@.len() - i,
        {
            work.push(self.deck_configs[i].copy());
            i = i + 1;
            assert(work@ =~= self.deck_configs@.take(i as int));
        }
        assert(self.deck_configs@.take(i as int) =~= self.deck_configs@);
        assert(configs_wf(old(self).deck_configs@, old(self).next_id as int));
        let mut next = self.next_id;
        let mut sel = DeckConfigId(DEFAULT_DECK_CONFIG_ID);
        let mut k: usize = 0;
        while k < n
            invariant
                n == req.configs@.len(),
                k <= n,
                old(self).next_id + n < i64::MAX,
                1 < old(self).next_id,
                configs_wf(old(self).deck_configs@, old(self).next_id as int),
                configs_wf(work@, next as int),
                old(self).next_id <= next <= old(self).next_id + k,
                (work@, next as int, sel) == upsert_all(
                    old(self).deck_configs@,
                    req.configs@.take(k as int),
                    old(self).next_id as int,
                    old(self).now,
                    old(self).usn,
                ),
            decreases n - k,
        {
            assert(req.configs@.take(k + 1).drop_last() =~= req.configs@.take(k as int));
            sel = upsert_config(&mut work, req.configs[k].copy(), &mut next, self.now, self.usn);
            proof {
                lemma_upsert_all_wf(
                    old(self).deck_configs@,
                    req.configs@.take(k + 1),
                    old(self).next_id as int,
                    old(self).now,
                    old(self).usn,
                );
            }
            k = k + 1;
        }
        assert(req.configs@.take(n as int) =~= req.configs@);
        if find_removal_in_use(&self.decks, &req.removed_config_ids, target, req.apply_to_children, sel) {
            return Err(AnkiError::ConstraintViolation(Constraint::ConfigInUse));
        }
        let kept = retain_configs(work, &req.removed_config_ids);
        proof {
            lemma_filter_configs_wf(work@, config_kept(req.removed_config_ids@), next as int);
        }
        self.deck_configs = kept;
        self.next_id = next;
        let mut decks: Vec<Deck> = Vec::new();
        std::mem::swap(&mut decks, &mut self.decks);
        self.decks = reassign_decks(decks, target, req.apply_to_children, sel);
        proof {
            assert forall|a: int| 0 <= a < self.decks@.len() implies (#[trigger] self.decks@[a]).id == old(self).decks@[a].id by {}
        }
        self.settings.limits = req.limits;
        self.settings.new_cards_ignore_review_limit = req.new_cards_ignore_review_limit;
        self.settings.card_state_customizer = req.card_state_customizer;
        let mut changes = OpChanges::none();
        changes.deck = true;
        changes.deck_config = true;
        changes.study_queues = true;
        proof {
            let removed = req.removed_config_ids@;
            lemma_upsert_all_keeps(old(self).deck_configs@, req.configs@, old(self).next_id as int, old(self).now, old(self).usn, DeckConfigId(DEFAULT_DECK_CONFIG_ID));
            assert(has_config_id(old(self).deck_configs@, DeckConfigId(DEFAULT_DECK_CONFIG_ID)));
            lemma_kept_after_removal(work@, removed, DeckConfigId(DEFAULT_DECK_CONFIG_ID));
            assert(!removed.contains(sel)) by {
                if removed.contains(sel) {
                    let q = choose|q: int| 0 <= q < removed.len() && removed[q] == sel;
                    assert(removal_in_use(old(self).decks@, removed, target, req.apply_to_children, sel));
                }
            }
            lemma_kept_after_removal(work@, removed, sel);
            assert forall|i: int| 0 <= i < self.decks@.len() implies has_config_id(self.deck_configs@, #[trigger] self.decks@[i].config_id) by {
                let d = old(self).decks@[i];
                if !in_subtree(d, target, req.apply_to_children) {
                    let c = d.config_id;
                    assert(self.decks@[i].config_id == c);
                    assert(has_config_id(old(self).deck_configs@, c));
                    lemma_upsert_all_keeps(old(self).deck_configs@, req.configs@, old(self).next_id as int, old(self).now, old(self).usn, c);
                    assert(!removed.contains(c)) by {
                        if removed.contains(c) {
                            let q = choose|q: int| 0 <= q < removed.len() && removed[q] == c;
                            assert(used_outside(old(self).decks@, removed[q], target, req.apply_to_children));
                        }
                    }
                    lemma_kept_after_removal(work@, removed, c);
                }
            }
        }
        self.record_undo(UndoableOp::UpdateDeckConfig, changes);
        Ok(changes)
    }
}

impl Collection {
    /// Inserts `conf` as a new configuration, or updates the one with its
    /// id, stamping it with the current time and usn; returns its id. No
    /// undo step is recorded.
    pub fn add_or_update_deck_config_legacy(&mut self, conf: DeckConfig) -> (r: Result<DeckConfigId, AnkiError>)
        requires
            old(self).wf(),
        ensures
            final(self).wf(),
            old(self).next_id + 1 >= i64::MAX ==> r == Err::<DeckConfigId, AnkiError>(AnkiError::StorageFailure)
                && final(self).deck_configs == old(self).deck_configs,
            old(self).next_id + 1 < i64::MAX ==> r is Ok && (final(self).deck_configs@, final(self).next_id as int, r->Ok_0)
                == upsert_one(old(self).deck_configs@, conf, old(self).next_id as int, old(self).now, old(self).usn),
            final(self).decks == old(self).decks,
            final(self).notes == old(self).notes,
            final(self).cards == old(self).cards,
            final(self).undo == old(self).undo,
    {
        if self.next_id >= i64::MAX - 1 {
            return Err(AnkiError::StorageFailure);
        }
        assert(configs_wf(self.deck_configs@, self.next_id as int));
        let mut configs: Vec<DeckConfig> = Vec::new();
        std::mem::swap(&mut configs, &mut self.deck_configs);
        let mut next = self.next_id;
        let id = upsert_config(&mut configs, conf, &mut next, self.now, self.usn);
        proof {
            lemma_upsert_all_wf(old(self).deck_configs@, seq![conf], old(self).next_id as int, old(self).now, old(self).usn);
            assert(seq![conf].drop_last() =~= Seq::<DeckConfig>::empty());
        }
        proof {
            let up = upsert_one(old(self).deck_configs@, conf, old(self).next_id as int, old(self).now, old(self).usn);
            assert(seq![conf].drop_last() =~= Seq::<DeckConfig>::empty());
            assert(seq![conf].last() == conf);
            let e = upsert_all(old(self).deck_configs@, Seq::<DeckConfig>::empty(), old(self).next_id as int, old(self).now, old(self).usn);
            assert(e == (old(self).deck_configs@, old(self).next_id as int, DeckConfigId(DEFAULT_DECK_CONFIG_ID)));
            assert(upsert_all(old(self).deck_configs@, seq![conf], old(self).next_id as int, old(self).now, old(self).usn) == up);
            assert forall|x: DeckConfigId| has_config_id(old(self).deck_configs@, x) implies has_config_id(configs@, x) by {
                lemma_upsert_all_keeps(old(self).deck_configs@, seq![conf], old(self).next_id as int, old(self).now, old(self).usn, x);
            }
            assert(has_config_id(old(self).deck_configs@, DeckConfigId(DEFAULT_DECK_CONFIG_ID)));
            assert forall|i: int| 0 <= i < self.decks@.len() implies has_config_id(configs@, #[trigger] self.decks@[i].config_id) by {
                assert(has_config_id(old(self).deck_configs@, self.decks@[i].config_id));
            }
        }
        self.deck_configs = configs;
        self.next_id = next;
        Ok(id)
    }
}

/// With `apply_to_children`, an update points the target deck and every
/// deck below it, at any depth, at the selected configuration, and leaves
/// every other deck as it was.
pub proof fn lemma_apply_to_children(decks: Seq<Deck>, target: DeckId, sel: DeckConfigId)
    ensures
        forall|i: int| 0 <= i < decks.len() ==> {
            let d = #[trigger] decks.map_values(reassigned(target, true, sel))[i];
            &&& d.id == decks[i].id
            &&& (decks[i].id == target || decks[i].ancestors@.contains(target)) ==> d.config_id == sel
            &&& !(decks[i].id == target || decks[i].ancestors@.contains(target)) ==> d == decks[i]
        },
{
}

} // verus!
