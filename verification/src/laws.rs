//! What holds of saving and loading taken together.

use vstd::prelude::*;
use crate::snapshot::{
    accounts_for, captures_entities, dec_snapshot, effect_of, enc_snapshot, entity_changes,
    is_merge, is_restriction, kept, lemma_kind_is_new, resource_changes, ChangeView, Effect,
    lemma_restriction_empty, lemma_restriction_unique, lemma_saved_unique,
    lemma_snapshot_round_trip, lemma_unclaimed_from, lemma_unclaimed_has, loads, loads_entities,
    merged, registry_wf, saved, saves_any, snapshot_fits, snapshot_wf, unclaimed,
    SnapshotView,
};
use crate::stage::{handled, Action, RbrbStage, Request, StageError};
use crate::table::{has_key, keys_ascend, lemma_ascending_lists_equal, lemma_lookup_at, lookup};
use crate::world::{entity_of, has_id, lemma_entity_of, world_wf, EntityView, WorldView};

verus! {

/// The bytes that saving writes are read back as the snapshot that was
/// written.
pub proof fn law_saved_bytes_decode(
    w: WorldView,
    s: SnapshotView,
    components: Seq<(Seq<char>, Seq<char>)>,
    resources: Seq<(Seq<char>, Seq<char>)>,
)
    requires
        world_wf(w),
        saved(s, w, components, resources),
        snapshot_fits(s),
    ensures
        dec_snapshot(enc_snapshot(s)) == Some(s),
{
    assert(snapshot_wf(s));
    lemma_snapshot_round_trip(s);
}

/// Where loading put the bucket at position `i` of the snapshot: into the
/// entity that had its identifier, or into a new one after the entities that
/// were there.
pub proof fn lemma_bucket_landed(
    w: WorldView,
    s: Seq<(Seq<char>, Seq<(Seq<char>, Seq<u8>)>)>,
    reg: Seq<(Seq<char>, Seq<char>)>,
    out: WorldView,
    i: int,
) -> (x: int)
    requires
        world_wf(w),
        keys_ascend(s),
        loads_entities(w, s, reg, out),
        0 <= i < s.len(),
    ensures
        0 <= x < out.entities.len(),
        out.entities[x].id == Some(s[i].0),
        has_id(w, s[i].0) ==> x == entity_of(w, s[i].0) && is_merge(
            out.entities[x].items,
            w.entities[x].items,
            s[i].1,
            reg,
        ),
        !has_id(w, s[i].0) ==> x >= w.entities.len() && is_merge(
            out.entities[x].items,
            Seq::empty(),
            s[i].1,
            reg,
        ),
{
    let id = s[i].0;
    lemma_lookup_at(s, i);
    if has_id(w, id) {
        let x = entity_of(w, id);
        assert(out.entities[x].id == w.entities[x].id);
        x
    } else {
        let t = lemma_unclaimed_has(w, s, i);
        let x = w.entities.len() + t;
        assert(out.entities[x].id == Some(unclaimed(w, s)[t].0));
        x
    }
}

/// Loading a snapshot of one world into another makes the other agree with
/// the first on all that was saved: each saved identifier is held by an
/// entity whose items of registered kinds are those of its entity in the
/// first world; no entity holds an identifier that was not saved; and the
/// global items of registered kinds are those of the first world.
pub proof fn law_load_restores_what_was_saved(
    w: WorldView,
    target: WorldView,
    s: SnapshotView,
    components: Seq<(Seq<char>, Seq<char>)>,
    resources: Seq<(Seq<char>, Seq<char>)>,
    out: WorldView,
)
    requires
        world_wf(w),
        world_wf(target),
        world_wf(out),
        saved(s, w, components, resources),
        accounts_for(s.entities, target),
        loads(target, s, components, resources, out),
    ensures
        forall|i: int|
            0 <= i < s.entities.len() ==> has_id(out, (#[trigger] s.entities[i]).0) && has_id(
                w,
                s.entities[i].0,
            ),
        forall|i: int, k: Seq<char>|
            0 <= i < s.entities.len() && has_key(components, k) ==> #[trigger] lookup(
                out.entities[entity_of(out, (#[trigger] s.entities[i]).0)].items,
                k,
            ) == lookup(w.entities[entity_of(w, s.entities[i].0)].items, k),
        forall|x: int|
            0 <= x < out.entities.len() && (#[trigger] out.entities[x]).id is Some ==> has_key(
                s.entities,
                out.entities[x].id->0,
            ),
        forall|k: Seq<char>|
            has_key(resources, k) ==> #[trigger] lookup(out.globals, k) == lookup(w.globals, k),
{
    let mid = WorldView { globals: target.globals, ..out };
    assert forall|i: int| 0 <= i < s.entities.len() implies has_id(
        out,
        (#[trigger] s.entities[i]).0,
    ) && has_id(w, s.entities[i].0) by {
        let x = lemma_bucket_landed(target, s.entities, components, mid, i);
        assert(out.entities[x].id == Some(s.entities[i].0));
    }
    assert forall|i: int, k: Seq<char>|
        0 <= i < s.entities.len() && has_key(components, k) implies #[trigger] lookup(
        out.entities[entity_of(out, (#[trigger] s.entities[i]).0)].items,
        k,
    ) == lookup(w.entities[entity_of(w, s.entities[i].0)].items, k) by {
        let x = lemma_bucket_landed(target, s.entities, components, mid, i);
        lemma_entity_of(out, x);
        let from = if has_id(target, s.entities[i].0) {
            target.entities[x].items
        } else {
            Seq::empty()
        };
        assert(lookup(out.entities[x].items, k) == merged(from, s.entities[i].1, components, k));
        assert(lookup(s.entities[i].1, k) == kept(
            w.entities[entity_of(w, s.entities[i].0)].items,
            components,
            k,
        ));
    }
    assert forall|x: int|
        0 <= x < out.entities.len() && (#[trigger] out.entities[x]).id is Some implies has_key(
        s.entities,
        out.entities[x].id->0,
    ) by {
        if x < target.entities.len() {
            assert(mid.entities[x].id == target.entities[x].id);
        } else {
            let t = x - target.entities.len();
            assert(mid.entities[target.entities.len() + t].id == Some(
                unclaimed(target, s.entities)[t].0,
            ));
            let i = lemma_unclaimed_from(target, s.entities, t);
        }
    }
    assert forall|k: Seq<char>| has_key(resources, k) implies #[trigger] lookup(out.globals, k)
        == lookup(w.globals, k) by {
        assert(lookup(out.globals, k) == merged(target.globals, s.globals, resources, k));
        assert(lookup(s.globals, k) == kept(w.globals, resources, k));
    }
}

/// Where every bucket's identifier is live, no bucket is unclaimed.
proof fn lemma_all_claimed(w: WorldView, s: Seq<(Seq<char>, Seq<(Seq<char>, Seq<u8>)>)>)
    requires
        forall|i: int| 0 <= i < s.len() ==> has_id(w, (#[trigger] s[i]).0),
    ensures
        unclaimed(w, s).len() == 0,
    decreases s.len(),
{
    if s.len() > 0 {
        let init = s.drop_last();
        assert forall|i: int| 0 <= i < init.len() implies has_id(w, (#[trigger] init[i]).0) by {
            assert(init[i] == s[i]);
        }
        lemma_all_claimed(w, init);
        assert(has_id(w, s.last().0)) by {
            assert(s.last() == s[s.len() - 1]);
        }
    }
}

/// Loading the snapshot of a world into that world changes nothing, where
/// every entity with an identifier has an item of a registered kind.
pub proof fn law_load_of_own_snapshot_changes_nothing(
    w: WorldView,
    s: SnapshotView,
    components: Seq<(Seq<char>, Seq<char>)>,
    resources: Seq<(Seq<char>, Seq<char>)>,
    out: WorldView,
)
    requires
        world_wf(w),
        saved(s, w, components, resources),
        accounts_for(s.entities, w),
        loads(w, s, components, resources, out),
    ensures
        out == w,
{
    let mid = WorldView { globals: w.globals, ..out };
    lemma_all_claimed(w, s.entities);
    assert forall|e: int| 0 <= e < w.entities.len() implies out.entities[e] == w.entities[e] by {
        assert(mid.entities[e].id == w.entities[e].id);
        match w.entities[e].id {
            Some(id) => {
                lemma_entity_of(w, e);
                assert(has_key(s.entities, w.entities[e].id->0));
                let i = choose|i: int|
                    0 <= i < s.entities.len() && (#[trigger] s.entities[i]).0 == id;
                lemma_lookup_at(s.entities, i);
                let b = s.entities[i].1;
                let items = w.entities[e].items;
                assert(is_restriction(b, items, components));
                assert forall|k: Seq<char>| lookup(out.entities[e].items, k) == lookup(
                    items,
                    k,
                ) by {
                    assert(lookup(out.entities[e].items, k) == merged(items, b, components, k));
                    assert(lookup(b, k) == kept(items, components, k));
                }
                lemma_ascending_lists_equal(out.entities[e].items, items);
            },
            None => {},
        }
    }
    assert(out.entities =~= w.entities);
    assert forall|k: Seq<char>| lookup(out.globals, k) == lookup(w.globals, k) by {
        assert(lookup(out.globals, k) == merged(w.globals, s.globals, resources, k));
        assert(lookup(s.globals, k) == kept(w.globals, resources, k));
    }
    lemma_ascending_lists_equal(out.globals, w.globals);
}

/// Two worlds hold the same: the same identifiers, each with the same
/// items, and the same global items. The order of their entities, and their
/// entities without identifier, may differ.
pub open spec fn same_content(a: WorldView, b: WorldView) -> bool {
    &&& a.globals == b.globals
    &&& forall|id: Seq<char>| has_id(a, id) == has_id(b, id)
    &&& forall|id: Seq<char>|
        has_id(a, id) ==> a.entities[entity_of(a, id)].items == b.entities[entity_of(b, id)].items
}

/// A snapshot of a world is a snapshot of any world that holds the same.
proof fn lemma_saved_of_same_content(
    a: WorldView,
    b: WorldView,
    s: SnapshotView,
    components: Seq<(Seq<char>, Seq<char>)>,
    resources: Seq<(Seq<char>, Seq<char>)>,
)
    requires
        world_wf(a),
        world_wf(b),
        same_content(a, b),
        saved(s, a, components, resources),
    ensures
        saved(s, b, components, resources),
{
    assert forall|i: int| 0 <= i < s.entities.len() implies {
        &&& has_id(b, (#[trigger] s.entities[i]).0)
        &&& entity_of(b, s.entities[i].0) < b.entities.len()
        &&& s.entities[i].1.len() > 0
        &&& is_restriction(
            s.entities[i].1,
            b.entities[entity_of(b, s.entities[i].0)].items,
            components,
        )
    } by {
        let id = s.entities[i].0;
        assert(has_id(a, id) == has_id(b, id));
    }
    assert forall|e: int|
        0 <= e < b.entities.len() && (#[trigger] b.entities[e]).id is Some && saves_any(
            b.entities[e].items,
            components,
        ) implies has_key(s.entities, b.entities[e].id->0) by {
        let id = b.entities[e].id->0;
        lemma_entity_of(b, e);
        assert(has_id(a, id) == has_id(b, id));
        let x = entity_of(a, id);
        assert(a.entities[x].id == Some(id));
    }
}

/// Saving writes the same bytes for worlds that hold the same, whatever the
/// order of their entities.
pub proof fn law_save_ignores_entity_order(
    a: WorldView,
    b: WorldView,
    sa: SnapshotView,
    sb: SnapshotView,
    components: Seq<(Seq<char>, Seq<char>)>,
    resources: Seq<(Seq<char>, Seq<char>)>,
)
    requires
        world_wf(a),
        world_wf(b),
        same_content(a, b),
        saved(sa, a, components, resources),
        saved(sb, b, components, resources),
    ensures
        sa == sb,
        enc_snapshot(sa) == enc_snapshot(sb),
{
    lemma_saved_of_same_content(a, b, sa, components, resources);
    lemma_saved_unique(sa, sb, b, components, resources);
}

/// Loading spawns one entity for a bucket whose identifier no entity has:
/// after it exactly one entity has the identifier, it is none of those that
/// were there, and its items are the bucket's items of registered kinds.
pub proof fn law_load_spawns_missing_entity(
    w: WorldView,
    s: SnapshotView,
    components: Seq<(Seq<char>, Seq<char>)>,
    resources: Seq<(Seq<char>, Seq<char>)>,
    out: WorldView,
    i: int,
)
    requires
        world_wf(w),
        world_wf(out),
        snapshot_wf(s),
        loads(w, s, components, resources, out),
        0 <= i < s.entities.len(),
        !has_id(w, s.entities[i].0),
    ensures
        has_id(out, s.entities[i].0),
        entity_of(out, s.entities[i].0) >= w.entities.len(),
        forall|x: int|
            0 <= x < out.entities.len() && (#[trigger] out.entities[x]).id == Some(
                s.entities[i].0,
            ) ==> x == entity_of(out, s.entities[i].0),
        forall|k: Seq<char>|
            #[trigger] lookup(out.entities[entity_of(out, s.entities[i].0)].items, k) == kept(
                s.entities[i].1,
                components,
                k,
            ),
{
    let mid = WorldView { globals: w.globals, ..out };
    let x = lemma_bucket_landed(w, s.entities, components, mid, i);
    assert(out.entities[x].id == Some(s.entities[i].0));
    lemma_entity_of(out, x);
    assert forall|k: Seq<char>| #[trigger]
        lookup(out.entities[x].items, k) == kept(s.entities[i].1, components, k) by {
        assert(lookup(out.entities[x].items, k) == merged(
            Seq::<(Seq<char>, Seq<u8>)>::empty(),
            s.entities[i].1,
            components,
            k,
        ));
        assert(!has_key(Seq::<(Seq<char>, Seq<u8>)>::empty(), k));
    }
}

/// What loading leaves under a kind follows from whether an item of the kind
/// was live and whether one was loaded: a loaded item is there afterwards,
/// a live item without a loaded one is gone, and a kind that is not
/// registered keeps what it had.
pub proof fn law_merge_follows_effect(
    m: Seq<(Seq<char>, Seq<u8>)>,
    items: Seq<(Seq<char>, Seq<u8>)>,
    bucket: Seq<(Seq<char>, Seq<u8>)>,
    reg: Seq<(Seq<char>, Seq<char>)>,
    k: Seq<char>,
)
    requires
        is_merge(m, items, bucket, reg),
    ensures
        has_key(reg, k) ==> match effect_of(has_key(items, k), has_key(bucket, k)) {
            Effect::Apply => lookup(m, k) == lookup(bucket, k) && lookup(m, k) is Some,
            Effect::Add => lookup(m, k) == lookup(bucket, k) && lookup(m, k) is Some,
            Effect::Remove => lookup(m, k) is None,
            Effect::Nothing => lookup(m, k) is None,
        },
        !has_key(reg, k) ==> lookup(m, k) == lookup(items, k),
{
    assert(lookup(m, k) == merged(items, bucket, reg, k));
}

/// The change that loading records for one registered kind of an entity is
/// the one that [`effect_of`] names, and none where it names none.
pub proof fn law_entity_change_follows_effect(
    entity: int,
    items: Seq<(Seq<char>, Seq<u8>)>,
    bucket: Seq<(Seq<char>, Seq<u8>)>,
    reg: Seq<(Seq<char>, Seq<char>)>,
    r: int,
)
    requires
        keys_ascend(reg),
        0 <= r < reg.len(),
    ensures
        entity_changes(entity, items, bucket, reg.take(r + 1)) == entity_changes(
            entity,
            items,
            bucket,
            reg.take(r),
        ) + match effect_of(has_key(items, reg[r].0), has_key(bucket, reg[r].0)) {
            Effect::Apply => seq![
                ChangeView::Apply { entity, kind: reg[r].0, value: lookup(bucket, reg[r].0)->0 },
            ],
            Effect::Add => seq![
                ChangeView::Add { entity, kind: reg[r].0, value: lookup(bucket, reg[r].0)->0 },
            ],
            Effect::Remove => seq![ChangeView::Remove { entity, kind: reg[r].0 }],
            Effect::Nothing => Seq::empty(),
        },
{
    lemma_kind_is_new(reg, r);
    let before = entity_changes(entity, items, bucket, reg.take(r));
    let after = entity_changes(entity, items, bucket, reg.take(r + 1));
    match effect_of(has_key(items, reg[r].0), has_key(bucket, reg[r].0)) {
        Effect::Apply => {
            assert(after =~= before + seq![
                ChangeView::Apply { entity, kind: reg[r].0, value: lookup(bucket, reg[r].0)->0 },
            ]);
        },
        Effect::Add => {
            assert(after =~= before + seq![
                ChangeView::Add { entity, kind: reg[r].0, value: lookup(bucket, reg[r].0)->0 },
            ]);
        },
        Effect::Remove => {
            assert(after =~= before + seq![ChangeView::Remove { entity, kind: reg[r].0 }]);
        },
        Effect::Nothing => {
            assert(after =~= before + Seq::<ChangeView>::empty());
        },
    }
}

/// The change that loading records for one registered kind of global item
/// is the one that [`effect_of`] names, and none where it names none.
pub proof fn law_resource_change_follows_effect(
    globals: Seq<(Seq<char>, Seq<u8>)>,
    loaded: Seq<(Seq<char>, Seq<u8>)>,
    reg: Seq<(Seq<char>, Seq<char>)>,
    r: int,
)
    requires
        keys_ascend(reg),
        0 <= r < reg.len(),
    ensures
        resource_changes(globals, loaded, reg.take(r + 1)) == resource_changes(
            globals,
            loaded,
            reg.take(r),
        ) + match effect_of(has_key(globals, reg[r].0), has_key(loaded, reg[r].0)) {
            Effect::Apply => seq![
                ChangeView::ApplyResource { kind: reg[r].0, value: lookup(loaded, reg[r].0)->0 },
            ],
            Effect::Add => seq![
                ChangeView::AddResource { kind: reg[r].0, value: lookup(loaded, reg[r].0)->0 },
            ],
            Effect::Remove => seq![ChangeView::RemoveResource { kind: reg[r].0 }],
            Effect::Nothing => Seq::empty(),
        },
{
    lemma_kind_is_new(reg, r);
    let before = resource_changes(globals, loaded, reg.take(r));
    let after = resource_changes(globals, loaded, reg.take(r + 1));
    match effect_of(has_key(globals, reg[r].0), has_key(loaded, reg[r].0)) {
        Effect::Apply => {
            assert(after =~= before + seq![
                ChangeView::ApplyResource { kind: reg[r].0, value: lookup(loaded, reg[r].0)->0 },
            ]);
        },
        Effect::Add => {
            assert(after =~= before + seq![
                ChangeView::AddResource { kind: reg[r].0, value: lookup(loaded, reg[r].0)->0 },
            ]);
        },
        Effect::Remove => {
            assert(after =~= before + seq![ChangeView::RemoveResource { kind: reg[r].0 }]);
        },
        Effect::Nothing => {
            assert(after =~= before + Seq::<ChangeView>::empty());
        },
    }
}

/// When a tick is over, nothing of what was put into the world for it is
/// left, and all else is as the tick left it.
pub proof fn law_tick_leaves_nothing(w: WorldView, after: WorldView)
    requires
        after == (WorldView { tick: None, ..w }),
    ensures
        after.tick is None,
        after.entities == w.entities,
        after.globals == w.globals,
{
}

/// A request of a kind that the stage does not know is an error, and
/// changes neither the world nor the buffer.
pub proof fn law_unknown_request_fails(
    stage: RbrbStage,
    kind: String,
    w: WorldView,
    b: Seq<u8>,
    w2: WorldView,
    b2: Seq<u8>,
    result: Result<Action, StageError>,
)
    requires
        handled(stage, Request::Other(kind), w, b, w2, b2, result),
    ensures
        result is Err,
        result->Err_0 is Unhandled,
        w2 == w,
        b2 == b,
{
}

} // verus!
