use arctic::len::Bit;
use arctic::write::remove_step;
use arctic::write::update_step;
use arctic::write::upsert_step;
use arctic::write::Found;
use arctic::write::Froze;
use arctic::write::Probe;
use arctic::write::RemoveAction;
use arctic::write::RemoveEvent;
use arctic::write::Seen;
use arctic::write::UpdateAction;
use arctic::write::UpdateEvent;
use arctic::write::UpsertAction;
use arctic::write::UpsertEvent;

#[test]
fn update_retries_a_lost_exchange() {
    let mut a = UpdateAction::Traverse;
    a = update_step(a, UpdateEvent::Traversed(Found::Value(5)));
    assert_eq!(a, UpdateAction::Ask(5));
    a = update_step(a, UpdateEvent::Chose(Some(7)));
    assert_eq!(a, UpdateAction::Exchange(5, 7));
    a = update_step(a, UpdateEvent::Exchanged(false));
    assert_eq!(a, UpdateAction::RestoreAndTraverse(7));
    a = update_step(a, UpdateEvent::Traversed(Found::Value(6)));
    assert_eq!(a, UpdateAction::Ask(6));
    a = update_step(a, UpdateEvent::Chose(Some(8)));
    a = update_step(a, UpdateEvent::Exchanged(true));
    assert_eq!(a, UpdateAction::Success(6, 8));
}

#[test]
fn update_ends_on_missing_decline_and_failed_freeze() {
    assert_eq!(
        update_step(UpdateAction::Traverse, UpdateEvent::Traversed(Found::Missing)),
        UpdateAction::Absent
    );
    assert_eq!(update_step(UpdateAction::Ask(3), UpdateEvent::Chose(None)), UpdateAction::Break(3));
    let a = update_step(UpdateAction::Traverse, UpdateEvent::Traversed(Found::Frozen));
    assert_eq!(a, UpdateAction::Freeze);
    assert_eq!(update_step(a, UpdateEvent::Froze(Froze::Failed)), UpdateAction::Failed);
    assert_eq!(update_step(a, UpdateEvent::Froze(Froze::Unchanged)), UpdateAction::Traverse);
    assert_eq!(
        update_step(a, UpdateEvent::Froze(Froze::Retire)),
        UpdateAction::RetireAndTraverse
    );
}

#[test]
fn upsert_inserts_after_replacing_a_full_node() {
    let mut a = UpsertAction::Traverse;
    a = upsert_step(a, UpsertEvent::Traversed(Seen::Replace(false)));
    assert_eq!(a, UpsertAction::Replace);
    a = upsert_step(a, UpsertEvent::Replaced(false, true));
    assert_eq!(a, UpsertAction::FreeAndTraverse);
    a = upsert_step(a, UpsertEvent::Traversed(Seen::Replace(false)));
    a = upsert_step(a, UpsertEvent::Replaced(true, true));
    assert_eq!(a, UpsertAction::RetireAndTraverse);
    a = upsert_step(a, UpsertEvent::Traversed(Seen::Value(None)));
    assert_eq!(a, UpsertAction::Ask(None));
    a = upsert_step(a, UpsertEvent::Chose(Some(9)));
    assert_eq!(a, UpsertAction::CreatePath(None, 9));
    a = upsert_step(a, UpsertEvent::Created(true));
    assert_eq!(a, UpsertAction::Exchange(None, 9));
    a = upsert_step(a, UpsertEvent::Exchanged(true, true));
    assert_eq!(a, UpsertAction::Success(None, 9));
}

#[test]
fn upsert_gives_the_value_back_when_it_cannot_publish() {
    assert_eq!(
        upsert_step(UpsertAction::CreatePath(Some(1), 2), UpsertEvent::Created(false)),
        UpsertAction::RestoreAndFreeze(2)
    );
    assert_eq!(
        upsert_step(UpsertAction::Exchange(Some(1), 2), UpsertEvent::Exchanged(false, true)),
        UpsertAction::Discard(2, true)
    );
    assert_eq!(
        upsert_step(UpsertAction::Traverse, UpsertEvent::Traversed(Seen::Replace(true))),
        UpsertAction::Freeze
    );
    assert_eq!(
        upsert_step(UpsertAction::RestoreAndFreeze(2), UpsertEvent::Froze(Froze::Failed)),
        UpsertAction::Failed
    );
    assert_eq!(
        upsert_step(UpsertAction::Ask(Some(4)), UpsertEvent::Chose(None)),
        UpsertAction::Break(Some(4))
    );
    assert_eq!(
        upsert_step(UpsertAction::Replace, UpsertEvent::Replaced(false, false)),
        UpsertAction::Traverse
    );
}

#[test]
fn plain_remove_ends_after_the_exchange() {
    let mut a = RemoveAction::Traverse;
    a = remove_step(false, a, RemoveEvent::Traversed(Found::Value(11)));
    assert!(matches!(a, RemoveAction::Ask(11)));
    a = remove_step(false, a, RemoveEvent::Chose(true));
    assert!(matches!(a, RemoveAction::Exchange(11)));
    let lost = remove_step(false, a, RemoveEvent::Exchanged(false, Bit::new_unchecked(8)));
    assert!(matches!(lost, RemoveAction::Traverse));
    a = remove_step(false, a, RemoveEvent::Exchanged(true, Bit::new_unchecked(8)));
    assert!(matches!(a, RemoveAction::Success(11)));
    assert!(matches!(
        remove_step(false, RemoveAction::Ask(4), RemoveEvent::Chose(false)),
        RemoveAction::Break(4)
    ));
    assert!(matches!(
        remove_step(true, RemoveAction::Traverse, RemoveEvent::Traversed(Found::Missing)),
        RemoveAction::Absent
    ));
}

#[test]
fn recursive_remove_collapses_empty_nodes_up_the_path() {
    let mut a = RemoveAction::Exchange(11);
    a = remove_step(true, a, RemoveEvent::Exchanged(true, Bit::new_unchecked(16)));
    assert!(matches!(a, RemoveAction::Pop(11, t) if t.into_u8() == 16));
    a = remove_step(true, a, RemoveEvent::Popped(Some(0)));
    assert!(matches!(a, RemoveAction::TrimAndProbe(11, t) if t.into_u8() == 16));
    a = remove_step(true, a, RemoveEvent::Probed(Probe::Frozen));
    assert!(matches!(a, RemoveAction::FreezeInPath(11)));
    a = remove_step(true, a, RemoveEvent::Froze(Froze::Retire));
    assert!(matches!(a, RemoveAction::RetireAndProbe(11)));
    a = remove_step(true, a, RemoveEvent::Probed(Probe::Target));
    assert!(matches!(a, RemoveAction::Collapse(11)));
    a = remove_step(true, a, RemoveEvent::Replaced(false, true, Bit::new_unchecked(0)));
    assert!(matches!(a, RemoveAction::FreeAndProbe(11)));
    a = remove_step(true, a, RemoveEvent::Probed(Probe::Target));
    a = remove_step(true, a, RemoveEvent::Replaced(true, false, Bit::new_unchecked(24)));
    assert!(matches!(a, RemoveAction::RetireAndPop(11, t) if t.into_u8() == 24));
    a = remove_step(true, a, RemoveEvent::Popped(Some(2)));
    assert!(matches!(a, RemoveAction::Success(11)));
}

#[test]
fn recursive_remove_stops_when_the_tree_changed() {
    for p in [Probe::Missing, Probe::Empty, Probe::Other] {
        assert!(matches!(
            remove_step(true, RemoveAction::Probe(3), RemoveEvent::Probed(p)),
            RemoveAction::Success(3)
        ));
    }
    assert!(matches!(
        remove_step(true, RemoveAction::Pop(3, Bit::new_unchecked(8)), RemoveEvent::Popped(None)),
        RemoveAction::Success(3)
    ));
    assert!(matches!(
        remove_step(true, RemoveAction::FreezeInPath(3), RemoveEvent::Froze(Froze::Unchanged)),
        RemoveAction::Probe(3)
    ));
}
