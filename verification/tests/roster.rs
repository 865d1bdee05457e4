use woa_core::roster::{EntityKind, KindClass, Roster};
use woa_core::Caste;

#[test]
fn ids_are_handed_out_in_order_and_never_reused() {
    let mut r: Roster<char> = Roster::new();
    let q = r.register(EntityKind::Ant(Caste::Queen), 'q');
    let w = r.register(EntityKind::Ant(Caste::Worker), 'w');
    let f = r.register(EntityKind::Food, 'f');
    assert_eq!((q, w, f), (0, 1, 2));
    assert_eq!(r.remove(f), Some((EntityKind::Food, 'f')));
    let e = r.register(EntityKind::Egg, 'e');
    assert_eq!(e, 3);
    assert_eq!(r.next_id(), 4);
    assert_eq!(r.get(f), None);
    assert_eq!(r.get(e), Some((EntityKind::Egg, 'e')));
}

#[test]
fn ant_count_follows_spawns_and_kills() {
    let mut r: Roster<u8> = Roster::new();
    r.register(EntityKind::Ant(Caste::Queen), 0);
    let w = r.register(EntityKind::Ant(Caste::Worker), 1);
    r.register(EntityKind::Predator, 2);
    r.register(EntityKind::Ant(Caste::Soldier), 3);
    assert_eq!(r.ant_count(), 3);
    assert!(r.is_ant(w));
    assert!(!r.is_ant(2));
    assert_eq!(r.remove(2), Some((EntityKind::Predator, 2)));
    assert_eq!(r.ant_count(), 3);
    assert_eq!(r.remove(w), Some((EntityKind::Ant(Caste::Worker), 1)));
    assert_eq!(r.ant_count(), 2);
    assert_eq!(r.remove(w), None);
    assert_eq!(r.ant_count(), 2);
    assert!(!r.contains(w));
}

#[test]
fn listing_by_class_keeps_id_order() {
    let mut r: Roster<()> = Roster::new();
    r.register(EntityKind::Food, ());
    r.register(EntityKind::Ant(Caste::Worker), ());
    r.register(EntityKind::Egg, ());
    r.register(EntityKind::Food, ());
    r.register(EntityKind::Ant(Caste::Worker), ());
    r.register(EntityKind::Ant(Caste::Soldier), ());
    r.register(EntityKind::Predator, ());
    assert_eq!(r.ids_of(KindClass::Ants), vec![1, 4, 5]);
    assert_eq!(r.ids_of(KindClass::Foods), vec![0, 3]);
    assert_eq!(r.ids_of(KindClass::Eggs), vec![2]);
    assert_eq!(r.ids_of(KindClass::Predators), vec![6]);
    assert_eq!(r.caste_counts(), (2, 1));
    r.remove(3);
    assert_eq!(r.ids_of(KindClass::Foods), vec![0]);
}

#[test]
fn removing_one_entry_leaves_the_others() {
    let mut r: Roster<char> = Roster::new();
    let a = r.register(EntityKind::Ant(Caste::Worker), 'a');
    let b = r.register(EntityKind::Egg, 'b');
    let c = r.register(EntityKind::Food, 'c');
    r.remove(b);
    assert_eq!(r.get(a), Some((EntityKind::Ant(Caste::Worker), 'a')));
    assert_eq!(r.get(c), Some((EntityKind::Food, 'c')));
    let d = r.register(EntityKind::Predator, 'd');
    assert_eq!(r.get(a), Some((EntityKind::Ant(Caste::Worker), 'a')));
    assert_eq!(r.get(d), Some((EntityKind::Predator, 'd')));
}
