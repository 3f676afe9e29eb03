use networkinator::registry::MessagesRegistry;
use std::any::TypeId;

#[test]
fn ids_count_up_from_one() {
    let mut r: MessagesRegistry<&str> = MessagesRegistry::new();
    assert_eq!(r.last_id(), 0);
    let a = r.register(TypeId::of::<u8>(), "u8");
    let b = r.register(TypeId::of::<u16>(), "u16");
    assert_eq!((a, b), (1, 2));
    assert_eq!(r.last_id(), 2);
    assert_eq!(r.id_of(&TypeId::of::<u8>()), Some(1));
    assert_eq!(r.id_of(&TypeId::of::<u16>()), Some(2));
    assert_eq!(r.id_of(&TypeId::of::<u32>()), None);
    assert_eq!(r.functions_of(2), Some(&"u16"));
    assert_eq!(r.functions_of(3), None);
}

#[test]
fn registering_again_gives_a_new_id() {
    let mut r: MessagesRegistry<u32> = MessagesRegistry::new();
    r.register(TypeId::of::<u8>(), 10);
    let again = r.register(TypeId::of::<u8>(), 20);
    assert_eq!(again, 2);
    assert_eq!(r.id_of(&TypeId::of::<u8>()), Some(2));
    assert_eq!(r.functions_of(1), Some(&10));
}
