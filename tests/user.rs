use bee_api::puzzle::Timestamp;
use bee_api::user::{PartialUser, User};

#[test]
fn partial_user_round_trip() {
    let u = PartialUser { name: "Ann".to_string(), email: "ann@example.org".to_string(), admin: true };
    let back = PartialUser::decode(&u.encode()).unwrap();
    assert_eq!(back.name, "Ann");
    assert_eq!(back.email, "ann@example.org");
    assert!(back.admin);
}

#[test]
fn user_round_trip() {
    let u = User {
        id: 77,
        name: "Bo".to_string(),
        email: "bo@example.org".to_string(),
        admin: false,
        created_at: Timestamp { secs: 1, nanos: 2 },
        updated_at: Timestamp { secs: 3, nanos: 4 },
    };
    let back = User::decode(&u.encode()).unwrap();
    assert_eq!(back.id, 77);
    assert_eq!(back.name, "Bo");
    assert!(!back.admin);
    assert_eq!(back.updated_at, Timestamp { secs: 3, nanos: 4 });
}

#[test]
fn user_decode_rejects_bad_flag_and_other_records() {
    let u = PartialUser { name: String::new(), email: String::new(), admin: false };
    let mut bytes = u.encode();
    let last = bytes.len() - 1;
    bytes[last] = 2;
    assert!(PartialUser::decode(&bytes).is_err());
    assert!(User::decode(&u.encode()).is_err());
}
