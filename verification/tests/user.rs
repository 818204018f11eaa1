use orderbook::user::User;

#[test]
fn it_can_create_a_user_with_a_guid() {
    let user = User { guid: "test" };
    assert_eq!(user.guid, "test");
}

#[test]
fn users_with_equal_tokens_are_equal() {
    assert_eq!(User::new("USR-1"), User { guid: "USR-1" });
    assert_ne!(User::new("USR-1"), User::new("USR-2"));
}
