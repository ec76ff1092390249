use decentralearn::models::{ChatRequest, ChatRole, CourseTopic, ModuleProgress};

#[test]
fn system_role_is_recognised() {
    let m = ChatRequest { role: "system".to_string(), content: "be brief".to_string() }.to_chat_message();
    assert_eq!(m.role, ChatRole::System);
    assert_eq!(m.content, "be brief");
}

#[test]
fn other_roles_become_user() {
    for role in ["user", "assistant", "System", ""] {
        let m = ChatRequest { role: role.to_string(), content: "hi".to_string() }.to_chat_message();
        assert_eq!(m.role, ChatRole::User);
    }
}

#[test]
fn plain_records_compare_by_fields() {
    let a = ModuleProgress { module_id: 3, completed: false, last_accessed: 7 };
    assert_eq!(a, a.clone());
    assert_ne!(CourseTopic::Design, CourseTopic::Other);
}
