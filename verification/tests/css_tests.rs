use discord_overlay::config::{AvatarOverride, UserMap};
use discord_overlay::css::{escape_css_ident, escape_css_url, generate_overlay_css};

#[test]
fn generates_per_user_rules() {
    let mut users = UserMap::new();
    users.insert(
        "123456789".into(),
        AvatarOverride {
            idle_url: "https://cdn.example/idle.png".into(),
            speaking_url: "https://cdn.example/speak.png".into(),
            order: 2,
        },
    );

    let css = generate_overlay_css(&users);
    assert!(css.contains("data-userid=\"123456789\""));
    assert!(css.contains("https://cdn.example/idle.png"));
    assert!(css.contains("https://cdn.example/speak.png"));
    assert!(css.contains("order: 2 !important"));
    assert!(css.contains("speak-bounce"));
    assert!(css.contains("background: transparent !important"));
}

/// `order` is inert unless the parent is a flex/grid container, and
/// Streamkit's `ul.voice_states` is a plain block list.
#[test]
fn voice_state_list_is_a_flex_container_so_order_applies() {
    let css = generate_overlay_css(&UserMap::new());
    assert!(css.contains("ul.voice_states"));
    assert!(css.contains("display: flex"));
}

#[test]
fn rules_are_emitted_in_configured_order() {
    let avatar = |order| AvatarOverride {
        idle_url: "idle.png".into(),
        speaking_url: "speak.png".into(),
        order,
    };
    let mut users = UserMap::new();
    users.insert("aaa".to_string(), avatar(9));
    users.insert("zzz".to_string(), avatar(-1));

    let css = generate_overlay_css(&users);
    assert!(css.find("/* User zzz */").unwrap() < css.find("/* User aaa */").unwrap());
}

/// The speaking state must key off Streamkit's unhashed class names:
/// `wrapper_speaking` sits on the `li`, not on the avatar `img`.
#[test]
fn speaking_rule_targets_the_stable_class_names() {
    let mut users = UserMap::new();
    users.insert(
        "42".into(),
        AvatarOverride {
            idle_url: "idle.png".into(),
            speaking_url: "speak.png".into(),
            order: 1,
        },
    );

    let css = generate_overlay_css(&users);
    assert!(css.contains(r#"li[data-userid="42"].wrapper_speaking > img.voice_avatar"#));
    assert!(css.contains(r#"img.voice_avatar[class*="avatarSpeaking"]"#));
    assert!(!css.contains(r#"[class*="Voice_avatarSpeaking"] >"#));
}

fn avatar(order: i64) -> AvatarOverride {
    AvatarOverride {
        idle_url: "i.png".into(),
        speaking_url: "s.png".into(),
        order,
    }
}

#[test]
fn equal_orders_fall_back_to_user_id_order() {
    let mut users = UserMap::new();
    users.insert("b".to_string(), avatar(0));
    users.insert("a".to_string(), avatar(0));
    users.insert("c".to_string(), avatar(-5));
    let css = generate_overlay_css(&users);
    let c = css.find("/* User c */").unwrap();
    let a = css.find("/* User a */").unwrap();
    let b = css.find("/* User b */").unwrap();
    assert!(c < a && a < b);
}

#[test]
fn stylesheet_does_not_depend_on_insertion_order() {
    let mut first = UserMap::new();
    first.insert("1".to_string(), avatar(3));
    first.insert("2".to_string(), avatar(1));
    first.insert("3".to_string(), avatar(2));
    let mut second = UserMap::new();
    second.insert("3".to_string(), avatar(2));
    second.insert("1".to_string(), avatar(3));
    second.insert("2".to_string(), avatar(1));
    assert_eq!(generate_overlay_css(&first), generate_overlay_css(&second));
}

#[test]
fn negative_order_is_rendered_with_its_sign() {
    let mut users = UserMap::new();
    users.insert("x".to_string(), avatar(-12));
    assert!(generate_overlay_css(&users).contains("order: -12 !important"));
}

#[test]
fn urls_and_ids_are_escaped() {
    assert_eq!(escape_css_url(r#"a"b\c"#), r#"a\"b\\c"#);
    assert_eq!(escape_css_ident("4\"2\\\u{7}x\u{85}"), "4\\\"2\\\\x");
    let mut users = UserMap::new();
    users.insert(
        "4\"2".to_string(),
        AvatarOverride {
            idle_url: "i\".png".into(),
            speaking_url: "s.png".into(),
            order: 0,
        },
    );
    let css = generate_overlay_css(&users);
    assert!(css.contains(r#"li[data-userid="4\"2"]"#));
    assert!(css.contains(r#"url("i\".png")"#));
}
