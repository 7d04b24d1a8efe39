use bzmm::ledger::{add_lua_patch, apply_lua_patch, check_lua_patch, remove_lua_patch};

const MARKER: &str = "-- This was added automatically by BorderZone Mod Manager. DO NOT EDIT! --";

#[test]
fn add_appends_a_marked_block() {
    let content = "print('hello')\n";
    let out = add_lua_patch(content, "CoolMod", "1.2", "print('patched')");
    let expected = format!(
        "print('hello')\n\n{}\n-- {{\"mod_name\":\"CoolMod\",\"version\":\"1.2\"}}\nprint('patched')\n{}",
        MARKER, MARKER
    );
    assert_eq!(out, expected);
}

#[test]
fn check_finds_exact_mod_and_version_only() {
    let content = "x = 1\n";
    let patched = add_lua_patch(content, "CoolMod", "1.2", "y = 2");
    assert!(check_lua_patch(&patched, "CoolMod", "1.2"));
    assert!(!check_lua_patch(&patched, "CoolMod", "1.3"));
    assert!(!check_lua_patch(&patched, "OtherMod", "1.2"));
    assert!(!check_lua_patch(content, "CoolMod", "1.2"));
}

#[test]
fn remove_round_trips_after_add() {
    let content = "line one\nline two\n";
    let patched = add_lua_patch(content, "CoolMod", "1.2", "patch body");
    let restored = remove_lua_patch(&patched, "CoolMod", "1.2").unwrap();
    assert_eq!(restored, content);
}

#[test]
fn remove_keeps_other_mods_blocks_byte_for_byte() {
    let content = "base\n";
    let one = add_lua_patch(content, "ModA", "1.0", "a = 1");
    let with_newline = format!("{}\n", one);
    let two = add_lua_patch(&with_newline, "ModB", "2.0", "b = 2");
    let without_b = remove_lua_patch(&two, "ModB", "2.0").unwrap();
    assert_eq!(without_b, with_newline);
    assert!(check_lua_patch(&without_b, "ModA", "1.0"));
    assert!(!check_lua_patch(&without_b, "ModB", "2.0"));
}

#[test]
fn guarded_add_is_idempotent() {
    let content = "top\n";
    let once = apply_lua_patch(content, "CoolMod", "1.2", "body");
    let with_newline = format!("{}\n", once);
    let twice = apply_lua_patch(&with_newline, "CoolMod", "1.2", "body");
    assert_eq!(twice, with_newline);
}

#[test]
fn remove_without_a_block_keeps_lines() {
    let content = "a\nb\nc";
    let out = remove_lua_patch(content, "Nobody", "0.0").unwrap();
    assert_eq!(out, "a\nb\nc");
}

#[test]
fn multiline_patch_bodies_survive_the_round_trip() {
    let content = "keep me\n";
    let patched = add_lua_patch(content, "M", "9", "first\nsecond\nthird");
    assert!(check_lua_patch(&patched, "M", "9"));
    let restored = remove_lua_patch(&patched, "M", "9").unwrap();
    assert_eq!(restored, content);
}

#[test]
fn content_without_a_final_break_comes_back_normalized() {
    // the block is always planted after the trimmed content; removal then
    // restores the content up to a single final line break
    let patched = add_lua_patch("abc", "M", "1", "p");
    let restored = remove_lua_patch(&patched, "M", "1").unwrap();
    assert_eq!(restored, "abc\n");
}

#[test]
fn removing_a_missing_block_from_a_terminated_file_is_the_identity() {
    let content = "a\n";
    assert_eq!(remove_lua_patch(content, "M", "1").unwrap(), "a\n");
    let longer = "first\n\nsecond\n";
    assert_eq!(remove_lua_patch(longer, "Nobody", "0").unwrap(), longer);
}

#[test]
fn excising_a_block_before_the_end_keeps_the_terminal_break() {
    let content = "keep\n";
    let patched = format!("{}\ntail line\n", add_lua_patch(content, "M", "1", "p"));
    let restored = remove_lua_patch(&patched, "M", "1").unwrap();
    assert_eq!(restored, "keep\n\ntail line\n");
}

#[test]
fn quoted_names_survive_the_round_trip() {
    let content = "base\n";
    let name = "Mod \"Quoted\" \\ Slashed";
    let patched = add_lua_patch(content, name, "1.0", "body");
    assert!(check_lua_patch(&patched, name, "1.0"));
    assert!(!check_lua_patch(&patched, "Mod ", "1.0"));
    let restored = remove_lua_patch(&patched, name, "1.0").unwrap();
    assert_eq!(restored, content);
}
