use kaku::hotkey::parse_hotkey_to_hyprland;

#[test]
fn test_parse_hotkey_to_hyprland_simple() {
    let result = parse_hotkey_to_hyprland("Shift+Space");
    assert_eq!(result, Some(("SHIFT".to_string(), "SPACE".to_string())));
}

#[test]
fn test_parse_hotkey_to_hyprland_ctrl_shift() {
    let result = parse_hotkey_to_hyprland("Ctrl+Shift+M");
    assert_eq!(result, Some(("CTRL SHIFT".to_string(), "M".to_string())));
}

#[test]
fn test_parse_hotkey_to_hyprland_single_key() {
    let result = parse_hotkey_to_hyprland("F12");
    assert_eq!(result, Some(("".to_string(), "F12".to_string())));
}

#[test]
fn test_parse_hotkey_to_hyprland_super() {
    let result = parse_hotkey_to_hyprland("Super+K");
    assert_eq!(result, Some(("SUPER".to_string(), "K".to_string())));
    let result2 = parse_hotkey_to_hyprland("Win+K");
    assert_eq!(result2, Some(("SUPER".to_string(), "K".to_string())));
    let result3 = parse_hotkey_to_hyprland("Meta+K");
    assert_eq!(result3, Some(("SUPER".to_string(), "K".to_string())));
}

#[test]
fn test_parse_hotkey_to_hyprland_all_modifiers() {
    let result = parse_hotkey_to_hyprland("Ctrl+Shift+Alt+Super+K");
    assert_eq!(result, Some(("CTRL SHIFT ALT SUPER".to_string(), "K".to_string())));
}

#[test]
fn test_parse_hotkey_to_hyprland_empty() {
    let result = parse_hotkey_to_hyprland("");
    assert_eq!(result, Some(("".to_string(), "".to_string())));
}

#[test]
fn test_parse_hotkey_to_hyprland_control_alias() {
    let result = parse_hotkey_to_hyprland("Control+C");
    assert_eq!(result, Some(("CTRL".to_string(), "C".to_string())));
}

#[test]
fn parse_hotkey_other_modifier_and_spaces() {
    assert_eq!(parse_hotkey_to_hyprland(" hyper + x "), Some(("HYPER".to_string(), "X".to_string())));
    assert_eq!(parse_hotkey_to_hyprland("Ctrl+"), Some(("CTRL".to_string(), "".to_string())));
}
