use kaku::dto::{BacklinkDto, GallerySortOrder, NoteDto, NoteListItemDto};
use kaku::events::DomainEvent;
use kaku::index::NoteListItem;
use kaku::note::Note;
use kaku::settings::{default_show_line_numbers, AutosaveSettings, ShortcutSettings, ThemeMode, ThemeName, WindowGeometry};
use kaku::timestamp::Timestamp;
use kaku::wiki::BacklinkInfo;
use kaku::window::{restore_position, restore_size, WindowManager, WindowState};

#[test]
fn event_names() {
    assert_eq!(DomainEvent::NoteCreated { uid: "1".to_string() }.name(), "note:created");
    assert_eq!(DomainEvent::SaveFailed { uid: "1".to_string(), error: "e".to_string() }.name(), "save:failed");
    assert_eq!(DomainEvent::SettingsChanged.name(), "settings:changed");
    assert_eq!(DomainEvent::AppQuitting.name(), "app:quitting");
}

#[test]
fn settings_defaults() {
    let g = WindowGeometry::default();
    assert_eq!((g.x, g.y, g.width, g.height, g.is_maximized), (-1, -1, 400, 500, false));
    assert_eq!(ThemeName::default(), ThemeName::TokyoNight);
    assert_eq!(ThemeMode::default(), ThemeMode::Dark);
    assert_eq!(AutosaveSettings::default(), AutosaveSettings { enabled: true, delay_ms: 2000 });
    let s = ShortcutSettings::default();
    assert_eq!((s.new_note.as_str(), s.toggle_sidebar.as_str(), s.open_settings.as_str()), ("Ctrl+N", "Ctrl+M", "Ctrl+,"));
    assert!(default_show_line_numbers());
    assert_eq!(GallerySortOrder::default(), GallerySortOrder::UpdatedAt);
}

#[test]
fn window_restore_position() {
    let g = WindowGeometry { x: 100, y: 200, width: 800, height: 600, is_maximized: false };
    assert_eq!(restore_position(&g, (1, 2)), (100, 200));
    let off = WindowGeometry { x: -10000, y: -10000, width: 800, height: 600, is_maximized: false };
    assert_eq!(restore_position(&off, (1, 2)), (1, 2));
    let unset = WindowGeometry { x: -1, y: -1, width: 10, height: 10, is_maximized: false };
    assert_eq!(restore_position(&unset, (1, 2)), (1, 2));
    assert_eq!(restore_size(&unset), (400, 500));
    let mut m = WindowManager::new();
    assert_eq!(m.state(), WindowState::Hidden);
    assert_eq!(m.toggled(), WindowState::Visible);
    m.set_state(WindowState::Visible);
    assert_eq!(m.toggled(), WindowState::Hidden);
}

#[test]
fn dtos_carry_fields_and_text_times() {
    let t = Timestamp { year: 2026, month: 3, day: 4, hour: 5, minute: 6, second: 7 };
    let item = NoteListItem { uid: "u".to_string(), title: "T".to_string(), path: "/p".to_string(), updated_at: t };
    let dto = NoteListItemDto::from(item);
    assert_eq!(dto.updated_at, "2026-03-04 05:06:07");
    let b = BacklinkDto::from(BacklinkInfo { source_uid: "s".to_string(), source_title: "S".to_string(), context: "c".to_string() });
    assert_eq!((b.uid.as_str(), b.title.as_str(), b.context.as_str()), ("s", "S", "c"));
    let mut n = Note::with_uid("20260101000000".to_string());
    n.content = "body".to_string();
    n.metadata.created_at = t;
    let d = NoteDto::from(n);
    assert_eq!(d.created_at, "2026-03-04 05:06:07");
    assert_eq!(d.content, "body");
}

#[test]
fn test_calculate_default_position() {
    let (x, y) = kaku::window::PlatformManager::calculate_default_position(400, 500, None);
    assert_eq!((x, y), (100, 50), "Non-Hyprland should return (100, 50)");
    let on_monitor = kaku::window::PlatformManager::calculate_default_position(400, 500, Some((0, 0, 1920, 1080)));
    assert_eq!(on_monitor, (1510, 50));
    assert_eq!(kaku::window::calculate_default_position(400, 500, Some((i32::MAX, 0, 1000, 0))), None);
}

#[test]
fn storage_types() {
    let _ = kaku::storage::FileStorage::new();
    let r = kaku::storage::FileSettingsRepository::with_path("/tmp/config.toml".to_string());
    assert_eq!(r.config_path(), "/tmp/config.toml");
}

#[test]
fn test_calculate_restore_position_with_valid_geometry() {
    let geometry = WindowGeometry { x: 100, y: 200, width: 800, height: 600, is_maximized: false };
    let (x, y) = kaku::window::WindowService::calculate_restore_position(&geometry, None);
    assert_eq!((x, y), (100, 200));
}

#[test]
fn test_calculate_restore_position_with_offscreen() {
    let geometry = WindowGeometry { x: -10000, y: -10000, width: 800, height: 600, is_maximized: false };
    let (x, y) = kaku::window::WindowService::calculate_restore_position(&geometry, None);
    assert!(x >= 0 || x < 0);
    assert!(y >= 0 || y < 0);
    assert_eq!((x, y), (100, 50));
}

#[test]
fn test_calculate_restore_position_with_unset() {
    let geometry = WindowGeometry { x: -1, y: -1, width: 800, height: 600, is_maximized: false };
    let (x, y) = kaku::window::WindowService::calculate_restore_position(&geometry, None);
    assert!(x >= 0 || x < 0);
    assert!(y >= 0 || y < 0);
    assert_eq!((x, y), (100, 50));
}
