use microfetch::desktop::get_desktop_info;

#[test]
fn desktop_with_session() {
    assert_eq!(get_desktop_info(Some("GNOME"), Some("wayland")), "GNOME (Wayland)");
}

#[test]
fn desktop_strips_none_prefix() {
    assert_eq!(get_desktop_info(Some("none+i3"), Some("x11")), "i3 (X11)");
    assert_eq!(get_desktop_info(Some("none"), Some("x11")), "none (X11)");
}

#[test]
fn desktop_unknown_defaults() {
    assert_eq!(get_desktop_info(None, None), "Unknown (Unknown)");
    assert_eq!(get_desktop_info(Some("KDE"), Some("")), "KDE (Unknown)");
}

#[test]
fn desktop_keeps_non_lowercase_first_char() {
    assert_eq!(get_desktop_info(Some("Sway"), Some("Wayland")), "Sway (Wayland)");
    assert_eq!(get_desktop_info(Some("Sway"), Some("1tty")), "Sway (1tty)");
}
