use microfetch::colors::Colors;
use microfetch::fetch::{render_system_info, Fields};

fn fields(os_name: &str) -> Fields {
    Fields {
        user_info: "alice@box".to_string(),
        os_name: os_name.to_string(),
        kernel_version: "Linux 6.1.0 (x86_64)".to_string(),
        shell: "zsh".to_string(),
        uptime: "1 hour".to_string(),
        desktop: "GNOME (Wayland)".to_string(),
        memory_usage: "1.00 GiB / 2.00 GiB (50%)".to_string(),
        storage: "3.00 GiB / 4.00 GiB (75%)".to_string(),
        colors: "dots".to_string(),
    }
}

fn expected(f: &Fields, c: &Colors) -> String {
    let Fields {
        user_info,
        os_name,
        kernel_version,
        shell,
        uptime,
        desktop,
        memory_usage,
        storage,
        colors,
    } = f;
    let cyan = c.cyan;
    let blue = c.blue;
    let reset = c.reset;
    format!(
    "
    {blue}     ▟█▖    {cyan}▝█▙ ▗█▛         {user_info} ~{reset}
    {blue}  ▗▄▄▟██▄▄▄▄▄{cyan}▝█▙█▛  {blue}▖       {cyan}  {blue}System{reset}        {os_name}
    {blue}  ▀▀▀▀▀▀▀▀▀▀▀▘{cyan}▝██  {blue}▟█▖      {cyan}  {blue}Kernel{reset}        {kernel_version}
    {cyan}     ▟█▛       {cyan}▝█▘{blue}▟█▛       {cyan}  {blue}Shell{reset}         {shell}
    {cyan}▟█████▛          {blue}▟█████▛    {cyan}  {blue}Uptime{reset}        {uptime}
    {cyan}   ▟█▛{blue}▗█▖       {blue}▟█▛         {cyan}  {blue}Desktop{reset}       {desktop}
    {cyan}  ▝█▛  {blue}██▖{cyan}▗▄▄▄▄▄▄▄▄▄▄▄      {cyan}󰍛  {blue}Memory{reset}        {memory_usage}
    {cyan}   ▝  {blue}▟█▜█▖{cyan}▀▀▀▀▀██▛▀▀▘      {cyan}󱥎  {blue}Storage (/){reset}   {storage}
    {blue}     ▟█▘ ▜█▖    {cyan}▝█▛         {cyan}  {blue}Colors{reset}        {colors}\n\n"
    )
}

#[test]
fn fetch_layout_plain() {
    let c = Colors::new(true);
    let f = fields("Arch Linux");
    assert_eq!(render_system_info(&f, &c), Some(expected(&f, &c)));
}

#[test]
fn fetch_layout_colored() {
    let c = Colors::new(false);
    let f = fields("Arch Linux");
    let out = render_system_info(&f, &c).unwrap();
    assert_eq!(out, expected(&f, &c));
    assert!(out.starts_with("\n    \x1b[34m"));
    assert!(out.ends_with("dots\n\n"));
}

#[test]
fn fetch_too_long_for_buffer() {
    let c = Colors::new(true);
    let base = expected(&fields(""), &c).len();
    let fits = "x".repeat(2048 - base);
    assert_eq!(render_system_info(&fields(&fits), &c).map(|s| s.len()), Some(2048));
    let too_long = "x".repeat(2049 - base);
    assert_eq!(render_system_info(&fields(&too_long), &c), None);
}
