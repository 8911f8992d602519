use ttyman::config::{default_config_path, Config, MenuConfig, SessionConfig};

#[test]
fn test_default_config() {
    let config = Config::default();
    assert_eq!(config.menu_key(), 0x1D);
    assert_eq!(config.menu_command(), "echo detach");
    assert_eq!(config.scrollback(), 10_000);
}

#[test]
fn config_zero_scrollback_falls_back_to_default() {
    let config = Config {
        menu: MenuConfig::default(),
        session: SessionConfig { scrollback: 0 },
    };
    assert_eq!(config.scrollback(), 10_000);
    let config = Config {
        menu: MenuConfig { key: 0x02, command: "echo hello".to_string() },
        session: SessionConfig { scrollback: 5000 },
    };
    assert_eq!(config.menu_key(), 0x02);
    assert_eq!(config.menu_command(), "echo hello");
    assert_eq!(config.scrollback(), 5000);
}

#[test]
fn default_config_path_prefers_xdg_config_home() {
    assert_eq!(
        default_config_path(Some("/home/u/.cfg"), Some("/home/u")),
        Some("/home/u/.cfg/ttyman/config.toml".to_string())
    );
    assert_eq!(
        default_config_path(None, Some("/home/u")),
        Some("/home/u/.config/ttyman/config.toml".to_string())
    );
    assert_eq!(
        default_config_path(Some("/cfg/"), None),
        Some("/cfg/ttyman/config.toml".to_string())
    );
    assert_eq!(default_config_path(None, None), None);
}

#[test]
fn load_default_or_explicit_picks_the_source() {
    let loaded = |p: &str| {
        if p == "/explicit.toml" || p == "/default.toml" {
            Some(Config {
                menu: MenuConfig { key: if p == "/explicit.toml" { 1 } else { 2 }, command: "x".to_string() },
                session: SessionConfig { scrollback: 7 },
            })
        } else {
            None
        }
    };
    let c = Config::load_default_or_explicit(Some("/explicit.toml"), Some("/default.toml"), |_| true, loaded);
    assert_eq!(c.map(|c| c.menu_key()), Some(1));
    let c = Config::load_default_or_explicit(None, Some("/default.toml"), |_| true, loaded);
    assert_eq!(c.map(|c| c.menu_key()), Some(2));
    let c = Config::load_default_or_explicit(None, Some("/default.toml"), |_| false, loaded);
    assert!(c.is_none());
    let c = Config::load_default_or_explicit(None, None, |_| true, loaded);
    assert!(c.is_none());
    let c = Config::load_default_or_explicit(Some("/missing.toml"), Some("/default.toml"), |_| true, loaded);
    assert!(c.is_none());
}
