use ttyman::remap::{resolve_initial_config, Config, InputRemapper, MenuConfig, RemapRule, SessionConfig};

fn remapper_from_rules(rules: &[(&[u8], &[u8])]) -> InputRemapper {
    let config = Config {
        menu: MenuConfig::default(),
        remap: rules
            .iter()
            .map(|(f, t)| RemapRule { from: f.to_vec(), to: t.to_vec() })
            .collect(),
        session: SessionConfig::default(),
    };
    config.to_remapper().unwrap_or_default()
}

#[test]
fn test_single_byte_mapping() {
    // [[remap]] from = [0x02] to = [0x1b, 0x5b, 0x44]
    // [[remap]] from = [0x06] to = [0x1b, 0x5b, 0x43]
    let mut remapper = remapper_from_rules(&[(&[0x02], &[0x1b, 0x5b, 0x44]), (&[0x06], &[0x1b, 0x5b, 0x43])]);

    // 0x02 (Ctrl-b) -> \x1b[D (Left)
    assert_eq!(remapper.translate(&[0x02]), b"\x1b[D");

    // 0x06 (Ctrl-f) -> \x1b[C (Right)
    assert_eq!(remapper.translate(&[0x06]), b"\x1b[C");

    // Normal characters remain untouched
    assert_eq!(remapper.translate(b"hello"), b"hello");

    // Mixed sequence
    assert_eq!(remapper.translate(&[b'a', 0x02, b'z']), b"a\x1b[Dz");
}

#[test]
fn test_multistroke_emacs_chord_matching() {
    // C-x C-f (0x18, 0x06) -> [0xAA, 0xBB]
    let mut remapper = remapper_from_rules(&[(&[0x18, 0x06], &[0xAA, 0xBB])]);

    // 1st stroke: C-x (0x18) is typed -> held in pending, returns empty
    let out1 = remapper.translate(&[0x18]);
    assert_eq!(out1, b"");

    // 2nd stroke: C-f (0x06) is typed -> matches chord, returns [0xAA, 0xBB]
    let out2 = remapper.translate(&[0x06]);
    assert_eq!(out2, &[0xAA, 0xBB]);
}

#[test]
fn test_multistroke_mismatch_flushes_all_keys() {
    // C-x C-f (0x18, 0x06) -> [0xAA, 0xBB]
    let mut remapper = remapper_from_rules(&[(&[0x18, 0x06], &[0xAA, 0xBB])]);

    // 1st stroke: C-x (0x18) is typed -> held in pending
    assert_eq!(remapper.translate(&[0x18]), b"");

    // 2nd stroke: 'a' (0x61) is typed (mismatch) -> flushes [0x18, 'a']
    assert_eq!(remapper.translate(b"a"), &[0x18, b'a']);
}

#[test]
fn test_multibyte_in_single_packet() {
    // Alt-f (ESC + f) -> Ctrl-Right
    let mut remapper = remapper_from_rules(&[(&[0x1b, 0x66], &[0x1b, 0x5b, 0x31, 0x3b, 0x35, 0x43])]);

    // Alt-f delivered in single packet
    assert_eq!(remapper.translate(&[0x1b, 0x66]), b"\x1b[1;5C");
}

#[test]
fn test_config_tables_parsing() {
    // [menu] key = "0x1b", command = "echo hello"; [[remap]] from = [0x01] to = [0x02];
    // [session] scrollback = 25000
    let config = Config {
        menu: MenuConfig { key: Some("0x1b".to_string()), command: Some("echo hello".to_string()) },
        remap: vec![RemapRule { from: vec![0x01], to: vec![0x02] }],
        session: SessionConfig { scrollback: 25000 },
    };
    assert_eq!(config.menu_key(), "0x1b");
    assert_eq!(config.menu_command(), "echo hello");
    assert_eq!(config.scrollback(), 25000);
    let mut rm = config.to_remapper().unwrap();
    assert_eq!(rm.translate(&[0x01]), &[0x02]);
}

#[test]
fn remap_config_defaults() {
    let config = Config::default();
    assert_eq!(config.menu_key(), "0x1d");
    assert_eq!(config.menu_command(), "echo detach");
    assert_eq!(config.scrollback(), 10_000);
    assert!(config.to_remapper().is_none());
}

#[test]
fn longest_trigger_wins_and_prefix_waits() {
    let mut rm = InputRemapper::new();
    rm.insert(&[1], &[10]);
    rm.insert(&[1, 2], &[20]);
    rm.insert(&[1, 2, 3], &[30]);
    assert_eq!(rm.count_rules(), 3);
    // [1, 2] could still become [1, 2, 3]
    assert_eq!(rm.translate(&[1, 2]), b"");
    assert_eq!(rm.translate(&[3]), &[30]);
    // [1, 2, 9]: the longest trigger that fits is [1, 2]
    assert_eq!(rm.translate(&[1, 2, 9]), &[20, 9]);
    // [1, 9]: only [1] fits
    assert_eq!(rm.translate(&[1, 9]), &[10, 9]);
}

#[test]
fn insert_replaces_and_ignores_empty_triggers() {
    let mut rm = InputRemapper::new();
    assert!(rm.is_empty());
    rm.insert(&[], &[1]);
    assert!(rm.is_empty());
    assert_eq!(rm.count_rules(), 0);
    rm.insert(&[5], &[6]);
    rm.insert(&[5], &[7]);
    assert_eq!(rm.count_rules(), 1);
    assert_eq!(rm.translate(&[5]), &[7]);
}

#[test]
fn without_rules_input_passes_through() {
    let mut rm = InputRemapper::new();
    assert_eq!(rm.translate(&[0x18, 1, 2]), &[0x18, 1, 2]);
}

#[test]
fn chunking_does_not_change_output() {
    let rules: &[(&[u8], &[u8])] = &[(&[0x18, 0x06], &[0xAA]), (&[0x18], &[0xBB]), (&[7, 7, 7], &[1])];
    let input: Vec<u8> = vec![0x18, 0x06, 0x18, 7, 7, 0x18, 7, 7, 7, 0x61, 0x18];
    let mut whole = remapper_from_rules(rules);
    let whole_out = whole.translate(&input);
    for split in 0..=input.len() {
        let mut rm = remapper_from_rules(rules);
        let mut out = rm.translate(&input[..split]);
        out.extend(rm.translate(&input[split..]));
        assert_eq!(out, whole_out, "split at {split}");
    }
    // the trailing 0x18 is held back: it may still become [0x18, 0x06]
    assert_eq!(whole_out, vec![0xAA, 0xBB, 7, 7, 0xBB, 1, 0x61]);
}

#[test]
fn resolve_initial_config_sources() {
    let load = |p: &str| -> Result<InputRemapper, String> {
        if p.ends_with("bad.toml") {
            Err(format!("cannot read {p}"))
        } else {
            let mut rm = InputRemapper::new();
            rm.insert(&[1], &[2]);
            Ok(rm)
        }
    };
    let (rm, path) = resolve_initial_config(Some("/x/explicit.toml"), Some("/d/config.toml"), |_| true, load).unwrap();
    assert!(rm.is_some());
    assert_eq!(path, Some("/x/explicit.toml".to_string()));
    let (rm, path) = resolve_initial_config(None, Some("/d/config.toml"), |_| false, load).unwrap();
    assert!(rm.is_none() && path.is_none());
    let (rm, path) = resolve_initial_config(None, Some("/d/config.toml"), |_| true, load).unwrap();
    assert!(rm.is_some());
    assert_eq!(path, Some("/d/config.toml".to_string()));
    assert!(resolve_initial_config(Some("/bad.toml"), None, |_| true, load).is_err());
    let (rm, path) = resolve_initial_config(None, None, |_| true, load).unwrap();
    assert!(rm.is_none() && path.is_none());
}

#[test]
fn insert_counts_distinct_triggers() {
    let mut r = InputRemapper::new();
    assert!(r.is_empty());
    r.insert(b"", b"x");
    assert_eq!(r.count_rules(), 0);
    r.insert(b"\x1bx", b"a");
    assert_eq!(r.count_rules(), 1);
    r.insert(b"\x1bx", b"b");
    assert_eq!(r.count_rules(), 1);
    r.insert(b"\x1by", b"c");
    assert_eq!(r.count_rules(), 2);
    assert!(!r.is_empty());
}

#[test]
fn remapper_without_rules_passes_input() {
    let mut r = InputRemapper::new();
    assert_eq!(r.translate(b"\x1b[A abc"), b"\x1b[A abc".to_vec());
    assert_eq!(r.translate(b"\x1b"), b"\x1b".to_vec());
    assert_eq!(r.translate(b""), Vec::<u8>::new());
}
