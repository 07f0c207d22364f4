use rmx::preset::{check_preset_words, parse, parse_preset_line, PresetError, PresetListing};
use rmx::{Args, ExtensionsError};

fn args(extensions: &[&str], preset: Option<&str>) -> Args {
    Args {
        extensions: extensions.iter().map(|e| e.to_string()).collect(),
        all: false,
        force: false,
        list: false,
        dry_run: false,
        recurse: false,
        invert: false,
        preset: preset.map(|p| p.to_string()),
        presets: false,
    }
}

#[test]
fn parse_unknown_config_should_err() {
    let a = args(&[], Some("out"));

    let res = a.get_extensions(&None);

    assert_eq!(res, Err(ExtensionsError::ConfigUnreadable));
}

#[test]
fn parse_unknown_preset_should_err() {
    let presets = "preset java=jar class\npreset c=o a so out";

    let res = parse(&"out".to_string(), presets);

    assert_eq!(res, Err(PresetError::NotFound));
}

#[test]
fn parse_preset_no_extension_should_err() {
    let presets = "preset java=jar class\npreset c=";

    let res = parse(&"c".to_string(), presets);

    assert_eq!(res, Err(PresetError::NoExtensions));
}

#[test]
fn parse_preset_with_one_extension() {
    let presets = "preset java=class\npreset c=o a so out";

    let res = parse(&"java".to_string(), presets).unwrap();

    assert_eq!(1, res.len());
    assert_eq!(res, vec!["class"]);
}

#[test]
fn parse_preset_with_multiple_extension() {
    let presets = "preset java=jar class\npreset c=o a so out";

    let res = parse(&"c".to_string(), presets).unwrap();

    assert_eq!(4, res.len());
    assert_eq!(res, vec!["o", "a", "so", "out"]);
}

#[test]
fn parse_preset_with_crlf_lines_and_spaces() {
    let presets = "# presets\r\npreset web= html  css\tjs \r\npreset c=o\r\n";

    assert_eq!(parse(&"web".to_string(), presets).unwrap(), vec!["html", "css", "js"]);
    assert_eq!(parse(&"c".to_string(), presets).unwrap(), vec!["o"]);
}

#[test]
fn parse_preset_with_two_equals_is_malformed() {
    let presets = "preset a=b=c\n";

    assert_eq!(parse(&"a".to_string(), presets), Err(PresetError::Malformed));
    assert_eq!(parse_preset_line("preset a=b=c"), Err(PresetError::Malformed));
    assert_eq!(parse_preset_line("preset a b"), Err(PresetError::Malformed));
}

#[test]
fn parse_preset_matches_the_whole_name() {
    let presets = "preset javascript=js\npreset cpp=o\npreset java=jar\npreset  c =h\n";

    assert_eq!(parse(&"java".to_string(), presets).unwrap(), vec!["jar"]);
    assert_eq!(parse(&"c".to_string(), presets).unwrap(), vec!["h"]);
    assert_eq!(parse(&"ja".to_string(), presets), Err(PresetError::NotFound));
}

#[test]
fn parse_preset_line_without_equals_is_malformed() {
    assert_eq!(parse(&"c".to_string(), "preset c\n"), Err(PresetError::Malformed));
}

#[test]
fn parse_preset_in_empty_text() {
    assert_eq!(parse(&"c".to_string(), ""), Err(PresetError::NotFound));
}

#[test]
fn preset_words_must_not_be_empty() {
    assert_eq!(check_preset_words(Vec::new()), Err(PresetError::NoExtensions));
    assert_eq!(check_preset_words(vec!["o".to_string()]), Ok(vec!["o".to_string()]));
}

#[test]
fn extensions_given_directly() {
    let a = args(&["txt", "log"], None);

    assert_eq!(a.get_extensions(&None).unwrap(), vec!["txt", "log"]);
}

#[test]
fn invalid_extensions_are_refused() {
    assert_eq!(args(&["a", "*"], None).get_extensions(&None), Err(ExtensionsError::Invalid));
    let config = Some("preset some=*\npreset other=txt log".to_string());
    assert_eq!(args(&[], Some("some")).get_extensions(&config), Err(ExtensionsError::Invalid));
}

#[test]
fn extensions_from_preset() {
    let config = Some("preset some=dat\npreset other=txt log".to_string());

    assert_eq!(args(&["x"], Some("other")).get_extensions(&config).unwrap(), vec!["txt", "log"]);
    assert_eq!(
        args(&[], Some("none")).get_extensions(&config),
        Err(ExtensionsError::Preset(PresetError::NotFound))
    );
    let empty = Some("preset some=\npreset other=txt log".to_string());
    assert_eq!(
        args(&[], Some("some")).get_extensions(&empty),
        Err(ExtensionsError::Preset(PresetError::NoExtensions))
    );
}

#[test]
fn options_follow_the_arguments() {
    let mut a = args(&["txt"], None);
    a.all = true;
    a.recurse = true;
    a.dry_run = true;
    let (c, d) = a.get_options();
    assert!(c.all && c.recurse && !c.invert && !c.list);
    assert!(d.dry_run && !d.force);

    a.apply_dry_run();
    let (c, _) = a.get_options();
    assert!(c.list);
}

#[test]
fn show_lists_every_preset_line() {
    let data = "# comment\npreset java=jar class\npreset c=\npreset bad\r\npreset  web = html css \npresets x=y\n";

    let listings = rmx::preset::show(data);

    assert_eq!(
        listings,
        vec![
            PresetListing::Valid("java".to_string(), vec!["jar".to_string(), "class".to_string()]),
            PresetListing::Empty("c".to_string()),
            PresetListing::Malformed("bad".to_string()),
            PresetListing::Valid("web ".to_string(), vec!["html".to_string(), "css".to_string()]),
        ]
    );
}

#[test]
fn show_without_presets() {
    assert!(rmx::preset::show("").is_empty());
    assert!(rmx::preset::show("nothing here\n").is_empty());
}
