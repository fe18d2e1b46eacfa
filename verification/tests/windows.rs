use h7cad::plugin_manager::{plugin_card, subtitle, view_window, PluginManifest};
use h7cad::update_notice;

fn manifest(prefixes: &[&str]) -> PluginManifest {
    PluginManifest {
        id: "com.example.survey".to_string(),
        name: "Survey Tools".to_string(),
        version: "1.2.0".to_string(),
        description: "Point import and labelling.".to_string(),
        api_major: 3,
        command_prefixes: prefixes.iter().map(|s| s.to_string()).collect(),
    }
}

#[test]
fn subtitle_plurals() {
    assert_eq!(subtitle(0), "0 add-ons compiled into this build");
    assert_eq!(subtitle(1), "1 add-on compiled into this build");
    assert_eq!(subtitle(2), "2 add-ons compiled into this build");
    assert_eq!(subtitle(12), "12 add-ons compiled into this build");
}

#[test]
fn card_text() {
    let card = plugin_card(&manifest(&["SURV", "PTS"]));
    assert_eq!(card.name, "Survey Tools");
    assert_eq!(card.version_badge, "v1.2.0");
    assert_eq!(card.api_badge, "API 3");
    assert_eq!(card.id, "com.example.survey");
    assert_eq!(card.description, "Point import and labelling.");
    assert_eq!(card.commands, Some("Commands: SURV, PTS".to_string()));
}

#[test]
fn card_without_commands() {
    let card = plugin_card(&manifest(&[]));
    assert_eq!(card.commands, None);
}

#[test]
fn plugin_window() {
    let empty = view_window(&vec![]);
    assert_eq!(empty.subtitle, "0 add-ons compiled into this build");
    assert!(empty.cards.is_empty());
    let w = view_window(&vec![manifest(&["A"]), manifest(&[])]);
    assert_eq!(w.subtitle, "2 add-ons compiled into this build");
    assert_eq!(w.cards.len(), 2);
    assert_eq!(w.cards[0].commands, Some("Commands: A".to_string()));
    assert_eq!(w.cards[1].commands, None);
}

#[test]
fn update_notice_rows() {
    let n = update_notice::view_window("0.4.0", "0.3.2");
    assert_eq!(n.latest, "v0.4.0");
    assert_eq!(n.installed, "v0.3.2");
}
