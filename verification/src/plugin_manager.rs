//! The Plugin Manager window: the read-only list of the add-ons compiled into
//! this build (name, version, id, API level, description, commands).

use vstd::prelude::*;
use crate::text::{decimal, join, join_strings, u64_to_decimal, version_label, views};

verus! {

/// What the window shows of one installed plugin.
pub struct PluginManifest {
    pub id: String,
    pub name: String,
    pub version: String,
    pub description: String,
    /// The major number of the plugin API the plugin was built against.
    pub api_major: u64,
    /// The command prefixes the plugin registers.
    pub command_prefixes: Vec<String>,
}

/// The text of one plugin's card.
pub struct PluginCard {
    pub name: String,
    /// `v` followed by the version.
    pub version_badge: String,
    /// `API ` followed by the major API number.
    pub api_badge: String,
    pub id: String,
    pub description: String,
    /// `Commands: ` and the command prefixes joined by `, `, where the plugin
    /// registers any.
    pub commands: Option<String>,
}

/// The text of the window apart from its fixed labels.
pub struct PluginWindow {
    /// How many add-ons are compiled into this build.
    pub subtitle: String,
    /// One card per plugin, in the order given; none when there are no
    /// plugins (the window then says that no plugins are installed).
    pub cards: Vec<PluginCard>,
}

/// `"{n} add-on{s} compiled into this build"`, with the plural `s` unless
/// there is exactly one.
pub open spec fn subtitle_text(n: nat) -> Seq<char> {
    decimal(n) + " add-on"@ + (if n == 1 { Seq::empty() } else { "s"@ }) + " compiled into this build"@
}

/// The commands line of a plugin with the command prefixes `prefixes`.
pub open spec fn commands_text(prefixes: Seq<Seq<char>>) -> Option<Seq<char>> {
    if prefixes.len() == 0 {
        None
    } else {
        Some("Commands: "@ + join(prefixes, ", "@))
    }
}

/// Whether `card` shows the plugin `m`.
pub open spec fn card_of(m: PluginManifest, card: PluginCard) -> bool {
    &&& card.name@ == m.name@
    &&& card.version_badge@ == seq!['v'] + m.version@
    &&& card.api_badge@ == "API "@ + decimal(m.api_major as nat)
    &&& card.id@ == m.id@
    &&& card.description@ == m.description@
    &&& match card.commands {
        Some(c) => commands_text(views(m.command_prefixes@)) == Some(c@),
        None => commands_text(views(m.command_prefixes@)) is None,
    }
}

/// The subtitle for `n` compiled-in add-ons.
pub fn subtitle(n: usize) -> (s: String)
    ensures
        s@ == subtitle_text(n as nat),
{
    let mut s = u64_to_decimal(n as u64);
    s.append(" add-on");
    if n != 1 {
        s.append("s");
    }
    s.append(" compiled into this build");
    s
}

/// The card text of the plugin `m`.
pub fn plugin_card(m: &PluginManifest) -> (card: PluginCard)
    ensures
        card_of(*m, card),
{
    let mut api_badge = String::new();
    api_badge.append("API ");
    let major = u64_to_decimal(m.api_major);
    api_badge.append(major.as_str());
    let commands = if m.command_prefixes.len() == 0 {
        None
    } else {
        let mut c = String::new();
        c.append("Commands: ");
        let joined = join_strings(&m.command_prefixes, ", ");
        c.append(joined.as_str());
        Some(c)
    };
    PluginCard {
        name: m.name.clone(),
        version_badge: version_label(m.version.as_str()),
        api_badge,
        id: m.id.clone(),
        description: m.description.clone(),
        commands,
    }
}

/// The Plugin Manager window's text for the installed `plugins`.
pub fn view_window(plugins: &Vec<PluginManifest>) -> (w: PluginWindow)
    ensures
        w.subtitle@ == subtitle_text(plugins.len() as nat),
        w.cards.len() == plugins.len(),
        forall|i: int| 0 <= i < plugins.len() ==> card_of(plugins@[i], #[trigger] w.cards@[i]),
{
    let mut cards: Vec<PluginCard> = Vec::new();
    let mut i: usize = 0;
    while i < plugins.len()
        invariant
            i <= plugins.len(),
            cards.len() == i,
            forall|k: int| 0 <= k < i ==> card_of(plugins@[k], #[trigger] cards@[k]),
        decreases plugins.len() - i,
    {
        cards.push(plugin_card(&plugins[i]));
        i = i + 1;
    }
    PluginWindow { subtitle: subtitle(plugins.len()), cards }
}

/// The subtitle is singular for exactly one add-on and plural for every
/// other count (0, 2, 11, 21, ...).
pub proof fn lemma_subtitle_plural(n: nat)
    ensures
        n == 1 ==> subtitle_text(n) == decimal(n) + " add-on compiled into this build"@,
        n != 1 ==> subtitle_text(n) == decimal(n) + " add-ons compiled into this build"@,
{
    reveal_strlit(" add-on");
    reveal_strlit("s");
    reveal_strlit(" compiled into this build");
    reveal_strlit(" add-on compiled into this build");
    reveal_strlit(" add-ons compiled into this build");
    if n == 1 {
        assert(subtitle_text(n) =~= decimal(n) + " add-on compiled into this build"@);
    } else {
        assert(subtitle_text(n) =~= decimal(n) + " add-ons compiled into this build"@);
    }
}

} // verus!
