use vstd::prelude::*;

verus! {

/// A terminal color as the host palette resolves it: a 24-bit RGB triple or
/// an 8-bit indexed color.
#[derive(Clone, Copy, Debug, PartialEq, Eq, Structural)]
pub enum Color {
    Rgb(u8, u8, u8),
    EightBit(u8),
}

/// Whether the host theme is dark or light.
#[derive(Clone, Copy, Debug, PartialEq, Eq, Structural)]
pub enum ThemeHue {
    Dark,
    Light,
}

/// The colors the strip draws with, plus one color per client cursor slot.
/// Client id `c` has a resolvable color exactly when
/// `1 <= c <= client_colors.len()`.
#[derive(Debug)]
pub struct Palette {
    pub fg: Color,
    pub bg: Color,
    pub black: Color,
    pub white: Color,
    pub yellow: Color,
    pub theme_hue: ThemeHue,
    pub client_colors: Vec<Color>,
}

/// The host's input mode; the strip only distinguishes tab renaming from
/// everything else.
#[derive(Clone, Copy, Debug, PartialEq, Eq, Structural)]
pub enum InputMode {
    Normal,
    RenameTab,
    Other,
}

/// The host capabilities the strip reacts to: arrow fonts replace the plain
/// session-name prefix, so the prefix is drawn only without them.
#[derive(Clone, Copy, Debug, PartialEq, Eq, Structural)]
pub struct Capabilities {
    pub arrow_fonts: bool,
}

/// One tab as the host describes it in a tab-list notification.
#[derive(Debug)]
pub struct TabInfo {
    /// 0-based position of the tab among its siblings.
    pub position: usize,
    pub name: String,
    pub active: bool,
    pub is_sync_panes_active: bool,
    /// Ids of other clients whose focus is inside this tab.
    pub other_focused_clients: Vec<u16>,
}

/// One pane as the host describes it in a pane-list notification.
#[derive(Clone, Copy, Debug, PartialEq, Eq, Structural)]
pub struct PaneInfo {
    pub id: u32,
    pub is_plugin: bool,
    pub is_focused: bool,
}

/// The panes of one tab, keyed by the tab's 0-based position.
#[derive(Debug)]
pub struct TabPanes {
    pub tab_position: usize,
    pub panes: Vec<PaneInfo>,
}

/// One session as the host describes it in a session-list notification.
#[derive(Debug)]
pub struct SessionInfo {
    pub name: String,
    pub is_current_session: bool,
}

/// One connected client as the host describes it in a client-list
/// notification.
#[derive(Clone, Copy, Debug, PartialEq, Eq, Structural)]
pub struct ClientInfo {
    pub client_pid: u32,
    pub is_current_client: bool,
}

/// Everything the strip reads from a mode-change notification.
#[derive(Debug)]
pub struct ModeInfo {
    pub mode: InputMode,
    pub session_name: Option<String>,
    pub palette: Palette,
    pub capabilities: Capabilities,
}

/// Whether two palettes hold the same colors.
pub open spec fn spec_palette_same(a: Palette, b: Palette) -> bool {
    a.fg == b.fg && a.bg == b.bg && a.black == b.black && a.white == b.white && a.yellow
        == b.yellow && a.theme_hue == b.theme_hue && a.client_colors@ == b.client_colors@
}

/// Whether two mode notifications carry the same information.
pub open spec fn spec_mode_info_same(a: ModeInfo, b: ModeInfo) -> bool {
    a.mode == b.mode && (match (a.session_name, b.session_name) {
        (Some(x), Some(y)) => x@ == y@,
        (None, None) => true,
        _ => false,
    }) && spec_palette_same(a.palette, b.palette) && a.capabilities == b.capabilities
}

/// Whether two tab descriptors carry the same information.
pub open spec fn spec_tab_same(a: TabInfo, b: TabInfo) -> bool {
    a.position == b.position && a.name@ == b.name@ && a.active == b.active
        && a.is_sync_panes_active == b.is_sync_panes_active && a.other_focused_clients@
        == b.other_focused_clients@
}

/// Whether two tab lists carry the same information.
pub open spec fn spec_tabs_same(a: Seq<TabInfo>, b: Seq<TabInfo>) -> bool {
    a.len() == b.len() && forall|i: int| 0 <= i < a.len() ==> spec_tab_same(#[trigger] a[i], b[i])
}

/// Whether two palettes hold the same colors.
pub fn palette_same(a: &Palette, b: &Palette) -> (r: bool)
    ensures
        r == spec_palette_same(*a, *b),
{
    if !(a.fg == b.fg && a.bg == b.bg && a.black == b.black && a.white == b.white && a.yellow
        == b.yellow && a.theme_hue == b.theme_hue) {
        return false;
    }
    if a.client_colors.len() != b.client_colors.len() {
        proof {
            assert(a.client_colors@ != b.client_colors@);
        }
        return false;
    }
    let mut i: usize = 0;
    while i < a.client_colors.len()
        invariant
            i <= a.client_colors@.len(),
            a.client_colors@.len() == b.client_colors@.len(),
            forall|k: int| 0 <= k < i ==> a.client_colors@[k] == b.client_colors@[k],
        decreases a.client_colors@.len() - i,
    {
        if a.client_colors[i] != b.client_colors[i] {
            proof {
                assert(a.client_colors@[i as int] != b.client_colors@[i as int]);
            }
            return false;
        }
        i = i + 1;
    }
    proof {
        assert(a.client_colors@ =~= b.client_colors@);
    }
    true
}

/// Whether two mode notifications carry the same information.
pub fn mode_info_same(a: &ModeInfo, b: &ModeInfo) -> (r: bool)
    ensures
        r == spec_mode_info_same(*a, *b),
{
    if a.mode != b.mode || a.capabilities != b.capabilities {
        return false;
    }
    let names_same = match (&a.session_name, &b.session_name) {
        (Some(x), Some(y)) => str_eq(x.as_str(), y.as_str()),
        (None, None) => true,
        _ => false,
    };
    if !names_same {
        return false;
    }
    palette_same(&a.palette, &b.palette)
}

/// Whether two tab lists carry the same information.
pub fn tabs_same(a: &Vec<TabInfo>, b: &Vec<TabInfo>) -> (r: bool)
    ensures
        r == spec_tabs_same(a@, b@),
{
    if a.len() != b.len() {
        return false;
    }
    let mut i: usize = 0;
    while i < a.len()
        invariant
            i <= a@.len(),
            a@.len() == b@.len(),
            forall|k: int| 0 <= k < i ==> spec_tab_same(#[trigger] a@[k], b@[k]),
        decreases a@.len() - i,
    {
        let ta = &a[i];
        let tb = &b[i];
        if ta.position != tb.position || ta.active != tb.active || ta.is_sync_panes_active
            != tb.is_sync_panes_active {
            return false;
        }
        if !(ta.name == tb.name) {
            return false;
        }
        if ta.other_focused_clients.len() != tb.other_focused_clients.len() {
            proof {
                assert(ta.other_focused_clients@ != tb.other_focused_clients@);
            }
            return false;
        }
        let mut j: usize = 0;
        while j < ta.other_focused_clients.len()
            invariant
                j <= ta.other_focused_clients@.len(),
                ta.other_focused_clients@.len() == tb.other_focused_clients@.len(),
                ta == &a@[i as int] && tb == &b@[i as int],
                i < a@.len() && i < b@.len(),
                forall|k: int|
                    0 <= k < j ==> ta.other_focused_clients@[k] == tb.other_focused_clients@[k],
            decreases ta.other_focused_clients@.len() - j,
        {
            if ta.other_focused_clients[j] != tb.other_focused_clients[j] {
                proof {
                    assert(ta.other_focused_clients@[j as int]
                        != tb.other_focused_clients@[j as int]);
                }
                return false;
            }
            j = j + 1;
        }
        proof {
            assert(ta.other_focused_clients@ =~= tb.other_focused_clients@);
        }
        i = i + 1;
    }
    true
}

/// Whether two pieces of text hold the same characters.
pub fn str_eq(a: &str, b: &str) -> (r: bool)
    ensures
        r == (a@ == b@),
{
    let la = a.unicode_len();
    let lb = b.unicode_len();
    if la != lb {
        proof {
            assert(a@ != b@);
        }
        return false;
    }
    let mut i: usize = 0;
    while i < la
        invariant
            i <= la,
            la == a@.len() && lb == b@.len() && la == lb,
            forall|k: int| 0 <= k < i ==> a@[k] == b@[k],
        decreases la - i,
    {
        let ca = a.get_char(i);
        let cb = b.get_char(i);
        if ca != cb {
            proof {
                assert(a@[i as int] != b@[i as int]);
            }
            return false;
        }
        i = i + 1;
    }
    proof {
        assert(a@ =~= b@);
    }
    true
}

} // verus!
