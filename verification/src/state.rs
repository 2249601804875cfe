use vstd::prelude::*;
use crate::cache::{CacheStore, ClientLayout, spec_get};
use crate::host::{str_eq, mode_info_same, spec_mode_info_same, tabs_same, spec_tabs_same, 
    Capabilities, ClientInfo, InputMode, ModeInfo, PaneInfo, Palette, SessionInfo, TabInfo,
    TabPanes, ThemeHue, Color,
};
use crate::line::{compose, session_part_ok, spec_compose};
use crate::segment::LinePart;
use crate::session::{next_session_name, selection_ok};
use crate::tab::{session_segment, style_tabs, styled_ok};

verus! {

/// Index of the first tab flagged active, if any.
pub open spec fn first_active_tab(tabs: Seq<TabInfo>) -> Option<int>
    decreases tabs.len(),
{
    if tabs.len() == 0 {
        None
    } else if tabs[0].active {
        Some(0)
    } else {
        match first_active_tab(tabs.skip(1)) {
            Some(k) => Some(k + 1),
            None => None,
        }
    }
}

/// The first pane flagged focused, if any.
pub open spec fn spec_focused_pane(panes: Seq<PaneInfo>) -> Option<PaneInfo>
    decreases panes.len(),
{
    if panes.len() == 0 {
        None
    } else if panes[0].is_focused {
        Some(panes[0])
    } else {
        spec_focused_pane(panes.skip(1))
    }
}

/// The pane list of the tab at `pos`: the first group keyed by it, if any.
pub open spec fn spec_panes_for(groups: Seq<TabPanes>, pos: usize) -> Option<Seq<PaneInfo>>
    decreases groups.len(),
{
    if groups.len() == 0 {
        None
    } else if groups[0].tab_position == pos {
        Some(groups[0].panes@)
    } else {
        spec_panes_for(groups.skip(1), pos)
    }
}

/// The process id of the first client flagged current, if any.
pub open spec fn spec_current_client(clients: Seq<ClientInfo>) -> Option<u32>
    decreases clients.len(),
{
    if clients.len() == 0 {
        None
    } else if clients[0].is_current_client {
        Some(clients[0].client_pid)
    } else {
        spec_current_client(clients.skip(1))
    }
}

/// The 1-based ordinal a tab list puts the active tab at: the position of
/// the first descriptor flagged active, plus one; nothing when no tab is
/// active or the position would overflow the machine's range.
pub open spec fn spec_active_ordinal(tabs: Seq<TabInfo>) -> Option<usize> {
    match first_active_tab(tabs) {
        Some(i) => if tabs[i].position < usize::MAX {
            Some((tabs[i].position + 1) as usize)
        } else {
            None
        },
        None => None,
    }
}

/// Law: the computed active-tab ordinal equals the `position` of the
/// descriptor flagged active, 1-based.
pub proof fn lemma_active_tab_ordinal(tabs: Seq<TabInfo>)
    requires
        first_active_tab(tabs) matches Some(i) && tabs[i].position < usize::MAX,
    ensures
        first_active_tab(tabs) matches Some(i) && tabs[i].active && spec_active_ordinal(tabs)
            == Some((tabs[i].position + 1) as usize),
{
    lemma_first_active_tab_is_active(tabs);
}

/// A first active index points at an active tab inside the list.
pub proof fn lemma_first_active_tab_is_active(tabs: Seq<TabInfo>)
    ensures
        first_active_tab(tabs) matches Some(i) ==> 0 <= i < tabs.len() && tabs[i].active,
    decreases tabs.len(),
{
    if tabs.len() == 0 {
    } else if tabs[0].active {
    } else {
        lemma_first_active_tab_is_active(tabs.skip(1));
    }
}

/// What the resolver asks the host to do once a trigger is resolved.
#[derive(Debug)]
pub enum SwitchDecision {
    /// Stay in this session; no request is issued.
    NoOp,
    /// Switch plainly to the named session.
    Plain(String),
    /// Switch to the named session and restore the remembered focus.
    WithFocus(String, ClientLayout),
}

/// The plugin's whole state: what the host has told it, the strip it last
/// rendered, and the one value the switch protocol carries across
/// notifications.
pub struct State {
    pub tabs: Vec<TabInfo>,
    pub panes: Vec<TabPanes>,
    pub active_tab_idx: usize,
    pub mode_info: ModeInfo,
    pub tab_line: Vec<LinePart>,
    pub next_session: Option<String>,
    pub clients: Vec<ClientInfo>,
    pub switch_session_event_source_pid: Option<u32>,
    pub current_session: String,
    pub pid: u32,
}

impl State {
    /// The freshly loaded plugin: everything empty, nothing in flight.
    pub fn new() -> (r: State)
        ensures
            r.tabs@.len() == 0,
            r.panes@.len() == 0,
            r.active_tab_idx == 0,
            r.tab_line@.len() == 0,
            r.next_session is None,
            r.clients@.len() == 0,
            r.switch_session_event_source_pid is None,
            r.current_session@.len() == 0,
            r.pid == 0,
            r.mode_info.mode is Normal,
            r.mode_info.session_name is None,
    {
        State {
            tabs: Vec::new(),
            panes: Vec::new(),
            active_tab_idx: 0,
            mode_info: ModeInfo {
                mode: InputMode::Normal,
                session_name: None,
                palette: Palette {
                    fg: Color::EightBit(15),
                    bg: Color::EightBit(0),
                    black: Color::EightBit(0),
                    white: Color::EightBit(15),
                    yellow: Color::EightBit(11),
                    theme_hue: ThemeHue::Dark,
                    client_colors: Vec::new(),
                },
                capabilities: Capabilities { arrow_fonts: false },
            },
            tab_line: Vec::new(),
            next_session: None,
            clients: Vec::new(),
            switch_session_event_source_pid: None,
            current_session: String::new(),
            pid: 0,
        }
    }

    /// Takes a mode-change notification: the new mode is stored, and a
    /// render is requested exactly when it differs from the stored one.
    pub fn on_mode_update(&mut self, mode_info: ModeInfo) -> (should_render: bool)
        ensures
            *final(self) == (State { mode_info, ..*old(self) }),
            should_render == !spec_mode_info_same(old(self).mode_info, mode_info),
    {
        let changed = !mode_info_same(&self.mode_info, &mode_info);
        self.mode_info = mode_info;
        changed
    }

    /// Takes a tab-list notification. When some tab is active the list is
    /// stored with the active descriptor's 1-based ordinal, its `position`
    /// plus one, and a render is requested exactly when either differs from
    /// what was stored. A list with no active tab is ignored, as the host
    /// has broken its own contract, and so is one whose active position
    /// cannot carry a 1-based ordinal in the machine's range.
    pub fn on_tab_update(&mut self, tabs: Vec<TabInfo>) -> (should_render: bool)
        ensures
            (match spec_active_ordinal(tabs@) {
                Some(ord) => *final(self) == (State {
                    tabs,
                    active_tab_idx: ord,
                    ..*old(self)
                }) && should_render == (old(self).active_tab_idx != ord || !spec_tabs_same(
                    old(self).tabs@,
                    tabs@,
                )),
                None => *final(self) == *old(self) && !should_render,
            }),
    {
        let ghost t0 = tabs@;
        let mut i: usize = 0;
        let mut found: Option<usize> = None;
        proof {
            assert(t0.skip(0) =~= t0);
        }
        while i < tabs.len() && found.is_none()
            invariant
                i <= tabs.len(),
                tabs@ == t0,
                (match found {
                    Some(a) => first_active_tab(t0) == Some(a as int) && a < t0.len(),
                    None => first_active_tab(t0) == (match first_active_tab(t0.skip(i as int)) {
                        Some(k) => Some(k + i),
                        None => None::<int>,
                    }),
                }),
            decreases t0.len() - i, (if found is Some { 0int } else { 1int }),
        {
            proof {
                assert(t0.skip(i as int)[0] == t0[i as int]);
                assert(t0.skip(i as int).skip(1) =~= t0.skip(i as int + 1));
            }
            if tabs[i].active {
                found = Some(i);
            } else {
                i = i + 1;
            }
        }
        proof {
            if found is None {
                assert(i == tabs.len());
                assert(t0.skip(t0.len() as int) =~= Seq::<TabInfo>::empty());
            }
        }
        match found {
            Some(a) => {
                let pos = tabs[a].position;
                if pos == usize::MAX {
                    return false;
                }
                let ord = pos + 1;
                let changed = self.active_tab_idx != ord || !tabs_same(&self.tabs, &tabs);
                self.active_tab_idx = ord;
                self.tabs = tabs;
                changed
            },
            None => false,
        }
    }

    /// Takes a pane-list notification: the groups are stored; no render.
    pub fn on_pane_update(&mut self, panes: Vec<TabPanes>) -> (should_render: bool)
        ensures
            *final(self) == (State { panes, ..*old(self) }),
            !should_render,
    {
        self.panes = panes;
        false
    }

    /// Takes a session-list notification: the current session's name is
    /// stored; with more than one session the cyclic next-session candidate
    /// is recomputed, and with at most one any stored candidate is dropped,
    /// so a later trigger resolves to a no-op.
    pub fn on_session_update(&mut self, sessions: Vec<SessionInfo>) -> (should_render: bool)
        requires
            spec_current_client_session(sessions@) is Some,
        ensures
            (spec_current_client_session(sessions@) matches Some(n) ==> final(self).current_session@
                == n),
            sessions@.len() > 1 ==> (final(self).next_session matches Some(c) && selection_ok(
                sessions@,
                spec_current_client_session(sessions@)->Some_0,
                c@,
            )),
            sessions@.len() <= 1 ==> final(self).next_session is None,
            final(self).tabs == old(self).tabs,
            final(self).panes == old(self).panes,
            final(self).active_tab_idx == old(self).active_tab_idx,
            final(self).mode_info == old(self).mode_info,
            final(self).tab_line == old(self).tab_line,
            final(self).clients == old(self).clients,
            final(self).switch_session_event_source_pid == old(
                self,
            ).switch_session_event_source_pid,
            final(self).pid == old(self).pid,
            !should_render,
    {
        let ghost s0 = sessions@;
        let mut i: usize = 0;
        let mut cur: Option<usize> = None;
        proof {
            assert(s0.skip(0) =~= s0);
        }
        while i < sessions.len() && cur.is_none()
            invariant
                i <= sessions.len(),
                sessions@ == s0,
                (match cur {
                    Some(a) => a < s0.len() && spec_current_client_session(s0) == Some(
                        s0[a as int].name@,
                    ),
                    None => spec_current_client_session(s0) == spec_current_client_session(
                        s0.skip(i as int),
                    ),
                }),
            decreases s0.len() - i, (if cur is Some { 0int } else { 1int }),
        {
            proof {
                assert(s0.skip(i as int)[0] == s0[i as int]);
                assert(s0.skip(i as int).skip(1) =~= s0.skip(i as int + 1));
            }
            if sessions[i].is_current_session {
                cur = Some(i);
            } else {
                i = i + 1;
            }
        }
        let c = match cur {
            Some(c) => c,
            None => {
                proof {
                    assert(s0.skip(s0.len() as int) =~= Seq::<SessionInfo>::empty());
                    assert(false);
                }
                return false;
            },
        };
        self.current_session = sessions[c].name.clone();
        let cand = next_session_name(&sessions, self.current_session.as_str());
        self.next_session = cand;
        false
    }

    /// Takes the named-pipe trigger: a switch trigger stores the trigger's
    /// originating process id and asks for a client list; any other message
    /// changes nothing.
    pub fn on_pipe(&mut self, name: &str, source_pid: Option<u32>) -> (request_clients: bool)
        ensures
            name@ == "switch_session"@ ==> *final(self) == (State {
                switch_session_event_source_pid: source_pid,
                ..*old(self)
            }) && request_clients,
            name@ != "switch_session"@ ==> *final(self) == *old(self) && !request_clients,
    {
        if str_eq(name, "switch_session") {
            self.switch_session_event_source_pid = source_pid;
            true
        } else {
            false
        }
    }

    /// Takes the client list that the trigger asked for, and resolves the
    /// trigger: the target session's name is returned exactly when this
    /// client is the one the trigger came from and a next session is known.
    /// The stored trigger id is cleared unconditionally.
    pub fn on_client_list(&mut self, clients: Vec<ClientInfo>) -> (target: Option<String>)
        ensures
            final(self).switch_session_event_source_pid is None,
            final(self).clients == clients,
            (match target {
                Some(t) => old(self).current_session@.len() > 0 && (spec_current_client(clients@)
                    matches Some(p) && final(self).pid == p
                    && old(self).switch_session_event_source_pid == Some(p)
                    && (old(self).next_session matches Some(n) && t@ == n@)),
                None => old(self).current_session@.len() == 0 || spec_current_client(clients@)
                    is None || (spec_current_client(clients@) matches Some(p)
                    && (old(self).switch_session_event_source_pid != Some(p)
                    || old(self).next_session is None)),
            }),
            old(self).current_session@.len() > 0 ==> (spec_current_client(clients@) matches Some(
                p,
            ) ==> final(self).pid == p),
            (old(self).current_session@.len() == 0 || spec_current_client(clients@) is None)
                ==> final(self).pid == old(self).pid,
            final(self).tabs == old(self).tabs,
            final(self).panes == old(self).panes,
            final(self).active_tab_idx == old(self).active_tab_idx,
            final(self).mode_info == old(self).mode_info,
            final(self).tab_line == old(self).tab_line,
            final(self).next_session == old(self).next_session,
            final(self).current_session == old(self).current_session,
    {
        let ghost c0 = clients@;
        self.clients = clients;
        let mut i: usize = 0;
        let mut found: Option<u32> = None;
        proof {
            assert(c0.skip(0) =~= c0);
        }
        while i < self.clients.len() && found.is_none()
            invariant
                i <= self.clients.len(),
                self.clients@ == c0,
                (match found {
                    Some(p) => spec_current_client(c0) == Some(p),
                    None => spec_current_client(c0) == spec_current_client(c0.skip(i as int)),
                }),
            decreases c0.len() - i, (if found is Some { 0int } else { 1int }),
        {
            proof {
                assert(c0.skip(i as int)[0] == c0[i as int]);
                assert(c0.skip(i as int).skip(1) =~= c0.skip(i as int + 1));
            }
            if self.clients[i].is_current_client {
                found = Some(self.clients[i].client_pid);
            } else {
                i = i + 1;
            }
        }
        proof {
            if found is None {
                assert(i == c0.len());
                assert(c0.skip(c0.len() as int) =~= Seq::<ClientInfo>::empty());
            }
        }
        let source = self.switch_session_event_source_pid;
        self.switch_session_event_source_pid = None;
        if self.current_session.as_str().is_empty() {
            return None;
        }
        let p = match found {
            Some(p) => p,
            None => {
                return None;
            },
        };
        self.pid = p;
        let matches_source = match source {
            Some(sp) => sp == p,
            None => false,
        };
        if !matches_source {
            return None;
        }
        match &self.next_session {
            Some(n) => Some(n.clone()),
            None => None,
        }
    }

    /// The focus to remember for this client: the first active tab's
    /// position and the first focused pane in that tab's group; nothing when
    /// either is absent, and then nothing is written.
    pub fn current_layout(&self) -> (r: Option<ClientLayout>)
        ensures
            (match first_active_tab(self.tabs@) {
                None => r is None,
                Some(i) => (match spec_panes_for(self.panes@, self.tabs@[i].position) {
                    None => r is None,
                    Some(group) => (match spec_focused_pane(group) {
                        None => r is None,
                        Some(pane) => r == Some(ClientLayout {
                            tab_idx: self.tabs@[i].position,
                            pane_id: pane.id,
                            pane_is_plugin: pane.is_plugin,
                        }),
                    }),
                }),
            }),
    {
        let tab_pos = match self.find_active_tab_position() {
            Some(p) => p,
            None => {
                return None;
            },
        };
        let group_idx = match self.find_panes_for(tab_pos) {
            Some(g) => g,
            None => {
                return None;
            },
        };
        let pane = match Self::find_focused_pane(&self.panes[group_idx].panes) {
            Some(p) => p,
            None => {
                return None;
            },
        };
        Some(ClientLayout { tab_idx: tab_pos, pane_id: pane.id, pane_is_plugin: pane.is_plugin })
    }

    /// The position of the first active tab.
    fn find_active_tab_position(&self) -> (r: Option<usize>)
        ensures
            (match first_active_tab(self.tabs@) {
                Some(i) => r == Some(self.tabs@[i].position),
                None => r is None,
            }),
    {
        let ghost t0 = self.tabs@;
        let mut i: usize = 0;
        proof {
            assert(t0.skip(0) =~= t0);
        }
        while i < self.tabs.len()
            invariant
                i <= t0.len(),
                self.tabs@ == t0,
                first_active_tab(t0) == (match first_active_tab(t0.skip(i as int)) {
                    Some(k) => Some(k + i),
                    None => None::<int>,
                }),
            decreases t0.len() - i,
        {
            proof {
                assert(t0.skip(i as int)[0] == t0[i as int]);
                assert(t0.skip(i as int).skip(1) =~= t0.skip(i as int + 1));
            }
            if self.tabs[i].active {
                return Some(self.tabs[i].position);
            }
            i = i + 1;
        }
        proof {
            assert(t0.skip(t0.len() as int) =~= Seq::<TabInfo>::empty());
        }
        None
    }

    /// The index of the pane group keyed by `pos`.
    fn find_panes_for(&self, pos: usize) -> (r: Option<usize>)
        ensures
            (match r {
                Some(g) => g < self.panes@.len() && spec_panes_for(self.panes@, pos) == Some(
                    self.panes@[g as int].panes@,
                ),
                None => spec_panes_for(self.panes@, pos) is None,
            }),
    {
        let ghost g0 = self.panes@;
        let mut i: usize = 0;
        proof {
            assert(g0.skip(0) =~= g0);
        }
        while i < self.panes.len()
            invariant
                i <= g0.len(),
                self.panes@ == g0,
                spec_panes_for(g0, pos) == spec_panes_for(g0.skip(i as int), pos),
            decreases g0.len() - i,
        {
            proof {
                assert(g0.skip(i as int)[0] == g0[i as int]);
                assert(g0.skip(i as int).skip(1) =~= g0.skip(i as int + 1));
            }
            if self.panes[i].tab_position == pos {
                return Some(i);
            }
            i = i + 1;
        }
        proof {
            assert(g0.skip(g0.len() as int) =~= Seq::<TabPanes>::empty());
        }
        None
    }

    /// The first focused pane in a group.
    fn find_focused_pane(panes: &Vec<PaneInfo>) -> (r: Option<PaneInfo>)
        ensures
            r == spec_focused_pane(panes@),
    {
        let ghost p0 = panes@;
        let mut i: usize = 0;
        proof {
            assert(p0.skip(0) =~= p0);
        }
        while i < panes.len()
            invariant
                i <= p0.len(),
                panes@ == p0,
                spec_focused_pane(p0) == spec_focused_pane(p0.skip(i as int)),
            decreases p0.len() - i,
        {
            proof {
                assert(p0.skip(i as int)[0] == p0[i as int]);
                assert(p0.skip(i as int).skip(1) =~= p0.skip(i as int + 1));
            }
            if panes[i].is_focused {
                return Some(panes[i]);
            }
            i = i + 1;
        }
        proof {
            assert(p0.skip(p0.len() as int) =~= Seq::<PaneInfo>::empty());
        }
        None
    }
}

/// The name of the first session flagged current, if any.
pub open spec fn spec_current_client_session(ss: Seq<SessionInfo>) -> Option<Seq<char>>
    decreases ss.len(),
{
    if ss.len() == 0 {
        None
    } else if ss[0].is_current_session {
        Some(ss[0].name@)
    } else {
        spec_current_client_session(ss.skip(1))
    }
}

/// The 1-based tab ordinal a scroll up moves to: one past the active tab,
/// held at the last tab.
pub fn scroll_up_target(active_tab_idx: usize, tab_count: usize) -> (r: usize)
    ensures
        r == (if active_tab_idx + 1 <= tab_count {
            active_tab_idx + 1
        } else {
            tab_count as int
        }),
{
    let up = active_tab_idx.saturating_add(1);
    if up <= tab_count {
        up
    } else {
        tab_count
    }
}

/// The 1-based tab ordinal a scroll down moves to: one before the active
/// tab, held at the first.
pub fn scroll_down_target(active_tab_idx: usize) -> (r: usize)
    ensures
        r == (if active_tab_idx - 1 >= 1 {
            active_tab_idx - 1
        } else {
            1int
        }),
{
    let down = active_tab_idx.saturating_sub(1);
    if down >= 1 {
        down
    } else {
        1
    }
}

/// Resolves the target session's remembered focus: a remembered layout for
/// this client restores it, and none asks for a plain switch.
pub fn plan_switch(target: String, store: &CacheStore, pid: u32) -> (r: SwitchDecision)
    ensures
        (match spec_get(store.entries@, pid) {
            Some(l) => r matches SwitchDecision::WithFocus(t, got) && t@ == target@ && got == l,
            None => r matches SwitchDecision::Plain(t) && t@ == target@,
        }),
{
    match store.get(pid) {
        Some(l) => SwitchDecision::WithFocus(target, l),
        None => SwitchDecision::Plain(target),
    }
}

/// The styled segments and session prefix that witness a rendered strip:
/// each tab styled in order, the session prefix as the capabilities demand,
/// and the stored strip composed from them within the budget.
pub open spec fn render_witness(
    styled: Seq<LinePart>,
    sess: Option<LinePart>,
    pre: State,
    line: Seq<LinePart>,
    budget: int,
) -> bool {
    styled.len() == pre.tabs@.len() && (forall|k: int|
        0 <= k < styled.len() ==> styled_ok(
            pre.tabs@[k],
            k,
            pre.mode_info.mode,
            pre.mode_info.palette,
            #[trigger] styled[k],
        )) && session_part_ok(
        spec_session_name(pre.mode_info),
        pre.mode_info.palette,
        pre.mode_info.capabilities,
        sess,
    ) && line == spec_compose(sess, styled, spec_active_position(pre.tabs@), budget)
}

/// The column budget the strip is composed within: one less than the
/// width, for the cursor cell.
pub open spec fn spec_budget(cols: usize) -> int {
    if cols > 0 {
        cols - 1
    } else {
        0
    }
}

/// The text of a whole strip: its segments' styled texts, in order.
pub open spec fn strip_text(parts: Seq<LinePart>) -> Seq<char>
    decreases parts.len(),
{
    if parts.len() == 0 {
        Seq::empty()
    } else {
        parts[0].part@ + strip_text(parts.skip(1))
    }
}

/// The 0-based position the layout engine keeps visible: the first active
/// tab's, or zero when no tab is active.
pub open spec fn spec_active_position(tabs: Seq<TabInfo>) -> usize {
    match first_active_tab(tabs) {
        Some(i) => tabs[i].position,
        None => 0,
    }
}

/// The session name the strip may prepend, as characters.
pub open spec fn spec_session_name(m: ModeInfo) -> Option<Seq<char>> {
    match m.session_name {
        Some(n) => Some(n@),
        None => None,
    }
}

/// The background the caller fills the rest of the line with: black on a
/// dark theme, white on a light one.
pub open spec fn spec_background(p: Palette) -> Color {
    if p.theme_hue is Dark {
        p.black
    } else {
        p.white
    }
}

impl State {
    /// Renders the strip into one styled line. With no tabs nothing is
    /// rendered; otherwise the strip is rebuilt from the stored tabs and
    /// mode, kept to one column less than the width, stored, and returned
    /// as text together with the fill color for the remaining columns.
    pub fn render_line(&mut self, cols: usize) -> (r: Option<(String, Color)>)
        ensures
            old(self).tabs@.len() == 0 ==> r is None && *final(self) == *old(self),
            old(self).tabs@.len() > 0 ==> (exists|styled: Seq<LinePart>, sess: Option<LinePart>|
                #[trigger] render_witness(
                    styled,
                    sess,
                    *old(self),
                    final(self).tab_line@,
                    spec_budget(cols),
                )),
            old(self).tabs@.len() > 0 ==> (r matches Some(out) && out.0@ == strip_text(
                final(self).tab_line@,
            ) && out.1 == spec_background(old(self).mode_info.palette)),
            final(self).tabs == old(self).tabs,
            final(self).panes == old(self).panes,
            final(self).active_tab_idx == old(self).active_tab_idx,
            final(self).mode_info == old(self).mode_info,
            final(self).next_session == old(self).next_session,
            final(self).clients == old(self).clients,
            final(self).switch_session_event_source_pid == old(
                self,
            ).switch_session_event_source_pid,
            final(self).current_session == old(self).current_session,
            final(self).pid == old(self).pid,
    {
        if self.tabs.len() == 0 {
            return None;
        }
        let styled = style_tabs(&self.tabs, self.mode_info.mode, &self.mode_info.palette);
        let ghost styled_view = styled@;
        let active_pos = match self.find_active_tab_position() {
            Some(p) => p,
            None => 0,
        };
        let session_part: Option<LinePart> = match &self.mode_info.session_name {
            Some(n) => if self.mode_info.capabilities.arrow_fonts {
                None
            } else {
                Some(session_segment(n, &self.mode_info.palette))
            },
            None => None,
        };
        let ghost sess_view = session_part;
        let budget = if cols > 0 {
            cols - 1
        } else {
            0
        };
        self.tab_line = compose(session_part, styled, active_pos, budget);
        let mut out = String::new();
        let mut i: usize = 0;
        let ghost line0 = self.tab_line@;
        proof {
            assert(line0.skip(0) =~= line0);
            assert(out@ + strip_text(line0) =~= strip_text(line0));
        }
        while i < self.tab_line.len()
            invariant
                i <= self.tab_line@.len(),
                self.tab_line@ == line0,
                out@ + strip_text(line0.skip(i as int)) == strip_text(line0),
            decreases self.tab_line@.len() - i,
        {
            proof {
                assert(line0.skip(i as int)[0] == line0[i as int]);
                assert(line0.skip(i as int).skip(1) =~= line0.skip(i as int + 1));
            }
            let ghost out_pre = out@;
            out.append(self.tab_line[i].part.as_str());
            proof {
                assert(out@ + strip_text(line0.skip(i as int + 1)) =~= out_pre + (line0[i as int].part@
                    + strip_text(line0.skip(i as int + 1))));
            }
            i = i + 1;
        }
        proof {
            assert(line0.skip(line0.len() as int) =~= Seq::<LinePart>::empty());
            assert(out@ + strip_text(line0.skip(line0.len() as int)) =~= out@);
        }
        let bg = if matches!(self.mode_info.palette.theme_hue, ThemeHue::Dark) {
            self.mode_info.palette.black
        } else {
            self.mode_info.palette.white
        };
        proof {
            assert(render_witness(
                styled_view,
                sess_view,
                *old(self),
                self.tab_line@,
                spec_budget(cols),
            ));
        }
        Some((out, bg))
    }
}} // verus!
