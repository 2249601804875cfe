use vstd::prelude::*;
use crate::cache::{enc_u64, lemma_enc_u64_props, push_u64};
use crate::host::{Color, InputMode, Palette, TabInfo, ThemeHue};
use crate::segment::LinePart;

verus! {

/// What styling an outside terminal-styling call produces for the given
/// text, foreground, background and boldness; the result depends on those
/// arguments alone.
pub uninterp spec fn painted_of(text: Seq<char>, fg: Color, bg: Color, bold: bool) -> Seq<char>;

/// The display width in columns of the given text; it depends on the
/// characters alone.
pub uninterp spec fn width_of(text: Seq<char>) -> nat;

/// Relies on ansi_term's `Style::paint` (with `Style::new`, `fg`, `on` and
/// `bold` choosing the style): the painted text is a function of the input
/// text and the chosen colors and boldness alone.
#[verifier::external_body]
pub(crate) fn paint(text: &str, fg: Color, bg: Color, bold: bool) -> (r: String)
    ensures
        r@ == painted_of(text@, fg, bg, bold),
{
    let f = match fg {
        Color::Rgb(r, g, b) => ansi_term::Colour::RGB(r, g, b),
        Color::EightBit(c) => ansi_term::Colour::Fixed(c),
    };
    let b = match bg {
        Color::Rgb(r, g, b) => ansi_term::Colour::RGB(r, g, b),
        Color::EightBit(c) => ansi_term::Colour::Fixed(c),
    };
    let style = ansi_term::Style::new().fg(f).on(b);
    let style = if bold { style.bold() } else { style };
    style.paint(text).to_string()
}

/// Relies on unicode_width's `UnicodeWidthStr::width`: the display width in
/// columns is a function of the text's characters alone.
#[verifier::external_body]
pub(crate) fn display_width(text: &str) -> (r: usize)
    ensures
        r as nat == width_of(text@),
{
    unicode_width::UnicodeWidthStr::width(text)
}

/// The tab name with one leading and one trailing space.
pub open spec fn padded(text: Seq<char>) -> Seq<char> {
    seq![' '] + text + seq![' ']
}

/// Whether client id `c` has a resolvable cursor color in `colors`.
pub open spec fn resolvable(c: u16, colors: Seq<Color>) -> bool {
    1 <= c && c <= colors.len()
}

/// How many of the given clients have a resolvable cursor color.
pub open spec fn cursor_count(clients: Seq<u16>, colors: Seq<Color>) -> nat
    decreases clients.len(),
{
    if clients.len() == 0 {
        0
    } else {
        (if resolvable(clients[0], colors) {
            1nat
        } else {
            0nat
        }) + cursor_count(clients.skip(1), colors)
    }
}

/// The cursor glyphs for the given clients, in list order: one painted cell
/// per client with a resolvable color.
pub open spec fn cursor_glyphs(clients: Seq<u16>, colors: Seq<Color>) -> Seq<char>
    decreases clients.len(),
{
    if clients.len() == 0 {
        Seq::empty()
    } else {
        (if resolvable(clients[0], colors) {
            painted_of(seq![' '], colors[clients[0] - 1], colors[clients[0] - 1], false)
        } else {
            Seq::empty()
        }) + cursor_glyphs(clients.skip(1), colors)
    }
}

/// The focused-client section of a tab segment: the cursor glyphs wrapped in
/// a bracket pair, or nothing when no client has a resolvable color.
pub open spec fn cursor_section(clients: Seq<u16>, colors: Seq<Color>) -> Seq<char> {
    if cursor_count(clients, colors) > 0 {
        seq!['['] + cursor_glyphs(clients, colors) + seq![']']
    } else {
        Seq::empty()
    }
}

/// The columns the focused-client section adds: one per resolvable client,
/// plus two for the bracket pair when there is at least one.
pub open spec fn cursor_width(clients: Seq<u16>, colors: Seq<Color>) -> nat {
    cursor_count(clients, colors) + (if cursor_count(clients, colors) > 0 {
        2nat
    } else {
        0nat
    })
}

/// The foreground, background and boldness a tab segment is painted with:
/// the selected combination for the active tab, and a neutral pair for the
/// others, swapped between the dark and the light theme.
pub open spec fn tab_colors(active: bool, p: Palette) -> (Color, Color, bool) {
    if active {
        (p.black, p.yellow, true)
    } else if p.theme_hue is Dark {
        (p.fg, p.bg, false)
    } else {
        (p.bg, p.fg, false)
    }
}

/// Addition capped at the machine's largest width.
pub open spec fn sat_add(a: nat, b: nat) -> nat {
    if a + b <= usize::MAX {
        a + b
    } else {
        usize::MAX as nat
    }
}

/// The segment text a tab renders as: the padded name painted in the tab's
/// colors, followed by the focused-client section.
pub open spec fn tab_part(text: Seq<char>, tab: TabInfo, p: Palette) -> Seq<char> {
    painted_of(padded(text), tab_colors(tab.active, p).0, tab_colors(tab.active, p).1, tab_colors(
        tab.active,
        p,
    ).2) + cursor_section(tab.other_focused_clients@, p.client_colors@)
}

/// The width in columns of a tab's segment, capped at the machine limit.
pub open spec fn tab_width(text: Seq<char>, tab: TabInfo, p: Palette) -> nat {
    sat_add(width_of(padded(text)), cursor_width(tab.other_focused_clients@, p.client_colors@))
}

/// Renders one tab as a strip segment: the padded display name painted in
/// the tab's colors, the cursor glyphs of the other focused clients, and the
/// measured width.
pub fn render_tab(text: String, tab: &TabInfo, palette: &Palette) -> (r: LinePart)
    ensures
        r.tab_index == Some(tab.position),
        r.part@ == tab_part(text@, *tab, *palette),
        r.len as nat == tab_width(text@, *tab, *palette),
{
    let mut padded_text = String::new();
    padded_text.append(" ");
    padded_text.append(text.as_str());
    padded_text.append(" ");
    proof {
        reveal_strlit(" ");
        assert(padded_text@ =~= padded(text@));
    }
    let w = display_width(padded_text.as_str());

    let clients = &tab.other_focused_clients;
    let colors = &palette.client_colors;
    let mut count: usize = 0;
    let mut glyphs = String::new();
    let mut k: usize = 0;
    proof {
        assert(clients@.skip(0) =~= clients@);
    }
    while k < clients.len()
        invariant
            k <= clients.len(),
            count <= k,
            cursor_count(clients@, colors@) == count + cursor_count(clients@.skip(k as int), colors@),
            cursor_glyphs(clients@, colors@) == glyphs@ + cursor_glyphs(
                clients@.skip(k as int),
                colors@,
            ),
        decreases clients.len() - k,
    {
        proof {
            assert(clients@.skip(k as int)[0] == clients@[k as int]);
            assert(clients@.skip(k as int).skip(1) =~= clients@.skip(k as int + 1));
        }
        let c = clients[k];
        if c >= 1 && (c as usize) <= colors.len() {
            let col = colors[(c as usize) - 1];
            let g = paint(" ", col, col, false);
            proof {
                reveal_strlit(" ");
                assert(" "@ =~= seq![' ']);
            }
            glyphs.append(g.as_str());
            count = count + 1;
        }
        k = k + 1;
    }
    proof {
        assert(clients@.skip(clients@.len() as int) =~= Seq::<u16>::empty());
    }

    let (fg, bg, bold) = if tab.active {
        (palette.black, palette.yellow, true)
    } else if matches!(palette.theme_hue, ThemeHue::Dark) {
        (palette.fg, palette.bg, false)
    } else {
        (palette.bg, palette.fg, false)
    };
    let mut part = paint(padded_text.as_str(), fg, bg, bold);
    let extra: usize = if count > 0 {
        part.append("[");
        part.append(glyphs.as_str());
        part.append("]");
        proof {
            reveal_strlit("[");
            reveal_strlit("]");
            assert("["@ =~= seq!['[']);
            assert("]"@ =~= seq![']']);
        }
        count.saturating_add(2)
    } else {
        0
    };
    proof {
        assert(part@ =~= tab_part(text@, *tab, *palette));
    }
    let len = w.saturating_add(extra);

    LinePart { part, len, tab_index: Some(tab.position) }
}

/// The display name a tab is measured and painted with: the given name, with
/// the sync marker appended when the tab's panes are synchronized.
pub open spec fn display_name(name: Seq<char>, sync: bool) -> Seq<char> {
    if sync {
        name + " (Sync)"@
    } else {
        name
    }
}

/// Styles one tab: appends the sync marker to the name when the tab's panes
/// are synchronized, then renders the tab as a segment.
pub fn tab_style(tabname: String, tab: &TabInfo, palette: &Palette) -> (r: LinePart)
    ensures
        r.tab_index == Some(tab.position),
        r.part@ == tab_part(display_name(tabname@, tab.is_sync_panes_active), *tab, *palette),
        r.len as nat == tab_width(display_name(tabname@, tab.is_sync_panes_active), *tab, *palette),
{
    let mut tabname = tabname;
    if tab.is_sync_panes_active {
        tabname.append(" (Sync)");
    }
    render_tab(tabname, tab, palette)
}

/// The session-name prefix segment: the padded session name painted in the
/// neutral pair, owned by no tab.
pub fn session_segment(name: &String, palette: &Palette) -> (r: LinePart)
    ensures
        r.tab_index is None,
        r.part@ == painted_of(
            padded(name@),
            tab_colors(false, *palette).0,
            tab_colors(false, *palette).1,
            tab_colors(false, *palette).2,
        ),
        r.len as nat == width_of(padded(name@)),
{
    let mut padded_text = String::new();
    padded_text.append(" ");
    padded_text.append(name.as_str());
    padded_text.append(" ");
    proof {
        reveal_strlit(" ");
        assert(padded_text@ =~= padded(name@));
    }
    let len = display_width(padded_text.as_str());
    let (fg, bg) = if matches!(palette.theme_hue, ThemeHue::Dark) {
        (palette.fg, palette.bg)
    } else {
        (palette.bg, palette.fg)
    };
    let part = paint(padded_text.as_str(), fg, bg, false);
    LinePart { part, len, tab_index: None }
}

/// The decimal digits of `n`, as characters.
pub open spec fn dec_chars(n: nat) -> Seq<char> {
    enc_u64(n).map_values(|b: u8| b as char)
}

/// Relies on String::from_utf8: bytes in the ASCII range decode one
/// character per byte, with the same scalar values.
#[verifier::external_body]
fn ascii_to_string(b: Vec<u8>) -> (r: String)
    requires
        forall|i: int| 0 <= i < b@.len() ==> b@[i] < 128,
    ensures
        r@.len() == b@.len(),
        forall|i: int| 0 <= i < b@.len() ==> r@[i] == b@[i] as char,
{
    String::from_utf8(b).unwrap_or_default()
}

/// The decimal label of `n`, as text.
fn number_label(n: u64) -> (r: String)
    ensures
        r@ == dec_chars(n as nat),
{
    let mut digits: Vec<u8> = Vec::new();
    push_u64(&mut digits, n);
    proof {
        lemma_enc_u64_props(n as nat);
        assert(digits@ =~= enc_u64(n as nat));
    }
    let r = ascii_to_string(digits);
    proof {
        assert(r@ =~= dec_chars(n as nat));
    }
    r
}

/// The text a tab is labeled with: its 1-based number, a space, and its
/// name; an empty name shows a placeholder while the active tab is being
/// renamed.
pub open spec fn tab_label_text(t: TabInfo, k: int, mode: InputMode) -> Seq<char> {
    (dec_chars((k + 1) as nat) + seq![' ']) + (if t.active && mode is RenameTab && t.name@.len()
        == 0 {
        "Enter name..."@
    } else {
        t.name@
    })
}

/// What one styled tab segment must be.
pub open spec fn styled_ok(t: TabInfo, k: int, mode: InputMode, p: Palette, seg: LinePart) -> bool {
    seg.tab_index == Some(t.position) && seg.part@ == tab_part(
        display_name(tab_label_text(t, k, mode), t.is_sync_panes_active),
        t,
        p,
    ) && seg.len as nat == tab_width(display_name(tab_label_text(t, k, mode), t.is_sync_panes_active), t, p)
}

/// Styles every tab of the list in order, numbering them from one.
pub fn style_tabs(tabs: &Vec<TabInfo>, mode: InputMode, palette: &Palette) -> (r: Vec<LinePart>)
    ensures
        r@.len() == tabs@.len(),
        forall|k: int| 0 <= k < tabs@.len() ==> styled_ok(tabs@[k], k, mode, *palette, #[trigger] r@[k]),
{
    let mut out: Vec<LinePart> = Vec::new();
    let mut k: usize = 0;
    while k < tabs.len()
        invariant
            k <= tabs@.len(),
            out@.len() == k,
            forall|j: int| 0 <= j < k ==> styled_ok(tabs@[j], j, mode, *palette, #[trigger] out@[j]),
        decreases tabs.len() - k,
    {
        let mut text = number_label((k as u64) + 1);
        text.append(" ");
        let t = &tabs[k];
        let renaming = t.active && matches!(mode, InputMode::RenameTab) && t.name.as_str().is_empty();
        if renaming {
            text.append("Enter name...");
        } else {
            text.append(t.name.as_str());
        }
        proof {
            reveal_strlit(" ");
            assert(" "@ =~= seq![' ']);
            assert(text@ =~= tab_label_text(tabs@[k as int], k as int, mode));
        }
        let seg = tab_style(text, t, palette);
        out.push(seg);
        k = k + 1;
    }
    out
}

} // verus!
