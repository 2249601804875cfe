use vstd::prelude::*;
use crate::host::{Capabilities, Palette};
use crate::segment::LinePart;
use crate::tab::{padded, painted_of, tab_colors, width_of};

verus! {

/// Width in columns of a strip: the sum of its segment widths.
pub open spec fn strip_width(parts: Seq<LinePart>) -> int
    decreases parts.len(),
{
    if parts.len() == 0 {
        0
    } else {
        parts[0].len + strip_width(parts.skip(1))
    }
}

/// Index of the segment whose column interval contains `col`, scanning left
/// to right: the first segment `k` with `start_k <= col < start_k + len_k`,
/// where `start_k` is the summed width of the segments before it.
pub open spec fn spec_hit(parts: Seq<LinePart>, col: int) -> Option<int>
    decreases parts.len(),
{
    if parts.len() == 0 || col < 0 {
        None
    } else if col < parts[0].len {
        Some(0)
    } else {
        match spec_hit(parts.skip(1), col - parts[0].len) {
            Some(k) => Some(k + 1),
            None => None,
        }
    }
}

/// Every segment that stands for a tab stands for one whose 1-based ordinal
/// still fits in a `usize`.
pub open spec fn strip_well_formed(parts: Seq<LinePart>) -> bool {
    forall|k: int|
        0 <= k < parts.len() ==> (#[trigger] parts[k].tab_index matches Some(t) ==> t
            < usize::MAX)
}

/// The tab selection a click at `col` resolves to: the clicked segment's
/// owner tab as a 1-based ordinal, or no selection when no segment contains
/// the column, when the hit segment has no owner, or when the owner is the
/// currently active tab.
pub open spec fn spec_tab_to_focus(parts: Seq<LinePart>, active: usize, col: int) -> Option<
    usize,
> {
    match spec_hit(parts, col) {
        None => None,
        Some(k) => match parts[k].tab_index {
            None => None,
            Some(t) => if t + 1 == active {
                None
            } else {
                Some((t + 1) as usize)
            },
        },
    }
}

/// A hit segment's index lies inside the strip.
pub proof fn lemma_hit_in_range(parts: Seq<LinePart>, col: int)
    ensures
        spec_hit(parts, col) matches Some(k) ==> 0 <= k < parts.len(),
    decreases parts.len(),
{
    if parts.len() == 0 || col < 0 {
    } else if col < parts[0].len {
    } else {
        lemma_hit_in_range(parts.skip(1), col - parts[0].len);
    }
}

/// The segment of the strip that contains the clicked column, if any.
pub fn get_clicked_line_part<'a>(tab_line: &'a [LinePart], mouse_click_col: usize) -> (r: Option<
    &'a LinePart,
>)
    ensures
        (match r {
            Some(p) => spec_hit(tab_line@, mouse_click_col as int) matches Some(k) && *p
                == tab_line@[k],
            None => spec_hit(tab_line@, mouse_click_col as int) is None,
        }),
{
    let mut i: usize = 0;
    let mut rel: usize = mouse_click_col;
    proof {
        assert(tab_line@.skip(0) =~= tab_line@);
    }
    while i < tab_line.len()
        invariant
            i <= tab_line.len(),
            spec_hit(tab_line@, mouse_click_col as int) == (match spec_hit(
                tab_line@.skip(i as int),
                rel as int,
            ) {
                Some(k) => Some(k + i),
                None => None::<int>,
            }),
        decreases tab_line.len() - i,
    {
        let p = &tab_line[i];
        assert(tab_line@.skip(i as int)[0] == tab_line@[i as int]);
        if rel < p.len {
            return Some(p);
        }
        proof {
            assert(tab_line@.skip(i as int).skip(1) =~= tab_line@.skip(i as int + 1));
        }
        rel = rel - p.len;
        i = i + 1;
    }
    None
}

/// The 1-based tab ordinal to focus after a click at `mouse_click_col`, or
/// `None` when the click selects nothing or lands on the active tab.
pub fn get_tab_to_focus(tab_line: &[LinePart], active_tab_idx: usize, mouse_click_col: usize) -> (r:
    Option<usize>)
    requires
        strip_well_formed(tab_line@),
    ensures
        r == spec_tab_to_focus(tab_line@, active_tab_idx, mouse_click_col as int),
{
    let clicked = get_clicked_line_part(tab_line, mouse_click_col);
    match clicked {
        None => None,
        Some(p) => match p.tab_index {
            None => None,
            Some(t) => {
                proof {
                    lemma_hit_in_range(tab_line@, mouse_click_col as int);
                    let k = spec_hit(tab_line@, mouse_click_col as int)->Some_0;
                    assert(tab_line@[k].tab_index matches Some(u) ==> u < usize::MAX);
                }
                let idx = t + 1;
                if idx != active_tab_idx {
                    Some(idx)
                } else {
                    None
                }
            },
        },
    }
}

/// Index of the first segment that stands for the tab at 0-based position
/// `active`, if any.
pub open spec fn first_active(parts: Seq<LinePart>, active: usize) -> Option<int>
    decreases parts.len(),
{
    if parts.len() == 0 {
        None
    } else if parts[0].tab_index == Some(active) {
        Some(0)
    } else {
        match first_active(parts.skip(1), active) {
            Some(k) => Some(k + 1),
            None => None,
        }
    }
}

/// The greedy prefix of segments that fit in `budget` columns, stopping at
/// the first segment that does not.
pub open spec fn take_fitting(parts: Seq<LinePart>, budget: int) -> Seq<LinePart>
    decreases parts.len(),
{
    if parts.len() == 0 {
        Seq::empty()
    } else if parts[0].len <= budget {
        seq![parts[0]] + take_fitting(parts.skip(1), budget - parts[0].len)
    } else {
        Seq::empty()
    }
}

/// The greedy prefix of segments that fit in `budget` columns with `reserve`
/// columns held back, stopping at the first segment that does not.
pub open spec fn take_reserving(parts: Seq<LinePart>, reserve: int, budget: int) -> Seq<LinePart>
    decreases parts.len(),
{
    if parts.len() == 0 {
        Seq::empty()
    } else if parts[0].len + reserve <= budget {
        seq![parts[0]] + take_reserving(parts.skip(1), reserve, budget - parts[0].len)
    } else {
        Seq::empty()
    }
}

/// Which tab segments the strip keeps within `budget` columns. When an
/// active segment exists and fits the budget on its own, earlier segments
/// are taken greedily while reserving the active segment's width, the active
/// segment is kept, and later segments fill what remains; otherwise the
/// strip is a plain greedy prefix. Segments are never reordered, and none is
/// kept whose width does not fit.
pub open spec fn spec_pick_tabs(parts: Seq<LinePart>, active: usize, budget: int) -> Seq<
    LinePart,
> {
    if first_active(parts, active) is Some {
        let a = first_active(parts, active)->Some_0;
        if parts[a].len <= budget {
            let pre = take_reserving(parts.take(a), parts[a].len as int, budget);
            pre + seq![parts[a]] + take_fitting(
                parts.skip(a + 1),
                budget - strip_width(pre) - parts[a].len,
            )
        } else {
            take_fitting(parts, budget)
        }
    } else {
        take_fitting(parts, budget)
    }
}

/// The whole strip: nothing when there are no tabs; otherwise the session
/// segment when it is present and fits, followed by the kept tab segments.
pub open spec fn spec_compose(
    session: Option<LinePart>,
    parts: Seq<LinePart>,
    active: usize,
    max: int,
) -> Seq<LinePart> {
    if parts.len() == 0 {
        Seq::empty()
    } else {
        let base = if session is Some && session->Some_0.len <= max {
            seq![session->Some_0]
        } else {
            Seq::<LinePart>::empty()
        };
        base + spec_pick_tabs(parts, active, max - strip_width(base))
    }
}

/// Prepending one segment adds its width.
pub proof fn lemma_strip_width_cons(t: LinePart, rest: Seq<LinePart>)
    ensures
        strip_width(seq![t] + rest) == t.len + strip_width(rest),
{
    assert((seq![t] + rest).skip(1) =~= rest);
    assert((seq![t] + rest)[0] == t);
}

/// Appends to `out` the greedy prefix of `tabs` that fits in `budget`
/// columns, and returns the unspent budget.
fn push_fitting(out: &mut Vec<LinePart>, tabs: Vec<LinePart>, budget: usize) -> (rem: usize)
    ensures
        final(out)@ == old(out)@ + take_fitting(tabs@, budget as int),
        rem == budget - strip_width(take_fitting(tabs@, budget as int)),
{
    let mut rest = tabs;
    let mut bud = budget;
    while rest.len() > 0
        invariant
            bud <= budget,
            out@ + take_fitting(rest@, bud as int) == old(out)@ + take_fitting(
                tabs@,
                budget as int,
            ),
            bud - strip_width(take_fitting(rest@, bud as int)) == budget - strip_width(
                take_fitting(tabs@, budget as int),
            ),
        decreases rest.len(),
    {
        if rest[0].len > bud {
            proof {
                assert(out@ + take_fitting(rest@, bud as int) =~= out@);
            }
            return bud;
        }
        let ghost rest_pre = rest@;
        let ghost bud_pre = bud as int;
        let ghost out_pre = out@;
        proof {
            assert(rest@.remove(0) =~= rest@.skip(1));
        }
        let t = rest.remove(0);
        bud = bud - t.len;
        out.push(t);
        proof {
            assert(out@ =~= out_pre + seq![t]);
            lemma_strip_width_cons(t, take_fitting(rest@, bud as int));
            assert(take_fitting(rest_pre, bud_pre) == seq![t] + take_fitting(rest@, bud as int));
            assert(out@ + take_fitting(rest@, bud as int) =~= out_pre + take_fitting(
                rest_pre,
                bud_pre,
            ));
        }
    }
    proof {
        assert(out@ + take_fitting(rest@, bud as int) =~= out@);
    }
    bud
}

/// Appends to `out` the greedy prefix of `tabs` that fits in `budget`
/// columns beside a reservation of `reserve` columns, and returns the
/// unspent budget, reservation included.
fn push_reserving(out: &mut Vec<LinePart>, tabs: Vec<LinePart>, reserve: usize, budget: usize) -> (rem: usize)
    requires
        reserve <= budget,
    ensures
        final(out)@ == old(out)@ + take_reserving(tabs@, reserve as int, budget as int),
        rem == budget - strip_width(take_reserving(tabs@, reserve as int, budget as int)),
        rem >= reserve,
{
    let mut rest = tabs;
    let mut bud = budget;
    while rest.len() > 0
        invariant
            reserve <= bud <= budget,
            out@ + take_reserving(rest@, reserve as int, bud as int) == old(out)@ + take_reserving(
                tabs@,
                reserve as int,
                budget as int,
            ),
            bud - strip_width(take_reserving(rest@, reserve as int, bud as int)) == budget
                - strip_width(take_reserving(tabs@, reserve as int, budget as int)),
        decreases rest.len(),
    {
        if rest[0].len > bud - reserve {
            proof {
                assert(out@ + take_reserving(rest@, reserve as int, bud as int) =~= out@);
            }
            return bud;
        }
        let ghost rest_pre = rest@;
        let ghost bud_pre = bud as int;
        let ghost out_pre = out@;
        proof {
            assert(rest@.remove(0) =~= rest@.skip(1));
        }
        let t = rest.remove(0);
        bud = bud - t.len;
        out.push(t);
        proof {
            assert(out@ =~= out_pre + seq![t]);
            lemma_strip_width_cons(t, take_reserving(rest@, reserve as int, bud as int));
            assert(take_reserving(rest_pre, reserve as int, bud_pre) == seq![t] + take_reserving(
                rest@,
                reserve as int,
                bud as int,
            ));
            assert(out@ + take_reserving(rest@, reserve as int, bud as int) =~= out_pre
                + take_reserving(rest_pre, reserve as int, bud_pre));
        }
    }
    proof {
        assert(out@ + take_reserving(rest@, reserve as int, bud as int) =~= out@);
    }
    bud
}

/// Composes the strip from the optional session segment and the styled tab
/// segments: the session segment first when it fits `max_columns`, then the
/// tab segments under the documented keep-the-active-tab truncation rule.
/// An empty tab list gives an empty strip.
pub fn compose(
    session_part: Option<LinePart>,
    all_tabs: Vec<LinePart>,
    active_tab_position: usize,
    max_columns: usize,
) -> (r: Vec<LinePart>)
    ensures
        r@ == spec_compose(session_part, all_tabs@, active_tab_position, max_columns as int),
{
    let ghost tabs0 = all_tabs@;
    let mut out: Vec<LinePart> = Vec::new();
    if all_tabs.len() == 0 {
        return out;
    }
    let mut budget: usize = max_columns;
    match session_part {
        Some(s) => {
            if s.len <= max_columns {
                budget = max_columns - s.len;
                out.push(s);
            }
        },
        None => {},
    }
    let ghost base_done = out@;
    proof {
        if session_part is Some && session_part->Some_0.len <= max_columns {
            lemma_strip_width_cons(session_part->Some_0, Seq::<LinePart>::empty());
            assert(base_done =~= seq![session_part->Some_0] + Seq::<LinePart>::empty());
            assert(strip_width(base_done) == session_part->Some_0.len);
        } else {
            assert(strip_width(base_done) == 0);
        }
        assert(budget == max_columns - strip_width(base_done));
    }

    let mut a_opt: Option<usize> = None;
    let mut i: usize = 0;
    proof {
        assert(tabs0.skip(0) =~= tabs0);
    }
    while i < all_tabs.len() && a_opt.is_none()
        invariant
            i <= all_tabs.len(),
            all_tabs@ == tabs0,
            (match a_opt {
                Some(a) => first_active(tabs0, active_tab_position) == Some(a as int) && a
                    < tabs0.len(),
                None => first_active(tabs0, active_tab_position) == (match first_active(
                    tabs0.skip(i as int),
                    active_tab_position,
                ) {
                    Some(k) => Some(k + i),
                    None => None::<int>,
                }),
            }),
        decreases all_tabs.len() - i, (if a_opt is Some { 0int } else { 1int }),
    {
        proof {
            assert(tabs0.skip(i as int)[0] == tabs0[i as int]);
            assert(tabs0.skip(i as int).skip(1) =~= tabs0.skip(i as int + 1));
        }
        let hit = match all_tabs[i].tab_index {
            Some(t) => t == active_tab_position,
            None => false,
        };
        if hit {
            proof {
                assert(first_active(tabs0.skip(i as int), active_tab_position) == Some(0int));
            }
            a_opt = Some(i);
        } else {
            i = i + 1;
        }
    }
    proof {
        if a_opt is None {
            assert(i == all_tabs.len());
            assert(tabs0.skip(tabs0.len() as int) =~= Seq::<LinePart>::empty());
            assert(first_active(tabs0, active_tab_position) is None);
        }
    }

    match a_opt {
        None => {
            push_fitting(&mut out, all_tabs, budget);
        },
        Some(a) => {
            let alen = all_tabs[a].len;
            if alen <= budget {
                let mut pre_tabs = all_tabs;
                let post_tabs = pre_tabs.split_off(a + 1);
                let active_seg_opt = pre_tabs.pop();
                let active_seg = match active_seg_opt {
                    Some(t) => t,
                    None => {
                        proof {
                            assert(false);
                        }
                        return out;
                    },
                };
                proof {
                    assert(pre_tabs@ =~= tabs0.take(a as int));
                    assert(post_tabs@ =~= tabs0.skip(a as int + 1));
                    assert(active_seg == tabs0[a as int]);
                }
                let rem = push_reserving(&mut out, pre_tabs, alen, budget);
                out.push(active_seg);
                push_fitting(&mut out, post_tabs, rem - alen);
            } else {
                push_fitting(&mut out, all_tabs, budget);
            }
        },
    }
    proof {
        assert(out@ =~= spec_compose(
            session_part,
            tabs0,
            active_tab_position,
            max_columns as int,
        ));
    }
    out
}

/// The width of a concatenation is the sum of the widths.
pub proof fn lemma_strip_width_concat(a: Seq<LinePart>, b: Seq<LinePart>)
    ensures
        strip_width(a + b) == strip_width(a) + strip_width(b),
    decreases a.len(),
{
    if a.len() == 0 {
        assert(a + b =~= b);
    } else {
        assert((a + b).skip(1) =~= a.skip(1) + b);
        assert((a + b)[0] == a[0]);
        lemma_strip_width_concat(a.skip(1), b);
    }
}

/// The greedy prefix fits its budget.
pub proof fn lemma_take_fitting_width(parts: Seq<LinePart>, budget: int)
    requires
        budget >= 0,
    ensures
        0 <= strip_width(take_fitting(parts, budget)) <= budget,
    decreases parts.len(),
{
    if parts.len() == 0 {
    } else if parts[0].len <= budget {
        lemma_take_fitting_width(parts.skip(1), budget - parts[0].len);
        lemma_strip_width_cons(parts[0], take_fitting(parts.skip(1), budget - parts[0].len));
    }
}

/// The reserving prefix fits its budget beside the reservation.
pub proof fn lemma_take_reserving_width(parts: Seq<LinePart>, reserve: int, budget: int)
    requires
        0 <= reserve <= budget,
    ensures
        0 <= strip_width(take_reserving(parts, reserve, budget)),
        strip_width(take_reserving(parts, reserve, budget)) + reserve <= budget,
    decreases parts.len(),
{
    if parts.len() == 0 {
    } else if parts[0].len + reserve <= budget {
        lemma_take_reserving_width(parts.skip(1), reserve, budget - parts[0].len);
        lemma_strip_width_cons(
            parts[0],
            take_reserving(parts.skip(1), reserve, budget - parts[0].len),
        );
    }
}

/// The kept tab segments fit their budget.
pub proof fn lemma_pick_tabs_width(parts: Seq<LinePart>, active: usize, budget: int)
    requires
        budget >= 0,
    ensures
        0 <= strip_width(spec_pick_tabs(parts, active, budget)) <= budget,
{
    if first_active(parts, active) is Some {
        let a = first_active(parts, active)->Some_0;
        lemma_first_active_in_range(parts, active);
        if parts[a].len <= budget {
            let pre = take_reserving(parts.take(a), parts[a].len as int, budget);
            lemma_take_reserving_width(parts.take(a), parts[a].len as int, budget);
            let fit = take_fitting(parts.skip(a + 1), budget - strip_width(pre) - parts[a].len);
            lemma_take_fitting_width(
                parts.skip(a + 1),
                budget - strip_width(pre) - parts[a].len,
            );
            lemma_strip_width_concat(pre + seq![parts[a]], fit);
            lemma_strip_width_concat(pre, seq![parts[a]]);
            assert(strip_width(seq![parts[a]]) == parts[a].len) by {
                lemma_strip_width_cons(parts[a], Seq::<LinePart>::empty());
                assert(seq![parts[a]] + Seq::<LinePart>::empty() =~= seq![parts[a]]);
            };
        } else {
            lemma_take_fitting_width(parts, budget);
        }
    } else {
        lemma_take_fitting_width(parts, budget);
    }
}

/// A first active index lies inside the strip.
pub proof fn lemma_first_active_in_range(parts: Seq<LinePart>, active: usize)
    ensures
        first_active(parts, active) matches Some(a) ==> 0 <= a < parts.len(),
    decreases parts.len(),
{
    if parts.len() == 0 {
    } else if parts[0].tab_index == Some(active) {
    } else {
        lemma_first_active_in_range(parts.skip(1), active);
    }
}

/// Law: for any inputs, the composed strip's width never exceeds the column
/// budget.
pub proof fn lemma_compose_width_bound(
    session: Option<LinePart>,
    parts: Seq<LinePart>,
    active: usize,
    max: int,
)
    requires
        max >= 0,
    ensures
        strip_width(spec_compose(session, parts, active, max)) <= max,
{
    if parts.len() == 0 {
    } else {
        let base = if session is Some && session->Some_0.len <= max {
            seq![session->Some_0]
        } else {
            Seq::<LinePart>::empty()
        };
        if session is Some && session->Some_0.len <= max {
            lemma_strip_width_cons(session->Some_0, Seq::<LinePart>::empty());
            assert(seq![session->Some_0] + Seq::<LinePart>::empty() =~= base);
            assert(strip_width(base) == session->Some_0.len);
        }
        lemma_pick_tabs_width(parts, active, max - strip_width(base));
        lemma_strip_width_concat(base, spec_pick_tabs(parts, active, max - strip_width(base)));
    }
}


/// The session name the caller handed over, as a sequence of characters.
pub open spec fn opt_name(s: Option<&String>) -> Option<Seq<char>> {
    match s {
        Some(n) => Some(n@),
        None => None,
    }
}

/// What the session-name prefix of the strip must be: absent when no name is
/// given or when arrow fonts replace it; otherwise the padded name painted
/// in the neutral pair, owned by no tab.
pub open spec fn session_part_ok(
    name: Option<Seq<char>>,
    p: Palette,
    caps: Capabilities,
    s: Option<LinePart>,
) -> bool {
    match name {
        None => s is None,
        Some(n) => if caps.arrow_fonts {
            s is None
        } else {
            s matches Some(sp) && sp.tab_index is None && sp.part@ == painted_of(
                padded(n),
                tab_colors(false, p).0,
                tab_colors(false, p).1,
                tab_colors(false, p).2,
            ) && sp.len as nat == width_of(padded(n))
        },
    }
}

/// Renders the whole tab line: a session-name segment is prepended when the
/// capabilities allow it and a name is present, and the strip is truncated
/// to `max_columns` under the keep-the-active-tab rule.
pub fn tab_line(
    session_name: Option<&String>,
    all_tabs: Vec<LinePart>,
    active_tab_position: usize,
    max_columns: usize,
    palette: &Palette,
    capabilities: Capabilities,
) -> (r: Vec<LinePart>)
    ensures
        exists|s: Option<LinePart>|
            session_part_ok(opt_name(session_name), *palette, capabilities, s) && r@
                == spec_compose(s, all_tabs@, active_tab_position, max_columns as int),
{
    let session_part: Option<LinePart> = match session_name {
        Some(n) => if capabilities.arrow_fonts {
            None
        } else {
            Some(crate::tab::session_segment(n, palette))
        },
        None => None,
    };
    let ghost sp = session_part;
    let r = compose(session_part, all_tabs, active_tab_position, max_columns);
    proof {
        assert(session_part_ok(opt_name(session_name), *palette, capabilities, sp) && r@
            == spec_compose(sp, all_tabs@, active_tab_position, max_columns as int));
    }
    r
}

/// Law: click resolution is idempotent. Any two resolutions of the same
/// column against the same strip and active tab agree.
pub proof fn lemma_click_resolution_idempotent(
    parts: Seq<LinePart>,
    active: usize,
    col: int,
    r1: Option<usize>,
    r2: Option<usize>,
)
    requires
        r1 == spec_tab_to_focus(parts, active, col),
        r2 == spec_tab_to_focus(parts, active, col),
    ensures
        r1 == r2,
{
}

/// Law: a click that lands inside the active tab's own segment resolves to
/// no selection.
pub proof fn lemma_click_on_active_is_noop(parts: Seq<LinePart>, active: usize, col: int)
    requires
        spec_hit(parts, col) matches Some(k) && parts[k].tab_index matches Some(t) && t + 1
            == active,
    ensures
        spec_tab_to_focus(parts, active, col) is None,
{
}

} // verus!
